//! Where things stand below a directory, by the names on the way.

use vstd::prelude::*;

use crate::discovery::{lemma_slash_joined, plain_path};
use crate::names::{component, plain, proper};
use crate::registry_fs::{delete_next, joined, tag_dir, tags_dir, DeleteAction, DeleteEvent};
use crate::walk::{repository_name, slash_joined};

verus! {

/// Whether all names in `p` can stand between two slashes of a path.
pub open spec fn component_path(p: Seq<Seq<char>>) -> bool {
    forall|i: int| 0 <= i < p.len() ==> component(#[trigger] p[i])
}

/// The path of what the names `p` lead to from the directory `base`. The base `""` is the root of
/// the file system.
pub open spec fn located(base: Seq<char>, p: Seq<Seq<char>>) -> Seq<char> {
    base.push('/') + slash_joined(p)
}

/// The names that lead to the tag `tag` of the repository that the names `repo` lead to from the
/// directory of the repositories, which stands at `at`.
pub open spec fn tag_path(at: Seq<Seq<char>>, repo: Seq<Seq<char>>, tag: Seq<char>) -> Seq<
    Seq<char>,
> {
    at + repo + seq!["_manifests"@, "tags"@, tag]
}

/// The names in `p`, each with a slash after it.
spec fn slashed(p: Seq<Seq<char>>) -> Seq<char>
    decreases p.len(),
{
    if p.len() == 0 {
        Seq::empty()
    } else {
        p.first().push('/') + slashed(p.drop_first())
    }
}

proof fn lemma_slashed_add(p: Seq<Seq<char>>, q: Seq<Seq<char>>)
    ensures
        slashed(p + q) == slashed(p) + slashed(q),
    decreases p.len(),
{
    if p.len() == 0 {
        assert(p + q =~= q);
        assert(slashed(p) + slashed(q) =~= slashed(q));
    } else {
        assert((p + q).drop_first() =~= p.drop_first() + q);
        lemma_slashed_add(p.drop_first(), q);
        assert(slashed(p + q) =~= slashed(p) + slashed(q));
    }
}

proof fn lemma_slashed(p: Seq<Seq<char>>)
    requires
        p.len() > 0,
    ensures
        slashed(p) == slash_joined(p).push('/'),
    decreases p.len(),
{
    let (front, last) = (p.drop_last(), seq![p.last()]);
    assert(p =~= front + last);
    lemma_slashed_add(front, last);
    assert(last.drop_first() =~= Seq::empty());
    reveal_with_fuel(slashed, 2);
    assert(slashed(last) =~= p.last().push('/'));
    if p.len() == 1 {
        assert(slashed(front) =~= Seq::empty());
    } else {
        lemma_slashed(front);
    }
    assert(slashed(p) =~= slash_joined(p).push('/'));
}

proof fn lemma_slash_joined_add(p: Seq<Seq<char>>, q: Seq<Seq<char>>)
    requires
        p.len() > 0,
        q.len() > 0,
    ensures
        slash_joined(p + q) == slash_joined(p).push('/') + slash_joined(q),
{
    lemma_slashed(p);
    lemma_slashed(q);
    lemma_slashed(p + q);
    lemma_slashed_add(p, q);
    let (a, b) = (slash_joined(p + q), slash_joined(p).push('/') + slash_joined(q));
    assert(a.push('/') == slash_joined(p).push('/') + slash_joined(q).push('/'));
    assert(slash_joined(p).push('/') + slash_joined(q).push('/') =~= b.push('/'));
    assert(a =~= a.push('/').drop_last());
    assert(b =~= b.push('/').drop_last());
}

proof fn lemma_first_names(x: Seq<char>, y: Seq<char>, u: Seq<char>, v: Seq<char>)
    requires
        component(x),
        component(y),
        (x.push('/') + u).is_prefix_of(y.push('/') + v),
    ensures
        x == y,
        u.is_prefix_of(v),
{
    let (s, t) = (x.push('/') + u, y.push('/') + v);
    assert(s == t.subrange(0, s.len() as int));
    assert forall|k: int| 0 <= k < s.len() implies s[k] == t[k] by {}
    if x.len() < y.len() {
        assert(s[x.len() as int] == '/');
        assert(t[x.len() as int] == y[x.len() as int]);
        assert(y.contains(y[x.len() as int]));
    }
    if y.len() < x.len() {
        assert(t[y.len() as int] == '/');
        assert(s[y.len() as int] == x[y.len() as int]);
        assert(x.contains(x[y.len() as int]));
    }
    assert forall|k: int| 0 <= k < x.len() implies x[k] == y[k] by {
        assert(s[k] == x[k] && t[k] == y[k]);
    }
    assert(x =~= y);
    let d = x.len() + 1;
    assert forall|k: int| 0 <= k < u.len() implies u[k] == v[k] by {
        assert(s[d + k] == u[k] && t[d + k] == v[k]);
    }
    assert(u =~= v.subrange(0, u.len() as int));
}

proof fn lemma_slashed_prefix(p: Seq<Seq<char>>, q: Seq<Seq<char>>)
    requires
        component_path(p),
        component_path(q),
    ensures
        slashed(p).is_prefix_of(slashed(q)) <==> p.is_prefix_of(q),
    decreases p.len(),
{
    if p.len() == 0 {
        assert(p =~= q.subrange(0, 0));
        assert(slashed(p) =~= slashed(q).subrange(0, 0));
    } else if q.len() > 0 {
        let (x, y) = (p[0], q[0]);
        let (f, g) = (p.drop_first(), q.drop_first());
        assert forall|i: int| 0 <= i < f.len() implies component(#[trigger] f[i]) by {
            assert(p[i + 1] == f[i]);
        }
        assert forall|i: int| 0 <= i < g.len() implies component(#[trigger] g[i]) by {
            assert(q[i + 1] == g[i]);
        }
        lemma_slashed_prefix(f, g);
        if slashed(p).is_prefix_of(slashed(q)) {
            lemma_first_names(x, y, slashed(f), slashed(g));
            assert(f == g.subrange(0, f.len() as int));
            assert forall|k: int| 0 <= k < p.len() implies p[k] == q[k] by {
                if k > 0 {
                    assert(f[k - 1] == g[k - 1]);
                }
            }
            assert(p =~= q.subrange(0, p.len() as int));
        }
        if p.is_prefix_of(q) {
            let rest = q.skip(p.len() as int);
            assert(q =~= p + rest);
            lemma_slashed_add(p, rest);
            assert(slashed(p) =~= slashed(q).subrange(0, slashed(p).len() as int));
        }
    }
}

/// One thing stands in another, or is it, if and only if the names that lead to the other are the
/// first of those that lead to the one.
pub proof fn law_paths_go_by_names(base: Seq<char>, p: Seq<Seq<char>>, q: Seq<Seq<char>>)
    requires
        component_path(p),
        component_path(q),
        p.len() > 0,
        q.len() > 0,
    ensures
        located(base, p).push('/').is_prefix_of(located(base, q).push('/')) <==> p.is_prefix_of(q),
{
    lemma_slashed(p);
    lemma_slashed(q);
    lemma_slashed_prefix(p, q);
    let b = base.push('/');
    let (s, t) = (slashed(p), slashed(q));
    assert(located(base, p).push('/') =~= b + s);
    assert(located(base, q).push('/') =~= b + t);
    if s.is_prefix_of(t) {
        assert(b + s =~= (b + t).subrange(0, (b + s).len() as int));
    }
    if (b + s).is_prefix_of(b + t) {
        assert(b + s == (b + t).subrange(0, (b + s).len() as int));
        assert forall|k: int| 0 <= k < s.len() implies s[k] == t[k] by {
            assert((b + s)[b.len() + k] == (b + t)[b.len() + k]);
        }
        assert(s =~= t.subrange(0, s.len() as int));
    }
}

proof fn lemma_located_last(base: Seq<char>, p: Seq<Seq<char>>)
    requires
        component_path(p),
        p.len() > 0,
    ensures
        located(base, p).len() > 0,
        located(base, p).last() != '/',
{
    let last = p[p.len() - 1];
    assert(component(last));
    assert(last.contains(last[last.len() - 1]));
    assert(slash_joined(p).len() > 0 && slash_joined(p).last() == last.last());
}

/// The repositories of a store stand where the names `docker`, `registry`, `v2` and `repositories`
/// lead to from its data directory.
pub proof fn law_repositories_stand_in_the_data_directory(base: Seq<char>, data: Seq<Seq<char>>)
    requires
        component_path(data),
        data.len() > 0,
    ensures
        joined(located(base, data), "docker/registry/v2/repositories"@) == located(
            base,
            data + seq!["docker"@, "registry"@, "v2"@, "repositories"@],
        ),
{
    let rest = seq!["docker"@, "registry"@, "v2"@, "repositories"@];
    reveal_strlit("docker/registry/v2/repositories");
    reveal_strlit("docker");
    reveal_strlit("registry");
    reveal_strlit("v2");
    reveal_strlit("repositories");
    lemma_located_last(base, data);
    lemma_slash_joined_add(data, rest);
    assert(rest.drop_last() =~= seq!["docker"@, "registry"@, "v2"@]);
    assert(rest.drop_last().drop_last() =~= seq!["docker"@, "registry"@]);
    assert(rest.drop_last().drop_last().drop_last() =~= seq!["docker"@]);
    reveal_with_fuel(slash_joined, 4);
    assert(slash_joined(rest) =~= "docker/registry/v2/repositories"@);
    assert(joined(located(base, data), "docker/registry/v2/repositories"@) =~= located(
        base,
        data + rest,
    ));
}

proof fn lemma_tag_names(tag: Seq<char>)
    requires
        proper(tag),
    ensures
        component_path(seq!["_manifests"@, "tags"@, tag]),
        slash_joined(seq!["_manifests"@, "tags"@, tag]) == "_manifests/tags"@.push('/') + tag,
        "_manifests/tags"@.len() > 0,
        "_manifests/tags"@.first() != '/',
        "_manifests/tags"@.last() != '/',
{
    let rest = seq!["_manifests"@, "tags"@, tag];
    reveal_strlit("_manifests/tags");
    reveal_strlit("_manifests");
    reveal_strlit("tags");
    assert(component("_manifests"@) && component("tags"@));
    assert(rest.drop_last() =~= seq!["_manifests"@, "tags"@]);
    assert(rest.drop_last().drop_last() =~= seq!["_manifests"@]);
    reveal_with_fuel(slash_joined, 3);
    assert(slash_joined(rest) =~= "_manifests/tags"@.push('/') + tag);
}

/// What is removed to delete a tag is what the names of the tag lead to.
pub proof fn law_delete_removes_the_tag_path<E>(
    base: Seq<char>,
    at: Seq<Seq<char>>,
    repo: Seq<Seq<char>>,
    tag: Seq<char>,
)
    requires
        component_path(at),
        at.len() > 0,
        plain_path(repo),
        proper(tag),
    ensures
        component_path(tag_path(at, repo, tag)),
        tag_dir(located(base, at), repository_name(repo), tag) == located(
            base,
            tag_path(at, repo, tag),
        ),
        delete_next::<E>(located(base, at), repository_name(repo), tag, DeleteEvent::Start)
            == DeleteAction::<Seq<char>, E>::Remove(located(base, tag_path(at, repo, tag))),
{
    let rest = seq!["_manifests"@, "tags"@, tag];
    let root = located(base, at);
    let name = repository_name(repo);
    let sub = "_manifests/tags"@;
    lemma_tag_names(tag);
    assert(tag.contains(tag[0]));
    lemma_located_last(base, at);
    lemma_slash_joined(repo);
    let whole = at + repo;
    assert(component_path(repo)) by {
        assert forall|i: int| 0 <= i < repo.len() implies component(#[trigger] repo[i]) by {
            assert(plain(repo[i]));
        }
    }
    assert(component_path(whole));
    assert(component_path(tag_path(at, repo, tag)));
    lemma_slash_joined_add(whole, rest);
    assert(tags_dir(root, name) == located(base, whole).push('/') + sub) by {
        if repo.len() == 0 {
            assert(whole =~= at);
            assert(joined(root, name) =~= root.push('/'));
        } else {
            lemma_slash_joined_add(at, repo);
            assert(joined(root, name) =~= located(base, whole));
            lemma_located_last(base, whole);
        }
    }
    assert(tags_dir(root, name).last() == sub.last());
    assert(tag_dir(root, name, tag) =~= located(base, tag_path(at, repo, tag)));
}

} // verus!
