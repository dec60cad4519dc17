//! A store on disk, and what deleting a tag leaves untouched on it.

use vstd::prelude::*;

use crate::discovery::{is_repository_at, law_each_repository_is_found_once,
    law_found_iff_repository, law_walk_finds_the_repositories, lemma_names_along_plain, names_along,
    outcome, plain_dir, plain_path, repositories_of, standing_at, Dir, Reader, Tree};
use crate::names::{component, law_distinct_names_ascend, law_same_names_same_list,
    law_sorted_names, name_before, plain, proper, sorted_names};
use crate::order::lemma_same_values;
use crate::paths::{component_path, law_delete_removes_the_tag_path, law_paths_go_by_names,
    law_repositories_stand_in_the_data_directory, located, tag_path};
use crate::registry_fs::{joined, tag_dir};
use crate::walk::{repository_name, walk_next, Phase, WalkEvent, WalkView};

verus! {

/// What stands somewhere on a disk.
pub enum Node {
    /// A directory.
    Folder,
    /// A file, with its content and its modification time.
    File { content: Seq<u8>, mtime: int },
}

/// All that stands on a disk without links, by the names that lead to it from a fixed directory.
pub type Disk = Map<Seq<Seq<char>>, Node>;

/// Whether all names on `disk` can stand between two slashes of a path.
pub open spec fn well_named(disk: Disk) -> bool {
    forall|p: Seq<Seq<char>>| #[trigger] disk.contains_key(p) ==> component_path(p) && p.len() > 0
}

/// Whether a directory stands at `p`.
pub open spec fn is_folder(disk: Disk, p: Seq<Seq<char>>) -> bool {
    disk.contains_key(p) && disk[p] is Folder
}

/// Whether `a` and `b` hold the same at `p`.
pub open spec fn same_at(a: Disk, b: Disk, p: Seq<Seq<char>>) -> bool {
    &&& a.contains_key(p) == b.contains_key(p)
    &&& a.contains_key(p) ==> a[p] == b[p]
}

/// Whether `a` and `b`, disks seen from `base`, hold the same everywhere but at the path `dir` and
/// below it. What is done to remove the directory at this path is of this kind, whether it is
/// removed, is not there, or is removed in part before an error.
pub open spec fn alike_outside(base: Seq<char>, a: Disk, b: Disk, dir: Seq<char>) -> bool {
    forall|p: Seq<Seq<char>>|
        component_path(p) && p.len() > 0 && !dir.push('/').is_prefix_of(located(base, p).push('/'))
            ==> #[trigger] same_at(a, b, p)
}

/// Whether the names `repo` lead from the directory at `at` to a repository: a directory with a
/// directory `_manifests` that stands in no other such directory.
pub open spec fn repository_on(disk: Disk, at: Seq<Seq<char>>, repo: Seq<Seq<char>>) -> bool {
    &&& forall|k: int| 0 <= k <= repo.len() ==> is_folder(disk, at + #[trigger] repo.take(k))
    &&& is_folder(disk, (at + repo).push("_manifests"@))
    &&& forall|k: int|
        0 <= k < repo.len() ==> !is_folder(disk, (at + #[trigger] repo.take(k)).push("_manifests"@))
}

/// Whether `dir` is what a walk can see of the directory at `at`.
pub open spec fn seen_in(disk: Disk, at: Seq<Seq<char>>, dir: Dir) -> bool
    decreases dir,
{
    &&& dir.has_manifests == is_folder(disk, at.push("_manifests"@))
    &&& !dir.has_manifests ==> {
        &&& forall|i: int|
            #![trigger dir.entries[i]]
            0 <= i < dir.entries.len() ==> {
                let entry = dir.entries[i];
                &&& disk.contains_key(at.push(entry.name))
                &&& entry.dir is Some <==> is_folder(disk, at.push(entry.name))
                &&& entry.dir is Some ==> seen_in(disk, at.push(entry.name), entry.dir->0)
            }
        &&& forall|i: int, j: int|
            0 <= i < j < dir.entries.len() ==> (#[trigger] dir.entries[i]).name != (
            #[trigger] dir.entries[j]).name
        &&& forall|name: Seq<char>| #[trigger]
            disk.contains_key(at.push(name)) ==> exists|i: int|
                0 <= i < dir.entries.len() && (#[trigger] dir.entries[i]).name == name
    }
}

/// Whether `store` is what a walk can see of the directory at `at`, where there is one.
pub open spec fn seen(disk: Disk, at: Seq<Seq<char>>, store: Option<Dir>) -> bool {
    match store {
        Some(dir) => is_folder(disk, at) && seen_in(disk, at, dir),
        None => !is_folder(disk, at),
    }
}

/// Whether all names in `store` outside repositories are plain.
pub open spec fn plain_store(store: Option<Dir>) -> bool {
    store is Some ==> plain_dir(store->0)
}

/// Whether `names` are the names of the repositories in the directory at `at`.
pub open spec fn lists(disk: Disk, at: Seq<Seq<char>>, names: Seq<Seq<char>>) -> bool {
    forall|name: Seq<char>| #[trigger]
        names.contains(name) <==> exists|repo: Seq<Seq<char>>| #[trigger]
            repository_on(disk, at, repo) && name == repository_name(repo)
}

proof fn lemma_repository_step(disk: Disk, at: Seq<Seq<char>>, repo: Seq<Seq<char>>)
    requires
        repo.len() > 0,
    ensures
        repository_on(disk, at, repo) <==> {
            &&& is_folder(disk, at)
            &&& !is_folder(disk, at.push("_manifests"@))
            &&& repository_on(disk, at.push(repo.first()), repo.drop_first())
        },
{
    let (deeper, rest) = (at.push(repo.first()), repo.drop_first());
    assert(at + repo.take(0) =~= at);
    assert(at + repo =~= deeper + rest);
    assert forall|k: int| 0 <= k <= rest.len() implies at + repo.take(k + 1) == deeper
        + #[trigger] rest.take(k) by {
        assert(at + repo.take(k + 1) =~= deeper + rest.take(k));
    }
    if repository_on(disk, at, repo) {
        assert forall|k: int| 0 <= k <= rest.len() implies is_folder(
            disk,
            deeper + #[trigger] rest.take(k),
        ) by {
            assert(is_folder(disk, at + repo.take(k + 1)));
        }
        assert forall|k: int| 0 <= k < rest.len() implies !is_folder(
            disk,
            (deeper + #[trigger] rest.take(k)).push("_manifests"@),
        ) by {
            assert(!is_folder(disk, (at + repo.take(k + 1)).push("_manifests"@)));
        }
    }
    if is_folder(disk, at) && !is_folder(disk, at.push("_manifests"@)) && repository_on(
        disk,
        deeper,
        rest,
    ) {
        assert forall|k: int| 0 <= k <= repo.len() implies is_folder(
            disk,
            at + #[trigger] repo.take(k),
        ) by {
            if k > 0 {
                assert(is_folder(disk, deeper + rest.take(k - 1)));
            }
        }
        assert forall|k: int| 0 <= k < repo.len() implies !is_folder(
            disk,
            (at + #[trigger] repo.take(k)).push("_manifests"@),
        ) by {
            if k > 0 {
                assert(!is_folder(disk, (deeper + rest.take(k - 1)).push("_manifests"@)));
            }
        }
    }
}

proof fn lemma_seen_is_on_disk(disk: Disk, at: Seq<Seq<char>>, dir: Dir, p: Seq<int>)
    requires
        is_folder(disk, at),
        seen_in(disk, at, dir),
        is_repository_at(dir, p),
    ensures
        repository_on(disk, at, names_along(dir, p)),
    decreases p.len(),
{
    let repo = names_along(dir, p);
    if p.len() == 0 {
        assert(at + repo =~= at);
        assert(at + repo.take(0) =~= at);
    } else {
        let entry = dir.entries[p.first()];
        let sub = entry.dir->0;
        lemma_seen_is_on_disk(disk, at.push(entry.name), sub, p.drop_first());
        assert(repo.drop_first() =~= names_along(sub, p.drop_first()));
        lemma_repository_step(disk, at, repo);
    }
}

proof fn lemma_on_disk_is_seen(
    disk: Disk,
    at: Seq<Seq<char>>,
    dir: Dir,
    repo: Seq<Seq<char>>,
) -> (p: Seq<int>)
    requires
        seen_in(disk, at, dir),
        repository_on(disk, at, repo),
    ensures
        is_repository_at(dir, p),
        names_along(dir, p) == repo,
    decreases repo.len(),
{
    if repo.len() == 0 {
        assert(at + repo =~= at);
        assert(repo =~= Seq::empty());
        Seq::empty()
    } else {
        lemma_repository_step(disk, at, repo);
        let deeper = at.push(repo.first());
        let rest = repo.drop_first();
        assert(deeper + rest.take(0) =~= deeper);
        assert(is_folder(disk, deeper));
        let i = choose|i: int|
            0 <= i < dir.entries.len() && (#[trigger] dir.entries[i]).name == repo.first();
        let sub = dir.entries[i].dir->0;
        let q = lemma_on_disk_is_seen(disk, deeper, sub, rest);
        let p = seq![i] + q;
        assert(p.drop_first() =~= q);
        assert(names_along(dir, p) =~= repo);
        p
    }
}

proof fn lemma_found_on_disk(disk: Disk, at: Seq<Seq<char>>, store: Option<Dir>)
    requires
        seen(disk, at, store),
    ensures
        lists(disk, at, repositories_of(store)),
{
    assert forall|name: Seq<char>| #[trigger]
        repositories_of(store).contains(name) <==> exists|repo: Seq<Seq<char>>| #[trigger]
            repository_on(disk, at, repo) && name == repository_name(repo) by {
        match store {
            None => {
                if exists|repo: Seq<Seq<char>>| #[trigger]
                    repository_on(disk, at, repo) && name == repository_name(repo) {
                    let repo = choose|repo: Seq<Seq<char>>| #[trigger]
                        repository_on(disk, at, repo) && name == repository_name(repo);
                    assert(at + repo.take(0) =~= at);
                }
            },
            Some(dir) => {
                let none = Seq::<Seq<char>>::empty();
                law_found_iff_repository(dir, none, name);
                if repositories_of(store).contains(name) {
                    let p = choose|p: Seq<int>| #[trigger]
                        is_repository_at(dir, p) && name == repository_name(
                            none + names_along(dir, p),
                        );
                    lemma_seen_is_on_disk(disk, at, dir, p);
                    assert(none + names_along(dir, p) =~= names_along(dir, p));
                    assert(repository_on(disk, at, names_along(dir, p)));
                }
                if exists|repo: Seq<Seq<char>>| #[trigger]
                    repository_on(disk, at, repo) && name == repository_name(repo) {
                    let repo = choose|repo: Seq<Seq<char>>| #[trigger]
                        repository_on(disk, at, repo) && name == repository_name(repo);
                    let p = lemma_on_disk_is_seen(disk, at, dir, repo);
                    assert(none + names_along(dir, p) =~= names_along(dir, p));
                }
            },
        }
    }
}

proof fn lemma_listed_once(store: Option<Dir>)
    requires
        plain_store(store),
    ensures
        repositories_of(store).no_duplicates(),
{
    if let Some(dir) = store {
        law_each_repository_is_found_once(dir, Seq::empty());
    }
}

/// A walk through what can be seen of a disk returns the names of the repositories that are on it,
/// each once.
pub proof fn law_walk_lists_the_disk(disk: Disk, at: Seq<Seq<char>>, store: Option<Dir>)
    requires
        seen(disk, at, store),
        plain_store(store),
    ensures
        lists(disk, at, sorted_names(repositories_of(store))),
        sorted_names(repositories_of(store)).no_duplicates(),
{
    let names = repositories_of(store);
    lemma_found_on_disk(disk, at, store);
    lemma_listed_once(store);
    law_distinct_names_ascend(names);
    law_sorted_names(names);
    lemma_same_values(sorted_names(names), names);
    assert forall|name: Seq<char>| #[trigger]
        sorted_names(names).contains(name) <==> exists|repo: Seq<Seq<char>>| #[trigger]
            repository_on(disk, at, repo) && name == repository_name(repo) by {
        assert(sorted_names(names).contains(name) <==> names.contains(name));
    }
}

/// Whether whatever differs between `a` and `b` stands at or below a tag of one of the repositories
/// of `a`.
pub open spec fn differ_in_tags(a: Disk, b: Disk, at: Seq<Seq<char>>) -> bool {
    forall|p: Seq<Seq<char>>|
        !(#[trigger] same_at(a, b, p)) ==> exists|repo: Seq<Seq<char>>, tag: Seq<char>|
            repository_on(a, at, repo) && (#[trigger] tag_path(at, repo, tag)).is_prefix_of(p)
}

proof fn lemma_difference_on_the_way(
    a: Disk,
    b: Disk,
    at: Seq<Seq<char>>,
    q: Seq<Seq<char>>,
    k: int,
    p: Seq<Seq<char>>,
) -> (j: int)
    requires
        differ_in_tags(a, b, at),
        0 <= k <= q.len(),
        p == at + q.take(k) || p == (at + q.take(k)).push("_manifests"@),
        !same_at(a, b, p),
    ensures
        0 <= j < q.len(),
        repository_on(a, at, q.take(j)),
{
    let (repo, tag) = choose|repo: Seq<Seq<char>>, tag: Seq<char>|
        repository_on(a, at, repo) && (#[trigger] tag_path(at, repo, tag)).is_prefix_of(p);
    let t = tag_path(at, repo, tag);
    assert(t == p.subrange(0, t.len() as int));
    assert forall|i: int| 0 <= i < repo.len() implies repo[i] == q[i] by {
        assert(t[at.len() + i] == repo[i]);
        assert(p[at.len() + i] == q[i]);
    }
    assert(repo =~= q.take(repo.len() as int));
    repo.len() as int
}

pub(crate) proof fn lemma_repositories_stay(a: Disk, b: Disk, at: Seq<Seq<char>>, q: Seq<Seq<char>>)
    requires
        differ_in_tags(a, b, at),
    ensures
        repository_on(a, at, q) <==> repository_on(b, at, q),
{
    let m = "_manifests"@;
    assert(q.take(q.len() as int) =~= q);
    if repository_on(a, at, q) {
        assert forall|k: int| 0 <= k <= q.len() implies same_at(a, b, at + #[trigger] q.take(k))
            && same_at(a, b, (at + q.take(k)).push(m)) by {
            if !same_at(a, b, at + q.take(k)) {
                let j = lemma_difference_on_the_way(a, b, at, q, k, at + q.take(k));
                assert(is_folder(a, (at + q.take(j)).push(m)));
            }
            if !same_at(a, b, (at + q.take(k)).push(m)) {
                let j = lemma_difference_on_the_way(a, b, at, q, k, (at + q.take(k)).push(m));
                assert(is_folder(a, (at + q.take(j)).push(m)));
            }
        }
        assert(same_at(a, b, (at + q.take(q.len() as int)).push(m)));
    }
    if repository_on(b, at, q) {
        assert forall|k: int| 0 <= k <= q.len() implies same_at(a, b, at + #[trigger] q.take(k))
            && same_at(a, b, (at + q.take(k)).push(m)) by {
            if !same_at(a, b, at + q.take(k)) {
                let j = lemma_difference_on_the_way(a, b, at, q, k, at + q.take(k));
                lemma_no_repository_below(a, b, at, q, j);
            }
            if !same_at(a, b, (at + q.take(k)).push(m)) {
                let j = lemma_difference_on_the_way(a, b, at, q, k, (at + q.take(k)).push(m));
                lemma_no_repository_below(a, b, at, q, j);
            }
        }
        assert(same_at(a, b, (at + q.take(q.len() as int)).push(m)));
    }
}

proof fn lemma_no_repository_below(
    a: Disk,
    b: Disk,
    at: Seq<Seq<char>>,
    q: Seq<Seq<char>>,
    j: int,
)
    requires
        differ_in_tags(a, b, at),
        0 <= j < q.len(),
        repository_on(a, at, q.take(j)),
    ensures
        !repository_on(b, at, q),
{
    let r = q.take(j);
    let p = (at + r).push("_manifests"@);
    assert(r.take(j) =~= r);
    if !same_at(a, b, p) {
        let i = lemma_difference_on_the_way(a, b, at, r, j, p);
        assert(is_folder(a, (at + r.take(i)).push("_manifests"@)));
    }
}

proof fn lemma_names_stay_plain(
    a: Disk,
    b: Disk,
    at: Seq<Seq<char>>,
    way: Seq<Seq<char>>,
    dir_a: Dir,
    dir_b: Dir,
)
    requires
        differ_in_tags(a, b, at),
        forall|k: int|
            0 <= k < way.len() ==> !is_folder(a, (at + #[trigger] way.take(k)).push("_manifests"@)),
        seen_in(a, at + way, dir_a),
        seen_in(b, at + way, dir_b),
        plain_dir(dir_a),
    ensures
        plain_dir(dir_b),
    decreases dir_b,
{
    let m = "_manifests"@;
    let here = at + way;
    assert(way.take(way.len() as int) =~= way);
    assert(same_at(a, b, here.push(m))) by {
        if !same_at(a, b, here.push(m)) {
            let j = lemma_difference_on_the_way(a, b, at, way, way.len() as int, here.push(m));
            assert(is_folder(a, (at + way.take(j)).push(m)));
        }
    }
    if !dir_b.has_manifests {
        assert forall|i: int| 0 <= i < dir_b.entries.len() implies {
            let entry = #[trigger] dir_b.entries[i];
            plain(entry.name) && (entry.dir is Some ==> plain_dir(entry.dir->0))
        } by {
            let entry = dir_b.entries[i];
            let p = here.push(entry.name);
            let more = way.push(entry.name);
            assert(more.take(more.len() as int) =~= more);
            assert(p =~= at + more);
            assert forall|k: int| 0 <= k < more.len() implies !is_folder(
                a,
                (at + #[trigger] more.take(k)).push(m),
            ) by {
                assert(more.take(k) =~= way.take(k));
            }
            if !same_at(a, b, p) {
                let j = lemma_difference_on_the_way(a, b, at, more, more.len() as int, p);
                assert(is_folder(a, (at + more.take(j)).push(m)));
            }
            assert(a.contains_key(p));
            let j = choose|j: int|
                0 <= j < dir_a.entries.len() && (#[trigger] dir_a.entries[j]).name == entry.name;
            if let Some(sub) = entry.dir {
                lemma_names_stay_plain(a, b, at, more, dir_a.entries[j].dir->0, sub);
            }
        }
        assert forall|i: int| 0 <= i < dir_b.entries.len() implies plain(
            (#[trigger] dir_b.entries[i]).name,
        ) by {}
        assert forall|i: int|
            #![trigger dir_b.entries[i]]
            0 <= i < dir_b.entries.len() && dir_b.entries[i].dir is Some implies plain_dir(
            dir_b.entries[i].dir->0,
        ) by {}
    }
}

/// Where two disks differ only at and below tags, a walk lists the same repositories on both, even
/// where one of them has no tag left.
pub proof fn law_tags_do_not_matter_to_the_list(
    a: Disk,
    b: Disk,
    at: Seq<Seq<char>>,
    seen_a: Option<Dir>,
    seen_b: Option<Dir>,
)
    requires
        differ_in_tags(a, b, at),
        seen(a, at, seen_a),
        seen(b, at, seen_b),
        plain_store(seen_a),
    ensures
        plain_store(seen_b),
        forall|repo: Seq<Seq<char>>| #[trigger]
            repository_on(a, at, repo) <==> #[trigger] repository_on(b, at, repo),
        sorted_names(repositories_of(seen_a)) == sorted_names(repositories_of(seen_b)),
{
    let (x, y) = (repositories_of(seen_a), repositories_of(seen_b));
    assert forall|repo: Seq<Seq<char>>| #[trigger]
        repository_on(a, at, repo) <==> #[trigger] repository_on(b, at, repo) by {
        lemma_repositories_stay(a, b, at, repo);
    }
    lemma_found_on_disk(a, at, seen_a);
    lemma_found_on_disk(b, at, seen_b);
    if let (Some(dir_a), Some(dir_b)) = (seen_a, seen_b) {
        let none = Seq::<Seq<char>>::empty();
        assert(at + none =~= at);
        lemma_names_stay_plain(a, b, at, none, dir_a, dir_b);
    } else if let Some(dir_b) = seen_b {
        let none = Seq::<Seq<char>>::empty();
        assert(at + none.take(0) =~= at);
        if !same_at(a, b, at) {
            let j = lemma_difference_on_the_way(a, b, at, none, 0, at);
        }
    }
    lemma_listed_once(seen_a);
    lemma_listed_once(seen_b);
    assert forall|name: Seq<char>| #[trigger] x.contains(name) <==> #[trigger] y.contains(name) by {
        if x.contains(name) {
            let repo = choose|repo: Seq<Seq<char>>| #[trigger]
                repository_on(a, at, repo) && name == repository_name(repo);
            assert(repository_on(b, at, repo));
        }
        if y.contains(name) {
            let repo = choose|repo: Seq<Seq<char>>| #[trigger]
                repository_on(b, at, repo) && name == repository_name(repo);
            assert(repository_on(a, at, repo));
        }
    }
    law_same_names_same_list(x, y);
}

pub(crate) proof fn lemma_outside_a_tag(
    base: Seq<char>,
    at: Seq<Seq<char>>,
    repo: Seq<Seq<char>>,
    tag: Seq<char>,
    a: Disk,
    b: Disk,
    p: Seq<Seq<char>>,
)
    requires
        component_path(at),
        at.len() > 0,
        plain_path(repo),
        proper(tag),
        well_named(a),
        well_named(b),
        alike_outside(base, a, b, tag_dir(located(base, at), repository_name(repo), tag)),
        !tag_path(at, repo, tag).is_prefix_of(p),
    ensures
        same_at(a, b, p),
{
    law_delete_removes_the_tag_path::<()>(base, at, repo, tag);
    if component_path(p) && p.len() > 0 {
        law_paths_go_by_names(base, tag_path(at, repo, tag), p);
    }
}

pub(crate) proof fn lemma_tags_are_apart(
    at: Seq<Seq<char>>,
    repo: Seq<Seq<char>>,
    t: Seq<char>,
    u: Seq<char>,
    p: Seq<Seq<char>>,
)
    requires
        tag_path(at, repo, t).is_prefix_of(p),
        tag_path(at, repo, u).is_prefix_of(p),
    ensures
        t == u,
{
    let (x, y) = (tag_path(at, repo, t), tag_path(at, repo, u));
    let k = at.len() + repo.len() + 2;
    assert(x == p.subrange(0, x.len() as int) && y == p.subrange(0, y.len() as int));
    assert(x[k as int] == t && y[k as int] == u);
    assert(p[k as int] == x[k as int] && p[k as int] == y[k as int]);
}

pub(crate) proof fn lemma_repositories_are_apart(
    disk: Disk,
    at: Seq<Seq<char>>,
    r: Seq<Seq<char>>,
    q: Seq<Seq<char>>,
    p: Seq<Seq<char>>,
)
    requires
        repository_on(disk, at, r),
        repository_on(disk, at, q),
        (at + r).is_prefix_of(p),
        (at + q).is_prefix_of(p),
    ensures
        r == q,
{
    let (x, y) = (at + r, at + q);
    assert(x == p.subrange(0, x.len() as int) && y == p.subrange(0, y.len() as int));
    assert forall|i: int| 0 <= i < r.len() && i < q.len() implies r[i] == q[i] by {
        assert(x[at.len() + i] == r[i] && y[at.len() + i] == q[i]);
        assert(p[at.len() + i] == x[at.len() + i] && p[at.len() + i] == y[at.len() + i]);
    }
    if r.len() < q.len() {
        assert(q.take(r.len() as int) =~= r);
    } else if q.len() < r.len() {
        assert(r.take(q.len() as int) =~= q);
    } else {
        assert(r =~= q);
    }
}

pub(crate) proof fn lemma_tag_path_prefixes(
    at: Seq<Seq<char>>,
    repo: Seq<Seq<char>>,
    tag: Seq<char>,
    p: Seq<Seq<char>>,
)
    requires
        tag_path(at, repo, tag).is_prefix_of(p),
    ensures
        at.is_prefix_of(p),
        (at + repo).is_prefix_of(p),
        !(at + repo + seq!["_manifests"@, "revisions"@]).is_prefix_of(p),
{
    let t = tag_path(at, repo, tag);
    let r = at + repo + seq!["_manifests"@, "revisions"@];
    let k = (at.len() + repo.len() + 1) as int;
    assert(t == p.subrange(0, t.len() as int));
    assert(at =~= p.subrange(0, at.len() as int)) by {
        assert forall|i: int| 0 <= i < at.len() implies at[i] == p[i] by {
            assert(t[i] == p[i]);
        }
    }
    assert(at + repo =~= p.subrange(0, (at + repo).len() as int)) by {
        assert forall|i: int| 0 <= i < (at + repo).len() implies (at + repo)[i] == p[i] by {
            assert(t[i] == p[i]);
        }
    }
    if r.is_prefix_of(p) {
        assert(r == p.subrange(0, r.len() as int));
        assert(r[k] == p[k] && t[k] == p[k]);
        reveal_strlit("tags");
        reveal_strlit("revisions");
        assert("tags"@.len() == "revisions"@.len());
    }
}

/// Deleting a tag changes nothing outside the tag's own directory, whether it succeeds or fails:
/// not the other tags of the repository, not its revisions, not another repository, and nothing
/// outside the directory of the repositories, such as the blobs. Nor does it change the list of
/// repositories, even where the last tag of a repository goes.
pub proof fn law_delete_touches_only_its_tag(
    base: Seq<char>,
    at: Seq<Seq<char>>,
    repo: Seq<Seq<char>>,
    tag: Seq<char>,
    before: Disk,
    after: Disk,
    seen_before: Option<Dir>,
    seen_after: Option<Dir>,
)
    requires
        component_path(at),
        at.len() > 0,
        proper(tag),
        well_named(before),
        well_named(after),
        repository_on(before, at, repo),
        alike_outside(
            base,
            before,
            after,
            tag_dir(located(base, at), repository_name(repo), tag),
        ),
        seen(before, at, seen_before),
        seen(after, at, seen_after),
        plain_store(seen_before),
    ensures
        forall|p: Seq<Seq<char>>|
            !tag_path(at, repo, tag).is_prefix_of(p) ==> #[trigger] same_at(before, after, p),
        forall|u: Seq<char>, p: Seq<Seq<char>>|
            u != tag && (#[trigger] tag_path(at, repo, u)).is_prefix_of(p) ==> #[trigger] same_at(
                before,
                after,
                p,
            ),
        forall|p: Seq<Seq<char>>|
            (at + repo + seq!["_manifests"@, "revisions"@]).is_prefix_of(p) ==> #[trigger] same_at(
                before,
                after,
                p,
            ),
        forall|other: Seq<Seq<char>>, p: Seq<Seq<char>>|
            other != repo && #[trigger] repository_on(before, at, other) && (at
                + other).is_prefix_of(p) ==> #[trigger] same_at(before, after, p),
        forall|p: Seq<Seq<char>>|
            !at.is_prefix_of(p) ==> #[trigger] same_at(before, after, p),
        sorted_names(repositories_of(seen_after)) == sorted_names(repositories_of(seen_before)),
{
    lemma_repository_is_plain(before, at, seen_before, repo);
    assert forall|p: Seq<Seq<char>>|
        !tag_path(at, repo, tag).is_prefix_of(p) implies #[trigger] same_at(before, after, p) by {
        lemma_outside_a_tag(base, at, repo, tag, before, after, p);
    }
    assert forall|u: Seq<char>, p: Seq<Seq<char>>|
        u != tag && (#[trigger] tag_path(at, repo, u)).is_prefix_of(p) implies #[trigger] same_at(
        before,
        after,
        p,
    ) by {
        if tag_path(at, repo, tag).is_prefix_of(p) {
            lemma_tags_are_apart(at, repo, u, tag, p);
        }
    }
    assert forall|p: Seq<Seq<char>>|
        (at + repo + seq!["_manifests"@, "revisions"@]).is_prefix_of(p) implies #[trigger] same_at(
        before,
        after,
        p,
    ) by {
        if tag_path(at, repo, tag).is_prefix_of(p) {
            lemma_tag_path_prefixes(at, repo, tag, p);
        }
    }
    assert forall|other: Seq<Seq<char>>, p: Seq<Seq<char>>|
        other != repo && #[trigger] repository_on(before, at, other) && (at + other).is_prefix_of(
            p,
        ) implies #[trigger] same_at(before, after, p) by {
        if tag_path(at, repo, tag).is_prefix_of(p) {
            lemma_tag_path_prefixes(at, repo, tag, p);
            lemma_repositories_are_apart(before, at, other, repo, p);
        }
    }
    assert forall|p: Seq<Seq<char>>| !at.is_prefix_of(p) implies #[trigger] same_at(
        before,
        after,
        p,
    ) by {
        if tag_path(at, repo, tag).is_prefix_of(p) {
            lemma_tag_path_prefixes(at, repo, tag, p);
        }
    }
    law_tags_do_not_matter_to_the_list(before, after, at, seen_before, seen_after);
}

pub(crate) proof fn lemma_repository_is_plain(
    disk: Disk,
    at: Seq<Seq<char>>,
    store: Option<Dir>,
    repo: Seq<Seq<char>>,
)
    requires
        seen(disk, at, store),
        plain_store(store),
        repository_on(disk, at, repo),
    ensures
        plain_path(repo),
{
    assert(at + repo.take(0) =~= at);
    assert(is_folder(disk, at));
    let p = lemma_on_disk_is_seen(disk, at, store->0, repo);
    lemma_names_along_plain(store->0, p);
}

/// Whether `dirs` are the directories of `disk`, as a walk can see them, by their paths from `base`.
pub open spec fn shows(disk: Disk, base: Seq<char>, dirs: Tree) -> bool {
    forall|p: Seq<Seq<char>>|
        component_path(p) && p.len() > 0 ==> seen(
            disk,
            p,
            #[trigger] standing_at(dirs, located(base, p)),
        )
}

/// A walk through the layout of a data directory ends with the names of the repositories that are on
/// the disk below `docker/registry/v2/repositories` of this data directory, each once and in order.
/// The result is the number of steps that it takes at most, and the names.
pub proof fn law_walk_finds_what_is_in_the_data_directory<E>(
    base: Seq<char>,
    data: Seq<Seq<char>>,
    disk: Disk,
    dirs: Tree,
    r: Reader,
) -> (found: (nat, Seq<Seq<char>>))
    requires
        component_path(data),
        data.len() > 0,
        shows(disk, base, dirs),
        r.open.len() == 0,
        plain_store(
            standing_at(
                dirs,
                located(base, data + seq!["docker"@, "registry"@, "v2"@, "repositories"@]),
            ),
        ),
    ensures
        ({
            let root = joined(located(base, data), "docker/registry/v2/repositories"@);
            let w = WalkView { phase: Phase::Idle, path: Seq::empty(), found: Seq::empty() };
            let (w1, a1) = walk_next::<E>(root, w, WalkEvent::Start);
            let (limit, names) = found;
            &&& outcome::<E>(root, dirs, r, w1, a1, limit) == Some(names)
            &&& lists(disk, data + seq!["docker"@, "registry"@, "v2"@, "repositories"@], names)
            &&& names.no_duplicates()
            &&& forall|k: int, m: int|
                0 <= k < m < names.len() ==> name_before(#[trigger] names[k], #[trigger] names[m])
        }),
{
    let rest = seq!["docker"@, "registry"@, "v2"@, "repositories"@];
    let at = data + rest;
    let root = joined(located(base, data), "docker/registry/v2/repositories"@);
    law_repositories_stand_in_the_data_directory(base, data);
    lemma_layout_names();
    assert(component_path(at)) by {
        assert forall|i: int| 0 <= i < at.len() implies component(#[trigger] at[i]) by {
            if i < data.len() {
                assert(at[i] == data[i]);
            } else {
                assert(at[i] == rest[i - data.len()]);
            }
        }
    }
    let store = standing_at(dirs, root);
    assert(seen(disk, at, store));
    law_walk_finds_the_repositories::<E>(root, dirs, r);
    law_walk_lists_the_disk(disk, at, store);
    let names = sorted_names(repositories_of(store));
    lemma_listed_once(store);
    law_distinct_names_ascend(repositories_of(store));
    law_sorted_names(repositories_of(store));
    let w = WalkView { phase: Phase::Idle, path: Seq::empty(), found: Seq::empty() };
    let (w1, a1) = walk_next::<E>(root, w, WalkEvent::Start);
    let limit = choose|limit: nat|
        #[trigger] outcome::<E>(root, dirs, r, w1, a1, limit) == Some(names);
    (limit, names)
}

proof fn lemma_layout_names()
    ensures
        component_path(seq!["docker"@, "registry"@, "v2"@, "repositories"@]),
{
    reveal_strlit("docker");
    reveal_strlit("registry");
    reveal_strlit("v2");
    reveal_strlit("repositories");
}

} // verus!
