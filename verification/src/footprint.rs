//! What a sweep leaves untouched on disk.

use vstd::prelude::*;

use crate::discovery::{repositories_of, Dir};
use crate::disk::{alike_outside, differ_in_tags, law_tags_do_not_matter_to_the_list,
    lemma_outside_a_tag, lemma_repositories_are_apart, lemma_repositories_stay,
    lemma_repository_is_plain, lemma_tag_path_prefixes, lemma_tags_are_apart, lists, plain_store,
    repository_on, same_at, seen, well_named, Disk};
use crate::names::{proper, sorted_names};
use crate::order::lemma_same_values;
use crate::paths::{component_path, located, tag_path};
use crate::pruning::{distinct_names, fresh, law_kept_is_not_doomed};
use crate::registry_fs::tag_dir;
use crate::retention::{doomed, kept, law_kept_and_doomed_are_all, TagView};
use crate::sweep::{sweep_next, SweepAction, SweepActionView, SweepEvent, SweepEventView, SweepPhase,
    SweepView};
use crate::walk::repository_name;

verus! {

/// The sweep that has heard `events`.
pub open spec fn sweep_after<E>(keep: nat, dry_run: bool, events: Seq<SweepEventView<E>>) -> SweepView
    decreases events.len(),
{
    if events.len() == 0 {
        fresh()
    } else {
        sweep_next(
            keep,
            dry_run,
            sweep_after(keep, dry_run, events.drop_last()),
            events.last(),
        ).0
    }
}

/// What the sweep that hears `events` asks for on the event `i`.
pub open spec fn asked<E>(
    keep: nat,
    dry_run: bool,
    events: Seq<SweepEventView<E>>,
    i: int,
) -> SweepActionView<E> {
    sweep_next(keep, dry_run, sweep_after(keep, dry_run, events.take(i)), events[i]).1
}

/// Whether the event `i` brings the sweep the tags of the repository named `repo`, for which it had
/// asked, and `tag` is one of those that are not kept.
pub open spec fn doomed_at<E>(
    keep: nat,
    dry_run: bool,
    events: Seq<SweepEventView<E>>,
    i: int,
    repo: Seq<char>,
    tag: TagView,
) -> bool {
    &&& 0 < i < events.len()
    &&& asked(keep, dry_run, events, i - 1) == SweepActionView::<E>::ListTags(
        repo,
    )
    &&& events[i] matches SweepEvent::Tags(tags) && doomed(tags, keep).contains(tag)
}

/// Whether the sweep that hears `events` chooses the tag `tag` of the repository named `repo` to
/// go.
pub open spec fn chosen<E>(
    keep: nat,
    dry_run: bool,
    events: Seq<SweepEventView<E>>,
    repo: Seq<char>,
    tag: TagView,
) -> bool {
    !dry_run && exists|i: int| doomed_at(keep, dry_run, events, i, repo, tag)
}

/// Whether `disks` are the disks before a sweep has heard the first of `events`, and then after it
/// has heard each of them and its caller has tried to do what it asks for: its caller removes a tag
/// that is to be deleted, or part of it, and does nothing else to the disk. The repositories that
/// the sweep hears of are those on the disk, each once, and the tags have names that an entry of a
/// directory can have; beyond that it may hear anything.
pub open spec fn is_course<E>(
    keep: nat,
    dry_run: bool,
    base: Seq<char>,
    at: Seq<Seq<char>>,
    events: Seq<SweepEventView<E>>,
    disks: Seq<Disk>,
) -> bool {
    &&& disks.len() == events.len() + 1
    &&& forall|i: int| 0 <= i < disks.len() ==> well_named(#[trigger] disks[i])
    &&& forall|i: int|
        #![trigger events[i]]
        0 <= i < events.len() ==> {
            &&& events[i] matches SweepEvent::Repositories(names) ==> lists(disks[i], at, names)
                && names.no_duplicates()
            &&& events[i] matches SweepEvent::Tags(tags) ==> forall|k: int|
                0 <= k < tags.len() ==> proper((#[trigger] tags[k]).name)
            &&& match asked(keep, dry_run, events, i) {
                SweepAction::Delete { repo, tag } => alike_outside(
                    base,
                    disks[i],
                    disks[i + 1],
                    tag_dir(located(base, at), repo, tag.name),
                ),
                _ => disks[i + 1] == disks[i],
            }
        }
}

/// Whether `name` is on a list of repositories among the first `n` of `events`.
spec fn listed<E>(events: Seq<SweepEventView<E>>, n: int, name: Seq<char>) -> bool {
    exists|l: int|
        #![trigger events[l]]
        0 <= l < n && l < events.len() && (events[l] matches SweepEvent::Repositories(names)
            && names.contains(name))
}

/// Whether one of `events` brings the tags of the repository named `repo`, and `tag` is one of those
/// that are not kept.
spec fn reached<E>(
    keep: nat,
    dry_run: bool,
    events: Seq<SweepEventView<E>>,
    repo: Seq<char>,
    tag: TagView,
) -> bool {
    exists|i: int| doomed_at(keep, dry_run, events, i, repo, tag)
}

/// What holds of the sweep that has heard the first `n` of `events`.
spec fn on_course<E>(keep: nat, dry_run: bool, events: Seq<SweepEventView<E>>, n: int) -> bool {
    let s = sweep_after(keep, dry_run, events.take(n));
    let action = asked(keep, dry_run, events, n - 1);
    &&& s.phase == SweepPhase::Tags || s.phase == SweepPhase::Announcing || s.phase
        == SweepPhase::Deleting ==> {
        &&& s.todo.len() > 0
        &&& forall|k: int| 0 <= k < s.todo.len() ==> listed(events, n, #[trigger] s.todo[k])
    }
    &&& s.phase == SweepPhase::Tags ==> action == SweepActionView::<E>::ListTags(
        s.todo.first(),
    )
    &&& s.phase == SweepPhase::Announcing || s.phase == SweepPhase::Deleting ==> {
        &&& s.going.len() > 0
        &&& forall|k: int|
            0 <= k < s.going.len() ==> #[trigger] reached(
                keep,
                dry_run,
                events,
                s.todo.first(),
                s.going[k],
            )
    }
    &&& action matches SweepAction::Delete { repo, tag } ==> {
        &&& !dry_run
        &&& s.phase == SweepPhase::Deleting
        &&& repo == s.todo.first()
        &&& tag == s.going.first()
    }
}

proof fn lemma_on_course<E>(keep: nat, dry_run: bool, events: Seq<SweepEventView<E>>, n: int)
    requires
        0 < n <= events.len(),
    ensures
        on_course(keep, dry_run, events, n),
    decreases n,
{
    let now = events.take(n);
    let s = sweep_after(keep, dry_run, now.drop_last());
    let event = events[n - 1];
    let (t, action) = sweep_next(keep, dry_run, s, event);
    assert(now.drop_last() =~= events.take(n - 1));
    assert(now.last() == event);
    assert(t == sweep_after(keep, dry_run, now));
    assert(action == asked(keep, dry_run, events, n - 1));
    if n > 1 {
        lemma_on_course(keep, dry_run, events, n - 1);
    }
    match (s.phase, event) {
        (SweepPhase::Idle, SweepEvent::Start) => {},
        (SweepPhase::Repositories, SweepEvent::Repositories(names)) => {
            assert forall|k: int| 0 <= k < names.len() implies listed(
                events,
                n,
                #[trigger] names[k],
            ) by {
                assert(events[n - 1] == event);
                assert(names.contains(names[k]));
            }
        },
        (SweepPhase::Tags, SweepEvent::Tags(tags)) => {
            let going = doomed(tags, keep);
            assert(n > 1);
            assert forall|k: int| 0 <= k < going.len() implies #[trigger] reached(
                keep,
                dry_run,
                events,
                s.todo.first(),
                going[k],
            ) by {
                assert(going.contains(going[k]));
                assert(doomed_at(keep, dry_run, events, n - 1, s.todo.first(), going[k]));
            }
            lemma_still_listed(events, n, s.todo, t.todo);
        },
        (SweepPhase::Announcing, SweepEvent::Done) => {
            assert(n > 1);
            lemma_still_listed(events, n, s.todo, t.todo);
        },
        (SweepPhase::Deleting, SweepEvent::Done) => {
            assert(n > 1);
            lemma_still_listed(events, n, s.todo, t.todo);
            if t.phase == SweepPhase::Deleting {
                assert forall|k: int| 0 <= k < t.going.len() implies #[trigger] reached(
                    keep,
                    dry_run,
                    events,
                    t.todo.first(),
                    t.going[k],
                ) by {
                    assert(t.going[k] == s.going[k + 1]);
                }
            }
        },
        _ => {},
    }
}

proof fn lemma_still_listed<E>(
    events: Seq<SweepEventView<E>>,
    n: int,
    before: Seq<Seq<char>>,
    after: Seq<Seq<char>>,
)
    requires
        n > 0,
        forall|k: int| 0 <= k < before.len() ==> listed(events, n - 1, #[trigger] before[k]),
        after == before || before.len() > 0 && after == before.drop_first(),
    ensures
        forall|k: int| 0 <= k < after.len() ==> listed(events, n, #[trigger] after[k]),
{
    assert forall|k: int| 0 <= k < after.len() implies listed(events, n, #[trigger] after[k]) by {
        let j = if after == before { k } else { k + 1 };
        assert(after[k] == before[j]);
        assert(listed(events, n - 1, before[j]));
    }
}

/// Whether `p` stands at or below a tag, of one of the repositories on `disk`, that the sweep that
/// hears `events` chooses to go.
pub open spec fn in_a_chosen_tag<E>(
    keep: nat,
    dry_run: bool,
    at: Seq<Seq<char>>,
    events: Seq<SweepEventView<E>>,
    disk: Disk,
    p: Seq<Seq<char>>,
) -> bool {
    exists|repo: Seq<Seq<char>>, tag: TagView|
        {
            &&& #[trigger] repository_on(disk, at, repo)
            &&& #[trigger] chosen(keep, dry_run, events, repository_name(repo), tag)
            &&& tag_path(at, repo, tag.name).is_prefix_of(p)
        }
}

proof fn lemma_tag_is_proper<E>(
    keep: nat,
    dry_run: bool,
    base: Seq<char>,
    at: Seq<Seq<char>>,
    events: Seq<SweepEventView<E>>,
    disks: Seq<Disk>,
    repo: Seq<char>,
    tag: TagView,
)
    requires
        is_course(keep, dry_run, base, at, events, disks),
        reached(keep, dry_run, events, repo, tag),
    ensures
        proper(tag.name),
{
    let i = choose|i: int| doomed_at(keep, dry_run, events, i, repo, tag);
    let tags = events[i]->Tags_0;
    law_kept_and_doomed_are_all(tags, keep);
    let all = kept(tags, keep) + doomed(tags, keep);
    lemma_same_values(all, tags);
    let k = choose|k: int| 0 <= k < doomed(tags, keep).len() && doomed(tags, keep)[k] == tag;
    assert(all[kept(tags, keep).len() + k] == tag);
    assert(all.contains(tag));
    assert(tags.contains(tag));
}

proof fn lemma_course<E>(
    keep: nat,
    dry_run: bool,
    base: Seq<char>,
    at: Seq<Seq<char>>,
    events: Seq<SweepEventView<E>>,
    disks: Seq<Disk>,
    store: Option<Dir>,
    i: int,
)
    requires
        component_path(at),
        at.len() > 0,
        is_course(keep, dry_run, base, at, events, disks),
        seen(disks[0], at, store),
        plain_store(store),
        0 <= i <= events.len(),
    ensures
        forall|p: Seq<Seq<char>>|
            !(#[trigger] same_at(disks[0], disks[i], p)) ==> in_a_chosen_tag(
                keep,
                dry_run,
                at,
                events,
                disks[0],
                p,
            ),
        differ_in_tags(disks[0], disks[i], at),
    decreases i,
{
    if i > 0 {
        lemma_course(keep, dry_run, base, at, events, disks, store, i - 1);
        lemma_on_course(keep, dry_run, events, i);
        let event = events[i - 1];
        if let SweepAction::Delete { repo: name, tag } = asked(keep, dry_run, events, i - 1) {
            let s = sweep_after(keep, dry_run, events.take(i));
            assert(listed(events, i, s.todo[0]));
            assert(reached(keep, dry_run, events, name, s.going[0]));
            lemma_tag_is_proper(keep, dry_run, base, at, events, disks, name, tag);
            let l = choose|l: int|
                #![trigger events[l]]
                0 <= l < i && l < events.len() && (events[l] matches SweepEvent::Repositories(names)
                    && names.contains(name));
            lemma_course(keep, dry_run, base, at, events, disks, store, l);
            assert(lists(disks[l], at, events[l]->Repositories_0));
            let repo = choose|repo: Seq<Seq<char>>| #[trigger]
                repository_on(disks[l], at, repo) && name == repository_name(repo);
            lemma_repositories_stay(disks[0], disks[l], at, repo);
            lemma_repository_is_plain(disks[0], at, store, repo);
            assert(chosen(keep, dry_run, events, repository_name(repo), tag));
            assert forall|p: Seq<Seq<char>>|
                !(#[trigger] same_at(disks[0], disks[i], p)) implies in_a_chosen_tag(
                keep,
                dry_run,
                at,
                events,
                disks[0],
                p,
            ) by {
                if !tag_path(at, repo, tag.name).is_prefix_of(p) {
                    lemma_outside_a_tag(base, at, repo, tag.name, disks[i - 1], disks[i], p);
                    assert(!same_at(disks[0], disks[i - 1], p));
                }
            }
        } else {
            assert(disks[i - 1 + 1] == disks[i - 1]);
        }
    }
    assert forall|p: Seq<Seq<char>>|
        !(#[trigger] same_at(disks[0], disks[i], p)) implies exists|
        repo: Seq<Seq<char>>,
        tag: Seq<char>,
    |
        repository_on(disks[0], at, repo) && (#[trigger] tag_path(at, repo, tag)).is_prefix_of(
            p,
        ) by {
        let (repo, tag) = choose|repo: Seq<Seq<char>>, tag: TagView|
            {
                &&& #[trigger] repository_on(disks[0], at, repo)
                &&& #[trigger] chosen(keep, dry_run, events, repository_name(repo), tag)
                &&& tag_path(at, repo, tag.name).is_prefix_of(p)
            };
        assert(tag_path(at, repo, tag.name).is_prefix_of(p));
    }
}

proof fn lemma_chosen_tag<E>(
    keep: nat,
    dry_run: bool,
    at: Seq<Seq<char>>,
    events: Seq<SweepEventView<E>>,
    disk: Disk,
    p: Seq<Seq<char>>,
) -> (r: (Seq<Seq<char>>, TagView))
    requires
        in_a_chosen_tag(keep, dry_run, at, events, disk, p),
    ensures
        repository_on(disk, at, r.0),
        chosen(keep, dry_run, events, repository_name(r.0), r.1),
        tag_path(at, r.0, r.1.name).is_prefix_of(p),
        at.is_prefix_of(p),
        (at + r.0).is_prefix_of(p),
        !(at + r.0 + seq!["_manifests"@, "revisions"@]).is_prefix_of(p),
{
    let (repo, tag) = choose|repo: Seq<Seq<char>>, tag: TagView|
        {
            &&& #[trigger] repository_on(disk, at, repo)
            &&& #[trigger] chosen(keep, dry_run, events, repository_name(repo), tag)
            &&& tag_path(at, repo, tag.name).is_prefix_of(p)
        };
    lemma_tag_path_prefixes(at, repo, tag.name, p);
    (repo, tag)
}

proof fn lemma_chosen_tag_of<E>(
    keep: nat,
    dry_run: bool,
    at: Seq<Seq<char>>,
    events: Seq<SweepEventView<E>>,
    disk: Disk,
    repo: Seq<Seq<char>>,
    tag: Seq<char>,
    p: Seq<Seq<char>>,
) -> (t: TagView)
    requires
        in_a_chosen_tag(keep, dry_run, at, events, disk, p),
        repository_on(disk, at, repo),
        tag_path(at, repo, tag).is_prefix_of(p),
    ensures
        chosen(keep, dry_run, events, repository_name(repo), t),
        t.name == tag,
{
    let (r, t) = lemma_chosen_tag(keep, dry_run, at, events, disk, p);
    lemma_tag_path_prefixes(at, repo, tag, p);
    lemma_repositories_are_apart(disk, at, repo, r, p);
    lemma_tags_are_apart(at, repo, tag, t.name, p);
    t
}

proof fn lemma_revisions_are_not_chosen<E>(
    keep: nat,
    dry_run: bool,
    at: Seq<Seq<char>>,
    events: Seq<SweepEventView<E>>,
    disk: Disk,
    repo: Seq<Seq<char>>,
    p: Seq<Seq<char>>,
)
    requires
        repository_on(disk, at, repo),
        (at + repo + seq!["_manifests"@, "revisions"@]).is_prefix_of(p),
    ensures
        !in_a_chosen_tag(keep, dry_run, at, events, disk, p),
{
    if in_a_chosen_tag(keep, dry_run, at, events, disk, p) {
        let (r, t) = lemma_chosen_tag(keep, dry_run, at, events, disk, p);
        let whole = at + repo + seq!["_manifests"@, "revisions"@];
        assert(whole == p.subrange(0, whole.len() as int));
        assert forall|i: int| 0 <= i < (at + repo).len() implies (at + repo)[i] == p[i] by {
            assert(whole[i] == p[i]);
        }
        assert(at + repo =~= p.subrange(0, (at + repo).len() as int));
        lemma_repositories_are_apart(disk, at, repo, r, p);
    }
}

/// A sweep changes nothing outside the directories of the tags that it chooses to go, wherever it
/// stops and whether it succeeds or fails: not the tags that are kept, not the revisions, and
/// nothing outside the directory of the repositories, such as the blobs. Nor does it change the
/// list of repositories, even where a repository is left with no tag. A dry run changes nothing at
/// all.
pub proof fn law_sweep_touches_only_chosen_tags<E>(
    keep: nat,
    dry_run: bool,
    base: Seq<char>,
    at: Seq<Seq<char>>,
    events: Seq<SweepEventView<E>>,
    disks: Seq<Disk>,
    seen_before: Option<Dir>,
    seen_after: Option<Dir>,
)
    requires
        component_path(at),
        at.len() > 0,
        is_course(keep, dry_run, base, at, events, disks),
        seen(disks.first(), at, seen_before),
        seen(disks.last(), at, seen_after),
        plain_store(seen_before),
    ensures
        forall|p: Seq<Seq<char>>|
            !in_a_chosen_tag(keep, dry_run, at, events, disks.first(), p) ==> #[trigger] same_at(
                disks.first(),
                disks.last(),
                p,
            ),
        dry_run ==> forall|p: Seq<Seq<char>>| #[trigger]
            same_at(disks.first(), disks.last(), p),
        forall|repo: Seq<Seq<char>>, tag: Seq<char>, p: Seq<Seq<char>>|
            #![trigger tag_path(at, repo, tag), same_at(disks.first(), disks.last(), p)]
            {
                &&& repository_on(disks.first(), at, repo)
                &&& forall|t: TagView|
                    t.name == tag ==> !(#[trigger] chosen(
                        keep,
                        dry_run,
                        events,
                        repository_name(repo),
                        t,
                    ))
                &&& tag_path(at, repo, tag).is_prefix_of(p)
            } ==> same_at(disks.first(), disks.last(), p),
        forall|repo: Seq<Seq<char>>, p: Seq<Seq<char>>|
            #![trigger repository_on(disks.first(), at, repo), same_at(disks.first(), disks.last(), p)]
            repository_on(disks.first(), at, repo) && (at + repo + seq![
                "_manifests"@,
                "revisions"@,
            ]).is_prefix_of(p) ==> same_at(disks.first(), disks.last(), p),
        forall|p: Seq<Seq<char>>|
            !at.is_prefix_of(p) ==> #[trigger] same_at(disks.first(), disks.last(), p),
        sorted_names(repositories_of(seen_after)) == sorted_names(repositories_of(seen_before)),
{
    let (a, b) = (disks.first(), disks.last());
    let n = events.len() as int;
    assert(a == disks[0] && b == disks[n]);
    lemma_course(keep, dry_run, base, at, events, disks, seen_before, n);
    law_tags_do_not_matter_to_the_list(a, b, at, seen_before, seen_after);
    assert forall|repo: Seq<Seq<char>>, tag: Seq<char>, p: Seq<Seq<char>>|
        #![trigger tag_path(at, repo, tag), same_at(a, b, p)]
        {
            &&& repository_on(a, at, repo)
            &&& forall|t: TagView|
                t.name == tag ==> !(#[trigger] chosen(
                    keep,
                    dry_run,
                    events,
                    repository_name(repo),
                    t,
                ))
            &&& tag_path(at, repo, tag).is_prefix_of(p)
        } implies same_at(a, b, p) by {
        if in_a_chosen_tag(keep, dry_run, at, events, a, p) {
            let t = lemma_chosen_tag_of(keep, dry_run, at, events, a, repo, tag, p);
            assert(t.name == tag);
        }
    }
    assert forall|repo: Seq<Seq<char>>, p: Seq<Seq<char>>|
        #![trigger repository_on(a, at, repo), same_at(a, b, p)]
        repository_on(a, at, repo) && (at + repo + seq![
            "_manifests"@,
            "revisions"@,
        ]).is_prefix_of(p) implies same_at(a, b, p) by {
        lemma_revisions_are_not_chosen(keep, dry_run, at, events, a, repo, p);
    }
    assert forall|p: Seq<Seq<char>>| !at.is_prefix_of(p) implies #[trigger] same_at(a, b, p) by {
        if in_a_chosen_tag(keep, dry_run, at, events, a, p) {
            let (r, t) = lemma_chosen_tag(keep, dry_run, at, events, a, p);
        }
    }
}

/// Whether the sweep has asked for the tags of the repository named `repo` on one of the first `n`
/// of `events`.
spec fn asked_after<E>(
    keep: nat,
    dry_run: bool,
    events: Seq<SweepEventView<E>>,
    n: int,
    repo: Seq<char>,
) -> bool {
    exists|i: int|
        0 <= i < n && #[trigger] asked(keep, dry_run, events, i)
            == SweepActionView::<E>::ListTags(repo)
}

/// What the sweep has still to ask for, once it has heard the first `n` of `events`: nothing that it
/// has asked for before.
spec fn asks_once<E>(keep: nat, dry_run: bool, events: Seq<SweepEventView<E>>, n: int) -> bool {
    let s = sweep_after(keep, dry_run, events.take(n));
    match s.phase {
        SweepPhase::Idle | SweepPhase::Repositories => forall|repo: Seq<char>|
            !(#[trigger] asked_after(keep, dry_run, events, n, repo)),
        SweepPhase::Tags => {
            &&& s.todo.len() > 0
            &&& s.todo.no_duplicates()
            &&& forall|k: int|
                0 <= k < s.todo.len() ==> !asked_after(
                    keep,
                    dry_run,
                    events,
                    n - 1,
                    #[trigger] s.todo[k],
                )
        },
        SweepPhase::Announcing | SweepPhase::Deleting => {
            &&& s.todo.len() > 0
            &&& s.todo.no_duplicates()
            &&& forall|k: int|
                1 <= k < s.todo.len() ==> !asked_after(
                    keep,
                    dry_run,
                    events,
                    n,
                    #[trigger] s.todo[k],
                )
        },
        SweepPhase::Over => true,
    }
}

proof fn lemma_asks_once<E>(keep: nat, dry_run: bool, events: Seq<SweepEventView<E>>, n: int)
    requires
        0 <= n <= events.len(),
        forall|i: int|
            0 <= i < events.len() ==> ((#[trigger] events[i]) matches SweepEvent::Repositories(
                names,
            ) ==> names.no_duplicates()),
    ensures
        asks_once(keep, dry_run, events, n),
    decreases n,
{
    if n > 0 {
        let now = events.take(n);
        let s = sweep_after(keep, dry_run, now.drop_last());
        let event = events[n - 1];
        let (t, action) = sweep_next(keep, dry_run, s, event);
        assert(now.drop_last() =~= events.take(n - 1));
        assert(now.last() == event);
        assert(t == sweep_after(keep, dry_run, now));
        assert(action == asked(keep, dry_run, events, n - 1));
        lemma_asks_once(keep, dry_run, events, n - 1);
        if n > 1 {
            lemma_on_course(keep, dry_run, events, n - 1);
        }
        assert forall|repo: Seq<char>| #[trigger]
            asked_after(keep, dry_run, events, n, repo) <==> asked_after(
                keep,
                dry_run,
                events,
                n - 1,
                repo,
            ) || action == SweepActionView::<E>::ListTags(repo) by {
            if asked_after(keep, dry_run, events, n, repo) && !asked_after(
                keep,
                dry_run,
                events,
                n - 1,
                repo,
            ) {
                let i = choose|i: int|
                    0 <= i < n && #[trigger] asked(keep, dry_run, events, i)
                        == SweepActionView::<E>::ListTags(repo);
                assert(i == n - 1);
            }
        }
        if s.phase == SweepPhase::Tags {
            let before = s.todo;
            let last = asked(keep, dry_run, events, n - 2);
            assert forall|k: int| 1 <= k < before.len() implies !asked_after(
                keep,
                dry_run,
                events,
                n - 1,
                #[trigger] before[k],
            ) by {
                assert(before[k] != before[0]);
                assert(!asked_after(keep, dry_run, events, n - 2, before[k]));
                if asked_after(keep, dry_run, events, n - 1, before[k]) {
                    let i = choose|i: int|
                        0 <= i < n - 1 && #[trigger] asked(keep, dry_run, events, i)
                            == SweepActionView::<E>::ListTags(before[k]);
                    assert(i == n - 2);
                }
            }
        }
        if t.phase == SweepPhase::Tags && s.phase != SweepPhase::Repositories {
            assert forall|k: int| 0 <= k < t.todo.len() implies !asked_after(
                keep,
                dry_run,
                events,
                n - 1,
                #[trigger] t.todo[k],
            ) by {
                assert(t.todo[k] == s.todo[k + 1]);
            }
        }
    }
}

/// A sweep asks for the tags of each repository once.
pub proof fn law_each_repository_is_asked_after_once<E>(
    keep: nat,
    dry_run: bool,
    events: Seq<SweepEventView<E>>,
    i: int,
    j: int,
)
    requires
        forall|k: int|
            0 <= k < events.len() ==> ((#[trigger] events[k]) matches SweepEvent::Repositories(
                names,
            ) ==> names.no_duplicates()),
        0 <= i < events.len(),
        0 <= j < events.len(),
        asked(keep, dry_run, events, i) is ListTags,
        asked(keep, dry_run, events, i) == asked(keep, dry_run, events, j),
    ensures
        i == j,
{
    let (m, n) = if i < j {
        (i, j)
    } else {
        (j, i)
    };
    if m < n {
        let now = events.take(n + 1);
        let s = sweep_after(keep, dry_run, now);
        assert(now.drop_last() =~= events.take(n));
        assert(now.last() == events[n]);
        lemma_asks_once(keep, dry_run, events, n + 1);
        assert(s.phase == SweepPhase::Tags);
        let repo = s.todo[0];
        assert(asked(keep, dry_run, events, m) == SweepActionView::<E>::ListTags(
            repo,
        ));
        assert(asked_after(keep, dry_run, events, n, repo));
    }
}

/// A tag that is kept stays as it is: once a sweep has heard the tags of a repository, nothing at or
/// below one of those to keep changes from the beginning of the sweep to its end.
pub proof fn law_kept_tags_stay<E>(
    keep: nat,
    dry_run: bool,
    base: Seq<char>,
    at: Seq<Seq<char>>,
    events: Seq<SweepEventView<E>>,
    disks: Seq<Disk>,
    store: Option<Dir>,
    repo: Seq<Seq<char>>,
    i: int,
    tags: Seq<TagView>,
    tag: TagView,
    p: Seq<Seq<char>>,
)
    requires
        component_path(at),
        at.len() > 0,
        is_course(keep, dry_run, base, at, events, disks),
        seen(disks.first(), at, store),
        plain_store(store),
        repository_on(disks.first(), at, repo),
        0 < i < events.len(),
        asked(keep, dry_run, events, i - 1) == SweepActionView::<E>::ListTags(
            repository_name(repo),
        ),
        events[i] == SweepEventView::<E>::Tags(tags),
        distinct_names(tags),
        kept(tags, keep).contains(tag),
        tag_path(at, repo, tag.name).is_prefix_of(p),
    ensures
        same_at(disks.first(), disks.last(), p),
{
    let (a, b) = (disks.first(), disks.last());
    lemma_course(keep, dry_run, base, at, events, disks, store, events.len() as int);
    if !same_at(a, b, p) {
        assert(!same_at(disks[0], disks[events.len() as int], p));
        let t = lemma_chosen_tag_of(keep, dry_run, at, events, a, repo, tag.name, p);
        let j = choose|j: int| doomed_at(keep, dry_run, events, j, repository_name(repo), t);
        law_each_repository_is_asked_after_once(keep, dry_run, events, i - 1, j - 1);
        law_kept_is_not_doomed(tags, keep, tag, t);
    }
}

} // verus!
