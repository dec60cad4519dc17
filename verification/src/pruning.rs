//! What a sweep does to a store.

use vstd::prelude::*;

use crate::discovery::{law_walk_returns_an_ascending_list, plain_dir, repositories_of, Dir};
use crate::names::sorted_names;
use crate::order::{lemma_same_multiset, lemma_same_values};
use crate::registry_fs::tags_without;
use crate::retention::{doomed, kept, law_kept_and_doomed_are_all, TagView};
use crate::sweep::{sweep_next, take_repository, take_tag, SweepAction, SweepActionView, SweepEvent,
    SweepEventView, SweepPhase, SweepView};

verus! {

/// The tags of each repository of a store.
pub type Store = Map<Seq<char>, Seq<TagView>>;

/// `store`, with the repositories `names`, once the caller has done what `action` asks for, and
/// what came of it. The names stay the same: a repository without tags is still a repository.
pub open spec fn carry_out<E>(
    names: Seq<Seq<char>>,
    store: Store,
    action: SweepActionView<E>,
) -> (Store, SweepEventView<E>) {
    match action {
        SweepAction::ListRepositories => (store, SweepEvent::Repositories(names)),
        SweepAction::ListTags(repo) => (store, SweepEvent::Tags(store[repo])),
        SweepAction::Announce { .. } => (store, SweepEvent::Done),
        SweepAction::Delete { repo, tag } => (
            store.insert(repo, tags_without(store[repo], tag.name)),
            SweepEvent::Done,
        ),
        SweepAction::Report { .. } => (store, SweepEvent::Done),
        _ => (store, SweepEvent::Start),
    }
}

/// A sweep that has not begun.
pub open spec fn fresh() -> SweepView {
    SweepView {
        phase: SweepPhase::Idle,
        todo: Seq::empty(),
        going: Seq::empty(),
        deleted: 0,
    }
}

/// What the sweep `s`, which has asked for `action`, leaves of `store` and returns when up to
/// `limit` of its actions are carried out: none where it failed or is not done by then.
pub open spec fn sweep_outcome<E>(
    keep: nat,
    dry_run: bool,
    names: Seq<Seq<char>>,
    store: Store,
    s: SweepView,
    action: SweepActionView<E>,
    limit: nat,
) -> Option<(Store, nat)>
    decreases limit,
{
    match action {
        SweepAction::Finish(n) => Some((store, n)),
        SweepAction::Fail(_) | SweepAction::Reject => None,
        _ => if limit == 0 {
            None
        } else {
            let (store2, event) = carry_out(names, store, action);
            let (s2, action2) = sweep_next(keep, dry_run, s, event);
            sweep_outcome(keep, dry_run, names, store2, s2, action2, (limit - 1) as nat)
        },
    }
}

/// `tags` but for those with the name of one of `going`.
pub open spec fn without_all(tags: Seq<TagView>, going: Seq<TagView>) -> Seq<TagView>
    decreases going.len(),
{
    if going.len() == 0 {
        tags
    } else {
        without_all(tags_without(tags, going.first().name), going.drop_first())
    }
}

/// `tags` of one repository once all but the `keep` most recent are deleted.
pub open spec fn pruned(tags: Seq<TagView>, keep: nat) -> Seq<TagView> {
    without_all(tags, doomed(tags, keep))
}

/// `store` once the repositories `names` are pruned, one after the other.
pub open spec fn swept(keep: nat, names: Seq<Seq<char>>, store: Store) -> Store
    decreases names.len(),
{
    if names.len() == 0 {
        store
    } else {
        swept(
            keep,
            names.drop_first(),
            store.insert(names.first(), pruned(store[names.first()], keep)),
        )
    }
}

/// The number of tags that go when the repositories `names` are pruned, one after the other, or,
/// in a dry run, are looked at one after the other.
pub open spec fn swept_count(keep: nat, dry_run: bool, names: Seq<Seq<char>>, store: Store) -> nat
    decreases names.len(),
{
    if names.len() == 0 {
        0
    } else {
        let repo = names.first();
        let after = if dry_run {
            store
        } else {
            store.insert(repo, pruned(store[repo], keep))
        };
        doomed(store[repo], keep).len() + swept_count(keep, dry_run, names.drop_first(), after)
    }
}

/// `store` once `going` are deleted from `repo`, or, in a dry run, are reported.
spec fn after_tags(dry_run: bool, store: Store, repo: Seq<char>, going: Seq<TagView>) -> Store {
    if dry_run {
        store
    } else {
        store.insert(repo, without_all(store[repo], going))
    }
}

proof fn lemma_tags_go<E>(keep: nat, dry_run: bool, names: Seq<Seq<char>>, store: Store, s: SweepView)
    requires
        s.todo.len() > 0,
        store.contains_key(s.todo.first()),
    ensures
        ({
            let (s1, a1) = take_tag::<E>(dry_run, s);
            let (s2, a2) = take_repository::<E>(
                SweepView {
                    phase: SweepPhase::Deleting,
                    todo: s.todo.drop_first(),
                    going: Seq::empty(),
                    deleted: s.deleted + s.going.len(),
                },
            );
            let store2 = after_tags(dry_run, store, s.todo.first(), s.going);
            forall|limit: nat|
                sweep_outcome(keep, dry_run, names, store, s1, a1, limit + s.going.len())
                    == #[trigger] sweep_outcome(keep, dry_run, names, store2, s2, a2, limit)
        }),
    decreases s.going.len(),
{
    let repo = s.todo.first();
    let (s1, a1) = take_tag::<E>(dry_run, s);
    let (s2, a2) = take_repository::<E>(
        SweepView {
            phase: SweepPhase::Deleting,
            todo: s.todo.drop_first(),
            going: Seq::empty(),
            deleted: s.deleted + s.going.len(),
        },
    );
    let store2 = after_tags(dry_run, store, repo, s.going);
    if s.going.len() == 0 {
        assert(s.going =~= Seq::empty());
        assert(store2 =~= store);
    } else {
        let t = SweepView {
            phase: SweepPhase::Deleting,
            going: s.going.drop_first(),
            deleted: s.deleted + 1,
            ..s
        };
        let store1 = carry_out(names, store, a1).0;
        lemma_tags_go::<E>(keep, dry_run, names, store1, t);
        assert(after_tags(dry_run, store1, repo, t.going) =~= store2);
        let (t1, b1) = take_tag::<E>(dry_run, t);
        assert forall|limit: nat|
            sweep_outcome(keep, dry_run, names, store, s1, a1, limit + s.going.len())
                == #[trigger] sweep_outcome(keep, dry_run, names, store2, s2, a2, limit) by {
            assert(sweep_outcome(keep, dry_run, names, store, s1, a1, limit + s.going.len())
                == sweep_outcome(keep, dry_run, names, store1, t1, b1, limit + t.going.len()));
        }
    }
}

proof fn lemma_repositories_go<E>(
    keep: nat,
    dry_run: bool,
    names: Seq<Seq<char>>,
    store: Store,
    s: SweepView,
) -> (limit: nat)
    requires
        forall|i: int| 0 <= i < s.todo.len() ==> store.contains_key(#[trigger] s.todo[i]),
    ensures
        ({
            let (s1, a1) = take_repository::<E>(s);
            sweep_outcome(keep, dry_run, names, store, s1, a1, limit) == Some(
                (
                    if dry_run {
                        store
                    } else {
                        swept(keep, s.todo, store)
                    },
                    s.deleted + swept_count(keep, dry_run, s.todo, store),
                ),
            )
        }),
    decreases s.todo.len(),
{
    let (s1, a1) = take_repository::<E>(s);
    if s.todo.len() == 0 {
        0
    } else {
        let repo = s.todo[0];
        let rest = s.todo.drop_first();
        let going = doomed(store[repo], keep);
        let store2 = after_tags(dry_run, store, repo, going);
        let t = SweepView {
            phase: SweepPhase::Deleting,
            todo: rest,
            going: Seq::empty(),
            deleted: s.deleted + going.len(),
        };
        let more = lemma_repositories_go::<E>(keep, dry_run, names, store2, t);
        let (t1, b1) = take_repository::<E>(t);
        if going.len() == 0 {
            assert(going =~= Seq::empty());
            assert(store2 =~= store);
            assert(store.insert(repo, pruned(store[repo], keep)) =~= store);
            assert(sweep_outcome(keep, dry_run, names, store, s1, a1, more + 1) == sweep_outcome(
                keep,
                dry_run,
                names,
                store2,
                t1,
                b1,
                more,
            ));
            more + 1
        } else {
            let u = SweepView { phase: SweepPhase::Announcing, going, ..s };
            lemma_tags_go::<E>(keep, dry_run, names, store, u);
            let (u1, c1) = take_tag::<E>(dry_run, u);
            let limit = more + going.len() + 2;
            reveal_with_fuel(sweep_outcome, 3);
            assert(sweep_outcome(keep, dry_run, names, store, s1, a1, limit) == sweep_outcome(
                keep,
                dry_run,
                names,
                store,
                u1,
                c1,
                more + going.len(),
            ));
            assert(sweep_outcome(keep, dry_run, names, store, u1, c1, more + going.len())
                == sweep_outcome(keep, dry_run, names, store2, t1, b1, more));
            limit
        }
    }
}

/// A sweep whose caller does what it asks for comes to an end. It leaves each of the repositories
/// pruned, or, in a dry run, the store as it was, and returns how many tags went, or would have
/// gone.
pub proof fn law_sweep_prunes_the_store<E>(
    keep: nat,
    dry_run: bool,
    names: Seq<Seq<char>>,
    store: Store,
)
    requires
        forall|i: int| 0 <= i < names.len() ==> store.contains_key(#[trigger] names[i]),
    ensures
        ({
            let (s1, a1) = sweep_next::<E>(keep, dry_run, fresh(), SweepEvent::Start);
            exists|limit: nat|
                #[trigger] sweep_outcome(keep, dry_run, names, store, s1, a1, limit) == Some(
                    (
                        if dry_run {
                            store
                        } else {
                            swept(keep, names, store)
                        },
                        swept_count(keep, dry_run, names, store),
                    ),
                )
        }),
{
    let (s1, a1) = sweep_next::<E>(keep, dry_run, fresh(), SweepEvent::Start);
    let t = SweepView { phase: SweepPhase::Repositories, todo: names, ..fresh() };
    let limit = lemma_repositories_go::<E>(keep, dry_run, names, store, t);
    let (t1, b1) = take_repository::<E>(t);
    assert(sweep_outcome(keep, dry_run, names, store, s1, a1, limit + 1) == sweep_outcome(
        keep,
        dry_run,
        names,
        store,
        t1,
        b1,
        limit,
    ));
}

/// Whether no two of `tags` share a name, as no two entries of a directory do.
pub open spec fn distinct_names(tags: Seq<TagView>) -> bool {
    forall|i: int, j: int|
        0 <= i < j < tags.len() ==> (#[trigger] tags[i]).name != (#[trigger] tags[j]).name
}

proof fn lemma_without(tags: Seq<TagView>, name: Seq<char>)
    ensures
        distinct_names(tags) ==> distinct_names(tags_without(tags, name)),
        forall|t: TagView| #[trigger]
            tags_without(tags, name).contains(t) <==> tags.contains(t) && t.name != name,
    decreases tags.len(),
{
    reveal(Seq::filter);
    let less = tags_without(tags, name);
    if tags.len() > 0 {
        let (front, last) = (tags.drop_last(), tags.last());
        lemma_without(front, name);
        let before = tags_without(front, name);
        assert(less == if last.name != name { before.push(last) } else { before });
        assert forall|t: TagView| #[trigger] less.contains(t) <==> tags.contains(t) && t.name
            != name by {
            assert(tags.contains(t) <==> front.contains(t) || t == last) by {
                if front.contains(t) {
                    let k = choose|k: int| 0 <= k < front.len() && front[k] == t;
                    assert(tags[k] == t);
                }
                if tags.contains(t) {
                    let k = choose|k: int| 0 <= k < tags.len() && tags[k] == t;
                    if k < front.len() {
                        assert(front[k] == t);
                    }
                }
                assert(tags[tags.len() - 1] == last);
            }
            if last.name != name {
                assert(less.contains(t) <==> before.contains(t) || t == last) by {
                    if before.contains(t) {
                        let k = choose|k: int| 0 <= k < before.len() && before[k] == t;
                        assert(less[k] == t);
                    }
                    if less.contains(t) {
                        let k = choose|k: int| 0 <= k < less.len() && less[k] == t;
                        if k < before.len() {
                            assert(before[k] == t);
                        }
                    }
                    assert(less[less.len() - 1] == last);
                }
            }
        }
        if distinct_names(tags) {
            assert(distinct_names(front)) by {
                assert forall|i: int, j: int| 0 <= i < j < front.len() implies (
                #[trigger] front[i]).name != (#[trigger] front[j]).name by {
                    assert(tags[i].name != tags[j].name);
                }
            }
            assert forall|i: int, j: int| 0 <= i < j < less.len() implies (#[trigger] less[i]).name
                != (#[trigger] less[j]).name by {
                if j < before.len() {
                    assert(before[i].name != before[j].name);
                } else {
                    assert(less[i] == before[i] && before.contains(before[i]));
                    assert(front.contains(before[i]));
                    let k = choose|k: int| 0 <= k < front.len() && front[k] == before[i];
                    assert(tags[k].name != tags[tags.len() - 1].name);
                }
            }
        }
    }
}

proof fn lemma_without_all(tags: Seq<TagView>, going: Seq<TagView>)
    ensures
        distinct_names(tags) ==> distinct_names(without_all(tags, going)),
        forall|t: TagView| #[trigger]
            without_all(tags, going).contains(t) <==> tags.contains(t) && (forall|k: int|
                0 <= k < going.len() ==> (#[trigger] going[k]).name != t.name),
    decreases going.len(),
{
    if going.len() > 0 {
        let (first, rest) = (going.first(), going.drop_first());
        let less = tags_without(tags, first.name);
        lemma_without(tags, first.name);
        lemma_without_all(less, rest);
        assert(without_all(tags, going) == without_all(less, rest));
        assert forall|t: TagView| #[trigger]
            without_all(tags, going).contains(t) <==> tags.contains(t) && (forall|k: int|
                0 <= k < going.len() ==> (#[trigger] going[k]).name != t.name) by {
            if without_all(tags, going).contains(t) {
                assert(less.contains(t));
                assert forall|k: int| 0 <= k < going.len() implies (#[trigger] going[k]).name
                    != t.name by {
                    if k > 0 {
                        assert(rest[k - 1] == going[k]);
                    }
                }
            }
            if tags.contains(t) && (forall|k: int|
                0 <= k < going.len() ==> (#[trigger] going[k]).name != t.name) {
                assert(going[0].name != t.name);
                assert(less.contains(t));
                assert forall|k: int| 0 <= k < rest.len() implies (#[trigger] rest[k]).name
                    != t.name by {
                    assert(going[k + 1] == rest[k]);
                }
            }
        }
    }
}

proof fn lemma_distinct_no_duplicates(tags: Seq<TagView>)
    requires
        distinct_names(tags),
    ensures
        tags.no_duplicates(),
{
    assert forall|i: int, j: int| 0 <= i < tags.len() && 0 <= j < tags.len() && i != j implies tags[i]
        != tags[j] by {
        if i < j {
            assert(tags[i].name != tags[j].name);
        } else {
            assert(tags[j].name != tags[i].name);
        }
    }
}

/// No tag that is kept has the name of one that is not.
pub proof fn law_kept_is_not_doomed(tags: Seq<TagView>, keep: nat, stays: TagView, goes: TagView)
    requires
        distinct_names(tags),
        kept(tags, keep).contains(stays),
        doomed(tags, keep).contains(goes),
    ensures
        stays.name != goes.name,
{
    let (front, back) = (kept(tags, keep), doomed(tags, keep));
    let all = front + back;
    law_kept_and_doomed_are_all(tags, keep);
    lemma_distinct_no_duplicates(tags);
    tags.lemma_multiset_has_no_duplicates();
    all.lemma_multiset_has_no_duplicates_conv();
    lemma_same_values(all, tags);
    let i = choose|i: int| 0 <= i < front.len() && front[i] == stays;
    let j = choose|j: int| 0 <= j < back.len() && back[j] == goes;
    assert(all[i] == stays && all[front.len() + j] == goes);
    assert(all.contains(stays) && all.contains(goes));
    assert(tags.contains(stays) && tags.contains(goes));
    let p = choose|p: int| 0 <= p < tags.len() && tags[p] == stays;
    let q = choose|q: int| 0 <= q < tags.len() && tags[q] == goes;
    if p < q {
        assert(tags[p].name != tags[q].name);
    } else {
        assert(tags[q].name != tags[p].name);
    }
}

/// A pruned repository holds exactly the tags that the policy keeps.
pub proof fn law_pruned_is_kept(tags: Seq<TagView>, keep: nat)
    requires
        distinct_names(tags),
    ensures
        pruned(tags, keep).to_multiset() == kept(tags, keep).to_multiset(),
        pruned(tags, keep).len() == if tags.len() <= keep { tags.len() } else { keep },
        distinct_names(pruned(tags, keep)),
{
    let going = doomed(tags, keep);
    let stays = kept(tags, keep);
    let all = stays + going;
    let left = pruned(tags, keep);
    law_kept_and_doomed_are_all(tags, keep);
    lemma_without_all(tags, going);
    lemma_distinct_no_duplicates(tags);
    lemma_distinct_no_duplicates(left);
    tags.lemma_multiset_has_no_duplicates();
    all.lemma_multiset_has_no_duplicates_conv();
    lemma_same_values(all, tags);
    assert(stays.no_duplicates()) by {
        assert forall|i: int, j: int| 0 <= i < stays.len() && 0 <= j < stays.len() && i
            != j implies stays[i] != stays[j] by {
            assert(all[i] == stays[i] && all[j] == stays[j]);
        }
    }
    assert forall|t: TagView| #[trigger] left.contains(t) <==> #[trigger] stays.contains(t) by {
        if left.contains(t) {
            assert(all.contains(t));
            let k = choose|k: int| 0 <= k < all.len() && all[k] == t;
            if k >= stays.len() {
                assert(going[k - stays.len()] == t);
            } else {
                assert(stays[k] == t);
            }
        }
        if stays.contains(t) {
            let k = choose|k: int| 0 <= k < stays.len() && stays[k] == t;
            assert(all[k] == t);
            assert(all.contains(t));
            assert(tags.contains(t));
            assert forall|m: int| 0 <= m < going.len() implies (#[trigger] going[m]).name
                != t.name by {
                assert(going.contains(going[m]));
                law_kept_is_not_doomed(tags, keep, t, going[m]);
            }
        }
    }
    lemma_same_multiset(left, stays);
    left.to_multiset_ensures();
    stays.to_multiset_ensures();
}

/// Retention is per repository: a sweep leaves each repository on its list with its own most recent
/// tags, whatever the others hold, and the repositories that are not on its list as they were.
pub proof fn law_retention_is_per_repository(
    keep: nat,
    names: Seq<Seq<char>>,
    store: Store,
    repo: Seq<char>,
)
    requires
        forall|i: int| 0 <= i < names.len() ==> store.contains_key(#[trigger] names[i]),
        store.contains_key(repo),
        distinct_names(store[repo]),
    ensures
        swept(keep, names, store).contains_key(repo),
        swept(keep, names, store)[repo] == if names.contains(repo) {
            pruned(store[repo], keep)
        } else {
            store[repo]
        },
        names.contains(repo) ==> swept(keep, names, store)[repo].to_multiset() == kept(
            store[repo],
            keep,
        ).to_multiset(),
    decreases names.len(),
{
    if names.len() > 0 {
        let (first, rest) = (names.first(), names.drop_first());
        let after = store.insert(first, pruned(store[first], keep));
        law_pruned_is_kept(store[repo], keep);
        law_retention_is_per_repository(keep, rest, after, repo);
        assert(names.contains(repo) <==> repo == first || rest.contains(repo)) by {
            assert(names[0] == first);
            if rest.contains(repo) {
                let k = choose|k: int| 0 <= k < rest.len() && rest[k] == repo;
                assert(names[k + 1] == repo);
            }
            if names.contains(repo) {
                let k = choose|k: int| 0 <= k < names.len() && names[k] == repo;
                if k > 0 {
                    assert(rest[k - 1] == repo);
                }
            }
        }
        if repo == first {
            law_pruned_again(store[repo], keep);
        }
    }
}

/// Pruning a pruned repository changes nothing.
pub proof fn law_pruned_again(tags: Seq<TagView>, keep: nat)
    requires
        distinct_names(tags),
    ensures
        doomed(pruned(tags, keep), keep) == Seq::<TagView>::empty(),
        pruned(pruned(tags, keep), keep) == pruned(tags, keep),
{
    law_pruned_is_kept(tags, keep);
}

/// A second sweep finds nothing to delete.
pub proof fn law_second_sweep_deletes_nothing(
    keep: nat,
    dry_run: bool,
    names: Seq<Seq<char>>,
    store: Store,
)
    requires
        forall|i: int| 0 <= i < names.len() ==> store.contains_key(#[trigger] names[i]),
        forall|i: int| 0 <= i < names.len() ==> distinct_names(store[#[trigger] names[i]]),
    ensures
        swept_count(keep, dry_run, names, swept(keep, names, store)) == 0,
        swept(keep, names, swept(keep, names, store)) == swept(keep, names, store),
{
    let after = swept(keep, names, store);
    assert forall|i: int| 0 <= i < names.len() implies after.contains_key(#[trigger] names[i])
        && doomed(after[names[i]], keep).len() == 0 by {
        law_retention_is_per_repository(keep, names, store, names[i]);
        assert(names.contains(names[i]));
        law_pruned_again(store[names[i]], keep);
    }
    lemma_nothing_goes(keep, dry_run, names, after);
}

proof fn lemma_nothing_goes(keep: nat, dry_run: bool, names: Seq<Seq<char>>, store: Store)
    requires
        forall|i: int|
            0 <= i < names.len() ==> store.contains_key(#[trigger] names[i]) && doomed(
                store[names[i]],
                keep,
            ).len() == 0,
    ensures
        swept_count(keep, dry_run, names, store) == 0,
        swept(keep, names, store) == store,
    decreases names.len(),
{
    if names.len() > 0 {
        let (first, rest) = (names[0], names.drop_first());
        assert(store.insert(first, pruned(store[first], keep)) =~= store);
        assert forall|i: int| 0 <= i < rest.len() implies store.contains_key(#[trigger] rest[i])
            && doomed(store[rest[i]], keep).len() == 0 by {
            assert(rest[i] == names[i + 1]);
        }
        lemma_nothing_goes(keep, dry_run, rest, store);
    }
}

/// The number of tags beyond the `keep` most recent, over the repositories `names`.
pub open spec fn surplus(keep: nat, names: Seq<Seq<char>>, store: Store) -> nat
    decreases names.len(),
{
    if names.len() == 0 {
        0
    } else {
        (if store[names.first()].len() <= keep {
            0
        } else {
            (store[names.first()].len() - keep) as nat
        }) + surplus(keep, names.drop_first(), store)
    }
}

proof fn lemma_surplus_elsewhere(
    keep: nat,
    names: Seq<Seq<char>>,
    store: Store,
    repo: Seq<char>,
    tags: Seq<TagView>,
)
    requires
        !names.contains(repo),
    ensures
        surplus(keep, names, store.insert(repo, tags)) == surplus(keep, names, store),
    decreases names.len(),
{
    if names.len() > 0 {
        let rest = names.drop_first();
        assert(names[0] != repo);
        assert(!rest.contains(repo)) by {
            if rest.contains(repo) {
                let k = choose|k: int| 0 <= k < rest.len() && rest[k] == repo;
                assert(names[k + 1] == repo);
            }
        }
        lemma_surplus_elsewhere(keep, rest, store, repo, tags);
    }
}

/// A dry run counts the tags beyond the `keep` most recent of each repository, and so does a sweep
/// that deletes them, where no repository is on its list twice.
pub proof fn law_sweep_counts_the_surplus(keep: nat, names: Seq<Seq<char>>, store: Store)
    ensures
        swept_count(keep, true, names, store) == surplus(keep, names, store),
        names.no_duplicates() ==> swept_count(keep, false, names, store) == surplus(
            keep,
            names,
            store,
        ),
    decreases names.len(),
{
    if names.len() > 0 {
        let (first, rest) = (names.first(), names.drop_first());
        let tags = pruned(store[first], keep);
        law_kept_and_doomed_are_all(store[first], keep);
        law_sweep_counts_the_surplus(keep, rest, store);
        law_sweep_counts_the_surplus(keep, rest, store.insert(first, tags));
        if names.no_duplicates() {
            assert(!rest.contains(first)) by {
                if rest.contains(first) {
                    let k = choose|k: int| 0 <= k < rest.len() && rest[k] == first;
                    assert(names[k + 1] == names[0]);
                }
            }
            lemma_surplus_elsewhere(keep, rest, store, first, tags);
        }
    }
}

/// A sweep of the repositories that a walk found counts the tags beyond the `keep` most recent of
/// each repository, whether it deletes them or not.
pub proof fn law_sweep_of_a_walk_counts_the_surplus(
    keep: nat,
    dry_run: bool,
    root: Dir,
    store: Store,
)
    requires
        plain_dir(root),
    ensures
        ({
            let names = sorted_names(repositories_of(Some(root)));
            swept_count(keep, dry_run, names, store) == surplus(keep, names, store)
        }),
{
    law_walk_returns_an_ascending_list(root);
    law_sweep_counts_the_surplus(keep, sorted_names(repositories_of(Some(root))), store);
}

/// In a dry run nothing is ever deleted, whatever the sweep hears.
pub proof fn law_dry_run_never_deletes<E>(
    keep: nat,
    s: SweepView,
    event: SweepEventView<E>,
)
    ensures
        !(sweep_next(keep, true, s, event).1 is Delete),
{
}

/// Whatever cannot be done ends the sweep, at once and without a count. The error that the sweep ends
/// with is the one that it met, and it ends with none that it did not meet.
pub proof fn law_failure_ends_the_sweep<E>(
    keep: nat,
    dry_run: bool,
    s: SweepView,
    event: SweepEventView<E>,
    e: E,
)
    ensures
        sweep_next(keep, dry_run, s, event).1 == SweepActionView::<E>::Fail(e) <==> event
            == SweepEventView::<E>::Failed(e),
        event is Failed ==> sweep_next(keep, dry_run, s, event).0.phase == SweepPhase::Over,
        s.phase == SweepPhase::Over ==> sweep_next(keep, dry_run, s, event).1 is Fail || sweep_next(
            keep,
            dry_run,
            s,
            event,
        ).1 is Reject,
{
}

/// The store, the sweep and its next action once `n` of its actions are carried out, or as many as
/// there are before it stops.
pub open spec fn after_actions<E>(
    keep: nat,
    dry_run: bool,
    names: Seq<Seq<char>>,
    store: Store,
    n: nat,
) -> (Store, SweepView, SweepActionView<E>)
    decreases n,
{
    if n == 0 {
        let (s, action) = sweep_next::<E>(keep, dry_run, fresh(), SweepEvent::Start);
        (store, s, action)
    } else {
        let (store1, s, action) = after_actions::<E>(keep, dry_run, names, store, (n - 1) as nat);
        if action is Finish || action is Fail || action is Reject {
            (store1, s, action)
        } else {
            let (store2, event) = carry_out(names, store1, action);
            let (s2, action2) = sweep_next(keep, dry_run, s, event);
            (store2, s2, action2)
        }
    }
}

/// `store` once the first `j` of the repositories `names` are pruned, or, in a dry run, are looked
/// at.
pub open spec fn swept_before(
    keep: nat,
    dry_run: bool,
    names: Seq<Seq<char>>,
    store: Store,
    j: int,
) -> Store {
    if dry_run {
        store
    } else {
        swept(keep, names.take(j), store)
    }
}

/// The tags that go from the repository `names[j]`, when its turn comes.
pub open spec fn going_from(
    keep: nat,
    dry_run: bool,
    names: Seq<Seq<char>>,
    store: Store,
    j: int,
) -> Seq<TagView> {
    doomed(swept_before(keep, dry_run, names, store, j)[names[j]], keep)
}

/// `store` once the first `j` of the repositories `names` are pruned and, of the one that follows,
/// the first `m` of the tags that go are deleted.
pub open spec fn partly_swept(
    keep: nat,
    names: Seq<Seq<char>>,
    store: Store,
    j: int,
    m: int,
) -> Store {
    let before = swept_before(keep, false, names, store, j);
    let going = going_from(keep, false, names, store, j);
    before.insert(names[j], without_all(before[names[j]], going.take(m)))
}

proof fn lemma_swept_push(
    keep: nat,
    dry_run: bool,
    names: Seq<Seq<char>>,
    store: Store,
    repo: Seq<char>,
)
    ensures
        ({
            let before = swept(keep, names, store);
            let seen = if dry_run {
                store
            } else {
                before
            };
            &&& swept(keep, names.push(repo), store) == before.insert(
                repo,
                pruned(before[repo], keep),
            )
            &&& swept_count(keep, dry_run, names.push(repo), store) == swept_count(
                keep,
                dry_run,
                names,
                store,
            ) + doomed(seen[repo], keep).len()
            &&& forall|k: Seq<char>| store.contains_key(k) ==> #[trigger] before.contains_key(k)
        }),
    decreases names.len(),
{
    let more = names.push(repo);
    if names.len() == 0 {
        assert(more.drop_first() =~= names);
        reveal_with_fuel(swept, 2);
        reveal_with_fuel(swept_count, 2);
    } else {
        let (first, rest) = (names.first(), names.drop_first());
        let after = store.insert(first, pruned(store[first], keep));
        assert(more.drop_first() =~= rest.push(repo));
        lemma_swept_push(keep, dry_run, rest, after, repo);
        if dry_run {
            lemma_swept_push(keep, dry_run, rest, store, repo);
        }
    }
}

proof fn lemma_without_all_push(tags: Seq<TagView>, going: Seq<TagView>, tag: TagView)
    ensures
        without_all(tags, going.push(tag)) == tags_without(without_all(tags, going), tag.name),
    decreases going.len(),
{
    let more = going.push(tag);
    if going.len() == 0 {
        assert(more.drop_first() =~= going);
        reveal_with_fuel(without_all, 2);
    } else {
        assert(more.drop_first() =~= going.drop_first().push(tag));
        lemma_without_all_push(tags_without(tags, going.first().name), going.drop_first(), tag);
    }
}

/// How far a sweep has come: what it has left of the store, and what it asks for.
spec fn progress<E>(
    keep: nat,
    dry_run: bool,
    names: Seq<Seq<char>>,
    store: Store,
    left: Store,
    s: SweepView,
    action: SweepActionView<E>,
) -> bool {
    let j = names.len() - s.todo.len();
    let before = swept_before(keep, dry_run, names, store, j);
    let going = going_from(keep, dry_run, names, store, j);
    let m = going.len() - s.going.len();
    let count = swept_count(keep, dry_run, names.take(j), store);
    match s.phase {
        SweepPhase::Idle => false,
        SweepPhase::Repositories => {
            &&& action is ListRepositories
            &&& left == store
            &&& s.deleted == 0
        },
        SweepPhase::Tags => {
            &&& 0 <= j < names.len()
            &&& s.todo == names.skip(j)
            &&& left == before
            &&& s.deleted == count
            &&& action == SweepActionView::<E>::ListTags(names[j])
        },
        SweepPhase::Announcing | SweepPhase::Deleting => {
            &&& 0 <= j < names.len()
            &&& s.todo == names.skip(j)
            &&& 0 <= m < going.len()
            &&& s.going == going.skip(m)
            &&& left == after_tags(dry_run, before, names[j], going.take(m))
            &&& s.deleted == count + m
            &&& if s.phase == SweepPhase::Announcing {
                m == 0 && action is Announce
            } else if dry_run {
                action == SweepActionView::<E>::Report {
                    repo: names[j],
                    tag: going[m],
                }
            } else {
                action == SweepActionView::<E>::Delete {
                    repo: names[j],
                    tag: going[m],
                }
            }
        },
        SweepPhase::Over => {
            &&& left == swept_before(keep, dry_run, names, store, names.len() as int)
            &&& action == SweepActionView::<E>::Finish(
                swept_count(keep, dry_run, names, store),
            )
        },
    }
}

proof fn lemma_progress_repository<E>(
    keep: nat,
    dry_run: bool,
    names: Seq<Seq<char>>,
    store: Store,
    s: SweepView,
    j: int,
)
    requires
        0 <= j <= names.len(),
        s.todo == names.skip(j),
        s.deleted == swept_count(keep, dry_run, names.take(j), store),
    ensures
        ({
            let (s1, action) = take_repository::<E>(s);
            let before = swept_before(keep, dry_run, names, store, j);
            progress(keep, dry_run, names, store, before, s1, action)
        }),
{
    if j == names.len() {
        assert(names.take(j) =~= names);
    } else {
        assert(s.todo.first() == names[j]);
    }
}

proof fn lemma_progress_tag<E>(
    keep: nat,
    dry_run: bool,
    names: Seq<Seq<char>>,
    store: Store,
    s: SweepView,
    j: int,
    m: int,
)
    requires
        0 <= j < names.len(),
        store.contains_key(names[j]),
        s.todo == names.skip(j),
        0 <= m <= going_from(keep, dry_run, names, store, j).len(),
        s.going == going_from(keep, dry_run, names, store, j).skip(m),
        s.deleted == swept_count(keep, dry_run, names.take(j), store) + m,
    ensures
        ({
            let (s1, action) = take_tag::<E>(dry_run, s);
            let before = swept_before(keep, dry_run, names, store, j);
            let going = going_from(keep, dry_run, names, store, j);
            let left = after_tags(dry_run, before, names[j], going.take(m));
            progress(keep, dry_run, names, store, left, s1, action)
        }),
{
    let before = swept_before(keep, dry_run, names, store, j);
    let going = going_from(keep, dry_run, names, store, j);
    if m == going.len() {
        lemma_swept_push(keep, dry_run, names.take(j), store, names[j]);
        assert(names.take(j).push(names[j]) =~= names.take(j + 1));
        assert(going.take(m) =~= going);
        assert(s.todo.drop_first() =~= names.skip(j + 1));
        lemma_progress_repository::<E>(
            keep,
            dry_run,
            names,
            store,
            SweepView { todo: s.todo.drop_first(), ..s },
            j + 1,
        );
    } else {
        assert(s.todo.first() == names[j]);
        assert(s.going.first() == going[m]);
    }
}

proof fn lemma_progress<E>(keep: nat, dry_run: bool, names: Seq<Seq<char>>, store: Store, n: nat)
    requires
        forall|i: int| 0 <= i < names.len() ==> store.contains_key(#[trigger] names[i]),
    ensures
        ({
            let (left, s, action) = after_actions::<E>(keep, dry_run, names, store, n);
            progress(keep, dry_run, names, store, left, s, action)
        }),
    decreases n,
{
    if n > 0 {
        let (left, s, action) = after_actions::<E>(keep, dry_run, names, store, (n - 1) as nat);
        lemma_progress::<E>(keep, dry_run, names, store, (n - 1) as nat);
        let (left2, event) = carry_out(names, left, action);
        let j = names.len() - s.todo.len();
        match s.phase {
            SweepPhase::Repositories => {
                assert(names.skip(0) =~= names);
                assert(names.take(0) =~= Seq::empty());
                lemma_progress_repository::<E>(
                    keep,
                    dry_run,
                    names,
                    store,
                    SweepView { todo: names, ..s },
                    0,
                );
            },
            SweepPhase::Tags => {
                let going = going_from(keep, dry_run, names, store, j);
                if going.len() == 0 {
                    let t = SweepView { going, ..s };
                    assert(going =~= going.skip(0));
                    lemma_progress_tag::<E>(keep, dry_run, names, store, t, j, 0);
                    lemma_swept_push(keep, dry_run, names.take(j), store, names[j]);
                    assert(going.take(0) =~= Seq::empty());
                    assert(after_tags(dry_run, left, names[j], going.take(0)) =~= left);
                } else {
                    lemma_swept_push(keep, dry_run, names.take(j), store, names[j]);
                    assert(going.skip(0) =~= going);
                    assert(going.take(0) =~= Seq::empty());
                    assert(after_tags(dry_run, left, names[j], going.take(0)) =~= left);
                }
            },
            SweepPhase::Announcing => {
                lemma_progress_tag::<E>(keep, dry_run, names, store, s, j, 0);
            },
            SweepPhase::Deleting => {
                let before = swept_before(keep, dry_run, names, store, j);
                let going = going_from(keep, dry_run, names, store, j);
                let m = going.len() - s.going.len();
                let t = SweepView { going: s.going.drop_first(), deleted: s.deleted + 1, ..s };
                assert(t.going =~= going.skip(m + 1));
                lemma_without_all_push(before[names[j]], going.take(m), going[m]);
                assert(going.take(m).push(going[m]) =~= going.take(m + 1));
                assert(left2 =~= after_tags(dry_run, before, names[j], going.take(m + 1)));
                lemma_progress_tag::<E>(keep, dry_run, names, store, t, j, m + 1);
            },
            _ => {},
        }
    }
}

/// A sweep that fails leaves what it has done. When the tags of a repository cannot be listed, the
/// repositories before it are pruned and nothing else has changed. When a tag cannot be deleted,
/// the repositories before its own are pruned and, of its own, just the tags before it are gone. In
/// a dry run nothing has changed at all.
pub proof fn law_failed_sweep_stops_midway<E>(
    keep: nat,
    dry_run: bool,
    names: Seq<Seq<char>>,
    store: Store,
    n: nat,
    e: E,
)
    requires
        forall|i: int| 0 <= i < names.len() ==> store.contains_key(#[trigger] names[i]),
    ensures
        ({
            let (left, s, action) = after_actions::<E>(keep, dry_run, names, store, n);
            &&& sweep_next(keep, dry_run, s, SweepEvent::Failed(e)).1
                == SweepActionView::<E>::Fail(e)
            &&& dry_run ==> left == store
            &&& action is ListRepositories ==> left == store
            &&& action matches SweepAction::ListTags(repo) ==> exists|j: int|
                #![trigger names[j]]
                0 <= j < names.len() && repo == names[j] && left == swept_before(
                    keep,
                    dry_run,
                    names,
                    store,
                    j,
                )
            &&& action matches SweepAction::Delete { repo, tag } ==> exists|j: int, m: int|
                #![trigger partly_swept(keep, names, store, j, m)]
                {
                    &&& 0 <= j < names.len()
                    &&& repo == names[j]
                    &&& 0 <= m < going_from(keep, false, names, store, j).len()
                    &&& tag == going_from(keep, false, names, store, j)[m]
                    &&& left == partly_swept(keep, names, store, j, m)
                }
        }),
{
    let (left, s, action) = after_actions::<E>(keep, dry_run, names, store, n);
    lemma_progress::<E>(keep, dry_run, names, store, n);
    if action is Delete {
        let j = names.len() - s.todo.len();
        let m = going_from(keep, false, names, store, j).len() - s.going.len();
        assert(left == partly_swept(keep, names, store, j, m));
    }
}

/// A sweep announces how many of how many tags of a repository go, where there are more than are
/// kept, and else goes on to the next repository, or ends with its count after the last.
pub proof fn law_sweep_announces_what_goes<E>(
    keep: nat,
    dry_run: bool,
    s: SweepView,
    tags: Seq<TagView>,
)
    requires
        s.phase == SweepPhase::Tags,
    ensures
        ({
            let action = sweep_next::<E>(keep, dry_run, s, SweepEvent::Tags(tags)).1;
            &&& tags.len() > keep ==> action == SweepActionView::<E>::Announce {
                repo: s.todo[0],
                total: tags.len(),
                going: (tags.len() - keep) as nat,
            }
            &&& tags.len() <= keep && s.todo.len() > 1 ==> action
                == SweepActionView::<E>::ListTags(s.todo[1])
            &&& tags.len() <= keep && s.todo.len() == 1 ==> action
                == SweepActionView::<E>::Finish(s.deleted)
        }),
{
    law_kept_and_doomed_are_all(tags, keep);
}

/// A sweep takes what answers its last request and nothing else: the start before it has begun, the
/// repositories and the tags when it asked for them, and that it is done when it had something
/// logged or deleted.
pub proof fn law_sweep_rejects_what_does_not_answer<E>(
    keep: nat,
    dry_run: bool,
    s: SweepView,
    event: SweepEventView<E>,
)
    ensures
        sweep_next(keep, dry_run, s, event).1 is Reject <==> !(event is Failed || match s.phase {
            SweepPhase::Idle => event is Start,
            SweepPhase::Repositories => event is Repositories,
            SweepPhase::Tags => event is Tags,
            SweepPhase::Announcing | SweepPhase::Deleting => event is Done,
            SweepPhase::Over => false,
        }),
{
}

proof fn lemma_swept_elsewhere(
    keep: nat,
    names: Seq<Seq<char>>,
    store: Store,
    repo: Seq<char>,
)
    requires
        !names.contains(repo),
    ensures
        swept(keep, names, store)[repo] == store[repo],
    decreases names.len(),
{
    if names.len() > 0 {
        let (first, rest) = (names[0], names.drop_first());
        assert(!rest.contains(repo)) by {
            if rest.contains(repo) {
                let k = choose|k: int| 0 <= k < rest.len() && rest[k] == repo;
                assert(names[k + 1] == repo);
            }
        }
        lemma_swept_elsewhere(
            keep,
            rest,
            store.insert(first, pruned(store[first], keep)),
            repo,
        );
    }
}

/// A dry run foretells the sweep, step by step: it asks for the same things in the same order, but
/// reports each tag that the sweep deletes, and ends with the same count.
pub proof fn law_dry_run_foretells_the_sweep<E>(
    keep: nat,
    names: Seq<Seq<char>>,
    store: Store,
    n: nat,
)
    requires
        forall|i: int| 0 <= i < names.len() ==> store.contains_key(#[trigger] names[i]),
        names.no_duplicates(),
    ensures
        ({
            let (_, s, dry) = after_actions::<E>(keep, true, names, store, n);
            let (_, t, actual) = after_actions::<E>(keep, false, names, store, n);
            &&& s == t
            &&& match actual {
                SweepAction::Delete { repo, tag } => dry == SweepActionView::<E>::Report {
                    repo,
                    tag,
                },
                _ => dry == actual && !(actual is Report),
            }
        }),
    decreases n,
{
    if n > 0 {
        let m = (n - 1) as nat;
        law_dry_run_foretells_the_sweep::<E>(keep, names, store, m);
        lemma_progress::<E>(keep, true, names, store, m);
        lemma_progress::<E>(keep, false, names, store, m);
        let (a, s, dry) = after_actions::<E>(keep, true, names, store, m);
        let (b, t, actual) = after_actions::<E>(keep, false, names, store, m);
        if let SweepAction::ListTags(repo) = actual {
            let j = names.len() - t.todo.len();
            assert(t.phase == SweepPhase::Tags);
            assert(!names.take(j).contains(names[j])) by {
                if names.take(j).contains(names[j]) {
                    let k = choose|k: int| 0 <= k < j && names.take(j)[k] == names[j];
                    assert(names[k] == names[j]);
                }
            }
            lemma_swept_elsewhere(keep, names.take(j), store, repo);
            assert(a[repo] == b[repo]);
        }
    }
}

} // verus!
