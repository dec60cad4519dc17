//! The retention policy: keep the last `N` tags of each repository.
//!
//! Of a repository's tags the `N` most recently pushed stay, and the rest are marked for deletion.
//! When a tag was pushed is the modification time of its `current/link` file, which the registry
//! rewrites on every push of the tag.

use vstd::prelude::*;

use crate::names::{comes_before, law_name_before_irreflexive, law_name_before_total,
    law_name_before_transitive, name_before};
use crate::order::{law_sorted, law_sorted_arrangement_unique, law_sorted_ignores_input_order,
    law_sorted_positions, law_sorted_positions_unique, lemma_same_values, no_later, positions, sorted,
    sorted_positions, views, weak_order, Ranked};

verus! {

/// A tag of a repository as seen on the filesystem.
#[derive(Debug, PartialEq, Eq)]
pub struct Tag {
    pub name: String,
    /// The manifest digest that the tag points at, such as `sha256:abc`. For the log only.
    pub digest: String,
    /// Modification time of `tags/<name>/current/link`, in nanoseconds since the Unix epoch,
    /// negative before it.
    pub mtime: i128,
}

/// A tag as a value.
#[verifier::ext_equal]
pub struct TagView {
    pub name: Seq<char>,
    pub digest: Seq<char>,
    pub mtime: int,
}

impl View for Tag {
    type V = TagView;

    open spec fn view(&self) -> TagView {
        TagView { name: self.name@, digest: self.digest@, mtime: self.mtime as int }
    }
}

impl Clone for Tag {
    fn clone(&self) -> (r: Self)
        ensures
            r@ == self@,
    {
        Tag { name: self.name.clone(), digest: self.digest.clone(), mtime: self.mtime }
    }
}

/// Whether `a` counts as more recent than `b`: it was pushed later or, pushed at the same time, its
/// name comes later.
pub open spec fn newer(a: TagView, b: TagView) -> bool {
    a.mtime > b.mtime || (a.mtime == b.mtime && name_before(b.name, a.name))
}

/// `newer`, as a function.
pub open spec fn by_recency() -> spec_fn(TagView, TagView) -> bool {
    |a: TagView, b: TagView| newer(a, b)
}

/// `tags`, the most recent first. Tags with one time and one name keep their order.
pub open spec fn newest_first(tags: Seq<TagView>) -> Seq<TagView> {
    sorted(tags, by_recency())
}

/// The tags that stay: the `keep` most recent, or all where there are no more.
pub open spec fn kept(tags: Seq<TagView>, keep: nat) -> Seq<TagView> {
    if tags.len() <= keep {
        newest_first(tags)
    } else {
        newest_first(tags).take(keep as int)
    }
}

/// The tags that go: all but the `keep` most recent, the most recent first.
pub open spec fn doomed(tags: Seq<TagView>, keep: nat) -> Seq<TagView> {
    if tags.len() <= keep {
        Seq::empty()
    } else {
        newest_first(tags).skip(keep as int)
    }
}

impl Ranked for Tag {
    open spec fn ahead(a: TagView, b: TagView) -> bool {
        newer(a, b)
    }

    proof fn ahead_weak_order() {
        law_newer_weak_order();
        assert((|a: TagView, b: TagView| Self::ahead(a, b)) =~= by_recency());
    }

    fn is_ahead(&self, other: &Self) -> (r: bool) {
        self.mtime > other.mtime || (self.mtime == other.mtime && comes_before(
            other.name.as_str(),
            self.name.as_str(),
        ))
    }
}

/// Of all the tags of a repository, those to delete: everything beyond the `keep` most recent.
///
/// The most recent comes first. Tags pushed at the same time are told apart by name, the later
/// name counting as more recent, so that the result does not depend on the order in which the
/// directory was read.
pub fn tags_to_delete(tags: &[Tag], keep: usize) -> (r: Vec<Tag>)
    ensures
        views(r@) == doomed(views(tags@), keep as nat),
        r@.len() == if tags@.len() <= keep { 0 } else { tags@.len() - keep },
{
    let mut r: Vec<Tag> = Vec::new();
    if tags.len() <= keep {
        assert(views(r@) =~= Seq::<TagView>::empty());
        return r;
    }
    let order = positions(tags);
    let ghost all = newest_first(views(tags@));
    proof {
        assert((|a: TagView, b: TagView| Tag::ahead(a, b)) =~= by_recency());
        law_newer_weak_order();
        law_sorted_positions(views(tags@), by_recency());
        assert(sorted_positions(views(tags@), by_recency()) =~= order@.map_values(
            |i: usize| i as int,
        ));
        assert forall|k: int| 0 <= k < order@.len() implies #[trigger] order@[k] < tags@.len()
            && all[k] == tags@[order@[k] as int]@ by {
            assert(sorted_positions(views(tags@), by_recency())[k] == order@[k] as int);
        }
    }
    let mut k: usize = keep;
    while k < order.len()
        invariant
            keep <= k <= order@.len(),
            order@.len() == tags@.len(),
            all.len() == tags@.len(),
            forall|m: int|
                0 <= m < order@.len() ==> #[trigger] order@[m] < tags@.len() && all[m]
                    == tags@[order@[m] as int]@,
            views(r@) == all.subrange(keep as int, k as int),
        decreases order@.len() - k,
    {
        let ghost before = r@;
        r.push(tags[order[k]].clone());
        assert(views(r@) =~= views(before).push(all[k as int]));
        assert(all.subrange(keep as int, k + 1) =~= all.subrange(keep as int, k as int).push(
            all[k as int],
        ));
        k = k + 1;
    }
    assert(all.subrange(keep as int, k as int) =~= all.skip(keep as int));
    assert(views(r@).len() == r@.len());
    r
}

/// Recency is a weak order, in which only tags with one time and one name share a rank.
pub proof fn law_newer_weak_order()
    ensures
        weak_order(by_recency()),
        forall|a: TagView, b: TagView|
            !#[trigger] newer(a, b) && !newer(b, a) <==> a.mtime == b.mtime && a.name == b.name,
{
    let ahead = by_recency();
    assert forall|x: TagView| !#[trigger] ahead(x, x) by {
        law_name_before_irreflexive(x.name);
    }
    assert forall|x: TagView, y: TagView, z: TagView| #[trigger]
        ahead(x, y) && #[trigger] ahead(y, z) implies ahead(x, z) by {
        if x.mtime == y.mtime && y.mtime == z.mtime {
            law_name_before_transitive(z.name, y.name, x.name);
        }
    }
    assert forall|a: TagView, b: TagView|
        !#[trigger] newer(a, b) && !newer(b, a) <==> a.mtime == b.mtime && a.name == b.name by {
        law_name_before_total(a.name, b.name);
        law_name_before_irreflexive(a.name);
    }
    assert forall|x: TagView, y: TagView, z: TagView|
        !#[trigger] ahead(x, y) && !#[trigger] ahead(y, z) implies !ahead(x, z) by {
        if ahead(x, z) {
            // One of the two comparisons is strict the other way, or both are ties.
            if newer(y, x) && newer(z, y) {
                if x.mtime == y.mtime && y.mtime == z.mtime {
                    law_name_before_transitive(x.name, y.name, z.name);
                    law_name_before_transitive(z.name, x.name, z.name);
                    law_name_before_irreflexive(z.name);
                }
            } else if newer(y, x) || newer(z, y) {
                if x.mtime == z.mtime {
                    law_name_before_transitive(z.name, x.name, z.name);
                    law_name_before_irreflexive(z.name);
                }
            } else {
                law_name_before_irreflexive(x.name);
            }
        }
    }
}

/// Tags that are arranged each more recent than those behind it are newest first: there is no other
/// such arrangement.
pub proof fn law_newest_first_unique(tags: Seq<TagView>, arranged: Seq<TagView>)
    requires
        arranged.to_multiset() == tags.to_multiset(),
        forall|k: int, m: int|
            0 <= k < m < arranged.len() ==> newer(#[trigger] arranged[k], #[trigger] arranged[m]),
    ensures
        newest_first(tags) == arranged,
{
    let ahead = by_recency();
    law_newer_weak_order();
    law_sorted(tags, ahead);
    lemma_same_values(tags, arranged);
    assert forall|k: int, m: int| 0 <= k < m < arranged.len() implies !ahead(
        #[trigger] arranged[m],
        #[trigger] arranged[k],
    ) by {
        if ahead(arranged[m], arranged[k]) {
            assert(ahead(arranged[k], arranged[m]));
            assert(!ahead(arranged[k], arranged[k]));
        }
    }
    assert forall|i: int, j: int|
        0 <= i < arranged.len() && 0 <= j < arranged.len() && !ahead(
            #[trigger] arranged[i],
            #[trigger] arranged[j],
        ) && !ahead(arranged[j], arranged[i]) implies arranged[i] == arranged[j] by {
        if i < j {
            assert(newer(arranged[i], arranged[j]));
        } else if j < i {
            assert(newer(arranged[j], arranged[i]));
        }
    }
    law_sorted_arrangement_unique(arranged, newest_first(tags), ahead);
}

/// What stays and what goes are, together, all the tags, and `keep` of them stay where there are
/// that many.
pub proof fn law_kept_and_doomed_are_all(tags: Seq<TagView>, keep: nat)
    ensures
        kept(tags, keep) + doomed(tags, keep) == newest_first(tags),
        (kept(tags, keep) + doomed(tags, keep)).to_multiset() == tags.to_multiset(),
        kept(tags, keep).len() == if tags.len() <= keep { tags.len() } else { keep },
        doomed(tags, keep).len() == if tags.len() <= keep { 0 } else { tags.len() - keep },
{
    law_newer_weak_order();
    law_sorted(tags, by_recency());
    assert(kept(tags, keep) + doomed(tags, keep) =~= newest_first(tags));
}

/// No tag that goes is more recent than one that stays.
pub proof fn law_kept_are_the_most_recent(tags: Seq<TagView>, keep: nat, stays: TagView, goes: TagView)
    requires
        kept(tags, keep).contains(stays),
        doomed(tags, keep).contains(goes),
    ensures
        !newer(goes, stays),
{
    law_newer_weak_order();
    law_sorted(tags, by_recency());
    let all = newest_first(tags);
    let k = choose|k: int| 0 <= k < kept(tags, keep).len() && kept(tags, keep)[k] == stays;
    let m = choose|m: int| 0 <= m < doomed(tags, keep).len() && doomed(tags, keep)[m] == goes;
    assert(all[k] == stays && all[keep + m] == goes);
    assert(!by_recency()(all[keep + m], all[k]));
}

/// The positions of the tags that count as more recent than the one at position `i`, those with
/// its time and name that come before it among them.
pub open spec fn more_recent(tags: Seq<TagView>, i: int) -> Set<int> {
    Set::new(|j: int| 0 <= j < tags.len() && j != i && no_later(tags, by_recency(), j, i))
}

/// A tag goes if and only if at least `keep` tags are more recent, and the number of these is its
/// place among all the tags.
pub proof fn law_goes_iff_keep_are_more_recent(tags: Seq<TagView>, keep: nat, i: int)
    requires
        0 <= i < tags.len(),
    ensures
        more_recent(tags, i).finite(),
        more_recent(tags, i).len() < tags.len(),
        newest_first(tags)[more_recent(tags, i).len() as int] == tags[i],
        more_recent(tags, i).len() < keep ==> kept(tags, keep)[more_recent(tags, i).len() as int]
            == tags[i],
        more_recent(tags, i).len() >= keep ==> doomed(tags, keep)[more_recent(tags, i).len() - keep]
            == tags[i],
{
    law_newer_weak_order();
    law_sorted_positions(tags, by_recency());
    let order = sorted_positions(tags, by_recency());
    assert(order.contains(i));
    let k = choose|k: int| 0 <= k < order.len() && order[k] == i;
    let front = order.take(k);
    assert(front.no_duplicates());
    front.unique_seq_to_set();
    assert forall|j: int| more_recent(tags, i).contains(j) <==> front.to_set().contains(j) by {
        if front.contains(j) {
            let m = choose|m: int| 0 <= m < front.len() && front[m] == j;
            assert(order[m] == j);
            assert(no_later(tags, by_recency(), order[m], order[k]));
        }
        if more_recent(tags, i).contains(j) {
            assert(order.contains(j));
            let m = choose|m: int| 0 <= m < order.len() && order[m] == j;
            if m > k {
                assert(no_later(tags, by_recency(), order[k], order[m]));
                if newer(tags[i], tags[j]) && newer(tags[j], tags[i]) {
                    assert(by_recency()(tags[i], tags[j]) && by_recency()(tags[j], tags[i]));
                    assert(!by_recency()(tags[i], tags[i]));
                }
            }
            assert(front[m] == j);
        }
    }
    assert(more_recent(tags, i) =~= front.to_set());
}

/// The digest plays no part: lists of tags that agree in name and time, position by position, are
/// sorted alike, and of both the same tags stay and the same tags go.
pub proof fn law_digest_plays_no_part(a: Seq<TagView>, b: Seq<TagView>, keep: nat)
    requires
        a.len() == b.len(),
        forall|i: int|
            #![trigger a[i]]
            #![trigger b[i]]
            0 <= i < a.len() ==> a[i].name == b[i].name && a[i].mtime == b[i].mtime,
    ensures
        sorted_positions(a, by_recency()) == sorted_positions(b, by_recency()),
        kept(a, keep).len() == kept(b, keep).len(),
        forall|k: int|
            #![trigger kept(a, keep)[k]]
            #![trigger kept(b, keep)[k]]
            0 <= k < kept(a, keep).len() ==> kept(a, keep)[k].name == kept(b, keep)[k].name && kept(
                a,
                keep,
            )[k].mtime == kept(b, keep)[k].mtime,
        doomed(a, keep).len() == doomed(b, keep).len(),
        forall|k: int|
            #![trigger doomed(a, keep)[k]]
            #![trigger doomed(b, keep)[k]]
            0 <= k < doomed(a, keep).len() ==> doomed(a, keep)[k].name == doomed(b, keep)[k].name
                && doomed(a, keep)[k].mtime == doomed(b, keep)[k].mtime,
{
    let ahead = by_recency();
    let order = sorted_positions(a, ahead);
    law_newer_weak_order();
    law_sorted_positions(a, ahead);
    assert forall|k: int, m: int| 0 <= k < m < order.len() implies no_later(
        b,
        ahead,
        #[trigger] order[k],
        #[trigger] order[m],
    ) by {
        assert(no_later(a, ahead, order[k], order[m]));
    }
    law_sorted_positions_unique(b, ahead, order);
    let (x, y) = (newest_first(a), newest_first(b));
    assert forall|k: int| 0 <= k < order.len() implies (#[trigger] x[k]).name == y[k].name
        && x[k].mtime == y[k].mtime by {
        assert(x[k] == a[order[k]] && y[k] == b[order[k]]);
    }
}

/// A tag that was pushed after all the others stays, whatever else does: a push refreshes its tag.
pub proof fn law_last_push_stays(tags: Seq<TagView>, keep: nat, i: int)
    requires
        0 <= i < tags.len(),
        keep >= 1,
        forall|j: int| 0 <= j < tags.len() && j != i ==> (#[trigger] tags[j]).mtime < tags[i].mtime,
    ensures
        kept(tags, keep)[0] == tags[i],
        !doomed(tags, keep).contains(tags[i]),
{
    law_goes_iff_keep_are_more_recent(tags, keep, i);
    assert(more_recent(tags, i) =~= Set::empty());
    if doomed(tags, keep).contains(tags[i]) {
        let m = choose|m: int| 0 <= m < doomed(tags, keep).len() && doomed(tags, keep)[m] == tags[i];
        law_newer_weak_order();
        law_sorted_positions(tags, by_recency());
        let order = sorted_positions(tags, by_recency());
        assert(order[0] != order[keep + m]);
        assert(newest_first(tags)[0] == tags[i] && newest_first(tags)[keep + m] == tags[i]);
        assert(order[0] == i || order[keep + m] == i);
    }
}

/// Where no two tags share both time and name, the tags that stay and those that go do not depend
/// on the order in which the directory was read.
pub proof fn law_input_order_is_ignored(a: Seq<TagView>, b: Seq<TagView>, keep: nat)
    requires
        a.to_multiset() == b.to_multiset(),
        forall|i: int, j: int|
            0 <= i < a.len() && 0 <= j < a.len() && (#[trigger] a[i]).mtime == (
            #[trigger] a[j]).mtime && a[i].name == a[j].name ==> a[i] == a[j],
    ensures
        kept(a, keep) == kept(b, keep),
        doomed(a, keep) == doomed(b, keep),
{
    law_newer_weak_order();
    lemma_same_values(a, b);
    assert forall|i: int, j: int|
        0 <= i < a.len() && 0 <= j < a.len() && !by_recency()(#[trigger] a[i], #[trigger] a[j])
            && !by_recency()(a[j], a[i]) implies a[i] == a[j] by {
        assert(!newer(a[i], a[j]) && !newer(a[j], a[i]));
    }
    law_sorted_ignores_input_order(a, b, by_recency());
}

/// Keeping more tags takes the most recent of those that went, and no others.
pub proof fn law_keeping_more(tags: Seq<TagView>, keep: nat, more: nat)
    requires
        keep <= more,
    ensures
        more <= tags.len() ==> doomed(tags, more) == doomed(tags, keep).skip(more - keep),
        more >= tags.len() ==> doomed(tags, more) == Seq::<TagView>::empty(),
{
    law_kept_and_doomed_are_all(tags, keep);
    law_kept_and_doomed_are_all(tags, more);
    if more <= tags.len() {
        assert(doomed(tags, more) =~= doomed(tags, keep).skip(more - keep));
    } else {
        assert(doomed(tags, more) =~= Seq::empty());
    }
    if more == tags.len() {
        assert(doomed(tags, more) =~= Seq::empty());
    }
}

/// Of the tags that stay none goes the next time.
pub proof fn law_pruning_again_deletes_nothing(tags: Seq<TagView>, keep: nat)
    ensures
        doomed(kept(tags, keep), keep) == Seq::<TagView>::empty(),
{
    law_kept_and_doomed_are_all(tags, keep);
}

/// The most recent tags come first: by time, and where two have one time, by name, the later name
/// first.
pub proof fn law_newest_come_first(tags: Seq<TagView>, k: int, m: int)
    requires
        0 <= k < m < tags.len(),
    ensures
        newest_first(tags).len() == tags.len(),
        newest_first(tags)[k].mtime >= newest_first(tags)[m].mtime,
        newest_first(tags)[k].mtime == newest_first(tags)[m].mtime ==> newest_first(tags)[k].name
            == newest_first(tags)[m].name || name_before(
            newest_first(tags)[m].name,
            newest_first(tags)[k].name,
        ),
{
    law_newer_weak_order();
    law_sorted(tags, by_recency());
    let (x, y) = (newest_first(tags)[k], newest_first(tags)[m]);
    assert(!by_recency()(y, x));
    law_name_before_total(x.name, y.name);
}

/// No tag that goes was pushed after one that stays, and where the two were pushed at one time the
/// name of the one that stays does not come before that of the one that goes.
pub proof fn law_what_goes_was_pushed_no_later(
    tags: Seq<TagView>,
    keep: nat,
    stays: TagView,
    goes: TagView,
)
    requires
        kept(tags, keep).contains(stays),
        doomed(tags, keep).contains(goes),
    ensures
        goes.mtime <= stays.mtime,
        goes.mtime == stays.mtime ==> goes.name == stays.name || name_before(
            goes.name,
            stays.name,
        ),
{
    law_kept_are_the_most_recent(tags, keep, stays, goes);
    law_name_before_total(goes.name, stays.name);
}

/// What goes comes out newest first: by time, and where two have one time, by name, the later name
/// first.
pub proof fn law_what_goes_comes_newest_first(tags: Seq<TagView>, keep: nat, k: int, m: int)
    requires
        0 <= k < m < doomed(tags, keep).len(),
    ensures
        doomed(tags, keep)[k].mtime >= doomed(tags, keep)[m].mtime,
        doomed(tags, keep)[k].mtime == doomed(tags, keep)[m].mtime ==> doomed(tags, keep)[k].name
            == doomed(tags, keep)[m].name || name_before(
            doomed(tags, keep)[m].name,
            doomed(tags, keep)[k].name,
        ),
{
    law_kept_and_doomed_are_all(tags, keep);
    law_newest_come_first(tags, keep + k, keep + m);
}

/// Tags with one time and one name keep their order.
pub proof fn law_equal_tags_keep_their_order(tags: Seq<TagView>, i: int, j: int)
    requires
        0 <= i < j < tags.len(),
        tags[i].mtime == tags[j].mtime,
        tags[i].name == tags[j].name,
    ensures
        exists|k: int, m: int|
            0 <= k < m < tags.len() && sorted_positions(tags, by_recency())[k] == i
                && sorted_positions(tags, by_recency())[m] == j && #[trigger] newest_first(tags)[k]
                == tags[i] && #[trigger] newest_first(tags)[m] == tags[j],
{
    law_newer_weak_order();
    law_sorted_positions(tags, by_recency());
    let order = sorted_positions(tags, by_recency());
    assert(order.contains(i) && order.contains(j));
    let k = choose|k: int| 0 <= k < order.len() && order[k] == i;
    let m = choose|m: int| 0 <= m < order.len() && order[m] == j;
    if m < k {
        assert(no_later(tags, by_recency(), order[m], order[k]));
        assert(!newer(tags[i], tags[j]) && !newer(tags[j], tags[i]));
    }
    assert(newest_first(tags)[k] == tags[i] && newest_first(tags)[m] == tags[j]);
}

/// The value of a tag has its name, its digest and its time.
pub proof fn law_tag_value(tag: Tag)
    ensures
        tag@.name == tag.name@,
        tag@.digest == tag.digest@,
        tag@.mtime == tag.mtime,
{
}

} // verus!
