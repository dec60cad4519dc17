//! The layout of a `registry:2` filesystem store.
//!
//! Under `<rootdirectory>/docker/registry/v2`:
//!
//! ```text
//! repositories/<name>/_manifests/tags/<tag>/current/link   # text: "sha256:..."
//! repositories/<name>/_manifests/revisions/sha256/<hex>/...
//! blobs/sha256/<2>/<hex>/data
//! ```

use vstd::prelude::*;
use vstd::string::*;

use crate::names::proper;
use crate::order::views;
use crate::retention::{doomed, kept, law_last_push_stays, Tag, TagView};
use crate::text::{trim, trimmed};
use crate::walk::{walk_next, Walk, WalkAction, WalkEvent};

verus! {

/// The directory that makes a directory a repository.
pub const MANIFESTS: &'static str = "_manifests";

/// The file in a tag's directory that says what the tag points at, seen from that directory.
pub const LINK: &'static str = "current/link";

/// The path `rel` seen from the directory `base`: `rel` itself where it is absolute, else the two
/// with one separator between them where `base` neither is empty nor ends in one.
pub open spec fn joined(base: Seq<char>, rel: Seq<char>) -> Seq<char> {
    if rel.len() > 0 && rel.first() == '/' {
        rel
    } else if base.len() == 0 || base.last() == '/' {
        base + rel
    } else {
        base.push('/') + rel
    }
}

/// The path `rel` seen from the directory `base`.
pub fn join(base: &str, rel: &str) -> (r: String)
    ensures
        r@ == joined(base@, rel@),
{
    proof {
        reveal_strlit("/");
    }
    if rel.unicode_len() > 0 && rel.get_char(0) == '/' {
        return rel.to_owned();
    }
    let mut r: String = base.to_owned();
    let n: usize = base.unicode_len();
    if n > 0 && base.get_char(n - 1) != '/' {
        r.append("/");
        assert(r@ =~= base@.push('/'));
    }
    r.append(rel);
    r
}

/// The directory of the tags of `repo`, in the store with its repositories in `root`.
pub open spec fn tags_dir(root: Seq<char>, repo: Seq<char>) -> Seq<char> {
    joined(joined(root, repo), "_manifests/tags"@)
}

/// The directory of the tag `tag` of `repo`, in the store with its repositories in `root`.
pub open spec fn tag_dir(root: Seq<char>, repo: Seq<char>, tag: Seq<char>) -> Seq<char> {
    joined(tags_dir(root, repo), tag)
}

/// The `current/link` of a tag that could be read.
pub struct Link {
    pub content: String,
    /// Its modification time, in nanoseconds since the Unix epoch, negative before it.
    pub mtime: i128,
}

/// An entry of the directory of a repository's tags.
pub struct TagEntry {
    pub name: String,
    /// Whether it is a directory. A link to one is not.
    pub is_dir: bool,
    /// Its `current/link`, where both the text and the modification time could be read.
    pub link: Option<Link>,
}

/// A `current/link` as a value.
pub struct LinkView {
    pub content: Seq<char>,
    pub mtime: int,
}

/// An entry as a value.
pub struct TagEntryView {
    pub name: Seq<char>,
    pub is_dir: bool,
    pub link: Option<LinkView>,
}

impl View for Link {
    type V = LinkView;

    open spec fn view(&self) -> LinkView {
        LinkView { content: self.content@, mtime: self.mtime as int }
    }
}

impl View for TagEntry {
    type V = TagEntryView;

    open spec fn view(&self) -> TagEntryView {
        TagEntryView {
            name: self.name@,
            is_dir: self.is_dir,
            link: match self.link {
                Some(link) => Some(link@),
                None => None,
            },
        }
    }
}

/// The tag that an entry stands for: a directory whose `current/link` could be read. The digest is
/// the text of the link without the white space around it.
pub open spec fn tag_of(entry: TagEntryView) -> Option<TagView> {
    match entry.link {
        Some(link) if entry.is_dir => Some(
            TagView { name: entry.name, digest: trimmed(link.content), mtime: link.mtime },
        ),
        _ => None,
    }
}

/// The tags that `entries` stand for, in the order of the entries.
pub open spec fn tags_in(entries: Seq<TagEntryView>) -> Seq<TagView> {
    entries.filter_map(|entry: TagEntryView| tag_of(entry))
}

/// What the caller that lists a repository's tags saw. `L` is the type of a list of entries, `E` that
/// of an error.
pub enum TagsEvent<L, E> {
    /// Nothing yet.
    Start,
    /// The directory is not there.
    NotDir,
    /// All the entries of the directory.
    Listed(L),
    /// The directory, or one of its entries, could not be read, for this reason.
    Failed(E),
}

/// What the caller that lists a repository's tags does next. `N` is the type of a path, `L` that
/// of a list of tags, `E` that of an error.
pub enum TagsAction<N, L, E> {
    /// List this directory, and with each entry that is a directory its [`LINK`].
    List(N),
    /// Stop: these are the tags.
    Done(L),
    /// Stop: the tags could not be listed, for this reason.
    Fail(E),
}

impl<E> View for TagsEvent<Vec<TagEntry>, E> {
    type V = TagsEvent<Seq<TagEntryView>, E>;

    open spec fn view(&self) -> TagsEvent<Seq<TagEntryView>, E> {
        match *self {
            TagsEvent::Start => TagsEvent::Start,
            TagsEvent::NotDir => TagsEvent::NotDir,
            TagsEvent::Listed(entries) => TagsEvent::Listed(views(entries@)),
            TagsEvent::Failed(e) => TagsEvent::Failed(e),
        }
    }
}

impl<E> View for TagsAction<String, Vec<Tag>, E> {
    type V = TagsAction<Seq<char>, Seq<TagView>, E>;

    open spec fn view(&self) -> TagsAction<Seq<char>, Seq<TagView>, E> {
        match *self {
            TagsAction::List(path) => TagsAction::List(path@),
            TagsAction::Done(tags) => TagsAction::Done(views(tags@)),
            TagsAction::Fail(e) => TagsAction::Fail(e),
        }
    }
}

/// What to do about the tags of `repo` after `event`: a directory that is not there has no tags.
pub open spec fn tags_next<E>(
    root: Seq<char>,
    repo: Seq<char>,
    event: TagsEvent<Seq<TagEntryView>, E>,
) -> TagsAction<Seq<char>, Seq<TagView>, E> {
    match event {
        TagsEvent::Start => TagsAction::List(tags_dir(root, repo)),
        TagsEvent::NotDir => TagsAction::Done(Seq::empty()),
        TagsEvent::Listed(entries) => TagsAction::Done(tags_in(entries)),
        TagsEvent::Failed(e) => TagsAction::Fail(e),
    }
}

/// What the caller that deletes a tag saw. `E` is the type of an error.
pub enum DeleteEvent<E> {
    /// Nothing yet.
    Start,
    /// The directory and all in it is removed.
    Removed,
    /// There was no such directory.
    NotFound,
    /// The directory could not be removed, for this reason.
    Failed(E),
}

/// What the caller that deletes a tag does next. `N` is the type of a path, `E` that of an error.
pub enum DeleteAction<N, E> {
    /// Remove this directory and all in it.
    Remove(N),
    /// Stop: the tag is gone.
    Done,
    /// Stop: the tag could not be deleted, for this reason.
    Fail(E),
}

impl<E> View for DeleteAction<String, E> {
    type V = DeleteAction<Seq<char>, E>;

    open spec fn view(&self) -> DeleteAction<Seq<char>, E> {
        match *self {
            DeleteAction::Remove(path) => DeleteAction::Remove(path@),
            DeleteAction::Done => DeleteAction::Done,
            DeleteAction::Fail(e) => DeleteAction::Fail(e),
        }
    }
}

/// What to do about the tag `tag` of `repo`, which is to go, after `event`: a tag that is not there
/// is as good as deleted.
pub open spec fn delete_next<E>(
    root: Seq<char>,
    repo: Seq<char>,
    tag: Seq<char>,
    event: DeleteEvent<E>,
) -> DeleteAction<Seq<char>, E> {
    match event {
        DeleteEvent::Start => DeleteAction::Remove(tag_dir(root, repo, tag)),
        DeleteEvent::Removed => DeleteAction::Done,
        DeleteEvent::NotFound => DeleteAction::Done,
        DeleteEvent::Failed(e) => DeleteAction::Fail(e),
    }
}

/// Where a store keeps its repositories.
pub struct Layout {
    repositories: String,
}

impl View for Layout {
    type V = Seq<char>;

    /// The path of the directory of the repositories.
    closed spec fn view(&self) -> Seq<char> {
        self.repositories@
    }
}

impl Layout {
    /// The layout of the store in `data_dir`, the registry's `rootdirectory`, such as
    /// `/var/lib/registry`.
    pub fn new(data_dir: &str) -> (r: Self)
        ensures
            r@ == joined(data_dir@, "docker/registry/v2/repositories"@),
            data_dir@.len() > 0 && data_dir@.last() != '/' ==> r@ == data_dir@
                + "/docker/registry/v2/repositories"@,
            data_dir@.len() == 0 || data_dir@.last() == '/' ==> r@ == data_dir@
                + "docker/registry/v2/repositories"@,
            r@.len() > 0,
            r@.last() != '/',
    {
        proof {
            reveal_strlit("docker/registry/v2/repositories");
            reveal_strlit("/docker/registry/v2/repositories");
            assert(data_dir@.push('/') + "docker/registry/v2/repositories"@ =~= data_dir@
                + "/docker/registry/v2/repositories"@);
        }
        Layout { repositories: join(data_dir, "docker/registry/v2/repositories") }
    }

    /// One step of the search for the names of all the repositories of the store, which ends with
    /// the names in order.
    pub fn repositories<E>(&self, walk: &mut Walk, event: WalkEvent<String, E>) -> (r: WalkAction<
        String,
        Vec<String>,
        E,
    >)
        ensures
            (final(walk)@, r@) == walk_next(self@, old(walk)@, event@),
    {
        walk.step(self.repositories.as_str(), event)
    }

    /// One step of the listing of the tags of `repo`, each with its manifest digest and the
    /// modification time of its `current/link`. Tags without a readable `current/link` are
    /// skipped.
    pub fn tags<E>(&self, repo: &str, event: TagsEvent<Vec<TagEntry>, E>) -> (r: TagsAction<
        String,
        Vec<Tag>,
        E,
    >)
        ensures
            r@ == tags_next(self@, repo@, event@),
    {
        match event {
            TagsEvent::Start => TagsAction::List(
                join(join(self.repositories.as_str(), repo).as_str(), "_manifests/tags"),
            ),
            TagsEvent::NotDir => {
                let none: Vec<Tag> = Vec::new();
                assert(views(none@) =~= Seq::empty());
                TagsAction::Done(none)
            },
            TagsEvent::Listed(entries) => TagsAction::Done(readable_tags(&entries)),
            TagsEvent::Failed(e) => TagsAction::Fail(e),
        }
    }

    /// One step of the deletion of the tag `tag` of `repo`, by removing its directory. The manifest
    /// revision underneath, and its blobs, are left to the registry's garbage collector.
    pub fn delete_tag<E>(&self, repo: &str, tag: &str, event: DeleteEvent<E>) -> (r: DeleteAction<
        String,
        E,
    >)
        ensures
            r@ == delete_next(self@, repo@, tag@, event),
    {
        match event {
            DeleteEvent::Start => {
                let tags = join(join(self.repositories.as_str(), repo).as_str(), "_manifests/tags");
                DeleteAction::Remove(join(tags.as_str(), tag))
            },
            DeleteEvent::Removed => DeleteAction::Done,
            DeleteEvent::NotFound => DeleteAction::Done,
            DeleteEvent::Failed(e) => DeleteAction::Fail(e),
        }
    }
}

/// The tags that `entries` stand for.
fn readable_tags(entries: &Vec<TagEntry>) -> (r: Vec<Tag>)
    ensures
        views(r@) == tags_in(views(entries@)),
{
    let ghost f = |entry: TagEntryView| tag_of(entry);
    let ghost all = views(entries@);
    let mut r: Vec<Tag> = Vec::new();
    let mut i: usize = 0;
    assert(views(r@) =~= all.take(0).filter_map(f));
    while i < entries.len()
        invariant
            i <= entries@.len(),
            all == views(entries@),
            f == (|entry: TagEntryView| tag_of(entry)),
            views(r@) == all.take(i as int).filter_map(f),
        decreases entries@.len() - i,
    {
        let ghost before = r@;
        let entry = &entries[i];
        proof {
            all.lemma_filter_map_take_succ(f, i as int);
            assert(all[i as int] == entry@);
        }
        if entry.is_dir {
            if let Some(link) = &entry.link {
                r.push(
                    Tag {
                        name: entry.name.clone(),
                        digest: trim(link.content.as_str()).to_owned(),
                        mtime: link.mtime,
                    },
                );
                assert(f(entry@) == Some(r@.last()@));
                assert(views(r@) =~= views(before).push(r@.last()@));
            }
        }
        assert(views(r@) =~= all.take(i + 1).filter_map(f));
        i = i + 1;
    }
    assert(all.take(i as int) =~= all);
    r
}

proof fn lemma_tags_in_add(a: Seq<TagEntryView>, b: Seq<TagEntryView>)
    ensures
        tags_in(a + b) == tags_in(a) + tags_in(b),
    decreases b.len(),
{
    let f = |entry: TagEntryView| tag_of(entry);
    if b.len() == 0 {
        assert(a + b =~= a);
        assert(tags_in(a) + tags_in(b) =~= tags_in(a));
    } else {
        lemma_tags_in_add(a, b.drop_last());
        assert((a + b).drop_last() =~= a + b.drop_last());
        reveal_with_fuel(Seq::filter_map, 2);
        assert(tags_in(a + b) =~= tags_in(a) + tags_in(b));
    }
}

/// An entry that is no directory, or has no readable `current/link`, might as well not be there.
pub proof fn law_unreadable_tags_are_skipped(entries: Seq<TagEntryView>, i: int)
    requires
        0 <= i < entries.len(),
        !entries[i].is_dir || entries[i].link is None,
    ensures
        tags_in(entries.remove(i)) == tags_in(entries),
{
    let (a, e, b) = (entries.take(i), seq![entries[i]], entries.skip(i + 1));
    assert(entries =~= a + e + b);
    assert(entries.remove(i) =~= a + b);
    lemma_tags_in_add(a + e, b);
    lemma_tags_in_add(a, e);
    lemma_tags_in_add(a, b);
    reveal_with_fuel(Seq::filter_map, 2);
    assert(tags_in(e) =~= Seq::empty());
    assert(tags_in(a) + tags_in(e) =~= tags_in(a));
}

/// The entry `entry` once its `current/link` is written anew, as a push of the tag does.
pub open spec fn pushed(entry: TagEntryView, link: LinkView) -> TagEntryView {
    TagEntryView { link: Some(link), ..entry }
}

/// Pushing a tag changes that tag alone: it takes the place of the tag that it was, or, where its
/// `current/link` could not be read before, comes to the others, which stay as they were.
pub proof fn law_push_changes_its_tag_alone(entries: Seq<TagEntryView>, i: int, link: LinkView)
    requires
        0 <= i < entries.len(),
        entries[i].is_dir,
    ensures
        ({
            let before = tags_in(entries);
            let after = tags_in(entries.update(i, pushed(entries[i], link)));
            let k = tags_in(entries.take(i)).len() as int;
            let new = TagView {
                name: entries[i].name,
                digest: trimmed(link.content),
                mtime: link.mtime,
            };
            match tag_of(entries[i]) {
                Some(old) => {
                    &&& 0 <= k < before.len()
                    &&& before[k] == old
                    &&& after == before.update(k, new)
                    &&& after.to_multiset() == before.to_multiset().remove(old).insert(new)
                },
                None => {
                    &&& 0 <= k <= before.len()
                    &&& after == before.insert(k, new)
                    &&& after.to_multiset() == before.to_multiset().insert(new)
                },
            }
        }),
{
    let now = pushed(entries[i], link);
    let new = tag_of(now)->0;
    let (a, b) = (entries.take(i), entries.skip(i + 1));
    let (e, f) = (seq![entries[i]], seq![now]);
    assert(entries =~= a + e + b);
    assert(entries.update(i, now) =~= a + f + b);
    lemma_tags_in_add(a + e, b);
    lemma_tags_in_add(a, e);
    lemma_tags_in_add(a + f, b);
    lemma_tags_in_add(a, f);
    reveal_with_fuel(Seq::filter_map, 2);
    let (x, y) = (tags_in(a), tags_in(b));
    let k = x.len() as int;
    let before = tags_in(entries);
    let after = tags_in(entries.update(i, now));
    assert(tags_in(f) =~= seq![new]);
    assert(after =~= x + seq![new] + y);
    let rest = x + y;
    assert(after =~= rest.insert(k, new));
    vstd::seq_lib::to_multiset_insert(rest, k, new);
    match tag_of(entries[i]) {
        Some(old) => {
            assert(tags_in(e) =~= seq![old]);
            assert(before =~= x + seq![old] + y);
            assert(before =~= rest.insert(k, old));
            vstd::seq_lib::to_multiset_insert(rest, k, old);
            assert(after =~= before.update(k, new));
            assert(before.to_multiset().remove(old) =~= rest.to_multiset());
        },
        None => {
            assert(tags_in(e) =~= Seq::empty());
            assert(before =~= rest);
        },
    }
}

proof fn lemma_tag_has_an_entry(entries: Seq<TagEntryView>, tag: TagView) -> (i: int)
    requires
        tags_in(entries).contains(tag),
    ensures
        0 <= i < entries.len(),
        tag_of(entries[i]) == Some(tag),
    decreases entries.len(),
{
    reveal(Seq::filter_map);
    let front = entries.drop_last();
    let m = choose|m: int| 0 <= m < tags_in(entries).len() && tags_in(entries)[m] == tag;
    if m < tags_in(front).len() {
        assert(tags_in(front)[m] == tag);
        lemma_tag_has_an_entry(front, tag)
    } else {
        entries.len() - 1
    }
}

/// Pushing a tag refreshes it: a tag that is pushed after all the others were stays.
pub proof fn law_push_refreshes_its_tag(
    entries: Seq<TagEntryView>,
    i: int,
    link: LinkView,
    keep: nat,
)
    requires
        0 <= i < entries.len(),
        entries[i].is_dir,
        keep >= 1,
        forall|j: int|
            0 <= j < entries.len() && j != i && tag_of(#[trigger] entries[j]) is Some ==> tag_of(
                entries[j],
            )->0.mtime < link.mtime,
    ensures
        ({
            let after = tags_in(entries.update(i, pushed(entries[i], link)));
            let new = tag_of(pushed(entries[i], link))->0;
            kept(after, keep)[0] == new && !doomed(after, keep).contains(new)
        }),
{
    let after = tags_in(entries.update(i, pushed(entries[i], link)));
    let (a, b) = (entries.take(i), entries.skip(i + 1));
    let k = tags_in(a).len() as int;
    law_push_changes_its_tag_alone(entries, i, link);
    lemma_tags_in_add(a + seq![entries[i]], b);
    lemma_tags_in_add(a, seq![entries[i]]);
    assert(entries =~= a + seq![entries[i]] + b);
    reveal_with_fuel(Seq::filter_map, 2);
    let (x, y) = (tags_in(a), tags_in(b));
    assert(after =~= x + seq![tag_of(pushed(entries[i], link))->0] + y);
    assert forall|m: int| 0 <= m < after.len() && m != k implies (#[trigger] after[m]).mtime
        < after[k].mtime by {
        if m < k {
            assert(x.contains(x[m]));
            let j = lemma_tag_has_an_entry(a, x[m]);
            assert(entries[j] == a[j]);
        } else {
            assert(y.contains(y[m - k - 1]));
            let j = lemma_tag_has_an_entry(b, y[m - k - 1]);
            assert(entries[i + 1 + j] == b[j]);
        }
    }
    law_last_push_stays(after, keep, k);
}

/// `entries` once the directory of the tag `tag` is removed.
pub open spec fn entries_without(entries: Seq<TagEntryView>, tag: Seq<char>) -> Seq<TagEntryView> {
    entries.filter(|e: TagEntryView| e.name != tag)
}

/// `tags` but for those with the name `tag`.
pub open spec fn tags_without(tags: Seq<TagView>, tag: Seq<char>) -> Seq<TagView> {
    tags.filter(|t: TagView| t.name != tag)
}

/// Once the directory of a tag is removed, the repository has all its other tags, as they were,
/// and not that one.
pub proof fn law_deleted_tag_is_gone(entries: Seq<TagEntryView>, tag: Seq<char>)
    ensures
        tags_in(entries_without(entries, tag)) == tags_without(tags_in(entries), tag),
        forall|i: int|
            0 <= i < tags_in(entries_without(entries, tag)).len() ==> (#[trigger] tags_in(
                entries_without(entries, tag),
            )[i]).name != tag,
    decreases entries.len(),
{
    let p = |e: TagEntryView| e.name != tag;
    let q = |t: TagView| t.name != tag;
    reveal(Seq::filter);
    if entries.len() > 0 {
        let (front, last) = (entries.drop_last(), entries.last());
        law_deleted_tag_is_gone(front, tag);
        assert(entries =~= front + seq![last]);
        lemma_tags_in_add(front, seq![last]);
        lemma_tags_in_add(front.filter(p), seq![last]);
        reveal_with_fuel(Seq::filter_map, 2);
        assert(front.filter(p).push(last) =~= front.filter(p) + seq![last]);
        match tag_of(last) {
            None => {
                assert(tags_in(seq![last]) =~= Seq::empty());
                assert(tags_in(entries) =~= tags_in(front));
                assert(tags_in(entries.filter(p)) =~= tags_in(front.filter(p)));
            },
            Some(t) => {
                assert(tags_in(seq![last]) =~= seq![t]);
                assert(tags_in(entries).drop_last() =~= tags_in(front));
                assert(tags_in(entries.filter(p)) =~= tags_in(entries).filter(q));
            },
        }
    }
    assert forall|i: int| 0 <= i < tags_in(entries_without(entries, tag)).len() implies (
    #[trigger] tags_in(entries_without(entries, tag))[i]).name != tag by {
        tags_in(entries).lemma_filter_pred(q, i);
    }
}

/// What the caller sees that removes a directory which is there, or is not, and can be removed.
pub open spec fn removal<E>(is_there: bool) -> DeleteEvent<E> {
    if is_there {
        DeleteEvent::Removed
    } else {
        DeleteEvent::NotFound
    }
}

/// Deleting a tag works whether or not it is there, and so it works twice; the second time it
/// changes nothing.
pub proof fn law_delete_is_idempotent<E>(
    root: Seq<char>,
    repo: Seq<char>,
    tag: Seq<char>,
    is_there: bool,
    entries: Seq<TagEntryView>,
)
    ensures
        delete_next(root, repo, tag, removal::<E>(is_there)) is Done,
        entries_without(entries_without(entries, tag), tag) == entries_without(entries, tag),
    decreases entries.len(),
{
    let p = |e: TagEntryView| e.name != tag;
    reveal(Seq::filter);
    if entries.len() > 0 {
        let front = entries.drop_last();
        law_delete_is_idempotent::<E>(root, repo, tag, is_there, front);
        if p(entries.last()) {
            assert(entries_without(entries, tag).drop_last() =~= entries_without(front, tag));
        }
    }
}

/// A listing of tags ends with the error that it met, and with none that it did not meet.
pub proof fn law_listing_reports_the_error_it_met<E>(
    root: Seq<char>,
    repo: Seq<char>,
    event: TagsEvent<Seq<TagEntryView>, E>,
    e: E,
)
    ensures
        tags_next(root, repo, event) == TagsAction::<Seq<char>, Seq<TagView>, E>::Fail(e) <==> event
            == TagsEvent::<Seq<TagEntryView>, E>::Failed(e),
{
}

/// A deletion ends with the error that it met, and with none that it did not meet.
pub proof fn law_deletion_reports_the_error_it_met<E>(
    root: Seq<char>,
    repo: Seq<char>,
    tag: Seq<char>,
    event: DeleteEvent<E>,
    e: E,
)
    ensures
        delete_next(root, repo, tag, event) == DeleteAction::<Seq<char>, E>::Fail(e) <==> event
            == DeleteEvent::<E>::Failed(e),
{
}

/// What is removed to delete a tag is the entry with the tag's name in the directory of the
/// repository's tags.
pub proof fn law_delete_stays_among_the_tags(root: Seq<char>, repo: Seq<char>, tag: Seq<char>)
    requires
        proper(tag),
    ensures
        tag_dir(root, repo, tag) == tags_dir(root, repo).push('/') + tag,
{
    reveal_strlit("_manifests/tags");
    assert(tag.contains(tag[0]));
    assert(tags_dir(root, repo).last() == 's');
}

/// The directories of two tags of a repository are apart: neither stands in the other.
pub proof fn law_tag_directories_are_apart(
    root: Seq<char>,
    repo: Seq<char>,
    t: Seq<char>,
    u: Seq<char>,
)
    requires
        proper(t),
        proper(u),
        t != u,
    ensures
        !tag_dir(root, repo, t).push('/').is_prefix_of(tag_dir(root, repo, u).push('/')),
{
    law_delete_stays_among_the_tags(root, repo, t);
    law_delete_stays_among_the_tags(root, repo, u);
    let d = tags_dir(root, repo).push('/');
    let (x, y) = ((d + t).push('/'), (d + u).push('/'));
    if x.is_prefix_of(y) {
        assert(x == y.subrange(0, x.len() as int));
        assert forall|k: int| 0 <= k < t.len() implies t[k] == u[k] by {
            assert(x[d.len() + k] == t[k]);
            assert(y[d.len() + k] == x[d.len() + k]);
            if k >= u.len() {
                assert(t.contains(t[k]));
            }
        }
        let end = (d.len() + t.len()) as int;
        assert(y[end] == x[end]);
        if t.len() < u.len() {
            assert(u.contains(u[t.len() as int]));
        }
        assert(t =~= u);
    }
}

/// A path seen from a directory ends with the path. If it is absolute it is the path itself; if not
/// it starts with the directory, with one slash between the two where the directory neither is
/// empty nor ends in one.
pub proof fn law_join(base: Seq<char>, rel: Seq<char>)
    ensures
        joined(base, rel).len() >= rel.len(),
        joined(base, rel).skip(joined(base, rel).len() - rel.len()) == rel,
        rel.len() > 0 && rel[0] == '/' ==> joined(base, rel).len() == rel.len(),
        !(rel.len() > 0 && rel[0] == '/') ==> {
            &&& joined(base, rel).take(base.len() as int) == base
            &&& base.len() == 0 || base.last() == '/' ==> joined(base, rel).len() == base.len()
                + rel.len()
            &&& base.len() > 0 && base.last() != '/' ==> joined(base, rel).len() == base.len() + 1
                + rel.len() && joined(base, rel)[base.len() as int] == '/'
        },
{
    let r = joined(base, rel);
    assert(r.skip(r.len() - rel.len()) =~= rel);
    if !(rel.len() > 0 && rel[0] == '/') {
        assert(r.take(base.len() as int) =~= base);
    }
}

/// The tags of a repository are listed in `_manifests/tags` of the directory with the repository's
/// name in the directory of the repositories; without that directory there are none.
pub proof fn law_listing_looks_among_the_tags<E>(root: Seq<char>, repo: Seq<char>)
    requires
        root.len() > 0,
        root.last() != '/',
    ensures
        repo.len() > 0 && repo.first() != '/' && repo.last() != '/' ==> tags_next::<E>(
            root,
            repo,
            TagsEvent::Start,
        ) == TagsAction::<Seq<char>, Seq<TagView>, E>::List(
            root + "/"@ + repo + "/_manifests/tags"@,
        ),
        repo.len() == 0 ==> tags_next::<E>(root, repo, TagsEvent::Start) == TagsAction::<
            Seq<char>,
            Seq<TagView>,
            E,
        >::List(root + "/_manifests/tags"@),
        repo.len() > 0 && repo.first() != '/' && repo.last() == '/' ==> tags_next::<E>(
            root,
            repo,
            TagsEvent::Start,
        ) == TagsAction::<Seq<char>, Seq<TagView>, E>::List(root + "/"@ + repo + "_manifests/tags"@),
        repo.len() > 0 && repo.first() == '/' && repo.last() != '/' ==> tags_next::<E>(
            root,
            repo,
            TagsEvent::Start,
        ) == TagsAction::<Seq<char>, Seq<TagView>, E>::List(repo + "/_manifests/tags"@),
        tags_next::<E>(root, repo, TagsEvent::NotDir) == TagsAction::<
            Seq<char>,
            Seq<TagView>,
            E,
        >::Done(Seq::empty()),
{
    reveal_strlit("/");
    reveal_strlit("/_manifests/tags");
    reveal_strlit("_manifests/tags");
    let dir = tags_dir(root, repo);
    if repo.len() == 0 {
        assert(joined(root, repo) =~= root.push('/'));
        assert(dir =~= root + "/_manifests/tags"@);
    } else if repo.first() != '/' {
        assert(joined(root, repo) =~= root + "/"@ + repo);
        if repo.last() == '/' {
            assert(dir =~= root + "/"@ + repo + "_manifests/tags"@);
        } else {
            assert(dir =~= root + "/"@ + repo + "/_manifests/tags"@);
        }
    } else if repo.last() != '/' {
        assert(dir =~= repo + "/_manifests/tags"@);
    }
}

/// A tag is deleted by removing the directory with its name where the tags of its repository are
/// listed, and it is deleted when the directory is removed or is not there.
pub proof fn law_deletion_removes_what_the_listing_shows<E>(
    root: Seq<char>,
    repo: Seq<char>,
    tag: Seq<char>,
    dir: Seq<char>,
)
    requires
        tags_next::<E>(root, repo, TagsEvent::Start) == TagsAction::<
            Seq<char>,
            Seq<TagView>,
            E,
        >::List(dir),
        tag.len() > 0,
        tag.first() != '/',
    ensures
        delete_next::<E>(root, repo, tag, DeleteEvent::Start) == DeleteAction::<
            Seq<char>,
            E,
        >::Remove(dir + "/"@ + tag),
        delete_next::<E>(root, repo, tag, DeleteEvent::Removed) is Done,
        delete_next::<E>(root, repo, tag, DeleteEvent::NotFound) is Done,
{
    reveal_strlit("/");
    reveal_strlit("_manifests/tags");
    assert(dir.last() == 's');
    assert(tag_dir(root, repo, tag) =~= dir + "/"@ + tag);
}

/// A listing ends with the tags of just those entries that are directories with a readable
/// `current/link`, each once and in the order of the entries. The result is their positions.
pub proof fn law_listing_has_every_readable_tag<E>(
    root: Seq<char>,
    repo: Seq<char>,
    entries: Seq<TagEntryView>,
) -> (at: Seq<int>)
    ensures
        forall|k: int, m: int| 0 <= k < m < at.len() ==> #[trigger] at[k] < #[trigger] at[m],
        forall|i: int| #[trigger]
            at.contains(i) <==> 0 <= i < entries.len() && entries[i].is_dir && entries[i].link
                is Some,
        tags_next::<E>(root, repo, TagsEvent::Listed(entries)) is Done,
        ({
            let tags = tags_next::<E>(root, repo, TagsEvent::Listed(entries))->Done_0;
            &&& tags.len() == at.len()
            &&& forall|k: int|
                #![trigger tags[k]]
                #![trigger at[k]]
                0 <= k < at.len() ==> {
                    &&& tags[k].name == entries[at[k]].name
                    &&& tags[k].digest == trimmed(entries[at[k]].link->0.content)
                    &&& tags[k].mtime == entries[at[k]].link->0.mtime
                }
        }),
{
    lemma_readable_positions(entries)
}

proof fn lemma_readable_positions(entries: Seq<TagEntryView>) -> (at: Seq<int>)
    ensures
        forall|k: int, m: int| 0 <= k < m < at.len() ==> #[trigger] at[k] < #[trigger] at[m],
        forall|i: int| #[trigger]
            at.contains(i) <==> 0 <= i < entries.len() && entries[i].is_dir && entries[i].link
                is Some,
        tags_in(entries).len() == at.len(),
        forall|k: int|
            #![trigger at[k]]
            0 <= k < at.len() ==> 0 <= at[k] < entries.len() && Some(tags_in(entries)[k]) == tag_of(
                entries[at[k]],
            ),
    decreases entries.len(),
{
    reveal(Seq::filter_map);
    if entries.len() == 0 {
        Seq::empty()
    } else {
        let (front, n) = (entries.drop_last(), entries.len() - 1);
        let less = lemma_readable_positions(front);
        assert forall|k: int| 0 <= k < less.len() implies #[trigger] less[k] < n by {
            assert(less.contains(less[k]));
        }
        let at = if tag_of(entries.last()) is Some {
            less.push(n)
        } else {
            less
        };
        assert forall|i: int| #[trigger]
            at.contains(i) <==> 0 <= i < entries.len() && entries[i].is_dir && entries[i].link
                is Some by {
            if at.contains(i) {
                let k = choose|k: int| 0 <= k < at.len() && at[k] == i;
                if k < less.len() {
                    assert(less[k] == i);
                    assert(less.contains(i));
                    assert(front[i] == entries[i]);
                }
            }
            if 0 <= i < entries.len() && entries[i].is_dir && entries[i].link is Some {
                if i < n {
                    assert(front[i] == entries[i]);
                    assert(less.contains(i));
                    let k = choose|k: int| 0 <= k < less.len() && less[k] == i;
                    assert(at[k] == i);
                } else {
                    assert(at[at.len() - 1] == i);
                }
            }
        }
        assert forall|k: int|
            #![trigger at[k]]
            0 <= k < at.len() implies 0 <= at[k] < entries.len() && Some(tags_in(entries)[k])
            == tag_of(entries[at[k]]) by {
            if k < less.len() {
                assert(at[k] == less[k]);
                assert(less.contains(less[k]));
                assert(tags_in(entries)[k] == tags_in(front)[k]);
            }
        }
        at
    }
}

/// The value of an entry has its name, whether it is a directory, and its link with text and time.
pub proof fn law_entry_value(entry: TagEntry)
    ensures
        entry@.name == entry.name@,
        entry@.is_dir == entry.is_dir,
        entry@.link is Some <==> entry.link is Some,
        entry.link is Some ==> entry@.link->0.content == entry.link->0.content@
            && entry@.link->0.mtime == entry.link->0.mtime,
{
}

/// The value of an event of a listing has all of its entries, and that of an action its path or all
/// of its tags; each has its error.
pub proof fn law_listing_values<E>(
    event: TagsEvent<Vec<TagEntry>, E>,
    action: TagsAction<String, Vec<Tag>, E>,
    i: int,
)
    ensures
        event is Start <==> event@ is Start,
        event is NotDir <==> event@ is NotDir,
        event is Listed <==> event@ is Listed,
        event is Listed ==> event@->Listed_0.len() == event->Listed_0@.len(),
        event is Listed && 0 <= i < event->Listed_0@.len() ==> event@->Listed_0[i]
            == event->Listed_0@[i]@,
        event is Failed <==> event@ is Failed,
        event is Failed ==> event@->Failed_0 == event->Failed_0,
        action is List <==> action@ is List,
        action is List ==> action@->List_0 == action->List_0@,
        action is Done <==> action@ is Done,
        action is Done ==> action@->Done_0.len() == action->Done_0@.len(),
        action is Done && 0 <= i < action->Done_0@.len() ==> action@->Done_0[i]
            == action->Done_0@[i]@,
        action is Fail <==> action@ is Fail,
        action is Fail ==> action@->Fail_0 == action->Fail_0,
{
}

/// The value of an action of a deletion has its path or its error.
pub proof fn law_deletion_values<E>(action: DeleteAction<String, E>)
    ensures
        action is Remove <==> action@ is Remove,
        action is Remove ==> action@->Remove_0 == action->Remove_0@,
        action is Done <==> action@ is Done,
        action is Fail <==> action@ is Fail,
        action is Fail ==> action@->Fail_0 == action->Fail_0,
{
}

} // verus!
