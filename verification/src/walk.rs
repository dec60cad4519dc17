//! Finding the repositories of a store.
//!
//! Repository names can be nested (`mina/daemon`), so the store is walked depth first: a directory
//! that holds a `_manifests` directory is a repository, and any other directory is descended into.
//! The walk never descends into a repository, so that a tag named like a path component is not
//! mistaken for one.
//!
//! A [`Walk`] decides, and its caller looks: each step takes what the caller saw last and says
//! what to look at next.

use vstd::prelude::*;
use vstd::string::*;

use crate::names::{sort_names, sorted_names};
use crate::order::views;
use crate::text::chars_of;

verus! {

/// What the caller saw. `N` is the type of a name, `E` that of an error.
pub enum WalkEvent<N, E> {
    /// Nothing yet.
    Start,
    /// Whether the directory that was asked after is there.
    IsDir(bool),
    /// The current directory is open for reading.
    Opened,
    /// The next entry of the current directory. A link to a directory is not a directory.
    Entry { name: N, is_dir: bool },
    /// The current directory has no more entries.
    End,
    /// What was asked for could not be done, for this reason.
    Failed(E),
}

/// What the caller does next. `N` is the type of a name, `L` that of a list of names, `E` that of an
/// error.
pub enum WalkAction<N, L, E> {
    /// Report whether this path is a directory. If it is, it is the first that can be entered.
    CheckRoot(N),
    /// Make the root, or the entry reported last, the current directory, and report whether it
    /// holds a directory `_manifests`.
    Enter,
    /// Open the current directory.
    Open,
    /// Report the next entry of the current directory.
    Next,
    /// Make the parent the current directory again, and report its next entry.
    Leave,
    /// Stop: these are the repositories.
    Done(L),
    /// Stop: the walk failed, for this reason.
    Fail(E),
    /// Stop: what the caller saw does not answer the last action.
    Reject,
}

/// What the caller saw, as a value.
pub type WalkEventView<E> = WalkEvent<Seq<char>, E>;

/// What the caller does next, as a value.
pub type WalkActionView<E> = WalkAction<Seq<char>, Seq<Seq<char>>, E>;

impl<E> View for WalkEvent<String, E> {
    type V = WalkEventView<E>;

    open spec fn view(&self) -> WalkEventView<E> {
        match *self {
            WalkEvent::Start => WalkEvent::Start,
            WalkEvent::IsDir(b) => WalkEvent::IsDir(b),
            WalkEvent::Opened => WalkEvent::Opened,
            WalkEvent::Entry { name, is_dir } => WalkEvent::Entry { name: name@, is_dir },
            WalkEvent::End => WalkEvent::End,
            WalkEvent::Failed(e) => WalkEvent::Failed(e),
        }
    }
}

impl<E> View for WalkAction<String, Vec<String>, E> {
    type V = WalkActionView<E>;

    open spec fn view(&self) -> WalkActionView<E> {
        match *self {
            WalkAction::CheckRoot(p) => WalkAction::CheckRoot(p@),
            WalkAction::Enter => WalkAction::Enter,
            WalkAction::Open => WalkAction::Open,
            WalkAction::Next => WalkAction::Next,
            WalkAction::Leave => WalkAction::Leave,
            WalkAction::Done(l) => WalkAction::Done(views(l@)),
            WalkAction::Fail(e) => WalkAction::Fail(e),
            WalkAction::Reject => WalkAction::Reject,
        }
    }
}

/// What a walk waits for.
#[derive(Debug, Clone, Copy, PartialEq, Eq, Structural)]
pub enum Phase {
    /// To begin.
    Idle,
    /// To hear whether the root is a directory.
    Root,
    /// To hear whether the current directory is a repository.
    Manifests,
    /// To hear that the current directory is open.
    Opening,
    /// To hear the next entry of the current directory.
    Reading,
    /// For nothing: it is over.
    Over,
}

/// A walk as a value.
#[verifier::ext_equal]
pub struct WalkView {
    pub phase: Phase,
    /// The names from the root to the current directory.
    pub path: Seq<Seq<char>>,
    /// The repositories so far.
    pub found: Seq<Seq<char>>,
}

/// A walk through a store.
pub struct Walk {
    phase: Phase,
    path: Vec<String>,
    found: Vec<String>,
}

impl View for Walk {
    type V = WalkView;

    closed spec fn view(&self) -> WalkView {
        WalkView { phase: self.phase, path: views(self.path@), found: views(self.found@) }
    }
}

/// `s` with each backslash as a slash.
pub open spec fn forward_slashed(s: Seq<char>) -> Seq<char> {
    s.map_values(|c: char| if c == '\\' { '/' } else { c })
}

/// The names in `path` with a slash between each two.
pub open spec fn slash_joined(path: Seq<Seq<char>>) -> Seq<char>
    decreases path.len(),
{
    if path.len() == 0 {
        Seq::empty()
    } else if path.len() == 1 {
        path[0]
    } else {
        slash_joined(path.drop_last()).push('/') + path.last()
    }
}

/// The name of the repository at `path`, seen from the directory of the repositories.
pub open spec fn repository_name(path: Seq<Seq<char>>) -> Seq<char> {
    forward_slashed(slash_joined(path))
}

/// The walk `w` once it is done with its current directory, and what comes next.
pub open spec fn left<E>(w: WalkView) -> (WalkView, WalkActionView<E>) {
    if w.path.len() == 0 {
        (WalkView { phase: Phase::Over, ..w }, WalkAction::Done(sorted_names(w.found)))
    } else {
        (WalkView { phase: Phase::Reading, path: w.path.drop_last(), ..w }, WalkAction::Leave)
    }
}

/// The walk `w` through the store with its repositories in `root`, once it has heard `event`, and
/// what comes next. An error ends the walk, and so does an event that does not answer the last
/// action.
pub open spec fn walk_next<E>(root: Seq<char>, w: WalkView, event: WalkEventView<E>) -> (
    WalkView,
    WalkActionView<E>,
) {
    match (w.phase, event) {
        (Phase::Idle, WalkEvent::Start) => (
            WalkView { phase: Phase::Root, ..w },
            WalkAction::CheckRoot(root),
        ),
        (Phase::Root, WalkEvent::IsDir(false)) => (
            WalkView { phase: Phase::Over, ..w },
            WalkAction::Done(Seq::empty()),
        ),
        (Phase::Root, WalkEvent::IsDir(true)) => (
            WalkView { phase: Phase::Manifests, ..w },
            WalkAction::Enter,
        ),
        (Phase::Manifests, WalkEvent::IsDir(true)) => left(
            WalkView { found: w.found.push(repository_name(w.path)), ..w },
        ),
        (Phase::Manifests, WalkEvent::IsDir(false)) => (
            WalkView { phase: Phase::Opening, ..w },
            WalkAction::Open,
        ),
        (Phase::Opening, WalkEvent::Opened) => (
            WalkView { phase: Phase::Reading, ..w },
            WalkAction::Next,
        ),
        (Phase::Reading, WalkEvent::Entry { name, is_dir: true }) => (
            WalkView { phase: Phase::Manifests, path: w.path.push(name), ..w },
            WalkAction::Enter,
        ),
        (Phase::Reading, WalkEvent::Entry { name, is_dir: false }) => (w, WalkAction::Next),
        (Phase::Reading, WalkEvent::End) => left(w),
        (_, WalkEvent::Failed(e)) => (WalkView { phase: Phase::Over, ..w }, WalkAction::Fail(e)),
        _ => (WalkView { phase: Phase::Over, ..w }, WalkAction::Reject),
    }
}

/// `s` with each backslash as a slash.
fn with_forward_slashes(s: &str) -> (r: String)
    ensures
        r@ == forward_slashed(s@),
{
    proof {
        reveal_strlit("/");
    }
    let v = chars_of(s);
    let mut r: String = String::new();
    let mut start: usize = 0;
    let mut i: usize = 0;
    assert(r@ =~= forward_slashed(s@.take(0)));
    while i < v.len()
        invariant
            v@ == s@,
            start <= i <= v@.len(),
            "/"@ =~= seq!['/'],
            r@ == forward_slashed(s@.take(start as int)),
            forall|k: int| start <= k < i ==> s@[k] != '\\',
        decreases v@.len() - i,
    {
        if v[i] == '\\' {
            r.append(s.substring_char(start, i));
            r.append("/");
            assert(r@ =~= forward_slashed(s@.take(i + 1)));
            start = i + 1;
        }
        i = i + 1;
    }
    r.append(s.substring_char(start, i));
    assert(r@ =~= forward_slashed(s@));
    r
}

/// The name of the repository at `path`.
fn name_of(path: &Vec<String>) -> (r: String)
    ensures
        r@ == repository_name(views(path@)),
{
    proof {
        reveal_strlit("/");
    }
    let mut s: String = String::new();
    let mut i: usize = 0;
    assert(views(path@).take(0) =~= Seq::<Seq<char>>::empty());
    while i < path.len()
        invariant
            i <= path@.len(),
            "/"@ =~= seq!['/'],
            s@ == slash_joined(views(path@).take(i as int)),
        decreases path@.len() - i,
    {
        let ghost next = views(path@).take(i + 1);
        assert(next.drop_last() =~= views(path@).take(i as int));
        if i > 0 {
            s.append("/");
            assert(s@ =~= slash_joined(next.drop_last()).push('/'));
        }
        s.append(path[i].as_str());
        assert(s@ =~= slash_joined(next));
        i = i + 1;
    }
    assert(views(path@).take(i as int) =~= views(path@));
    with_forward_slashes(s.as_str())
}

impl Walk {
    /// A walk that has not begun.
    pub fn new() -> (r: Self)
        ensures
            r@ == (WalkView { phase: Phase::Idle, path: Seq::empty(), found: Seq::empty() }),
    {
        let r = Walk { phase: Phase::Idle, path: Vec::new(), found: Vec::new() };
        assert(views(r.path@) =~= Seq::empty());
        assert(views(r.found@) =~= Seq::empty());
        r
    }

    /// Leaves the current directory.
    fn leave<E>(&mut self) -> (r: WalkAction<String, Vec<String>, E>)
        ensures
            (final(self)@, r@) == left::<E>(old(self)@),
    {
        let ghost path = self.path@;
        match self.path.pop() {
            None => {
                self.phase = Phase::Over;
                WalkAction::Done(sort_names(&self.found))
            },
            Some(_) => {
                assert(views(self.path@) =~= views(path).drop_last());
                self.phase = Phase::Reading;
                WalkAction::Leave
            },
        }
    }

    /// Takes what the caller saw and says what comes next.
    pub(crate) fn step<E>(&mut self, root: &str, event: WalkEvent<String, E>) -> (r: WalkAction<
        String,
        Vec<String>,
        E,
    >)
        ensures
            (final(self)@, r@) == walk_next(root@, old(self)@, event@),
    {
        match (self.phase, event) {
            (Phase::Idle, WalkEvent::Start) => {
                self.phase = Phase::Root;
                WalkAction::CheckRoot(root.to_owned())
            },
            (Phase::Root, WalkEvent::IsDir(false)) => {
                self.phase = Phase::Over;
                let none: Vec<String> = Vec::new();
                assert(views(none@) =~= Seq::empty());
                WalkAction::Done(none)
            },
            (Phase::Root, WalkEvent::IsDir(true)) => {
                self.phase = Phase::Manifests;
                WalkAction::Enter
            },
            (Phase::Manifests, WalkEvent::IsDir(true)) => {
                let ghost found = self.found@;
                let name = name_of(&self.path);
                self.found.push(name);
                assert(views(self.found@) =~= views(found).push(name@));
                self.leave()
            },
            (Phase::Manifests, WalkEvent::IsDir(false)) => {
                self.phase = Phase::Opening;
                WalkAction::Open
            },
            (Phase::Opening, WalkEvent::Opened) => {
                self.phase = Phase::Reading;
                WalkAction::Next
            },
            (Phase::Reading, WalkEvent::Entry { name, is_dir: true }) => {
                let ghost path = self.path@;
                self.path.push(name);
                assert(views(self.path@) =~= views(path).push(name@));
                self.phase = Phase::Manifests;
                WalkAction::Enter
            },
            (Phase::Reading, WalkEvent::Entry { name: _, is_dir: false }) => WalkAction::Next,
            (Phase::Reading, WalkEvent::End) => self.leave(),
            (_, WalkEvent::Failed(e)) => {
                self.phase = Phase::Over;
                WalkAction::Fail(e)
            },
            _ => {
                self.phase = Phase::Over;
                WalkAction::Reject
            },
        }
    }
}

/// The name of a repository is the names on the way to it with a slash between each two, where each
/// name has its backslashes as slashes.
pub proof fn law_repository_name(path: Seq<Seq<char>>, name: Seq<char>)
    ensures
        repository_name(Seq::empty()) == Seq::<char>::empty(),
        repository_name(seq![name]).len() == name.len(),
        forall|k: int|
            #![trigger repository_name(seq![name])[k]]
            0 <= k < name.len() ==> repository_name(seq![name])[k] == if name[k] == '\\' {
                '/'
            } else {
                name[k]
            },
        path.len() > 0 ==> repository_name(path.push(name)) == repository_name(path) + seq!['/']
            + repository_name(seq![name]),
{
    assert(slash_joined(seq![name]) == name);
    assert(repository_name(Seq::empty()) =~= Seq::<char>::empty());
    if path.len() > 0 {
        assert(path.push(name).drop_last() =~= path);
        assert(slash_joined(path.push(name)) == slash_joined(path).push('/') + name);
        assert(repository_name(path.push(name)) =~= repository_name(path) + seq!['/']
            + repository_name(seq![name]));
    }
}

/// The value of an event of a walk has what the caller saw, and that of an action what it asks for:
/// the path, all of the names, or the error.
pub proof fn law_walk_values<E>(
    event: WalkEvent<String, E>,
    action: WalkAction<String, Vec<String>, E>,
    i: int,
)
    ensures
        event is Start <==> event@ is Start,
        event is IsDir <==> event@ is IsDir,
        event is IsDir ==> event@->IsDir_0 == event->IsDir_0,
        event is Opened <==> event@ is Opened,
        event is Entry <==> event@ is Entry,
        event is Entry ==> event@->name == event->name@ && event@->is_dir == event->is_dir,
        event is End <==> event@ is End,
        event is Failed <==> event@ is Failed,
        event is Failed ==> event@->Failed_0 == event->Failed_0,
        action is CheckRoot <==> action@ is CheckRoot,
        action is CheckRoot ==> action@->CheckRoot_0 == action->CheckRoot_0@,
        action is Enter <==> action@ is Enter,
        action is Open <==> action@ is Open,
        action is Next <==> action@ is Next,
        action is Leave <==> action@ is Leave,
        action is Done <==> action@ is Done,
        action is Done ==> action@->Done_0.len() == action->Done_0@.len(),
        action is Done && 0 <= i < action->Done_0@.len() ==> action@->Done_0[i]
            == action->Done_0@[i]@,
        action is Fail <==> action@ is Fail,
        action is Fail ==> action@->Fail_0 == action->Fail_0,
        action is Reject <==> action@ is Reject,
{
}

} // verus!
