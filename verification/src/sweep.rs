//! One sweep: every repository is brought down to its most recent tags.
//!
//! A [`Sweep`] decides, and its caller reads and deletes: each step takes what came of the last
//! request and says what to do next.

use vstd::prelude::*;

use crate::config::Config;
use crate::order::views;
use crate::retention::{doomed, tags_to_delete, Tag, TagView};

verus! {

/// What came of the last request. `R` is the type of a list of repositories, `T` that of a list of
/// tags, `E` that of an error.
pub enum SweepEvent<R, T, E> {
    /// Nothing yet.
    Start,
    /// These are the repositories.
    Repositories(R),
    /// These are the tags of the repository that was asked after.
    Tags(T),
    /// It is done.
    Done,
    /// It could not be done, for this reason.
    Failed(E),
}

/// What the caller does next. `N` is the type of a repository's name, `T` that of a tag, `C` that
/// of a count, `E` that of an error.
pub enum SweepAction<N, T, C, E> {
    /// List the repositories.
    ListRepositories,
    /// List the tags of this repository.
    ListTags(N),
    /// Log that `going` of the `total` tags of `repo` go.
    Announce { repo: N, total: C, going: C },
    /// Log that `tag` of `repo` goes, and delete it.
    Delete { repo: N, tag: T },
    /// Log that `tag` of `repo` would go, and leave it.
    Report { repo: N, tag: T },
    /// Stop: this many tags were deleted, or would have been.
    Finish(C),
    /// Stop: the sweep failed, for this reason.
    Fail(E),
    /// Stop: what came of the last request does not answer it.
    Reject,
}

/// What came of the last request, as a value.
pub type SweepEventView<E> = SweepEvent<Seq<Seq<char>>, Seq<TagView>, E>;

/// What the caller does next, as a value.
pub type SweepActionView<E> = SweepAction<Seq<char>, TagView, nat, E>;

impl<E> View for SweepEvent<Vec<String>, Vec<Tag>, E> {
    type V = SweepEventView<E>;

    open spec fn view(&self) -> SweepEventView<E> {
        match *self {
            SweepEvent::Start => SweepEvent::Start,
            SweepEvent::Repositories(names) => SweepEvent::Repositories(views(names@)),
            SweepEvent::Tags(tags) => SweepEvent::Tags(views(tags@)),
            SweepEvent::Done => SweepEvent::Done,
            SweepEvent::Failed(e) => SweepEvent::Failed(e),
        }
    }
}

impl<E> View for SweepAction<String, Tag, usize, E> {
    type V = SweepActionView<E>;

    open spec fn view(&self) -> SweepActionView<E> {
        match *self {
            SweepAction::ListRepositories => SweepAction::ListRepositories,
            SweepAction::ListTags(repo) => SweepAction::ListTags(repo@),
            SweepAction::Announce { repo, total, going } => SweepAction::Announce {
                repo: repo@,
                total: total as nat,
                going: going as nat,
            },
            SweepAction::Delete { repo, tag } => SweepAction::Delete { repo: repo@, tag: tag@ },
            SweepAction::Report { repo, tag } => SweepAction::Report { repo: repo@, tag: tag@ },
            SweepAction::Finish(n) => SweepAction::Finish(n as nat),
            SweepAction::Fail(e) => SweepAction::Fail(e),
            SweepAction::Reject => SweepAction::Reject,
        }
    }
}

/// What a sweep waits for.
#[derive(Debug, Clone, Copy, PartialEq, Eq, Structural)]
pub enum SweepPhase {
    /// To begin.
    Idle,
    /// To hear the repositories.
    Repositories,
    /// To hear the tags of a repository.
    Tags,
    /// To hear that the log says what goes.
    Announcing,
    /// To hear that a tag is gone, or is in the log.
    Deleting,
    /// For nothing: it is over.
    Over,
}

/// A sweep as a value.
#[verifier::ext_equal]
pub struct SweepView {
    pub phase: SweepPhase,
    /// The repositories that are left, from the one in hand on.
    pub todo: Seq<Seq<char>>,
    /// The tags of the repository in hand that have still to go.
    pub going: Seq<TagView>,
    /// The number of tags that are gone.
    pub deleted: nat,
}

/// A sweep.
pub struct Sweep {
    phase: SweepPhase,
    repos: Vec<String>,
    at: usize,
    doomed: Vec<Tag>,
    next: usize,
    deleted: usize,
}

impl View for Sweep {
    type V = SweepView;

    closed spec fn view(&self) -> SweepView {
        SweepView {
            phase: self.phase,
            todo: views(self.repos@).skip(self.at as int),
            going: views(self.doomed@).skip(self.next as int),
            deleted: self.deleted as nat,
        }
    }
}

/// The sweep `s` when the next repository is in hand, and what comes next.
pub open spec fn take_repository<E>(s: SweepView) -> (SweepView, SweepActionView<E>) {
    if s.todo.len() == 0 {
        (SweepView { phase: SweepPhase::Over, ..s }, SweepAction::Finish(s.deleted))
    } else {
        (SweepView { phase: SweepPhase::Tags, ..s }, SweepAction::ListTags(s.todo.first()))
    }
}

/// The sweep `s` when the next tag of the repository in hand is to go, and what comes next.
pub open spec fn take_tag<E>(dry_run: bool, s: SweepView) -> (SweepView, SweepActionView<E>) {
    if s.going.len() == 0 {
        take_repository(SweepView { todo: s.todo.drop_first(), ..s })
    } else {
        (
            SweepView { phase: SweepPhase::Deleting, ..s },
            if dry_run {
                SweepAction::Report { repo: s.todo.first(), tag: s.going.first() }
            } else {
                SweepAction::Delete { repo: s.todo.first(), tag: s.going.first() }
            },
        )
    }
}

/// The sweep `s`, which keeps `keep` tags of each repository, once it has heard `event`, and what
/// comes next. An error ends the sweep, and so does an event that does not answer the last action.
pub open spec fn sweep_next<E>(
    keep: nat,
    dry_run: bool,
    s: SweepView,
    event: SweepEventView<E>,
) -> (SweepView, SweepActionView<E>) {
    match (s.phase, event) {
        (SweepPhase::Idle, SweepEvent::Start) => (
            SweepView { phase: SweepPhase::Repositories, ..s },
            SweepAction::ListRepositories,
        ),
        (SweepPhase::Repositories, SweepEvent::Repositories(names)) => take_repository(
            SweepView { todo: names, ..s },
        ),
        (SweepPhase::Tags, SweepEvent::Tags(tags)) => {
            let going = doomed(tags, keep);
            if going.len() == 0 {
                take_repository(SweepView { todo: s.todo.drop_first(), going, ..s })
            } else {
                (
                    SweepView { phase: SweepPhase::Announcing, going, ..s },
                    SweepAction::Announce {
                        repo: s.todo.first(),
                        total: tags.len(),
                        going: going.len(),
                    },
                )
            }
        },
        (SweepPhase::Announcing, SweepEvent::Done) => take_tag(dry_run, s),
        (SweepPhase::Deleting, SweepEvent::Done) => take_tag(
            dry_run,
            SweepView { going: s.going.drop_first(), deleted: s.deleted + 1, ..s },
        ),
        (_, SweepEvent::Failed(e)) => (
            SweepView { phase: SweepPhase::Over, ..s },
            SweepAction::Fail(e),
        ),
        _ => (SweepView { phase: SweepPhase::Over, ..s }, SweepAction::Reject),
    }
}

impl Sweep {
    /// Whether there is a repository, and a tag, in hand where there should be.
    pub closed spec fn well_formed(&self) -> bool {
        &&& self.at <= self.repos@.len()
        &&& self.next <= self.doomed@.len()
        &&& (self.phase == SweepPhase::Tags || self.phase == SweepPhase::Announcing || self.phase
            == SweepPhase::Deleting) ==> self.at < self.repos@.len()
        &&& (self.phase == SweepPhase::Announcing || self.phase == SweepPhase::Deleting)
            ==> self.next < self.doomed@.len()
    }

    /// A sweep that has not begun.
    pub fn new() -> (r: Self)
        ensures
            r.well_formed(),
            r@ == (SweepView {
                phase: SweepPhase::Idle,
                todo: Seq::empty(),
                going: Seq::empty(),
                deleted: 0,
            }),
    {
        let r = Sweep {
            phase: SweepPhase::Idle,
            repos: Vec::new(),
            at: 0,
            doomed: Vec::new(),
            next: 0,
            deleted: 0,
        };
        assert(r@.todo =~= Seq::empty());
        assert(r@.going =~= Seq::empty());
        r
    }

    /// The number of tags that are gone.
    pub fn deleted(&self) -> (r: usize)
        ensures
            r == self@.deleted,
    {
        self.deleted
    }

    fn take_repository<E>(&mut self) -> (r: SweepAction<String, Tag, usize, E>)
        requires
            old(self).at <= old(self).repos@.len(),
            old(self).next <= old(self).doomed@.len(),
        ensures
            final(self).well_formed(),
            (final(self)@, r@) == take_repository::<E>(old(self)@),
    {
        if self.at == self.repos.len() {
            self.phase = SweepPhase::Over;
            SweepAction::Finish(self.deleted)
        } else {
            self.phase = SweepPhase::Tags;
            SweepAction::ListTags(self.repos[self.at].clone())
        }
    }

    fn take_tag<E>(&mut self, dry_run: bool) -> (r: SweepAction<String, Tag, usize, E>)
        requires
            old(self).at < old(self).repos@.len(),
            old(self).next <= old(self).doomed@.len(),
        ensures
            final(self).well_formed(),
            (final(self)@, r@) == take_tag::<E>(dry_run, old(self)@),
    {
        if self.next == self.doomed.len() {
            let ghost todo = self@.todo;
            assert(self.at < self.repos.len());
            self.at = self.at + 1;
            assert(self@.todo =~= todo.drop_first());
            self.take_repository()
        } else {
            self.phase = SweepPhase::Deleting;
            let repo = self.repos[self.at].clone();
            let tag = self.doomed[self.next].clone();
            if dry_run {
                SweepAction::Report { repo, tag }
            } else {
                SweepAction::Delete { repo, tag }
            }
        }
    }
}

/// One step of a sweep: takes what came of the last request and says what to do next.
///
/// A sweep lists the repositories, and of each in turn the tags, and deletes those beyond the
/// `keep` most recent; in a dry run it only reports them. It ends with the number of tags that it
/// deleted, or would have deleted.
pub fn sweep<E>(
    cfg: &Config,
    state: &mut Sweep,
    event: SweepEvent<Vec<String>, Vec<Tag>, E>,
) -> (r: SweepAction<String, Tag, usize, E>)
    requires
        old(state).well_formed(),
        old(state)@.phase == SweepPhase::Deleting && event is Done ==> old(state)@.deleted
            < usize::MAX,
    ensures
        final(state).well_formed(),
        (final(state)@, r@) == sweep_next(cfg.keep as nat, cfg.dry_run, old(state)@, event@),
{
    match (state.phase, event) {
        (SweepPhase::Idle, SweepEvent::Start) => {
            state.phase = SweepPhase::Repositories;
            SweepAction::ListRepositories
        },
        (SweepPhase::Repositories, SweepEvent::Repositories(names)) => {
            state.repos = names;
            state.at = 0;
            assert(state@.todo =~= views(names@));
            state.take_repository()
        },
        (SweepPhase::Tags, SweepEvent::Tags(tags)) => {
            let ghost todo = state@.todo;
            let going = tags_to_delete(tags.as_slice(), cfg.keep);
            let count: usize = going.len();
            state.doomed = going;
            state.next = 0;
            assert(state@.going =~= doomed(views(tags@), cfg.keep as nat));
            if count == 0 {
                assert(state.at < state.repos.len());
                state.at = state.at + 1;
                assert(state@.todo =~= todo.drop_first());
                state.take_repository()
            } else {
                state.phase = SweepPhase::Announcing;
                SweepAction::Announce {
                    repo: state.repos[state.at].clone(),
                    total: tags.len(),
                    going: count,
                }
            }
        },
        (SweepPhase::Announcing, SweepEvent::Done) => state.take_tag(cfg.dry_run),
        (SweepPhase::Deleting, SweepEvent::Done) => {
            let ghost going = state@.going;
            assert(state.next < state.doomed.len());
            state.next = state.next + 1;
            state.deleted = state.deleted + 1;
            assert(state@.going =~= going.drop_first());
            state.take_tag(cfg.dry_run)
        },
        (_, SweepEvent::Failed(e)) => {
            state.phase = SweepPhase::Over;
            SweepAction::Fail(e)
        },
        _ => {
            state.phase = SweepPhase::Over;
            SweepAction::Reject
        },
    }
}

/// The value of an event of a sweep has all of its repositories or tags, or its error.
pub proof fn law_sweep_event_value<E>(event: SweepEvent<Vec<String>, Vec<Tag>, E>, i: int)
    ensures
        event is Start <==> event@ is Start,
        event is Repositories <==> event@ is Repositories,
        event is Repositories ==> event@->Repositories_0.len() == event->Repositories_0@.len(),
        event is Repositories && 0 <= i < event->Repositories_0@.len()
            ==> event@->Repositories_0[i] == event->Repositories_0@[i]@,
        event is Tags <==> event@ is Tags,
        event is Tags ==> event@->Tags_0.len() == event->Tags_0@.len(),
        event is Tags && 0 <= i < event->Tags_0@.len() ==> event@->Tags_0[i]
            == event->Tags_0@[i]@,
        event is Done <==> event@ is Done,
        event is Failed <==> event@ is Failed,
        event is Failed ==> event@->Failed_0 == event->Failed_0,
{
}

/// The value of an action of a sweep has its repository, its tag, its counts and its error.
pub proof fn law_sweep_action_value<E>(action: SweepAction<String, Tag, usize, E>)
    ensures
        match action {
            SweepAction::ListRepositories => action@ is ListRepositories,
            SweepAction::ListTags(name) => action@ is ListTags && action@->ListTags_0 == name@,
            SweepAction::Announce { repo, total, going } => {
                &&& action@ is Announce
                &&& action@->Announce_repo == repo@
                &&& action@->total == total
                &&& action@->going == going
            },
            SweepAction::Delete { repo, tag } => {
                &&& action@ is Delete
                &&& action@->Delete_repo == repo@
                &&& action@->Delete_tag == tag@
            },
            SweepAction::Report { repo, tag } => {
                &&& action@ is Report
                &&& action@->Report_repo == repo@
                &&& action@->Report_tag == tag@
            },
            SweepAction::Finish(n) => action@ is Finish && action@->Finish_0 == n,
            SweepAction::Fail(e) => action@ is Fail && action@->Fail_0 == e,
            SweepAction::Reject => action@ is Reject,
        },
{
}

} // verus!
