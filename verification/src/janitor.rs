//! The janitor's loop: sweep, collect garbage, sleep, and again.

use vstd::prelude::*;

use crate::config::{Config, ConfigView};
use crate::gc::{gc_command, gc_command_of, law_command_collects_garbage, GcCommand, GcCommandView};

verus! {

/// What came of the last action. `C` is the type of a count.
pub enum JanitorEvent<C> {
    /// Nothing yet.
    Start,
    /// The sweep deleted this many tags, or would have.
    Swept(C),
    /// The sweep failed.
    SweepFailed,
    /// The garbage collector came to an end, or could not be run.
    Collected,
    /// The time to sleep is over.
    Woke,
}

/// What the janitor does next. `G` is the type of a command, `S` that of a number of seconds.
pub enum JanitorAction<G, S> {
    /// Sweep.
    Sweep,
    /// Run this command, which has the registry collect garbage.
    Collect(G),
    /// Sleep this many seconds.
    Sleep(S),
    /// Exit.
    Exit,
}

impl View for JanitorEvent<usize> {
    type V = JanitorEvent<nat>;

    open spec fn view(&self) -> JanitorEvent<nat> {
        match *self {
            JanitorEvent::Start => JanitorEvent::Start,
            JanitorEvent::Swept(n) => JanitorEvent::Swept(n as nat),
            JanitorEvent::SweepFailed => JanitorEvent::SweepFailed,
            JanitorEvent::Collected => JanitorEvent::Collected,
            JanitorEvent::Woke => JanitorEvent::Woke,
        }
    }
}

impl View for JanitorAction<GcCommand, u64> {
    type V = JanitorAction<GcCommandView, nat>;

    open spec fn view(&self) -> JanitorAction<GcCommandView, nat> {
        match *self {
            JanitorAction::Sweep => JanitorAction::Sweep,
            JanitorAction::Collect(command) => JanitorAction::Collect(command@),
            JanitorAction::Sleep(secs) => JanitorAction::Sleep(secs as nat),
            JanitorAction::Exit => JanitorAction::Exit,
        }
    }
}

/// What comes after a round: the end, where there is to be one round only, or else a pause.
pub open spec fn round_over(cfg: ConfigView) -> JanitorAction<GcCommandView, nat> {
    if cfg.run_once {
        JanitorAction::Exit
    } else {
        JanitorAction::Sleep(cfg.interval)
    }
}

/// What the janitor does after `event`. Garbage is collected after a sweep that deleted something,
/// unless collection is switched off or it was a dry run. A sweep that fails ends the round, not
/// the janitor.
pub open spec fn janitor_next(cfg: ConfigView, event: JanitorEvent<nat>) -> JanitorAction<
    GcCommandView,
    nat,
> {
    match event {
        JanitorEvent::Start => JanitorAction::Sweep,
        JanitorEvent::Swept(n) => if n > 0 && cfg.run_gc && !cfg.dry_run {
            JanitorAction::Collect(
                gc_command_of(cfg.registry_bin, cfg.registry_config, cfg.gc_delete_untagged),
            )
        } else {
            round_over(cfg)
        },
        JanitorEvent::SweepFailed => round_over(cfg),
        JanitorEvent::Collected => round_over(cfg),
        JanitorEvent::Woke => JanitorAction::Sweep,
    }
}

fn end_round(cfg: &Config) -> (r: JanitorAction<GcCommand, u64>)
    ensures
        r@ == round_over(cfg@),
{
    if cfg.run_once {
        JanitorAction::Exit
    } else {
        JanitorAction::Sleep(cfg.interval)
    }
}

/// One step of the janitor: takes what came of its last action and says what it does next.
pub fn next_action(cfg: &Config, event: JanitorEvent<usize>) -> (r: JanitorAction<GcCommand, u64>)
    ensures
        r@ == janitor_next(cfg@, event@),
{
    match event {
        JanitorEvent::Start => JanitorAction::Sweep,
        JanitorEvent::Swept(n) => {
            if n > 0 && cfg.run_gc && !cfg.dry_run {
                JanitorAction::Collect(
                    gc_command(
                        cfg.registry_bin.as_str(),
                        cfg.registry_config.as_str(),
                        cfg.gc_delete_untagged,
                    ),
                )
            } else {
                end_round(cfg)
            }
        },
        JanitorEvent::SweepFailed => end_round(cfg),
        JanitorEvent::Collected => end_round(cfg),
        JanitorEvent::Woke => JanitorAction::Sweep,
    }
}

/// Whether `event` can come of `action`.
pub open spec fn answers(event: JanitorEvent<nat>, action: JanitorAction<GcCommandView, nat>) -> bool {
    match action {
        JanitorAction::Sweep => event is Swept || event is SweepFailed,
        JanitorAction::Collect(_) => event is Collected,
        JanitorAction::Sleep(_) => event is Woke,
        JanitorAction::Exit => false,
    }
}

/// Whether `events` can be what a janitor hears from its start on.
pub open spec fn is_history(cfg: ConfigView, events: Seq<JanitorEvent<nat>>) -> bool {
    &&& events.len() > 0
    &&& events[0] is Start
    &&& forall|i: int|
        1 <= i < events.len() ==> answers(
            #[trigger] events[i],
            janitor_next(cfg, events[i - 1]),
        )
}

/// A janitor that is to run once sweeps once, and exits.
pub proof fn law_run_once_sweeps_once(cfg: ConfigView, events: Seq<JanitorEvent<nat>>)
    requires
        cfg.run_once,
        is_history(cfg, events),
    ensures
        events.len() <= 3,
        forall|i: int|
            1 <= i < events.len() ==> !(janitor_next(cfg, #[trigger] events[i]) is Sweep),
        forall|i: int|
            0 <= i < events.len() ==> !(janitor_next(cfg, #[trigger] events[i]) is Sleep),
{
    if events.len() > 1 {
        assert(answers(events[1], janitor_next(cfg, events[0])));
    }
    if events.len() > 2 {
        assert(answers(events[2], janitor_next(cfg, events[1])));
    }
    if events.len() > 3 {
        assert(answers(events[3], janitor_next(cfg, events[2])));
    }
}

/// Any other janitor goes on for ever, whether or not its sweeps succeed, and waits for its
/// interval before each sweep but the first.
pub proof fn law_janitor_goes_on(cfg: ConfigView, events: Seq<JanitorEvent<nat>>, i: int)
    requires
        !cfg.run_once,
        is_history(cfg, events),
        0 <= i < events.len(),
    ensures
        !(janitor_next(cfg, events[i]) is Exit),
        i > 0 && janitor_next(cfg, events[i]) is Sweep ==> janitor_next(cfg, events[i - 1])
            == JanitorAction::<GcCommandView, nat>::Sleep(cfg.interval),
{
    if i > 0 {
        assert(answers(events[i], janitor_next(cfg, events[i - 1])));
    }
}

/// Garbage is collected right after a sweep, and only where the sweep deleted something, collection
/// is switched on and it was no dry run.
pub proof fn law_collects_only_what_a_sweep_left(
    cfg: ConfigView,
    events: Seq<JanitorEvent<nat>>,
    i: int,
)
    requires
        is_history(cfg, events),
        0 <= i < events.len(),
    ensures
        janitor_next(cfg, events[i]) is Collect <==> (events[i] matches JanitorEvent::Swept(n) && n
            > 0 && cfg.run_gc && !cfg.dry_run),
        janitor_next(cfg, events[i]) is Collect ==> i > 0 && janitor_next(cfg, events[i - 1])
            is Sweep,
{
    if i > 0 {
        assert(answers(events[i], janitor_next(cfg, events[i - 1])));
    }
}

/// Whenever the janitor collects, it runs the configured binary of the registry, with
/// `garbage-collect` first, the configured registry configuration last, and `--delete-untagged`
/// between them if and only if that is switched on.
pub proof fn law_collects_with_the_configured_command(
    cfg: ConfigView,
    event: JanitorEvent<nat>,
    command: GcCommandView,
)
    requires
        janitor_next(cfg, event) == JanitorAction::<GcCommandView, nat>::Collect(command),
    ensures
        command.program == cfg.registry_bin,
        command.args.first() == "garbage-collect"@,
        command.args.last() == cfg.registry_config,
        cfg.gc_delete_untagged ==> command.args.len() == 3 && command.args[1]
            == "--delete-untagged"@,
        !cfg.gc_delete_untagged ==> command.args.len() == 2,
{
    law_command_collects_garbage(cfg.registry_bin, cfg.registry_config, cfg.gc_delete_untagged);
}

/// Two janitors with one binary, one registry configuration and one switch for untagged manifests
/// collect with one command, whatever else they are set to and however many tags went.
pub proof fn law_nothing_else_changes_the_command(
    a: ConfigView,
    b: ConfigView,
    x: JanitorEvent<nat>,
    y: JanitorEvent<nat>,
)
    requires
        a.registry_bin == b.registry_bin,
        a.registry_config == b.registry_config,
        a.gc_delete_untagged == b.gc_delete_untagged,
        janitor_next(a, x) is Collect,
        janitor_next(b, y) is Collect,
    ensures
        janitor_next(a, x) == janitor_next(b, y),
{
}

/// A sweep that deleted tags is followed by a collection, unless collection is switched off or it was
/// a dry run.
pub proof fn law_sweep_that_deleted_is_followed_by_a_collection(cfg: ConfigView, n: nat)
    ensures
        janitor_next(cfg, JanitorEvent::Swept(n)) is Collect <==> n >= 1 && cfg.run_gc
            && !cfg.dry_run,
{
}

/// The janitor begins with a sweep, and each pause is followed by a sweep.
pub proof fn law_start_and_pause_are_followed_by_a_sweep(cfg: ConfigView)
    ensures
        janitor_next(cfg, JanitorEvent::Start) is Sweep,
        janitor_next(cfg, JanitorEvent::Woke) is Sweep,
{
}

/// What ends a round, a collection or a sweep without one, is followed by the end of a janitor that
/// is to run once, and by a pause of the configured length of any other.
pub proof fn law_round_ends_with_a_pause_or_the_end(cfg: ConfigView, event: JanitorEvent<nat>)
    requires
        event is Collected || event is SweepFailed || event is Swept,
        !(janitor_next(cfg, event) is Collect),
    ensures
        cfg.run_once ==> janitor_next(cfg, event) is Exit,
        !cfg.run_once ==> janitor_next(cfg, event) == JanitorAction::<GcCommandView, nat>::Sleep(
            cfg.interval,
        ),
{
}

/// A collection and a failed sweep end a round: they are never followed by a collection.
pub proof fn law_one_collection_per_sweep(cfg: ConfigView)
    ensures
        !(janitor_next(cfg, JanitorEvent::Collected) is Collect),
        !(janitor_next(cfg, JanitorEvent::SweepFailed) is Collect),
{
}

/// In every history a pause is followed by a sweep, a sweep by a collection, a pause or the end, and
/// a collection by a pause or the end.
pub proof fn law_course_of_a_janitor(cfg: ConfigView, events: Seq<JanitorEvent<nat>>, i: int)
    requires
        is_history(cfg, events),
        0 < i < events.len(),
    ensures
        janitor_next(cfg, events[i - 1]) is Sleep ==> janitor_next(cfg, events[i]) is Sweep,
        janitor_next(cfg, events[i - 1]) is Sweep ==> !(janitor_next(cfg, events[i]) is Sweep),
        janitor_next(cfg, events[i - 1]) is Collect ==> if cfg.run_once {
            janitor_next(cfg, events[i]) is Exit
        } else {
            janitor_next(cfg, events[i]) == JanitorAction::<GcCommandView, nat>::Sleep(cfg.interval)
        },
        !(janitor_next(cfg, events[i - 1]) is Exit),
{
    assert(answers(events[i], janitor_next(cfg, events[i - 1])));
}

/// The value of an event has its count, and that of an action its command or its seconds.
pub proof fn law_janitor_values(event: JanitorEvent<usize>, action: JanitorAction<GcCommand, u64>)
    ensures
        event is Start <==> event@ is Start,
        event is Swept <==> event@ is Swept,
        event is Swept ==> event@->Swept_0 == event->Swept_0,
        event is SweepFailed <==> event@ is SweepFailed,
        event is Collected <==> event@ is Collected,
        event is Woke <==> event@ is Woke,
        action is Sweep <==> action@ is Sweep,
        action is Collect <==> action@ is Collect,
        action is Collect ==> action@->Collect_0 == action->Collect_0@,
        action is Sleep <==> action@ is Sleep,
        action is Sleep ==> action@->Sleep_0 == action->Sleep_0,
        action is Exit <==> action@ is Exit,
{
}

} // verus!
