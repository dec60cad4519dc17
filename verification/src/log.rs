//! The log: its messages, and its lines.

use vstd::prelude::*;
use vstd::string::*;

use crate::config::{Config, ConfigView};
use crate::retention::{Tag, TagView};
use crate::sweep::{SweepAction, SweepActionView};
use crate::text::{decimal, decimal_text, law_decimal_is_read_back, parsed_decimal};

verus! {

/// The line of the log with the message `msg`, written `secs` seconds after the Unix epoch, or, where
/// the clock cannot tell, at its beginning.
pub open spec fn log_line_of(secs: Option<nat>, msg: Seq<char>) -> Seq<char> {
    let t = match secs {
        Some(n) => n,
        None => 0,
    };
    "[janitor t="@ + decimal_text(t) + "] "@ + msg
}

/// The line of the log with the message `msg`.
pub fn log_line(secs: Option<u64>, msg: &str) -> (r: String)
    ensures
        r@ == log_line_of(
            match secs {
                Some(n) => Some(n as nat),
                None => None,
            },
            msg@,
        ),
{
    let t: u64 = match secs {
        Some(n) => n,
        None => 0,
    };
    let stamp = decimal(t);
    let mut line = "[janitor t=".to_owned();
    line.append(stamp.as_str());
    line.append("] ");
    line.append(msg);
    line
}

/// A switch in the log.
pub open spec fn switch_text(on: bool) -> Seq<char> {
    if on {
        "true"@
    } else {
        "false"@
    }
}

fn switch(on: bool) -> (r: &'static str)
    ensures
        r@ == switch_text(on),
{
    if on {
        "true"
    } else {
        "false"
    }
}

/// The message with which the janitor starts.
pub open spec fn starting_of(cfg: ConfigView) -> Seq<char> {
    "starting: data_dir="@ + cfg.data_dir + " keep_last_n="@ + decimal_text(cfg.keep)
        + " interval="@ + decimal_text(cfg.interval) + "s gc="@ + switch_text(cfg.run_gc)
        + " delete_untagged="@ + switch_text(cfg.gc_delete_untagged) + " run_once="@ + switch_text(
        cfg.run_once,
    ) + " dry_run="@ + switch_text(cfg.dry_run)
}

/// The message with which the janitor starts.
pub fn starting(cfg: &Config) -> (r: String)
    ensures
        r@ == starting_of(cfg@),
{
    let mut r = "starting: data_dir=".to_owned();
    r.append(cfg.data_dir.as_str());
    r.append(" keep_last_n=");
    r.append(decimal(cfg.keep as u64).as_str());
    r.append(" interval=");
    r.append(decimal(cfg.interval).as_str());
    r.append("s gc=");
    r.append(switch(cfg.run_gc));
    r.append(" delete_untagged=");
    r.append(switch(cfg.gc_delete_untagged));
    r.append(" run_once=");
    r.append(switch(cfg.run_once));
    r.append(" dry_run=");
    r.append(switch(cfg.dry_run));
    r
}

/// The message of a sweep that has found `count` repositories and keeps `keep` tags of each.
pub open spec fn scanning_of(count: nat, keep: nat) -> Seq<char> {
    "scanning "@ + decimal_text(count) + " repositories (keep_last_n="@ + decimal_text(keep) + ")"@
}

/// The message of a sweep that has found its repositories.
pub fn scanning(count: usize, keep: usize) -> (r: String)
    ensures
        r@ == scanning_of(count as nat, keep as nat),
{
    let mut r = "scanning ".to_owned();
    r.append(decimal(count as u64).as_str());
    r.append(" repositories (keep_last_n=");
    r.append(decimal(keep as u64).as_str());
    r.append(")");
    r
}

/// The message about the tag `tag` of `repo`, which goes or, in a dry run, would go.
pub open spec fn deletion_of(dry_run: bool, repo: Seq<char>, tag: TagView) -> Seq<char> {
    (if dry_run {
        "  - [dry-run] delete "@
    } else {
        "  - delete "@
    }) + repo + ":"@ + tag.name + " ("@ + tag.digest + ")"@
}

fn deletion(dry_run: bool, repo: &str, tag: &Tag) -> (r: String)
    ensures
        r@ == deletion_of(dry_run, repo@, tag@),
{
    let mut r = (if dry_run {
        "  - [dry-run] delete "
    } else {
        "  - delete "
    }).to_owned();
    r.append(repo);
    r.append(":");
    r.append(tag.name.as_str());
    r.append(" (");
    r.append(tag.digest.as_str());
    r.append(")");
    r
}

/// What a sweep has logged when it asks for `action`, before anything is done about it.
pub open spec fn step_message_of<E>(action: SweepActionView<E>) -> Option<Seq<char>> {
    match action {
        SweepAction::Announce { repo, total, going } => Some(
            "repo '"@ + repo + "': "@ + decimal_text(total) + " tags -> deleting "@ + decimal_text(
                going,
            ),
        ),
        SweepAction::Delete { repo, tag } => Some(deletion_of(false, repo, tag)),
        SweepAction::Report { repo, tag } => Some(deletion_of(true, repo, tag)),
        _ => None,
    }
}

/// What a sweep has logged when it asks for `action`.
pub fn step_message<E>(action: &SweepAction<String, Tag, usize, E>) -> (r: Option<String>)
    ensures
        match r {
            Some(msg) => step_message_of(action@) == Some(msg@),
            None => step_message_of(action@) is None,
        },
{
    match action {
        SweepAction::Announce { repo, total, going } => {
            let mut r = "repo '".to_owned();
            r.append(repo.as_str());
            r.append("': ");
            r.append(decimal(*total as u64).as_str());
            r.append(" tags -> deleting ");
            r.append(decimal(*going as u64).as_str());
            Some(r)
        },
        SweepAction::Delete { repo, tag } => Some(deletion(false, repo.as_str(), tag)),
        SweepAction::Report { repo, tag } => Some(deletion(true, repo.as_str(), tag)),
        _ => None,
    }
}

/// The message after a sweep: the number of tags that it deleted, or the reason why it failed.
pub open spec fn sweep_message_of(outcome: Result<nat, Seq<char>>) -> Seq<char> {
    match outcome {
        Ok(n) => "pruned "@ + decimal_text(n) + " tags"@,
        Err(reason) => "sweep error: "@ + reason,
    }
}

/// The message after a sweep.
pub fn sweep_message(outcome: Result<usize, &str>) -> (r: String)
    ensures
        r@ == sweep_message_of(
            match outcome {
                Ok(n) => Ok(n as nat),
                Err(reason) => Err(reason@),
            },
        ),
{
    match outcome {
        Ok(n) => {
            let mut r = "pruned ".to_owned();
            r.append(decimal(n as u64).as_str());
            r.append(" tags");
            r
        },
        Err(reason) => {
            let mut r = "sweep error: ".to_owned();
            r.append(reason);
            r
        },
    }
}

/// The message after a collection: whether the collector succeeded, or the reason why it could not
/// be run.
pub open spec fn collection_message_of(outcome: Result<bool, Seq<char>>) -> Seq<char> {
    match outcome {
        Ok(true) => "garbage-collect: ok"@,
        Ok(false) => "garbage-collect: non-zero exit"@,
        Err(reason) => "garbage-collect: failed to run: "@ + reason,
    }
}

/// The message after a collection.
pub fn collection_message(outcome: Result<bool, &str>) -> (r: String)
    ensures
        r@ == collection_message_of(
            match outcome {
                Ok(ok) => Ok(ok),
                Err(reason) => Err(reason@),
            },
        ),
{
    match outcome {
        Ok(true) => "garbage-collect: ok".to_owned(),
        Ok(false) => "garbage-collect: non-zero exit".to_owned(),
        Err(reason) => {
            let mut r = "garbage-collect: failed to run: ".to_owned();
            r.append(reason);
            r
        },
    }
}

/// A line of the log ends with its message. Before that it has the time, in decimal, between
/// `[janitor t=` and `] `; a time that the clock cannot tell is nought.
pub proof fn law_line_has_the_time_and_the_message(secs: Option<nat>, msg: Seq<char>)
    ensures
        ({
            let line = log_line_of(secs, msg);
            let time = match secs {
                Some(n) => n,
                None => 0,
            };
            let stamp = decimal_text(time);
            &&& parsed_decimal(stamp, time) == Some(time)
            &&& line.len() == 11 + stamp.len() + 2 + msg.len()
            &&& line.take(11) == "[janitor t="@
            &&& line.subrange(11, 11 + stamp.len() as int) == stamp
            &&& line.subrange(11 + stamp.len() as int, 13 + stamp.len() as int) == "] "@
            &&& line.skip(13 + stamp.len() as int) == msg
        }),
{
    let line = log_line_of(secs, msg);
    let time = match secs {
        Some(n) => n,
        None => 0,
    };
    let stamp = decimal_text(time);
    law_decimal_is_read_back(time, time);
    reveal_strlit("[janitor t=");
    reveal_strlit("] ");
    assert(line.take(11) =~= "[janitor t="@);
    assert(line.subrange(11, 11 + stamp.len() as int) =~= stamp);
    assert(line.subrange(11 + stamp.len() as int, 13 + stamp.len() as int) =~= "] "@);
    assert(line.skip(13 + stamp.len() as int) =~= msg);
}

/// The message with which the janitor starts gives every setting but the two that only the collector
/// needs, each after its name.
pub proof fn law_start_gives_the_settings(cfg: ConfigView)
    ensures
        ({
            let gc = if cfg.run_gc { "true"@ } else { "false"@ };
            let delete_untagged = if cfg.gc_delete_untagged { "true"@ } else { "false"@ };
            let run_once = if cfg.run_once { "true"@ } else { "false"@ };
            let dry_run = if cfg.dry_run { "true"@ } else { "false"@ };
            starting_of(cfg) == "starting: data_dir="@ + cfg.data_dir + " keep_last_n="@
                + decimal_text(cfg.keep) + " interval="@ + decimal_text(cfg.interval) + "s gc="@
                + gc + " delete_untagged="@ + delete_untagged + " run_once="@ + run_once
                + " dry_run="@ + dry_run
        }),
{
}

/// A sweep logs how many repositories it found and how many tags it keeps of each.
pub proof fn law_scan_gives_both_numbers(count: nat, keep: nat)
    ensures
        scanning_of(count, keep) == "scanning "@ + (decimal_text(count) + (
        " repositories (keep_last_n="@ + (decimal_text(keep) + ")"@))),
{
    assert(scanning_of(count, keep) =~= "scanning "@ + (decimal_text(count) + (
    " repositories (keep_last_n="@ + (decimal_text(keep) + ")"@))));
}

/// A sweep logs each tag that goes, with its repository, name and digest; a dry run logs the same
/// with a mark. It logs the numbers that it announces, and nothing else.
pub proof fn law_sweep_logs_what_goes<E>(
    repo: Seq<char>,
    tag: TagView,
    total: nat,
    going: nat,
    action: SweepActionView<E>,
)
    ensures
        step_message_of(SweepActionView::<E>::Delete { repo, tag }) == Some(
            "  - "@ + ("delete "@ + repo + ":"@ + tag.name + " ("@ + tag.digest + ")"@),
        ),
        step_message_of(SweepActionView::<E>::Report { repo, tag }) == Some(
            "  - [dry-run] "@ + ("delete "@ + repo + ":"@ + tag.name + " ("@ + tag.digest + ")"@),
        ),
        step_message_of(SweepActionView::<E>::Announce { repo, total, going }) == Some(
            "repo '"@ + (repo + ("': "@ + (decimal_text(total) + (" tags -> deleting "@
                + decimal_text(going))))),
        ),
        !(action is Delete || action is Report || action is Announce) ==> step_message_of(action)
            is None,
{
    reveal_strlit("  - ");
    reveal_strlit("  - [dry-run] ");
    reveal_strlit("delete ");
    reveal_strlit("  - delete ");
    reveal_strlit("  - [dry-run] delete ");
    assert("  - delete "@ =~= "  - "@ + "delete "@);
    assert("  - [dry-run] delete "@ =~= "  - [dry-run] "@ + "delete "@);
    let rest = "delete "@ + repo + ":"@ + tag.name + " ("@ + tag.digest + ")"@;
    assert(deletion_of(false, repo, tag) =~= "  - "@ + rest);
    assert(deletion_of(true, repo, tag) =~= "  - [dry-run] "@ + rest);
    assert("repo '"@ + repo + "': "@ + decimal_text(total) + " tags -> deleting "@ + decimal_text(
        going,
    ) =~= "repo '"@ + (repo + ("': "@ + (decimal_text(total) + (" tags -> deleting "@
        + decimal_text(going))))));
}

/// After a sweep the log has its count or its error, and after a collection whether it worked or the
/// error, word for word.
pub proof fn law_round_logs_its_outcome(n: nat, reason: Seq<char>)
    ensures
        sweep_message_of(Ok(n)) == "pruned "@ + (decimal_text(n) + " tags"@),
        sweep_message_of(Err(reason)) == "sweep error: "@ + reason,
        collection_message_of(Ok(true)) == "garbage-collect: ok"@,
        collection_message_of(Ok(false)) == "garbage-collect: non-zero exit"@,
        collection_message_of(Err(reason)) == "garbage-collect: failed to run: "@ + reason,
{
    assert(sweep_message_of(Ok(n)) =~= "pruned "@ + (decimal_text(n) + " tags"@));
}

} // verus!
