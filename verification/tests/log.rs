//! Lines of the log.

use janitor::config::Config;
use janitor::log::{
    collection_message, log_line, scanning, starting, step_message, sweep_message,
};
use janitor::retention::Tag;
use janitor::sweep::SweepAction;
use janitor::text::{decimal, parse_decimal};

type Action = SweepAction<String, Tag, usize, String>;

fn tag() -> Tag {
    Tag { name: "v1".to_string(), digest: "sha256:abc".to_string(), mtime: 1 }
}

#[test]
fn lines_carry_the_time() {
    assert_eq!(log_line(Some(1700000000), "pruned 3 tags"), "[janitor t=1700000000] pruned 3 tags");
    assert_eq!(log_line(Some(9), ""), "[janitor t=9] ");
}

#[test]
fn a_clock_that_cannot_tell_reads_zero() {
    assert_eq!(log_line(None, "starting"), "[janitor t=0] starting");
    assert_eq!(log_line(Some(0), "starting"), "[janitor t=0] starting");
}

#[test]
fn numbers_are_written_in_decimal() {
    for n in [0, 7, 10, 19, 100, 909, 1234567890, u64::MAX] {
        assert_eq!(decimal(n), n.to_string());
    }
}

#[test]
fn numbers_are_read_back() {
    for n in [0, 9, 10, 4096, u64::MAX] {
        assert_eq!(parse_decimal(&decimal(n), u64::MAX), Some(n));
    }
    assert_eq!(parse_decimal(&decimal(11), 10), None);
}

#[test]
fn the_start_says_what_is_set() {
    assert_eq!(
        starting(&Config::from_env(&[])),
        "starting: data_dir=/var/lib/registry keep_last_n=10 interval=3600s gc=true \
         delete_untagged=true run_once=false dry_run=false"
    );
    let env = [("RUN_GC", "no"), ("GC_DELETE_UNTAGGED", "0"), ("RUN_ONCE", "1"), ("DRY_RUN", "yes")]
        .map(|(name, value)| (name.to_string(), value.to_string()));
    assert_eq!(
        starting(&Config::from_env(&env)),
        "starting: data_dir=/var/lib/registry keep_last_n=10 interval=3600s gc=false \
         delete_untagged=false run_once=true dry_run=true"
    );
}

#[test]
fn a_sweep_says_what_it_does() {
    assert_eq!(scanning(12, 3), "scanning 12 repositories (keep_last_n=3)");
    let repo = "team/app".to_string();
    let announce: Action = SweepAction::Announce { repo: repo.clone(), total: 14, going: 4 };
    assert_eq!(step_message(&announce).unwrap(), "repo 'team/app': 14 tags -> deleting 4");
    let delete: Action = SweepAction::Delete { repo: repo.clone(), tag: tag() };
    assert_eq!(step_message(&delete).unwrap(), "  - delete team/app:v1 (sha256:abc)");
    let report: Action = SweepAction::Report { repo: repo.clone(), tag: tag() };
    assert_eq!(step_message(&report).unwrap(), "  - [dry-run] delete team/app:v1 (sha256:abc)");
    let silent: [Action; 5] = [
        SweepAction::ListRepositories,
        SweepAction::ListTags(repo),
        SweepAction::Finish(4),
        SweepAction::Fail("disk error".to_string()),
        SweepAction::Reject,
    ];
    assert!(silent.iter().all(|action| step_message(action).is_none()));
}

#[test]
fn a_round_says_how_it_ended() {
    assert_eq!(sweep_message(Ok(0)), "pruned 0 tags");
    assert_eq!(sweep_message(Err("disk error")), "sweep error: disk error");
    assert_eq!(collection_message(Ok(true)), "garbage-collect: ok");
    assert_eq!(collection_message(Ok(false)), "garbage-collect: non-zero exit");
    assert_eq!(
        collection_message(Err("no such file")),
        "garbage-collect: failed to run: no such file"
    );
}
