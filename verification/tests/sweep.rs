//! Sweeps over stores in memory.

use std::collections::BTreeMap;

use janitor::config::Config;
use janitor::retention::Tag;
use janitor::sweep::{sweep, Sweep, SweepAction, SweepEvent};

type Store = BTreeMap<String, Vec<Tag>>;

fn tag(name: &str, mtime: i128) -> Tag {
    Tag { name: name.to_string(), digest: format!("sha256:{name}"), mtime }
}

fn config(keep: &str, dry_run: &str) -> Config {
    Config::from_env(&[
        ("KEEP_LAST_N".to_string(), keep.to_string()),
        ("DRY_RUN".to_string(), dry_run.to_string()),
    ])
}

fn store() -> Store {
    let mut store = Store::new();
    store.insert("team/api".to_string(), vec![tag("a", 1), tag("b", 2)]);
    store.insert("team/app".to_string(), vec![tag("v2", 20), tag("v4", 40), tag("v1", 10), tag("v3", 30)]);
    store.insert("zoo".to_string(), vec![tag("x", 5), tag("y", 5), tag("z", 5)]);
    store
}

/// What a sweep comes to: the count, or the error.
type Outcome = Result<usize, String>;

/// Runs a sweep over `names`. The result is what it comes to, and what was announced, deleted and
/// reported. The tag `stuck` cannot be deleted.
fn run(cfg: &Config, names: &[&str], store: &mut Store, stuck: &str) -> (Outcome, Vec<String>) {
    let mut done = Vec::new();
    let mut state = Sweep::new();
    let mut event = SweepEvent::Start;
    loop {
        event = match sweep(cfg, &mut state, event) {
            SweepAction::ListRepositories => {
                SweepEvent::Repositories(names.iter().map(|n| n.to_string()).collect())
            }
            SweepAction::ListTags(repo) => match store.get(&repo) {
                Some(tags) => SweepEvent::Tags(tags.clone()),
                None => SweepEvent::Failed(format!("cannot list {repo}")),
            },
            SweepAction::Announce { repo, total, going } => {
                done.push(format!("{repo} {total} {going}"));
                SweepEvent::Done
            }
            SweepAction::Delete { repo, tag } => {
                if tag.name == stuck {
                    SweepEvent::Failed(format!("cannot delete {repo}:{}", tag.name))
                } else {
                    store.get_mut(&repo).unwrap().retain(|t| t.name != tag.name);
                    done.push(format!("- {repo}:{}", tag.name));
                    SweepEvent::Done
                }
            }
            SweepAction::Report { repo, tag } => {
                done.push(format!("? {repo}:{}", tag.name));
                SweepEvent::Done
            }
            SweepAction::Finish(n) => {
                assert_eq!(state.deleted(), n);
                return (Ok(n), done);
            }
            SweepAction::Fail(e) => return (Err(e), done),
            SweepAction::Reject => panic!("an answer to each action"),
        };
    }
}

fn names(store: &Store, repo: &str) -> Vec<String> {
    store[repo].iter().map(|t| t.name.clone()).collect()
}

#[test]
fn each_repository_keeps_its_own_newest() {
    let mut store = store();
    let (count, done) = run(&config("2", "false"), &["team/api", "team/app", "zoo"], &mut store, "");
    assert_eq!(count, Ok(3));
    assert_eq!(
        done,
        vec!["team/app 4 2", "- team/app:v2", "- team/app:v1", "zoo 3 1", "- zoo:x"]
    );
    assert_eq!(names(&store, "team/api"), vec!["a", "b"]);
    assert_eq!(names(&store, "team/app"), vec!["v4", "v3"]);
    assert_eq!(names(&store, "zoo"), vec!["y", "z"]);
}

#[test]
fn a_dry_run_counts_and_changes_nothing() {
    let mut after = store();
    let (count, done) = run(&config("2", "1"), &["team/api", "team/app", "zoo"], &mut after, "");
    assert_eq!(count, Ok(3));
    assert_eq!(
        done,
        vec!["team/app 4 2", "? team/app:v2", "? team/app:v1", "zoo 3 1", "? zoo:x"]
    );
    assert_eq!(after, store());
}

#[test]
fn a_second_sweep_deletes_nothing() {
    let mut store = store();
    let cfg = config("1", "false");
    let all = ["team/api", "team/app", "zoo"];
    assert_eq!(run(&cfg, &all, &mut store, "").0, Ok(6));
    let (count, done) = run(&cfg, &all, &mut store, "");
    assert_eq!(count, Ok(0));
    assert!(done.is_empty());
}

#[test]
fn keeping_none_empties_the_repositories() {
    let mut store = store();
    assert_eq!(run(&config("0", "false"), &["team/api", "zoo"], &mut store, "").0, Ok(5));
    assert!(store["team/api"].is_empty());
    assert!(store["zoo"].is_empty());
    assert_eq!(store["team/app"].len(), 4);
}

#[test]
fn no_repositories() {
    assert_eq!(run(&config("2", "false"), &[], &mut store(), ""), (Ok(0), vec![]));
}

#[test]
fn a_tag_that_cannot_be_deleted_ends_the_sweep() {
    let mut store = store();
    let (count, done) = run(&config("1", "false"), &["team/app", "zoo"], &mut store, "v2");
    assert_eq!(count, Err("cannot delete team/app:v2".to_string()));
    assert_eq!(done, vec!["team/app 4 3", "- team/app:v3"]);
    assert_eq!(store["zoo"].len(), 3);
}

#[test]
fn a_failure_leaves_what_was_done_before_it() {
    let mut store = store();
    let all = ["team/api", "team/app", "zoo"];
    let (count, _) = run(&config("1", "false"), &all, &mut store, "x");
    assert_eq!(count, Err("cannot delete zoo:x".to_string()));
    assert_eq!(names(&store, "team/api"), vec!["b"]);
    assert_eq!(names(&store, "team/app"), vec!["v4"]);
    assert_eq!(names(&store, "zoo"), vec!["x", "z"]);
}

#[test]
fn a_repository_that_cannot_be_listed_ends_the_sweep() {
    let mut store = store();
    let (count, done) = run(&config("1", "false"), &["gone", "zoo"], &mut store, "");
    assert_eq!(count, Err("cannot list gone".to_string()));
    assert!(done.is_empty());
}

#[test]
fn an_event_out_of_turn_fails_the_sweep() {
    let cfg = config("1", "false");
    let mut state = Sweep::new();
    assert!(matches!(sweep::<&str>(&cfg, &mut state, SweepEvent::Done), SweepAction::Reject));
    assert!(matches!(sweep::<&str>(&cfg, &mut state, SweepEvent::Start), SweepAction::Reject));
    assert!(matches!(
        sweep(&cfg, &mut state, SweepEvent::Failed("late")),
        SweepAction::Fail("late")
    ));
}
