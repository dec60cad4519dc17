//! The janitor's loop, and the garbage collector.

use janitor::config::Config;
use janitor::gc::gc_command;
use janitor::janitor::{next_action, JanitorAction, JanitorEvent};

fn config(vars: &[(&str, &str)]) -> Config {
    let vars: Vec<(String, String)> = vars.iter().map(|(k, v)| (k.to_string(), v.to_string())).collect();
    Config::from_env(&vars)
}

/// What the janitor does after `event`, as text.
fn after(cfg: &Config, event: JanitorEvent<usize>) -> String {
    match next_action(cfg, event) {
        JanitorAction::Sweep => "sweep".to_string(),
        JanitorAction::Collect(command) => format!("{} {}", command.program, command.args.join(" ")),
        JanitorAction::Sleep(secs) => format!("sleep {secs}"),
        JanitorAction::Exit => "exit".to_string(),
    }
}

#[test]
fn garbage_collection_commands() {
    let with = gc_command("registry", "/etc/docker/registry/config.yml", true);
    assert_eq!(with.program, "registry");
    assert_eq!(
        with.args,
        vec!["garbage-collect", "--delete-untagged", "/etc/docker/registry/config.yml"]
    );
    let without = gc_command("/bin/r", "c", false);
    assert_eq!(without.program, "/bin/r");
    assert_eq!(without.args, vec!["garbage-collect", "c"]);
}

#[test]
fn the_loop_goes_on() {
    let cfg = config(&[("JANITOR_INTERVAL_SECS", "60")]);
    assert_eq!(after(&cfg, JanitorEvent::Start), "sweep");
    assert_eq!(
        after(&cfg, JanitorEvent::Swept(3)),
        "registry garbage-collect --delete-untagged /etc/docker/registry/config.yml"
    );
    assert_eq!(after(&cfg, JanitorEvent::Collected), "sleep 60");
    assert_eq!(after(&cfg, JanitorEvent::Woke), "sweep");
    assert_eq!(after(&cfg, JanitorEvent::Swept(0)), "sleep 60");
    assert_eq!(after(&cfg, JanitorEvent::SweepFailed), "sleep 60");
}

#[test]
fn run_once_ends_after_one_round() {
    let cfg = config(&[("RUN_ONCE", "true"), ("GC_DELETE_UNTAGGED", "0"), ("JANITOR_REGISTRY_CONFIG", "c.yml")]);
    assert_eq!(after(&cfg, JanitorEvent::Start), "sweep");
    assert_eq!(after(&cfg, JanitorEvent::Swept(1)), "registry garbage-collect c.yml");
    assert_eq!(after(&cfg, JanitorEvent::Collected), "exit");
    assert_eq!(after(&cfg, JanitorEvent::Swept(0)), "exit");
    assert_eq!(after(&cfg, JanitorEvent::SweepFailed), "exit");
}

#[test]
fn no_collection_where_it_is_off_or_in_a_dry_run() {
    let off = config(&[("RUN_GC", "false")]);
    assert_eq!(after(&off, JanitorEvent::Swept(5)), "sleep 3600");
    let dry = config(&[("DRY_RUN", "yes")]);
    assert_eq!(after(&dry, JanitorEvent::Swept(5)), "sleep 3600");
}
