//! Settings from the environment.

use janitor::config::{env_bool, env_str, env_u64, env_usize, Config};
use janitor::text::{is_word, parse_decimal, to_ascii_lower, trim, white};

fn env(vars: &[(&str, &str)]) -> Vec<(String, String)> {
    vars.iter().map(|(k, v)| (k.to_string(), v.to_string())).collect()
}

#[test]
fn defaults() {
    let cfg = Config::from_env(&[]);
    assert_eq!(cfg.data_dir, "/var/lib/registry");
    assert_eq!(cfg.registry_config, "/etc/docker/registry/config.yml");
    assert_eq!(cfg.registry_bin, "registry");
    assert_eq!(cfg.keep, 10);
    assert_eq!(cfg.interval, 3600);
    assert!(cfg.gc_delete_untagged);
    assert!(cfg.run_gc);
    assert!(!cfg.run_once);
    assert!(!cfg.dry_run);
}

#[test]
fn every_setting_has_its_variable() {
    let cfg = Config::from_env(&env(&[
        ("JANITOR_DATA_DIR", "/mnt/storagebox/registry"),
        ("JANITOR_REGISTRY_CONFIG", "/c.yml"),
        ("JANITOR_REGISTRY_BIN", "/bin/registry"),
        ("KEEP_LAST_N", "2"),
        ("JANITOR_INTERVAL_SECS", "60"),
        ("GC_DELETE_UNTAGGED", "false"),
        ("RUN_GC", "no"),
        ("RUN_ONCE", "1"),
        ("DRY_RUN", "yes"),
    ]));
    assert_eq!(cfg.data_dir, "/mnt/storagebox/registry");
    assert_eq!(cfg.registry_config, "/c.yml");
    assert_eq!(cfg.registry_bin, "/bin/registry");
    assert_eq!(cfg.keep, 2);
    assert_eq!(cfg.interval, 60);
    assert!(!cfg.gc_delete_untagged);
    assert!(!cfg.run_gc);
    assert!(cfg.run_once);
    assert!(cfg.dry_run);
}

#[test]
fn the_registrys_own_variables_change_nothing() {
    let cfg = Config::from_env(&env(&[
        ("REGISTRY_KEEP_LAST_N", "1"),
        ("REGISTRY_DRY_RUN", "true"),
        ("REGISTRY_", "x"),
    ]));
    assert_eq!(cfg.keep, 10);
    assert!(!cfg.dry_run);
}

#[test]
fn text_is_taken_as_it_is() {
    let vars = env(&[("A", " x "), ("A", "y"), ("E", "")]);
    assert_eq!(env_str(&vars, "A", "d"), " x ");
    assert_eq!(env_str(&vars, "E", "d"), "");
    assert_eq!(env_str(&vars, "B", "d"), "d");
}

#[test]
fn switches() {
    for on in ["1", "true", "yes", "TRUE", "Yes", " yEs\t", "\u{a0}1\n"] {
        assert!(env_bool(&env(&[("S", on)]), "S", false), "{on:?}");
    }
    for off in ["0", "", "on", "y", "11", "tru", "true!", "t rue", "\u{131}"] {
        assert!(!env_bool(&env(&[("S", off)]), "S", true), "{off:?}");
    }
    assert!(env_bool(&[], "S", true));
    assert!(!env_bool(&[], "S", false));
}

#[test]
fn numbers() {
    let texts = [
        "0", "7", " 42\n", "+5", "+", "", "-0", "-1", "++1", "007", "1_000", "1 0", "0x1", "1.0", "\u{664}",
        "18446744073709551615", "18446744073709551616", "+18446744073709551615", "99999999999999999999",
        "184467440737095516150", "00000000000000000000000001", "4294967296", "12a",
    ];
    for text in texts {
        let vars = env(&[("N", text)]);
        let expected_u64: u64 = text.trim().parse().unwrap_or(10);
        let expected_usize: usize = text.trim().parse().unwrap_or(10);
        assert_eq!(env_u64(&vars, "N", 10), expected_u64, "{text:?}");
        assert_eq!(env_usize(&vars, "N", 10), expected_usize, "{text:?}");
    }
    assert_eq!(env_u64(&[], "N", 3600), 3600);
    assert_eq!(env_usize(&[], "N", 10), 10);
}

#[test]
fn numbers_up_to_a_limit() {
    assert_eq!(parse_decimal("255", 255), Some(255));
    assert_eq!(parse_decimal("256", 255), None);
    assert_eq!(parse_decimal("0", 0), Some(0));
    assert_eq!(parse_decimal("1", 0), None);
}

#[test]
fn white_space_is_that_of_the_standard_library() {
    for c in '\0'..=char::MAX {
        assert_eq!(white(c), c.is_whitespace(), "{c:?}");
        assert_eq!(to_ascii_lower(c), c.to_ascii_lowercase(), "{c:?}");
    }
}

#[test]
fn trimming() {
    for text in ["", " ", "a", " a", "a ", " a b ", "\u{3000}x\u{2028}", "\u{200b}x", "\t\n"] {
        assert_eq!(trim(text), text.trim(), "{text:?}");
    }
}

#[test]
fn words_in_any_case() {
    assert!(is_word("YES", "yes"));
    assert!(is_word("", ""));
    assert!(!is_word("ye", "yes"));
    assert!(!is_word("yes", "YES"));
}
