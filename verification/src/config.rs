//! The configuration of the janitor, from environment variables.
//!
//! | variable                  | meaning                     | default                           |
//! | ------------------------- | --------------------------- | --------------------------------- |
//! | `JANITOR_DATA_DIR`        | registry `rootdirectory`    | `/var/lib/registry`               |
//! | `JANITOR_REGISTRY_CONFIG` | registry config for GC      | `/etc/docker/registry/config.yml` |
//! | `JANITOR_REGISTRY_BIN`    | registry binary, name or path | `registry`                      |
//! | `KEEP_LAST_N`             | tags kept per repository    | 10                                |
//! | `JANITOR_INTERVAL_SECS`   | seconds between sweeps      | 3600                              |
//! | `GC_DELETE_UNTAGGED`      | pass `--delete-untagged`    | true                              |
//! | `RUN_GC`                  | run GC after pruning        | true                              |
//! | `RUN_ONCE`                | one sweep, then exit        | false                             |
//! | `DRY_RUN`                 | log only, change nothing    | false                             |
//!
//! None of them starts with `REGISTRY_`: the registry binary takes those for its own.

use vstd::prelude::*;
use vstd::string::*;

use crate::order::views;
use crate::text::{decimal_text, is_digit, is_white, is_word, law_case_does_not_matter,
    law_decimal_is_read_back, law_white_space_around_goes, lemma_decimal_text, lowercased,
    parse_decimal, parsed_decimal, same_letters, trim, trimmed};

verus! {

/// The value of the variable `key` in `env`, a list of names and values: the first, where the list
/// has several.
pub open spec fn lookup(env: Seq<(Seq<char>, Seq<char>)>, key: Seq<char>) -> Option<Seq<char>>
    decreases env.len(),
{
    if env.len() == 0 {
        None
    } else if env.first().0 == key {
        Some(env.first().1)
    } else {
        lookup(env.drop_first(), key)
    }
}

/// A text setting: the value, or `default` where there is none.
pub open spec fn text_setting(value: Option<Seq<char>>, default: Seq<char>) -> Seq<char> {
    match value {
        Some(v) => v,
        None => default,
    }
}

/// A switch: on for `1`, `true` and `yes`, with or without white space around and in any letter
/// case, off for any other value, and `default` where there is none.
pub open spec fn switch_setting(value: Option<Seq<char>>, default: bool) -> bool {
    match value {
        Some(v) => {
            let word = lowercased(trimmed(v));
            word == "1"@ || word == "true"@ || word == "yes"@
        },
        None => default,
    }
}

/// A number, with or without white space around: `default` where there is none, or none up to
/// `max`.
pub open spec fn number_setting(value: Option<Seq<char>>, default: nat, max: nat) -> nat {
    match value {
        Some(v) => match parsed_decimal(trimmed(v), max) {
            Some(n) => n,
            None => default,
        },
        None => default,
    }
}

fn find<'a>(env: &'a [(String, String)], key: &str) -> (r: Option<&'a String>)
    ensures
        match r {
            Some(v) => lookup(views(env@), key@) == Some(v@),
            None => lookup(views(env@), key@) is None,
        },
{
    let wanted: String = key.to_owned();
    let ghost all = views(env@);
    let mut i: usize = 0;
    assert(all.skip(0) =~= all);
    while i < env.len()
        invariant
            i <= env@.len(),
            all == views(env@),
            wanted@ == key@,
            lookup(all, key@) == lookup(all.skip(i as int), key@),
        decreases env@.len() - i,
    {
        assert(all.skip(i as int).first() == env@[i as int]@);
        if env[i].0 == wanted {
            return Some(&env[i].1);
        }
        assert(all.skip(i as int).drop_first() =~= all.skip(i + 1));
        i = i + 1;
    }
    None
}

/// The text in the variable `key`.
pub fn env_str(env: &[(String, String)], key: &str, default: &str) -> (r: String)
    ensures
        r@ == text_setting(lookup(views(env@), key@), default@),
{
    match find(env, key) {
        Some(v) => v.clone(),
        None => default.to_owned(),
    }
}

/// The switch in the variable `key`.
pub fn env_bool(env: &[(String, String)], key: &str, default: bool) -> (r: bool)
    ensures
        r == switch_setting(lookup(views(env@), key@), default),
{
    match find(env, key) {
        Some(v) => {
            let word = trim(v.as_str());
            is_word(word, "1") || is_word(word, "true") || is_word(word, "yes")
        },
        None => default,
    }
}

/// The number in the variable `key`, as a size.
pub fn env_usize(env: &[(String, String)], key: &str, default: usize) -> (r: usize)
    ensures
        r == number_setting(lookup(views(env@), key@), default as nat, usize::MAX as nat),
{
    match find(env, key) {
        Some(v) => match parse_decimal(trim(v.as_str()), usize::MAX as u64) {
            Some(n) => n as usize,
            None => default,
        },
        None => default,
    }
}

/// The number in the variable `key`.
pub fn env_u64(env: &[(String, String)], key: &str, default: u64) -> (r: u64)
    ensures
        r == number_setting(lookup(views(env@), key@), default as nat, u64::MAX as nat),
{
    match find(env, key) {
        Some(v) => match parse_decimal(trim(v.as_str()), u64::MAX) {
            Some(n) => n,
            None => default,
        },
        None => default,
    }
}

/// The configuration of the janitor.
pub struct Config {
    pub data_dir: String,
    pub registry_config: String,
    pub registry_bin: String,
    pub keep: usize,
    pub interval: u64,
    pub gc_delete_untagged: bool,
    pub run_gc: bool,
    pub run_once: bool,
    pub dry_run: bool,
}

/// A configuration as a value.
pub struct ConfigView {
    pub data_dir: Seq<char>,
    pub registry_config: Seq<char>,
    pub registry_bin: Seq<char>,
    pub keep: nat,
    pub interval: nat,
    pub gc_delete_untagged: bool,
    pub run_gc: bool,
    pub run_once: bool,
    pub dry_run: bool,
}

impl View for Config {
    type V = ConfigView;

    open spec fn view(&self) -> ConfigView {
        ConfigView {
            data_dir: self.data_dir@,
            registry_config: self.registry_config@,
            registry_bin: self.registry_bin@,
            keep: self.keep as nat,
            interval: self.interval as nat,
            gc_delete_untagged: self.gc_delete_untagged,
            run_gc: self.run_gc,
            run_once: self.run_once,
            dry_run: self.dry_run,
        }
    }
}

/// The configuration that the variables `env` make.
pub open spec fn config_of(env: Seq<(Seq<char>, Seq<char>)>) -> ConfigView {
    ConfigView {
        data_dir: text_setting(lookup(env, "JANITOR_DATA_DIR"@), "/var/lib/registry"@),
        registry_config: text_setting(
            lookup(env, "JANITOR_REGISTRY_CONFIG"@),
            "/etc/docker/registry/config.yml"@,
        ),
        registry_bin: text_setting(lookup(env, "JANITOR_REGISTRY_BIN"@), "registry"@),
        keep: number_setting(lookup(env, "KEEP_LAST_N"@), 10, usize::MAX as nat),
        interval: number_setting(lookup(env, "JANITOR_INTERVAL_SECS"@), 3600, u64::MAX as nat),
        gc_delete_untagged: switch_setting(lookup(env, "GC_DELETE_UNTAGGED"@), true),
        run_gc: switch_setting(lookup(env, "RUN_GC"@), true),
        run_once: switch_setting(lookup(env, "RUN_ONCE"@), false),
        dry_run: switch_setting(lookup(env, "DRY_RUN"@), false),
    }
}

impl Config {
    /// The configuration that the variables `env`, names and values, make.
    pub fn from_env(env: &[(String, String)]) -> (r: Self)
        ensures
            r@ == config_of(views(env@)),
    {
        Config {
            data_dir: env_str(env, "JANITOR_DATA_DIR", "/var/lib/registry"),
            registry_config: env_str(
                env,
                "JANITOR_REGISTRY_CONFIG",
                "/etc/docker/registry/config.yml",
            ),
            registry_bin: env_str(env, "JANITOR_REGISTRY_BIN", "registry"),
            keep: env_usize(env, "KEEP_LAST_N", 10),
            interval: env_u64(env, "JANITOR_INTERVAL_SECS", 3600),
            gc_delete_untagged: env_bool(env, "GC_DELETE_UNTAGGED", true),
            run_gc: env_bool(env, "RUN_GC", true),
            run_once: env_bool(env, "RUN_ONCE", false),
            dry_run: env_bool(env, "DRY_RUN", false),
        }
    }
}

/// Without its variable a setting has its default.
pub proof fn law_unset_settings_have_their_defaults(env: Seq<(Seq<char>, Seq<char>)>)
    requires
        lookup(env, "JANITOR_DATA_DIR"@) is None,
        lookup(env, "JANITOR_REGISTRY_CONFIG"@) is None,
        lookup(env, "JANITOR_REGISTRY_BIN"@) is None,
        lookup(env, "KEEP_LAST_N"@) is None,
        lookup(env, "JANITOR_INTERVAL_SECS"@) is None,
        lookup(env, "GC_DELETE_UNTAGGED"@) is None,
        lookup(env, "RUN_GC"@) is None,
        lookup(env, "RUN_ONCE"@) is None,
        lookup(env, "DRY_RUN"@) is None,
    ensures
        config_of(env) == (ConfigView {
            data_dir: "/var/lib/registry"@,
            registry_config: "/etc/docker/registry/config.yml"@,
            registry_bin: "registry"@,
            keep: 10,
            interval: 3600,
            gc_delete_untagged: true,
            run_gc: true,
            run_once: false,
            dry_run: false,
        }),
{
}

proof fn lemma_lookup_insert(
    env: Seq<(Seq<char>, Seq<char>)>,
    i: int,
    name: Seq<char>,
    value: Seq<char>,
    key: Seq<char>,
)
    requires
        0 <= i <= env.len(),
        name != key,
    ensures
        lookup(env.insert(i, (name, value)), key) == lookup(env, key),
    decreases env.len(),
{
    let more = env.insert(i, (name, value));
    if i == 0 {
        assert(more.drop_first() =~= env);
    } else {
        lemma_lookup_insert(env.drop_first(), i - 1, name, value, key);
        assert(more.drop_first() =~= env.drop_first().insert(i - 1, (name, value)));
    }
}

/// The variables that the registry binary takes for its own, those that start with `REGISTRY_`,
/// change nothing.
pub proof fn law_registry_variables_are_ignored(
    env: Seq<(Seq<char>, Seq<char>)>,
    i: int,
    name: Seq<char>,
    value: Seq<char>,
)
    requires
        0 <= i <= env.len(),
        "REGISTRY_"@.is_prefix_of(name),
    ensures
        config_of(env.insert(i, (name, value))) == config_of(env),
{
    reveal_strlit("REGISTRY_");
    reveal_strlit("JANITOR_DATA_DIR");
    reveal_strlit("JANITOR_REGISTRY_CONFIG");
    reveal_strlit("JANITOR_REGISTRY_BIN");
    reveal_strlit("KEEP_LAST_N");
    reveal_strlit("JANITOR_INTERVAL_SECS");
    reveal_strlit("GC_DELETE_UNTAGGED");
    reveal_strlit("RUN_GC");
    reveal_strlit("RUN_ONCE");
    reveal_strlit("DRY_RUN");
    assert("REGISTRY_"@[0] == name[0] && "REGISTRY_"@[1] == name[1]);
    lemma_lookup_insert(env, i, name, value, "JANITOR_DATA_DIR"@);
    lemma_lookup_insert(env, i, name, value, "JANITOR_REGISTRY_CONFIG"@);
    lemma_lookup_insert(env, i, name, value, "JANITOR_REGISTRY_BIN"@);
    lemma_lookup_insert(env, i, name, value, "KEEP_LAST_N"@);
    lemma_lookup_insert(env, i, name, value, "JANITOR_INTERVAL_SECS"@);
    lemma_lookup_insert(env, i, name, value, "GC_DELETE_UNTAGGED"@);
    lemma_lookup_insert(env, i, name, value, "RUN_GC"@);
    lemma_lookup_insert(env, i, name, value, "RUN_ONCE"@);
    lemma_lookup_insert(env, i, name, value, "DRY_RUN"@);
}

/// Whether the entry `i` of `env` sets the variable `key`: it is the first with this name.
pub open spec fn sets(env: Seq<(Seq<char>, Seq<char>)>, i: int, key: Seq<char>) -> bool {
    &&& 0 <= i < env.len()
    &&& env[i].0 == key
    &&& forall|j: int| 0 <= j < i ==> (#[trigger] env[j]).0 != key
}

/// Whether no entry of `env` has the name `key`.
pub open spec fn leaves_unset(env: Seq<(Seq<char>, Seq<char>)>, key: Seq<char>) -> bool {
    forall|j: int| 0 <= j < env.len() ==> (#[trigger] env[j]).0 != key
}

/// A variable has the value of the first entry with its name, and none where there is no such entry.
pub proof fn law_first_entry_sets_the_variable(
    env: Seq<(Seq<char>, Seq<char>)>,
    i: int,
    key: Seq<char>,
)
    ensures
        sets(env, i, key) ==> lookup(env, key) == Some(env[i].1),
        leaves_unset(env, key) ==> lookup(env, key) is None,
    decreases env.len(),
{
    if env.len() > 0 {
        let rest = env.drop_first();
        law_first_entry_sets_the_variable(rest, i - 1, key);
        if sets(env, i, key) && i > 0 {
            assert(env[0].0 != key);
            assert forall|j: int| 0 <= j < i - 1 implies (#[trigger] rest[j]).0 != key by {
                assert(rest[j] == env[j + 1]);
            }
            assert(sets(rest, i - 1, key));
        }
        if leaves_unset(env, key) {
            assert(env[0].0 != key);
            assert forall|j: int| 0 <= j < rest.len() implies (#[trigger] rest[j]).0 != key by {
                assert(rest[j] == env[j + 1]);
            }
        }
    }
}

/// A text setting is the value of its variable, letter for letter, and its default where the
/// variable is not set, whatever else is set.
pub proof fn law_text_settings(env: Seq<(Seq<char>, Seq<char>)>, i: int)
    ensures
        sets(env, i, "JANITOR_DATA_DIR"@) ==> config_of(env).data_dir == env[i].1,
        leaves_unset(env, "JANITOR_DATA_DIR"@) ==> config_of(env).data_dir
            == "/var/lib/registry"@,
        sets(env, i, "JANITOR_REGISTRY_CONFIG"@) ==> config_of(env).registry_config == env[i].1,
        leaves_unset(env, "JANITOR_REGISTRY_CONFIG"@) ==> config_of(env).registry_config
            == "/etc/docker/registry/config.yml"@,
        sets(env, i, "JANITOR_REGISTRY_BIN"@) ==> config_of(env).registry_bin == env[i].1,
        leaves_unset(env, "JANITOR_REGISTRY_BIN"@) ==> config_of(env).registry_bin == "registry"@,
{
    law_first_entry_sets_the_variable(env, i, "JANITOR_DATA_DIR"@);
    law_first_entry_sets_the_variable(env, i, "JANITOR_REGISTRY_CONFIG"@);
    law_first_entry_sets_the_variable(env, i, "JANITOR_REGISTRY_BIN"@);
}

/// A number setting is the number that its variable holds, however large, as long as the machine has
/// it; its default where the variable holds no such number; and its default where the variable is
/// not set, whatever else is set.
pub proof fn law_number_settings(env: Seq<(Seq<char>, Seq<char>)>, i: int)
    ensures
        sets(env, i, "KEEP_LAST_N"@) ==> match parsed_decimal(
            trimmed(env[i].1),
            usize::MAX as nat,
        ) {
            Some(n) => config_of(env).keep == n,
            None => config_of(env).keep == 10,
        },
        leaves_unset(env, "KEEP_LAST_N"@) ==> config_of(env).keep == 10,
        sets(env, i, "JANITOR_INTERVAL_SECS"@) ==> match parsed_decimal(
            trimmed(env[i].1),
            u64::MAX as nat,
        ) {
            Some(n) => config_of(env).interval == n,
            None => config_of(env).interval == 3600,
        },
        leaves_unset(env, "JANITOR_INTERVAL_SECS"@) ==> config_of(env).interval == 3600,
{
    law_first_entry_sets_the_variable(env, i, "KEEP_LAST_N"@);
    law_first_entry_sets_the_variable(env, i, "JANITOR_INTERVAL_SECS"@);
}

/// A number that is written into a variable, with or without white space around it, is the setting.
pub proof fn law_numbers_are_taken_as_written(
    env: Seq<(Seq<char>, Seq<char>)>,
    i: int,
    n: nat,
    before: Seq<char>,
    after: Seq<char>,
)
    requires
        0 <= i < env.len(),
        env[i].1 == before + decimal_text(n) + after,
        forall|k: int| 0 <= k < before.len() ==> is_white(#[trigger] before[k]),
        forall|k: int| 0 <= k < after.len() ==> is_white(#[trigger] after[k]),
    ensures
        sets(env, i, "KEEP_LAST_N"@) && n <= usize::MAX ==> config_of(env).keep == n,
        sets(env, i, "KEEP_LAST_N"@) && n > usize::MAX ==> config_of(env).keep == 10,
        sets(env, i, "JANITOR_INTERVAL_SECS"@) && n <= u64::MAX ==> config_of(env).interval == n,
        sets(env, i, "JANITOR_INTERVAL_SECS"@) && n > u64::MAX ==> config_of(env).interval == 3600,
{
    let s = decimal_text(n);
    lemma_decimal_text(n);
    assert(is_digit(s[0]) && is_digit(s[s.len() - 1]));
    law_white_space_around_goes(before, s, after);
    law_number_settings(env, i);
    law_decimal_is_read_back(n, n);
}

/// Whether `value`, without the white space around it, is `1`, `true` or `yes`, in any letter case.
pub open spec fn says_yes(value: Seq<char>) -> bool {
    ||| same_letters(trimmed(value), "1"@)
    ||| same_letters(trimmed(value), "true"@)
    ||| same_letters(trimmed(value), "yes"@)
}

/// A switch is on if its variable says yes, off if it says anything else, and at its default where
/// the variable is not set, whatever else is set.
pub proof fn law_switch_settings(env: Seq<(Seq<char>, Seq<char>)>, i: int)
    ensures
        sets(env, i, "GC_DELETE_UNTAGGED"@) ==> config_of(env).gc_delete_untagged == says_yes(
            env[i].1,
        ),
        leaves_unset(env, "GC_DELETE_UNTAGGED"@) ==> config_of(env).gc_delete_untagged,
        sets(env, i, "RUN_GC"@) ==> config_of(env).run_gc == says_yes(env[i].1),
        leaves_unset(env, "RUN_GC"@) ==> config_of(env).run_gc,
        sets(env, i, "RUN_ONCE"@) ==> config_of(env).run_once == says_yes(env[i].1),
        leaves_unset(env, "RUN_ONCE"@) ==> !config_of(env).run_once,
        sets(env, i, "DRY_RUN"@) ==> config_of(env).dry_run == says_yes(env[i].1),
        leaves_unset(env, "DRY_RUN"@) ==> !config_of(env).dry_run,
{
    law_first_entry_sets_the_variable(env, i, "GC_DELETE_UNTAGGED"@);
    law_first_entry_sets_the_variable(env, i, "RUN_GC"@);
    law_first_entry_sets_the_variable(env, i, "RUN_ONCE"@);
    law_first_entry_sets_the_variable(env, i, "DRY_RUN"@);
    reveal_strlit("1");
    reveal_strlit("true");
    reveal_strlit("yes");
    law_case_does_not_matter(trimmed(env[i].1), "1"@);
    law_case_does_not_matter(trimmed(env[i].1), "true"@);
    law_case_does_not_matter(trimmed(env[i].1), "yes"@);
}

/// A variable of any name with any default is read by the same rules: text as it is, a switch by
/// whether it says yes, and a number up to a limit by its digits.
pub proof fn law_settings_of_any_name(
    env: Seq<(Seq<char>, Seq<char>)>,
    i: int,
    key: Seq<char>,
    text: Seq<char>,
    on: bool,
    number: nat,
    max: nat,
)
    ensures
        leaves_unset(env, key) ==> {
            &&& text_setting(lookup(env, key), text) == text
            &&& switch_setting(lookup(env, key), on) == on
            &&& number_setting(lookup(env, key), number, max) == number
        },
        sets(env, i, key) ==> {
            &&& text_setting(lookup(env, key), text) == env[i].1
            &&& switch_setting(lookup(env, key), on) == says_yes(env[i].1)
            &&& match parsed_decimal(trimmed(env[i].1), max) {
                Some(n) => number_setting(lookup(env, key), number, max) == n,
                None => number_setting(lookup(env, key), number, max) == number,
            }
        },
{
    law_first_entry_sets_the_variable(env, i, key);
    reveal_strlit("1");
    reveal_strlit("true");
    reveal_strlit("yes");
    law_case_does_not_matter(trimmed(env[i].1), "1"@);
    law_case_does_not_matter(trimmed(env[i].1), "true"@);
    law_case_does_not_matter(trimmed(env[i].1), "yes"@);
}

/// The value of a configuration has all of its settings.
pub proof fn law_config_value(cfg: Config)
    ensures
        cfg@.data_dir == cfg.data_dir@,
        cfg@.registry_config == cfg.registry_config@,
        cfg@.registry_bin == cfg.registry_bin@,
        cfg@.keep == cfg.keep,
        cfg@.interval == cfg.interval,
        cfg@.gc_delete_untagged == cfg.gc_delete_untagged,
        cfg@.run_gc == cfg.run_gc,
        cfg@.run_once == cfg.run_once,
        cfg@.dry_run == cfg.dry_run,
{
}

} // verus!
