//! The registry's own garbage collector.
//!
//! Mark and sweep is left to the registry: it is where a store is easily corrupted, for instance by
//! dropping a child manifest of a multi-arch index. The janitor removes tags only, and then has
//! `registry garbage-collect`, which understands manifest lists, reclaim manifests and blobs.

use vstd::prelude::*;

use crate::order::views;

verus! {

/// A program and its arguments.
pub struct GcCommand {
    pub program: String,
    pub args: Vec<String>,
}

/// A program and its arguments as a value.
#[verifier::ext_equal]
pub struct GcCommandView {
    pub program: Seq<char>,
    pub args: Seq<Seq<char>>,
}

impl View for GcCommand {
    type V = GcCommandView;

    open spec fn view(&self) -> GcCommandView {
        GcCommandView { program: self.program@, args: views(self.args@) }
    }
}

/// The command `registry garbage-collect [--delete-untagged] <config>`.
pub open spec fn gc_command_of(
    registry_bin: Seq<char>,
    config_path: Seq<char>,
    delete_untagged: bool,
) -> GcCommandView {
    GcCommandView {
        program: registry_bin,
        args: if delete_untagged {
            seq!["garbage-collect"@, "--delete-untagged"@, config_path]
        } else {
            seq!["garbage-collect"@, config_path]
        },
    }
}

/// The command that has the registry reclaim what no tag needs any more.
///
/// `--delete-untagged` is what reclaims the manifest revisions that lost their tags, and their
/// blobs. It can be left out for a registry too old to handle manifest lists with it.
pub fn gc_command(registry_bin: &str, config_path: &str, delete_untagged: bool) -> (r: GcCommand)
    ensures
        r@ == gc_command_of(registry_bin@, config_path@, delete_untagged),
{
    let mut args: Vec<String> = Vec::new();
    args.push("garbage-collect".to_owned());
    if delete_untagged {
        args.push("--delete-untagged".to_owned());
    }
    args.push(config_path.to_owned());
    let r = GcCommand { program: registry_bin.to_owned(), args };
    assert(r@ =~= gc_command_of(registry_bin@, config_path@, delete_untagged));
    r
}

/// The command runs the registry's binary, with `garbage-collect` as the first argument, the
/// registry's configuration as the last, and `--delete-untagged` between them if and only if it is
/// asked for.
pub proof fn law_command_collects_garbage(
    registry_bin: Seq<char>,
    config_path: Seq<char>,
    delete_untagged: bool,
)
    ensures
        ({
            let command = gc_command_of(registry_bin, config_path, delete_untagged);
            &&& command.program == registry_bin
            &&& command.args.first() == "garbage-collect"@
            &&& command.args.last() == config_path
            &&& command.args.len() == 2 <==> !delete_untagged
            &&& command.args.len() == 3 <==> delete_untagged
            &&& delete_untagged ==> command.args[1] == "--delete-untagged"@
        }),
{
}

/// The value of a command has its program and its arguments.
pub proof fn law_command_value(command: GcCommand, i: int)
    ensures
        command@.program == command.program@,
        command@.args.len() == command.args@.len(),
        0 <= i < command.args@.len() ==> command@.args[i] == command.args@[i]@,
{
}

} // verus!
