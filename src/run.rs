//! What the launchers of interpreters and package tools decide around a
//! supervised run.

use vstd::prelude::*;
use vstd::string::StringExecFns;

use crate::procs::child_args;
use crate::shims::Shim;

verus! {

/// The texts of a list of arguments.
pub open spec fn views(args: Seq<String>) -> Seq<Seq<char>> {
    args.map_values(|a: String| a@)
}

/// The arguments a launcher hands on: those it got, without the first
/// (its own name).
pub open spec fn forwarded(own_args: Seq<String>) -> Seq<Seq<char>> {
    if own_args.len() > 0 {
        views(own_args.drop_first())
    } else {
        Seq::empty()
    }
}

/// The arguments of an interpreter launcher's child: the launcher's own.
pub fn interpreter_command(own_args: &Vec<String>) -> (r: Vec<String>)
    ensures
        views(r@) == forwarded(own_args@),
{
    let args: Vec<String> = Vec::new();
    let r = child_args(&args, own_args, true);
    assert(views(r@) =~= forwarded(own_args@));
    r
}

/// The arguments that run the module a launcher is named for:
/// `-m <command name>`, then the launcher's own.
pub fn module_command(shim: &Shim, own_args: &Vec<String>) -> (r: Vec<String>)
    ensures
        views(r@) == seq!["-m"@, shim.spec_name()] + forwarded(own_args@),
{
    let mut args: Vec<String> = Vec::new();
    args.push(String::from_str("-m"));
    args.push(String::from_str(shim.name()));
    let r = child_args(&args, own_args, true);
    assert(views(r@) =~= seq!["-m"@, shim.spec_name()] + forwarded(own_args@));
    r
}

/// The arguments that run the manager: `-m snafu`, then the launcher's own.
pub fn manager_command(own_args: &Vec<String>) -> (r: Vec<String>)
    ensures
        views(r@) == seq!["-m"@, "snafu"@] + forwarded(own_args@),
{
    let mut args: Vec<String> = Vec::new();
    args.push(String::from_str("-m"));
    args.push(String::from_str("snafu"));
    let r = child_args(&args, own_args, true);
    assert(views(r@) =~= seq!["-m"@, "snafu"@] + forwarded(own_args@));
    r
}

/// The arguments that make the manager relink every launcher after a
/// package tool ran. The launcher's own arguments are not handed on.
pub fn relink_command(own_args: &Vec<String>) -> (r: Vec<String>)
    ensures
        views(r@) == seq!["-m"@, "snafu"@, "link"@, "--all"@, "--overwrite=smart"@],
{
    let mut args: Vec<String> = Vec::new();
    args.push(String::from_str("-m"));
    args.push(String::from_str("snafu"));
    args.push(String::from_str("link"));
    args.push(String::from_str("--all"));
    args.push(String::from_str("--overwrite=smart"));
    let r = child_args(&args, own_args, false);
    assert(views(r@) =~= seq!["-m"@, "snafu"@, "link"@, "--all"@, "--overwrite=smart"@]);
    r
}

/// What a launcher of a package tool does once the tool has ended.
#[derive(Clone, Copy, Debug, PartialEq, Eq, Structural)]
pub enum AfterTool {
    /// Exit with the tool's code.
    Exit { code: i32 },
    /// The tool succeeded: run the manager once more with
    /// `relink_command`, and exit as that run does.
    Relink,
}

/// Decides what follows a package tool's run that ended with `code`.
pub fn after_tool(code: i32) -> (r: AfterTool)
    ensures
        code == 0 ==> r == AfterTool::Relink,
        code != 0 ==> r == (AfterTool::Exit { code }),
{
    if code == 0 {
        AfterTool::Relink
    } else {
        AfterTool::Exit { code }
    }
}

} // verus!
