//! Version control of the vault with Jujutsu (`jj`): the commands the
//! library runs and how their outcome is read.
use vstd::prelude::*;

use crate::error::OpenMemError;
use crate::text::{to_chars, trim, trim_range, string_of};

verus! {

fn strings2(a: &str, b: &str) -> (res: Vec<String>)
    ensures
        res.deep_view() == seq![a@, b@],
{
    let mut v: Vec<String> = Vec::new();
    v.push(String::from_str(a));
    v.push(String::from_str(b));
    assert(v.deep_view() =~= seq![a@, b@]);
    v
}

/// Initialize a new Jujutsu repository at the vault: the arguments of
/// `jj git init` (jj 0.38+ requires explicit git backend).
pub fn init() -> (res: Vec<String>)
    ensures
        res.deep_view() == seq!["git"@, "init"@],
{
    strings2("git", "init")
}

/// Snapshot the current vault state: the arguments of `jj status`, which
/// forces a snapshot of the working copy.
pub fn snapshot() -> (res: Vec<String>)
    ensures
        res.deep_view() == seq!["status"@],
{
    let mut v: Vec<String> = Vec::new();
    v.push(String::from_str("status"));
    assert(v.deep_view() =~= seq!["status"@]);
    v
}

/// The arguments of `jj log` for the change history, optionally filtered
/// to one node's file.
pub open spec fn log_args(node_path: Option<Seq<char>>) -> Seq<Seq<char>> {
    match node_path {
        Some(np) => seq!["log"@, "--no-pager"@, "--"@, np + ".md"@],
        None => seq!["log"@, "--no-pager"@],
    }
}

/// Show change history for the vault, optionally filtered to a specific
/// node: the arguments of the `jj log` that shows it.
pub fn log(node_path: Option<&str>) -> (res: Vec<String>)
    ensures
        res.deep_view() == log_args(
            match node_path {
                Some(np) => Some(np@),
                None => None,
            },
        ),
{
    let mut args = strings2("log", "--no-pager");
    match node_path {
        Some(np) => {
            let ghost old_dv = args.deep_view();
            let mut file = String::from_str(np);
            file.append(".md");
            args.push(String::from_str("--"));
            let ghost mid_dv = args.deep_view();
            assert(mid_dv =~= old_dv.push("--"@));
            args.push(file);
            assert(args.deep_view() =~= mid_dv.push(np@ + ".md"@));
            assert(args.deep_view() =~= log_args(Some(np@)));
        },
        None => {},
    }
    args
}

/// Show diff for a specific change: the arguments of the `jj diff` that shows it.
pub fn diff(change_id: &str) -> (res: Vec<String>)
    ensures
        res.deep_view() == seq!["diff"@, "--no-pager"@, "-r"@, change_id@],
{
    let mut args = strings2("diff", "--no-pager");
    let ghost d0 = args.deep_view();
    args.push(String::from_str("-r"));
    let ghost d1 = args.deep_view();
    assert(d1 =~= d0.push("-r"@));
    args.push(String::from_str(change_id));
    assert(args.deep_view() =~= d1.push(change_id@));
    assert(args.deep_view() =~= seq!["diff"@, "--no-pager"@, "-r"@, change_id@]);
    args
}

/// How a run of `jj` went.
#[derive(Debug)]
pub enum JjRun {
    /// The process could not be started; the text of the error.
    NotStarted(String),
    /// The process ran: whether it succeeded, and its output and error
    /// streams (read as UTF-8, invalid sequences replaced).
    Finished { success: bool, stdout: String, stderr: String },
}

/// What a run of `jj` with arguments `args` gives: its output when it
/// succeeded, else a `VcsError` that says which command failed and why.
pub open spec fn run_result(args: Seq<Seq<char>>, run: JjRun) -> Result<Seq<char>, Seq<char>> {
    match run {
        JjRun::NotStarted(e) => Err("failed to run jj: "@ + e@),
        JjRun::Finished { success, stdout, stderr } => if success {
            Ok(stdout@)
        } else {
            Err("jj "@ + (if args.len() > 0 {
                args[0]
            } else {
                Seq::empty()
            }) + " failed: "@ + trim(stderr@))
        },
    }
}

/// Read the outcome of a run of `jj` with the given arguments.
pub fn run_jj(args: &Vec<String>, run: JjRun) -> (res: Result<String, OpenMemError>)
    ensures
        match run_result(args.deep_view(), run) {
            Ok(out) => res matches Ok(s) && s@ == out,
            Err(msg) => res matches Err(OpenMemError::VcsError(m)) && m@ == msg,
        },
{
    match run {
        JjRun::NotStarted(e) => {
            let mut m = String::from_str("failed to run jj: ");
            m.append(e.as_str());
            Err(OpenMemError::VcsError(m))
        },
        JjRun::Finished { success, stdout, stderr } => {
            if success {
                Ok(stdout)
            } else {
                let mut m = String::from_str("jj ");
                if args.len() > 0 {
                    assert(args.deep_view()[0] == args@[0]@);
                    m.append(args[0].as_str());
                }
                m.append(" failed: ");
                let cs = to_chars(stderr.as_str());
                let n = cs.len();
                assert(cs@.subrange(0, n as int) =~= cs@);
                let (a, b) = trim_range(&cs, 0, n);
                let t = string_of(&cs, a, b);
                m.append(t.as_str());
                Err(OpenMemError::VcsError(m))
            }
        },
    }
}

} // verus!
