//! Building the external invocation for one toolchain: pure data, no
//! process is spawned here.

use vstd::prelude::*;
use crate::cli::ActionOpt;

verus! {

/// A concrete external-process invocation: the program to start and its
/// arguments, in order. The working directory is chosen per checkout by
/// the caller.
pub struct Invocation {
    pub program: String,
    pub args: Vec<String>,
}

/// The two-character token that stands for the toolchain name in the
/// arguments of an `each` action.
pub open spec fn placeholder() -> Seq<char> {
    "{}"@
}

/// Each argument equal to the placeholder token is replaced by the
/// toolchain name; every other argument passes through unchanged.
pub open spec fn substitute_args(args: Seq<Seq<char>>, toolchain: Seq<char>) -> Seq<Seq<char>> {
    args.map_values(|a: Seq<char>| if a == placeholder() { toolchain } else { a })
}

/// The full argument list of a per-checkout command: the toolchain
/// front-end's `run` subcommand, the optional install flag, the toolchain,
/// optionally `cargo`, the utility or subcommand name, then the caller's
/// arguments (substituted when `replacements` is set).
pub open spec fn each_command_args(
    install: bool,
    toolchain: Seq<char>,
    cargo: bool,
    replacements: bool,
    utility: Seq<char>,
    args: Seq<Seq<char>>,
) -> Seq<Seq<char>> {
    let head = seq!["run"@];
    let head = if install { head.push("--install"@) } else { head };
    let head = head.push(toolchain);
    let head = if cargo { head.push("cargo"@) } else { head };
    let head = head.push(utility);
    head + (if replacements { substitute_args(args, toolchain) } else { args })
}

/// Build the invocation that runs `utility` under `toolchain` through the
/// toolchain front-end, substituting the placeholder token when asked to.
pub fn make_an_each_command(
    install: bool,
    toolchain: &String,
    cargo: bool,
    replacements: bool,
    utility: &String,
    args: &Vec<String>,
) -> (cmd: Invocation)
    ensures
        cmd.program@ == "rustup"@,
        cmd.args.deep_view() == each_command_args(
            install,
            toolchain@,
            cargo,
            replacements,
            utility@,
            args.deep_view(),
        ),
{
    let ghost head: Seq<Seq<char>> = {
        let head = seq!["run"@];
        let head = if install { head.push("--install"@) } else { head };
        let head = head.push(toolchain@);
        let head = if cargo { head.push("cargo"@) } else { head };
        head.push(utility@)
    };
    let mut out: Vec<String> = Vec::new();
    out.push(String::from_str("run"));
    if install {
        out.push(String::from_str("--install"));
    }
    out.push(toolchain.clone());
    if cargo {
        out.push(String::from_str("cargo"));
    }
    out.push(utility.clone());
    assert(out.deep_view() =~= head);
    assert(forall|j: int| 0 <= j < head.len() ==> out@[j]@ == head[j]);
    let ghost h = head.len();
    let ghost dv = args.deep_view();
    let ghost tail: Seq<Seq<char>> = if replacements {
        substitute_args(dv, toolchain@)
    } else {
        dv
    };

    let n = args.len();
    if replacements {
        let token = String::from_str("{}");
        assert(token@ == placeholder());
        let mut i: usize = 0;
        while i < n
            invariant
                n == args.len(),
                i <= n,
                token@ == placeholder(),
                dv == args.deep_view(),
                tail == substitute_args(dv, toolchain@),
                out@.len() == h + i,
                forall|j: int| 0 <= j < h ==> out@[j]@ == head[j],
                forall|j: int| 0 <= j < i ==> out@[h + j]@ == tail[j],
            decreases n - i,
        {
            proof {
                assert(dv[i as int] == args@[i as int]@);
            }
            if args[i] == token {
                out.push(toolchain.clone());
                assert(out@[h + i]@ == tail[i as int]);
            } else {
                out.push(args[i].clone());
                assert(out@[h + i]@ == tail[i as int]);
            }
            i = i + 1;
        }
    } else {
        let mut i: usize = 0;
        while i < n
            invariant
                n == args.len(),
                i <= n,
                dv == args.deep_view(),
                out@.len() == h + i,
                forall|j: int| 0 <= j < h ==> out@[j]@ == head[j],
                forall|j: int| 0 <= j < i ==> out@[h + j]@ == dv[j],
            decreases n - i,
        {
            out.push(args[i].clone());
            assert(out@[h + i]@ == dv[i as int]);
            i = i + 1;
        }
    }
    assert(out.deep_view() =~= head + tail);
    Invocation { program: String::from_str("rustup"), args: out }
}

/// What `command_from_action` produces: the print action yields no
/// invocation at all; every other action runs through the toolchain
/// front-end.
pub open spec fn spec_command_from_action(toolchain: Seq<char>, action: ActionOpt) -> Option<
    (Seq<char>, Seq<Seq<char>>),
> {
    match action {
        ActionOpt::CargoTest { install, test_args, .. } => Some(
            ("rustup"@, each_command_args(install, toolchain, true, false, "test"@, test_args.deep_view())),
        ),
        ActionOpt::CargoBuild { install, build_args, .. } => Some(
            ("rustup"@, each_command_args(install, toolchain, true, false, "build"@, build_args.deep_view())),
        ),
        ActionOpt::CargoAny { install, subcommand, args, .. } => Some(
            ("rustup"@, each_command_args(install, toolchain, true, false, subcommand@, args.deep_view())),
        ),
        ActionOpt::Each { install, utility, args, .. } => Some(
            ("rustup"@, each_command_args(install, toolchain, false, true, utility@, args.deep_view())),
        ),
        ActionOpt::Print => None,
    }
}

/// Build the concrete invocation for one toolchain, or nothing for the
/// print action, which bypasses the worker pool entirely.
pub fn command_from_action(toolchain: &String, action: &ActionOpt) -> (r: Option<Invocation>)
    ensures
        match spec_command_from_action(toolchain@, *action) {
            Some(pa) => {
                &&& r matches Some(inv)
                &&& (r matches Some(inv) ==> inv.program@ == pa.0 && inv.args.deep_view() == pa.1)
            },
            None => r is None,
        },
{
    match action {
        ActionOpt::CargoTest { install, test_args, .. } => Some(
            make_an_each_command(*install, toolchain, true, false, &String::from_str("test"), test_args),
        ),
        ActionOpt::CargoBuild { install, build_args, .. } => Some(
            make_an_each_command(*install, toolchain, true, false, &String::from_str("build"), build_args),
        ),
        ActionOpt::CargoAny { install, subcommand, args, .. } => Some(
            make_an_each_command(*install, toolchain, true, false, subcommand, args),
        ),
        ActionOpt::Each { install, utility, args, .. } => Some(
            make_an_each_command(*install, toolchain, false, true, utility, args),
        ),
        ActionOpt::Print => None,
    }
}

} // verus!
