use pando::cargo::CargoMetadata;
use pando::cli::ActionOpt;
use pando::cli::Opts;
use pando::command::{command_from_action, make_an_each_command};
use pando::copy::{check_entries, copy_repo, copy_tree, do_copy, get_all_copy_targets, Entry, FsNode, Tree};
use pando::decimal::{i32_to_string, u64_to_string};
use pando::outcome::{aggregate, exit_code, outcome_of_status, run_cmd, Outcome};
use pando::program::{
    checkout_error_message, checkout_index, checkout_source_of, copy_error_message,
    copying_message, longest_toolchain_len, make_checkouts, opts_to_program, pass_through,
    toolchain_selection, ToolchainSelection,
};
use pando::runner::{append_line, merge_streams, render_log_lines, stderr_status};
use pando::schedule::{
    effective_worker_count, fail_acquire, finish_run, mark_ready, run_to_completion,
    start_acquire, start_run, worker_count, EnvState,
};
use pando::toolchains::{get_installed_toolchains, get_toolchains_from_travis, split_lines, TravisConfig};

fn strings(items: &[&str]) -> Vec<String> {
    items.iter().map(|s| s.to_string()).collect()
}

#[test]
fn placeholder_substitution() {
    let action = ActionOpt::Each {
        install: false,
        jobs: None,
        utility: "foo_util".to_string(),
        args: strings(&["{}", "foo", "{}"]),
    };
    let inv = command_from_action(&"stable".to_string(), &action).unwrap();
    assert_eq!(inv.program, "rustup");
    assert_eq!(
        inv.args,
        strings(&["run", "stable", "foo_util", "stable", "foo", "stable"])
    );
}

#[test]
fn each_command_with_install_and_cargo() {
    let inv = make_an_each_command(
        true,
        &"beta".to_string(),
        true,
        false,
        &"test".to_string(),
        &strings(&["--lib", "{}"]),
    );
    assert_eq!(inv.program, "rustup");
    // without replacements the placeholder token passes through verbatim
    assert_eq!(
        inv.args,
        strings(&["run", "--install", "beta", "cargo", "test", "--lib", "{}"])
    );
}

#[test]
fn cargo_test_and_build_commands() {
    let test = ActionOpt::CargoTest {
        install: false,
        jobs: None,
        test_args: strings(&["--all"]),
    };
    let inv = command_from_action(&"stable".to_string(), &test).unwrap();
    assert_eq!(inv.args, strings(&["run", "stable", "cargo", "test", "--all"]));

    let build = ActionOpt::CargoBuild {
        install: true,
        jobs: Some(2),
        build_args: strings(&[]),
    };
    let inv = command_from_action(&"1.31.0".to_string(), &build).unwrap();
    assert_eq!(
        inv.args,
        strings(&["run", "--install", "1.31.0", "cargo", "build"])
    );

    let any = ActionOpt::CargoAny {
        install: false,
        jobs: None,
        subcommand: "doc".to_string(),
        args: strings(&["--no-deps"]),
    };
    let inv = command_from_action(&"nightly".to_string(), &any).unwrap();
    assert_eq!(
        inv.args,
        strings(&["run", "nightly", "cargo", "doc", "--no-deps"])
    );
}

#[test]
fn print_action_builds_no_command() {
    assert!(command_from_action(&"stable".to_string(), &ActionOpt::Print).is_none());
}

#[test]
fn action_flags() {
    let each = ActionOpt::Each {
        install: false,
        jobs: Some(7),
        utility: "true".to_string(),
        args: vec![],
    };
    assert_eq!(each.job_count(), Some(7));
    assert!(each.uses_progress_bars());
    assert!(each.uses_workers());

    assert_eq!(ActionOpt::Print.job_count(), Some(0));
    assert!(!ActionOpt::Print.uses_progress_bars());
    assert!(!ActionOpt::Print.uses_workers());

    let test = ActionOpt::CargoTest {
        install: false,
        jobs: None,
        test_args: vec![],
    };
    assert_eq!(test.job_count(), None);
}

#[test]
fn worker_counts() {
    // eight environments on four logical CPUs: four workers
    assert_eq!(worker_count(8, None, 4), 4);
    // two environments on four logical CPUs: two workers
    assert_eq!(worker_count(2, None, 4), 2);
    assert_eq!(worker_count(8, Some(3), 4), 3);
    assert_eq!(worker_count(0, None, 4), 0);

    let capped = ActionOpt::CargoTest {
        install: false,
        jobs: Some(3),
        test_args: vec![],
    };
    assert_eq!(effective_worker_count(8, &capped), 3);
    assert_eq!(effective_worker_count(2, &capped), 2);
}

#[test]
fn outcome_classification() {
    assert!(matches!(outcome_of_status(true, Some(0)), Outcome::Success));
    assert!(matches!(
        outcome_of_status(false, Some(3)),
        Outcome::ProcessFailure { code: Some(3) }
    ));
    assert!(matches!(
        outcome_of_status(false, None),
        Outcome::ProcessFailure { code: None }
    ));
}

#[test]
fn one_failure_fails_the_run() {
    // a process that exits with code 3 fails the whole run even when every
    // other environment succeeds
    let outcomes = vec![
        Outcome::Success,
        Outcome::ProcessFailure { code: Some(3) },
        Outcome::Success,
    ];
    assert!(!aggregate(true, &outcomes));
    assert_eq!(exit_code(aggregate(true, &outcomes)), 1);

    let all_good = vec![Outcome::Success, Outcome::Success];
    assert!(aggregate(true, &all_good));
    assert_eq!(exit_code(true), 0);

    // acquisition failure alone also fails the run
    assert!(!aggregate(false, &all_good));
    // no environments at all: the acquisition flag decides
    assert!(aggregate(true, &vec![]));
}

#[test]
fn terminal_messages() {
    let out = "/tmp/pando/stable/output".to_string();
    let (ok, msg) = run_cmd(&Outcome::Success, &out);
    assert!(ok);
    assert_eq!(msg, "success");

    let (ok, msg) = run_cmd(&Outcome::ProcessFailure { code: Some(3) }, &out);
    assert!(!ok);
    assert_eq!(
        msg,
        "failure: status 3. Check output in /tmp/pando/stable/output"
    );

    let (ok, msg) = run_cmd(&Outcome::ProcessFailure { code: None }, &out);
    assert!(!ok);
    assert_eq!(
        msg,
        "failure: status unknown. Check output in /tmp/pando/stable/output"
    );

    let (ok, msg) = run_cmd(
        &Outcome::SpawnFailure {
            message: "no such file".to_string(),
        },
        &out,
    );
    assert!(!ok);
    assert_eq!(msg, "failure: no such file");
}

#[test]
fn decimal_rendering() {
    assert_eq!(u64_to_string(0), "0");
    assert_eq!(u64_to_string(7), "7");
    assert_eq!(u64_to_string(120), "120");
    assert_eq!(u64_to_string(u64::MAX), "18446744073709551615");
    assert_eq!(i32_to_string(0), "0");
    assert_eq!(i32_to_string(42), "42");
    assert_eq!(i32_to_string(-3), "-3");
    assert_eq!(i32_to_string(i32::MIN), "-2147483648");
    assert_eq!(i32_to_string(i32::MAX), "2147483647");
}

#[test]
fn log_preserves_every_line() {
    // three lines on standard output, two on standard error, merged in one
    // arrival order: the log holds exactly five lines and the run is a
    // success
    let stdout_lines = strings(&["a", "b", "done"]);
    let stderr_lines = strings(&["compiling", "warning: x"]);
    let arrivals = vec![false, false, true, true, true];
    let merged = merge_streams(&stdout_lines, &stderr_lines, &arrivals);
    assert_eq!(merged, strings(&["compiling", "warning: x", "a", "b", "done"]));
    let log = render_log_lines(&merged);
    assert_eq!(log, "compiling\nwarning: x\na\nb\ndone\n");
    assert_eq!(log.lines().count(), 5);
    assert!(matches!(outcome_of_status(true, Some(0)), Outcome::Success));

    // another arrival order: the same five lines, each stream in its order
    let merged = merge_streams(&stdout_lines, &stderr_lines, &vec![true, false, true, false, true]);
    assert_eq!(merged, strings(&["a", "compiling", "b", "warning: x", "done"]));
}

#[test]
fn empty_inputs() {
    // no lines: an empty log
    assert_eq!(render_log_lines(&vec![]), "");
    // no captured entries: copying changes nothing
    let mut tree = Tree::new();
    copy_tree(&mut tree, &vec![]);
    assert_eq!(tree.path_count(), 0);
    assert!(check_entries(&vec![]));
    // a worker pool sized for no environments
    let none = ActionOpt::CargoTest { install: false, jobs: None, test_args: vec![] };
    assert_eq!(effective_worker_count(0, &none), 0);
    let some = effective_worker_count(5, &none);
    assert!(some >= 1 && some <= 5);
}

#[test]
fn append_line_adds_newline() {
    let mut log = String::new();
    append_line(&mut log, &"one".to_string());
    append_line(&mut log, &"two".to_string());
    assert_eq!(log, "one\ntwo\n");
}

#[test]
fn stderr_status_trims_and_skips_blank() {
    assert_eq!(
        stderr_status(&"   Compiling foo   ".to_string()),
        Some("testing: Compiling foo".to_string())
    );
    assert_eq!(stderr_status(&"x".to_string()), Some("testing: x".to_string()));
    assert_eq!(stderr_status(&"".to_string()), None);
    assert_eq!(stderr_status(&"   \t ".to_string()), None);
}

#[test]
fn every_record_ends_terminal() {
    let acq = vec![
        Ok(()),
        Err("checkout error: denied".to_string()),
        Ok(()),
    ];
    let outcomes = vec![
        Outcome::Success,
        Outcome::Success,
        Outcome::ProcessFailure { code: Some(2) },
    ];
    let (states, overall) = run_to_completion(acq, &outcomes);
    assert_eq!(states.len(), 3);
    for s in &states {
        assert!(matches!(s, EnvState::Terminal { .. }));
    }
    assert!(!overall);
    assert!(matches!(
        &states[1],
        EnvState::Terminal {
            outcome: Outcome::AcquisitionFailure { .. }
        }
    ));

    let (states, overall) = run_to_completion(vec![Ok(()), Ok(())], &vec![
        Outcome::Success,
        Outcome::Success,
    ]);
    assert!(overall);
    for s in &states {
        assert!(matches!(
            s,
            EnvState::Terminal {
                outcome: Outcome::Success
            }
        ));
    }
}

#[test]
fn state_machine_walks_forward() {
    let mut s = EnvState::Pending;
    start_acquire(&mut s);
    assert!(matches!(s, EnvState::Acquiring));
    mark_ready(&mut s);
    assert!(matches!(s, EnvState::Queued));
    start_run(&mut s);
    assert!(matches!(s, EnvState::Running));
    finish_run(&mut s, Outcome::Success);
    assert!(matches!(
        s,
        EnvState::Terminal {
            outcome: Outcome::Success
        }
    ));

    let mut f = EnvState::Pending;
    start_acquire(&mut f);
    fail_acquire(&mut f, "disk full".to_string());
    assert!(matches!(
        f,
        EnvState::Terminal {
            outcome: Outcome::AcquisitionFailure { .. }
        }
    ));
}

#[test]
fn pass_through_reports_all_ready_in_order() {
    let checkouts = make_checkouts(&strings(&["stable", "beta", "nightly"]), &"t/pando".to_string());
    let (ok, ready) = pass_through(&checkouts);
    assert!(ok);
    assert_eq!(ready, vec![0, 1, 2]);
}

#[test]
fn acquisition_reduction() {
    let results: Vec<Result<(), String>> = vec![
        Ok(()),
        Err("checkout error: conflict".to_string()),
        Ok(()),
    ];
    let (all, ready) = checkout_index(&results);
    assert!(!all);
    assert_eq!(ready, vec![0, 2]);

    let results: Vec<Result<(), String>> = vec![Ok(()), Ok(())];
    let (all, ready) = checkout_index(&results);
    assert!(all);
    assert_eq!(ready, vec![0, 1]);
}

#[test]
fn checkout_paths_follow_convention() {
    let cs = make_checkouts(&strings(&["stable", "1.31.0"]), &"proj/target/pando".to_string());
    assert_eq!(cs.len(), 2);
    assert_eq!(cs[0].toolchain, "stable");
    assert_eq!(cs[0].working_dir, "proj/target/pando/stable/working_dir");
    assert_eq!(cs[0].output, "proj/target/pando/stable/output");
    assert_eq!(cs[1].working_dir, "proj/target/pando/1.31.0/working_dir");
    assert_eq!(cs[1].output, "proj/target/pando/1.31.0/output");
}

#[test]
fn program_assembly() {
    let opts = Opts {
        index: true,
        copy: false,
        no_copy: false,
        toolchain: strings(&["stable"]),
        all: false,
        action: ActionOpt::Print,
    };
    let p = opts_to_program(
        opts,
        strings(&["stable"]),
        CargoMetadata {
            target_directory: "/proj/target".to_string(),
        },
    );
    assert_eq!(p.checkout_source.description(), "Checking out index");
    assert_eq!(p.base_dir(), "/proj/target/pando");
    assert!(p.check_toolchains().is_ok());

    let empty = opts_to_program(
        Opts {
            index: false,
            copy: false,
            no_copy: true,
            toolchain: vec![],
            all: false,
            action: ActionOpt::Print,
        },
        vec![],
        CargoMetadata {
            target_directory: "t".to_string(),
        },
    );
    assert_eq!(empty.checkout_source.description(), "Using existing checkouts");
    assert_eq!(empty.check_toolchains(), Err("no toolchains found".to_string()));

    assert_eq!(
        checkout_source_of(false, false).description(),
        "Copying current directory"
    );
}

#[test]
fn toolchain_selection_precedence() {
    assert!(matches!(toolchain_selection(true, 5), ToolchainSelection::AllInstalled));
    assert!(matches!(toolchain_selection(false, 2), ToolchainSelection::Listed));
    assert!(matches!(toolchain_selection(false, 0), ToolchainSelection::FromTravis));
}

#[test]
fn longest_label() {
    assert_eq!(longest_toolchain_len(&strings(&["a", "abc", "ab"])), 3);
    assert_eq!(longest_toolchain_len(&strings(&["x"])), 1);
}

#[test]
fn travis_toolchains_require_rust() {
    let ok = get_toolchains_from_travis(TravisConfig {
        language: "rust".to_string(),
        rust: strings(&["stable", "nightly"]),
    });
    assert_eq!(ok, Ok(strings(&["stable", "nightly"])));

    let err = get_toolchains_from_travis(TravisConfig {
        language: "go".to_string(),
        rust: vec![],
    });
    assert_eq!(err, Err("travis config was for 'go', not 'rust'".to_string()));
}

#[test]
fn installed_toolchains_drop_default() {
    let listing = "nightly-x86_64-unknown-linux-gnu\n\
                   stable-x86_64-unknown-linux-gnu (default)\n\
                   beta-x86_64-unknown-linux-gnu\n";
    assert_eq!(
        get_installed_toolchains(listing),
        strings(&[
            "nightly-x86_64-unknown-linux-gnu",
            "beta-x86_64-unknown-linux-gnu",
        ])
    );
    assert_eq!(get_installed_toolchains(""), Vec::<String>::new());
}

#[test]
fn line_splitting() {
    assert_eq!(split_lines(""), Vec::<String>::new());
    assert_eq!(split_lines("a"), strings(&["a"]));
    assert_eq!(split_lines("a\n"), strings(&["a"]));
    assert_eq!(split_lines("a\r\nb\n\nc"), strings(&["a", "b", "", "c"]));
    // a carriage return not followed by a newline is no line ending
    assert_eq!(split_lines("a\rb\n"), strings(&["a\rb"]));
    assert_eq!(split_lines("a\r"), strings(&["a\r"]));
}

#[test]
fn progress_and_error_messages() {
    assert_eq!(copying_message(0, 10), "copying file 1 of 10");
    assert_eq!(copying_message(9, 10), "copying file 10 of 10");
    assert_eq!(
        checkout_error_message(&"conflict".to_string()),
        "checkout error: conflict"
    );
    assert_eq!(copy_error_message(&"src/lib.rs".to_string()), "error copying src/lib.rs");
}

fn sample_entries() -> Vec<Entry> {
    vec![
        Entry {
            path: b"Cargo.toml".to_vec(),
            node: FsNode::File {
                content: b"[package]".to_vec(),
            },
        },
        Entry {
            path: b"src".to_vec(),
            node: FsNode::Dir,
        },
        Entry {
            path: b"src/lib.rs".to_vec(),
            node: FsNode::File {
                content: b"fn lib() {}".to_vec(),
            },
        },
    ]
}

fn assert_matches_sample(tree: &Tree) {
    assert_eq!(tree.path_count(), 3);
    match tree.lookup(&b"src".to_vec()) {
        Some(FsNode::Dir) => {}
        _ => panic!("src should be a directory"),
    }
    match tree.lookup(&b"src/lib.rs".to_vec()) {
        Some(FsNode::File { content }) => assert_eq!(content, &b"fn lib() {}".to_vec()),
        _ => panic!("src/lib.rs should be a file"),
    }
    match tree.lookup(&b"Cargo.toml".to_vec()) {
        Some(FsNode::File { content }) => assert_eq!(content, &b"[package]".to_vec()),
        _ => panic!("Cargo.toml should be a file"),
    }
    assert!(tree.lookup(&b"src/main.rs".to_vec()).is_none());
}

#[test]
fn copy_round_trip_is_idempotent() {
    let entries = sample_entries();
    assert!(check_entries(&entries));

    // first copy: the destination does not yet exist
    let mut tree = Tree::new();
    copy_tree(&mut tree, &entries);
    assert_matches_sample(&tree);

    // second copy onto the result: same tree again
    copy_tree(&mut tree, &entries);
    assert_matches_sample(&tree);
}

#[test]
fn copy_replaces_stale_entries() {
    // a stale file where the source has a directory, with a leftover file
    // under it from an earlier run
    let mut tree = Tree::new();
    tree.set_node(b"src".to_vec(), FsNode::Dir);
    tree.set_node(
        b"src/old.rs".to_vec(),
        FsNode::File {
            content: b"stale".to_vec(),
        },
    );
    tree.set_node(
        b"Cargo.toml".to_vec(),
        FsNode::File {
            content: b"old manifest".to_vec(),
        },
    );

    // replacing the src directory clears everything under it
    let entries = sample_entries();
    copy_tree(&mut tree, &entries);
    assert_matches_sample(&tree);
    assert!(tree.lookup(&b"src/old.rs".to_vec()).is_none());
}

#[test]
fn do_copy_kind_changes() {
    // file where a directory stood: the subtree goes away
    let mut tree = Tree::new();
    tree.set_node(b"x".to_vec(), FsNode::Dir);
    tree.set_node(b"x/y".to_vec(), FsNode::File { content: b"1".to_vec() });
    do_copy(
        &Entry {
            path: b"x".to_vec(),
            node: FsNode::File { content: b"2".to_vec() },
        },
        &mut tree,
    );
    match tree.lookup(&b"x".to_vec()) {
        Some(FsNode::File { content }) => assert_eq!(content, &b"2".to_vec()),
        _ => panic!("x should now be a file"),
    }
    assert!(tree.lookup(&b"x/y".to_vec()).is_none());

    // directory where a file stood
    let mut tree = Tree::new();
    tree.set_node(b"d".to_vec(), FsNode::File { content: b"f".to_vec() });
    do_copy(
        &Entry {
            path: b"d".to_vec(),
            node: FsNode::Dir,
        },
        &mut tree,
    );
    assert!(matches!(tree.lookup(&b"d".to_vec()), Some(FsNode::Dir)));
    assert_eq!(tree.path_count(), 1);
}

#[test]
fn capture_describes_the_tree_ancestors_first() {
    // build a source tree, capture it, and copy the capture elsewhere:
    // the destination then matches the source
    let mut source = Tree::new();
    copy_tree(&mut source, &sample_entries());
    let captured = get_all_copy_targets(&source);
    assert_eq!(captured.len(), 3);
    assert!(check_entries(&captured));

    let mut dest = Tree::new();
    copy_tree(&mut dest, &captured);
    assert_matches_sample(&dest);
}

#[test]
fn copy_repo_fills_every_checkout() {
    let entries = sample_entries();
    let trees = vec![Tree::new(), Tree::new()];
    let (trees, ok) = copy_repo(trees, &entries);
    assert!(ok);
    assert_eq!(trees.len(), 2);
    for tree in &trees {
        assert_matches_sample(tree);
    }
}

#[test]
fn entry_capture_order_is_checked() {
    assert!(check_entries(&sample_entries()));

    // a child listed before its parent directory is refused
    let child_first = vec![
        Entry {
            path: b"src/lib.rs".to_vec(),
            node: FsNode::File { content: vec![] },
        },
        Entry {
            path: b"src".to_vec(),
            node: FsNode::Dir,
        },
    ];
    assert!(!check_entries(&child_first));

    // a duplicated path is refused
    let duplicated = vec![
        Entry {
            path: b"a".to_vec(),
            node: FsNode::Dir,
        },
        Entry {
            path: b"a".to_vec(),
            node: FsNode::Dir,
        },
    ];
    assert!(!check_entries(&duplicated));

    // sibling names that merely share a prefix are fine in any order
    let prefix_siblings = vec![
        Entry {
            path: b"srcfoo".to_vec(),
            node: FsNode::File { content: vec![] },
        },
        Entry {
            path: b"src".to_vec(),
            node: FsNode::Dir,
        },
    ];
    assert!(check_entries(&prefix_siblings));
}
