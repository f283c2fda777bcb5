//! The run as a whole: the per-toolchain checkout records and their
//! on-disk locations, the choice of checkout source, and the reduction of
//! per-record acquisition results.

use vstd::prelude::*;
use crate::cargo::CargoMetadata;
use crate::cli::{ActionOpt, Opts};
use crate::decimal::{dec_digits, u64_to_string};

verus! {

/// A ready-to-go copy of the repository for one toolchain, with the paths
/// that belong to it alone. The progress sink paired with a record is a
/// capability of the surrounding program, not of the library.
pub struct Checkout {
    /// The toolchain label; unique within a run.
    pub toolchain: String,
    /// The directory the per-toolchain process runs in; exclusive to this
    /// record.
    pub working_dir: String,
    /// The per-toolchain log file; exclusive to this record.
    pub output: String,
}

/// The directory of one toolchain's checkout under the base directory.
pub open spec fn checkout_dir_of(base: Seq<char>, toolchain: Seq<char>) -> Seq<char> {
    base + "/"@ + toolchain
}

/// Where one toolchain's process runs.
pub open spec fn working_dir_of(base: Seq<char>, toolchain: Seq<char>) -> Seq<char> {
    checkout_dir_of(base, toolchain) + "/working_dir"@
}

/// Where one toolchain's merged process output is written.
pub open spec fn output_of(base: Seq<char>, toolchain: Seq<char>) -> Seq<char> {
    checkout_dir_of(base, toolchain) + "/output"@
}

fn join_path(base: &String, name: &String) -> (r: String)
    ensures
        r@ == base@ + "/"@ + name@,
{
    let mut r = base.clone();
    r.append("/");
    r.append(name.as_str());
    proof {
        assert(r@ =~= base@ + "/"@ + name@);
    }
    r
}

/// Construct the records for a run: one per toolchain, in input order,
/// with the conventional paths under the base directory.
pub fn make_checkouts(toolchains: &Vec<String>, base: &String) -> (cs: Vec<Checkout>)
    ensures
        cs@.len() == toolchains@.len(),
        forall|i: int|
            0 <= i < cs@.len() ==> {
                &&& (#[trigger] cs@[i]).toolchain@ == toolchains@[i]@
                &&& cs@[i].working_dir@ == working_dir_of(base@, toolchains@[i]@)
                &&& cs@[i].output@ == output_of(base@, toolchains@[i]@)
            },
{
    let mut cs: Vec<Checkout> = Vec::new();
    let n = toolchains.len();
    let mut i: usize = 0;
    while i < n
        invariant
            n == toolchains@.len(),
            i <= n,
            cs@.len() == i,
            forall|j: int|
                0 <= j < i ==> {
                    &&& (#[trigger] cs@[j]).toolchain@ == toolchains@[j]@
                    &&& cs@[j].working_dir@ == working_dir_of(base@, toolchains@[j]@)
                    &&& cs@[j].output@ == output_of(base@, toolchains@[j]@)
                },
        decreases n - i,
    {
        let dir = join_path(base, &toolchains[i]);
        let mut working_dir = dir.clone();
        working_dir.append("/working_dir");
        let mut output = dir;
        output.append("/output");
        cs.push(Checkout { toolchain: toolchains[i].clone(), working_dir, output });
        i = i + 1;
    }
    cs
}

/// Appending the same text to two texts yields equal results only from
/// equal starts.
proof fn lemma_append_right_cancel(a: Seq<char>, b: Seq<char>, s: Seq<char>)
    requires
        a + s == b + s,
    ensures
        a == b,
{
    assert((a + s).len() == a.len() + s.len());
    assert((b + s).len() == b.len() + s.len());
    assert(a.len() == b.len());
    assert forall|k: int| 0 <= k < a.len() implies a[k] == b[k] by {
        assert((a + s)[k] == a[k]);
        assert((b + s)[k] == b[k]);
    }
    assert(a =~= b);
}

/// Two toolchains' paths never collide: distinct toolchains give distinct
/// working directories and distinct log paths, and no record's working
/// directory is any record's log path.
pub proof fn lemma_checkout_paths_distinct(base: Seq<char>, t1: Seq<char>, t2: Seq<char>)
    ensures
        t1 != t2 ==> working_dir_of(base, t1) != working_dir_of(base, t2),
        t1 != t2 ==> output_of(base, t1) != output_of(base, t2),
        working_dir_of(base, t1) != output_of(base, t2),
{
    reveal_strlit("/working_dir");
    reveal_strlit("/output");
    reveal_strlit("/");
    if working_dir_of(base, t1) == working_dir_of(base, t2) {
        lemma_append_right_cancel(checkout_dir_of(base, t1), checkout_dir_of(base, t2), "/working_dir"@);
        assert forall|k: int| 0 <= k < t1.len() implies t1[k] == t2[k] by {
            assert(checkout_dir_of(base, t1)[base.len() + 1 + k] == t1[k]);
            assert(checkout_dir_of(base, t2)[base.len() + 1 + k] == t2[k]);
        }
        assert(t1 =~= t2);
    }
    if output_of(base, t1) == output_of(base, t2) {
        lemma_append_right_cancel(checkout_dir_of(base, t1), checkout_dir_of(base, t2), "/output"@);
        assert forall|k: int| 0 <= k < t1.len() implies t1[k] == t2[k] by {
            assert(checkout_dir_of(base, t1)[base.len() + 1 + k] == t1[k]);
            assert(checkout_dir_of(base, t2)[base.len() + 1 + k] == t2[k]);
        }
        assert(t1 =~= t2);
    }
    if working_dir_of(base, t1) == output_of(base, t2) {
        let w = working_dir_of(base, t1);
        let o = output_of(base, t2);
        assert(w[w.len() - 1] == 'r');
        assert(o[o.len() - 1] == 't');
    }
}

/// The record invariant of a run: with unique toolchain labels, all the
/// records' working directories and log paths are pairwise disjoint.
pub proof fn lemma_records_disjoint(base: Seq<char>, ts: Seq<Seq<char>>)
    requires
        forall|i: int, j: int| 0 <= i < j < ts.len() ==> ts[i] != ts[j],
    ensures
        forall|i: int, j: int|
            0 <= i < ts.len() && 0 <= j < ts.len() && i != j ==> working_dir_of(base, ts[i])
                != working_dir_of(base, ts[j]) && output_of(base, ts[i]) != output_of(
                base,
                ts[j],
            ),
        forall|i: int, j: int|
            0 <= i < ts.len() && 0 <= j < ts.len() ==> working_dir_of(base, ts[i]) != output_of(
                base,
                ts[j],
            ),
{
    assert forall|i: int, j: int|
        0 <= i < ts.len() && 0 <= j < ts.len() && i != j implies working_dir_of(base, ts[i])
        != working_dir_of(base, ts[j]) && output_of(base, ts[i]) != output_of(base, ts[j]) by {
        lemma_checkout_paths_distinct(base, ts[i], ts[j]);
    }
    assert forall|i: int, j: int|
        0 <= i < ts.len() && 0 <= j < ts.len() implies working_dir_of(base, ts[i]) != output_of(
        base,
        ts[j],
    ) by {
        lemma_checkout_paths_distinct(base, ts[i], ts[j]);
    }
}

/// How each checkout's working directory is populated.
pub enum CheckoutSource {
    /// Copy the source tree and the two manifest files.
    TreeCopy,
    /// Materialize the repository's staged content.
    Index,
    /// Use whatever already exists on disk.
    Existing,
}

/// The checkout source chosen by the flags: the index flag wins, then the
/// no-copy flag; copying is the default.
pub fn checkout_source_of(index: bool, no_copy: bool) -> (r: CheckoutSource)
    ensures
        index ==> r is Index,
        !index && no_copy ==> r is Existing,
        !index && !no_copy ==> r is TreeCopy,
{
    if index {
        CheckoutSource::Index
    } else if no_copy {
        CheckoutSource::Existing
    } else {
        CheckoutSource::TreeCopy
    }
}

impl CheckoutSource {
    /// The human-readable name of the source, announced once per run.
    pub fn description(&self) -> (r: &'static str)
        ensures
            match self {
                CheckoutSource::TreeCopy => r@ == "Copying current directory"@,
                CheckoutSource::Index => r@ == "Checking out index"@,
                CheckoutSource::Existing => r@ == "Using existing checkouts"@,
            },
    {
        match self {
            CheckoutSource::TreeCopy => "Copying current directory",
            CheckoutSource::Index => "Checking out index",
            CheckoutSource::Existing => "Using existing checkouts",
        }
    }
}

/// The pass-through source: every record is ready at once, in input order,
/// and the phase reports overall success. This variant does no filesystem
/// work at all: the whole decision is the verified bookkeeping below.
pub fn pass_through(checkouts: &Vec<Checkout>) -> (r: (bool, Vec<usize>))
    ensures
        r.0 == true,
        r.1@.len() == checkouts@.len(),
        forall|k: int| 0 <= k < r.1@.len() ==> r.1@[k] as int == k,
{
    let mut ready: Vec<usize> = Vec::new();
    let n = checkouts.len();
    let mut i: usize = 0;
    while i < n
        invariant
            i <= n,
            ready@.len() == i,
            forall|k: int| 0 <= k < i ==> ready@[k] as int == k,
        decreases n - i,
    {
        ready.push(i);
        i = i + 1;
    }
    (true, ready)
}

/// The indices whose acquisition succeeded, in input order: the records
/// handed to the worker queue.
pub open spec fn ok_indices(results: Seq<Result<(), String>>) -> Seq<usize>
    decreases results.len(),
{
    if results.len() == 0 {
        Seq::<usize>::empty()
    } else {
        ok_indices(results.drop_last()) + (if results.last() is Ok {
            seq![(results.len() - 1) as usize]
        } else {
            Seq::<usize>::empty()
        })
    }
}

/// Reduce per-record acquisition results: a record that became ready is
/// accepted, in input order; a failed record is only reported; the phase's
/// overall flag is true exactly when every record became ready. No failure
/// aborts the other records.
pub fn checkout_index(results: &Vec<Result<(), String>>) -> (r: (bool, Vec<usize>))
    ensures
        r.0 == (forall|i: int| 0 <= i < results@.len() ==> results@[i] is Ok),
        r.1@ == ok_indices(results@),
{
    let mut ready: Vec<usize> = Vec::new();
    let mut all: bool = true;
    let n = results.len();
    let mut i: usize = 0;
    while i < n
        invariant
            n == results@.len(),
            i <= n,
            all == (forall|j: int| 0 <= j < i ==> results@[j] is Ok),
            ready@ == ok_indices(results@.take(i as int)),
        decreases n - i,
    {
        let here_ok = match &results[i] {
            Ok(_) => true,
            Err(_) => false,
        };
        if here_ok {
            ready.push(i);
        }
        all = all && here_ok;
        proof {
            assert(results@.take(i + 1).drop_last() =~= results@.take(i as int));
            assert(results@.take(i + 1).last() == results@[i as int]);
            if here_ok {
                assert(ready@ =~= ok_indices(results@.take(i as int)) + seq![i]);
            } else {
                assert(ready@ =~= ok_indices(results@.take(i as int)) + Seq::<usize>::empty());
            }
        }
        i = i + 1;
    }
    proof {
        assert(results@.take(n as int) =~= results@);
    }
    (all, ready)
}

/// The per-record message for a failed index checkout.
pub fn checkout_error_message(error: &String) -> (r: String)
    ensures
        r@ == "checkout error: "@ + error@,
{
    let mut m = String::from_str("checkout error: ");
    m.append(error.as_str());
    m
}

/// The per-record message for a failed copy, naming the failing path.
pub fn copy_error_message(path_text: &String) -> (r: String)
    ensures
        r@ == "error copying "@ + path_text@,
{
    let mut m = String::from_str("error copying ");
    m.append(path_text.as_str());
    m
}

/// The per-file progress message of the copying source.
pub fn copying_message(index: usize, file_count: usize) -> (r: String)
    requires
        index < file_count,
    ensures
        r@ == "copying file "@ + dec_digits((index + 1) as nat) + " of "@ + dec_digits(
            file_count as nat,
        ),
{
    let mut m = String::from_str("copying file ");
    m.append(u64_to_string((index + 1) as u64).as_str());
    m.append(" of ");
    m.append(u64_to_string(file_count as u64).as_str());
    m
}

/// Which list of toolchains a run targets.
pub enum ToolchainSelection {
    /// Every installed toolchain except the current default.
    AllInstalled,
    /// The toolchains listed on the command line.
    Listed,
    /// The toolchains of the CI configuration file.
    FromTravis,
}

/// The precedence of the toolchain flags: the all flag wins; otherwise an
/// explicit list; otherwise the CI configuration.
pub fn toolchain_selection(all: bool, listed_count: usize) -> (r: ToolchainSelection)
    ensures
        all ==> r is AllInstalled,
        !all && listed_count > 0 ==> r is Listed,
        !all && listed_count == 0 ==> r is FromTravis,
{
    if all {
        ToolchainSelection::AllInstalled
    } else if listed_count > 0 {
        ToolchainSelection::Listed
    } else {
        ToolchainSelection::FromTravis
    }
}

/// The parsed-and-resolved program: the options with every outside lookup
/// already performed.
pub struct Program {
    pub toolchains: Vec<String>,
    pub checkout_source: CheckoutSource,
    pub action: ActionOpt,
    pub cargo_metadata: CargoMetadata,
}

/// Assemble the program from the options, the resolved toolchain list and
/// the project metadata.
pub fn opts_to_program(opts: Opts, toolchains: Vec<String>, cargo_metadata: CargoMetadata) -> (p:
    Program)
    ensures
        p.toolchains == toolchains,
        p.action == opts.action,
        p.cargo_metadata == cargo_metadata,
        opts.index ==> p.checkout_source is Index,
        !opts.index && opts.no_copy ==> p.checkout_source is Existing,
        !opts.index && !opts.no_copy ==> p.checkout_source is TreeCopy,
{
    let checkout_source = checkout_source_of(opts.index, opts.no_copy);
    Program { toolchains, checkout_source, action: opts.action, cargo_metadata }
}

impl Program {
    /// The base directory of all checkouts: the build-output directory's
    /// `pando` subdirectory.
    pub fn base_dir(&self) -> (r: String)
        ensures
            r@ == self.cargo_metadata.target_directory@ + "/pando"@,
    {
        let mut r = self.cargo_metadata.target_directory.clone();
        r.append("/pando");
        r
    }

    /// A run needs at least one toolchain.
    pub fn check_toolchains(&self) -> (r: Result<(), String>)
        ensures
            r is Ok <==> self.toolchains@.len() > 0,
            r matches Err(m) ==> m@ == "no toolchains found"@,
    {
        if self.toolchains.len() == 0 {
            Err(String::from_str("no toolchains found"))
        } else {
            Ok(())
        }
    }
}

/// The width of the longest toolchain label, in characters, used to align
/// the per-record status columns.
pub fn longest_toolchain_len(toolchains: &Vec<String>) -> (r: usize)
    requires
        toolchains@.len() > 0,
    ensures
        exists|i: int| 0 <= i < toolchains@.len() && r == (#[trigger] toolchains@[i]@).len(),
        forall|i: int| 0 <= i < toolchains@.len() ==> (#[trigger] toolchains@[i]@).len() <= r,
{
    let mut best: usize = toolchains[0].as_str().unicode_len();
    let n = toolchains.len();
    let mut i: usize = 1;
    while i < n
        invariant
            n == toolchains@.len(),
            1 <= i <= n,
            exists|j: int| 0 <= j < i && best == (#[trigger] toolchains@[j]@).len(),
            forall|j: int| 0 <= j < i ==> (#[trigger] toolchains@[j]@).len() <= best,
        decreases n - i,
    {
        let here = toolchains[i].as_str().unicode_len();
        if here > best {
            best = here;
        }
        i = i + 1;
    }
    best
}

} // verus!
