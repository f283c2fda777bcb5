//! The observable core of the process runner: how the two output streams'
//! lines merge into one ordered log, and the advisory live-status text
//! taken from standard error.
//!
//! The spawning, the pipe readers and the file writes happen outside the
//! library; they hand lines in and take the rendered log text back. The
//! log keeps only the order in which lines arrived at the shared channel:
//! an interleaving of the two streams, not their original cross-stream
//! order.

use vstd::prelude::*;

verus! {

/// `c` is an order-preserving merge of `a` and `b`: each element of `c` is
/// taken from the front of what remains of `a` or of `b`, so both streams
/// keep their internal order and nothing is lost or invented.
pub open spec fn is_interleaving(a: Seq<Seq<char>>, b: Seq<Seq<char>>, c: Seq<Seq<char>>) -> bool
    decreases c.len(),
{
    if c.len() == 0 {
        a.len() == 0 && b.len() == 0
    } else {
        ||| (a.len() > 0 && c[0] == a[0] && is_interleaving(a.drop_first(), b, c.drop_first()))
        ||| (b.len() > 0 && c[0] == b[0] && is_interleaving(a, b.drop_first(), c.drop_first()))
    }
}

/// A merge of two streams has exactly the lines of both: no line is lost
/// or duplicated by the shared channel.
pub proof fn lemma_interleaving_len(a: Seq<Seq<char>>, b: Seq<Seq<char>>, c: Seq<Seq<char>>)
    requires
        is_interleaving(a, b, c),
    ensures
        c.len() == a.len() + b.len(),
    decreases c.len(),
{
    if c.len() == 0 {
    } else if a.len() > 0 && c[0] == a[0] && is_interleaving(a.drop_first(), b, c.drop_first()) {
        lemma_interleaving_len(a.drop_first(), b, c.drop_first());
    } else {
        lemma_interleaving_len(a, b.drop_first(), c.drop_first());
    }
}

/// The text written to the log for a list of lines: each line followed by
/// one newline, in arrival order.
pub open spec fn render_log(lines: Seq<Seq<char>>) -> Seq<char>
    decreases lines.len(),
{
    if lines.len() == 0 {
        Seq::<char>::empty()
    } else {
        render_log(lines.drop_last()) + lines.last() + "\n"@
    }
}

/// How many newline characters a text holds; with newline-free lines, the
/// number of lines of the rendered log.
pub open spec fn count_newlines(s: Seq<char>) -> nat
    decreases s.len(),
{
    if s.len() == 0 {
        0
    } else {
        (if s[0] == '\n' {
            1nat
        } else {
            0nat
        }) + count_newlines(s.drop_first())
    }
}

pub proof fn lemma_count_newlines_add(a: Seq<char>, b: Seq<char>)
    ensures
        count_newlines(a + b) == count_newlines(a) + count_newlines(b),
    decreases a.len(),
{
    if a.len() == 0 {
        assert(a + b =~= b);
    } else {
        assert((a + b).drop_first() =~= a.drop_first() + b);
        lemma_count_newlines_add(a.drop_first(), b);
    }
}

/// A log rendered from newline-free lines holds exactly one newline per
/// line.
pub proof fn lemma_render_log_count(lines: Seq<Seq<char>>)
    requires
        forall|i: int| 0 <= i < lines.len() ==> count_newlines(#[trigger] lines[i]) == 0,
    ensures
        count_newlines(render_log(lines)) == lines.len(),
    decreases lines.len(),
{
    if lines.len() == 0 {
    } else {
        assert(count_newlines("\n"@) == 1) by {
            reveal_strlit("\n");
            assert("\n"@.len() == 1);
            assert("\n"@[0] == '\n');
            assert("\n"@.drop_first() =~= Seq::<char>::empty());
            assert(count_newlines(Seq::<char>::empty()) == 0);
        }
        lemma_render_log_count(lines.drop_last());
        lemma_count_newlines_add(render_log(lines.drop_last()), lines.last());
        lemma_count_newlines_add(render_log(lines.drop_last()) + lines.last(), "\n"@);
        assert(render_log(lines) =~= (render_log(lines.drop_last()) + lines.last()) + "\n"@);
    }
}

/// A process that wrote `a.len()` lines to one stream and `b.len()` to the
/// other, merged in arrival order, yields a log of exactly
/// `a.len() + b.len()` lines.
pub proof fn lemma_merged_log_line_count(a: Seq<Seq<char>>, b: Seq<Seq<char>>, merged: Seq<
    Seq<char>,
>)
    requires
        is_interleaving(a, b, merged),
        forall|i: int| 0 <= i < merged.len() ==> count_newlines(#[trigger] merged[i]) == 0,
    ensures
        count_newlines(render_log(merged)) == a.len() + b.len(),
{
    lemma_interleaving_len(a, b, merged);
    lemma_render_log_count(merged);
}

/// Append one received line and its newline to the log text, in arrival
/// order.
pub fn append_line(log: &mut String, line: &String)
    ensures
        final (log)@ == old(log)@ + line@ + "\n"@,
{
    log.append(line.as_str());
    log.append("\n");
}

/// Render the whole log for the lines received from the shared channel,
/// in their arrival order.
pub fn render_log_lines(lines: &Vec<String>) -> (log: String)
    ensures
        log@ == render_log(lines.deep_view()),
{
    let ghost dv = lines.deep_view();
    let mut log = String::new();
    let n = lines.len();
    let mut i: usize = 0;
    while i < n
        invariant
            n == lines@.len(),
            dv == lines.deep_view(),
            i <= n,
            log@ == render_log(dv.take(i as int)),
        decreases n - i,
    {
        append_line(&mut log, &lines[i]);
        proof {
            assert(dv.take(i + 1).drop_last() =~= dv.take(i as int));
            assert(dv.take(i + 1).last() == dv[i as int]);
            assert(dv[i as int] == lines@[i as int]@);
        }
        i = i + 1;
    }
    proof {
        assert(dv.take(n as int) =~= dv);
    }
    log
}

/// What `trim_line` returns: the line with its leading and trailing
/// whitespace removed.
pub uninterp spec fn trimmed_of(s: Seq<char>) -> Seq<char>;

/// Relies on str::trim: removes leading and trailing whitespace; the
/// result is a function of the characters alone.
#[verifier::external_body]
fn trim_line(s: &str) -> (r: &str)
    ensures
        r@ == trimmed_of(s@),
{
    s.trim()
}

/// The advisory live-status decision for one standard-error line: the
/// trimmed text behind a fixed prefix when it is non-blank, nothing for a
/// blank line. This never changes the log contents.
pub fn stderr_status(line: &String) -> (r: Option<String>)
    ensures
        r is None <==> trimmed_of(line@).len() == 0,
        r matches Some(t) ==> t@ == "testing: "@ + trimmed_of(line@),
{
    let trimmed = trim_line(line.as_str());
    if trimmed.is_empty() {
        None
    } else {
        let mut s = String::from_str("testing: ");
        s.append(trimmed);
        Some(s)
    }
}


/// Appending one more line taken from the first stream keeps a merge an
/// interleaving.
proof fn lemma_interleaving_push_left(a: Seq<Seq<char>>, b: Seq<Seq<char>>, c: Seq<Seq<char>>, e: Seq<char>)
    requires
        is_interleaving(a, b, c),
    ensures
        is_interleaving(a.push(e), b, c.push(e)),
    decreases c.len(),
{
    if c.len() == 0 {
        assert(a.push(e).len() > 0 && c.push(e)[0] == a.push(e)[0]);
        assert(a.push(e).drop_first() =~= a);
        assert(c.push(e).drop_first() =~= c);
    } else if a.len() > 0 && c[0] == a[0] && is_interleaving(a.drop_first(), b, c.drop_first()) {
        lemma_interleaving_push_left(a.drop_first(), b, c.drop_first(), e);
        assert(a.push(e).drop_first() =~= a.drop_first().push(e));
        assert(c.push(e).drop_first() =~= c.drop_first().push(e));
        assert(c.push(e)[0] == a.push(e)[0]);
    } else {
        lemma_interleaving_push_left(a, b.drop_first(), c.drop_first(), e);
        assert(c.push(e).drop_first() =~= c.drop_first().push(e));
        assert(c.push(e)[0] == b[0]);
    }
}

/// Appending one more line taken from the second stream keeps a merge an
/// interleaving.
proof fn lemma_interleaving_push_right(a: Seq<Seq<char>>, b: Seq<Seq<char>>, c: Seq<Seq<char>>, e: Seq<char>)
    requires
        is_interleaving(a, b, c),
    ensures
        is_interleaving(a, b.push(e), c.push(e)),
    decreases c.len(),
{
    if c.len() == 0 {
        assert(b.push(e).len() > 0 && c.push(e)[0] == b.push(e)[0]);
        assert(b.push(e).drop_first() =~= b);
        assert(c.push(e).drop_first() =~= c);
    } else if a.len() > 0 && c[0] == a[0] && is_interleaving(a.drop_first(), b, c.drop_first()) {
        lemma_interleaving_push_right(a.drop_first(), b, c.drop_first(), e);
        assert(c.push(e).drop_first() =~= c.drop_first().push(e));
        assert(c.push(e)[0] == a[0]);
    } else {
        lemma_interleaving_push_right(a, b.drop_first(), c.drop_first(), e);
        assert(b.push(e).drop_first() =~= b.drop_first().push(e));
        assert(c.push(e).drop_first() =~= c.drop_first().push(e));
        assert(c.push(e)[0] == b[0]);
    }
}

/// How many positions of a schedule point at the first stream.
pub open spec fn count_true(s: Seq<bool>) -> nat
    decreases s.len(),
{
    if s.len() == 0 {
        0
    } else {
        (if s[0] {
            1nat
        } else {
            0nat
        }) + count_true(s.drop_first())
    }
}

proof fn lemma_count_true_le(s: Seq<bool>)
    ensures
        count_true(s) <= s.len(),
    decreases s.len(),
{
    if s.len() > 0 {
        lemma_count_true_le(s.drop_first());
    }
}

/// The single consumer's view of the shared channel: the two readers
/// forward their streams in order, and `from_first` records, per arrival,
/// which reader's line came next. Whatever that arrival order was, the
/// result is an order-preserving interleaving of the two streams, so no
/// line is lost, invented or reordered within its stream.
pub fn merge_streams(first: &Vec<String>, second: &Vec<String>, from_first: &Vec<bool>) -> (r: Vec<
    String,
>)
    requires
        from_first@.len() == first@.len() + second@.len(),
        count_true(from_first@) == first@.len(),
    ensures
        is_interleaving(first.deep_view(), second.deep_view(), r.deep_view()),
        r@.len() == first@.len() + second@.len(),
{
    let ghost adv = first.deep_view();
    let ghost bdv = second.deep_view();
    let n = from_first.len();
    let mut out: Vec<String> = Vec::new();
    let mut ia: usize = 0;
    let mut ib: usize = 0;
    let mut k: usize = 0;
    proof {
        assert(from_first@.skip(0) =~= from_first@);
    }
    while k < n
        invariant
            n == from_first@.len(),
            adv == first.deep_view(),
            bdv == second.deep_view(),
            n == adv.len() + bdv.len(),
            ia <= adv.len(),
            ib <= bdv.len(),
            k == ia + ib,
            out@.len() == k,
            count_true(from_first@.skip(k as int)) == adv.len() - ia,
            is_interleaving(adv.take(ia as int), bdv.take(ib as int), out.deep_view()),
        decreases n - k,
    {
        let ghost pre = out.deep_view();
        proof {
            assert(from_first@.skip(k as int).drop_first() =~= from_first@.skip(k + 1));
            assert(from_first@.skip(k as int)[0] == from_first@[k as int]);
            lemma_count_true_le(from_first@.skip(k + 1));
        }
        if from_first[k] {
            let line = first[ia].clone();
            out.push(line);
            proof {
                assert(out.deep_view() =~= pre.push(adv[ia as int]));
                assert(adv.take(ia + 1) =~= adv.take(ia as int).push(adv[ia as int]));
                lemma_interleaving_push_left(
                    adv.take(ia as int),
                    bdv.take(ib as int),
                    pre,
                    adv[ia as int],
                );
            }
            ia = ia + 1;
        } else {
            proof {
                assert(count_true(from_first@.skip(k as int)) == count_true(
                    from_first@.skip(k + 1),
                ));
                assert(from_first@.skip(k + 1).len() == n - k - 1);
            }
            let line = second[ib].clone();
            out.push(line);
            proof {
                assert(out.deep_view() =~= pre.push(bdv[ib as int]));
                assert(bdv.take(ib + 1) =~= bdv.take(ib as int).push(bdv[ib as int]));
                lemma_interleaving_push_right(
                    adv.take(ia as int),
                    bdv.take(ib as int),
                    pre,
                    bdv[ib as int],
                );
            }
            ib = ib + 1;
        }
        k = k + 1;
    }
    proof {
        assert(from_first@.skip(n as int) =~= Seq::<bool>::empty());
        assert(ia == adv.len() && ib == bdv.len());
        assert(adv.take(ia as int) =~= adv);
        assert(bdv.take(ib as int) =~= bdv);
    }
    out
}

} // verus!
