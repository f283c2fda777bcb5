//! Deciding which toolchain list a run targets. Reading the CI
//! configuration file and asking the toolchain manager are the caller's
//! business; the rules applied to what they return live here.

use vstd::prelude::*;

verus! {

/// The CI configuration's fields that matter here: the declared language
/// and its toolchain list.
pub struct TravisConfig {
    pub language: String,
    pub rust: Vec<String>,
}

/// The toolchains listed by a CI configuration: its list, accepted exactly
/// when the declared language is `rust`.
pub fn get_toolchains_from_travis(config: TravisConfig) -> (r: Result<Vec<String>, String>)
    ensures
        config.language@ == "rust"@ ==> (r matches Ok(v) && v == config.rust),
        config.language@ != "rust"@ ==> (r matches Err(m) && m@ == "travis config was for '"@
            + config.language@ + "', not 'rust'"@),
{
    if config.language == String::from_str("rust") {
        Ok(config.rust)
    } else {
        let mut m = String::from_str("travis config was for '");
        m.append(config.language.as_str());
        m.append("', not 'rust'");
        Err(m)
    }
}

/// `s` ends with `suffix`.
pub open spec fn ends_with(s: Seq<char>, suffix: Seq<char>) -> bool {
    s.len() >= suffix.len() && s.subrange(s.len() - suffix.len(), s.len() as int) == suffix
}

/// Whether one toolchain-list line ends with the given suffix.
fn string_ends_with(s: &String, suffix: &str) -> (r: bool)
    ensures
        r == ends_with(s@, suffix@),
{
    let n = s.as_str().unicode_len();
    let m = suffix.unicode_len();
    if m > n {
        assert(!ends_with(s@, suffix@));
        return false;
    }
    let start = n - m;
    let mut i: usize = 0;
    while i < m
        invariant
            n == s@.len(),
            m == suffix@.len(),
            m <= n,
            start == n - m,
            i <= m,
            forall|j: int| 0 <= j < i ==> s@[start + j] == suffix@[j],
        decreases m - i,
    {
        if s.as_str().get_char(start + i) != suffix.get_char(i) {
            assert(s@.subrange(start as int, n as int)[i as int] != suffix@[i as int]);
            return false;
        }
        i = i + 1;
    }
    proof {
        assert(s@.subrange(start as int, n as int) =~= suffix@);
    }
    true
}

/// A line of the installed-toolchain listing is kept unless it marks the
/// current default.
pub open spec fn keeps_line(l: Seq<char>) -> bool {
    !ends_with(l, "(default)"@)
}

/// The listing with the current default dropped, order kept.
pub open spec fn drop_default(lines: Seq<Seq<char>>) -> Seq<Seq<char>> {
    lines.filter(|l: Seq<char>| keeps_line(l))
}

/// The installed toolchains, given the toolchain manager's raw listing:
/// its lines, with the current default dropped, in order.
pub fn get_installed_toolchains(output: &str) -> (r: Vec<String>)
    ensures
        r.deep_view() == drop_default(spec_lines(output@)),
{
    let lines = split_lines(output);
    filter_default(lines)
}

/// Keep every listing line except the one marking the current default.
fn filter_default(lines: Vec<String>) -> (r: Vec<String>)
    ensures
        r.deep_view() == drop_default(lines.deep_view()),
{
    let ghost dv = lines.deep_view();
    let mut r: Vec<String> = Vec::new();
    let n = lines.len();
    let mut i: usize = 0;
    while i < n
        invariant
            n == lines@.len(),
            dv == lines.deep_view(),
            i <= n,
            r.deep_view() == drop_default(dv.take(i as int)),
        decreases n - i,
    {
        let ghost pre = r.deep_view();
        if !string_ends_with(&lines[i], "(default)") {
            r.push(lines[i].clone());
        }
        proof {
            broadcast use vstd::prelude::Seq::lemma_filter_push;

            assert(dv.take(i + 1) =~= dv.take(i as int).push(dv[i as int]));
            assert(dv[i as int] == lines@[i as int]@);
            if keeps_line(dv[i as int]) {
                assert(r.deep_view() =~= pre.push(dv[i as int]));
            } else {
                assert(r.deep_view() =~= pre);
            }
        }
        i = i + 1;
    }
    proof {
        assert(dv.take(n as int) =~= dv);
    }
    r
}


/// The position of the first newline in `s`, or its length when there is
/// none.
pub open spec fn first_newline(s: Seq<char>) -> nat
    decreases s.len(),
{
    if s.len() == 0 {
        0
    } else if s[0] == '\n' {
        0
    } else {
        1 + first_newline(s.drop_first())
    }
}

proof fn lemma_first_newline(s: Seq<char>)
    ensures
        first_newline(s) <= s.len(),
        first_newline(s) < s.len() ==> s[first_newline(s) as int] == '\n',
        forall|j: int| 0 <= j < first_newline(s) ==> s[j] != '\n',
    decreases s.len(),
{
    if s.len() == 0 {
    } else if s[0] == '\n' {
    } else {
        lemma_first_newline(s.drop_first());
        assert forall|j: int| 0 <= j < first_newline(s) implies s[j] != '\n' by {
            if j > 0 {
                assert(s.drop_first()[j - 1] != '\n');
            }
        }
    }
}

proof fn lemma_first_newline_at(s: Seq<char>, i: int)
    requires
        0 <= i <= s.len(),
        forall|j: int| 0 <= j < i ==> s[j] != '\n',
        i < s.len() ==> s[i] == '\n',
    ensures
        first_newline(s) == i,
    decreases s.len(),
{
    if s.len() == 0 {
    } else if s[0] == '\n' {
        assert(i == 0);
    } else {
        assert(i >= 1);
        assert forall|j: int| 0 <= j < i - 1 implies s.drop_first()[j] != '\n' by {
            assert(s[j + 1] != '\n');
        }
        lemma_first_newline_at(s.drop_first(), i - 1);
    }
}

/// A line with its terminating carriage return, if any, removed.
pub open spec fn strip_cr(l: Seq<char>) -> Seq<char> {
    if l.len() > 0 && l.last() == '\r' {
        l.drop_last()
    } else {
        l
    }
}

/// The lines of a text: split at newlines, a carriage return directly
/// before a newline dropped, and the final line ending optional.
pub open spec fn spec_lines(s: Seq<char>) -> Seq<Seq<char>>
    decreases s.len(),
    via spec_lines_decreases
{
    if s.len() == 0 {
        Seq::<Seq<char>>::empty()
    } else {
        let i = first_newline(s) as int;
        if i == s.len() {
            seq![s]
        } else {
            seq![strip_cr(s.take(i))] + spec_lines(s.skip(i + 1))
        }
    }
}

#[via_fn]
proof fn spec_lines_decreases(s: Seq<char>) {
    lemma_first_newline(s);
}

/// Split a text into its lines.
pub fn split_lines(text: &str) -> (r: Vec<String>)
    ensures
        r.deep_view() == spec_lines(text@),
{
    let n = text.unicode_len();
    let mut r: Vec<String> = Vec::new();
    let mut start: usize = 0;
    proof {
        assert(text@.skip(0) =~= text@);
    }
    while start < n
        invariant
            n == text@.len(),
            start <= n,
            spec_lines(text@) == r.deep_view() + spec_lines(text@.skip(start as int)),
        decreases n - start,
    {
        let mut j = start;
        while j < n && text.get_char(j) != '\n'
            invariant
                n == text@.len(),
                start <= j <= n,
                forall|k: int| start <= k < j ==> text@[k] != '\n',
            decreases n - j,
        {
            j = j + 1;
        }
        let ghost suf = text@.skip(start as int);
        let ghost pre = r.deep_view();
        proof {
            assert forall|k: int| 0 <= k < j - start implies suf[k] != '\n' by {
                assert(text@[start + k] != '\n');
            }
            lemma_first_newline_at(suf, j - start);
        }
        if j == n {
            let line = text.substring_char(start, n);
            r.push(String::from_str(line));
            proof {
                assert(first_newline(suf) == suf.len());
                assert(spec_lines(suf) =~= seq![suf]);
                assert(line@ =~= suf);
                assert(r.deep_view() =~= pre.push(suf));
                assert(text@.skip(n as int) =~= Seq::<char>::empty());
                assert(spec_lines(text@.skip(n as int)) =~= Seq::<Seq<char>>::empty());
                assert(pre + (seq![suf] + Seq::<Seq<char>>::empty()) =~= pre.push(suf)
                    + Seq::<Seq<char>>::empty());
            }
            start = n;
        } else {
            let end = if j > start && text.get_char(j - 1) == '\r' {
                j - 1
            } else {
                j
            };
            let line = text.substring_char(start, end);
            r.push(String::from_str(line));
            proof {
                let i = j - start as int;
                assert(first_newline(suf) == i && i < suf.len());
                assert(spec_lines(suf) == seq![strip_cr(suf.take(i))] + spec_lines(
                    suf.skip(i + 1),
                ));
                assert(suf.take(i) =~= text@.subrange(start as int, j as int));
                if j > start && text@[j - 1] == '\r' {
                    assert(suf.take(i).last() == '\r');
                    assert(line@ =~= suf.take(i).drop_last());
                    assert(line@ == strip_cr(suf.take(i)));
                } else {
                    assert(line@ =~= suf.take(i));
                    assert(line@ == strip_cr(suf.take(i)));
                }
                assert(suf.skip(i + 1) =~= text@.skip(j + 1));
                assert(r.deep_view() =~= pre.push(line@));
                assert(pre + (seq![line@] + spec_lines(text@.skip(j + 1))) =~= pre.push(line@)
                    + spec_lines(text@.skip(j + 1)));
            }
            start = j + 1;
        }
    }
    proof {
        assert(text@.skip(n as int) =~= Seq::<char>::empty());
        assert(spec_lines(text@.skip(n as int)) =~= Seq::<Seq<char>>::empty());
        assert(r.deep_view() + Seq::<Seq<char>>::empty() =~= r.deep_view());
    }
    r
}

} // verus!
