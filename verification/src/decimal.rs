//! Decimal rendering of integers, used when a terminal status message
//! names a process exit code.

use vstd::prelude::*;

verus! {

/// The character for one decimal digit.
pub open spec fn digit_char(d: nat) -> char {
    ((48 + d) as u8) as char
}

/// The decimal digits of `n`, most significant first, with no leading
/// zeros (except for `n == 0`, which is the single digit `0`).
pub open spec fn dec_digits(n: nat) -> Seq<char>
    decreases n,
{
    if n < 10 {
        seq![digit_char(n)]
    } else {
        dec_digits(n / 10) + seq![digit_char(n % 10)]
    }
}

/// Decimal text of a signed value: a leading minus sign when negative.
pub open spec fn dec_int(i: int) -> Seq<char> {
    if i < 0 {
        seq!['-'] + dec_digits((-i) as nat)
    } else {
        dec_digits(i as nat)
    }
}

/// The characters of a digit list, in the order given.
pub open spec fn digit_chars(ds: Seq<u8>) -> Seq<char> {
    ds.map_values(|d: u8| digit_char(d as nat))
}

/// The text of one digit.
fn digit_str(d: u8) -> (r: &'static str)
    requires
        d < 10,
    ensures
        r@ == seq![digit_char(d as nat)],
{
    let r: &'static str = match d {
        0 => "0",
        1 => "1",
        2 => "2",
        3 => "3",
        4 => "4",
        5 => "5",
        6 => "6",
        7 => "7",
        8 => "8",
        _ => "9",
    };
    proof {
        reveal_strlit("0");
        reveal_strlit("1");
        reveal_strlit("2");
        reveal_strlit("3");
        reveal_strlit("4");
        reveal_strlit("5");
        reveal_strlit("6");
        reveal_strlit("7");
        reveal_strlit("8");
        reveal_strlit("9");
        assert(r@ =~= seq![digit_char(d as nat)]);
    }
    r
}

/// Render an unsigned value in decimal.
pub fn u64_to_string(n: u64) -> (r: String)
    ensures
        r@ == dec_digits(n as nat),
{
    let ghost orig: nat = n as nat;
    let mut m: u64 = n;
    let mut rev: Vec<u8> = Vec::new();
    loop
        invariant_except_break
            m > 0 || (rev@.len() == 0 && orig == 0),
            (rev@.len() == 0 && m as nat == orig) || (dec_digits(orig) == (if m > 0 {
                dec_digits(m as nat)
            } else {
                Seq::<char>::empty()
            }) + digit_chars(rev@).reverse()),
            forall|j: int| 0 <= j < rev@.len() ==> rev@[j] < 10,
        ensures
            dec_digits(orig) == digit_chars(rev@).reverse(),
            rev@.len() >= 1,
            forall|j: int| 0 <= j < rev@.len() ==> rev@[j] < 10,
        decreases m,
    {
        let ghost pre_m: nat = m as nat;
        let ghost pre_rev = rev@;
        let d: u8 = (m % 10) as u8;
        rev.push(d);
        m = m / 10;
        proof {
            assert(digit_chars(rev@).reverse() =~= seq![digit_char(d as nat)] + digit_chars(
                pre_rev,
            ).reverse());
            if pre_rev.len() == 0 && pre_m == orig {
                if m > 0 {
                    assert(dec_digits(orig) == dec_digits(m as nat) + seq![
                        digit_char((orig % 10) as nat),
                    ]);
                    assert(dec_digits(orig) =~= dec_digits(m as nat) + digit_chars(
                        rev@,
                    ).reverse());
                } else {
                    assert(dec_digits(orig) =~= Seq::<char>::empty() + digit_chars(
                        rev@,
                    ).reverse());
                }
            } else {
                assert(pre_m > 0);
                if m > 0 {
                    assert(dec_digits(pre_m) == dec_digits(m as nat) + seq![
                        digit_char((pre_m % 10) as nat),
                    ]);
                    assert((if m > 0 {
                        dec_digits(m as nat)
                    } else {
                        Seq::<char>::empty()
                    }) + digit_chars(rev@).reverse() =~= dec_digits(pre_m) + digit_chars(
                        pre_rev,
                    ).reverse());
                } else {
                    assert(dec_digits(pre_m) =~= seq![digit_char(pre_m)]);
                    assert(Seq::<char>::empty() + digit_chars(rev@).reverse() =~= dec_digits(
                        pre_m,
                    ) + digit_chars(pre_rev).reverse());
                }
            }
        }
        if m == 0 {
            break ;
        }
    }

    let mut s = String::new();
    let k = rev.len();
    let mut j: usize = 0;
    while j < k
        invariant
            k == rev@.len(),
            j <= k,
            forall|t: int| 0 <= t < rev@.len() ==> rev@[t] < 10,
            dec_digits(orig) == digit_chars(rev@).reverse(),
            s@ == digit_chars(rev@).reverse().take(j as int),
        decreases k - j,
    {
        let d = rev[k - 1 - j];
        s.append(digit_str(d));
        proof {
            assert(digit_chars(rev@).reverse()[j as int] == digit_char(
                rev@[k - 1 - j as int] as nat,
            ));
            assert(s@ =~= digit_chars(rev@).reverse().take(j + 1));
        }
        j = j + 1;
    }
    proof {
        assert(digit_chars(rev@).reverse().take(k as int) =~= digit_chars(rev@).reverse());
    }
    s
}

/// Render a signed 32-bit value in decimal.
pub fn i32_to_string(i: i32) -> (r: String)
    ensures
        r@ == dec_int(i as int),
{
    if i < 0 {
        let mag: u64 = (-(i as i64)) as u64;
        let digits = u64_to_string(mag);
        let mut s = String::from_str("-");
        proof {
            reveal_strlit("-");
            assert(s@ =~= seq!['-']);
        }
        s.append(digits.as_str());
        proof {
            assert(s@ =~= dec_int(i as int));
        }
        s
    } else {
        u64_to_string(i as u64)
    }
}

} // verus!
