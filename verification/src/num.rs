//! Decimal numerals over character sequences.
//!
//! Version tags are written with canonical decimal numerals (no leading
//! zeroes). This module gives the numeral model: the value denoted by a digit
//! string, the canonical numeral of a number, and the proofs that the two are
//! inverse to each other. These facts carry the round-trip law for tag
//! parsing and rendering.

use vstd::prelude::*;
use vstd::string::StrSliceExecFns;
use vstd::string::StringExecFns;

verus! {

/// Whether `c` is an ASCII decimal digit.
pub open spec fn is_digit(c: char) -> bool {
    c == '0' || c == '1' || c == '2' || c == '3' || c == '4' || c == '5' || c == '6' || c == '7'
        || c == '8' || c == '9'
}

/// The numeric value of a digit character.
pub open spec fn digit_val(c: char) -> nat {
    if c == '0' {
        0
    } else if c == '1' {
        1
    } else if c == '2' {
        2
    } else if c == '3' {
        3
    } else if c == '4' {
        4
    } else if c == '5' {
        5
    } else if c == '6' {
        6
    } else if c == '7' {
        7
    } else if c == '8' {
        8
    } else {
        9
    }
}

/// The digit character of a value below ten.
pub open spec fn digit_char(d: nat) -> char {
    if d == 0 {
        '0'
    } else if d == 1 {
        '1'
    } else if d == 2 {
        '2'
    } else if d == 3 {
        '3'
    } else if d == 4 {
        '4'
    } else if d == 5 {
        '5'
    } else if d == 6 {
        '6'
    } else if d == 7 {
        '7'
    } else if d == 8 {
        '8'
    } else {
        '9'
    }
}

/// Every character of `s` is a digit.
pub open spec fn all_digits(s: Seq<char>) -> bool {
    forall|i: int| 0 <= i < s.len() ==> is_digit(#[trigger] s[i])
}

/// The number denoted by a digit string, most significant digit first.
pub open spec fn num_val(s: Seq<char>) -> nat
    decreases s.len(),
{
    if s.len() == 0 {
        0
    } else {
        num_val(s.drop_last()) * 10 + digit_val(s.last())
    }
}

/// A canonical decimal numeral: nonempty, digits only, no leading zero
/// (except for the numeral `0` itself).
pub open spec fn canonical_num(s: Seq<char>) -> bool {
    s.len() > 0 && all_digits(s) && (s.len() == 1 || s[0] != '0')
}

/// The canonical numeral of `n`.
pub open spec fn num_str(n: nat) -> Seq<char>
    decreases n,
{
    if n < 10 {
        seq![digit_char(n)]
    } else {
        num_str(n / 10).push(digit_char(n % 10))
    }
}

/// Round trip at the single-digit level: reading a digit back gives the
/// character it came from.
pub proof fn lemma_digit_char_of_val(c: char)
    requires
        is_digit(c),
    ensures
        digit_val(c) < 10,
        digit_char(digit_val(c)) == c,
{
}

/// A digit string with a nonzero leading digit denotes a positive number.
pub proof fn lemma_lead_nonzero(s: Seq<char>)
    requires
        s.len() >= 1,
        all_digits(s),
        s[0] != '0',
    ensures
        num_val(s) >= 1,
    decreases s.len(),
{
    if s.len() == 1 {
        assert(num_val(s) == num_val(s.drop_last()) * 10 + digit_val(s.last()));
        assert(s.drop_last() =~= Seq::<char>::empty());
        assert(s.last() == s[0]);
    } else {
        let p = s.drop_last();
        assert(p[0] == s[0]);
        assert(forall|i: int| 0 <= i < p.len() ==> is_digit(#[trigger] p[i]));
        lemma_lead_nonzero(p);
    }
}

/// A canonical numeral is the canonical numeral of the number it denotes:
/// canonical numerals with equal values are equal.
pub proof fn lemma_canonical_num_str(s: Seq<char>)
    requires
        canonical_num(s),
    ensures
        num_str(num_val(s)) == s,
    decreases s.len(),
{
    if s.len() == 1 {
        assert(s.drop_last() =~= Seq::<char>::empty());
        assert(s.last() == s[0]);
        lemma_digit_char_of_val(s[0]);
        assert(num_val(Seq::<char>::empty()) == 0);
        assert(num_val(s) == num_val(s.drop_last()) * 10 + digit_val(s.last()));
        assert(num_val(s) == digit_val(s[0]));
        assert(num_str(num_val(s)) =~= s);
    } else {
        let p = s.drop_last();
        assert(p[0] == s[0]);
        assert(forall|i: int| 0 <= i < p.len() ==> is_digit(#[trigger] p[i]));
        lemma_canonical_num_str(p);
        lemma_lead_nonzero(p);
        lemma_digit_char_of_val(s.last());
        let v0 = num_val(p);
        let d = digit_val(s.last());
        let v = num_val(s);
        assert(v == v0 * 10 + d);
        assert(v >= 10);
        assert(v / 10 == v0 && v % 10 == d);
        assert(num_str(v) == num_str(v0).push(digit_char(d)));
        assert(num_str(v) =~= s);
    }
}

/// The length of the maximal digit run at the front of `s`.
pub open spec fn digit_prefix_end(s: Seq<char>) -> int
    decreases s.len(),
{
    if s.len() == 0 || !is_digit(s[0]) {
        0
    } else {
        1 + digit_prefix_end(s.drop_first())
    }
}

/// What `digit_prefix_end` marks: digits up to it, and a non-digit (or the
/// end of the string) at it.
pub proof fn lemma_digit_prefix_end(s: Seq<char>)
    ensures
        0 <= digit_prefix_end(s) <= s.len(),
        forall|k: int| 0 <= k < digit_prefix_end(s) ==> is_digit(#[trigger] s[k]),
        digit_prefix_end(s) < s.len() ==> !is_digit(s[digit_prefix_end(s)]),
    decreases s.len(),
{
    let e = digit_prefix_end(s);
    if s.len() == 0 || !is_digit(s[0]) {
    } else {
        let t = s.drop_first();
        lemma_digit_prefix_end(t);
        assert forall|k: int| 0 <= k < e implies is_digit(#[trigger] s[k]) by {
            if k > 0 {
                assert(is_digit(t[k - 1]));
            }
        }
        if e < s.len() {
            assert(s[e] == t[e - 1]);
        }
    }
}

/// The digit characters of `ds`, read back to front.
spec fn rev_digit_chars(ds: Seq<u32>) -> Seq<char>
    decreases ds.len(),
{
    if ds.len() == 0 {
        Seq::<char>::empty()
    } else {
        seq![digit_char(ds.last() as nat)] + rev_digit_chars(ds.drop_last())
    }
}

/// The one-character string of a digit value.
fn digit_str(d: u32) -> (r: &'static str)
    requires
        d < 10,
    ensures
        r@ == seq![digit_char(d as nat)],
{
    match d {
        0 => {
            proof {
                reveal_strlit("0");
                assert("0"@ =~= seq![digit_char(0nat)]);
            }
            "0"
        },
        1 => {
            proof {
                reveal_strlit("1");
                assert("1"@ =~= seq![digit_char(1nat)]);
            }
            "1"
        },
        2 => {
            proof {
                reveal_strlit("2");
                assert("2"@ =~= seq![digit_char(2nat)]);
            }
            "2"
        },
        3 => {
            proof {
                reveal_strlit("3");
                assert("3"@ =~= seq![digit_char(3nat)]);
            }
            "3"
        },
        4 => {
            proof {
                reveal_strlit("4");
                assert("4"@ =~= seq![digit_char(4nat)]);
            }
            "4"
        },
        5 => {
            proof {
                reveal_strlit("5");
                assert("5"@ =~= seq![digit_char(5nat)]);
            }
            "5"
        },
        6 => {
            proof {
                reveal_strlit("6");
                assert("6"@ =~= seq![digit_char(6nat)]);
            }
            "6"
        },
        7 => {
            proof {
                reveal_strlit("7");
                assert("7"@ =~= seq![digit_char(7nat)]);
            }
            "7"
        },
        8 => {
            proof {
                reveal_strlit("8");
                assert("8"@ =~= seq![digit_char(8nat)]);
            }
            "8"
        },
        _ => {
            proof {
                reveal_strlit("9");
                assert("9"@ =~= seq![digit_char(9nat)]);
            }
            "9"
        },
    }
}

/// The canonical numeral of `n`, as an owned string.
pub fn u32_to_string(n: u32) -> (r: String)
    ensures
        r@ == num_str(n as nat),
{
    let mut digits: Vec<u32> = Vec::new();
    let mut m: u32 = n;
    proof {
        assert(num_str(n as nat) + rev_digit_chars(Seq::<u32>::empty()) =~= num_str(n as nat));
    }
    while m >= 10
        invariant
            num_str(n as nat) == num_str(m as nat) + rev_digit_chars(digits@),
            forall|k: int| 0 <= k < digits@.len() ==> (#[trigger] digits@[k]) < 10,
        decreases m,
    {
        let d: u32 = m % 10;
        proof {
            assert(num_str(m as nat) == num_str((m / 10) as nat).push(digit_char((m % 10) as nat)));
            assert(digits@.push(d).drop_last() =~= digits@);
            assert(digits@.push(d).last() == d);
            assert(num_str((m / 10) as nat).push(digit_char(d as nat)) + rev_digit_chars(digits@)
                =~= num_str((m / 10) as nat) + rev_digit_chars(digits@.push(d)));
        }
        digits.push(d);
        m = m / 10;
    }
    let mut out = String::new();
    out.append(digit_str(m));
    proof {
        assert(num_str(m as nat) == seq![digit_char(m as nat)]);
        assert(Seq::<char>::empty() + seq![digit_char(m as nat)] =~= seq![digit_char(m as nat)]);
        assert(digits@.take(digits@.len() as int) =~= digits@);
    }
    let mut i: usize = digits.len();
    while i > 0
        invariant
            i <= digits.len(),
            forall|k: int| 0 <= k < digits@.len() ==> (#[trigger] digits@[k]) < 10,
            out@ + rev_digit_chars(digits@.take(i as int)) == num_str(n as nat),
        decreases i,
    {
        i = i - 1;
        let d: u32 = digits[i];
        proof {
            let tk1 = digits@.take(i as int + 1);
            assert(tk1.last() == digits@[i as int]);
            assert(tk1.drop_last() =~= digits@.take(i as int));
            assert((out@ + seq![digit_char(d as nat)]) + rev_digit_chars(digits@.take(i as int))
                =~= out@ + rev_digit_chars(tk1));
        }
        out.append(digit_str(d));
    }
    proof {
        assert(digits@.take(0) =~= Seq::<u32>::empty());
        assert(out@ + Seq::<char>::empty() =~= out@);
    }
    out
}

/// The digit value of a character, if it is one.
pub fn digit_of(c: char) -> (r: Option<u32>)
    ensures
        match r {
            Option::Some(d) => is_digit(c) && d < 10 && d as nat == digit_val(c),
            Option::None => !is_digit(c),
        },
{
    match c {
        '0' => Some(0u32),
        '1' => Some(1u32),
        '2' => Some(2u32),
        '3' => Some(3u32),
        '4' => Some(4u32),
        '5' => Some(5u32),
        '6' => Some(6u32),
        '7' => Some(7u32),
        '8' => Some(8u32),
        '9' => Some(9u32),
        _ => None,
    }
}

/// Scan the digit run of `s` that begins at `start`: the value of that run
/// read as a numeral, if the run is canonical and the value fits in a `u32`,
/// and the position just past the run.
pub fn scan_num(s: &str, start: usize) -> (r: (Option<u32>, usize))
    requires
        start as int <= s@.len(),
    ensures
        ({
            let run = s@.skip(start as int);
            let e = digit_prefix_end(run);
            let p = run.take(e);
            &&& (r.0 is Some <==> ok_num(p))
            &&& r.0 is Some ==> r.0->Some_0 as nat == num_val(p) && r.1 as int == start + e
        }),
{
    let len: usize = s.unicode_len();
    let mut idx: usize = start;
    let mut acc: u32 = 0;
    let mut overflow: bool = false;
    proof {
        assert(s@.subrange(start as int, start as int) =~= Seq::<char>::empty());
    }
    loop
        invariant
            start <= idx <= len,
            len as int == s@.len(),
            start as int <= s@.len(),
            forall|k: int| start as int <= k < idx as int ==> is_digit(#[trigger] s@[k]),
            !overflow ==> acc as nat == num_val(s@.subrange(start as int, idx as int)),
            overflow ==> num_val(s@.subrange(start as int, idx as int)) > u32::MAX,
        ensures
            start <= idx <= len,
            len as int == s@.len(),
            forall|k: int| start as int <= k < idx as int ==> is_digit(#[trigger] s@[k]),
            (idx as int) < s@.len() ==> !is_digit(s@[idx as int]),
            !overflow ==> acc as nat == num_val(s@.subrange(start as int, idx as int)),
            overflow ==> num_val(s@.subrange(start as int, idx as int)) > u32::MAX,
        decreases len - idx,
    {
        if idx == len {
            break;
        }
        let c = s.get_char(idx);
        match digit_of(c) {
            Option::None => {
                break;
            },
            Option::Some(d) => {
                proof {
                    assert(s@.subrange(start as int, idx as int + 1).drop_last() =~= s@.subrange(
                        start as int, idx as int));
                    assert(s@.subrange(start as int, idx as int + 1).last() == s@[idx as int]);
                }
                if !overflow {
                    let wide: u64 = acc as u64 * 10 + d as u64;
                    if wide > u32::MAX as u64 {
                        overflow = true;
                    } else {
                        acc = wide as u32;
                    }
                }
                idx = idx + 1;
            },
        }
    }
    let ghost run = s@.skip(start as int);
    proof {
        assert forall|k: int| 0 <= k < idx as int - start as int implies is_digit(
            #[trigger] run[k]) by {
            assert(run[k] == s@[k + start as int]);
        }
        if (idx as int) < s@.len() {
            assert(run[idx as int - start as int] == s@[idx as int]);
        }
        lemma_digit_prefix_end_is(run, idx as int - start as int);
        assert(run.take(idx as int - start as int) =~= s@.subrange(start as int, idx as int));
    }
    if idx == start {
        return (None, idx);
    }
    if overflow {
        return (None, idx);
    }
    let c0 = s.get_char(start);
    if c0 == '0' && idx - start > 1 {
        proof {
            assert(run.take(idx as int - start as int)[0] == s@[start as int]);
        }
        return (None, idx);
    }
    proof {
        assert(run.take(idx as int - start as int)[0] == s@[start as int]);
    }
    (Some(acc), idx)
}

/// A numeral a version component accepts: canonical, and small enough for a
/// `u32` field.
pub open spec fn ok_num(s: Seq<char>) -> bool {
    canonical_num(s) && num_val(s) <= u32::MAX
}

/// The converse: a position with digits before it and a non-digit (or the
/// end) at it is where the digit run ends.
pub proof fn lemma_digit_prefix_end_is(s: Seq<char>, i: int)
    requires
        0 <= i <= s.len(),
        forall|k: int| 0 <= k < i ==> is_digit(#[trigger] s[k]),
        i < s.len() ==> !is_digit(s[i]),
    ensures
        digit_prefix_end(s) == i,
    decreases s.len(),
{
    if s.len() == 0 {
    } else if !is_digit(s[0]) {
        assert(i == 0);
    } else {
        assert(i >= 1);
        let t = s.drop_first();
        assert forall|k: int| 0 <= k < i - 1 implies is_digit(#[trigger] t[k]) by {
            assert(t[k] == s[k + 1]);
        }
        if i - 1 < t.len() {
            assert(t[i - 1] == s[i]);
        }
        lemma_digit_prefix_end_is(t, i - 1);
    }
}

} // verus!
