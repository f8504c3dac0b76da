//! Text helpers: splitting on a separator, reading and writing
//! decimal numbers.
//!
//! File names and locators carry dates and epochs as decimal text;
//! these helpers give that text an exact meaning.

use vstd::prelude::*;
use crate::types::string_views;

verus! {

/// The pieces of `s` between occurrences of `sep`: always at least one
/// piece, empty pieces kept.
pub open spec fn split_spec(s: Seq<char>, sep: char) -> Seq<Seq<char>>
    decreases s.len(),
{
    if s.len() == 0 {
        seq![Seq::<char>::empty()]
    } else if s.last() == sep {
        split_spec(s.drop_last(), sep).push(Seq::<char>::empty())
    } else {
        let r = split_spec(s.drop_last(), sep);
        r.update(r.len() - 1, r.last().push(s.last()))
    }
}

/// A split has at least one piece.
pub proof fn lemma_split_len(s: Seq<char>, sep: char)
    ensures
        split_spec(s, sep).len() >= 1,
    decreases s.len(),
{
    if s.len() > 0 {
        lemma_split_len(s.drop_last(), sep);
    }
}

/// Splits `s` at every occurrence of `sep`.
#[verifier::loop_isolation(false)]
pub fn split_str(s: &str, sep: char) -> (parts: Vec<String>)
    ensures
        string_views(parts@) == split_spec(s@, sep),
        parts@.len() >= 1,
{
    let n = s.unicode_len();
    let mut parts: Vec<String> = Vec::new();
    let mut start: usize = 0;
    let mut i: usize = 0;
    proof {
        assert(s@.take(0) =~= Seq::<char>::empty());
        assert(s@.subrange(0, 0) =~= Seq::<char>::empty());
        assert(string_views(parts@).push(s@.subrange(0, 0)) =~= split_spec(s@.take(0), sep));
    }
    while i < n
        invariant
            0 <= start <= i <= n,
            n == s@.len(),
            string_views(parts@).push(s@.subrange(start as int, i as int)) == split_spec(
                s@.take(i as int),
                sep,
            ),
        decreases n - i,
    {
        let c = s.get_char(i);
        proof {
            let t = s@.take(i + 1);
            assert(t.drop_last() =~= s@.take(i as int));
            assert(t.last() == s@[i as int]);
        }
        if c == sep {
            let piece = s.substring_char(start, i).to_owned();
            parts.push(piece);
            proof {
                let prev = split_spec(s@.take(i as int), sep);
                lemma_split_len(s@.take(i as int), sep);
                assert(string_views(parts@) =~= prev) by {
                    assert(string_views(parts@).len() == prev.len());
                    assert forall|j: int|
                        0 <= j < prev.len() implies string_views(parts@)[j] == prev[j] by {
                        if j < prev.len() - 1 {
                            assert(string_views(parts@)[j] == string_views(parts@.drop_last())[j]);
                        }
                    }
                }
                assert(s@.subrange(i + 1, i + 1) =~= Seq::<char>::empty());
                assert(string_views(parts@).push(s@.subrange(i + 1, i + 1)) =~= split_spec(
                    s@.take(i + 1),
                    sep,
                ));
            }
            start = i + 1;
        } else {
            proof {
                let prev = split_spec(s@.take(i as int), sep);
                lemma_split_len(s@.take(i as int), sep);
                assert(s@.subrange(start as int, i + 1) =~= s@.subrange(start as int, i as int)
                    .push(s@[i as int]));
                assert(split_spec(s@.take(i + 1), sep) == prev.update(
                    prev.len() - 1,
                    prev.last().push(s@[i as int]),
                ));
                assert(string_views(parts@).push(s@.subrange(start as int, i + 1)) =~= prev.update(
                    prev.len() - 1,
                    prev.last().push(s@[i as int]),
                ));
            }
        }
        i += 1;
    }
    let lastpiece = s.substring_char(start, n).to_owned();
    parts.push(lastpiece);
    proof {
        assert(s@.take(n as int) =~= s@);
        assert(string_views(parts@) =~= string_views(parts@.drop_last()).push(
            s@.subrange(start as int, n as int),
        ));
    }
    parts
}

/// Whether `c` is a decimal digit.
pub open spec fn is_digit(c: char) -> bool {
    48 <= c as u32 <= 57
}

/// The value of a digit.
pub open spec fn digit_val(c: char) -> nat {
    (c as u32 - 48) as nat
}

/// Whether `s` is one or more decimal digits.
pub open spec fn all_digits(s: Seq<char>) -> bool {
    s.len() > 0 && forall|i: int| 0 <= i < s.len() ==> is_digit(#[trigger] s[i])
}

/// The number the digits denote.
pub open spec fn digits_val(s: Seq<char>) -> nat
    decreases s.len(),
{
    if s.len() == 0 {
        0nat
    } else {
        digits_val(s.drop_last()) * 10 + digit_val(s.last())
    }
}

/// A digit prefix never denotes more than the whole digit string.
proof fn lemma_digits_val_prefix(s: Seq<char>, j: int)
    requires
        0 <= j <= s.len(),
    ensures
        digits_val(s.take(j)) <= digits_val(s),
    decreases s.len() - j,
{
    if j == s.len() {
        assert(s.take(j) =~= s);
    } else {
        assert(s.take(j + 1).drop_last() =~= s.take(j));
        assert(s.take(j + 1).last() == s[j]);
        assert(digits_val(s.take(j)) * 10 >= digits_val(s.take(j))) by (nonlinear_arith);
        lemma_digits_val_prefix(s, j + 1);
    }
}

/// Reads `s` as an unsigned decimal number: the digits' value when `s`
/// is all digits and the value fits, nothing otherwise.
#[verifier::loop_isolation(false)]
pub fn parse_u32(s: &str) -> (r: Option<u32>)
    ensures
        r is Some <==> all_digits(s@) && digits_val(s@) <= u32::MAX,
        r is Some ==> r->Some_0 == digits_val(s@),
{
    let n = s.unicode_len();
    if n == 0 {
        return None;
    }
    let mut acc: u32 = 0;
    let mut i: usize = 0;
    proof {
        assert(s@.take(0) =~= Seq::<char>::empty());
    }
    while i < n
        invariant
            0 <= i <= n,
            n == s@.len(),
            forall|j: int| 0 <= j < i ==> is_digit(#[trigger] s@[j]),
            acc as nat == digits_val(s@.take(i as int)),
        decreases n - i,
    {
        let c = s.get_char(i);
        let u = c as u32;
        proof {
            assert(s@.take(i + 1).drop_last() =~= s@.take(i as int));
            assert(s@.take(i + 1).last() == s@[i as int]);
        }
        if u < 48 || u > 57 {
            return None;
        }
        let d = u - 48;
        if acc > (u32::MAX - d) / 10 {
            proof {
                assert(digits_val(s@.take(i + 1)) == acc as nat * 10 + d);
                assert(acc as nat * 10 + d > u32::MAX) by (nonlinear_arith)
                    requires
                        acc > (u32::MAX - d) / 10,
                        d <= 9,
                ;
                lemma_digits_val_prefix(s@, i + 1);
            }
            return None;
        }
        proof {
            assert(acc * 10 + d <= u32::MAX) by (nonlinear_arith)
                requires
                    acc <= (u32::MAX - d) / 10,
                    d <= 9,
            ;
        }
        acc = acc * 10 + d;
        i += 1;
    }
    proof {
        assert(s@.take(n as int) =~= s@);
    }
    Some(acc)
}

/// Reads `s` as a signless decimal number within the signed 32-bit
/// range.
pub fn parse_i32(s: &str) -> (r: Option<i32>)
    ensures
        r is Some <==> all_digits(s@) && digits_val(s@) <= i32::MAX,
        r is Some ==> r->Some_0 == digits_val(s@),
{
    match parse_u32(s) {
        Some(v) => {
            if v <= i32::MAX as u32 {
                Some(v as i32)
            } else {
                proof {
                    assert(digits_val(s@) > i32::MAX);
                }
                None
            }
        },
        None => {
            proof {
                if all_digits(s@) && digits_val(s@) <= i32::MAX {
                    assert(digits_val(s@) <= u32::MAX);
                }
            }
            None
        },
    }
}

/// The decimal text of `n`: most significant digit first, no sign, no
/// leading zero except for zero itself.
pub open spec fn dec_str(n: nat) -> Seq<char>
    decreases n,
{
    if n < 10 {
        seq![digit_char(n)]
    } else {
        dec_str(n / 10).push(digit_char(n % 10))
    }
}

/// The digit character for a value below ten.
pub open spec fn digit_char(d: nat) -> char {
    if d == 0 {
        '0'
    } else if d == 1 {
        '1'
    } else if d == 2 {
        '2'
    } else if d == 3 {
        '3'
    } else if d == 4 {
        '4'
    } else if d == 5 {
        '5'
    } else if d == 6 {
        '6'
    } else if d == 7 {
        '7'
    } else if d == 8 {
        '8'
    } else {
        '9'
    }
}

/// The string for one digit.
fn digit_str(d: u64) -> (r: &'static str)
    requires
        d < 10,
    ensures
        r@ == seq![digit_char(d as nat)],
{
    proof {
        reveal_strlit("0");
        reveal_strlit("1");
        reveal_strlit("2");
        reveal_strlit("3");
        reveal_strlit("4");
        reveal_strlit("5");
        reveal_strlit("6");
        reveal_strlit("7");
        reveal_strlit("8");
        reveal_strlit("9");
    }
    if d == 0 {
        proof {
            assert("0"@ =~= seq![digit_char(0nat)]);
        }
        "0"
    } else if d == 1 {
        proof {
            assert("1"@ =~= seq![digit_char(1nat)]);
        }
        "1"
    } else if d == 2 {
        proof {
            assert("2"@ =~= seq![digit_char(2nat)]);
        }
        "2"
    } else if d == 3 {
        proof {
            assert("3"@ =~= seq![digit_char(3nat)]);
        }
        "3"
    } else if d == 4 {
        proof {
            assert("4"@ =~= seq![digit_char(4nat)]);
        }
        "4"
    } else if d == 5 {
        proof {
            assert("5"@ =~= seq![digit_char(5nat)]);
        }
        "5"
    } else if d == 6 {
        proof {
            assert("6"@ =~= seq![digit_char(6nat)]);
        }
        "6"
    } else if d == 7 {
        proof {
            assert("7"@ =~= seq![digit_char(7nat)]);
        }
        "7"
    } else if d == 8 {
        proof {
            assert("8"@ =~= seq![digit_char(8nat)]);
        }
        "8"
    } else {
        proof {
            assert("9"@ =~= seq![digit_char(9nat)]);
        }
        "9"
    }
}

/// The decimal text of a least-significant-first digit list.
pub open spec fn digits_text(ds: Seq<u64>) -> Seq<char>
    decreases ds.len(),
{
    if ds.len() == 0 {
        Seq::<char>::empty()
    } else {
        digits_text(ds.drop_first()) + seq![digit_char(ds[0] as nat)]
    }
}

/// A digit appended to the list appears leftmost in the text.
proof fn lemma_digits_text_push(ds: Seq<u64>, x: u64)
    ensures
        digits_text(ds.push(x)) == seq![digit_char(x as nat)] + digits_text(ds),
    decreases ds.len(),
{
    if ds.len() == 0 {
        assert(ds.push(x)[0] == x);
        assert(ds.push(x).drop_first() =~= Seq::<u64>::empty());
        assert(digits_text(ds.push(x)) == digits_text(ds.push(x).drop_first()) + seq![
            digit_char(ds.push(x)[0] as nat),
        ]);
        assert(digits_text(Seq::<u64>::empty()) =~= Seq::<char>::empty());
        assert(digits_text(ds.push(x)) =~= seq![digit_char(x as nat)] + digits_text(ds));
    } else {
        assert(ds.push(x)[0] == ds[0]);
        assert(ds.push(x).drop_first() =~= ds.drop_first().push(x));
        lemma_digits_text_push(ds.drop_first(), x);
        assert(digits_text(ds.push(x)) == digits_text(ds.drop_first().push(x)) + seq![
            digit_char(ds[0] as nat),
        ]);
        assert((seq![digit_char(x as nat)] + digits_text(ds.drop_first())) + seq![
            digit_char(ds[0] as nat),
        ] =~= seq![digit_char(x as nat)] + digits_text(ds));
    }
}

/// The text still owed when `rest` remains and `ds` is collected.
pub open spec fn dec_text_state(n: nat, rest: nat, ds: Seq<u64>) -> bool {
    if rest == 0 && ds.len() > 0 {
        dec_str(n) == digits_text(ds)
    } else {
        dec_str(n) == dec_str(rest) + digits_text(ds)
    }
}

/// Writes `n` in decimal.
#[verifier::loop_isolation(false)]
pub fn u64_to_string(n: u64) -> (r: String)
    ensures
        r@ == dec_str(n as nat),
{
    let mut digits: Vec<u64> = Vec::new();
    let mut rest: u64 = n;
    proof {
        assert(digits_text(digits@) =~= Seq::<char>::empty());
        assert(dec_str(n as nat) + digits_text(digits@) =~= dec_str(n as nat));
    }
    if n == 0 {
        digits.push(0);
        proof {
            lemma_digits_text_push(Seq::<u64>::empty(), 0);
            assert(digits@ =~= Seq::<u64>::empty().push(0));
            assert(seq![digit_char(0nat)] + Seq::<char>::empty() =~= seq![digit_char(0nat)]);
            assert(dec_str(0nat) == digits_text(digits@));
        }
    } else {
        while rest > 0
            invariant
                dec_text_state(n as nat, rest as nat, digits@),
                forall|j: int| 0 <= j < digits@.len() ==> (#[trigger] digits@[j]) < 10,
                rest == 0 ==> digits@.len() > 0,
            decreases rest,
        {
            let ghost ds0 = digits@;
            let ghost rest0 = rest as nat;
            let d = rest % 10;
            rest = rest / 10;
            digits.push(d);
            proof {
                lemma_digits_text_push(ds0, d);
                if rest0 >= 10 {
                    assert(dec_str(rest0) == dec_str(rest0 / 10).push(digit_char(rest0 % 10)));
                    assert(dec_str(rest0 / 10).push(digit_char(rest0 % 10)) + digits_text(ds0)
                        =~= dec_str(rest0 / 10) + digits_text(ds0.push(d)));
                } else {
                    assert(rest as nat == 0);
                    assert(dec_str(rest0) =~= seq![digit_char(rest0 % 10)]);
                    assert(dec_str(rest0) + digits_text(ds0) =~= digits_text(ds0.push(d)));
                }
            }
        }
        proof {
            assert(dec_str(n as nat) == digits_text(digits@));
        }
    }
    let mut r = String::new();
    let mut i: usize = digits.len();
    proof {
        assert(digits@.skip(digits@.len() as int) =~= Seq::<u64>::empty());
        assert(r@ =~= digits_text(digits@.skip(digits@.len() as int)));
    }
    while i > 0
        invariant
            0 <= i <= digits@.len(),
            forall|j: int| 0 <= j < digits@.len() ==> (#[trigger] digits@[j]) < 10,
            r@ == digits_text(digits@.skip(i as int)),
            dec_str(n as nat) == digits_text(digits@),
        decreases i,
    {
        i = i - 1;
        let piece = digit_str(digits[i]);
        r.append(piece);
        proof {
            assert(digits@.skip(i as int).drop_first() =~= digits@.skip(i + 1));
            assert(digits@.skip(i as int)[0] == digits@[i as int]);
            assert(digits_text(digits@.skip(i as int)) == digits_text(digits@.skip(i + 1)) + seq![
                digit_char(digits@[i as int] as nat),
            ]);
            assert(piece@ =~= seq![digit_char(digits@[i as int] as nat)]);
            assert(r@ =~= digits_text(digits@.skip(i as int)));
        }
    }
    proof {
        assert(digits@.skip(0) =~= digits@);
    }
    r
}

/// Whether `n` occurs in `s` as a contiguous piece.
pub open spec fn contains_seq(s: Seq<char>, n: Seq<char>) -> bool {
    exists|i: int| 0 <= i <= s.len() - n.len() && #[trigger] s.subrange(i, i + n.len()) == n
}

/// Whether `s` ends in `n`.
pub open spec fn ends_with_seq(s: Seq<char>, n: Seq<char>) -> bool {
    s.len() >= n.len() && s.subrange(s.len() - n.len(), s.len() as int) == n
}

/// Whether `s` begins with `n`.
pub open spec fn starts_with_seq(s: Seq<char>, n: Seq<char>) -> bool {
    s.len() >= n.len() && s.subrange(0, n.len() as int) == n
}

/// Whether the needle matches `s` at position `i`.
#[verifier::loop_isolation(false)]
fn matches_at(s: &str, slen: usize, n: &str, nlen: usize, i: usize) -> (r: bool)
    requires
        slen == s@.len(),
        nlen == n@.len(),
        i + nlen <= slen,
    ensures
        r == (s@.subrange(i as int, i + n@.len()) == n@),
{
    let mut j: usize = 0;
    while j < nlen
        invariant
            0 <= j <= nlen,
            forall|l: int| 0 <= l < j ==> s@[i + l] == n@[l],
        decreases nlen - j,
    {
        if s.get_char(i + j) != n.get_char(j) {
            proof {
                assert(s@.subrange(i as int, i + n@.len())[j as int] == s@[i + j]);
            }
            return false;
        }
        j += 1;
    }
    proof {
        assert(s@.subrange(i as int, i + n@.len()) =~= n@);
    }
    true
}

/// Whether `n` occurs anywhere in `s`.
#[verifier::loop_isolation(false)]
pub fn str_contains(s: &str, n: &str) -> (r: bool)
    ensures
        r == contains_seq(s@, n@),
{
    let slen = s.unicode_len();
    let nlen = n.unicode_len();
    if nlen > slen {
        return false;
    }
    if nlen == 0 {
        proof {
            let zero: int = 0;
            assert(s@.subrange(zero, zero + n@.len()) =~= n@);
            assert(contains_seq(s@, n@));
        }
        return true;
    }
    let mut i: usize = 0;
    while i <= slen - nlen
        invariant
            1 <= nlen <= slen,
            0 <= i <= slen - nlen + 1,
            forall|l: int|
                0 <= l < i ==> #[trigger] s@.subrange(l, l + n@.len()) != n@,
        decreases slen - nlen + 1 - i,
    {
        if matches_at(s, slen, n, nlen, i) {
            return true;
        }
        i += 1;
    }
    proof {
        if contains_seq(s@, n@) {
            let l = choose|l: int|
                0 <= l <= s@.len() - n@.len() && #[trigger] s@.subrange(l, l + n@.len()) == n@;
            assert(false);
        }
    }
    false
}

/// Whether `s` ends in `n`.
pub fn str_ends_with(s: &str, n: &str) -> (r: bool)
    ensures
        r == ends_with_seq(s@, n@),
{
    let slen = s.unicode_len();
    let nlen = n.unicode_len();
    if nlen > slen {
        return false;
    }
    matches_at(s, slen, n, nlen, slen - nlen)
}

/// Whether `s` begins with `n`.
pub fn str_starts_with(s: &str, n: &str) -> (r: bool)
    ensures
        r == starts_with_seq(s@, n@),
{
    let slen = s.unicode_len();
    let nlen = n.unicode_len();
    if nlen > slen {
        return false;
    }
    matches_at(s, slen, n, nlen, 0)
}


} // verus!
