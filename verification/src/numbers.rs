//! Decimal rendering and parsing of unsigned integers, with the round-trip
//! facts the persistence codec rests on.

use vstd::prelude::*;
use vstd::string::StringExecFns;
use vstd::arithmetic::div_mod::lemma_fundamental_div_mod;

verus! {

/// The digit character for a value below ten.
pub open spec fn digit_char(d: int) -> char {
    if d == 0 {
        '0'
    } else if d == 1 {
        '1'
    } else if d == 2 {
        '2'
    } else if d == 3 {
        '3'
    } else if d == 4 {
        '4'
    } else if d == 5 {
        '5'
    } else if d == 6 {
        '6'
    } else if d == 7 {
        '7'
    } else if d == 8 {
        '8'
    } else {
        '9'
    }
}

/// Decimal representation of a number, most significant digit first, no
/// leading zeroes (a lone zero for 0).
pub open spec fn dec_rep(n: nat) -> Seq<char>
    decreases n,
{
    if n < 10 {
        seq![digit_char(n as int)]
    } else {
        dec_rep(n / 10).push(digit_char((n % 10) as int))
    }
}

/// Whether a character is a decimal digit.
pub open spec fn is_digit_char(c: char) -> bool {
    48 <= c as u32 <= 57
}

/// Numeric value of a digit character.
pub open spec fn digit_value(c: char) -> int {
    c as u32 - 48
}

/// Value of a digit string, most significant digit first.
pub open spec fn digits_value(ds: Seq<char>) -> int
    decreases ds.len(),
{
    if ds.len() == 0 {
        0
    } else {
        digits_value(ds.drop_last()) * 10 + digit_value(ds.last())
    }
}

/// Powers of ten.
pub open spec fn pow10(k: nat) -> int
    decreases k,
{
    if k == 0 {
        1
    } else {
        10 * pow10((k - 1) as nat)
    }
}

/// `dec_rep` produces only digits, at least one, and reading them back gives
/// the number.
pub proof fn lemma_dec_rep_digits(n: nat)
    ensures
        dec_rep(n).len() >= 1,
        forall|j: int| 0 <= j < dec_rep(n).len() ==> is_digit_char(#[trigger] dec_rep(n)[j])
            && digit_value(dec_rep(n)[j]) < 10,
        digits_value(dec_rep(n)) == n,
    decreases n,
{
    if n < 10 {
        assert(dec_rep(n).drop_last() =~= Seq::<char>::empty());
        lemma_digit_char_value(n as int);
        assert(dec_rep(n).last() == digit_char(n as int));
        assert(digits_value(dec_rep(n)) == digits_value(dec_rep(n).drop_last()) * 10
            + digit_value(dec_rep(n).last()));
        assert(digits_value(dec_rep(n).drop_last()) == 0);
    } else {
        lemma_dec_rep_digits(n / 10);
        lemma_digit_char_value((n % 10) as int);
        assert(dec_rep(n).drop_last() =~= dec_rep(n / 10));
        assert(forall|j: int| 0 <= j < dec_rep(n / 10).len() ==> #[trigger] dec_rep(n)[j]
            == dec_rep(n / 10)[j]);
        assert(dec_rep(n).last() == digit_char((n % 10) as int));
        assert(digits_value(dec_rep(n)) == digits_value(dec_rep(n).drop_last()) * 10
            + digit_value(dec_rep(n).last()));
        assert(digits_value(dec_rep(n).drop_last()) == n / 10);
        assert(digit_value(dec_rep(n).last()) == n % 10);
        lemma_fundamental_div_mod(n as int, 10);
        assert(n == (n / 10) * 10 + n % 10);
    }
}

/// A digit below ten renders as a digit character worth itself.
pub proof fn lemma_digit_char_value(d: int)
    requires
        0 <= d < 10,
    ensures
        is_digit_char(digit_char(d)),
        digit_value(digit_char(d)) == d,
{
}

/// A digit string is worth at least zero.
pub proof fn lemma_digits_value_nonneg(ds: Seq<char>)
    requires
        forall|j: int| 0 <= j < ds.len() ==> is_digit_char(#[trigger] ds[j]),
    ensures
        digits_value(ds) >= 0,
    decreases ds.len(),
{
    if ds.len() > 0 {
        lemma_digits_value_nonneg(ds.drop_last());
    }
}

/// Peeling the first digit off a digit string.
pub proof fn lemma_digits_value_first(ds: Seq<char>)
    requires
        ds.len() >= 1,
    ensures
        digits_value(ds) == digit_value(ds[0]) * pow10((ds.len() - 1) as nat) + digits_value(
            ds.drop_first(),
        ),
    decreases ds.len(),
{
    if ds.len() == 1 {
        assert(ds.drop_last() =~= Seq::<char>::empty());
        assert(ds.drop_first() =~= Seq::<char>::empty());
        assert(ds.last() == ds[0]);
    } else {
        lemma_digits_value_first(ds.drop_last());
        assert(ds.drop_last().drop_first() =~= ds.drop_first().drop_last());
        assert(ds.drop_last()[0] == ds[0]);
        assert(ds.drop_first().last() == ds.last());
        let k = (ds.len() - 2) as nat;
        let d0 = digit_value(ds[0]);
        let rest = digits_value(ds.drop_first().drop_last());
        assert(digits_value(ds.drop_last()) == d0 * pow10(k) + rest);
        assert(digits_value(ds) == (d0 * pow10(k) + rest) * 10 + digit_value(ds.last()));
        assert((d0 * pow10(k) + rest) * 10 == d0 * (pow10(k) * 10) + rest * 10)
            by (nonlinear_arith);
        assert(pow10(k) * 10 == pow10((k + 1) as nat));
        assert(digits_value(ds.drop_first()) == rest * 10 + digit_value(
            ds.drop_first().last(),
        ));
    }
}

/// Exec digit for a value below ten, as a one-character string slice.
pub fn digit_str(d: u8) -> (r: &'static str)
    requires
        d < 10,
    ensures
        r@ =~= seq![digit_char(d as int)],
{
    proof {
        reveal_strlit("0");
        reveal_strlit("1");
        reveal_strlit("2");
        reveal_strlit("3");
        reveal_strlit("4");
        reveal_strlit("5");
        reveal_strlit("6");
        reveal_strlit("7");
        reveal_strlit("8");
        reveal_strlit("9");
    }
    match d {
        0 => "0",
        1 => "1",
        2 => "2",
        3 => "3",
        4 => "4",
        5 => "5",
        6 => "6",
        7 => "7",
        8 => "8",
        _ => "9",
    }
}

/// Renders a number in decimal.
pub fn u128_to_string(n: u128) -> (r: String)
    ensures
        r@ == dec_rep(n as nat),
    decreases n,
{
    if n < 10 {
        let mut s = String::new();
        s.append(digit_str(n as u8));
        proof {
            assert(s@ =~= dec_rep(n as nat));
        }
        s
    } else {
        let mut s = u128_to_string(n / 10);
        s.append(digit_str((n % 10) as u8));
        proof {
            assert(s@ =~= dec_rep(n as nat));
        }
        s
    }
}

/// Renders a number in decimal.
pub fn u64_to_string(n: u64) -> (r: String)
    ensures
        r@ == dec_rep(n as nat),
{
    u128_to_string(n as u128)
}

/// A number in decimal, left-padded with one zero to at least two digits.
pub open spec fn padded2(n: nat) -> Seq<char> {
    if n < 10 {
        seq!['0'] + dec_rep(n)
    } else {
        dec_rep(n)
    }
}

/// Renders a number in decimal, left-padded to at least two digits.
pub fn padded2_string(n: u128) -> (r: String)
    ensures
        r@ == padded2(n as nat),
{
    if n < 10 {
        proof {
            reveal_strlit("0");
        }
        let mut s = String::from_str("0");
        s.append(digit_str(n as u8));
        proof {
            assert(s@ =~= padded2(n as nat));
        }
        s
    } else {
        u128_to_string(n)
    }
}

/// Reading an unsigned decimal number from `pos`: the digit run starting
/// there, or nothing when `pos` does not start with a digit or the value
/// leaves the 64-bit range. On success: the value and the position directly
/// after the run.
pub open spec fn parse_u64_loop(s: Seq<char>, pos: int, acc: int) -> Option<(int, int)>
    decreases s.len() - pos,
{
    if pos < s.len() && is_digit_char(s[pos]) {
        let acc2 = acc * 10 + digit_value(s[pos]);
        if acc2 > 0xFFFF_FFFF_FFFF_FFFFu64 {
            None
        } else {
            parse_u64_loop(s, pos + 1, acc2)
        }
    } else {
        Some((acc, pos))
    }
}

/// Reading an unsigned decimal number, which must be at least one digit.
pub open spec fn spec_parse_u64(s: Seq<char>, pos: int) -> Option<(int, int)> {
    if 0 <= pos < s.len() && is_digit_char(s[pos]) {
        parse_u64_loop(s, pos, 0)
    } else {
        None
    }
}

/// What the parse loop makes of a complete digit run followed by a non-digit
/// (or the end): the accumulated value, provided it stays in range.
proof fn lemma_parse_loop_run(s: Seq<char>, pos: int, k: nat, acc: int)
    requires
        0 <= pos,
        pos + k <= s.len(),
        forall|j: int| pos <= j < pos + k ==> is_digit_char(#[trigger] s[j]),
        pos + k < s.len() ==> !is_digit_char(s[pos + k]),
        acc >= 0,
        acc * pow10(k) + digits_value(s.subrange(pos, pos + k)) <= 0xFFFF_FFFF_FFFF_FFFFu64,
    ensures
        parse_u64_loop(s, pos, acc) == Some(
            (acc * pow10(k) + digits_value(s.subrange(pos, pos + k)), pos + k),
        ),
    decreases k,
{
    let ds = s.subrange(pos, pos + k);
    if k == 0 {
        assert(ds =~= Seq::<char>::empty());
        assert(pow10(0) == 1);
    } else {
        assert(is_digit_char(s[pos]));
        let d0 = digit_value(s[pos]);
        let acc2 = acc * 10 + d0;
        lemma_digits_value_first(ds);
        assert(ds[0] == s[pos]);
        assert(ds.drop_first() =~= s.subrange(pos + 1, pos + k));
        let restv = digits_value(s.subrange(pos + 1, pos + k));
        assert(forall|j: int| pos + 1 <= j < pos + 1 + (k - 1) ==> is_digit_char(#[trigger] s[j]));
        lemma_pow10_pos(k);
        lemma_pow10_pos((k - 1) as nat);
        assert(digits_value(ds) == d0 * pow10((k - 1) as nat) + restv);
        assert(acc2 * pow10((k - 1) as nat) == acc * (10 * pow10((k - 1) as nat)) + d0 * pow10(
            (k - 1) as nat,
        )) by (nonlinear_arith)
            requires
                acc2 == acc * 10 + d0,
        ;
        assert(10 * pow10((k - 1) as nat) == pow10(k));
        assert(acc2 * pow10((k - 1) as nat) + restv == acc * pow10(k) + digits_value(ds));
        assert(forall|j: int| pos + 1 <= j < pos + k ==> is_digit_char(#[trigger] s[j])
            && digit_value(s[j]) >= 0);
        lemma_digits_value_nonneg(s.subrange(pos + 1, pos + k));
        assert(acc2 <= acc2 * pow10((k - 1) as nat)) by (nonlinear_arith)
            requires
                acc2 >= 0,
                pow10((k - 1) as nat) >= 1,
        ;
        lemma_parse_loop_run(s, pos + 1, (k - 1) as nat, acc2);
    }
}

/// Powers of ten are positive.
proof fn lemma_pow10_pos(k: nat)
    ensures
        pow10(k) >= 1,
    decreases k,
{
    if k > 0 {
        lemma_pow10_pos((k - 1) as nat);
    }
}

/// Parsing reads back exactly what `dec_rep` wrote: the number itself, ending
/// directly after the written digits.
pub proof fn lemma_parse_dec_rep(s: Seq<char>, pos: int, n: nat)
    requires
        0 <= pos,
        n <= 0xFFFF_FFFF_FFFF_FFFFu64,
        pos + dec_rep(n).len() <= s.len(),
        s.subrange(pos, pos + dec_rep(n).len()) == dec_rep(n),
        pos + dec_rep(n).len() < s.len() ==> !is_digit_char(s[pos + dec_rep(n).len()]),
    ensures
        spec_parse_u64(s, pos) == Some((n as int, pos + dec_rep(n).len())),
{
    let k = dec_rep(n).len();
    lemma_dec_rep_digits(n);
    assert(forall|j: int| pos <= j < pos + k ==> s[j] == dec_rep(n)[j - pos]);
    assert(forall|j: int| pos <= j < pos + k ==> is_digit_char(#[trigger] s[j]));
    lemma_parse_loop_run(s, pos, k, 0);
    assert(0 * pow10(k) == 0) by (nonlinear_arith);
    assert(s.subrange(pos, pos + k as int) == dec_rep(n));
    assert(is_digit_char(s[pos]));
}

/// Reads an unsigned decimal number at `pos`.
pub fn parse_u64(s: &Vec<char>, pos: usize) -> (r: Option<(u64, usize)>)
    ensures
        match r {
            Some((v, p)) => spec_parse_u64(s@, pos as int) == Some((v as int, p as int))
                && pos < p <= s@.len(),
            None => spec_parse_u64(s@, pos as int) is None,
        },
{
    if pos >= s.len() {
        return None;
    }
    let c0 = s[pos];
    if !(48 <= c0 as u32 && c0 as u32 <= 57) {
        return None;
    }
    let mut acc: u64 = 0;
    let mut i: usize = pos;
    while i < s.len() && 48 <= s[i] as u32 && s[i] as u32 <= 57
        invariant
            pos <= i <= s@.len(),
            acc >= 0,
            parse_u64_loop(s@, pos as int, 0) == parse_u64_loop(s@, i as int, acc as int),
            i == pos ==> acc == 0,
            i > pos ==> is_digit_char(s@[pos as int]),
        decreases s@.len() - i,
    {
        let d: u64 = (s[i] as u32 - 48) as u64;
        if acc > (0xFFFF_FFFF_FFFF_FFFFu64 - d) / 10 {
            proof {
                assert(acc as int * 10 + d > 0xFFFF_FFFF_FFFF_FFFFu64) by (nonlinear_arith)
                    requires
                        acc as int > (0xFFFF_FFFF_FFFF_FFFFu64 - d) / 10,
                        0 <= d < 10,
                ;
            }
            return None;
        }
        proof {
            assert(acc as int * 10 + d <= 0xFFFF_FFFF_FFFF_FFFFu64) by (nonlinear_arith)
                requires
                    acc as int <= (0xFFFF_FFFF_FFFF_FFFFu64 - d) / 10,
                    0 <= d < 10,
            ;
        }
        acc = acc * 10 + d;
        i = i + 1;
    }
    proof {
        assert(parse_u64_loop(s@, i as int, acc as int) == Some((acc as int, i as int)));
    }
    Some((acc, i))
}

} // verus!
