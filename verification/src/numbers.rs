//! Fixed-width decimal rendering and parsing of counts.
//!
//! Every number in a snapshot is written as exactly twenty decimal digits,
//! enough for any unsigned 64-bit count, so a snapshot is a plain run of
//! equal-sized blocks.

use vstd::prelude::*;

verus! {

/// The width of one rendered number.
pub const BLOCK: usize = 20;

/// The decimal digit character for a value below ten.
pub open spec fn digit_char(d: int) -> char {
    if d == 0 {
        '0'
    } else if d == 1 {
        '1'
    } else if d == 2 {
        '2'
    } else if d == 3 {
        '3'
    } else if d == 4 {
        '4'
    } else if d == 5 {
        '5'
    } else if d == 6 {
        '6'
    } else if d == 7 {
        '7'
    } else if d == 8 {
        '8'
    } else {
        '9'
    }
}

/// Whether `c` is a decimal digit character.
pub open spec fn is_digit(c: char) -> bool {
    c == '0' || c == '1' || c == '2' || c == '3' || c == '4' || c == '5' || c == '6' || c == '7'
        || c == '8' || c == '9'
}

/// The value of a decimal digit character; junk digits count as zero.
pub open spec fn digit_val(c: char) -> int {
    if c == '1' {
        1
    } else if c == '2' {
        2
    } else if c == '3' {
        3
    } else if c == '4' {
        4
    } else if c == '5' {
        5
    } else if c == '6' {
        6
    } else if c == '7' {
        7
    } else if c == '8' {
        8
    } else if c == '9' {
        9
    } else {
        0
    }
}

/// Whether every character of `s` is a decimal digit.
pub open spec fn all_digits(s: Seq<char>) -> bool {
    forall|k: int| 0 <= k < s.len() ==> is_digit(#[trigger] s[k])
}

/// The value of a digit string, most significant digit first.
pub open spec fn dec_val(s: Seq<char>) -> nat
    decreases s.len(),
{
    if s.len() == 0 {
        0
    } else {
        (dec_val(s.drop_last()) * 10 + digit_val(s.last())) as nat
    }
}

/// The `w` least significant decimal digits of `n`, zero padded.
pub open spec fn fixed_digits(n: nat, w: nat) -> Seq<char>
    decreases w,
{
    if w == 0 {
        Seq::empty()
    } else {
        fixed_digits(n / 10, (w - 1) as nat).push(digit_char((n % 10) as int))
    }
}

/// Ten to the `w`.
pub open spec fn pow10(w: nat) -> nat
    decreases w,
{
    if w == 0 {
        1
    } else {
        10 * pow10((w - 1) as nat)
    }
}

/// A block of width `w` renders any value below ten to the `w` exactly.
pub proof fn lemma_fixed_digits_roundtrip(n: nat, w: nat)
    requires
        n < pow10(w),
    ensures
        fixed_digits(n, w).len() == w,
        all_digits(fixed_digits(n, w)),
        dec_val(fixed_digits(n, w)) == n,
    decreases w,
{
    if w == 0 {
    } else {
        assert(pow10(w) == 10 * pow10((w - 1) as nat));
        lemma_fixed_digits_roundtrip(n / 10, (w - 1) as nat);
        let b = fixed_digits(n, w);
        assert(b.drop_last() =~= fixed_digits(n / 10, (w - 1) as nat));
        assert(b.last() == digit_char((n % 10) as int));
        assert(digit_val(digit_char((n % 10) as int)) == n % 10);
        assert(dec_val(b) == (n / 10) * 10 + n % 10);
    }
}

/// Every unsigned 64-bit count fits in one block.
pub proof fn lemma_u64_fits_block()
    ensures
        pow10(BLOCK as nat) > u64::MAX,
{
    reveal_with_fuel(pow10, 21);
}

/// A digit string is worth at least any of its prefixes.
pub proof fn lemma_dec_val_prefix(s: Seq<char>, j: int)
    requires
        0 <= j <= s.len(),
    ensures
        dec_val(s.take(j)) <= dec_val(s),
    decreases s.len() - j,
{
    if j == s.len() {
        assert(s.take(j) =~= s);
    } else {
        lemma_dec_val_prefix(s, j + 1);
        assert(s.take(j + 1).drop_last() =~= s.take(j));
        assert(dec_val(s.take(j + 1)) == dec_val(s.take(j)) * 10 + digit_val(s.take(j + 1).last()));
        assert(dec_val(s.take(j)) * 10 >= dec_val(s.take(j)));
        assert(digit_val(s.take(j + 1).last()) >= 0);
    }
}

/// The digit character for a value below ten.
pub(crate) fn digit_char_exec(d: u64) -> (c: char)
    requires
        d < 10,
    ensures
        c == digit_char(d as int),
{
    if d == 0 {
        '0'
    } else if d == 1 {
        '1'
    } else if d == 2 {
        '2'
    } else if d == 3 {
        '3'
    } else if d == 4 {
        '4'
    } else if d == 5 {
        '5'
    } else if d == 6 {
        '6'
    } else if d == 7 {
        '7'
    } else if d == 8 {
        '8'
    } else {
        '9'
    }
}

/// The value of a digit character, or nothing for any other character.
pub(crate) fn digit_val_exec(c: char) -> (r: Option<u64>)
    ensures
        r is Some <==> is_digit(c),
        r matches Some(d) ==> d == digit_val(c) && d < 10,
{
    if c == '0' {
        Some(0)
    } else if c == '1' {
        Some(1)
    } else if c == '2' {
        Some(2)
    } else if c == '3' {
        Some(3)
    } else if c == '4' {
        Some(4)
    } else if c == '5' {
        Some(5)
    } else if c == '6' {
        Some(6)
    } else if c == '7' {
        Some(7)
    } else if c == '8' {
        Some(8)
    } else if c == '9' {
        Some(9)
    } else {
        None
    }
}

/// Appends the `w` least significant digits of `n`, zero padded.
pub(crate) fn push_fixed_width(n: u64, w: usize, out: &mut Vec<char>)
    ensures
        final(out)@ == old(out)@ + fixed_digits(n as nat, w as nat),
    decreases w,
{
    if w == 0 {
        proof {
            assert(old(out)@ + fixed_digits(n as nat, 0) =~= old(out)@);
        }
    } else {
        push_fixed_width(n / 10, w - 1, out);
        out.push(digit_char_exec(n % 10));
    }
}

/// Appends the one block that renders `n`.
pub(crate) fn push_block(n: u64, out: &mut Vec<char>)
    ensures
        final(out)@ == old(out)@ + fixed_digits(n as nat, BLOCK as nat),
{
    push_fixed_width(n, BLOCK, out);
}

/// What one block of digits is worth: a value, unless a character is no
/// digit or the value overflows an unsigned 64-bit count.
pub open spec fn block_val(b: Seq<char>) -> Option<u64> {
    if all_digits(b) && dec_val(b) <= u64::MAX {
        Some(dec_val(b) as u64)
    } else {
        None
    }
}

/// Reads the block that starts at `pos`.
#[verifier::loop_isolation(false)]
pub(crate) fn parse_block(cs: &Vec<char>, pos: usize) -> (r: Option<u64>)
    requires
        pos + BLOCK <= cs@.len(),
    ensures
        r == block_val(cs@.subrange(pos as int, pos as int + BLOCK as int)),
{
    let ghost b = cs@.subrange(pos as int, pos as int + BLOCK as int);
    let clen = cs.len();
    proof {
        assert(cs@.len() == clen);
    }
    let mut acc: u64 = 0;
    let mut j: usize = 0;
    while j < BLOCK
        invariant
            j <= BLOCK,
            all_digits(b.take(j as int)),
            acc == dec_val(b.take(j as int)),
        decreases BLOCK - j,
    {
        proof {
            assert(b.take(j as int + 1).drop_last() =~= b.take(j as int));
            assert(b.take(j as int + 1).last() == b[j as int]);
        }
        let c = cs[pos + j];
        assert(c == b[j as int]);
        match digit_val_exec(c) {
            None => {
                proof {
                    assert(!is_digit(b[j as int]));
                    assert(!all_digits(b));
                }
                return None;
            },
            Some(d) => {
                if acc > (u64::MAX - d) / 10 {
                    proof {
                        assert(dec_val(b.take(j as int + 1)) == acc * 10 + d);
                        assert(acc * 10 + d > u64::MAX) by (nonlinear_arith)
                            requires
                                acc > (u64::MAX - d) / 10,
                                d < 10,
                        ;
                        lemma_dec_val_prefix(b, j as int + 1);
                        assert(dec_val(b) > u64::MAX);
                    }
                    return None;
                }
                proof {
                    assert(acc * 10 + d <= u64::MAX) by (nonlinear_arith)
                        requires
                            acc <= (u64::MAX - d) / 10,
                            d < 10,
                    ;
                }
                acc = acc * 10 + d;
            },
        }
        j += 1;
    }
    proof {
        assert(b.take(BLOCK as int) =~= b);
    }
    Some(acc)
}

} // verus!

