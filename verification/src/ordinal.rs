//! The ordinal-ordering law: comparing the fixed-width `MAJOR-MINOR`
//! ordinal strings lexicographically is the same as comparing the
//! numeric (major, minor) pairs, as long as the numbers fit their
//! fixed widths. This is the invariant that makes the on-disk chapter
//! directories sort correctly.

use vstd::arithmetic::div_mod::{
    lemma_basic_div, lemma_breakdown, lemma_div_denominator, lemma_div_is_ordered,
    lemma_fundamental_div_mod, lemma_fundamental_div_mod_converse,
    lemma_mod_division_less_than_divisor, lemma_multiply_divide_lt, lemma_small_mod,
};
use vstd::prelude::*;

use crate::scrape::spec_chapter_number;
use crate::strings::{dec_digits, zero_pad};

verus! {

/// Ten to the power `k`.
pub open spec fn pow10(k: nat) -> nat
    decreases k,
{
    if k == 0 {
        1
    } else {
        10 * pow10((k - 1) as nat)
    }
}

/// Strict lexicographic order on character sequences, by code point; a
/// proper prefix comes first.
pub open spec fn lex_lt(a: Seq<char>, b: Seq<char>) -> bool
    decreases a.len() + b.len(),
{
    if b.len() == 0 {
        false
    } else if a.len() == 0 {
        true
    } else if (a[0] as u32) < (b[0] as u32) {
        true
    } else if a[0] != b[0] {
        false
    } else {
        lex_lt(a.drop_first(), b.drop_first())
    }
}

/// Nothing precedes itself.
proof fn lemma_lex_irrefl(a: Seq<char>)
    ensures
        !lex_lt(a, a),
    decreases a.len(),
{
    if a.len() > 0 {
        lemma_lex_irrefl(a.drop_first());
    }
}

/// The order never holds both ways.
proof fn lemma_lex_asym(a: Seq<char>, b: Seq<char>)
    requires
        lex_lt(a, b),
    ensures
        !lex_lt(b, a),
    decreases a.len() + b.len(),
{
    if a.len() > 0 && b.len() > 0 && a[0] == b[0] {
        lemma_lex_asym(a.drop_first(), b.drop_first());
    }
}

/// A shared prefix does not affect the order.
proof fn lemma_lex_prefix(p: Seq<char>, s: Seq<char>, t: Seq<char>)
    ensures
        lex_lt(p + s, p + t) == lex_lt(s, t),
    decreases p.len(),
{
    if p.len() == 0 {
        assert(p + s =~= s);
        assert(p + t =~= t);
    } else {
        assert((p + s)[0] == p[0]);
        assert((p + t)[0] == p[0]);
        assert((p + s).drop_first() =~= p.drop_first() + s);
        assert((p + t).drop_first() =~= p.drop_first() + t);
        lemma_lex_prefix(p.drop_first(), s, t);
    }
}

/// Ordered strings of one length stay ordered under any suffixes.
proof fn lemma_lex_extend(a: Seq<char>, b: Seq<char>, s: Seq<char>, t: Seq<char>)
    requires
        lex_lt(a, b),
        a.len() == b.len(),
    ensures
        lex_lt(a + s, b + t),
    decreases a.len(),
{
    assert(b.len() > 0);
    assert(a.len() > 0);
    assert((a + s)[0] == a[0]);
    assert((b + t)[0] == b[0]);
    if (a[0] as u32) < (b[0] as u32) {
    } else {
        assert(a[0] == b[0]);
        assert((a + s).drop_first() =~= a.drop_first() + s);
        assert((b + t).drop_first() =~= b.drop_first() + t);
        lemma_lex_extend(a.drop_first(), b.drop_first(), s, t);
    }
}

/// A number below `10^k` has at most `k` digits.
proof fn lemma_dec_digits_len_le(n: nat, k: nat)
    requires
        1 <= k,
        n < pow10(k),
    ensures
        1 <= dec_digits(n).len() <= k,
    decreases k,
{
    if n < 10 {
    } else {
        if k == 1 {
            assert(pow10(1) == 10 * pow10(0));
            assert(false);
        }
        assert(pow10(k) == 10 * pow10((k - 1) as nat));
        lemma_multiply_divide_lt(n as int, 10, pow10((k - 1) as nat) as int);
        lemma_dec_digits_len_le(n / 10, (k - 1) as nat);
    }
}

/// The padded digits of a number below `10^w` are exactly `w` wide.
proof fn lemma_zero_pad_len(n: nat, w: nat)
    requires
        1 <= w,
        n < pow10(w),
    ensures
        zero_pad(n, w).len() == w,
{
    lemma_dec_digits_len_le(n, w);
}

/// Splitting off the last digit: the padded digits of `n` are the
/// padded digits of `n / 10`, one narrower, with the digit of `n % 10`
/// appended.
proof fn lemma_zero_pad_unsnoc(n: nat, w: nat)
    requires
        2 <= w,
        n < pow10(w),
    ensures
        zero_pad(n, w) == zero_pad(n / 10, (w - 1) as nat).push(((48 + n % 10) as u8) as char),
    decreases w,
{
    lemma_dec_digits_len_le(n, w);
    if n < 10 {
        lemma_basic_div(n as int, 10);
        lemma_small_mod(n, 10);
        assert(n / 10 == 0);
        assert(n % 10 == n);
        assert(dec_digits(0) =~= seq!['0']);
        assert(zero_pad(n, w) =~= zero_pad(0, (w - 1) as nat).push(((48 + n) as u8) as char));
    } else {
        assert(dec_digits(n) == dec_digits(n / 10).push(((48 + n % 10) as u8) as char));
        assert(dec_digits(n / 10).len() == dec_digits(n).len() - 1);
        assert(zero_pad(n, w) =~= zero_pad(n / 10, (w - 1) as nat).push(
            ((48 + n % 10) as u8) as char,
        ));
    }
}

/// Splitting off the first digit: the padded digits of `n` start with
/// the digit of `n / 10^(w-1)`, followed by the padded digits of the
/// remainder, one narrower.
proof fn lemma_zero_pad_front(n: nat, w: nat)
    requires
        2 <= w,
        n < pow10(w),
    ensures
        zero_pad(n, w) == seq![((48 + n / pow10((w - 1) as nat)) as u8) as char] + zero_pad(
            n % pow10((w - 1) as nat),
            (w - 1) as nat,
        ),
    decreases w,
{
    let p = pow10((w - 1) as nat);
    assert(pow10(w) == 10 * p);
    lemma_zero_pad_unsnoc(n, w);
    if w == 2 {
        assert(p == 10 * pow10(0));
        assert(p == 10);
        lemma_multiply_divide_lt(n as int, 10, 10);
        lemma_mod_division_less_than_divisor(n as int, 10);
        assert(zero_pad(n / 10, 1) =~= seq![((48 + n / 10) as u8) as char]);
        assert(zero_pad(n % 10, 1) =~= seq![((48 + n % 10) as u8) as char]);
        assert(zero_pad(n, 2) =~= seq![((48 + n / 10) as u8) as char] + zero_pad(n % 10, 1));
    } else {
        let p1 = pow10((w - 2) as nat);
        assert(p == 10 * p1);
        lemma_multiply_divide_lt(n as int, 10, p as int);
        lemma_zero_pad_front(n / 10, (w - 1) as nat);
        // The leading digit is the same whether we peel tens first.
        lemma_div_denominator(n as int, 10, p1 as int);
        assert((n / 10) / p1 == n / p);
        // The remainder decomposes into its own tens and last digit.
        lemma_breakdown(n as int, 10, p1 as int);
        assert(n % p == 10 * ((n / 10) % p1) + n % 10);
        let m = (n / 10) % p1;
        let r0 = n % 10;
        lemma_mod_division_less_than_divisor(n as int, 10);
        lemma_fundamental_div_mod_converse((n % p) as int, 10, m as int, r0 as int);
        assert((n % p) / 10 == m);
        assert((n % p) % 10 == r0);
        lemma_mod_division_less_than_divisor(n as int, p as int);
        lemma_zero_pad_unsnoc(n % p, (w - 1) as nat);
        assert(zero_pad(n, w) =~= seq![((48 + n / p) as u8) as char] + zero_pad(
            n % p,
            (w - 1) as nat,
        ));
    }
}

/// Zero-padded digit strings of one width order exactly as their
/// numbers do.
proof fn lemma_pad_lt(a: nat, b: nat, w: nat)
    requires
        1 <= w,
        a < b,
        b < pow10(w),
    ensures
        lex_lt(zero_pad(a, w), zero_pad(b, w)),
    decreases w,
{
    if w == 1 {
        assert(pow10(1) == 10 * pow10(0));
        assert(b < 10);
        assert(zero_pad(a, 1) =~= seq![((48 + a) as u8) as char]);
        assert(zero_pad(b, 1) =~= seq![((48 + b) as u8) as char]);
        assert((((48 + a) as u8) as char) as u32 == 48 + a);
        assert((((48 + b) as u8) as char) as u32 == 48 + b);
    } else {
        let p = pow10((w - 1) as nat);
        assert(pow10(w) == 10 * p);
        lemma_zero_pad_front(a, w);
        lemma_zero_pad_front(b, w);
        let ha = a / p;
        let hb = b / p;
        lemma_div_is_ordered(a as int, b as int, p as int);
        lemma_multiply_divide_lt(b as int, p as int, 10);
        assert(hb < 10) by {
            assert(b < p * 10);
        }
        let sa = zero_pad(a % p, (w - 1) as nat);
        let sb = zero_pad(b % p, (w - 1) as nat);
        let ca = ((48 + ha) as u8) as char;
        let cb = ((48 + hb) as u8) as char;
        assert((seq![ca] + sa)[0] == ca);
        assert((seq![cb] + sb)[0] == cb);
        assert((ca as u32) == 48 + ha);
        assert((cb as u32) == 48 + hb);
        if ha == hb {
            lemma_fundamental_div_mod(a as int, p as int);
            lemma_fundamental_div_mod(b as int, p as int);
            lemma_mod_division_less_than_divisor(b as int, p as int);
            assert(a % p < b % p);
            lemma_pad_lt(a % p, b % p, (w - 1) as nat);
            assert((seq![ca] + sa).drop_first() =~= sa);
            assert((seq![cb] + sb).drop_first() =~= sb);
        } else {
            assert(ha < hb);
        }
    }
}

/// The ordinal-ordering law: for chapters whose major ordinal fits in
/// four digits and whose minor ordinal fits in two, comparing the
/// rendered `MAJOR-MINOR` strings lexicographically gives exactly the
/// numeric order of the (major, minor) pairs.
pub proof fn lemma_ordinal_order(maj1: usize, min1: usize, maj2: usize, min2: usize)
    requires
        maj1 <= 9999,
        maj2 <= 9999,
        min1 <= 99,
        min2 <= 99,
    ensures
        lex_lt(
            spec_chapter_number(seq![maj1, min1]),
            spec_chapter_number(seq![maj2, min2]),
        ) <==> (maj1 < maj2 || (maj1 == maj2 && min1 < min2)),
{
    assert(pow10(0) == 1);
    assert(pow10(1) == 10);
    assert(pow10(2) == 100);
    assert(pow10(3) == 1000);
    assert(pow10(4) == 10000);
    let s1 = spec_chapter_number(seq![maj1, min1]);
    let s2 = spec_chapter_number(seq![maj2, min2]);
    assert(seq![maj1, min1].len() == 2 && seq![maj1, min1][0] == maj1 && seq![maj1, min1][1]
        == min1);
    assert(seq![maj2, min2].len() == 2 && seq![maj2, min2][0] == maj2 && seq![maj2, min2][1]
        == min2);
    assert(s1 == zero_pad(maj1 as nat, 4) + "-"@ + zero_pad(min1 as nat, 2));
    assert(s2 == zero_pad(maj2 as nat, 4) + "-"@ + zero_pad(min2 as nat, 2));
    lemma_zero_pad_len(maj1 as nat, 4);
    lemma_zero_pad_len(maj2 as nat, 4);
    if maj1 < maj2 {
        lemma_pad_lt(maj1 as nat, maj2 as nat, 4);
        lemma_lex_extend(
            zero_pad(maj1 as nat, 4),
            zero_pad(maj2 as nat, 4),
            "-"@ + zero_pad(min1 as nat, 2),
            "-"@ + zero_pad(min2 as nat, 2),
        );
        assert(s1 =~= zero_pad(maj1 as nat, 4) + ("-"@ + zero_pad(min1 as nat, 2)));
        assert(s2 =~= zero_pad(maj2 as nat, 4) + ("-"@ + zero_pad(min2 as nat, 2)));
    } else if maj1 == maj2 && min1 < min2 {
        lemma_pad_lt(min1 as nat, min2 as nat, 2);
        let p = zero_pad(maj1 as nat, 4) + "-"@;
        lemma_lex_prefix(p, zero_pad(min1 as nat, 2), zero_pad(min2 as nat, 2));
        assert(s1 =~= p + zero_pad(min1 as nat, 2));
        assert(s2 =~= p + zero_pad(min2 as nat, 2));
    } else if maj1 == maj2 && min1 == min2 {
        lemma_lex_irrefl(s1);
        assert(s1 == s2);
    } else if maj1 == maj2 {
        // min1 > min2: the mirrored case orders the other way.
        lemma_pad_lt(min2 as nat, min1 as nat, 2);
        let p = zero_pad(maj1 as nat, 4) + "-"@;
        lemma_lex_prefix(p, zero_pad(min2 as nat, 2), zero_pad(min1 as nat, 2));
        assert(s1 =~= p + zero_pad(min1 as nat, 2));
        assert(s2 =~= p + zero_pad(min2 as nat, 2));
        lemma_lex_asym(s2, s1);
    } else {
        // maj1 > maj2: the mirrored case orders the other way.
        lemma_pad_lt(maj2 as nat, maj1 as nat, 4);
        lemma_lex_extend(
            zero_pad(maj2 as nat, 4),
            zero_pad(maj1 as nat, 4),
            "-"@ + zero_pad(min2 as nat, 2),
            "-"@ + zero_pad(min1 as nat, 2),
        );
        assert(s1 =~= zero_pad(maj1 as nat, 4) + ("-"@ + zero_pad(min1 as nat, 2)));
        assert(s2 =~= zero_pad(maj2 as nat, 4) + ("-"@ + zero_pad(min2 as nat, 2)));
        lemma_lex_asym(s2, s1);
    }
}

} // verus!
