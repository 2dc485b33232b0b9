//! Small verified building blocks for working with strings as sequences
//! of characters.

use vstd::prelude::*;

verus! {

/// Character-wise string equality.
pub fn str_eq(a: &str, b: &str) -> (r: bool)
    ensures
        r == (a@ == b@),
{
    let alen = a.unicode_len();
    let blen = b.unicode_len();
    if alen != blen {
        return false;
    }
    let mut i: usize = 0;
    while i < alen
        invariant
            a@.len() == alen,
            b@.len() == blen,
            alen == blen,
            i <= alen,
            forall|j: int| 0 <= j < i ==> a@[j] == b@[j],
        decreases alen - i,
    {
        if a.get_char(i) != b.get_char(i) {
            return false;
        }
        i = i + 1;
    }
    proof {
        assert(a@ =~= b@);
    }
    true
}

/// Relies on std's `FromIterator` for `String`: collecting characters
/// yields the string with exactly those characters in order.
#[verifier::external_body]
pub(crate) fn chars_to_string(v: &Vec<char>) -> (r: String)
    ensures
        r@ == v@,
{
    v.iter().collect()
}

/// The first index at or after `from` holding `c`, or the length of `s`
/// if there is none.
pub open spec fn spec_find_char(s: Seq<char>, c: char, from: int) -> int
    decreases s.len() - from
        when 0 <= from <= s.len()
{
    if from >= s.len() {
        s.len() as int
    } else if s[from] == c {
        from
    } else {
        spec_find_char(s, c, from + 1)
    }
}

pub proof fn lemma_find_char_properties(s: Seq<char>, c: char, from: int)
    requires
        0 <= from <= s.len(),
    ensures
        from <= spec_find_char(s, c, from) <= s.len(),
        spec_find_char(s, c, from) < s.len() ==> s[spec_find_char(s, c, from)] == c,
        forall|j: int| from <= j < spec_find_char(s, c, from) ==> s[j] != c,
    decreases s.len() - from,
{
    if from < s.len() && s[from] != c {
        lemma_find_char_properties(s, c, from + 1);
    }
}

/// Finds the first occurrence of `c` at or after `from`; returns the
/// length of `s` when there is none.
pub fn find_char(s: &str, c: char, from: usize) -> (r: usize)
    requires
        from <= s@.len(),
    ensures
        r == spec_find_char(s@, c, from as int),
{
    let n = s.unicode_len();
    let mut i: usize = from;
    while i < n
        invariant
            from <= i <= n,
            n == s@.len(),
            spec_find_char(s@, c, from as int) == spec_find_char(s@, c, i as int),
        decreases n - i,
    {
        if s.get_char(i) == c {
            return i;
        }
        i = i + 1;
    }
    i
}

/// Whether `needle` occurs in `s` starting exactly at index `i`.
pub open spec fn match_at(s: Seq<char>, needle: Seq<char>, i: int) -> bool {
    0 <= i && i + needle.len() <= s.len() && s.subrange(i, i + needle.len()) == needle
}

/// The first index at or after `from` where `needle` occurs in `s`.
pub open spec fn spec_find_sub(s: Seq<char>, needle: Seq<char>, from: int) -> Option<int>
    decreases s.len() - from
        when 0 <= from <= s.len()
{
    if needle.len() == 0 {
        Some(from)
    } else if from + needle.len() > s.len() {
        None
    } else if s.subrange(from, from + needle.len()) == needle {
        Some(from)
    } else {
        spec_find_sub(s, needle, from + 1)
    }
}

pub proof fn lemma_find_sub_properties(s: Seq<char>, needle: Seq<char>, from: int)
    requires
        0 <= from <= s.len(),
    ensures
        spec_find_sub(s, needle, from) is Some ==> {
            let i = spec_find_sub(s, needle, from)->0;
            from <= i && match_at(s, needle, i) && forall|j: int| from <= j < i ==> !match_at(
                s,
                needle,
                j,
            )
        },
        spec_find_sub(s, needle, from) is None ==> forall|j: int|
            from <= j ==> !match_at(s, needle, j),
    decreases s.len() - from,
{
    if needle.len() == 0 {
        assert(s.subrange(from, from) =~= needle);
    } else if from + needle.len() > s.len() {
    } else if s.subrange(from, from + needle.len()) == needle {
    } else {
        lemma_find_sub_properties(s, needle, from + 1);
    }
}

/// Finds the first occurrence of `needle` at or after `from`.
pub fn find_sub(s: &str, needle: &str, from: usize) -> (r: Option<usize>)
    requires
        from <= s@.len(),
    ensures
        r is Some <==> spec_find_sub(s@, needle@, from as int) is Some,
        r is Some ==> r->0 == spec_find_sub(s@, needle@, from as int)->0,
{
    let n = s.unicode_len();
    let m = needle.unicode_len();
    if m == 0 {
        return Some(from);
    }
    if m > n || from > n - m {
        proof {
            lemma_find_sub_none(s@, needle@, from as int);
        }
        return None;
    }
    let mut i: usize = from;
    while i <= n - m
        invariant
            from <= i,
            i <= n - m + 1,
            1 <= m <= n,
            n == s@.len(),
            m == needle@.len(),
            spec_find_sub(s@, needle@, from as int) == spec_find_sub(s@, needle@, i as int),
        decreases n - i,
    {
        let piece = s.substring_char(i, i + m);
        if str_eq(piece, needle) {
            proof {
                assert(s@.subrange(i as int, i + m) == needle@);
            }
            return Some(i);
        }
        i = i + 1;
    }
    proof {
        assert(i + m > n);
    }
    None
}

/// When every start position would run past the end, there is no match.
proof fn lemma_find_sub_none(s: Seq<char>, needle: Seq<char>, from: int)
    requires
        0 <= from <= s.len(),
        from + needle.len() > s.len(),
        needle.len() > 0,
    ensures
        spec_find_sub(s, needle, from) is None,
    decreases s.len() - from,
{
    if from < s.len() {
        lemma_find_sub_none(s, needle, from + 1);
    }
}

/// Whether `needle` occurs anywhere in `s`.
pub open spec fn contains_sub(s: Seq<char>, needle: Seq<char>) -> bool {
    exists|i: int| match_at(s, needle, i)
}

/// Whether `needle` occurs anywhere in `s`.
pub fn str_contains(s: &str, needle: &str) -> (r: bool)
    ensures
        r == contains_sub(s@, needle@),
{
    let found = find_sub(s, needle, 0);
    proof {
        lemma_find_sub_properties(s@, needle@, 0);
    }
    match found {
        Some(i) => {
            proof {
                assert(match_at(s@, needle@, spec_find_sub(s@, needle@, 0)->0));
            }
            true
        },
        None => {
            proof {
                assert(forall|j: int| !match_at(s@, needle@, j)) by {
                    assert(forall|j: int| j < 0 ==> !match_at(s@, needle@, j));
                    assert(forall|j: int| 0 <= j ==> !match_at(s@, needle@, j));
                }
            }
            false
        },
    }
}

/// The last index holding `c`, if any.
pub open spec fn spec_rfind_char(s: Seq<char>, c: char) -> Option<int>
    decreases s.len(),
{
    if s.len() == 0 {
        None
    } else if s.last() == c {
        Some(s.len() - 1)
    } else {
        spec_rfind_char(s.drop_last(), c)
    }
}

pub proof fn lemma_rfind_char_properties(s: Seq<char>, c: char)
    ensures
        spec_rfind_char(s, c) is Some ==> {
            let i = spec_rfind_char(s, c)->0;
            0 <= i < s.len() && s[i] == c && forall|j: int| i < j < s.len() ==> s[j] != c
        },
        spec_rfind_char(s, c) is None ==> forall|j: int| 0 <= j < s.len() ==> s[j] != c,
    decreases s.len(),
{
    if s.len() > 0 && s.last() != c {
        lemma_rfind_char_properties(s.drop_last(), c);
        assert(forall|j: int| 0 <= j < s.len() - 1 ==> s[j] == s.drop_last()[j]);
    }
}

/// Finds the last occurrence of `c` in `s`.
pub fn rfind_char(s: &str, c: char) -> (r: Option<usize>)
    ensures
        r is Some <==> spec_rfind_char(s@, c) is Some,
        r is Some ==> r->0 == spec_rfind_char(s@, c)->0,
{
    let n = s.unicode_len();
    let mut i: usize = n;
    proof {
        assert(s@.take(n as int) =~= s@);
    }
    while i > 0
        invariant
            i <= n,
            n == s@.len(),
            spec_rfind_char(s@, c) == spec_rfind_char(s@.take(i as int), c),
        decreases i,
    {
        i = i - 1;
        if s.get_char(i) == c {
            proof {
                assert(s@.take(i + 1).last() == s@[i as int]);
            }
            return Some(i);
        }
        proof {
            assert(s@.take(i + 1).drop_last() =~= s@.take(i as int));
            assert(s@.take(i + 1).last() == s@[i as int]);
        }
    }
    proof {
        assert(s@.take(0) =~= Seq::<char>::empty());
    }
    None
}

/// A whitespace character, as the White_Space property defines it.
pub open spec fn is_space(c: char) -> bool {
    let u = c as u32;
    ||| (9 <= u && u <= 13)
    ||| u == 32
    ||| u == 133
    ||| u == 160
    ||| u == 5760
    ||| (8192 <= u && u <= 8202)
    ||| u == 8232
    ||| u == 8233
    ||| u == 8239
    ||| u == 8287
    ||| u == 12288
}

/// Whether the character is whitespace.
pub fn is_space_exec(c: char) -> (r: bool)
    ensures
        r == is_space(c),
{
    let u = c as u32;
    (9 <= u && u <= 13) || u == 32 || u == 133 || u == 160 || u == 5760 || (8192 <= u && u <= 8202)
        || u == 8232 || u == 8233 || u == 8239 || u == 8287 || u == 12288
}

/// The first whitespace index at or after `from`, or the length.
pub open spec fn spec_find_space(s: Seq<char>, from: int) -> int
    decreases s.len() - from
        when 0 <= from <= s.len()
{
    if from >= s.len() {
        s.len() as int
    } else if is_space(s[from]) {
        from
    } else {
        spec_find_space(s, from + 1)
    }
}

pub proof fn lemma_find_space_properties(s: Seq<char>, from: int)
    requires
        0 <= from <= s.len(),
    ensures
        from <= spec_find_space(s, from) <= s.len(),
        spec_find_space(s, from) < s.len() ==> is_space(s[spec_find_space(s, from)]),
        forall|j: int| from <= j < spec_find_space(s, from) ==> !is_space(s[j]),
    decreases s.len() - from,
{
    if from < s.len() && !is_space(s[from]) {
        lemma_find_space_properties(s, from + 1);
    }
}

/// Finds the first whitespace character at or after `from`.
pub fn find_space(s: &str, from: usize) -> (r: usize)
    requires
        from <= s@.len(),
    ensures
        r == spec_find_space(s@, from as int),
{
    let n = s.unicode_len();
    let mut i: usize = from;
    while i < n
        invariant
            from <= i <= n,
            n == s@.len(),
            spec_find_space(s@, from as int) == spec_find_space(s@, i as int),
        decreases n - i,
    {
        if is_space_exec(s.get_char(i)) {
            return i;
        }
        i = i + 1;
    }
    i
}

/// Drops leading whitespace.
pub open spec fn trim_leading_spaces(s: Seq<char>) -> Seq<char>
    decreases s.len(),
{
    if s.len() > 0 && is_space(s[0]) {
        trim_leading_spaces(s.drop_first())
    } else {
        s
    }
}

/// Drops trailing whitespace.
pub open spec fn trim_trailing_spaces(s: Seq<char>) -> Seq<char>
    decreases s.len(),
{
    if s.len() > 0 && is_space(s.last()) {
        trim_trailing_spaces(s.drop_last())
    } else {
        s
    }
}

/// The text with whitespace dropped at both ends.
pub open spec fn spec_trim(s: Seq<char>) -> Seq<char> {
    trim_leading_spaces(trim_trailing_spaces(s))
}

/// Trims whitespace from both ends.
pub fn trim_str(s: &str) -> (r: String)
    ensures
        r@ == spec_trim(s@),
{
    let n = s.unicode_len();
    let mut e: usize = n;
    proof {
        assert(s@.take(n as int) =~= s@);
    }
    while e > 0 && is_space_exec(s.get_char(e - 1))
        invariant
            e <= n,
            n == s@.len(),
            trim_trailing_spaces(s@) == trim_trailing_spaces(s@.take(e as int)),
        decreases e,
    {
        proof {
            assert(s@.take(e as int).last() == s@[e - 1]);
            assert(s@.take(e as int).drop_last() =~= s@.take(e - 1));
        }
        e = e - 1;
    }
    proof {
        if e > 0 {
            assert(s@.take(e as int).last() == s@[e - 1]);
        }
        assert(trim_trailing_spaces(s@) == s@.take(e as int));
        assert(s@.take(e as int).skip(0) =~= s@.take(e as int));
    }
    let mut a: usize = 0;
    while a < e && is_space_exec(s.get_char(a))
        invariant
            a <= e <= n,
            n == s@.len(),
            trim_trailing_spaces(s@) == s@.take(e as int),
            trim_leading_spaces(s@.take(e as int)) == trim_leading_spaces(
                s@.take(e as int).skip(a as int),
            ),
        decreases e - a,
    {
        proof {
            assert(s@.take(e as int).skip(a as int)[0] == s@[a as int]);
            assert(s@.take(e as int).skip(a as int).drop_first() =~= s@.take(e as int).skip(a + 1));
        }
        a = a + 1;
    }
    proof {
        if a < e {
            assert(s@.take(e as int).skip(a as int)[0] == s@[a as int]);
        }
        assert(trim_leading_spaces(s@.take(e as int)) == s@.take(e as int).skip(a as int));
        assert(s@.take(e as int).skip(a as int) =~= s@.subrange(a as int, e as int));
    }
    let piece = s.substring_char(a, e);
    piece.to_owned()
}

/// The piece after the last occurrence of `c`, or all of `s` when `c`
/// does not occur.
pub open spec fn spec_last_piece(s: Seq<char>, c: char) -> Seq<char> {
    match spec_rfind_char(s, c) {
        Some(i) => s.skip(i + 1),
        None => s,
    }
}

/// Returns the piece after the last occurrence of `c`.
pub fn last_piece<'a>(s: &'a str, c: char) -> (r: &'a str)
    ensures
        r@ == spec_last_piece(s@, c),
{
    let n = s.unicode_len();
    match rfind_char(s, c) {
        Some(i) => {
            proof {
                lemma_rfind_char_properties(s@, c);
                assert(s@.subrange(i + 1, n as int) =~= s@.skip(i + 1));
            }
            s.substring_char(i + 1, n)
        },
        None => {
            proof {
                assert(s@.subrange(0, n as int) =~= s@);
            }
            s.substring_char(0, n)
        },
    }
}

/// The pieces joined with the separator between adjacent ones.
pub open spec fn spec_join(parts: Seq<Seq<char>>, sep: Seq<char>) -> Seq<char>
    decreases parts.len(),
{
    if parts.len() == 0 {
        Seq::empty()
    } else if parts.len() == 1 {
        parts[0]
    } else {
        parts[0] + sep + spec_join(parts.drop_first(), sep)
    }
}

/// Appending one more part extends the join by a separator and the part.
pub proof fn lemma_join_push(parts: Seq<Seq<char>>, sep: Seq<char>, x: Seq<char>)
    ensures
        spec_join(parts.push(x), sep) == if parts.len() == 0 {
            x
        } else {
            spec_join(parts, sep) + sep + x
        },
    decreases parts.len(),
{
    if parts.len() == 0 {
        assert(parts.push(x)[0] == x);
    } else {
        lemma_join_push(parts.drop_first(), sep, x);
        assert(parts.push(x).drop_first() =~= parts.drop_first().push(x));
        assert(parts.push(x)[0] == parts[0]);
        if parts.len() == 1 {
            assert(parts.drop_first().len() == 0);
            assert(spec_join(parts.push(x), sep) == parts[0] + sep + x);
        }
    }
}

/// Joins the parts with the separator.
pub fn join_with(parts: &Vec<String>, sep: &str) -> (r: String)
    ensures
        r@ == spec_join(parts@.map_values(|p: String| p@), sep@),
{
    let ghost ps = parts@.map_values(|p: String| p@);
    let n = parts.len();
    let mut out = String::new();
    let mut i: usize = 0;
    proof {
        assert(out@ =~= spec_join(ps.take(0), sep@));
    }
    while i < n
        invariant
            i <= n,
            n == parts@.len(),
            ps == parts@.map_values(|p: String| p@),
            out@ == spec_join(ps.take(i as int), sep@),
        decreases n - i,
    {
        if i > 0 {
            out.append(sep);
        }
        out.append(parts[i].as_str());
        proof {
            assert(ps.take(i + 1).drop_last() =~= ps.take(i as int));
            assert(ps.take(i + 1) =~= ps.take(i as int).push(ps[i as int]));
            lemma_join_push(ps.take(i as int), sep@, ps[i as int]);
        }
        i = i + 1;
    }
    proof {
        assert(ps.take(n as int) =~= ps);
    }
    out
}

/// The text with every occurrence of `pat` removed, scanning left to
/// right without rescanning what a removal joins together.
pub open spec fn spec_remove_sub(s: Seq<char>, pat: Seq<char>) -> Seq<char>
    decreases s.len()
        when pat.len() > 0
{
    match spec_find_sub(s, pat, 0) {
        None => s,
        Some(i) => if 0 <= i && i + pat.len() <= s.len() {
            s.take(i) + spec_remove_sub(s.skip(i + pat.len()), pat)
        } else {
            // A found match always lies inside the text.
            s
        },
    }
}

/// Removes every occurrence of `pat`.
pub fn remove_sub(s: &str, pat: &str) -> (r: String)
    requires
        pat@.len() > 0,
    ensures
        r@ == spec_remove_sub(s@, pat@),
{
    let mut out = String::new();
    let mut rest = s.to_owned();
    let m = pat.unicode_len();
    loop
        invariant
            m == pat@.len(),
            m > 0,
            spec_remove_sub(s@, pat@) == out@ + spec_remove_sub(rest@, pat@),
        decreases rest@.len(),
    {
        let n = rest.as_str().unicode_len();
        match find_sub(rest.as_str(), pat, 0) {
            None => {
                out.append(rest.as_str());
                proof {
                    assert(out@ =~= spec_remove_sub(s@, pat@));
                }
                return out;
            },
            Some(i) => {
                proof {
                    lemma_find_sub_properties(rest@, pat@, 0);
                }
                let head = rest.as_str().substring_char(0, i);
                let tail = rest.as_str().substring_char(i + m, n);
                out.append(head);
                let next = tail.to_owned();
                proof {
                    assert(head@ =~= rest@.take(i as int));
                    assert(next@ =~= rest@.skip(i + m));
                }
                rest = next;
            },
        }
    }
}

/// A decimal digit.
pub open spec fn is_digit(c: char) -> bool {
    48 <= c as u32 <= 57
}

pub open spec fn digit_val(c: char) -> nat {
    (c as u32 - 48) as nat
}

pub open spec fn all_digits(s: Seq<char>) -> bool {
    forall|i: int| 0 <= i < s.len() ==> is_digit(#[trigger] s[i])
}

/// The numeric value of a digit string, most significant digit first.
pub open spec fn digits_val(s: Seq<char>) -> nat
    decreases s.len(),
{
    if s.len() == 0 {
        0
    } else {
        digits_val(s.drop_last()) * 10 + digit_val(s.last())
    }
}

/// The digit part of an unsigned decimal literal: everything after an
/// optional leading plus sign.
pub open spec fn digits_of(s: Seq<char>) -> Seq<char> {
    if s.len() > 0 && s[0] == '+' {
        s.drop_first()
    } else {
        s
    }
}

/// Whether `s` is a well-formed unsigned decimal that fits in `usize`:
/// an optional plus sign, then at least one digit, with a small enough
/// value.
pub open spec fn parse_usize_ok(s: Seq<char>) -> bool {
    let d = digits_of(s);
    d.len() > 0 && all_digits(d) && digits_val(d) <= usize::MAX
}

pub open spec fn parse_usize_val(s: Seq<char>) -> nat {
    digits_val(digits_of(s))
}

/// The value of a longer digit prefix never drops below the value of a
/// shorter one.
proof fn lemma_digits_val_take_le(s: Seq<char>, j: int)
    requires
        0 <= j <= s.len(),
    ensures
        digits_val(s.take(j)) <= digits_val(s),
    decreases s.len() - j,
{
    if j < s.len() {
        lemma_digits_val_take_le(s, j + 1);
        assert(s.take(j + 1).drop_last() =~= s.take(j));
        assert(digits_val(s.take(j + 1)) == digits_val(s.take(j)) * 10 + digit_val(
            s.take(j + 1).last(),
        ));
    } else {
        assert(s.take(j) =~= s);
    }
}

/// Parses an unsigned decimal integer the way `str::parse::<usize>` does:
/// an optional leading plus sign, then one or more digits, rejecting
/// anything else and values that do not fit.
pub fn parse_usize(s: &str) -> (r: Option<usize>)
    ensures
        r is Some <==> parse_usize_ok(s@),
        r is Some ==> r->0 == parse_usize_val(s@),
{
    let n = s.unicode_len();
    let mut i: usize = 0;
    if n > 0 && s.get_char(0) == '+' {
        i = 1;
    }
    let ghost d = digits_of(s@);
    proof {
        assert(d =~= s@.skip(i as int));
    }
    if i == n {
        return None;
    }
    let mut acc: usize = 0;
    let mut k: usize = i;
    while k < n
        invariant
            i <= k <= n,
            n == s@.len(),
            d == s@.skip(i as int),
            d == digits_of(s@),
            acc as nat == digits_val(d.take(k - i)),
            all_digits(d.take(k - i)),
        decreases n - k,
    {
        let c = s.get_char(k);
        let u = c as u32;
        if u < 48 || u > 57 {
            proof {
                assert(d[k - i] == s@[k as int]);
                assert(!is_digit(d[k - i]));
            }
            return None;
        }
        let dv = (u - 48) as usize;
        let next = match acc.checked_mul(10) {
            Some(t) => t.checked_add(dv),
            None => None,
        };
        match next {
            Some(v) => {
                acc = v;
                proof {
                    assert(d.take(k - i + 1).drop_last() =~= d.take(k - i));
                    assert(d.take(k - i + 1).last() == d[k - i]);
                    assert(d[k - i] == s@[k as int]);
                }
                k = k + 1;
            },
            None => {
                // The full value is at least this prefix's value, which
                // already exceeds the machine limit.
                proof {
                    assert(d.take(k - i + 1).drop_last() =~= d.take(k - i));
                    assert(d.take(k - i + 1).last() == d[k - i]);
                    assert(d[k - i] == s@[k as int]);
                    assert(digits_val(d.take(k - i + 1)) > usize::MAX);
                    lemma_digits_val_take_le(d, k - i + 1);
                }
                return None;
            },
        }
    }
    proof {
        assert(d.take(n - i) =~= d);
    }
    Some(acc)
}

/// The decimal digits of `n`, most significant first.
pub open spec fn dec_digits(n: nat) -> Seq<char>
    decreases n,
{
    if n < 10 {
        seq![((48 + n) as u8) as char]
    } else {
        dec_digits(n / 10).push(((48 + n % 10) as u8) as char)
    }
}

/// The decimal digits of `n` left-padded with zeros to at least `w`
/// characters.
pub open spec fn zero_pad(n: nat, w: nat) -> Seq<char> {
    if dec_digits(n).len() >= w {
        dec_digits(n)
    } else {
        Seq::new((w - dec_digits(n).len()) as nat, |i: int| '0') + dec_digits(n)
    }
}

/// The decimal digits of `n`, as characters.
pub fn digits_vec(n: usize) -> (v: Vec<char>)
    ensures
        v@ == dec_digits(n as nat),
    decreases n,
{
    if n < 10 {
        let c = ((48 + n as u8)) as char;
        let mut v: Vec<char> = Vec::new();
        v.push(c);
        proof {
            assert(v@ =~= dec_digits(n as nat));
        }
        v
    } else {
        let mut v = digits_vec(n / 10);
        let c = ((48 + (n % 10) as u8)) as char;
        v.push(c);
        v
    }
}

/// Renders `n` in decimal, left-padded with zeros to at least `w`
/// characters.
pub fn zero_padded(n: usize, w: usize) -> (v: Vec<char>)
    ensures
        v@ == zero_pad(n as nat, w as nat),
{
    let digits = digits_vec(n);
    let dlen = digits.len();
    if dlen >= w {
        return digits;
    }
    let mut v: Vec<char> = Vec::new();
    let mut i: usize = 0;
    while i < w - dlen
        invariant
            dlen == dec_digits(n as nat).len(),
            dlen < w,
            i <= w - dlen,
            v@ =~= Seq::new(i as nat, |j: int| '0'),
        decreases w - dlen - i,
    {
        v.push('0');
        proof {
            assert(v@ =~= Seq::new((i + 1) as nat, |j: int| '0'));
        }
        i = i + 1;
    }
    let mut digits = digits;
    v.append(&mut digits);
    proof {
        assert(v@ =~= zero_pad(n as nat, w as nat));
    }
    v
}

} // verus!

