//! Name normalization and locator-hash extraction.
//!
//! `normalize` turns a display name into the store's lookup key and the
//! on-disk directory name: accented Latin letters fold to their base
//! letter, every run of other non-alphanumeric characters becomes a
//! single underscore, outer underscores are trimmed, and ASCII letters
//! are lowercased. `extract_hash` reads the opaque work identifier out
//! of a locator: the path segment that follows the first `/series/`
//! segment.

use vstd::prelude::*;

use crate::strings::{
    chars_to_string, find_char, find_sub, lemma_find_char_properties, lemma_find_sub_properties,
    match_at, spec_find_char,
};

verus! {

/// Folds one accented Latin letter to its base letter; anything else is
/// kept.
pub open spec fn fold_char(c: char) -> char {
    let u = c as u32;
    if u == 225 || u == 224 || u == 226 || u == 227 || u == 228 {
        'a'
    } else if u == 233 || u == 232 || u == 234 || u == 235 {
        'e'
    } else if u == 237 || u == 236 || u == 238 || u == 239 {
        'i'
    } else if u == 243 || u == 242 || u == 244 || u == 245 || u == 246 {
        'o'
    } else if u == 250 || u == 249 || u == 251 || u == 252 {
        'u'
    } else if u == 231 {
        'c'
    } else if u == 241 {
        'n'
    } else if u == 253 || u == 255 {
        'y'
    } else if u == 193 || u == 192 || u == 194 || u == 195 || u == 196 {
        'A'
    } else if u == 201 || u == 200 || u == 202 || u == 203 {
        'E'
    } else if u == 205 || u == 204 || u == 206 || u == 207 {
        'I'
    } else if u == 211 || u == 210 || u == 212 || u == 213 || u == 214 {
        'O'
    } else if u == 218 || u == 217 || u == 219 || u == 220 {
        'U'
    } else if u == 199 {
        'C'
    } else if u == 209 {
        'N'
    } else if u == 221 {
        'Y'
    } else {
        c
    }
}

fn fold_char_exec(c: char) -> (r: char)
    ensures
        r == fold_char(c),
{
    let u = c as u32;
    if u == 225 || u == 224 || u == 226 || u == 227 || u == 228 {
        'a'
    } else if u == 233 || u == 232 || u == 234 || u == 235 {
        'e'
    } else if u == 237 || u == 236 || u == 238 || u == 239 {
        'i'
    } else if u == 243 || u == 242 || u == 244 || u == 245 || u == 246 {
        'o'
    } else if u == 250 || u == 249 || u == 251 || u == 252 {
        'u'
    } else if u == 231 {
        'c'
    } else if u == 241 {
        'n'
    } else if u == 253 || u == 255 {
        'y'
    } else if u == 193 || u == 192 || u == 194 || u == 195 || u == 196 {
        'A'
    } else if u == 201 || u == 200 || u == 202 || u == 203 {
        'E'
    } else if u == 205 || u == 204 || u == 206 || u == 207 {
        'I'
    } else if u == 211 || u == 210 || u == 212 || u == 213 || u == 214 {
        'O'
    } else if u == 218 || u == 217 || u == 219 || u == 220 {
        'U'
    } else if u == 199 {
        'C'
    } else if u == 209 {
        'N'
    } else if u == 221 {
        'Y'
    } else {
        c
    }
}

/// An ASCII letter or digit.
pub open spec fn is_ascii_alnum(c: char) -> bool {
    let u = c as u32;
    (48 <= u && u <= 57) || (65 <= u && u <= 90) || (97 <= u && u <= 122)
}

fn is_ascii_alnum_exec(c: char) -> (r: bool)
    ensures
        r == is_ascii_alnum(c),
{
    let u = c as u32;
    (48 <= u && u <= 57) || (65 <= u && u <= 90) || (97 <= u && u <= 122)
}

/// Replaces every maximal run of non-alphanumeric characters with a
/// single underscore: each such run contributes one `_` at the place of
/// its first character.
pub open spec fn collapse_runs(s: Seq<char>) -> Seq<char>
    decreases s.len(),
{
    if s.len() == 0 {
        Seq::empty()
    } else {
        let prev = collapse_runs(s.drop_last());
        let c = s.last();
        if is_ascii_alnum(c) {
            prev.push(c)
        } else if s.len() == 1 || is_ascii_alnum(s[s.len() - 2]) {
            prev.push('_')
        } else {
            prev
        }
    }
}

/// Drops leading underscores.
pub open spec fn trim_leading_underscores(s: Seq<char>) -> Seq<char>
    decreases s.len(),
{
    if s.len() > 0 && s[0] == '_' {
        trim_leading_underscores(s.drop_first())
    } else {
        s
    }
}

/// Drops trailing underscores.
pub open spec fn trim_trailing_underscores(s: Seq<char>) -> Seq<char>
    decreases s.len(),
{
    if s.len() > 0 && s.last() == '_' {
        trim_trailing_underscores(s.drop_last())
    } else {
        s
    }
}

/// Lowercases one ASCII letter.
pub open spec fn to_lower_char(c: char) -> char {
    let u = c as u32;
    if 65 <= u && u <= 90 {
        ((u + 32) as u8) as char
    } else {
        c
    }
}

fn to_lower_char_exec(c: char) -> (r: char)
    ensures
        r == to_lower_char(c),
{
    let u = c as u32;
    if 65 <= u && u <= 90 {
        ((u + 32) as u8) as char
    } else {
        c
    }
}

/// The normalized form of a display name: fold accents, collapse
/// non-alphanumeric runs to single underscores, trim outer underscores,
/// lowercase.
pub open spec fn spec_normalize(s: Seq<char>) -> Seq<char> {
    trim_leading_underscores(
        trim_trailing_underscores(collapse_runs(s.map_values(|c: char| fold_char(c)))),
    ).map_values(|c: char| to_lower_char(c))
}

/// Normalizes a display name into the lookup key / directory name.
pub fn normalize(s: &str) -> (r: String)
    ensures
        r@ == spec_normalize(s@),
{
    let n = s.unicode_len();
    // Fold accented letters.
    let mut folded: Vec<char> = Vec::new();
    let mut i: usize = 0;
    proof {
        assert(folded@ =~= s@.take(0).map_values(|c: char| fold_char(c)));
    }
    while i < n
        invariant
            i <= n,
            n == s@.len(),
            folded@ == s@.take(i as int).map_values(|c: char| fold_char(c)),
        decreases n - i,
    {
        folded.push(fold_char_exec(s.get_char(i)));
        proof {
            assert(folded@ =~= s@.take(i + 1).map_values(|c: char| fold_char(c)));
        }
        i = i + 1;
    }
    proof {
        assert(s@.take(n as int) =~= s@);
    }
    // Collapse runs of non-alphanumeric characters.
    let ghost f = folded@;
    let mut collapsed: Vec<char> = Vec::new();
    let mut j: usize = 0;
    proof {
        assert(collapsed@ =~= collapse_runs(f.take(0)));
    }
    while j < n
        invariant
            j <= n,
            n == folded@.len(),
            f == folded@,
            collapsed@ == collapse_runs(f.take(j as int)),
        decreases n - j,
    {
        proof {
            assert(f.take(j + 1).drop_last() =~= f.take(j as int));
            assert(f.take(j + 1).last() == f[j as int]);
            if j > 0 {
                assert(f.take(j + 1)[j - 1] == f[j - 1]);
            }
        }
        let c = folded[j];
        if is_ascii_alnum_exec(c) {
            collapsed.push(c);
        } else if j == 0 || is_ascii_alnum_exec(folded[j - 1]) {
            collapsed.push('_');
        }
        proof {
            assert(collapsed@ =~= collapse_runs(f.take(j + 1)));
        }
        j = j + 1;
    }
    proof {
        assert(f.take(n as int) =~= f);
    }
    // Trim underscores at both ends.
    let ghost cv = collapsed@;
    let clen = collapsed.len();
    let mut e: usize = clen;
    proof {
        assert(cv.take(e as int) =~= cv);
    }
    while e > 0 && collapsed[e - 1] == '_'
        invariant
            e <= clen,
            clen == collapsed@.len(),
            cv == collapsed@,
            trim_trailing_underscores(cv) == trim_trailing_underscores(cv.take(e as int)),
        decreases e,
    {
        proof {
            assert(cv.take(e as int).last() == cv[e - 1]);
            assert(cv.take(e as int).drop_last() =~= cv.take(e - 1));
        }
        e = e - 1;
    }
    proof {
        if e > 0 {
            assert(cv.take(e as int).last() == cv[e - 1]);
        }
        assert(trim_trailing_underscores(cv) == cv.take(e as int));
    }
    let mut a: usize = 0;
    proof {
        assert(cv.take(e as int).skip(0) =~= cv.take(e as int));
    }
    while a < e && collapsed[a] == '_'
        invariant
            a <= e <= clen,
            clen == collapsed@.len(),
            cv == collapsed@,
            trim_trailing_underscores(cv) == cv.take(e as int),
            trim_leading_underscores(cv.take(e as int)) == trim_leading_underscores(
                cv.take(e as int).skip(a as int),
            ),
        decreases e - a,
    {
        proof {
            assert(cv.take(e as int).skip(a as int)[0] == cv[a as int]);
            assert(cv.take(e as int).skip(a as int).drop_first() =~= cv.take(e as int).skip(
                a + 1,
            ));
        }
        a = a + 1;
    }
    proof {
        if a < e {
            assert(cv.take(e as int).skip(a as int)[0] == cv[a as int]);
        }
        assert(trim_leading_underscores(cv.take(e as int)) == cv.take(e as int).skip(a as int));
    }
    // Copy the kept middle part, lowercased.
    let ghost kept = cv.take(e as int).skip(a as int);
    let mut out: Vec<char> = Vec::new();
    let mut k: usize = a;
    proof {
        assert(out@ =~= kept.take(0).map_values(|c: char| to_lower_char(c)));
    }
    while k < e
        invariant
            a <= k <= e <= clen,
            clen == collapsed@.len(),
            cv == collapsed@,
            kept == cv.take(e as int).skip(a as int),
            out@ == kept.take(k - a).map_values(|c: char| to_lower_char(c)),
        decreases e - k,
    {
        proof {
            assert(kept[k - a] == cv[k as int]);
        }
        out.push(to_lower_char_exec(collapsed[k]));
        proof {
            assert(out@ =~= kept.take(k - a + 1).map_values(|c: char| to_lower_char(c)));
        }
        k = k + 1;
    }
    proof {
        assert(kept.take(e - a) =~= kept);
        assert(out@ == spec_normalize(s@));
    }
    chars_to_string(&out)
}

/// Whether a work-locator hash starts at `i`: a `/series/` segment
/// followed by at least one character other than `/`.
pub open spec fn hash_match_at(s: Seq<char>, i: int) -> bool {
    &&& match_at(s, "/series/"@, i)
    &&& i + 8 < s.len()
    &&& s[i + 8] != '/'
}

/// The hash captured at a match position: everything from after the
/// `/series/` segment up to the next slash or the end.
pub open spec fn hash_capture_at(s: Seq<char>, i: int) -> Seq<char> {
    s.subrange(i + 8, spec_find_char(s, '/', i + 8))
}

/// Scans for the first locator-hash match at or after `from`.
pub open spec fn spec_hash_scan(s: Seq<char>, from: int) -> Option<Seq<char>>
    decreases s.len() - from
        when 0 <= from <= s.len()
{
    if from + 9 > s.len() {
        None
    } else if hash_match_at(s, from) {
        Some(hash_capture_at(s, from))
    } else {
        spec_hash_scan(s, from + 1)
    }
}

/// The opaque work identifier of a locator: the non-empty path segment
/// after the first `/series/` whose capture the locator admits.
pub open spec fn spec_extract_hash(s: Seq<char>) -> Option<Seq<char>> {
    spec_hash_scan(s, 0)
}

/// Scanning from `a` and from `b` agree when no match starts in
/// `[a, b)`.
proof fn lemma_hash_scan_skip(s: Seq<char>, a: int, b: int)
    requires
        0 <= a <= b <= s.len(),
        forall|j: int| a <= j < b ==> !hash_match_at(s, j),
    ensures
        spec_hash_scan(s, a) == spec_hash_scan(s, b),
    decreases b - a,
{
    if a < b {
        if a + 9 > s.len() {
            lemma_hash_scan_none(s, a);
            lemma_hash_scan_none(s, b);
        } else {
            lemma_hash_scan_skip(s, a + 1, b);
        }
    }
}

/// A scan too close to the end finds nothing.
proof fn lemma_hash_scan_none(s: Seq<char>, from: int)
    requires
        0 <= from <= s.len(),
        from + 9 > s.len(),
    ensures
        spec_hash_scan(s, from) is None,
    decreases s.len() - from,
{
    if from < s.len() {
        lemma_hash_scan_none(s, from + 1);
    }
}

/// When no match starts anywhere at or after `from`, the scan finds
/// nothing.
proof fn lemma_hash_scan_none_at_all(s: Seq<char>, from: int)
    requires
        0 <= from <= s.len(),
        forall|j: int| from <= j ==> !hash_match_at(s, j),
    ensures
        spec_hash_scan(s, from) is None,
    decreases s.len() - from,
{
    if from + 9 > s.len() {
        lemma_hash_scan_none(s, from);
    } else {
        lemma_hash_scan_none_at_all(s, from + 1);
    }
}

/// Extracts the opaque work identifier from a locator, when the locator
/// has a `/series/` segment followed by a non-empty segment.
pub fn extract_hash(url: &str) -> (r: Option<String>)
    ensures
        r is Some <==> spec_extract_hash(url@) is Some,
        r is Some ==> (r->0)@ == spec_extract_hash(url@)->0,
{
    proof {
        reveal_strlit("/series/");
    }
    let n = url.unicode_len();
    let mut from: usize = 0;
    loop
        invariant
            from <= n,
            n == url@.len(),
            "/series/"@.len() == 8,
            spec_extract_hash(url@) == spec_hash_scan(url@, from as int),
        decreases n - from,
    {
        match find_sub(url, "/series/", from) {
            None => {
                proof {
                    lemma_find_sub_properties(url@, "/series/"@, from as int);
                    lemma_hash_scan_none_at_all(url@, from as int);
                }
                return None;
            },
            Some(i) => {
                proof {
                    lemma_find_sub_properties(url@, "/series/"@, from as int);
                    lemma_hash_scan_skip(url@, from as int, i as int);
                }
                if i + 8 < n && url.get_char(i + 8) != '/' {
                    let end = find_char(url, '/', i + 8);
                    proof {
                        lemma_find_char_properties(url@, '/', i + 8);
                        assert(hash_match_at(url@, i as int));
                    }
                    let hash = url.substring_char(i + 8, end);
                    proof {
                        assert(hash@ == hash_capture_at(url@, i as int));
                    }
                    return Some(hash.to_owned());
                } else {
                    proof {
                        assert(!hash_match_at(url@, i as int));
                        lemma_hash_scan_skip(url@, i as int, i + 1);
                    }
                    from = i + 1;
                }
            },
        }
    }
}

/// Expands a leading tilde path component against the given home
/// directory: `~` alone becomes the home directory, `~/rest` becomes the
/// home directory joined with `rest`, and anything else is unchanged.
pub open spec fn spec_expand_tilde(path: Seq<char>, home: Seq<char>) -> Seq<char> {
    if path == "~"@ {
        home
    } else if path.len() >= 2 && path[0] == '~' && path[1] == '/' {
        home + "/"@ + path.skip(2)
    } else {
        path
    }
}

/// Expands a leading tilde against the given home directory.
pub fn expand_tilde(path: &str, home: &str) -> (r: String)
    ensures
        r@ == spec_expand_tilde(path@, home@),
{
    proof {
        reveal_strlit("~");
        reveal_strlit("/");
    }
    let n = path.unicode_len();
    if n == 1 && path.get_char(0) == '~' {
        proof {
            assert(path@ =~= "~"@);
        }
        return home.to_owned();
    }
    if n >= 2 && path.get_char(0) == '~' && path.get_char(1) == '/' {
        proof {
            assert(path@ != "~"@);
        }
        let rest = path.substring_char(2, n);
        let r = String::from_str(home).concat("/").concat(rest);
        proof {
            assert(r@ == home@ + "/"@ + path@.skip(2));
        }
        return r;
    }
    proof {
        if path@ == "~"@ {
            assert(path@.len() == 1 && path@[0] == '~');
        }
    }
    path.to_owned()
}

} // verus!
