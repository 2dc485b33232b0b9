//! Download planning: the skip-set computations that make runs
//! resumable, the chapter filters, and the reconciliation split.
//!
//! Everything here works on plain values. The surrounding program lists
//! directories and performs fetches; the decisions about what to fetch
//! are made, and proved, here.

use vstd::prelude::*;

use crate::error::MgdlError;
use crate::models::{spec_major_part, Chapter, ChapterRange, ChapterV, Manga, MangaV, Page, PageV};
use crate::strings::{
    contains_sub, find_char, lemma_find_char_properties, parse_usize, parse_usize_ok,
    parse_usize_val, spec_find_char, str_contains,
};

verus! {

/// Whether a sequence of numbers holds `x`.
pub fn contains_usize(v: &Vec<usize>, x: usize) -> (r: bool)
    ensures
        r == v@.contains(x),
{
    let n = v.len();
    let mut i: usize = 0;
    while i < n
        invariant
            i <= n,
            n == v@.len(),
            forall|j: int| 0 <= j < i ==> v@[j] != x,
        decreases n - i,
    {
        if v[i] == x {
            return true;
        }
        i = i + 1;
    }
    false
}

/// The major ordinal a directory entry contributes to the chapter
/// skip-set: the entry must mention `chapter`, and the piece between the
/// first two underscores, cut at the first dash, must parse as a number.
pub open spec fn spec_skip_chap_of(name: Seq<char>) -> Option<usize> {
    if !contains_sub(name, "chapter"@) {
        None
    } else {
        let u1 = spec_find_char(name, '_', 0);
        if u1 == name.len() {
            None
        } else {
            let u2 = spec_find_char(name, '_', u1 + 1);
            let piece = name.subrange(u1 + 1, u2);
            let major = piece.take(spec_find_char(piece, '-', 0));
            if parse_usize_ok(major) {
                Some(parse_usize_val(major) as usize)
            } else {
                None
            }
        }
    }
}

/// The chapter majors that a directory listing shows as already
/// downloaded, in listing order.
pub open spec fn spec_skip_chaps(names: Seq<Seq<char>>) -> Seq<usize>
    decreases names.len(),
{
    if names.len() == 0 {
        Seq::empty()
    } else {
        spec_skip_chaps(names.drop_last()) + match spec_skip_chap_of(names.last()) {
            Some(v) => seq![v],
            None => Seq::empty(),
        }
    }
}

/// The major ordinal of one chapter directory entry, if it is one.
pub fn skip_chap_of(name: &str) -> (r: Option<usize>)
    ensures
        r == spec_skip_chap_of(name@),
{
    if !str_contains(name, "chapter") {
        return None;
    }
    let n = name.unicode_len();
    let u1 = find_char(name, '_', 0);
    proof {
        lemma_find_char_properties(name@, '_', 0);
    }
    if u1 == n {
        return None;
    }
    let u2 = find_char(name, '_', u1 + 1);
    proof {
        lemma_find_char_properties(name@, '_', u1 + 1);
    }
    let piece = name.substring_char(u1 + 1, u2);
    let c = find_char(piece, '-', 0);
    proof {
        lemma_find_char_properties(piece@, '-', 0);
    }
    let major = piece.substring_char(0, c);
    parse_usize(major)
}

/// Reads a work directory's listing into the set of chapter majors that
/// already exist locally, in listing order.
pub fn skip_chaps(entries: &Vec<String>) -> (r: Vec<usize>)
    ensures
        r@ == spec_skip_chaps(entries@.map_values(|s: String| s@)),
{
    let ghost names = entries@.map_values(|s: String| s@);
    let n = entries.len();
    let mut out: Vec<usize> = Vec::new();
    let mut i: usize = 0;
    proof {
        assert(out@ =~= spec_skip_chaps(names.take(0)));
    }
    while i < n
        invariant
            i <= n,
            n == entries@.len(),
            names == entries@.map_values(|s: String| s@),
            out@ == spec_skip_chaps(names.take(i as int)),
        decreases n - i,
    {
        proof {
            assert(names.take(i + 1).drop_last() =~= names.take(i as int));
            assert(names.take(i + 1).last() == names[i as int]);
        }
        match skip_chap_of(entries[i].as_str()) {
            Some(v) => {
                out.push(v);
                proof {
                    assert(out@ =~= spec_skip_chaps(names.take(i as int)) + seq![v]);
                }
            },
            None => {
                proof {
                    assert(spec_skip_chaps(names.take(i + 1)) =~= spec_skip_chaps(
                        names.take(i as int),
                    ));
                }
            },
        }
        i = i + 1;
    }
    proof {
        assert(names.take(n as int) =~= names);
    }
    out
}

/// The page sequence a file name stands for: its stem before the first
/// dot, parsed as a number.
pub open spec fn spec_item_sequence_of(name: Seq<char>) -> Option<usize> {
    let stem = name.take(spec_find_char(name, '.', 0));
    if parse_usize_ok(stem) {
        Some(parse_usize_val(stem) as usize)
    } else {
        None
    }
}

/// The distinct page sequences present in a chapter directory's listing,
/// in order of first appearance.
pub open spec fn spec_existing_sequences(names: Seq<Seq<char>>) -> Seq<usize>
    decreases names.len(),
{
    if names.len() == 0 {
        Seq::empty()
    } else {
        let prev = spec_existing_sequences(names.drop_last());
        match spec_item_sequence_of(names.last()) {
            Some(v) => if prev.contains(v) {
                prev
            } else {
                prev.push(v)
            },
            None => prev,
        }
    }
}

/// The page sequence one file name stands for, if any.
pub fn item_sequence_of(name: &str) -> (r: Option<usize>)
    ensures
        r == spec_item_sequence_of(name@),
{
    let c = find_char(name, '.', 0);
    proof {
        lemma_find_char_properties(name@, '.', 0);
    }
    let stem = name.substring_char(0, c);
    parse_usize(stem)
}

/// Reads a chapter directory's listing into the set of page sequences
/// that already exist locally. A missing directory is an empty listing,
/// never an error.
pub fn existing_item_sequences(entries: &Vec<String>) -> (r: Vec<usize>)
    ensures
        r@ == spec_existing_sequences(entries@.map_values(|s: String| s@)),
{
    let ghost names = entries@.map_values(|s: String| s@);
    let n = entries.len();
    let mut out: Vec<usize> = Vec::new();
    let mut i: usize = 0;
    proof {
        assert(out@ =~= spec_existing_sequences(names.take(0)));
    }
    while i < n
        invariant
            i <= n,
            n == entries@.len(),
            names == entries@.map_values(|s: String| s@),
            out@ == spec_existing_sequences(names.take(i as int)),
        decreases n - i,
    {
        proof {
            assert(names.take(i + 1).drop_last() =~= names.take(i as int));
            assert(names.take(i + 1).last() == names[i as int]);
        }
        match item_sequence_of(entries[i].as_str()) {
            Some(v) => {
                if !contains_usize(&out, v) {
                    out.push(v);
                }
            },
            None => {},
        }
        proof {
            assert(out@ =~= spec_existing_sequences(names.take(i + 1)));
        }
        i = i + 1;
    }
    proof {
        assert(names.take(n as int) =~= names);
    }
    out
}

/// The skip-set law: a sequence is in the computed set exactly when some
/// listed file name has it as its numeric stem, and the set holds no
/// duplicates.
pub proof fn lemma_existing_sequences_correct(names: Seq<Seq<char>>)
    ensures
        forall|v: usize|
            #[trigger] spec_existing_sequences(names).contains(v) <==> exists|i: int|
                0 <= i < names.len() && spec_item_sequence_of(#[trigger] names[i]) == Some(v),
        forall|a: int, b: int|
            0 <= a < b < spec_existing_sequences(names).len()
                ==> spec_existing_sequences(names)[a] != spec_existing_sequences(names)[b],
    decreases names.len(),
{
    if names.len() == 0 {
    } else {
        let head = names.drop_last();
        let last = names.last();
        let prev = spec_existing_sequences(head);
        let cur = spec_existing_sequences(names);
        lemma_existing_sequences_correct(head);
        assert forall|v: usize| #[trigger] cur.contains(v) implies exists|i: int|
            0 <= i < names.len() && spec_item_sequence_of(#[trigger] names[i]) == Some(v) by {
            if prev.contains(v) {
                let i = choose|i: int|
                    0 <= i < head.len() && spec_item_sequence_of(#[trigger] head[i]) == Some(v);
                assert(names[i] == head[i]);
            } else {
                // v can only be the element pushed for the last name.
                if spec_item_sequence_of(last) == Some(v) {
                    assert(names[names.len() - 1] == last);
                } else {
                    let k = choose|k: int| 0 <= k < cur.len() && cur[k] == v;
                    assert(prev.contains(v));
                }
            }
        }
        assert forall|v: usize|
            (exists|i: int|
                0 <= i < names.len() && spec_item_sequence_of(#[trigger] names[i]) == Some(
                    v,
                )) implies #[trigger] cur.contains(v) by {
            let i = choose|i: int|
                0 <= i < names.len() && spec_item_sequence_of(#[trigger] names[i]) == Some(v);
            if i < names.len() - 1 {
                assert(head[i] == names[i]);
                assert(prev.contains(v));
                let k = choose|k: int| 0 <= k < prev.len() && prev[k] == v;
                assert(cur[k] == v);
            } else {
                // The last name contributes v, unless it was already there.
                if prev.contains(v) {
                    let k = choose|k: int| 0 <= k < prev.len() && prev[k] == v;
                    assert(cur[k] == v);
                } else {
                    assert(cur[cur.len() - 1] == v);
                }
            }
        }
        assert forall|a: int, b: int| 0 <= a < b < cur.len() implies cur[a] != cur[b] by {
            if b == cur.len() - 1 && cur.len() == prev.len() + 1 {
                assert(cur[a] == prev[a]);
                assert(prev.contains(cur[a]));
            }
        }
    }
}

/// The numeric value of a chapter's major ordinal, as used by the
/// filters below.
pub open spec fn spec_major_value(c: ChapterV) -> usize {
    parse_usize_val(spec_major_part(c.number)) as usize
}

/// Whether a chapter's major ordinal parses at all.
pub open spec fn spec_major_ok(c: ChapterV) -> bool {
    parse_usize_ok(spec_major_part(c.number))
}

/// The chapters to fetch for a download run: those whose major ordinal
/// is not in the skip-set. Fails, as the whole run does, when any
/// chapter's major ordinal does not parse.
pub fn chapters_to_download(chapters: &Vec<Chapter>, skips: &Vec<usize>) -> (r: Result<
    Vec<Chapter>,
    MgdlError,
>)
    ensures
        r is Ok <==> forall|i: int|
            0 <= i < chapters@.len() ==> spec_major_ok((#[trigger] chapters@[i])@),
        r is Ok ==> (r->Ok_0)@.map_values(|c: Chapter| c@) == chapters@.map_values(
            |c: Chapter| c@,
        ).filter(|c: ChapterV| !skips@.contains(spec_major_value(c))),
        r is Err ==> r->Err_0 is Parse,
{
    let ghost chs = chapters@.map_values(|c: Chapter| c@);
    let n = chapters.len();
    let mut out: Vec<Chapter> = Vec::new();
    let mut i: usize = 0;
    proof {
        assert(chs.take(0).filter(|c: ChapterV| !skips@.contains(spec_major_value(c)))
            =~= Seq::<ChapterV>::empty()) by {
            reveal(Seq::filter);
        }
        assert(out@.map_values(|c: Chapter| c@) =~= chs.take(0).filter(
            |c: ChapterV| !skips@.contains(spec_major_value(c)),
        ));
    }
    while i < n
        invariant
            i <= n,
            n == chapters@.len(),
            chs == chapters@.map_values(|c: Chapter| c@),
            forall|j: int| 0 <= j < i ==> spec_major_ok(#[trigger] chs[j]),
            out@.map_values(|c: Chapter| c@) == chs.take(i as int).filter(
                |c: ChapterV| !skips@.contains(spec_major_value(c)),
            ),
        decreases n - i,
    {
        proof {
            assert(chs.take(i + 1).drop_last() =~= chs.take(i as int));
            assert(chs.take(i + 1).last() == chs[i as int]);
            reveal(Seq::filter);
        }
        let major = match chapters[i].major_number() {
            Some(m) => m,
            None => {
                proof {
                    assert(!spec_major_ok((chapters@[i as int])@));
                }
                return Err(
                    MgdlError::Parse(String::from_str("could not parse chapter number")),
                );
            },
        };
        let ghost out0 = out@.map_values(|c: Chapter| c@);
        if !contains_usize(skips, major) {
            out.push(chapters[i].duplicate());
            proof {
                assert(out@.map_values(|c: Chapter| c@) =~= out0.push(chs[i as int]));
                assert(out@.map_values(|c: Chapter| c@) =~= chs.take(i + 1).filter(
                    |c: ChapterV| !skips@.contains(spec_major_value(c)),
                ));
            }
        } else {
            proof {
                assert(out@.map_values(|c: Chapter| c@) =~= chs.take(i + 1).filter(
                    |c: ChapterV| !skips@.contains(spec_major_value(c)),
                ));
            }
        }
        i = i + 1;
    }
    proof {
        assert(chs.take(n as int) =~= chs);
        assert forall|j: int| 0 <= j < chapters@.len() implies spec_major_ok(
            (#[trigger] chapters@[j])@,
        ) by {
            assert(chs[j] == chapters@[j]@);
        }
    }
    Ok(out)
}

/// The chapters whose major ordinal parses and lies within the requested
/// inclusive range.
pub fn filter_chapters_by_range(chapters: &Vec<Chapter>, range: &ChapterRange) -> (r: Vec<Chapter>)
    ensures
        r@.map_values(|c: Chapter| c@) == chapters@.map_values(|c: Chapter| c@).filter(
            |c: ChapterV| spec_major_ok(c) && range.spec_contains(spec_major_value(c)),
        ),
{
    let ghost chs = chapters@.map_values(|c: Chapter| c@);
    let n = chapters.len();
    let mut out: Vec<Chapter> = Vec::new();
    let mut i: usize = 0;
    proof {
        assert(chs.take(0).filter(
            |c: ChapterV| spec_major_ok(c) && range.spec_contains(spec_major_value(c)),
        ) =~= Seq::<ChapterV>::empty()) by {
            reveal(Seq::filter);
        }
        assert(out@.map_values(|c: Chapter| c@) =~= chs.take(0).filter(
            |c: ChapterV| spec_major_ok(c) && range.spec_contains(spec_major_value(c)),
        ));
    }
    while i < n
        invariant
            i <= n,
            n == chapters@.len(),
            chs == chapters@.map_values(|c: Chapter| c@),
            out@.map_values(|c: Chapter| c@) == chs.take(i as int).filter(
                |c: ChapterV| spec_major_ok(c) && range.spec_contains(spec_major_value(c)),
            ),
        decreases n - i,
    {
        proof {
            assert(chs.take(i + 1).drop_last() =~= chs.take(i as int));
            assert(chs.take(i + 1).last() == chs[i as int]);
            reveal(Seq::filter);
        }
        let ghost out0 = out@.map_values(|c: Chapter| c@);
        let keep = match chapters[i].major_number() {
            Some(m) => range.contains(m),
            None => false,
        };
        if keep {
            out.push(chapters[i].duplicate());
            proof {
                assert(out@.map_values(|c: Chapter| c@) =~= out0.push(chs[i as int]));
                assert(out@.map_values(|c: Chapter| c@) =~= chs.take(i + 1).filter(
                    |c: ChapterV| spec_major_ok(c) && range.spec_contains(spec_major_value(c)),
                ));
            }
        } else {
            proof {
                assert(out@.map_values(|c: Chapter| c@) =~= chs.take(i + 1).filter(
                    |c: ChapterV| spec_major_ok(c) && range.spec_contains(spec_major_value(c)),
                ));
            }
        }
        i = i + 1;
    }
    proof {
        assert(chs.take(n as int) =~= chs);
    }
    out
}

/// Whether some already-chosen page carries this sequence number.
pub open spec fn has_sequence(pages: Seq<PageV>, n: usize) -> bool {
    exists|i: int| 0 <= i < pages.len() && pages[i].number == n
}

/// The pages a chapter run actually fetches: pages already on disk are
/// skipped unless `force` asks for everything, and of two pages with the
/// same sequence number only the first is fetched, so no path is written
/// twice in one batch.
pub open spec fn spec_pages_to_fetch(pages: Seq<PageV>, existing: Seq<usize>, force: bool) -> Seq<
    PageV,
>
    decreases pages.len(),
{
    if pages.len() == 0 {
        Seq::empty()
    } else {
        let prev = spec_pages_to_fetch(pages.drop_last(), existing, force);
        let p = pages.last();
        if (force || !existing.contains(p.number)) && !has_sequence(prev, p.number) {
            prev.push(p)
        } else {
            prev
        }
    }
}

/// Selects the pages to fetch, honouring the skip-set and the force
/// flag, and deduplicating sequence numbers within the batch.
pub fn pages_to_fetch(pages: &Vec<Page>, existing: &Vec<usize>, force: bool) -> (r: Vec<Page>)
    ensures
        r@.map_values(|p: Page| p@) == spec_pages_to_fetch(
            pages@.map_values(|p: Page| p@),
            existing@,
            force,
        ),
{
    let ghost ps = pages@.map_values(|p: Page| p@);
    let n = pages.len();
    let mut out: Vec<Page> = Vec::new();
    let mut numbers: Vec<usize> = Vec::new();
    let mut i: usize = 0;
    proof {
        assert(out@.map_values(|p: Page| p@) =~= spec_pages_to_fetch(ps.take(0), existing@, force));
        assert(numbers@ =~= Seq::<usize>::empty());
    }
    while i < n
        invariant
            i <= n,
            n == pages@.len(),
            ps == pages@.map_values(|p: Page| p@),
            out@.map_values(|p: Page| p@) == spec_pages_to_fetch(
                ps.take(i as int),
                existing@,
                force,
            ),
            numbers@.len() == out@.len(),
            forall|j: int| 0 <= j < out@.len() ==> numbers@[j] == (#[trigger] out@[j])@.number,
        decreases n - i,
    {
        proof {
            assert(ps.take(i + 1).drop_last() =~= ps.take(i as int));
            assert(ps.take(i + 1).last() == ps[i as int]);
        }
        let ghost out0 = out@.map_values(|p: Page| p@);
        let wanted = force || !contains_usize(existing, pages[i].number);
        if wanted && !contains_usize(&numbers, pages[i].number) {
            proof {
                assert(!has_sequence(out0, ps[i as int].number)) by {
                    if has_sequence(out0, ps[i as int].number) {
                        let j = choose|j: int|
                            0 <= j < out0.len() && out0[j].number == ps[i as int].number;
                        assert(numbers@[j] == out0[j].number);
                        assert(numbers@.contains(ps[i as int].number));
                    }
                }
            }
            out.push(pages[i].duplicate());
            numbers.push(pages[i].number);
            proof {
                assert(out@.map_values(|p: Page| p@) =~= out0.push(ps[i as int]));
            }
        } else {
            proof {
                if wanted {
                    let j = choose|j: int| 0 <= j < numbers@.len() && numbers@[j] == ps[i as int].number;
                    assert(out0[j].number == ps[i as int].number);
                    assert(has_sequence(out0, ps[i as int].number));
                }
            }
        }
        i = i + 1;
    }
    proof {
        assert(ps.take(n as int) =~= ps);
    }
    out
}

/// Splits the ongoing works into those whose directory still exists (to
/// be updated) and those whose directory vanished (to be removed from
/// the store). `dir_exists[i]` answers for `works[i]`.
pub open spec fn spec_reconcile_keep(ws: Seq<MangaV>, ex: Seq<bool>) -> Seq<MangaV>
    decreases ws.len(),
{
    if ws.len() == 0 {
        Seq::empty()
    } else if ex.len() == ws.len() && ex.last() {
        spec_reconcile_keep(ws.drop_last(), ex.drop_last()).push(ws.last())
    } else {
        spec_reconcile_keep(ws.drop_last(), ex.drop_last())
    }
}

/// The works whose directory vanished, in order.
pub open spec fn spec_reconcile_removed(ws: Seq<MangaV>, ex: Seq<bool>) -> Seq<MangaV>
    decreases ws.len(),
{
    if ws.len() == 0 {
        Seq::empty()
    } else if ex.len() == ws.len() && !ex.last() {
        spec_reconcile_removed(ws.drop_last(), ex.drop_last()).push(ws.last())
    } else {
        spec_reconcile_removed(ws.drop_last(), ex.drop_last())
    }
}

/// The self-healing pass: keeps each work whose directory still exists,
/// and hands back the vanished ones so the caller can delete them from
/// the store instead of retrying them forever.
pub fn reconcile(works: &Vec<Manga>, dir_exists: &Vec<bool>) -> (r: (Vec<Manga>, Vec<Manga>))
    requires
        works@.len() == dir_exists@.len(),
    ensures
        r.0@.map_values(|m: Manga| m@) == spec_reconcile_keep(
            works@.map_values(|m: Manga| m@),
            dir_exists@,
        ),
        r.1@.map_values(|m: Manga| m@) == spec_reconcile_removed(
            works@.map_values(|m: Manga| m@),
            dir_exists@,
        ),
{
    let ghost ws = works@.map_values(|m: Manga| m@);
    let n = works.len();
    let mut keep: Vec<Manga> = Vec::new();
    let mut removed: Vec<Manga> = Vec::new();
    let mut i: usize = 0;
    proof {
        assert(keep@.map_values(|m: Manga| m@) =~= spec_reconcile_keep(
            ws.take(0),
            dir_exists@.take(0),
        ));
        assert(removed@.map_values(|m: Manga| m@) =~= spec_reconcile_removed(
            ws.take(0),
            dir_exists@.take(0),
        ));
    }
    while i < n
        invariant
            i <= n,
            n == works@.len(),
            n == dir_exists@.len(),
            ws == works@.map_values(|m: Manga| m@),
            keep@.map_values(|m: Manga| m@) == spec_reconcile_keep(
                ws.take(i as int),
                dir_exists@.take(i as int),
            ),
            removed@.map_values(|m: Manga| m@) == spec_reconcile_removed(
                ws.take(i as int),
                dir_exists@.take(i as int),
            ),
        decreases n - i,
    {
        proof {
            assert(ws.take(i + 1).drop_last() =~= ws.take(i as int));
            assert(dir_exists@.take(i + 1).drop_last() =~= dir_exists@.take(i as int));
            assert(ws.take(i + 1).last() == ws[i as int]);
            assert(dir_exists@.take(i + 1).last() == dir_exists@[i as int]);
        }
        let ghost keep0 = keep@.map_values(|m: Manga| m@);
        let ghost removed0 = removed@.map_values(|m: Manga| m@);
        if dir_exists[i] {
            keep.push(works[i].duplicate());
            proof {
                assert(keep@.map_values(|m: Manga| m@) =~= keep0.push(ws[i as int]));
            }
        } else {
            removed.push(works[i].duplicate());
            proof {
                assert(removed@.map_values(|m: Manga| m@) =~= removed0.push(ws[i as int]));
            }
        }
        i = i + 1;
    }
    proof {
        assert(ws.take(n as int) =~= ws);
        assert(dir_exists@.take(n as int) =~= dir_exists@);
    }
    (keep, removed)
}

} // verus!
