//! Parsing of the source's pages into structured values, and the small
//! derived strings the fetch paths need.
//!
//! Only the parsing lives here: the surrounding program fetches the raw
//! text and hands it in.

pub mod html;

use vstd::prelude::*;

use crate::error::MgdlError;
use crate::models::{Chapter, ChapterV, Manga, Page, PageV};
use crate::scrape::html::{
    extract_attr, extract_tag_content, find_all_tags, spec_extract_attr, spec_extract_tag_content,
    spec_find_all_tags, spec_strip_tags, strip_tags,
};
use crate::strings::{
    chars_to_string, contains_sub, find_char, find_space, is_space, is_space_exec,
    lemma_find_char_properties, lemma_find_space_properties, parse_usize, parse_usize_ok,
    parse_usize_val, spec_find_char, spec_find_space, spec_join, spec_last_piece, spec_remove_sub,
    spec_trim, str_contains, str_eq, zero_pad, zero_padded, join_with, last_piece, remove_sub,
    trim_str,
};
use crate::utils::{extract_hash, normalize, spec_extract_hash, spec_normalize};

verus! {

/// The response-body marker that means the source is rate limiting us;
/// such a response is retryable whatever its status was.
pub open spec fn spec_rate_limited(body: Seq<char>) -> bool {
    contains_sub(body, "error code: 1015"@)
}

/// Whether a response body carries the rate-limit marker.
pub fn is_rate_limited(body: &str) -> (r: bool)
    ensures
        r == spec_rate_limited(body@),
{
    str_contains(body, "error code: 1015")
}

/// The locator of a work's page.
pub fn series_url(base_url: &str, manga_hash: &str) -> (r: String)
    ensures
        r@ == base_url@ + "/series/"@ + manga_hash@,
{
    String::from_str(base_url).concat("/series/").concat(manga_hash)
}

/// The locator of a work's full chapter list.
pub fn chapter_list_url(base_url: &str, manga_hash: &str) -> (r: String)
    ensures
        r@ == base_url@ + "/series/"@ + manga_hash@ + "/full-chapter-list"@,
{
    String::from_str(base_url).concat("/series/").concat(manga_hash).concat("/full-chapter-list")
}

/// The locator of a chapter's images page.
pub fn chapter_pages_url(base_url: &str, chapter_hash: &str) -> (r: String)
    ensures
        r@ == base_url@ + "/chapters/"@ + chapter_hash@
            + "/images?is_prev=False&current_page=1&reading_style=long_strip"@,
{
    String::from_str(base_url).concat("/chapters/").concat(chapter_hash).concat(
        "/images?is_prev=False&current_page=1&reading_style=long_strip",
    )
}

/// A page file's extension: what follows the last dot of the locator
/// with its query cut off; the whole remainder when it has no dot.
pub open spec fn spec_file_ext(url: Seq<char>) -> Seq<char> {
    spec_last_piece(url.take(spec_find_char(url, '?', 0)), '.')
}

/// Reads the file extension out of a page locator.
pub fn file_ext_of_url(url: &str) -> (r: String)
    ensures
        r@ == spec_file_ext(url@),
{
    let q = find_char(url, '?', 0);
    proof {
        lemma_find_char_properties(url@, '?', 0);
    }
    let base = url.substring_char(0, q);
    let piece = last_piece(base, '.');
    piece.to_owned()
}

/// A page's file name: the sequence zero-padded to three digits, a dot,
/// and the extension.
pub fn page_file_name(number: usize, ext: &str) -> (r: String)
    ensures
        r@ == zero_pad(number as nat, 3) + "."@ + ext@,
{
    let digits = zero_padded(number, 3);
    chars_to_string(&digits).concat(".").concat(ext)
}

/// A chapter directory's name: `chapter_` and the fixed-width ordinal.
pub fn chapter_dir_name(number: &str) -> (r: String)
    ensures
        r@ == "chapter_"@ + number@,
{
    String::from_str("chapter_").concat(number)
}

/// The dot-separated pieces of a raw chapter number, in order.
pub open spec fn spec_dot_pieces(s: Seq<char>, from: int) -> Seq<Seq<char>>
    decreases s.len() - from
        when 0 <= from <= s.len()
{
    let d = spec_find_char(s, '.', from);
    if from <= d < s.len() {
        seq![s.subrange(from, d)] + spec_dot_pieces(s, d + 1)
    } else {
        seq![s.subrange(from, s.len() as int)]
    }
}

/// Splits a raw chapter number at dots and parses every piece. Fails
/// exactly when some piece is not a plain number.
pub fn parse_dot_numbers(s: &str) -> (r: Result<Vec<usize>, MgdlError>)
    ensures
        r is Ok <==> forall|i: int|
            0 <= i < spec_dot_pieces(s@, 0).len() ==> parse_usize_ok(
                #[trigger] spec_dot_pieces(s@, 0)[i],
            ),
        r is Ok ==> {
            &&& (r->Ok_0)@.len() == spec_dot_pieces(s@, 0).len()
            &&& forall|i: int|
                0 <= i < spec_dot_pieces(s@, 0).len() ==> (r->Ok_0)@[i] == parse_usize_val(
                    #[trigger] spec_dot_pieces(s@, 0)[i],
                ) as usize
        },
        r is Err ==> r->Err_0 is Parse,
{
    let n = s.unicode_len();
    let mut out: Vec<usize> = Vec::new();
    let mut from: usize = 0;
    let ghost pieces = spec_dot_pieces(s@, 0);
    loop
        invariant
            from <= n,
            n == s@.len(),
            pieces == spec_dot_pieces(s@, 0),
            pieces =~= spec_dot_pieces(s@, 0).take(out@.len() as int) + spec_dot_pieces(
                s@,
                from as int,
            ),
            out@.len() <= pieces.len(),
            forall|i: int|
                0 <= i < out@.len() ==> parse_usize_ok(#[trigger] pieces[i]) && out@[i]
                    == parse_usize_val(pieces[i]) as usize,
        decreases n - from,
    {
        let d = find_char(s, '.', from);
        proof {
            lemma_find_char_properties(s@, '.', from as int);
        }
        let ghost remaining = spec_dot_pieces(s@, from as int);
        if d < n {
            let piece = s.substring_char(from, d);
            proof {
                assert(remaining[0] == s@.subrange(from as int, d as int));
                assert(remaining.drop_first() =~= spec_dot_pieces(s@, d + 1));
            }
            match parse_usize(piece) {
                Some(v) => {
                    out.push(v);
                    proof {
                        assert(pieces[out@.len() - 1] == remaining[0]);
                        assert(pieces.take(out@.len() as int) =~= pieces.take(
                            out@.len() - 1,
                        ).push(remaining[0]));
                        assert(pieces =~= pieces.take(out@.len() as int) + spec_dot_pieces(
                            s@,
                            d + 1,
                        ));
                    }
                    from = d + 1;
                },
                None => {
                    proof {
                        assert(pieces[out@.len() as int] == remaining[0]);
                        assert(!parse_usize_ok(pieces[out@.len() as int]));
                    }
                    return Err(
                        MgdlError::Parse(String::from_str("could not parse chapter number")),
                    );
                },
            }
        } else {
            let piece = s.substring_char(from, n);
            proof {
                assert(remaining =~= seq![s@.subrange(from as int, n as int)]);
                assert(remaining[0] == s@.subrange(from as int, n as int));
            }
            match parse_usize(piece) {
                Some(v) => {
                    out.push(v);
                    proof {
                        assert(pieces =~= pieces.take(out@.len() - 1).push(remaining[0]));
                        assert(out@.len() == pieces.len());
                    }
                    return Ok(out);
                },
                None => {
                    proof {
                        assert(pieces[out@.len() as int] == remaining[0]);
                        assert(!parse_usize_ok(pieces[out@.len() as int]));
                    }
                    return Err(
                        MgdlError::Parse(String::from_str("could not parse chapter number")),
                    );
                },
            }
        }
    }
}

/// The fixed-width ordinal built from the parsed pieces of a raw
/// chapter number: four zero-padded digits of the major part, a dash,
/// and two zero-padded digits of the minor part, `01` when there is
/// none.
pub open spec fn spec_chapter_number(parts: Seq<usize>) -> Seq<char> {
    if parts.len() == 1 {
        zero_pad(parts[0] as nat, 4) + "-01"@
    } else {
        zero_pad(parts[0] as nat, 4) + "-"@ + zero_pad(parts[1] as nat, 2)
    }
}

/// Renders a chapter's parsed raw number as the fixed-width
/// `MAJOR-MINOR` ordinal. Fails when the raw number had more than two
/// dot-separated pieces.
pub fn format_chapter_number(parts: &Vec<usize>) -> (r: Result<String, MgdlError>)
    ensures
        r is Ok <==> parts@.len() == 1 || parts@.len() == 2,
        r is Ok ==> (r->Ok_0)@ == spec_chapter_number(parts@),
        r is Err ==> r->Err_0 is Scrape,
{
    if parts.len() == 1 {
        let digits = zero_padded(parts[0], 4);
        Ok(chars_to_string(&digits).concat("-01"))
    } else if parts.len() == 2 {
        let digits = zero_padded(parts[0], 4);
        let minor = zero_padded(parts[1], 2);
        Ok(chars_to_string(&digits).concat("-").concat(chars_to_string(&minor).as_str()))
    } else {
        Err(MgdlError::Scrape(String::from_str("Invalid chapter number format")))
    }
}

/// What one `img` tag yields: a page, or the first thing wrong with it.
pub ghost enum PageTagOutcome {
    Good(PageV),
    MissingAttr,
    UnparsedNumber,
}

/// Reads one `img` tag: its `src` is the page locator and the last
/// space-separated token of its `alt` is the page sequence.
pub open spec fn spec_page_of_tag(tag: Seq<char>) -> PageTagOutcome {
    match spec_extract_attr(tag, "src"@) {
        None => PageTagOutcome::MissingAttr,
        Some(url) => match spec_extract_attr(tag, "alt"@) {
            None => PageTagOutcome::MissingAttr,
            Some(alt) => {
                let tok = spec_last_piece(alt, ' ');
                if parse_usize_ok(tok) {
                    PageTagOutcome::Good(
                        PageV { url, number: parse_usize_val(tok) as usize },
                    )
                } else {
                    PageTagOutcome::UnparsedNumber
                }
            },
        },
    }
}

/// The pages of a list of `img` tags, or the first tag's failure.
pub open spec fn spec_parse_pages(tags: Seq<Seq<char>>) -> Result<Seq<PageV>, PageTagOutcome>
    decreases tags.len(),
{
    if tags.len() == 0 {
        Ok(Seq::empty())
    } else {
        match spec_page_of_tag(tags[0]) {
            PageTagOutcome::Good(p) => match spec_parse_pages(tags.drop_first()) {
                Ok(rest) => Ok(seq![p] + rest),
                Err(e) => Err(e),
            },
            e => Err(e),
        }
    }
}

/// When the first `i` tags are all good, the whole result is those
/// pages followed by whatever the rest yields.
proof fn lemma_parse_pages_skip(tags: Seq<Seq<char>>, i: int)
    requires
        0 <= i <= tags.len(),
        forall|j: int| 0 <= j < i ==> spec_page_of_tag(#[trigger] tags[j]) is Good,
    ensures
        spec_parse_pages(tags) == match spec_parse_pages(tags.skip(i)) {
            Ok(rest) => Ok(
                Seq::new(i as nat, |j: int| spec_page_of_tag(tags[j])->Good_0) + rest,
            ),
            Err(e) => Err::<Seq<PageV>, PageTagOutcome>(e),
        },
    decreases i,
{
    if i == 0 {
        assert(tags.skip(0) == tags);
        match spec_parse_pages(tags) {
            Ok(rest) => {
                assert(Seq::new(0, |j: int| spec_page_of_tag(tags[j])->Good_0) + rest =~= rest);
            },
            Err(_) => {},
        }
    } else {
        let rest0 = tags.drop_first();
        assert(forall|j: int|
            0 <= j < i - 1 ==> spec_page_of_tag(#[trigger] rest0[j]) is Good);
        lemma_parse_pages_skip(rest0, i - 1);
        assert(tags.skip(i) =~= rest0.skip(i - 1));
        assert(spec_page_of_tag(tags[0]) is Good);
        match spec_parse_pages(tags.skip(i)) {
            Ok(rest) => {
                let front = Seq::new(i as nat, |j: int| spec_page_of_tag(tags[j])->Good_0);
                let front0 = Seq::new((i - 1) as nat, |j: int| spec_page_of_tag(rest0[j])->Good_0);
                assert(spec_parse_pages(rest0) == Ok::<Seq<PageV>, PageTagOutcome>(front0 + rest));
                assert(seq![spec_page_of_tag(tags[0])->Good_0] + (front0 + rest) =~= front + rest);
            },
            Err(_) => {},
        }
    }
}

/// Reads one `img` tag into a page, with the error the whole parse
/// reports for it.
fn page_of_tag(tag: &str) -> (r: Result<Page, MgdlError>)
    ensures
        r is Ok <==> spec_page_of_tag(tag@) is Good,
        r is Ok ==> (r->Ok_0)@ == spec_page_of_tag(tag@)->Good_0,
        r is Err ==> (spec_page_of_tag(tag@) is MissingAttr ==> r->Err_0 is Scrape) && (
        spec_page_of_tag(tag@) is UnparsedNumber ==> r->Err_0 is Parse),
{
    let url = match extract_attr(tag, "src") {
        Some(u) => u,
        None => {
            return Err(MgdlError::Scrape(String::from_str("Could not find page url")));
        },
    };
    let alt = match extract_attr(tag, "alt") {
        Some(a) => a,
        None => {
            return Err(MgdlError::Scrape(String::from_str("Could not find page number")));
        },
    };
    let tok = last_piece(alt, ' ');
    match parse_usize(tok) {
        Some(v) => Ok(Page::new(url, v)),
        None => Err(MgdlError::Parse(String::from_str("could not parse page number"))),
    }
}

/// Parses the pages out of a chapter's images markup: every `img` tag
/// must yield a page, and an empty result is itself an error, never a
/// valid empty chapter.
pub fn parse_pages_from_html(html: &str) -> (r: Result<Vec<Page>, MgdlError>)
    ensures
        ({
            let tags = spec_find_all_tags(html@, "img"@, 0);
            match spec_parse_pages(tags) {
                Ok(ps) => {
                    &&& (r is Ok <==> ps.len() > 0)
                    &&& r is Ok ==> (r->Ok_0)@.map_values(|p: Page| p@) == ps
                    &&& ps.len() == 0 ==> r is Err && r->Err_0 is Scrape
                },
                Err(e) => {
                    &&& r is Err
                    &&& e is MissingAttr ==> r->Err_0 is Scrape
                    &&& e is UnparsedNumber ==> r->Err_0 is Parse
                },
            }
        }),
{
    let tags = find_all_tags(html, "img");
    let ghost tagviews = spec_find_all_tags(html@, "img"@, 0);
    let n = tags.len();
    let mut out: Vec<Page> = Vec::new();
    let mut i: usize = 0;
    while i < n
        invariant
            i <= n,
            n == tags@.len(),
            n == tagviews.len(),
            tagviews == spec_find_all_tags(html@, "img"@, 0),
            forall|k: int| 0 <= k < n ==> (#[trigger] tags@[k])@ == tagviews[k],
            out@.len() == i,
            forall|j: int| 0 <= j < i ==> spec_page_of_tag(#[trigger] tagviews[j]) is Good,
            forall|j: int|
                0 <= j < i ==> (#[trigger] out@[j])@ == spec_page_of_tag(tagviews[j])->Good_0,
        decreases n - i,
    {
        match page_of_tag(tags[i]) {
            Ok(p) => {
                out.push(p);
            },
            Err(e) => {
                proof {
                    lemma_parse_pages_skip(tagviews, i as int);
                    assert(tagviews.skip(i as int)[0] == tagviews[i as int]);
                    assert(spec_parse_pages(tagviews.skip(i as int)) == Err::<
                        Seq<PageV>,
                        PageTagOutcome,
                    >(spec_page_of_tag(tagviews[i as int])));
                }
                return Err(e);
            },
        }
        i = i + 1;
    }
    proof {
        lemma_parse_pages_skip(tagviews, n as int);
        assert(tagviews.skip(n as int) =~= Seq::<Seq<char>>::empty());
        let ps = spec_parse_pages(tagviews)->Ok_0;
        assert(ps =~= Seq::new(n as nat, |j: int| spec_page_of_tag(tagviews[j])->Good_0)) by {
            assert(Seq::new(n as nat, |j: int| spec_page_of_tag(tagviews[j])->Good_0)
                + Seq::<PageV>::empty() =~= Seq::new(
                n as nat,
                |j: int| spec_page_of_tag(tagviews[j])->Good_0,
            ));
        }
        assert(out@.map_values(|p: Page| p@) =~= ps);
    }
    if out.len() == 0 {
        return Err(MgdlError::Scrape(String::from_str("No pages found for chapter")));
    }
    Ok(out)
}

/// The whitespace-separated tokens of the text at or after `from`.
pub open spec fn spec_ws_tokens(s: Seq<char>, from: int) -> Seq<Seq<char>>
    decreases s.len() - from
        when 0 <= from <= s.len()
{
    if from >= s.len() {
        Seq::empty()
    } else if is_space(s[from]) {
        spec_ws_tokens(s, from + 1)
    } else {
        let e = spec_find_space(s, from);
        if from < e <= s.len() {
            seq![s.subrange(from, e)] + spec_ws_tokens(s, e)
        } else {
            // The first whitespace at or after a non-space position is
            // past it.
            seq![s.subrange(from, s.len() as int)]
        }
    }
}

/// Splits the text at whitespace.
fn ws_tokens(s: &str) -> (r: Vec<String>)
    ensures
        r@.map_values(|t: String| t@) == spec_ws_tokens(s@, 0),
{
    let n = s.unicode_len();
    let mut out: Vec<String> = Vec::new();
    let mut pos: usize = 0;
    let ghost whole = spec_ws_tokens(s@, 0);
    loop
        invariant
            pos <= n,
            n == s@.len(),
            whole == spec_ws_tokens(s@, 0),
            whole =~= out@.map_values(|t: String| t@) + spec_ws_tokens(s@, pos as int),
        decreases n - pos,
    {
        if pos >= n {
            proof {
                assert(whole =~= out@.map_values(|t: String| t@));
            }
            return out;
        }
        if is_space_exec(s.get_char(pos)) {
            pos = pos + 1;
        } else {
            let e = find_space(s, pos);
            proof {
                lemma_find_space_properties(s@, pos as int);
            }
            let ghost done = out@.map_values(|t: String| t@);
            let tok = s.substring_char(pos, e).to_owned();
            out.push(tok);
            proof {
                assert(out@.map_values(|t: String| t@) =~= done.push(
                    s@.subrange(pos as int, e as int),
                ));
                assert(out@.map_values(|t: String| t@) + spec_ws_tokens(s@, e as int) =~= done + (
                seq![s@.subrange(pos as int, e as int)] + spec_ws_tokens(s@, e as int)));
            }
            pos = e;
        }
    }
}

/// The token that follows the first `Chapter` token, if any.
pub open spec fn spec_token_after_chapter(toks: Seq<Seq<char>>) -> Option<Seq<char>>
    decreases toks.len(),
{
    if toks.len() == 0 {
        None
    } else if toks[0] == "Chapter"@ {
        if toks.len() >= 2 {
            Some(toks[1])
        } else {
            None
        }
    } else {
        spec_token_after_chapter(toks.drop_first())
    }
}

/// Finds the token after the first `Chapter` token.
fn token_after_chapter(toks: &Vec<String>) -> (r: Option<String>)
    ensures
        r is Some <==> spec_token_after_chapter(toks@.map_values(|t: String| t@)) is Some,
        r is Some ==> (r->0)@ == spec_token_after_chapter(toks@.map_values(|t: String| t@))->0,
{
    let ghost ts = toks@.map_values(|t: String| t@);
    let n = toks.len();
    let mut i: usize = 0;
    proof {
        assert(ts.skip(0) =~= ts);
    }
    while i < n
        invariant
            i <= n,
            n == toks@.len(),
            ts == toks@.map_values(|t: String| t@),
            spec_token_after_chapter(ts) == spec_token_after_chapter(ts.skip(i as int)),
        decreases n - i,
    {
        proof {
            assert(ts.skip(i as int)[0] == ts[i as int]);
            assert(ts.skip(i as int).drop_first() =~= ts.skip(i + 1));
        }
        if str_eq(toks[i].as_str(), "Chapter") {
            if i + 1 < n {
                proof {
                    assert(ts.skip(i as int)[1] == ts[i + 1]);
                }
                return Some(toks[i + 1].clone());
            } else {
                return None;
            }
        }
        i = i + 1;
    }
    proof {
        assert(ts.skip(n as int) =~= Seq::<Seq<char>>::empty());
    }
    None
}

/// What one `div` yields for the chapter list: nothing (no link or no
/// reference), a chapter, or the first thing wrong with it.
pub ghost enum DivOutcome {
    Skip,
    Chap(ChapterV),
    FailScrape,
    FailParse,
}

/// Reads one `div` of the chapter list: its first link's reference
/// names the chapter hash after the last slash, and the link text names
/// the raw chapter number after the word `Chapter`.
pub open spec fn spec_div_chapter(div: Seq<char>) -> DivOutcome {
    let links = spec_find_all_tags(div, "a"@, 0);
    if links.len() == 0 {
        DivOutcome::Skip
    } else {
        match spec_extract_attr(links[0], "href"@) {
            None => DivOutcome::Skip,
            Some(href) => {
                let hash = spec_last_piece(href, '/');
                let text = spec_strip_tags(links[0]);
                match spec_token_after_chapter(spec_ws_tokens(text, 0)) {
                    None => DivOutcome::FailScrape,
                    Some(raw) => {
                        let pieces = spec_dot_pieces(raw, 0);
                        if exists|i: int|
                            0 <= i < pieces.len() && !parse_usize_ok(#[trigger] pieces[i]) {
                            DivOutcome::FailParse
                        } else if pieces.len() == 1 || pieces.len() == 2 {
                            DivOutcome::Chap(
                                ChapterV {
                                    hash,
                                    number: spec_chapter_number(
                                        pieces.map_values(
                                            |p: Seq<char>| parse_usize_val(p) as usize,
                                        ),
                                    ),
                                },
                            )
                        } else {
                            DivOutcome::FailScrape
                        }
                    },
                }
            },
        }
    }
}

/// Reads one `div` into a chapter, nothing, or the error the whole
/// parse reports for it.
fn div_chapter(div: &str) -> (r: Result<Option<Chapter>, MgdlError>)
    ensures
        r is Ok && r->Ok_0 is None <==> spec_div_chapter(div@) is Skip,
        r is Ok && r->Ok_0 is Some <==> spec_div_chapter(div@) is Chap,
        r is Ok && r->Ok_0 is Some ==> (r->Ok_0->0)@ == spec_div_chapter(div@)->Chap_0,
        r is Err ==> (spec_div_chapter(div@) is FailScrape ==> r->Err_0 is Scrape) && (
        spec_div_chapter(div@) is FailParse ==> r->Err_0 is Parse),
{
    let links = find_all_tags(div, "a");
    if links.len() == 0 {
        return Ok(None);
    }
    let link = links[0];
    let href = match extract_attr(link, "href") {
        Some(h) => h,
        None => {
            return Ok(None);
        },
    };
    let hash = last_piece(href, '/');
    let text = strip_tags(link);
    let toks = ws_tokens(text.as_str());
    let raw = match token_after_chapter(&toks) {
        Some(t) => t,
        None => {
            return Err(MgdlError::Scrape(String::from_str("Chapter number not found")));
        },
    };
    let parts = match parse_dot_numbers(raw.as_str()) {
        Ok(ps) => ps,
        Err(e) => {
            return Err(e);
        },
    };
    proof {
        let pieces = spec_dot_pieces(raw@, 0);
        assert(parts@ =~= pieces.map_values(|p: Seq<char>| parse_usize_val(p) as usize));
    }
    match format_chapter_number(&parts) {
        Ok(number) => Ok(Some(Chapter::new(hash, number.as_str()))),
        Err(e) => Err(e),
    }
}

/// The chapters read from a list of `div`s, or the first failure.
pub open spec fn spec_parse_chapters(divs: Seq<Seq<char>>) -> Result<Seq<ChapterV>, DivOutcome>
    decreases divs.len(),
{
    if divs.len() == 0 {
        Ok(Seq::empty())
    } else {
        match spec_div_chapter(divs[0]) {
            DivOutcome::Skip => spec_parse_chapters(divs.drop_first()),
            DivOutcome::Chap(c) => match spec_parse_chapters(divs.drop_first()) {
                Ok(rest) => Ok(seq![c] + rest),
                Err(e) => Err(e),
            },
            e => Err(e),
        }
    }
}

/// The chapters contributed by the first `i` entries.
pub open spec fn spec_chapters_upto(divs: Seq<Seq<char>>, i: int) -> Seq<ChapterV>
    decreases divs.len()
        when 0 <= i <= divs.len()
{
    if i == 0 || divs.len() == 0 {
        Seq::empty()
    } else {
        (match spec_div_chapter(divs[0]) {
            DivOutcome::Chap(c) => seq![c],
            _ => Seq::empty(),
        }) + spec_chapters_upto(divs.drop_first(), i - 1)
    }
}

/// Taking one more entry extends the prefix by its contribution.
proof fn lemma_chapters_upto_snoc(divs: Seq<Seq<char>>, i: int)
    requires
        0 <= i < divs.len(),
    ensures
        spec_chapters_upto(divs, i + 1) == spec_chapters_upto(divs, i) + (
        match spec_div_chapter(divs[i]) {
            DivOutcome::Chap(c) => seq![c],
            _ => Seq::empty(),
        }),
    decreases i,
{
    if i == 0 {
        assert(spec_chapters_upto(divs, 0) =~= Seq::<ChapterV>::empty());
        assert(spec_chapters_upto(divs.drop_first(), 0) =~= Seq::<ChapterV>::empty());
        assert(spec_chapters_upto(divs, 1) =~= Seq::<ChapterV>::empty() + (
        match spec_div_chapter(divs[0]) {
            DivOutcome::Chap(c) => seq![c],
            _ => Seq::empty(),
        }));
    } else {
        lemma_chapters_upto_snoc(divs.drop_first(), i - 1);
        assert(divs.drop_first()[i - 1] == divs[i]);
    }
}

/// When the first `i` entries do not fail, the whole result is their
/// contribution followed by whatever the rest yields.
proof fn lemma_parse_chapters_skip(divs: Seq<Seq<char>>, i: int)
    requires
        0 <= i <= divs.len(),
        forall|j: int|
            0 <= j < i ==> !((#[trigger] spec_div_chapter(divs[j])) is FailScrape
                || spec_div_chapter(divs[j]) is FailParse),
    ensures
        spec_parse_chapters(divs) == match spec_parse_chapters(divs.skip(i)) {
            Ok(rest) => Ok(spec_chapters_upto(divs, i) + rest),
            Err(e) => Err::<Seq<ChapterV>, DivOutcome>(e),
        },
    decreases i,
{
    if i == 0 {
        assert(divs.skip(0) == divs);
        match spec_parse_chapters(divs) {
            Ok(rest) => {
                assert(spec_chapters_upto(divs, 0) + rest =~= rest);
            },
            Err(_) => {},
        }
    } else {
        let rest0 = divs.drop_first();
        assert(forall|j: int|
            0 <= j < i - 1 ==> !((#[trigger] spec_div_chapter(rest0[j])) is FailScrape
                || spec_div_chapter(rest0[j]) is FailParse)) by {
            assert(forall|j: int| 0 <= j < rest0.len() ==> #[trigger] rest0[j] == divs[j + 1]);
        }
        lemma_parse_chapters_skip(rest0, i - 1);
        assert(divs.skip(i) =~= rest0.skip(i - 1));
        match spec_parse_chapters(divs.skip(i)) {
            Ok(rest) => {
                match spec_div_chapter(divs[0]) {
                    DivOutcome::Skip => {
                        assert(spec_chapters_upto(divs, i) =~= spec_chapters_upto(rest0, i - 1));
                    },
                    DivOutcome::Chap(c) => {
                        assert(spec_chapters_upto(divs, i) =~= seq![c] + spec_chapters_upto(
                            rest0,
                            i - 1,
                        ));
                        assert(seq![c] + (spec_chapters_upto(rest0, i - 1) + rest)
                            =~= spec_chapters_upto(divs, i) + rest);
                    },
                    _ => {},
                }
            },
            Err(_) => {},
        }
    }
}

/// Parses the chapter list: every linked entry names a chapter by its
/// hash and its fixed-width ordinal; entries without a link or a
/// reference are passed over, and a list without entries is an empty
/// list, not an error.
pub fn parse_chapters_from_html(html: &str) -> (r: Result<Vec<Chapter>, MgdlError>)
    ensures
        ({
            let divs = spec_find_all_tags(html@, "div"@, 0);
            match spec_parse_chapters(divs) {
                Ok(cs) => r is Ok && (r->Ok_0)@.map_values(|c: Chapter| c@) == cs,
                Err(e) => {
                    &&& r is Err
                    &&& e is FailScrape ==> r->Err_0 is Scrape
                    &&& e is FailParse ==> r->Err_0 is Parse
                },
            }
        }),
{
    let divs = find_all_tags(html, "div");
    let ghost dv = spec_find_all_tags(html@, "div"@, 0);
    let n = divs.len();
    let mut out: Vec<Chapter> = Vec::new();
    let mut i: usize = 0;
    proof {
        assert(out@.map_values(|c: Chapter| c@) =~= spec_chapters_upto(dv, 0));
    }
    while i < n
        invariant
            i <= n,
            n == divs@.len(),
            n == dv.len(),
            dv == spec_find_all_tags(html@, "div"@, 0),
            forall|k: int| 0 <= k < n ==> (#[trigger] divs@[k])@ == dv[k],
            forall|j: int|
                0 <= j < i ==> !((#[trigger] spec_div_chapter(dv[j])) is FailScrape
                    || spec_div_chapter(dv[j]) is FailParse),
            out@.map_values(|c: Chapter| c@) == spec_chapters_upto(dv, i as int),
        decreases n - i,
    {
        let ghost done = out@.map_values(|c: Chapter| c@);
        match div_chapter(divs[i]) {
            Ok(Some(c)) => {
                out.push(c);
                proof {
                    lemma_chapters_upto_snoc(dv, i as int);
                    assert(out@.map_values(|c: Chapter| c@) =~= done.push(
                        spec_div_chapter(dv[i as int])->Chap_0,
                    ));
                    assert(out@.map_values(|c: Chapter| c@) =~= spec_chapters_upto(dv, i + 1));
                }
            },
            Ok(None) => {
                proof {
                    lemma_chapters_upto_snoc(dv, i as int);
                    assert(out@.map_values(|c: Chapter| c@) =~= spec_chapters_upto(dv, i + 1));
                }
            },
            Err(e) => {
                proof {
                    lemma_parse_chapters_skip(dv, i as int);
                    assert(dv.skip(i as int)[0] == dv[i as int]);
                }
                return Err(e);
            },
        }
        i = i + 1;
    }
    proof {
        lemma_parse_chapters_skip(dv, n as int);
        assert(dv.skip(n as int) =~= Seq::<Seq<char>>::empty());
        match spec_parse_chapters(dv) {
            Ok(cs) => {
                assert(cs =~= spec_chapters_upto(dv, n as int) + Seq::<ChapterV>::empty());
                assert(out@.map_values(|c: Chapter| c@) =~= cs);
            },
            Err(_) => {},
        }
    }
    Ok(out)
}

/// The text with every colon removed.
pub open spec fn spec_remove_colons(s: Seq<char>) -> Seq<char> {
    s.filter(|x: char| x != ':')
}

/// Removes every colon.
fn remove_colons(s: &str) -> (r: String)
    ensures
        r@ == spec_remove_colons(s@),
{
    let n = s.unicode_len();
    let mut out: Vec<char> = Vec::new();
    let mut i: usize = 0;
    proof {
        assert(s@.take(0).filter(|x: char| x != ':') =~= Seq::<char>::empty()) by {
            reveal(Seq::filter);
        }
        assert(out@ =~= s@.take(0).filter(|x: char| x != ':'));
    }
    while i < n
        invariant
            i <= n,
            n == s@.len(),
            out@ == s@.take(i as int).filter(|x: char| x != ':'),
        decreases n - i,
    {
        proof {
            assert(s@.take(i + 1).drop_last() =~= s@.take(i as int));
            assert(s@.take(i + 1).last() == s@[i as int]);
            reveal(Seq::filter);
        }
        let c = s.get_char(i);
        if c != ':' {
            out.push(c);
        }
        proof {
            assert(out@ =~= s@.take(i + 1).filter(|x: char| x != ':'));
        }
        i = i + 1;
    }
    proof {
        assert(s@.take(n as int) =~= s@);
    }
    chars_to_string(&out)
}

/// What one `li` of the info list assigns: the authors line, the status
/// line, or nothing.
pub ghost enum LiField {
    AuthorField(Seq<char>),
    StatusField(Seq<char>),
    OtherField,
}

/// The author names of an info entry: each link's text, trimmed, joined
/// with commas.
pub open spec fn spec_author_parts(li: Seq<char>) -> Seq<Seq<char>> {
    spec_find_all_tags(li, "a"@, 0).map_values(|l: Seq<char>| spec_trim(spec_strip_tags(l)))
}

/// Reads one `li` of the info list: its `strong` label - trimmed, with
/// colons and a plural marker removed - says whether it carries the
/// authors or the status.
pub open spec fn spec_li_field(li: Seq<char>) -> LiField {
    match spec_extract_tag_content(li, "strong"@) {
        None => LiField::OtherField,
        Some(sc) => {
            let label = spec_remove_sub(spec_remove_colons(spec_trim(sc)), "(s)"@);
            if label == "Author"@ {
                LiField::AuthorField(spec_join(spec_author_parts(li), ", "@))
            } else if label == "Status"@ {
                let ls = spec_find_all_tags(li, "a"@, 0);
                if ls.len() == 0 {
                    LiField::OtherField
                } else {
                    LiField::StatusField(spec_trim(spec_strip_tags(ls[0])))
                }
            } else {
                LiField::OtherField
            }
        },
    }
}

enum LiFieldValue {
    AuthorLine(String),
    StatusLine(String),
    NoField,
}

/// Reads one `li` of the info list.
fn li_field(li: &str) -> (r: LiFieldValue)
    ensures
        r is AuthorLine <==> spec_li_field(li@) is AuthorField,
        r is StatusLine <==> spec_li_field(li@) is StatusField,
        r is AuthorLine ==> (r->AuthorLine_0)@ == spec_li_field(li@)->AuthorField_0,
        r is StatusLine ==> (r->StatusLine_0)@ == spec_li_field(li@)->StatusField_0,
{
    proof {
        reveal_strlit("(s)");
    }
    let sc = match extract_tag_content(li, "strong") {
        Some(sc) => sc,
        None => {
            return LiFieldValue::NoField;
        },
    };
    let trimmed = trim_str(sc);
    let no_colon = remove_colons(trimmed.as_str());
    let label = remove_sub(no_colon.as_str(), "(s)");
    if str_eq(label.as_str(), "Author") {
        let links = find_all_tags(li, "a");
        let ghost lv = spec_find_all_tags(li@, "a"@, 0);
        let n = links.len();
        let mut parts: Vec<String> = Vec::new();
        let mut i: usize = 0;
        proof {
            assert(parts@.map_values(|p: String| p@) =~= lv.take(0).map_values(
                |l: Seq<char>| spec_trim(spec_strip_tags(l)),
            ));
        }
        while i < n
            invariant
                i <= n,
                n == links@.len(),
                n == lv.len(),
                forall|k: int| 0 <= k < n ==> (#[trigger] links@[k])@ == lv[k],
                parts@.map_values(|p: String| p@) == lv.take(i as int).map_values(
                    |l: Seq<char>| spec_trim(spec_strip_tags(l)),
                ),
            decreases n - i,
        {
            let text = strip_tags(links[i]);
            let part = trim_str(text.as_str());
            let ghost done = parts@.map_values(|p: String| p@);
            parts.push(part);
            proof {
                assert(parts@.map_values(|p: String| p@) =~= done.push(
                    spec_trim(spec_strip_tags(lv[i as int])),
                ));
                assert(parts@.map_values(|p: String| p@) =~= lv.take(i + 1).map_values(
                    |l: Seq<char>| spec_trim(spec_strip_tags(l)),
                ));
            }
            i = i + 1;
        }
        proof {
            assert(lv.take(n as int) =~= lv);
        }
        let joined = join_with(&parts, ", ");
        LiFieldValue::AuthorLine(joined)
    } else if str_eq(label.as_str(), "Status") {
        let links = find_all_tags(li, "a");
        if links.len() == 0 {
            return LiFieldValue::NoField;
        }
        let text = strip_tags(links[0]);
        LiFieldValue::StatusLine(trim_str(text.as_str()))
    } else {
        LiFieldValue::NoField
    }
}

/// The authors and status lines after reading the info entries in
/// order; a later entry with the same label overwrites an earlier one.
pub open spec fn spec_authors_status(lis: Seq<Seq<char>>) -> (Seq<char>, Seq<char>)
    decreases lis.len(),
{
    if lis.len() == 0 {
        (Seq::empty(), Seq::empty())
    } else {
        let prev = spec_authors_status(lis.drop_last());
        match spec_li_field(lis.last()) {
            LiField::AuthorField(a) => (a, prev.1),
            LiField::StatusField(s) => (prev.0, s),
            LiField::OtherField => prev,
        }
    }
}

/// The first list of the page marked as the info list.
pub open spec fn spec_first_info_ul(uls: Seq<Seq<char>>) -> Option<Seq<char>>
    decreases uls.len(),
{
    if uls.len() == 0 {
        None
    } else if contains_sub(uls[0], "flex flex-col gap-4"@) {
        Some(uls[0])
    } else {
        spec_first_info_ul(uls.drop_first())
    }
}

/// The authors and status the whole page yields: those of the first
/// info list, empty lines when there is none.
pub open spec fn spec_page_authors_status(html: Seq<char>) -> (Seq<char>, Seq<char>) {
    match spec_first_info_ul(spec_find_all_tags(html, "ul"@, 0)) {
        Some(ul) => spec_authors_status(spec_find_all_tags(ul, "li"@, 0)),
        None => (Seq::empty(), Seq::empty()),
    }
}

/// Parses a work's page: the heading names the work, the locator names
/// its hash, and the info list may name authors and status, which
/// otherwise stay empty.
pub fn parse_manga_from_html(html: &str, url: &str) -> (r: Result<Manga, MgdlError>)
    ensures
        r is Ok <==> spec_extract_tag_content(html@, "h1"@) is Some && spec_extract_hash(url@)
            is Some,
        r is Ok ==> ({
            let m = (r->Ok_0)@;
            &&& m.name == spec_trim(spec_extract_tag_content(html@, "h1"@)->0)
            &&& m.normalized_name == spec_normalize(m.name)
            &&& m.hash == spec_extract_hash(url@)->0
            &&& m.authors == spec_page_authors_status(html@).0
            &&& m.status == spec_page_authors_status(html@).1
        }),
        r is Err ==> r->Err_0 is Scrape,
{
    let content = match extract_tag_content(html, "h1") {
        Some(c) => c,
        None => {
            return Err(MgdlError::Scrape(String::from_str("Manga name not found")));
        },
    };
    let name = trim_str(content);
    let normalized_name = normalize(name.as_str());
    let hash = match extract_hash(url) {
        Some(h) => h,
        None => {
            return Err(
                MgdlError::Scrape(
                    String::from_str("Could not parse manga hash from ").concat(url),
                ),
            );
        },
    };
    let mut authors = String::new();
    let mut status = String::new();
    let uls = find_all_tags(html, "ul");
    let ghost uv = spec_find_all_tags(html@, "ul"@, 0);
    let un = uls.len();
    let mut i: usize = 0;
    proof {
        assert(uv.skip(0) =~= uv);
    }
    while i < un
        invariant
            i <= un,
            un == uls@.len(),
            un == uv.len(),
            uv == spec_find_all_tags(html@, "ul"@, 0),
            forall|k: int| 0 <= k < un ==> (#[trigger] uls@[k])@ == uv[k],
            spec_first_info_ul(uv) == spec_first_info_ul(uv.skip(i as int)),
            authors@ == Seq::<char>::empty(),
            status@ == Seq::<char>::empty(),
            spec_extract_tag_content(html@, "h1"@) is Some,
            name@ == spec_trim(spec_extract_tag_content(html@, "h1"@)->0),
            normalized_name@ == spec_normalize(name@),
            spec_extract_hash(url@) is Some,
            hash@ == spec_extract_hash(url@)->0,
        decreases un - i,
    {
        proof {
            assert(uv.skip(i as int)[0] == uv[i as int]);
            assert(uv.skip(i as int).drop_first() =~= uv.skip(i + 1));
        }
        if str_contains(uls[i], "flex flex-col gap-4") {
            let lis = find_all_tags(uls[i], "li");
            let ghost lv = spec_find_all_tags(uv[i as int], "li"@, 0);
            let ln = lis.len();
            let mut j: usize = 0;
            proof {
                assert(spec_authors_status(lv.take(0)) == (authors@, status@)) by {
                    assert(lv.take(0).len() == 0);
                }
            }
            while j < ln
                invariant
                    j <= ln,
                    ln == lis@.len(),
                    ln == lv.len(),
                    forall|k: int| 0 <= k < ln ==> (#[trigger] lis@[k])@ == lv[k],
                    (authors@, status@) == spec_authors_status(lv.take(j as int)),
                decreases ln - j,
            {
                proof {
                    assert(lv.take(j + 1).drop_last() =~= lv.take(j as int));
                    assert(lv.take(j + 1).last() == lv[j as int]);
                }
                match li_field(lis[j]) {
                    LiFieldValue::AuthorLine(a) => {
                        authors = a;
                    },
                    LiFieldValue::StatusLine(s) => {
                        status = s;
                    },
                    LiFieldValue::NoField => {},
                }
                proof {
                    assert((authors@, status@) == spec_authors_status(lv.take(j + 1)));
                }
                j = j + 1;
            }
            proof {
                assert(lv.take(ln as int) =~= lv);
                assert(spec_first_info_ul(uv) == Some(uv[i as int]));
            }
            return Ok(
                Manga::new(
                    hash.as_str(),
                    name.as_str(),
                    normalized_name.as_str(),
                    authors.as_str(),
                    status.as_str(),
                ),
            );
        }
        i = i + 1;
    }
    proof {
        assert(uv.skip(un as int) =~= Seq::<Seq<char>>::empty());
    }
    Ok(
        Manga::new(
            hash.as_str(),
            name.as_str(),
            normalized_name.as_str(),
            authors.as_str(),
            status.as_str(),
        ),
    )
}

} // verus!
