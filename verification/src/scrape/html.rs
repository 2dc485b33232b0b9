//! Minimal markup scanning: attribute values, first tag content, all
//! occurrences of a tag, and tag stripping.
//!
//! The scanners work on the raw text with first-match semantics; they
//! are exactly the grammar the source pages are read with.

use vstd::prelude::*;

use crate::strings::{
    chars_to_string, find_char, find_sub, lemma_find_char_properties, lemma_find_sub_properties,
    spec_find_char, spec_find_sub, str_eq,
};

verus! {

/// The value of `attr="..."` in a single tag: the text between the
/// first `attr="` and the next double quote.
pub open spec fn spec_extract_attr(tag: Seq<char>, attr: Seq<char>) -> Option<Seq<char>> {
    let needle = attr + "=\""@;
    match spec_find_sub(tag, needle, 0) {
        Some(i) => {
            let start = i + needle.len();
            let e = spec_find_char(tag, '"', start);
            if e < tag.len() {
                Some(tag.subrange(start, e))
            } else {
                None
            }
        },
        None => None,
    }
}

/// Extracts the value of `attr="..."` from a single tag string.
pub fn extract_attr<'a>(tag: &'a str, attr: &str) -> (r: Option<&'a str>)
    ensures
        r is Some <==> spec_extract_attr(tag@, attr@) is Some,
        r is Some ==> (r->0)@ == spec_extract_attr(tag@, attr@)->0,
{
    let needle = String::from_str(attr).concat("=\"");
    let m = needle.as_str().unicode_len();
    let n = tag.unicode_len();
    match find_sub(tag, needle.as_str(), 0) {
        Some(i) => {
            proof {
                lemma_find_sub_properties(tag@, needle@, 0);
            }
            let start = i + m;
            let e = find_char(tag, '"', start);
            proof {
                lemma_find_char_properties(tag@, '"', start as int);
            }
            if e < n {
                Some(tag.substring_char(start, e))
            } else {
                None
            }
        },
        None => None,
    }
}

/// The text between the first `<tag...>` and the following `</tag>`.
pub open spec fn spec_extract_tag_content(html: Seq<char>, tag: Seq<char>) -> Option<Seq<char>> {
    let open = "<"@ + tag;
    let close = "</"@ + tag + ">"@;
    match spec_find_sub(html, open, 0) {
        Some(st) => {
            let g = spec_find_char(html, '>', st);
            if g == html.len() {
                None
            } else {
                match spec_find_sub(html, close, g + 1) {
                    Some(e) => Some(html.subrange(g + 1, e)),
                    None => None,
                }
            }
        },
        None => None,
    }
}

/// Gets the text between `<tag...>` and `</tag>`; the first match.
pub fn extract_tag_content<'a>(html: &'a str, tag: &str) -> (r: Option<&'a str>)
    ensures
        r is Some <==> spec_extract_tag_content(html@, tag@) is Some,
        r is Some ==> (r->0)@ == spec_extract_tag_content(html@, tag@)->0,
{
    let open = String::from_str("<").concat(tag);
    let close = String::from_str("</").concat(tag).concat(">");
    let n = html.unicode_len();
    match find_sub(html, open.as_str(), 0) {
        Some(st) => {
            proof {
                lemma_find_sub_properties(html@, open@, 0);
            }
            let g = find_char(html, '>', st);
            proof {
                lemma_find_char_properties(html@, '>', st as int);
            }
            if g == n {
                return None;
            }
            match find_sub(html, close.as_str(), g + 1) {
                Some(e) => {
                    proof {
                        lemma_find_sub_properties(html@, close@, g + 1);
                    }
                    Some(html.substring_char(g + 1, e))
                },
                None => None,
            }
        },
        None => None,
    }
}

/// A tag that never has a closing counterpart.
pub open spec fn spec_is_void_tag(tag: Seq<char>) -> bool {
    ||| tag == "img"@
    ||| tag == "br"@
    ||| tag == "hr"@
    ||| tag == "input"@
    ||| tag == "meta"@
    ||| tag == "link"@
    ||| tag == "source"@
}

/// Whether the tag is a void tag, one with no closing counterpart.
pub fn is_void_tag(tag: &str) -> (r: bool)
    ensures
        r == spec_is_void_tag(tag@),
{
    str_eq(tag, "img") || str_eq(tag, "br") || str_eq(tag, "hr") || str_eq(tag, "input") || str_eq(
        tag,
        "meta",
    ) || str_eq(tag, "link") || str_eq(tag, "source")
}

/// Every occurrence of `<tag` in the text at or after `from`: a
/// self-closing or void tag contributes the tag string alone, a paired
/// tag contributes everything through its closing tag, and a tag whose
/// closing counterpart is missing is treated as self-closing.
pub open spec fn spec_find_all_tags(html: Seq<char>, tag: Seq<char>, from: int) -> Seq<Seq<char>>
    decreases html.len() - from
        when 0 <= from <= html.len()
{
    let open = "<"@ + tag;
    let close = "</"@ + tag + ">"@;
    match spec_find_sub(html, open, from) {
        None => Seq::empty(),
        Some(st) => if !(from <= st <= html.len()) {
            // A found match always starts inside the scanned range.
            Seq::empty()
        } else {
            let g = spec_find_char(html, '>', st);
            if !(st <= g < html.len()) {
                Seq::empty()
            } else if (st + 1 <= g && html[g - 1] == '/') || spec_is_void_tag(tag) {
                seq![html.subrange(st, g + 1)] + spec_find_all_tags(html, tag, g + 1)
            } else {
                match spec_find_sub(html, close, g) {
                    Some(cl) => if g <= cl && g < cl + close.len() && cl + close.len()
                        <= html.len() {
                        seq![html.subrange(st, cl + close.len())] + spec_find_all_tags(
                            html,
                            tag,
                            cl + close.len(),
                        )
                    } else {
                        // A found closing tag always lies inside the text.
                        Seq::empty()
                    },
                    None => seq![html.subrange(st, g + 1)] + spec_find_all_tags(html, tag, g + 1),
                }
            }
        },
    }
}

/// Finds all occurrences of `<tag` in the text, each with its content
/// and closing tag where one exists.
pub fn find_all_tags<'a>(html: &'a str, tag: &str) -> (r: Vec<&'a str>)
    ensures
        r@.len() == spec_find_all_tags(html@, tag@, 0).len(),
        forall|i: int|
            0 <= i < r@.len() ==> (#[trigger] r@[i])@ == spec_find_all_tags(html@, tag@, 0)[i],
{
    let open = String::from_str("<").concat(tag);
    let close = String::from_str("</").concat(tag).concat(">");
    let void = is_void_tag(tag);
    let n = html.unicode_len();
    let clen = close.as_str().unicode_len();
    proof {
        reveal_strlit("<");
        reveal_strlit("</");
        reveal_strlit(">");
    }
    let mut out: Vec<&'a str> = Vec::new();
    let mut from: usize = 0;
    let ghost whole = spec_find_all_tags(html@, tag@, 0);
    loop
        invariant
            from <= n,
            n == html@.len(),
            open@ == "<"@ + tag@,
            close@ == "</"@ + tag@ + ">"@,
            clen == close@.len(),
            3 <= clen,
            void == spec_is_void_tag(tag@),
            whole == spec_find_all_tags(html@, tag@, 0),
            whole =~= out@.map_values(|p: &str| p@) + spec_find_all_tags(
                html@,
                tag@,
                from as int,
            ),
        decreases n - from,
    {
        let ghost done = out@.map_values(|p: &str| p@);
        match find_sub(html, open.as_str(), from) {
            None => {
                proof {
                    assert(whole =~= out@.map_values(|p: &str| p@));
                }
                return out;
            },
            Some(st) => {
                proof {
                    lemma_find_sub_properties(html@, open@, from as int);
                }
                let g = find_char(html, '>', st);
                proof {
                    lemma_find_char_properties(html@, '>', st as int);
                }
                if g == n {
                    proof {
                        assert(spec_find_all_tags(html@, tag@, from as int)
                            =~= Seq::<Seq<char>>::empty());
                        assert(whole =~= out@.map_values(|p: &str| p@));
                    }
                    return out;
                }
                let self_closing = (st + 1 <= g && g >= 1 && html.get_char(g - 1) == '/') || void;
                if self_closing {
                    let piece = html.substring_char(st, g + 1);
                    out.push(piece);
                    proof {
                        assert(out@.map_values(|p: &str| p@) =~= done.push(piece@));
                        assert(out@.map_values(|p: &str| p@) + spec_find_all_tags(
                            html@,
                            tag@,
                            g + 1,
                        ) =~= done + (seq![html@.subrange(st as int, g + 1)]
                            + spec_find_all_tags(html@, tag@, g + 1)));
                    }
                    from = g + 1;
                } else {
                    match find_sub(html, close.as_str(), g) {
                        Some(cl) => {
                            proof {
                                lemma_find_sub_properties(html@, close@, g as int);
                            }
                            let end = cl + clen;
                            let piece = html.substring_char(st, end);
                            out.push(piece);
                            proof {
                                assert(out@.map_values(|p: &str| p@) =~= done.push(piece@));
                                assert(out@.map_values(|p: &str| p@) + spec_find_all_tags(
                                    html@,
                                    tag@,
                                    end as int,
                                ) =~= done + (seq![html@.subrange(st as int, end as int)]
                                    + spec_find_all_tags(html@, tag@, end as int)));
                            }
                            from = end;
                        },
                        None => {
                            proof {
                                lemma_find_sub_properties(html@, close@, g as int);
                            }
                            let piece = html.substring_char(st, g + 1);
                            out.push(piece);
                            proof {
                                assert(out@.map_values(|p: &str| p@) =~= done.push(piece@));
                                assert(out@.map_values(|p: &str| p@) + spec_find_all_tags(
                                    html@,
                                    tag@,
                                    g + 1,
                                ) =~= done + (seq![html@.subrange(st as int, g + 1)]
                                    + spec_find_all_tags(html@, tag@, g + 1)));
                            }
                            from = g + 1;
                        },
                    }
                }
            },
        }
    }
}

/// Whether the scanner is inside a tag after reading this prefix: the
/// last unmatched angle bracket is an opening one.
pub open spec fn in_tag_after(s: Seq<char>) -> bool
    decreases s.len(),
{
    if s.len() == 0 {
        false
    } else if s.last() == '<' {
        true
    } else if s.last() == '>' {
        false
    } else {
        in_tag_after(s.drop_last())
    }
}

/// The text outside angle brackets, with the brackets themselves
/// dropped.
pub open spec fn spec_strip_tags(s: Seq<char>) -> Seq<char>
    decreases s.len(),
{
    if s.len() == 0 {
        Seq::empty()
    } else {
        let prev = spec_strip_tags(s.drop_last());
        let c = s.last();
        if c == '<' || c == '>' {
            prev
        } else if in_tag_after(s.drop_last()) {
            prev
        } else {
            prev.push(c)
        }
    }
}

/// Strips all markup tags, returning only the text content.
pub fn strip_tags(html: &str) -> (r: String)
    ensures
        r@ == spec_strip_tags(html@),
{
    let n = html.unicode_len();
    let mut out: Vec<char> = Vec::new();
    let mut in_tag = false;
    let mut i: usize = 0;
    proof {
        assert(out@ =~= spec_strip_tags(html@.take(0)));
    }
    while i < n
        invariant
            i <= n,
            n == html@.len(),
            in_tag == in_tag_after(html@.take(i as int)),
            out@ == spec_strip_tags(html@.take(i as int)),
        decreases n - i,
    {
        proof {
            assert(html@.take(i + 1).drop_last() =~= html@.take(i as int));
            assert(html@.take(i + 1).last() == html@[i as int]);
        }
        let c = html.get_char(i);
        if c == '<' {
            in_tag = true;
        } else if c == '>' {
            in_tag = false;
        } else if !in_tag {
            out.push(c);
        }
        i = i + 1;
    }
    proof {
        assert(html@.take(n as int) =~= html@);
    }
    chars_to_string(&out)
}

} // verus!
