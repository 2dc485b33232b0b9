//! Core data types: a tracked work (`Manga`), an ordered sub-unit
//! (`Chapter`), a single fetchable page (`Page`), and the inclusive
//! chapter range filter (`ChapterRange`).

use vstd::prelude::*;

use crate::error::MgdlError;
use crate::strings::{
    find_char, find_sub, parse_usize, parse_usize_ok, parse_usize_val, spec_find_char,
    spec_find_sub,
};

verus! {

/// A top-level tracked work.
pub struct Manga {
    pub hash: String,
    pub name: String,
    pub normalized_name: String,
    pub authors: String,
    pub status: String,
}

/// The mathematical value of a `Manga`: its five fields as character
/// sequences.
pub ghost struct MangaV {
    pub hash: Seq<char>,
    pub name: Seq<char>,
    pub normalized_name: Seq<char>,
    pub authors: Seq<char>,
    pub status: Seq<char>,
}

impl View for Manga {
    type V = MangaV;

    open spec fn view(&self) -> MangaV {
        MangaV {
            hash: self.hash@,
            name: self.name@,
            normalized_name: self.normalized_name@,
            authors: self.authors@,
            status: self.status@,
        }
    }
}

impl Manga {
    pub fn new(hash: &str, name: &str, normalized_name: &str, authors: &str, status: &str) -> (m:
        Manga)
        ensures
            m.hash@ == hash@,
            m.name@ == name@,
            m.normalized_name@ == normalized_name@,
            m.authors@ == authors@,
            m.status@ == status@,
    {
        Manga {
            hash: hash.to_owned(),
            name: name.to_owned(),
            normalized_name: normalized_name.to_owned(),
            authors: authors.to_owned(),
            status: status.to_owned(),
        }
    }

    /// A fresh copy of the record with equal fields.
    pub fn duplicate(&self) -> (m: Manga)
        ensures
            m@ == self@,
    {
        Manga::new(
            self.hash.as_str(),
            self.name.as_str(),
            self.normalized_name.as_str(),
            self.authors.as_str(),
            self.status.as_str(),
        )
    }

    /// The record rendered as one multi-line description.
    pub fn display_string(&self) -> (r: String)
        ensures
            r@ == self@.name + ":\n\thash: "@ + self@.hash + "\n\tnormalize_name: "@
                + self@.normalized_name + "\n\tauthors: "@ + self@.authors + "\n\tstatus: "@
                + self@.status,
    {
        let mut r = self.name.clone();
        r.append(":\n\thash: ");
        r.append(self.hash.as_str());
        r.append("\n\tnormalize_name: ");
        r.append(self.normalized_name.as_str());
        r.append("\n\tauthors: ");
        r.append(self.authors.as_str());
        r.append("\n\tstatus: ");
        r.append(self.status.as_str());
        r
    }
}

/// An ordered sub-unit of a work, identified by an opaque source hash and a
/// fixed-width "MAJOR-MINOR" ordinal such as `0012-01`.
pub struct Chapter {
    pub hash: String,
    pub number: String,
}

/// The mathematical value of a `Chapter`.
pub ghost struct ChapterV {
    pub hash: Seq<char>,
    pub number: Seq<char>,
}

impl View for Chapter {
    type V = ChapterV;

    open spec fn view(&self) -> ChapterV {
        ChapterV { hash: self.hash@, number: self.number@ }
    }
}

/// The ordinal's major part: everything before the first `-`, or the
/// whole ordinal when there is none.
pub open spec fn spec_major_part(s: Seq<char>) -> Seq<char> {
    s.take(spec_find_char(s, '-', 0))
}

impl Chapter {
    pub fn new(hash: &str, number: &str) -> (c: Chapter)
        ensures
            c.hash@ == hash@,
            c.number@ == number@,
    {
        Chapter { hash: hash.to_owned(), number: number.to_owned() }
    }

    /// A fresh copy of the chapter with equal fields.
    pub fn duplicate(&self) -> (c: Chapter)
        ensures
            c.hash@ == self.hash@,
            c.number@ == self.number@,
    {
        Chapter::new(self.hash.as_str(), self.number.as_str())
    }

    /// The numeric value of the ordinal's major part, when it parses as a
    /// decimal integer.
    pub fn major_number(&self) -> (r: Option<usize>)
        ensures
            r is Some <==> parse_usize_ok(spec_major_part(self.number@)),
            r is Some ==> r->0 == parse_usize_val(spec_major_part(self.number@)),
    {
        let cut = find_char(self.number.as_str(), '-', 0);
        proof {
            crate::strings::lemma_find_char_properties(self.number@, '-', 0);
        }
        let piece = self.number.as_str().substring_char(0, cut);
        parse_usize(piece)
    }
}

/// An inclusive range of chapter major ordinals, written `A..B`, `A..`,
/// `..B` or as a single number.
pub struct ChapterRange {
    pub start: Option<usize>,
    pub end: Option<usize>,
}

impl ChapterRange {
    /// Whether `n` lies within the range; a missing bound does not
    /// constrain.
    pub open spec fn spec_contains(&self, n: usize) -> bool {
        &&& (self.start is Some ==> self.start->0 <= n)
        &&& (self.end is Some ==> n <= self.end->0)
    }

    pub fn contains(&self, n: usize) -> (r: bool)
        ensures
            r == self.spec_contains(n),
    {
        let lo_ok = match self.start {
            Some(lo) => lo <= n,
            None => true,
        };
        let hi_ok = match self.end {
            Some(hi) => n <= hi,
            None => true,
        };
        lo_ok && hi_ok
    }

    /// Parses a range: two optional decimal bounds around `..`, or one
    /// number standing for the single-chapter range.
    pub fn parse(s: &str) -> (r: Result<ChapterRange, MgdlError>)
        ensures
            ({
                match spec_find_sub(s@, ".."@, 0) {
                    Some(p) => {
                        let left = s@.take(p);
                        let right = s@.skip(p + 2);
                        let ok = (left.len() == 0 || parse_usize_ok(left)) && (right.len() == 0
                            || parse_usize_ok(right));
                        &&& r is Ok <==> ok
                        &&& ok ==> {
                            &&& (r->Ok_0).start == if left.len() == 0 {
                                Option::<usize>::None
                            } else {
                                Some(parse_usize_val(left) as usize)
                            }
                            &&& (r->Ok_0).end == if right.len() == 0 {
                                Option::<usize>::None
                            } else {
                                Some(parse_usize_val(right) as usize)
                            }
                        }
                    },
                    None => {
                        &&& r is Ok <==> parse_usize_ok(s@)
                        &&& r is Ok ==> (r->Ok_0).start == Some(parse_usize_val(s@) as usize)
                            && (r->Ok_0).end == Some(parse_usize_val(s@) as usize)
                    },
                }
            }),
            r is Err ==> r->Err_0 is Parse,
    {
        proof {
            reveal_strlit("..");
        }
        let n = s.unicode_len();
        match find_sub(s, "..", 0) {
            Some(p) => {
                proof {
                    crate::strings::lemma_find_sub_properties(s@, ".."@, 0);
                }
                let left = s.substring_char(0, p);
                let right = s.substring_char(p + 2, n);
                let start = if left.is_empty() {
                    None
                } else {
                    match parse_usize(left) {
                        Some(v) => Some(v),
                        None => {
                            return Err(
                                MgdlError::Parse(
                                    String::from_str("invalid range start"),
                                ),
                            );
                        },
                    }
                };
                let end = if right.is_empty() {
                    None
                } else {
                    match parse_usize(right) {
                        Some(v) => Some(v),
                        None => {
                            return Err(MgdlError::Parse(String::from_str("invalid range end")));
                        },
                    }
                };
                Ok(ChapterRange { start, end })
            },
            None => {
                match parse_usize(s) {
                    Some(v) => Ok(ChapterRange { start: Some(v), end: Some(v) }),
                    None => Err(MgdlError::Parse(String::from_str("invalid chapter range"))),
                }
            },
        }
    }
}

/// A single fetchable leaf resource belonging to a chapter.
pub struct Page {
    pub url: String,
    pub number: usize,
}

/// The mathematical value of a `Page`.
pub ghost struct PageV {
    pub url: Seq<char>,
    pub number: usize,
}

impl View for Page {
    type V = PageV;

    open spec fn view(&self) -> PageV {
        PageV { url: self.url@, number: self.number }
    }
}

impl Page {
    pub fn new(url: &str, number: usize) -> (p: Page)
        ensures
            p.url@ == url@,
            p.number == number,
    {
        Page { url: url.to_owned(), number }
    }

    /// A fresh copy of the page with equal fields.
    pub fn duplicate(&self) -> (p: Page)
        ensures
            p@ == self@,
    {
        Page::new(self.url.as_str(), self.number)
    }
}

} // verus!
