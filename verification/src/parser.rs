//! The header-comment parser: a document opens with a block of non-blank
//! lines written as a block comment (`/* ... */`); its first line names a
//! category and a title as `Category/Title`, the rest of the block is a
//! description, and everything after the first blank line is the source
//! body.

use vstd::prelude::*;
use crate::text::concat_lines;
use crate::text::find_char;
use crate::text::header_block_len;
use crate::text::header_len;
use crate::text::is_blank_line;
use crate::text::join_from;
use crate::text::lemma_concat_lines_take;
use crate::text::lemma_find_char;
use crate::text::lemma_header_len;
use crate::text::lines_of;
use crate::text::split_lines;
use crate::text::trim_of;
use crate::text::trim_spec;

verus! {

/// What parsing extracts from a document: the title, the free-text
/// description, and the remaining source body.
pub struct ParsedHeader {
    pub title: String,
    pub description: String,
    pub body: String,
}

/// The one way parsing fails: the header block is empty, or its title line
/// lacks the `/` that separates the category from the title.
#[derive(Clone, Copy, Debug, PartialEq, Eq, Structural)]
pub enum ParseError {
    MalformedHeader,
}

/// A header line with its comment decoration dropped: everything up to and
/// including the first `*` goes, and a `/` right after that `*` goes too
/// (so `/*`, `*` and `*/` margins all vanish).
pub open spec fn strip_decoration(l: Seq<char>) -> Seq<char> {
    let i = find_char(l, '*');
    if i < 0 {
        l
    } else {
        let r = l.skip(i + 1);
        if r.len() > 0 && r[0] == '/' {
            r.skip(1)
        } else {
            r
        }
    }
}

/// Drops the comment decoration of one header line, as `strip_decoration`
/// describes.
pub fn strip_line(l: &str) -> (r: String)
    ensures
        r@ == strip_decoration(l@),
{
    let n: usize = l.unicode_len();
    match crate::text::find_in(l, '*') {
        None => l.to_owned(),
        Some(i) => {
            proof {
                lemma_find_char(l@, '*');
            }
            let rest = l.substring_char(i + 1, n);
            proof {
                assert(rest@ =~= l@.skip(i + 1));
            }
            let m: usize = rest.unicode_len();
            if m > 0 && rest.get_char(0) == '/' {
                let r = rest.substring_char(1, m).to_owned();
                proof {
                    assert(r@ =~= rest@.skip(1));
                }
                r
            } else {
                rest.to_owned()
            }
        },
    }
}

/// The title named by a stripped title line of the shape
/// `Category/Title[/...]`: the segment between the first `/` and the next
/// one (or the end of the line). A line without a `/` names no title.
pub open spec fn title_of_line(l: Seq<char>) -> Option<Seq<char>> {
    let i = find_char(l, '/');
    if i < 0 {
        None
    } else {
        let r = l.skip(i + 1);
        let j = find_char(r, '/');
        if j < 0 {
            Some(r)
        } else {
            Some(r.take(j))
        }
    }
}

/// Extracts the title segment of a stripped title line, as `title_of_line`
/// describes.
pub fn title_from_line(l: &str) -> (r: Option<String>)
    ensures
        match r {
            Some(t) => title_of_line(l@) == Some(t@),
            None => title_of_line(l@) is None,
        },
{
    let n: usize = l.unicode_len();
    match crate::text::find_in(l, '/') {
        None => None,
        Some(i) => {
            proof {
                lemma_find_char(l@, '/');
            }
            let rest = l.substring_char(i + 1, n);
            proof {
                assert(rest@ =~= l@.skip(i + 1));
            }
            match crate::text::find_in(rest, '/') {
                None => Some(rest.to_owned()),
                Some(j) => {
                    proof {
                        lemma_find_char(rest@, '/');
                    }
                    let t = rest.substring_char(0, j).to_owned();
                    proof {
                        assert(t@ =~= rest@.take(j as int));
                    }
                    Some(t)
                },
            }
        },
    }
}

/// What parsing a sequence of lines yields. The header block is the
/// leading run of non-blank lines; parsing fails (`None`) when that block
/// is empty or when its first line, stripped of comment decoration, holds
/// no `/`. Otherwise the title comes from the first header line, the
/// description is the remaining header lines stripped, joined with no
/// separator and trimmed, and the body is every line after the first blank
/// one, joined with no separator.
pub open spec fn spec_parse_lines(ls: Seq<Seq<char>>) -> Option<
    (Seq<char>, Seq<char>, Seq<char>),
> {
    let h = header_len(ls);
    if h == 0 {
        None
    } else {
        let first = strip_decoration(ls[0]);
        match title_of_line(first) {
            None => None,
            Some(title) => {
                let stripped = ls.subrange(1, h).map_values(|l: Seq<char>| strip_decoration(l));
                let description = trim_spec(concat_lines(stripped));
                let body = if h < ls.len() {
                    concat_lines(ls.skip(h + 1))
                } else {
                    Seq::<char>::empty()
                };
                Some((title, description, body))
            },
        }
    }
}

/// What parsing a whole document yields: `spec_parse_lines` over its
/// lines.
pub open spec fn spec_parse(text: Seq<char>) -> Option<(Seq<char>, Seq<char>, Seq<char>)> {
    spec_parse_lines(lines_of(text))
}

/// Parses a document into title, description and body.
///
/// Succeeds exactly when the document opens with a non-blank line whose
/// stripped form holds a `/`; fails with `MalformedHeader` otherwise.
pub fn parse_title_and_description(text: &str) -> (r: Result<ParsedHeader, ParseError>)
    ensures
        match r {
            Ok(p) => spec_parse(text@) == Some((p.title@, p.description@, p.body@)),
            Err(e) => spec_parse(text@) is None && e == ParseError::MalformedHeader,
        },
{
    let lines = split_lines(text);
    let ghost ls = lines.deep_view();
    let h = header_block_len(&lines);
    if h == 0 {
        return Err(ParseError::MalformedHeader);
    }
    proof {
        assert(ls[0] == lines@[0]@);
    }
    let first = strip_line(lines[0].as_str());
    let title = match title_from_line(first.as_str()) {
        None => {
            return Err(ParseError::MalformedHeader);
        },
        Some(t) => t,
    };
    let ghost stripped = ls.subrange(1, h as int).map_values(|l: Seq<char>| strip_decoration(l));
    let mut raw = String::new();
    let mut i: usize = 1;
    proof {
        assert(stripped.take(0) =~~= Seq::<Seq<char>>::empty());
    }
    while i < h
        invariant
            1 <= i <= h <= ls.len(),
            ls == lines.deep_view(),
            stripped == ls.subrange(1, h as int).map_values(|l: Seq<char>| strip_decoration(l)),
            raw@ == concat_lines(stripped.take(i - 1)),
        decreases h - i,
    {
        proof {
            assert(ls.subrange(1, h as int)[i - 1] == ls[i as int]);
            assert(stripped[i - 1] == strip_decoration(ls[i as int]));
            assert(ls[i as int] == lines@[i as int]@);
            lemma_concat_lines_take(stripped, i - 1);
        }
        let s = strip_line(lines[i].as_str());
        raw.append(s.as_str());
        i = i + 1;
    }
    proof {
        assert(stripped.take(h - 1) =~~= stripped);
    }
    let description = trim_of(raw.as_str());
    let body = if h < lines.len() {
        join_from(&lines, h + 1)
    } else {
        String::new()
    };
    Ok(ParsedHeader { title, description, body })
}

/// Only the first blank line separates header from body: whatever follows
/// it — further blank lines included — the body is the join of every line
/// after that first blank one, and nothing is skipped beyond it.
pub proof fn lemma_body_starts_after_first_blank(
    ls: Seq<Seq<char>>,
    t: Seq<char>,
    d: Seq<char>,
    b: Seq<char>,
)
    requires
        spec_parse_lines(ls) == Some((t, d, b)),
        header_len(ls) < ls.len(),
    ensures
        b == concat_lines(ls.skip(header_len(ls) + 1)),
{
}

/// A header block of exactly one line leaves the description empty.
pub proof fn lemma_single_line_header_empty_description(
    ls: Seq<Seq<char>>,
    t: Seq<char>,
    d: Seq<char>,
    b: Seq<char>,
)
    requires
        spec_parse_lines(ls) == Some((t, d, b)),
        header_len(ls) == 1,
    ensures
        d == Seq::<char>::empty(),
{
    let stripped = ls.subrange(1, 1).map_values(|l: Seq<char>| strip_decoration(l));
    assert(stripped =~~= Seq::<Seq<char>>::empty());
    assert(concat_lines(stripped) =~= Seq::<char>::empty());
}

/// The content of the blank line that terminates the header block is
/// irrelevant: replacing a whitespace-only terminator by a fully empty
/// line parses to the very same title, description and body.
pub proof fn lemma_terminator_spaces_like_empty(ls: Seq<Seq<char>>, i: int)
    requires
        0 <= i < ls.len(),
        i == header_len(ls),
    ensures
        spec_parse_lines(ls.update(i, Seq::<char>::empty())) == spec_parse_lines(ls),
{
    let u = ls.update(i, Seq::<char>::empty());
    lemma_header_len(ls);
    assert(is_blank_line(ls[i]));
    crate::text::lemma_blank_line_like_empty(ls, i);
    let h = header_len(ls);
    if h > 0 {
        assert(u[0] == ls[0]);
        assert(u.subrange(1, h as int) =~~= ls.subrange(1, h as int));
        if h < ls.len() {
            assert(u.skip(h + 1) =~~= ls.skip(h + 1));
        }
    }
}

} // verus!
