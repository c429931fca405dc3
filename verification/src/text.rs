//! Character and line primitives: whitespace, searching a line for a
//! character, splitting a document into lines, and joining lines back up.

use vstd::prelude::*;

verus! {

/// The Unicode `White_Space` code points, the set that `str::trim` and
/// friends strip.
pub open spec fn is_space_char(c: char) -> bool {
    c == '\u{09}' || c == '\u{0A}' || c == '\u{0B}' || c == '\u{0C}' || c == '\u{0D}'
        || c == '\u{20}' || c == '\u{85}' || c == '\u{A0}' || c == '\u{1680}'
        || (0x2000 <= c as u32 && c as u32 <= 0x200A)
        || c == '\u{2028}' || c == '\u{2029}' || c == '\u{202F}' || c == '\u{205F}'
        || c == '\u{3000}'
}

/// Decides `is_space_char`.
pub fn is_space(c: char) -> (r: bool)
    ensures
        r == is_space_char(c),
{
    c == '\u{09}' || c == '\u{0A}' || c == '\u{0B}' || c == '\u{0C}' || c == '\u{0D}'
        || c == '\u{20}' || c == '\u{85}' || c == '\u{A0}' || c == '\u{1680}'
        || (0x2000 <= c as u32 && c as u32 <= 0x200A)
        || c == '\u{2028}' || c == '\u{2029}' || c == '\u{202F}' || c == '\u{205F}'
        || c == '\u{3000}'
}

/// A line is blank when every character on it is whitespace; trimming it
/// would leave nothing.
pub open spec fn is_blank_line(l: Seq<char>) -> bool {
    forall|i: int| 0 <= i < l.len() ==> is_space_char(l[i])
}

/// Decides `is_blank_line`.
pub fn is_blank(l: &str) -> (r: bool)
    ensures
        r == is_blank_line(l@),
{
    let n: usize = l.unicode_len();
    let mut i: usize = 0;
    while i < n
        invariant
            n == l@.len(),
            0 <= i <= n,
            forall|j: int| 0 <= j < i ==> is_space_char(l@[j]),
        decreases n - i,
    {
        if !is_space(l.get_char(i)) {
            return false;
        }
        i = i + 1;
    }
    true
}

/// Index of the first occurrence of `c` in `l`, or -1 when `c` does not
/// occur.
pub open spec fn find_char(l: Seq<char>, c: char) -> int
    decreases l.len(),
{
    if l.len() == 0 {
        -1
    } else if l[0] == c {
        0
    } else {
        let r = find_char(l.skip(1), c);
        if r < 0 {
            -1
        } else {
            r + 1
        }
    }
}

/// `find_char` returns either -1 with no occurrence, or the index of the
/// first occurrence.
pub proof fn lemma_find_char(l: Seq<char>, c: char)
    ensures
        find_char(l, c) == -1 || (0 <= find_char(l, c) < l.len() && l[find_char(l, c)] == c),
        find_char(l, c) == -1 ==> forall|j: int| 0 <= j < l.len() ==> l[j] != c,
        forall|j: int| 0 <= j < find_char(l, c) ==> l[j] != c,
    decreases l.len(),
{
    if l.len() > 0 && l[0] != c {
        lemma_find_char(l.skip(1), c);
        assert forall|j: int| 1 <= j < l.len() implies l[j] == l.skip(1)[j - 1] by {
            assert(l.skip(1)[j - 1] == l[j]);
        }
    }
}

/// An index that holds `c` below which `c` does not occur is exactly
/// `find_char`.
pub proof fn lemma_find_char_is(l: Seq<char>, c: char, i: int)
    requires
        0 <= i < l.len(),
        l[i] == c,
        forall|j: int| 0 <= j < i ==> l[j] != c,
    ensures
        find_char(l, c) == i,
    decreases l.len(),
{
    if l[0] != c {
        assert(l.skip(1)[i - 1] == c);
        assert(forall|j: int| 0 <= j < i - 1 ==> l.skip(1)[j] == l[j + 1]);
        lemma_find_char_is(l.skip(1), c, i - 1);
    }
}

/// Finds the first occurrence of `c` in `l`, if any.
pub fn find_in(l: &str, c: char) -> (r: Option<usize>)
    ensures
        match r {
            Some(i) => find_char(l@, c) == i as int,
            None => find_char(l@, c) == -1,
        },
{
    let n: usize = l.unicode_len();
    let mut i: usize = 0;
    while i < n
        invariant
            n == l@.len(),
            0 <= i <= n,
            forall|j: int| 0 <= j < i ==> l@[j] != c,
        decreases n - i,
    {
        if l.get_char(i) == c {
            proof {
                lemma_find_char_is(l@, c, i as int);
            }
            return Some(i);
        }
        i = i + 1;
    }
    proof {
        lemma_find_char(l@, c);
    }
    None
}

/// Prepends a prefix onto the first line of `ls`; an empty prefix before no
/// lines stays no lines.
pub open spec fn cons_line(p: Seq<char>, ls: Seq<Seq<char>>) -> Seq<Seq<char>> {
    if ls.len() == 0 {
        if p.len() == 0 {
            Seq::<Seq<char>>::empty()
        } else {
            seq![p]
        }
    } else {
        seq![p + ls[0]] + ls.skip(1)
    }
}

/// The lines of a document, split at `'\n'`, with a `"\r\n"` pair counting
/// as one break. The break characters belong to no line, and a document
/// that ends with a break yields no extra empty line.
pub open spec fn lines_of(s: Seq<char>) -> Seq<Seq<char>>
    decreases s.len(),
{
    if s.len() == 0 {
        Seq::<Seq<char>>::empty()
    } else if s[0] == '\n' {
        seq![Seq::<char>::empty()] + lines_of(s.skip(1))
    } else if s[0] == '\r' && s.len() >= 2 && s[1] == '\n' {
        seq![Seq::<char>::empty()] + lines_of(s.skip(2))
    } else {
        cons_line(seq![s[0]], lines_of(s.skip(1)))
    }
}

/// Prepending two prefixes one after the other onto the first line is
/// prepending their concatenation.
proof fn lemma_cons_line_assoc(p: Seq<char>, q: Seq<char>, ls: Seq<Seq<char>>)
    ensures
        cons_line(p, cons_line(q, ls)) == cons_line(p + q, ls),
{
    if ls.len() == 0 {
        if q.len() == 0 {
            assert(p + q =~= p);
            if p.len() == 0 {
                assert(cons_line(p, cons_line(q, ls)) =~~= cons_line(p + q, ls));
            }
        } else {
            assert(cons_line(p, seq![q]) =~~= seq![p + q]);
        }
    } else {
        assert(cons_line(q, ls) == seq![q + ls[0]] + ls.skip(1));
        assert((seq![q + ls[0]] + ls.skip(1)).len() > 0);
        assert((seq![q + ls[0]] + ls.skip(1))[0] == q + ls[0]);
        assert(p + (q + ls[0]) =~= (p + q) + ls[0]);
        assert((seq![q + ls[0]] + ls.skip(1)).skip(1) =~~= ls.skip(1));
        assert(cons_line(p, cons_line(q, ls)) =~~= cons_line(p + q, ls));
    }
}

/// No line break starts at position `j` of `s`: neither a `'\n'` nor the
/// `'\r'` of a `"\r\n"` pair.
pub open spec fn no_break_at(s: Seq<char>, j: int) -> bool {
    s[j] != '\n' && !(s[j] == '\r' && j + 1 < s.len() && s[j + 1] == '\n')
}

/// Splitting off the first `k` characters, none of which starts a line
/// break, leaves `lines_of` as that prefix prepended onto the lines of the
/// rest.
pub proof fn lemma_lines_of_prefix(s: Seq<char>, k: int)
    requires
        0 <= k <= s.len(),
        forall|j: int| 0 <= j < k ==> no_break_at(s, j),
    ensures
        lines_of(s) == cons_line(s.take(k), lines_of(s.skip(k))),
    decreases k,
{
    if k == 0 {
        assert(s.take(0) =~= Seq::<char>::empty());
        assert(s.skip(0) =~= s);
        let ls = lines_of(s);
        if ls.len() == 0 {
            assert(cons_line(s.take(0), ls) =~~= ls);
        } else {
            assert(s.take(0) + ls[0] =~= ls[0]);
            assert(cons_line(s.take(0), ls) =~~= ls);
        }
    } else {
        let t = s.skip(1);
        assert(no_break_at(s, 0));
        assert forall|j: int| 0 <= j < k - 1 implies no_break_at(t, j) by {
            assert(t[j] == s[j + 1]);
            assert(j + 1 < t.len() ==> t[j + 1] == s[j + 2]);
            assert(no_break_at(s, j + 1));
        }
        lemma_lines_of_prefix(t, k - 1);
        assert(t.skip(k - 1) =~= s.skip(k));
        assert(lines_of(s) == cons_line(seq![s[0]], lines_of(t)));
        lemma_cons_line_assoc(seq![s[0]], t.take(k - 1), lines_of(s.skip(k)));
        assert(seq![s[0]] + t.take(k - 1) =~= s.take(k));
    }
}

/// Splits a document into its lines, as `lines_of` describes.
pub fn split_lines(text: &str) -> (r: Vec<String>)
    ensures
        r.deep_view() == lines_of(text@),
{
    let n: usize = text.unicode_len();
    let mut res: Vec<String> = Vec::new();
    let mut start: usize = 0;
    let mut i: usize = 0;
    proof {
        assert(text@.skip(0) =~= text@);
        assert(res.deep_view() =~~= Seq::<Seq<char>>::empty());
        assert(res.deep_view() + lines_of(text@) =~~= lines_of(text@));
    }
    while i < n
        invariant
            n == text@.len(),
            0 <= start <= i <= n,
            forall|j: int| start <= j < i ==> no_break_at(text@, j),
            lines_of(text@) == res.deep_view() + lines_of(text@.skip(start as int)),
        decreases n - i,
    {
        let c = text.get_char(i);
        let brk: usize = if c == '\n' {
            1
        } else if c == '\r' && i + 1 < n && text.get_char(i + 1) == '\n' {
            2
        } else {
            0
        };
        if brk > 0 {
            let line = text.substring_char(start, i).to_owned();
            proof {
                let sfx = text@.skip(start as int);
                assert forall|j: int| 0 <= j < i - start implies no_break_at(sfx, j) by {
                    assert(sfx[j] == text@[start + j]);
                    assert(j + 1 < sfx.len() ==> sfx[j + 1] == text@[start + j + 1]);
                    assert(no_break_at(text@, start + j));
                }
                lemma_lines_of_prefix(sfx, i - start);
                assert(sfx.take(i - start) =~= line@);
                assert(sfx.skip(i - start) =~= text@.skip(i as int));
                let rest = lines_of(text@.skip(i + brk));
                let sfi = text@.skip(i as int);
                assert(sfi[0] == text@[i as int]);
                if brk == 2 {
                    assert(sfi.len() >= 2 && sfi[1] == text@[i + 1]);
                }
                assert(sfi.skip(brk as int) =~= text@.skip(i + brk));
                assert(lines_of(text@.skip(i as int)) == seq![Seq::<char>::empty()] + rest);
                assert((seq![Seq::<char>::empty()] + rest).len() > 0);
                assert(line@ + (seq![Seq::<char>::empty()] + rest)[0] =~= line@);
                assert((seq![Seq::<char>::empty()] + rest).skip(1) =~~= rest);
                assert(lines_of(sfx) =~~= seq![line@] + rest);
            }
            let ghost old_res = res;
            res.push(line);
            proof {
                assert(res.deep_view() =~~= old_res.deep_view() + seq![line@]);
                assert(res.deep_view() + lines_of(text@.skip(i + brk)) =~~= old_res.deep_view()
                    + lines_of(text@.skip(start as int)));
            }
            start = i + brk;
            i = i + brk;
        } else {
            i = i + 1;
        }
    }
    if start < n {
        let line = text.substring_char(start, n).to_owned();
        proof {
            let sfx = text@.skip(start as int);
            assert forall|j: int| 0 <= j < n - start implies no_break_at(sfx, j) by {
                assert(sfx[j] == text@[start + j]);
                assert(j + 1 < sfx.len() ==> sfx[j + 1] == text@[start + j + 1]);
                assert(no_break_at(text@, start + j));
            }
            lemma_lines_of_prefix(sfx, n - start as int);
            assert(sfx.take(n - start as int) =~= line@);
            assert(sfx.skip(n - start as int) =~= Seq::<char>::empty());
            assert(lines_of(sfx) == seq![line@]);
        }
        let ghost old_res = res;
        res.push(line);
        proof {
            assert(res.deep_view() =~~= old_res.deep_view() + seq![line@]);
            assert(res.deep_view() =~~= lines_of(text@));
        }
    } else {
        proof {
            assert(text@.skip(start as int) =~= Seq::<char>::empty());
            assert(res.deep_view() =~~= res.deep_view() + lines_of(text@.skip(start as int)));
        }
    }
    res
}

/// The lines of `ls` joined one after the other, with no separator.
pub open spec fn concat_lines(ls: Seq<Seq<char>>) -> Seq<char>
    decreases ls.len(),
{
    if ls.len() == 0 {
        Seq::<char>::empty()
    } else {
        ls[0] + concat_lines(ls.skip(1))
    }
}

/// Joining one line more appends that line to the joined prefix.
pub proof fn lemma_concat_lines_take(ls: Seq<Seq<char>>, i: int)
    requires
        0 <= i < ls.len(),
    ensures
        concat_lines(ls.take(i + 1)) == concat_lines(ls.take(i)) + ls[i],
    decreases i,
{
    if i == 0 {
        assert(ls.take(1) =~~= seq![ls[0]]);
        assert(seq![ls[0]].skip(1) =~~= Seq::<Seq<char>>::empty());
        assert(ls[0] + Seq::<char>::empty() =~= ls[0]);
        assert(ls.take(0) =~~= Seq::<Seq<char>>::empty());
        assert(Seq::<char>::empty() + ls[0] =~= ls[0]);
    } else {
        let t = ls.skip(1);
        lemma_concat_lines_take(t, i - 1);
        assert(ls.take(i + 1).skip(1) =~~= t.take(i));
        assert(ls.take(i).skip(1) =~~= t.take(i - 1));
        assert(ls.take(i + 1)[0] == ls[0]);
        assert(ls.take(i)[0] == ls[0]);
        assert(concat_lines(ls.take(i + 1)) == ls[0] + concat_lines(t.take(i)));
        assert(concat_lines(ls.take(i)) == ls[0] + concat_lines(t.take(i - 1)));
        assert(t[i - 1] == ls[i]);
        assert(ls[0] + (concat_lines(t.take(i - 1)) + ls[i]) =~= (ls[0] + concat_lines(t.take(i
            - 1))) + ls[i]);
    }
}

/// Joins the lines of `v` from index `from` on, with no separator.
pub fn join_from(v: &Vec<String>, from: usize) -> (r: String)
    requires
        from <= v@.len(),
    ensures
        r@ == concat_lines(v.deep_view().skip(from as int)),
{
    let ghost tail = v.deep_view().skip(from as int);
    let mut acc = String::new();
    let mut i: usize = from;
    proof {
        assert(tail.take(0) =~~= Seq::<Seq<char>>::empty());
    }
    while i < v.len()
        invariant
            from <= i <= v@.len(),
            tail == v.deep_view().skip(from as int),
            acc@ == concat_lines(tail.take(i - from)),
        decreases v@.len() - i,
    {
        proof {
            assert(tail[i - from] == v.deep_view()[i as int]);
            assert(v.deep_view()[i as int] == v@[i as int]@);
            lemma_concat_lines_take(tail, i - from);
        }
        acc.append(v[i].as_str());
        i = i + 1;
    }
    proof {
        assert(tail.take(v@.len() - from) =~~= tail);
    }
    acc
}

/// How many lines the header block holds: the length of the longest prefix
/// of non-blank lines.
pub open spec fn header_len(ls: Seq<Seq<char>>) -> int
    decreases ls.len(),
{
    if ls.len() == 0 || is_blank_line(ls[0]) {
        0
    } else {
        1 + header_len(ls.skip(1))
    }
}

/// The header length lies between 0 and the number of lines, every line
/// before it is non-blank, and the line at it, if any, is blank.
pub proof fn lemma_header_len(ls: Seq<Seq<char>>)
    ensures
        0 <= header_len(ls) <= ls.len(),
        forall|j: int| 0 <= j < header_len(ls) ==> !is_blank_line(ls[j]),
        header_len(ls) < ls.len() ==> is_blank_line(ls[header_len(ls)]),
    decreases ls.len(),
{
    if ls.len() > 0 && !is_blank_line(ls[0]) {
        let t = ls.skip(1);
        lemma_header_len(t);
        assert forall|j: int| 0 <= j < header_len(ls) implies !is_blank_line(ls[j]) by {
            if j > 0 {
                assert(t[j - 1] == ls[j]);
                assert(!is_blank_line(t[j - 1]));
            }
        }
        if header_len(ls) < ls.len() {
            assert(t[header_len(ls) - 1] == ls[header_len(ls)]);
        }
    }
}

/// A count of leading non-blank lines that ends at a blank line or at the
/// end is exactly `header_len`.
pub proof fn lemma_header_len_is(ls: Seq<Seq<char>>, h: int)
    requires
        0 <= h <= ls.len(),
        forall|j: int| 0 <= j < h ==> !is_blank_line(ls[j]),
        h < ls.len() ==> is_blank_line(ls[h]),
    ensures
        header_len(ls) == h,
    decreases ls.len(),
{
    if h > 0 {
        let t = ls.skip(1);
        assert(forall|j: int| 0 <= j < t.len() ==> t[j] == ls[j + 1]);
        lemma_header_len_is(t, h - 1);
    }
}

/// Counts the lines of the header block: the leading non-blank lines.
pub fn header_block_len(lines: &Vec<String>) -> (h: usize)
    ensures
        h == header_len(lines.deep_view()),
        h <= lines@.len(),
{
    let mut h: usize = 0;
    while h < lines.len() && !is_blank(lines[h].as_str())
        invariant
            0 <= h <= lines@.len(),
            forall|j: int| 0 <= j < h ==> !is_blank_line(lines.deep_view()[j]),
        decreases lines@.len() - h,
    {
        h = h + 1;
    }
    proof {
        lemma_header_len_is(lines.deep_view(), h as int);
    }
    h
}

/// A line of nothing but whitespace bounds the header block exactly as a
/// fully empty line would: replacing it by the empty line leaves the
/// block's length unchanged, wherever it stands.
pub proof fn lemma_blank_line_like_empty(ls: Seq<Seq<char>>, i: int)
    requires
        0 <= i < ls.len(),
        is_blank_line(ls[i]),
    ensures
        header_len(ls.update(i, Seq::<char>::empty())) == header_len(ls),
    decreases ls.len(),
{
    let u = ls.update(i, Seq::<char>::empty());
    if i == 0 {
        assert(is_blank_line(u[0]));
    } else {
        assert(u[0] == ls[0]);
        if !is_blank_line(ls[0]) {
            assert(ls.skip(1)[i - 1] == ls[i]);
            lemma_blank_line_like_empty(ls.skip(1), i - 1);
            assert(u.skip(1) =~~= ls.skip(1).update(i - 1, Seq::<char>::empty()));
        }
    }
}

/// `l` with its leading whitespace dropped.
pub open spec fn trim_start_spec(l: Seq<char>) -> Seq<char>
    decreases l.len(),
{
    if l.len() > 0 && is_space_char(l[0]) {
        trim_start_spec(l.skip(1))
    } else {
        l
    }
}

/// `l` with its trailing whitespace dropped.
pub open spec fn trim_end_spec(l: Seq<char>) -> Seq<char>
    decreases l.len(),
{
    if l.len() > 0 && is_space_char(l[l.len() - 1]) {
        trim_end_spec(l.take(l.len() - 1))
    } else {
        l
    }
}

/// `l` with leading and trailing whitespace dropped, as `str::trim` leaves
/// it.
pub open spec fn trim_spec(l: Seq<char>) -> Seq<char> {
    trim_end_spec(trim_start_spec(l))
}

/// Dropping leading whitespace keeps everything from the first non-space
/// character on.
proof fn lemma_trim_start_at(l: Seq<char>, a: int)
    requires
        0 <= a <= l.len(),
        forall|j: int| 0 <= j < a ==> is_space_char(l[j]),
        a < l.len() ==> !is_space_char(l[a]),
    ensures
        trim_start_spec(l) == l.skip(a),
    decreases a,
{
    if a == 0 {
        assert(l.skip(0) =~= l);
    } else {
        let t = l.skip(1);
        assert(forall|j: int| 0 <= j < t.len() ==> t[j] == l[j + 1]);
        lemma_trim_start_at(t, a - 1);
        assert(t.skip(a - 1) =~= l.skip(a));
    }
}

/// Dropping trailing whitespace keeps everything up to the last non-space
/// character.
proof fn lemma_trim_end_at(l: Seq<char>, b: int)
    requires
        -1 <= b < l.len(),
        forall|j: int| b < j < l.len() ==> is_space_char(l[j]),
        b >= 0 ==> !is_space_char(l[b]),
    ensures
        trim_end_spec(l) == l.take(b + 1),
    decreases l.len(),
{
    if b + 1 == l.len() {
        assert(l.take(l.len() as int) =~= l);
    } else {
        let t = l.take(l.len() - 1);
        assert(forall|j: int| 0 <= j < t.len() ==> t[j] == l[j]);
        lemma_trim_end_at(t, b);
        assert(t.take(b + 1) =~= l.take(b + 1));
    }
}

/// Trims leading and trailing whitespace, as `trim_spec` describes.
pub fn trim_of(l: &str) -> (r: String)
    ensures
        r@ == trim_spec(l@),
{
    let n: usize = l.unicode_len();
    let mut a: usize = 0;
    while a < n && is_space(l.get_char(a))
        invariant
            n == l@.len(),
            0 <= a <= n,
            forall|j: int| 0 <= j < a ==> is_space_char(l@[j]),
        decreases n - a,
    {
        a = a + 1;
    }
    proof {
        lemma_trim_start_at(l@, a as int);
    }
    if a == n {
        proof {
            assert(l@.skip(n as int) =~= Seq::<char>::empty());
        }
        let r = String::new();
        return r;
    }
    let mut end: usize = n;
    while end > a + 1 && is_space(l.get_char(end - 1))
        invariant
            a < n == l@.len(),
            a + 1 <= end <= n,
            forall|j: int| end <= j < n ==> is_space_char(l@[j]),
        decreases end,
    {
        end = end - 1;
    }
    let r = l.substring_char(a, end).to_owned();
    proof {
        let t = l@.skip(a as int);
        assert(forall|j: int| 0 <= j < t.len() ==> t[j] == l@[a + j]);
        if end == a + 1 && is_space_char(l@[end - 1]) {
            assert(!is_space_char(l@[a as int]));
            assert(false);
        }
        lemma_trim_end_at(t, end - 1 - a);
        assert(t.take(end - a as int) =~= l@.subrange(a as int, end as int));
    }
    r
}

} // verus!
