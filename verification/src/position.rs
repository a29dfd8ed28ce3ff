//! Conversion between textual positions (line, UTF-16 column) and byte
//! offsets into the UTF-8 encoded source text.
//!
//! The editor protocol speaks in lines and UTF-16 code units, while the
//! syntax tree and the source text work in UTF-8 byte offsets.  This module
//! is the sole translation boundary between the two coordinate systems.

use vstd::prelude::*;

verus! {

/// A textual position: zero-based line number and column counted in UTF-16
/// code units from the start of the line.
#[derive(Clone, Copy, PartialEq, Eq, Structural, Debug)]
pub struct Position {
    pub line: usize,
    pub character: usize,
}

/// A textual range: start inclusive, end exclusive in text order.
#[derive(Clone, Copy, PartialEq, Eq, Structural, Debug)]
pub struct Range {
    pub start: Position,
    pub end: Position,
}

/// Number of bytes in the UTF-8 encoding of one character.
pub open spec fn utf8_len_char(c: char) -> int {
    if (c as u32) < 0x80 {
        1int
    } else if (c as u32) < 0x800 {
        2int
    } else if (c as u32) < 0x10000 {
        3int
    } else {
        4int
    }
}

/// Number of UTF-16 code units needed to encode one character: 2 for a
/// supplementary-plane character, 1 for everything else.
pub open spec fn utf16_len_char(c: char) -> int {
    if (c as u32) < 0x10000 {
        1int
    } else {
        2int
    }
}

/// Number of bytes in the UTF-8 encoding of a character sequence.
pub open spec fn utf8_len(s: Seq<char>) -> int
    decreases s.len(),
{
    if s.len() == 0 {
        0int
    } else {
        utf8_len(s.drop_last()) + utf8_len_char(s.last())
    }
}

/// Number of UTF-16 code units needed to encode a character sequence.
pub open spec fn utf16_len(s: Seq<char>) -> int
    decreases s.len(),
{
    if s.len() == 0 {
        0int
    } else {
        utf16_len(s.drop_last()) + utf16_len_char(s.last())
    }
}

/// Number of newline characters in a character sequence.
pub open spec fn count_nl(s: Seq<char>) -> int
    decreases s.len(),
{
    if s.len() == 0 {
        0int
    } else {
        count_nl(s.drop_last()) + if s.last() == '\n' {
            1int
        } else {
            0int
        }
    }
}

/// The character index where the line containing character index `k` starts:
/// the largest index at or before `k` that is either the start of the text or
/// directly preceded by a newline.
pub open spec fn line_start_of(s: Seq<char>, k: int) -> int
    decreases k when k >= 0
{
    if k <= 0 {
        0int
    } else if s[k - 1] == '\n' {
        k
    } else {
        line_start_of(s, k - 1)
    }
}

/// Character index `k` is a character boundary of `s` at byte offset `off`.
pub open spec fn boundary_at(s: Seq<char>, off: int, k: int) -> bool {
    0 <= k <= s.len() && utf8_len(s.take(k)) == off
}

/// Byte offset `off` lies on a character boundary of `s`.
pub open spec fn is_boundary(s: Seq<char>, off: int) -> bool {
    exists|k: int| boundary_at(s, off, k)
}

/// The character index of the boundary at byte offset `off`.
pub open spec fn char_index_at(s: Seq<char>, off: int) -> int {
    choose|k: int| boundary_at(s, off, k)
}

/// The line number of the position at byte offset `off`: the number of
/// newline characters strictly before it.
pub open spec fn line_at(s: Seq<char>, off: int) -> int {
    count_nl(s.take(char_index_at(s, off)))
}

/// The UTF-16 column of the position at byte offset `off`: the UTF-16 length
/// of the slice from the start of its line up to it.
pub open spec fn col16_at(s: Seq<char>, off: int) -> int {
    utf16_len(s.subrange(line_start_of(s, char_index_at(s, off)), char_index_at(s, off)))
}

/// The character index where line `line` starts, scanning forward from
/// character index `j` and skipping `line` newlines; `None` when the text
/// ends before that many newlines are seen.
pub open spec fn seek_line(s: Seq<char>, j: int, line: int) -> Option<int>
    decreases s.len() - j when 0 <= j <= s.len()
{
    if line <= 0 {
        Some(j)
    } else if j >= s.len() {
        None
    } else if s[j] == '\n' {
        seek_line(s, j + 1, line - 1)
    } else {
        seek_line(s, j + 1, line)
    }
}

/// Advance from character index `j` by exactly `units` UTF-16 code units,
/// staying within the current line; `None` when the line ends first or when
/// `units` falls in the middle of a supplementary-plane character.
pub open spec fn advance16(s: Seq<char>, j: int, units: int) -> Option<int>
    decreases s.len() - j when 0 <= j <= s.len()
{
    if units == 0 {
        Some(j)
    } else if units < 0 || j >= s.len() {
        None
    } else if s[j] == '\n' {
        None
    } else if utf16_len_char(s[j]) > units {
        None
    } else {
        advance16(s, j + 1, units - utf16_len_char(s[j]))
    }
}

/// The character boundary a textual position denotes: the start of its line,
/// advanced by its UTF-16 column; `None` when the text has no such line or
/// the line is too short.
pub open spec fn lookup_pos_spec(s: Seq<char>, line: int, character: int) -> Option<int> {
    match seek_line(s, 0, line) {
        Some(j) => advance16(s, j, character),
        None => None,
    }
}

pub proof fn lemma_utf8_len_nonneg(s: Seq<char>)
    ensures
        utf8_len(s) >= s.len(),
        utf16_len(s) >= s.len(),
        0 <= count_nl(s) <= s.len(),
    decreases s.len(),
{
    if s.len() > 0 {
        lemma_utf8_len_nonneg(s.drop_last());
    }
}

pub proof fn lemma_len_snoc(s: Seq<char>, k: int)
    requires
        0 <= k < s.len(),
    ensures
        utf8_len(s.take(k + 1)) == utf8_len(s.take(k)) + utf8_len_char(s[k]),
        utf16_len(s.take(k + 1)) == utf16_len(s.take(k)) + utf16_len_char(s[k]),
        count_nl(s.take(k + 1)) == count_nl(s.take(k)) + if s[k] == '\n' {
            1int
        } else {
            0int
        },
{
    assert(s.take(k + 1).drop_last() =~= s.take(k));
    assert(s.take(k + 1).last() == s[k]);
}

pub proof fn lemma_utf16_subrange_snoc(s: Seq<char>, a: int, k: int)
    requires
        0 <= a <= k < s.len(),
    ensures
        utf16_len(s.subrange(a, k + 1)) == utf16_len(s.subrange(a, k)) + utf16_len_char(s[k]),
{
    assert(s.subrange(a, k + 1).drop_last() =~= s.subrange(a, k));
    assert(s.subrange(a, k + 1).last() == s[k]);
}

/// Byte offsets of character boundaries grow strictly with the boundary.
pub proof fn lemma_utf8_len_mono(s: Seq<char>, a: int, b: int)
    requires
        0 <= a <= b <= s.len(),
    ensures
        utf8_len(s.take(a)) <= utf8_len(s.take(b)),
        a < b ==> utf8_len(s.take(a)) + utf8_len_char(s[b - 1]) <= utf8_len(s.take(b)),
    decreases b - a,
{
    if a < b {
        lemma_utf8_len_mono(s, a, b - 1);
        lemma_len_snoc(s, b - 1);
        assert(utf8_len_char(s[b - 1]) >= 1);
    }
}

/// Two boundaries at the same byte offset are the same boundary.
pub proof fn lemma_boundary_unique(s: Seq<char>, off: int, k1: int, k2: int)
    requires
        boundary_at(s, off, k1),
        boundary_at(s, off, k2),
    ensures
        k1 == k2,
{
    if k1 < k2 {
        lemma_utf8_len_mono(s, k1, k2);
    }
    if k2 < k1 {
        lemma_utf8_len_mono(s, k2, k1);
    }
}

/// `utf8_len` seen from the front: the first character plus the rest.
pub proof fn lemma_utf8_len_cons(s: Seq<char>)
    requires
        s.len() > 0,
    ensures
        utf8_len(s) == utf8_len_char(s[0]) + utf8_len(s.drop_first()),
    decreases s.len(),
{
    if s.len() == 1 {
        assert(s.drop_last() =~= Seq::<char>::empty());
        assert(s.drop_first() =~= Seq::<char>::empty());
    } else {
        lemma_utf8_len_cons(s.drop_last());
        assert(s.drop_last().drop_first() =~= s.drop_first().drop_last());
        assert(s.drop_last()[0] == s[0]);
        assert(s.drop_first().last() == s.last());
    }
}

/// `utf16_len` seen from the front: the first character plus the rest.
pub proof fn lemma_utf16_len_cons(s: Seq<char>)
    requires
        s.len() > 0,
    ensures
        utf16_len(s) == utf16_len_char(s[0]) + utf16_len(s.drop_first()),
    decreases s.len(),
{
    if s.len() == 1 {
        assert(s.drop_last() =~= Seq::<char>::empty());
        assert(s.drop_first() =~= Seq::<char>::empty());
    } else {
        lemma_utf16_len_cons(s.drop_last());
        assert(s.drop_last().drop_first() =~= s.drop_first().drop_last());
        assert(s.drop_last()[0] == s[0]);
        assert(s.drop_first().last() == s.last());
    }
}

/// `utf8_len` agrees with the length of the UTF-8 encoding of the sequence,
/// so the byte length of any real source text bounds it.
pub proof fn lemma_utf8_len_is_byte_len(s: Seq<char>)
    ensures
        utf8_len(s) == vstd::utf8::encode_utf8(s).len(),
    decreases s.len(),
{
    if s.len() > 0 {
        lemma_utf8_len_is_byte_len(s.drop_first());
        lemma_utf8_len_cons(s);
        vstd::utf8::char_is_scalar(s[0]);
        assert(vstd::utf8::encode_scalar(s[0] as u32).len() == utf8_len_char(s[0]));
    }
}

/// The UTF-8 byte length of one character.
pub fn char_utf8_len(c: char) -> (r: usize)
    ensures
        r == utf8_len_char(c),
{
    let u = c as u32;
    if u < 0x80 {
        1
    } else if u < 0x800 {
        2
    } else if u < 0x10000 {
        3
    } else {
        4
    }
}

/// The UTF-16 length of one character in code units.
pub fn char_utf16_len(c: char) -> (r: usize)
    ensures
        r == utf16_len_char(c),
{
    if (c as u32) < 0x10000 {
        1
    } else {
        2
    }
}

/// Convert a textual position to the byte offset it denotes in `code`, or
/// `None` when `code` has no line `pos.line` or that line is shorter than
/// `pos.character` UTF-16 units (or `pos.character` falls in the middle of a
/// supplementary-plane character).
pub fn lookup_pos(code: &str, pos: Position) -> (r: Option<usize>)
    ensures
        ({
            let res = lookup_pos_spec(code@, pos.line as int, pos.character as int);
            match r {
                Some(off) => res matches Some(k) && off == utf8_len(code@.take(k)),
                None => res is None,
            }
        }),
{
    let s_len = code.unicode_len();
    let bytes_total = code.as_bytes().len();
    proof {
        lemma_utf8_len_is_byte_len(code@);
    }
    let ghost s = code@;

    let mut k: usize = 0;
    let mut acc: usize = 0;
    let mut rem_lines: usize = pos.line;

    while rem_lines > 0
        invariant
            k <= s_len,
            s_len == s.len(),
            s == code@,
            bytes_total == utf8_len(s),
            acc == utf8_len(s.take(k as int)),
            seek_line(s, 0, pos.line as int) == seek_line(s, k as int, rem_lines as int),
        decreases s.len() - k,
    {
        if k >= s_len {
            return None;
        }
        let c = code.get_char(k);
        proof {
            lemma_len_snoc(s, k as int);
            lemma_utf8_len_mono(s, k as int + 1, s.len() as int);
            assert(s.take(s.len() as int) =~= s);
        }
        acc = acc + char_utf8_len(c);
        if c == '\n' {
            rem_lines = rem_lines - 1;
        }
        k = k + 1;
    }

    let ghost j0 = k as int;
    let mut rem16: usize = pos.character;
    while rem16 > 0
        invariant
            j0 <= k as int,
            k <= s_len,
            s_len == s.len(),
            s == code@,
            bytes_total == utf8_len(s),
            acc == utf8_len(s.take(k as int)),
            seek_line(s, 0, pos.line as int) == Some(j0),
            advance16(s, j0, pos.character as int) == advance16(s, k as int, rem16 as int),
        decreases rem16,
    {
        if k >= s_len {
            return None;
        }
        let c = code.get_char(k);
        if c == '\n' {
            return None;
        }
        let u16l = char_utf16_len(c);
        if u16l > rem16 {
            return None;
        }
        proof {
            lemma_len_snoc(s, k as int);
            lemma_utf8_len_mono(s, k as int + 1, s.len() as int);
            assert(s.take(s.len() as int) =~= s);
        }
        acc = acc + char_utf8_len(c);
        rem16 = rem16 - u16l;
        k = k + 1;
    }
    Some(acc)
}

/// Decide whether `off` lies on a character boundary of `code`, so that a
/// caller can test the precondition of `offset_to_pos` on arbitrary input.
#[verifier::loop_isolation(false)]
pub fn check_boundary(code: &str, off: usize) -> (r: bool)
    ensures
        r == is_boundary(code@, off as int),
{
    let n = code.unicode_len();
    let total = code.as_bytes().len();
    proof {
        lemma_utf8_len_is_byte_len(code@);
    }
    let ghost s = code@;
    let mut k: usize = 0;
    let mut acc: usize = 0;
    while acc < off && k < n
        invariant
            k <= n,
            n == s.len(),
            total == utf8_len(s),
            acc == utf8_len(s.take(k as int)),
            forall|k2: int| 0 <= k2 < k ==> utf8_len(s.take(k2)) < off,
        decreases n - k,
    {
        let c = code.get_char(k);
        proof {
            lemma_len_snoc(s, k as int);
            lemma_utf8_len_mono(s, k as int + 1, s.len() as int);
            assert(s.take(s.len() as int) =~= s);
        }
        acc = acc + char_utf8_len(c);
        k = k + 1;
    }
    if acc == off {
        proof {
            assert(boundary_at(s, off as int, k as int));
        }
        true
    } else {
        proof {
            if is_boundary(s, off as int) {
                let kb = char_index_at(s, off as int);
                assert(boundary_at(s, off as int, kb));
                if kb >= k as int {
                    lemma_utf8_len_mono(s, k as int, kb);
                    lemma_utf8_len_mono(s, kb, s.len() as int);
                    assert(s.take(s.len() as int) =~= s);
                }
            }
        }
        false
    }
}

/// Convert a byte offset into `code` to its textual position.  The offset
/// must lie on a character boundary: this direction is deliberately partial
/// and unchecked, and callers are responsible for passing a valid offset.
pub fn offset_to_pos(code: &str, offset: usize) -> (r: Position)
    requires
        is_boundary(code@, offset as int),
    ensures
        r.line == line_at(code@, offset as int),
        r.character == col16_at(code@, offset as int),
{
    let s_len = code.unicode_len();
    let ghost s = code@;
    let ghost kstar = char_index_at(s, offset as int);
    proof {
        assert(boundary_at(s, offset as int, kstar));
    }

    let mut k: usize = 0;
    let mut acc: usize = 0;
    let mut line: usize = 0;
    let mut col16: usize = 0;
    while acc < offset
        invariant
            k <= s_len,
            s_len == s.len(),
            s == code@,
            boundary_at(s, offset as int, kstar),
            acc == utf8_len(s.take(k as int)),
            acc <= offset,
            line == count_nl(s.take(k as int)),
            line <= k,
            col16 == utf16_len(s.subrange(line_start_of(s, k as int), k as int)),
            col16 <= acc,
            0 <= line_start_of(s, k as int) <= k as int,
        decreases offset - acc,
    {
        proof {
            if k as int >= kstar {
                lemma_utf8_len_mono(s, kstar, k as int);
            }
            lemma_utf8_len_mono(s, k as int + 1, kstar);
            lemma_len_snoc(s, k as int);
        }
        let c = code.get_char(k);
        acc = acc + char_utf8_len(c);
        if c == '\n' {
            line = line + 1;
            col16 = 0;
        } else {
            proof {
                lemma_utf16_subrange_snoc(s, line_start_of(s, k as int), k as int);
            }
            col16 = col16 + char_utf16_len(c);
        }
        k = k + 1;
    }
    proof {
        lemma_boundary_unique(s, offset as int, k as int, kstar);
    }
    Position { line, character: col16 }
}

/// Convert a byte range of `code` into a textual range, applying
/// `offset_to_pos` to both ends.
pub fn range(code: &str, start: usize, end: usize) -> (r: Range)
    requires
        is_boundary(code@, start as int),
        is_boundary(code@, end as int),
    ensures
        r.start.line == line_at(code@, start as int),
        r.start.character == col16_at(code@, start as int),
        r.end.line == line_at(code@, end as int),
        r.end.character == col16_at(code@, end as int),
{
    Range { start: offset_to_pos(code, start), end: offset_to_pos(code, end) }
}

/// What a successful line seek means: the result lies at or after the start
/// index, exactly `line` newlines lie between them, and the result is the
/// start of a line.
proof fn lemma_seek_line_props(s: Seq<char>, j: int, line: int)
    requires
        0 <= j <= s.len(),
        line >= 0,
    ensures
        seek_line(s, j, line) matches Some(jj) ==> {
            &&& j <= jj <= s.len()
            &&& count_nl(s.take(jj)) == count_nl(s.take(j)) + line
            &&& ((jj == j && line == 0) || (jj > 0 && s[jj - 1] == '\n'))
        },
    decreases s.len() - j,
{
    if line <= 0 {
    } else if j >= s.len() {
    } else {
        lemma_len_snoc(s, j);
        if s[j] == '\n' {
            lemma_seek_line_props(s, j + 1, line - 1);
        } else {
            lemma_seek_line_props(s, j + 1, line);
        }
    }
}

/// What a successful UTF-16 advance means: the slice crossed has exactly the
/// requested UTF-16 length and contains no newline.
proof fn lemma_advance16_props(s: Seq<char>, j: int, units: int)
    requires
        0 <= j <= s.len(),
        units >= 0,
    ensures
        advance16(s, j, units) matches Some(k) ==> {
            &&& j <= k <= s.len()
            &&& utf16_len(s.subrange(j, k)) == units
            &&& forall|i: int| j <= i < k ==> s[i] != '\n'
        },
    decreases s.len() - j,
{
    if units == 0 {
        assert(s.subrange(j, j).len() == 0);
    } else if j >= s.len() || s[j] == '\n' || utf16_len_char(s[j]) > units {
    } else {
        lemma_advance16_props(s, j + 1, units - utf16_len_char(s[j]));
        match advance16(s, j, units) {
            Some(k) => {
                assert(s.subrange(j, k).len() > 0);
                lemma_utf16_len_cons(s.subrange(j, k));
                assert(s.subrange(j, k).drop_first() =~= s.subrange(j + 1, k));
                assert(s.subrange(j, k)[0] == s[j]);
            },
            None => {},
        }
    }
}

/// A line start stays the line start of every later index on the same line.
proof fn lemma_line_start_stable(s: Seq<char>, j0: int, k: int)
    requires
        0 <= j0 <= k <= s.len(),
        j0 == 0 || s[j0 - 1] == '\n',
        forall|i: int| j0 <= i < k ==> s[i] != '\n',
    ensures
        line_start_of(s, k) == j0,
    decreases k - j0,
{
    if k > j0 {
        lemma_line_start_stable(s, j0, k - 1);
    }
}

/// The newline count does not change across a newline-free stretch.
proof fn lemma_count_nl_stable(s: Seq<char>, a: int, b: int)
    requires
        0 <= a <= b <= s.len(),
        forall|i: int| a <= i < b ==> s[i] != '\n',
    ensures
        count_nl(s.take(b)) == count_nl(s.take(a)),
    decreases b - a,
{
    if b > a {
        lemma_count_nl_stable(s, a, b - 1);
        lemma_len_snoc(s, b - 1);
    }
}

/// Round trip: whenever a textual position denotes a byte offset, converting
/// that offset back yields the same line and the same UTF-16 column.
pub proof fn lemma_position_round_trip(s: Seq<char>, line: int, character: int)
    requires
        line >= 0,
        character >= 0,
    ensures
        lookup_pos_spec(s, line, character) matches Some(k) ==> {
            &&& boundary_at(s, utf8_len(s.take(k)), k)
            &&& line_at(s, utf8_len(s.take(k))) == line
            &&& col16_at(s, utf8_len(s.take(k))) == character
        },
{
    lemma_seek_line_props(s, 0, line);
    match seek_line(s, 0, line) {
        Some(jj) => {
            lemma_advance16_props(s, jj, character);
            match advance16(s, jj, character) {
                Some(k) => {
                    lemma_line_start_stable(s, jj, k);
                    lemma_count_nl_stable(s, jj, k);
                    let off = utf8_len(s.take(k));
                    assert(boundary_at(s, off, k));
                    assert(is_boundary(s, off));
                    lemma_boundary_unique(s, off, char_index_at(s, off), k);
                    assert(count_nl(s.take(0)) == 0);
                },
                None => {},
            }
        },
        None => {},
    }
}

/// A supplementary-plane character counts as two UTF-16 units in a position's
/// column but as its full four bytes in a byte offset: at the start of a
/// line, column 2 lands exactly after such a character, at byte offset 4.
pub proof fn lemma_supplementary_char_units(c: char, rest: Seq<char>)
    requires
        c as u32 >= 0x10000,
    ensures
        utf16_len_char(c) == 2,
        utf8_len_char(c) == 4,
        lookup_pos_spec(seq![c] + rest, 0, 2) == Some(1int),
        utf8_len((seq![c] + rest).take(1)) == 4,
{
    let s = seq![c] + rest;
    assert(s[0] == c);
    assert(c != '\n');
    assert(advance16(s, 0, 2) == advance16(s, 1, 0));
    assert(s.take(1) =~= seq![c]);
    assert(seq![c].drop_last() =~= Seq::<char>::empty());
    assert(seq![c].last() == c);
    assert(utf8_len(seq![c]) == utf8_len(Seq::<char>::empty()) + utf8_len_char(c));
    assert(utf8_len(Seq::<char>::empty()) == 0);
}

} // verus!

