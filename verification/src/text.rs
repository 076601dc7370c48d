//! Text model: code-unit arithmetic per character, line splitting, and
//! conversions between byte columns and UTF-16 columns.
//!
//! Documents arrive as UTF-8 text; the parser reports byte coordinates,
//! while the editor protocol speaks in UTF-16 code units. Everything here
//! works on the character sequence of a document.

use vstd::prelude::*;

verus! {

/// Upper bound on the number of characters of a document this library
/// accepts; it keeps every code-unit count inside `u32`.
pub const MAX_TEXT_LEN: usize = 0x3FFF_FFFF;

/// UTF-16 code units of one character.
pub open spec fn char_utf16_len(c: char) -> int {
    if (c as u32) <= 0xFFFF {
        1
    } else {
        2
    }
}

/// UTF-8 code units (bytes) of one character.
pub open spec fn char_utf8_len(c: char) -> int {
    if (c as u32) < 0x80 {
        1
    } else if (c as u32) < 0x800 {
        2
    } else if (c as u32) < 0x10000 {
        3
    } else {
        4
    }
}

/// A character whose UTF-8 and UTF-16 encodings are not both one code unit,
/// i.e. anything outside ASCII.
pub open spec fn spec_wide_char(c: char) -> bool {
    (c as u32) >= 0x80
}

/// UTF-16 length of a character sequence.
pub open spec fn utf16_len(s: Seq<char>) -> int
    decreases s.len(),
{
    if s.len() == 0 {
        0
    } else {
        utf16_len(s.drop_last()) + char_utf16_len(s.last())
    }
}

/// UTF-8 length of a character sequence.
pub open spec fn utf8_len(s: Seq<char>) -> int
    decreases s.len(),
{
    if s.len() == 0 {
        0
    } else {
        utf8_len(s.drop_last()) + char_utf8_len(s.last())
    }
}

pub proof fn lemma_utf16_len_bounds(s: Seq<char>)
    ensures
        s.len() <= utf16_len(s) <= 2 * s.len(),
    decreases s.len(),
{
    if s.len() > 0 {
        lemma_utf16_len_bounds(s.drop_last());
    }
}

pub proof fn lemma_utf8_len_bounds(s: Seq<char>)
    ensures
        s.len() <= utf8_len(s) <= 4 * s.len(),
    decreases s.len(),
{
    if s.len() > 0 {
        lemma_utf8_len_bounds(s.drop_last());
    }
}

pub proof fn lemma_utf16_len_take_succ(s: Seq<char>, i: int)
    requires
        0 <= i < s.len(),
    ensures
        utf16_len(s.take(i + 1)) == utf16_len(s.take(i)) + char_utf16_len(s[i]),
{
    assert(s.take(i + 1).drop_last() =~= s.take(i));
    assert(s.take(i + 1).last() == s[i]);
}

pub proof fn lemma_utf8_len_take_succ(s: Seq<char>, i: int)
    requires
        0 <= i < s.len(),
    ensures
        utf8_len(s.take(i + 1)) == utf8_len(s.take(i)) + char_utf8_len(s[i]),
{
    assert(s.take(i + 1).drop_last() =~= s.take(i));
    assert(s.take(i + 1).last() == s[i]);
}

/// UTF-8 lengths of prefixes grow strictly with the prefix.
pub proof fn lemma_utf8_len_strict(s: Seq<char>, i: int, j: int)
    requires
        0 <= i < j <= s.len(),
    ensures
        utf8_len(s.take(i)) < utf8_len(s.take(j)),
    decreases j - i,
{
    lemma_utf8_len_take_succ(s, i);
    if i + 1 < j {
        lemma_utf8_len_strict(s, i + 1, j);
    }
}

pub fn wide_char(c: char) -> (r: bool)
    ensures
        r == spec_wide_char(c),
{
    let v: u32 = c as u32;
    v >= 0x80
}

/// True when some character of `line` is wide.
pub open spec fn spec_has_wide(s: Seq<char>) -> bool {
    exists|i: int| 0 <= i < s.len() && spec_wide_char(s[i])
}

pub fn has_wide(line: &Vec<char>) -> (r: bool)
    ensures
        r == spec_has_wide(line@),
{
    let mut i: usize = 0;
    while i < line.len()
        invariant
            0 <= i <= line@.len(),
            forall|k: int| 0 <= k < i ==> !spec_wide_char(line@[k]),
        decreases line@.len() - i,
    {
        if wide_char(line[i]) {
            return true;
        }
        i += 1;
    }
    false
}

/// UTF-16 length of a line, as a machine integer.
pub fn utf16_line_len(line: &Vec<char>) -> (r: u32)
    requires
        line@.len() <= MAX_TEXT_LEN,
    ensures
        r == utf16_len(line@),
{
    proof {
        lemma_utf16_len_bounds(line@);
    }
    let mut i: usize = 0;
    let mut acc: u32 = 0;
    while i < line.len()
        invariant
            0 <= i <= line@.len(),
            line@.len() <= MAX_TEXT_LEN,
            acc == utf16_len(line@.take(i as int)),
        decreases line@.len() - i,
    {
        proof {
            lemma_utf16_len_take_succ(line@, i as int);
            lemma_utf16_len_bounds(line@.take(i + 1));
        }
        let c = line[i];
        let w: u32 = if (c as u32) <= 0xFFFF {
            1
        } else {
            2
        };
        acc = acc + w;
        i += 1;
    }
    proof {
        assert(line@.take(line@.len() as int) =~= line@);
    }
    acc
}

/// `b` falls on a character boundary of the UTF-8 encoding of `s`.
pub open spec fn is_utf8_boundary(s: Seq<char>, b: int) -> bool {
    exists|k: int| 0 <= k <= s.len() && utf8_len(#[trigger] s.take(k)) == b
}

/// `c` falls on a character boundary of the UTF-16 encoding of `s`.
pub open spec fn is_utf16_boundary(s: Seq<char>, c: int) -> bool {
    exists|k: int| 0 <= k <= s.len() && utf16_len(#[trigger] s.take(k)) == c
}

/// The character index at which the UTF-8 encoding of `s` reaches `b`
/// bytes; meaningful only on a boundary, where it is unique.
pub open spec fn spec_cut(s: Seq<char>, b: int) -> int {
    choose|k: int| 0 <= k <= s.len() && utf8_len(#[trigger] s.take(k)) == b
}

/// The UTF-16 column matching byte column `b` of line `s`.
pub open spec fn spec_utf16_col(s: Seq<char>, b: int) -> int {
    utf16_len(s.take(spec_cut(s, b)))
}

pub proof fn lemma_cut_unique(s: Seq<char>, b: int, k: int)
    requires
        0 <= k <= s.len(),
        utf8_len(s.take(k)) == b,
    ensures
        spec_cut(s, b) == k,
        spec_utf16_col(s, b) == utf16_len(s.take(k)),
        is_utf8_boundary(s, b),
{
    assert(is_utf8_boundary(s, b));
    let k2 = spec_cut(s, b);
    assert(0 <= k2 <= s.len() && utf8_len(s.take(k2)) == b);
    if k < k2 {
        lemma_utf8_len_strict(s, k, k2);
    } else if k2 < k {
        lemma_utf8_len_strict(s, k2, k);
    }
}

/// Prefix code-unit counts never exceed the whole line's.
pub proof fn lemma_utf16_len_take_le(s: Seq<char>, k: int)
    requires
        0 <= k <= s.len(),
    ensures
        utf16_len(s.take(k)) <= utf16_len(s),
{
    if k < s.len() {
        assert(s.take(s.len() as int) =~= s);
        lemma_utf16_len_strict(s, k, s.len() as int);
    } else {
        assert(s.take(k) =~= s);
    }
}

/// On a line without wide characters every prefix counts the same in
/// characters, bytes and UTF-16 units.
pub proof fn lemma_narrow_prefix(s: Seq<char>, k: int)
    requires
        !spec_has_wide(s),
        0 <= k <= s.len(),
    ensures
        utf8_len(s.take(k)) == k,
        utf16_len(s.take(k)) == k,
{
    assert(!spec_has_wide(s.take(k))) by {
        assert(forall|i: int| 0 <= i < k ==> s.take(k)[i] == s[i]);
    }
    lemma_narrow_cols_agree(s.take(k));
}

/// Whether `b` is a character boundary of the UTF-8 encoding of `line`.
pub fn utf8_boundary_check(line: &Vec<char>, b: u32) -> (r: bool)
    requires
        line@.len() <= MAX_TEXT_LEN,
    ensures
        r == is_utf8_boundary(line@, b as int),
{
    let mut i: usize = 0;
    let mut bytes: u32 = 0;
    loop
        invariant
            0 <= i <= line@.len(),
            line@.len() <= MAX_TEXT_LEN,
            bytes == utf8_len(line@.take(i as int)),
            forall|k: int| 0 <= k < i ==> utf8_len(#[trigger] line@.take(k)) < b,
        decreases line@.len() - i,
    {
        proof {
            lemma_utf8_len_bounds(line@.take(i as int));
        }
        if bytes == b {
            proof {
                assert(utf8_len(line@.take(i as int)) == b);
            }
            return true;
        }
        if bytes > b || i == line.len() {
            proof {
                assert forall|k: int| 0 <= k <= line@.len() implies utf8_len(
                    #[trigger] line@.take(k),
                ) != b by {
                    if k < i {
                    } else if k == i {
                    } else {
                        lemma_utf8_len_strict(line@, i as int, k);
                    }
                }
            }
            return false;
        }
        proof {
            lemma_utf8_len_take_succ(line@, i as int);
            lemma_utf8_len_bounds(line@.take(i + 1));
        }
        let c = line[i];
        let w8: u32 = if (c as u32) < 0x80 {
            1
        } else if (c as u32) < 0x800 {
            2
        } else if (c as u32) < 0x10000 {
            3
        } else {
            4
        };
        bytes = bytes + w8;
        i += 1;
    }
}

/// Converts a byte column of `line` to the matching UTF-16 column, walking
/// the characters once. The editor protocol counts columns in UTF-16 code
/// units while the parser reports byte offsets.
pub fn utf16_col_of_byte_col(line: &Vec<char>, b: u32) -> (r: u32)
    requires
        line@.len() <= MAX_TEXT_LEN,
        is_utf8_boundary(line@, b as int),
    ensures
        r == spec_utf16_col(line@, b as int),
{
    let mut i: usize = 0;
    let mut bytes: u32 = 0;
    let mut units: u32 = 0;
    loop
        invariant
            0 <= i <= line@.len(),
            line@.len() <= MAX_TEXT_LEN,
            is_utf8_boundary(line@, b as int),
            bytes == utf8_len(line@.take(i as int)),
            units == utf16_len(line@.take(i as int)),
            bytes <= b,
        decreases line@.len() - i,
    {
        if bytes == b {
            proof {
                lemma_cut_unique(line@, b as int, i as int);
            }
            return units;
        }
        proof {
            // some boundary k has byte offset b > bytes, so i < k <= len
            let k = choose|k: int|
                0 <= k <= line@.len() && utf8_len(#[trigger] line@.take(k)) == b;
            if k <= i {
                if k < i {
                    lemma_utf8_len_strict(line@, k, i as int);
                }
                assert(false);
            }
            assert(i < line@.len());
            lemma_utf8_len_take_succ(line@, i as int);
            lemma_utf8_len_strict(line@, i as int, k);
            if i + 1 < k {
                lemma_utf8_len_strict(line@, i + 1, k);
            }
            lemma_utf16_len_take_succ(line@, i as int);
            lemma_utf16_len_bounds(line@.take(i + 1));
            lemma_utf8_len_bounds(line@.take(i + 1));
        }
        let c = line[i];
        let w8: u32 = if (c as u32) < 0x80 {
            1
        } else if (c as u32) < 0x800 {
            2
        } else if (c as u32) < 0x10000 {
            3
        } else {
            4
        };
        let w16: u32 = if (c as u32) <= 0xFFFF {
            1
        } else {
            2
        };
        bytes = bytes + w8;
        units = units + w16;
        i += 1;
    }
}

/// Character index of a UTF-16 column of `line`; used to splice edits whose
/// ranges the editor states in UTF-16 code units.
pub fn char_idx_of_utf16_col(line: &Vec<char>, c: u32) -> (r: usize)
    requires
        line@.len() <= MAX_TEXT_LEN,
        is_utf16_boundary(line@, c as int),
    ensures
        0 <= r <= line@.len(),
        utf16_len(line@.take(r as int)) == c,
{
    let mut i: usize = 0;
    let mut units: u32 = 0;
    loop
        invariant
            0 <= i <= line@.len(),
            line@.len() <= MAX_TEXT_LEN,
            is_utf16_boundary(line@, c as int),
            units == utf16_len(line@.take(i as int)),
            units <= c,
        decreases line@.len() - i,
    {
        if units == c {
            return i;
        }
        proof {
            let k = choose|k: int|
                0 <= k <= line@.len() && utf16_len(#[trigger] line@.take(k)) == c;
            if k <= i {
                if k < i {
                    lemma_utf16_len_strict(line@, k, i as int);
                }
                assert(false);
            }
            assert(i < line@.len());
            lemma_utf16_len_take_succ(line@, i as int);
            lemma_utf16_len_strict(line@, i as int, k);
            if i + 1 < k {
                lemma_utf16_len_strict(line@, i + 1, k);
            }
            lemma_utf16_len_bounds(line@.take(i + 1));
        }
        let ch = line[i];
        let w16: u32 = if (ch as u32) <= 0xFFFF {
            1
        } else {
            2
        };
        units = units + w16;
        i += 1;
    }
}

/// UTF-16 lengths of prefixes grow strictly with the prefix.
pub proof fn lemma_utf16_len_strict(s: Seq<char>, i: int, j: int)
    requires
        0 <= i < j <= s.len(),
    ensures
        utf16_len(s.take(i)) < utf16_len(s.take(j)),
    decreases j - i,
{
    lemma_utf16_len_take_succ(s, i);
    if i + 1 < j {
        lemma_utf16_len_strict(s, i + 1, j);
    }
}

/// The lines of a text: split after every `'\n'`, each line keeping its
/// terminator; a final line without one always exists, possibly empty.
/// This matches how the rope and the parser count rows.
pub open spec fn spec_lines(s: Seq<char>) -> Seq<Seq<char>>
    decreases s.len(),
{
    if s.len() == 0 {
        seq![Seq::<char>::empty()]
    } else {
        let prev = spec_lines(s.drop_last());
        if s.last() == '\n' {
            prev.update(prev.len() - 1, prev.last().push('\n')).push(Seq::<char>::empty())
        } else {
            prev.update(prev.len() - 1, prev.last().push(s.last()))
        }
    }
}

pub proof fn lemma_lines_nonempty(s: Seq<char>)
    ensures
        spec_lines(s).len() >= 1,
    decreases s.len(),
{
    if s.len() > 0 {
        lemma_lines_nonempty(s.drop_last());
    }
}

/// Appending one character extends the last line, and after a newline opens
/// a fresh empty one.
pub proof fn lemma_lines_push(s: Seq<char>, c: char)
    ensures
        spec_lines(s.push(c)) == if c == '\n' {
            spec_lines(s).update(spec_lines(s).len() - 1, spec_lines(s).last().push('\n')).push(
                Seq::<char>::empty(),
            )
        } else {
            spec_lines(s).update(spec_lines(s).len() - 1, spec_lines(s).last().push(c))
        },
{
    assert(s.push(c).drop_last() =~= s);
    assert(s.push(c).last() == c);
}

/// The last line never holds a newline; every earlier line ends with one and
/// holds no other.
pub proof fn lemma_lines_shape(s: Seq<char>)
    ensures
        forall|i: int, j: int|
            0 <= i < spec_lines(s).len() - 1 && 0 <= j < spec_lines(s)[i].len() ==> (
            #[trigger] spec_lines(s)[i][j] == '\n' <==> j == spec_lines(s)[i].len() - 1),
        forall|j: int|
            0 <= j < spec_lines(s).last().len() ==> #[trigger] spec_lines(s).last()[j] != '\n',
        forall|i: int| 0 <= i < spec_lines(s).len() ==> #[trigger] spec_lines(s)[i].len() <= s.len(),
    decreases s.len(),
{
    lemma_lines_nonempty(s);
    if s.len() > 0 {
        lemma_lines_shape(s.drop_last());
        lemma_lines_nonempty(s.drop_last());
    }
}

/// Per-document line table: the lines themselves, a wide flag per line, and
/// the UTF-16 length per line.
pub struct LineIndex {
    pub lines: Vec<Vec<char>>,
    pub wide: Vec<bool>,
    pub u16len: Vec<u32>,
}

impl LineIndex {
    /// The table describes exactly the lines of `text`.
    pub open spec fn wf(self, text: Seq<char>) -> bool {
        &&& text.len() <= MAX_TEXT_LEN
        &&& self.lines@.map_values(|l: Vec<char>| l@) =~= spec_lines(text)
        &&& self.wide@.len() == self.lines@.len()
        &&& self.u16len@.len() == self.lines@.len()
        &&& forall|i: int|
            0 <= i < self.lines@.len() ==> #[trigger] self.wide@[i] == spec_has_wide(
                spec_lines(text)[i],
            )
        &&& forall|i: int|
            0 <= i < self.lines@.len() ==> #[trigger] self.u16len@[i] == utf16_len(
                spec_lines(text)[i],
            )
    }

    pub fn build(text: &Vec<char>) -> (r: LineIndex)
        requires
            text@.len() <= MAX_TEXT_LEN,
        ensures
            r.wf(text@),
    {
        let mut lines: Vec<Vec<char>> = Vec::new();
        let mut cur: Vec<char> = Vec::new();
        let mut i: usize = 0;
        proof {
            assert(text@.take(0int) =~= Seq::<char>::empty());
        }
        while i < text.len()
            invariant
                0 <= i <= text@.len(),
                text@.len() <= MAX_TEXT_LEN,
                lines@.map_values(|l: Vec<char>| l@).push(cur@) =~= spec_lines(
                    text@.take(i as int),
                ),
            decreases text@.len() - i,
        {
            let c = text[i];
            proof {
                lemma_lines_push(text@.take(i as int), c);
                assert(text@.take(i + 1) =~= text@.take(i as int).push(text@[i as int]));
                lemma_lines_nonempty(text@.take(i as int));
            }
            if c == '\n' {
                cur.push('\n');
                lines.push(cur);
                cur = Vec::new();
            } else {
                cur.push(c);
            }
            proof {
                assert(lines@.map_values(|l: Vec<char>| l@).push(cur@) =~~= spec_lines(
                    text@.take(i + 1),
                ));
            }
            i += 1;
        }
        proof {
            assert(text@.take(text@.len() as int) =~= text@);
        }
        lines.push(cur);
        let ghost all = spec_lines(text@);
        proof {
            assert(lines@.map_values(|l: Vec<char>| l@) =~= all);
            lemma_lines_shape(text@);
        }
        let mut wide: Vec<bool> = Vec::new();
        let mut u16len: Vec<u32> = Vec::new();
        let mut j: usize = 0;
        while j < lines.len()
            invariant
                0 <= j <= lines@.len(),
                lines@.map_values(|l: Vec<char>| l@) =~= all,
                forall|k: int| 0 <= k < lines@.len() ==> #[trigger] all[k].len() <= MAX_TEXT_LEN,
                wide@.len() == j,
                u16len@.len() == j,
                forall|k: int| 0 <= k < j ==> #[trigger] wide@[k] == spec_has_wide(all[k]),
                forall|k: int| 0 <= k < j ==> #[trigger] u16len@[k] == utf16_len(all[k]),
            decreases lines@.len() - j,
        {
            proof {
                assert(lines@.map_values(|l: Vec<char>| l@)[j as int] == all[j as int]);
            }
            wide.push(has_wide(&lines[j]));
            u16len.push(utf16_line_len(&lines[j]));
            j += 1;
        }
        LineIndex { lines, wide, u16len }
    }
}

/// In a line without wide characters byte columns and UTF-16 columns agree.
pub proof fn lemma_narrow_cols_agree(s: Seq<char>)
    requires
        !spec_has_wide(s),
    ensures
        utf8_len(s) == s.len(),
        utf16_len(s) == s.len(),
    decreases s.len(),
{
    if s.len() > 0 {
        assert(!spec_has_wide(s.drop_last())) by {
            assert(forall|i: int|
                0 <= i < s.len() - 1 ==> s.drop_last()[i] == s[i]);
        }
        assert(!spec_wide_char(s.last()));
        lemma_narrow_cols_agree(s.drop_last());
    }
}

} // verus!
