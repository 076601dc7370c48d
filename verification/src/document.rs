//! Per-document state: ownership marking, file-type routing, and the
//! edit applier that maintains a document's rope under editor changes
//! stated in UTF-16 protocol ranges.

use crate::lsp::{Position, Range, pos_le};
use crate::rope::{rope_chars, rope_clone, rope_from_str, rope_insert, rope_remove, rope_text};
use ropey::Rope;
use vstd::string::StrSliceExecFns;
use crate::text::{
    LineIndex, MAX_TEXT_LEN, char_idx_of_utf16_col, is_utf16_boundary, lemma_utf16_len_strict,
    spec_lines, utf16_len,
};
use vstd::prelude::*;

verus! {

/// Ownership marker for a document: an open editor buffer shadows the
/// file system; among file-system events the newer modification time
/// wins.
#[derive(Clone, Copy, Debug, PartialEq, Eq, Structural)]
pub enum DocumentState {
    OwnedByEditor,
    OwnedByOs(u64),
}

impl DocumentState {
    /// True when an event carrying `new` may overwrite a draft currently
    /// marked `self`.
    pub open spec fn spec_can_update(self, new: DocumentState) -> bool {
        match (self, new) {
            (_, DocumentState::OwnedByEditor) => true,
            (DocumentState::OwnedByEditor, DocumentState::OwnedByOs(_)) => false,
            (DocumentState::OwnedByOs(t0), DocumentState::OwnedByOs(t1)) => t0 < t1,
        }
    }

    pub fn can_update(&self, new: &DocumentState) -> (r: bool)
        ensures
            r == self.spec_can_update(*new),
    {
        match (self, new) {
            (_, DocumentState::OwnedByEditor) => true,
            (DocumentState::OwnedByEditor, DocumentState::OwnedByOs(_)) => false,
            (DocumentState::OwnedByOs(t0), DocumentState::OwnedByOs(t1)) => *t0 < *t1,
        }
    }
}

/// A document is a JSON configuration exactly when its URI ends in
/// `.json`; the choice is fixed for the lifetime of an open draft.
pub open spec fn spec_is_config(uri: Seq<char>) -> bool {
    uri.len() >= 5 && uri[uri.len() - 5] == '.' && uri[uri.len() - 4] == 'j' && uri[uri.len()
        - 3] == 's' && uri[uri.len() - 2] == 'o' && uri[uri.len() - 1] == 'n'
}

pub fn is_config(uri: &str) -> (r: bool)
    ensures
        r == spec_is_config(uri@),
{
    let n = uri.unicode_len();
    if n < 5 {
        return false;
    }
    uri.get_char(n - 5) == '.' && uri.get_char(n - 4) == 'j' && uri.get_char(n - 3) == 's'
        && uri.get_char(n - 2) == 'o' && uri.get_char(n - 1) == 'n'
}

// --- positions as character offsets ---

/// Character offset of the first character of `row`.
pub open spec fn spec_line_start(lines: Seq<Seq<char>>, row: int) -> int
    decreases row,
{
    if row <= 0 {
        0
    } else {
        spec_line_start(lines, row - 1) + lines[row - 1].len()
    }
}

pub proof fn lemma_line_start_mono(lines: Seq<Seq<char>>, r1: int, r2: int)
    requires
        0 <= r1 <= r2,
    ensures
        spec_line_start(lines, r1) <= spec_line_start(lines, r2),
    decreases r2 - r1,
{
    if r1 < r2 {
        lemma_line_start_mono(lines, r1, r2 - 1);
    }
}

proof fn lemma_line_start_prefix(a: Seq<Seq<char>>, b: Seq<Seq<char>>, row: int)
    requires
        forall|j: int| 0 <= j < row ==> a[j] == b[j],
    ensures
        spec_line_start(a, row) == spec_line_start(b, row),
    decreases row,
{
    if row > 0 {
        lemma_line_start_prefix(a, b, row - 1);
    }
}

/// The line starts of a text sum up to its length.
pub proof fn lemma_lines_total(s: Seq<char>)
    ensures
        spec_line_start(spec_lines(s), spec_lines(s).len() as int) == s.len(),
    decreases s.len(),
{
    crate::text::lemma_lines_nonempty(s);
    if s.len() == 0 {
        assert(spec_lines(s) =~= seq![Seq::<char>::empty()]);
        assert(spec_lines(s)[0].len() == 0);
        assert(spec_line_start(spec_lines(s), 1int) == spec_line_start(spec_lines(s), 0int)
            + spec_lines(s)[0].len());
    } else {
        lemma_lines_total(s.drop_last());
        crate::text::lemma_lines_nonempty(s.drop_last());
        let prev = spec_lines(s.drop_last());
        let n = prev.len() as int;
        if s.last() == '\n' {
            let cur = prev.update(n - 1, prev.last().push('\n')).push(Seq::<char>::empty());
            assert(spec_lines(s) == cur);
            lemma_line_start_prefix(cur, prev, n - 1);
            assert(spec_line_start(cur, n) == spec_line_start(cur, n - 1) + cur[n - 1].len());
            assert(spec_line_start(cur, n + 1) == spec_line_start(cur, n) + cur[n].len());
            assert(spec_line_start(prev, n) == spec_line_start(prev, n - 1) + prev[n - 1].len());
            assert(cur.len() == n + 1);
            assert(cur[n].len() == 0);
            assert(cur[n - 1].len() == prev[n - 1].len() + 1);
        } else {
            let cur = prev.update(n - 1, prev.last().push(s.last()));
            assert(spec_lines(s) == cur);
            lemma_line_start_prefix(cur, prev, n - 1);
            assert(spec_line_start(cur, n) == spec_line_start(cur, n - 1) + cur[n - 1].len());
            assert(spec_line_start(prev, n) == spec_line_start(prev, n - 1) + prev[n - 1].len());
            assert(cur.len() == n);
            assert(cur[n - 1].len() == prev[n - 1].len() + 1);
        }
    }
}

/// The character index matching UTF-16 column `c` of a line.
pub open spec fn spec_u16cut(line: Seq<char>, c: int) -> int {
    choose|k: int| 0 <= k <= line.len() && utf16_len(#[trigger] line.take(k)) == c
}

pub proof fn lemma_u16cut_unique(line: Seq<char>, c: int, k: int)
    requires
        0 <= k <= line.len(),
        utf16_len(line.take(k)) == c,
    ensures
        spec_u16cut(line, c) == k,
        is_utf16_boundary(line, c),
{
    assert(is_utf16_boundary(line, c));
    let k2 = spec_u16cut(line, c);
    assert(0 <= k2 <= line.len() && utf16_len(line.take(k2)) == c);
    if k < k2 {
        lemma_utf16_len_strict(line, k, k2);
    } else if k2 < k {
        lemma_utf16_len_strict(line, k2, k);
    }
}

/// A protocol position names a UTF-16 boundary of an existing row.
pub open spec fn valid_lsp_pos(p: Position, lines: Seq<Seq<char>>) -> bool {
    (p.line as int) < lines.len() && is_utf16_boundary(lines[p.line as int], p.character as int)
}

/// The character offset a protocol position names.
pub open spec fn spec_pos_offset(lines: Seq<Seq<char>>, p: Position) -> int {
    spec_line_start(lines, p.line as int) + spec_u16cut(
        lines[p.line as int],
        p.character as int,
    )
}

pub proof fn lemma_offset_bounds(lines: Seq<Seq<char>>, p: Position)
    requires
        valid_lsp_pos(p, lines),
    ensures
        0 <= spec_pos_offset(lines, p),
        spec_pos_offset(lines, p) <= spec_line_start(lines, lines.len() as int),
{
    let line = lines[p.line as int];
    let k = spec_u16cut(line, p.character as int);
    assert(0 <= k <= line.len() && utf16_len(line.take(k)) == p.character);
    lemma_line_start_mono(lines, 0, p.line as int);
    assert(spec_line_start(lines, p.line + 1) == spec_line_start(lines, p.line as int)
        + line.len());
    lemma_line_start_mono(lines, p.line + 1, lines.len() as int);
}

pub proof fn lemma_offset_mono(lines: Seq<Seq<char>>, p1: Position, p2: Position)
    requires
        valid_lsp_pos(p1, lines),
        valid_lsp_pos(p2, lines),
        pos_le(p1, p2),
    ensures
        spec_pos_offset(lines, p1) <= spec_pos_offset(lines, p2),
{
    let l1 = lines[p1.line as int];
    let l2 = lines[p2.line as int];
    let k1 = spec_u16cut(l1, p1.character as int);
    let k2 = spec_u16cut(l2, p2.character as int);
    assert(0 <= k1 <= l1.len() && utf16_len(l1.take(k1)) == p1.character);
    assert(0 <= k2 <= l2.len() && utf16_len(l2.take(k2)) == p2.character);
    if p1.line == p2.line {
        if k1 > k2 {
            lemma_utf16_len_strict(l1, k2, k1);
        }
    } else {
        assert(spec_line_start(lines, p1.line + 1) == spec_line_start(lines, p1.line as int)
            + l1.len());
        lemma_line_start_mono(lines, p1.line + 1, p2.line as int);
    }
}

/// Computes the character offset of a position, from the line table.
pub fn pos_offset(p: Position, idx: &LineIndex, Ghost(text): Ghost<Seq<char>>) -> (r: usize)
    requires
        idx.wf(text),
        valid_lsp_pos(p, spec_lines(text)),
    ensures
        r == spec_pos_offset(spec_lines(text), p),
        r <= text.len(),
{
    let ghost lines = spec_lines(text);
    proof {
        idx.lemma_wf_ok(text);
        lemma_lines_total(text);
        lemma_offset_bounds(lines, p);
    }
    let mut row: usize = 0;
    let mut start: usize = 0;
    while row < p.line as usize
        invariant
            0 <= row <= p.line,
            (p.line as int) < lines.len(),
            idx.wf(text),
            lines == spec_lines(text),
            start == spec_line_start(lines, row as int),
            spec_line_start(lines, lines.len() as int) == text.len(),
            text.len() <= MAX_TEXT_LEN,
        decreases p.line - row,
    {
        proof {
            assert(idx.lines@[row as int]@ == lines[row as int]);
            lemma_line_start_mono(lines, row + 1, lines.len() as int);
        }
        start = start + idx.lines[row].len();
        row += 1;
    }
    proof {
        assert(idx.lines@[p.line as int]@ == lines[p.line as int]);
        let k = spec_u16cut(lines[p.line as int], p.character as int);
        assert(0 <= k <= lines[p.line as int].len() && utf16_len(
            lines[p.line as int].take(k),
        ) == p.character);
    }
    let k = char_idx_of_utf16_col(&idx.lines[p.line as usize], p.character);
    proof {
        lemma_u16cut_unique(lines[p.line as int], p.character as int, k as int);
    }
    start + k
}

// --- the edit applier ---

/// One content change of a `didChange` notification: new text for a
/// range, or — without a range — for the whole document.
pub struct ContentChange {
    pub range: Option<Range>,
    pub text: String,
}

/// A change applies when its range names valid boundaries in order and
/// the document stays within this library's size bound; anything else is
/// ignored rather than panicking on ill-formed input.
pub open spec fn spec_change_ok(text: Seq<char>, ch: ContentChange) -> bool {
    match ch.range {
        None => ch.text@.len() <= MAX_TEXT_LEN,
        Some(rg) => {
            &&& valid_lsp_pos(rg.start, spec_lines(text))
            &&& valid_lsp_pos(rg.end, spec_lines(text))
            &&& pos_le(rg.start, rg.end)
            &&& text.len() - spec_pos_offset(spec_lines(text), rg.end) + spec_pos_offset(
                spec_lines(text),
                rg.start,
            ) + ch.text@.len() <= MAX_TEXT_LEN
        },
    }
}

pub open spec fn spec_apply_change(text: Seq<char>, ch: ContentChange) -> Seq<char> {
    if !spec_change_ok(text, ch) {
        text
    } else {
        match ch.range {
            None => ch.text@,
            Some(rg) => text.take(spec_pos_offset(spec_lines(text), rg.start)) + ch.text@
                + text.skip(spec_pos_offset(spec_lines(text), rg.end)),
        }
    }
}

pub open spec fn spec_apply_changes(text: Seq<char>, chs: Seq<ContentChange>) -> Seq<char>
    decreases chs.len(),
{
    if chs.len() == 0 {
        text
    } else {
        spec_apply_changes(spec_apply_change(text, chs[0]), chs.drop_first())
    }
}

pub proof fn lemma_apply_keeps_bound(text: Seq<char>, ch: ContentChange)
    requires
        text.len() <= MAX_TEXT_LEN,
    ensures
        spec_apply_change(text, ch).len() <= MAX_TEXT_LEN,
{
    if spec_change_ok(text, ch) {
        match ch.range {
            None => {},
            Some(rg) => {
                lemma_offset_bounds(spec_lines(text), rg.start);
                lemma_offset_bounds(spec_lines(text), rg.end);
                lemma_offset_mono(spec_lines(text), rg.start, rg.end);
                lemma_lines_total(text);
            },
        }
    }
}

/// Applies one content change to the rope; an inapplicable change leaves
/// it untouched.
fn apply_change(r: &mut Rope, ch: &ContentChange)
    requires
        rope_text(*old(r)).len() <= MAX_TEXT_LEN,
    ensures
        rope_text(*final(r)) == spec_apply_change(rope_text(*old(r)), *ch),
        rope_text(*final(r)).len() <= MAX_TEXT_LEN,
{
    proof {
        lemma_apply_keeps_bound(rope_text(*r), *ch);
    }
    let ghost text = rope_text(*r);
    let ghost lines = spec_lines(text);
    match &ch.range {
        None => {
            let n = ch.text.as_str().unicode_len();
            if n <= MAX_TEXT_LEN {
                *r = rope_from_str(ch.text.as_str());
            }
        },
        Some(rg) => {
            let rg = *rg;
            let chars = rope_chars(r);
            let idx = LineIndex::build(&chars);
            proof {
                idx.lemma_wf_ok(text);
                lemma_lines_total(text);
            }
            // check validity of both positions at runtime
            let ok = {
                let lcount = idx.lines.len();
                if (rg.start.line as usize) < lcount && (rg.end.line as usize) < lcount {
                    proof {
                        assert(idx.lines@[rg.start.line as int]@ == lines[rg.start.line as int]);
                        assert(idx.lines@[rg.end.line as int]@ == lines[rg.end.line as int]);
                    }
                    let sb = boundary_check(&idx.lines[rg.start.line as usize], rg.start.character);
                    let eb = boundary_check(&idx.lines[rg.end.line as usize], rg.end.character);
                    sb && eb && (rg.start.line < rg.end.line || (rg.start.line == rg.end.line
                        && rg.start.character <= rg.end.character))
                } else {
                    false
                }
            };
            if !ok {
                return ;
            }
            let so = pos_offset(rg.start, &idx, Ghost(text));
            let eo = pos_offset(rg.end, &idx, Ghost(text));
            proof {
                lemma_offset_mono(lines, rg.start, rg.end);
            }
            let n = ch.text.as_str().unicode_len();
            if n > MAX_TEXT_LEN {
                return ;
            }
            if chars.len() - eo + so + n > MAX_TEXT_LEN {
                return ;
            }
            rope_remove(r, so, eo);
            rope_insert(r, so, ch.text.as_str());
            proof {
                assert(rope_text(*r) =~= text.take(so as int) + ch.text@ + text.skip(eo as int));
            }
        },
    }
}

/// Whether `c` is a UTF-16 boundary of `line`.
fn boundary_check(line: &Vec<char>, c: u32) -> (r: bool)
    requires
        line@.len() <= MAX_TEXT_LEN,
    ensures
        r == is_utf16_boundary(line@, c as int),
{
    let mut i: usize = 0;
    let mut units: u32 = 0;
    loop
        invariant
            0 <= i <= line@.len(),
            line@.len() <= MAX_TEXT_LEN,
            units == utf16_len(line@.take(i as int)),
            forall|k: int| 0 <= k < i ==> utf16_len(#[trigger] line@.take(k)) < c,
        decreases line@.len() - i,
    {
        proof {
            crate::text::lemma_utf16_len_bounds(line@.take(i as int));
        }
        if units == c {
            proof {
                assert(utf16_len(line@.take(i as int)) == c);
            }
            return true;
        }
        if units > c || i == line.len() {
            proof {
                assert forall|k: int| 0 <= k <= line@.len() implies utf16_len(
                    #[trigger] line@.take(k),
                ) != c by {
                    if k < i {
                    } else if k == i {
                    } else {
                        lemma_utf16_len_strict(line@, i as int, k);
                    }
                }
            }
            return false;
        }
        proof {
            crate::text::lemma_utf16_len_take_succ(line@, i as int);
            crate::text::lemma_utf16_len_bounds(line@.take(i + 1));
        }
        let cch = line[i];
        let w16: u32 = if (cch as u32) <= 0xFFFF {
            1
        } else {
            2
        };
        units = units + w16;
        i += 1;
    }
}

/// Applies a `didChange` batch in order. Returns true when some change
/// replaced the whole document, so a caller discards any incremental
/// parse hint.
pub fn update_text(r: &mut Rope, changes: &Vec<ContentChange>) -> (whole: bool)
    requires
        rope_text(*old(r)).len() <= MAX_TEXT_LEN,
    ensures
        rope_text(*final(r)) == spec_apply_changes(rope_text(*old(r)), changes@),
        rope_text(*final(r)).len() <= MAX_TEXT_LEN,
        whole == exists|i: int| 0 <= i < changes@.len() && (#[trigger] changes@[i].range) is None,
{
    let mut i: usize = 0;
    let mut whole = false;
    proof {
        assert(changes@.skip(0int) =~= changes@);
    }
    while i < changes.len()
        invariant
            0 <= i <= changes@.len(),
            rope_text(*r).len() <= MAX_TEXT_LEN,
            spec_apply_changes(rope_text(*old(r)), changes@) == spec_apply_changes(
                rope_text(*r),
                changes@.skip(i as int),
            ),
            whole == exists|k: int|
                0 <= k < i && (#[trigger] changes@[k].range) is None,
        decreases changes@.len() - i,
    {
        proof {
            assert(changes@.skip(i as int)[0] == changes@[i as int]);
            assert(changes@.skip(i as int).drop_first() =~= changes@.skip(i + 1));
        }
        let ghost pre = rope_text(*r);
        apply_change(r, &changes[i]);
        let had_none = changes[i].range.is_none();
        if had_none {
            whole = true;
        }
        proof {
            if had_none {
                assert((changes@[i as int].range) is None);
            }
        }
        i += 1;
    }
    proof {
        assert(changes@.skip(changes@.len() as int) =~= Seq::<ContentChange>::empty());
    }
    whole
}

// --- drafts ---

/// The parse state of one open document: its text and the timestamp of
/// the event that produced it. A UVL draft publishes an AST downstream, a
/// JSON draft a configuration document; the kind is fixed at open time.
pub enum Draft {
    UVL { source: Rope, timestamp: u64 },
    JSON { source: Rope, timestamp: u64 },
}

impl Draft {
    pub open spec fn spec_timestamp(self) -> u64 {
        match self {
            Draft::UVL { timestamp, .. } => timestamp,
            Draft::JSON { timestamp, .. } => timestamp,
        }
    }

    pub open spec fn spec_source(self) -> Seq<char> {
        match self {
            Draft::UVL { source, .. } => rope_text(source),
            Draft::JSON { source, .. } => rope_text(source),
        }
    }

    pub open spec fn is_json(self) -> bool {
        self matches Draft::JSON { .. }
    }

    pub fn timestamp(&self) -> (r: u64)
        ensures
            r == self.spec_timestamp(),
    {
        match self {
            Draft::UVL { timestamp, .. } => *timestamp,
            Draft::JSON { timestamp, .. } => *timestamp,
        }
    }

    /// The draft's text, for callers outside the proof.
    pub fn source_chars(&self) -> (v: Vec<char>)
        ensures
            v@ == self.spec_source(),
    {
        match self {
            Draft::UVL { source, .. } => rope_chars(source),
            Draft::JSON { source, .. } => rope_chars(source),
        }
    }

    /// A copy of the draft, answered to snapshot requests while the
    /// actor goes on taking edits.
    pub fn snapshot(&self) -> (d: Draft)
        ensures
            d.is_json() == self.is_json(),
            d.spec_source() == self.spec_source(),
            d.spec_timestamp() == self.spec_timestamp(),
    {
        match self {
            Draft::UVL { source, timestamp } => Draft::UVL {
                source: rope_clone(source),
                timestamp: *timestamp,
            },
            Draft::JSON { source, timestamp } => Draft::JSON {
                source: rope_clone(source),
                timestamp: *timestamp,
            },
        }
    }

    /// The draft opened for `uri` with the given initial text: JSON for a
    /// configuration URI, UVL otherwise.
    pub fn open(uri: &str, text: &str, timestamp: u64) -> (d: Draft)
        ensures
            d.is_json() == spec_is_config(uri@),
            d.spec_source() == text@,
            d.spec_timestamp() == timestamp,
    {
        if is_config(uri) {
            Draft::JSON { source: rope_from_str(text), timestamp }
        } else {
            Draft::UVL { source: rope_from_str(text), timestamp }
        }
    }

    /// Applies an edit batch and stamps the draft with the new event's
    /// timestamp; the kind never changes. Returns the whole-file flag of
    /// the batch.
    pub fn update(&mut self, changes: &Vec<ContentChange>, ts: u64) -> (whole: bool)
        requires
            old(self).spec_source().len() <= MAX_TEXT_LEN,
        ensures
            final(self).is_json() == old(self).is_json(),
            final(self).spec_source() == spec_apply_changes(old(self).spec_source(), changes@),
            final(self).spec_source().len() <= MAX_TEXT_LEN,
            final(self).spec_timestamp() == ts,
            whole == exists|i: int|
                0 <= i < changes@.len() && (#[trigger] changes@[i].range) is None,
    {
        match self {
            Draft::UVL { source, timestamp } => {
                let whole = update_text(source, changes);
                *timestamp = ts;
                whole
            },
            Draft::JSON { source, timestamp } => {
                let whole = update_text(source, changes);
                *timestamp = ts;
                whole
            },
        }
    }
}

/// Which downstream message a draft publishes: UVL drafts feed the AST
/// map of the link stage, JSON drafts the configuration map.
#[derive(Clone, Copy, Debug, PartialEq, Eq, Structural)]
pub enum PublishKind {
    Ast,
    Config,
}

/// The routing decision of a draft's publication.
pub fn publish_kind(d: &Draft) -> (r: PublishKind)
    ensures
        (r == PublishKind::Config) == d.is_json(),
{
    match d {
        Draft::UVL { .. } => PublishKind::Ast,
        Draft::JSON { .. } => PublishKind::Config,
    }
}

/// An empty edit batch leaves a draft's text exactly as it was: reopening
/// and touching a document publish the same content, timestamps aside.
pub proof fn lemma_draft_idempotent(text: Seq<char>)
    ensures
        spec_apply_changes(text, Seq::<ContentChange>::empty()) == text,
{
}

} // verus!
