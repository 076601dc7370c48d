//! Semantic-token engine: turns highlight captures of a parse tree into
//! absolute tokens with protocol (UTF-16) coordinates, normalizes them,
//! delta-encodes them, and diffs successive streams per document.
//!
//! The grammar, the highlight query and name resolution are outside
//! collaborators: a caller hands the engine their output as plain capture
//! records. Everything from there to the wire format is verified.

use crate::lsp::{
    AbsToken, Position, Range, SemanticToken, SemanticTokensEdit, TokensDeltaResult,
    spec_token_index, token_index, KIND_ENUM_MEMBER, KIND_PARAMETER, pos_le,
};
use crate::rope::{rope_chars, rope_text};
use ropey::Rope;
use crate::text::{
    LineIndex, MAX_TEXT_LEN, is_utf8_boundary, lemma_cut_unique, lemma_lines_shape,
    lemma_narrow_prefix, lemma_utf16_len_bounds, lemma_utf16_len_strict, lemma_utf16_len_take_le,
    lemma_utf8_len_strict, spec_has_wide, spec_lines, spec_utf16_col, utf16_col_of_byte_col,
    utf16_len, utf8_len,
};
use vstd::prelude::*;

verus! {

/// A parser coordinate: zero-based row and byte column within the row.
#[derive(Clone, Copy, Debug, PartialEq, Eq, Structural)]
pub struct Point {
    pub row: u32,
    pub column: u32,
}

pub open spec fn point_le(a: Point, b: Point) -> bool {
    a.row < b.row || (a.row == b.row && a.column <= b.column)
}

/// The coordinate lies on a character boundary of its row.
pub open spec fn valid_point(p: Point, lines: Seq<Seq<char>>) -> bool {
    &&& (p.row as int) < lines.len()
    &&& is_utf8_boundary(lines[p.row as int], p.column as int)
}

/// The syntactic region a path capture sits in; only `constraints`
/// sections resolve numeric attribute paths.
#[derive(Clone, Copy, Debug, PartialEq, Eq, Structural)]
pub enum Section {
    Constraints,
    Other,
}

/// The expression context around a path inside a constraint.
#[derive(Clone, Copy, Debug, PartialEq, Eq, Structural)]
pub enum CompletionEnv {
    Numeric,
    Other,
}

/// The span of one dotted-path segment, in parser coordinates.
#[derive(Clone, Copy, Debug, PartialEq, Eq, Structural)]
pub struct PathSpan {
    pub start: Point,
    pub end: Point,
}

/// What the outside collaborators say about a `some_path` capture: its
/// section, its expression context, the segment spans, and — when a
/// numeric attribute resolved — whether each successive owner of the
/// resolved symbol is itself a value.
#[derive(Clone)]
pub struct PathInfo {
    pub section: Section,
    pub env: CompletionEnv,
    pub spans: Vec<PathSpan>,
    pub resolved: Option<Vec<bool>>,
}

/// One captured node of the highlight query. `path` carries the extra
/// resolution data and is consulted only for captures named `some_path`.
#[derive(Clone)]
pub struct Capture {
    pub name: String,
    pub start: Point,
    pub end: Point,
    pub path: Option<PathInfo>,
}

pub open spec fn valid_span(s: PathSpan, lines: Seq<Seq<char>>) -> bool {
    valid_point(s.start, lines) && valid_point(s.end, lines) && point_le(s.start, s.end)
}

pub open spec fn valid_capture(c: Capture, lines: Seq<Seq<char>>) -> bool {
    &&& valid_point(c.start, lines)
    &&& valid_point(c.end, lines)
    &&& point_le(c.start, c.end)
    &&& match c.path {
        Some(pi) => forall|i: int|
            0 <= i < pi.spans@.len() ==> valid_span(#[trigger] pi.spans@[i], lines),
        None => true,
    }
}

pub open spec fn valid_captures(cs: Seq<Capture>, lines: Seq<Seq<char>>) -> bool {
    forall|i: int| 0 <= i < cs.len() ==> valid_capture(#[trigger] cs[i], lines)
}

/// The protocol position of a parser coordinate: same row, UTF-16 column.
pub open spec fn spec_lsp_pos(p: Point, lines: Seq<Seq<char>>) -> Position {
    Position { line: p.row, character: spec_utf16_col(lines[p.row as int], p.column as int) as u32 }
}

/// A token is well-formed for a line table: rows in range, start before
/// end, columns within their lines' UTF-16 lengths.
pub open spec fn tok_wf(t: AbsToken, lens: Seq<u32>) -> bool {
    &&& (t.range.start.line as int) < lens.len()
    &&& (t.range.end.line as int) < lens.len()
    &&& pos_le(t.range.start, t.range.end)
    &&& t.range.start.character <= lens[t.range.start.line as int]
    &&& t.range.end.character <= lens[t.range.end.line as int]
}

impl LineIndex {
    /// The lines the table describes.
    pub open spec fn view_lines(self) -> Seq<Seq<char>> {
        self.lines@.map_values(|l: Vec<char>| l@)
    }

    /// Internal consistency: flags and lengths match the lines.
    pub open spec fn ok(self) -> bool {
        &&& self.wide@.len() == self.lines@.len()
        &&& self.u16len@.len() == self.lines@.len()
        &&& forall|i: int|
            0 <= i < self.lines@.len() ==> #[trigger] self.wide@[i] == spec_has_wide(
                self.view_lines()[i],
            )
        &&& forall|i: int|
            0 <= i < self.lines@.len() ==> #[trigger] self.u16len@[i] == utf16_len(
                self.view_lines()[i],
            )
        &&& forall|i: int|
            0 <= i < self.lines@.len() ==> #[trigger] self.view_lines()[i].len() <= MAX_TEXT_LEN
    }

    pub proof fn lemma_wf_ok(self, text: Seq<char>)
        requires
            self.wf(text),
        ensures
            self.ok(),
            self.view_lines() == spec_lines(text),
    {
        lemma_lines_shape(text);
        assert(self.view_lines() =~= spec_lines(text));
    }
}

/// Converts a parser coordinate to a protocol position. Rows without wide
/// characters take the fast path: there byte and UTF-16 columns coincide.
pub fn lsp_pos(p: Point, idx: &LineIndex) -> (r: Position)
    requires
        idx.ok(),
        valid_point(p, idx.view_lines()),
    ensures
        r == spec_lsp_pos(p, idx.view_lines()),
        r.character <= idx.u16len@[p.row as int],
{
    let ghost line = idx.view_lines()[p.row as int];
    proof {
        let k = choose|k: int| 0 <= k <= line.len() && utf8_len(#[trigger] line.take(k)) == p.column;
        lemma_cut_unique(line, p.column as int, k);
        lemma_utf16_len_take_le(line, k);
        lemma_utf16_len_bounds(line.take(k));
        lemma_utf16_len_bounds(line);
        if !spec_has_wide(line) {
            lemma_narrow_prefix(line, k);
        }
    }
    if !idx.wide[p.row as usize] {
        Position { line: p.row, character: p.column }
    } else {
        proof {
            assert(idx.lines@[p.row as int]@ == line);
        }
        let units = utf16_col_of_byte_col(&idx.lines[p.row as usize], p.column);
        Position { line: p.row, character: units }
    }
}

/// Whether the `j`-th path segment from the right still lies on the chain
/// of owners that are themselves values.
pub open spec fn spec_chain_value(chain: Seq<bool>, j: int) -> bool
    decreases j,
{
    if j <= 0 {
        true
    } else {
        j - 1 < chain.len() && chain[j - 1] && spec_chain_value(chain, j - 1)
    }
}

/// Tokens of a resolved numeric path: segments are emitted right to left;
/// a segment is `enumMember` while the owner chain keeps yielding values,
/// `parameter` from the first non-value owner on.
pub open spec fn spec_path_tokens(spans: Seq<PathSpan>, chain: Seq<bool>, lines: Seq<Seq<char>>) -> Seq<
    AbsToken,
> {
    Seq::new(
        spans.len(),
        |j: int|
            AbsToken {
                range: Range {
                    start: spec_lsp_pos(spans[spans.len() - 1 - j].start, lines),
                    end: spec_lsp_pos(spans[spans.len() - 1 - j].end, lines),
                },
                kind: if spec_chain_value(chain, j) {
                    KIND_ENUM_MEMBER
                } else {
                    KIND_PARAMETER
                },
            },
    )
}

/// The single token covering a whole capture.
pub open spec fn spec_whole_token(c: Capture, kind: u32, lines: Seq<Seq<char>>) -> AbsToken {
    AbsToken {
        range: Range { start: spec_lsp_pos(c.start, lines), end: spec_lsp_pos(c.end, lines) },
        kind,
    }
}

/// The absolute tokens one capture contributes.
pub open spec fn spec_capture_tokens(c: Capture, lines: Seq<Seq<char>>) -> Seq<AbsToken> {
    if c.name@ != "some_path"@ {
        seq![spec_whole_token(c, spec_token_index(c.name@), lines)]
    } else {
        match c.path {
            Some(pi) => if pi.section == Section::Constraints && pi.env == CompletionEnv::Numeric {
                match pi.resolved {
                    Some(chain) => spec_path_tokens(pi.spans@, chain@, lines),
                    None => seq![spec_whole_token(c, KIND_PARAMETER, lines)],
                }
            } else {
                seq![spec_whole_token(c, KIND_PARAMETER, lines)]
            },
            None => seq![spec_whole_token(c, KIND_PARAMETER, lines)],
        }
    }
}

/// The absolute tokens of a capture list, in capture order.
pub open spec fn spec_all_tokens(cs: Seq<Capture>, lines: Seq<Seq<char>>) -> Seq<AbsToken>
    decreases cs.len(),
{
    if cs.len() == 0 {
        Seq::empty()
    } else {
        spec_all_tokens(cs.drop_last(), lines) + spec_capture_tokens(cs.last(), lines)
    }
}

/// Start and end of every emitted token stay ordered and inside their
/// lines.
pub proof fn lemma_pos_wf(a: Point, b: Point, lines: Seq<Seq<char>>, lens: Seq<u32>)
    requires
        valid_point(a, lines),
        valid_point(b, lines),
        point_le(a, b),
        lens.len() == lines.len(),
        forall|i: int| 0 <= i < lines.len() ==> #[trigger] lens[i] == utf16_len(lines[i]),
        forall|i: int| 0 <= i < lines.len() ==> #[trigger] lines[i].len() <= MAX_TEXT_LEN,
    ensures
        pos_le(spec_lsp_pos(a, lines), spec_lsp_pos(b, lines)),
        spec_lsp_pos(a, lines).character <= lens[a.row as int],
        spec_lsp_pos(b, lines).character <= lens[b.row as int],
{
    let la = lines[a.row as int];
    let lb = lines[b.row as int];
    let ka = choose|k: int| 0 <= k <= la.len() && utf8_len(#[trigger] la.take(k)) == a.column;
    let kb = choose|k: int| 0 <= k <= lb.len() && utf8_len(#[trigger] lb.take(k)) == b.column;
    lemma_cut_unique(la, a.column as int, ka);
    lemma_cut_unique(lb, b.column as int, kb);
    lemma_utf16_len_take_le(la, ka);
    lemma_utf16_len_take_le(lb, kb);
    lemma_utf16_len_bounds(la.take(ka));
    lemma_utf16_len_bounds(lb.take(kb));
    lemma_utf16_len_bounds(la);
    lemma_utf16_len_bounds(lb);
    if a.row == b.row && a.column <= b.column {
        if ka > kb {
            lemma_utf8_len_strict(la, kb, ka);
        }
        if ka < kb {
            lemma_utf16_len_strict(la, ka, kb);
        }
    }
}

fn point_ok(pnt: Point, idx: &LineIndex) -> (r: bool)
    requires
        idx.ok(),
    ensures
        r == valid_point(pnt, idx.view_lines()),
{
    if (pnt.row as usize) < idx.lines.len() {
        proof {
            assert(idx.lines@[pnt.row as int]@ == idx.view_lines()[pnt.row as int]);
        }
        crate::text::utf8_boundary_check(&idx.lines[pnt.row as usize], pnt.column)
    } else {
        false
    }
}

fn point_le_exec(a: Point, b: Point) -> (r: bool)
    ensures
        r == point_le(a, b),
{
    a.row < b.row || (a.row == b.row && a.column <= b.column)
}

fn capture_ok(c: &Capture, idx: &LineIndex) -> (r: bool)
    requires
        idx.ok(),
    ensures
        r == valid_capture(*c, idx.view_lines()),
{
    if !point_ok(c.start, idx) || !point_ok(c.end, idx) || !point_le_exec(c.start, c.end) {
        return false;
    }
    match &c.path {
        None => true,
        Some(pi) => {
            let mut i: usize = 0;
            while i < pi.spans.len()
                invariant
                    0 <= i <= pi.spans@.len(),
                    idx.ok(),
                    c.path == Some(*pi),
                    forall|k: int|
                        0 <= k < i ==> valid_span(#[trigger] pi.spans@[k], idx.view_lines()),
                decreases pi.spans@.len() - i,
            {
                let sp = pi.spans[i];
                if !point_ok(sp.start, idx) || !point_ok(sp.end, idx) || !point_le_exec(
                    sp.start,
                    sp.end,
                ) {
                    proof {
                        assert(!valid_span(pi.spans@[i as int], idx.view_lines()));
                        assert(valid_capture(*c, idx.view_lines()) ==> valid_span(
                            pi.spans@[i as int],
                            idx.view_lines(),
                        ));
                    }
                    return false;
                }
                i += 1;
            }
            true
        },
    }
}

/// Checks at runtime what the engine's precondition asks of captures:
/// every coordinate names a character boundary of an existing row, and
/// every range and path span runs forward. Callers that receive
/// captures from an outside analysis layer test them here first.
pub fn validate_captures(captures: &Vec<Capture>, source: &Rope) -> (r: bool)
    requires
        rope_text(*source).len() <= MAX_TEXT_LEN,
    ensures
        r == valid_captures(captures@, spec_lines(rope_text(*source))),
{
    let ghost text = rope_text(*source);
    let chars = rope_chars(source);
    let idx = LineIndex::build(&chars);
    proof {
        idx.lemma_wf_ok(text);
    }
    let mut i: usize = 0;
    while i < captures.len()
        invariant
            0 <= i <= captures@.len(),
            idx.ok(),
            text == rope_text(*source),
            idx.view_lines() == spec_lines(text),
            forall|k: int|
                0 <= k < i ==> valid_capture(#[trigger] captures@[k], idx.view_lines()),
        decreases captures@.len() - i,
    {
        if !capture_ok(&captures[i], &idx) {
            proof {
                assert(!valid_capture(captures@[i as int], spec_lines(text)));
                assert(valid_captures(captures@, spec_lines(text)) ==> valid_capture(
                    captures@[i as int],
                    spec_lines(text),
                ));
            }
            return false;
        }
        i += 1;
    }
    true
}

/// The list of absolute tokens of a capture list, each well-formed for
/// the line table.
pub fn abs_tokens(cs: &Vec<Capture>, idx: &LineIndex) -> (r: Vec<AbsToken>)
    requires
        idx.ok(),
        valid_captures(cs@, idx.view_lines()),
    ensures
        r@ == spec_all_tokens(cs@, idx.view_lines()),
        forall|i: int| 0 <= i < r@.len() ==> tok_wf(#[trigger] r@[i], idx.u16len@),
{
    let ghost lines = idx.view_lines();
    let mut out: Vec<AbsToken> = Vec::new();
    let mut i: usize = 0;
    proof {
        assert(spec_all_tokens(cs@.take(0int), lines) =~= Seq::<AbsToken>::empty());
    }
    while i < cs.len()
        invariant
            0 <= i <= cs@.len(),
            idx.ok(),
            valid_captures(cs@, lines),
            lines == idx.view_lines(),
            out@ == spec_all_tokens(cs@.take(i as int), lines),
            forall|k: int| 0 <= k < out@.len() ==> tok_wf(#[trigger] out@[k], idx.u16len@),
        decreases cs@.len() - i,
    {
        let c = &cs[i];
        proof {
            assert(valid_capture(cs@[i as int], lines));
        }
        let is_path = c.name == "some_path".to_owned();
        let mut handled = false;
        if is_path {
            match &c.path {
                Some(pi) => {
                    if pi.section == Section::Constraints && pi.env == CompletionEnv::Numeric {
                        match &pi.resolved {
                            Some(chain) => {
                                handled = true;
                                let n = pi.spans.len();
                                let ghost toks = spec_path_tokens(pi.spans@, chain@, lines);
                                let mut j: usize = 0;
                                let mut alive = true;
                                let ghost base = out@;
                                proof {
                                    assert(base + toks.take(0int) =~= base);
                                }
                                while j < n
                                    invariant
                                        0 <= j <= n,
                                        n == pi.spans@.len(),
                                        idx.ok(),
                                        lines == idx.view_lines(),
                                        forall|k: int|
                                            0 <= k < pi.spans@.len() ==> valid_span(
                                                #[trigger] pi.spans@[k],
                                                lines,
                                            ),
                                        toks == spec_path_tokens(pi.spans@, chain@, lines),
                                        alive == spec_chain_value(chain@, j as int),
                                        out@ == base + toks.take(j as int),
                                        forall|k: int|
                                            0 <= k < out@.len() ==> tok_wf(
                                                #[trigger] out@[k],
                                                idx.u16len@,
                                            ),
                                    decreases n - j,
                                {
                                    let sp = pi.spans[n - 1 - j];
                                    proof {
                                        assert(valid_span(pi.spans@[n - 1 - j], lines));
                                        lemma_pos_wf(sp.start, sp.end, lines, idx.u16len@);
                                    }
                                    let start = lsp_pos(sp.start, idx);
                                    let end = lsp_pos(sp.end, idx);
                                    let kind = if alive {
                                        KIND_ENUM_MEMBER
                                    } else {
                                        KIND_PARAMETER
                                    };
                                    out.push(AbsToken { range: Range { start, end }, kind });
                                    alive = alive && j < chain.len() && chain[j];
                                    proof {
                                        assert(toks[j as int] == AbsToken {
                                            range: Range { start, end },
                                            kind,
                                        });
                                        assert(out@ =~= base + toks.take(j + 1));
                                    }
                                    j += 1;
                                }
                                proof {
                                    assert(toks.take(n as int) =~= toks);
                                }
                            },
                            None => {},
                        }
                    }
                },
                None => {},
            }
        }
        if !handled {
            let kind = if is_path {
                KIND_PARAMETER
            } else {
                token_index(c.name.as_str())
            };
            proof {
                lemma_pos_wf(c.start, c.end, lines, idx.u16len@);
            }
            let start = lsp_pos(c.start, idx);
            let end = lsp_pos(c.end, idx);
            out.push(AbsToken { range: Range { start, end }, kind });
            proof {
                assert(out@.last() == spec_whole_token(cs@[i as int], kind, lines));
            }
        }
        proof {
            assert(cs@.take(i + 1).drop_last() =~= cs@.take(i as int));
            assert(cs@.take(i + 1).last() == cs@[i as int]);
            assert(out@ =~= spec_all_tokens(cs@.take(i + 1), lines));
        }
        i += 1;
    }
    proof {
        assert(cs@.take(cs@.len() as int) =~= cs@);
    }
    out
}

// --- normalization: sort, dedup, overlap filter ---

/// Order of absolute tokens by start position.
pub open spec fn tok_key_le(a: AbsToken, b: AbsToken) -> bool {
    a.range.start.line < b.range.start.line || (a.range.start.line == b.range.start.line
        && a.range.start.character <= b.range.start.character)
}

pub open spec fn sorted_toks(s: Seq<AbsToken>) -> bool {
    forall|i: int, j: int| 0 <= i < j < s.len() ==> tok_key_le(#[trigger] s[i], #[trigger] s[j])
}

fn tok_le(a: AbsToken, b: AbsToken) -> (r: bool)
    ensures
        r == tok_key_le(a, b),
{
    a.range.start.line < b.range.start.line || (a.range.start.line == b.range.start.line
        && a.range.start.character <= b.range.start.character)
}

/// Insertion into a sorted list, after every token whose key is not
/// greater: the stable placement.
pub open spec fn spec_sorted_insert(s: Seq<AbsToken>, x: AbsToken) -> Seq<AbsToken>
    decreases s.len(),
{
    if s.len() == 0 {
        seq![x]
    } else if tok_key_le(s[0], x) {
        seq![s[0]] + spec_sorted_insert(s.drop_first(), x)
    } else {
        seq![x] + s
    }
}

/// The stable sort of a token list by start position: tokens with equal
/// starts keep their order of appearance.
pub open spec fn spec_sort(s: Seq<AbsToken>) -> Seq<AbsToken>
    decreases s.len(),
{
    if s.len() == 0 {
        Seq::empty()
    } else {
        spec_sorted_insert(spec_sort(s.drop_last()), s.last())
    }
}

proof fn lemma_sorted_insert_at(s: Seq<AbsToken>, x: AbsToken, p: int)
    requires
        0 <= p <= s.len(),
        forall|k: int| 0 <= k < p ==> tok_key_le(#[trigger] s[k], x),
        p == s.len() || !tok_key_le(s[p], x),
    ensures
        spec_sorted_insert(s, x) == s.insert(p, x),
    decreases p,
{
    if p == 0 {
        if s.len() == 0 {
            assert(spec_sorted_insert(s, x) =~= s.insert(0, x));
        } else {
            assert(seq![x] + s =~= s.insert(0, x));
        }
    } else {
        let st = s.drop_first();
        assert(forall|k: int| 0 <= k < st.len() ==> st[k] == s[k + 1]);
        lemma_sorted_insert_at(st, x, p - 1);
        assert(seq![s[0]] + st.insert(p - 1, x) =~= s.insert(p, x));
    }
}

/// Sorts tokens stably by start position; the result is the one stable
/// arrangement `spec_sort` names, so it holds exactly the same tokens.
pub fn sort_tokens(v: Vec<AbsToken>) -> (r: Vec<AbsToken>)
    ensures
        r@ == spec_sort(v@),
        sorted_toks(r@),
        r@.to_multiset() == v@.to_multiset(),
        r@.len() == v@.len(),
        forall|i: int| 0 <= i < r@.len() ==> v@.contains(#[trigger] r@[i]),
{
    let mut out: Vec<AbsToken> = Vec::new();
    let mut i: usize = 0;
    proof {
        assert(v@.take(0int) =~= Seq::<AbsToken>::empty());
        assert(v@.take(0int).to_multiset() =~= out@.to_multiset());
    }
    while i < v.len()
        invariant
            0 <= i <= v@.len(),
            out@ == spec_sort(v@.take(i as int)),
            sorted_toks(out@),
            out@.to_multiset() == v@.take(i as int).to_multiset(),
            out@.len() == i,
            forall|k: int| 0 <= k < out@.len() ==> v@.contains(#[trigger] out@[k]),
        decreases v@.len() - i,
    {
        let x = v[i];
        let mut p: usize = 0;
        while p < out.len() && tok_le(out[p], x)
            invariant
                0 <= p <= out@.len(),
                forall|k: int| 0 <= k < p ==> tok_key_le(#[trigger] out@[k], x),
            decreases out@.len() - p,
        {
            p += 1;
        }
        proof {
            vstd::seq_lib::to_multiset_insert(out@, p as int, x);
            vstd::seq_lib::to_multiset_build(v@.take(i as int), x);
            assert(v@.take(i + 1) =~= v@.take(i as int).push(x));
            assert(v@.take(i + 1).drop_last() =~= v@.take(i as int));
            lemma_sorted_insert_at(out@, x, p as int);
            assert(v@.contains(x)) by {
                assert(v@[i as int] == x);
            }
        }
        let ghost old_out = out@;
        out.insert(p, x);
        proof {
            assert forall|a: int, b: int| 0 <= a < b < out@.len() implies tok_key_le(
                #[trigger] out@[a],
                #[trigger] out@[b],
            ) by {
                if b < p {
                } else if a < p && b == p {
                } else if a == p {
                    assert(out@[b] == old_out[b - 1]);
                    assert(!tok_key_le(old_out[p as int], x) || p == old_out.len());
                } else if a < p {
                    assert(out@[b] == old_out[b - 1]);
                } else {
                    assert(out@[a] == old_out[a - 1]);
                    assert(out@[b] == old_out[b - 1]);
                }
            }
        }
        i += 1;
    }
    proof {
        assert(v@.take(v@.len() as int) =~= v@);
    }
    out
}

/// Removal of adjacent duplicates.
pub open spec fn spec_dedup(s: Seq<AbsToken>) -> Seq<AbsToken>
    decreases s.len(),
{
    if s.len() <= 1 {
        s
    } else {
        let d = spec_dedup(s.drop_last());
        if d.last() == s.last() {
            d
        } else {
            d.push(s.last())
        }
    }
}

pub proof fn lemma_dedup_props(s: Seq<AbsToken>)
    ensures
        s.len() == 0 ==> spec_dedup(s).len() == 0,
        s.len() > 0 ==> spec_dedup(s).len() >= 1 && spec_dedup(s).last() == s.last(),
        spec_dedup(s).len() <= s.len(),
        forall|i: int| 0 <= i < spec_dedup(s).len() ==> s.contains(#[trigger] spec_dedup(s)[i]),
        sorted_toks(s) ==> sorted_toks(spec_dedup(s)),
    decreases s.len(),
{
    if s.len() > 1 {
        lemma_dedup_props(s.drop_last());
        let d = spec_dedup(s.drop_last());
        assert(forall|i: int|
            0 <= i < d.len() ==> s.drop_last().contains(#[trigger] d[i]));
        assert forall|i: int| 0 <= i < spec_dedup(s).len() implies s.contains(
            #[trigger] spec_dedup(s)[i],
        ) by {
            if i < d.len() {
                let j = choose|j: int| 0 <= j < s.drop_last().len() && s.drop_last()[j] == d[i];
                assert(s[j] == d[i]);
            } else {
                assert(spec_dedup(s)[i] == s.last());
            }
        }
        if sorted_toks(s) {
            assert(sorted_toks(s.drop_last())) by {
                assert(forall|i: int|
                    0 <= i < s.drop_last().len() ==> s.drop_last()[i] == s[i]);
            }
            assert forall|a: int, b: int| 0 <= a < b < spec_dedup(s).len() implies tok_key_le(
                #[trigger] spec_dedup(s)[a],
                #[trigger] spec_dedup(s)[b],
            ) by {
                if b < d.len() {
                } else {
                    let j = choose|j: int|
                        0 <= j < s.drop_last().len() && s.drop_last()[j] == spec_dedup(s)[a];
                    assert(s[j] == spec_dedup(s)[a]);
                    assert(tok_key_le(s[j], s.last()));
                }
            }
        }
    }
}

pub fn dedup_tokens(v: Vec<AbsToken>) -> (r: Vec<AbsToken>)
    ensures
        r@ == spec_dedup(v@),
{
    let mut out: Vec<AbsToken> = Vec::new();
    let mut i: usize = 0;
    proof {
        assert(v@.take(0int) =~= Seq::<AbsToken>::empty());
    }
    while i < v.len()
        invariant
            0 <= i <= v@.len(),
            out@ == spec_dedup(v@.take(i as int)),
        decreases v@.len() - i,
    {
        let x = v[i];
        proof {
            assert(v@.take(i + 1).drop_last() =~= v@.take(i as int));
            assert(v@.take(i + 1).last() == x);
            if i > 0 {
                lemma_dedup_props(v@.take(i as int));
            }
        }
        if out.len() == 0 {
            out.push(x);
        } else {
            let same = {
                let l = out[out.len() - 1];
                l == x
            };
            if !same {
                out.push(x);
            }
        }
        i += 1;
    }
    proof {
        assert(v@.take(v@.len() as int) =~= v@);
    }
    out
}

/// `t` begins before `prev` has ended.
pub open spec fn tok_overlaps(prev: AbsToken, t: AbsToken) -> bool {
    prev.range.end.line > t.range.start.line || (prev.range.end.line == t.range.start.line
        && prev.range.end.character > t.range.start.character)
}

/// Adjacent accepted tokens touch at most: each ends before the next
/// starts.
pub open spec fn nonoverlap_adj(s: Seq<AbsToken>) -> bool {
    forall|i: int|
        0 <= i < s.len() - 1 ==> pos_le(#[trigger] s[i].range.end, s[i + 1].range.start)
}

/// Greedy suppression of overlapping tokens, walking in order and
/// dropping any token that begins before the last kept one ends.
pub open spec fn spec_filter_from(s: Seq<AbsToken>, last: Option<AbsToken>) -> Seq<AbsToken>
    decreases s.len(),
{
    if s.len() == 0 {
        Seq::empty()
    } else {
        let skip = match last {
            Some(l) => tok_overlaps(l, s[0]),
            None => false,
        };
        if skip {
            spec_filter_from(s.drop_first(), last)
        } else {
            seq![s[0]] + spec_filter_from(s.drop_first(), Some(s[0]))
        }
    }
}

pub proof fn lemma_filter_props(s: Seq<AbsToken>, last: Option<AbsToken>)
    requires
        sorted_toks(s),
    ensures
        forall|i: int|
            0 <= i < spec_filter_from(s, last).len() ==> s.contains(
                #[trigger] spec_filter_from(s, last)[i],
            ),
        sorted_toks(spec_filter_from(s, last)),
        nonoverlap_adj(spec_filter_from(s, last)),
        spec_filter_from(s, last).len() > 0 && last is Some ==> !tok_overlaps(
            last.unwrap(),
            spec_filter_from(s, last)[0],
        ),
        spec_filter_from(s, last).len() <= s.len(),
    decreases s.len(),
{
    if s.len() > 0 {
        let f = spec_filter_from(s, last);
        assert(sorted_toks(s.drop_first())) by {
            assert(forall|i: int|
                0 <= i < s.drop_first().len() ==> s.drop_first()[i] == s[i + 1]);
        }
        let skip = match last {
            Some(l) => tok_overlaps(l, s[0]),
            None => false,
        };
        if skip {
            lemma_filter_props(s.drop_first(), last);
            assert forall|i: int| 0 <= i < f.len() implies s.contains(#[trigger] f[i]) by {
                let j = choose|j: int|
                    0 <= j < s.drop_first().len() && s.drop_first()[j] == f[i];
                assert(s[j + 1] == f[i]);
            }
        } else {
            lemma_filter_props(s.drop_first(), Some(s[0]));
            let f2 = spec_filter_from(s.drop_first(), Some(s[0]));
            assert forall|i: int| 0 <= i < f.len() implies s.contains(#[trigger] f[i]) by {
                if i == 0 {
                    assert(f[0] == s[0]);
                } else {
                    let j = choose|j: int|
                        0 <= j < s.drop_first().len() && s.drop_first()[j] == f2[i - 1];
                    assert(s[j + 1] == f[i]);
                }
            }
            assert forall|a: int, b: int| 0 <= a < b < f.len() implies tok_key_le(
                #[trigger] f[a],
                #[trigger] f[b],
            ) by {
                if a == 0 {
                    let j = choose|j: int|
                        0 <= j < s.drop_first().len() && s.drop_first()[j] == f2[b - 1];
                    assert(s[j + 1] == f[b]);
                    assert(tok_key_le(s[0], s[j + 1]));
                }
            }
            assert forall|i: int| 0 <= i < f.len() - 1 implies pos_le(
                #[trigger] f[i].range.end,
                f[i + 1].range.start,
            ) by {
                if i == 0 {
                    if f2.len() > 0 {
                        assert(!tok_overlaps(s[0], f2[0]));
                        assert(f[1] == f2[0]);
                    }
                } else {
                    assert(f[i] == f2[i - 1] && f[i + 1] == f2[i]);
                }
            }
        }
    }
}

pub fn filter_tokens(v: Vec<AbsToken>) -> (r: Vec<AbsToken>)
    ensures
        r@ == spec_filter_from(v@, None),
{
    let mut out: Vec<AbsToken> = Vec::new();
    let mut last: Option<AbsToken> = None;
    let mut i: usize = 0;
    proof {
        assert(v@.skip(0int) =~= v@);
        assert(out@ + spec_filter_from(v@, None) =~= spec_filter_from(v@, None));
    }
    while i < v.len()
        invariant
            0 <= i <= v@.len(),
            spec_filter_from(v@, None) == out@ + spec_filter_from(v@.skip(i as int), last),
        decreases v@.len() - i,
    {
        let x = v[i];
        proof {
            assert(v@.skip(i as int)[0] == x);
            assert(v@.skip(i as int).drop_first() =~= v@.skip(i + 1));
        }
        let keep = match &last {
            Some(l) => !(l.range.end.line > x.range.start.line || (l.range.end.line
                == x.range.start.line && l.range.end.character > x.range.start.character)),
            None => true,
        };
        if keep {
            out.push(x);
            last = Some(x);
            proof {
                assert(out@ + spec_filter_from(v@.skip(i + 1), last) =~= (out@.drop_last()
                    + (seq![x] + spec_filter_from(v@.skip(i + 1), Some(x)))));
            }
        }
        i += 1;
    }
    proof {
        assert(v@.skip(v@.len() as int) =~= Seq::<AbsToken>::empty());
        assert(spec_filter_from(v@, None) =~= out@);
    }
    out
}

// --- delta encoding ---

/// The protocol encodes positions relative to the previous record; the
/// row delta is taken against the previous token's end row, the column
/// delta against its start column when the rows agree.
pub open spec fn spec_dl(t: AbsToken, last: Option<AbsToken>) -> int {
    match last {
        None => t.range.start.line as int,
        Some(l) => t.range.start.line - l.range.end.line,
    }
}

pub open spec fn spec_ds(t: AbsToken, last: Option<AbsToken>) -> int {
    match last {
        None => t.range.start.character as int,
        Some(l) => if t.range.start.line == l.range.end.line {
            t.range.start.character - l.range.start.character
        } else {
            t.range.start.character as int
        },
    }
}

/// Length of a token's first record: to the token end on its own row,
/// else to the end of the start row.
pub open spec fn spec_head_len(t: AbsToken, lens: Seq<u32>) -> int {
    if t.range.start.line == t.range.end.line {
        t.range.end.character - t.range.start.character
    } else {
        lens[t.range.start.line as int] - t.range.start.character
    }
}

pub open spec fn mk_tok(dl: int, ds: int, len: int, kind: u32) -> SemanticToken {
    SemanticToken {
        delta_line: dl as u32,
        delta_start: ds as u32,
        length: len as u32,
        token_type: kind,
        token_modifiers_bitset: 0,
    }
}

/// Records of the rows a multi-line token fully covers.
pub open spec fn spec_interior(kind: u32, lens: Seq<u32>, row: int, end_row: int) -> Seq<
    SemanticToken,
>
    decreases end_row - row,
{
    if row >= end_row {
        Seq::empty()
    } else {
        seq![mk_tok(1, 0, lens[row] as int, kind)] + spec_interior(kind, lens, row + 1, end_row)
    }
}

pub proof fn lemma_interior_index(kind: u32, lens: Seq<u32>, row: int, end_row: int)
    requires
        row <= end_row,
    ensures
        spec_interior(kind, lens, row, end_row).len() == end_row - row,
        forall|i: int|
            0 <= i < end_row - row ==> #[trigger] spec_interior(kind, lens, row, end_row)[i]
                == mk_tok(1, 0, lens[row + i] as int, kind),
    decreases end_row - row,
{
    if row < end_row {
        lemma_interior_index(kind, lens, row + 1, end_row);
    }
}

/// All records one token contributes.
pub open spec fn spec_tok_entries(t: AbsToken, last: Option<AbsToken>, lens: Seq<u32>) -> Seq<
    SemanticToken,
> {
    let head = mk_tok(spec_dl(t, last), spec_ds(t, last), spec_head_len(t, lens), t.kind);
    if t.range.start.line == t.range.end.line {
        seq![head]
    } else {
        seq![head] + spec_interior(
            t.kind,
            lens,
            t.range.start.line + 1,
            t.range.end.line as int,
        ) + seq![mk_tok(1, 0, t.range.end.character as int, t.kind)]
    }
}

/// The full delta-encoded stream of a normalized token list.
pub open spec fn spec_encode_from(
    toks: Seq<AbsToken>,
    last: Option<AbsToken>,
    lens: Seq<u32>,
) -> Seq<SemanticToken>
    decreases toks.len(),
{
    if toks.len() == 0 {
        Seq::empty()
    } else {
        spec_tok_entries(toks[0], last, lens) + spec_encode_from(
            toks.drop_first(),
            Some(toks[0]),
            lens,
        )
    }
}

pub open spec fn spec_encode(toks: Seq<AbsToken>, lens: Seq<u32>) -> Seq<SemanticToken> {
    spec_encode_from(toks, None, lens)
}

/// Column deltas against the previous token's start stay non-negative.
pub open spec fn same_line_ok(prev: AbsToken, next: AbsToken) -> bool {
    next.range.start.line == prev.range.end.line ==> prev.range.start.character
        <= next.range.start.character
}

/// Everything the encoder needs of its input: well-formed tokens, kept in
/// order without overlap, and no backward column step on a shared row.
pub open spec fn encode_ok(toks: Seq<AbsToken>, lens: Seq<u32>) -> bool {
    &&& forall|i: int| 0 <= i < toks.len() ==> tok_wf(#[trigger] toks[i], lens)
    &&& nonoverlap_adj(toks)
    &&& forall|i: int| 0 <= i < toks.len() - 1 ==> same_line_ok(#[trigger] toks[i], toks[i + 1])
}

/// Checks the one encoder precondition that normalization does not
/// already establish.
pub fn check_same_line(v: &Vec<AbsToken>) -> (r: bool)
    ensures
        r == same_line_all(v@),
{
    if v.len() == 0 {
        return true;
    }
    let mut i: usize = 0;
    while i < v.len() - 1
        invariant
            v@.len() >= 1,
            0 <= i <= v@.len() - 1,
            forall|k: int| 0 <= k < i ==> same_line_ok(#[trigger] v@[k], v@[k + 1]),
        decreases v@.len() - i,
    {
        let prev = v[i];
        let next = v[i + 1];
        if next.range.start.line == prev.range.end.line && prev.range.start.character
            > next.range.start.character {
            return false;
        }
        i += 1;
    }
    true
}

/// Delta-encodes a normalized token list against the line table.
pub fn encode_tokens(v: &Vec<AbsToken>, lens: &Vec<u32>) -> (r: Vec<SemanticToken>)
    requires
        encode_ok(v@, lens@),
    ensures
        r@ == spec_encode(v@, lens@),
{
    let mut out: Vec<SemanticToken> = Vec::new();
    let mut i: usize = 0;
    let mut last: Option<AbsToken> = None;
    proof {
        assert(v@.skip(0int) =~= v@);
        assert(out@ + spec_encode_from(v@, None, lens@) =~= spec_encode_from(v@, None, lens@));
    }
    while i < v.len()
        invariant
            0 <= i <= v@.len(),
            encode_ok(v@, lens@),
            last == if i == 0 {
                Option::<AbsToken>::None
            } else {
                Some(v@[i - 1])
            },
            spec_encode(v@, lens@) == out@ + spec_encode_from(v@.skip(i as int), last, lens@),
        decreases v@.len() - i,
    {
        let t = v[i];
        proof {
            assert(tok_wf(v@[i as int], lens@));
            if i > 0 {
                assert(pos_le(v@[i - 1].range.end, v@[i as int].range.start));
                assert(same_line_ok(v@[i - 1], v@[i as int]));
                assert(tok_wf(v@[i - 1], lens@));
            }
            assert(v@.skip(i as int)[0] == t);
            assert(v@.skip(i as int).drop_first() =~= v@.skip(i + 1));
        }
        let ghost entries = spec_tok_entries(t, last, lens@);
        let sl = t.range.start.line;
        let el = t.range.end.line;
        let sc = t.range.start.character;
        let dl: u32 = match &last {
            None => sl,
            Some(l) => sl - l.range.end.line,
        };
        let ds: u32 = match &last {
            None => sc,
            Some(l) => if sl == l.range.end.line {
                sc - l.range.start.character
            } else {
                sc
            },
        };
        let ghost base = out@;
        if sl == el {
            let len: u32 = t.range.end.character - sc;
            out.push(
                SemanticToken {
                    delta_line: dl,
                    delta_start: ds,
                    length: len,
                    token_type: t.kind,
                    token_modifiers_bitset: 0,
                },
            );
            proof {
                assert(out@ =~= base + entries);
            }
        } else {
            let len: u32 = lens[sl as usize] - sc;
            out.push(
                SemanticToken {
                    delta_line: dl,
                    delta_start: ds,
                    length: len,
                    token_type: t.kind,
                    token_modifiers_bitset: 0,
                },
            );
            let ghost inner = spec_interior(t.kind, lens@, sl + 1, el as int);
            proof {
                lemma_interior_index(t.kind, lens@, sl + 1, el as int);
                assert(out@ =~= base + seq![entries[0]]);
                assert(inner.take(0int) =~= Seq::<SemanticToken>::empty());
                assert(out@ =~= base + seq![entries[0]] + inner.take(0int));
            }
            let mut row: u32 = sl + 1;
            while row < el
                invariant
                    sl + 1 <= row <= el,
                    (el as int) < lens@.len(),
                    inner == spec_interior(t.kind, lens@, sl + 1, el as int),
                    out@ == base + seq![entries[0]] + inner.take(row - (sl + 1)),
                decreases el - row,
            {
                proof {
                    lemma_interior_index(t.kind, lens@, sl + 1, el as int);
                }
                out.push(
                    SemanticToken {
                        delta_line: 1,
                        delta_start: 0,
                        length: lens[row as usize],
                        token_type: t.kind,
                        token_modifiers_bitset: 0,
                    },
                );
                proof {
                    assert(inner.take(row - sl) =~= inner.take(row - (sl + 1)).push(
                        inner[row - (sl + 1)],
                    ));
                    assert(out@ =~= base + seq![entries[0]] + inner.take(row - sl));
                }
                row += 1;
            }
            out.push(
                SemanticToken {
                    delta_line: 1,
                    delta_start: 0,
                    length: t.range.end.character,
                    token_type: t.kind,
                    token_modifiers_bitset: 0,
                },
            );
            proof {
                assert(inner.take(el - (sl + 1)) =~= inner);
                assert(out@ =~= base + entries);
            }
        }
        last = Some(t);
        i += 1;
    }
    proof {
        assert(v@.skip(v@.len() as int) =~= Seq::<AbsToken>::empty());
        assert(spec_encode(v@, lens@) =~= out@);
    }
    out
}

} // verus!

verus! {

// --- decoding, and the disjointness of decoded streams ---

/// Decodes delta records back to absolute `(row, start, end, kind)`
/// ranges, the inverse reading a protocol client performs.
pub open spec fn spec_decode_from(es: Seq<SemanticToken>, line: int, col: int) -> Seq<
    (int, int, int, u32),
>
    decreases es.len(),
{
    if es.len() == 0 {
        Seq::empty()
    } else {
        let e = es[0];
        let nl = line + e.delta_line;
        let nc = if e.delta_line == 0 {
            col + e.delta_start
        } else {
            e.delta_start as int
        };
        seq![(nl, nc, nc + e.length, e.token_type)] + spec_decode_from(es.drop_first(), nl, nc)
    }
}

pub open spec fn spec_decode(es: Seq<SemanticToken>) -> Seq<(int, int, int, u32)> {
    spec_decode_from(es, 0, 0)
}

pub open spec fn all_single_line(toks: Seq<AbsToken>) -> bool {
    forall|i: int|
        0 <= i < toks.len() ==> #[trigger] toks[i].range.start.line == toks[i].range.end.line
}

/// The absolute ranges a single-line token list stands for.
pub open spec fn spec_abs_ranges(toks: Seq<AbsToken>) -> Seq<(int, int, int, u32)> {
    Seq::new(
        toks.len(),
        |i: int|
            (
                toks[i].range.start.line as int,
                toks[i].range.start.character as int,
                toks[i].range.end.character as int,
                toks[i].kind,
            ),
    )
}

/// The per-row ranges a normalized token list stands for: a single-line
/// token covers one range; a multi-line token covers the tail of its
/// first row, every interior row whole, and the head of its last row.
pub open spec fn spec_tok_segments(t: AbsToken, lens: Seq<u32>) -> Seq<(int, int, int, u32)> {
    let r0 = t.range.start.line as int;
    let r1 = t.range.end.line as int;
    let c0 = t.range.start.character as int;
    if r0 == r1 {
        seq![(r0, c0, t.range.end.character as int, t.kind)]
    } else {
        Seq::new(
            (r1 - r0 + 1) as nat,
            |i: int|
                if i == 0 {
                    (r0, c0, lens[r0] as int, t.kind)
                } else if i < r1 - r0 {
                    (r0 + i, 0int, lens[r0 + i] as int, t.kind)
                } else {
                    (r1, 0int, t.range.end.character as int, t.kind)
                },
        )
    }
}

pub open spec fn spec_segments(toks: Seq<AbsToken>, lens: Seq<u32>) -> Seq<(int, int, int, u32)>
    decreases toks.len(),
{
    if toks.len() == 0 {
        Seq::empty()
    } else {
        spec_tok_segments(toks[0], lens) + spec_segments(toks.drop_first(), lens)
    }
}

/// The one shape the row-relative encoding cannot carry: a token on the
/// end row of a multi-line token whose start column is not 0. Everything
/// else round-trips through a standard decoder.
pub open spec fn decode_ok(toks: Seq<AbsToken>) -> bool {
    forall|i: int|
        0 <= i < toks.len() - 1 ==> ((#[trigger] toks[i]).range.start.line
            != toks[i].range.end.line && toks[i + 1].range.start.line == toks[i].range.end.line
            ==> toks[i].range.start.character == 0)
}

proof fn lemma_decode_interior(
    kind: u32,
    lens: Seq<u32>,
    row: int,
    end_row: int,
    rest: Seq<SemanticToken>,
    line: int,
    col: int,
)
    requires
        row - 1 == line,
        row <= end_row,
    ensures
        spec_decode_from(spec_interior(kind, lens, row, end_row) + rest, line, col) == Seq::new(
            (end_row - row) as nat,
            |i: int| (row + i, 0int, lens[row + i] as int, kind),
        ) + spec_decode_from(
            rest,
            if row < end_row {
                end_row - 1
            } else {
                line
            },
            if row < end_row {
                0int
            } else {
                col
            },
        ),
    decreases end_row - row,
{
    if row == end_row {
        assert(spec_interior(kind, lens, row, end_row) + rest =~= rest);
        assert(spec_decode_from(spec_interior(kind, lens, row, end_row) + rest, line, col)
            =~= Seq::new(0nat, |i: int| (row + i, 0int, lens[row + i] as int, kind))
            + spec_decode_from(rest, line, col));
    } else {
        let e = mk_tok(1, 0, lens[row] as int, kind);
        let tail = spec_interior(kind, lens, row + 1, end_row) + rest;
        assert((spec_interior(kind, lens, row, end_row) + rest)[0] == e);
        assert((spec_interior(kind, lens, row, end_row) + rest).drop_first() =~= tail);
        lemma_decode_interior(kind, lens, row + 1, end_row, rest, row, 0);
        assert(spec_decode_from(spec_interior(kind, lens, row, end_row) + rest, line, col)
            =~= seq![(row, 0int, lens[row] as int, kind)] + spec_decode_from(tail, row, 0));
        assert(Seq::new((end_row - row) as nat, |i: int| (row + i, 0int, lens[row + i] as int, kind))
            =~= seq![(row, 0int, lens[row] as int, kind)] + Seq::new(
            (end_row - (row + 1)) as nat,
            |i: int| (row + 1 + i, 0int, lens[row + 1 + i] as int, kind),
        ));
        assert(spec_decode_from(spec_interior(kind, lens, row, end_row) + rest, line, col)
            =~= Seq::new((end_row - row) as nat, |i: int| (row + i, 0int, lens[row + i] as int, kind))
            + spec_decode_from(
            rest,
            if row + 1 < end_row {
                end_row - 1
            } else {
                row
            },
            if row + 1 < end_row {
                0int
            } else {
                0int
            },
        ));
    }
}

#[verifier::rlimit(60)]
proof fn lemma_decode_encode_from(
    toks: Seq<AbsToken>,
    lens: Seq<u32>,
    last: Option<AbsToken>,
    line: int,
    col: int,
)
    requires
        encode_ok(toks, lens),
        decode_ok(toks),
        match last {
            None => line == 0 && col == 0,
            Some(l) => {
                &&& tok_wf(l, lens)
                &&& line == l.range.end.line
                &&& (toks.len() > 0 ==> pos_le(l.range.end, toks[0].range.start) && same_line_ok(
                    l,
                    toks[0],
                ) && (toks[0].range.start.line == l.range.end.line ==> col
                    == l.range.start.character))
            },
        },
    ensures
        spec_decode_from(spec_encode_from(toks, last, lens), line, col) == spec_segments(
            toks,
            lens,
        ),
    decreases toks.len(),
{
    if toks.len() == 0 {
        assert(spec_decode_from(spec_encode_from(toks, last, lens), line, col) =~= spec_segments(
            toks,
            lens,
        ));
    } else {
        let t = toks[0];
        assert(tok_wf(t, lens));
        let rest = toks.drop_first();
        assert(forall|i: int| 0 <= i < rest.len() ==> rest[i] == toks[i + 1]);
        assert(encode_ok(rest, lens));
        assert(decode_ok(rest));
        let es = spec_encode_from(toks, last, lens);
        let entries = spec_tok_entries(t, last, lens);
        let head = entries[0];
        assert(es =~= entries + spec_encode_from(rest, Some(t), lens));
        let r0 = t.range.start.line as int;
        let r1 = t.range.end.line as int;
        let c0 = t.range.start.character as int;
        // the head record lands exactly on the token's start
        assert(es[0] == head);
        let nl = line + head.delta_line;
        let nc = if head.delta_line == 0 {
            col + head.delta_start
        } else {
            head.delta_start as int
        };
        assert(nl == r0 && nc == c0) by {
            match last {
                None => {},
                Some(l) => {
                    assert(pos_le(l.range.end, t.range.start));
                },
            }
        }
        if r0 == r1 {
            assert(entries =~= seq![head]);
            assert(es.drop_first() =~= spec_encode_from(rest, Some(t), lens));
            if toks.len() > 1 {
                assert(pos_le(t.range.end, toks[1].range.start));
                assert(same_line_ok(t, toks[1]));
            }
            lemma_decode_encode_from(rest, lens, Some(t), nl, nc);
            assert(nc + head.length == t.range.end.character);
            assert(spec_decode_from(es, line, col) =~= seq![
                (r0, c0, t.range.end.character as int, t.kind),
            ] + spec_segments(rest, lens));
            assert(spec_tok_segments(t, lens) =~= seq![
                (r0, c0, t.range.end.character as int, t.kind),
            ]);
            assert(spec_decode_from(es, line, col) =~= spec_segments(toks, lens));
        } else {
            let inner = spec_interior(t.kind, lens, r0 + 1, r1);
            let fin = mk_tok(1, 0, t.range.end.character as int, t.kind);
            assert(entries =~= seq![head] + inner + seq![fin]);
            let rest_es = spec_encode_from(rest, Some(t), lens);
            assert(es.drop_first() =~= inner + (seq![fin] + rest_es));
            // the head record covers the tail of the first row
            assert(nc + head.length == lens[r0]);
            assert(spec_decode_from(es, line, col) =~= seq![(r0, c0, lens[r0] as int, t.kind)]
                + spec_decode_from(inner + (seq![fin] + rest_es), r0, c0));
            lemma_decode_interior(t.kind, lens, r0 + 1, r1, seq![fin] + rest_es, r0, c0);
            let line2: int = if r0 + 1 < r1 {
                r1 - 1
            } else {
                r0
            };
            let col2: int = if r0 + 1 < r1 {
                0int
            } else {
                c0
            };
            // the final record lands on the start of the last row
            assert((seq![fin] + rest_es)[0] == fin);
            assert((seq![fin] + rest_es).drop_first() =~= rest_es);
            assert(spec_decode_from(seq![fin] + rest_es, line2, col2) =~= seq![
                (r1, 0int, t.range.end.character as int, t.kind),
            ] + spec_decode_from(rest_es, r1, 0));
            if toks.len() > 1 {
                assert(pos_le(t.range.end, toks[1].range.start));
                assert(same_line_ok(t, toks[1]));
                assert(toks[1].range.start.line == r1 ==> c0 == 0);
            }
            lemma_decode_encode_from(rest, lens, Some(t), r1, 0);
            assert(spec_tok_segments(t, lens) =~= seq![(r0, c0, lens[r0] as int, t.kind)]
                + Seq::new(
                (r1 - (r0 + 1)) as nat,
                |i: int| (r0 + 1 + i, 0int, lens[r0 + 1 + i] as int, t.kind),
            )
                + seq![(r1, 0int, t.range.end.character as int, t.kind)]);
            assert(spec_decode_from(es, line, col) =~= spec_tok_segments(t, lens) + spec_segments(
                rest,
                lens,
            ));
            assert(spec_decode_from(es, line, col) =~= spec_segments(toks, lens));
        }
    }
}

/// Within one token and between tokens, per-row segments keep order and
/// never overlap.
proof fn lemma_segments_disjoint(toks: Seq<AbsToken>, lens: Seq<u32>)
    requires
        encode_ok(toks, lens),
    ensures
        forall|i: int|
            0 <= i < spec_segments(toks, lens).len() - 1 ==> ((#[trigger] spec_segments(
                toks,
                lens,
            )[i]).0 < spec_segments(toks, lens)[i + 1].0 || (spec_segments(toks, lens)[i].0
                == spec_segments(toks, lens)[i + 1].0 && spec_segments(toks, lens)[i].2
                <= spec_segments(toks, lens)[i + 1].1)),
    decreases toks.len(),
{
    if toks.len() > 0 {
        let t = toks[0];
        assert(tok_wf(t, lens));
        let rest = toks.drop_first();
        assert(forall|i: int| 0 <= i < rest.len() ==> rest[i] == toks[i + 1]);
        assert(encode_ok(rest, lens));
        lemma_segments_disjoint(rest, lens);
        let a = spec_tok_segments(t, lens);
        let b = spec_segments(rest, lens);
        let all = spec_segments(toks, lens);
        assert(all =~= a + b);
        assert forall|i: int| 0 <= i < all.len() - 1 implies ((#[trigger] all[i]).0 < all[i
            + 1].0 || (all[i].0 == all[i + 1].0 && all[i].2 <= all[i + 1].1)) by {
            if i + 1 < a.len() {
                // adjacent segments of one token sit on strictly
                // increasing rows
                assert(all[i] == a[i] && all[i + 1] == a[i + 1]);
                assert(a[i].0 < a[i + 1].0);
            } else if i + 1 == a.len() {
                assert(rest.len() > 0);
                assert(all[i] == a[a.len() - 1]);
                assert(b[0] == spec_tok_segments(rest[0], lens)[0]);
                assert(all[i + 1] == b[0]);
                assert(a[a.len() - 1].0 == t.range.end.line && a[a.len() - 1].2
                    == t.range.end.character);
                assert(b[0].0 == rest[0].range.start.line && b[0].1
                    == rest[0].range.start.character) by {
                    assert(tok_wf(rest[0], lens));
                }
                assert(pos_le(t.range.end, rest[0].range.start));
            } else {
                assert(all[i] == b[i - a.len()] && all[i + 1] == b[i + 1 - a.len()]);
            }
        }
    }
}

/// Decoding a produced stream yields exactly the per-row ranges of its
/// tokens, in lexicographic order of start position and without overlap.
pub proof fn lemma_stream_decodes_disjoint(toks: Seq<AbsToken>, lens: Seq<u32>)
    requires
        encode_ok(toks, lens),
        decode_ok(toks),
    ensures
        spec_decode(spec_encode(toks, lens)) == spec_segments(toks, lens),
        forall|i: int|
            0 <= i < spec_segments(toks, lens).len() - 1 ==> ((#[trigger] spec_segments(
                toks,
                lens,
            )[i]).0 < spec_segments(toks, lens)[i + 1].0 || (spec_segments(toks, lens)[i].0
                == spec_segments(toks, lens)[i + 1].0 && spec_segments(toks, lens)[i].2
                <= spec_segments(toks, lens)[i + 1].1)),
{
    lemma_decode_encode_from(toks, lens, None, 0, 0);
    lemma_segments_disjoint(toks, lens);
}

/// On a stream of single-line tokens the segments are the tokens' own
/// ranges, so decoding returns them exactly.
pub proof fn lemma_single_line_stream_exact(toks: Seq<AbsToken>, lens: Seq<u32>)
    requires
        encode_ok(toks, lens),
        all_single_line(toks),
    ensures
        spec_decode(spec_encode(toks, lens)) == spec_abs_ranges(toks),
    decreases toks.len(),
{
    lemma_stream_decodes_disjoint(toks, lens);
    lemma_segments_are_ranges(toks, lens);
}

proof fn lemma_segments_are_ranges(toks: Seq<AbsToken>, lens: Seq<u32>)
    requires
        all_single_line(toks),
    ensures
        spec_segments(toks, lens) == spec_abs_ranges(toks),
    decreases toks.len(),
{
    if toks.len() == 0 {
        assert(spec_segments(toks, lens) =~= spec_abs_ranges(toks));
    } else {
        let rest = toks.drop_first();
        assert(forall|i: int| 0 <= i < rest.len() ==> rest[i] == toks[i + 1]);
        lemma_segments_are_ranges(rest, lens);
        assert(spec_tok_segments(toks[0], lens) =~= seq![spec_abs_ranges(toks)[0]]);
        assert(spec_segments(toks, lens) =~= spec_abs_ranges(toks)) by {
            assert(forall|i: int|
                0 <= i < rest.len() ==> #[trigger] spec_abs_ranges(rest)[i] == spec_abs_ranges(
                    toks,
                )[i + 1]);
        }
    }
}

/// A normalized stream of single-line tokens always meets the encoder's
/// last precondition.
pub proof fn lemma_single_line_encodable(toks: Seq<AbsToken>, lens: Seq<u32>)
    requires
        forall|i: int| 0 <= i < toks.len() ==> tok_wf(#[trigger] toks[i], lens),
        nonoverlap_adj(toks),
        all_single_line(toks),
    ensures
        encode_ok(toks, lens),
{
    assert forall|i: int| 0 <= i < toks.len() - 1 implies same_line_ok(
        #[trigger] toks[i],
        toks[i + 1],
    ) by {
        assert(pos_le(toks[i].range.end, toks[i + 1].range.start));
        assert(toks[i].range.start.line == toks[i].range.end.line);
        assert(pos_le(toks[i].range.start, toks[i].range.end));
    }
}

} // verus!

verus! {

// --- stream diffing and the per-document cache ---

/// Applying one edit: replace `delete_count` records at `start` by the
/// carried data.
pub open spec fn spec_apply_edit(a: Seq<SemanticToken>, e: SemanticTokensEdit) -> Seq<
    SemanticToken,
> {
    a.take(e.start as int) + e.data@ + a.skip(e.start + e.delete_count)
}

/// Length of the longest common prefix of two streams.
pub open spec fn spec_lcp(a: Seq<SemanticToken>, b: Seq<SemanticToken>) -> int
    decreases a.len(),
{
    if a.len() == 0 || b.len() == 0 || a[0] != b[0] {
        0
    } else {
        1 + spec_lcp(a.drop_first(), b.drop_first())
    }
}

pub proof fn lemma_lcp_bounds(a: Seq<SemanticToken>, b: Seq<SemanticToken>)
    ensures
        0 <= spec_lcp(a, b),
        spec_lcp(a, b) <= a.len(),
        spec_lcp(a, b) <= b.len(),
    decreases a.len(),
{
    if a.len() > 0 && b.len() > 0 && a[0] == b[0] {
        lemma_lcp_bounds(a.drop_first(), b.drop_first());
    }
}

proof fn lemma_lcp_at(a: Seq<SemanticToken>, b: Seq<SemanticToken>, p: int)
    requires
        0 <= p <= a.len(),
        p <= b.len(),
        forall|k: int| 0 <= k < p ==> a[k] == b[k],
        p == a.len() || p == b.len() || a[p] != b[p],
    ensures
        spec_lcp(a, b) == p,
    decreases p,
{
    if p == 0 {
    } else {
        assert(a[0] == b[0]);
        let at = a.drop_first();
        let bt = b.drop_first();
        assert(forall|k: int| 0 <= k < at.len() ==> at[k] == a[k + 1]);
        assert(forall|k: int| 0 <= k < bt.len() ==> bt[k] == b[k + 1]);
        lemma_lcp_at(at, bt, p - 1);
    }
}

/// `b` extends `a` by a pure insertion after the common prefix.
pub open spec fn spec_insert_case(a: Seq<SemanticToken>, b: Seq<SemanticToken>) -> bool {
    a.len() < b.len() && a.skip(spec_lcp(a, b)) == b.skip(spec_lcp(a, b) + (b.len() - a.len()))
}

/// `b` shortens `a` by a pure deletion after the common prefix.
pub open spec fn spec_delete_case(a: Seq<SemanticToken>, b: Seq<SemanticToken>) -> bool {
    b.len() < a.len() && a.skip(spec_lcp(a, b) + (a.len() - b.len())) == b.skip(spec_lcp(a, b))
}

/// The edit `diff` answers for streams `a`, `b`: it starts at their
/// longest common prefix; it is a pure insertion when `b` appends after
/// the prefix, a pure deletion when `b` removes there, and a rewrite of
/// the whole remaining tail otherwise; applying it to `a` yields `b`.
pub open spec fn spec_diff_edit(
    a: Seq<SemanticToken>,
    b: Seq<SemanticToken>,
    e: SemanticTokensEdit,
) -> bool {
    let p = spec_lcp(a, b);
    &&& e.start == p
    &&& e.start + e.delete_count <= a.len()
    &&& spec_apply_edit(a, e) == b
    &&& (spec_insert_case(a, b) ==> e.delete_count == 0 && e.data@ == b.subrange(
        p,
        p + (b.len() - a.len()),
    ))
    &&& (spec_delete_case(a, b) ==> e.delete_count == a.len() - b.len() && e.data@
        == Seq::<SemanticToken>::empty())
    &&& (!spec_insert_case(a, b) && !spec_delete_case(a, b) ==> e.delete_count == a.len() - p
        && e.data@ == b.skip(p))
}

fn sem_tok_eq(a: SemanticToken, b: SemanticToken) -> (r: bool)
    ensures
        r == (a == b),
{
    a == b
}

fn copy_range(v: &Vec<SemanticToken>, from: usize, to: usize) -> (r: Vec<SemanticToken>)
    requires
        from <= to <= v@.len(),
    ensures
        r@ == v@.subrange(from as int, to as int),
{
    let mut out: Vec<SemanticToken> = Vec::new();
    let mut i: usize = from;
    while i < to
        invariant
            from <= i <= to <= v@.len(),
            out@ =~= v@.subrange(from as int, i as int),
        decreases to - i,
    {
        out.push(v[i]);
        proof {
            assert(out@ =~= v@.subrange(from as int, i + 1));
        }
        i += 1;
    }
    out
}

/// The last published token stream of one document, the baseline for
/// delta requests.
pub struct FileState {
    pub state: Vec<SemanticToken>,
}

impl FileState {
    /// The edit script from this stream to `new`: a longest-common-prefix
    /// match, recognizing a pure insertion or a pure deletion after the
    /// prefix, with a tail rewrite as the general case. Applying the edit
    /// to this stream yields `new` exactly.
    pub fn diff(&self, new: &FileState) -> (r: Vec<SemanticTokensEdit>)
        requires
            self.state@.len() <= 0xFFFF_FFFF,
            new.state@.len() <= 0xFFFF_FFFF,
        ensures
            r@.len() == 1,
            spec_diff_edit(self.state@, new.state@, r@[0]),
    {
        let a = &self.state;
        let b = &new.state;
        let min: usize = if a.len() < b.len() {
            a.len()
        } else {
            b.len()
        };
        let mut p: usize = 0;
        while p < min && sem_tok_eq(a[p], b[p])
            invariant
                0 <= p <= min,
                min == if a@.len() < b@.len() {
                    a@.len()
                } else {
                    b@.len()
                },
                forall|k: int| 0 <= k < p ==> a@[k] == b@[k],
            decreases min - p,
        {
            p += 1;
        }
        proof {
            lemma_lcp_at(a@, b@, p as int);
        }
        if a.len() < b.len() {
            let d: usize = b.len() - a.len();
            let mut k: usize = p;
            let mut same = true;
            while k < a.len()
                invariant
                    p <= k <= a@.len(),
                    a@.len() < b@.len(),
                    b@.len() <= 0xFFFF_FFFF,
                    d == b@.len() - a@.len(),
                    same ==> forall|j: int| p <= j < k ==> a@[j] == b@[j + d],
                    !same ==> exists|j: int| p <= j < k && a@[j] != b@[j + d],
                decreases a@.len() - k,
            {
                proof {
                    assert(k + d < b@.len());
                }
                let ea = a[k];
                let eb = b[k + d];
                if !(ea == eb) {
                    same = false;
                    proof {
                        assert(a@[k as int] != b@[k + d]);
                    }
                }
                k += 1;
            }
            if same {
                proof {
                    assert(a@.skip(p as int) =~= b@.skip(p + d));
                }
                let data = copy_range(b, p, p + d);
                let e = SemanticTokensEdit { start: p as u32, delete_count: 0, data };
                let mut r: Vec<SemanticTokensEdit> = Vec::new();
                proof {
                    assert(a@.take(p as int) + e.data@ + a@.skip(p as int) =~= b@);
                }
                r.push(e);
                return r;
            }
            proof {
                // a mismatch witnesses that this is no pure insertion
                let j = choose|j: int| p <= j < a@.len() && a@[j] != b@[j + d];
                assert(a@.skip(p as int)[j - p] != b@.skip(p + d)[j - p]);
                assert(!spec_insert_case(a@, b@));
            }
        } else if a.len() > b.len() {
            let d: usize = a.len() - b.len();
            let mut k: usize = p;
            let mut same = true;
            while k < b.len()
                invariant
                    p <= k <= b@.len(),
                    b@.len() < a@.len(),
                    a@.len() <= 0xFFFF_FFFF,
                    d == a@.len() - b@.len(),
                    same ==> forall|j: int| p <= j < k ==> a@[j + d] == b@[j],
                    !same ==> exists|j: int| p <= j < k && a@[j + d] != b@[j],
                decreases b@.len() - k,
            {
                proof {
                    assert(k + d < a@.len());
                }
                let ea = a[k + d];
                let eb = b[k];
                if !(ea == eb) {
                    same = false;
                    proof {
                        assert(a@[k + d] != b@[k as int]);
                    }
                }
                k += 1;
            }
            if same {
                proof {
                    assert(a@.skip(p + d) =~= b@.skip(p as int));
                }
                let e = SemanticTokensEdit {
                    start: p as u32,
                    delete_count: d as u32,
                    data: Vec::new(),
                };
                let mut r: Vec<SemanticTokensEdit> = Vec::new();
                proof {
                    assert(e.data@ =~= Seq::<SemanticToken>::empty());
                    assert(a@.take(p as int) + e.data@ + a@.skip(p + d) =~= b@);
                }
                r.push(e);
                return r;
            }
            proof {
                // a mismatch witnesses that this is no pure deletion
                let j = choose|j: int| p <= j < b@.len() && a@[j + d] != b@[j];
                assert(a@.skip(p + d)[j - p] != b@.skip(p as int)[j - p]);
                assert(!spec_delete_case(a@, b@));
            }
        }
        let data = copy_range(b, p, b.len());
        let e = SemanticTokensEdit {
            start: p as u32,
            delete_count: (a.len() - p) as u32,
            data,
        };
        let mut r: Vec<SemanticTokensEdit> = Vec::new();
        proof {
            assert(!spec_insert_case(a@, b@) && !spec_delete_case(a@, b@));
            assert(e.data@ =~= b@.skip(p as int));
            assert(a@.skip(p + (a@.len() - p)) =~= Seq::<SemanticToken>::empty());
            assert(a@.take(p as int) + e.data@ + a@.skip(p + (a@.len() - p)) =~= b@);
        }
        r.push(e);
        r
    }
}

} // verus!

verus! {

broadcast use vstd::std_specs::hash::group_hash_axioms;

/// The UTF-16 length of every line, the table delta encoding reads.
pub open spec fn spec_line_lens(lines: Seq<Seq<char>>) -> Seq<u32> {
    Seq::new(lines.len(), |i: int| utf16_len(lines[i]) as u32)
}

/// `stream` is a faithful encoding of the captures of a document: some
/// ordering of their absolute tokens, deduplicated, overlap-filtered and
/// delta-encoded against the document's lines.
/// The normalized token list of a capture set: its absolute tokens,
/// stably sorted by start position, deduplicated and overlap-filtered.
pub open spec fn spec_norm(cs: Seq<Capture>, text: Seq<char>) -> Seq<AbsToken> {
    spec_filter_from(spec_dedup(spec_sort(spec_all_tokens(cs, spec_lines(text)))), None)
}

/// Every adjacent pair admits the encoder's column delta.
pub open spec fn same_line_all(s: Seq<AbsToken>) -> bool {
    forall|i: int| 0 <= i < s.len() - 1 ==> same_line_ok(#[trigger] s[i], s[i + 1])
}

/// The one token stream of a capture set against a text: its normalized
/// tokens, delta-encoded against the text's lines. Equal inputs yield
/// equal streams.
pub open spec fn spec_stream(cs: Seq<Capture>, text: Seq<char>) -> Seq<SemanticToken> {
    spec_encode(spec_norm(cs, text), spec_line_lens(spec_lines(text)))
}

/// `stream` is the faithful encoding of the captures of a document, and
/// the normalized tokens met every encoder precondition.
pub open spec fn stream_of(stream: Seq<SemanticToken>, cs: Seq<Capture>, text: Seq<char>) -> bool {
    &&& stream == spec_stream(cs, text)
    &&& encode_ok(spec_norm(cs, text), spec_line_lens(spec_lines(text)))
}

proof fn lemma_encode_single_len(toks: Seq<AbsToken>, last: Option<AbsToken>, lens: Seq<u32>)
    requires
        all_single_line(toks),
    ensures
        spec_encode_from(toks, last, lens).len() == toks.len(),
    decreases toks.len(),
{
    if toks.len() > 0 {
        assert(all_single_line(toks.drop_first())) by {
            assert(forall|i: int|
                0 <= i < toks.drop_first().len() ==> toks.drop_first()[i] == toks[i + 1]);
        }
        lemma_encode_single_len(toks.drop_first(), Some(toks[0]), lens);
        assert(spec_tok_entries(toks[0], last, lens).len() == 1);
    }
}

impl FileState {
    /// Computes the full token stream of a document from its highlight
    /// captures: `Some` exactly when the normalized tokens admit the
    /// delta encoding and the stream fits the protocol counters; a
    /// document whose tokens all sit on single rows always encodes.
    pub fn new(captures: &Vec<Capture>, source: &Rope) -> (r: Option<FileState>)
        requires
            rope_text(*source).len() <= MAX_TEXT_LEN,
            valid_captures(captures@, spec_lines(rope_text(*source))),
        ensures
            r is Some <==> (same_line_all(spec_norm(captures@, rope_text(*source)))
                && spec_stream(captures@, rope_text(*source)).len() <= 0xFFFF_FFFF),
            match r {
                Some(fs) => fs.state@.len() <= 0xFFFF_FFFF && stream_of(
                    fs.state@,
                    captures@,
                    rope_text(*source),
                ),
                None => true,
            },
            all_single_line(spec_all_tokens(captures@, spec_lines(rope_text(*source))))
                && spec_all_tokens(captures@, spec_lines(rope_text(*source))).len()
                <= 0xFFFF_FFFF ==> r is Some,
    {
        let ghost text = rope_text(*source);
        let ghost lines = spec_lines(text);
        let ghost all = spec_all_tokens(captures@, lines);
        let chars = rope_chars(source);
        let idx = LineIndex::build(&chars);
        proof {
            idx.lemma_wf_ok(text);
        }
        let toks = abs_tokens(captures, &idx);
        let sorted = sort_tokens(toks);
        let ghost s = sorted@;
        let dd = dedup_tokens(sorted);
        let filtered = filter_tokens(dd);
        let ghost f = filtered@;
        proof {
            assert(f == spec_norm(captures@, text));
            lemma_dedup_props(s);
            lemma_filter_props(dd@, None);
            assert(idx.u16len@ =~= spec_line_lens(lines)) by {
                assert forall|i: int| 0 <= i < lines.len() implies idx.u16len@[i]
                    == spec_line_lens(lines)[i] by {
                    lemma_utf16_len_bounds(lines[i]);
                }
            }
            assert forall|i: int| 0 <= i < f.len() implies tok_wf(#[trigger] f[i], idx.u16len@)
                && (all_single_line(all) ==> f[i].range.start.line == f[i].range.end.line) by {
                let j = choose|j: int| 0 <= j < dd@.len() && dd@[j] == f[i];
                let k = choose|k: int| 0 <= k < s.len() && s[k] == dd@[j];
                assert(tok_wf(s[k], idx.u16len@));
                if all_single_line(all) {
                    vstd::seq_lib::to_multiset_len(s);
                    vstd::seq_lib::to_multiset_len(all);
                    vstd::seq_lib::to_multiset_contains(all, s[k]);
                    vstd::seq_lib::to_multiset_contains(s, s[k]);
                    assert(s.contains(s[k]));
                    assert(all.contains(s[k]));
                    let m = choose|m: int| 0 <= m < all.len() && all[m] == s[k];
                    assert(all[m].range.start.line == all[m].range.end.line);
                }
            }
        }
        if !check_same_line(&filtered) {
            proof {
                if all_single_line(all) {
                    assert(all_single_line(f));
                    lemma_single_line_encodable(f, idx.u16len@);
                }
            }
            return None;
        }
        let out = encode_tokens(&filtered, &idx.u16len);
        proof {
            if all_single_line(all) {
                assert(all_single_line(f));
                lemma_encode_single_len(f, None, idx.u16len@);
                vstd::seq_lib::to_multiset_len(s);
                vstd::seq_lib::to_multiset_len(all);
            }
        }
        if out.len() as u64 > 0xFFFF_FFFFu64 {
            return None;
        }
        proof {
            assert(out@ == spec_stream(captures@, text));
            assert(encode_ok(spec_norm(captures@, text), spec_line_lens(lines)));
        }
        Some(FileState { state: out })
    }
}

/// The engine's cache: the last published stream per document.
pub struct State {
    pub files: vstd::hash_map::HashMapWithView<u64, FileState>,
}

impl State {
    /// Every cached stream fits the protocol's u32 counters.
    pub open spec fn wf(self) -> bool {
        forall|fid: u64|
            self.files@.contains_key(fid) ==> #[trigger] self.files@[fid].state@.len()
                <= 0xFFFF_FFFF
    }

    pub fn new() -> (r: State)
        ensures
            r.wf(),
            r.files@ == Map::<u64, FileState>::empty(),
    {
        State { files: vstd::hash_map::HashMapWithView::new() }
    }

    /// Serves a full-tokens request: computes the stream, installs it as
    /// the new baseline, and returns it.
    pub fn get(&mut self, fid: u64, captures: &Vec<Capture>, source: &Rope) -> (r: Option<
        Vec<SemanticToken>,
    >)
        requires
            old(self).wf(),
            rope_text(*source).len() <= MAX_TEXT_LEN,
            valid_captures(captures@, spec_lines(rope_text(*source))),
        ensures
            final(self).wf(),
            r is Some <==> (same_line_all(spec_norm(captures@, rope_text(*source)))
                && spec_stream(captures@, rope_text(*source)).len() <= 0xFFFF_FFFF),
            match r {
                Some(toks) => {
                    &&& stream_of(toks@, captures@, rope_text(*source))
                    &&& final(self).files@.contains_key(fid)
                    &&& final(self).files@[fid].state@ == toks@
                    &&& final(self).files@
                        == old(self).files@.insert(fid, final(self).files@[fid])
                },
                None => *final(self) == *old(self),
            },
            all_single_line(spec_all_tokens(captures@, spec_lines(rope_text(*source))))
                && spec_all_tokens(captures@, spec_lines(rope_text(*source))).len()
                <= 0xFFFF_FFFF ==> r is Some,
    {
        match FileState::new(captures, source) {
            Some(fs) => {
                let out = copy_range(&fs.state, 0, fs.state.len());
                proof {
                    assert(out@ =~= fs.state@);
                }
                self.files.insert(fid, fs);
                Some(out)
            },
            None => None,
        }
    }

    /// Serves a delta request: with a cached baseline, answers an edit
    /// script whose application to the baseline yields the new stream;
    /// without one, answers the full stream. Either way the new stream
    /// becomes the baseline.
    pub fn delta(&mut self, fid: u64, captures: &Vec<Capture>, source: &Rope) -> (r: Option<
        TokensDeltaResult,
    >)
        requires
            old(self).wf(),
            rope_text(*source).len() <= MAX_TEXT_LEN,
            valid_captures(captures@, spec_lines(rope_text(*source))),
        ensures
            final(self).wf(),
            r is Some <==> (same_line_all(spec_norm(captures@, rope_text(*source)))
                && spec_stream(captures@, rope_text(*source)).len() <= 0xFFFF_FFFF),
            match r {
                Some(res) => {
                    &&& final(self).files@.contains_key(fid)
                    &&& stream_of(final(self).files@[fid].state@, captures@, rope_text(*source))
                    &&& final(self).files@
                        == old(self).files@.insert(fid, final(self).files@[fid])
                    &&& match res {
                        TokensDeltaResult::TokensDelta(edits) => {
                            &&& old(self).files@.contains_key(fid)
                            &&& edits@.len() == 1
                            &&& spec_diff_edit(
                                old(self).files@[fid].state@,
                                final(self).files@[fid].state@,
                                edits@[0],
                            )
                        },
                        TokensDeltaResult::Tokens(toks) => {
                            &&& !old(self).files@.contains_key(fid)
                            &&& toks@ == final(self).files@[fid].state@
                        },
                    }
                },
                None => *final(self) == *old(self),
            },
            all_single_line(spec_all_tokens(captures@, spec_lines(rope_text(*source))))
                && spec_all_tokens(captures@, spec_lines(rope_text(*source))).len()
                <= 0xFFFF_FFFF ==> r is Some,
    {
        match FileState::new(captures, source) {
            Some(fs) => {
                let had = self.files.get(&fid);
                match had {
                    Some(old_state) => {
                        let edits = old_state.diff(&fs);
                        self.files.insert(fid, fs);
                        Some(TokensDeltaResult::TokensDelta(edits))
                    },
                    None => {
                        let out = copy_range(&fs.state, 0, fs.state.len());
                        proof {
                            assert(out@ =~= fs.state@);
                        }
                        self.files.insert(fid, fs);
                        Some(TokensDeltaResult::Tokens(out))
                    },
                }
            },
            None => None,
        }
    }
}

} // verus!

