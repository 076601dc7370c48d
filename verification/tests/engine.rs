//! Tests of the semantic-token engine: full streams, deltas, UTF-16
//! columns, dotted-path classification, and normalization.

use ropey::Rope;
use uvls::color::{validate_captures, Capture, CompletionEnv, PathInfo, PathSpan, Point, Section, State};
use uvls::lsp::{token_index, token_types, SemanticToken, TokensDeltaResult};

fn tok(dl: u32, ds: u32, len: u32, ty: u32) -> SemanticToken {
    SemanticToken {
        delta_line: dl,
        delta_start: ds,
        length: len,
        token_type: ty,
        token_modifiers_bitset: 0,
    }
}

fn plain(name: &str, sr: u32, sc: u32, er: u32, ec: u32) -> Capture {
    Capture {
        name: name.to_string(),
        start: Point { row: sr, column: sc },
        end: Point { row: er, column: ec },
        path: None,
    }
}

fn decode(stream: &[SemanticToken]) -> Vec<(u32, u32, u32, u32)> {
    let mut line = 0u32;
    let mut col = 0u32;
    let mut out = Vec::new();
    for e in stream {
        line += e.delta_line;
        col = if e.delta_line == 0 { col + e.delta_start } else { e.delta_start };
        out.push((line, col, col + e.length, e.token_type));
    }
    out
}

fn apply_edits(
    a: &[SemanticToken],
    r: &TokensDeltaResult,
) -> Vec<SemanticToken> {
    match r {
        TokensDeltaResult::Tokens(b) => b.clone(),
        TokensDeltaResult::TokensDelta(edits) => {
            let mut out = a.to_vec();
            for e in edits {
                let start = e.start as usize;
                let del = e.delete_count as usize;
                let mut next = Vec::new();
                next.extend_from_slice(&out[..start]);
                next.extend_from_slice(&e.data);
                next.extend_from_slice(&out[start + del..]);
                out = next;
            }
            out
        }
    }
}

#[test]
fn token_legend_order() {
    let names = token_types();
    assert_eq!(names.len(), 11);
    assert_eq!(names[0], "keyword");
    assert_eq!(names[10], "parameter");
    for (i, n) in names.iter().enumerate() {
        assert_eq!(token_index(n) as usize, i);
    }
    assert_eq!(token_index("enumMember"), 3);
    assert_eq!(token_index("no_such_capture"), 0);
}

#[test]
fn ascii_fast_path_full_tokens() {
    // S2: with only ASCII every range equals the parser's (row, column).
    let rope = Rope::from_str("features\n  A");
    let caps = vec![plain("keyword", 0, 0, 0, 8), plain("class", 1, 2, 1, 3)];
    let mut st = State::new();
    let toks = st.get(1, &caps, &rope).expect("encodes");
    assert_eq!(toks, vec![tok(0, 0, 8, 0), tok(1, 2, 1, 4)]);
    assert_eq!(decode(&toks), vec![(0, 0, 8, 0), (1, 2, 3, 4)]);
}

#[test]
fn delta_append_at_tail() {
    // S1: inserting a line appends its tokens at the tail of the stream.
    let rope1 = Rope::from_str("features\n  A");
    let caps1 = vec![plain("keyword", 0, 0, 0, 8), plain("class", 1, 2, 1, 3)];
    let mut st = State::new();
    let a = st.get(1, &caps1, &rope1).expect("encodes");

    let rope2 = Rope::from_str("features\n  A\n  B");
    let mut caps2 = caps1.clone();
    caps2.push(plain("class", 2, 2, 2, 3));
    let res = st.delta(1, &caps2, &rope2).expect("encodes");
    match &res {
        TokensDeltaResult::TokensDelta(edits) => {
            assert_eq!(edits.len(), 1);
            assert_eq!(edits[0].start, 2);
            assert_eq!(edits[0].delete_count, 0);
            assert_eq!(edits[0].data, vec![tok(1, 2, 1, 4)]);
        }
        TokensDeltaResult::Tokens(_) => panic!("expected a delta"),
    }
    let mut fresh = State::new();
    let b = fresh.get(1, &caps2, &rope2).expect("encodes");
    assert_eq!(apply_edits(&a, &res), b);
}

#[test]
fn delta_deletion() {
    let rope1 = Rope::from_str("features\n  A");
    let caps1 = vec![plain("keyword", 0, 0, 0, 8), plain("class", 1, 2, 1, 3)];
    let mut st = State::new();
    let a = st.get(1, &caps1, &rope1).expect("encodes");
    let caps2 = vec![plain("keyword", 0, 0, 0, 8)];
    let res = st.delta(1, &caps2, &rope1).expect("encodes");
    match &res {
        TokensDeltaResult::TokensDelta(edits) => {
            assert_eq!(edits.len(), 1);
            assert_eq!(edits[0].start, 1);
            assert_eq!(edits[0].delete_count, 1);
            assert!(edits[0].data.is_empty());
        }
        TokensDeltaResult::Tokens(_) => panic!("expected a delta"),
    }
    assert_eq!(apply_edits(&a, &res), vec![tok(0, 0, 8, 0)]);
}

#[test]
fn delta_rewrite_tail() {
    // P3 fallback case: a changed token rewrites the tail after the
    // common prefix.
    let rope = Rope::from_str("features\n  A");
    let caps1 = vec![plain("keyword", 0, 0, 0, 8), plain("class", 1, 2, 1, 3)];
    let mut st = State::new();
    let a = st.get(1, &caps1, &rope).expect("encodes");
    let caps2 = vec![plain("keyword", 0, 0, 0, 8), plain("macro", 1, 2, 1, 3)];
    let res = st.delta(1, &caps2, &rope).expect("encodes");
    let mut fresh = State::new();
    let b = fresh.get(1, &caps2, &rope).expect("encodes");
    assert_eq!(apply_edits(&a, &res), b);
}

#[test]
fn delta_without_baseline_returns_full() {
    let rope = Rope::from_str("features");
    let caps = vec![plain("keyword", 0, 0, 0, 8)];
    let mut st = State::new();
    match st.delta(7, &caps, &rope).expect("encodes") {
        TokensDeltaResult::Tokens(toks) => assert_eq!(toks, vec![tok(0, 0, 8, 0)]),
        TokensDeltaResult::TokensDelta(_) => panic!("no baseline, expected full tokens"),
    }
}

#[test]
fn wide_char_utf16_column() {
    // S3: a token starting right after a snowman on row 3 starts at
    // UTF-16 column 3, although its byte column is 5.
    let rope = Rope::from_str("a\nb\nc\n//\u{2603}x");
    let caps = vec![plain("keyword", 3, 5, 3, 6)];
    let mut st = State::new();
    let toks = st.get(1, &caps, &rope).expect("encodes");
    assert_eq!(toks, vec![tok(3, 3, 1, 0)]);
}

#[test]
fn dotted_path_all_values() {
    // S4: with every owner a value, all three segments are enumMember.
    let rope = Rope::from_str("a.b.c");
    let caps = vec![Capture {
        name: "some_path".to_string(),
        start: Point { row: 0, column: 0 },
        end: Point { row: 0, column: 5 },
        path: Some(PathInfo {
            section: Section::Constraints,
            env: CompletionEnv::Numeric,
            spans: vec![
                PathSpan { start: Point { row: 0, column: 0 }, end: Point { row: 0, column: 1 } },
                PathSpan { start: Point { row: 0, column: 2 }, end: Point { row: 0, column: 3 } },
                PathSpan { start: Point { row: 0, column: 4 }, end: Point { row: 0, column: 5 } },
            ],
            resolved: Some(vec![true, true]),
        }),
    }];
    let mut st = State::new();
    let toks = st.get(1, &caps, &rope).expect("encodes");
    assert_eq!(toks, vec![tok(0, 0, 1, 3), tok(0, 2, 1, 3), tok(0, 2, 1, 3)]);
}

#[test]
fn dotted_path_non_value_owner() {
    // S4: with the first owner not a value, only the deepest segment
    // stays enumMember; the rest fall back to parameter.
    let rope = Rope::from_str("a.b.c");
    let caps = vec![Capture {
        name: "some_path".to_string(),
        start: Point { row: 0, column: 0 },
        end: Point { row: 0, column: 5 },
        path: Some(PathInfo {
            section: Section::Constraints,
            env: CompletionEnv::Numeric,
            spans: vec![
                PathSpan { start: Point { row: 0, column: 0 }, end: Point { row: 0, column: 1 } },
                PathSpan { start: Point { row: 0, column: 2 }, end: Point { row: 0, column: 3 } },
                PathSpan { start: Point { row: 0, column: 4 }, end: Point { row: 0, column: 5 } },
            ],
            resolved: Some(vec![false]),
        }),
    }];
    let mut st = State::new();
    let toks = st.get(1, &caps, &rope).expect("encodes");
    // left to right: parameter, parameter, enumMember
    assert_eq!(toks, vec![tok(0, 0, 1, 10), tok(0, 2, 1, 10), tok(0, 2, 1, 3)]);
}

#[test]
fn unresolved_path_is_single_parameter() {
    let rope = Rope::from_str("a.b.c");
    let caps = vec![Capture {
        name: "some_path".to_string(),
        start: Point { row: 0, column: 0 },
        end: Point { row: 0, column: 5 },
        path: Some(PathInfo {
            section: Section::Constraints,
            env: CompletionEnv::Numeric,
            spans: Vec::new(),
            resolved: None,
        }),
    }];
    let mut st = State::new();
    let toks = st.get(1, &caps, &rope).expect("encodes");
    assert_eq!(toks, vec![tok(0, 0, 5, 10)]);
}

#[test]
fn path_outside_constraints_is_parameter() {
    let rope = Rope::from_str("a.b.c");
    let caps = vec![Capture {
        name: "some_path".to_string(),
        start: Point { row: 0, column: 0 },
        end: Point { row: 0, column: 5 },
        path: Some(PathInfo {
            section: Section::Other,
            env: CompletionEnv::Other,
            spans: Vec::new(),
            resolved: None,
        }),
    }];
    let mut st = State::new();
    let toks = st.get(1, &caps, &rope).expect("encodes");
    assert_eq!(toks, vec![tok(0, 0, 5, 10)]);
}

#[test]
fn overlapping_token_suppressed() {
    let rope = Rope::from_str("abcdef");
    let caps = vec![plain("keyword", 0, 0, 0, 5), plain("class", 0, 3, 0, 4)];
    let mut st = State::new();
    let toks = st.get(1, &caps, &rope).expect("encodes");
    assert_eq!(toks, vec![tok(0, 0, 5, 0)]);
}

#[test]
fn duplicate_tokens_deduplicated() {
    let rope = Rope::from_str("abcdef");
    let caps = vec![plain("keyword", 0, 0, 0, 5), plain("keyword", 0, 0, 0, 5)];
    let mut st = State::new();
    let toks = st.get(1, &caps, &rope).expect("encodes");
    assert_eq!(toks, vec![tok(0, 0, 5, 0)]);
}

#[test]
fn multiline_token_splits_per_row() {
    let rope = Rope::from_str("abc\ndef\nghi");
    let caps = vec![plain("comment", 0, 1, 2, 2)];
    let mut st = State::new();
    let toks = st.get(1, &caps, &rope).expect("encodes");
    // first row to its end (incl. newline), one fully covered row, then
    // the final row up to the end column
    assert_eq!(toks, vec![tok(0, 1, 3, 5), tok(1, 0, 4, 5), tok(1, 0, 2, 5)]);
}

#[test]
fn backward_step_after_multiline_refused() {
    // A token on the end row of a multi-line token, left of its start
    // column, admits no delta encoding: the engine reports failure
    // instead of publishing a wrong stream.
    let rope = Rope::from_str("abcdef\nxy");
    let caps = vec![plain("comment", 0, 5, 1, 0), plain("keyword", 1, 0, 1, 1)];
    let mut st = State::new();
    assert!(st.get(1, &caps, &rope).is_none());
}

#[test]
fn decoded_stream_is_ordered_and_disjoint() {
    // P4 on a concrete stream: decoding yields ranges in order of start
    // position, and none begins before its predecessor ends.
    let rope = Rope::from_str("features\n  A\n  B and C");
    let caps = vec![
        plain("keyword", 0, 0, 0, 8),
        plain("class", 1, 2, 1, 3),
        plain("class", 2, 2, 2, 3),
        plain("keyword", 2, 4, 2, 7),
        plain("class", 2, 8, 2, 9),
    ];
    let mut st = State::new();
    let toks = st.get(1, &caps, &rope).expect("encodes");
    let d = decode(&toks);
    for w in d.windows(2) {
        let (l0, _s0, e0, _) = w[0];
        let (l1, s1, _e1, _) = w[1];
        assert!(l0 < l1 || (l0 == l1 && e0 <= s1));
    }
}

#[test]
fn no_captures_yield_empty_stream() {
    let rope = Rope::from_str("features");
    let mut st = State::new();
    let toks = st.get(1, &Vec::new(), &rope).expect("encodes");
    assert!(toks.is_empty());
}

#[test]
fn multiline_stream_decodes_disjoint() {
    // P4 with a multi-line token: the decoded per-row segments keep
    // order and never overlap, and a follower on the end row decodes to
    // its true column when the multi-line token starts at column 0.
    let rope = Rope::from_str("abc\ndef");
    let caps = vec![plain("comment", 0, 0, 1, 2), plain("keyword", 1, 3, 1, 3)];
    let mut st = State::new();
    let toks = st.get(1, &caps, &rope).expect("encodes");
    // tail of row 0, head of row 1, then the follower at column 3
    assert_eq!(toks, vec![tok(0, 0, 4, 5), tok(1, 0, 2, 5), tok(0, 3, 0, 0)]);
    let d = decode(&toks);
    assert_eq!(d, vec![(0, 0, 4, 5), (1, 0, 2, 5), (1, 3, 3, 0)]);
    for w in d.windows(2) {
        let (l0, _s0, e0, _) = w[0];
        let (l1, s1, _e1, _) = w[1];
        assert!(l0 < l1 || (l0 == l1 && e0 <= s1));
    }
}

#[test]
fn capture_validation() {
    let rope = Rope::from_str("ab\n//\u{2603}x");
    // boundary-valid coordinates pass
    assert!(validate_captures(&vec![plain("keyword", 1, 5, 1, 6)], &rope));
    // a column inside the snowman's three UTF-8 bytes is no boundary
    assert!(!validate_captures(&vec![plain("keyword", 1, 3, 1, 4)], &rope));
    // a row past the end of the document
    assert!(!validate_captures(&vec![plain("keyword", 7, 0, 7, 1)], &rope));
    // a reversed range
    assert!(!validate_captures(&vec![plain("keyword", 0, 2, 0, 1)], &rope));
    // reversed path span inside an otherwise valid capture
    let bad_span = Capture {
        name: "some_path".to_string(),
        start: Point { row: 0, column: 0 },
        end: Point { row: 0, column: 2 },
        path: Some(PathInfo {
            section: Section::Constraints,
            env: CompletionEnv::Numeric,
            spans: vec![PathSpan {
                start: Point { row: 0, column: 2 },
                end: Point { row: 0, column: 1 },
            }],
            resolved: Some(vec![]),
        }),
    };
    assert!(!validate_captures(&vec![bad_span], &rope));
}
