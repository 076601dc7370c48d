//! Protocol-level data: positions and ranges in UTF-16 coordinates,
//! semantic-token records, edits, and the fixed token-kind table.

use vstd::prelude::*;

verus! {

/// A position in a document: zero-based row and UTF-16 column.
#[derive(Clone, Copy, Debug, PartialEq, Eq, Structural)]
pub struct Position {
    pub line: u32,
    pub character: u32,
}

/// A half-open range between two positions.
#[derive(Clone, Copy, Debug, PartialEq, Eq, Structural)]
pub struct Range {
    pub start: Position,
    pub end: Position,
}

/// An absolute-coordinate semantic token: a range plus a token-kind index.
#[derive(Clone, Copy, Debug, PartialEq, Eq, Structural)]
pub struct AbsToken {
    pub range: Range,
    pub kind: u32,
}

/// One delta-encoded semantic-token record, as the protocol carries it.
#[derive(Clone, Copy, Debug, PartialEq, Eq, Structural)]
pub struct SemanticToken {
    pub delta_line: u32,
    pub delta_start: u32,
    pub length: u32,
    pub token_type: u32,
    pub token_modifiers_bitset: u32,
}

/// One edit of a token-stream delta: replace `delete_count` records at
/// `start` by `data`.
#[derive(Clone, Debug, PartialEq, Eq)]
pub struct SemanticTokensEdit {
    pub start: u32,
    pub delete_count: u32,
    pub data: Vec<SemanticToken>,
}

/// Answer to a delta request: either a full stream or an edit script.
pub enum TokensDeltaResult {
    Tokens(Vec<SemanticToken>),
    TokensDelta(Vec<SemanticTokensEdit>),
}

pub open spec fn pos_le(a: Position, b: Position) -> bool {
    a.line < b.line || (a.line == b.line && a.character <= b.character)
}

pub open spec fn pos_lt(a: Position, b: Position) -> bool {
    a.line < b.line || (a.line == b.line && a.character < b.character)
}

/// The number of token kinds of the legend.
pub const TOKEN_KIND_COUNT: usize = 11;

/// Kind index of `enumMember` tokens.
pub const KIND_ENUM_MEMBER: u32 = 3;

/// Kind index of `parameter` tokens.
pub const KIND_PARAMETER: u32 = 10;

/// The kind index of a capture name; unrecognized names map to 0.
pub open spec fn spec_token_index(name: Seq<char>) -> u32 {
    if name == "keyword"@ {
        0
    } else if name == "operator"@ {
        1
    } else if name == "namespace"@ {
        2
    } else if name == "enumMember"@ {
        3
    } else if name == "class"@ {
        4
    } else if name == "comment"@ {
        5
    } else if name == "enum"@ {
        6
    } else if name == "interface"@ {
        7
    } else if name == "function"@ {
        8
    } else if name == "macro"@ {
        9
    } else if name == "parameter"@ {
        10
    } else {
        0
    }
}

pub fn token_index(name: &str) -> (r: u32)
    ensures
        r == spec_token_index(name@),
        r < TOKEN_KIND_COUNT,
{
    let n = name.to_owned();
    if n == "keyword".to_owned() {
        0
    } else if n == "operator".to_owned() {
        1
    } else if n == "namespace".to_owned() {
        2
    } else if n == "enumMember".to_owned() {
        3
    } else if n == "class".to_owned() {
        4
    } else if n == "comment".to_owned() {
        5
    } else if n == "enum".to_owned() {
        6
    } else if n == "interface".to_owned() {
        7
    } else if n == "function".to_owned() {
        8
    } else if n == "macro".to_owned() {
        9
    } else if n == "parameter".to_owned() {
        10
    } else {
        0
    }
}

/// The token legend, in protocol order: the index of a name in this table
/// is its kind index.
pub fn token_types() -> (r: Vec<String>)
    ensures
        r@.len() == TOKEN_KIND_COUNT,
        r@[0]@ == "keyword"@,
        forall|i: int| 0 <= i < r@.len() ==> spec_token_index(#[trigger] r@[i]@) == i,
{
    proof {
        reveal_strlit("keyword");
        reveal_strlit("operator");
        reveal_strlit("namespace");
        reveal_strlit("enumMember");
        reveal_strlit("class");
        reveal_strlit("comment");
        reveal_strlit("enum");
        reveal_strlit("interface");
        reveal_strlit("function");
        reveal_strlit("macro");
        reveal_strlit("parameter");
    }
    let mut v: Vec<String> = Vec::new();
    v.push("keyword".to_owned());
    v.push("operator".to_owned());
    v.push("namespace".to_owned());
    v.push("enumMember".to_owned());
    v.push("class".to_owned());
    v.push("comment".to_owned());
    v.push("enum".to_owned());
    v.push("interface".to_owned());
    v.push("function".to_owned());
    v.push("macro".to_owned());
    v.push("parameter".to_owned());
    proof {
        assert("keyword"@.len() == 7);
        assert("operator"@.len() == 8);
        assert("namespace"@.len() == 9);
        assert("enumMember"@.len() == 10);
        assert("class"@.len() == 5);
        assert("comment"@.len() == 7);
        assert("enum"@.len() == 4);
        assert("interface"@.len() == 9);
        assert("function"@.len() == 8);
        assert("macro"@.len() == 5);
        assert("parameter"@.len() == 9);
        assert("comment"@[0] != "keyword"@[0]);
        assert("function"@[0] != "operator"@[0]);
        assert("interface"@[0] != "namespace"@[0]);
        assert("macro"@[0] != "class"@[0]);
        assert("parameter"@[0] != "namespace"@[0]);
        assert("parameter"@[0] != "interface"@[0]);
        assert(spec_token_index(v@[0]@) == 0);
        assert(spec_token_index(v@[1]@) == 1);
        assert(spec_token_index(v@[2]@) == 2);
        assert(spec_token_index(v@[3]@) == 3);
        assert(spec_token_index(v@[4]@) == 4);
        assert(spec_token_index(v@[5]@) == 5);
        assert(spec_token_index(v@[6]@) == 6);
        assert(spec_token_index(v@[7]@) == 7);
        assert(spec_token_index(v@[8]@) == 8);
        assert(spec_token_index(v@[9]@) == 9);
        assert(spec_token_index(v@[10]@) == 10);
    }
    v
}

} // verus!
