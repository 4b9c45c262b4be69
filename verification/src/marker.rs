//! The closed set of placeholder markers recognized in template text, and
//! the spec-level description of how a marker occurrence looks in bytes.

use vstd::prelude::*;

verus! {

/// A placeholder marker embedded in template text. `Dry1` and `Dry2` name
/// the two auxiliary "dry" fragments of a host language; the other four
/// resolve directly to a field of a label. `Dry2` is currently exercised by
/// no template, but remains a defined capability.
#[derive(Clone, Copy, PartialEq, Eq, Structural, Debug)]
pub enum Marker {
    Id,
    Scope,
    List,
    Patterns,
    Dry1,
    Dry2,
}

/// The two-byte sentinel `@_` that introduces every marker.
pub open spec fn sentinel() -> Seq<u8> {
    seq![64u8, 95u8]
}

/// True when the sentinel `@_` occurs in `t` starting at position `i`.
pub open spec fn sentinel_at(t: Seq<u8>, i: int) -> bool {
    0 <= i && i + 2 <= t.len() && t[i] == 64u8 && t[i + 1] == 95u8
}

/// The keyword bytes that follow the sentinel for each marker
/// (`ID`, `SCOPE`, `LIST`, `PATTERNS`, `DRY_1`, `DRY_2`).
pub open spec fn keyword(m: Marker) -> Seq<u8> {
    match m {
        Marker::Id => seq![73u8, 68u8],
        Marker::Scope => seq![83u8, 67u8, 79u8, 80u8, 69u8],
        Marker::List => seq![76u8, 73u8, 83u8, 84u8],
        Marker::Patterns => seq![80u8, 65u8, 84u8, 84u8, 69u8, 82u8, 78u8, 83u8],
        Marker::Dry1 => seq![68u8, 82u8, 89u8, 95u8, 49u8],
        Marker::Dry2 => seq![68u8, 82u8, 89u8, 95u8, 50u8],
    }
}

/// Length of a marker's keyword.
pub open spec fn keyword_len(m: Marker) -> int {
    keyword(m).len() as int
}

/// The full byte text of a marker occurrence: sentinel followed by keyword.
pub open spec fn marker_text(m: Marker) -> Seq<u8> {
    sentinel() + keyword(m)
}

/// True when `m`'s keyword occurs in `t` starting at position `j`.
pub open spec fn keyword_matches_at(t: Seq<u8>, j: int, m: Marker) -> bool {
    0 <= j && j + keyword_len(m) <= t.len() && t.subrange(j, j + keyword_len(m)) == keyword(m)
}

/// Which marker's keyword follows position `j` of `t`, if any. The keywords
/// are tried in a fixed order; no keyword is a prefix of another, so at most
/// one can match.
pub open spec fn keyword_at(t: Seq<u8>, j: int) -> Option<Marker> {
    if keyword_matches_at(t, j, Marker::Id) {
        Some(Marker::Id)
    } else if keyword_matches_at(t, j, Marker::Scope) {
        Some(Marker::Scope)
    } else if keyword_matches_at(t, j, Marker::List) {
        Some(Marker::List)
    } else if keyword_matches_at(t, j, Marker::Patterns) {
        Some(Marker::Patterns)
    } else if keyword_matches_at(t, j, Marker::Dry1) {
        Some(Marker::Dry1)
    } else if keyword_matches_at(t, j, Marker::Dry2) {
        Some(Marker::Dry2)
    } else {
        None
    }
}

/// No keyword contains the `@` byte, so no sentinel can start inside a
/// marker occurrence past its first byte.
pub proof fn lemma_keyword_no_at_sign(m: Marker)
    ensures
        forall|k: int| 0 <= k < keyword_len(m) ==> keyword(m)[k] != 64u8,
{
}

} // verus!
