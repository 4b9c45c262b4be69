//! The marker tokenizer: splits raw template text into an ordered sequence
//! of (literal, marker) pairs plus one trailing literal.
//!
//! `spec_tokenize` is the mathematical description of the scan: find the
//! first sentinel, read the marker keyword after it, and continue behind the
//! keyword. The executable `tokenize` is proved to return exactly what
//! `spec_tokenize` says, and `lemma_tokenize_round_trip` shows that the
//! decomposition reassembles to the original text.

use vstd::prelude::*;

use crate::errors::TemplateErrorKind;
use crate::marker::{
    keyword, keyword_at, keyword_len, keyword_matches_at, lemma_keyword_no_at_sign, marker_text,
    sentinel_at, Marker,
};

verus! {

/// A tokenized template fragment: for each marker occurrence, the literal
/// text that precedes it, and after the last marker the trailing literal.
#[derive(Debug)]
pub struct Fragment {
    pub pairs: Vec<(Vec<u8>, Marker)>,
    pub trailing: Vec<u8>,
}

/// The mathematical model of a [`Fragment`]: the same shape over sequences.
#[verifier::ext_equal]
pub struct FragModel {
    pub pairs: Seq<(Seq<u8>, Marker)>,
    pub trailing: Seq<u8>,
}

/// Sequence view of a fragment's (literal, marker) pairs.
pub open spec fn pairs_view(ps: Seq<(Vec<u8>, Marker)>) -> Seq<(Seq<u8>, Marker)> {
    ps.map_values(|p: (Vec<u8>, Marker)| (p.0@, p.1))
}

impl View for Fragment {
    type V = FragModel;

    open spec fn view(&self) -> FragModel {
        FragModel { pairs: pairs_view(self.pairs@), trailing: self.trailing@ }
    }
}

/// Index of the first sentinel occurrence in `t`; when `t` has none, a
/// position within two bytes of the end (so that no marker can start there).
pub open spec fn first_sentinel_idx(t: Seq<u8>) -> int
    decreases t.len(),
{
    if sentinel_at(t, 0) {
        0
    } else if t.len() == 0 {
        0
    } else {
        1 + first_sentinel_idx(t.skip(1))
    }
}

/// What the tokenizer produces for `t`: `None` exactly when some sentinel is
/// not followed by a recognized keyword.
pub open spec fn spec_tokenize(t: Seq<u8>) -> Option<FragModel>
    decreases t.len(),
{
    let i = first_sentinel_idx(t);
    if i + 2 > t.len() {
        Some(FragModel { pairs: Seq::empty(), trailing: t })
    } else {
        match keyword_at(t, i + 2) {
            Some(m) => {
                let next = i + 2 + keyword_len(m);
                if 0 <= i && next <= t.len() {
                    match spec_tokenize(t.skip(next)) {
                        Some(rest) => Some(
                            FragModel {
                                pairs: seq![(t.take(i), m)] + rest.pairs,
                                trailing: rest.trailing,
                            },
                        ),
                        None => None,
                    }
                } else {
                    None
                }
            },
            None => None,
        }
    }
}

/// Reassembly of the literal runs with each marker's own text put back in
/// its place.
pub open spec fn reconstruct_pairs(ps: Seq<(Seq<u8>, Marker)>) -> Seq<u8>
    decreases ps.len(),
{
    if ps.len() == 0 {
        Seq::empty()
    } else {
        ps[0].0 + marker_text(ps[0].1) + reconstruct_pairs(ps.skip(1))
    }
}

/// Reassembly of a whole fragment: pairs, then the trailing literal.
pub open spec fn reconstruct(f: FragModel) -> Seq<u8> {
    reconstruct_pairs(f.pairs) + f.trailing
}

/// `first_sentinel_idx` indeed names the first sentinel: nothing before it
/// is one, and it is one whenever a whole marker could still fit.
pub proof fn lemma_first_sentinel(t: Seq<u8>)
    ensures
        0 <= first_sentinel_idx(t) <= t.len(),
        first_sentinel_idx(t) + 2 <= t.len() ==> sentinel_at(t, first_sentinel_idx(t)),
        forall|j: int| 0 <= j < first_sentinel_idx(t) ==> !sentinel_at(t, j),
    decreases t.len(),
{
    if sentinel_at(t, 0) || t.len() == 0 {
    } else {
        let s = t.skip(1);
        lemma_first_sentinel(s);
        lemma_sentinel_shift(t, 1);
        let f = first_sentinel_idx(t);
        assert(f == 1 + first_sentinel_idx(s));
        if f + 2 <= t.len() {
            assert(sentinel_at(s, f - 1));
        }
        assert forall|j: int| 0 <= j < f implies !sentinel_at(t, j) by {
            if j == 0 {
            } else {
                assert(!sentinel_at(s, j - 1));
            }
        }
    }
}

/// A position that is a sentinel, with none before it, is the first one.
pub proof fn lemma_first_sentinel_at(t: Seq<u8>, i: int)
    requires
        sentinel_at(t, i),
        forall|j: int| 0 <= j < i ==> !sentinel_at(t, j),
    ensures
        first_sentinel_idx(t) == i,
{
    lemma_first_sentinel(t);
    let f = first_sentinel_idx(t);
    if f < i {
        assert(f + 2 <= t.len());
        assert(sentinel_at(t, f));
        assert(!sentinel_at(t, f));
    }
    if f > i {
        assert(!sentinel_at(t, i));
    }
}

/// With no sentinel anywhere, the first-sentinel position leaves no room
/// for a marker.
pub proof fn lemma_first_sentinel_none(t: Seq<u8>)
    requires
        forall|j: int| !sentinel_at(t, j),
    ensures
        first_sentinel_idx(t) + 2 > t.len(),
{
    lemma_first_sentinel(t);
    let f = first_sentinel_idx(t);
    if f + 2 <= t.len() {
        assert(sentinel_at(t, f));
    }
}

/// Sentinel occurrences in a suffix are the shifted occurrences in the text.
pub proof fn lemma_sentinel_shift(t: Seq<u8>, p: int)
    requires
        0 <= p <= t.len(),
    ensures
        forall|j: int|
            0 <= j ==> (#[trigger] sentinel_at(t.skip(p), j) <==> sentinel_at(t, p + j)),
{
    assert forall|j: int|
        0 <= j implies (#[trigger] sentinel_at(t.skip(p), j) <==> sentinel_at(t, p + j)) by {
        if j + 2 <= t.skip(p).len() {
            assert(t.skip(p)[j] == t[p + j]);
            assert(t.skip(p)[j + 1] == t[p + j + 1]);
        }
    }
}

/// Keyword matches in a suffix are the shifted matches in the text.
pub proof fn lemma_keyword_shift(t: Seq<u8>, p: int, j: int)
    requires
        0 <= p <= t.len(),
        0 <= j,
    ensures
        forall|m: Marker|
            #[trigger] keyword_matches_at(t.skip(p), j, m) <==> keyword_matches_at(t, p + j, m),
        keyword_at(t.skip(p), j) == keyword_at(t, p + j),
{
    assert forall|m: Marker|
        #[trigger] keyword_matches_at(t.skip(p), j, m) <==> keyword_matches_at(t, p + j, m) by {
        let ln = keyword_len(m);
        if j + ln <= t.skip(p).len() {
            assert(t.skip(p).subrange(j, j + ln) =~= t.subrange(p + j, p + j + ln)) by {
                assert forall|x: int| 0 <= x < ln implies #[trigger] t.skip(p).subrange(
                    j,
                    j + ln,
                )[x] == t.subrange(p + j, p + j + ln)[x] by {
                    assert(t.skip(p).subrange(j, j + ln)[x] == t.skip(p)[j + x]);
                    assert(t.skip(p)[j + x] == t[p + j + x]);
                }
            }
        }
    }
}

/// Skipping twice is skipping once by the sum.
pub proof fn lemma_skip_skip(t: Seq<u8>, a: int, b: int)
    requires
        0 <= a,
        0 <= b,
        a + b <= t.len(),
    ensures
        t.skip(a).skip(b) == t.skip(a + b),
{
    assert(t.skip(a).skip(b) =~= t.skip(a + b));
}

/// Tokenization round-trip: whenever the tokenizer accepts a text, putting
/// each marker's own bytes back between the literal runs reconstructs the
/// text exactly.
#[verifier::rlimit(50)]
pub proof fn lemma_tokenize_round_trip(t: Seq<u8>, f: FragModel)
    requires
        spec_tokenize(t) == Some(f),
    ensures
        reconstruct(f) == t,
    decreases t.len(),
{
    lemma_first_sentinel(t);
    let i = first_sentinel_idx(t);
    if i + 2 > t.len() {
        assert(f.pairs.len() == 0);
        assert(reconstruct(f) =~= t);
    } else {
        let m = keyword_at(t, i + 2)->Some_0;
        let next = i + 2 + keyword_len(m);
        let rest = spec_tokenize(t.skip(next))->Some_0;
        lemma_tokenize_round_trip(t.skip(next), rest);
        assert(f.pairs[0] == (t.take(i), m));
        assert(f.pairs.skip(1) =~= rest.pairs);
        assert(reconstruct(f) == t.take(i) + marker_text(m) + reconstruct_pairs(rest.pairs)
            + rest.trailing) by {
            assert(reconstruct_pairs(f.pairs) == t.take(i) + marker_text(m) + reconstruct_pairs(
                rest.pairs,
            ));
            assert((t.take(i) + marker_text(m) + reconstruct_pairs(rest.pairs)) + rest.trailing
                =~= t.take(i) + marker_text(m) + (reconstruct_pairs(rest.pairs) + rest.trailing));
        }
        assert(marker_text(m) =~= t.subrange(i, next)) by {
            assert(sentinel_at(t, i));
            assert(t.subrange(i + 2, next) == keyword(m));
            assert forall|x: int| 0 <= x < next - i implies t.subrange(i, next)[x] == marker_text(
                m,
            )[x] by {
                if x < 2 {
                } else {
                    assert(t.subrange(i + 2, next)[x - 2] == t[i + x]);
                    assert(marker_text(m)[x] == keyword(m)[x - 2]);
                }
            }
        }
        assert(t.take(i) + t.subrange(i, next) + t.skip(next) =~= t);
        assert(reconstruct(f) == t.take(i) + t.subrange(i, next) + t.skip(next)) by {
            assert(reconstruct_pairs(rest.pairs) + rest.trailing == reconstruct(rest));
        }
    }
}

/// In any text the tokenizer accepts, every sentinel occurrence is followed
/// by a recognized keyword.
pub proof fn lemma_tokenized_markers_recognized(t: Seq<u8>)
    requires
        spec_tokenize(t) is Some,
    ensures
        forall|i: int| sentinel_at(t, i) ==> keyword_at(t, i + 2) is Some,
    decreases t.len(),
{
    lemma_first_sentinel(t);
    let f = first_sentinel_idx(t);
    if f + 2 > t.len() {
        assert forall|i: int| sentinel_at(t, i) implies keyword_at(t, i + 2) is Some by {
            if i >= f {
                assert(i + 2 > t.len());
            }
            assert(!sentinel_at(t, i));
        }
    } else {
        let m = keyword_at(t, f + 2)->Some_0;
        let next = f + 2 + keyword_len(m);
        lemma_tokenized_markers_recognized(t.skip(next));
        lemma_sentinel_shift(t, next);
        lemma_keyword_no_at_sign(m);
        assert forall|i: int| sentinel_at(t, i) implies keyword_at(t, i + 2) is Some by {
            if i < f {
                assert(!sentinel_at(t, i));
            } else if i == f {
            } else if i < next {
                if i == f + 1 {
                    assert(t[f + 1] == 95u8);
                } else {
                    assert(t.subrange(f + 2, next) == keyword(m));
                    assert(t.subrange(f + 2, next)[i - f - 2] == t[i]);
                    assert(keyword(m)[i - f - 2] != 64u8);
                }
                assert(!sentinel_at(t, i));
            } else {
                assert(sentinel_at(t.skip(next), i - next));
                assert(keyword_at(t.skip(next), i - next + 2) is Some);
                lemma_keyword_shift(t, next, i - next + 2);
            }
        }
    }
}

/// Unknown-marker rejection: a sentinel followed by none of the six
/// keywords makes the whole text untokenizable; it is never passed through.
pub proof fn lemma_unknown_marker_rejected(t: Seq<u8>, i: int)
    requires
        sentinel_at(t, i),
        keyword_at(t, i + 2) is None,
    ensures
        spec_tokenize(t) is None,
{
    if spec_tokenize(t) is Some {
        lemma_tokenized_markers_recognized(t);
    }
}

/// Conversely, a rejected text really holds an unrecognized marker: some
/// sentinel occurrence is followed by none of the six keywords.
pub proof fn lemma_rejected_has_unknown_marker(t: Seq<u8>)
    requires
        spec_tokenize(t) is None,
    ensures
        exists|i: int| #[trigger] sentinel_at(t, i) && keyword_at(t, i + 2) is None,
    decreases t.len(),
{
    lemma_first_sentinel(t);
    let f = first_sentinel_idx(t);
    if keyword_at(t, f + 2) is None {
        assert(sentinel_at(t, f) && keyword_at(t, f + 2) is None);
    } else {
        let m = keyword_at(t, f + 2)->Some_0;
        let next = f + 2 + keyword_len(m);
        lemma_rejected_has_unknown_marker(t.skip(next));
        assert(spec_tokenize(t.skip(next)) is None);
        let j = choose|j: int|
            #[trigger] sentinel_at(t.skip(next), j) && keyword_at(t.skip(next), j + 2) is None;
        lemma_sentinel_shift(t, next);
        lemma_keyword_shift(t, next, j + 2);
        assert(sentinel_at(t, next + j) && keyword_at(t, next + j + 2) is None);
    }
}

/// Exact bytes of each marker keyword, for the scanner.
fn keyword_bytes(m: Marker) -> (r: Vec<u8>)
    ensures
        r@ == keyword(m),
{
    let mut v: Vec<u8> = Vec::new();
    match m {
        Marker::Id => {
            v.push(73);
            v.push(68);
            assert(v@ =~= keyword(Marker::Id));
        },
        Marker::Scope => {
            v.push(83);
            v.push(67);
            v.push(79);
            v.push(80);
            v.push(69);
            assert(v@ =~= keyword(Marker::Scope));
        },
        Marker::List => {
            v.push(76);
            v.push(73);
            v.push(83);
            v.push(84);
            assert(v@ =~= keyword(Marker::List));
        },
        Marker::Patterns => {
            v.push(80);
            v.push(65);
            v.push(84);
            v.push(84);
            v.push(69);
            v.push(82);
            v.push(78);
            v.push(83);
            assert(v@ =~= keyword(Marker::Patterns));
        },
        Marker::Dry1 => {
            v.push(68);
            v.push(82);
            v.push(89);
            v.push(95);
            v.push(49);
            assert(v@ =~= keyword(Marker::Dry1));
        },
        Marker::Dry2 => {
            v.push(68);
            v.push(82);
            v.push(89);
            v.push(95);
            v.push(50);
            assert(v@ =~= keyword(Marker::Dry2));
        },
    }
    v
}

/// Whether the bytes of `kw` occur in `t` starting at `j`.
fn bytes_match_at(t: &Vec<u8>, j: usize, kw: &Vec<u8>) -> (r: bool)
    ensures
        r == (j + kw@.len() <= t@.len() && t@.subrange(j as int, j + kw@.len()) == kw@),
{
    let tlen: usize = t.len();
    let n: usize = kw.len();
    if n > tlen || j > tlen - n {
        return false;
    }
    let mut k: usize = 0;
    while k < n
        invariant
            n == kw@.len(),
            tlen == t@.len(),
            j + n <= tlen,
            k <= n,
            forall|x: int| 0 <= x < k ==> t@[j + x] == kw@[x],
        decreases n - k,
    {
        if t[j + k] != kw[k] {
            proof {
                assert(t@.subrange(j as int, j + kw@.len())[k as int] == t@[j + k]);
            }
            return false;
        }
        k += 1;
    }
    proof {
        assert(t@.subrange(j as int, j + kw@.len()) =~= kw@);
    }
    true
}

/// Which marker keyword follows position `j`, and its length.
fn match_keyword(t: &Vec<u8>, j: usize) -> (r: Option<(Marker, usize)>)
    ensures
        match r {
            Some((m, l)) => keyword_at(t@, j as int) == Some(m) && l == keyword_len(m) && j + l
                <= t@.len(),
            None => keyword_at(t@, j as int) is None,
        },
{
    let kw_id = keyword_bytes(Marker::Id);
    if bytes_match_at(t, j, &kw_id) {
        return Some((Marker::Id, kw_id.len()));
    }
    let kw_scope = keyword_bytes(Marker::Scope);
    if bytes_match_at(t, j, &kw_scope) {
        return Some((Marker::Scope, kw_scope.len()));
    }
    let kw_list = keyword_bytes(Marker::List);
    if bytes_match_at(t, j, &kw_list) {
        return Some((Marker::List, kw_list.len()));
    }
    let kw_patterns = keyword_bytes(Marker::Patterns);
    if bytes_match_at(t, j, &kw_patterns) {
        return Some((Marker::Patterns, kw_patterns.len()));
    }
    let kw_dry_1 = keyword_bytes(Marker::Dry1);
    if bytes_match_at(t, j, &kw_dry_1) {
        return Some((Marker::Dry1, kw_dry_1.len()));
    }
    let kw_dry_2 = keyword_bytes(Marker::Dry2);
    if bytes_match_at(t, j, &kw_dry_2) {
        return Some((Marker::Dry2, kw_dry_2.len()));
    }
    None
}

/// Smallest sentinel position at or after `from`, if any.
fn find_sentinel(t: &Vec<u8>, from: usize) -> (r: Option<usize>)
    requires
        from <= t@.len(),
    ensures
        match r {
            Some(i) => from <= i && i + 2 <= t@.len() && sentinel_at(t@, i as int) && forall|j: int|
                from <= j < i ==> !sentinel_at(t@, j),
            None => forall|j: int| from <= j ==> !sentinel_at(t@, j),
        },
{
    if t.len() < 2 {
        return None;
    }
    let mut i: usize = from;
    while i <= t.len() - 2
        invariant
            from <= i <= t@.len(),
            t@.len() >= 2,
            forall|j: int| from <= j < i ==> !sentinel_at(t@, j),
        decreases t@.len() - i,
    {
        if t[i] == 64 && t[i + 1] == 95 {
            return Some(i);
        }
        i += 1;
    }
    None
}

/// Bytes of `t` from `a` (inclusive) to `b` (exclusive), as a fresh vector.
fn copy_range(t: &Vec<u8>, a: usize, b: usize) -> (r: Vec<u8>)
    requires
        a <= b <= t@.len(),
    ensures
        r@ == t@.subrange(a as int, b as int),
{
    let mut r: Vec<u8> = Vec::new();
    assert(r@ =~= t@.subrange(a as int, a as int));
    let mut k: usize = a;
    while k < b
        invariant
            a <= k <= b <= t@.len(),
            r@ == t@.subrange(a as int, k as int),
        decreases b - k,
    {
        proof {
            assert(t@.subrange(a as int, k + 1) =~= t@.subrange(a as int, k as int).push(
                t@[k as int],
            ));
        }
        r.push(t[k]);
        k += 1;
    }
    r
}

/// Tokenize the suffix of `text` that starts at `pos`.
fn tokenize_from(text: &Vec<u8>, pos: usize) -> (r: Result<Fragment, TemplateErrorKind>)
    requires
        pos <= text@.len(),
    ensures
        match r {
            Ok(f) => spec_tokenize(text@.skip(pos as int)) == Some(f@),
            Err(e) => spec_tokenize(text@.skip(pos as int)) is None && e
                == TemplateErrorKind::MalformedTemplate,
        },
    decreases text@.len() - pos,
{
    let text_len: usize = text.len();
    let ghost s = text@.skip(pos as int);
    proof {
        lemma_sentinel_shift(text@, pos as int);
    }
    match find_sentinel(text, pos) {
        None => {
            proof {
                assert forall|j: int| !sentinel_at(s, j) by {
                    if 0 <= j {
                        assert(!sentinel_at(text@, pos + j));
                    }
                }
                lemma_first_sentinel_none(s);
            }
            let trailing = copy_range(text, pos, text.len());
            let f = Fragment { pairs: Vec::new(), trailing };
            proof {
                assert(pairs_view(f.pairs@) =~= Seq::<(Seq<u8>, Marker)>::empty());
                assert(trailing@ =~= s);
                assert(f@ =~= FragModel { pairs: Seq::empty(), trailing: s });
            }
            Ok(f)
        },
        Some(i) => {
            proof {
                assert(sentinel_at(s, i - pos));
                assert forall|j: int| 0 <= j < i - pos implies !sentinel_at(s, j) by {
                    assert(!sentinel_at(text@, pos + j));
                }
                lemma_first_sentinel_at(s, i - pos);
                lemma_keyword_shift(text@, pos as int, i - pos + 2);
            }
            match match_keyword(text, i + 2) {
                None => {
                    proof {
                        assert(keyword_at(s, i - pos + 2) is None);
                    }
                    Err(TemplateErrorKind::MalformedTemplate)
                },
                Some((m, l)) => {
                    let next: usize = i + 2 + l;
                    proof {
                        assert(keyword_at(s, i - pos + 2) == Some(m));
                        lemma_skip_skip(text@, pos as int, next - pos);
                    }
                    match tokenize_from(text, next) {
                        Err(e) => Err(e),
                        Ok(rest) => {
                            let lit = copy_range(text, pos, i);
                            let Fragment { pairs: mut rest_pairs, trailing } = rest;
                            let mut pairs: Vec<(Vec<u8>, Marker)> = Vec::new();
                            let ghost lit_view = lit@;
                            let ghost rest_pairs_view = rest_pairs@;
                            pairs.push((lit, m));
                            pairs.append(&mut rest_pairs);
                            let f = Fragment { pairs, trailing };
                            proof {
                                assert(f.pairs@ =~= seq![(lit, m)] + rest_pairs_view);
                                assert(lit_view =~= s.take(i - pos));
                                assert(pairs_view(f.pairs@) =~= seq![(s.take(i - pos), m)]
                                    + pairs_view(rest_pairs_view));
                                assert(f@ =~= FragModel {
                                    pairs: seq![(s.take(i - pos), m)] + pairs_view(
                                        rest_pairs_view,
                                    ),
                                    trailing: trailing@,
                                });
                            }
                            Ok(f)
                        },
                    }
                },
            }
        },
    }
}

/// Tokenize one template fragment. Returns the (literal, marker) pairs and
/// trailing literal exactly as [`spec_tokenize`] describes them; fails with
/// a malformed-template error if and only if some sentinel occurrence is not
/// followed by a recognized marker keyword.
pub fn tokenize(text: &Vec<u8>) -> (r: Result<Fragment, TemplateErrorKind>)
    ensures
        match r {
            Ok(f) => spec_tokenize(text@) == Some(f@) && reconstruct(f@) == text@,
            Err(e) => spec_tokenize(text@) is None && e == TemplateErrorKind::MalformedTemplate,
        },
{
    proof {
        assert(text@.skip(0) =~= text@);
    }
    let r = tokenize_from(text, 0);
    match &r {
        Ok(f) => {
            proof {
                lemma_tokenize_round_trip(text@, f@);
            }
        },
        Err(_) => {},
    }
    r
}

} // verus!
