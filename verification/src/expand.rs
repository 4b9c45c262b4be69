//! The label expander: replays a tokenized content fragment for one label,
//! substituting each marker with the label's own value, and expanding dry
//! markers one level into the named dry fragment.
//!
//! Recursion is limited to exactly one level: a dry marker met while a dry
//! fragment is being expanded is an illegal-nested-dry error, enforced here
//! and stated in the contract of [`expand_label`].

use vstd::prelude::*;

use crate::errors::TemplateErrorKind;
use crate::marker::Marker;
use crate::tokenizer::{FragModel, Fragment};

verus! {

/// A label: an embeddable target language that host languages may support.
#[derive(Debug)]
pub struct Label {
    /// Identifier, as it appears in support sets and output names.
    pub id: Vec<u8>,
    /// Highlighting scope name.
    pub scope: Vec<u8>,
    /// File-association pattern list (opaque text).
    pub list: Vec<u8>,
    /// Optional extra patterns block; empty when absent.
    pub patterns: Vec<u8>,
}

/// The mathematical model of a [`Label`].
#[verifier::ext_equal]
pub struct LabelModel {
    pub id: Seq<u8>,
    pub scope: Seq<u8>,
    pub list: Seq<u8>,
    pub patterns: Seq<u8>,
}

impl View for Label {
    type V = LabelModel;

    open spec fn view(&self) -> LabelModel {
        LabelModel {
            id: self.id@,
            scope: self.scope@,
            list: self.list@,
            patterns: self.patterns@,
        }
    }
}

/// Whether a marker names a dry fragment rather than a label value.
pub open spec fn is_dry(m: Marker) -> bool {
    m == Marker::Dry1 || m == Marker::Dry2
}

/// A pair sequence without dry markers: what a dry fragment must look like
/// for its expansion to be legal.
pub open spec fn dry_free(ps: Seq<(Seq<u8>, Marker)>) -> bool {
    forall|k: int| 0 <= k < ps.len() ==> !#[trigger] is_dry(ps[k].1)
}

/// The label value a plain (non-dry) marker resolves to.
pub open spec fn resolve_plain(m: Marker, lab: LabelModel) -> Seq<u8> {
    match m {
        Marker::Id => lab.id,
        Marker::Scope => lab.scope,
        Marker::List => lab.list,
        Marker::Patterns => lab.patterns,
        Marker::Dry1 => Seq::empty(),
        Marker::Dry2 => Seq::empty(),
    }
}

/// Flat expansion of pairs against a label, resolving only plain markers;
/// meaningful for dry fragments, whose pairs must be dry-free.
pub open spec fn expand_flat_pairs(ps: Seq<(Seq<u8>, Marker)>, lab: LabelModel) -> Seq<u8>
    decreases ps.len(),
{
    if ps.len() == 0 {
        Seq::empty()
    } else {
        expand_flat_pairs(ps.drop_last(), lab) + ps.last().0 + resolve_plain(ps.last().1, lab)
    }
}

/// Full flat expansion of a dry fragment: its pairs, then its trailing
/// literal.
pub open spec fn expand_flat(f: FragModel, lab: LabelModel) -> Seq<u8> {
    expand_flat_pairs(f.pairs, lab) + f.trailing
}

/// What one marker of the content fragment contributes: a label value, or
/// the flat expansion of the named dry fragment.
pub open spec fn resolve_marker(m: Marker, d1: FragModel, d2: FragModel, lab: LabelModel) -> Seq<
    u8,
> {
    match m {
        Marker::Dry1 => expand_flat(d1, lab),
        Marker::Dry2 => expand_flat(d2, lab),
        _ => resolve_plain(m, lab),
    }
}

/// Expansion of the content pairs in order: each literal verbatim, then its
/// marker's contribution.
pub open spec fn expand_pairs(
    ps: Seq<(Seq<u8>, Marker)>,
    d1: FragModel,
    d2: FragModel,
    lab: LabelModel,
) -> Seq<u8>
    decreases ps.len(),
{
    if ps.len() == 0 {
        Seq::empty()
    } else {
        expand_pairs(ps.drop_last(), d1, d2, lab) + ps.last().0 + resolve_marker(
            ps.last().1,
            d1,
            d2,
            lab,
        )
    }
}

/// The fully substituted text for one label.
pub open spec fn spec_expand(c: FragModel, d1: FragModel, d2: FragModel, lab: LabelModel) -> Seq<
    u8,
> {
    expand_pairs(c.pairs, d1, d2, lab) + c.trailing
}

/// Whether some pair of `ps` carries marker `m`.
pub open spec fn uses_marker(ps: Seq<(Seq<u8>, Marker)>, m: Marker) -> bool {
    exists|k: int| 0 <= k < ps.len() && (#[trigger] ps[k]).1 == m
}

/// Expansion succeeds exactly when every dry fragment the content actually
/// references is itself free of dry markers.
pub open spec fn expansion_ok(c: FragModel, d1: FragModel, d2: FragModel) -> bool {
    &&& uses_marker(c.pairs, Marker::Dry1) ==> dry_free(d1.pairs)
    &&& uses_marker(c.pairs, Marker::Dry2) ==> dry_free(d2.pairs)
}

/// Marker use in a one-longer prefix: the old uses, or the new pair's marker.
proof fn lemma_uses_marker_take_step(ps: Seq<(Seq<u8>, Marker)>, k: int, m: Marker)
    requires
        0 <= k < ps.len(),
    ensures
        uses_marker(ps.take(k + 1), m) <==> (uses_marker(ps.take(k), m) || ps[k].1 == m),
{
    if uses_marker(ps.take(k + 1), m) {
        let x = choose|x: int| 0 <= x < ps.take(k + 1).len() && (#[trigger] ps.take(k + 1)[x]).1
            == m;
        if x < k {
            assert(ps.take(k)[x] == ps[x]);
            assert(uses_marker(ps.take(k), m));
        }
    }
    if uses_marker(ps.take(k), m) {
        let x = choose|x: int| 0 <= x < ps.take(k).len() && (#[trigger] ps.take(k)[x]).1 == m;
        assert(ps.take(k + 1)[x] == ps[x]);
        assert(uses_marker(ps.take(k + 1), m));
    }
    if ps[k].1 == m {
        assert(ps.take(k + 1)[k] == ps[k]);
        assert(uses_marker(ps.take(k + 1), m));
    }
}

/// Appends all of `src` to `out`.
pub fn push_all(out: &mut Vec<u8>, src: &Vec<u8>)
    ensures
        final(out)@ == old(out)@ + src@,
{
    let n: usize = src.len();
    let mut k: usize = 0;
    proof {
        assert(out@ =~= old(out)@ + src@.take(0));
    }
    while k < n
        invariant
            n == src@.len(),
            k <= n,
            out@ == old(out)@ + src@.take(k as int),
        decreases n - k,
    {
        proof {
            assert((old(out)@ + src@.take(k as int)).push(src@[k as int]) =~= old(out)@
                + src@.take(k as int + 1));
        }
        out.push(src[k]);
        k += 1;
    }
    proof {
        assert(src@.take(n as int) =~= src@);
    }
}

/// Appends the label value of a plain marker.
fn push_plain(m: Marker, lab: &Label, out: &mut Vec<u8>)
    requires
        !is_dry(m),
    ensures
        final(out)@ == old(out)@ + resolve_plain(m, lab@),
{
    match m {
        Marker::Id => push_all(out, &lab.id),
        Marker::Scope => push_all(out, &lab.scope),
        Marker::List => push_all(out, &lab.list),
        Marker::Patterns => push_all(out, &lab.patterns),
        Marker::Dry1 => {
            proof {
                assert(false);
            }
        },
        Marker::Dry2 => {
            proof {
                assert(false);
            }
        },
    }
}

/// Whether a tokenized fragment contains no dry marker.
fn check_dry_free(d: &Fragment) -> (r: bool)
    ensures
        r == dry_free(d@.pairs),
{
    let n: usize = d.pairs.len();
    let mut k: usize = 0;
    while k < n
        invariant
            n == d.pairs@.len(),
            k <= n,
            forall|x: int| 0 <= x < k ==> !#[trigger] is_dry(d@.pairs[x].1),
        decreases n - k,
    {
        let m = d.pairs[k].1;
        proof {
            assert(d@.pairs[k as int].1 == m);
        }
        match m {
            Marker::Dry1 => {
                proof {
                    assert(is_dry(d@.pairs[k as int].1));
                }
                return false;
            },
            Marker::Dry2 => {
                proof {
                    assert(is_dry(d@.pairs[k as int].1));
                }
                return false;
            },
            _ => {},
        }
        k += 1;
    }
    true
}

/// Appends the flat expansion of a dry-free fragment against a label.
fn push_flat(d: &Fragment, lab: &Label, out: &mut Vec<u8>)
    requires
        dry_free(d@.pairs),
    ensures
        final(out)@ == old(out)@ + expand_flat(d@, lab@),
{
    let n: usize = d.pairs.len();
    let mut k: usize = 0;
    proof {
        assert(out@ =~= old(out)@ + expand_flat_pairs(d@.pairs.take(0), lab@));
    }
    while k < n
        invariant
            n == d.pairs@.len(),
            k <= n,
            dry_free(d@.pairs),
            out@ == old(out)@ + expand_flat_pairs(d@.pairs.take(k as int), lab@),
        decreases n - k,
    {
        let pair = &d.pairs[k];
        proof {
            assert(d@.pairs[k as int] == (pair.0@, pair.1));
            assert(!is_dry(d@.pairs[k as int].1));
        }
        push_all(out, &pair.0);
        push_plain(pair.1, lab, out);
        proof {
            let ps = d@.pairs;
            assert(ps.take(k + 1).drop_last() =~= ps.take(k as int));
            assert(ps.take(k + 1).last() == ps[k as int]);
            assert(out@ =~= old(out)@ + expand_flat_pairs(ps.take(k + 1), lab@));
        }
        k += 1;
    }
    proof {
        assert(d@.pairs.take(n as int) =~= d@.pairs);
    }
    push_all(out, &d.trailing);
    proof {
        assert((old(out)@ + expand_flat_pairs(d@.pairs, lab@)) + d@.trailing =~= old(out)@
            + expand_flat(d@, lab@));
    }
}

/// Expand the content fragment against one label, consulting the two dry
/// fragments where a dry marker names them. Fails with an illegal-nested-dry
/// error if and only if a dry fragment that the content references itself
/// contains a dry marker; on success the result is exactly [`spec_expand`].
pub fn expand_label(content: &Fragment, dry_1: &Fragment, dry_2: &Fragment, lab: &Label) -> (r:
    Result<Vec<u8>, TemplateErrorKind>)
    ensures
        (r is Ok) == expansion_ok(content@, dry_1@, dry_2@),
        r matches Ok(v) ==> v@ == spec_expand(content@, dry_1@, dry_2@, lab@),
        r matches Err(e) ==> e == TemplateErrorKind::IllegalNestedDry,
{
    let mut out: Vec<u8> = Vec::new();
    let n: usize = content.pairs.len();
    let mut k: usize = 0;
    proof {
        assert(out@ =~= Seq::<u8>::empty() + expand_pairs(
            content@.pairs.take(0),
            dry_1@,
            dry_2@,
            lab@,
        ));
    }
    while k < n
        invariant
            n == content.pairs@.len(),
            k <= n,
            out@ == Seq::<u8>::empty() + expand_pairs(
                content@.pairs.take(k as int),
                dry_1@,
                dry_2@,
                lab@,
            ),
            uses_marker(content@.pairs.take(k as int), Marker::Dry1) ==> dry_free(dry_1@.pairs),
            uses_marker(content@.pairs.take(k as int), Marker::Dry2) ==> dry_free(dry_2@.pairs),
        decreases n - k,
    {
        let pair = &content.pairs[k];
        proof {
            assert(content@.pairs[k as int] == (pair.0@, pair.1));
        }
        push_all(&mut out, &pair.0);
        let m = pair.1;
        match m {
            Marker::Dry1 => {
                if !check_dry_free(dry_1) {
                    proof {
                        assert(content@.pairs.take(k + 1)[k as int] == content@.pairs[k as int]);
                        assert(uses_marker(content@.pairs, Marker::Dry1)) by {
                            assert((content@.pairs[k as int]).1 == Marker::Dry1);
                        }
                        assert(!expansion_ok(content@, dry_1@, dry_2@));
                    }
                    return Err(TemplateErrorKind::IllegalNestedDry);
                }
                push_flat(dry_1, lab, &mut out);
            },
            Marker::Dry2 => {
                if !check_dry_free(dry_2) {
                    proof {
                        assert(uses_marker(content@.pairs, Marker::Dry2)) by {
                            assert((content@.pairs[k as int]).1 == Marker::Dry2);
                        }
                        assert(!expansion_ok(content@, dry_1@, dry_2@));
                    }
                    return Err(TemplateErrorKind::IllegalNestedDry);
                }
                push_flat(dry_2, lab, &mut out);
            },
            _ => {
                push_plain(m, lab, &mut out);
            },
        }
        proof {
            let ps = content@.pairs;
            lemma_uses_marker_take_step(ps, k as int, Marker::Dry1);
            lemma_uses_marker_take_step(ps, k as int, Marker::Dry2);
            assert(ps.take(k + 1).drop_last() =~= ps.take(k as int));
            assert(ps.take(k + 1).last() == ps[k as int]);
            assert(out@ =~= Seq::<u8>::empty() + expand_pairs(ps.take(k + 1), dry_1@, dry_2@, lab@));
        }
        k += 1;
    }
    push_all(&mut out, &content.trailing);
    proof {
        assert(content@.pairs.take(n as int) =~= content@.pairs);
        assert(out@ =~= spec_expand(content@, dry_1@, dry_2@, lab@));
    }
    Ok(out)
}

} // verus!
