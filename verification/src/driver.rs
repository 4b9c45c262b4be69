//! The language driver: for every configured host language, tokenize its
//! three template fragments, then expand the content fragment once for each
//! label of the fixed global label table that the language's support set
//! names — in table order, never in support-set order — accumulating the
//! expansion output and the list of emitted label identifiers.
//!
//! A host language whose support set has no entry is skipped entirely: it
//! contributes no output and no label registrations. Any tokenization or
//! expansion error aborts the whole run with the offending language's name.

use vstd::prelude::*;

use crate::errors::{TemplateError, TemplateErrorKind};
use crate::expand::{
    expand_label, expansion_ok, spec_expand, Label, LabelModel,
};
use crate::tokenizer::{spec_tokenize, tokenize, FragModel, Fragment};

verus! {

/// A host language: identifier, display name, scope name, a prelude block,
/// and the raw text of its three template fragments.
#[derive(Debug)]
pub struct HostLanguage {
    pub id: Vec<u8>,
    pub name: Vec<u8>,
    pub scope: Vec<u8>,
    pub prelude: Vec<u8>,
    pub content: Vec<u8>,
    pub dry_1: Vec<u8>,
    pub dry_2: Vec<u8>,
}

/// The mathematical model of a [`HostLanguage`].
#[verifier::ext_equal]
pub struct HostLanguageModel {
    pub id: Seq<u8>,
    pub name: Seq<u8>,
    pub scope: Seq<u8>,
    pub prelude: Seq<u8>,
    pub content: Seq<u8>,
    pub dry_1: Seq<u8>,
    pub dry_2: Seq<u8>,
}

impl View for HostLanguage {
    type V = HostLanguageModel;

    open spec fn view(&self) -> HostLanguageModel {
        HostLanguageModel {
            id: self.id@,
            name: self.name@,
            scope: self.scope@,
            prelude: self.prelude@,
            content: self.content@,
            dry_1: self.dry_1@,
            dry_2: self.dry_2@,
        }
    }
}

/// One entry of the externally supplied support set: which labels one host
/// language supports. The collection has set semantics; its order never
/// influences the output.
#[derive(Debug)]
pub struct SupportEntry {
    pub lang_id: Vec<u8>,
    pub label_ids: Vec<Vec<u8>>,
}

/// The mathematical model of a [`SupportEntry`].
#[verifier::ext_equal]
pub struct SupportEntryModel {
    pub lang_id: Seq<u8>,
    pub label_ids: Seq<Seq<u8>>,
}

/// What the driver produces for one host language: its identifier, the
/// accumulated expansion output, and the identifiers of the labels emitted,
/// in global table order.
#[derive(Debug)]
pub struct LanguageOutput {
    pub id: Vec<u8>,
    pub body: Vec<u8>,
    pub label_ids: Vec<Vec<u8>>,
}

/// The mathematical model of a [`LanguageOutput`].
#[verifier::ext_equal]
pub struct LanguageOutputModel {
    pub id: Seq<u8>,
    pub body: Seq<u8>,
    pub label_ids: Seq<Seq<u8>>,
}

/// Sequence view of a list of byte vectors.
pub open spec fn ids_view(s: Seq<Vec<u8>>) -> Seq<Seq<u8>> {
    s.map_values(|v: Vec<u8>| v@)
}

impl View for SupportEntry {
    type V = SupportEntryModel;

    open spec fn view(&self) -> SupportEntryModel {
        SupportEntryModel { lang_id: self.lang_id@, label_ids: ids_view(self.label_ids@) }
    }
}

impl View for LanguageOutput {
    type V = LanguageOutputModel;

    open spec fn view(&self) -> LanguageOutputModel {
        LanguageOutputModel {
            id: self.id@,
            body: self.body@,
            label_ids: ids_view(self.label_ids@),
        }
    }
}

/// Sequence view of a label table.
pub open spec fn labels_view(s: Seq<Label>) -> Seq<LabelModel> {
    s.map_values(|l: Label| l@)
}

/// Sequence view of a host-language table.
pub open spec fn langs_view(s: Seq<HostLanguage>) -> Seq<HostLanguageModel> {
    s.map_values(|l: HostLanguage| l@)
}

/// Sequence view of a support set.
pub open spec fn support_view(s: Seq<SupportEntry>) -> Seq<SupportEntryModel> {
    s.map_values(|e: SupportEntry| e@)
}

/// Sequence view of the driver's results.
pub open spec fn outputs_view(s: Seq<LanguageOutput>) -> Seq<LanguageOutputModel> {
    s.map_values(|o: LanguageOutput| o@)
}

/// The label identifiers that the support set grants a host language: the
/// first entry with its identifier, or nothing.
pub open spec fn lookup_support(sup: Seq<SupportEntryModel>, id: Seq<u8>) -> Seq<Seq<u8>>
    decreases sup.len(),
{
    if sup.len() == 0 {
        Seq::empty()
    } else if sup[0].lang_id == id {
        sup[0].label_ids
    } else {
        lookup_support(sup.skip(1), id)
    }
}

/// The tokenized content fragment of a host language.
pub open spec fn content_frag(lang: HostLanguageModel) -> FragModel {
    spec_tokenize(lang.content)->Some_0
}

/// The tokenized first dry fragment of a host language.
pub open spec fn dry_1_frag(lang: HostLanguageModel) -> FragModel {
    spec_tokenize(lang.dry_1)->Some_0
}

/// The tokenized second dry fragment of a host language.
pub open spec fn dry_2_frag(lang: HostLanguageModel) -> FragModel {
    spec_tokenize(lang.dry_2)->Some_0
}

/// All three fragments of a host language tokenize.
pub open spec fn fragments_ok(lang: HostLanguageModel) -> bool {
    &&& spec_tokenize(lang.content) is Some
    &&& spec_tokenize(lang.dry_1) is Some
    &&& spec_tokenize(lang.dry_2) is Some
}

/// Which error a failing host language reports: tokenization failures come
/// first, expansion failures only with intact fragments.
pub open spec fn lang_err_kind(lang: HostLanguageModel) -> TemplateErrorKind {
    if !fragments_ok(lang) {
        TemplateErrorKind::MalformedTemplate
    } else {
        TemplateErrorKind::IllegalNestedDry
    }
}

/// The identifiers, in table order, of the labels a support-set entry grants.
pub open spec fn supported_label_ids(labels: Seq<LabelModel>, ids: Seq<Seq<u8>>) -> Seq<Seq<u8>>
    decreases labels.len(),
{
    if labels.len() == 0 {
        Seq::empty()
    } else {
        let rest = supported_label_ids(labels.drop_last(), ids);
        if ids.contains(labels.last().id) {
            rest.push(labels.last().id)
        } else {
            rest
        }
    }
}

/// The expansion output for one host language: the concatenation, in global
/// table order, of the content expansion for every supported label.
pub open spec fn spec_language_body(
    c: FragModel,
    d1: FragModel,
    d2: FragModel,
    labels: Seq<LabelModel>,
    ids: Seq<Seq<u8>>,
) -> Seq<u8>
    decreases labels.len(),
{
    if labels.len() == 0 {
        Seq::empty()
    } else {
        spec_language_body(c, d1, d2, labels.drop_last(), ids) + (if ids.contains(
            labels.last().id,
        ) {
            spec_expand(c, d1, d2, labels.last())
        } else {
            Seq::empty()
        })
    }
}

/// Processing one host language succeeds: its fragments tokenize, and, where
/// any supported label is actually expanded, the dry fragments it references
/// are dry-free.
pub open spec fn lang_ok_for(
    lang: HostLanguageModel,
    labels: Seq<LabelModel>,
    ids: Seq<Seq<u8>>,
) -> bool {
    &&& fragments_ok(lang)
    &&& supported_label_ids(labels, ids).len() > 0 ==> expansion_ok(
        content_frag(lang),
        dry_1_frag(lang),
        dry_2_frag(lang),
    )
}

/// A host language passes the whole run: either it is skipped for want of
/// support, or its templates process without error.
pub open spec fn lang_ok(
    lang: HostLanguageModel,
    labels: Seq<LabelModel>,
    support: Seq<SupportEntryModel>,
) -> bool {
    lookup_support(support, lang.id).len() > 0 ==> lang_ok_for(
        lang,
        labels,
        lookup_support(support, lang.id),
    )
}

/// Every host language passes the whole run.
pub open spec fn all_ok(
    langs: Seq<HostLanguageModel>,
    labels: Seq<LabelModel>,
    support: Seq<SupportEntryModel>,
) -> bool {
    forall|k: int| 0 <= k < langs.len() ==> lang_ok(#[trigger] langs[k], labels, support)
}

/// The driver's results on success: one output per host language with a
/// nonempty support entry, in host-language order.
pub open spec fn spec_outputs(
    langs: Seq<HostLanguageModel>,
    labels: Seq<LabelModel>,
    support: Seq<SupportEntryModel>,
) -> Seq<LanguageOutputModel>
    decreases langs.len(),
{
    if langs.len() == 0 {
        Seq::empty()
    } else {
        let rest = spec_outputs(langs.drop_last(), labels, support);
        let lang = langs.last();
        let ids = lookup_support(support, lang.id);
        if ids.len() > 0 {
            rest.push(
                LanguageOutputModel {
                    id: lang.id,
                    body: spec_language_body(
                        content_frag(lang),
                        dry_1_frag(lang),
                        dry_2_frag(lang),
                        labels,
                        ids,
                    ),
                    label_ids: supported_label_ids(labels, ids),
                },
            )
        } else {
            rest
        }
    }
}

/// How a failing run relates to its input: position `k` is the first host
/// language that fails, and the error carries its name and error kind.
pub open spec fn failure_witness(
    langs: Seq<HostLanguageModel>,
    labels: Seq<LabelModel>,
    support: Seq<SupportEntryModel>,
    kind: TemplateErrorKind,
    name: Seq<u8>,
    k: int,
) -> bool {
    &&& 0 <= k < langs.len()
    &&& !lang_ok(langs[k], labels, support)
    &&& forall|j: int| 0 <= j < k ==> lang_ok(#[trigger] langs[j], labels, support)
    &&& name == langs[k].name
    &&& kind == lang_err_kind(langs[k])
}

/// Order-preserving subsequence: `a` is obtained from `b` by deleting
/// elements, never by reordering them.
pub open spec fn is_subsequence_of<T>(a: Seq<T>, b: Seq<T>) -> bool
    decreases b.len(),
{
    if a.len() == 0 {
        true
    } else if b.len() == 0 {
        false
    } else {
        (a.last() == b.last() && is_subsequence_of(a.drop_last(), b.drop_last()))
            || is_subsequence_of(a, b.drop_last())
    }
}

/// The identifiers of a label table, in its order.
pub open spec fn label_ids_of(labels: Seq<LabelModel>) -> Seq<Seq<u8>> {
    labels.map_values(|l: LabelModel| l.id)
}

/// Determinism under set semantics: the expansion output and the emitted
/// label identifiers depend on the supported identifiers only through
/// membership, so any two collections with the same members — however
/// ordered, however often repeated — give byte-identical results.
pub proof fn lemma_support_order_irrelevant(
    c: FragModel,
    d1: FragModel,
    d2: FragModel,
    labels: Seq<LabelModel>,
    ids1: Seq<Seq<u8>>,
    ids2: Seq<Seq<u8>>,
)
    requires
        forall|x: Seq<u8>| #[trigger] ids1.contains(x) <==> ids2.contains(x),
    ensures
        spec_language_body(c, d1, d2, labels, ids1) == spec_language_body(c, d1, d2, labels, ids2),
        supported_label_ids(labels, ids1) == supported_label_ids(labels, ids2),
    decreases labels.len(),
{
    if labels.len() > 0 {
        lemma_support_order_irrelevant(c, d1, d2, labels.drop_last(), ids1, ids2);
        assert(ids1.contains(labels.last().id) <==> ids2.contains(labels.last().id));
    }
}

/// Determinism of the whole run: two support sets that grant every host
/// language the same label identifiers as sets — in whatever internal order —
/// lead to identical driver results.
pub proof fn lemma_run_deterministic(
    langs: Seq<HostLanguageModel>,
    labels: Seq<LabelModel>,
    sup1: Seq<SupportEntryModel>,
    sup2: Seq<SupportEntryModel>,
)
    requires
        forall|id: Seq<u8>, x: Seq<u8>|
            #[trigger] lookup_support(sup1, id).contains(x) <==> #[trigger] lookup_support(
                sup2,
                id,
            ).contains(x),
    ensures
        spec_outputs(langs, labels, sup1) == spec_outputs(langs, labels, sup2),
    decreases langs.len(),
{
    if langs.len() > 0 {
        lemma_run_deterministic(langs.drop_last(), labels, sup1, sup2);
        let lang = langs.last();
        let ids1 = lookup_support(sup1, lang.id);
        let ids2 = lookup_support(sup2, lang.id);
        assert forall|x: Seq<u8>| #[trigger] ids1.contains(x) <==> ids2.contains(x) by {
            assert(lookup_support(sup1, lang.id).contains(x) <==> lookup_support(
                sup2,
                lang.id,
            ).contains(x));
        }
        if ids1.len() > 0 {
            assert(ids1.contains(ids1[0]));
            assert(ids2.contains(ids1[0]));
            let i = choose|i: int| 0 <= i < ids2.len() && ids2[i] == ids1[0];
            assert(ids2.len() > 0);
        }
        if ids2.len() > 0 {
            assert(ids2.contains(ids2[0]));
            assert(ids1.contains(ids2[0]));
            let i = choose|i: int| 0 <= i < ids1.len() && ids1[i] == ids2[0];
            assert(ids1.len() > 0);
        }
        if ids1.len() > 0 {
            lemma_support_order_irrelevant(
                content_frag(lang),
                dry_1_frag(lang),
                dry_2_frag(lang),
                labels,
                ids1,
                ids2,
            );
        }
    }
}

/// Ordering invariant: the emitted label identifiers are an order-preserving
/// subsequence of the global label table's identifiers, whatever order the
/// support set presents them in.
pub proof fn lemma_output_order(labels: Seq<LabelModel>, ids: Seq<Seq<u8>>)
    ensures
        is_subsequence_of(supported_label_ids(labels, ids), label_ids_of(labels)),
    decreases labels.len(),
{
    if labels.len() == 0 {
    } else {
        lemma_output_order(labels.drop_last(), ids);
        let rest = supported_label_ids(labels.drop_last(), ids);
        let bl = label_ids_of(labels);
        assert(bl.len() == labels.len());
        assert(bl.last() == labels.last().id);
        assert(bl.drop_last() =~= label_ids_of(labels.drop_last()));
        if ids.contains(labels.last().id) {
            let a = supported_label_ids(labels, ids);
            assert(a == rest.push(labels.last().id));
            assert(a.drop_last() =~= rest);
            assert(a.last() == bl.last());
        }
    }
}

/// No-support skip: a host language whose support lookup is empty
/// contributes nothing to the driver's results.
pub proof fn lemma_empty_support_skipped(
    langs: Seq<HostLanguageModel>,
    labels: Seq<LabelModel>,
    support: Seq<SupportEntryModel>,
    lang: HostLanguageModel,
)
    requires
        lookup_support(support, lang.id).len() == 0,
    ensures
        spec_outputs(langs.push(lang), labels, support) == spec_outputs(langs, labels, support),
{
    assert(langs.push(lang).drop_last() =~= langs);
    assert(langs.push(lang).last() == lang);
}

/// Some supported label makes the supported-identifier list nonempty.
proof fn lemma_supported_ids_nonempty(labels: Seq<LabelModel>, ids: Seq<Seq<u8>>, k: int)
    requires
        0 <= k < labels.len(),
        ids.contains(labels[k].id),
    ensures
        supported_label_ids(labels, ids).len() > 0,
    decreases labels.len(),
{
    if k == labels.len() - 1 {
    } else {
        assert(labels.drop_last()[k] == labels[k]);
        lemma_supported_ids_nonempty(labels.drop_last(), ids, k);
    }
}

/// Whether two byte vectors hold the same bytes.
fn bytes_eq(a: &Vec<u8>, b: &Vec<u8>) -> (r: bool)
    ensures
        r == (a@ == b@),
{
    let n: usize = a.len();
    if n != b.len() {
        return false;
    }
    let mut k: usize = 0;
    while k < n
        invariant
            n == a@.len() == b@.len(),
            k <= n,
            forall|x: int| 0 <= x < k ==> a@[x] == b@[x],
        decreases n - k,
    {
        if a[k] != b[k] {
            return false;
        }
        k += 1;
    }
    proof {
        assert(a@ =~= b@);
    }
    true
}

/// Copies a byte vector.
fn clone_bytes(v: &Vec<u8>) -> (r: Vec<u8>)
    ensures
        r@ == v@,
{
    let n: usize = v.len();
    let mut r: Vec<u8> = Vec::new();
    let mut k: usize = 0;
    while k < n
        invariant
            n == v@.len(),
            k <= n,
            r@ == v@.take(k as int),
        decreases n - k,
    {
        proof {
            assert(v@.take(k as int).push(v@[k as int]) =~= v@.take(k as int + 1));
        }
        r.push(v[k]);
        k += 1;
    }
    proof {
        assert(v@.take(n as int) =~= v@);
    }
    r
}

/// Whether `ids` names `id` (membership only; order is irrelevant).
fn contains_id(ids: &Vec<Vec<u8>>, id: &Vec<u8>) -> (r: bool)
    ensures
        r == ids_view(ids@).contains(id@),
{
    let n: usize = ids.len();
    let mut k: usize = 0;
    while k < n
        invariant
            n == ids@.len(),
            k <= n,
            forall|x: int| 0 <= x < k ==> ids_view(ids@)[x] != id@,
        decreases n - k,
    {
        if bytes_eq(&ids[k], id) {
            proof {
                assert(ids_view(ids@)[k as int] == id@);
            }
            return true;
        }
        k += 1;
    }
    proof {
        if ids_view(ids@).contains(id@) {
            let x = choose|x: int| 0 <= x < ids_view(ids@).len() && ids_view(ids@)[x] == id@;
            assert(false);
        }
    }
    false
}

/// An unmatched prefix does not change what lookup finds.
proof fn lemma_lookup_skip(sup: Seq<SupportEntryModel>, id: Seq<u8>, k: int)
    requires
        0 <= k <= sup.len(),
        forall|x: int| 0 <= x < k ==> (#[trigger] sup[x]).lang_id != id,
    ensures
        lookup_support(sup, id) == lookup_support(sup.skip(k), id),
    decreases k,
{
    if k == 0 {
        assert(sup.skip(0) =~= sup);
    } else {
        assert(sup[0].lang_id != id);
        lemma_lookup_skip(sup.skip(1), id, k - 1);
        assert(sup.skip(1).skip(k - 1) =~= sup.skip(k));
    }
}

/// The first support entry for `id`, if any.
fn lookup_ids<'a>(support: &'a Vec<SupportEntry>, id: &Vec<u8>) -> (r: Option<&'a Vec<Vec<u8>>>)
    ensures
        match r {
            Some(ids) => ids_view(ids@) == lookup_support(support_view(support@), id@),
            None => lookup_support(support_view(support@), id@) == Seq::<Seq<u8>>::empty(),
        },
{
    let n: usize = support.len();
    let mut k: usize = 0;
    while k < n
        invariant
            n == support@.len(),
            k <= n,
            forall|x: int| 0 <= x < k ==> (#[trigger] support_view(support@)[x]).lang_id != id@,
        decreases n - k,
    {
        let entry = &support[k];
        if bytes_eq(&entry.lang_id, id) {
            proof {
                let sv = support_view(support@);
                lemma_lookup_skip(sv, id@, k as int);
                assert(sv.skip(k as int)[0] == sv[k as int]);
                assert(sv[k as int] == entry@);
            }
            return Some(&entry.label_ids);
        }
        proof {
            assert(support_view(support@)[k as int] == entry@);
        }
        k += 1;
    }
    proof {
        let sv = support_view(support@);
        lemma_lookup_skip(sv, id@, n as int);
        assert(sv.skip(n as int) =~= Seq::<SupportEntryModel>::empty());
    }
    None
}

/// Process one host language against the label table and the label
/// identifiers its support entry grants: tokenize the three fragments, then
/// expand the content for every supported label in table order. On success
/// the body is exactly [`spec_language_body`] and the emitted identifiers
/// exactly [`supported_label_ids`]; tokenization failures report a
/// malformed template, expansion failures an illegal nested dry fragment.
pub fn expand_language(lang: &HostLanguage, labels: &Vec<Label>, supported: &Vec<Vec<u8>>) -> (r:
    Result<LanguageOutput, TemplateErrorKind>)
    ensures
        (r is Ok) == lang_ok_for(lang@, labels_view(labels@), ids_view(supported@)),
        r matches Ok(out) ==> out@ == (LanguageOutputModel {
            id: lang@.id,
            body: spec_language_body(
                content_frag(lang@),
                dry_1_frag(lang@),
                dry_2_frag(lang@),
                labels_view(labels@),
                ids_view(supported@),
            ),
            label_ids: supported_label_ids(labels_view(labels@), ids_view(supported@)),
        }),
        r matches Err(e) ==> e == lang_err_kind(lang@),
{
    let content = match tokenize(&lang.content) {
        Ok(f) => f,
        Err(e) => {
            return Err(e);
        },
    };
    let dry_1 = match tokenize(&lang.dry_1) {
        Ok(f) => f,
        Err(e) => {
            return Err(e);
        },
    };
    let dry_2 = match tokenize(&lang.dry_2) {
        Ok(f) => f,
        Err(e) => {
            return Err(e);
        },
    };
    let ghost cf = content_frag(lang@);
    let ghost d1f = dry_1_frag(lang@);
    let ghost d2f = dry_2_frag(lang@);
    let ghost lv = labels_view(labels@);
    let ghost iv = ids_view(supported@);
    let mut body: Vec<u8> = Vec::new();
    let mut out_ids: Vec<Vec<u8>> = Vec::new();
    let n: usize = labels.len();
    let mut k: usize = 0;
    proof {
        assert(body@ =~= spec_language_body(cf, d1f, d2f, lv.take(0), iv));
        assert(ids_view(out_ids@) =~= supported_label_ids(lv.take(0), iv));
    }
    while k < n
        invariant
            n == labels@.len(),
            k <= n,
            lv == labels_view(labels@),
            iv == ids_view(supported@),
            content@ == cf,
            dry_1@ == d1f,
            dry_2@ == d2f,
            fragments_ok(lang@),
            cf == content_frag(lang@),
            d1f == dry_1_frag(lang@),
            d2f == dry_2_frag(lang@),
            body@ == spec_language_body(cf, d1f, d2f, lv.take(k as int), iv),
            ids_view(out_ids@) == supported_label_ids(lv.take(k as int), iv),
            supported_label_ids(lv.take(k as int), iv).len() > 0 ==> expansion_ok(cf, d1f, d2f),
        decreases n - k,
    {
        let lab = &labels[k];
        proof {
            assert(lv[k as int] == lab@);
            assert(lv.take(k + 1).drop_last() =~= lv.take(k as int));
            assert(lv.take(k + 1).last() == lv[k as int]);
        }
        if contains_id(supported, &lab.id) {
            match expand_label(&content, &dry_1, &dry_2, lab) {
                Ok(mut piece) => {
                    let ghost old_body = body@;
                    body.append(&mut piece);
                    out_ids.push(clone_bytes(&lab.id));
                    proof {
                        assert(body@ =~= spec_language_body(cf, d1f, d2f, lv.take(k + 1), iv)) by {
                            assert(body@ == old_body + spec_expand(cf, d1f, d2f, lv[k as int]));
                        }
                        assert(ids_view(out_ids@) =~= supported_label_ids(lv.take(k + 1), iv));
                        lemma_supported_ids_nonempty(lv.take(k + 1), iv, k as int);
                    }
                },
                Err(_) => {
                    proof {
                        lemma_supported_ids_nonempty(lv, iv, k as int);
                        assert(!lang_ok_for(lang@, lv, iv));
                    }
                    return Err(TemplateErrorKind::IllegalNestedDry);
                },
            }
        } else {
            proof {
                assert(body@ =~= spec_language_body(cf, d1f, d2f, lv.take(k + 1), iv));
                assert(ids_view(out_ids@) =~= supported_label_ids(lv.take(k + 1), iv));
            }
        }
        k += 1;
    }
    proof {
        assert(lv.take(n as int) =~= lv);
    }
    let id = clone_bytes(&lang.id);
    let out = LanguageOutput { id, body, label_ids: out_ids };
    proof {
        assert(out@ =~= LanguageOutputModel {
            id: lang@.id,
            body: spec_language_body(cf, d1f, d2f, lv, iv),
            label_ids: supported_label_ids(lv, iv),
        });
    }
    Ok(out)
}

/// Run the driver over the whole host-language set: skip languages without
/// support, process the others in order, and stop at the first error. On
/// success the results are exactly [`spec_outputs`]; on failure the error
/// names the first offending host language.
pub fn expand_all(langs: &Vec<HostLanguage>, labels: &Vec<Label>, support: &Vec<SupportEntry>) -> (r:
    Result<Vec<LanguageOutput>, TemplateError>)
    ensures
        (r is Ok) == all_ok(langs_view(langs@), labels_view(labels@), support_view(support@)),
        r matches Ok(outs) ==> outputs_view(outs@) == spec_outputs(
            langs_view(langs@),
            labels_view(labels@),
            support_view(support@),
        ),
        r matches Err(e) ==> exists|k: int|
            failure_witness(
                langs_view(langs@),
                labels_view(labels@),
                support_view(support@),
                e.kind,
                e.lang@,
                k,
            ),
{
    let ghost gv = langs_view(langs@);
    let ghost lbv = labels_view(labels@);
    let ghost spv = support_view(support@);
    let mut outs: Vec<LanguageOutput> = Vec::new();
    let n: usize = langs.len();
    let mut k: usize = 0;
    proof {
        assert(outputs_view(outs@) =~= spec_outputs(gv.take(0), lbv, spv));
    }
    while k < n
        invariant
            n == langs@.len(),
            k <= n,
            gv == langs_view(langs@),
            lbv == labels_view(labels@),
            spv == support_view(support@),
            outputs_view(outs@) == spec_outputs(gv.take(k as int), lbv, spv),
            forall|j: int| 0 <= j < k ==> lang_ok(#[trigger] gv[j], lbv, spv),
        decreases n - k,
    {
        let lang = &langs[k];
        proof {
            assert(gv[k as int] == lang@);
            assert(gv.take(k + 1).drop_last() =~= gv.take(k as int));
            assert(gv.take(k + 1).last() == gv[k as int]);
        }
        let included = match lookup_ids(support, &lang.id) {
            Some(ids) => {
                if ids.len() > 0 {
                    match expand_language(lang, labels, ids) {
                        Ok(out) => {
                            outs.push(out);
                            proof {
                                assert(outputs_view(outs@) =~= spec_outputs(
                                    gv.take(k + 1),
                                    lbv,
                                    spv,
                                ));
                            }
                        },
                        Err(e) => {
                            let err = TemplateError { kind: e, lang: clone_bytes(&lang.name) };
                            proof {
                                assert(!lang_ok(gv[k as int], lbv, spv));
                                assert(failure_witness(
                                    gv,
                                    lbv,
                                    spv,
                                    err.kind,
                                    err.lang@,
                                    k as int,
                                ));
                            }
                            return Err(err);
                        },
                    }
                    true
                } else {
                    false
                }
            },
            None => false,
        };
        if !included {
            proof {
                assert(lookup_support(spv, gv[k as int].id).len() == 0);
                assert(outputs_view(outs@) =~= spec_outputs(gv.take(k + 1), lbv, spv));
            }
        }
        k += 1;
    }
    proof {
        assert(gv.take(n as int) =~= gv);
    }
    Ok(outs)
}

} // verus!
