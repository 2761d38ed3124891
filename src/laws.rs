//! Properties of reconciliation that hold for all reports.

use vstd::prelude::*;
use crate::meta::{MetaModel, combined};
use crate::parse::{
    XmlEvent, ParseFailure, reference_soups, reference_step, present_attributes, attribute_lookup,
    package_reference_tag, declares_exactly, lemma_error_persists, manifest_dependencies, json_object_text,
};
use vstd::string::StringSliceAdditionalSpecFns;
use crate::soup::{
    ContextModel, SoupModel, merged_soups, reconciled, names_distinct, paths_distinct,
    is_last_named, is_first_with_path,
};

verus! {

/// Curated metadata wins: every key of `base` keeps its value, every key that
/// only `patch` holds is added with its value, and no other key appears.
pub proof fn lemma_curated_keys_kept(base: MetaModel, patch: MetaModel)
    ensures
        forall|k: Seq<char>| #[trigger]
            combined(base, patch).contains_key(k) <==> base.contains_key(k) || patch.contains_key(k),
        forall|k: Seq<char>| base.contains_key(k) ==> #[trigger] combined(base, patch)[k] == base[k],
        forall|k: Seq<char>|
            !base.contains_key(k) && patch.contains_key(k) ==> #[trigger] combined(base, patch)[k] == patch[k],
{
}

/// Combining metadata with itself gives it back.
pub proof fn lemma_combine_self(m: MetaModel)
    ensures
        combined(m, m) == m,
{
    assert(combined(m, m) =~= m);
}

/// Merging a snapshot's components with themselves gives them back.
pub proof fn lemma_merge_self(s: Seq<SoupModel>)
    requires
        names_distinct(s),
    ensures
        merged_soups(s, s) == s,
{
    assert forall|j: int| 0 <= j < s.len() implies #[trigger] merged_soups(s, s)[j] == s[j] by {
        assert(is_last_named(s, j, s[j].name));
        let k = choose|k: int| is_last_named(s, k, s[j].name);
        assert(k == j);
        lemma_combine_self(s[j].meta);
    }
    assert(merged_soups(s, s) =~= s);
}

/// Reconciling a report with itself changes nothing: no metadata is lost or
/// duplicated, and every component keeps its name and version.
pub proof fn lemma_reapply_is_identity(r: Seq<ContextModel>)
    requires
        paths_distinct(r),
        forall|i: int| 0 <= i < r.len() ==> names_distinct(#[trigger] r[i].soups),
    ensures
        reconciled(r, r) == r,
{
    assert forall|i: int| 0 <= i < r.len() implies #[trigger] reconciled(r, r)[i] == r[i] by {
        assert(is_first_with_path(r, i, r[i].path));
        let k = choose|k: int| is_first_with_path(r, k, r[i].path);
        assert(k == i);
        lemma_merge_self(r[i].soups);
    }
    assert(reconciled(r, r) =~= r);
}

/// The components of a merged snapshot are exactly the scanned ones, in the
/// scan's order, with the scanned names and versions: base components the scan
/// no longer holds are dropped, and version updates always win.
pub proof fn lemma_components_follow_scan(bs: Seq<SoupModel>, is: Seq<SoupModel>)
    ensures
        merged_soups(bs, is).len() == is.len(),
        forall|j: int|
            0 <= j < is.len() ==> (#[trigger] merged_soups(bs, is)[j]).name == is[j].name
                && merged_soups(bs, is)[j].version == is[j].version,
{
}

/// A scanned component whose name the base holds keeps the base component's
/// metadata and gains only the keys the base lacks.
pub proof fn lemma_matched_meta_kept(bs: Seq<SoupModel>, is: Seq<SoupModel>, j: int, k: int)
    requires
        names_distinct(bs),
        names_distinct(is),
        0 <= j < is.len(),
        0 <= k < bs.len(),
        bs[k].name == is[j].name,
    ensures
        merged_soups(bs, is)[j].meta == combined(bs[k].meta, is[j].meta),
{
    assert(is_last_named(bs, k, is[j].name));
    let c = choose|c: int| is_last_named(bs, c, is[j].name);
    assert(c == k);
}

/// A scanned component whose name the base does not hold is kept as scanned.
pub proof fn lemma_fresh_component_unchanged(bs: Seq<SoupModel>, is: Seq<SoupModel>, j: int)
    requires
        0 <= j < is.len(),
        forall|k: int| 0 <= k < bs.len() ==> bs[k].name != is[j].name,
    ensures
        merged_soups(bs, is)[j] == is[j],
{
}

/// The merged report holds exactly the scanned paths, in the scan's order:
/// paths only the base holds are pruned.
pub proof fn lemma_paths_follow_scan(base: Seq<ContextModel>, incoming: Seq<ContextModel>)
    ensures
        reconciled(base, incoming).len() == incoming.len(),
        forall|i: int|
            0 <= i < incoming.len() ==> (#[trigger] reconciled(base, incoming)[i]).path == incoming[i].path,
{
}

/// A scanned snapshot whose path the base does not hold is added as scanned.
pub proof fn lemma_fresh_path_unchanged(base: Seq<ContextModel>, incoming: Seq<ContextModel>, i: int)
    requires
        0 <= i < incoming.len(),
        forall|k: int| 0 <= k < base.len() ==> base[k].path != incoming[i].path,
    ensures
        reconciled(base, incoming)[i] == incoming[i],
{
}

/// A project file whose events declare no dependency and hold no malformed
/// part yields no component and no error.
pub proof fn lemma_no_declarations_no_components(evs: Seq<XmlEvent>, dm: MetaModel)
    requires
        forall|i: int| 0 <= i < evs.len() ==> match #[trigger] evs[i] {
            XmlEvent::Start { name, attributes } => name@ != package_reference_tag(),
            XmlEvent::Invalid { message } => false,
            _ => true,
        },
    ensures
        reference_soups(evs, dm) == Ok::<Seq<SoupModel>, ParseFailure>(Seq::empty()),
    decreases evs.len(),
{
    if evs.len() > 0 {
        assert forall|i: int| 0 <= i < evs.drop_last().len() implies match #[trigger] evs.drop_last()[i] {
            XmlEvent::Start { name, attributes } => name@ != package_reference_tag(),
            XmlEvent::Invalid { message } => false,
            _ => true,
        } by {
            assert(evs.drop_last()[i] == evs[i]);
        }
        lemma_no_declarations_no_components(evs.drop_last(), dm);
    }
}

/// A dependency declaration of a project file that lacks its `Include` or its
/// `Version` attribute makes the whole file an error.
pub proof fn lemma_missing_attribute_fails(evs: Seq<XmlEvent>, i: int, dm: MetaModel)
    requires
        0 <= i < evs.len(),
        evs[i] is Start,
        evs[i]->Start_name@ == package_reference_tag(),
        attribute_lookup(present_attributes(evs[i]->Start_attributes@), "Include".spec_bytes()) is None
            || attribute_lookup(present_attributes(evs[i]->Start_attributes@), "Version".spec_bytes()) is None,
    ensures
        reference_soups(evs, dm) is Err,
{
    let pre = evs.subrange(0, i + 1);
    assert(pre.drop_last() =~= evs.subrange(0, i));
    assert(pre.last() == evs[i]);
    match reference_soups(evs.subrange(0, i), dm) {
        Err(e) => {},
        Ok(acc) => {
            assert(reference_step(acc, evs[i], dm) is Err);
        },
    }
    lemma_error_persists(evs, i + 1, dm);
}

/// A package manifest that is a JSON object without a `dependencies` member
/// declares nothing.
pub proof fn lemma_package_without_dependencies(content: Seq<char>)
    requires
        json_object_text(content) is Some,
        !json_object_text(content)->Some_0.contains_key("dependencies"@),
    ensures
        manifest_dependencies(content) == Some(vstd::map::Map::<Seq<char>, Seq<char>>::empty()),
{
}

/// Components that declare exactly an empty set of dependencies are none.
pub proof fn lemma_declares_nothing(s: Seq<SoupModel>, dm: MetaModel)
    requires
        declares_exactly(s, vstd::map::Map::empty(), dm),
    ensures
        s.len() == 0,
{
    if s.len() > 0 {
        assert(vstd::map::Map::<Seq<char>, Seq<char>>::empty().contains_key(s[0].name));
    }
}

} // verus!
