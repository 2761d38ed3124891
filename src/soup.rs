//! Components, manifest snapshots and reports, and the reconciliation of a
//! freshly scanned report into a persisted one.

use vstd::prelude::*;
use crate::meta::{Metadata, MetaModel, meta_view, meta_clone, combine_meta, combined};

verus! {

/// One discovered dependency.
#[derive(Debug)]
pub struct Soup {
    pub name: String,
    pub version: String,
    pub meta: Metadata,
}

/// The mathematical value of a component.
pub struct SoupModel {
    pub name: Seq<char>,
    pub version: Seq<char>,
    pub meta: MetaModel,
}

impl View for Soup {
    type V = SoupModel;

    open spec fn view(&self) -> SoupModel {
        SoupModel { name: self.name@, version: self.version@, meta: meta_view(self.meta) }
    }
}

pub open spec fn soups_view(s: Seq<Soup>) -> Seq<SoupModel> {
    s.map_values(|x: Soup| x@)
}

/// No two components share a name.
pub open spec fn names_distinct(s: Seq<SoupModel>) -> bool {
    forall|a: int, b: int| 0 <= a < b < s.len() ==> s[a].name != s[b].name
}

/// `k` is the last position of `bs` that holds a component named `name`.
pub open spec fn is_last_named(bs: Seq<SoupModel>, k: int, name: Seq<char>) -> bool {
    0 <= k < bs.len() && bs[k].name == name && forall|m: int| k < m < bs.len() ==> bs[m].name != name
}

/// Some component before position `j` of `is` has the name of the one at `j`.
pub open spec fn named_earlier(is: Seq<SoupModel>, j: int) -> bool {
    exists|k: int| 0 <= k < j && is[k].name == is[j].name
}

/// The component that results from the scanned component at position `j` of
/// `is`: the first scanned component of a name takes the metadata of the last
/// base component of that name as curated metadata; any other is kept as scanned.
pub open spec fn merged_soup(bs: Seq<SoupModel>, is: Seq<SoupModel>, j: int) -> SoupModel {
    if !named_earlier(is, j) && exists|k: int| is_last_named(bs, k, is[j].name) {
        let k = choose|k: int| is_last_named(bs, k, is[j].name);
        SoupModel { name: is[j].name, version: is[j].version, meta: combined(bs[k].meta, is[j].meta) }
    } else {
        is[j]
    }
}

/// The components of a snapshot present both in the base and in the scan.
pub open spec fn merged_soups(bs: Seq<SoupModel>, is: Seq<SoupModel>) -> Seq<SoupModel> {
    Seq::new(is.len(), |j: int| merged_soup(bs, is, j))
}

fn copy_soup(s: &Soup) -> (r: Soup)
    ensures
        r@ == s@,
{
    Soup { name: s.name.clone(), version: s.version.clone(), meta: meta_clone(&s.meta) }
}

fn last_named(bs: &Vec<Soup>, name: &String) -> (r: Option<usize>)
    ensures
        match r {
            Some(k) => is_last_named(soups_view(bs@), k as int, name@),
            None => forall|k: int| 0 <= k < bs@.len() ==> bs@[k].name@ != name@,
        },
{
    let mut i = bs.len();
    while i > 0
        invariant
            i <= bs@.len(),
            forall|m: int| i <= m < bs@.len() ==> bs@[m].name@ != name@,
        decreases i,
    {
        i = i - 1;
        if bs[i].name == *name {
            return Some(i);
        }
    }
    None
}

fn named_before(is: &Vec<Soup>, j: usize) -> (r: bool)
    requires
        j < is@.len(),
    ensures
        r == named_earlier(soups_view(is@), j as int),
{
    let mut k: usize = 0;
    while k < j
        invariant
            k <= j < is@.len(),
            forall|m: int| 0 <= m < k ==> is@[m].name@ != is@[j as int].name@,
        decreases j - k,
    {
        if is[k].name == is[j].name {
            assert(soups_view(is@)[k as int].name == soups_view(is@)[j as int].name);
            return true;
        }
        k = k + 1;
    }
    assert forall|m: int| 0 <= m < j implies soups_view(is@)[m].name != soups_view(is@)[j as int].name by {
        assert(is@[m].name@ != is@[j as int].name@);
    }
    false
}

/// Reconciles the components of one manifest present in both reports: names
/// and versions come from the scan, curated metadata of a matching base
/// component is kept and only completed by the scan's keys.
pub fn merge_soups(base: &Vec<Soup>, incoming: &Vec<Soup>) -> (r: Vec<Soup>)
    ensures
        soups_view(r@) == merged_soups(soups_view(base@), soups_view(incoming@)),
{
    let ghost bs = soups_view(base@);
    let ghost is = soups_view(incoming@);
    let mut r: Vec<Soup> = Vec::new();
    let mut j: usize = 0;
    while j < incoming.len()
        invariant
            j <= incoming@.len(),
            r@.len() == j,
            bs == soups_view(base@),
            is == soups_view(incoming@),
            forall|a: int| 0 <= a < j ==> #[trigger] r@[a]@ == merged_soup(bs, is, a),
        decreases incoming@.len() - j,
    {
        let s = &incoming[j];
        let found = if named_before(incoming, j) {
            None
        } else {
            last_named(base, &s.name)
        };
        match found {
            Some(k) => {
                let meta = combine_meta(meta_clone(&base[k].meta), meta_clone(&s.meta));
                r.push(Soup { name: s.name.clone(), version: s.version.clone(), meta });
                proof {
                    let c = choose|c: int| is_last_named(bs, c, is[j as int].name);
                    assert(is_last_named(bs, c, is[j as int].name));
                    assert(c == k) by {
                        if c < k {
                            assert(bs[k as int].name == is[j as int].name);
                        } else if k < c {
                            assert(bs[c].name == is[j as int].name);
                        }
                    }
                }
            },
            None => {
                r.push(copy_soup(s));
                proof {
                    if !named_earlier(is, j as int) {
                        assert forall|c: int| !is_last_named(bs, c, is[j as int].name) by {
                            if 0 <= c < bs.len() {
                                assert(base@[c].name@ != s.name@);
                            }
                        }
                    }
                }
            },
        }
        assert(r@[j as int]@ == merged_soup(bs, is, j as int));
        j = j + 1;
    }
    assert(soups_view(r@) =~= merged_soups(bs, is));
    r
}

/// One manifest file: its path and the components it declares.
#[derive(Debug)]
pub struct SoupContext {
    pub path: String,
    pub soups: Vec<Soup>,
}

/// The mathematical value of a manifest snapshot.
pub struct ContextModel {
    pub path: Seq<char>,
    pub soups: Seq<SoupModel>,
}

impl View for SoupContext {
    type V = ContextModel;

    open spec fn view(&self) -> ContextModel {
        ContextModel { path: self.path@, soups: soups_view(self.soups@) }
    }
}

/// No two snapshots share a path.
pub open spec fn paths_distinct(cs: Seq<ContextModel>) -> bool {
    forall|a: int, b: int| 0 <= a < b < cs.len() ==> cs[a].path != cs[b].path
}

/// `k` is the first position of `cs` that holds the snapshot of `path`.
pub open spec fn is_first_with_path(cs: Seq<ContextModel>, k: int, path: Seq<char>) -> bool {
    0 <= k < cs.len() && cs[k].path == path && forall|m: int| 0 <= m < k ==> cs[m].path != path
}

/// The snapshot that results from the scanned snapshot `c`: where the base
/// holds the same path, their components are merged; otherwise `c` as scanned.
pub open spec fn reconciled_context(base: Seq<ContextModel>, c: ContextModel) -> ContextModel {
    if exists|k: int| is_first_with_path(base, k, c.path) {
        let k = choose|k: int| is_first_with_path(base, k, c.path);
        ContextModel { path: c.path, soups: merged_soups(base[k].soups, c.soups) }
    } else {
        c
    }
}

/// The report that results from merging the scan `incoming` into `base`: one
/// snapshot per scanned path, in the scan's order.
pub open spec fn reconciled(base: Seq<ContextModel>, incoming: Seq<ContextModel>) -> Seq<ContextModel> {
    Seq::new(incoming.len(), |i: int| reconciled_context(base, incoming[i]))
}

/// A report: one snapshot per manifest path.
#[derive(Debug)]
pub struct SoupContexts {
    contexts: Vec<SoupContext>,
}

impl View for SoupContexts {
    type V = Seq<ContextModel>;

    closed spec fn view(&self) -> Seq<ContextModel> {
        self.contexts@.map_values(|c: SoupContext| c@)
    }
}

fn first_with_path(cs: &Vec<SoupContext>, path: &String) -> (r: Option<usize>)
    ensures
        match r {
            Some(k) => is_first_with_path(cs@.map_values(|c: SoupContext| c@), k as int, path@),
            None => forall|k: int| 0 <= k < cs@.len() ==> cs@[k].path@ != path@,
        },
{
    let mut i: usize = 0;
    while i < cs.len()
        invariant
            i <= cs@.len(),
            forall|m: int| 0 <= m < i ==> cs@[m].path@ != path@,
        decreases cs@.len() - i,
    {
        if cs[i].path == *path {
            return Some(i);
        }
        i = i + 1;
    }
    None
}

fn copy_soups(s: &Vec<Soup>) -> (r: Vec<Soup>)
    ensures
        soups_view(r@) == soups_view(s@),
{
    let mut r: Vec<Soup> = Vec::new();
    let mut i: usize = 0;
    while i < s.len()
        invariant
            i <= s@.len(),
            r@.len() == i,
            forall|a: int| 0 <= a < i ==> #[trigger] r@[a]@ == s@[a]@,
        decreases s@.len() - i,
    {
        r.push(copy_soup(&s[i]));
        i = i + 1;
    }
    assert(soups_view(r@) =~= soups_view(s@));
    r
}

impl SoupContexts {
    /// Snapshots are keyed by path, and components by name within a snapshot.
    pub closed spec fn wf(&self) -> bool {
        &&& paths_distinct(self@)
        &&& forall|i: int| 0 <= i < self@.len() ==> names_distinct(#[trigger] self@[i].soups)
    }

    /// A report with no snapshot.
    pub fn empty() -> (r: SoupContexts)
        ensures
            r@ == Seq::<ContextModel>::empty(),
            r.wf(),
    {
        let r = SoupContexts { contexts: Vec::new() };
        assert(r@ =~= Seq::<ContextModel>::empty());
        r
    }

    /// The snapshots, in order.
    pub fn vec(&self) -> (r: &Vec<SoupContext>)
        ensures
            r@.map_values(|c: SoupContext| c@) == self@,
    {
        &self.contexts
    }

    /// The number of snapshots.
    pub fn len(&self) -> (r: usize)
        ensures
            r == self@.len(),
    {
        self.contexts.len()
    }

    /// The snapshots, in order, taken out of the report.
    pub fn into_vec(self) -> (r: Vec<SoupContext>)
        ensures
            r@.map_values(|c: SoupContext| c@) == self@,
    {
        self.contexts
    }

    /// The components recorded for `path`, if the report holds it.
    pub fn get(&self, path: &str) -> (r: Option<&Vec<Soup>>)
        ensures
            match r {
                Some(v) => exists|k: int| is_first_with_path(self@, k, path@) && soups_view(v@) == self@[k].soups,
                None => forall|k: int| 0 <= k < self@.len() ==> self@[k].path != path@,
            },
    {
        let p = path.to_owned();
        match first_with_path(&self.contexts, &p) {
            Some(k) => {
                assert(self@[k as int] == self.contexts@[k as int]@);
                assert(is_first_with_path(self@, k as int, path@));
                Some(&self.contexts[k].soups)
            },
            None => None,
        }
    }

    /// Records `soups` as the components of `path`, replacing what the report
    /// held for it; a new path goes last.
    pub fn insert(&mut self, path: String, soups: Vec<Soup>)
        ensures
            (exists|k: int| is_first_with_path(old(self)@, k, path@)) ==> final(self)@ == old(self)@.update(
                choose|k: int| is_first_with_path(old(self)@, k, path@),
                ContextModel { path: path@, soups: soups_view(soups@) },
            ),
            !(exists|k: int| is_first_with_path(old(self)@, k, path@)) ==> final(self)@ == old(self)@.push(
                ContextModel { path: path@, soups: soups_view(soups@) },
            ),
            old(self).wf() && names_distinct(soups_view(soups@)) ==> final(self).wf(),
    {
        let ghost before = self@;
        let ghost c = ContextModel { path: path@, soups: soups_view(soups@) };
        match first_with_path(&self.contexts, &path) {
            Some(k) => {
                proof {
                    let q = choose|q: int| is_first_with_path(before, q, path@);
                    assert(is_first_with_path(before, q, path@));
                    assert(q == k) by {
                        if q < k {
                            assert(before[q].path == path@);
                        } else if k < q {
                            assert(before[k as int].path == path@);
                        }
                    }
                }
                self.contexts.set(k, SoupContext { path, soups });
                assert(self@ =~= before.update(k as int, c));
            },
            None => {
                proof {
                    assert forall|q: int| !is_first_with_path(before, q, path@) by {
                        if 0 <= q < before.len() {
                            assert(self.contexts@[q].path@ != path@);
                        }
                    }
                }
                self.contexts.push(SoupContext { path, soups });
                assert(self@ =~= before.push(c));
            },
        }
    }

    /// Merges the freshly scanned report `other` into this one: exactly the
    /// scanned paths remain, in the scan's order; components present in both
    /// take the scanned name and version and keep their curated metadata,
    /// completed by keys only the scan offers.
    pub fn apply(&mut self, other: SoupContexts)
        ensures
            final(self)@ == reconciled(old(self)@, other@),
            other.wf() ==> final(self).wf(),
    {
        let ghost base = self@;
        let ghost inc = other@;
        let mut r: Vec<SoupContext> = Vec::new();
        let mut i: usize = 0;
        while i < other.contexts.len()
            invariant
                i <= other.contexts@.len(),
                r@.len() == i,
                base == self@,
                inc == other@,
                base == self.contexts@.map_values(|c: SoupContext| c@),
                inc == other.contexts@.map_values(|c: SoupContext| c@),
                forall|a: int| 0 <= a < i ==> #[trigger] r@[a]@ == reconciled_context(base, inc[a]),
            decreases other.contexts@.len() - i,
        {
            let c = &other.contexts[i];
            let soups = match first_with_path(&self.contexts, &c.path) {
                Some(k) => {
                    let m = merge_soups(&self.contexts[k].soups, &c.soups);
                    proof {
                        let q = choose|q: int| is_first_with_path(base, q, inc[i as int].path);
                        assert(is_first_with_path(base, q, inc[i as int].path));
                        assert(q == k) by {
                            if q < k {
                                assert(base[q].path == inc[i as int].path);
                            } else if k < q {
                                assert(base[k as int].path == inc[i as int].path);
                            }
                        }
                    }
                    m
                },
                None => {
                    proof {
                        assert forall|q: int| !is_first_with_path(base, q, inc[i as int].path) by {
                            if 0 <= q < base.len() {
                                assert(self.contexts@[q].path@ != c.path@);
                            }
                        }
                    }
                    copy_soups(&c.soups)
                },
            };
            r.push(SoupContext { path: c.path.clone(), soups });
            assert(r@[i as int]@ == reconciled_context(base, inc[i as int]));
            i = i + 1;
        }
        self.contexts = r;
        assert(self@ =~= reconciled(base, inc));
    }
}

} // verus!
