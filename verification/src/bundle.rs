use vstd::prelude::*;

use crate::archetype::{
    byte_rows, distinct, find_from, ids_of, lemma_find_from, lemma_find_unique,
    retained_infos_from, retained_vals_from, TypeInfo,
};

verus! {

/// One component record ready to cross the type-erased boundary: its
/// registry entry and its bytes.
pub struct Component {
    pub info: TypeInfo,
    pub value: Vec<u8>,
}

impl Component {
    /// Pairs a registry entry with one record of its size.
    pub fn new(info: TypeInfo, value: Vec<u8>) -> (r: Self)
        requires
            value@.len() == info.size,
        ensures
            r.info == info,
            r.value@ == value@,
    {
        Component { info, value }
    }
}

/// Moves a component's record across the type-erased boundary: the typed
/// shell is consumed and the caller takes ownership of the bytes, so the
/// record is never destructed twice.
pub fn into_ptr(component: Component) -> (r: Vec<u8>)
    ensures
        r@ == component.value@,
{
    component.value
}

/// The partial map from type identifier to record described by a list of
/// identifiers and a parallel list of records.
pub open spec fn tid_map(ids: Seq<u64>, vals: Seq<Seq<u8>>) -> Map<u64, Seq<u8>> {
    Map::new(|tid: u64| ids.contains(tid), |tid: u64| vals[find_from(ids, tid, 0)])
}

/// The partial map from type identifier to record described by a list of
/// registry entries and a parallel list of records.
pub open spec fn bundle_map(infos: Seq<TypeInfo>, vals: Seq<Seq<u8>>) -> Map<u64, Seq<u8>> {
    tid_map(ids_of(infos), vals)
}

/// A fixed ordered list of component types together with one record per
/// type: the unit of insertion and removal.
pub struct Bundle {
    pub infos: Vec<TypeInfo>,
    pub values: Vec<Vec<u8>>,
}

impl Bundle {
    /// The type identifiers, in declared order.
    pub open spec fn ids(self) -> Seq<u64> {
        ids_of(self.infos@)
    }

    /// The records, in declared order.
    pub open spec fn vals(self) -> Seq<Seq<u8>> {
        byte_rows(self.values@)
    }

    /// One record per entry, no type twice, and every record of its type's
    /// size.
    pub open spec fn wf(self) -> bool {
        &&& self.values@.len() == self.infos@.len()
        &&& distinct(self.ids())
        &&& forall|k: int| 0 <= k < self.infos@.len()
            ==> (#[trigger] self.values@[k])@.len() == self.infos@[k].size
    }

    /// The map from type identifier to record that this bundle describes.
    pub open spec fn map(self) -> Map<u64, Seq<u8>> {
        bundle_map(self.infos@, byte_rows(self.values@))
    }

    /// Builds an empty bundle.
    pub fn new() -> (r: Self)
        ensures
            r.wf(),
            r.infos@.len() == 0,
            r.values@.len() == 0,
    {
        Bundle { infos: Vec::new(), values: Vec::new() }
    }

    /// Number of component types in this bundle.
    pub fn len(&self) -> (r: usize)
        ensures
            r == self.infos@.len(),
    {
        self.infos.len()
    }

    /// Appends one component; its type must not be in the bundle yet.
    pub fn push(&mut self, component: Component)
        requires
            old(self).wf(),
            !old(self).ids().contains(component.info.id),
            component.value@.len() == component.info.size,
        ensures
            final(self).wf(),
            final(self).infos@ == old(self).infos@.push(component.info),
            final(self).values@ == old(self).values@.push(component.value),
    {
        self.infos.push(component.info);
        self.values.push(component.value);
        proof {
            assert(final(self).ids() =~= old(self).ids().push(component.info.id));
            assert forall|i: int, j: int| 0 <= i < j < final(self).ids().len()
                implies final(self).ids()[i] != final(self).ids()[j] by {
                if j == final(self).ids().len() - 1 {
                    assert(old(self).ids().contains(old(self).ids()[i]));
                }
            }
        }
    }

    /// The type identifiers, in declared order.
    pub fn type_ids(&self) -> (r: Vec<u64>)
        ensures
            r@ == self.ids(),
    {
        ids_vec(&self.infos)
    }
}

/// The identifier of each registry entry, in order.
pub fn ids_vec(infos: &Vec<TypeInfo>) -> (r: Vec<u64>)
    ensures
        r@ == ids_of(infos@),
{
    let n: usize = infos.len();
    let mut r: Vec<u64> = Vec::new();
    let mut k: usize = 0;
    while k < n
        invariant
            k <= n,
            n == infos@.len(),
            r@ =~= ids_of(infos@).take(k as int),
        decreases n - k,
    {
        r.push(infos[k].id);
        k = k + 1;
    }
    proof {
        assert(r@ =~= ids_of(infos@));
    }
    r
}

/// An owned copy of a list of registry entries.
pub fn clone_infos(infos: &Vec<TypeInfo>) -> (r: Vec<TypeInfo>)
    ensures
        r@ == infos@,
{
    let n: usize = infos.len();
    let mut r: Vec<TypeInfo> = Vec::new();
    let mut k: usize = 0;
    while k < n
        invariant
            k <= n,
            n == infos@.len(),
            r@ =~= infos@.take(k as int),
        decreases n - k,
    {
        r.push(infos[k]);
        k = k + 1;
    }
    proof {
        assert(r@ =~= infos@);
    }
    r
}

/// Concatenating two lists with disjoint type sets concatenates their maps,
/// the right side never shadowing the left.
pub proof fn lemma_bundle_map_concat(
    i1: Seq<TypeInfo>,
    v1: Seq<Seq<u8>>,
    i2: Seq<TypeInfo>,
    v2: Seq<Seq<u8>>,
)
    requires
        v1.len() == i1.len(),
        v2.len() == i2.len(),
        forall|tid: u64| !(ids_of(i1).contains(tid) && ids_of(i2).contains(tid)),
    ensures
        bundle_map(i1 + i2, v1 + v2) == bundle_map(i1, v1).union_prefer_right(
            bundle_map(i2, v2),
        ),
{
    let ic = i1 + i2;
    let vc = v1 + v2;
    let idc = ids_of(ic);
    let id1 = ids_of(i1);
    let id2 = ids_of(i2);
    assert(idc =~= id1 + id2);
    assert forall|tid: u64| #[trigger] idc.contains(tid)
        implies id1.contains(tid) || id2.contains(tid) by {
        let k = choose|k: int| 0 <= k < idc.len() && idc[k] == tid;
        if k < id1.len() {
            assert(id1[k] == tid);
        } else {
            assert(id2[k - id1.len()] == tid);
        }
    }
    assert forall|tid: u64| id1.contains(tid) || id2.contains(tid)
        implies #[trigger] idc.contains(tid) by {
        if id1.contains(tid) {
            let k = choose|k: int| 0 <= k < id1.len() && id1[k] == tid;
            assert(idc[k] == tid);
        } else {
            let k = choose|k: int| 0 <= k < id2.len() && id2[k] == tid;
            assert(idc[id1.len() + k] == tid);
        }
    }
    assert forall|tid: u64| #[trigger] idc.contains(tid)
        implies bundle_map(ic, vc)[tid] == bundle_map(i1, v1).union_prefer_right(
            bundle_map(i2, v2),
        )[tid] by {
        lemma_find_from(idc, tid, 0);
        let r = find_from(idc, tid, 0);
        if id1.contains(tid) {
            lemma_find_from(id1, tid, 0);
            let r1 = find_from(id1, tid, 0);
            assert(idc[r1] == tid);
            assert(r <= r1);
            assert(r >= r1) by {
                if r < r1 {
                    assert(idc[r] == id1[r]);
                }
            }
            assert(vc[r] == v1[r1]);
        } else {
            lemma_find_from(id2, tid, 0);
            let r2 = find_from(id2, tid, 0);
            assert(idc[id1.len() + r2] == tid);
            assert(r <= id1.len() + r2);
            assert(r >= id1.len()) by {
                if r < id1.len() {
                    assert(idc[r] == id1[r]);
                    assert(id1.contains(tid));
                }
            }
            assert(r >= id1.len() + r2) by {
                if r < id1.len() + r2 {
                    assert(idc[r] == id2[r - id1.len()]);
                }
            }
            assert(vc[r] == v2[r2]);
        }
    }
    assert(bundle_map(ic, vc) =~= bundle_map(i1, v1).union_prefer_right(bundle_map(i2, v2)));
}

/// Element-wise characterization of the retained lists: each retained
/// entry and record comes from one kept column, and every kept column is
/// retained.
pub proof fn lemma_retained_elems(
    types: Seq<TypeInfo>,
    row: Seq<Seq<u8>>,
    dropped: Seq<u64>,
    k: int,
)
    requires
        0 <= k <= types.len(),
        row.len() == types.len(),
    ensures
        retained_infos_from(types, dropped, k).len()
            == retained_vals_from(types, row, dropped, k).len(),
        forall|x: int| 0 <= x < retained_infos_from(types, dropped, k).len()
            ==> exists|j: int|
                k <= j < types.len()
                    && #[trigger] retained_infos_from(types, dropped, k)[x] == types[j]
                    && retained_vals_from(types, row, dropped, k)[x] == row[j]
                    && !dropped.contains(types[j].id),
        forall|j: int|
            k <= j < types.len() && !dropped.contains((#[trigger] types[j]).id)
                ==> retained_infos_from(types, dropped, k).contains(types[j]),
    decreases types.len() - k,
{
    if k < types.len() {
        lemma_retained_elems(types, row, dropped, k + 1);
        let ri = retained_infos_from(types, dropped, k);
        let rv = retained_vals_from(types, row, dropped, k);
        let ri1 = retained_infos_from(types, dropped, k + 1);
        let rv1 = retained_vals_from(types, row, dropped, k + 1);
        if !dropped.contains(types[k].id) {
            assert(ri == seq![types[k]] + ri1);
            assert(rv == seq![row[k]] + rv1);
            assert forall|x: int| 0 <= x < ri.len()
                implies exists|j: int|
                    k <= j < types.len() && #[trigger] ri[x] == types[j] && rv[x] == row[j]
                        && !dropped.contains(types[j].id) by {
                if x == 0 {
                    assert(ri[0] == types[k] && rv[0] == row[k]
                        && !dropped.contains(types[k].id));
                } else {
                    assert(ri[x] == ri1[x - 1] && rv[x] == rv1[x - 1]);
                    let j = choose|j: int|
                        k + 1 <= j < types.len() && #[trigger] ri1[x - 1] == types[j]
                            && rv1[x - 1] == row[j] && !dropped.contains(types[j].id);
                    assert(ri[x] == types[j] && rv[x] == row[j]);
                }
            }
            assert forall|j: int|
                k <= j < types.len() && !dropped.contains((#[trigger] types[j]).id)
                implies ri.contains(types[j]) by {
                if j == k {
                    assert(ri[0] == types[k]);
                } else {
                    assert(ri1.contains(types[j]));
                    let x = choose|x: int| 0 <= x < ri1.len() && ri1[x] == types[j];
                    assert(ri[x + 1] == types[j]);
                }
            }
        } else {
            assert(ri == ri1);
            assert(rv == rv1);
            assert forall|x: int| 0 <= x < ri.len()
                implies exists|j: int|
                    k <= j < types.len() && #[trigger] ri[x] == types[j] && rv[x] == row[j]
                        && !dropped.contains(types[j].id) by {
                let j = choose|j: int|
                    k + 1 <= j < types.len() && #[trigger] ri1[x] == types[j]
                        && rv1[x] == row[j] && !dropped.contains(types[j].id);
                assert(ri[x] == types[j] && rv[x] == row[j]);
            }
            assert forall|j: int|
                k <= j < types.len() && !dropped.contains((#[trigger] types[j]).id)
                implies ri.contains(types[j]) by {
                assert(j != k);
                assert(ri1.contains(types[j]));
                let x = choose|x: int| 0 <= x < ri1.len() && ri1[x] == types[j];
                assert(ri[x] == types[j]);
            }
        }
    }
}

/// For distinct column types, the retained lists describe exactly the old
/// row's map with the dropped identifiers removed.
pub proof fn lemma_retained_map(
    types: Seq<TypeInfo>,
    row: Seq<Seq<u8>>,
    dropped: Seq<u64>,
)
    requires
        row.len() == types.len(),
        distinct(ids_of(types)),
    ensures
        bundle_map(
            retained_infos_from(types, dropped, 0),
            retained_vals_from(types, row, dropped, 0),
        ) == bundle_map(types, row).remove_keys(dropped.to_set()),
        distinct(ids_of(retained_infos_from(types, dropped, 0))),
{
    let ri = retained_infos_from(types, dropped, 0);
    let rv = retained_vals_from(types, row, dropped, 0);
    lemma_retained_elems(types, row, dropped, 0);
    lemma_retained_ids_distinct(types, row, dropped, 0);
    let tids = ids_of(types);
    let rids = ids_of(ri);
    assert forall|tid: u64| #[trigger] rids.contains(tid)
        implies tids.contains(tid) && !dropped.contains(tid) by {
        let x = choose|x: int| 0 <= x < rids.len() && rids[x] == tid;
        let j = choose|j: int|
            0 <= j < types.len() && #[trigger] ri[x] == types[j] && rv[x] == row[j]
                && !dropped.contains(types[j].id);
        assert(tids[j] == tid);
    }
    assert forall|tid: u64| tids.contains(tid) && !dropped.contains(tid)
        implies #[trigger] rids.contains(tid) by {
        let j = choose|j: int| 0 <= j < tids.len() && tids[j] == tid;
        assert(!dropped.contains(types[j].id));
        assert(ri.contains(types[j]));
        let x = choose|x: int| 0 <= x < ri.len() && ri[x] == types[j];
        assert(rids[x] == tid);
    }
    assert forall|tid: u64| #[trigger] rids.contains(tid)
        implies bundle_map(ri, rv)[tid] == bundle_map(types, row)[tid] by {
        lemma_find_from(rids, tid, 0);
        let x = find_from(rids, tid, 0);
        let j = choose|j: int|
            0 <= j < types.len() && #[trigger] ri[x] == types[j] && rv[x] == row[j]
                && !dropped.contains(types[j].id);
        assert(tids[j] == tid);
        lemma_find_unique(tids, tid, j);
        assert(bundle_map(types, row)[tid] == row[j]);
        assert(bundle_map(ri, rv)[tid] == rv[x]);
    }
    assert(bundle_map(ri, rv) =~= bundle_map(types, row).remove_keys(dropped.to_set()));
}

/// For distinct column types, the retained identifiers are distinct too.
proof fn lemma_retained_ids_distinct(
    types: Seq<TypeInfo>,
    row: Seq<Seq<u8>>,
    dropped: Seq<u64>,
    k: int,
)
    requires
        0 <= k <= types.len(),
        row.len() == types.len(),
        distinct(ids_of(types)),
    ensures
        distinct(ids_of(retained_infos_from(types, dropped, k))),
    decreases types.len() - k,
{
    if k < types.len() {
        lemma_retained_ids_distinct(types, row, dropped, k + 1);
        if !dropped.contains(types[k].id) {
            lemma_retained_elems(types, row, dropped, k + 1);
            let ri = retained_infos_from(types, dropped, k);
            let ri1 = retained_infos_from(types, dropped, k + 1);
            let rids = ids_of(ri);
            let rids1 = ids_of(ri1);
            assert(rids =~= seq![types[k].id] + rids1);
            assert forall|x: int, y: int| 0 <= x < y < rids.len()
                implies rids[x] != rids[y] by {
                if x == 0 {
                    let j = choose|j: int|
                        k + 1 <= j < types.len() && #[trigger] ri1[y - 1] == types[j]
                            && retained_vals_from(types, row, dropped, k + 1)[y - 1] == row[j]
                            && !dropped.contains(types[j].id);
                    assert(rids[y] == ids_of(types)[j]);
                    assert(rids[0] == ids_of(types)[k]);
                } else {
                    assert(rids[x] == rids1[x - 1]);
                    assert(rids[y] == rids1[y - 1]);
                }
            }
        }
    }
}

} // verus!
