use vstd::prelude::*;

use crate::entity::Entity;

verus! {

/// Holds when no element of `s` occurs twice.
pub open spec fn distinct<T>(s: Seq<T>) -> bool {
    forall|i: int, j: int| 0 <= i < j < s.len() ==> s[i] != s[j]
}

/// Index of the first occurrence of `x` in `s` at or after position `k`,
/// or -1 if there is none.
pub open spec fn find_from<T>(s: Seq<T>, x: T, k: int) -> int
    decreases s.len() - k,
{
    if k < 0 || k >= s.len() {
        -1
    } else if s[k] == x {
        k
    } else {
        find_from(s, x, k + 1)
    }
}

pub proof fn lemma_find_from<T>(s: Seq<T>, x: T, k: int)
    requires
        0 <= k <= s.len(),
    ensures
        find_from(s, x, k) == -1 <==> (forall|j: int| k <= j < s.len() ==> s[j] != x),
        find_from(s, x, k) != -1 ==> k <= find_from(s, x, k) < s.len()
            && s[find_from(s, x, k)] == x
            && (forall|j: int| k <= j < find_from(s, x, k) ==> s[j] != x),
    decreases s.len() - k,
{
    if k < s.len() && s[k] != x {
        lemma_find_from(s, x, k + 1);
    }
}

pub proof fn lemma_find_unique<T>(s: Seq<T>, x: T, j: int)
    requires
        distinct(s),
        0 <= j < s.len(),
        s[j] == x,
    ensures
        find_from(s, x, 0) == j,
{
    lemma_find_from(s, x, 0);
    let r = find_from(s, x, 0);
    if r < j {
        assert(s[r] == s[j]);
    }
}

/// Identity and memory layout of one component type.
///
/// `id` is a process-wide stable tag for the concrete component type and is
/// the key wherever a type must be referenced without knowing it concretely.
/// `size` is the width in bytes of one component record of that type.
#[derive(Clone, Copy, PartialEq, Eq, Structural, Debug, Hash)]
pub struct TypeInfo {
    pub id: u64,
    pub size: usize,
}

impl TypeInfo {
    /// Builds the registry entry for one concrete component type.
    pub fn new(id: u64, size: usize) -> (r: Self)
        ensures
            r.id == id,
            r.size == size,
    {
        TypeInfo { id, size }
    }
}

/// Growable storage for one component type within one archetype: one byte
/// record per row slot.
///
/// A column owns `capacity` slots. Which prefix of them is live is decided
/// by the owning archetype; a dead slot holds an empty record.
pub struct ComponentData {
    pub rows: Vec<Vec<u8>>,
}

impl View for ComponentData {
    type V = Seq<Seq<u8>>;

    open spec fn view(&self) -> Seq<Seq<u8>> {
        Seq::new(self.rows@.len(), |i: int| self.rows@[i]@)
    }
}

impl ComponentData {
    /// Allocates a column of `count` empty slots.
    pub fn new(count: usize) -> (r: Self)
        ensures
            r@.len() == count,
            forall|i: int| 0 <= i < count ==> r@[i] == Seq::<u8>::empty(),
    {
        let mut rows: Vec<Vec<u8>> = Vec::new();
        let mut i: usize = 0;
        while i < count
            invariant
                i <= count,
                rows@.len() == i,
                forall|j: int| 0 <= j < i ==> rows@[j]@ == Seq::<u8>::empty(),
            decreases count - i,
        {
            rows.push(Vec::new());
            i = i + 1;
        }
        let r = ComponentData { rows };
        assert(forall|i: int| 0 <= i < count ==> r@[i] == Seq::<u8>::empty());
        r
    }

    /// Builds a column that takes ownership of already-filled slots.
    pub fn from_ptr(rows: Vec<Vec<u8>>) -> (r: Self)
        ensures
            r@.len() == rows@.len(),
            forall|i: int| 0 <= i < rows@.len() ==> r@[i] == rows@[i]@,
    {
        ComponentData { rows }
    }

    /// Number of slots in this column.
    pub fn len(&self) -> (r: usize)
        ensures
            r == self@.len(),
    {
        self.rows.len()
    }

    /// Borrows the record in one slot.
    pub fn get(&self, index: usize) -> (r: &Vec<u8>)
        requires
            index < self@.len(),
        ensures
            r@ == self@[index as int],
    {
        &self.rows[index]
    }

    /// Moves a record into one slot; the slot's previous record is destructed.
    pub fn set(&mut self, index: usize, value: Vec<u8>)
        requires
            index < old(self)@.len(),
        ensures
            final(self)@ =~= old(self)@.update(index as int, value@),
    {
        self.rows.set(index, value);
    }

    /// Moves the record out of one slot, leaving the slot dead (empty).
    pub fn take(&mut self, index: usize) -> (r: Vec<u8>)
        requires
            index < old(self)@.len(),
        ensures
            r@ == old(self)@[index as int],
            final(self)@ =~= old(self)@.update(index as int, Seq::<u8>::empty()),
    {
        let mut taken: Vec<u8> = Vec::new();
        self.rows.set_and_swap(index, &mut taken);
        taken
    }

    /// A borrow of every slot's record, in slot order.
    pub fn as_slice(&self) -> (r: &Vec<Vec<u8>>)
        ensures
            r@.len() == self@.len(),
            forall|i: int| 0 <= i < r@.len() ==> (#[trigger] r@[i])@ == self@[i],
    {
        &self.rows
    }

    /// Grows the column to `new_count` slots, preserving existing records.
    pub fn grow(&mut self, new_count: usize)
        requires
            old(self)@.len() <= new_count,
        ensures
            final(self)@.len() == new_count,
            forall|i: int| 0 <= i < old(self)@.len() ==> final(self)@[i] == old(self)@[i],
    {
        let mut i: usize = self.rows.len();
        while i < new_count
            invariant
                i == self@.len(),
                i <= new_count,
                old(self)@.len() <= i,
                forall|j: int| 0 <= j < old(self)@.len() ==> self@[j] == old(self)@[j],
            decreases new_count - i,
        {
            self.rows.push(Vec::new());
            i = i + 1;
        }
    }
}

/// The byte sequences held by a list of byte vectors.
pub open spec fn byte_rows(v: Seq<Vec<u8>>) -> Seq<Seq<u8>> {
    Seq::new(v.len(), |i: int| v[i]@)
}

/// The identifier sequence of a list of registry entries.
pub open spec fn ids_of(s: Seq<TypeInfo>) -> Seq<u64> {
    s.map_values(|t: TypeInfo| t.id)
}

/// Whether `ids` holds `id`, by linear scan.
pub fn contains_id(ids: &Vec<u64>, id: u64) -> (r: bool)
    ensures
        r == ids@.contains(id),
{
    let n: usize = ids.len();
    let mut k: usize = 0;
    while k < n
        invariant
            k <= n,
            n == ids@.len(),
            forall|j: int| 0 <= j < k ==> ids@[j] != id,
        decreases n - k,
    {
        if ids[k] == id {
            return true;
        }
        k = k + 1;
    }
    false
}

/// An owned copy of a byte record.
pub fn clone_bytes(v: &Vec<u8>) -> (r: Vec<u8>)
    ensures
        r@ == v@,
{
    let n: usize = v.len();
    let mut r: Vec<u8> = Vec::new();
    let mut k: usize = 0;
    while k < n
        invariant
            k <= n,
            n == v@.len(),
            r@ =~= v@.take(k as int),
        decreases n - k,
    {
        r.push(v[k]);
        k = k + 1;
    }
    proof {
        assert(r@ =~= v@);
    }
    r
}

/// The registry entries from position `k` on whose type is not listed in
/// `dropped`, in column order.
pub open spec fn retained_infos_from(types: Seq<TypeInfo>, dropped: Seq<u64>, k: int) -> Seq<
    TypeInfo,
>
    decreases types.len() - k,
{
    if k < 0 || k >= types.len() {
        Seq::empty()
    } else if dropped.contains(types[k].id) {
        retained_infos_from(types, dropped, k + 1)
    } else {
        seq![types[k]] + retained_infos_from(types, dropped, k + 1)
    }
}

/// The records of `row` from position `k` on whose column's type is not
/// listed in `dropped`, in column order.
pub open spec fn retained_vals_from(
    types: Seq<TypeInfo>,
    row: Seq<Seq<u8>>,
    dropped: Seq<u64>,
    k: int,
) -> Seq<Seq<u8>>
    decreases types.len() - k,
{
    if k < 0 || k >= types.len() {
        Seq::empty()
    } else if dropped.contains(types[k].id) {
        retained_vals_from(types, row, dropped, k + 1)
    } else {
        seq![row[k]] + retained_vals_from(types, row, dropped, k + 1)
    }
}

/// The registry entries whose type is not listed in `dropped`, in order.
pub fn filter_retained(types: &Vec<TypeInfo>, dropped: &Vec<u64>) -> (r: Vec<TypeInfo>)
    ensures
        r@ == retained_infos_from(types@, dropped@, 0),
{
    let n: usize = types.len();
    let mut r: Vec<TypeInfo> = Vec::new();
    let mut c: usize = 0;
    while c < n
        invariant
            c <= n,
            n == types@.len(),
            r@ + retained_infos_from(types@, dropped@, c as int)
                =~= retained_infos_from(types@, dropped@, 0),
        decreases n - c,
    {
        let ghost r_pre: Seq<TypeInfo> = r@;
        if !contains_id(dropped, types[c].id) {
            r.push(types[c]);
            proof {
                assert(r@ =~= r_pre.push(types@[c as int]));
                assert(r_pre.push(types@[c as int])
                    + retained_infos_from(types@, dropped@, c as int + 1)
                    =~= r_pre
                        + (seq![types@[c as int]]
                            + retained_infos_from(types@, dropped@, c as int + 1)));
            }
        } else {
            proof {
                assert(retained_infos_from(types@, dropped@, c as int)
                    == retained_infos_from(types@, dropped@, c as int + 1));
            }
        }
        c = c + 1;
    }
    proof {
        assert(retained_infos_from(types@, dropped@, n as int) =~= Seq::<TypeInfo>::empty());
        assert(r@ =~= r@ + retained_infos_from(types@, dropped@, n as int));
    }
    r
}

/// With nothing dropped, the retained records are the whole row.
pub proof fn lemma_retained_nothing_dropped(types: Seq<TypeInfo>, row: Seq<Seq<u8>>, k: int)
    requires
        0 <= k <= types.len(),
        row.len() == types.len(),
    ensures
        retained_vals_from(types, row, Seq::<u64>::empty(), k) == row.skip(k),
        retained_infos_from(types, Seq::<u64>::empty(), k) == types.skip(k),
    decreases types.len() - k,
{
    if k < types.len() {
        lemma_retained_nothing_dropped(types, row, k + 1);
        assert(seq![row[k]] + row.skip(k + 1) =~= row.skip(k));
        assert(seq![types[k]] + types.skip(k + 1) =~= types.skip(k));
    } else {
        assert(retained_vals_from(types, row, Seq::<u64>::empty(), k) =~= row.skip(k));
        assert(retained_infos_from(types, Seq::<u64>::empty(), k) =~= types.skip(k));
    }
}

/// Initial number of row slots allocated for a fresh archetype.
pub const INITIAL_CAPACITY: usize = 16;

/// A table grouping every entity that has exactly one set of component
/// types: one column per type, plus the entity-id list.
///
/// Row `r` of every column and of the entity list refer to the same logical
/// entity, for all `r` below the live length. The type set never changes
/// after creation.
pub struct Archetype {
    pub types: Vec<TypeInfo>,
    pub entities: Vec<Entity>,
    pub capacity: usize,
    pub data: Vec<ComponentData>,
}

impl Archetype {
    /// Identifier of each column's component type, in column order.
    pub open spec fn ids(self) -> Seq<u64> {
        ids_of(self.types@)
    }

    /// Number of live rows.
    pub open spec fn rows(self) -> int {
        self.entities@.len() as int
    }

    /// Internal consistency: column count matches the type list, every
    /// column owns `capacity` slots, live slots hold records of their
    /// column's size, and neither a type nor an entity occurs twice.
    pub open spec fn wf(self) -> bool {
        &&& self.data@.len() == self.types@.len()
        &&& 0 < self.capacity
        &&& self.entities@.len() <= self.capacity
        &&& forall|c: int| 0 <= c < self.data@.len()
            ==> (#[trigger] self.data@[c])@.len() == self.capacity
        &&& distinct(self.ids())
        &&& distinct(self.entities@)
        &&& forall|c: int, r: int|
            0 <= c < self.data@.len() && 0 <= r < self.entities@.len()
                ==> (#[trigger] self.data@[c]@[r]).len() == self.types@[c].size
    }

    /// Whether a component type is part of this archetype's type set.
    pub open spec fn has_tid(self, tid: u64) -> bool {
        self.ids().contains(tid)
    }

    /// Column index of a component type (first match).
    pub open spec fn col_of(self, tid: u64) -> int {
        find_from(self.ids(), tid, 0)
    }

    /// Row index of an entity (first match).
    pub open spec fn row_of(self, e: Entity) -> int {
        find_from(self.entities@, e, 0)
    }

    /// Whether an entity occupies a row of this archetype.
    pub open spec fn contains_entity(self, e: Entity) -> bool {
        self.entities@.contains(e)
    }

    /// The record stored in column `c` at row `r`.
    pub open spec fn comp(self, c: int, r: int) -> Seq<u8> {
        self.data@[c]@[r]
    }

    /// The record an entity holds for one component type.
    pub open spec fn comp_of(self, e: Entity, tid: u64) -> Seq<u8> {
        self.comp(self.col_of(tid), self.row_of(e))
    }

    /// Whether this archetype's type set contains every requested type.
    pub open spec fn is_superset_of(self, req: Seq<u64>) -> bool {
        forall|k: int| 0 <= k < req.len() ==> self.has_tid(req[k])
    }

    /// Builds an empty archetype for one set of component types.
    pub fn new(types: Vec<TypeInfo>) -> (r: Self)
        requires
            distinct(ids_of(types@)),
        ensures
            r.wf(),
            r.types@ == types@,
            r.entities@ == Seq::<Entity>::empty(),
            r.capacity == INITIAL_CAPACITY,
    {
        let n = types.len();
        let mut data: Vec<ComponentData> = Vec::new();
        let mut c: usize = 0;
        while c < n
            invariant
                c <= n,
                data@.len() == c,
                forall|j: int| 0 <= j < c
                    ==> (#[trigger] data@[j])@.len() == INITIAL_CAPACITY,
            decreases n - c,
        {
            data.push(ComponentData::new(INITIAL_CAPACITY));
            c = c + 1;
        }
        Archetype { types, entities: Vec::new(), capacity: INITIAL_CAPACITY, data }
    }

    /// Whether no entity occupies a row.
    pub fn empty(&self) -> (r: bool)
        ensures
            r == (self.rows() == 0),
    {
        self.entities.is_empty()
    }

    /// Number of row slots currently allocated.
    pub fn capacity(&self) -> (r: usize)
        ensures
            r == self.capacity,
    {
        self.capacity
    }

    /// Number of live rows.
    pub fn len(&self) -> (r: usize)
        ensures
            r == self.rows(),
    {
        self.entities.len()
    }

    /// The entity stored in every live row, in row order.
    pub fn entity_iter(&self) -> (r: &Vec<Entity>)
        ensures
            r@ == self.entities@,
    {
        &self.entities
    }

    /// Column index of a component type, if the type is present.
    pub fn find_type_index(&self, tid: u64) -> (r: Option<usize>)
        ensures
            match r {
                Some(c) => c as int == self.col_of(tid) && c < self.types@.len()
                    && self.types@[c as int].id == tid && self.has_tid(tid),
                None => !self.has_tid(tid),
            },
    {
        proof {
            lemma_find_from(self.ids(), tid, 0);
        }
        let n = self.types.len();
        let mut c: usize = 0;
        while c < n
            invariant
                c <= n,
                n == self.types@.len(),
                forall|j: int| 0 <= j < c ==> self.ids()[j] != tid,
                find_from(self.ids(), tid, 0) == find_from(self.ids(), tid, c as int),
            decreases n - c,
        {
            if self.types[c].id == tid {
                return Some(c);
            }
            c = c + 1;
        }
        proof {
            if self.has_tid(tid) {
                let w = choose|j: int| 0 <= j < self.ids().len() && self.ids()[j] == tid;
                assert(self.ids()[w] != tid);
            }
        }
        None
    }

    /// Row index of an entity, if the entity is present.
    pub fn find_row(&self, e: Entity) -> (r: Option<usize>)
        ensures
            match r {
                Some(i) => i as int == self.row_of(e) && i < self.entities@.len()
                    && self.entities@[i as int] == e && self.contains_entity(e),
                None => !self.contains_entity(e),
            },
    {
        proof {
            lemma_find_from(self.entities@, e, 0);
        }
        let n = self.entities.len();
        let mut i: usize = 0;
        while i < n
            invariant
                i <= n,
                n == self.entities@.len(),
                forall|j: int| 0 <= j < i ==> self.entities@[j] != e,
                find_from(self.entities@, e, 0) == find_from(self.entities@, e, i as int),
            decreases n - i,
        {
            if self.entities[i] == e {
                return Some(i);
            }
            i = i + 1;
        }
        proof {
            if self.contains_entity(e) {
                let w = choose|j: int| 0 <= j < self.entities@.len() && self.entities@[j] == e;
                assert(self.entities@[w] != e);
            }
        }
        None
    }

    /// What `add` leaves behind: one more live row, holding the given
    /// records, with every previously live row untouched.
    pub open spec fn add_post(pre: Self, post: Self, e: Entity, row: Seq<Seq<u8>>) -> bool {
        &&& post.types@ == pre.types@
        &&& post.entities@ == pre.entities@.push(e)
        &&& post.capacity >= pre.capacity
        &&& forall|c: int, r: int|
            0 <= c < pre.types@.len() && 0 <= r < pre.rows()
                ==> #[trigger] post.comp(c, r) == pre.comp(c, r)
        &&& forall|c: int| 0 <= c < pre.types@.len()
            ==> #[trigger] post.comp(c, pre.rows()) == row[c]
    }

    /// Reallocates every column to `new_capacity` slots, preserving the
    /// records of all currently allocated slots.
    fn grow(&mut self, new_capacity: usize)
        requires
            old(self).wf(),
            old(self).capacity <= new_capacity,
        ensures
            final(self).wf(),
            final(self).types@ == old(self).types@,
            final(self).entities@ == old(self).entities@,
            final(self).capacity == new_capacity,
            forall|c: int, r: int|
                0 <= c < old(self).types@.len() && 0 <= r < old(self).capacity
                    ==> #[trigger] final(self).comp(c, r) == old(self).comp(c, r),
    {
        let n: usize = self.data.len();
        let mut c: usize = 0;
        while c < n
            invariant
                c <= n,
                n == self.data@.len(),
                self.types@ == old(self).types@,
                self.entities@ == old(self).entities@,
                self.capacity == old(self).capacity,
                old(self).wf(),
                old(self).capacity <= new_capacity,
                n == old(self).data@.len(),
                forall|j: int| c <= j < n
                    ==> #[trigger] self.data@[j] == old(self).data@[j],
                forall|j: int| 0 <= j < c
                    ==> (#[trigger] self.data@[j])@.len() == new_capacity,
                forall|j: int, r: int|
                    0 <= j < c && 0 <= r < old(self).capacity
                        ==> #[trigger] self.data@[j]@[r] == old(self).data@[j]@[r],
            decreases n - c,
        {
            let col = &mut self.data[c];
            proof {
                assert(old(self).data@[c as int]@.len() == old(self).capacity);
            }
            col.grow(new_capacity);
            c = c + 1;
        }
        self.capacity = new_capacity;
    }

    /// Adds one row: moves each component's record into its column at the
    /// next free slot, then appends the entity id. The caller must ensure
    /// the entity is not already present.
    pub fn add(&mut self, entity: Entity, row: Vec<Vec<u8>>)
        requires
            old(self).wf(),
            !old(self).contains_entity(entity),
            old(self).rows() < usize::MAX / 2,
            row@.len() == old(self).types@.len(),
            forall|c: int| 0 <= c < row@.len()
                ==> (#[trigger] row@[c])@.len() == old(self).types@[c].size,
        ensures
            final(self).wf(),
            Self::add_post(*old(self), *final(self), entity, byte_rows(row@)),
    {
        let ghost orig_row: Seq<Vec<u8>> = row@;
        if self.entities.len() >= self.capacity {
            let new_capacity: usize = self.capacity * 2;
            self.grow(new_capacity);
        }
        let ghost mid: Archetype = *self;
        let index: usize = self.entities.len();
        let n: usize = self.data.len();
        let mut row = row;
        let mut c: usize = 0;
        while c < n
            invariant
                c <= n,
                n == self.data@.len(),
                mid.wf(),
                self.types@ == mid.types@,
                self.entities@ == mid.entities@,
                self.capacity == mid.capacity,
                n == mid.data@.len(),
                index == mid.rows(),
                index < mid.capacity,
                orig_row.len() == n,
                row@ == orig_row.skip(c as int),
                forall|j: int| c <= j < n
                    ==> #[trigger] self.data@[j] == mid.data@[j],
                forall|j: int| 0 <= j < c
                    ==> (#[trigger] self.data@[j])@ =~= mid.data@[j]@.update(
                        index as int, orig_row[j]@),
            decreases n - c,
        {
            let value = row.remove(0);
            proof {
                assert(orig_row.skip(c as int).remove(0) =~= orig_row.skip(c as int + 1));
                assert(value == orig_row[c as int]);
            }
            let col = &mut self.data[c];
            col.set(index, value);
            c = c + 1;
        }
        self.entities.push(entity);
        proof {
            let pre = *old(self);
            let post = *final(self);
            assert(distinct(post.entities@)) by {
                assert forall|i: int, j: int| 0 <= i < j < post.entities@.len()
                    implies post.entities@[i] != post.entities@[j]
                by {
                    if j == post.entities@.len() - 1 {
                        assert(pre.entities@[i] == post.entities@[i]);
                        assert(pre.entities@.contains(post.entities@[i]));
                    }
                }
            }
            assert forall|c2: int, r: int|
                0 <= c2 < post.data@.len() && 0 <= r < post.entities@.len()
                implies (#[trigger] post.data@[c2]@[r]).len() == post.types@[c2].size
            by {
                if r < index {
                    assert(post.comp(c2, r) == mid.comp(c2, r));
                } else {
                    assert(post.comp(c2, r) == orig_row[c2]@);
                }
            }
            assert forall|c2: int, r: int|
                0 <= c2 < pre.types@.len() && 0 <= r < pre.rows()
                implies #[trigger] post.comp(c2, r) == pre.comp(c2, r)
            by {
                assert(mid.comp(c2, r) == pre.comp(c2, r));
            }
            assert forall|c2: int| 0 <= c2 < pre.types@.len()
                implies #[trigger] post.comp(c2, pre.rows()) == byte_rows(orig_row)[c2]
            by {
                assert(post.comp(c2, index as int) == orig_row[c2]@);
            }
        }
    }

    /// The whole record row an archetype holds at row `r`, in column order.
    pub open spec fn row_snapshot(self, r: int) -> Seq<Seq<u8>> {
        Seq::new(self.types@.len(), |c: int| self.comp(c, r))
    }

    /// What removing an entity's row leaves behind: the last live row is
    /// moved into the vacated slot (swap-remove) and the live length
    /// shrinks by one; every other live row is untouched.
    pub open spec fn removed_post(pre: Self, post: Self, e: Entity) -> bool {
        let i = pre.row_of(e);
        let n = pre.rows();
        &&& post.types@ == pre.types@
        &&& post.capacity == pre.capacity
        &&& post.entities@ == pre.entities@.update(i, pre.entities@[n - 1]).drop_last()
        &&& forall|c: int, r: int|
            0 <= c < pre.types@.len() && 0 <= r < n - 1
                ==> #[trigger] post.comp(c, r) == (if r == i {
                    pre.comp(c, n - 1)
                } else {
                    pre.comp(c, r)
                })
    }

    /// The identifier of every column's type, in column order.
    pub fn type_ids(&self) -> (r: Vec<u64>)
        ensures
            r@ == self.ids(),
    {
        let n: usize = self.types.len();
        let mut r: Vec<u64> = Vec::new();
        let mut c: usize = 0;
        while c < n
            invariant
                c <= n,
                n == self.types@.len(),
                r@ =~= self.ids().take(c as int),
            decreases n - c,
        {
            r.push(self.types[c].id);
            c = c + 1;
        }
        proof {
            assert(r@ =~= self.ids());
        }
        r
    }

    /// Removes an entity's row by swap-remove. Records whose type is listed
    /// in `type_ids` are destructed; the records of every other column are
    /// moved out and returned, in column order. Returns `None`, without
    /// effect, if the entity is absent.
    pub fn remove(&mut self, entity: Entity, type_ids: &Vec<u64>) -> (r: Option<Vec<Vec<u8>>>)
        requires
            old(self).wf(),
        ensures
            final(self).wf(),
            match r {
                None => !old(self).contains_entity(entity) && *final(self) == *old(self),
                Some(out) => {
                    &&& old(self).contains_entity(entity)
                    &&& Self::removed_post(*old(self), *final(self), entity)
                    &&& byte_rows(out@) == retained_vals_from(
                        old(self).types@,
                        old(self).row_snapshot(old(self).row_of(entity)),
                        type_ids@,
                        0,
                    )
                },
            },
    {
        let i: usize = match self.find_row(entity) {
            None => {
                return None;
            },
            Some(i) => i,
        };
        let ghost pre: Archetype = *old(self);
        let ghost row0: Seq<Seq<u8>> = pre.row_snapshot(i as int);
        let n: usize = self.entities.len();
        let last: usize = n - 1;
        let last_e = self.entities[last];
        self.entities.set(i, last_e);
        let _ = self.entities.pop();
        let ncols: usize = self.data.len();
        let mut out: Vec<Vec<u8>> = Vec::new();
        let mut c: usize = 0;
        while c < ncols
            invariant
                c <= ncols,
                ncols == self.data@.len(),
                pre.wf(),
                i < n,
                n == pre.rows(),
                last == n - 1,
                self.types@ == pre.types@,
                self.capacity == pre.capacity,
                self.entities@ == pre.entities@.update(i as int, pre.entities@[n - 1]).drop_last(),
                ncols == pre.data@.len(),
                row0 == pre.row_snapshot(i as int),
                forall|j: int| c <= j < ncols
                    ==> #[trigger] self.data@[j] == pre.data@[j],
                forall|j: int| 0 <= j < c
                    ==> (#[trigger] self.data@[j])@ =~= (if i < last {
                        pre.data@[j]@.update(last as int, Seq::<u8>::empty()).update(
                            i as int, pre.comp(j, last as int))
                    } else {
                        pre.data@[j]@.update(i as int, Seq::<u8>::empty())
                    }),
                byte_rows(out@) + retained_vals_from(pre.types@, row0, type_ids@, c as int)
                    =~= retained_vals_from(pre.types@, row0, type_ids@, 0),
            decreases ncols - c,
        {
            let ghost out_pre: Seq<Vec<u8>> = out@;
            let value: Vec<u8>;
            if i == last {
                let col = &mut self.data[c];
                value = col.take(i);
            } else {
                let col = &mut self.data[c];
                let moved = col.take(last);
                let v = col.take(i);
                col.set(i, moved);
                value = v;
            }
            proof {
                assert(value@ == row0[c as int]);
            }
            if contains_id(type_ids, self.types[c].id) {
                proof {
                    assert(retained_vals_from(pre.types@, row0, type_ids@, c as int)
                        == retained_vals_from(pre.types@, row0, type_ids@, c as int + 1));
                }
            } else {
                out.push(value);
                proof {
                    assert(byte_rows(out@) =~= byte_rows(out_pre).push(row0[c as int]));
                    assert(byte_rows(out_pre).push(row0[c as int])
                        + retained_vals_from(pre.types@, row0, type_ids@, c as int + 1)
                        =~= byte_rows(out_pre)
                            + (seq![row0[c as int]]
                                + retained_vals_from(pre.types@, row0, type_ids@, c as int + 1)));
                }
            }
            c = c + 1;
        }
        proof {
            let post = *final(self);
            assert(retained_vals_from(pre.types@, row0, type_ids@, ncols as int)
                =~= Seq::<Seq<u8>>::empty());
            assert(byte_rows(out@) =~= byte_rows(out@)
                + retained_vals_from(pre.types@, row0, type_ids@, ncols as int));
            lemma_find_from(pre.entities@, entity, 0);
            assert(distinct(post.entities@)) by {
                assert forall|i2: int, j2: int| 0 <= i2 < j2 < post.entities@.len()
                    implies post.entities@[i2] != post.entities@[j2]
                by {
                    if i2 == i {
                        assert(post.entities@[i2] == pre.entities@[n - 1]);
                        assert(post.entities@[j2] == pre.entities@[j2]);
                    } else if j2 == i {
                        assert(post.entities@[j2] == pre.entities@[n - 1]);
                        assert(post.entities@[i2] == pre.entities@[i2]);
                    }
                }
            }
            assert forall|c2: int, r2: int|
                0 <= c2 < post.data@.len() && 0 <= r2 < post.entities@.len()
                implies (#[trigger] post.data@[c2]@[r2]).len() == post.types@[c2].size
            by {
                if r2 == i {
                    assert(post.comp(c2, r2) == pre.comp(c2, n - 1));
                } else {
                    assert(post.comp(c2, r2) == pre.comp(c2, r2));
                }
            }
            assert(Self::removed_post(pre, post, entity));
        }
        Some(out)
    }

    /// Removes an entity's row, moving every column's record out to the
    /// caller. Equivalent to `remove` with an empty drop list.
    pub fn remove_whole(&mut self, entity: Entity) -> (r: Option<Vec<Vec<u8>>>)
        requires
            old(self).wf(),
        ensures
            final(self).wf(),
            match r {
                None => !old(self).contains_entity(entity) && *final(self) == *old(self),
                Some(out) => {
                    &&& old(self).contains_entity(entity)
                    &&& Self::removed_post(*old(self), *final(self), entity)
                    &&& byte_rows(out@) == old(self).row_snapshot(old(self).row_of(entity))
                },
            },
    {
        let no_ids: Vec<u64> = Vec::new();
        let r = self.remove(entity, &no_ids);
        proof {
            if old(self).contains_entity(entity) {
                let i = old(self).row_of(entity);
                let row0 = old(self).row_snapshot(i);
                lemma_retained_nothing_dropped(old(self).types@, row0, 0);
                assert(row0.skip(0) =~= row0);
            }
        }
        r
    }

    /// Destructs every record of an entity's row and swap-removes the row.
    /// Has no effect if the entity is absent.
    pub fn destroy(&mut self, entity: Entity)
        requires
            old(self).wf(),
        ensures
            final(self).wf(),
            !old(self).contains_entity(entity) ==> *final(self) == *old(self),
            old(self).contains_entity(entity)
                ==> Self::removed_post(*old(self), *final(self), entity),
    {
        let all_ids = self.type_ids();
        let _ = self.remove(entity, &all_ids);
    }

    /// Whether an entity occupies a row of this archetype.
    pub fn has(&self, entity: Entity) -> (r: bool)
        ensures
            r == self.contains_entity(entity),
    {
        self.find_row(entity).is_some()
    }

    /// The records a row holds for a list of requested types, in requested
    /// order.
    pub open spec fn row_view(self, req: Seq<u64>, r: int) -> Seq<Seq<u8>> {
        Seq::new(req.len(), |k: int| self.comp(self.col_of(req[k]), r))
    }

    /// Copies of the records at one row for a requested list of types, in
    /// requested order; fails if any requested type is not part of this
    /// archetype's type set.
    pub fn get_by_index(&self, index: usize, type_ids: &Vec<u64>) -> (r: Option<Vec<Vec<u8>>>)
        requires
            self.wf(),
            index < self.rows(),
        ensures
            match r {
                None => !self.is_superset_of(type_ids@),
                Some(out) => self.is_superset_of(type_ids@)
                    && byte_rows(out@) == self.row_view(type_ids@, index as int),
            },
    {
        let m: usize = type_ids.len();
        let mut out: Vec<Vec<u8>> = Vec::new();
        let mut k: usize = 0;
        while k < m
            invariant
                k <= m,
                m == type_ids@.len(),
                self.wf(),
                index < self.rows(),
                forall|j: int| 0 <= j < k ==> self.has_tid(type_ids@[j]),
                byte_rows(out@) =~= self.row_view(type_ids@, index as int).take(k as int),
            decreases m - k,
        {
            let c: usize = match self.find_type_index(type_ids[k]) {
                None => {
                    return None;
                },
                Some(c) => c,
            };
            let value = clone_bytes(self.data[c].get(index));
            let ghost out_pre: Seq<Vec<u8>> = out@;
            let ghost v: Seq<u8> = value@;
            out.push(value);
            proof {
                assert(out@ == out_pre.push(value));
                assert(byte_rows(out_pre).len() == out_pre.len());
                assert(byte_rows(out_pre)
                    == self.row_view(type_ids@, index as int).take(k as int));
                assert(out_pre.len() == k as int);
                assert(out@.len() == k + 1);
                assert(v == self.comp(c as int, index as int));
                assert(v == self.row_view(type_ids@, index as int)[k as int]);
                assert forall|j: int| 0 <= j < k + 1
                    implies byte_rows(out@)[j] == self.row_view(type_ids@, index as int)[j]
                by {
                    assert(byte_rows(out@)[j] == out@[j]@);
                    if j < k {
                        assert(out@[j] == out_pre[j]);
                        assert(byte_rows(out_pre)[j] == out_pre[j]@);
                        assert(byte_rows(out_pre)[j]
                            == self.row_view(type_ids@, index as int).take(k as int)[j]);
                    } else {
                        assert(out@[j] == value);
                    }
                }
                assert(byte_rows(out@) =~= self.row_view(type_ids@, index as int).take(
                    k as int + 1));
            }
            k = k + 1;
        }
        proof {
            assert(byte_rows(out@) =~= self.row_view(type_ids@, index as int));
        }
        Some(out)
    }

    /// Copies of the records an entity holds for a requested list of types,
    /// in requested order; fails if the entity is absent or any requested
    /// type is not part of this archetype's type set.
    pub fn get(&self, entity: Entity, type_ids: &Vec<u64>) -> (r: Option<Vec<Vec<u8>>>)
        requires
            self.wf(),
        ensures
            match r {
                None => !self.contains_entity(entity) || !self.is_superset_of(type_ids@),
                Some(out) => self.contains_entity(entity) && self.is_superset_of(type_ids@)
                    && byte_rows(out@) == self.row_view(type_ids@, self.row_of(entity)),
            },
    {
        let index: usize = match self.find_row(entity) {
            None => {
                return None;
            },
            Some(i) => i,
        };
        self.get_by_index(index, type_ids)
    }

    /// Whether a requested column index is the column of one of the listed
    /// types.
    pub open spec fn col_requested(self, req: Seq<u64>, c: int) -> bool {
        exists|k: int| 0 <= k < req.len() && self.col_of(req[k]) == c
    }

    /// Whether this archetype's type set contains every listed type.
    pub fn is_superset(&self, type_ids: &Vec<u64>) -> (r: bool)
        ensures
            r == self.is_superset_of(type_ids@),
    {
        let m: usize = type_ids.len();
        let mut k: usize = 0;
        while k < m
            invariant
                k <= m,
                m == type_ids@.len(),
                forall|j: int| 0 <= j < k ==> self.has_tid(type_ids@[j]),
            decreases m - k,
        {
            if self.find_type_index(type_ids[k]).is_none() {
                return false;
            }
            k = k + 1;
        }
        true
    }

    /// Overwrites, in place, the records one live row holds for a list of
    /// requested types; every other slot, the entity list and the type set
    /// are untouched.
    pub fn set_components(&mut self, index: usize, type_ids: &Vec<u64>, values: Vec<Vec<u8>>)
        requires
            old(self).wf(),
            index < old(self).rows(),
            old(self).is_superset_of(type_ids@),
            distinct(type_ids@),
            values@.len() == type_ids@.len(),
            forall|k: int| 0 <= k < type_ids@.len()
                ==> (#[trigger] values@[k])@.len()
                    == old(self).types@[old(self).col_of(type_ids@[k])].size,
        ensures
            final(self).wf(),
            final(self).types@ == old(self).types@,
            final(self).entities@ == old(self).entities@,
            final(self).capacity == old(self).capacity,
            forall|k: int| 0 <= k < type_ids@.len()
                ==> #[trigger] final(self).comp(old(self).col_of(type_ids@[k]), index as int)
                    == values@[k]@,
            forall|c: int, r: int|
                0 <= c < old(self).types@.len() && 0 <= r < old(self).capacity
                    && (r != index || !old(self).col_requested(type_ids@, c))
                    ==> #[trigger] final(self).comp(c, r) == old(self).comp(c, r),
    {
        let ghost pre: Archetype = *old(self);
        let ghost orig_vals: Seq<Vec<u8>> = values@;
        let m: usize = type_ids.len();
        let mut values = values;
        let mut k: usize = 0;
        proof {
            assert forall|a: int, b: int|
                0 <= a < type_ids@.len() && 0 <= b < type_ids@.len() && a != b
                implies pre.col_of(type_ids@[a]) != pre.col_of(type_ids@[b]) by {
                lemma_find_from(pre.ids(), type_ids@[a], 0);
                lemma_find_from(pre.ids(), type_ids@[b], 0);
            }
        }
        while k < m
            invariant
                k <= m,
                m == type_ids@.len(),
                pre.wf(),
                index < pre.rows(),
                pre.is_superset_of(type_ids@),
                orig_vals.len() == m,
                values@ == orig_vals.skip(k as int),
                forall|j: int| 0 <= j < m
                    ==> (#[trigger] orig_vals[j])@.len()
                        == pre.types@[pre.col_of(type_ids@[j])].size,
                forall|a: int, b: int|
                    0 <= a < m && 0 <= b < m && a != b
                        ==> pre.col_of(type_ids@[a]) != pre.col_of(type_ids@[b]),
                self.types@ == pre.types@,
                self.entities@ == pre.entities@,
                self.capacity == pre.capacity,
                self.data@.len() == pre.data@.len(),
                forall|c: int| 0 <= c < self.data@.len()
                    ==> (#[trigger] self.data@[c])@.len() == pre.capacity,
                forall|j: int| 0 <= j < k
                    ==> #[trigger] self.comp(pre.col_of(type_ids@[j]), index as int)
                        == orig_vals[j]@,
                forall|c: int, r: int|
                    0 <= c < pre.types@.len() && 0 <= r < pre.capacity
                        && (r != index || !(exists|j: int|
                            0 <= j < k && (#[trigger] pre.col_of(type_ids@[j])) == c))
                        ==> #[trigger] self.comp(c, r) == pre.comp(c, r),
            decreases m - k,
        {
            let ghost before: Archetype = *self;
            let value = values.remove(0);
            proof {
                assert(orig_vals.skip(k as int).remove(0) =~= orig_vals.skip(k as int + 1));
                assert(value == orig_vals[k as int]);
                lemma_find_from(pre.ids(), type_ids@[k as int], 0);
            }
            let c: usize = match self.find_type_index(type_ids[k]) {
                Some(c) => c,
                None => {
                    proof {
                        assert(false);
                    }
                    0
                },
            };
            let ghost v: Seq<u8> = value@;
            let col = &mut self.data[c];
            col.set(index, value);
            proof {
                assert(self.data@ == before.data@.update(c as int, self.data@[c as int]));
                assert(self.data@[c as int]@ =~= before.data@[c as int]@.update(index as int, v));
                assert(c as int == pre.col_of(type_ids@[k as int]));
                assert forall|j: int| 0 <= j < k + 1
                    implies #[trigger] self.comp(pre.col_of(type_ids@[j]), index as int)
                        == orig_vals[j]@
                by {
                    let cj = pre.col_of(type_ids@[j]);
                    lemma_find_from(pre.ids(), type_ids@[j], 0);
                    assert(pre.has_tid(type_ids@[j]));
                    if j == k {
                        assert(self.comp(cj, index as int) == v);
                    } else {
                        assert(cj != c as int);
                        assert(self.data@[cj] == before.data@[cj]);
                        assert(before.comp(cj, index as int) == orig_vals[j]@);
                    }
                }
                assert forall|c2: int, r2: int|
                    0 <= c2 < pre.types@.len() && 0 <= r2 < pre.capacity
                        && (r2 != index || !(exists|j: int|
                            0 <= j < k + 1
                                && (#[trigger] pre.col_of(type_ids@[j])) == c2))
                    implies #[trigger] self.comp(c2, r2) == pre.comp(c2, r2)
                by {
                    assert(!(exists|j: int|
                        0 <= j < k && (#[trigger] pre.col_of(type_ids@[j])) == c2)
                        || (r2 != index && c2 != c));
                    if c2 == c as int {
                        assert(r2 != index);
                        assert(self.data@[c2]@[r2] == before.data@[c2]@[r2]);
                        assert(before.comp(c2, r2) == pre.comp(c2, r2));
                    } else {
                        assert(self.data@[c2] == before.data@[c2]);
                        assert(before.comp(c2, r2) == pre.comp(c2, r2));
                    }
                }
            }
            k = k + 1;
        }
        proof {
            let post = *final(self);
            assert forall|c2: int, r2: int|
                0 <= c2 < post.data@.len() && 0 <= r2 < post.entities@.len()
                implies (#[trigger] post.data@[c2]@[r2]).len() == post.types@[c2].size
            by {
                if r2 == index && pre.col_requested(type_ids@, c2) {
                    let j = choose|j: int|
                        0 <= j < type_ids@.len() && pre.col_of(type_ids@[j]) == c2;
                    assert(post.comp(pre.col_of(type_ids@[j]), index as int)
                        == orig_vals[j]@);
                } else {
                    assert(post.comp(c2, r2) == pre.comp(c2, r2));
                }
            }
        }
    }

    /// A borrow of the record in one column at one row.
    pub fn get_by_type_index(&self, ty_index: usize, index: usize) -> (r: &Vec<u8>)
        requires
            self.wf(),
            ty_index < self.types@.len(),
            index < self.rows(),
        ensures
            r@ == self.comp(ty_index as int, index as int),
    {
        self.data[ty_index].get(index)
    }
}

/// Whether two identifier lists describe the same set of component types,
/// regardless of order and multiplicity.
pub open spec fn same_ids(a: Seq<u64>, b: Seq<u64>) -> bool {
    forall|x: u64| a.contains(x) == b.contains(x)
}

/// Whether every identifier of `a` occurs in `b`.
pub fn id_subset(a: &Vec<u64>, b: &Vec<u64>) -> (r: bool)
    ensures
        r == forall|k: int| 0 <= k < a@.len() ==> b@.contains(a@[k]),
{
    let n: usize = a.len();
    let mut k: usize = 0;
    while k < n
        invariant
            k <= n,
            n == a@.len(),
            forall|j: int| 0 <= j < k ==> b@.contains(a@[j]),
        decreases n - k,
    {
        if !contains_id(b, a[k]) {
            return false;
        }
        k = k + 1;
    }
    true
}

/// Whether two identifier lists describe the same type set.
pub fn same_id_set(a: &Vec<u64>, b: &Vec<u64>) -> (r: bool)
    ensures
        r == same_ids(a@, b@),
{
    let r = id_subset(a, b) && id_subset(b, a);
    proof {
        if r {
            assert forall|x: u64| a@.contains(x) == b@.contains(x) by {
                if a@.contains(x) {
                    let k = choose|k: int| 0 <= k < a@.len() && a@[k] == x;
                    assert(b@.contains(a@[k]));
                }
                if b@.contains(x) {
                    let k = choose|k: int| 0 <= k < b@.len() && b@[k] == x;
                    assert(a@.contains(b@[k]));
                }
            }
        } else {
            if same_ids(a@, b@) {
                assert forall|k: int| 0 <= k < a@.len() implies b@.contains(a@[k]) by {
                    assert(a@.contains(a@[k]));
                }
                assert forall|k: int| 0 <= k < b@.len() implies a@.contains(b@[k]) by {
                    assert(b@.contains(b@[k]));
                }
            }
        }
    }
    r
}

/// Index of the first archetype at or after position `k` that holds a row
/// for `e`, or -1 if there is none.
pub open spec fn find_holder_from(archs: Seq<Archetype>, e: Entity, k: int) -> int
    decreases archs.len() - k,
{
    if k < 0 || k >= archs.len() {
        -1
    } else if archs[k].contains_entity(e) {
        k
    } else {
        find_holder_from(archs, e, k + 1)
    }
}

pub proof fn lemma_find_holder_from(archs: Seq<Archetype>, e: Entity, k: int)
    requires
        0 <= k <= archs.len(),
    ensures
        find_holder_from(archs, e, k) == -1
            <==> (forall|j: int| k <= j < archs.len()
                ==> !(#[trigger] archs[j]).contains_entity(e)),
        find_holder_from(archs, e, k) != -1
            ==> k <= find_holder_from(archs, e, k) < archs.len()
                && archs[find_holder_from(archs, e, k)].contains_entity(e)
                && (forall|j: int| k <= j < find_holder_from(archs, e, k)
                    ==> !(#[trigger] archs[j]).contains_entity(e)),
    decreases archs.len() - k,
{
    if k < archs.len() && !archs[k].contains_entity(e) {
        lemma_find_holder_from(archs, e, k + 1);
    }
}

/// After a swap-remove, the removed entity is gone and the rows of every
/// other entity are intact: same membership, same records.
pub proof fn lemma_removed_preserves_others(pre: Archetype, post: Archetype, e: Entity)
    requires
        pre.wf(),
        pre.contains_entity(e),
        Archetype::removed_post(pre, post, e),
    ensures
        !post.contains_entity(e),
        forall|e2: Entity| e2 != e
            ==> post.contains_entity(e2) == pre.contains_entity(e2),
        forall|e2: Entity, tid: u64|
            e2 != e && pre.contains_entity(e2) && pre.has_tid(tid)
                ==> #[trigger] post.comp_of(e2, tid) == pre.comp_of(e2, tid),
        forall|e2: Entity| post.contains_entity(e2) ==> pre.contains_entity(e2),
{
    let i = pre.row_of(e);
    let n = pre.rows();
    lemma_find_from(pre.entities@, e, 0);
    assert forall|e2: Entity| post.contains_entity(e2) implies pre.contains_entity(e2) by {
        let r2 = choose|r2: int|
            0 <= r2 < post.entities@.len() && post.entities@[r2] == e2;
        if r2 == i {
            assert(pre.entities@[n - 1] == e2);
        } else {
            assert(pre.entities@[r2] == e2);
        }
    }
    assert(!post.contains_entity(e)) by {
        if post.contains_entity(e) {
            let r2 = choose|r2: int|
                0 <= r2 < post.entities@.len() && post.entities@[r2] == e;
            if r2 == i {
                lemma_find_unique(pre.entities@, e, n - 1);
            } else {
                lemma_find_unique(pre.entities@, e, r2);
            }
        }
    }
    assert forall|e2: Entity| e2 != e && pre.contains_entity(e2)
        implies post.contains_entity(e2) by {
        let r2 = pre.row_of(e2);
        lemma_find_from(pre.entities@, e2, 0);
        if r2 == n - 1 {
            if i == n - 1 {
                lemma_find_unique(pre.entities@, e, i);
                assert(e == e2);
            } else {
                assert(post.entities@[i] == e2);
            }
        } else {
            if r2 == i {
                lemma_find_unique(pre.entities@, e, i);
                assert(e == e2);
            }
            assert(post.entities@[r2] == e2);
        }
    }
    assert forall|e2: Entity, tid: u64|
        e2 != e && pre.contains_entity(e2) && pre.has_tid(tid)
        implies #[trigger] post.comp_of(e2, tid) == pre.comp_of(e2, tid) by {
        let r2 = pre.row_of(e2);
        lemma_find_from(pre.entities@, e2, 0);
        assert(r2 != i) by {
            if r2 == i {
                lemma_find_unique(pre.entities@, e, i);
            }
        }
        let c = pre.col_of(tid);
        lemma_find_from(pre.ids(), tid, 0);
        assert(distinct(post.entities@)) by {
            assert forall|a: int, b: int| 0 <= a < b < post.entities@.len()
                implies post.entities@[a] != post.entities@[b] by {
                if post.entities@[a] == post.entities@[b] {
                    if a == i {
                        assert(pre.entities@[n - 1] == pre.entities@[b]);
                    } else if b == i {
                        assert(pre.entities@[a] == pre.entities@[n - 1]);
                    } else {
                        assert(pre.entities@[a] == pre.entities@[b]);
                    }
                }
            }
        }
        if r2 == n - 1 {
            assert(post.entities@[i] == e2);
            lemma_find_unique(post.entities@, e2, i);
            assert(post.comp(c, i) == pre.comp(c, n - 1));
        } else {
            assert(post.entities@[r2] == e2);
            lemma_find_unique(post.entities@, e2, r2);
            assert(post.comp(c, r2) == pre.comp(c, r2));
        }
    }
}

/// After adding a row for a fresh entity, every previously present entity
/// keeps its membership and its records, and the new entity's row holds
/// exactly the inserted records.
pub proof fn lemma_add_preserves_others(pre: Archetype, post: Archetype, e: Entity, row: Seq<Seq<u8>>)
    requires
        pre.wf(),
        !pre.contains_entity(e),
        Archetype::add_post(pre, post, e, row),
    ensures
        post.contains_entity(e),
        forall|e2: Entity| e2 != e
            ==> post.contains_entity(e2) == pre.contains_entity(e2),
        forall|e2: Entity, tid: u64|
            e2 != e && pre.contains_entity(e2) && pre.has_tid(tid)
                ==> #[trigger] post.comp_of(e2, tid) == pre.comp_of(e2, tid),
        forall|tid: u64| pre.has_tid(tid)
            ==> #[trigger] post.comp_of(e, tid) == row[pre.col_of(tid)],
{
    let n = pre.rows();
    assert(post.entities@[n] == e);
    assert forall|e2: Entity| e2 != e && pre.contains_entity(e2)
        implies post.contains_entity(e2) by {
        let r2 = choose|r2: int| 0 <= r2 < n && pre.entities@[r2] == e2;
        assert(post.entities@[r2] == e2);
    }
    assert forall|e2: Entity| e2 != e && post.contains_entity(e2)
        implies pre.contains_entity(e2) by {
        let r2 = choose|r2: int|
            0 <= r2 < post.entities@.len() && post.entities@[r2] == e2;
        assert(r2 != n);
        assert(pre.entities@[r2] == e2);
    }
    assert(distinct(post.entities@)) by {
        assert forall|a: int, b: int| 0 <= a < b < post.entities@.len()
            implies post.entities@[a] != post.entities@[b] by {
            if b == n {
                assert(pre.entities@.contains(post.entities@[a]));
            } else {
                assert(pre.entities@[a] == post.entities@[a]);
                assert(pre.entities@[b] == post.entities@[b]);
            }
        }
    }
    assert forall|e2: Entity, tid: u64|
        e2 != e && pre.contains_entity(e2) && pre.has_tid(tid)
        implies #[trigger] post.comp_of(e2, tid) == pre.comp_of(e2, tid) by {
        let r2 = pre.row_of(e2);
        lemma_find_from(pre.entities@, e2, 0);
        assert(post.entities@[r2] == e2);
        lemma_find_unique(post.entities@, e2, r2);
        let c = pre.col_of(tid);
        lemma_find_from(pre.ids(), tid, 0);
        assert(post.comp(c, r2) == pre.comp(c, r2));
    }
    assert forall|tid: u64| pre.has_tid(tid)
        implies #[trigger] post.comp_of(e, tid) == row[pre.col_of(tid)] by {
        lemma_find_unique(post.entities@, e, n);
        let c = pre.col_of(tid);
        lemma_find_from(pre.ids(), tid, 0);
        assert(post.comp(c, n) == row[c]);
    }
}

/// The registry of archetypes: at most one archetype per distinct
/// component-type set, and every entity occupies a row in at most one
/// archetype at any time.
pub struct ArchetypeSet {
    pub archetypes: Vec<Archetype>,
}

impl ArchetypeSet {
    /// Number of archetypes.
    pub open spec fn n(self) -> int {
        self.archetypes@.len() as int
    }

    /// The archetype at one registry index.
    pub open spec fn arch(self, i: int) -> Archetype {
        self.archetypes@[i]
    }

    /// Internal consistency: every archetype is well formed, no two
    /// archetypes share a type set, no entity occupies rows in two
    /// archetypes, and a type identifier names the same record size
    /// everywhere it occurs.
    pub open spec fn wf(self) -> bool {
        &&& forall|i: int| 0 <= i < self.n() ==> (#[trigger] self.arch(i)).wf()
        &&& forall|i: int, j: int|
            0 <= i < j < self.n() ==> !same_ids(self.arch(i).ids(), self.arch(j).ids())
        &&& forall|i: int, j: int, e: Entity|
            0 <= i < self.n() && 0 <= j < self.n() && i != j
                && #[trigger] self.arch(i).contains_entity(e)
                ==> !(#[trigger] self.arch(j).contains_entity(e))
        &&& forall|i: int, ci: int, j: int, cj: int|
            0 <= i < self.n() && 0 <= ci < self.arch(i).types@.len()
                && 0 <= j < self.n() && 0 <= cj < self.arch(j).types@.len()
                && (#[trigger] self.arch(i).types@[ci]).id
                    == (#[trigger] self.arch(j).types@[cj]).id
                ==> self.arch(i).types@[ci].size == self.arch(j).types@[cj].size
    }

    /// Registry index of the archetype holding an entity, or -1.
    pub open spec fn holder_of(self, e: Entity) -> int {
        find_holder_from(self.archetypes@, e, 0)
    }

    /// Whether some archetype holds a row for the entity.
    pub open spec fn lives(self, e: Entity) -> bool {
        exists|i: int| 0 <= i < self.n() && (#[trigger] self.arch(i)).contains_entity(e)
    }

    /// Whether a list of registry entries names the same record size as
    /// every archetype already in the registry, wherever an identifier is
    /// shared.
    pub open spec fn compat_infos(self, infos: Seq<TypeInfo>) -> bool {
        forall|i: int, c: int, k: int|
            0 <= i < self.n() && 0 <= c < self.arch(i).types@.len()
                && 0 <= k < infos.len()
                && (#[trigger] self.arch(i).types@[c]).id == (#[trigger] infos[k]).id
                ==> self.arch(i).types@[c].size == infos[k].size
    }

    /// Builds an empty registry.
    pub fn new() -> (r: Self)
        ensures
            r.wf(),
            r.n() == 0,
    {
        ArchetypeSet { archetypes: Vec::new() }
    }

    /// Number of archetypes.
    pub fn len(&self) -> (r: usize)
        ensures
            r == self.n(),
    {
        self.archetypes.len()
    }

    /// A borrow of the archetype at one registry index.
    pub fn at(&self, index: usize) -> (r: &Archetype)
        requires
            index < self.n(),
        ensures
            *r == self.arch(index as int),
    {
        &self.archetypes[index]
    }

    /// A borrow of every registered archetype, in registration order.
    pub fn iter(&self) -> (r: &Vec<Archetype>)
        ensures
            r@ == self.archetypes@,
    {
        &self.archetypes
    }

    /// Registry index of the archetype keyed by exactly this type set.
    pub fn get_index(&self, types: &Vec<u64>) -> (r: Option<usize>)
        ensures
            match r {
                Some(i) => i < self.n() && same_ids(self.arch(i as int).ids(), types@),
                None => forall|i: int|
                    0 <= i < self.n() ==> !same_ids((#[trigger] self.arch(i)).ids(), types@),
            },
    {
        let n: usize = self.archetypes.len();
        let mut i: usize = 0;
        while i < n
            invariant
                i <= n,
                n == self.n(),
                forall|j: int| 0 <= j < i
                    ==> !same_ids((#[trigger] self.arch(j)).ids(), types@),
            decreases n - i,
        {
            let ids = self.archetypes[i].type_ids();
            if same_id_set(&ids, types) {
                return Some(i);
            }
            i = i + 1;
        }
        None
    }

    /// Whether an archetype keyed by exactly this type set exists.
    pub fn has(&self, types: &Vec<u64>) -> (r: bool)
        ensures
            r == exists|i: int|
                0 <= i < self.n() && same_ids((#[trigger] self.arch(i)).ids(), types@),
    {
        self.get_index(types).is_some()
    }

    /// A borrow of the archetype keyed by exactly this type set.
    pub fn get(&self, types: &Vec<u64>) -> (r: Option<&Archetype>)
        ensures
            match r {
                Some(a) => exists|i: int|
                    0 <= i < self.n() && *a == self.arch(i)
                        && same_ids((#[trigger] self.arch(i)).ids(), types@),
                None => forall|i: int|
                    0 <= i < self.n() ==> !same_ids((#[trigger] self.arch(i)).ids(), types@),
            },
    {
        match self.get_index(types) {
            Some(i) => Some(self.at(i)),
            None => None,
        }
    }

    /// Registry index of the archetype holding an entity's row.
    pub fn get_by_entity_index(&self, entity: Entity) -> (r: Option<usize>)
        ensures
            match r {
                Some(i) => i as int == self.holder_of(entity) && i < self.n()
                    && self.arch(i as int).contains_entity(entity) && self.lives(entity),
                None => !self.lives(entity),
            },
    {
        proof {
            lemma_find_holder_from(self.archetypes@, entity, 0);
        }
        let n: usize = self.archetypes.len();
        let mut i: usize = 0;
        while i < n
            invariant
                i <= n,
                n == self.n(),
                forall|j: int| 0 <= j < i
                    ==> !(#[trigger] self.arch(j)).contains_entity(entity),
                find_holder_from(self.archetypes@, entity, 0)
                    == find_holder_from(self.archetypes@, entity, i as int),
            decreases n - i,
        {
            if self.archetypes[i].has(entity) {
                proof {
                    assert(self.arch(i as int).contains_entity(entity));
                    assert(find_holder_from(self.archetypes@, entity, i as int) == i as int);
                }
                return Some(i);
            }
            i = i + 1;
        }
        proof {
            if self.lives(entity) {
                let w = choose|j: int|
                    0 <= j < self.n() && (#[trigger] self.arch(j)).contains_entity(entity);
                assert(!self.arch(w).contains_entity(entity));
            }
        }
        None
    }

    /// Registers an empty archetype for a type set not yet present.
    pub fn add(&mut self, types: Vec<TypeInfo>)
        requires
            old(self).wf(),
            distinct(ids_of(types@)),
            forall|i: int| 0 <= i < old(self).n()
                ==> !same_ids((#[trigger] old(self).arch(i)).ids(), ids_of(types@)),
            old(self).compat_infos(types@),
        ensures
            final(self).wf(),
            final(self).n() == old(self).n() + 1,
            forall|i: int| 0 <= i < old(self).n()
                ==> #[trigger] final(self).arch(i) == old(self).arch(i),
            final(self).arch(old(self).n()).wf(),
            final(self).arch(old(self).n()).types@ == types@,
            final(self).arch(old(self).n()).entities@ == Seq::<Entity>::empty(),
            final(self).arch(old(self).n()).capacity == INITIAL_CAPACITY,
    {
        let ghost tv: Seq<TypeInfo> = types@;
        let archetype = Archetype::new(types);
        self.archetypes.push(archetype);
        proof {
            let pre = *old(self);
            let post = *final(self);
            let n = pre.n();
            assert(post.archetypes@ == pre.archetypes@.push(archetype));
            assert(pre.archetypes@.push(archetype)[n] == archetype);
            assert(post.arch(n) == archetype);
            assert(archetype.types@ == tv);
            assert forall|i: int| 0 <= i < post.n()
                implies (#[trigger] post.arch(i)).wf() by {
                if i < n {
                    assert(post.arch(i) == pre.arch(i));
                    assert(pre.arch(i).wf());
                } else {
                    assert(post.arch(i) == archetype);
                }
            }
            assert forall|i: int, j: int| 0 <= i < j < post.n()
                implies !same_ids(post.arch(i).ids(), post.arch(j).ids()) by {
                if j == n {
                    assert(post.arch(i) == pre.arch(i));
                    assert(post.arch(j).ids() == ids_of(tv));
                    assert(!same_ids(pre.arch(i).ids(), ids_of(tv)));
                } else {
                    assert(post.arch(i) == pre.arch(i));
                    assert(post.arch(j) == pre.arch(j));
                    assert(!same_ids(pre.arch(i).ids(), pre.arch(j).ids()));
                }
            }
            assert forall|i: int, j: int, e: Entity|
                0 <= i < post.n() && 0 <= j < post.n() && i != j
                    && #[trigger] post.arch(i).contains_entity(e)
                implies !(#[trigger] post.arch(j).contains_entity(e)) by {
                assert(archetype.entities@.len() == 0);
                assert(!post.arch(n).contains_entity(e));
                if i < n && j < n {
                    assert(pre.arch(i).contains_entity(e));
                    assert(!pre.arch(j).contains_entity(e));
                }
            }
            assert forall|i: int, ci: int, j: int, cj: int|
                0 <= i < post.n() && 0 <= ci < post.arch(i).types@.len()
                    && 0 <= j < post.n() && 0 <= cj < post.arch(j).types@.len()
                    && (#[trigger] post.arch(i).types@[ci]).id
                        == (#[trigger] post.arch(j).types@[cj]).id
                implies post.arch(i).types@[ci].size == post.arch(j).types@[cj].size by {
                if i == n && j == n {
                    assert(distinct(ids_of(tv)));
                    if ci != cj {
                        assert(ids_of(tv)[ci] == tv[ci].id);
                        assert(ids_of(tv)[cj] == tv[cj].id);
                        assert(ids_of(tv)[ci] != ids_of(tv)[cj]);
                    }
                } else if i == n {
                    assert(post.arch(j) == pre.arch(j));
                    assert(pre.arch(j).types@[cj].id == tv[ci].id);
                    assert(pre.arch(j).types@[cj].size == tv[ci].size);
                } else if j == n {
                    assert(post.arch(i) == pre.arch(i));
                    assert(pre.arch(i).types@[ci].id == tv[cj].id);
                    assert(pre.arch(i).types@[ci].size == tv[cj].size);
                } else {
                    assert(post.arch(i) == pre.arch(i));
                    assert(post.arch(j) == pre.arch(j));
                }
            }
        }
    }

    /// Unregisters the archetype keyed by exactly this type set, if any.
    pub fn remove(&mut self, types: &Vec<u64>)
        requires
            old(self).wf(),
        ensures
            final(self).wf(),
            (forall|i: int| 0 <= i < old(self).n()
                ==> !same_ids((#[trigger] old(self).arch(i)).ids(), types@))
                ==> final(self).archetypes@ == old(self).archetypes@,
            (exists|i: int| 0 <= i < old(self).n()
                && same_ids((#[trigger] old(self).arch(i)).ids(), types@))
                ==> exists|i: int|
                    0 <= i < old(self).n()
                        && same_ids((#[trigger] old(self).arch(i)).ids(), types@)
                        && final(self).archetypes@ == old(self).archetypes@.remove(i),
    {
        match self.get_index(types) {
            None => {},
            Some(i) => {
                let _ = self.archetypes.remove(i);
                proof {
                    let pre = *old(self);
                    let post = *final(self);
                    assert forall|a: int| 0 <= a < post.n()
                        implies #[trigger] post.arch(a)
                            == pre.arch(if a < i { a } else { a + 1 }) by {}
                    assert forall|a: int, b: int| 0 <= a < b < post.n()
                        implies !same_ids(post.arch(a).ids(), post.arch(b).ids()) by {
                        let a2: int = if a < i { a } else { a + 1 };
                        let b2: int = if b < i { b } else { b + 1 };
                        assert(post.arch(a) == pre.arch(a2));
                        assert(post.arch(b) == pre.arch(b2));
                    }
                    assert forall|a: int, b: int, e: Entity|
                        0 <= a < post.n() && 0 <= b < post.n() && a != b
                            && #[trigger] post.arch(a).contains_entity(e)
                        implies !(#[trigger] post.arch(b).contains_entity(e)) by {
                        let a2: int = if a < i { a } else { a + 1 };
                        let b2: int = if b < i { b } else { b + 1 };
                        assert(post.arch(a) == pre.arch(a2));
                        assert(post.arch(b) == pre.arch(b2));
                        assert(pre.arch(a2).contains_entity(e));
                    }
                    assert forall|a: int, ca: int, b: int, cb: int|
                        0 <= a < post.n() && 0 <= ca < post.arch(a).types@.len()
                            && 0 <= b < post.n() && 0 <= cb < post.arch(b).types@.len()
                            && (#[trigger] post.arch(a).types@[ca]).id
                                == (#[trigger] post.arch(b).types@[cb]).id
                        implies post.arch(a).types@[ca].size == post.arch(b).types@[cb].size
                    by {
                        let a2: int = if a < i { a } else { a + 1 };
                        let b2: int = if b < i { b } else { b + 1 };
                        assert(post.arch(a) == pre.arch(a2));
                        assert(post.arch(b) == pre.arch(b2));
                        assert(pre.arch(a2).types@[ca].id == pre.arch(b2).types@[cb].id);
                    }
                }
            },
        }
    }

    /// Registry indices of every archetype whose type set is a superset of
    /// the requested types, in increasing order.
    pub fn get_similiar(&self, types: &Vec<u64>) -> (r: Vec<usize>)
        ensures
            forall|k: int| 0 <= k < r@.len() ==> (#[trigger] r@[k]) < self.n(),
            forall|a: int, b: int| 0 <= a < b < r@.len() ==> r@[a] < r@[b],
            forall|k: int| 0 <= k < r@.len()
                ==> #[trigger] self.arch(r@[k] as int).is_superset_of(types@),
            forall|i: usize| i < self.n()
                && (#[trigger] self.arch(i as int)).is_superset_of(types@)
                ==> r@.contains(i),
    {
        let n: usize = self.archetypes.len();
        let mut r: Vec<usize> = Vec::new();
        let mut i: usize = 0;
        while i < n
            invariant
                i <= n,
                n == self.n(),
                forall|k: int| 0 <= k < r@.len() ==> (#[trigger] r@[k]) < i,
                forall|a: int, b: int| 0 <= a < b < r@.len() ==> r@[a] < r@[b],
                forall|k: int| 0 <= k < r@.len()
                    ==> #[trigger] self.arch(r@[k] as int).is_superset_of(types@),
                forall|i2: usize| i2 < i
                    && (#[trigger] self.arch(i2 as int)).is_superset_of(types@)
                    ==> r@.contains(i2),
            decreases n - i,
        {
            if self.archetypes[i].is_superset(types) {
                let ghost r_pre: Seq<usize> = r@;
                r.push(i);
                proof {
                    assert forall|i2: usize| i2 < i + 1
                        && (#[trigger] self.arch(i2 as int)).is_superset_of(types@)
                        implies r@.contains(i2) by {
                        if i2 < i {
                            let k = choose|k: int| 0 <= k < r_pre.len() && r_pre[k] == i2;
                            assert(r@[k] == i2);
                        } else {
                            assert(r@[r@.len() - 1] == i2);
                        }
                    }
                }
            }
            i = i + 1;
        }
        r
    }

    /// Adds a row for an entity that occupies no row anywhere, to the
    /// archetype at one registry index.
    pub fn arch_add(&mut self, index: usize, entity: Entity, row: Vec<Vec<u8>>)
        requires
            old(self).wf(),
            index < old(self).n(),
            forall|i: int| 0 <= i < old(self).n()
                ==> !(#[trigger] old(self).arch(i).contains_entity(entity)),
            old(self).arch(index as int).rows() < usize::MAX / 2,
            row@.len() == old(self).arch(index as int).types@.len(),
            forall|c: int| 0 <= c < row@.len()
                ==> (#[trigger] row@[c])@.len()
                    == old(self).arch(index as int).types@[c].size,
        ensures
            final(self).wf(),
            final(self).n() == old(self).n(),
            forall|i: int| 0 <= i < old(self).n() && i != index
                ==> #[trigger] final(self).arch(i) == old(self).arch(i),
            final(self).arch(index as int).wf(),
            Archetype::add_post(
                old(self).arch(index as int),
                final(self).arch(index as int),
                entity,
                byte_rows(row@),
            ),
    {
        let ghost pre = *old(self);
        let ghost row_v: Seq<Seq<u8>> = byte_rows(row@);
        proof {
            assert(pre.arch(index as int).wf());
        }
        let a = &mut self.archetypes[index];
        a.add(entity, row);
        proof {
            let post = *final(self);
            let pa = pre.arch(index as int);
            let qa = post.arch(index as int);
            lemma_add_preserves_others(pa, qa, entity, row_v);
            assert forall|i: int| 0 <= i < post.n()
                implies (#[trigger] post.arch(i)).wf() by {
                if i == index {
                    assert(post.arch(i) == qa);
                } else {
                    assert(post.arch(i) == pre.arch(i));
                    assert(pre.arch(i).wf());
                }
            }
            assert forall|i: int, j: int| 0 <= i < j < post.n()
                implies !same_ids(post.arch(i).ids(), post.arch(j).ids()) by {
                assert(post.arch(i).types@ == pre.arch(i).types@);
                assert(post.arch(j).types@ == pre.arch(j).types@);
                assert(!same_ids(pre.arch(i).ids(), pre.arch(j).ids()));
            }
            assert forall|i: int, j: int, e: Entity|
                0 <= i < post.n() && 0 <= j < post.n() && i != j
                    && #[trigger] post.arch(i).contains_entity(e)
                implies !(#[trigger] post.arch(j).contains_entity(e)) by {
                if i == index {
                    if e == entity {
                        assert(!pre.arch(j).contains_entity(e));
                    } else {
                        assert(pre.arch(i).contains_entity(e));
                        assert(!pre.arch(j).contains_entity(e));
                    }
                } else {
                    assert(pre.arch(i).contains_entity(e));
                    if j == index {
                        if e == entity {
                            assert(false);
                        } else {
                            assert(!pre.arch(j).contains_entity(e));
                        }
                    } else {
                        assert(!pre.arch(j).contains_entity(e));
                    }
                }
            }
            assert forall|i: int, ci: int, j: int, cj: int|
                0 <= i < post.n() && 0 <= ci < post.arch(i).types@.len()
                    && 0 <= j < post.n() && 0 <= cj < post.arch(j).types@.len()
                    && (#[trigger] post.arch(i).types@[ci]).id
                        == (#[trigger] post.arch(j).types@[cj]).id
                implies post.arch(i).types@[ci].size == post.arch(j).types@[cj].size by {
                assert(post.arch(i).types@ == pre.arch(i).types@);
                assert(post.arch(j).types@ == pre.arch(j).types@);
                assert(pre.arch(i).types@[ci].id == pre.arch(j).types@[cj].id);
            }
        }
    }

    /// Applies `Archetype::remove` to the archetype at one registry index.
    pub fn arch_remove(&mut self, index: usize, entity: Entity, type_ids: &Vec<u64>) -> (r:
        Option<Vec<Vec<u8>>>)
        requires
            old(self).wf(),
            index < old(self).n(),
        ensures
            final(self).wf(),
            final(self).n() == old(self).n(),
            forall|i: int| 0 <= i < old(self).n() && i != index
                ==> #[trigger] final(self).arch(i) == old(self).arch(i),
            final(self).arch(index as int).wf(),
            match r {
                None => !old(self).arch(index as int).contains_entity(entity)
                    && final(self).archetypes@ == old(self).archetypes@,
                Some(out) => {
                    let pa = old(self).arch(index as int);
                    &&& pa.contains_entity(entity)
                    &&& Archetype::removed_post(pa, final(self).arch(index as int), entity)
                    &&& byte_rows(out@) == retained_vals_from(
                        pa.types@,
                        pa.row_snapshot(pa.row_of(entity)),
                        type_ids@,
                        0,
                    )
                },
            },
    {
        let ghost pre = *old(self);
        proof {
            assert(pre.arch(index as int).wf());
        }
        let a = &mut self.archetypes[index];
        let r = a.remove(entity, type_ids);
        proof {
            let post = *final(self);
            let pa = pre.arch(index as int);
            let qa = post.arch(index as int);
            assert forall|i: int| 0 <= i < post.n()
                implies (#[trigger] post.arch(i)).wf() by {
                if i == index {
                    assert(post.arch(i) == qa);
                } else {
                    assert(post.arch(i) == pre.arch(i));
                    assert(pre.arch(i).wf());
                }
            }
            if r is None {
                assert(qa == pa);
                assert(post.archetypes@ =~= pre.archetypes@);
            } else {
                lemma_removed_preserves_others(pa, qa, entity);
            }
            assert forall|i: int, j: int| 0 <= i < j < post.n()
                implies !same_ids(post.arch(i).ids(), post.arch(j).ids()) by {
                assert(post.arch(i).types@ == pre.arch(i).types@);
                assert(post.arch(j).types@ == pre.arch(j).types@);
                assert(!same_ids(pre.arch(i).ids(), pre.arch(j).ids()));
            }
            assert forall|i: int, j: int, e: Entity|
                0 <= i < post.n() && 0 <= j < post.n() && i != j
                    && #[trigger] post.arch(i).contains_entity(e)
                implies !(#[trigger] post.arch(j).contains_entity(e)) by {
                if i == index {
                    assert(pre.arch(i).contains_entity(e));
                    assert(!pre.arch(j).contains_entity(e));
                } else {
                    assert(pre.arch(i).contains_entity(e));
                    if j == index {
                        assert(!pre.arch(j).contains_entity(e));
                        if post.arch(j).contains_entity(e) {
                            assert(pre.arch(j).contains_entity(e));
                        }
                    } else {
                        assert(!pre.arch(j).contains_entity(e));
                    }
                }
            }
            assert forall|i: int, ci: int, j: int, cj: int|
                0 <= i < post.n() && 0 <= ci < post.arch(i).types@.len()
                    && 0 <= j < post.n() && 0 <= cj < post.arch(j).types@.len()
                    && (#[trigger] post.arch(i).types@[ci]).id
                        == (#[trigger] post.arch(j).types@[cj]).id
                implies post.arch(i).types@[ci].size == post.arch(j).types@[cj].size by {
                assert(post.arch(i).types@ == pre.arch(i).types@);
                assert(post.arch(j).types@ == pre.arch(j).types@);
                assert(pre.arch(i).types@[ci].id == pre.arch(j).types@[cj].id);
            }
        }
        r
    }

    /// Applies `Archetype::remove_whole` to the archetype at one registry
    /// index: the whole row is moved out.
    pub fn arch_remove_whole(&mut self, index: usize, entity: Entity) -> (r: Option<
        Vec<Vec<u8>>,
    >)
        requires
            old(self).wf(),
            index < old(self).n(),
        ensures
            final(self).wf(),
            final(self).n() == old(self).n(),
            forall|i: int| 0 <= i < old(self).n() && i != index
                ==> #[trigger] final(self).arch(i) == old(self).arch(i),
            final(self).arch(index as int).wf(),
            match r {
                None => !old(self).arch(index as int).contains_entity(entity)
                    && final(self).archetypes@ == old(self).archetypes@,
                Some(out) => {
                    let pa = old(self).arch(index as int);
                    &&& pa.contains_entity(entity)
                    &&& Archetype::removed_post(pa, final(self).arch(index as int), entity)
                    &&& byte_rows(out@) == pa.row_snapshot(pa.row_of(entity))
                },
            },
    {
        let no_ids: Vec<u64> = Vec::new();
        let r = self.arch_remove(index, entity, &no_ids);
        proof {
            let pa = old(self).arch(index as int);
            if pa.contains_entity(entity) {
                let i = pa.row_of(entity);
                let row0 = pa.row_snapshot(i);
                lemma_retained_nothing_dropped(pa.types@, row0, 0);
                assert(row0.skip(0) =~= row0);
            }
        }
        r
    }

    /// Applies `Archetype::destroy` to the archetype at one registry index.
    pub fn arch_destroy(&mut self, index: usize, entity: Entity)
        requires
            old(self).wf(),
            index < old(self).n(),
        ensures
            final(self).wf(),
            final(self).n() == old(self).n(),
            forall|i: int| 0 <= i < old(self).n() && i != index
                ==> #[trigger] final(self).arch(i) == old(self).arch(i),
            final(self).arch(index as int).wf(),
            !old(self).arch(index as int).contains_entity(entity)
                ==> final(self).archetypes@ == old(self).archetypes@,
            old(self).arch(index as int).contains_entity(entity)
                ==> Archetype::removed_post(
                    old(self).arch(index as int),
                    final(self).arch(index as int),
                    entity,
                ),
    {
        let ids = self.archetypes[index].type_ids();
        let _ = self.arch_remove(index, entity, &ids);
    }

    /// Applies `Archetype::set_components` to the archetype at one registry
    /// index: overwrites the records one live row holds for a list of types.
    pub fn arch_set_components(
        &mut self,
        index: usize,
        row: usize,
        type_ids: &Vec<u64>,
        values: Vec<Vec<u8>>,
    )
        requires
            old(self).wf(),
            index < old(self).n(),
            row < old(self).arch(index as int).rows(),
            old(self).arch(index as int).is_superset_of(type_ids@),
            distinct(type_ids@),
            values@.len() == type_ids@.len(),
            forall|k: int| 0 <= k < type_ids@.len()
                ==> (#[trigger] values@[k])@.len()
                    == old(self).arch(index as int).types@[old(self).arch(
                    index as int,
                ).col_of(type_ids@[k])].size,
        ensures
            final(self).wf(),
            final(self).n() == old(self).n(),
            forall|i: int| 0 <= i < old(self).n() && i != index
                ==> #[trigger] final(self).arch(i) == old(self).arch(i),
            final(self).arch(index as int).wf(),
            final(self).arch(index as int).types@ == old(self).arch(index as int).types@,
            final(self).arch(index as int).entities@ == old(self).arch(index as int).entities@,
            final(self).arch(index as int).capacity == old(self).arch(index as int).capacity,
            forall|k: int| 0 <= k < type_ids@.len()
                ==> #[trigger] final(self).arch(index as int).comp(
                    old(self).arch(index as int).col_of(type_ids@[k]),
                    row as int,
                ) == values@[k]@,
            forall|c: int, r: int|
                0 <= c < old(self).arch(index as int).types@.len()
                    && 0 <= r < old(self).arch(index as int).capacity
                    && (r != row || !old(self).arch(index as int).col_requested(type_ids@, c))
                    ==> #[trigger] final(self).arch(index as int).comp(c, r)
                        == old(self).arch(index as int).comp(c, r),
    {
        let ghost pre = *old(self);
        proof {
            assert(pre.arch(index as int).wf());
        }
        let a = &mut self.archetypes[index];
        a.set_components(row, type_ids, values);
        proof {
            let post = *final(self);
            assert forall|i: int| 0 <= i < post.n()
                implies (#[trigger] post.arch(i)).wf() by {
                if i == index {
                    assert(post.arch(i).wf());
                } else {
                    assert(post.arch(i) == pre.arch(i));
                    assert(pre.arch(i).wf());
                }
            }
            assert forall|i: int, j: int| 0 <= i < j < post.n()
                implies !same_ids(post.arch(i).ids(), post.arch(j).ids()) by {
                assert(post.arch(i).types@ == pre.arch(i).types@);
                assert(post.arch(j).types@ == pre.arch(j).types@);
                assert(!same_ids(pre.arch(i).ids(), pre.arch(j).ids()));
            }
            assert forall|i: int, j: int, e: Entity|
                0 <= i < post.n() && 0 <= j < post.n() && i != j
                    && #[trigger] post.arch(i).contains_entity(e)
                implies !(#[trigger] post.arch(j).contains_entity(e)) by {
                assert(post.arch(i).entities@ == pre.arch(i).entities@);
                assert(post.arch(j).entities@ == pre.arch(j).entities@);
                assert(pre.arch(i).contains_entity(e));
                assert(!pre.arch(j).contains_entity(e));
            }
            assert forall|i: int, ci: int, j: int, cj: int|
                0 <= i < post.n() && 0 <= ci < post.arch(i).types@.len()
                    && 0 <= j < post.n() && 0 <= cj < post.arch(j).types@.len()
                    && (#[trigger] post.arch(i).types@[ci]).id
                        == (#[trigger] post.arch(j).types@[cj]).id
                implies post.arch(i).types@[ci].size == post.arch(j).types@[cj].size by {
                assert(post.arch(i).types@ == pre.arch(i).types@);
                assert(post.arch(j).types@ == pre.arch(j).types@);
                assert(pre.arch(i).types@[ci].id == pre.arch(j).types@[cj].id);
            }
        }
    }

    /// A borrow of the archetype holding an entity's row.
    pub fn get_by_entity(&self, entity: Entity) -> (r: Option<&Archetype>)
        ensures
            match r {
                Some(a) => self.lives(entity) && *a == self.arch(self.holder_of(entity))
                    && a.contains_entity(entity),
                None => !self.lives(entity),
            },
    {
        match self.get_by_entity_index(entity) {
            Some(i) => Some(self.at(i)),
            None => None,
        }
    }
}

} // verus!
