use vstd::prelude::*;
use crate::storage::{Internable, Storage};
use vstd::string::StringSliceAdditionalSpecFns;
use crate::uleb::{uleb128, write_unsigned, leb128_usize, lemma_uleb128_len_bound};
use crate::order::{is_permutation, sorted_by_rank, sort_by_frequency, OrderItem, item_before};

verus! {

/// The bytes that an interned value stands for.
pub open spec fn bytes_of<T: Internable + ?Sized>(value: &T) -> Seq<u8> {
    <T::Storage as Storage<T>>::byte_view(value)
}

/// The total number of bytes of a sequence of values.
pub open spec fn total_len(vals: Seq<Seq<u8>>) -> nat
    decreases vals.len(),
{
    if vals.len() == 0 {
        0
    } else {
        total_len(vals.drop_last()) + vals.last().len()
    }
}

/// The position of `v` in `vals` (meaningful when `vals` contains `v`).
pub open spec fn position_of(vals: Seq<Seq<u8>>, v: Seq<u8>) -> int {
    choose|i: int| 0 <= i < vals.len() && vals[i] == v
}

/// The byte length of each value.
pub open spec fn lens_of(vals: Seq<Seq<u8>>) -> Seq<nat> {
    Seq::new(vals.len(), |i: int| vals[i].len())
}

/// `new_vals`/`new_freqs` are `vals`/`freqs` moved by the permutation `perm`
/// (position `k` now holds what was at `perm[k]`), and `perm` lists the old
/// positions by usage count descending, then length ascending, then old
/// position ascending.
pub open spec fn is_rank_reordering(
    vals: Seq<Seq<u8>>,
    freqs: Seq<nat>,
    perm: Seq<int>,
    new_vals: Seq<Seq<u8>>,
    new_freqs: Seq<nat>,
) -> bool {
    &&& freqs.len() == vals.len()
    &&& new_vals.len() == vals.len()
    &&& new_freqs.len() == vals.len()
    &&& is_permutation(perm, vals.len() as int)
    &&& forall|k: int|
        0 <= k < vals.len() ==> #[trigger] new_vals[k] == vals[perm[k]] && new_freqs[k]
            == freqs[perm[k]]
    &&& sorted_by_rank(freqs, lens_of(vals), perm)
}

/// The bytes of the values whose new position (by `pos`) is below `k`,
/// counted over the first `m` old positions.
spec fn placed_len(vals: Seq<Seq<u8>>, pos: Seq<int>, k: int, m: int) -> nat
    decreases m,
{
    if m <= 0 {
        0
    } else {
        placed_len(vals, pos, k, m - 1) + if pos[m - 1] < k {
            vals[m - 1].len()
        } else {
            0nat
        }
    }
}

proof fn lemma_placed_step(vals: Seq<Seq<u8>>, pos: Seq<int>, k: int, m: int, x: int)
    requires
        0 <= m <= vals.len(),
        forall|j: int| 0 <= j < m ==> (pos[j] == k <==> j == x),
    ensures
        placed_len(vals, pos, k + 1, m) == placed_len(vals, pos, k, m) + if 0 <= x < m {
            vals[x].len()
        } else {
            0nat
        },
    decreases m,
{
    if m > 0 {
        lemma_placed_step(vals, pos, k, m - 1, x);
    }
}

proof fn lemma_placed_bound(vals: Seq<Seq<u8>>, pos: Seq<int>, k: int, m: int)
    requires
        0 <= m <= vals.len(),
    ensures
        placed_len(vals, pos, k, m) <= total_len(vals.subrange(0, m)),
        (forall|j: int| 0 <= j < m ==> pos[j] < k) ==> placed_len(vals, pos, k, m) == total_len(
            vals.subrange(0, m),
        ),
        (forall|j: int| 0 <= j < m ==> pos[j] >= k) ==> placed_len(vals, pos, k, m) == 0,
    decreases m,
{
    if m > 0 {
        lemma_placed_bound(vals, pos, k, m - 1);
        assert(vals.subrange(0, m).drop_last() =~= vals.subrange(0, m - 1));
    }
}

proof fn lemma_total_len_push(vals: Seq<Seq<u8>>, v: Seq<u8>)
    ensures
        total_len(vals.push(v)) == total_len(vals) + v.len(),
{
    assert(vals.push(v).drop_last() =~= vals);
}

/// One serialized value: its byte length in unsigned LEB128, then its bytes.
pub open spec fn entry(v: Seq<u8>) -> Seq<u8> {
    uleb128(v.len()) + v
}

/// The serialized form of a sequence of values: their entries, one after
/// the other.
pub open spec fn serialized(vals: Seq<Seq<u8>>) -> Seq<u8>
    decreases vals.len(),
{
    if vals.len() == 0 {
        Seq::empty()
    } else {
        serialized(vals.drop_last()) + entry(vals.last())
    }
}

/// Where each value's entry starts in `serialized(vals)`.
pub open spec fn entry_offsets(vals: Seq<Seq<u8>>) -> Seq<u32> {
    Seq::new(vals.len(), |i: int| serialized(vals.take(i)).len() as u32)
}

pub(crate) proof fn lemma_serialized_prefix_len(vals: Seq<Seq<u8>>, i: int)
    requires
        0 <= i <= vals.len(),
    ensures
        serialized(vals.take(i)).len() <= serialized(vals).len(),
    decreases vals.len(),
{
    if i < vals.len() {
        lemma_serialized_prefix_len(vals.drop_last(), i);
        assert(vals.drop_last().take(i) =~= vals.take(i));
    } else {
        assert(vals.take(i) =~= vals);
    }
}

proof fn lemma_total_len_prefix(vals: Seq<Seq<u8>>, i: int)
    requires
        0 <= i <= vals.len(),
    ensures
        total_len(vals.take(i)) <= total_len(vals),
    decreases vals.len(),
{
    if i < vals.len() {
        lemma_total_len_prefix(vals.drop_last(), i);
        assert(vals.drop_last().take(i) =~= vals.take(i));
    } else {
        assert(vals.take(i) =~= vals);
    }
}

/// Interning `v` into values `vals` with counts `freqs` can proceed: the
/// count of a present value is below `usize::MAX`, and a new value fits
/// within 32-bit storage offsets.
pub open spec fn can_intern_into(vals: Seq<Seq<u8>>, freqs: Seq<nat>, v: Seq<u8>) -> bool {
    if vals.contains(v) {
        freqs[position_of(vals, v)] < usize::MAX
    } else {
        total_len(vals) + v.len() <= u32::MAX
    }
}

/// Values `vals` with counts `freqs` become `new_vals`/`new_freqs` by
/// interning `v`, which gets handle `h`: a value already present keeps its
/// handle and has its count raised by one; a new value is stored under the
/// next handle with count one.
pub open spec fn intern_step(
    vals: Seq<Seq<u8>>,
    freqs: Seq<nat>,
    new_vals: Seq<Seq<u8>>,
    new_freqs: Seq<nat>,
    v: Seq<u8>,
    h: int,
) -> bool {
    &&& 0 <= h < new_vals.len()
    &&& new_vals[h] == v
    &&& if vals.contains(v) {
        &&& h == position_of(vals, v)
        &&& new_vals == vals
        &&& new_freqs == freqs.update(h, freqs[h] + 1)
    } else {
        &&& h == vals.len()
        &&& new_vals == vals.push(v)
        &&& new_freqs == freqs.push(1)
    }
}

/// `new_vals`/`new_freqs` are `vals`/`freqs` permuted into rank order:
/// usage count descending, then length ascending, then old handle ascending.
pub open spec fn rank_reordered(
    vals: Seq<Seq<u8>>,
    freqs: Seq<nat>,
    new_vals: Seq<Seq<u8>>,
    new_freqs: Seq<nat>,
) -> bool {
    exists|perm: Seq<int>| #[trigger] is_rank_reordering(vals, freqs, perm, new_vals, new_freqs)
}

/// With distinct values, the value at handle `h` is found at `h`.
pub proof fn lemma_position_of_distinct(vals: Seq<Seq<u8>>, h: int)
    requires
        0 <= h < vals.len(),
        forall|i: int, j: int| 0 <= i < j < vals.len() ==> #[trigger] vals[i] != #[trigger] vals[j],
    ensures
        vals.contains(vals[h]),
        position_of(vals, vals[h]) == h,
{
    assert(vals[h] == vals[h]);
    let p = position_of(vals, vals[h]);
    if p < h {
        assert(vals[p] != vals[h]);
    } else if p > h {
        assert(vals[h] != vals[p]);
    }
}

/// A handle to an interned value. `id` names the value for good: it is
/// the value's place in first-interned order, and `resolve` and the offset
/// lookups go by it, so an atom keeps naming its value across `optimize`.
/// `handle` is the value's position in storage when the atom was handed out;
/// `optimize` moves values, so a later `intern` of the same value may return
/// another handle.
#[derive(Debug, Clone, Copy, PartialEq, Eq, Hash, Structural)]
pub struct Atom {
    pub handle: usize,
    pub id: usize,
}

#[derive(Debug, Clone, Copy)]
struct InnerAtom {
    offset: u32,
    len: u32,
}

/// The tables behind an interner: the atoms (where each value lies in the
/// storage), the usage counts, the storage itself, the atom id of the value
/// at each handle and the handle of each atom id, and the offsets recorded
/// by the last serialization, by atom id.
struct Table<T: Internable + ?Sized> {
    atoms: Vec<InnerAtom>,
    counts: Vec<usize>,
    storage: T::Storage,
    optimized: bool,
    serialized_offsets: Vec<u32>,
    ids: Vec<usize>,
    handles: Vec<usize>,
}

impl<T: Internable + ?Sized> Table<T> {
    spec fn value_at(&self, i: int) -> Seq<u8> {
        let a = self.atoms[i];
        self.storage.contents().subrange(a.offset as int, a.offset + a.len)
    }

    /// The interned values, by handle.
    spec fn values(&self) -> Seq<Seq<u8>> {
        Seq::new(self.atoms.len() as nat, |i: int| self.value_at(i))
    }

    /// How many times each value has been interned, by handle.
    spec fn frequencies(&self) -> Seq<nat> {
        Seq::new(self.counts.len() as nat, |i: int| self.counts[i] as nat)
    }

    /// The byte offsets recorded by the last serialization, by atom id.
    spec fn offsets(&self) -> Seq<u32> {
        self.serialized_offsets@
    }

    /// The current handle of each atom id.
    spec fn handles(&self) -> Seq<int> {
        Seq::new(self.handles.len() as nat, |x: int| self.handles[x] as int)
    }

    /// The value of each atom id.
    spec fn atom_values(&self) -> Seq<Seq<u8>> {
        Seq::new(self.handles.len() as nat, |x: int| self.values()[self.handles[x] as int])
    }

    /// Whether the storage has been reordered by `optimize`.
    spec fn is_optimized(&self) -> bool {
        self.optimized
    }

    /// The internal invariant.
    spec fn wf(&self) -> bool {
        &&& self.atoms.len() == self.counts.len()
        &&& forall|i: int|
            0 <= i < self.atoms.len() ==> self.storage.holds_range(
                (#[trigger] self.atoms[i]).offset as int,
                self.atoms[i].len as int,
            )
        &&& forall|i: int| 0 <= i < self.counts.len() ==> #[trigger] self.counts[i] >= 1
        &&& forall|i: int, j: int|
            0 <= i < j < self.atoms.len() ==> #[trigger] self.value_at(i) != #[trigger] self.value_at(j)
        &&& self.storage.contents().len() == total_len(self.values())
        &&& self.ids.len() == self.atoms.len()
        &&& self.handles.len() == self.atoms.len()
        &&& forall|p: int|
            0 <= p < self.ids.len() ==> (#[trigger] self.ids[p]) < self.ids.len()
                && self.handles[self.ids[p] as int] == p
        &&& forall|x: int|
            0 <= x < self.handles.len() ==> (#[trigger] self.handles[x]) < self.handles.len()
                && self.ids[self.handles[x] as int] == x
    }

    spec fn can_intern(&self, v: Seq<u8>) -> bool {
        can_intern_into(self.values(), self.frequencies(), v)
    }

    spec fn interns(self, post: Self, v: Seq<u8>, a: Atom) -> bool {
        &&& post.wf()
        &&& post.offsets() == self.offsets()
        &&& post.is_optimized() == self.is_optimized()
        &&& intern_step(
            self.values(),
            self.frequencies(),
            post.values(),
            post.frequencies(),
            v,
            a.handle as int,
        )
        &&& post.handles() == if self.values().contains(v) {
            self.handles()
        } else {
            self.handles().push(self.values().len() as int)
        }
        &&& a.id < post.handles().len()
        &&& post.handles()[a.id as int] == a.handle
    }

    spec fn optimizes(self, post: Self) -> bool {
        &&& post.wf()
        &&& post.offsets() == self.offsets()
        &&& post.is_optimized() == (self.is_optimized() || self.values().len() > 0)
        &&& rank_reordered(self.values(), self.frequencies(), post.values(), post.frequencies())
        &&& post.atom_values() == self.atom_values()
    }

    spec fn serializes(self, post: Self, bytes: Seq<u8>) -> bool {
        &&& post.wf()
        &&& post.values() == self.values()
        &&& post.frequencies() == self.frequencies()
        &&& post.handles() == self.handles()
        &&& post.is_optimized() == self.is_optimized()
        &&& bytes == serialized(self.values())
        &&& post.offsets() == Seq::new(
            self.handles().len(),
            |x: int| entry_offsets(self.values())[self.handles()[x]],
        )
    }

    proof fn lemma_wf_facts(&self)
        requires
            self.wf(),
        ensures
            self.values().len() == self.frequencies().len(),
            forall|i: int, j: int|
                0 <= i < j < self.values().len() ==> #[trigger] self.values()[i]
                    != #[trigger] self.values()[j],
            forall|i: int| 0 <= i < self.frequencies().len() ==> #[trigger] self.frequencies()[i] >= 1,
            forall|i: int|
                0 <= i < self.values().len() ==> (#[trigger] self.values()[i]).len()
                    == self.atoms[i].len,
    {
        assert forall|i: int| 0 <= i < self.values().len() implies (#[trigger] self.values()[i]).len()
            == self.atoms[i].len by {
            self.storage.lemma_range_in_bounds(self.atoms[i].offset as int, self.atoms[i].len as int);
        }
        assert forall|i: int, j: int|
            0 <= i < j < self.values().len() implies #[trigger] self.values()[i]
                != #[trigger] self.values()[j] by {
            assert(self.value_at(i) != self.value_at(j));
        }
    }

    /// The invariant and the views of values, counts and handles depend only
    /// on the atoms, the counts, the storage and the id tables.
    proof fn lemma_frame(a: &Self, b: &Self)
        requires
            a.wf(),
            a.atoms@ == b.atoms@,
            a.counts@ == b.counts@,
            a.storage == b.storage,
            a.ids@ == b.ids@,
            a.handles@ == b.handles@,
        ensures
            b.wf(),
            b.values() == a.values(),
            b.frequencies() == a.frequencies(),
            b.handles() == a.handles(),
    {
        assert forall|i: int| 0 <= i < b.atoms.len() implies b.value_at(i) == a.value_at(i) by {
            assert(b.atoms[i] == a.atoms[i]);
        }
        assert forall|i: int| 0 <= i < b.atoms.len() implies b.storage.holds_range(
            (#[trigger] b.atoms[i]).offset as int,
            b.atoms[i].len as int,
        ) by {
            assert(b.atoms[i] == a.atoms[i]);
        }
        assert forall|i: int| 0 <= i < b.counts.len() implies #[trigger] b.counts[i] >= 1 by {
            assert(b.counts[i] == a.counts[i]);
        }
        assert(b.values() =~= a.values());
        assert(b.frequencies() =~= a.frequencies());
        assert(b.handles() =~= a.handles());
        assert forall|p: int| 0 <= p < b.ids.len() implies (#[trigger] b.ids[p]) < b.ids.len()
            && b.handles[b.ids[p] as int] == p by {
            assert(b.ids[p] == a.ids[p]);
        }
        assert forall|x: int| 0 <= x < b.handles.len() implies (#[trigger] b.handles[x])
            < b.handles.len() && b.ids[b.handles[x] as int] == x by {
            assert(b.handles[x] == a.handles[x]);
        }
        assert forall|i: int, j: int|
            0 <= i < j < b.atoms.len() implies #[trigger] b.value_at(i) != #[trigger] b.value_at(j) by {
            assert(a.value_at(i) != a.value_at(j));
        }
    }

    proof fn lemma_distinct_values(s: Self)
        requires
            s.wf(),
        ensures
            s.values().len() == s.frequencies().len(),
            forall|i: int, j: int|
                0 <= i < j < s.values().len() ==> #[trigger] s.values()[i]
                    != #[trigger] s.values()[j],
            forall|i: int| 0 <= i < s.frequencies().len() ==> #[trigger] s.frequencies()[i] >= 1,
    {
        s.lemma_wf_facts();
    }

    fn new() -> (r: Self)
        ensures
            r.wf(),
            r.values() == Seq::<Seq<u8>>::empty(),
            r.frequencies() == Seq::<nat>::empty(),
            r.offsets() == Seq::<u32>::empty(),
            r.handles() == Seq::<int>::empty(),
            !r.is_optimized(),
    {
        let r = Table {
            atoms: Vec::new(),
            counts: Vec::new(),
            storage: T::Storage::new(),
            optimized: false,
            serialized_offsets: Vec::new(),
            ids: Vec::new(),
            handles: Vec::new(),
        };
        assert(r.handles() =~= Seq::<int>::empty());
        assert(r.values() =~= Seq::<Seq<u8>>::empty());
        assert(r.frequencies() =~= Seq::<nat>::empty());
        r
    }

    /// Reorders the stored values by usage count (descending), then length
    /// (ascending), keeping insertion order among equals.
    fn reorder(&mut self)
        requires
            old(self).wf(),
        ensures
            old(self).optimizes(*final(self)),
    {
        let ghost vals = self.values();
        let ghost freqs = self.frequencies();
        proof {
            self.lemma_wf_facts();
        }
        if self.atoms.len() == 0 {
            proof {
                assert(is_rank_reordering(vals, freqs, Seq::<int>::empty(), vals, freqs));
            }
            return;
        }
        let n = self.atoms.len();
        let mut items: Vec<OrderItem> = Vec::with_capacity(n);
        let mut idx: usize = 0;
        while idx < n
            invariant
                self.wf(),
                n == self.atoms.len(),
                idx <= n,
                items.len() == idx,
                forall|k: int|
                    0 <= k < idx ==> #[trigger] items[k] == (
                        k as usize,
                        self.counts[k],
                        self.atoms[k].len,
                    ),
            decreases n - idx,
        {
            items.push((idx, self.counts[idx], self.atoms[idx].len));
            idx = idx + 1;
        }
        let ghost orig = items@;
        let Ghost(pos) = sort_by_frequency(&mut items);

        let mut new_storage = T::Storage::new();
        let mut new_atoms: Vec<InnerAtom> = Vec::with_capacity(n);
        let mut new_counts: Vec<usize> = Vec::with_capacity(n);
        let mut new_ids: Vec<usize> = Vec::with_capacity(n);
        let mut old_to_new: Vec<usize> = Vec::with_capacity(n);
        while old_to_new.len() < n
            invariant
                old_to_new.len() <= n,
            decreases n - old_to_new.len(),
        {
            old_to_new.push(0);
        }
        let mut new_idx: usize = 0;
        proof {
            lemma_placed_bound(vals, pos, 0, n as int);
            assert(vals.subrange(0, n as int) =~= vals);
            self.storage.lemma_range_in_bounds(self.atoms[0].offset as int, self.atoms[0].len as int);
            assert(Seq::new(0, |i: int| vals[items[i].0 as int]) =~= Seq::<Seq<u8>>::empty());
        }
        while new_idx < n
            invariant
                self.wf(),
                vals == self.values(),
                freqs == self.frequencies(),
                n == self.atoms.len(),
                vals.len() == n,
                freqs.len() == n,
                orig.len() == n,
                items.len() == n,
                pos.len() == n,
                forall|k: int| 0 <= k < n ==> #[trigger] orig[k] == (
                    k as usize,
                    self.counts[k],
                    self.atoms[k].len,
                ),
                forall|k: int|
                    0 <= k < n ==> {
                        &&& (#[trigger] items[k]).0 < n
                        &&& items[k] == orig[items[k].0 as int]
                        &&& pos[items[k].0 as int] == k
                    },
                forall|j: int| 0 <= j < n ==> 0 <= #[trigger] pos[j] < n && items[pos[j]].0 == j,
                new_idx <= n,
                new_atoms.len() == new_idx,
                new_counts.len() == new_idx,
                new_ids.len() == new_idx,
                old_to_new.len() == n,
                forall|i: int| 0 <= i < new_idx ==> #[trigger] new_ids[i] == self.ids[items[i].0 as int],
                forall|i: int| 0 <= i < new_idx ==> old_to_new[(#[trigger] items[i]).0 as int] == i,
                total_len(vals) <= u32::MAX,
                new_storage.contents().len() == placed_len(vals, pos, new_idx as int, n as int),
                new_storage.contents().len() == total_len(
                    Seq::new(new_idx as nat, |i: int| vals[items[i].0 as int]),
                ),
                forall|i: int|
                    0 <= i < new_idx ==> {
                        &&& new_storage.holds_range(
                            (#[trigger] new_atoms[i]).offset as int,
                            new_atoms[i].len as int,
                        )
                        &&& new_storage.contents().subrange(
                            new_atoms[i].offset as int,
                            new_atoms[i].offset + new_atoms[i].len,
                        ) == vals[items[i].0 as int]
                        &&& new_counts[i] == self.counts[items[i].0 as int]
                    },
            decreases n - new_idx,
        {
            let (old_idx, count, _) = items[new_idx];
            let old_atom = &self.atoms[old_idx];
            let s = self.storage.get(old_atom.offset, old_atom.len);
            let ghost before = new_storage.contents();
            let ghost prefix = Seq::new(new_idx as nat, |i: int| vals[items[i].0 as int]);
            let ghost atoms_before = new_atoms@;
            let ghost storage_before = new_storage;
            proof {
                assert(vals[old_idx as int] == self.value_at(old_idx as int));
                assert forall|j: int| 0 <= j < n implies (pos[j] == new_idx <==> j == old_idx) by {
                    if pos[j] == new_idx {
                        assert(items[pos[j]].0 == j);
                    }
                }
                lemma_placed_step(vals, pos, new_idx as int, n as int, old_idx as int);
                lemma_placed_bound(vals, pos, new_idx + 1, n as int);
                assert(vals.subrange(0, n as int) =~= vals);
            }
            let (offset, len) = new_storage.push(s);
            new_atoms.push(InnerAtom { offset, len });
            new_counts.push(count);
            let ghost o2n_before = old_to_new@;
            old_to_new[old_idx] = new_idx;
            new_ids.push(self.ids[old_idx]);
            proof {
                assert forall|i: int| 0 <= i < new_idx + 1 implies old_to_new[(#[trigger] items[i]).0 as int] == i by {
                    if i < new_idx {
                        assert(pos[items[i].0 as int] == i);
                        assert(items[i].0 != old_idx);
                        assert(old_to_new[items[i].0 as int] == o2n_before[items[i].0 as int]);
                    }
                }
                let v = vals[old_idx as int];
                assert forall|i: int| 0 <= i < new_idx implies new_storage.contents().subrange(
                    new_atoms[i].offset as int,
                    new_atoms[i].offset + new_atoms[i].len,
                ) == vals[items[i].0 as int] by {
                    assert(new_atoms[i] == atoms_before[i]);
                    storage_before.lemma_range_in_bounds(
                        new_atoms[i].offset as int,
                        new_atoms[i].len as int,
                    );
                }
                assert(new_storage.contents().subrange(offset as int, offset + len) =~= v);
                let next = Seq::new((new_idx + 1) as nat, |i: int| vals[items[i].0 as int]);
                assert(next =~= prefix.push(v));
                lemma_total_len_push(prefix, v);
            }
            new_idx = new_idx + 1;
        }
        let mut new_handles: Vec<usize> = Vec::with_capacity(n);
        let mut x: usize = 0;
        proof {
            assert forall|j: int| 0 <= j < n implies #[trigger] old_to_new[j] == pos[j] by {
                assert(items[pos[j]].0 == j);
            }
        }
        while x < n
            invariant
                self.wf(),
                n == self.atoms.len(),
                x <= n,
                new_handles.len() == x,
                old_to_new.len() == n,
                pos.len() == n,
                forall|j: int| 0 <= j < n ==> #[trigger] old_to_new[j] == pos[j],
                forall|y: int| 0 <= y < x ==> #[trigger] new_handles[y] == pos[self.handles[y] as int],
            decreases n - x,
        {
            new_handles.push(old_to_new[self.handles[x]]);
            x = x + 1;
        }
        let ghost old_ids = self.ids@;
        let ghost old_handles = self.handles@;
        let ghost old_atom_values = self.atom_values();
        self.ids = new_ids;
        self.handles = new_handles;
        self.storage = new_storage;
        self.atoms = new_atoms;
        self.counts = new_counts;
        self.optimized = true;
        proof {
            let perm = Seq::new(n as nat, |k: int| items[k].0 as int);
            assert forall|k: int| 0 <= k < n implies #[trigger] self.values()[k] == vals[perm[k]]
                && self.frequencies()[k] == freqs[perm[k]] by {
                assert(self.values()[k] == self.value_at(k));
            }
            assert forall|j: int| 0 <= j < n implies #[trigger] perm.contains(j) by {
                assert(perm[pos[j]] == j);
            }
            assert forall|a: int, b: int| 0 <= a < b < n implies #[trigger] perm[a] != #[trigger] perm[b] by {
                assert(pos[items[a].0 as int] == a);
                assert(pos[items[b].0 as int] == b);
            }
            assert(is_permutation(perm, n as int));
            assert forall|i: int| 0 <= i < self.counts.len() implies #[trigger] self.counts[i] >= 1 by {
                assert(self.values()[i] == vals[perm[i]]);
                assert(self.frequencies()[i] == freqs[perm[i]]);
            }
            assert forall|a: int, b: int| 0 <= a < b < perm.len() implies crate::order::ranks_before(
                freqs[#[trigger] perm[a]] as int,
                lens_of(vals)[perm[a]] as int,
                perm[a],
                freqs[#[trigger] perm[b]] as int,
                lens_of(vals)[perm[b]] as int,
                perm[b],
            ) by {
                assert(item_before(items[a], items[b]));
            }
            assert(is_rank_reordering(vals, freqs, perm, self.values(), self.frequencies()));
            assert forall|p: int| 0 <= p < self.ids.len() implies (#[trigger] self.ids[p]) < self.ids.len()
                && self.handles[self.ids[p] as int] == p by {
                let j = items[p].0 as int;
                assert(old_handles[old_ids[j] as int] == j);
            }
            assert forall|y: int| 0 <= y < self.handles.len() implies (#[trigger] self.handles[y])
                < self.handles.len() && self.ids[self.handles[y] as int] == y by {
                let h = old_handles[y] as int;
                assert(items[pos[h]].0 == h);
                assert(old_ids[h] == y);
            }
            assert forall|y: int| 0 <= y < n implies #[trigger] self.atom_values()[y] == old_atom_values[y] by {
                let h = old_handles[y] as int;
                assert(items[pos[h]].0 == h);
                assert(self.values()[pos[h]] == vals[items[pos[h]].0 as int]);
            }
            assert(self.atom_values() =~= old_atom_values);
            assert(self.values() =~= Seq::new(n as nat, |i: int| vals[items[i].0 as int]));
            assert forall|i: int, j: int|
                0 <= i < j < self.atoms.len() implies #[trigger] self.value_at(i)
                    != #[trigger] self.value_at(j) by {
                assert(self.values()[i] == self.value_at(i));
                assert(self.values()[j] == self.value_at(j));
                assert(perm[i] != perm[j]);
            }
        }
    }

    /// Writes every value, in handle order, behind its ULEB128 length, and
    /// records where each value's entry starts.
    fn serialize_values(&mut self) -> (r: Result<Vec<u8>, std::io::Error>)
        requires
            old(self).wf(),
            serialized(old(self).values()).len() <= u32::MAX,
        ensures
            r matches Ok(bytes) && old(self).serializes(*final(self), bytes@),
    {
        let ghost vals = self.values();
        proof {
            self.lemma_wf_facts();
        }
        let mut result: Vec<u8> = Vec::new();
        self.serialized_offsets.clear();
        proof {
            Self::lemma_frame(old(self), self);
        }
        let mut by_handle: Vec<u32> = Vec::new();
        let mut current_offset: u32 = 0;
        let n = self.atoms.len();
        let mut i: usize = 0;
        proof {
            assert(vals.take(0) =~= Seq::<Seq<u8>>::empty());
        }
        while i < n
            invariant
                self.wf(),
                vals == self.values(),
                n == self.atoms.len(),
                vals.len() == n,
                serialized(vals).len() <= u32::MAX,
                forall|k: int| 0 <= k < n ==> (#[trigger] vals[k]).len() == self.atoms[k].len,
                i <= n,
                result@ == serialized(vals.take(i as int)),
                current_offset == result@.len(),
                by_handle@ == entry_offsets(vals).take(i as int),
            decreases n - i,
        {
            by_handle.push(current_offset);
            proof {
                lemma_serialized_prefix_len(vals, i as int);
                assert(by_handle@ =~= entry_offsets(vals).take(i + 1));
            }
            let atom = &self.atoms[i];
            let stored = self.storage.get(atom.offset, atom.len);
            let bytes = stored.raw_bytes();
            proof {
                assert(vals[i as int] == self.value_at(i as int));
            }
            let len = bytes.len();
            let len_bytes = match leb128_usize(len as u64) {
                Ok(k) => k,
                Err(e) => return Err(e),
            };
            match write_unsigned(&mut result, len as u64) {
                Ok(_) => {},
                Err(e) => return Err(e),
            }
            result.extend_from_slice(bytes);
            proof {
                let v = vals[i as int];
                assert(vals.take(i + 1).drop_last() =~= vals.take(i as int));
                assert(vals.take(i + 1).last() == v);
                assert(result@ =~= serialized(vals.take(i + 1)));
                lemma_serialized_prefix_len(vals, i + 1);
            }
            current_offset += (len_bytes + len) as u32;
            i = i + 1;
        }
        proof {
            assert(vals.take(n as int) =~= vals);
            assert(entry_offsets(vals).take(n as int) =~= entry_offsets(vals));
        }
        let ghost handles = self.handles();
        let mut x: usize = 0;
        while x < n
            invariant
                self.wf(),
                vals == self.values(),
                handles == self.handles(),
                n == self.atoms.len(),
                vals.len() == n,
                x <= n,
                by_handle@ == entry_offsets(vals),
                self.serialized_offsets@ == Seq::new(
                    x as nat,
                    |y: int| entry_offsets(vals)[handles[y]],
                ),
                self.frequencies() == old(self).frequencies(),
                self.is_optimized() == old(self).is_optimized(),
                handles == old(self).handles(),
                vals == old(self).values(),
            decreases n - x,
        {
            let ghost before = *self;
            let offset = by_handle[self.handles[x]];
            self.serialized_offsets.push(offset);
            proof {
                Self::lemma_frame(&before, self);
                assert(self.serialized_offsets@ =~= Seq::new(
                    (x + 1) as nat,
                    |y: int| entry_offsets(vals)[handles[y]],
                ));
            }
            x = x + 1;
        }
        Ok(result)
    }

    /// Whether the serialized form of the values fits the 32-bit offsets.
    fn fits_serialized(&self) -> (r: bool)
        requires
            self.wf(),
        ensures
            r == (serialized(self.values()).len() <= u32::MAX),
    {
        let ghost vals = self.values();
        proof {
            self.lemma_wf_facts();
        }
        let n = self.atoms.len();
        let mut total: u64 = 0;
        let mut i: usize = 0;
        proof {
            assert(vals.take(0) =~= Seq::<Seq<u8>>::empty());
        }
        while i < n
            invariant
                self.wf(),
                vals == self.values(),
                n == self.atoms.len(),
                vals.len() == n,
                forall|k: int| 0 <= k < n ==> (#[trigger] vals[k]).len() == self.atoms[k].len,
                i <= n,
                total == serialized(vals.take(i as int)).len(),
                total <= u32::MAX,
            decreases n - i,
        {
            let len = self.atoms[i].len;
            let len_bytes = match leb128_usize(len as u64) {
                Ok(k) => k,
                Err(_) => return false,
            };
            proof {
                lemma_uleb128_len_bound(len as nat);
                assert(vals.take(i + 1).drop_last() =~= vals.take(i as int));
                assert(vals.take(i + 1).last() == vals[i as int]);
                lemma_serialized_prefix_len(vals, i + 1);
            }
            total = total + len_bytes as u64 + len as u64;
            if total > u32::MAX as u64 {
                return false;
            }
            i = i + 1;
        }
        proof {
            assert(vals.take(n as int) =~= vals);
        }
        true
    }

    /// Whether `key` can be interned without overflowing a counter or a
    /// storage offset (see `can_intern`).
    fn room_for(&self, key: &[u8]) -> (r: bool)
        requires
            self.wf(),
        ensures
            r == self.can_intern(key@),
    {
        proof {
            self.lemma_wf_facts();
        }
        if let Some(index) = self.lookup(key) {
            proof {
                lemma_position_of_distinct(self.values(), index as int);
            }
            return self.counts[index] < usize::MAX;
        }
        let ghost vals = self.values();
        let n = self.atoms.len();
        if n > 0 {
            proof {
                self.storage.lemma_range_in_bounds(
                    self.atoms[0].offset as int,
                    self.atoms[0].len as int,
                );
            }
        }
        let mut total: u64 = 0;
        let mut i: usize = 0;
        proof {
            assert(vals.take(0) =~= Seq::<Seq<u8>>::empty());
        }
        while i < n
            invariant
                self.wf(),
                vals == self.values(),
                n == self.atoms.len(),
                vals.len() == n,
                total_len(vals) <= u32::MAX,
                forall|k: int| 0 <= k < n ==> (#[trigger] vals[k]).len() == self.atoms[k].len,
                i <= n,
                total == total_len(vals.take(i as int)),
            decreases n - i,
        {
            proof {
                assert(vals.take(i + 1).drop_last() =~= vals.take(i as int));
                lemma_total_len_prefix(vals, i + 1);
            }
            total = total + self.atoms[i].len as u64;
            i = i + 1;
        }
        proof {
            assert(vals.take(n as int) =~= vals);
        }
        (key.len() as u64) <= u32::MAX as u64 - total
    }

    /// The handle of the stored value equal to `key`, if there is one.
    ///
    /// This scans the stored values rather than keeping a hash map from
    /// value to handle. vstd specifies `HashMap` only for keys whose hashing
    /// it models (integers, `bool`, and `String` through `StringHashMap`).
    /// This table serves strings and byte arrays alike; byte-array values
    /// have no such key, and a key made by formatting the bytes would need
    /// std's `Debug` output to be injective, which its documentation does
    /// not promise. The invariant that stored values are distinct stands in
    /// for the map's unique keys.
    fn lookup(&self, key: &[u8]) -> (r: Option<usize>)
        requires
            self.wf(),
        ensures
            match r {
                Some(i) => i < self.values().len() && self.values()[i as int] == key@,
                None => !self.values().contains(key@),
            },
    {
        let mut i: usize = 0;
        while i < self.atoms.len()
            invariant
                self.wf(),
                i <= self.atoms.len(),
                forall|k: int| 0 <= k < i ==> self.values()[k] != key@,
            decreases self.atoms.len() - i,
        {
            let atom = &self.atoms[i];
            let stored = self.storage.get(atom.offset, atom.len);
            if bytes_equal(stored.raw_bytes(), key) {
                return Some(i);
            }
            i = i + 1;
        }
        None
    }

    /// Interns `value`: counts one more use of it if it is present, else
    /// stores it under the next handle.
    fn intern_value(&mut self, value: &T) -> (a: Atom)
        requires
            old(self).wf(),
            old(self).can_intern(bytes_of(value)),
        ensures
            old(self).interns(*final(self), bytes_of(value), a),
    {
        proof {
            self.lemma_wf_facts();
        }
        let key = value.raw_bytes();
        if let Some(index) = self.lookup(key) {
            proof {
                lemma_position_of_distinct(self.values(), index as int);
            }
            self.counts[index] += 1;
            proof {
                assert(self.values() =~= old(self).values());
                assert(self.frequencies() =~= old(self).frequencies().update(
                    index as int,
                    old(self).frequencies()[index as int] + 1,
                ));
                assert forall|i: int, j: int|
                    0 <= i < j < self.atoms.len() implies #[trigger] self.value_at(i)
                        != #[trigger] self.value_at(j) by {
                    assert(self.value_at(i) == old(self).value_at(i));
                    assert(self.value_at(j) == old(self).value_at(j));
                }
                assert(self.handles() =~= old(self).handles());
            }
            return Atom { handle: index, id: self.ids[index] };
        }
        let ghost old_contents = self.storage.contents();
        let (offset, len) = self.storage.push(value);
        let index = self.atoms.len();
        self.atoms.push(InnerAtom { offset, len });
        self.counts.push(1);
        self.ids.push(index);
        self.handles.push(index);
        proof {
            let v = bytes_of(value);
            assert(self.handles() =~= old(self).handles().push(index as int));
            assert forall|i: int| 0 <= i < old(self).atoms.len() implies self.value_at(i)
                == old(self).value_at(i) by {
                old(self).storage.lemma_range_in_bounds(
                    old(self).atoms[i].offset as int,
                    old(self).atoms[i].len as int,
                );
                assert(self.atoms[i] == old(self).atoms[i]);
            }
            assert(self.value_at(index as int) =~= v);
            assert(self.values() =~= old(self).values().push(v));
            assert(self.frequencies() =~= old(self).frequencies().push(1));
            assert(self.values().drop_last() =~= old(self).values());
            assert forall|i: int, j: int|
                0 <= i < j < self.atoms.len() implies #[trigger] self.value_at(i)
                    != #[trigger] self.value_at(j) by {
                assert(self.values()[i] == self.value_at(i));
                assert(self.values()[j] == self.value_at(j));
                if j == index {
                    assert(old(self).values()[i] == self.value_at(i));
                }
            }
        }
        Atom { handle: index, id: index }
    }
}

/// Whether two byte slices are equal.
fn bytes_equal(a: &[u8], b: &[u8]) -> (r: bool)
    ensures
        r == (a@ == b@),
{
    if a.len() != b.len() {
        return false;
    }
    let mut i: usize = 0;
    while i < a.len()
        invariant
            a.len() == b.len(),
            i <= a.len(),
            forall|k: int| 0 <= k < i ==> a@[k] == b@[k],
        decreases a.len() - i,
    {
        if a[i] != b[i] {
            return false;
        }
        i = i + 1;
    }
    assert(a@ =~= b@);
    true
}

/// Interns values of `T`: each distinct value is stored once, gets an
/// `Atom`, and has its usage count tracked.
pub struct Interner<T: Internable + ?Sized> {
    table: Table<T>,
}

impl<T: Internable + ?Sized> Interner<T> {
    #[verifier::type_invariant]
    spec fn table_wf(self) -> bool {
        self.table.wf()
    }

    /// The interned values, by handle.
    pub closed spec fn values(&self) -> Seq<Seq<u8>> {
        self.table.values()
    }

    /// How many times each value has been interned, by handle.
    pub closed spec fn frequencies(&self) -> Seq<nat> {
        self.table.frequencies()
    }

    /// The byte offsets recorded by the last serialization, by atom id.
    pub closed spec fn offsets(&self) -> Seq<u32> {
        self.table.offsets()
    }

    /// The current handle of each atom id.
    pub closed spec fn handles(&self) -> Seq<int> {
        self.table.handles()
    }

    /// The value that each atom id stands for.
    pub open spec fn atom_values(&self) -> Seq<Seq<u8>> {
        Seq::new(self.handles().len(), |x: int| self.values()[self.handles()[x]])
    }

    /// Whether the storage has been reordered by `optimize`.
    pub closed spec fn is_optimized(&self) -> bool {
        self.table.is_optimized()
    }

    /// The internal invariant; every interner the library hands out keeps it.
    pub closed spec fn wf(&self) -> bool {
        self.table.wf()
    }

    /// Interning `v` into this interner cannot overflow a counter or a
    /// storage offset.
    pub open spec fn can_intern(&self, v: Seq<u8>) -> bool {
        can_intern_into(self.values(), self.frequencies(), v)
    }

    /// `post` is this interner after interning a value with bytes `v`, which
    /// returned `a` (see `intern_step`): a new value also gets the next atom
    /// id, and `a.id` is the id whose handle is `a.handle`. Nothing else
    /// changes.
    pub open spec fn interns(self, post: Self, v: Seq<u8>, a: Atom) -> bool {
        &&& post.wf()
        &&& post.offsets() == self.offsets()
        &&& post.is_optimized() == self.is_optimized()
        &&& intern_step(
            self.values(),
            self.frequencies(),
            post.values(),
            post.frequencies(),
            v,
            a.handle as int,
        )
        &&& post.handles() == if self.values().contains(v) {
            self.handles()
        } else {
            self.handles().push(self.values().len() as int)
        }
        &&& a.id < post.handles().len()
        &&& post.handles()[a.id as int] == a.handle
    }

    /// `post` is this interner after `optimize`: the values and their counts
    /// are permuted into rank order (count descending, then length
    /// ascending, then old handle ascending), every atom id still stands for
    /// its value, and recorded serialization offsets stay as they were.
    pub open spec fn optimizes(self, post: Self) -> bool {
        &&& post.wf()
        &&& post.offsets() == self.offsets()
        &&& post.is_optimized() == (self.is_optimized() || self.values().len() > 0)
        &&& rank_reordered(self.values(), self.frequencies(), post.values(), post.frequencies())
        &&& post.atom_values() == self.atom_values()
    }

    /// `post` is this interner after a serialization that returned `bytes`:
    /// values, counts and handles are unchanged, the bytes are the
    /// serialized form of the values in handle order, and the offset recorded
    /// for each atom id is where its value's entry starts.
    pub open spec fn serializes(self, post: Self, bytes: Seq<u8>) -> bool {
        &&& post.wf()
        &&& post.values() == self.values()
        &&& post.frequencies() == self.frequencies()
        &&& post.handles() == self.handles()
        &&& post.is_optimized() == self.is_optimized()
        &&& bytes == serialized(self.values())
        &&& post.offsets() == Seq::new(
            self.handles().len(),
            |x: int| entry_offsets(self.values())[self.handles()[x]],
        )
    }

    /// Distinct handles hold distinct values, every count is at least one,
    /// and the handles of the atom ids are a permutation of the handles.
    pub proof fn lemma_distinct_values(s: Self)
        requires
            s.wf(),
        ensures
            s.values().len() == s.frequencies().len(),
            forall|i: int, j: int|
                0 <= i < j < s.values().len() ==> #[trigger] s.values()[i]
                    != #[trigger] s.values()[j],
            forall|i: int| 0 <= i < s.frequencies().len() ==> #[trigger] s.frequencies()[i] >= 1,
            s.handles().len() == s.values().len(),
            forall|x: int| 0 <= x < s.handles().len() ==> 0 <= #[trigger] s.handles()[x] < s.values().len(),
            forall|x: int, y: int|
                0 <= x < y < s.handles().len() ==> #[trigger] s.handles()[x] != #[trigger] s.handles()[y],
            forall|h: int| 0 <= h < s.values().len() ==> #[trigger] s.handles().contains(h),
    {
        Table::<T>::lemma_distinct_values(s.table);
        let t = s.table;
        assert forall|x: int, y: int|
            0 <= x < y < s.handles().len() implies #[trigger] s.handles()[x] != #[trigger] s.handles()[y] by {
            assert(t.ids[t.handles[x] as int] == x);
            assert(t.ids[t.handles[y] as int] == y);
        }
        assert forall|h: int| 0 <= h < s.values().len() implies #[trigger] s.handles().contains(h) by {
            assert(t.handles[t.ids[h] as int] == h);
            assert(s.handles()[t.ids[h] as int] == h);
        }
    }

    /// An empty interner.
    pub fn new() -> (r: Self)
        ensures
            r.wf(),
            r.values() == Seq::<Seq<u8>>::empty(),
            r.frequencies() == Seq::<nat>::empty(),
            r.offsets() == Seq::<u32>::empty(),
            r.handles() == Seq::<int>::empty(),
            !r.is_optimized(),
    {
        Interner { table: Table::new() }
    }

    proof fn lemma_atom_values_of_table(s: Self)
        ensures
            s.atom_values() == s.table.atom_values(),
    {
        assert(s.atom_values() =~= s.table.atom_values());
    }

    /// Whether `serialize` can proceed: the serialized form of the values
    /// fits within 32-bit offsets.
    pub fn can_serialize(&self) -> (r: bool)
        ensures
            r == (serialized(self.values()).len() <= u32::MAX),
    {
        proof {
            use_type_invariant(self);
        }
        self.table.fits_serialized()
    }

    /// Takes the table out, leaving an empty one in its place.
    fn take_table(&mut self) -> (t: Table<T>)
        ensures
            t == old(self).table,
            t.wf(),
    {
        proof {
            use_type_invariant(&*self);
        }
        let mut t = Table::new();
        std::mem::swap(&mut t, &mut self.table);
        t
    }

    fn intern_value(&mut self, value: &T) -> (a: Atom)
        requires
            old(self).can_intern(bytes_of(value)),
        ensures
            old(self).interns(*final(self), bytes_of(value), a),
    {
        let mut t = self.take_table();
        let a = t.intern_value(value);
        self.table = t;
        a
    }

    fn reorder(&mut self)
        ensures
            old(self).optimizes(*final(self)),
    {
        let mut t = self.take_table();
        t.reorder();
        self.table = t;
        proof {
            Self::lemma_atom_values_of_table(*old(self));
            Self::lemma_atom_values_of_table(*self);
        }
    }

    fn serialize_values(&mut self) -> (r: Result<Vec<u8>, std::io::Error>)
        requires
            serialized(old(self).values()).len() <= u32::MAX,
        ensures
            r matches Ok(bytes) && old(self).serializes(*final(self), bytes@),
    {
        let mut t = self.take_table();
        let r = t.serialize_values();
        self.table = t;
        r
    }
}

impl<T: Internable + ?Sized> Default for Interner<T> {
    fn default() -> (r: Self)
        ensures
            r.wf(),
            r.values() == Seq::<Seq<u8>>::empty(),
            r.frequencies() == Seq::<nat>::empty(),
            r.offsets() == Seq::<u32>::empty(),
            r.handles() == Seq::<int>::empty(),
            !r.is_optimized(),
    {
        Self::new()
    }
}

impl Interner<str> {
    /// Interns a string: returns the atom of an equal string interned
    /// before (and counts one more use of it), or stores the string under a
    /// new atom.
    pub fn intern(&mut self, s: &str) -> (a: Atom)
        requires
            old(self).can_intern(s.spec_bytes()),
        ensures
            old(self).interns(*final(self), s.spec_bytes(), a),
    {
        self.intern_value(s)
    }

    /// Whether `intern(s)` can proceed: interning it would overflow neither
    /// its usage count nor a 32-bit storage offset.
    pub fn can_intern_str(&self, s: &str) -> (r: bool)
        ensures
            r == self.can_intern(s.spec_bytes()),
    {
        proof {
            use_type_invariant(self);
        }
        self.table.room_for(s.as_bytes())
    }

    /// Every atom, in handle order, with how many times its string was
    /// interned.
    pub fn atoms(&self) -> (r: Vec<(Atom, usize)>)
        ensures
            r@.len() == self.values().len(),
            forall|i: int|
                0 <= i < r@.len() ==> {
                    &&& (#[trigger] r@[i]).0.handle == i
                    &&& r@[i].0.id < self.handles().len()
                    &&& self.handles()[r@[i].0.id as int] == i
                    &&& r@[i].1 == self.frequencies()[i]
                },
    {
        proof {
            use_type_invariant(self);
        }
        let t = &self.table;
        let mut r: Vec<(Atom, usize)> = Vec::new();
        let mut idx: usize = 0;
        while idx < t.atoms.len()
            invariant
                t.wf(),
                idx <= t.atoms.len(),
                r@.len() == idx,
                forall|i: int|
                    0 <= i < idx ==> {
                        &&& (#[trigger] r@[i]).0.handle == i
                        &&& r@[i].0.id < t.handles().len()
                        &&& t.handles()[r@[i].0.id as int] == i
                        &&& r@[i].1 == t.frequencies()[i]
                    },
            decreases t.atoms.len() - idx,
        {
            r.push((Atom { handle: idx, id: t.ids[idx] }, t.counts[idx]));
            idx = idx + 1;
        }
        r
    }

    /// The string that `atom` stands for, found by its id, or `None` for an
    /// id that this interner never gave out. An atom keeps naming its
    /// string across `optimize`.
    pub fn resolve(&self, atom: Atom) -> (r: Option<&str>)
        ensures
            atom.id < self.atom_values().len() ==> {
                &&& r is Some
                &&& r.unwrap().spec_bytes() == self.atom_values()[atom.id as int]
                &&& r.unwrap()@ == vstd::utf8::decode_utf8(self.atom_values()[atom.id as int])
            },
            atom.id >= self.atom_values().len() ==> r is None,
    {
        proof {
            use_type_invariant(self);
        }
        let t = &self.table;
        if atom.id < t.handles.len() {
            let handle = t.handles[atom.id];
            let inner = &t.atoms[handle];
            let s = t.storage.get(inner.offset, inner.len);
            proof {
                assert(t.values()[handle as int] == t.value_at(handle as int));
                assert(self.atom_values()[atom.id as int] == t.values()[handle as int]);
                vstd::utf8::encode_utf8_decode_utf8(s@);
            }
            Some(s)
        } else {
            None
        }
    }

    /// Reorders the stored strings so that the most used come first (see
    /// `optimizes`). Atoms handed out before keep resolving to their
    /// strings; the handle a later `intern` returns is the new position.
    pub fn optimize(&mut self)
        ensures
            old(self).optimizes(*final(self)),
    {
        self.reorder()
    }

    /// Writes every string, in handle order, behind its ULEB128 byte
    /// length, and records each entry's byte offset for `Atom::resolve_index`.
    pub fn serialize(&mut self) -> (r: Result<Vec<u8>, std::io::Error>)
        requires
            serialized(old(self).values()).len() <= u32::MAX,
        ensures
            r matches Ok(bytes) && old(self).serializes(*final(self), bytes@),
    {
        self.serialize_values()
    }
}

impl Interner<[u8]> {
    /// Interns a byte array: returns the atom of an equal array interned
    /// before (and counts one more use of it), or stores the array under a
    /// new atom.
    pub fn intern(&mut self, bytes: &[u8]) -> (a: Atom)
        requires
            old(self).can_intern(bytes@),
        ensures
            old(self).interns(*final(self), bytes@, a),
    {
        self.intern_value(bytes)
    }

    /// Whether `intern(bytes)` can proceed: interning it would overflow
    /// neither its usage count nor a 32-bit storage offset.
    pub fn can_intern_bytes(&self, bytes: &[u8]) -> (r: bool)
        ensures
            r == self.can_intern(bytes@),
    {
        proof {
            use_type_invariant(self);
        }
        self.table.room_for(bytes)
    }

    /// Reorders the stored arrays so that the most used come first (see
    /// `optimizes`). Atoms handed out before keep naming their arrays; the
    /// handle a later `intern` returns is the new position.
    pub fn optimize(&mut self)
        ensures
            old(self).optimizes(*final(self)),
    {
        self.reorder()
    }

    /// Writes every array, in handle order, behind its ULEB128 length, and
    /// records each entry's byte offset for `Atom::resolve_index_bytes`.
    pub fn serialize(&mut self) -> (r: Result<Vec<u8>, std::io::Error>)
        requires
            serialized(old(self).values()).len() <= u32::MAX,
        ensures
            r matches Ok(bytes) && old(self).serializes(*final(self), bytes@),
    {
        self.serialize_values()
    }
}

impl Atom {
    /// The byte offset of this atom's entry in the last serialization of a
    /// string interner, if that serialization recorded one.
    pub fn resolve_index(&self, interner: &Interner<str>) -> (r: Option<u32>)
        ensures
            r == if self.id < interner.offsets().len() {
                Some(interner.offsets()[self.id as int])
            } else {
                None::<u32>
            },
    {
        if self.id < interner.table.serialized_offsets.len() {
            Some(interner.table.serialized_offsets[self.id])
        } else {
            None
        }
    }

    /// The byte offset of this atom's entry in the last serialization of a
    /// byte-array interner, if that serialization recorded one.
    pub fn resolve_index_bytes(&self, interner: &Interner<[u8]>) -> (r: Option<u32>)
        ensures
            r == if self.id < interner.offsets().len() {
                Some(interner.offsets()[self.id as int])
            } else {
                None::<u32>
            },
    {
        if self.id < interner.table.serialized_offsets.len() {
            Some(interner.table.serialized_offsets[self.id])
        } else {
            None
        }
    }
}

} // verus!
