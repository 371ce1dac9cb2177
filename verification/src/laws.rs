//! Properties of the interner that span several operations.
use vstd::prelude::*;
use vstd::string::StringSliceAdditionalSpecFns;
use crate::interner::{
    Atom, Interner, entry, entry_offsets, serialized, is_rank_reordering, lens_of,
    lemma_position_of_distinct, position_of,
};
use crate::uleb::uleb128;
use crate::order::{is_permutation, sorted_by_rank, lemma_rank_order_unique};
use crate::storage::{Internable, Storage};
use crate::uleb::{lemma_uleb128_nonempty, uleb128_decode, lemma_uleb128_decode_encode};

verus! {

/// The values `vals` with counts `freqs` are already in rank order: count
/// descending, then length ascending, then handle ascending.
pub open spec fn in_rank_order(vals: Seq<Seq<u8>>, freqs: Seq<nat>) -> bool {
    sorted_by_rank(freqs, lens_of(vals), Seq::new(vals.len(), |i: int| i))
}

/// Reading back the range that a push reported gives the pushed value's
/// bytes, whatever any later push adds.
pub proof fn lemma_storage_push_then_get<T: ?Sized, S: Storage<T>>(
    s0: S,
    s1: S,
    s2: S,
    value: &T,
    offset: int,
    len: int,
)
    requires
        s1.contents() == s0.contents() + S::byte_view(value),
        offset == s0.contents().len(),
        len == S::byte_view(value).len(),
        s1.holds_range(offset, len),
        s2.contents().subrange(0, s1.contents().len() as int) == s1.contents(),
        s2.contents().len() >= s1.contents().len(),
    ensures
        s2.contents().subrange(offset, offset + len) == S::byte_view(value),
{
    assert(s1.contents().subrange(offset, offset + len) =~= S::byte_view(value));
    assert(s2.contents().subrange(offset, offset + len) =~= s2.contents().subrange(
        0,
        s1.contents().len() as int,
    ).subrange(offset, offset + len));
}

/// Interning the same value twice gives the same atom, and the second
/// intern only raises that atom's count by one.
pub proof fn lemma_intern_twice_same_atom<T: Internable + ?Sized>(
    s0: Interner<T>,
    s1: Interner<T>,
    s2: Interner<T>,
    v: Seq<u8>,
    a1: Atom,
    a2: Atom,
)
    requires
        s0.interns(s1, v, a1),
        s1.interns(s2, v, a2),
    ensures
        a2 == a1,
        s2.values() == s1.values(),
        s2.frequencies()[a1.handle as int] == s1.frequencies()[a1.handle as int] + 1,
{
    Interner::<T>::lemma_distinct_values(s1);
    lemma_position_of_distinct(s1.values(), a1.handle as int);
}

/// Two different values interned one after the other get different atoms,
/// and the first handle still holds the first value.
pub proof fn lemma_intern_distinct_atoms<T: Internable + ?Sized>(
    s0: Interner<T>,
    s1: Interner<T>,
    s2: Interner<T>,
    v1: Seq<u8>,
    v2: Seq<u8>,
    a1: Atom,
    a2: Atom,
)
    requires
        s0.interns(s1, v1, a1),
        s1.interns(s2, v2, a2),
        v1 != v2,
    ensures
        a1 != a2,
        s2.values()[a1.handle as int] == v1,
{
}

/// Interning keeps the value of every atom id, gives a new value the next
/// id, and the returned atom's id stands for the interned value.
pub proof fn lemma_intern_atom_values<T: Internable + ?Sized>(
    s0: Interner<T>,
    s1: Interner<T>,
    v: Seq<u8>,
    a: Atom,
)
    requires
        s0.wf(),
        s0.interns(s1, v, a),
    ensures
        s1.atom_values() == if s0.values().contains(v) {
            s0.atom_values()
        } else {
            s0.atom_values().push(v)
        },
        a.id < s1.atom_values().len(),
        s1.atom_values()[a.id as int] == v,
{
    Interner::<T>::lemma_distinct_values(s0);
    if s0.values().contains(v) {
        assert(s1.atom_values() =~= s0.atom_values());
    } else {
        assert forall|x: int| 0 <= x < s1.atom_values().len() implies #[trigger] s1.atom_values()[x]
            == s0.atom_values().push(v)[x] by {
            if x < s0.handles().len() {
                assert(s1.handles()[x] == s0.handles()[x]);
                assert(s1.values()[s0.handles()[x]] == s0.values()[s0.handles()[x]]);
            }
        }
        assert(s1.atom_values() =~= s0.atom_values().push(v));
    }
}

/// Resolving the atom that interning a string returned gives back that
/// string.
pub proof fn lemma_resolve_after_intern(s0: Interner<str>, s1: Interner<str>, text: &str, a: Atom)
    requires
        s0.wf(),
        s0.interns(s1, text.spec_bytes(), a),
    ensures
        a.id < s1.atom_values().len(),
        vstd::utf8::decode_utf8(s1.atom_values()[a.id as int]) == text@,
{
    lemma_intern_atom_values(s0, s1, text.spec_bytes(), a);
    vstd::utf8::encode_utf8_decode_utf8(text@);
}

/// Different atom ids stand for different values.
pub proof fn lemma_atom_values_distinct<T: Internable + ?Sized>(s: Interner<T>)
    requires
        s.wf(),
    ensures
        forall|x: int, y: int|
            0 <= x < y < s.atom_values().len() ==> #[trigger] s.atom_values()[x]
                != #[trigger] s.atom_values()[y],
{
    Interner::<T>::lemma_distinct_values(s);
    assert forall|x: int, y: int| 0 <= x < y < s.atom_values().len() implies #[trigger] s.atom_values()[x]
        != #[trigger] s.atom_values()[y] by {
        let hx = s.handles()[x];
        let hy = s.handles()[y];
        if hx < hy {
            assert(s.values()[hx] != s.values()[hy]);
        } else {
            assert(s.values()[hy] != s.values()[hx]);
        }
    }
}

/// Serializing twice in a row gives the same bytes and the same offsets.
pub proof fn lemma_serialize_twice<T: Internable + ?Sized>(
    s0: Interner<T>,
    s1: Interner<T>,
    s2: Interner<T>,
    b1: Seq<u8>,
    b2: Seq<u8>,
)
    requires
        s0.serializes(s1, b1),
        s1.serializes(s2, b2),
    ensures
        b2 == b1,
        s2.offsets() == s1.offsets(),
{
}

/// In values in rank order, a more used value's entry comes before a less
/// used one's.
pub proof fn lemma_more_used_first(vals: Seq<Seq<u8>>, freqs: Seq<nat>, i: int, j: int)
    requires
        in_rank_order(vals, freqs),
        freqs.len() == vals.len(),
        serialized(vals).len() <= u32::MAX,
        0 <= i < vals.len(),
        0 <= j < vals.len(),
        freqs[i] > freqs[j],
    ensures
        entry_offsets(vals)[i] < entry_offsets(vals)[j],
{
    lemma_entry_offsets_increase(vals);
    let id = Seq::new(vals.len(), |k: int| k);
    if j < i {
        assert(id[j] == j && id[i] == i);
        assert(crate::order::ranks_before(
            freqs[id[j]] as int,
            lens_of(vals)[id[j]] as int,
            id[j],
            freqs[id[i]] as int,
            lens_of(vals)[id[i]] as int,
            id[i],
        ));
    }
}

/// The outcome of `optimize` is fully determined by the state before it.
pub proof fn lemma_optimize_deterministic<T: Internable + ?Sized>(
    s0: Interner<T>,
    s1: Interner<T>,
    s2: Interner<T>,
)
    requires
        s0.optimizes(s1),
        s0.optimizes(s2),
    ensures
        s1.values() == s2.values(),
        s1.frequencies() == s2.frequencies(),
{
    let vals = s0.values();
    let freqs = s0.frequencies();
    let p = choose|perm: Seq<int>|
        #[trigger] is_rank_reordering(vals, freqs, perm, s1.values(), s1.frequencies());
    let q = choose|perm: Seq<int>|
        #[trigger] is_rank_reordering(vals, freqs, perm, s2.values(), s2.frequencies());
    lemma_rank_order_unique(freqs, lens_of(vals), p, q);
    assert forall|k: int| 0 <= k < vals.len() implies s1.values()[k] == s2.values()[k]
        && s1.frequencies()[k] == s2.frequencies()[k] by {
        assert(s1.values()[k] == vals[p[k]]);
        assert(s2.values()[k] == vals[q[k]]);
    }
    assert(s1.values() =~= s2.values());
    assert(s1.frequencies() =~= s2.frequencies());
}

/// After `optimize` the values are in rank order.
pub proof fn lemma_optimize_result_in_rank_order<T: Internable + ?Sized>(
    s0: Interner<T>,
    s1: Interner<T>,
)
    requires
        s0.optimizes(s1),
    ensures
        in_rank_order(s1.values(), s1.frequencies()),
{
    let vals = s0.values();
    let freqs = s0.frequencies();
    let p = choose|perm: Seq<int>|
        #[trigger] is_rank_reordering(vals, freqs, perm, s1.values(), s1.frequencies());
    let id = Seq::new(s1.values().len(), |i: int| i);
    assert forall|a: int, b: int| 0 <= a < b < id.len() implies crate::order::ranks_before(
        s1.frequencies()[#[trigger] id[a]] as int,
        lens_of(s1.values())[id[a]] as int,
        id[a],
        s1.frequencies()[#[trigger] id[b]] as int,
        lens_of(s1.values())[id[b]] as int,
        id[b],
    ) by {
        assert(s1.values()[a] == vals[p[a]]);
        assert(s1.values()[b] == vals[p[b]]);
    }
}

/// When the values are already in rank order, `optimize` changes neither
/// the values nor their counts: every handle keeps its value.
pub proof fn lemma_optimize_keeps_ranked<T: Internable + ?Sized>(s0: Interner<T>, s1: Interner<T>)
    requires
        s0.optimizes(s1),
        in_rank_order(s0.values(), s0.frequencies()),
    ensures
        s1.values() == s0.values(),
        s1.frequencies() == s0.frequencies(),
{
    let vals = s0.values();
    let freqs = s0.frequencies();
    let p = choose|perm: Seq<int>|
        #[trigger] is_rank_reordering(vals, freqs, perm, s1.values(), s1.frequencies());
    let id = Seq::new(vals.len(), |i: int| i);
    assert forall|j: int| 0 <= j < vals.len() implies #[trigger] id.contains(j) by {
        assert(id[j] == j);
    }
    assert(is_permutation(id, vals.len() as int));
    lemma_rank_order_unique(freqs, lens_of(vals), p, id);
    assert forall|k: int| 0 <= k < vals.len() implies s1.values()[k] == vals[k]
        && s1.frequencies()[k] == freqs[k] by {
        assert(s1.values()[k] == vals[p[k]]);
    }
    assert(s1.values() =~= vals);
    assert(s1.frequencies() =~= freqs);
}

/// Optimizing twice gives the same values and counts as optimizing once.
pub proof fn lemma_optimize_idempotent<T: Internable + ?Sized>(
    s0: Interner<T>,
    s1: Interner<T>,
    s2: Interner<T>,
)
    requires
        s0.optimizes(s1),
        s1.optimizes(s2),
    ensures
        s2.values() == s1.values(),
        s2.frequencies() == s1.frequencies(),
{
    lemma_optimize_result_in_rank_order(s0, s1);
    lemma_optimize_keeps_ranked(s1, s2);
}

proof fn lemma_serialized_prefix(vals: Seq<Seq<u8>>, m: int)
    requires
        0 <= m <= vals.len(),
    ensures
        serialized(vals.take(m)).len() <= serialized(vals).len(),
        serialized(vals).subrange(0, serialized(vals.take(m)).len() as int) == serialized(
            vals.take(m),
        ),
    decreases vals.len(),
{
    crate::interner::lemma_serialized_prefix_len(vals, m);
    if m < vals.len() {
        lemma_serialized_prefix(vals.drop_last(), m);
        assert(vals.drop_last().take(m) =~= vals.take(m));
        assert(serialized(vals).subrange(0, serialized(vals.take(m)).len() as int)
            =~= serialized(vals.drop_last()).subrange(0, serialized(vals.take(m)).len() as int));
    } else {
        assert(vals.take(m) =~= vals);
    }
}

/// In the serialized form, the bytes from the offset of value `i` on are
/// that value's length in ULEB128 followed by the value itself.
pub proof fn lemma_entry_at_offset(vals: Seq<Seq<u8>>, i: int)
    requires
        0 <= i < vals.len(),
    ensures
        ({
            let start = serialized(vals.take(i)).len() as int;
            &&& start + entry(vals[i]).len() <= serialized(vals).len()
            &&& serialized(vals).subrange(start, start + entry(vals[i]).len()) == entry(vals[i])
        }),
{
    let start = serialized(vals.take(i)).len() as int;
    assert(vals.take(i + 1).drop_last() =~= vals.take(i));
    assert(serialized(vals.take(i + 1)) == serialized(vals.take(i)) + entry(vals[i]));
    lemma_serialized_prefix(vals, i + 1);
    assert(serialized(vals).subrange(start, start + entry(vals[i]).len()) =~= serialized(
        vals.take(i + 1),
    ).subrange(start, start + entry(vals[i]).len()));
}

proof fn lemma_serialized_take_grows(vals: Seq<Seq<u8>>, i: int, j: int)
    requires
        0 <= i < j <= vals.len(),
    ensures
        serialized(vals.take(i)).len() < serialized(vals.take(j)).len(),
    decreases j - i,
{
    assert(vals.take(j).drop_last() =~= vals.take(j - 1));
    lemma_uleb128_nonempty(vals[j - 1].len());
    if i < j - 1 {
        lemma_serialized_take_grows(vals, i, j - 1);
    }
}

/// The recorded entry offsets start at zero and strictly increase.
pub proof fn lemma_entry_offsets_increase(vals: Seq<Seq<u8>>)
    requires
        serialized(vals).len() <= u32::MAX,
    ensures
        vals.len() > 0 ==> entry_offsets(vals)[0] == 0,
        forall|i: int, j: int|
            0 <= i < j < vals.len() ==> #[trigger] entry_offsets(vals)[i]
                < #[trigger] entry_offsets(vals)[j],
        forall|i: int| 0 <= i < vals.len() ==> #[trigger] entry_offsets(vals)[i] < serialized(vals).len(),
{
    if vals.len() > 0 {
        assert(vals.take(0) =~= Seq::<Seq<u8>>::empty());
    }
    assert forall|i: int| 0 <= i < vals.len() implies #[trigger] entry_offsets(vals)[i] < serialized(
        vals,
    ).len() by {
        lemma_serialized_take_grows(vals, i, i + 1);
        crate::interner::lemma_serialized_prefix_len(vals, i + 1);
    }
    assert forall|i: int, j: int| 0 <= i < j < vals.len() implies #[trigger] entry_offsets(vals)[i]
        < #[trigger] entry_offsets(vals)[j] by {
        lemma_serialized_take_grows(vals, i, j);
        crate::interner::lemma_serialized_prefix_len(vals, j);
    }
}

/// In the serialized form, reading a ULEB128 number at the offset of
/// value `h` gives that value's byte length, and the bytes right after the
/// number are the value.
pub proof fn lemma_serialized_length_prefix(vals: Seq<Seq<u8>>, h: int)
    requires
        serialized(vals).len() <= u32::MAX,
        0 <= h < vals.len(),
    ensures
        ({
            let b = serialized(vals);
            let off = entry_offsets(vals)[h] as int;
            uleb128_decode(b.subrange(off, b.len() as int)) matches Some((len, k)) && len
                == vals[h].len() && off + k + len <= b.len() && b.subrange(off + k, off + k + len)
                == vals[h]
        }),
{
    let b = serialized(vals);
    let v = vals[h];
    lemma_entry_at_offset(vals, h);
    crate::interner::lemma_serialized_prefix_len(vals, h);
    let off = serialized(vals.take(h)).len() as int;
    assert(entry_offsets(vals)[h] as int == off);
    let prefix = uleb128(v.len());
    let tail = b.subrange(off, b.len() as int);
    let rest = tail.subrange(prefix.len() as int, tail.len() as int);
    assert(tail.subrange(0, entry(v).len() as int) =~= b.subrange(off, off + entry(v).len()));
    assert(tail =~= prefix + rest) by {
        assert forall|i: int| 0 <= i < prefix.len() implies tail[i] == prefix[i] by {
            assert(tail[i] == tail.subrange(0, entry(v).len() as int)[i]);
            assert(entry(v)[i] == prefix[i]);
        }
    }
    lemma_uleb128_decode_encode(v.len(), rest);
    let k = prefix.len() as int;
    assert(b.subrange(off + k, off + k + v.len()) =~= b.subrange(off, off + entry(v).len()).subrange(
        k,
        k + v.len(),
    ));
    assert(entry(v).subrange(k, k + v.len()) =~= v);
}

/// After `serialize`, reading a ULEB128 number at the offset recorded for
/// an atom gives the byte length of that atom's value, and the value's
/// bytes follow.
pub proof fn lemma_serialize_length_prefix<T: Internable + ?Sized>(
    s0: Interner<T>,
    s1: Interner<T>,
    b: Seq<u8>,
    x: int,
)
    requires
        s0.wf(),
        s0.serializes(s1, b),
        b.len() <= u32::MAX,
        0 <= x < s1.offsets().len(),
    ensures
        ({
            let off = s1.offsets()[x] as int;
            let v = s1.atom_values()[x];
            uleb128_decode(b.subrange(off, b.len() as int)) matches Some((len, k)) && len == v.len()
                && off + k + len <= b.len() && b.subrange(off + k, off + k + len) == v
        }),
{
    Interner::<T>::lemma_distinct_values(s0);
    let h = s0.handles()[x];
    lemma_serialized_length_prefix(s0.values(), h);
    assert(s1.offsets()[x] == entry_offsets(s0.values())[h]);
    assert(s1.atom_values()[x] == s0.values()[h]);
}

/// After `optimize`, the values run from most used to least used; among
/// equally used values the shorter comes first; and among equally used
/// values of equal length, the one stored earlier before `optimize` comes
/// first.
pub proof fn lemma_optimize_order<T: Internable + ?Sized>(
    s0: Interner<T>,
    s1: Interner<T>,
    i: int,
    j: int,
)
    requires
        s0.wf(),
        s0.optimizes(s1),
        0 <= i < j < s1.values().len(),
    ensures
        s1.frequencies()[i] >= s1.frequencies()[j],
        s1.frequencies()[i] == s1.frequencies()[j] ==> s1.values()[i].len()
            <= s1.values()[j].len(),
        s1.frequencies()[i] == s1.frequencies()[j] && s1.values()[i].len()
            == s1.values()[j].len() ==> position_of(s0.values(), s1.values()[i]) < position_of(
            s0.values(),
            s1.values()[j],
        ),
{
    let vals = s0.values();
    let freqs = s0.frequencies();
    let p = choose|perm: Seq<int>|
        #[trigger] is_rank_reordering(vals, freqs, perm, s1.values(), s1.frequencies());
    Interner::<T>::lemma_distinct_values(s0);
    assert(s1.values()[i] == vals[p[i]]);
    assert(s1.values()[j] == vals[p[j]]);
    assert(p[i] != p[j]);
    lemma_position_of_distinct(vals, p[i]);
    lemma_position_of_distinct(vals, p[j]);
    assert(crate::order::ranks_before(
        freqs[p[i]] as int,
        lens_of(vals)[p[i]] as int,
        p[i],
        freqs[p[j]] as int,
        lens_of(vals)[p[j]] as int,
        p[j],
    ));
}

/// One call on an interner, with what it returned.
pub enum Step {
    /// `intern` of a value with bytes `value`, which returned `atom`.
    Intern { value: Seq<u8>, atom: Atom },
    /// `serialize`, which returned `bytes`.
    Serialize { bytes: Seq<u8> },
    /// `optimize`.
    Optimize,
}

/// `post` is `pre` after `step`.
pub open spec fn step_holds<T: Internable + ?Sized>(
    pre: Interner<T>,
    post: Interner<T>,
    step: Step,
) -> bool {
    match step {
        Step::Intern { value, atom } => pre.interns(post, value, atom),
        Step::Serialize { bytes } => pre.serializes(post, bytes),
        Step::Optimize => pre.optimizes(post),
    }
}

/// `states[k + 1]` is `states[k]` after `steps[k]`, for every step.
pub open spec fn is_run<T: Internable + ?Sized>(states: Seq<Interner<T>>, steps: Seq<Step>) -> bool {
    &&& states.len() == steps.len() + 1
    &&& forall|k: int|
        0 <= k < steps.len() ==> step_holds(states[k], states[k + 1], #[trigger] steps[k])
}

/// No step of the run is an `optimize`.
pub open spec fn without_optimize(steps: Seq<Step>) -> bool {
    forall|k: int| 0 <= k < steps.len() ==> !(#[trigger] steps[k] is Optimize)
}

/// The values interned in a run, in call order.
pub open spec fn interned_values(steps: Seq<Step>) -> Seq<Seq<u8>>
    decreases steps.len(),
{
    if steps.len() == 0 {
        Seq::empty()
    } else {
        let earlier = interned_values(steps.drop_last());
        match steps.last() {
            Step::Intern { value, .. } => earlier.push(value),
            _ => earlier,
        }
    }
}

/// How many times `v` occurs in `vs`.
pub open spec fn count_of(vs: Seq<Seq<u8>>, v: Seq<u8>) -> nat
    decreases vs.len(),
{
    if vs.len() == 0 {
        0
    } else {
        count_of(vs.drop_last(), v) + if vs.last() == v {
            1nat
        } else {
            0nat
        }
    }
}

/// The distinct values of `vs`, in the order of their first occurrence.
pub open spec fn first_occurrences(vs: Seq<Seq<u8>>) -> Seq<Seq<u8>>
    decreases vs.len(),
{
    if vs.len() == 0 {
        Seq::empty()
    } else {
        let earlier = first_occurrences(vs.drop_last());
        if earlier.contains(vs.last()) {
            earlier
        } else {
            earlier.push(vs.last())
        }
    }
}

proof fn lemma_count_of_absent(vs: Seq<Seq<u8>>, v: Seq<u8>)
    requires
        !vs.contains(v),
    ensures
        count_of(vs, v) == 0,
    decreases vs.len(),
{
    if vs.len() > 0 {
        assert(vs.last() == vs[vs.len() - 1]);
        assert forall|i: int| 0 <= i < vs.drop_last().len() implies vs.drop_last()[i] != v by {
            assert(vs.drop_last()[i] == vs[i]);
        }
        lemma_count_of_absent(vs.drop_last(), v);
    }
}

proof fn lemma_count_of_push(vs: Seq<Seq<u8>>, x: Seq<u8>, v: Seq<u8>)
    ensures
        count_of(vs.push(x), v) == count_of(vs, v) + if x == v {
            1nat
        } else {
            0nat
        },
{
    assert(vs.push(x).drop_last() =~= vs);
}

proof fn lemma_contains_push(vs: Seq<Seq<u8>>, x: Seq<u8>, v: Seq<u8>)
    ensures
        vs.push(x).contains(v) <==> (vs.contains(v) || x == v),
{
    if vs.contains(v) {
        let i = choose|i: int| 0 <= i < vs.len() && vs[i] == v;
        assert(vs.push(x)[i] == v);
    }
    if x == v {
        assert(vs.push(x)[vs.len() as int] == v);
    }
    if vs.push(x).contains(v) {
        let i = choose|i: int| 0 <= i < vs.push(x).len() && vs.push(x)[i] == v;
        if i < vs.len() {
            assert(vs[i] == v);
        }
    }
}

proof fn lemma_first_occurrences_contains(vs: Seq<Seq<u8>>, v: Seq<u8>)
    ensures
        first_occurrences(vs).contains(v) <==> vs.contains(v),
    decreases vs.len(),
{
    if vs.len() > 0 {
        lemma_first_occurrences_contains(vs.drop_last(), v);
        assert(vs.drop_last().push(vs.last()) =~= vs);
        lemma_contains_push(vs.drop_last(), vs.last(), v);
        lemma_contains_push(first_occurrences(vs.drop_last()), vs.last(), v);
    }
}

proof fn lemma_interned_values_step(steps: Seq<Step>, k: int)
    requires
        0 <= k < steps.len(),
    ensures
        interned_values(steps.take(k + 1)) == match steps[k] {
            Step::Intern { value, .. } => interned_values(steps.take(k)).push(value),
            _ => interned_values(steps.take(k)),
        },
{
    assert(steps.take(k + 1).drop_last() =~= steps.take(k));
    assert(steps.take(k + 1).last() == steps[k]);
}

proof fn lemma_run_wf<T: Internable + ?Sized>(states: Seq<Interner<T>>, steps: Seq<Step>, k: int)
    requires
        states[0].wf(),
        is_run(states, steps),
        0 <= k <= steps.len(),
    ensures
        states[k].wf(),
{
    if k > 0 {
        assert(step_holds(states[k - 1], states[k], steps[k - 1]));
    }
}

/// In a run without `optimize`, the state after `k` steps still holds
/// every value interned before it at the atom that interning returned.
proof fn lemma_run_keeps_atoms<T: Internable + ?Sized>(
    states: Seq<Interner<T>>,
    steps: Seq<Step>,
    k: int,
)
    requires
        states[0].wf(),
        is_run(states, steps),
        without_optimize(steps),
        0 <= k <= steps.len(),
    ensures
        forall|i: int|
            0 <= i < k && (#[trigger] steps[i]) is Intern ==> {
                &&& steps[i]->atom.handle < states[k].values().len()
                &&& states[k].values()[steps[i]->atom.handle as int] == steps[i]->value
                &&& steps[i]->atom.id < states[k].handles().len()
                &&& states[k].handles()[steps[i]->atom.id as int] == steps[i]->atom.handle
            },
    decreases k,
{
    if k > 0 {
        lemma_run_keeps_atoms(states, steps, k - 1);
        let pre = states[k - 1];
        let post = states[k];
        assert(step_holds(pre, post, steps[k - 1]));
        assert(!(steps[k - 1] is Optimize));
        assert forall|i: int| 0 <= i < k && (#[trigger] steps[i]) is Intern implies {
            &&& steps[i]->atom.handle < post.values().len()
            &&& post.values()[steps[i]->atom.handle as int] == steps[i]->value
            &&& steps[i]->atom.id < post.handles().len()
            &&& post.handles()[steps[i]->atom.id as int] == steps[i]->atom.handle
        } by {
            if i < k - 1 {
                let h = steps[i]->atom.handle as int;
                assert(h < pre.values().len());
                match steps[k - 1] {
                    Step::Intern { value, atom } => {
                        if !pre.values().contains(value) {
                            assert(post.values()[h] == pre.values().push(value)[h]);
                            let x = steps[i]->atom.id as int;
                            assert(post.handles()[x] == pre.handles().push(
                                pre.values().len() as int,
                            )[x]);
                        }
                    },
                    _ => {},
                }
            }
        }
    }
}

/// In any run, the state after `k` steps still gives every atom returned
/// before it the value it was interned for.
proof fn lemma_run_keeps_ids<T: Internable + ?Sized>(
    states: Seq<Interner<T>>,
    steps: Seq<Step>,
    k: int,
)
    requires
        states[0].wf(),
        is_run(states, steps),
        0 <= k <= steps.len(),
    ensures
        forall|i: int|
            0 <= i < k && (#[trigger] steps[i]) is Intern ==> {
                &&& steps[i]->atom.id < states[k].atom_values().len()
                &&& states[k].atom_values()[steps[i]->atom.id as int] == steps[i]->value
            },
    decreases k,
{
    if k > 0 {
        lemma_run_keeps_ids(states, steps, k - 1);
        lemma_run_wf(states, steps, k - 1);
        let pre = states[k - 1];
        let post = states[k];
        assert(step_holds(pre, post, steps[k - 1]));
        match steps[k - 1] {
            Step::Intern { value, atom } => {
                lemma_intern_atom_values(pre, post, value, atom);
                assert forall|i: int| 0 <= i < k - 1 && (#[trigger] steps[i]) is Intern implies {
                    &&& steps[i]->atom.id < post.atom_values().len()
                    &&& post.atom_values()[steps[i]->atom.id as int] == steps[i]->value
                } by {
                    if !pre.values().contains(value) {
                        let x = steps[i]->atom.id as int;
                        assert(post.atom_values()[x] == pre.atom_values().push(value)[x]);
                    }
                }
            },
            Step::Serialize { bytes } => {
                assert(post.atom_values() =~= pre.atom_values());
            },
            Step::Optimize => {},
        }
    }
}

/// In any run, `optimize` included, every atom keeps standing for the
/// value it was interned for, so `resolve` of it gives that value back.
pub proof fn lemma_run_atoms_keep_values<T: Internable + ?Sized>(
    states: Seq<Interner<T>>,
    steps: Seq<Step>,
    i: int,
)
    requires
        states[0].wf(),
        is_run(states, steps),
        0 <= i < steps.len(),
        steps[i] is Intern,
    ensures
        steps[i]->atom.id < states.last().atom_values().len(),
        states.last().atom_values()[steps[i]->atom.id as int] == steps[i]->value,
{
    lemma_run_keeps_ids(states, steps, steps.len() as int);
}

/// In any run, `optimize` included, two interns return atoms with the same
/// id exactly when they intern the same value.
pub proof fn lemma_run_same_value_same_id<T: Internable + ?Sized>(
    states: Seq<Interner<T>>,
    steps: Seq<Step>,
    i: int,
    j: int,
)
    requires
        states[0].wf(),
        is_run(states, steps),
        0 <= i < j < steps.len(),
        steps[i] is Intern,
        steps[j] is Intern,
    ensures
        (steps[i]->value == steps[j]->value) <==> (steps[i]->atom.id == steps[j]->atom.id),
{
    let last = steps.len() as int;
    lemma_run_keeps_ids(states, steps, last);
    lemma_run_wf(states, steps, last);
    lemma_atom_values_distinct(states[last]);
    let x = steps[i]->atom.id as int;
    let y = steps[j]->atom.id as int;
    if x < y {
        assert(states[last].atom_values()[x] != states[last].atom_values()[y]);
    } else if y < x {
        assert(states[last].atom_values()[y] != states[last].atom_values()[x]);
    }
}

/// In any run that ends with a serialization, the offset recorded for an
/// atom returned earlier is where that value's entry starts in the bytes:
/// its ULEB128 length followed by the value.
pub proof fn lemma_run_offset_locates_value<T: Internable + ?Sized>(
    states: Seq<Interner<T>>,
    steps: Seq<Step>,
    i: int,
)
    requires
        states[0].wf(),
        is_run(states, steps),
        0 <= i < steps.len() - 1,
        steps[i] is Intern,
        steps.last() is Serialize,
        steps.last()->bytes.len() <= u32::MAX,
    ensures
        ({
            let bytes = steps.last()->bytes;
            let v = steps[i]->value;
            let off = states.last().offsets()[steps[i]->atom.id as int] as int;
            &&& steps[i]->atom.id < states.last().offsets().len()
            &&& off + entry(v).len() <= bytes.len()
            &&& bytes.subrange(off, off + entry(v).len()) == entry(v)
        }),
{
    let n = steps.len() as int;
    lemma_run_keeps_ids(states, steps, n - 1);
    lemma_run_wf(states, steps, n - 1);
    let pre = states[n - 1];
    let post = states[n];
    assert(steps[n - 1] == steps.last());
    assert(step_holds(pre, post, steps[n - 1]));
    Interner::<T>::lemma_distinct_values(pre);
    let x = steps[i]->atom.id as int;
    let h = pre.handles()[x];
    let vals = pre.values();
    lemma_entry_at_offset(vals, h);
    lemma_entry_offsets_increase(vals);
    crate::interner::lemma_serialized_prefix_len(vals, h);
    assert(post.offsets()[x] == entry_offsets(vals)[h]);
}

/// In a run of interns and serializations (no `optimize`), two interns
/// return the same atom exactly when they intern the same value.
pub proof fn lemma_run_same_value_same_atom<T: Internable + ?Sized>(
    states: Seq<Interner<T>>,
    steps: Seq<Step>,
    i: int,
    j: int,
)
    requires
        states[0].wf(),
        is_run(states, steps),
        without_optimize(steps),
        0 <= i < j < steps.len(),
        steps[i] is Intern,
        steps[j] is Intern,
    ensures
        (steps[i]->value == steps[j]->value) <==> (steps[i]->atom == steps[j]->atom),
{
    let vi = steps[i]->value;
    let ai = steps[i]->atom;
    let vj = steps[j]->value;
    let aj = steps[j]->atom;
    lemma_run_keeps_atoms(states, steps, j);
    lemma_run_keeps_atoms(states, steps, j + 1);
    lemma_run_wf(states, steps, j);
    let pre = states[j];
    assert(step_holds(pre, states[j + 1], steps[j]));
    assert(pre.values()[ai.handle as int] == vi);
    if vi == vj {
        Interner::<T>::lemma_distinct_values(pre);
        lemma_position_of_distinct(pre.values(), ai.handle as int);
        lemma_run_wf(states, steps, j + 1);
        Interner::<T>::lemma_distinct_values(states[j + 1]);
        if ai.id != aj.id {
            if ai.id < aj.id {
                assert(states[j + 1].handles()[ai.id as int] != states[j + 1].handles()[aj.id as int]);
            } else {
                assert(states[j + 1].handles()[aj.id as int] != states[j + 1].handles()[ai.id as int]);
            }
        }
    }
    if ai == aj {
        assert(states[j + 1].values()[ai.handle as int] == vi);
        assert(states[j + 1].values()[aj.handle as int] == vj);
    }
}

/// In a run of interns and serializations (no `optimize`), the last state
/// still holds every interned value at the atom that interning returned,
/// so `resolve` of that atom gives the value back.
pub proof fn lemma_run_keeps_interned_values<T: Internable + ?Sized>(
    states: Seq<Interner<T>>,
    steps: Seq<Step>,
    i: int,
)
    requires
        states[0].wf(),
        is_run(states, steps),
        without_optimize(steps),
        0 <= i < steps.len(),
        steps[i] is Intern,
    ensures
        steps[i]->atom.handle < states.last().values().len(),
        states.last().values()[steps[i]->atom.handle as int] == steps[i]->value,
{
    lemma_run_keeps_atoms(states, steps, steps.len() as int);
}

/// In a run from an empty interner, every count is the number of times its
/// value was interned, and the values present are exactly those interned.
proof fn lemma_run_counts_upto<T: Internable + ?Sized>(
    states: Seq<Interner<T>>,
    steps: Seq<Step>,
    k: int,
)
    requires
        states[0].wf(),
        states[0].values() == Seq::<Seq<u8>>::empty(),
        is_run(states, steps),
        0 <= k <= steps.len(),
    ensures
        states[k].frequencies().len() == states[k].values().len(),
        forall|h: int|
            0 <= h < states[k].values().len() ==> #[trigger] states[k].frequencies()[h]
                == count_of(interned_values(steps.take(k)), states[k].values()[h]),
        forall|v: Seq<u8>|
            #[trigger] states[k].values().contains(v) <==> interned_values(steps.take(k)).contains(v),
        without_optimize(steps) ==> states[k].values() == first_occurrences(
            interned_values(steps.take(k)),
        ),
    decreases k,
{
    lemma_run_wf(states, steps, k);
    Interner::<T>::lemma_distinct_values(states[k]);
    if k == 0 {
        assert(steps.take(0) =~= Seq::<Step>::empty());
        assert(states[0].frequencies().len() == 0);
    } else {
        lemma_run_counts_upto(states, steps, k - 1);
        lemma_run_wf(states, steps, k - 1);
        let pre = states[k - 1];
        let post = states[k];
        let iv = interned_values(steps.take(k - 1));
        let iv2 = interned_values(steps.take(k));
        Interner::<T>::lemma_distinct_values(pre);
        lemma_interned_values_step(steps, k - 1);
        assert(step_holds(pre, post, steps[k - 1]));
        match steps[k - 1] {
            Step::Intern { value, atom } => {
                assert(iv2 == iv.push(value));
                assert forall|v: Seq<u8>| #[trigger] post.values().contains(v) <==> iv2.contains(v) by {
                    lemma_contains_push(iv, value, v);
                    lemma_contains_push(pre.values(), value, v);
                }
                assert forall|h: int| 0 <= h < post.values().len() implies #[trigger] post.frequencies()[h]
                    == count_of(iv2, post.values()[h]) by {
                    lemma_count_of_push(iv, value, post.values()[h]);
                    if pre.values().contains(value) {
                        if h != atom.handle {
                            assert(pre.values()[h] != pre.values()[atom.handle as int]);
                        }
                    } else {
                        if h < pre.values().len() {
                            assert(post.values()[h] == pre.values()[h]);
                            assert(pre.values().contains(pre.values()[h]));
                        } else {
                            lemma_count_of_absent(iv, value);
                        }
                    }
                }
                if without_optimize(steps) {
                    assert(iv2.drop_last() =~= iv);
                    assert(iv2.last() == value);
                    lemma_first_occurrences_contains(iv, value);
                }
            },
            Step::Serialize { bytes } => {
                assert(iv2 == iv);
            },
            Step::Optimize => {
                assert(iv2 == iv);
                let perm = choose|perm: Seq<int>|
                    #[trigger] is_rank_reordering(
                        pre.values(),
                        pre.frequencies(),
                        perm,
                        post.values(),
                        post.frequencies(),
                    );
                assert forall|h: int| 0 <= h < post.values().len() implies #[trigger] post.frequencies()[h]
                    == count_of(iv2, post.values()[h]) by {
                    assert(post.values()[h] == pre.values()[perm[h]]);
                }
                assert forall|v: Seq<u8>| #[trigger] post.values().contains(v) <==> iv2.contains(v) by {
                    if post.values().contains(v) {
                        let h = choose|h: int| 0 <= h < post.values().len() && post.values()[h] == v;
                        assert(post.values()[h] == pre.values()[perm[h]]);
                    }
                    if pre.values().contains(v) {
                        let j = choose|j: int| 0 <= j < pre.values().len() && pre.values()[j] == v;
                        assert(perm.contains(j));
                        let h = choose|h: int| 0 <= h < perm.len() && perm[h] == j;
                        assert(post.values()[h] == pre.values()[perm[h]]);
                    }
                }
            },
        }
    }
}

/// The sum of a sequence of counts.
pub open spec fn sum_of(cs: Seq<nat>) -> nat
    decreases cs.len(),
{
    if cs.len() == 0 {
        0
    } else {
        sum_of(cs.drop_last()) + cs.last()
    }
}

/// How often the values `ds` occur in `vs`, added up.
spec fn occurrences(vs: Seq<Seq<u8>>, ds: Seq<Seq<u8>>) -> nat
    decreases ds.len(),
{
    if ds.len() == 0 {
        0
    } else {
        occurrences(vs, ds.drop_last()) + count_of(vs, ds.last())
    }
}

proof fn lemma_occurrences_push(vs: Seq<Seq<u8>>, x: Seq<u8>, ds: Seq<Seq<u8>>)
    ensures
        occurrences(vs.push(x), ds) == occurrences(vs, ds) + count_of(ds, x),
    decreases ds.len(),
{
    if ds.len() > 0 {
        lemma_occurrences_push(vs, x, ds.drop_last());
        lemma_count_of_push(vs, x, ds.last());
    }
}

proof fn lemma_count_of_distinct(ds: Seq<Seq<u8>>, x: Seq<u8>)
    requires
        forall|a: int, b: int| 0 <= a < b < ds.len() ==> #[trigger] ds[a] != #[trigger] ds[b],
        ds.contains(x),
    ensures
        count_of(ds, x) == 1,
    decreases ds.len(),
{
    let front = ds.drop_last();
    if ds.last() == x {
        assert forall|i: int| 0 <= i < front.len() implies front[i] != x by {
            assert(front[i] == ds[i]);
            assert(ds[i] != ds[ds.len() - 1]);
        }
        lemma_count_of_absent(front, x);
    } else {
        let i = choose|i: int| 0 <= i < ds.len() && ds[i] == x;
        assert(i < ds.len() - 1);
        assert(front[i] == x);
        lemma_count_of_distinct(front, x);
    }
}

/// Over distinct values that include everything in `vs`, the counts add up
/// to the length of `vs`.
proof fn lemma_occurrences_total(vs: Seq<Seq<u8>>, ds: Seq<Seq<u8>>)
    requires
        forall|a: int, b: int| 0 <= a < b < ds.len() ==> #[trigger] ds[a] != #[trigger] ds[b],
        forall|i: int| 0 <= i < vs.len() ==> ds.contains(#[trigger] vs[i]),
    ensures
        occurrences(vs, ds) == vs.len(),
    decreases vs.len(),
{
    if vs.len() == 0 {
        lemma_occurrences_empty(vs, ds);
    } else {
        let front = vs.drop_last();
        assert forall|i: int| 0 <= i < front.len() implies ds.contains(#[trigger] front[i]) by {
            assert(front[i] == vs[i]);
        }
        lemma_occurrences_total(front, ds);
        assert(front.push(vs.last()) =~= vs);
        lemma_occurrences_push(front, vs.last(), ds);
        assert(ds.contains(vs[vs.len() - 1]));
        lemma_count_of_distinct(ds, vs.last());
    }
}

proof fn lemma_occurrences_empty(vs: Seq<Seq<u8>>, ds: Seq<Seq<u8>>)
    requires
        vs.len() == 0,
    ensures
        occurrences(vs, ds) == 0,
    decreases ds.len(),
{
    if ds.len() > 0 {
        lemma_occurrences_empty(vs, ds.drop_last());
    }
}

proof fn lemma_sum_matches_occurrences(cs: Seq<nat>, vs: Seq<Seq<u8>>, ds: Seq<Seq<u8>>)
    requires
        cs.len() == ds.len(),
        forall|h: int| 0 <= h < ds.len() ==> #[trigger] cs[h] == count_of(vs, ds[h]),
    ensures
        sum_of(cs) == occurrences(vs, ds),
    decreases ds.len(),
{
    if ds.len() > 0 {
        assert forall|h: int| 0 <= h < ds.drop_last().len() implies #[trigger] cs.drop_last()[h]
            == count_of(vs, ds.drop_last()[h]) by {
            assert(cs.drop_last()[h] == cs[h]);
            assert(ds.drop_last()[h] == ds[h]);
        }
        lemma_sum_matches_occurrences(cs.drop_last(), vs, ds.drop_last());
        assert(cs.last() == cs[cs.len() - 1]);
    }
}

/// In a run from an empty interner in which `optimize` and `serialize`
/// may come between interns, each value's count is the number of times it
/// was interned, and the values present are exactly the values interned.
pub proof fn lemma_run_counts<T: Internable + ?Sized>(states: Seq<Interner<T>>, steps: Seq<Step>)
    requires
        states[0].wf(),
        states[0].values() == Seq::<Seq<u8>>::empty(),
        is_run(states, steps),
    ensures
        forall|h: int|
            0 <= h < states.last().values().len() ==> #[trigger] states.last().frequencies()[h]
                == count_of(interned_values(steps), states.last().values()[h]),
        forall|v: Seq<u8>|
            #[trigger] states.last().values().contains(v) <==> interned_values(steps).contains(v),
        sum_of(states.last().frequencies()) == interned_values(steps).len(),
{
    let n = steps.len() as int;
    lemma_run_counts_upto(states, steps, n);
    assert(steps.take(n) =~= steps);
    lemma_run_wf(states, steps, n);
    let f = states[n];
    let iv = interned_values(steps);
    Interner::<T>::lemma_distinct_values(f);
    lemma_sum_matches_occurrences(f.frequencies(), iv, f.values());
    assert forall|i: int| 0 <= i < iv.len() implies f.values().contains(#[trigger] iv[i]) by {
        assert(iv.contains(iv[i]));
    }
    lemma_occurrences_total(iv, f.values());
}

/// In a run from an empty interner without `optimize`, the atoms stand
/// for the distinct interned values in the order they were first interned,
/// and each count is the number of times its value was interned.
pub proof fn lemma_run_first_occurrence_order<T: Internable + ?Sized>(
    states: Seq<Interner<T>>,
    steps: Seq<Step>,
)
    requires
        states[0].wf(),
        states[0].values() == Seq::<Seq<u8>>::empty(),
        is_run(states, steps),
        without_optimize(steps),
    ensures
        states.last().values() == first_occurrences(interned_values(steps)),
        forall|h: int|
            0 <= h < states.last().values().len() ==> #[trigger] states.last().frequencies()[h]
                == count_of(interned_values(steps), states.last().values()[h]),
        sum_of(states.last().frequencies()) == interned_values(steps).len(),
{
    lemma_run_counts(states, steps);
    lemma_run_counts_upto(states, steps, steps.len() as int);
    assert(steps.take(steps.len() as int) =~= steps);
}

} // verus!
