//! A bounded set of `usize` keys with constant-time add, remove, membership
//! test and clear, built on the sparse-set technique: a `sparse` buffer maps
//! each present key to its position in a `dense` buffer, and the `dense`
//! buffer lists the present keys contiguously.

use vstd::prelude::*;

verus! {

/// Error returned by [`FastSet::add`] and [`FastSet::remove`] when the key
/// is not below the set's capacity. Carries the capacity and the offending
/// key for diagnostics.
#[derive(Debug, Clone, Copy)]
pub struct OutOfBounds {
    pub cap: usize,
    pub key: usize,
}

/// Error returned by [`FastSet::new`] when the requested capacity is too
/// large for two buffers of that many `usize` values to be laid out in
/// memory.
#[derive(Debug, Clone, Copy)]
pub struct AllocationError {}

/// Holds when two buffers of `cap` values of `usize` each have a
/// representable memory layout: the size in bytes of one such buffer must
/// not exceed `isize::MAX`.
pub open spec fn capacity_fits(cap: int) -> bool {
    cap * (vstd::layout::size_of::<usize>() as int) <= isize::MAX as int
}

/// A set of `usize` keys below a fixed capacity, with constant-time
/// `add`, `remove`, `contains` and `clear`.
///
/// `sparse[k]` holds the position of key `k` within `dense` whenever `k` is
/// present; `dense[0..len]` lists the present keys, each exactly once, in an
/// order that depends on the history of operations. Entries of `sparse` for
/// absent keys and entries of `dense` at or beyond `len` are stale and never
/// treated as meaningful.
pub struct FastSet {
    sparse: Vec<usize>,
    dense: Vec<usize>,
    len: usize,
    cap: usize,
}

impl View for FastSet {
    type V = Set<int>;

    /// The mathematical set of keys currently present.
    closed spec fn view(&self) -> Set<int> {
        Set::new(|k: int| self.spec_has(k))
    }
}

impl FastSet {
    /// Key `k` is present exactly when its sparse entry points into the live
    /// prefix of `dense` and the dense entry there points back at `k`.
    spec fn spec_has(&self, k: int) -> bool {
        &&& 0 <= k < self.cap
        &&& self.sparse@[k] < self.len
        &&& self.dense@[self.sparse@[k] as int] == k
    }

    /// The fixed capacity: the exclusive upper bound on storable keys.
    pub closed spec fn spec_cap(&self) -> int {
        self.cap as int
    }

    #[verifier::type_invariant]
    spec fn wf(&self) -> bool {
        &&& self.sparse@.len() == self.cap
        &&& self.dense@.len() == self.cap
        &&& self.len <= self.cap
        &&& capacity_fits(self.cap as int)
        &&& forall|i: int|
            0 <= i < self.len ==> ((#[trigger] self.dense@[i]) < self.cap
                && self.sparse@[self.dense@[i] as int] == i)
    }

    /// The first `n` entries of the dense buffer, as mathematical integers.
    spec fn dense_prefix(&self, n: int) -> Seq<int> {
        Seq::new(n as nat, |j: int| self.dense@[j] as int)
    }

    /// The live prefix of `dense` lists each present key exactly once.
    proof fn lemma_prefix_no_duplicates(&self)
        requires
            self.wf(),
        ensures
            self.dense_prefix(self.len as int).no_duplicates(),
    {
        let p = self.dense_prefix(self.len as int);
        assert forall|i: int, j: int|
            0 <= i < p.len() && 0 <= j < p.len() && i != j implies p[i] != p[j] by {
            assert(self.sparse@[self.dense@[i] as int] == i);
            assert(self.sparse@[self.dense@[j] as int] == j);
        }
    }

    /// The set of present keys is exactly the content of the live prefix of
    /// the dense buffer.
    proof fn lemma_view_as_prefix(&self)
        requires
            self.wf(),
        ensures
            self@ == self.dense_prefix(self.len as int).to_set(),
    {
        let p = self.dense_prefix(self.len as int);
        assert forall|k: int| self@.contains(k) implies p.to_set().contains(k) by {
            let idx = self.sparse@[k] as int;
            assert(p[idx] == k);
            assert(p.contains(k));
        }
        assert forall|k: int| p.to_set().contains(k) implies self@.contains(k) by {
            let j = choose|j: int| 0 <= j < p.len() && p[j] == k;
            assert(self.dense@[j] < self.cap && self.sparse@[self.dense@[j] as int] == j);
        }
        assert(self@ =~= p.to_set());
    }

    /// The `len` field counts the present keys: the view is finite and its
    /// cardinality equals `len`.
    proof fn lemma_len_counts(&self)
        requires
            self.wf(),
        ensures
            self@.finite(),
            self@.len() == self.len,
    {
        broadcast use vstd::seq_lib::seq_to_set_is_finite;

        let p = self.dense_prefix(self.len as int);
        self.lemma_prefix_no_duplicates();
        p.unique_seq_to_set();
        self.lemma_view_as_prefix();
    }

    /// Create a set that will hold keys less than `cap`, with both buffers
    /// allocated eagerly. Fails exactly when a buffer of `cap` values of
    /// `usize` has no representable memory layout.
    pub fn new(cap: usize) -> (r: Result<FastSet, AllocationError>)
        ensures
            r is Ok <==> capacity_fits(cap as int),
            r matches Ok(s) ==> s@ == Set::<int>::empty() && s.spec_cap() == cap,
    {
        let word: usize = core::mem::size_of::<usize>();
        match cap.checked_mul(word) {
            Some(bytes) => {
                if bytes <= isize::MAX as usize {
                    let sparse: Vec<usize> = make_buffer(cap);
                    let dense: Vec<usize> = make_buffer(cap);
                    let s = FastSet { sparse, dense, len: 0, cap };
                    proof {
                        assert(s@ =~= Set::<int>::empty());
                    }
                    Ok(s)
                } else {
                    Err(AllocationError {})
                }
            },
            None => Err(AllocationError {}),
        }
    }

    /// The number of keys currently present; never exceeds the capacity.
    pub fn len(&self) -> (r: usize)
        ensures
            r == self@.len(),
            self@.finite(),
            r <= self.spec_cap(),
    {
        proof {
            use_type_invariant(&*self);
            self.lemma_len_counts();
        }
        self.len
    }

    /// The capacity: the lowest value that cannot be stored. Always equal to
    /// the value passed at creation.
    pub fn cap(&self) -> (r: usize)
        ensures
            r == self.spec_cap(),
    {
        self.cap
    }

    /// Whether the set contains `key`. Always `false` for keys at or above
    /// the capacity: out-of-range queries degrade gracefully instead of
    /// failing.
    pub fn contains(&self, key: usize) -> (r: bool)
        ensures
            r == self@.contains(key as int),
            key >= self.spec_cap() ==> r == false,
    {
        proof {
            use_type_invariant(&*self);
        }
        if key >= self.cap {
            false
        } else {
            self.unchecked_contains(key)
        }
    }

    /// Whether the set contains `key`, without the bounds branch. The key
    /// must be below the capacity.
    pub fn unchecked_contains(&self, key: usize) -> (r: bool)
        requires
            key < self.spec_cap(),
        ensures
            r == self@.contains(key as int),
    {
        proof {
            use_type_invariant(&*self);
        }
        let index: usize = self.sparse[key];
        if index >= self.len {
            false
        } else {
            self.dense[index] == key
        }
    }

    /// A set with room for `k` (`k` below the capacity and absent) is not
    /// full: every present key is below the capacity, and they are pairwise
    /// distinct, so together with `k` they cannot exceed the capacity.
    proof fn lemma_not_full(&self, k: int)
        requires
            self.wf(),
            0 <= k < self.cap,
            !self@.contains(k),
        ensures
            self.len < self.cap,
    {
        self.lemma_len_counts();
        let range = vstd::set_lib::set_int_range(0, self.cap as int);
        vstd::set_lib::lemma_int_range(0, self.cap as int);
        assert(self@.insert(k).subset_of(range));
        vstd::set_lib::lemma_len_subset(self@.insert(k), range);
    }

    /// Add `key` to the set. Fails, mutating nothing, when `key` is not
    /// below the capacity; a no-op when `key` is already present.
    pub fn add(&mut self, key: usize) -> (r: Result<(), OutOfBounds>)
        ensures
            final(self).spec_cap() == old(self).spec_cap(),
            match r {
                Ok(()) => key < old(self).spec_cap() && final(self)@ == old(self)@.insert(
                    key as int,
                ),
                Err(e) => key >= old(self).spec_cap() && *final(self) == *old(self) && e.cap
                    == old(self).spec_cap() && e.key == key,
            },
    {
        if key >= self.cap {
            return Err(OutOfBounds { cap: self.cap, key });
        }
        if !self.unchecked_contains(key) {
            self.unchecked_add(key);
        } else {
            proof {
                assert(old(self)@.insert(key as int) =~= old(self)@);
            }
        }
        Ok(())
    }

    /// Add `key` to the set, without the bounds branch or the presence
    /// check. The key must be below the capacity and absent.
    pub fn unchecked_add(&mut self, key: usize)
        requires
            key < old(self).spec_cap(),
            !old(self)@.contains(key as int),
        ensures
            final(self).spec_cap() == old(self).spec_cap(),
            final(self)@ == old(self)@.insert(key as int),
    {
        proof {
            use_type_invariant(&*self);
            self.lemma_not_full(key as int);
        }
        let n: usize = self.len;
        self.sparse[key] = n;
        self.dense[n] = key;
        self.len = n + 1;
        proof {
            assert forall|k: int|
                self.spec_has(k) <==> (old(self).spec_has(k) || k == key as int) by {
                if k == key as int {
                    assert(self.spec_has(k));
                } else if 0 <= k < self.cap {
                    if old(self).spec_has(k) {
                        assert(self.spec_has(k));
                    }
                    if self.spec_has(k) {
                        let idx = self.sparse@[k] as int;
                        if idx == n {
                            assert(self.dense@[idx] == key);
                        } else {
                            assert(old(self).spec_has(k));
                        }
                    }
                }
            }
            assert(self@ =~= old(self)@.insert(key as int));
        }
    }

    /// Remove `key` from the set. Fails, mutating nothing, when `key` is
    /// not below the capacity; a no-op when `key` is absent.
    pub fn remove(&mut self, key: usize) -> (r: Result<(), OutOfBounds>)
        ensures
            final(self).spec_cap() == old(self).spec_cap(),
            match r {
                Ok(()) => key < old(self).spec_cap() && final(self)@ == old(self)@.remove(
                    key as int,
                ),
                Err(e) => key >= old(self).spec_cap() && *final(self) == *old(self) && e.cap
                    == old(self).spec_cap() && e.key == key,
            },
    {
        if key >= self.cap {
            return Err(OutOfBounds { cap: self.cap, key });
        }
        if self.unchecked_contains(key) {
            self.unchecked_remove(key);
        } else {
            proof {
                assert(old(self)@.remove(key as int) =~= old(self)@);
            }
        }
        Ok(())
    }

    /// Remove `key` from the set, without the bounds branch or the presence
    /// check. The key must be present. Swap-remove: the last dense entry
    /// moves into the removed key's slot, and its sparse entry is redirected
    /// there; the removed key's sparse entry is left stale.
    pub fn unchecked_remove(&mut self, key: usize)
        requires
            old(self)@.contains(key as int),
        ensures
            final(self).spec_cap() == old(self).spec_cap(),
            final(self)@ == old(self)@.remove(key as int),
    {
        proof {
            use_type_invariant(&*self);
        }
        let idx: usize = self.sparse[key];
        let last: usize = self.len - 1;
        let moved: usize = self.dense[last];
        proof {
            assert(old(self).sparse@[old(self).dense@[last as int] as int] == last);
        }
        self.len = last;
        self.sparse[moved] = idx;
        proof {
            use_type_invariant(&*self);
            assert forall|i: int| 0 <= i < last && i != idx implies self.dense@[i] != moved by {
                assert(self.sparse@[self.dense@[i] as int] == i);
            }
        }
        vstd::std_specs::core::index_set(&mut self.dense, idx, moved);
        proof {
            assert forall|k: int|
                self.spec_has(k) <==> (old(self).spec_has(k) && k != key as int) by {
                if 0 <= k < self.cap {
                    if k == key as int {
                        if moved == key {
                            assert(!self.spec_has(k));
                        } else {
                            assert(old(self).sparse@[k] == idx);
                            assert(!self.spec_has(k));
                        }
                    } else if k == moved as int {
                        if idx < last {
                            assert(self.spec_has(k));
                            assert(old(self).spec_has(k));
                        }
                    } else {
                        if old(self).spec_has(k) {
                            let j = old(self).sparse@[k] as int;
                            assert(old(self).dense@[j] == k);
                            assert(self.spec_has(k));
                        }
                        if self.spec_has(k) {
                            let j = self.sparse@[k] as int;
                            assert(self.dense@[j] == k);
                            assert(old(self).spec_has(k));
                        }
                    }
                }
            }
            assert(self@ =~= old(self)@.remove(key as int));
        }
    }

    /// Remove every key. Only the length is reset; buffer contents are left
    /// stale and never read as meaningful again.
    pub fn clear(&mut self)
        ensures
            final(self).spec_cap() == old(self).spec_cap(),
            final(self)@ == Set::<int>::empty(),
    {
        proof {
            use_type_invariant(&*self);
        }
        self.len = 0;
        proof {
            assert(self@ =~= Set::<int>::empty());
        }
    }

    /// The keys of the set, in an order that depends on the history of
    /// operations: exactly the present keys, each exactly once.
    pub fn keys(&self) -> (r: Vec<usize>)
        ensures
            r@.len() == self@.len(),
            r@.no_duplicates(),
            forall|j: int| 0 <= j < r@.len() ==> (#[trigger] r@[j]) < self.spec_cap(),
            forall|j: int| 0 <= j < r@.len() ==> self@.contains((#[trigger] r@[j]) as int),
            forall|k: int| #[trigger]
                self@.contains(k) ==> exists|j: int| 0 <= j < r@.len() && r@[j] == k,
    {
        proof {
            use_type_invariant(&*self);
            self.lemma_len_counts();
        }
        let n: usize = self.len;
        let mut out: Vec<usize> = Vec::new();
        let mut i: usize = 0;
        while i < n
            invariant
                i <= n,
                self.wf(),
                n == self.len,
                out@ == self.dense@.subrange(0, i as int),
            decreases n - i,
        {
            let key: usize = self.dense[i];
            out.push(key);
            proof {
                assert(out@ =~= self.dense@.subrange(0, i + 1));
            }
            i += 1;
        }
        proof {
            let p = self.dense_prefix(self.len as int);
            self.lemma_prefix_no_duplicates();
            self.lemma_view_as_prefix();
            assert forall|j: int| 0 <= j < out@.len() implies self@.contains(
                (#[trigger] out@[j]) as int,
            ) by {
                assert(p[j] == out@[j] as int);
                assert(p.to_set().contains(p[j]));
            }
            assert forall|k: int| #[trigger]
                self@.contains(k) implies exists|j: int| 0 <= j < out@.len() && out@[j] == k by {
                let j = choose|j: int| 0 <= j < p.len() && p[j] == k;
                assert(out@[j] == k);
            }
        }
        out
    }

    /// Re-insert every key of `source` into this (empty) set of equal
    /// capacity.
    fn fill_from(&mut self, source: &FastSet)
        requires
            old(self)@ == Set::<int>::empty(),
            old(self).spec_cap() == source.spec_cap(),
        ensures
            final(self).spec_cap() == old(self).spec_cap(),
            final(self)@ == source@,
    {
        proof {
            use_type_invariant(source);
            assert(Seq::<int>::empty().to_set() =~= Set::<int>::empty());
            assert(source.dense_prefix(0) =~= Seq::<int>::empty());
        }
        let n: usize = source.len;
        let mut i: usize = 0;
        while i < n
            invariant
                i <= n,
                source.wf(),
                n == source.len,
                self.spec_cap() == source.spec_cap(),
                self@ == source.dense_prefix(i as int).to_set(),
            decreases n - i,
        {
            let key: usize = source.dense[i];
            proof {
                let p = source.dense_prefix(i as int);
                assert(source.sparse@[source.dense@[i as int] as int] == i as int);
                assert(!self@.contains(key as int)) by {
                    if p.to_set().contains(key as int) {
                        let j = choose|j: int| 0 <= j < p.len() && p[j] == key as int;
                        assert(source.sparse@[source.dense@[j] as int] == j);
                    }
                }
            }
            self.unchecked_add(key);
            proof {
                let p0 = source.dense_prefix(i as int);
                let p1 = source.dense_prefix(i + 1);
                assert forall|k: int| p1.to_set().contains(k) implies p0.to_set().insert(
                    key as int,
                ).contains(k) by {
                    let j = choose|j: int| 0 <= j < p1.len() && p1[j] == k;
                    if j < i {
                        assert(p0[j] == k);
                    }
                }
                assert forall|k: int| p0.to_set().insert(key as int).contains(k) implies
                    p1.to_set().contains(k) by {
                    if k == key as int {
                        assert(p1[i as int] == k);
                    } else {
                        let j = choose|j: int| 0 <= j < p0.len() && p0[j] == k;
                        assert(p1[j] == k);
                    }
                }
                assert(self@ =~= p1.to_set());
            }
            i += 1;
        }
        proof {
            source.lemma_view_as_prefix();
        }
    }

    /// Replace the contents of this set by those of `source`, reusing this
    /// set's buffers when the capacities already agree, and allocating
    /// fresh ones otherwise. Afterwards this set has `source`'s capacity
    /// and exactly `source`'s keys.
    pub fn clone_from(&mut self, source: &FastSet)
        ensures
            final(self).spec_cap() == source.spec_cap(),
            final(self)@ == source@,
    {
        proof {
            use_type_invariant(&*self);
            use_type_invariant(source);
        }
        if self.cap == source.cap {
            self.clear();
        } else {
            let sparse: Vec<usize> = make_buffer(source.cap);
            let dense: Vec<usize> = make_buffer(source.cap);
            *self = FastSet { sparse, dense, len: 0, cap: source.cap };
        }
        proof {
            assert(self@ =~= Set::<int>::empty());
        }
        self.fill_from(source);
    }
}

impl Clone for FastSet {
    /// An independent set with the same capacity and the same keys, built
    /// by re-inserting every present key; costs time proportional to the
    /// length, not the capacity.
    fn clone(&self) -> (res: Self)
        ensures
            res.spec_cap() == self.spec_cap(),
            res@ == self@,
    {
        proof {
            use_type_invariant(&*self);
        }
        let sparse: Vec<usize> = make_buffer(self.cap);
        let dense: Vec<usize> = make_buffer(self.cap);
        let mut res = FastSet { sparse, dense, len: 0, cap: self.cap };
        proof {
            assert(res@ =~= Set::<int>::empty());
        }
        res.fill_from(self);
        res
    }
}

/// Adding a key twice in succession leaves the same membership as adding it
/// once: a second `add` of a present key is a no-op on the view.
pub proof fn lemma_add_twice(s: Set<int>, k: int)
    ensures
        s.insert(k).insert(k) == s.insert(k),
{
    assert(s.insert(k).insert(k) =~= s.insert(k));
}

/// Removing an absent key leaves the membership unchanged: `remove` of an
/// absent key is a no-op on the view.
pub proof fn lemma_remove_absent(s: Set<int>, k: int)
    requires
        !s.contains(k),
    ensures
        s.remove(k) == s,
{
    assert(s.remove(k) =~= s);
}

/// A fresh buffer of exactly `cap` entries, zero-filled; the initial values
/// carry no meaning, as only entries guarded by the length are ever read.
fn make_buffer(cap: usize) -> (r: Vec<usize>)
    ensures
        r@.len() == cap,
{
    let mut buf: Vec<usize> = Vec::new();
    while buf.len() < cap
        invariant
            buf@.len() <= cap,
        decreases cap - buf@.len(),
    {
        buf.push(0);
    }
    buf
}

} // verus!
