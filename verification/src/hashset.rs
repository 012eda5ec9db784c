use vstd::prelude::*;

verus! {

/// The number of slots of the table that a deduplication keeps.
pub const TABLE_SLOTS: usize = 1213757;

/// The slot at which the search for a fingerprint starts.
pub open spec fn home(v: u128, n: int) -> int {
    v as int % n
}

/// The slot that a search reaches `j` steps after the slot `h`, going round
/// at the end of the table.
pub open spec fn slot_at(h: int, j: int, n: int) -> int {
    if h + j < n {
        h + j
    } else {
        h + j - n
    }
}

/// The number of steps from the slot `h` to the slot `k`, going round at
/// the end of the table.
pub open spec fn steps(h: int, k: int, n: int) -> int {
    if k >= h {
        k - h
    } else {
        k + n - h
    }
}

/// The value in the slot that a search for the value in slot `k` reaches
/// after `j` steps.
pub open spec fn on_the_way(t: Seq<u128>, k: int, j: int) -> u128 {
    t[slot_at(home(t[k], t.len() as int), j, t.len() as int)]
}

/// Whether a table is one that searches find their way in: every value
/// is reached from its home slot over filled slots only, and no value is
/// stored twice. Zero marks an empty slot.
pub open spec fn table_ok(t: Seq<u128>) -> bool {
    &&& t.len() > 0
    &&& forall|k: int, j: int|
        0 <= k < t.len() && t[k] != 0 && 0 <= j < steps(home(t[k], t.len() as int), k, t.len() as int)
            ==> #[trigger] on_the_way(t, k, j) != 0
    &&& forall|a: int, b: int|
        0 <= a < t.len() && 0 <= b < t.len() && t[a] != 0 && #[trigger] t[a] == #[trigger] t[b]
            ==> a == b
}

/// Whether a table holds a value.
pub open spec fn table_holds(t: Seq<u128>, v: u128) -> bool {
    v != 0 && exists|k: int| 0 <= k < t.len() && #[trigger] t[k] == v
}

/// The values that a table holds.
pub open spec fn table_set(t: Seq<u128>) -> Set<u128> {
    Set::new(|v: u128| table_holds(t, v))
}

/// The number of empty slots of a table.
pub open spec fn table_free(t: Seq<u128>) -> nat
    decreases t.len(),
{
    if t.len() == 0 {
        0
    } else {
        table_free(t.drop_last()) + if t.last() == 0 {
            1nat
        } else {
            0nat
        }
    }
}

proof fn lemma_free_has_zero(t: Seq<u128>, k: int)
    requires
        0 <= k < t.len(),
        t[k] == 0,
    ensures
        table_free(t) > 0,
    decreases t.len(),
{
    if k < t.len() - 1 {
        lemma_free_has_zero(t.drop_last(), k);
    }
}

proof fn lemma_free_none(t: Seq<u128>)
    requires
        forall|k: int| 0 <= k < t.len() ==> t[k] != 0,
    ensures
        table_free(t) == 0,
    decreases t.len(),
{
    if t.len() > 0 {
        lemma_free_none(t.drop_last());
    }
}

proof fn lemma_free_fill(t: Seq<u128>, k: int, v: u128)
    requires
        0 <= k < t.len(),
        t[k] == 0,
        v != 0,
    ensures
        table_free(t.update(k, v)) == table_free(t) - 1,
    decreases t.len(),
{
    let u = t.update(k, v);
    if k < t.len() - 1 {
        lemma_free_fill(t.drop_last(), k, v);
        assert(u.drop_last() =~= t.drop_last().update(k, v));
    } else {
        assert(u.drop_last() =~= t.drop_last());
    }
}

proof fn lemma_free_zeros(n: nat)
    ensures
        table_free(Seq::new(n, |i: int| 0u128)) == n,
    decreases n,
{
    if n > 0 {
        lemma_free_zeros((n - 1) as nat);
        assert(Seq::new(n, |i: int| 0u128).drop_last() =~= Seq::new((n - 1) as nat, |i: int| 0u128));
    }
}

/// A set of 128-bit fingerprints in a table of fixed size with open
/// addressing. The fingerprint zero cannot be kept: zero marks an empty
/// slot.
pub struct FingerprintSet {
    slots: Vec<u128>,
}

impl FingerprintSet {
    /// The slots of the table.
    pub closed spec fn table(&self) -> Seq<u128> {
        self.slots@
    }

    /// Whether the table is one that searches find their way in.
    pub open spec fn wf(&self) -> bool {
        table_ok(self.table())
    }

    /// The fingerprints that are kept.
    pub open spec fn kept(&self) -> Set<u128> {
        table_set(self.table())
    }

    /// The number of fingerprints that can still be kept.
    pub open spec fn free(&self) -> nat {
        table_free(self.table())
    }

    /// An empty set with room for `size` fingerprints.
    pub fn new(size: usize) -> (r: FingerprintSet)
        requires
            size > 0,
        ensures
            r.wf(),
            r.kept() == Set::<u128>::empty(),
            r.free() == size,
    {
        let mut slots: Vec<u128> = Vec::new();
        let mut i: usize = 0;
        while i < size
            invariant
                i <= size,
                slots@ == Seq::new(i as nat, |k: int| 0u128),
            decreases size - i,
        {
            slots.push(0u128);
            i += 1;
            assert(slots@ =~= Seq::new(i as nat, |k: int| 0u128));
        }
        proof {
            lemma_free_zeros(size as nat);
            assert(table_set(slots@) =~= Set::<u128>::empty());
        }
        FingerprintSet { slots }
    }

    /// Looks a fingerprint up, and keeps it where it is new and there is
    /// room. Returns whether it was kept before. The fingerprint zero is
    /// never kept, and so never found.
    #[verifier::rlimit(40)]
    pub fn note(&mut self, fp: u128) -> (dup: bool)
        requires
            old(self).wf(),
        ensures
            final(self).wf(),
            dup == old(self).kept().contains(fp),
            fp != 0 && !dup && old(self).free() > 0 ==> final(self).kept() == old(self).kept().insert(
                fp,
            ) && final(self).free() == old(self).free() - 1,
            fp == 0 || dup || old(self).free() == 0 ==> final(self).kept() == old(self).kept()
                && final(self).free() == old(self).free(),
    {
        if fp == 0 {
            return false;
        }
        let n = self.slots.len();
        let ghost t = self.slots@;
        let ghost h = home(fp, n as int);
        let mut pos: usize = (fp % (n as u128)) as usize;
        let mut i: usize = 0;
        while i < n
            invariant
                i <= n,
                n == t.len(),
                self.slots@ == t,
                t == old(self).table(),
                table_ok(t),
                fp != 0,
                h == home(fp, n as int),
                0 <= h < n,
                i < n ==> pos == slot_at(h, i as int, n as int),
                forall|j: int|
                    0 <= j < i ==> t[slot_at(h, j, n as int)] != 0 && t[slot_at(h, j, n as int)]
                        != fp,
            decreases n - i,
        {
            let v = self.slots[pos];
            if v == fp {
                assert(t[pos as int] == fp);
                return true;
            }
            if v == 0 {
                proof {
                    assert(!table_holds(t, fp)) by {
                        if table_holds(t, fp) {
                            let k = choose|k: int| 0 <= k < t.len() && #[trigger] t[k] == fp;
                            let d = steps(h, k, n as int);
                            assert(slot_at(h, d, n as int) == k);
                            if d > i {
                                assert(on_the_way(t, k, i as int) != 0);
                            }
                        }
                    }
                    lemma_free_has_zero(t, pos as int);
                    lemma_free_fill(t, pos as int, fp);
                }
                self.slots.set(pos, fp);
                proof {
                    let u = self.slots@;
                    assert(u == t.update(pos as int, fp));
                    assert forall|k: int, j: int|
                        0 <= k < u.len() && u[k] != 0 && 0 <= j < steps(
                            home(u[k], u.len() as int),
                            k,
                            u.len() as int,
                        ) implies #[trigger] on_the_way(u, k, j) != 0 by {
                        if k == pos {
                            assert(t[slot_at(h, j, n as int)] != 0);
                        } else {
                            assert(on_the_way(t, k, j) != 0);
                        }
                    }
                    assert forall|a: int, b: int|
                        0 <= a < u.len() && 0 <= b < u.len() && u[a] != 0 && #[trigger] u[a]
                            == #[trigger] u[b] implies a == b by {
                        if a != pos && b != pos {
                            assert(t[a] == t[b]);
                        }
                    }
                    assert(table_set(u) =~= table_set(t).insert(fp)) by {
                        assert forall|w: u128| table_set(u).contains(w) <==> table_set(t).insert(
                            fp,
                        ).contains(w) by {
                            if table_holds(u, w) {
                                let k = choose|k: int| 0 <= k < u.len() && #[trigger] u[k] == w;
                                if k != pos {
                                    assert(t[k] == w);
                                }
                            }
                            if table_holds(t, w) {
                                let k = choose|k: int| 0 <= k < t.len() && #[trigger] t[k] == w;
                                assert(u[k] == w);
                            }
                            if w == fp {
                                assert(u[pos as int] == w);
                            }
                        }
                    }
                }
                return false;
            }
            pos += 1;
            if pos == n {
                pos = 0;
            }
            i += 1;
        }
        proof {
            assert forall|k: int| 0 <= k < t.len() implies t[k] != 0 && t[k] != fp by {
                let d = steps(h, k, n as int);
                assert(slot_at(h, d, n as int) == k);
            }
            lemma_free_none(t);
        }
        false
    }
}

} // verus!
