//! A bidirectional map: a one-to-one association between left values and
//! right values, queryable from either side.
//!
//! The store owns two hash indexes, forward (left to right) and reverse
//! (right to left), that always hold exactly inverse contents. Its public
//! specification speaks of the forward view `self@` alone: under the
//! inverse invariant the reverse index is determined by it.

use std::collections::HashMap;
use vstd::prelude::*;
use vstd::std_specs::iter::IteratorSpec;

verus! {

broadcast use vstd::std_specs::hash::group_hash_axioms;

/// No two stored pairs share a right value: the forward view is injective.
pub open spec fn right_unique(m: Map<u64, u64>) -> bool {
    forall|l1: u64, l2: u64|
        m.contains_key(l1) && m.contains_key(l2) && m[l1] == m[l2] ==> l1 == l2
}

/// What every reachable store satisfies: a finite forward view in which
/// left values are unique (it is a map) and right values are unique.
pub open spec fn store_inv(m: Map<u64, u64>) -> bool {
    &&& m.dom().finite()
    &&& right_unique(m)
}

/// The left value of a stored pair whose right value is `r`; meaningful
/// when `m.contains_value(r)` holds and `m` is right-unique.
pub open spec fn left_partner(m: Map<u64, u64>, r: u64) -> u64 {
    choose|l: u64| m.contains_key(l) && m[l] == r
}

/// The pair that inserting `(l, r)` into a store with forward view `m`
/// evicts, if any. The right-side collision check comes first: when `r`
/// already belongs to a different left value, that pair is the one evicted
/// and returned, even if `l` also already had a partner.
pub open spec fn spec_insert_evicted(m: Map<u64, u64>, l: u64, r: u64) -> Option<(u64, u64)> {
    if m.contains_value(r) && left_partner(m, r) != l {
        Some((left_partner(m, r), r))
    } else if m.contains_key(l) && m[l] != r {
        Some((l, m[l]))
    } else {
        None
    }
}

/// The forward view after inserting `(l, r)` into a store with forward
/// view `m`. On a right-side collision the previous owner of `r` loses its
/// pair, and a previous pair of `l` is dropped as well, so that both
/// uniqueness invariants hold afterwards.
pub open spec fn spec_insert_map(m: Map<u64, u64>, l: u64, r: u64) -> Map<u64, u64> {
    if m.contains_value(r) && left_partner(m, r) != l {
        m.remove(left_partner(m, r)).remove(l).insert(l, r)
    } else if m.contains_key(l) && m[l] == r {
        m
    } else {
        m.insert(l, r)
    }
}

/// A one-to-one association between `u64` left values and `u64` right values.
pub struct BiMap {
    fwd: HashMap<u64, u64>,
    rev: HashMap<u64, u64>,
}

impl View for BiMap {
    type V = Map<u64, u64>;

    /// The forward view: the stored pairs, keyed by left value.
    closed spec fn view(&self) -> Map<u64, u64> {
        self.fwd@
    }
}

/// A forward index whose pairs all appear inverted in the reverse index is
/// right-unique.
proof fn lemma_inverse_right_unique(m: Map<u64, u64>, w: Map<u64, u64>)
    requires
        forall|l: u64| #[trigger] m.contains_key(l) ==> w.contains_pair(m[l], l),
    ensures
        right_unique(m),
{
    assert forall|l1: u64, l2: u64|
        m.contains_key(l1) && m.contains_key(l2) && m[l1] == m[l2] implies l1 == l2 by {
        assert(w.contains_pair(m[l1], l1));
        assert(w.contains_pair(m[l2], l2));
    }
}

impl BiMap {
    /// The two indexes hold exactly inverse contents.
    #[verifier::type_invariant]
    spec fn wf(self) -> bool {
        &&& forall|l: u64| #[trigger]
            self.fwd@.contains_key(l) ==> self.rev@.contains_pair(self.fwd@[l], l)
        &&& forall|r: u64| #[trigger]
            self.rev@.contains_key(r) ==> self.fwd@.contains_pair(self.rev@[r], r)
    }

    /// Creates an empty store.
    pub fn new() -> (result: Self)
        ensures
            result@ == Map::<u64, u64>::empty(),
            store_inv(result@),
    {
        BiMap { fwd: HashMap::new(), rev: HashMap::new() }
    }

    /// Creates an empty store pre-sized for about `capacity` pairs.
    pub fn with_capacity(capacity: usize) -> (result: Self)
        ensures
            result@ == Map::<u64, u64>::empty(),
            store_inv(result@),
    {
        BiMap { fwd: HashMap::with_capacity(capacity), rev: HashMap::with_capacity(capacity) }
    }

    /// The number of stored pairs.
    pub fn len(&self) -> (result: usize)
        ensures
            result == self@.len(),
            store_inv(self@),
    {
        proof {
            use_type_invariant(&*self);
            lemma_inverse_right_unique(self.fwd@, self.rev@);
        }
        self.fwd.len()
    }

    /// True when no pair is stored.
    pub fn is_empty(&self) -> (result: bool)
        ensures
            result == self@.is_empty(),
            store_inv(self@),
    {
        proof {
            use_type_invariant(&*self);
            lemma_inverse_right_unique(self.fwd@, self.rev@);
        }
        self.fwd.is_empty()
    }

    /// Looks up the right value associated with `left`.
    pub fn get_left(&self, left: &u64) -> (result: Option<&u64>)
        ensures
            match result {
                Some(r) => self@.contains_pair(*left, *r),
                None => !self@.contains_key(*left),
            },
            store_inv(self@),
    {
        proof {
            use_type_invariant(&*self);
            lemma_inverse_right_unique(self.fwd@, self.rev@);
        }
        self.fwd.get(left)
    }

    /// True when some stored pair has `left` as its left value.
    pub fn contains_left(&self, left: &u64) -> (result: bool)
        ensures
            result == self@.contains_key(*left),
            store_inv(self@),
    {
        proof {
            use_type_invariant(&*self);
            lemma_inverse_right_unique(self.fwd@, self.rev@);
        }
        self.fwd.contains_key(left)
    }

    /// Looks up the left value associated with `right`.
    pub fn get_right(&self, right: &u64) -> (result: Option<&u64>)
        ensures
            match result {
                Some(l) => self@.contains_pair(*l, *right),
                None => !self@.contains_value(*right),
            },
            store_inv(self@),
    {
        proof {
            use_type_invariant(&*self);
            lemma_inverse_right_unique(self.fwd@, self.rev@);
        }
        let result = self.rev.get(right);
        proof {
            if result is None {
                assert forall|l: u64| self@.contains_key(l) implies self@[l] != *right by {
                    assert(self.rev@.contains_pair(self.fwd@[l], l));
                }
            }
        }
        result
    }

    /// Establishes the pair `(left, right)`, enforcing both uniqueness
    /// invariants, and returns the evicted pair, if any.
    ///
    /// Collisions are resolved with a fixed precedence. When `right`
    /// already belongs to a different left value, that whole pair is
    /// evicted and returned; if `left` also had a previous partner, that
    /// stale pair is dropped from both indexes as well (only the
    /// right-side pair is reported), so the indexes stay exact inverses.
    /// Otherwise, when `left` already had a different partner, that pair
    /// is evicted and returned. Re-inserting a pair that is already
    /// present leaves the store unchanged and reports no eviction, as does
    /// inserting a pair of two fresh values.
    pub fn insert(&mut self, left: u64, right: u64) -> (evicted: Option<(u64, u64)>)
        ensures
            evicted == spec_insert_evicted(old(self)@, left, right),
            final(self)@ == spec_insert_map(old(self)@, left, right),
            store_inv(final(self)@),
    {
        proof {
            use_type_invariant(&*self);
        }
        let mut tmp = BiMap::new();
        std::mem::swap(&mut tmp, self);
        let BiMap { mut fwd, mut rev } = tmp;
        let ghost m = fwd@;
        let ghost w = rev@;

        let prev_owner: Option<u64> = match rev.get(&right) {
            Some(l0) => Some(*l0),
            None => None,
        };
        let evicted: Option<(u64, u64)>;
        if let Some(old_left) = prev_owner {
            if old_left != left {
                // right-side collision: evict (old_left, right) completely
                proof {
                    assert(m.contains_pair(old_left, right));
                    assert(left_partner(m, right) == old_left) by {
                        let l0 = left_partner(m, right);
                        assert(m.contains_key(l0) && m[l0] == right);
                        assert(w.contains_pair(m[l0], l0));
                    }
                }
                fwd.remove(&old_left);
                rev.remove(&right);
                // drop the stale reverse entry of left's former partner too
                let stale: Option<u64> = match fwd.get(&left) {
                    Some(r0) => Some(*r0),
                    None => None,
                };
                if let Some(old_right) = stale {
                    rev.remove(&old_right);
                }
                fwd.insert(left, right);
                rev.insert(right, left);
                evicted = Some((old_left, right));
                proof {
                    assert(fwd@ =~= spec_insert_map(m, left, right));
                }
            } else {
                // rev maps right to left, so (left, right) is already stored
                proof {
                    assert(m.contains_pair(left, right));
                    assert(left_partner(m, right) == left) by {
                        let l0 = left_partner(m, right);
                        assert(m.contains_key(l0) && m[l0] == right);
                        assert(w.contains_pair(m[l0], l0));
                    }
                }
                evicted = None;
            }
        } else {
            proof {
                assert(!m.contains_value(right)) by {
                    if m.contains_value(right) {
                        let l0 = choose|l0: u64|
                            #[trigger] m.dom().contains(l0) && m[l0] == right;
                        assert(w.contains_pair(m[l0], l0));
                    }
                }
            }
            let prev_right: Option<u64> = match fwd.get(&left) {
                Some(r0) => Some(*r0),
                None => None,
            };
            if let Some(old_right) = prev_right {
                if old_right == right {
                    // the pair is already present unchanged: a pure no-op
                    evicted = None;
                } else {
                    // left-side collision: replace left's partner
                    rev.remove(&old_right);
                    fwd.insert(left, right);
                    rev.insert(right, left);
                    evicted = Some((left, old_right));
                }
            } else {
                // no collision on either side: a fresh pair
                fwd.insert(left, right);
                rev.insert(right, left);
                evicted = None;
            }
        }
        proof {
            assert forall|l: u64| #[trigger]
                fwd@.contains_key(l) implies rev@.contains_pair(fwd@[l], l) by {
                assert(m.contains_key(l) ==> w.contains_pair(m[l], l));
            }
            assert forall|r: u64| #[trigger]
                rev@.contains_key(r) implies fwd@.contains_pair(rev@[r], r) by {
                assert(w.contains_key(r) ==> m.contains_pair(w[r], r));
            }
            lemma_inverse_right_unique(fwd@, rev@);
        }
        *self = BiMap { fwd, rev };
        evicted
    }

    /// Removes the pair whose left value is `left`, if one is stored, from
    /// both indexes, and returns it.
    pub fn remove_left(&mut self, left: &u64) -> (removed: Option<(u64, u64)>)
        ensures
            match removed {
                Some(p) => {
                    &&& p.0 == *left
                    &&& old(self)@.contains_pair(*left, p.1)
                    &&& final(self)@ == old(self)@.remove(*left)
                },
                None => {
                    &&& !old(self)@.contains_key(*left)
                    &&& final(self)@ == old(self)@
                },
            },
            store_inv(final(self)@),
    {
        proof {
            use_type_invariant(&*self);
        }
        let mut tmp = BiMap::new();
        std::mem::swap(&mut tmp, self);
        let BiMap { mut fwd, mut rev } = tmp;
        let ghost m = fwd@;
        let ghost w = rev@;

        let removed: Option<(u64, u64)> = match fwd.remove(left) {
            Some(right) => {
                proof {
                    assert(w.contains_pair(m[*left], *left));
                }
                match rev.remove(&right) {
                    Some(old_left) => Some((old_left, right)),
                    None => None,  // unreachable while the indexes are inverse
                }
            },
            None => None,
        };
        proof {
            if m.contains_key(*left) {
                assert(fwd@ =~= m.remove(*left));
                assert(rev@ =~= w.remove(m[*left]));
            }
            assert forall|l: u64| #[trigger]
                fwd@.contains_key(l) implies rev@.contains_pair(fwd@[l], l) by {
                assert(w.contains_pair(m[l], l));
            }
            assert forall|r: u64| #[trigger]
                rev@.contains_key(r) implies fwd@.contains_pair(rev@[r], r) by {
                assert(m.contains_pair(w[r], r));
            }
            lemma_inverse_right_unique(fwd@, rev@);
        }
        *self = BiMap { fwd, rev };
        removed
    }

    /// Removes the pair whose right value is `right`, if one is stored,
    /// from both indexes, and returns it.
    pub fn remove_right(&mut self, right: &u64) -> (removed: Option<(u64, u64)>)
        ensures
            match removed {
                Some(p) => {
                    &&& p.1 == *right
                    &&& old(self)@.contains_pair(p.0, *right)
                    &&& final(self)@ == old(self)@.remove(p.0)
                },
                None => {
                    &&& !old(self)@.contains_value(*right)
                    &&& final(self)@ == old(self)@
                },
            },
            store_inv(final(self)@),
    {
        proof {
            use_type_invariant(&*self);
        }
        let mut tmp = BiMap::new();
        std::mem::swap(&mut tmp, self);
        let BiMap { mut fwd, mut rev } = tmp;
        let ghost m = fwd@;
        let ghost w = rev@;

        let removed: Option<(u64, u64)> = match rev.remove(right) {
            Some(old_left) => {
                proof {
                    assert(m.contains_pair(w[*right], *right));
                }
                match fwd.remove(&old_left) {
                    Some(old_right) => Some((old_left, old_right)),
                    None => None,  // unreachable while the indexes are inverse
                }
            },
            None => None,
        };
        proof {
            if w.contains_key(*right) {
                assert(fwd@ =~= m.remove(w[*right]));
                assert(rev@ =~= w.remove(*right));
            } else {
                assert forall|l: u64| m.contains_key(l) implies m[l] != *right by {
                    assert(w.contains_pair(m[l], l));
                }
            }
            assert forall|l: u64| #[trigger]
                fwd@.contains_key(l) implies rev@.contains_pair(fwd@[l], l) by {
                assert(w.contains_pair(m[l], l));
            }
            assert forall|r: u64| #[trigger]
                rev@.contains_key(r) implies fwd@.contains_pair(rev@[r], r) by {
                assert(m.contains_pair(w[r], r));
            }
            lemma_inverse_right_unique(fwd@, rev@);
        }
        *self = BiMap { fwd, rev };
        removed
    }

    /// Empties both indexes; the store returns to its initial empty state.
    pub fn clear(&mut self)
        ensures
            final(self)@ == Map::<u64, u64>::empty(),
            store_inv(final(self)@),
    {
        let mut tmp = BiMap::new();
        std::mem::swap(&mut tmp, self);
        let BiMap { mut fwd, mut rev } = tmp;
        fwd.clear();
        rev.clear();
        *self = BiMap { fwd, rev };
    }

    /// The left values of all stored pairs, in no particular order.
    pub fn left_values(&self) -> (result: Vec<u64>)
        ensures
            result@.no_duplicates(),
            result@.to_set() == self@.dom(),
            result@.len() == self@.len(),
            store_inv(self@),
    {
        proof {
            use_type_invariant(&*self);
            lemma_inverse_right_unique(self.fwd@, self.rev@);
        }
        let mut result: Vec<u64> = Vec::new();
        for k in it: self.fwd.keys()
            invariant
                it.seq() == self.fwd.keys().remaining(),
                result@ =~= it.seq().take(it.index()).unref(),
        {
            result.push(*k);
            proof {
                assert(result@ =~= it.seq().take(it.index() + 1).unref());
            }
        }
        proof {
            let s = self.fwd.keys().remaining();
            assert(s.take(s.len() as int) =~= s);
            assert(result@ =~= s.unref());
            assert forall|i: int, j: int| 0 <= i < j < result@.len() implies
                result@[i] != result@[j] by {
                assert(s[i] != s[j]);
            }
        }
        result
    }

    /// The right values of all stored pairs, in no particular order.
    pub fn right_values(&self) -> (result: Vec<u64>)
        ensures
            result@.no_duplicates(),
            result@.to_set() == self@.values(),
            result@.len() == self@.len(),
            store_inv(self@),
    {
        proof {
            use_type_invariant(&*self);
            lemma_inverse_right_unique(self.fwd@, self.rev@);
        }
        let mut result: Vec<u64> = Vec::new();
        for k in it: self.rev.keys()
            invariant
                it.seq() == self.rev.keys().remaining(),
                result@ =~= it.seq().take(it.index()).unref(),
        {
            result.push(*k);
            proof {
                assert(result@ =~= it.seq().take(it.index() + 1).unref());
            }
        }
        proof {
            let s = self.rev.keys().remaining();
            assert(s.take(s.len() as int) =~= s);
            assert(result@ =~= s.unref());
            assert forall|i: int, j: int| 0 <= i < j < result@.len() implies
                result@[i] != result@[j] by {
                assert(s[i] != s[j]);
            }
            assert(self.rev@.dom() =~= self@.values()) by {
                assert forall|r: u64| #[trigger]
                    self.rev@.contains_key(r) implies self@.contains_value(r) by {
                    assert(self.fwd@.contains_pair(self.rev@[r], r));
                    assert(self@.dom().contains(self.rev@[r]));
                }
                assert forall|r: u64| self@.contains_value(r) implies
                    self.rev@.contains_key(r) by {
                    let l = choose|l: u64| #[trigger] self@.dom().contains(l) && self@[l] == r;
                    assert(self.rev@.contains_pair(self.fwd@[l], l));
                }
            }
            assert(self@.is_injective()) by {
                assert forall|l1: u64, l2: u64|
                    l1 != l2 && self@.dom().contains(l1) && self@.dom().contains(l2)
                    implies #[trigger] self@[l1] != #[trigger] self@[l2] by {
                    assert(self.rev@.contains_pair(self.fwd@[l1], l1));
                    assert(self.rev@.contains_pair(self.fwd@[l2], l2));
                }
            }
            self@.lemma_injective_values_len();
        }
        result
    }

    /// All stored pairs, left value first, in no particular order.
    pub fn iter(&self) -> (result: Vec<(u64, u64)>)
        ensures
            result@.no_duplicates(),
            result@.to_set() == self@.kv_pairs(),
            result@.len() == self@.len(),
            store_inv(self@),
    {
        proof {
            use_type_invariant(&*self);
            lemma_inverse_right_unique(self.fwd@, self.rev@);
        }
        let mut result: Vec<(u64, u64)> = Vec::new();
        for p in it: self.fwd.iter()
            invariant
                it.seq() == self.fwd.iter().remaining(),
                result@ =~= it.seq().take(it.index()).unref(),
        {
            result.push((*p.0, *p.1));
            proof {
                assert(result@ =~= it.seq().take(it.index() + 1).unref());
            }
        }
        proof {
            let s = self.fwd.iter().remaining();
            assert(s.take(s.len() as int) =~= s);
            assert(result@ =~= s.unref());
            assert forall|i: int, j: int| 0 <= i < j < result@.len() implies
                result@[i] != result@[j] by {
                assert(s[i] != s[j]);
            }
        }
        result
    }

    /// True when some stored pair has `right` as its right value.
    pub fn contains_right(&self, right: &u64) -> (result: bool)
        ensures
            result == self@.contains_value(*right),
            store_inv(self@),
    {
        proof {
            use_type_invariant(&*self);
            lemma_inverse_right_unique(self.fwd@, self.rev@);
        }
        let result = self.rev.contains_key(right);
        proof {
            if !result {
                assert forall|l: u64| self@.contains_key(l) implies self@[l] != *right by {
                    assert(self.rev@.contains_pair(self.fwd@[l], l));
                }
            } else {
                assert(self.fwd@.contains_pair(self.rev@[*right], *right));
            }
        }
        result
    }
}

/// Law: inserting a pair that is already stored unchanged evicts nothing
/// and leaves the store's contents, and so its size and every lookup,
/// identical.
pub proof fn lemma_insert_existing(m: Map<u64, u64>, l: u64, r: u64)
    requires
        store_inv(m),
        m.contains_pair(l, r),
    ensures
        spec_insert_evicted(m, l, r) is None,
        spec_insert_map(m, l, r) == m,
{
    assert(m.contains_value(r)) by {
        assert(m.dom().contains(l) && m[l] == r);
    }
    let l0 = left_partner(m, r);
    assert(m.contains_key(l0) && m[l0] == r);
    assert(l0 == l);
}

/// Law: inserting a pair of two fresh values evicts nothing, grows the
/// size by exactly one, and afterwards the two new values look up to one
/// another, each uniquely.
pub proof fn lemma_insert_fresh(m: Map<u64, u64>, l: u64, r: u64)
    requires
        store_inv(m),
        !m.contains_key(l),
        !m.contains_value(r),
    ensures
        spec_insert_evicted(m, l, r) is None,
        spec_insert_map(m, l, r) == m.insert(l, r),
        spec_insert_map(m, l, r).len() == m.len() + 1,
        spec_insert_map(m, l, r).contains_pair(l, r),
        forall|l0: u64|
            spec_insert_map(m, l, r).contains_key(l0) && spec_insert_map(m, l, r)[l0] == r
                ==> l0 == l,
{
    assert(m.insert(l, r).dom() =~= m.dom().insert(l));
    vstd::set::axiom_set_insert_len(m.dom(), l);
}

/// Law: when `l` is stored with `r1` and `r2` is fresh, inserting
/// `(l, r2)` evicts exactly `(l, r1)`; afterwards `l` looks up to `r2`,
/// `r1` is absent from the right side, and `r2` looks up to `l` uniquely.
pub proof fn lemma_insert_left_collision(m: Map<u64, u64>, l: u64, r1: u64, r2: u64)
    requires
        store_inv(m),
        m.contains_pair(l, r1),
        r1 != r2,
        !m.contains_value(r2),
    ensures
        spec_insert_evicted(m, l, r2) == Some((l, r1)),
        spec_insert_map(m, l, r2) == m.insert(l, r2),
        spec_insert_map(m, l, r2).contains_pair(l, r2),
        !spec_insert_map(m, l, r2).contains_value(r1),
        forall|l0: u64|
            spec_insert_map(m, l, r2).contains_key(l0) && spec_insert_map(m, l, r2)[l0] == r2
                ==> l0 == l,
{
    let m2 = m.insert(l, r2);
    assert forall|l0: u64| m2.contains_key(l0) implies m2[l0] != r1 by {
        if l0 != l && m.contains_key(l0) && m[l0] == r1 {
            assert(m[l] == m[l0]);
        }
    }
}

/// Law: when `r` is stored with `l1` and a different `l2` is given,
/// inserting `(l2, r)` evicts exactly `(l1, r)`; afterwards `r` looks up
/// to `l2` uniquely, `l1` is absent, and `l2` looks up to `r`.
pub proof fn lemma_insert_right_collision(m: Map<u64, u64>, l1: u64, l2: u64, r: u64)
    requires
        store_inv(m),
        m.contains_pair(l1, r),
        l1 != l2,
    ensures
        spec_insert_evicted(m, l2, r) == Some((l1, r)),
        spec_insert_map(m, l2, r) == m.remove(l1).remove(l2).insert(l2, r),
        spec_insert_map(m, l2, r).contains_pair(l2, r),
        !spec_insert_map(m, l2, r).contains_key(l1),
        forall|l0: u64|
            spec_insert_map(m, l2, r).contains_key(l0) && spec_insert_map(m, l2, r)[l0] == r
                ==> l0 == l2,
{
    assert(m.contains_value(r)) by {
        assert(m.dom().contains(l1) && m[l1] == r);
    }
    let l0 = left_partner(m, r);
    assert(m.contains_key(l0) && m[l0] == r);
    assert(l0 == l1);
}

/// Law: removing a stored pair by its left value and removing it by its
/// right value take out the same single pair; afterwards both of its
/// values are absent from both sides and the size is one less.
pub proof fn lemma_remove_round_trip(m: Map<u64, u64>, l: u64, r: u64)
    requires
        store_inv(m),
        m.contains_pair(l, r),
    ensures
        forall|l0: u64| m.contains_key(l0) && m[l0] == r ==> l0 == l,
        m.remove(l).len() == m.len() - 1,
        !m.remove(l).contains_key(l),
        !m.remove(l).contains_value(r),
{
    m.lemma_remove_key_len(l);
    assert forall|l0: u64| m.remove(l).contains_key(l0) implies m.remove(l)[l0] != r by {
        if m.contains_key(l0) && m[l0] == r {
            assert(m[l] == m[l0]);
        }
    }
}

impl Clone for BiMap {
    /// Duplicates the store: both indexes are copied in full, so mutating
    /// either copy afterwards leaves the other unchanged.
    fn clone(&self) -> (result: Self)
        ensures
            result@ == self@,
            store_inv(result@),
    {
        proof {
            use_type_invariant(&*self);
        }
        let result = BiMap { fwd: self.fwd.clone(), rev: self.rev.clone() };
        proof {
            lemma_inverse_right_unique(self.fwd@, self.rev@);
        }
        result
    }
}

impl Default for BiMap {
    /// Same as empty construction with no pre-sizing hint.
    fn default() -> (result: Self)
        ensures
            result@ == Map::<u64, u64>::empty(),
            store_inv(result@),
    {
        BiMap::new()
    }
}

} // verus!
