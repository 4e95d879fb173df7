//! A fixed-capacity least-recently-used key/value cache.
//!
//! Entries live in an arena of parallel vectors and are threaded onto a
//! doubly linked recency chain by slot number: `head` points at the
//! most-recently-used slot, each slot's `next` link walks toward the
//! least-recently-used slot at `tail`, and `prev` links walk back. A ghost
//! sequence records the chain order, so every operation is verified against
//! the recency-sequence model in [`crate::model`].

use vstd::prelude::*;

use crate::model::{contains_key, get_model, index_of, push_model, value_of, Item};

verus! {

/// A fixed-capacity LRU cache mapping byte-sequence keys to byte-sequence
/// values.
pub struct Cache {
    /// Maximum number of entries; fixed at construction, always at least 1.
    capacity: usize,
    /// Slot of the most-recently-used entry, or `None` when empty.
    head: Option<usize>,
    /// Slot of the least-recently-used entry, or `None` when empty.
    tail: Option<usize>,
    /// Key of each slot.
    keys: Vec<Vec<u8>>,
    /// Value of each slot.
    vals: Vec<Vec<u8>>,
    /// Back link of each slot: the neighbouring slot closer to the head.
    prevs: Vec<Option<usize>>,
    /// Forward link of each slot: the neighbouring slot closer to the tail.
    nexts: Vec<Option<usize>>,
    /// The chain order: slot numbers from head to tail.
    order: Ghost<Seq<int>>,
}

impl Cache {
    /// The four parallel vectors describe the same slots.
    pub closed spec fn lens_ok(self) -> bool {
        &&& self.vals@.len() == self.keys@.len()
        &&& self.prevs@.len() == self.keys@.len()
        &&& self.nexts@.len() == self.keys@.len()
    }

    /// The links of the slots listed in `ord` form one consistent doubly
    /// linked chain from `head` to `tail`, in that order.
    pub closed spec fn links_ok(self, ord: Seq<int>) -> bool {
        &&& forall|j: int| 0 <= j < ord.len() ==> 0 <= #[trigger] ord[j] < self.keys@.len()
        &&& forall|i: int, j: int| 0 <= i < j < ord.len() ==> ord[i] != ord[j]
        &&& forall|j: int|
            0 <= j < ord.len() ==> #[trigger] self.prevs@[ord[j]] == (if j == 0 {
                Option::<usize>::None
            } else {
                Option::<usize>::Some(ord[j - 1] as usize)
            })
        &&& forall|j: int|
            0 <= j < ord.len() ==> #[trigger] self.nexts@[ord[j]] == (if j == ord.len() - 1 {
                Option::<usize>::None
            } else {
                Option::<usize>::Some(ord[j + 1] as usize)
            })
        &&& self.head == (if ord.len() == 0 {
            Option::<usize>::None
        } else {
            Option::<usize>::Some(ord[0] as usize)
        })
        &&& self.tail == (if ord.len() == 0 {
            Option::<usize>::None
        } else {
            Option::<usize>::Some(ord[ord.len() - 1] as usize)
        })
    }

    /// Well-formedness: the chain covers every slot exactly once, keys are
    /// distinct, and the arena never outgrows the capacity.
    pub closed spec fn wf(self) -> bool {
        &&& self.lens_ok()
        &&& self.order@.len() == self.keys@.len()
        &&& self.links_ok(self.order@)
        &&& forall|i: int, j: int|
            0 <= i < j < self.order@.len() ==> self.keys@[self.order@[i]]@
                != self.keys@[self.order@[j]]@
        &&& self.keys@.len() <= self.capacity
        &&& self.capacity >= 1
    }

    /// The fixed capacity.
    pub closed spec fn cap(self) -> nat {
        self.capacity as nat
    }

    /// Creates an empty cache that will hold at most `capacity` entries.
    pub fn new(capacity: usize) -> (c: Cache)
        requires
            capacity >= 1,
        ensures
            c.wf(),
            c@ == Seq::<Item>::empty(),
            c.cap() == capacity,
    {
        let c = Cache {
            capacity,
            head: None,
            tail: None,
            keys: Vec::new(),
            vals: Vec::new(),
            prevs: Vec::new(),
            nexts: Vec::new(),
            order: Ghost(Seq::empty()),
        };
        proof {
            assert(c@ =~= Seq::<Item>::empty());
        }
        c
    }

    /// Walks the chain from the head looking for `key`; returns the slot
    /// holding it, if any.
    fn find(&self, key: &Vec<u8>) -> (r: Option<usize>)
        requires
            self.wf(),
        ensures
            match r {
                Some(i) => {
                    &&& contains_key(self@, key@)
                    &&& 0 <= index_of(self@, key@) < self.order@.len()
                    &&& self.order@[index_of(self@, key@)] == i
                },
                None => !contains_key(self@, key@),
            },
    {
        let mut cur = self.head;
        let ghost j: int = 0;
        loop
            invariant
                self.wf(),
                0 <= j <= self.order@.len(),
                cur == (if j == self.order@.len() {
                    Option::<usize>::None
                } else {
                    Option::<usize>::Some(self.order@[j] as usize)
                }),
                forall|t: int| 0 <= t < j ==> self@[t].0 != key@,
            decreases self.order@.len() - j,
        {
            match cur {
                None => {
                    assert(!contains_key(self@, key@)) by {
                        assert(forall|t: int| 0 <= t < self@.len() ==> self@[t].0 != key@);
                    }
                    return None;
                },
                Some(i) => {
                    if bytes_eq(&self.keys[i], key) {
                        proof {
                            assert(self@[j].0 == key@);
                            crate::model::lemma_index_of_unique(self@, key@, j);
                        }
                        return Some(i);
                    }
                    proof {
                        assert(self@[j].0 == self.keys@[self.order@[j]]@);
                    }
                    cur = self.nexts[i];
                    proof {
                        j = j + 1;
                    }
                },
            }
        }
    }

    /// Unlinks the entry in slot `i` (at chain position `j`) from the chain:
    /// its predecessor's forward link (or `head`) is routed to its successor,
    /// and its successor's back link (or `tail`) to its predecessor.
    fn detach(&mut self, i: usize, Ghost(j): Ghost<int>)
        requires
            old(self).wf(),
            0 <= j < old(self).order@.len(),
            old(self).order@[j] == i,
        ensures
            final(self).order@ == old(self).order@.remove(j),
            final(self).lens_ok(),
            final(self).links_ok(final(self).order@),
            final(self).keys == old(self).keys,
            final(self).vals == old(self).vals,
            final(self).capacity == old(self).capacity,
    {
        let ghost ord = self.order@;
        let prev = self.prevs[i];
        let next = self.nexts[i];
        proof {
            assert(ord[j] == i);
        }
        match prev {
            Some(p) => {
                proof {
                    assert(j > 0 && p == ord[j - 1]);
                }
                self.nexts[p] = next;
            },
            None => {
                self.head = next;
            },
        }
        match next {
            Some(n) => {
                proof {
                    assert(j < ord.len() - 1 && n == ord[j + 1]);
                }
                self.prevs[n] = prev;
            },
            None => {
                self.tail = prev;
            },
        }
        self.prevs[i] = None;
        self.nexts[i] = None;
        proof {
            self.order@ = ord.remove(j);
        }
        let ghost ord2 = self.order@;
        proof {
            assert forall|t: int| 0 <= t < ord2.len() implies #[trigger] self.prevs@[ord2[t]] == (
            if t == 0 {
                Option::<usize>::None
            } else {
                Option::<usize>::Some(ord2[t - 1] as usize)
            }) by {
                if t < j {
                    assert(ord2[t] == ord[t]);
                    if t > 0 {
                        assert(ord2[t - 1] == ord[t - 1]);
                    }
                } else {
                    assert(ord2[t] == ord[t + 1]);
                    if t > 0 {
                        if t == j {
                            assert(ord2[t - 1] == ord[j - 1]);
                        } else {
                            assert(ord2[t - 1] == ord[t]);
                        }
                    }
                }
            }
            assert forall|t: int| 0 <= t < ord2.len() implies #[trigger] self.nexts@[ord2[t]] == (
            if t == ord2.len() - 1 {
                Option::<usize>::None
            } else {
                Option::<usize>::Some(ord2[t + 1] as usize)
            }) by {
                if t < j {
                    assert(ord2[t] == ord[t]);
                    if t < ord2.len() - 1 {
                        if t == j - 1 {
                            assert(ord2[t + 1] == ord[j + 1]);
                        } else {
                            assert(ord2[t + 1] == ord[t + 1]);
                        }
                    }
                } else {
                    assert(ord2[t] == ord[t + 1]);
                    if t < ord2.len() - 1 {
                        assert(ord2[t + 1] == ord[t + 2]);
                    }
                }
            }
        }
    }

    /// Links the detached entry in slot `i` at the front of the chain: it
    /// becomes the most-recently-used entry, and `tail` as well when the
    /// chain was empty.
    fn attach_to_head(&mut self, i: usize)
        requires
            old(self).lens_ok(),
            old(self).links_ok(old(self).order@),
            i < old(self).keys@.len(),
            forall|t: int| 0 <= t < old(self).order@.len() ==> old(self).order@[t] != i,
        ensures
            final(self).order@ == seq![i as int] + old(self).order@,
            final(self).lens_ok(),
            final(self).links_ok(final(self).order@),
            final(self).keys == old(self).keys,
            final(self).vals == old(self).vals,
            final(self).capacity == old(self).capacity,
    {
        let ghost ord = self.order@;
        self.nexts[i] = self.head;
        self.prevs[i] = None;
        match self.head {
            Some(h) => {
                proof {
                    assert(old(self).keys@.len() <= usize::MAX) by {
                        assert(old(self).keys.len() == old(self).keys@.len());
                    }
                    assert(h as int == ord[0]);
                }
                self.prevs[h] = Some(i);
            },
            None => {
                self.tail = Some(i);
            },
        }
        self.head = Some(i);
        proof {
            self.order@ = seq![i as int] + ord;
        }
        let ghost ord2 = self.order@;
        proof {
            assert forall|t: int| 0 <= t < ord2.len() implies #[trigger] self.prevs@[ord2[t]] == (
            if t == 0 {
                Option::<usize>::None
            } else {
                Option::<usize>::Some(ord2[t - 1] as usize)
            }) by {
                if t > 0 {
                    assert(ord2[t] == ord[t - 1]);
                }
            }
            assert forall|t: int| 0 <= t < ord2.len() implies #[trigger] self.nexts@[ord2[t]] == (
            if t == ord2.len() - 1 {
                Option::<usize>::None
            } else {
                Option::<usize>::Some(ord2[t + 1] as usize)
            }) by {
                if t > 0 {
                    assert(ord2[t] == ord[t - 1]);
                }
            }
        }
    }

    /// Removes the least-recently-used entry: detaches the tail and frees
    /// its arena slot, moving the highest-numbered slot into the gap and
    /// re-routing the links that mentioned it. Does nothing when the cache
    /// is empty.
    #[verifier::rlimit(100)]
    #[verifier::spinoff_prover]
    fn evict(&mut self)
        requires
            old(self).wf(),
        ensures
            final(self).wf(),
            final(self).capacity == old(self).capacity,
            old(self)@.len() == 0 ==> final(self)@ == old(self)@,
            old(self)@.len() > 0 ==> final(self)@ == old(self)@.drop_last(),
    {
        let ghost s0 = self@;
        match self.tail {
            None => {
                proof {
                    assert(self@ =~= s0);
                }
            },
            Some(t) => {
                let ghost ord = self.order@;
                let ghost j = ord.len() - 1;
                proof {
                    assert(ord[j] == t);
                    assert(self.keys@.len() <= usize::MAX) by {
                        assert(self.keys.len() == self.keys@.len());
                    }
                }
                self.detach(t, Ghost(j));
                let ghost mid = *self;
                let ghost ord1 = mid.order@;
                let m = self.keys.len() - 1;
                self.keys.swap_remove(t);
                self.vals.swap_remove(t);
                self.prevs.swap_remove(t);
                self.nexts.swap_remove(t);
                proof {
                    assert(forall|x: int| 0 <= x < ord1.len() ==> ord1[x] == ord[x]);
                    assert(forall|x: int| 0 <= x < ord1.len() ==> #[trigger] ord1[x] != t);
                }
                if t < m {
                    proof {
                        lemma_full_order_contains_slot(ord, m + 1, m as int);
                        let q = choose|q: int| 0 <= q < ord.len() && ord[q] == m;
                        assert(q != j);
                        assert(0 <= q < ord1.len() && ord1[q] == m);
                    }
                    let ghost jm = choose|x: int| 0 <= x < ord1.len() && ord1[x] == m;
                    proof {
                        assert(forall|x: int|
                            0 <= x < ord1.len() && x != jm ==> #[trigger] ord1[x] != m);
                    }
                    let prev = self.prevs[t];
                    let next = self.nexts[t];
                    proof {
                        assert(prev == mid.prevs@[ord1[jm]]);
                        assert(next == mid.nexts@[ord1[jm]]);
                    }
                    match prev {
                        Some(p) => {
                            proof {
                                assert(jm > 0 && p as int == ord1[jm - 1]);
                                assert(p != m && p != t);
                            }
                            self.nexts[p] = Some(t);
                        },
                        None => {
                            self.head = Some(t);
                        },
                    }
                    match next {
                        Some(n) => {
                            proof {
                                assert(jm < ord1.len() - 1 && n as int == ord1[jm + 1]);
                                assert(n != m && n != t);
                            }
                            self.prevs[n] = Some(t);
                        },
                        None => {
                            self.tail = Some(t);
                        },
                    }
                    proof {
                        self.order@ = ord1.map_values(
                            |x: int| if x == m as int { t as int } else { x },
                        );
                    }
                    let ghost ord2 = self.order@;
                    proof {
                        assert(forall|x: int|
                            0 <= x < ord2.len() ==> #[trigger] ord2[x] == (if ord1[x] == m as int {
                                t as int
                            } else {
                                ord1[x]
                            }));
                        assert forall|x: int| 0 <= x < ord2.len() implies 0 <= #[trigger] ord2[x]
                            < self.keys@.len() by {
                            assert(0 <= ord1[x] < m + 1);
                        }
                        assert forall|x: int, y: int| 0 <= x < y < ord2.len() implies ord2[x]
                            != ord2[y] by {
                            assert(ord1[x] != ord1[y]);
                        }
                        assert forall|x: int| 0 <= x < ord2.len() implies #[trigger] self.prevs@[ord2[x]]
                            == (if x == 0 {
                            Option::<usize>::None
                        } else {
                            Option::<usize>::Some(ord2[x - 1] as usize)
                        }) by {
                            if x == jm {
                                assert(ord2[x] == t);
                                assert(self.prevs@[t as int] == mid.prevs@[m as int]);
                                if x > 0 {
                                    assert(ord1[x - 1] != m);
                                }
                            } else {
                                assert(ord1[x] != m);
                                if x == jm + 1 {
                                    assert(ord2[x - 1] == t);
                                    assert(self.prevs@[ord1[x]] == Some(t));
                                } else {
                                    assert(self.prevs@[ord1[x]] == mid.prevs@[ord1[x]]);
                                    if x > 0 {
                                        assert(ord1[x - 1] != m);
                                    }
                                }
                            }
                        }
                        assert forall|x: int| 0 <= x < ord2.len() implies #[trigger] self.nexts@[ord2[x]]
                            == (if x == ord2.len() - 1 {
                            Option::<usize>::None
                        } else {
                            Option::<usize>::Some(ord2[x + 1] as usize)
                        }) by {
                            if x == jm {
                                assert(ord2[x] == t);
                                assert(self.nexts@[t as int] == mid.nexts@[m as int]);
                                if x < ord2.len() - 1 {
                                    assert(ord1[x + 1] != m);
                                }
                            } else {
                                assert(ord1[x] != m);
                                if x == jm - 1 {
                                    assert(ord2[x + 1] == t);
                                    assert(self.nexts@[ord1[x]] == Some(t));
                                } else {
                                    assert(self.nexts@[ord1[x]] == mid.nexts@[ord1[x]]);
                                    if x < ord2.len() - 1 {
                                        assert(ord1[x + 1] != m);
                                    }
                                }
                            }
                        }
                        assert(self.links_ok(ord2));
                        assert forall|x: int| 0 <= x < ord2.len() implies (#[trigger] self.keys@[ord2[x]]@
                            == mid.keys@[ord1[x]]@ && self.vals@[ord2[x]]@ == mid.vals@[ord1[x]]@) by {
                            if ord1[x] == m {
                                assert(ord2[x] == t);
                            }
                        }
                        assert(self@ =~= s0.drop_last());
                    }
                } else {
                    proof {
                        assert(t == m);
                        assert forall|x: int| 0 <= x < ord1.len() implies 0 <= #[trigger] ord1[x]
                            < self.keys@.len() by {
                            assert(ord1[x] != t);
                            assert(0 <= ord1[x] < m + 1);
                        }
                        assert forall|x: int| 0 <= x < ord1.len() implies #[trigger] self.prevs@[ord1[x]]
                            == mid.prevs@[ord1[x]] && self.nexts@[ord1[x]] == mid.nexts@[ord1[x]]
                            && self.keys@[ord1[x]]@ == mid.keys@[ord1[x]]@ && self.vals@[ord1[x]]@
                            == mid.vals@[ord1[x]]@ by {
                            assert(ord1[x] != t);
                        }
                        assert(self.links_ok(ord1));
                        assert(self@ =~= s0.drop_last());
                    }
                }
            },
        }
    }

    /// Looks `key` up. A hit promotes the entry to most-recently-used and
    /// returns a copy of its value; a miss returns `None` and changes
    /// nothing.
    pub fn get(&mut self, key: &Vec<u8>) -> (r: Option<Vec<u8>>)
        requires
            old(self).wf(),
        ensures
            final(self).wf(),
            final(self).cap() == old(self).cap(),
            final(self)@ == get_model(old(self)@, key@),
            match r {
                Some(v) => contains_key(old(self)@, key@) && v@ == value_of(old(self)@, key@),
                None => !contains_key(old(self)@, key@),
            },
    {
        let ghost s0 = self@;
        match self.find(key) {
            None => None,
            Some(i) => {
                let ghost j = index_of(self@, key@);
                self.detach(i, Ghost(j));
                self.attach_to_head(i);
                let val = self.vals[i].clone();
                proof {
                    lemma_u8_vec_clone(self.vals@[i as int], val);
                    assert(self@ =~= crate::model::promote(s0, j));
                    assert(val@ == s0[j].1);
                }
                Some(val)
            },
        }
    }

    /// Inserts or updates `key`. An existing key gets the new value and is
    /// promoted to most-recently-used; a new key is inserted at the front,
    /// after evicting the least-recently-used entry when the cache is full.
    pub fn push(&mut self, key: Vec<u8>, value: Vec<u8>)
        requires
            old(self).wf(),
        ensures
            final(self).wf(),
            final(self).cap() == old(self).cap(),
            final(self)@ == push_model(old(self)@, key@, value@, old(self).cap()),
    {
        let ghost s0 = self@;
        match self.find(&key) {
            Some(i) => {
                let ghost j = index_of(self@, key@);
                self.vals[i] = value;
                proof {
                    assert(self.wf());
                    assert(self@[j].0 == key@);
                }
                self.detach(i, Ghost(j));
                self.attach_to_head(i);
                proof {
                    assert(self@ =~= seq![(key@, value@)] + s0.remove(j));
                }
            },
            None => {
                if self.keys.len() == self.capacity {
                    self.evict();
                }
                let ghost s1 = self@;
                let ghost ord1 = self.order@;
                let i = self.keys.len();
                self.keys.push(key);
                self.vals.push(value);
                self.prevs.push(None);
                self.nexts.push(None);
                proof {
                    assert(forall|x: int|
                        0 <= x < ord1.len() ==> 0 <= #[trigger] ord1[x] < i as int);
                    assert(self.links_ok(ord1));
                }
                self.attach_to_head(i);
                proof {
                    assert forall|x: int| 0 <= x < self@.len() implies #[trigger] self@[x] == (
                    seq![(key@, value@)] + s1)[x] by {
                        if x > 0 {
                            assert(self.order@[x] == ord1[x - 1]);
                            assert(ord1[x - 1] < i as int);
                        }
                    }
                    assert(self@ =~= seq![(key@, value@)] + s1);
                    if s0.len() == self.cap() {
                        assert(s1 =~= s0.drop_last());
                    }
                    assert forall|x: int, y: int|
                        0 <= x < y < self.order@.len() implies self.keys@[self.order@[x]]@
                        != self.keys@[self.order@[y]]@ by {
                        assert(self@[x].0 == self.keys@[self.order@[x]]@);
                        assert(self@[y].0 == self.keys@[self.order@[y]]@);
                        if x == 0 {
                            assert(self@[y].0 == s1[y - 1].0);
                            if s0.len() == self.cap() {
                                assert(s1[y - 1] == s0[y - 1]);
                            }
                            assert(!contains_key(s0, key@));
                        }
                    }
                }
            },
        }
    }

    /// The number of entries currently cached.
    pub fn len(&self) -> (n: usize)
        requires
            self.wf(),
        ensures
            n == self@.len(),
    {
        self.keys.len()
    }

    /// Walks the chain from head to tail and returns a copy of every entry.
    /// The traversal provably terminates and yields exactly `len()` entries,
    /// in recency order; useful for diagnostics.
    pub fn items(&self) -> (r: Vec<(Vec<u8>, Vec<u8>)>)
        requires
            self.wf(),
        ensures
            r@.len() == self@.len(),
            forall|t: int| #![trigger r@[t]]
                0 <= t < r@.len() ==> r@[t].0@ == self@[t].0 && r@[t].1@ == self@[t].1,
    {
        let mut r: Vec<(Vec<u8>, Vec<u8>)> = Vec::new();
        let mut cur = self.head;
        let ghost j: int = 0;
        loop
            invariant
                self.wf(),
                0 <= j <= self.order@.len(),
                r@.len() == j,
                cur == (if j == self.order@.len() {
                    Option::<usize>::None
                } else {
                    Option::<usize>::Some(self.order@[j] as usize)
                }),
                forall|t: int| #![trigger r@[t]]
                    0 <= t < j ==> r@[t].0@ == self@[t].0 && r@[t].1@ == self@[t].1,
            decreases self.order@.len() - j,
        {
            match cur {
                None => {
                    return r;
                },
                Some(i) => {
                    let k = self.keys[i].clone();
                    let v = self.vals[i].clone();
                    proof {
                        lemma_u8_vec_clone(self.keys@[i as int], k);
                        lemma_u8_vec_clone(self.vals@[i as int], v);
                    }
                    r.push((k, v));
                    cur = self.nexts[i];
                    proof {
                        j = j + 1;
                    }
                },
            }
        }
    }

    /// Law: a well-formed cache never holds more entries than its capacity.
    pub proof fn lemma_len_bounded(self)
        requires
            self.wf(),
        ensures
            self@.len() <= self.cap(),
    {
    }

    /// The fixed capacity the cache was created with.
    pub fn capacity(&self) -> (n: usize)
        requires
            self.wf(),
        ensures
            n == self.cap(),
    {
        self.capacity
    }
}

/// Pigeonhole: a duplicate-free sequence of `n` slot numbers drawn from
/// `0..n` mentions every slot, in particular `s`.
proof fn lemma_full_order_contains_slot(ord: Seq<int>, n: int, s: int)
    requires
        ord.len() == n,
        0 <= s < n,
        forall|j: int| 0 <= j < ord.len() ==> 0 <= #[trigger] ord[j] < n,
        forall|i: int, j: int| 0 <= i < j < ord.len() ==> ord[i] != ord[j],
    ensures
        exists|j: int| 0 <= j < ord.len() && ord[j] == s,
{
    broadcast use vstd::set::group_set_axioms;

    if !(exists|j: int| 0 <= j < ord.len() && ord[j] == s) {
        assert(ord.no_duplicates());
        ord.unique_seq_to_set();
        let r = vstd::set_lib::set_int_range(0, n).remove(s);
        assert forall|x: int| ord.to_set().contains(x) implies r.contains(x) by {
            assert(ord.contains(x));
            let j = choose|j: int| 0 <= j < ord.len() && ord[j] == x;
            assert(0 <= x < n);
            assert(x != s);
        }
        vstd::set_lib::lemma_int_range(0, n);
        assert(vstd::set_lib::set_int_range(0, n).contains(s));
        assert(r.len() == n - 1);
        vstd::set_lib::lemma_len_subset(ord.to_set(), r);
    }
}

/// A cloned byte vector views the same sequence as its source.
proof fn lemma_u8_vec_clone(a: Vec<u8>, b: Vec<u8>)
    requires
        b.len() == a.len(),
        forall|t: int| #![all_triggers] 0 <= t < a.len() ==> vstd::pervasive::cloned::<u8>(
            a[t],
            b[t],
        ),
    ensures
        a@ == b@,
{
    assert forall|t: int| 0 <= t < a@.len() implies a@[t] == b@[t] by {
        assert(vstd::pervasive::cloned::<u8>(a[t], b[t]));
    }
    assert(a@ =~= b@);
}

/// Byte-for-byte equality of two keys.
fn bytes_eq(a: &Vec<u8>, b: &Vec<u8>) -> (r: bool)
    ensures
        r <==> a@ == b@,
{
    if a.len() != b.len() {
        return false;
    }
    let mut i: usize = 0;
    while i < a.len()
        invariant
            i <= a.len(),
            a@.len() == b@.len(),
            forall|t: int| 0 <= t < i ==> a@[t] == b@[t],
        decreases a.len() - i,
    {
        if a[i] != b[i] {
            return false;
        }
        i = i + 1;
    }
    proof {
        assert(a@ =~= b@);
    }
    true
}

impl View for Cache {
    type V = Seq<Item>;

    /// The recency sequence: key/value pairs from most- to least-recently
    /// used.
    closed spec fn view(&self) -> Seq<Item> {
        Seq::new(
            self.order@.len(),
            |j: int| (self.keys@[self.order@[j]]@, self.vals@[self.order@[j]]@),
        )
    }
}

} // verus!
