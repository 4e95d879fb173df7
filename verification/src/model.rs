//! Mathematical model of the cache: a recency-ordered sequence of key/value
//! pairs, most recently used first, together with the laws that the cache
//! operations obey.

use vstd::prelude::*;

verus! {

/// One cached record as the specification sees it: a key and a value, both
/// byte sequences.
pub type Item = (Seq<u8>, Seq<u8>);

/// Whether some entry of the recency sequence holds the key `k`.
pub open spec fn contains_key(s: Seq<Item>, k: Seq<u8>) -> bool {
    exists|j: int| 0 <= j < s.len() && s[j].0 == k
}

/// The position of the entry holding `k` (meaningful when `contains_key` and
/// the keys are distinct).
pub open spec fn index_of(s: Seq<Item>, k: Seq<u8>) -> int {
    choose|j: int| 0 <= j < s.len() && s[j].0 == k
}

/// The value stored under `k`.
pub open spec fn value_of(s: Seq<Item>, k: Seq<u8>) -> Seq<u8> {
    s[index_of(s, k)].1
}

/// No two entries hold the same key.
pub open spec fn distinct_keys(s: Seq<Item>) -> bool {
    forall|i: int, j: int| 0 <= i < j < s.len() ==> s[i].0 != s[j].0
}

/// The recency sequence after the entry at position `j` is moved to the
/// most-recently-used position.
pub open spec fn promote(s: Seq<Item>, j: int) -> Seq<Item>
    recommends
        0 <= j < s.len(),
{
    seq![s[j]] + s.remove(j)
}

/// The recency sequence after `get(k)`: a hit promotes the entry, a miss
/// changes nothing.
pub open spec fn get_model(s: Seq<Item>, k: Seq<u8>) -> Seq<Item> {
    if contains_key(s, k) {
        promote(s, index_of(s, k))
    } else {
        s
    }
}

/// The recency sequence after `push(k, v)` on a cache of capacity `cap`:
/// an existing key is updated in place and promoted; a new key is prepended,
/// evicting the least-recently-used entry when the cache is full.
pub open spec fn push_model(s: Seq<Item>, k: Seq<u8>, v: Seq<u8>, cap: nat) -> Seq<Item> {
    if contains_key(s, k) {
        seq![(k, v)] + s.remove(index_of(s, k))
    } else if s.len() < cap {
        seq![(k, v)] + s
    } else {
        seq![(k, v)] + s.drop_last()
    }
}

/// When the keys of `s` are distinct, the position of a key is the only one
/// holding it.
pub proof fn lemma_index_of_unique(s: Seq<Item>, k: Seq<u8>, j: int)
    requires
        distinct_keys(s),
        0 <= j < s.len(),
        s[j].0 == k,
    ensures
        contains_key(s, k),
        index_of(s, k) == j,
{
    assert(contains_key(s, k));
    let j2 = index_of(s, k);
    assert(0 <= j2 < s.len() && s[j2].0 == k);
    if j < j2 {
        assert(s[j].0 != s[j2].0);
    } else if j2 < j {
        assert(s[j2].0 != s[j].0);
    }
}

/// Pushing a key that is already cached replaces its value and promotes it;
/// every other entry keeps its key and value, and the size is unchanged.
pub proof fn lemma_push_existing(s: Seq<Item>, k: Seq<u8>, v: Seq<u8>, cap: nat)
    requires
        distinct_keys(s),
        contains_key(s, k),
    ensures
        push_model(s, k, v, cap).len() == s.len(),
        distinct_keys(push_model(s, k, v, cap)),
        contains_key(push_model(s, k, v, cap), k),
        value_of(push_model(s, k, v, cap), k) == v,
        forall|k2: Seq<u8>| k2 != k ==> (#[trigger] contains_key(push_model(s, k, v, cap), k2)
            <==> contains_key(s, k2)),
        forall|k2: Seq<u8>| k2 != k && contains_key(s, k2) ==> #[trigger] value_of(
            push_model(s, k, v, cap),
            k2,
        ) == value_of(s, k2),
{
    let j = index_of(s, k);
    let r = push_model(s, k, v, cap);
    assert(r == seq![(k, v)] + s.remove(j));
    assert forall|x: int, y: int| 0 <= x < y < r.len() implies r[x].0 != r[y].0 by {
        let wy = if y - 1 < j {
            y - 1
        } else {
            y
        };
        assert(r[y] == s[wy]);
        if x == 0 {
            if s[wy].0 == k {
                lemma_index_of_unique(s, k, wy);
            }
        } else {
            let wx = if x - 1 < j {
                x - 1
            } else {
                x
            };
            assert(r[x] == s[wx]);
        }
    }
    lemma_index_of_unique(r, k, 0);
    assert forall|k2: Seq<u8>| #![trigger contains_key(s, k2)]
        k2 != k && contains_key(s, k2) implies contains_key(r, k2) && value_of(r, k2)
        == value_of(s, k2) by {
        let x = index_of(s, k2);
        assert(0 <= x < s.len() && s[x].0 == k2);
        assert(x != j);
        let w = if x < j {
            x + 1
        } else {
            x
        };
        assert(r[w] == s[x]);
        lemma_index_of_unique(r, k2, w);
    }
    assert forall|k2: Seq<u8>| #![trigger contains_key(r, k2)]
        k2 != k && contains_key(r, k2) implies contains_key(s, k2) by {
        let y = index_of(r, k2);
        assert(0 <= y < r.len() && r[y].0 == k2);
        assert(y != 0);
        let wy = if y - 1 < j {
            y - 1
        } else {
            y
        };
        assert(r[y] == s[wy]);
    }
}

/// Pushing a key that is not yet cached, with room to spare, prepends it and
/// leaves every existing entry in place.
pub proof fn lemma_push_fresh(s: Seq<Item>, k: Seq<u8>, v: Seq<u8>, cap: nat)
    requires
        distinct_keys(s),
        !contains_key(s, k),
        s.len() < cap,
    ensures
        push_model(s, k, v, cap) == seq![(k, v)] + s,
        push_model(s, k, v, cap).len() == s.len() + 1,
        distinct_keys(push_model(s, k, v, cap)),
        contains_key(push_model(s, k, v, cap), k),
        value_of(push_model(s, k, v, cap), k) == v,
        forall|k2: Seq<u8>| k2 != k ==> (#[trigger] contains_key(push_model(s, k, v, cap), k2)
            <==> contains_key(s, k2)),
        forall|k2: Seq<u8>| k2 != k && contains_key(s, k2) ==> #[trigger] value_of(
            push_model(s, k, v, cap),
            k2,
        ) == value_of(s, k2),
{
    let r = push_model(s, k, v, cap);
    assert(r == seq![(k, v)] + s);
    assert forall|x: int, y: int| 0 <= x < y < r.len() implies r[x].0 != r[y].0 by {
        assert(r[y] == s[y - 1]);
        if x > 0 {
            assert(r[x] == s[x - 1]);
        }
    }
    lemma_index_of_unique(r, k, 0);
    assert forall|k2: Seq<u8>| #![trigger contains_key(s, k2)]
        k2 != k && contains_key(s, k2) implies contains_key(r, k2) && value_of(r, k2)
        == value_of(s, k2) by {
        let x = index_of(s, k2);
        assert(0 <= x < s.len() && s[x].0 == k2);
        assert(r[x + 1] == s[x]);
        lemma_index_of_unique(r, k2, x + 1);
    }
    assert forall|k2: Seq<u8>| #![trigger contains_key(r, k2)]
        k2 != k && contains_key(r, k2) implies contains_key(s, k2) by {
        let y = index_of(r, k2);
        assert(0 <= y < r.len() && r[y].0 == k2);
        assert(y != 0);
        assert(r[y] == s[y - 1]);
    }
}

/// Law: `push` never lets the cache outgrow its capacity.
pub proof fn lemma_push_respects_capacity(s: Seq<Item>, k: Seq<u8>, v: Seq<u8>, cap: nat)
    requires
        s.len() <= cap,
        cap >= 1,
    ensures
        push_model(s, k, v, cap).len() <= cap,
{
}

/// Law: no run of pushes ever lets the cache outgrow its capacity.
pub proof fn lemma_runs_respect_capacity(s: Seq<Item>, ops: Seq<Item>, cap: nat)
    requires
        s.len() <= cap,
        cap >= 1,
    ensures
        apply_pushes(s, ops, cap).len() <= cap,
    decreases ops.len(),
{
    if ops.len() > 0 {
        lemma_runs_respect_capacity(s, ops.drop_last(), cap);
        lemma_push_respects_capacity(
            apply_pushes(s, ops.drop_last(), cap),
            ops.last().0,
            ops.last().1,
            cap,
        );
    }
}

/// Law: pushing an existing key updates it in place: the cache keeps its
/// size, no entry is evicted, and every cached key stays cached.
pub proof fn lemma_update_keeps_size_and_keys(s: Seq<Item>, k: Seq<u8>, v: Seq<u8>, cap: nat)
    requires
        distinct_keys(s),
        contains_key(s, k),
    ensures
        push_model(s, k, v, cap).len() == s.len(),
        forall|k2: Seq<u8>| contains_key(s, k2) ==> #[trigger] contains_key(
            push_model(s, k, v, cap),
            k2,
        ),
{
    lemma_push_existing(s, k, v, cap);
    assert forall|k2: Seq<u8>| contains_key(s, k2) implies #[trigger] contains_key(
        push_model(s, k, v, cap),
        k2,
    ) by {
        if k2 != k {
            assert(contains_key(push_model(s, k, v, cap), k2));
        }
    }
}

/// Law: a key promoted by `get` is not the entry removed by the next
/// capacity-triggered eviction; the eviction falls on a key that was not
/// recently used.
pub proof fn lemma_get_shields_key_from_eviction(
    s: Seq<Item>,
    k: Seq<u8>,
    k2: Seq<u8>,
    v2: Seq<u8>,
    cap: nat,
)
    requires
        distinct_keys(s),
        contains_key(s, k),
        !contains_key(s, k2),
        s.len() == cap,
        cap >= 2,
    ensures
        contains_key(push_model(get_model(s, k), k2, v2, cap), k),
{
    let j = index_of(s, k);
    let p = get_model(s, k);
    assert(p == seq![s[j]] + s.remove(j));
    assert(p.len() == s.len());
    assert forall|t: int| 0 <= t < p.len() implies p[t].0 != k2 by {
        let w = if t == 0 {
            j
        } else if t - 1 < j {
            t - 1
        } else {
            t
        };
        assert(p[t] == s[w]);
    }
    assert(!contains_key(p, k2));
    let r = push_model(p, k2, v2, cap);
    assert(r == seq![(k2, v2)] + p.drop_last());
    assert(r[1] == p[0]);
    assert(r[1].0 == k);
    assert(contains_key(r, k));
}

/// The recency sequence after a whole run of pushes, applied first to last,
/// starting from `s`.
pub open spec fn apply_pushes(s: Seq<Item>, ops: Seq<Item>, cap: nat) -> Seq<Item>
    decreases ops.len(),
{
    if ops.len() == 0 {
        s
    } else {
        push_model(apply_pushes(s, ops.drop_last(), cap), ops.last().0, ops.last().1, cap)
    }
}

/// Whether some push of the run `ops` writes the key `k`.
pub open spec fn ops_contain_key(ops: Seq<Item>, k: Seq<u8>) -> bool {
    exists|j: int| 0 <= j < ops.len() && ops[j].0 == k
}

/// The value written by the latest push of `k` in the run `ops`.
pub open spec fn last_value_of(ops: Seq<Item>, k: Seq<u8>) -> Seq<u8>
    decreases ops.len(),
{
    if ops.len() == 0 {
        Seq::empty()
    } else if ops.last().0 == k {
        ops.last().1
    } else {
        last_value_of(ops.drop_last(), k)
    }
}

/// How many distinct keys the run `ops` writes.
pub open spec fn num_distinct_keys(ops: Seq<Item>) -> nat
    decreases ops.len(),
{
    if ops.len() == 0 {
        0
    } else if ops_contain_key(ops.drop_last(), ops.last().0) {
        num_distinct_keys(ops.drop_last())
    } else {
        num_distinct_keys(ops.drop_last()) + 1
    }
}

/// Law: starting from an empty cache, a run of pushes that writes at most
/// `cap` distinct keys evicts nothing: afterwards every written key is still
/// cached, with the value its latest push wrote.
pub proof fn lemma_pushes_within_capacity_retrievable(ops: Seq<Item>, cap: nat)
    requires
        cap >= 1,
        num_distinct_keys(ops) <= cap,
    ensures
        distinct_keys(apply_pushes(Seq::empty(), ops, cap)),
        apply_pushes(Seq::empty(), ops, cap).len() == num_distinct_keys(ops),
        forall|k: Seq<u8>| #![trigger contains_key(apply_pushes(Seq::empty(), ops, cap), k)]
            #![trigger ops_contain_key(ops, k)]
            contains_key(apply_pushes(Seq::empty(), ops, cap), k) <==> ops_contain_key(ops, k),
        forall|k: Seq<u8>| ops_contain_key(ops, k) ==> #[trigger] value_of(
            apply_pushes(Seq::empty(), ops, cap),
            k,
        ) == last_value_of(ops, k),
    decreases ops.len(),
{
    let r = apply_pushes(Seq::empty(), ops, cap);
    if ops.len() == 0 {
        assert(!(exists|j: int| 0 <= j < r.len() && r[j].0 == r[j].0));
    } else {
        let pre = ops.drop_last();
        let k0 = ops.last().0;
        let v0 = ops.last().1;
        lemma_pushes_within_capacity_retrievable(pre, cap);
        let sp = apply_pushes(Seq::empty(), pre, cap);
        assert(r == push_model(sp, k0, v0, cap));
        assert forall|k: Seq<u8>| #![trigger ops_contain_key(ops, k)]
            #![trigger last_value_of(ops, k)]
            k != k0 implies (ops_contain_key(ops, k) <==> ops_contain_key(pre, k))
            && last_value_of(ops, k) == last_value_of(pre, k) by {
            if ops_contain_key(ops, k) {
                let x = choose|x: int| 0 <= x < ops.len() && ops[x].0 == k;
                assert(x != ops.len() - 1);
                assert(pre[x] == ops[x]);
                assert(ops_contain_key(pre, k));
            }
            if ops_contain_key(pre, k) {
                let x = choose|x: int| 0 <= x < pre.len() && pre[x].0 == k;
                assert(ops[x] == pre[x]);
                assert(ops_contain_key(ops, k));
            }
        }
        assert(ops_contain_key(ops, k0)) by {
            assert(ops[ops.len() - 1].0 == k0);
        }
        if ops_contain_key(pre, k0) {
            assert(num_distinct_keys(ops) == num_distinct_keys(pre));
            assert(contains_key(sp, k0));
            lemma_push_existing(sp, k0, v0, cap);
        } else {
            assert(num_distinct_keys(ops) == num_distinct_keys(pre) + 1);
            assert(!contains_key(sp, k0));
            assert(sp.len() < cap);
            lemma_push_fresh(sp, k0, v0, cap);
        }
        assert(last_value_of(ops, k0) == v0);
        assert(value_of(r, k0) == v0);
    }
}

/// Law: pushing a run of pairwise-distinct fresh keys leaves exactly the
/// most recent `cap` of them, newest first.
pub proof fn lemma_fresh_pushes_state(ops: Seq<Item>, cap: nat)
    requires
        cap >= 1,
        forall|x: int, y: int| 0 <= x < y < ops.len() ==> ops[x].0 != ops[y].0,
    ensures
        apply_pushes(Seq::empty(), ops, cap).len() == (if ops.len() < cap {
            ops.len() as int
        } else {
            cap as int
        }),
        forall|t: int| 0 <= t < apply_pushes(Seq::empty(), ops, cap).len()
            ==> #[trigger] apply_pushes(Seq::empty(), ops, cap)[t] == ops[ops.len() - 1 - t],
    decreases ops.len(),
{
    let r = apply_pushes(Seq::empty(), ops, cap);
    if ops.len() > 0 {
        let pre = ops.drop_last();
        let k0 = ops.last().0;
        let v0 = ops.last().1;
        assert(forall|x: int, y: int| 0 <= x < y < pre.len() ==> pre[x].0 != pre[y].0) by {
            assert(forall|x: int| 0 <= x < pre.len() ==> pre[x] == ops[x]);
        }
        lemma_fresh_pushes_state(pre, cap);
        let sp = apply_pushes(Seq::empty(), pre, cap);
        assert(!contains_key(sp, k0)) by {
            assert forall|t: int| 0 <= t < sp.len() implies sp[t].0 != k0 by {
                assert(sp[t] == pre[pre.len() - 1 - t]);
                assert(ops[pre.len() - 1 - t].0 != ops[ops.len() - 1].0);
            }
        }
        assert(r == push_model(sp, k0, v0, cap));
        if sp.len() < cap {
            assert(r == seq![(k0, v0)] + sp);
        } else {
            assert(r == seq![(k0, v0)] + sp.drop_last());
        }
        assert forall|t: int| 0 <= t < r.len() implies #[trigger] r[t] == ops[ops.len() - 1
            - t] by {
            if t == 0 {
                assert(r[0] == (k0, v0));
                assert(ops[ops.len() - 1] == (k0, v0));
            } else {
                assert(r[t] == sp[t - 1]);
                assert(sp[t - 1] == pre[pre.len() - 1 - (t - 1)]);
                assert(pre[pre.len() - t] == ops[ops.len() - 1 - t]);
            }
        }
    }
}

/// Law: after pushing more pairwise-distinct fresh keys than the capacity,
/// the key pushed first (and never used since) is evicted.
pub proof fn lemma_overflow_evicts_oldest(ops: Seq<Item>, cap: nat)
    requires
        cap >= 1,
        ops.len() > cap,
        forall|x: int, y: int| 0 <= x < y < ops.len() ==> ops[x].0 != ops[y].0,
    ensures
        !contains_key(apply_pushes(Seq::empty(), ops, cap), ops[0].0),
{
    lemma_fresh_pushes_state(ops, cap);
    let r = apply_pushes(Seq::empty(), ops, cap);
    assert forall|t: int| 0 <= t < r.len() implies r[t].0 != ops[0].0 by {
        assert(r[t] == ops[ops.len() - 1 - t]);
        assert(ops.len() - 1 - t > 0);
        assert(ops[0].0 != ops[ops.len() - 1 - t].0);
    }
}

} // verus!
