//! The abstract state of a cache: its entries, most recently used first.
use vstd::prelude::*;

verus! {

/// A cached pair of key and value.
pub type Entry = (i32, i32);

/// Some entry of `s` has key `k`.
pub open spec fn contains_key(s: Seq<Entry>, k: i32) -> bool {
    exists|i: int| 0 <= i < s.len() && #[trigger] s[i].0 == k
}

/// No two entries of `s` share a key.
pub open spec fn unique_keys(s: Seq<Entry>) -> bool {
    forall|i: int, j: int|
        0 <= i < s.len() && 0 <= j < s.len() && #[trigger] s[i].0 == #[trigger] s[j].0 ==> i == j
}

/// A state that a cache of capacity `cap` can be in.
pub open spec fn valid(s: Seq<Entry>, cap: nat) -> bool {
    &&& 0 < cap
    &&& s.len() <= cap
    &&& unique_keys(s)
}

/// The place of the entry with key `k` in `s` (meaningful when `contains_key(s, k)`).
pub open spec fn position(s: Seq<Entry>, k: i32) -> int {
    choose|i: int| 0 <= i < s.len() && #[trigger] s[i].0 == k
}

/// The value stored under `k`, if any.
pub open spec fn lookup(s: Seq<Entry>, k: i32) -> Option<i32> {
    if contains_key(s, k) {
        Some(s[position(s, k)].1)
    } else {
        None
    }
}

/// `s` with its entry at place `i` moved to the front.
pub open spec fn touched(s: Seq<Entry>, i: int) -> Seq<Entry> {
    seq![s[i]] + s.remove(i)
}

/// The state after reading `k`: a hit moves the entry to the front, a miss changes nothing.
pub open spec fn after_get(s: Seq<Entry>, k: i32) -> Seq<Entry> {
    if contains_key(s, k) {
        touched(s, position(s, k))
    } else {
        s
    }
}

/// `s` without the entry of key `k`.
pub open spec fn without_key(s: Seq<Entry>, k: i32) -> Seq<Entry> {
    if contains_key(s, k) {
        s.remove(position(s, k))
    } else {
        s
    }
}

/// The state after writing `(k, v)` into a cache of capacity `cap`: the
/// entry goes to the front, replacing any old entry of `k`, and when that
/// makes one entry too many the last one is evicted.
pub open spec fn after_put(s: Seq<Entry>, k: i32, v: i32, cap: nat) -> Seq<Entry> {
    let t = seq![(k, v)] + without_key(s, k);
    if t.len() > cap {
        t.drop_last()
    } else {
        t
    }
}

/// The state after writing each pair of `ops` in turn, starting from `s`.
pub open spec fn after_puts(s: Seq<Entry>, ops: Seq<Entry>, cap: nat) -> Seq<Entry>
    decreases ops.len(),
{
    if ops.len() == 0 {
        s
    } else {
        let prev = after_puts(s, ops.drop_last(), cap);
        after_put(prev, ops.last().0, ops.last().1, cap)
    }
}

/// With unique keys, the entry found at place `i` is the one `position` names.
pub proof fn lemma_position_unique(s: Seq<Entry>, k: i32, i: int)
    requires
        unique_keys(s),
        0 <= i < s.len(),
        s[i].0 == k,
    ensures
        contains_key(s, k),
        position(s, k) == i,
        lookup(s, k) == Some(s[i].1),
{
    assert(contains_key(s, k));
}

/// The keys of `seq![e] + s` are `e.0` and the keys of `s`.
pub proof fn lemma_contains_cons(e: Entry, s: Seq<Entry>, k: i32)
    ensures
        contains_key(seq![e] + s, k) <==> (e.0 == k || contains_key(s, k)),
{
    let t = seq![e] + s;
    if contains_key(s, k) {
        let i = choose|i: int| 0 <= i < s.len() && #[trigger] s[i].0 == k;
        assert(t[i + 1] == s[i]);
    }
    if e.0 == k {
        assert(t[0] == e);
    }
    if contains_key(t, k) {
        let i = choose|i: int| 0 <= i < t.len() && #[trigger] t[i].0 == k;
        if i > 0 {
            assert(t[i] == s[i - 1]);
        }
    }
}

/// With unique keys, removing place `p` removes exactly the key found there.
pub proof fn lemma_contains_remove(s: Seq<Entry>, p: int, k: i32)
    requires
        unique_keys(s),
        0 <= p < s.len(),
    ensures
        contains_key(s.remove(p), k) <==> (contains_key(s, k) && s[p].0 != k),
{
    let r = s.remove(p);
    if contains_key(s, k) && s[p].0 != k {
        let i = choose|i: int| 0 <= i < s.len() && #[trigger] s[i].0 == k;
        if i < p {
            assert(r[i] == s[i]);
        } else {
            assert(r[i - 1] == s[i]);
        }
    }
    if contains_key(r, k) {
        let i = choose|i: int| 0 <= i < r.len() && #[trigger] r[i].0 == k;
        let j = if i < p { i } else { i + 1 };
        assert(r[i] == s[j]);
    }
}

/// Writing keeps a cache state valid: at most `cap` entries, keys unique.
pub proof fn lemma_put_valid(s: Seq<Entry>, k: i32, v: i32, cap: nat)
    requires
        valid(s, cap),
    ensures
        valid(after_put(s, k, v, cap), cap),
        !contains_key(without_key(s, k), k),
        unique_keys(without_key(s, k)),
        without_key(s, k).len() == if contains_key(s, k) { s.len() - 1 } else { s.len() as int },
{
    let b = without_key(s, k);
    if contains_key(s, k) {
        let p = position(s, k);
        assert forall|i: int| 0 <= i < b.len() implies b[i].0 != k by {
            let j = if i < p { i } else { i + 1 };
            assert(b[i] == s[j]);
        }
        assert forall|i: int, j: int|
            0 <= i < b.len() && 0 <= j < b.len() && #[trigger] b[i].0 == #[trigger] b[j].0 implies i == j by {
            let i2 = if i < p { i } else { i + 1 };
            let j2 = if j < p { j } else { j + 1 };
            assert(b[i] == s[i2]);
            assert(b[j] == s[j2]);
        }
    }
    let t = seq![(k, v)] + b;
    assert forall|i: int, j: int|
        0 <= i < t.len() && 0 <= j < t.len() && #[trigger] t[i].0 == #[trigger] t[j].0 implies i == j by {
        if i > 0 && j > 0 {
            assert(t[i] == b[i - 1]);
            assert(t[j] == b[j - 1]);
        } else if i > 0 {
            assert(t[i] == b[i - 1]);
        } else if j > 0 {
            assert(t[j] == b[j - 1]);
        }
    }
    let r = after_put(s, k, v, cap);
    assert forall|i: int, j: int|
        0 <= i < r.len() && 0 <= j < r.len() && #[trigger] r[i].0 == #[trigger] r[j].0 implies i == j by {
        assert(r[i] == t[i]);
        assert(r[j] == t[j]);
    }
}

/// Capacity invariant: from any valid state, any run of writes leaves at
/// most `cap` entries, with keys unique.
pub proof fn lemma_capacity_invariant(s: Seq<Entry>, ops: Seq<Entry>, cap: nat)
    requires
        valid(s, cap),
    ensures
        valid(after_puts(s, ops, cap), cap),
        after_puts(s, ops, cap).len() <= cap,
    decreases ops.len(),
{
    if ops.len() > 0 {
        lemma_capacity_invariant(s, ops.drop_last(), cap);
        lemma_put_valid(after_puts(s, ops.drop_last(), cap), ops.last().0, ops.last().1, cap);
    }
}

/// Writing a new key into a full cache evicts exactly one entry, the least
/// recently used one, and leaves the cache full.
pub proof fn lemma_full_put_evicts_last(s: Seq<Entry>, k: i32, v: i32, cap: nat)
    requires
        valid(s, cap),
        s.len() == cap,
        !contains_key(s, k),
    ensures
        after_put(s, k, v, cap) == seq![(k, v)] + s.drop_last(),
        after_put(s, k, v, cap).len() == cap,
        !contains_key(after_put(s, k, v, cap), s.last().0),
{
    let r = after_put(s, k, v, cap);
    assert(r =~= seq![(k, v)] + s.drop_last());
    let e = s.last().0;
    if contains_key(r, e) {
        let i = choose|i: int| 0 <= i < r.len() && #[trigger] r[i].0 == e;
        if i == 0 {
            assert(s[s.len() - 1].0 == k);
        } else {
            assert(r[i] == s[i - 1]);
            assert(s[i - 1].0 == s[s.len() - 1].0);
        }
    }
}

/// A miss is inert: reading an absent key returns nothing and leaves the
/// state, and so its first entry, last entry and length, as they were.
pub proof fn lemma_miss_is_inert(s: Seq<Entry>, k: i32)
    requires
        !contains_key(s, k),
    ensures
        lookup(s, k) is None,
        after_get(s, k) == s,
{
}

/// A hit promotes: after reading a present key, its entry, with the value
/// that was stored, is the most recently used, and the length is kept.
pub proof fn lemma_hit_promotes(s: Seq<Entry>, k: i32)
    requires
        unique_keys(s),
        contains_key(s, k),
    ensures
        lookup(s, k) is Some,
        after_get(s, k).len() == s.len(),
        after_get(s, k)[0] == (k, lookup(s, k)->0),
{
}

/// An overwrite refreshes: writing a present key stores the new value, makes
/// the key the most recently used, and keeps the length.
pub proof fn lemma_overwrite_refreshes(s: Seq<Entry>, k: i32, v2: i32, cap: nat)
    requires
        valid(s, cap),
        contains_key(s, k),
    ensures
        after_put(s, k, v2, cap).len() == s.len(),
        after_put(s, k, v2, cap)[0] == (k, v2),
        lookup(after_put(s, k, v2, cap), k) == Some(v2),
{
    lemma_put_valid(s, k, v2, cap);
    lemma_position_unique(after_put(s, k, v2, cap), k, 0);
}

/// Up to capacity, writing distinct keys into an empty cache stacks them,
/// the latest first.
proof fn lemma_fill(ops: Seq<Entry>, cap: nat)
    requires
        0 < cap,
        ops.len() <= cap,
        unique_keys(ops),
    ensures
        after_puts(Seq::empty(), ops, cap) =~= Seq::new(ops.len(), |i: int| ops[ops.len() - 1 - i]),
    decreases ops.len(),
{
    if ops.len() > 0 {
        let init = ops.drop_last();
        assert forall|i: int, j: int|
            0 <= i < init.len() && 0 <= j < init.len() && #[trigger] init[i].0 == #[trigger] init[j].0 implies i == j by {
            assert(ops[i] == init[i] && ops[j] == init[j]);
        }
        lemma_fill(init, cap);
        let prev = after_puts(Seq::empty(), init, cap);
        let k = ops.last().0;
        if contains_key(prev, k) {
            let i = choose|i: int| 0 <= i < prev.len() && #[trigger] prev[i].0 == k;
            assert(prev[i] == ops[ops.len() - 2 - i]);
        }
        assert(without_key(prev, k) == prev);
    }
}

/// Eviction order: writing `cap + 1` distinct keys into an empty cache of
/// capacity `cap` evicts the first key written and keeps all the others.
pub proof fn lemma_eviction_order(ops: Seq<Entry>, cap: nat)
    requires
        0 < cap,
        ops.len() == cap + 1,
        unique_keys(ops),
    ensures
        !contains_key(after_puts(Seq::empty(), ops, cap), ops[0].0),
        forall|i: int| 1 <= i < ops.len() ==> contains_key(after_puts(Seq::empty(), ops, cap), #[trigger] ops[i].0),
{
    let init = ops.drop_last();
    assert forall|i: int, j: int|
        0 <= i < init.len() && 0 <= j < init.len() && #[trigger] init[i].0 == #[trigger] init[j].0 implies i == j by {
        assert(ops[i] == init[i] && ops[j] == init[j]);
    }
    lemma_fill(init, cap);
    let prev = after_puts(Seq::empty(), init, cap);
    let k = ops.last().0;
    let v = ops.last().1;
    assert forall|a: int, b: int|
        0 <= a < prev.len() && 0 <= b < prev.len() && #[trigger] prev[a].0 == #[trigger] prev[b].0 implies a == b by {
        assert(prev[a] == init[init.len() - 1 - a]);
        assert(prev[b] == init[init.len() - 1 - b]);
    }
    if contains_key(prev, k) {
        let i = choose|i: int| 0 <= i < prev.len() && #[trigger] prev[i].0 == k;
        assert(prev[i] == ops[ops.len() - 2 - i]);
    }
    lemma_full_put_evicts_last(prev, k, v, cap);
    assert(prev.last() == ops[0]);
    let r = after_puts(Seq::empty(), ops, cap);
    assert forall|i: int| 1 <= i < ops.len() implies contains_key(r, #[trigger] ops[i].0) by {
        if i == ops.len() - 1 {
            assert(r[0].0 == ops[i].0);
        } else {
            assert(r[ops.len() - 1 - i] == prev[ops.len() - 2 - i]);
            assert(r[ops.len() - 1 - i].0 == ops[i].0);
        }
    }
}

} // verus!
