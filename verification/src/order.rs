//! Orderings, and sorting by them.

use crate::text;
use vstd::prelude::*;

verus! {

/// Lexicographic order: by the first difference, a proper prefix first.
pub open spec fn lex_before(a: Seq<i128>, b: Seq<i128>) -> bool
    decreases a.len(),
{
    if b.len() == 0 {
        false
    } else if a.len() == 0 {
        true
    } else if a[0] != b[0] {
        a[0] < b[0]
    } else {
        lex_before(a.drop_first(), b.drop_first())
    }
}

/// The scalar values of a string: strings sort by these.
pub open spec fn codes(s: Seq<char>) -> Seq<i128> {
    Seq::new(s.len(), |i: int| s[i] as i128)
}

/// The order in which strings sort.
pub open spec fn text_before(a: Seq<char>, b: Seq<char>) -> bool {
    lex_before(codes(a), codes(b))
}

pub proof fn lemma_lex_irreflexive(a: Seq<i128>)
    ensures
        !lex_before(a, a),
    decreases a.len(),
{
    if a.len() > 0 {
        lemma_lex_irreflexive(a.drop_first());
    }
}

pub proof fn lemma_lex_transitive(a: Seq<i128>, b: Seq<i128>, c: Seq<i128>)
    requires
        lex_before(a, b),
        lex_before(b, c),
    ensures
        lex_before(a, c),
    decreases a.len(),
{
    if a.len() > 0 && a[0] == b[0] && b[0] == c[0] {
        lemma_lex_transitive(a.drop_first(), b.drop_first(), c.drop_first());
    }
}

pub proof fn lemma_lex_total(a: Seq<i128>, b: Seq<i128>)
    ensures
        lex_before(a, b) || lex_before(b, a) || a == b,
    decreases a.len(),
{
    if a.len() == 0 || b.len() == 0 {
        if a.len() == 0 && b.len() == 0 {
            assert(a =~= b);
        }
    } else if a[0] == b[0] {
        lemma_lex_total(a.drop_first(), b.drop_first());
        if a.drop_first() == b.drop_first() {
            assert(a =~= seq![a[0]] + a.drop_first());
            assert(b =~= seq![b[0]] + b.drop_first());
        }
    }
}

proof fn lemma_code_injective(a: char, b: char)
    requires
        a as i128 == b as i128,
    ensures
        a == b,
{
}

/// Two strings with the same scalar values are the same string.
pub proof fn lemma_codes_injective(a: Seq<char>, b: Seq<char>)
    requires
        codes(a) == codes(b),
    ensures
        a == b,
{
    assert(a.len() == codes(a).len() && b.len() == codes(b).len());
    assert forall|i: int| 0 <= i < a.len() implies a[i] == b[i] by {
        assert(codes(a)[i] == codes(b)[i]);
        assert(codes(a)[i] == a[i] as i128);
        assert(codes(b)[i] == b[i] as i128);
        lemma_code_injective(a[i], b[i]);
    }
    assert(a =~= b);
}

pub(crate) fn comes_before(a: &[i128], b: &[i128]) -> (r: bool)
    ensures
        r == lex_before(a@, b@),
{
    let mut i: usize = 0;
    assert(a@.skip(0) =~= a@ && b@.skip(0) =~= b@);
    while i < a.len() && i < b.len()
        invariant
            i <= a@.len(),
            i <= b@.len(),
            lex_before(a@, b@) == lex_before(a@.skip(i as int), b@.skip(i as int)),
        decreases a@.len() - i,
    {
        if a[i] != b[i] {
            return a[i] < b[i];
        }
        assert(a@.skip(i as int).drop_first() =~= a@.skip(i + 1));
        assert(b@.skip(i as int).drop_first() =~= b@.skip(i + 1));
        i = i + 1;
    }
    i < b.len()
}

fn code_of(c: char) -> (r: i128)
    ensures
        r == c as i128,
{
    c as u32 as i128
}

pub(crate) fn codes_of(s: &str) -> (r: Vec<i128>)
    ensures
        r@ == codes(s@),
{
    let cs = crate::text::chars_of(s);
    let mut out: Vec<i128> = Vec::new();
    let mut i: usize = 0;
    while i < cs.len()
        invariant
            cs@ == s@,
            i <= cs@.len(),
            out@ =~= codes(s@).take(i as int),
        decreases cs@.len() - i,
    {
        out.push(code_of(cs[i]));
        i = i + 1;
    }
    assert(codes(s@).take(i as int) =~= codes(s@));
    out
}

// ---------------------------------------------------------------------------
// Sorting by key
// ---------------------------------------------------------------------------

pub open spec fn key_lists(v: Seq<Vec<i128>>) -> Seq<Seq<i128>> {
    Seq::new(v.len(), |i: int| v[i]@)
}

/// Item `a` stands before item `b` in a stable sort by key.
pub open spec fn ranks_before(keys: Seq<Seq<i128>>, a: int, b: int) -> bool {
    lex_before(keys[a], keys[b]) || (keys[a] == keys[b] && a < b)
}

/// `p` lists the items in the order of a stable sort by key.
pub open spec fn is_order(keys: Seq<Seq<i128>>, p: Seq<int>) -> bool {
    &&& p.len() == keys.len()
    &&& forall|i: int| 0 <= i < p.len() ==> 0 <= #[trigger] p[i] < keys.len()
    &&& forall|x: int| 0 <= x < keys.len() ==> #[trigger] p.contains(x)
    &&& forall|i: int, j: int|
        0 <= i < j < p.len() ==> ranks_before(keys, #[trigger] p[i], #[trigger] p[j])
}

/// The order of a stable sort by key.
pub open spec fn order_of(keys: Seq<Seq<i128>>) -> Seq<int> {
    choose|p: Seq<int>| is_order(keys, p)
}

proof fn lemma_ranks_asymmetric(keys: Seq<Seq<i128>>, a: int, b: int)
    requires
        ranks_before(keys, a, b),
    ensures
        !ranks_before(keys, b, a),
{
    if lex_before(keys[a], keys[b]) && lex_before(keys[b], keys[a]) {
        lemma_lex_transitive(keys[a], keys[b], keys[a]);
        lemma_lex_irreflexive(keys[a]);
    }
    if keys[a] == keys[b] {
        lemma_lex_irreflexive(keys[a]);
    }
}

/// There is only one stable order.
pub proof fn stable_order_is_unique(keys: Seq<Seq<i128>>, p: Seq<int>, q: Seq<int>)
    requires
        is_order(keys, p),
        is_order(keys, q),
    ensures
        p == q,
{
    assert forall|i: int| 0 <= i < p.len() implies p[i] == q[i] by {
        lemma_same_prefix(keys, p, q, i + 1);
    }
    assert(p =~= q);
}

proof fn lemma_same_prefix(keys: Seq<Seq<i128>>, p: Seq<int>, q: Seq<int>, n: int)
    requires
        is_order(keys, p),
        is_order(keys, q),
        0 <= n <= p.len(),
    ensures
        forall|i: int| 0 <= i < n ==> p[i] == q[i],
    decreases n,
{
    if n > 0 {
        lemma_same_prefix(keys, p, q, n - 1);
        let k = n - 1;
        if p[k] != q[k] {
            assert(p.contains(q[k]) && q.contains(p[k]));
            let j = choose|j: int| 0 <= j < p.len() && p[j] == q[k];
            let m = choose|m: int| 0 <= m < q.len() && q[m] == p[k];
            if j < k {
                assert(q[j] == q[k]);
                assert(ranks_before(keys, q[j], q[k]));
                lemma_lex_irreflexive(keys[q[k]]);
            }
            if m < k {
                assert(p[m] == p[k]);
                assert(ranks_before(keys, p[m], p[k]));
                lemma_lex_irreflexive(keys[p[k]]);
            }
            assert(ranks_before(keys, p[k], p[j]));
            assert(ranks_before(keys, q[k], q[m]));
            lemma_ranks_asymmetric(keys, p[k], q[k]);
        }
    }
}

pub open spec fn as_ints(v: Seq<usize>) -> Seq<int> {
    Seq::new(v.len(), |i: int| v[i] as int)
}

/// The order of a stable sort by key, as positions.
pub(crate) fn stable_order(keys: &Vec<Vec<i128>>) -> (r: Vec<usize>)
    ensures
        is_order(key_lists(keys@), as_ints(r@)),
        as_ints(r@) == order_of(key_lists(keys@)),
        r@.len() == keys@.len(),
        forall|i: int| 0 <= i < r@.len() ==> (#[trigger] r@[i]) < keys@.len(),
{
    let ghost all = key_lists(keys@);
    let mut out: Vec<usize> = Vec::new();
    let mut n: usize = 0;
    assert(as_ints(out@) =~= Seq::<int>::empty());
    while n < keys.len()
        invariant
            all == key_lists(keys@),
            n <= keys@.len(),
            is_order(all.take(n as int), as_ints(out@)),
        decreases keys@.len() - n,
    {
        let ghost p = as_ints(out@);
        let mut pos: usize = out.len();
        proof {
            assert forall|j: int| 0 <= j < out@.len() implies (#[trigger] out@[j]) < n by {
                assert(p[j] == out@[j]);
            }
        }
        while pos > 0 && comes_before(keys[n].as_slice(), keys[out[pos - 1]].as_slice())
            invariant
                n < keys@.len(),
                all == key_lists(keys@),
                pos <= out@.len() == n,
                forall|j: int| 0 <= j < out@.len() ==> (#[trigger] out@[j]) < n,
                forall|j: int|
                    pos <= j < out@.len() ==> lex_before(all[n as int], all[(#[trigger] out@[j]) as int]),
            decreases pos,
        {
            assert(all[n as int] == keys@[n as int]@);
            assert(all[out@[pos - 1] as int] == keys@[out@[pos - 1] as int]@);
            pos = pos - 1;
        }
        proof {
            assert(all[n as int] == keys@[n as int]@);
            if pos > 0 {
                assert(all[out@[pos - 1] as int] == keys@[out@[pos - 1] as int]@);
            }
        }
        out.insert(pos, n);
        proof {
            lemma_inserted(all, n as int, p, pos as int);
            assert(as_ints(out@) =~= p.insert(pos as int, n as int));
        }
        n = n + 1;
    }
    assert(all.take(n as int) =~= all);
    proof {
        stable_order_is_unique(all, as_ints(out@), order_of(all));
        assert forall|i: int| 0 <= i < out@.len() implies (#[trigger] out@[i]) < keys@.len() by {
            assert(as_ints(out@)[i] == out@[i]);
        }
    }
    out
}

proof fn lemma_inserted(all: Seq<Seq<i128>>, n: int, p: Seq<int>, pos: int)
    requires
        0 <= n < all.len(),
        is_order(all.take(n), p),
        0 <= pos <= p.len(),
        forall|j: int| pos <= j < p.len() ==> lex_before(all[n], all[#[trigger] p[j]]),
        pos > 0 ==> !lex_before(all[n], all[p[pos - 1]]),
    ensures
        is_order(all.take(n + 1), p.insert(pos, n)),
{
    let keys = all.take(n + 1);
    let old_keys = all.take(n);
    let q = p.insert(pos, n);
    assert forall|i: int| 0 <= i < q.len() implies 0 <= #[trigger] q[i] < keys.len() by {
        if i < pos {
            assert(q[i] == p[i]);
        } else if i > pos {
            assert(q[i] == p[i - 1]);
        }
    }
    assert forall|x: int| 0 <= x < keys.len() implies #[trigger] q.contains(x) by {
        if x == n {
            assert(q[pos] == n);
        } else {
            assert(p.contains(x));
            let j = choose|j: int| 0 <= j < p.len() && p[j] == x;
            if j < pos {
                assert(q[j] == x);
            } else {
                assert(q[j + 1] == x);
            }
        }
    }
    assert forall|j: int| 0 <= j < pos implies ranks_before(keys, #[trigger] p[j], n) by {
        let last = p[pos - 1];
        lemma_lex_total(all[n], all[last]);
        if j < pos - 1 {
            assert(ranks_before(old_keys, p[j], last));
            if lex_before(all[p[j]], all[last]) && lex_before(all[last], all[n]) {
                lemma_lex_transitive(all[p[j]], all[last], all[n]);
            }
        }
    }
    assert forall|i: int, j: int| 0 <= i < j < q.len() implies ranks_before(
        keys,
        #[trigger] q[i],
        #[trigger] q[j],
    ) by {
        let a = if i < pos {
            i
        } else {
            i - 1
        };
        let b = if j < pos {
            j
        } else {
            j - 1
        };
        if i == pos {
            assert(q[j] == p[b]);
            assert(lex_before(all[n], all[p[b]]));
        } else if j == pos {
            assert(q[i] == p[a]);
            assert(ranks_before(keys, p[a], n));
        } else {
            assert(q[i] == p[a] && q[j] == p[b]);
            assert(ranks_before(old_keys, p[a], p[b]));
        }
    }
}

/// A list in the order of a stable sort by key.
pub open spec fn arranged<T>(v: Seq<T>, keys: Seq<Seq<i128>>) -> Seq<T> {
    let order = order_of(keys);
    Seq::new(order.len(), |i: int| v[order[i]])
}

/// A stable order has no position twice.
proof fn lemma_order_distinct(keys: Seq<Seq<i128>>, p: Seq<int>)
    requires
        is_order(keys, p),
    ensures
        forall|i: int, j: int| 0 <= i < j < p.len() ==> #[trigger] p[i] != #[trigger] p[j],
{
    assert forall|i: int, j: int| 0 <= i < j < p.len() implies #[trigger] p[i] != #[trigger] p[j] by {
        assert(ranks_before(keys, p[i], p[j]));
        lemma_lex_irreflexive(keys[p[i]]);
    }
}

/// Sort a list by keys, one for each of its items.
pub(crate) fn sort_by_keys<T>(v: Vec<T>, keys: &Vec<Vec<i128>>) -> (r: Vec<T>)
    requires
        v@.len() == keys@.len(),
    ensures
        r@ == arranged(v@, key_lists(keys@)),
        r@.len() == v@.len(),
        is_order(key_lists(keys@), order_of(key_lists(keys@))),
{
    let order = stable_order(keys);
    let ghost p = as_ints(order@);
    let ghost all = v@;
    let total: usize = v.len();
    proof {
        lemma_order_distinct(key_lists(keys@), p);
    }
    let mut slots: Vec<Option<T>> = Vec::new();
    for item in it: v
        invariant
            it.seq() == all,
            slots@.len() == it.index(),
            forall|k: int| 0 <= k < slots@.len() ==> #[trigger] slots@[k] == Some(all[k]),
    {
        slots.push(Some(item));
    }
    let mut out: Vec<T> = Vec::new();
    let mut n: usize = 0;
    while n < total
        invariant
            total == all.len(),
            order@.len() == total,
            slots@.len() == total,
            p == as_ints(order@),
            forall|k: int| 0 <= k < total ==> (#[trigger] order@[k]) < total,
            forall|i: int, j: int| 0 <= i < j < p.len() ==> #[trigger] p[i] != #[trigger] p[j],
            n <= total,
            out@.len() == n,
            forall|k: int| 0 <= k < n ==> #[trigger] out@[k] == all[p[k]],
            forall|k: int| n <= k < total ==> slots@[#[trigger] p[k]] == Some(all[p[k]]),
        decreases total - n,
    {
        assert(p[n as int] == order@[n as int]);
        let mut slot: Option<T> = None;
        let at: usize = order[n];
        assert(slots@[p[n as int]] == Some(all[p[n as int]]));
        slots.set_and_swap(at, &mut slot);
        match slot {
            Some(item) => {
                out.push(item);
            },
            None => {},
        }
        proof {
            assert forall|k: int| n < k < total implies slots@[#[trigger] p[k]] == Some(all[p[k]]) by {
                assert(p[n as int] != p[k]);
            }
        }
        n = n + 1;
    }
    assert(out@ =~= arranged(all, key_lists(keys@)));
    out
}

proof fn lemma_place_exists(all: Seq<Seq<i128>>, n: int, p: Seq<int>, k: int) -> (pos: int)
    requires
        0 <= k <= p.len(),
        forall|j: int| k <= j < p.len() ==> lex_before(all[n], all[#[trigger] p[j]]),
    ensures
        0 <= pos <= p.len(),
        forall|j: int| pos <= j < p.len() ==> lex_before(all[n], all[#[trigger] p[j]]),
        pos > 0 ==> !lex_before(all[n], all[p[pos - 1]]),
    decreases k,
{
    if k == 0 || !lex_before(all[n], all[p[k - 1]]) {
        k
    } else {
        lemma_place_exists(all, n, p, k - 1)
    }
}

proof fn lemma_order_exists(keys: Seq<Seq<i128>>, n: int) -> (p: Seq<int>)
    requires
        0 <= n <= keys.len(),
    ensures
        is_order(keys.take(n), p),
    decreases n,
{
    if n == 0 {
        Seq::empty()
    } else {
        let before = lemma_order_exists(keys, n - 1);
        let pos = lemma_place_exists(keys, n - 1, before, before.len() as int);
        lemma_inserted(keys, n - 1, before, pos);
        before.insert(pos, n - 1)
    }
}

/// Every list can be sorted by its keys.
pub proof fn every_list_has_an_order(keys: Seq<Seq<i128>>)
    ensures
        is_order(keys, order_of(keys)),
{
    let p = lemma_order_exists(keys, keys.len() as int);
    assert(keys.take(keys.len() as int) =~= keys);
    assert(is_order(keys, p));
}

/// Sorting keeps what a list holds.
pub proof fn sorting_keeps_every_item<T>(v: Seq<T>, keys: Seq<Seq<i128>>, x: T)
    requires
        v.len() == keys.len(),
    ensures
        arranged(v, keys).contains(x) <==> v.contains(x),
        arranged(v, keys).len() == v.len(),
{
    every_list_has_an_order(keys);
    let p = order_of(keys);
    let done = arranged(v, keys);
    if v.contains(x) {
        let k = choose|k: int| 0 <= k < v.len() && v[k] == x;
        assert(p.contains(k));
        let j = choose|j: int| 0 <= j < p.len() && p[j] == k;
        assert(done[j] == x);
    }
    if done.contains(x) {
        let j = choose|j: int| 0 <= j < done.len() && done[j] == x;
        assert(v[p[j]] == x);
    }
}

/// How often an item occurs in a list.
pub open spec fn times<T>(s: Seq<T>, x: T) -> nat
    decreases s.len(),
{
    if s.len() == 0 {
        0
    } else {
        times(s.drop_last(), x) + (if s.last() == x {
            1nat
        } else {
            0nat
        })
    }
}

pub proof fn lemma_times_added<T>(a: Seq<T>, b: Seq<T>, x: T)
    ensures
        times(a + b, x) == times(a, x) + times(b, x),
    decreases b.len(),
{
    if b.len() == 0 {
        assert(a + b =~= a);
    } else {
        lemma_times_added(a, b.drop_last(), x);
        assert((a + b).drop_last() =~= a + b.drop_last());
        assert((a + b).last() == b.last());
    }
}

pub proof fn lemma_times_one<T>(y: T, x: T)
    ensures
        times(seq![y], x) == (if y == x {
            1nat
        } else {
            0nat
        }),
{
    let one = seq![y];
    let none = Seq::<T>::empty();
    assert(one.drop_last() =~= none);
    assert(times(none, x) == 0);
    assert(one.last() == y);
}

pub proof fn lemma_times_removed<T>(s: Seq<T>, k: int, x: T)
    requires
        0 <= k < s.len(),
    ensures
        times(s, x) == times(s.remove(k), x) + (if s[k] == x {
            1nat
        } else {
            0nat
        }),
    decreases s.len(),
{
    if k == s.len() - 1 {
        assert(s.remove(k) =~= s.drop_last());
    } else {
        lemma_times_removed(s.drop_last(), k, x);
        assert(s.remove(k).drop_last() =~= s.drop_last().remove(k));
        assert(s.remove(k).last() == s.last());
    }
}

proof fn lemma_times_permuted<T>(v: Seq<T>, p: Seq<int>, x: T)
    requires
        p.len() == v.len(),
        forall|i: int| 0 <= i < p.len() ==> 0 <= #[trigger] p[i] < v.len(),
        forall|i: int, j: int| 0 <= i < j < p.len() ==> #[trigger] p[i] != #[trigger] p[j],
        forall|k: int| 0 <= k < v.len() ==> #[trigger] p.contains(k),
    ensures
        times(Seq::new(p.len(), |i: int| v[p[i]]), x) == times(v, x),
    decreases v.len(),
{
    let all = Seq::new(p.len(), |i: int| v[p[i]]);
    if v.len() > 0 {
        let n = v.len() - 1;
        assert(p.contains(n));
        let k = choose|k: int| 0 <= k < p.len() && p[k] == n;
        let q = p.remove(k);
        let part = v.drop_last();
        assert forall|i: int| 0 <= i < q.len() implies 0 <= #[trigger] q[i] < part.len() by {
            if i < k {
                assert(q[i] == p[i]);
                assert(p[i] != p[k]);
            } else {
                assert(q[i] == p[i + 1]);
                assert(p[k] != p[i + 1]);
            }
        }
        assert forall|i: int, j: int| 0 <= i < j < q.len() implies #[trigger] q[i] != #[trigger] q[j] by {
            let a = if i < k {
                i
            } else {
                i + 1
            };
            let b = if j < k {
                j
            } else {
                j + 1
            };
            assert(q[i] == p[a] && q[j] == p[b]);
        }
        assert forall|m: int| 0 <= m < part.len() implies #[trigger] q.contains(m) by {
            assert(p.contains(m));
            let i = choose|i: int| 0 <= i < p.len() && p[i] == m;
            if i < k {
                assert(q[i] == m);
            } else {
                assert(q[i - 1] == m);
            }
        }
        lemma_times_permuted(part, q, x);
        lemma_times_removed(all, k, x);
        assert(all.remove(k) =~= Seq::new(q.len(), |i: int| part[q[i]]));
    } else {
        assert(all =~= v);
    }
}

/// Sorting keeps how often every item occurs.
pub proof fn sorting_keeps_counts<T>(v: Seq<T>, keys: Seq<Seq<i128>>, x: T)
    requires
        v.len() == keys.len(),
    ensures
        times(arranged(v, keys), x) == times(v, x),
{
    every_list_has_an_order(keys);
    let p = order_of(keys);
    assert forall|i: int, j: int| 0 <= i < j < p.len() implies #[trigger] p[i] != #[trigger] p[j] by {
        assert(ranks_before(keys, p[i], p[j]));
        lemma_lex_irreflexive(keys[p[i]]);
    }
    lemma_times_permuted(v, p, x);
    assert(arranged(v, keys) =~= Seq::new(p.len(), |i: int| v[p[i]]));
}

/// Sorting puts the items in the order of their keys.
pub proof fn sorting_orders_by_key<T>(v: Seq<T>, keys: Seq<Seq<i128>>, i: int, j: int)
    requires
        v.len() == keys.len(),
        0 <= i < j < v.len(),
    ensures
        exists|a: int, b: int|
            0 <= a < v.len() && 0 <= b < v.len() && a != b && arranged(v, keys)[i]
                == #[trigger] v[a] && arranged(v, keys)[j] == #[trigger] v[b] && !lex_before(
                keys[b],
                keys[a],
            ),
{
    every_list_has_an_order(keys);
    let p = order_of(keys);
    assert(ranks_before(keys, p[i], p[j]));
    lemma_ranks_asymmetric(keys, p[i], p[j]);
    lemma_lex_irreflexive(keys[p[i]]);
    assert(arranged(v, keys)[i] == v[p[i]] && arranged(v, keys)[j] == v[p[j]]);
}

proof fn lemma_keyed_prefix<T>(
    a: Seq<T>,
    a_keys: Seq<Seq<i128>>,
    b: Seq<T>,
    b_keys: Seq<Seq<i128>>,
    n: int,
)
    requires
        a.len() == a_keys.len(),
        b.len() == b_keys.len(),
        forall|i: int, j: int|
            0 <= i < j < a.len() ==> lex_before(#[trigger] a_keys[i], #[trigger] a_keys[j]),
        forall|i: int, j: int|
            0 <= i < j < b.len() ==> lex_before(#[trigger] b_keys[i], #[trigger] b_keys[j]),
        forall|x: T| a.contains(x) <==> b.contains(x),
        forall|i: int, j: int|
            0 <= i < a.len() && 0 <= j < b.len() && #[trigger] a[i] == #[trigger] b[j]
                ==> a_keys[i] == b_keys[j],
        0 <= n <= a.len(),
        n <= b.len(),
    ensures
        forall|i: int| 0 <= i < n ==> a[i] == b[i],
    decreases n,
{
    if n > 0 {
        lemma_keyed_prefix(a, a_keys, b, b_keys, n - 1);
        let k = n - 1;
        if a[k] != b[k] {
            assert(a.contains(a[k]) && b.contains(b[k]));
            assert(b.contains(a[k]) && a.contains(b[k]));
            let j = choose|j: int| 0 <= j < b.len() && b[j] == a[k];
            let m = choose|m: int| 0 <= m < a.len() && a[m] == b[k];
            assert(a_keys[k] == b_keys[j] && a_keys[m] == b_keys[k]);
            if j < k {
                assert(a[j] == b[j]);
                assert(a_keys[j] == b_keys[j]);
                assert(lex_before(a_keys[j], a_keys[k]));
                lemma_lex_irreflexive(a_keys[k]);
            }
            if m < k {
                assert(a[m] == b[m]);
                assert(a_keys[m] == b_keys[m]);
                assert(lex_before(b_keys[m], b_keys[k]));
                lemma_lex_irreflexive(b_keys[k]);
            }
            assert(lex_before(b_keys[k], b_keys[j]));
            assert(lex_before(a_keys[k], a_keys[m]));
            lemma_lex_transitive(a_keys[k], b_keys[k], a_keys[k]);
            lemma_lex_irreflexive(a_keys[k]);
        }
    }
}

/// A list that holds what another holds is no shorter than it.
proof fn lemma_keyed_length<T>(
    a: Seq<T>,
    a_keys: Seq<Seq<i128>>,
    b: Seq<T>,
    b_keys: Seq<Seq<i128>>,
)
    requires
        a.len() == a_keys.len(),
        b.len() == b_keys.len(),
        forall|i: int, j: int|
            0 <= i < j < a.len() ==> lex_before(#[trigger] a_keys[i], #[trigger] a_keys[j]),
        forall|i: int, j: int|
            0 <= i < j < b.len() ==> lex_before(#[trigger] b_keys[i], #[trigger] b_keys[j]),
        forall|x: T| a.contains(x) <==> b.contains(x),
        forall|i: int, j: int|
            0 <= i < a.len() && 0 <= j < b.len() && #[trigger] a[i] == #[trigger] b[j]
                ==> a_keys[i] == b_keys[j],
    ensures
        a.len() >= b.len(),
{
    if a.len() < b.len() {
        lemma_keyed_prefix(a, a_keys, b, b_keys, a.len() as int);
        let n = a.len() as int;
        let x = b[n];
        assert(b.contains(x));
        assert(a.contains(x));
        let j = choose|j: int| 0 <= j < a.len() && a[j] == x;
        assert(a[j] == b[j]);
        assert(a[j] == b[n]);
        assert(b_keys[j] == b_keys[n]);
        assert(lex_before(b_keys[j], b_keys[n]));
        lemma_lex_irreflexive(b_keys[n]);
    }
}

/// Where keys differ, the sorted list is determined by what it holds: the order
/// in which the items came does not matter.
pub proof fn sorting_ignores_the_given_order<T>(
    a: Seq<T>,
    a_keys: Seq<Seq<i128>>,
    b: Seq<T>,
    b_keys: Seq<Seq<i128>>,
)
    requires
        a.len() == a_keys.len(),
        b.len() == b_keys.len(),
        forall|i: int, j: int|
            0 <= i < j < a.len() ==> #[trigger] a_keys[i] != #[trigger] a_keys[j],
        forall|i: int, j: int|
            0 <= i < j < b.len() ==> #[trigger] b_keys[i] != #[trigger] b_keys[j],
        forall|x: T| a.contains(x) <==> b.contains(x),
        forall|i: int, j: int|
            0 <= i < a.len() && 0 <= j < b.len() && #[trigger] a[i] == #[trigger] b[j]
                ==> a_keys[i] == b_keys[j],
    ensures
        arranged(a, a_keys) == arranged(b, b_keys),
{
    every_list_has_an_order(a_keys);
    every_list_has_an_order(b_keys);
    let p = order_of(a_keys);
    let q = order_of(b_keys);
    let s = arranged(a, a_keys);
    let t = arranged(b, b_keys);
    let s_keys = Seq::new(p.len(), |i: int| a_keys[p[i]]);
    let t_keys = Seq::new(q.len(), |i: int| b_keys[q[i]]);
    lemma_order_distinct(a_keys, p);
    lemma_order_distinct(b_keys, q);
    assert forall|i: int, j: int| 0 <= i < j < s.len() implies lex_before(
        #[trigger] s_keys[i],
        #[trigger] s_keys[j],
    ) by {
        assert(ranks_before(a_keys, p[i], p[j]));
        if p[i] < p[j] {
            assert(a_keys[p[i]] != a_keys[p[j]]);
        } else {
            assert(a_keys[p[j]] != a_keys[p[i]]);
        }
    }
    assert forall|i: int, j: int| 0 <= i < j < t.len() implies lex_before(
        #[trigger] t_keys[i],
        #[trigger] t_keys[j],
    ) by {
        assert(ranks_before(b_keys, q[i], q[j]));
        if q[i] < q[j] {
            assert(b_keys[q[i]] != b_keys[q[j]]);
        } else {
            assert(b_keys[q[j]] != b_keys[q[i]]);
        }
    }
    assert forall|x: T| s.contains(x) <==> t.contains(x) by {
        sorting_keeps_every_item(a, a_keys, x);
        sorting_keeps_every_item(b, b_keys, x);
    }
    assert forall|i: int, j: int|
        0 <= i < s.len() && 0 <= j < t.len() && #[trigger] s[i] == #[trigger] t[j] implies s_keys[i]
        == t_keys[j] by {
        assert(a[p[i]] == b[q[j]]);
    }
    lemma_keyed_length(s, s_keys, t, t_keys);
    lemma_keyed_length(t, t_keys, s, s_keys);
    lemma_keyed_prefix(s, s_keys, t, t_keys, s.len() as int);
    assert(s =~= t);
}

pub open spec fn text_keys(v: Seq<Seq<char>>) -> Seq<Seq<i128>> {
    Seq::new(v.len(), |i: int| codes(v[i]))
}

/// Strings in sorted order, repetitions kept.
pub open spec fn sorted_texts(v: Seq<Seq<char>>) -> Seq<Seq<char>> {
    arranged(v, text_keys(v))
}

pub(crate) fn sort_texts(v: Vec<String>) -> (r: Vec<String>)
    ensures
        text::texts(r@) == sorted_texts(text::texts(v@)),
        r@.len() == v@.len(),
{
    let ghost all = text::texts(v@);
    let mut keys: Vec<Vec<i128>> = Vec::new();
    let mut i: usize = 0;
    while i < v.len()
        invariant
            i <= v@.len(),
            all == text::texts(v@),
            key_lists(keys@) =~= text_keys(all).take(i as int),
        decreases v@.len() - i,
    {
        let key = codes_of(v[i].as_str());
        let ghost before = keys@;
        keys.push(key);
        proof {
            assert(key_lists(keys@) =~= key_lists(before).push(key@));
            assert(text_keys(all).take(i + 1) =~= text_keys(all).take(i as int).push(key@));
        }
        i = i + 1;
    }
    assert(text_keys(all).take(i as int) =~= text_keys(all));
    assert(keys@.len() == v@.len()) by {
        assert(key_lists(keys@).len() == keys@.len());
    }
    let r = sort_by_keys(v, &keys);
    assert(text::texts(r@) =~= sorted_texts(all));
    r
}

// ---------------------------------------------------------------------------
// Sorted sets of strings
// ---------------------------------------------------------------------------

/// Strictly ascending, so sorted and without repetition.
pub open spec fn ascending(v: Seq<Seq<char>>) -> bool {
    forall|i: int, j: int| 0 <= i < j < v.len() ==> text_before(#[trigger] v[i], #[trigger] v[j])
}

/// An ascending list is determined by what it holds.
pub proof fn ascending_lists_are_sets(a: Seq<Seq<char>>, b: Seq<Seq<char>>)
    requires
        ascending(a),
        ascending(b),
        forall|x: Seq<char>| a.contains(x) <==> b.contains(x),
    ensures
        a == b,
{
    if a.len() <= b.len() {
        lemma_ascending_prefix(a, b, a.len() as int);
        if a.len() < b.len() {
            let x = b[a.len() as int];
            assert(b.contains(x));
            assert(a.contains(x));
            let j = choose|j: int| 0 <= j < a.len() && a[j] == x;
            assert(b[j] == x);
            lemma_lex_irreflexive(codes(x));
            assert(text_before(b[j], b[a.len() as int]));
        }
    } else {
        lemma_ascending_prefix(b, a, b.len() as int);
        let x = a[b.len() as int];
        assert(a.contains(x));
        assert(b.contains(x));
        let j = choose|j: int| 0 <= j < b.len() && b[j] == x;
        assert(a[j] == x);
        lemma_lex_irreflexive(codes(x));
        assert(text_before(a[j], a[b.len() as int]));
    }
    assert(a =~= b);
}

proof fn lemma_ascending_prefix(a: Seq<Seq<char>>, b: Seq<Seq<char>>, n: int)
    requires
        ascending(a),
        ascending(b),
        forall|x: Seq<char>| a.contains(x) <==> b.contains(x),
        0 <= n <= a.len() <= b.len(),
    ensures
        forall|i: int| 0 <= i < n ==> a[i] == b[i],
    decreases n,
{
    if n > 0 {
        lemma_ascending_prefix(a, b, n - 1);
        let k = n - 1;
        if a[k] != b[k] {
            assert(a.contains(a[k]) && b.contains(b[k]));
            assert(b.contains(a[k]) && a.contains(b[k]));
            let j = choose|j: int| 0 <= j < b.len() && b[j] == a[k];
            let m = choose|m: int| 0 <= m < a.len() && a[m] == b[k];
            if j < k {
                assert(a[j] == a[k]);
                lemma_lex_irreflexive(codes(a[k]));
                assert(text_before(a[j], a[k]));
            }
            if m < k {
                assert(b[m] == b[k]);
                lemma_lex_irreflexive(codes(b[k]));
                assert(text_before(b[m], b[k]));
            }
            assert(text_before(b[k], b[j]));
            assert(text_before(a[k], a[m]));
            lemma_lex_transitive(codes(a[k]), codes(b[k]), codes(a[k]));
            lemma_lex_irreflexive(codes(a[k]));
        }
    }
}

/// Whether one string sorts before another.
pub fn sorts_before(a: &str, b: &str) -> (r: bool)
    ensures
        r == text_before(a@, b@),
{
    comes_before(codes_of(a).as_slice(), codes_of(b).as_slice())
}

/// Add a string to an ascending list, keeping it ascending.
pub(crate) fn insert_ascending(list: &mut Vec<String>, item: String)
    requires
        ascending(text::texts(old(list)@)),
    ensures
        ascending(text::texts(final(list)@)),
        forall|x: Seq<char>|
            #![trigger text::texts(final(list)@).contains(x)]
            text::texts(final(list)@).contains(x) <==> (x == item@ || text::texts(
                old(list)@,
            ).contains(x)),
{
    let ghost start = text::texts(list@);
    let mut i: usize = 0;
    while i < list.len() && sorts_before(list[i].as_str(), item.as_str())
        invariant
            i <= list@.len(),
            start == text::texts(list@),
            forall|j: int| 0 <= j < i ==> text_before(#[trigger] start[j], item@),
        decreases list@.len() - i,
    {
        assert(start[i as int] == list@[i as int]@);
        i = i + 1;
    }
    if i < list.len() && crate::text::same(list[i].as_str(), item.as_str()) {
        proof {
            assert(start[i as int] == item@);
            assert(start.contains(item@));
        }
        return;
    }
    let ghost text = item@;
    proof {
        if i < list@.len() {
            assert(start[i as int] == list@[i as int]@);
            lemma_lex_total(codes(start[i as int]), codes(text));
            if codes(start[i as int]) == codes(text) {
                lemma_codes_injective(start[i as int], text);
            }
            assert forall|j: int| i <= j < start.len() implies text_before(text, #[trigger] start[j]) by {
                if j > i {
                    assert(text_before(start[i as int], start[j]));
                    lemma_lex_transitive(codes(text), codes(start[i as int]), codes(start[j]));
                }
            }
        }
    }
    list.insert(i, item);
    proof {
        let done = text::texts(list@);
        assert(done =~= start.insert(i as int, text));
        assert forall|a: int, b: int| 0 <= a < b < done.len() implies text_before(
            #[trigger] done[a],
            #[trigger] done[b],
        ) by {
            let x = if a < i {
                a
            } else {
                a - 1
            };
            let y = if b < i {
                b
            } else {
                b - 1
            };
            if a == i {
                assert(done[b] == start[y]);
            } else if b == i {
                assert(done[a] == start[x]);
            } else {
                assert(done[a] == start[x] && done[b] == start[y]);
            }
        }
        assert forall|x: Seq<char>| #![trigger done.contains(x)] done.contains(x) <==> (x == text
            || start.contains(x)) by {
            if done.contains(x) {
                let j = choose|j: int| 0 <= j < done.len() && done[j] == x;
                if j < i {
                    assert(start[j] == x);
                } else if j > i {
                    assert(start[j - 1] == x);
                }
            }
            if start.contains(x) {
                let j = choose|j: int| 0 <= j < start.len() && start[j] == x;
                if j < i {
                    assert(done[j] == x);
                } else {
                    assert(done[j + 1] == x);
                }
            }
            if x == text {
                assert(done[i as int] == x);
            }
        }
    }
}

} // verus!
