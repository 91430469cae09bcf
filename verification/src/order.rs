//! The order of a listing: directories before everything else, then by the lowercase label in
//! character order, and entries that tie keep the order in which they were read (a stable sort).

use vstd::prelude::*;

verus! {

/// `a` sorts strictly before `b` in character (code point) order, a proper prefix first.
pub open spec fn seq_less(a: Seq<char>, b: Seq<char>) -> bool
    decreases a.len(),
{
    if a.len() == 0 {
        b.len() > 0
    } else if b.len() == 0 {
        false
    } else if a[0] != b[0] {
        (a[0] as u32) < (b[0] as u32)
    } else {
        seq_less(a.drop_first(), b.drop_first())
    }
}

/// What an entry is sorted by: whether it is *not* a directory, then its lowercase label.
pub struct SortKey {
    pub not_dir: bool,
    pub lower: Vec<char>,
}

/// The mathematical form of a sort key.
pub open spec fn key_view(key: SortKey) -> (bool, Seq<char>) {
    (key.not_dir, key.lower@)
}

/// The views of a sequence of sort keys.
pub open spec fn key_views(keys: Seq<SortKey>) -> Seq<(bool, Seq<char>)> {
    keys.map_values(|key: SortKey| key_view(key))
}

/// `a` sorts strictly before `b`: directories first, then by label.
pub open spec fn key_less(a: (bool, Seq<char>), b: (bool, Seq<char>)) -> bool {
    (!a.0 && b.0) || (a.0 == b.0 && seq_less(a.1, b.1))
}

/// Entry `i` comes before entry `j`: a smaller key, or an equal key and read earlier.
pub open spec fn comes_before(keys: Seq<(bool, Seq<char>)>, i: int, j: int) -> bool {
    key_less(keys[i], keys[j]) || (keys[i] == keys[j] && i < j)
}

/// `order` lists every position of `keys` exactly once, each before the ones that come after it.
pub open spec fn is_sorted_order(keys: Seq<(bool, Seq<char>)>, order: Seq<int>) -> bool {
    &&& order.len() == keys.len()
    &&& forall|k: int| 0 <= k < order.len() ==> 0 <= #[trigger] order[k] < keys.len()
    &&& forall|x: int| 0 <= x < keys.len() ==> #[trigger] order.contains(x)
    &&& forall|a: int, b: int|
        0 <= a < b < order.len() ==> comes_before(keys, #[trigger] order[a], #[trigger] order[b])
}

/// Positions as mathematical integers.
pub open spec fn as_ints(positions: Seq<usize>) -> Seq<int> {
    positions.map_values(|x: usize| x as int)
}

/// The order in which entries with these keys are listed (unique, see
/// [`lemma_sorted_order_unique`]).
pub open spec fn sorted_order(keys: Seq<(bool, Seq<char>)>) -> Seq<int> {
    choose|order: Seq<int>| is_sorted_order(keys, order)
}

pub proof fn lemma_seq_less_irreflexive(a: Seq<char>)
    ensures
        !seq_less(a, a),
    decreases a.len(),
{
    if a.len() > 0 {
        lemma_seq_less_irreflexive(a.drop_first());
    }
}

pub proof fn lemma_seq_less_asymmetric(a: Seq<char>, b: Seq<char>)
    ensures
        !(seq_less(a, b) && seq_less(b, a)),
    decreases a.len(),
{
    if a.len() > 0 && b.len() > 0 && a[0] == b[0] {
        lemma_seq_less_asymmetric(a.drop_first(), b.drop_first());
    }
}

pub proof fn lemma_seq_less_transitive(a: Seq<char>, b: Seq<char>, c: Seq<char>)
    requires
        seq_less(a, b),
        seq_less(b, c),
    ensures
        seq_less(a, c),
    decreases a.len(),
{
    if a.len() > 0 && b.len() > 0 && c.len() > 0 && a[0] == b[0] && b[0] == c[0] {
        lemma_seq_less_transitive(a.drop_first(), b.drop_first(), c.drop_first());
    }
}

pub proof fn lemma_seq_less_total(a: Seq<char>, b: Seq<char>)
    ensures
        a == b || seq_less(a, b) || seq_less(b, a),
    decreases a.len(),
{
    if a.len() > 0 && b.len() > 0 && a[0] == b[0] {
        lemma_seq_less_total(a.drop_first(), b.drop_first());
        if a.drop_first() == b.drop_first() {
            assert(a =~= seq![a[0]] + a.drop_first());
            assert(b =~= seq![b[0]] + b.drop_first());
        }
    } else if a.len() > 0 && b.len() > 0 {
        let x = a[0] as u32;
        let y = b[0] as u32;
        vstd::utf8::char_u32_cast(a[0], x);
        vstd::utf8::char_u32_cast(b[0], y);
    } else if a.len() == 0 && b.len() == 0 {
        assert(a =~= b);
    }
}

pub proof fn lemma_key_less_facts(a: (bool, Seq<char>), b: (bool, Seq<char>), c: (bool, Seq<char>))
    ensures
        !key_less(a, a),
        !(key_less(a, b) && key_less(b, a)),
        key_less(a, b) && key_less(b, c) ==> key_less(a, c),
        a == b || key_less(a, b) || key_less(b, a),
{
    lemma_seq_less_irreflexive(a.1);
    lemma_seq_less_asymmetric(a.1, b.1);
    if seq_less(a.1, b.1) && seq_less(b.1, c.1) {
        lemma_seq_less_transitive(a.1, b.1, c.1);
    }
    lemma_seq_less_total(a.1, b.1);
}

/// There is only one sorted order for given keys, so listing in sorted order is a single answer.
pub proof fn lemma_sorted_order_unique(
    keys: Seq<(bool, Seq<char>)>,
    p: Seq<int>,
    q: Seq<int>,
)
    requires
        is_sorted_order(keys, p),
        is_sorted_order(keys, q),
    ensures
        p == q,
{
    if p.len() > 0 {
        lemma_sorted_orders_agree_upto(keys, p, q, p.len() - 1);
    }
    assert(p =~= q);
}

proof fn lemma_sorted_orders_agree_upto(
    keys: Seq<(bool, Seq<char>)>,
    p: Seq<int>,
    q: Seq<int>,
    k: int,
)
    requires
        is_sorted_order(keys, p),
        is_sorted_order(keys, q),
        0 <= k < p.len(),
    ensures
        forall|j: int| 0 <= j <= k ==> p[j] == q[j],
    decreases k,
{
    if k > 0 {
        lemma_sorted_orders_agree_upto(keys, p, q, k - 1);
    }
    let x = p[k];
    let y = q[k];
    if x != y {
        assert(0 <= x < keys.len());
        assert(0 <= y < keys.len());
        assert(q.contains(x));
        let a = choose|a: int| 0 <= a < q.len() && q[a] == x;
        assert(p.contains(y));
        let b = choose|b: int| 0 <= b < p.len() && p[b] == y;
        lemma_key_less_facts(keys[x], keys[y], keys[x]);
        lemma_key_less_facts(keys[y], keys[x], keys[y]);
        if a < k {
            assert(p[a] == x);
            assert(comes_before(keys, p[a], p[k]));
        } else if b < k {
            assert(q[b] == y);
            assert(comes_before(keys, q[b], q[k]));
        } else {
            assert(comes_before(keys, q[k], q[a]));
            assert(comes_before(keys, p[k], p[b]));
        }
    }
}

/// Listing order is a strict total order on positions.
proof fn lemma_comes_before_facts(keys: Seq<(bool, Seq<char>)>, i: int, j: int, k: int)
    ensures
        !comes_before(keys, i, i),
        !(comes_before(keys, i, j) && comes_before(keys, j, i)),
        comes_before(keys, i, j) && comes_before(keys, j, k) ==> comes_before(keys, i, k),
        i != j ==> comes_before(keys, i, j) || comes_before(keys, j, i),
{
    lemma_key_less_facts(keys[i], keys[j], keys[k]);
    lemma_key_less_facts(keys[j], keys[i], keys[k]);
    lemma_key_less_facts(keys[i], keys[k], keys[j]);
    lemma_key_less_facts(keys[k], keys[i], keys[j]);
    lemma_key_less_facts(keys[j], keys[k], keys[i]);
    lemma_key_less_facts(keys[k], keys[j], keys[i]);
}

/// The first place in `order`, from `start` on, whose entry comes after entry `x`.
proof fn insert_place(keys: Seq<(bool, Seq<char>)>, order: Seq<int>, x: int, start: int) -> (place: int)
    requires
        0 <= start <= order.len(),
    ensures
        start <= place <= order.len(),
        forall|b: int| start <= b < place ==> !comes_before(keys, x, #[trigger] order[b]),
        place < order.len() ==> comes_before(keys, x, order[place]),
    decreases order.len() - start,
{
    if start == order.len() || comes_before(keys, x, order[start]) {
        start
    } else {
        insert_place(keys, order, x, start + 1)
    }
}

/// A sorted order of `keys`, built by inserting the last entry into a sorted order of the others.
proof fn sorted_order_witness(keys: Seq<(bool, Seq<char>)>) -> (order: Seq<int>)
    ensures
        is_sorted_order(keys, order),
    decreases keys.len(),
{
    if keys.len() == 0 {
        Seq::<int>::empty()
    } else {
        let n = keys.len() as int;
        let x = n - 1;
        let init = keys.drop_last();
        let q = sorted_order_witness(init);
        assert forall|i: int, j: int| 0 <= i < n - 1 && 0 <= j < n - 1 implies comes_before(init, i, j)
            == comes_before(keys, i, j) by {
            assert(init[i] == keys[i]);
            assert(init[j] == keys[j]);
        }
        let m = insert_place(keys, q, x, 0);
        let r = q.take(m) + seq![x] + q.skip(m);
        assert(r.len() == n);
        assert forall|a: int| 0 <= a < r.len() implies 0 <= #[trigger] r[a] < n by {
            if a < m {
                assert(r[a] == q[a]);
            } else if a > m {
                assert(r[a] == q[a - 1]);
            }
        }
        assert forall|y: int| 0 <= y < n implies #[trigger] r.contains(y) by {
            if y == x {
                assert(r[m] == x);
            } else {
                assert(q.contains(y));
                let c = choose|c: int| 0 <= c < q.len() && q[c] == y;
                if c < m {
                    assert(r[c] == y);
                } else {
                    assert(r[c + 1] == y);
                }
            }
        }
        assert forall|a: int, b: int| 0 <= a < b < r.len() implies comes_before(
            keys,
            #[trigger] r[a],
            #[trigger] r[b],
        ) by {
            if b < m {
                assert(r[a] == q[a] && r[b] == q[b]);
                assert(comes_before(init, q[a], q[b]));
            } else if b == m {
                assert(r[a] == q[a] && r[b] == x);
                assert(!comes_before(keys, x, q[a]));
                lemma_comes_before_facts(keys, q[a], x, x);
            } else if a < m {
                assert(r[a] == q[a] && r[b] == q[b - 1]);
                assert(comes_before(init, q[a], q[b - 1]));
            } else if a == m {
                assert(r[a] == x && r[b] == q[b - 1]);
                assert(comes_before(keys, x, q[m]));
                if b - 1 > m {
                    assert(comes_before(init, q[m], q[b - 1]));
                    lemma_comes_before_facts(keys, x, q[m], q[b - 1]);
                }
            } else {
                assert(r[a] == q[a - 1] && r[b] == q[b - 1]);
                assert(comes_before(init, q[a - 1], q[b - 1]));
            }
        }
        r
    }
}

/// Every sequence of keys has a sorted order, so [`sorted_order`] is one.
pub proof fn lemma_sorted_order_exists(keys: Seq<(bool, Seq<char>)>)
    ensures
        is_sorted_order(keys, sorted_order(keys)),
{
    let witness = sorted_order_witness(keys);
    assert(is_sorted_order(keys, witness));
}

/// Whether `a` sorts strictly before `b` in character order.
pub fn text_less(a: &Vec<char>, b: &Vec<char>) -> (less: bool)
    ensures
        less == seq_less(a@, b@),
{
    let mut i: usize = 0;
    assert(a@.skip(0) =~= a@);
    assert(b@.skip(0) =~= b@);
    while i < a.len() && i < b.len()
        invariant
            i <= a.len(),
            i <= b.len(),
            seq_less(a@, b@) == seq_less(a@.skip(i as int), b@.skip(i as int)),
        decreases a.len() - i,
    {
        assert(a@.skip(i as int)[0] == a@[i as int]);
        assert(b@.skip(i as int)[0] == b@[i as int]);
        if a[i] != b[i] {
            return (a[i] as u32) < (b[i] as u32);
        }
        assert(a@.skip(i as int).drop_first() =~= a@.skip(i + 1));
        assert(b@.skip(i as int).drop_first() =~= b@.skip(i + 1));
        i = i + 1;
    }
    i < b.len()
}

/// Whether key `a` sorts strictly before key `b`.
pub fn key_is_less(a: &SortKey, b: &SortKey) -> (less: bool)
    ensures
        less == key_less(key_view(*a), key_view(*b)),
{
    (!a.not_dir && b.not_dir) || (a.not_dir == b.not_dir && text_less(&a.lower, &b.lower))
}

/// The positions of `keys` in the order in which they are listed: a stable insertion sort.
pub fn sort_order(keys: &Vec<SortKey>) -> (order: Vec<usize>)
    ensures
        is_sorted_order(key_views(keys@), as_ints(order@)),
{
    let ghost kv = key_views(keys@);
    let mut order: Vec<usize> = Vec::new();
    let mut i: usize = 0;
    while i < keys.len()
        invariant
            kv == key_views(keys@),
            i <= keys.len(),
            order.len() == i,
            forall|k: int| 0 <= k < i ==> #[trigger] order@[k] < i,
            forall|x: int| 0 <= x < i ==> #[trigger] as_ints(order@).contains(x),
            forall|a: int, b: int|
                0 <= a < b < i ==> comes_before(kv, #[trigger] order@[a] as int, #[trigger] order@[b] as int),
        decreases keys.len() - i,
    {
        let mut k: usize = 0;
        while k < order.len() && !key_is_less(&keys[i], &keys[order[k]])
            invariant
                kv == key_views(keys@),
                i < keys.len(),
                order.len() == i,
                k <= order.len(),
                forall|m: int| 0 <= m < i ==> #[trigger] order@[m] < i,
                forall|a: int| 0 <= a < k ==> !key_less(kv[i as int], #[trigger] kv[order@[a] as int]),
            decreases order.len() - k,
        {
            k = k + 1;
        }
        let ghost old_order = order@;
        proof {
            assert forall|a: int| 0 <= a < k implies comes_before(kv, #[trigger] old_order[a] as int, i as int) by {
                lemma_key_less_facts(kv[old_order[a] as int], kv[i as int], kv[i as int]);
            }
            if k < i {
                assert(key_less(kv[i as int], kv[old_order[k as int] as int]));
                assert forall|b: int| k <= b < i implies comes_before(kv, i as int, #[trigger] old_order[b] as int) by {
                    if b > k {
                        assert(comes_before(kv, old_order[k as int] as int, old_order[b] as int));
                        lemma_key_less_facts(kv[i as int], kv[old_order[k as int] as int], kv[old_order[b] as int]);
                    }
                }
            }
        }
        order.insert(k, i);
        proof {
            let new_order = order@;
            assert(new_order == old_order.insert(k as int, i));
            assert forall|a: int, b: int| 0 <= a < b < i + 1 implies comes_before(kv, #[trigger] new_order[a] as int, #[trigger] new_order[b] as int) by {
                if b < k {
                    assert(new_order[a] == old_order[a]);
                    assert(new_order[b] == old_order[b]);
                } else if b == k {
                    assert(new_order[a] == old_order[a]);
                } else if a < k {
                    assert(new_order[a] == old_order[a]);
                    assert(new_order[b] == old_order[b - 1]);
                } else if a == k {
                    assert(new_order[b] == old_order[b - 1]);
                } else {
                    assert(new_order[a] == old_order[a - 1]);
                    assert(new_order[b] == old_order[b - 1]);
                }
            }
            assert forall|m: int| 0 <= m < i + 1 implies #[trigger] new_order[m] < i + 1 by {
                if m < k {
                    assert(new_order[m] == old_order[m]);
                } else if m > k {
                    assert(new_order[m] == old_order[m - 1]);
                }
            }
            let ov_old = as_ints(old_order);
            let ov_new = as_ints(new_order);
            assert forall|x: int| 0 <= x < i + 1 implies #[trigger] ov_new.contains(x) by {
                if x == i {
                    assert(ov_new[k as int] == x);
                } else {
                    assert(ov_old.contains(x));
                    let w = choose|w: int| 0 <= w < ov_old.len() && #[trigger] ov_old[w] == x;
                    if w < k {
                        assert(ov_new[w] == x);
                    } else {
                        assert(ov_new[w + 1] == x);
                    }
                }
            }
        }
        i = i + 1;
    }
    proof {
        let ov = as_ints(order@);
        assert forall|k: int| 0 <= k < ov.len() implies 0 <= #[trigger] ov[k] < kv.len() by {
            assert(order@[k] < i);
        }
        assert forall|a: int, b: int| 0 <= a < b < ov.len() implies comes_before(kv, #[trigger] ov[a], #[trigger] ov[b]) by {
            assert(comes_before(kv, order@[a] as int, order@[b] as int));
        }
    }
    order
}

} // verus!
