//! The stable order of a list by a sort key.

use vstd::prelude::*;
use crate::bytes;

verus! {

/// What an item is ordered by: a group, two numbers, and a byte string, each
/// deciding only where those before it are equal.
pub struct SortKey {
    pub group: u8,
    pub first: usize,
    pub second: usize,
    pub name: Vec<u8>,
}

/// The value of a [`SortKey`].
pub struct Key {
    pub group: int,
    pub first: int,
    pub second: int,
    pub name: Seq<u8>,
}

impl View for SortKey {
    type V = Key;

    open spec fn view(&self) -> Key {
        Key {
            group: self.group as int,
            first: self.first as int,
            second: self.second as int,
            name: self.name@,
        }
    }
}

/// The keys of a list.
pub open spec fn keys_of(v: Seq<SortKey>) -> Seq<Key> {
    Seq::new(v.len(), |i: int| v[i]@)
}

/// `a` is a smaller key than `b`.
pub open spec fn key_less(a: Key, b: Key) -> bool {
    if a.group != b.group {
        a.group < b.group
    } else if a.first != b.first {
        a.first < b.first
    } else if a.second != b.second {
        a.second < b.second
    } else {
        bytes::precedes(a.name, b.name)
    }
}

/// The item at `i` comes before the item at `j`: by its key, and by its
/// position where the keys are equal.
pub open spec fn item_before(keys: Seq<Key>, i: int, j: int) -> bool {
    key_less(keys[i], keys[j]) || (keys[i] == keys[j] && i < j)
}

/// `order` lists every position of `keys` once, each before those that it
/// comes before.
pub open spec fn is_order(order: Seq<int>, keys: Seq<Key>) -> bool {
    &&& forall|a: int, b: int|
        0 <= a < b < order.len() ==> #[trigger] item_before(keys, order[a], order[b])
    &&& forall|i: int| #[trigger] order.contains(i) <==> 0 <= i < keys.len()
}

/// `order` with the position `i` put behind every position that comes before
/// it.
pub open spec fn placed(order: Seq<int>, keys: Seq<Key>, i: int) -> Seq<int>
    decreases order.len(),
{
    if order.len() == 0 || item_before(keys, order.last(), i) {
        order.push(i)
    } else {
        placed(order.drop_last(), keys, i).push(order.last())
    }
}

/// The positions of the first `n` items of `keys`, in order.
pub open spec fn order_upto(keys: Seq<Key>, n: nat) -> Seq<int>
    decreases n,
{
    if n == 0 {
        seq![]
    } else {
        placed(order_upto(keys, (n - 1) as nat), keys, n - 1)
    }
}

/// The positions of the items of `keys`, in the stable order of their keys.
pub open spec fn order_of(keys: Seq<Key>) -> Seq<int> {
    order_upto(keys, keys.len())
}

// ---------------------------------------------------------------------------
// Laws
// ---------------------------------------------------------------------------

/// Two keys are equal, or one is the smaller one, never both.
pub proof fn key_order_is_total(a: Key, b: Key)
    ensures
        key_less(a, b) || key_less(b, a) || a == b,
        !(key_less(a, b) && key_less(b, a)),
        !key_less(a, a),
{
    bytes::precedes_is_total(a.name, b.name);
    bytes::precedes_is_total(a.name, a.name);
}

/// The order of keys is transitive.
pub proof fn key_order_is_transitive(a: Key, b: Key, c: Key)
    requires
        key_less(a, b),
        key_less(b, c),
    ensures
        key_less(a, c),
{
    if a.group == b.group && b.group == c.group && a.first == b.first && b.first == c.first
        && a.second == b.second && b.second == c.second {
        bytes::precedes_is_transitive(a.name, b.name, c.name);
    }
}

proof fn lemma_before_total(keys: Seq<Key>, i: int, j: int)
    ensures
        i != j ==> item_before(keys, i, j) || item_before(keys, j, i),
        !(item_before(keys, i, j) && item_before(keys, j, i)),
{
    key_order_is_total(keys[i], keys[j]);
}

proof fn lemma_before_trans(keys: Seq<Key>, i: int, j: int, k: int)
    requires
        item_before(keys, i, j),
        item_before(keys, j, k),
    ensures
        item_before(keys, i, k),
{
    if key_less(keys[i], keys[j]) && key_less(keys[j], keys[k]) {
        key_order_is_transitive(keys[i], keys[j], keys[k]);
    }
}

/// Two ascending lists of the same elements are equal.
pub proof fn ascending_is_unique<A>(p: Seq<A>, q: Seq<A>, less: spec_fn(A, A) -> bool)
    requires
        forall|x: A, y: A| !(#[trigger] less(x, y) && less(y, x)),
        forall|a: int, b: int| 0 <= a < b < p.len() ==> #[trigger] less(p[a], p[b]),
        forall|a: int, b: int| 0 <= a < b < q.len() ==> #[trigger] less(q[a], q[b]),
        forall|x: A| #[trigger] p.contains(x) <==> q.contains(x),
    ensures
        p == q,
    decreases p.len(),
{
    if p.len() == 0 {
        if q.len() > 0 {
            assert(q.contains(q[0]));
            assert(p.contains(q[0]));
        }
        assert(p =~= q);
    } else {
        assert(p.contains(p[0]));
        assert(q.contains(p[0]));
        let m = choose|m: int| 0 <= m < q.len() && q[m] == p[0];
        assert(q.contains(q[0]));
        assert(p.contains(q[0]));
        let k = choose|k: int| 0 <= k < p.len() && p[k] == q[0];
        if m != 0 && k != 0 {
            assert(less(q[0], q[m]));
            assert(less(p[0], p[k]));
        }
        assert(p[0] == q[0]);
        let p1 = p.drop_first();
        let q1 = q.drop_first();
        assert forall|a: int, b: int| 0 <= a < b < p1.len() implies #[trigger] less(
            p1[a],
            p1[b],
        ) by {
            assert(less(p[a + 1], p[b + 1]));
        }
        assert forall|a: int, b: int| 0 <= a < b < q1.len() implies #[trigger] less(
            q1[a],
            q1[b],
        ) by {
            assert(less(q[a + 1], q[b + 1]));
        }
        assert forall|x: A| #[trigger] p1.contains(x) <==> q1.contains(x) by {
            lemma_tail_membership(p, q, less, x);
            lemma_tail_membership(q, p, less, x);
        }
        ascending_is_unique(p1, q1, less);
        assert(p =~= seq![p[0]] + p1);
        assert(q =~= seq![q[0]] + q1);
    }
}

proof fn lemma_tail_membership<A>(p: Seq<A>, q: Seq<A>, less: spec_fn(A, A) -> bool, x: A)
    requires
        p.len() > 0,
        q.len() > 0,
        p[0] == q[0],
        forall|x: A, y: A| !(#[trigger] less(x, y) && less(y, x)),
        forall|a: int, b: int| 0 <= a < b < p.len() ==> #[trigger] less(p[a], p[b]),
        forall|x: A| #[trigger] p.contains(x) <==> q.contains(x),
    ensures
        p.drop_first().contains(x) ==> q.drop_first().contains(x),
{
    if p.drop_first().contains(x) {
        let i = choose|i: int| 0 <= i < p.drop_first().len() && p.drop_first()[i] == x;
        assert(p[i + 1] == x);
        assert(p.contains(x));
        assert(q.contains(x));
        let m = choose|m: int| 0 <= m < q.len() && q[m] == x;
        assert(less(p[0], p[i + 1]));
        if m == 0 {
            assert(less(x, x));
        }
        assert(q.drop_first()[m - 1] == x);
    }
}

proof fn lemma_placed(order: Seq<int>, keys: Seq<Key>, i: int)
    requires
        forall|a: int, b: int|
            0 <= a < b < order.len() ==> #[trigger] item_before(keys, order[a], order[b]),
        !order.contains(i),
    ensures
        forall|a: int, b: int|
            0 <= a < b < placed(order, keys, i).len() ==> #[trigger] item_before(
                keys,
                placed(order, keys, i)[a],
                placed(order, keys, i)[b],
            ),
        forall|x: int| #[trigger]
            placed(order, keys, i).contains(x) <==> order.contains(x) || x == i,
    decreases order.len(),
{
    let r = placed(order, keys, i);
    if order.len() == 0 || item_before(keys, order.last(), i) {
        assert forall|a: int, b: int| 0 <= a < b < r.len() implies #[trigger] item_before(
            keys,
            r[a],
            r[b],
        ) by {
            if b == order.len() && a < order.len() - 1 {
                assert(item_before(keys, order[a], order[order.len() - 1]));
                lemma_before_trans(keys, order[a], order.last(), i);
            } else if b < order.len() {
                assert(item_before(keys, order[a], order[b]));
            }
        }
        assert forall|x: int| #[trigger] r.contains(x) <==> order.contains(x) || x == i by {
            if order.contains(x) {
                let k = choose|k: int| 0 <= k < order.len() && order[k] == x;
                assert(r[k] == x);
            }
            assert(r[order.len() as int] == i);
        }
    } else {
        let o = order.drop_last();
        assert forall|a: int, b: int| 0 <= a < b < o.len() implies #[trigger] item_before(
            keys,
            o[a],
            o[b],
        ) by {
            assert(item_before(keys, order[a], order[b]));
        }
        assert(!o.contains(i)) by {
            if o.contains(i) {
                let k = choose|k: int| 0 <= k < o.len() && o[k] == i;
                assert(order[k] == i);
            }
        }
        lemma_placed(o, keys, i);
        let t = placed(o, keys, i);
        let l = order.last();
        assert(order.contains(l));
        lemma_before_total(keys, i, l);
        assert forall|a: int, b: int| 0 <= a < b < r.len() implies #[trigger] item_before(
            keys,
            r[a],
            r[b],
        ) by {
            if b < t.len() {
                assert(item_before(keys, t[a], t[b]));
            } else {
                assert(t.contains(t[a]));
                if t[a] != i {
                    assert(o.contains(t[a]));
                    let k = choose|k: int| 0 <= k < o.len() && o[k] == t[a];
                    assert(item_before(keys, order[k], order[order.len() - 1]));
                }
            }
        }
        assert forall|x: int| #[trigger] r.contains(x) <==> order.contains(x) || x == i by {
            assert(r =~= t.push(l));
            assert(order =~= o.push(l));
            if r.contains(x) {
                let k = choose|k: int| 0 <= k < r.len() && r[k] == x;
                if k < t.len() {
                    assert(t[k] == x);
                    assert(t.contains(x));
                    if o.contains(x) {
                        let m = choose|m: int| 0 <= m < o.len() && o[m] == x;
                        assert(order[m] == x);
                    }
                }
            }
            if order.contains(x) || x == i {
                if x == l {
                    assert(r[t.len() as int] == x);
                } else {
                    if order.contains(x) {
                        let m = choose|m: int| 0 <= m < order.len() && order[m] == x;
                        assert(o[m] == x);
                        assert(o.contains(x));
                    }
                    assert(t.contains(x));
                    let k = choose|k: int| 0 <= k < t.len() && t[k] == x;
                    assert(r[k] == x);
                }
            }
        }
    }
}

proof fn lemma_order_upto(keys: Seq<Key>, n: nat)
    ensures
        forall|a: int, b: int|
            0 <= a < b < order_upto(keys, n).len() ==> #[trigger] item_before(
                keys,
                order_upto(keys, n)[a],
                order_upto(keys, n)[b],
            ),
        forall|i: int| #[trigger] order_upto(keys, n).contains(i) <==> 0 <= i < n,
        order_upto(keys, n).len() == n,
    decreases n,
{
    if n > 0 {
        let m = (n - 1) as nat;
        lemma_order_upto(keys, m);
        lemma_placed(order_upto(keys, m), keys, n - 1);
        lemma_placed_len(order_upto(keys, m), keys, n - 1);
    }
}

proof fn lemma_placed_len(order: Seq<int>, keys: Seq<Key>, i: int)
    ensures
        placed(order, keys, i).len() == order.len() + 1,
    decreases order.len(),
{
    if !(order.len() == 0 || item_before(keys, order.last(), i)) {
        lemma_placed_len(order.drop_last(), keys, i);
    }
}

/// `order_of` lists every position once and in order.
pub proof fn order_of_is_order(keys: Seq<Key>)
    ensures
        is_order(order_of(keys), keys),
        order_of(keys).len() == keys.len(),
{
    lemma_order_upto(keys, keys.len());
}

/// There is one stable order only.
pub proof fn order_is_unique(order: Seq<int>, keys: Seq<Key>)
    requires
        is_order(order, keys),
    ensures
        order == order_of(keys),
{
    order_of_is_order(keys);
    let less = |i: int, j: int| item_before(keys, i, j);
    assert forall|x: int, y: int| !(#[trigger] less(x, y) && less(y, x)) by {
        lemma_before_total(keys, x, y);
    }
    let q = order_of(keys);
    assert forall|a: int, b: int| 0 <= a < b < order.len() implies #[trigger] less(
        order[a],
        order[b],
    ) by {
        assert(item_before(keys, order[a], order[b]));
    }
    assert forall|a: int, b: int| 0 <= a < b < q.len() implies #[trigger] less(q[a], q[b]) by {
        assert(item_before(keys, q[a], q[b]));
    }
    ascending_is_unique(order, q, less);
}

// ---------------------------------------------------------------------------
// Sorting
// ---------------------------------------------------------------------------

/// Whether `a` is a smaller key than `b`.
pub fn smaller(a: &SortKey, b: &SortKey) -> (r: bool)
    ensures
        r == key_less(a@, b@),
{
    if a.group != b.group {
        a.group < b.group
    } else if a.first != b.first {
        a.first < b.first
    } else if a.second != b.second {
        a.second < b.second
    } else {
        bytes::comes_before(a.name.as_slice(), b.name.as_slice())
    }
}

fn before(keys: &Vec<SortKey>, i: usize, j: usize) -> (r: bool)
    requires
        i < keys@.len(),
        j < keys@.len(),
        i != j,
    ensures
        r == item_before(keys_of(keys@), i as int, j as int),
{
    proof {
        key_order_is_total(keys@[i as int]@, keys@[j as int]@);
    }
    if smaller(&keys[i], &keys[j]) {
        true
    } else if smaller(&keys[j], &keys[i]) {
        false
    } else {
        i < j
    }
}

spec fn positions(v: Seq<usize>) -> Seq<int> {
    Seq::new(v.len(), |i: int| v[i] as int)
}

spec fn ascending(v: Seq<usize>, keys: Seq<Key>) -> bool {
    &&& forall|a: int, b: int|
        0 <= a < b < v.len() ==> #[trigger] item_before(keys, v[a] as int, v[b] as int)
    &&& forall|a: int| 0 <= a < v.len() ==> #[trigger] v[a] < keys.len()
}

/// Every position of `v` comes before every position of `w` from `i` on.
spec fn all_before(v: Seq<usize>, w: Seq<usize>, i: int, keys: Seq<Key>) -> bool {
    forall|a: int, b: int|
        0 <= a < v.len() && i <= b < w.len() ==> #[trigger] item_before(
            keys,
            v[a] as int,
            w[b] as int,
        )
}

proof fn lemma_push(
    v: Seq<usize>,
    x: Seq<usize>,
    i: int,
    y: Seq<usize>,
    j: int,
    keys: Seq<Key>,
)
    requires
        ascending(v, keys),
        ascending(x, keys),
        ascending(y, keys),
        0 <= i < x.len(),
        0 <= j <= y.len(),
        all_before(v, x, i, keys),
        all_before(v, y, j, keys),
        j < y.len() ==> item_before(keys, x[i] as int, y[j] as int),
    ensures
        ascending(v.push(x[i]), keys),
        all_before(v.push(x[i]), x, i + 1, keys),
        all_before(v.push(x[i]), y, j, keys),
{
    let r = v.push(x[i]);
    assert forall|a: int, b: int| 0 <= a < b < r.len() implies #[trigger] item_before(
        keys,
        r[a] as int,
        r[b] as int,
    ) by {
        if b < v.len() {
            assert(item_before(keys, v[a] as int, v[b] as int));
        } else {
            assert(item_before(keys, v[a] as int, x[i] as int));
        }
    }
    assert forall|a: int, b: int| 0 <= a < r.len() && i + 1 <= b < x.len() implies #[trigger]
        item_before(keys, r[a] as int, x[b] as int) by {
        if a < v.len() {
            assert(item_before(keys, v[a] as int, x[b] as int));
        } else {
            assert(item_before(keys, x[i] as int, x[b] as int));
        }
    }
    assert forall|a: int, b: int| 0 <= a < r.len() && j <= b < y.len() implies #[trigger]
        item_before(keys, r[a] as int, y[b] as int) by {
        if a < v.len() {
            assert(item_before(keys, v[a] as int, y[b] as int));
        } else if b > j {
            assert(item_before(keys, y[j] as int, y[b] as int));
            lemma_before_trans(keys, x[i] as int, y[j] as int, y[b] as int);
        }
    }
}

/// The positions of two ascending lists without a common element, ascending.
fn merge(keys: &Vec<SortKey>, x: &Vec<usize>, y: &Vec<usize>) -> (r: Vec<usize>)
    requires
        ascending(x@, keys_of(keys@)),
        ascending(y@, keys_of(keys@)),
        forall|a: int, b: int| 0 <= a < x@.len() && 0 <= b < y@.len() ==> x@[a] != y@[b],
    ensures
        ascending(r@, keys_of(keys@)),
        forall|p: usize| #[trigger] r@.contains(p) <==> x@.contains(p) || y@.contains(p),
{
    let ghost k = keys_of(keys@);
    let mut r: Vec<usize> = Vec::with_capacity(x.len());
    let mut i: usize = 0;
    let mut j: usize = 0;
    while i < x.len() || j < y.len()
        invariant
            k == keys_of(keys@),
            ascending(x@, k),
            ascending(y@, k),
            forall|a: int, b: int| 0 <= a < x@.len() && 0 <= b < y@.len() ==> x@[a] != y@[b],
            i <= x@.len(),
            j <= y@.len(),
            ascending(r@, k),
            all_before(r@, x@, i as int, k),
            all_before(r@, y@, j as int, k),
            forall|p: usize| #[trigger]
                r@.contains(p) <==> x@.take(i as int).contains(p) || y@.take(j as int).contains(p),
        decreases x@.len() - i + y@.len() - j,
    {
        let take_x = if i >= x.len() {
            false
        } else if j >= y.len() {
            true
        } else {
            before(keys, x[i], y[j])
        };
        let ghost old_r = r@;
        if take_x {
            proof {
                lemma_push(r@, x@, i as int, y@, j as int, k);
            }
            r.push(x[i]);
            assert(x@.take(i + 1) =~= x@.take(i as int).push(x@[i as int]));
            assert forall|p: usize| #[trigger] r@.contains(p) <==> x@.take(i + 1).contains(p)
                || y@.take(j as int).contains(p) by {
                lemma_push_contains(old_r, x@[i as int], p);
                lemma_push_contains(x@.take(i as int), x@[i as int], p);
            }
            i += 1;
        } else {
            proof {
                if i < x@.len() {
                    lemma_before_total(k, x@[i as int] as int, y@[j as int] as int);
                }
                lemma_push(r@, y@, j as int, x@, i as int, k);
            }
            r.push(y[j]);
            assert(y@.take(j + 1) =~= y@.take(j as int).push(y@[j as int]));
            assert forall|p: usize| #[trigger] r@.contains(p) <==> x@.take(i as int).contains(p)
                || y@.take(j + 1).contains(p) by {
                lemma_push_contains(old_r, y@[j as int], p);
                lemma_push_contains(y@.take(j as int), y@[j as int], p);
            }
            j += 1;
        }
    }
    assert(x@.take(i as int) =~= x@);
    assert(y@.take(j as int) =~= y@);
    r
}

proof fn lemma_push_contains(s: Seq<usize>, x: usize, p: usize)
    ensures
        s.push(x).contains(p) <==> s.contains(p) || p == x,
{
    if s.contains(p) {
        let k = choose|k: int| 0 <= k < s.len() && s[k] == p;
        assert(s.push(x)[k] == p);
    }
    assert(s.push(x)[s.len() as int] == x);
    if s.push(x).contains(p) {
        let k = choose|k: int| 0 <= k < s.push(x).len() && s.push(x)[k] == p;
        if k < s.len() {
            assert(s[k] == p);
        }
    }
}

/// The positions `from..to`, in order.
fn sort_range(keys: &Vec<SortKey>, from: usize, to: usize) -> (r: Vec<usize>)
    requires
        from <= to <= keys@.len(),
    ensures
        ascending(r@, keys_of(keys@)),
        forall|p: usize| #[trigger] r@.contains(p) <==> from <= p < to,
    decreases to - from,
{
    let mut r: Vec<usize> = Vec::new();
    if to - from == 0 {
        return r;
    }
    if to - from == 1 {
        r.push(from);
        assert(r@[0] == from);
        assert forall|p: usize| #[trigger] r@.contains(p) <==> from <= p < to by {
            if p == from {
                assert(r@[0] == p);
            }
        }
        return r;
    }
    let mid: usize = from + (to - from) / 2;
    let x = sort_range(keys, from, mid);
    let y = sort_range(keys, mid, to);
    assert forall|a: int, b: int| 0 <= a < x@.len() && 0 <= b < y@.len() implies x@[a]
        != y@[b] by {
        assert(x@.contains(x@[a]));
        assert(y@.contains(y@[b]));
    }
    merge(keys, &x, &y)
}

/// The positions of `keys`, in the stable order of the keys.
pub fn sorted_positions(keys: &Vec<SortKey>) -> (r: Vec<usize>)
    ensures
        r@.len() == keys@.len(),
        forall|i: int| 0 <= i < r@.len() ==> #[trigger] r@[i] < keys@.len(),
        Seq::new(r@.len(), |i: int| r@[i] as int) == order_of(keys_of(keys@)),
{
    let r = sort_range(keys, 0, keys.len());
    proof {
        let k = keys_of(keys@);
        let p = positions(r@);
        assert forall|i: int| #[trigger] p.contains(i) <==> 0 <= i < k.len() by {
            if p.contains(i) {
                let a = choose|a: int| 0 <= a < p.len() && p[a] == i;
                assert(r@[a] < k.len());
            }
            if 0 <= i < k.len() {
                assert(r@.contains(i as usize));
                let a = choose|a: int| 0 <= a < r@.len() && r@[a] == i as usize;
                assert(p[a] == i);
            }
        }
        assert forall|a: int, b: int| 0 <= a < b < p.len() implies #[trigger] item_before(
            k,
            p[a],
            p[b],
        ) by {
            assert(item_before(k, r@[a] as int, r@[b] as int));
        }
        order_is_unique(p, k);
        order_of_is_order(k);
        assert(p =~= Seq::new(r@.len(), |i: int| r@[i] as int));
    }
    r
}

} // verus!
