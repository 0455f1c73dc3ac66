//! Ranking: the order of positions by key, largest first.

use vstd::prelude::*;

verus! {

/// A number that can be a key.
pub trait Key: Copy {
    /// The number.
    spec fn value(self) -> int;

    /// Whether this number is no smaller than another.
    fn at_least(self, other: Self) -> (r: bool)
        ensures
            r == (self.value() >= other.value()),
    ;
}

impl Key for u64 {
    open spec fn value(self) -> int {
        self as int
    }

    fn at_least(self, other: u64) -> (r: bool) {
        self >= other
    }
}

impl Key for u128 {
    open spec fn value(self) -> int {
        self as int
    }

    fn at_least(self, other: u128) -> (r: bool) {
        self >= other
    }
}

/// Whether position `a` ranks before position `b`: a larger key, or the same
/// key and an earlier position.
pub open spec fn before<K: Key>(keys: Seq<K>, a: int, b: int) -> bool {
    keys[a].value() > keys[b].value() || (keys[a].value() == keys[b].value() && a < b)
}

/// Whether `p` holds positions of `keys`, each one ranking before the next.
pub open spec fn ordered<K: Key>(keys: Seq<K>, p: Seq<usize>) -> bool {
    &&& forall|i: int| 0 <= i < p.len() ==> (#[trigger] p[i]) < keys.len()
    &&& forall|i: int, j: int|
        0 <= i < j < p.len() ==> before(keys, #[trigger] p[i] as int, #[trigger] p[j] as int)
}

/// Whether `p` is all positions of `keys`, largest key first, equal keys in
/// their order.
pub open spec fn is_ranking<K: Key>(keys: Seq<K>, p: Seq<usize>) -> bool {
    p.len() == keys.len() && ordered(keys, p)
}

/// All positions of `keys`, largest key first, equal keys in their order.
pub open spec fn ranking<K: Key>(keys: Seq<K>) -> Seq<usize> {
    choose|p: Seq<usize>| is_ranking(keys, p)
}

/// The values of `keys`, smallest first.
pub open spec fn ascending<K: Key>(keys: Seq<K>) -> Seq<K> {
    Seq::new(keys.len(), |i: int| keys[ranking(keys)[keys.len() - 1 - i] as int])
}

/// Every position occurs in a ranking.
pub proof fn lemma_ranking_covers<K: Key>(keys: Seq<K>, p: Seq<usize>, a: int)
    requires
        is_ranking(keys, p),
        0 <= a < keys.len(),
    ensures
        exists|i: int| 0 <= i < p.len() && p[i] == a,
{
    let q = p.map(|i: int, x: usize| x as int);
    assert(q.no_duplicates()) by {
        assert forall|i: int, j: int| 0 <= i < q.len() && 0 <= j < q.len() && i != j implies q[i]
            != q[j] by {
            if i < j {
                assert(before(keys, p[i] as int, p[j] as int));
            } else {
                assert(before(keys, p[j] as int, p[i] as int));
            }
        }
    }
    q.unique_seq_to_set();
    let all = vstd::set_lib::set_int_range(0, keys.len() as int);
    vstd::set_lib::lemma_int_range(0, keys.len() as int);
    assert(q.to_set().subset_of(all)) by {
        assert forall|x: int| q.to_set().contains(x) implies all.contains(x) by {
            let i = choose|i: int| 0 <= i < q.len() && q[i] == x;
            assert(p[i] < keys.len());
        }
    }
    vstd::set_lib::lemma_subset_equality(q.to_set(), all);
    assert(q.to_set().contains(a));
    let i = choose|i: int| 0 <= i < q.len() && q[i] == a;
    assert(p[i] == a);
}

/// There is only one ranking.
pub proof fn lemma_ranking_unique<K: Key>(keys: Seq<K>, p: Seq<usize>, q: Seq<usize>)
    requires
        is_ranking(keys, p),
        is_ranking(keys, q),
    ensures
        p == q,
{
    assert forall|i: int| 0 <= i < p.len() implies p[i] == q[i] by {
        lemma_ranking_agrees(keys, p, q, i);
    }
    assert(p =~= q);
}

proof fn lemma_ranking_agrees<K: Key>(keys: Seq<K>, p: Seq<usize>, q: Seq<usize>, i: int)
    requires
        is_ranking(keys, p),
        is_ranking(keys, q),
        0 <= i < keys.len(),
    ensures
        forall|j: int| 0 <= j <= i ==> p[j] == q[j],
    decreases i,
{
    if i > 0 {
        lemma_ranking_agrees(keys, p, q, i - 1);
    }
    lemma_ranking_covers(keys, q, p[i] as int);
    lemma_ranking_covers(keys, p, q[i] as int);
    let k = choose|k: int| 0 <= k < q.len() && q[k] == p[i];
    let m = choose|m: int| 0 <= m < p.len() && p[m] == q[i];
    if k < i {
        assert(p[k] == q[k]);
        assert(before(keys, p[k] as int, p[i] as int));
    }
    if m < i {
        assert(p[m] == q[m]);
        assert(before(keys, q[m] as int, q[i] as int));
    }
    if k > i && m > i {
        assert(before(keys, q[i] as int, q[k] as int));
        assert(before(keys, p[i] as int, p[m] as int));
    }
}

/// The ranking of keys that [`rank`] computes ranks them.
pub proof fn lemma_is_the_ranking<K: Key>(keys: Seq<K>, p: Seq<usize>)
    requires
        is_ranking(keys, p),
    ensures
        ranking(keys) == p,
        is_ranking(keys, ranking(keys)),
{
    lemma_ranking_unique(keys, p, ranking(keys));
}

/// Keys have a ranking.
pub proof fn lemma_ranking_exists<K: Key>(keys: Seq<K>)
    requires
        keys.len() <= usize::MAX,
    ensures
        is_ranking(keys, ranking(keys)),
    decreases keys.len(),
{
    let p = some_ranking(keys);
    lemma_is_the_ranking(keys, p);
}

/// Values from the smallest up do not fall.
pub proof fn lemma_ascending<K: Key>(keys: Seq<K>, i: int, j: int)
    requires
        keys.len() <= usize::MAX,
        0 <= i <= j < keys.len(),
    ensures
        ascending(keys)[i].value() <= ascending(keys)[j].value(),
{
    lemma_ranking_exists(keys);
    let p = ranking(keys);
    if i < j {
        let a = keys.len() - 1 - i;
        let b = keys.len() - 1 - j;
        assert(before(keys, p[b] as int, p[a] as int));
    }
}

proof fn some_ranking<K: Key>(keys: Seq<K>) -> (p: Seq<usize>)
    requires
        keys.len() <= usize::MAX,
    ensures
        is_ranking(keys, p),
    decreases keys.len(),
{
    if keys.len() == 0 {
        Seq::empty()
    } else {
        let less = keys.drop_last();
        let q = some_ranking(less);
        let last = (keys.len() - 1) as usize;
        let at = first_below(less, q, keys.last(), 0);
        let p = q.insert(at, last);
        assert forall|i: int, j: int| 0 <= i < j < p.len() implies before(
            keys,
            #[trigger] p[i] as int,
            #[trigger] p[j] as int,
        ) by {
            let x = if i < at { i } else { i - 1 };
            let y = if j < at { j } else { j - 1 };
            if i != at && j != at {
                assert(before(less, q[x] as int, q[y] as int));
            } else if j == at {
                assert(less[q[i] as int].value() >= keys.last().value());
            } else {
                if y > at {
                    assert(before(less, q[at] as int, q[y] as int));
                }
            }
        }
        assert forall|i: int| 0 <= i < p.len() implies (#[trigger] p[i]) < keys.len() by {
            if i < at {
                assert(q[i] < less.len());
            } else if i > at {
                assert(q[i - 1] < less.len());
            }
        }
        p
    }
}

/// The first place in a ranking whose key is below `key`.
proof fn first_below<K: Key>(keys: Seq<K>, q: Seq<usize>, key: K, from: int) -> (at: int)
    requires
        is_ranking(keys, q),
        0 <= from <= q.len(),
        forall|i: int| 0 <= i < from ==> keys[#[trigger] q[i] as int].value() >= key.value(),
    ensures
        from <= at <= q.len(),
        forall|i: int| 0 <= i < at ==> keys[#[trigger] q[i] as int].value() >= key.value(),
        at < q.len() ==> keys[q[at] as int].value() < key.value(),
    decreases q.len() - from,
{
    if from == q.len() || keys[q[from] as int].value() < key.value() {
        from
    } else {
        first_below(keys, q, key, from + 1)
    }
}

/// Ranks the positions from `lo` up to `hi`.
fn rank_range<K: Key>(keys: &Vec<K>, lo: usize, hi: usize) -> (r: Vec<usize>)
    requires
        lo <= hi <= keys@.len(),
    ensures
        r@.len() == hi - lo,
        ordered(keys@, r@),
        forall|i: int| 0 <= i < r@.len() ==> lo <= #[trigger] r@[i] < hi,
    decreases hi - lo,
{
    let mut out: Vec<usize> = Vec::new();
    if lo == hi {
        return out;
    }
    if hi - lo == 1 {
        out.push(lo);
        return out;
    }
    let mid: usize = lo + (hi - lo) / 2;
    let a = rank_range(keys, lo, mid);
    let b = rank_range(keys, mid, hi);
    let mut i: usize = 0;
    let mut j: usize = 0;
    while i < a.len() || j < b.len()
        invariant
            lo <= mid <= hi <= keys@.len(),
            i <= a@.len() == mid - lo,
            j <= b@.len() == hi - mid,
            out@.len() == i + j,
            ordered(keys@, a@),
            ordered(keys@, b@),
            ordered(keys@, out@),
            forall|x: int| 0 <= x < a@.len() ==> lo <= #[trigger] a@[x] < mid,
            forall|x: int| 0 <= x < b@.len() ==> mid <= #[trigger] b@[x] < hi,
            forall|x: int| 0 <= x < out@.len() ==> lo <= #[trigger] out@[x] < hi,
            forall|x: int, y: int|
                0 <= x < out@.len() && i <= y < a@.len() ==> before(
                    keys@,
                    #[trigger] out@[x] as int,
                    #[trigger] a@[y] as int,
                ),
            forall|x: int, y: int|
                0 <= x < out@.len() && j <= y < b@.len() ==> before(
                    keys@,
                    #[trigger] out@[x] as int,
                    #[trigger] b@[y] as int,
                ),
        decreases a@.len() - i + b@.len() - j,
    {
        let ghost so_far = out@;
        if j == b.len() || (i < a.len() && keys[a[i]].at_least(keys[b[j]])) {
            let next: usize = a[i];
            proof {
                assert forall|y: int| j <= y < b@.len() implies before(
                    keys@,
                    next as int,
                    #[trigger] b@[y] as int,
                ) by {
                    if y > j {
                        assert(before(keys@, b@[j as int] as int, b@[y] as int));
                    }
                }
            }
            out.push(next);
            i = i + 1;
        } else {
            let next: usize = b[j];
            proof {
                assert forall|y: int| i <= y < a@.len() implies before(
                    keys@,
                    next as int,
                    #[trigger] a@[y] as int,
                ) by {
                    if y > i {
                        assert(before(keys@, a@[i as int] as int, a@[y] as int));
                    }
                }
            }
            out.push(next);
            j = j + 1;
        }
    }
    out
}

/// The positions of `keys`, largest key first, equal keys in their order.
pub fn rank<K: Key>(keys: &Vec<K>) -> (r: Vec<usize>)
    ensures
        r@ == ranking(keys@),
        is_ranking(keys@, r@),
{
    let r = rank_range(keys, 0, keys.len());
    proof {
        lemma_is_the_ranking(keys@, r@);
    }
    r
}

/// The values of `keys`, smallest first.
pub fn sort_ascending<K: Key>(keys: &Vec<K>) -> (r: Vec<K>)
    ensures
        r@ == ascending(keys@),
        forall|i: int, j: int| 0 <= i <= j < r@.len() ==> r@[i].value() <= r@[j].value(),
{
    let p = rank(keys);
    let n: usize = keys.len();
    let mut r: Vec<K> = Vec::new();
    let mut i: usize = 0;
    while i < n
        invariant
            i <= n == keys@.len() == p@.len(),
            is_ranking(keys@, p@),
            p@ == ranking(keys@),
            r@.len() == i,
            forall|k: int| 0 <= k < i ==> r@[k] == ascending(keys@)[k],
        decreases n - i,
    {
        r.push(keys[p[n - 1 - i]]);
        i = i + 1;
    }
    proof {
        assert(r@ =~= ascending(keys@));
        assert forall|x: int, y: int| 0 <= x <= y < r@.len() implies r@[x].value() <= r@[y].value() by {
            if x < y {
                let a = n - 1 - x;
                let b = n - 1 - y;
                assert(before(keys@, p@[b] as int, p@[a] as int));
            }
        }
    }
    r
}

/// The sum of numbers.
pub open spec fn sum(ns: Seq<u64>) -> int
    decreases ns.len(),
{
    if ns.len() == 0 {
        0
    } else {
        sum(ns.drop_last()) + ns.last()
    }
}

/// The first `i` numbers add up to no more than all.
pub proof fn lemma_sum_prefix(ns: Seq<u64>, i: int)
    requires
        0 <= i <= ns.len(),
    ensures
        0 <= sum(ns.take(i)) <= sum(ns),
    decreases ns.len(),
{
    if i == ns.len() {
        assert(ns.take(i) =~= ns);
        if i > 0 {
            lemma_sum_prefix(ns.drop_last(), i - 1);
        }
    } else {
        assert(ns.take(i) =~= ns.drop_last().take(i));
        lemma_sum_prefix(ns.drop_last(), i);
    }
}

/// The numbers at positions.
pub open spec fn at_places(ns: Seq<u64>, p: Seq<usize>) -> Seq<u64> {
    p.map_values(|i: usize| ns[i as int])
}

proof fn lemma_sum_remove(ns: Seq<u64>, k: int)
    requires
        0 <= k < ns.len(),
    ensures
        sum(ns) == sum(ns.remove(k)) + ns[k],
    decreases ns.len(),
{
    let less = ns.remove(k);
    if k == ns.len() - 1 {
        assert(less =~= ns.drop_last());
    } else {
        assert(less.drop_last() =~= ns.drop_last().remove(k));
        assert(less.last() == ns.last());
        lemma_sum_remove(ns.drop_last(), k);
    }
}

/// The numbers at different positions add up to no more than all numbers.
pub proof fn lemma_sum_at_places(ns: Seq<u64>, p: Seq<usize>)
    requires
        forall|i: int| 0 <= i < p.len() ==> (#[trigger] p[i]) < ns.len(),
        forall|i: int, j: int| 0 <= i < j < p.len() ==> #[trigger] p[i] != #[trigger] p[j],
    ensures
        sum(at_places(ns, p)) <= sum(ns),
    decreases ns.len(),
{
    if ns.len() == 0 {
        if p.len() > 0 {
            assert(p[0] < ns.len());
        }
        assert(at_places(ns, p) =~= seq![]);
    } else {
        let last = ns.len() - 1;
        let less = ns.drop_last();
        if exists|k: int| 0 <= k < p.len() && p[k] == last {
            let k = choose|k: int| 0 <= k < p.len() && p[k] == last;
            let q = p.remove(k);
            assert forall|i: int| 0 <= i < q.len() implies (#[trigger] q[i]) < less.len() by {
                let x = if i < k { i } else { i + 1 };
                assert(q[i] == p[x]);
                if x < k {
                    assert(p[x] != p[k]);
                } else {
                    assert(p[k] != p[x]);
                }
            }
            assert forall|i: int, j: int| 0 <= i < j < q.len() implies #[trigger] q[i]
                != #[trigger] q[j] by {
                let x = if i < k { i } else { i + 1 };
                let y = if j < k { j } else { j + 1 };
                assert(p[x] != p[y]);
            }
            lemma_sum_at_places(less, q);
            lemma_sum_remove(at_places(ns, p), k);
            assert(at_places(ns, p).remove(k) =~= at_places(less, q));
        } else {
            assert forall|i: int| 0 <= i < p.len() implies (#[trigger] p[i]) < less.len() by {
                assert(p[i] != last);
            }
            lemma_sum_at_places(less, p);
            assert(at_places(ns, p) =~= at_places(less, p));
        }
    }
}

/// A ranking has every position once, those with larger keys before those with
/// smaller ones, and equal keys in the order in which they came.
pub proof fn larger_keys_come_first<K: Key>(keys: Seq<K>, i: int, j: int, a: int)
    requires
        keys.len() <= usize::MAX,
        0 <= i < j < keys.len(),
        0 <= a < keys.len(),
    ensures
        ({
            let p = ranking(keys);
            &&& p.len() == keys.len()
            &&& p[i] < keys.len()
            &&& keys[p[i] as int].value() >= keys[p[j] as int].value()
            &&& keys[p[i] as int].value() == keys[p[j] as int].value() ==> p[i] < p[j]
            &&& p[i] != p[j]
            &&& exists|k: int| 0 <= k < p.len() && p[k] == a
        }),
{
    lemma_ranking_exists(keys);
    let p = ranking(keys);
    assert(before(keys, p[i] as int, p[j] as int));
    lemma_ranking_covers(keys, p, a);
}

} // verus!
