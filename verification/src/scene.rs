//! Ordering and thinning splats by integer keys that order as their
//! floating-point importance or depth does, and the SH degree a scene carries.
use vstd::prelude::*;

verus! {

broadcast use vstd::seq_lib::to_multiset_contains;

/// Lexicographic order on (key, index) pairs, as tuples compare.
pub open spec fn pair_le(a: (i64, usize), b: (i64, usize)) -> bool {
    a.0 < b.0 || (a.0 == b.0 && a.1 <= b.1)
}

/// The key that puts larger `k` first in ascending order.
pub open spec fn neg_key(k: i32) -> i64 {
    (-(k as int)) as i64
}

/// `o` lists every index below `n` exactly once.
pub open spec fn is_index_permutation(o: Seq<usize>, n: nat) -> bool {
    &&& o.len() == n
    &&& forall|i: int| 0 <= i < o.len() ==> #[trigger] o[i] < n
    &&& forall|i: int, j: int| 0 <= i < j < o.len() ==> #[trigger] o[i] != #[trigger] o[j]
    &&& forall|b: usize| b < n ==> #[trigger] o.contains(b)
}

/// `slice::sort_unstable` on (key, index) pairs: the result holds the same
/// pairs, in ascending tuple order.
#[verifier::external_body]
fn sort_pairs(v: &mut Vec<(i64, usize)>)
    ensures
        final(v)@.to_multiset() == old(v)@.to_multiset(),
        forall|i: int, j: int|
            0 <= i < j < final(v)@.len() ==> pair_le(#[trigger] final(v)@[i], #[trigger] final(v)@[j]),
{
    v.sort_unstable();
}

/// A sorted rearrangement of pairs without duplicates holds each of them once.
proof fn lemma_sorted_rearrangement(orig: Seq<(i64, usize)>, s: Seq<(i64, usize)>)
    requires
        orig.no_duplicates(),
        s.to_multiset() == orig.to_multiset(),
    ensures
        s.len() == orig.len(),
        s.no_duplicates(),
        forall|x: (i64, usize)| s.contains(x) <==> orig.contains(x),
{
    broadcast use vstd::seq_lib::to_multiset_len;

    orig.lemma_multiset_has_no_duplicates();
    s.lemma_multiset_has_no_duplicates_conv();
    vstd::seq_lib::to_multiset_len(s);
    vstd::seq_lib::to_multiset_len(orig);
    assert forall|x: (i64, usize)| s.contains(x) <==> orig.contains(x) by {
        vstd::seq_lib::to_multiset_contains(s, x);
        vstd::seq_lib::to_multiset_contains(orig, x);
        assert(s.to_multiset().count(x) == orig.to_multiset().count(x));
    }
}

/// Index `a` ranks before index `b`: its key is larger, or the keys are
/// equal and `a` comes first.
pub open spec fn ranks_before(keys: Seq<i32>, a: int, b: int) -> bool {
    keys[a] > keys[b] || (keys[a] == keys[b] && a < b)
}

/// The indices of `keys` ordered from the largest key to the smallest;
/// equal keys keep ascending index order.
pub fn descending_key_order(keys: &[i32]) -> (order: Vec<usize>)
    ensures
        is_index_permutation(order@, keys@.len()),
        forall|i: int, j: int|
            0 <= i < j < order@.len() ==> ranks_before(keys@, #[trigger] order@[i] as int, #[trigger] order@[j] as int),
{
    let n = keys.len();
    let mut pairs: Vec<(i64, usize)> = Vec::new();
    let mut i: usize = 0;
    while i < n
        invariant
            n == keys@.len(),
            i <= n,
            pairs@.len() == i,
            forall|j: int| 0 <= j < i ==> #[trigger] pairs@[j] == (neg_key(keys@[j]), j as usize),
        decreases n - i,
    {
        pairs.push((-(keys[i] as i64), i));
        i += 1;
    }
    let ghost orig = pairs@;
    assert(orig.no_duplicates()) by {
        assert forall|a: int, b: int| 0 <= a < orig.len() && 0 <= b < orig.len() && a != b implies orig[a] != orig[b] by {
            assert(orig[a].1 == a as usize && orig[b].1 == b as usize);
        }
    }
    sort_pairs(&mut pairs);
    proof {
        lemma_sorted_rearrangement(orig, pairs@);
    }
    let ghost s = pairs@;
    let mut order: Vec<usize> = Vec::new();
    let mut t: usize = 0;
    while t < n
        invariant
            n == keys@.len(),
            s == pairs@,
            s.len() == n,
            t <= n,
            order@.len() == t,
            forall|j: int| 0 <= j < t ==> #[trigger] order@[j] == s[j].1,
        decreases n - t,
    {
        order.push(pairs[t].1);
        t += 1;
    }
    proof {
        assert forall|j: int| 0 <= j < n implies s[j] == (neg_key(keys@[s[j].1 as int]), s[j].1) && s[j].1 < n by {
            assert(s.contains(s[j]));
            assert(orig.contains(s[j]));
            let q = choose|q: int| 0 <= q < orig.len() && orig[q] == s[j];
            assert(orig[q] == (neg_key(keys@[q]), q as usize));
        }
        assert forall|i: int| 0 <= i < order@.len() implies #[trigger] order@[i] < n by {
            assert(s[i].1 < n);
        }
        assert forall|a: int, b: int| 0 <= a < b < order@.len() implies #[trigger] order@[a] != #[trigger] order@[b] by {
            assert(s[a] != s[b]);
            assert(s[a] == (neg_key(keys@[s[a].1 as int]), s[a].1));
            assert(s[b] == (neg_key(keys@[s[b].1 as int]), s[b].1));
        }
        assert forall|b: usize| b < n implies #[trigger] order@.contains(b) by {
            assert(orig[b as int] == (neg_key(keys@[b as int]), b));
            assert(orig.contains(orig[b as int]));
            assert(s.contains(orig[b as int]));
            let u = choose|u: int| 0 <= u < s.len() && s[u] == orig[b as int];
            assert(order@[u] == b);
        }
        assert forall|a: int, b: int| 0 <= a < b < order@.len() implies ranks_before(keys@, #[trigger] order@[a] as int, #[trigger] order@[b] as int) by {
            assert(s[a] != s[b]);
            assert(pair_le(s[a], s[b]));
            assert(s[a] == (neg_key(keys@[s[a].1 as int]), s[a].1));
            assert(s[b] == (neg_key(keys@[s[b].1 as int]), s[b].1));
        }
    }
    order
}

/// `kept` is a most-important subset of `min(limit, keys.len())` indices of
/// `keys`, listed in ascending (original) order: every index inside it ranks
/// before every index outside it.
pub open spec fn is_top_selection(keys: Seq<i32>, limit: nat, kept: Seq<usize>) -> bool {
    &&& kept.len() == if limit < keys.len() { limit } else { keys.len() }
    &&& forall|i: int| 0 <= i < kept.len() ==> #[trigger] kept[i] < keys.len()
    &&& forall|i: int, j: int| 0 <= i < j < kept.len() ==> #[trigger] kept[i] < #[trigger] kept[j]
    &&& forall|a: usize, b: usize|
        b < keys.len() && #[trigger] kept.contains(a) && !#[trigger] kept.contains(b) ==> ranks_before(keys, a as int, b as int)
}

/// Keeps at most `limit` items, those with the largest importance keys,
/// in their original order; between equally important items the earlier
/// one is kept.
pub fn select_most_important(importance: &[i32], limit: usize) -> (kept: Vec<usize>)
    ensures
        is_top_selection(importance@, limit as nat, kept@),
{
    let n = importance.len();
    if limit >= n {
        let mut all: Vec<usize> = Vec::new();
        let mut i: usize = 0;
        while i < n
            invariant
                i <= n,
                all@.len() == i,
                forall|j: int| 0 <= j < i ==> #[trigger] all@[j] == j as usize,
            decreases n - i,
        {
            all.push(i);
            i += 1;
        }
        assert forall|b: usize| b < n implies #[trigger] all@.contains(b) by {
            assert(all@[b as int] == b);
        }
        return all;
    }
    let order = descending_key_order(importance);
    let mut chosen: Vec<(i64, usize)> = Vec::new();
    let mut t: usize = 0;
    while t < limit
        invariant
            limit < n,
            n == importance@.len(),
            is_index_permutation(order@, n as nat),
            t <= limit,
            chosen@.len() == t,
            forall|j: int| 0 <= j < t ==> #[trigger] chosen@[j] == (0i64, order@[j]),
        decreases limit - t,
    {
        chosen.push((0i64, order[t]));
        t += 1;
    }
    let ghost orig = chosen@;
    assert(orig.no_duplicates()) by {
        assert forall|a: int, b: int| 0 <= a < orig.len() && 0 <= b < orig.len() && a != b implies orig[a] != orig[b] by {
            if a < b {
                assert(order@[a] != order@[b]);
            } else {
                assert(order@[b] != order@[a]);
            }
        }
    }
    sort_pairs(&mut chosen);
    proof {
        lemma_sorted_rearrangement(orig, chosen@);
    }
    let ghost s = chosen@;
    let mut kept: Vec<usize> = Vec::new();
    let mut u: usize = 0;
    while u < limit
        invariant
            s == chosen@,
            s.len() == limit,
            u <= limit,
            kept@.len() == u,
            forall|j: int| 0 <= j < u ==> #[trigger] kept@[j] == s[j].1,
        decreases limit - u,
    {
        kept.push(chosen[u].1);
        u += 1;
    }
    proof {
        // every kept pair is (0, index) for an index among the first `limit` of `order`
        assert forall|j: int| 0 <= j < limit implies exists|q: int| 0 <= q < limit && #[trigger] s[j] == (0i64, order@[q]) by {
            assert(s.contains(s[j]));
            assert(orig.contains(s[j]));
        }
        assert forall|i: int| 0 <= i < kept@.len() implies #[trigger] kept@[i] < n by {
            let q = choose|q: int| 0 <= q < limit && s[i] == (0i64, order@[q]);
            assert(order@[q] < n);
        }
        assert forall|i: int, j: int| 0 <= i < j < kept@.len() implies #[trigger] kept@[i] < #[trigger] kept@[j] by {
            assert(pair_le(s[i], s[j]));
            assert(s[i] != s[j]);
            let qi = choose|q: int| 0 <= q < limit && s[i] == (0i64, order@[q]);
            let qj = choose|q: int| 0 <= q < limit && s[j] == (0i64, order@[q]);
        }
        assert forall|a: usize, b: usize|
            b < n && #[trigger] kept@.contains(a) && !#[trigger] kept@.contains(b) implies ranks_before(importance@, a as int, b as int) by {
            let i = choose|i: int| 0 <= i < kept@.len() && kept@[i] == a;
            let qa = choose|q: int| 0 <= q < limit && s[i] == (0i64, order@[q]);
            assert(order@.contains(b));
            let ub = choose|u: int| 0 <= u < order@.len() && order@[u] == b;
            if ub < limit {
                assert(orig[ub] == (0i64, order@[ub]));
                assert(orig.contains(orig[ub]));
                assert(s.contains(orig[ub]));
                let w = choose|w: int| 0 <= w < s.len() && s[w] == orig[ub];
                assert(kept@[w] == b);
                assert(false);
            }
            assert(qa < ub);
            assert(order@[qa] == a);
        }
    }
    kept
}

/// `s` is strictly increasing.
pub open spec fn strictly_increasing(s: Seq<usize>) -> bool {
    forall|i: int, j: int| 0 <= i < j < s.len() ==> #[trigger] s[i] < #[trigger] s[j]
}

/// Two strictly increasing sequences with the same elements are equal.
proof fn lemma_increasing_same_elements(a: Seq<usize>, b: Seq<usize>)
    requires
        strictly_increasing(a),
        strictly_increasing(b),
        forall|x: usize| a.contains(x) <==> b.contains(x),
    ensures
        a == b,
    decreases a.len(),
{
    if a.len() == 0 {
        if b.len() > 0 {
            assert(b.contains(b[0]));
        }
    } else if b.len() == 0 {
        assert(a.contains(a[0]));
    } else {
        assert(a.contains(a[0]));
        assert(b.contains(b[0]));
        let ka = choose|k: int| 0 <= k < b.len() && b[k] == a[0];
        let kb = choose|k: int| 0 <= k < a.len() && a[k] == b[0];
        assert(b[0] <= b[ka]);
        assert(a[0] <= a[kb]);
        assert(a[0] == b[0]);
        let ra = a.drop_first();
        let rb = b.drop_first();
        assert forall|x: usize| ra.contains(x) <==> rb.contains(x) by {
            if ra.contains(x) {
                let k = choose|k: int| 0 <= k < ra.len() && ra[k] == x;
                assert(a[k + 1] == x && a[0] < a[k + 1]);
                assert(a.contains(x));
                let m = choose|m: int| 0 <= m < b.len() && b[m] == x;
                assert(m != 0);
                assert(rb[m - 1] == x);
            }
            if rb.contains(x) {
                let k = choose|k: int| 0 <= k < rb.len() && rb[k] == x;
                assert(b[k + 1] == x && b[0] < b[k + 1]);
                assert(b.contains(x));
                let m = choose|m: int| 0 <= m < a.len() && a[m] == x;
                assert(m != 0);
                assert(ra[m - 1] == x);
            }
        }
        lemma_increasing_same_elements(ra, rb);
        assert(a =~= seq![a[0]] + ra);
        assert(b =~= seq![b[0]] + rb);
    }
}

/// A top selection holds no element outside another of the same length.
proof fn lemma_top_selection_within(keys: Seq<i32>, limit: nat, k1: Seq<usize>, k2: Seq<usize>)
    requires
        is_top_selection(keys, limit, k1),
        is_top_selection(keys, limit, k2),
    ensures
        forall|x: usize| k1.contains(x) ==> k2.contains(x),
{
    broadcast use vstd::seq_lib::seq_to_set_is_finite;

    assert forall|x: usize| k1.contains(x) implies k2.contains(x) by {
        if !k2.contains(x) {
            let i = choose|i: int| 0 <= i < k1.len() && k1[i] == x;
            assert(x < keys.len());
            assert forall|y: usize| k2.to_set().contains(y) implies k1.to_set().remove(x).contains(y) by {
                assert(k2.contains(y));
                let j = choose|j: int| 0 <= j < k2.len() && k2[j] == y;
                assert(y < keys.len());
                if !k1.contains(y) {
                    assert(ranks_before(keys, x as int, y as int));
                    assert(ranks_before(keys, y as int, x as int));
                }
            }
            assert(k1.no_duplicates());
            assert(k2.no_duplicates());
            k1.unique_seq_to_set();
            k2.unique_seq_to_set();
            vstd::set_lib::lemma_len_subset(k2.to_set(), k1.to_set().remove(x));
            assert(k1.to_set().contains(x));
        }
    }
}

/// Law: the most-important selection is determined by the keys and the
/// limit alone; two selections that meet its contract are equal.
pub proof fn lemma_top_selection_unique(keys: Seq<i32>, limit: nat, k1: Seq<usize>, k2: Seq<usize>)
    requires
        is_top_selection(keys, limit, k1),
        is_top_selection(keys, limit, k2),
    ensures
        k1 == k2,
{
    lemma_top_selection_within(keys, limit, k1, k2);
    lemma_top_selection_within(keys, limit, k2, k1);
    lemma_increasing_same_elements(k1, k2);
}

/// The SH degree a scene's coefficients encode, from how many higher-order
/// coefficients its first splat carries (none for an empty scene): 9 means
/// degree 1, 24 degree 2, any other positive count degree 3.
pub fn sh_degree_from_rest_count(first_rest_count: Option<usize>) -> (d: u32)
    ensures
        d == match first_rest_count {
            None => 0u32,
            Some(c) => if c == 0 {
                0u32
            } else if c == 9 {
                1u32
            } else if c == 24 {
                2u32
            } else {
                3u32
            },
        },
{
    match first_rest_count {
        None => 0,
        Some(0) => 0,
        Some(9) => 1,
        Some(24) => 2,
        Some(_) => 3,
    }
}

} // verus!
