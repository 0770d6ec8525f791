//! Header lists under a matching key: membership, first positions and the user's output order.
use vstd::prelude::*;

verus! {

broadcast use vstd::seq_lib::group_seq_properties;

/// The texts of a list of strings.
pub open spec fn texts(v: Seq<String>) -> Seq<Seq<char>> {
    v.map_values(|s: String| s@)
}

/// The keys of a list of header texts.
pub open spec fn keys(hs: Seq<Seq<char>>, key: spec_fn(Seq<char>) -> Seq<char>) -> Seq<Seq<char>> {
    hs.map_values(key)
}

/// `keys` holds the key of each of `hs`, in order.
pub open spec fn keyed(keys_v: Seq<String>, hs: Seq<String>, key: spec_fn(Seq<char>) -> Seq<char>) -> bool {
    &&& keys_v.len() == hs.len()
    &&& forall|i: int| 0 <= i < hs.len() ==> #[trigger] keys_v[i]@ == key(hs[i]@)
}

/// The last position of `k` in `order_keys`, or -1 where it does not occur.
pub open spec fn rank(order_keys: Seq<Seq<char>>, k: Seq<char>) -> int
    decreases order_keys.len(),
{
    if order_keys.len() == 0 {
        -1
    } else if order_keys.last() == k {
        order_keys.len() - 1
    } else {
        rank(order_keys.drop_last(), k)
    }
}

/// The items whose key has rank `r` in `order_keys`, in their original order.
pub open spec fn with_rank(
    items: Seq<Seq<char>>,
    key: spec_fn(Seq<char>) -> Seq<char>,
    order_keys: Seq<Seq<char>>,
    r: int,
) -> Seq<Seq<char>>
    decreases items.len(),
{
    if items.len() == 0 {
        Seq::empty()
    } else {
        let prev = with_rank(items.drop_last(), key, order_keys, r);
        if rank(order_keys, key(items.last())) == r {
            prev.push(items.last())
        } else {
            prev
        }
    }
}

/// The items of rank below `n`, grouped by rank in increasing order.
pub open spec fn ranked_below(
    items: Seq<Seq<char>>,
    key: spec_fn(Seq<char>) -> Seq<char>,
    order_keys: Seq<Seq<char>>,
    n: int,
) -> Seq<Seq<char>>
    decreases n,
{
    if n <= 0 {
        Seq::empty()
    } else {
        ranked_below(items, key, order_keys, n - 1) + with_rank(items, key, order_keys, n - 1)
    }
}

/// A stable sort of `items` by the rank of their keys in `order_keys`; items whose key is
/// not listed keep their order after all listed ones. An empty order leaves `items` as they are.
pub open spec fn reorder(
    items: Seq<Seq<char>>,
    key: spec_fn(Seq<char>) -> Seq<char>,
    order_keys: Seq<Seq<char>>,
) -> Seq<Seq<char>> {
    if order_keys.len() == 0 {
        items
    } else {
        ranked_below(items, key, order_keys, order_keys.len() as int) + with_rank(
            items,
            key,
            order_keys,
            -1,
        )
    }
}

/// The rank always lies in `-1 .. order_keys.len()`.
pub proof fn lemma_rank_bounds(order_keys: Seq<Seq<char>>, k: Seq<char>)
    ensures
        -1 <= rank(order_keys, k) < order_keys.len(),
        rank(order_keys, k) >= 0 ==> order_keys[rank(order_keys, k)] == k,
    decreases order_keys.len(),
{
    if order_keys.len() > 0 && order_keys.last() != k {
        lemma_rank_bounds(order_keys.drop_last(), k);
    }
}

/// Whether `v` holds a string equal to `x`.
pub fn contains_text(v: &Vec<String>, x: &String) -> (r: bool)
    ensures
        r == texts(v@).contains(x@),
{
    let mut i: usize = 0;
    while i < v.len()
        invariant
            i <= v@.len(),
            forall|j: int| 0 <= j < i ==> v@[j]@ != x@,
        decreases v@.len() - i,
    {
        if v[i] == *x {
            proof {
                assert(texts(v@)[i as int] == x@);
            }
            return true;
        }
        i = i + 1;
    }
    proof {
        if texts(v@).contains(x@) {
            let j = choose|j: int| 0 <= j < texts(v@).len() && texts(v@)[j] == x@;
            assert(v@[j]@ == x@);
        }
    }
    false
}

/// The first position in `v` of a string equal to `x`.
pub fn first_position(v: &Vec<String>, x: &String) -> (r: Option<usize>)
    ensures
        match r {
            Some(i) => i < v@.len() && v@[i as int]@ == x@ && forall|j: int|
                0 <= j < i ==> v@[j]@ != x@,
            None => forall|j: int| 0 <= j < v@.len() ==> v@[j]@ != x@,
        },
{
    let mut i: usize = 0;
    while i < v.len()
        invariant
            i <= v@.len(),
            forall|j: int| 0 <= j < i ==> v@[j]@ != x@,
        decreases v@.len() - i,
    {
        if v[i] == *x {
            return Some(i);
        }
        i = i + 1;
    }
    None
}

/// The rank of `k` in `order_keys`.
pub fn rank_of(order_keys: &Vec<String>, k: &String) -> (r: Option<usize>)
    ensures
        match r {
            Some(i) => rank(texts(order_keys@), k@) == i as int,
            None => rank(texts(order_keys@), k@) == -1,
        },
{
    let mut j: usize = order_keys.len();
    assert(texts(order_keys@).take(j as int) =~= texts(order_keys@));
    while j > 0
        invariant
            j <= order_keys@.len(),
            rank(texts(order_keys@), k@) == rank(texts(order_keys@).take(j as int), k@),
        decreases j,
    {
        let ghost t = texts(order_keys@).take(j as int);
        assert(t.drop_last() =~= texts(order_keys@).take(j - 1));
        if order_keys[j - 1] == *k {
            return Some(j - 1);
        }
        j = j - 1;
    }
    None
}

/// `items` sorted stably by the rank of their keys in `order_keys`.
pub fn reorder_items(
    items: &Vec<String>,
    item_keys: &Vec<String>,
    order_keys: &Vec<String>,
    Ghost(key): Ghost<spec_fn(Seq<char>) -> Seq<char>>,
) -> (r: Vec<String>)
    requires
        keyed(item_keys@, items@, key),
    ensures
        texts(r@) == reorder(texts(items@), key, texts(order_keys@)),
{
    if order_keys.len() == 0 {
        return clone_all(items);
    }
    let n = items.len();
    let ghost hs = texts(items@);
    let ghost ok = texts(order_keys@);
    let mut ranks: Vec<Option<usize>> = Vec::new();
    let mut i: usize = 0;
    while i < n
        invariant
            i <= n,
            n == items@.len(),
            keyed(item_keys@, items@, key),
            hs == texts(items@),
            ok == texts(order_keys@),
            ranks@.len() == i,
            forall|j: int|
                0 <= j < i ==> match #[trigger] ranks@[j] {
                    Some(x) => rank(ok, key(hs[j])) == x as int,
                    None => rank(ok, key(hs[j])) == -1,
                },
        decreases n - i,
    {
        let r = rank_of(order_keys, &item_keys[i]);
        assert(item_keys@[i as int]@ == key(hs[i as int]));
        ranks.push(r);
        i = i + 1;
    }
    let mut out: Vec<String> = Vec::new();
    let m = order_keys.len();
    let mut level: usize = 0;
    while level < m
        invariant
            level <= m,
            m == order_keys@.len(),
            n == items@.len(),
            hs == texts(items@),
            ok == texts(order_keys@),
            ranks@.len() == n,
            forall|j: int|
                0 <= j < n ==> match #[trigger] ranks@[j] {
                    Some(x) => rank(ok, key(hs[j])) == x as int,
                    None => rank(ok, key(hs[j])) == -1,
                },
            texts(out@) == ranked_below(hs, key, ok, level as int),
        decreases m - level,
    {
        let ghost before = texts(out@);
        let mut k: usize = 0;
        assert(hs.take(0) =~= Seq::<Seq<char>>::empty());
        while k < n
            invariant
                k <= n,
                level < m,
                m == order_keys@.len(),
                n == items@.len(),
                hs == texts(items@),
                ok == texts(order_keys@),
                ranks@.len() == n,
                forall|j: int|
                    0 <= j < n ==> match #[trigger] ranks@[j] {
                        Some(x) => rank(ok, key(hs[j])) == x as int,
                        None => rank(ok, key(hs[j])) == -1,
                    },
                texts(out@) == before + with_rank(hs.take(k as int), key, ok, level as int),
            decreases n - k,
        {
            assert(hs.take(k + 1).drop_last() =~= hs.take(k as int));
            assert(hs.take(k + 1).last() == hs[k as int]);
            let ghost rk = ranks@[k as int];
            let ghost prev_out = texts(out@);
            let take = match ranks[k] {
                Some(x) => x == level,
                None => false,
            };
            if take {
                let item = items[k].clone();
                out.push(item);
                assert(texts(out@) =~= prev_out.push(hs[k as int]));
                assert(texts(out@) =~= before + with_rank(hs.take(k + 1), key, ok, level as int));
            } else {
                assert(texts(out@) =~= before + with_rank(hs.take(k + 1), key, ok, level as int));
            }
            k = k + 1;
        }
        assert(hs.take(n as int) =~= hs);
        level = level + 1;
    }
    let ghost before = texts(out@);
    let mut k: usize = 0;
    assert(hs.take(0) =~= Seq::<Seq<char>>::empty());
    while k < n
        invariant
            k <= n,
            n == items@.len(),
            hs == texts(items@),
            ok == texts(order_keys@),
            ranks@.len() == n,
            forall|j: int|
                0 <= j < n ==> match #[trigger] ranks@[j] {
                    Some(x) => rank(ok, key(hs[j])) == x as int,
                    None => rank(ok, key(hs[j])) == -1,
                },
            texts(out@) == before + with_rank(hs.take(k as int), key, ok, -1),
        decreases n - k,
    {
        assert(hs.take(k + 1).drop_last() =~= hs.take(k as int));
        assert(hs.take(k + 1).last() == hs[k as int]);
        let ghost rk = ranks@[k as int];
        let ghost prev_out = texts(out@);
        if ranks[k].is_none() {
            let item = items[k].clone();
            out.push(item);
            assert(texts(out@) =~= prev_out.push(hs[k as int]));
            assert(texts(out@) =~= before + with_rank(hs.take(k + 1), key, ok, -1));
        } else {
            assert(texts(out@) =~= before + with_rank(hs.take(k + 1), key, ok, -1));
        }
        k = k + 1;
    }
    assert(hs.take(n as int) =~= hs);
    out
}

/// A copy of `v`, string by string.
pub fn clone_all(v: &Vec<String>) -> (r: Vec<String>)
    ensures
        texts(r@) == texts(v@),
        r@.len() == v@.len(),
{
    let mut out: Vec<String> = Vec::new();
    let mut i: usize = 0;
    while i < v.len()
        invariant
            i <= v@.len(),
            out@.len() == i,
            forall|j: int| 0 <= j < i ==> #[trigger] out@[j]@ == v@[j]@,
        decreases v@.len() - i,
    {
        out.push(v[i].clone());
        i = i + 1;
    }
    assert(texts(out@) =~= texts(v@));
    out
}

} // verus!

verus! {

/// Whether the key of some text of `hs` is `k`.
pub open spec fn has_key(hs: Seq<Seq<char>>, key: spec_fn(Seq<char>) -> Seq<char>, k: Seq<char>) -> bool {
    keys(hs, key).contains(k)
}

/// Searching the candidates `cand(s)`, `cand(next(s))`, ... for the first one whose key is not
/// in `used`; the search gives up (and keeps the candidate) at suffix `u64::MAX`.
pub open spec fn first_fresh(
    used: Seq<Seq<char>>,
    key: spec_fn(Seq<char>) -> Seq<char>,
    cand: spec_fn(nat) -> Seq<char>,
    s: nat,
) -> Seq<char>
    decreases u64::MAX - s,
{
    if !used.contains(key(cand(s))) || s >= u64::MAX {
        cand(s)
    } else {
        first_fresh(used, key, cand, next_suffix(s))
    }
}

/// The suffix tried after `s`: the bare name counts as suffix 1, then 2, 3, ...
pub open spec fn next_suffix(s: nat) -> nat {
    if s < 2 {
        2
    } else {
        s + 1
    }
}

/// The search of `first_fresh` ends in a fresh candidate unless every suffix up to
/// `u64::MAX` collides.
pub proof fn lemma_first_fresh(
    used: Seq<Seq<char>>,
    key: spec_fn(Seq<char>) -> Seq<char>,
    cand: spec_fn(nat) -> Seq<char>,
    s: nat,
)
    ensures
        exists|t: nat|
            s <= t && first_fresh(used, key, cand, s) == #[trigger] cand(t) && (!used.contains(
                key(cand(t)),
            ) || t >= u64::MAX) && (s <= u64::MAX ==> t <= u64::MAX),
    decreases u64::MAX - s,
{
    if !used.contains(key(cand(s))) || s >= u64::MAX {
        assert(s <= s && first_fresh(used, key, cand, s) == cand(s));
    } else {
        lemma_first_fresh(used, key, cand, next_suffix(s));
        let t = choose|t: nat|
            next_suffix(s) <= t && first_fresh(used, key, cand, next_suffix(s)) == #[trigger] cand(t)
                && (!used.contains(key(cand(t))) || t >= u64::MAX) && (next_suffix(s) <= u64::MAX ==> t
                <= u64::MAX);
        assert(s <= t);
    }
}

/// Whether `keys_v` (a list of key strings) holds the key `k`; `keys_v` stands for `hs`.
pub fn has_key_in(keys_v: &Vec<String>, k: &String) -> (r: bool)
    ensures
        r == texts(keys_v@).contains(k@),
{
    contains_text(keys_v, k)
}

} // verus!

verus! {

/// Every item whose key has rank `r` is among `with_rank(items, .., r)`.
pub proof fn lemma_with_rank_contains(
    items: Seq<Seq<char>>,
    key: spec_fn(Seq<char>) -> Seq<char>,
    order_keys: Seq<Seq<char>>,
    i: int,
)
    requires
        0 <= i < items.len(),
    ensures
        with_rank(items, key, order_keys, rank(order_keys, key(items[i]))).contains(items[i]),
    decreases items.len(),
{
    let r = rank(order_keys, key(items[i]));
    let prev = with_rank(items.drop_last(), key, order_keys, r);
    if i == items.len() - 1 {
        assert(with_rank(items, key, order_keys, r) == prev.push(items[i]));
        assert(prev.push(items[i])[prev.len() as int] == items[i]);
    } else {
        assert(items.drop_last()[i] == items[i]);
        lemma_with_rank_contains(items.drop_last(), key, order_keys, i);
        let j = choose|j: int| 0 <= j < prev.len() && prev[j] == items[i];
        let whole = with_rank(items, key, order_keys, r);
        if rank(order_keys, key(items.last())) == r {
            assert(whole == prev.push(items.last()));
            assert(whole[j] == items[i]);
        } else {
            assert(whole == prev);
        }
    }
}

/// The groups of rank below `n` hold every item of such a rank.
pub proof fn lemma_ranked_below_contains(
    items: Seq<Seq<char>>,
    key: spec_fn(Seq<char>) -> Seq<char>,
    order_keys: Seq<Seq<char>>,
    n: int,
    r: int,
    x: Seq<char>,
)
    requires
        0 <= r < n,
        with_rank(items, key, order_keys, r).contains(x),
    ensures
        ranked_below(items, key, order_keys, n).contains(x),
    decreases n,
{
    let a = ranked_below(items, key, order_keys, n - 1);
    let b = with_rank(items, key, order_keys, n - 1);
    assert(ranked_below(items, key, order_keys, n) == a + b);
    if r == n - 1 {
        let j = choose|j: int| 0 <= j < b.len() && b[j] == x;
        assert((a + b)[a.len() + j] == x);
    } else {
        lemma_ranked_below_contains(items, key, order_keys, n - 1, r, x);
        let j = choose|j: int| 0 <= j < a.len() && a[j] == x;
        assert((a + b)[j] == x);
    }
}

/// Reordering loses no item.
pub proof fn lemma_reorder_contains(
    items: Seq<Seq<char>>,
    key: spec_fn(Seq<char>) -> Seq<char>,
    order_keys: Seq<Seq<char>>,
    i: int,
)
    requires
        0 <= i < items.len(),
    ensures
        reorder(items, key, order_keys).contains(items[i]),
{
    if order_keys.len() == 0 {
        assert(reorder(items, key, order_keys)[i] == items[i]);
    } else {
        let r = rank(order_keys, key(items[i]));
        lemma_rank_bounds(order_keys, key(items[i]));
        lemma_with_rank_contains(items, key, order_keys, i);
        let a = ranked_below(items, key, order_keys, order_keys.len() as int);
        let b = with_rank(items, key, order_keys, -1);
        if r == -1 {
            let j = choose|j: int| 0 <= j < b.len() && b[j] == items[i];
            assert((a + b)[a.len() + j] == items[i]);
        } else {
            lemma_ranked_below_contains(items, key, order_keys, order_keys.len() as int, r, items[i]);
            let j = choose|j: int| 0 <= j < a.len() && a[j] == items[i];
            assert((a + b)[j] == items[i]);
        }
    }
}

/// The first position in `hs` of a text whose key is `k`, or -1.
pub open spec fn first_key_index(hs: Seq<Seq<char>>, key: spec_fn(Seq<char>) -> Seq<char>, k: Seq<char>) -> int
    decreases hs.len(),
{
    if hs.len() == 0 {
        -1
    } else {
        let p = first_key_index(hs.drop_last(), key, k);
        if p >= 0 {
            p
        } else if key(hs.last()) == k {
            hs.len() - 1
        } else {
            -1
        }
    }
}

/// `first_key_index` finds a position exactly when some text has the key, and it is the first.
pub proof fn lemma_first_key_index(hs: Seq<Seq<char>>, key: spec_fn(Seq<char>) -> Seq<char>, k: Seq<char>)
    ensures
        first_key_index(hs, key, k) >= 0 <==> exists|j: int| 0 <= j < hs.len() && key(hs[j]) == k,
        first_key_index(hs, key, k) >= 0 ==> {
            &&& first_key_index(hs, key, k) < hs.len()
            &&& key(hs[first_key_index(hs, key, k)]) == k
            &&& forall|j: int| 0 <= j < first_key_index(hs, key, k) ==> key(hs[j]) != k
        },
    decreases hs.len(),
{
    if hs.len() > 0 {
        lemma_first_key_index(hs.drop_last(), key, k);
        if first_key_index(hs.drop_last(), key, k) >= 0 {
            let p = first_key_index(hs.drop_last(), key, k);
            assert(hs.drop_last()[p] == hs[p]);
            assert forall|j: int| 0 <= j < p implies key(hs[j]) != k by {
                assert(hs.drop_last()[j] == hs[j]);
            }
        } else {
            assert forall|j: int| 0 <= j < hs.len() - 1 implies key(hs[j]) != k by {
                assert(hs.drop_last()[j] == hs[j]);
            }
        }
    }
}

/// The position of the first key in `keys_v` equal to `k`; `keys_v` holds the keys of `hs`.
pub fn first_key_position(
    keys_v: &Vec<String>,
    k: &String,
    Ghost(hs): Ghost<Seq<Seq<char>>>,
    Ghost(key): Ghost<spec_fn(Seq<char>) -> Seq<char>>,
) -> (r: Option<usize>)
    requires
        keys_v@.len() == hs.len(),
        forall|i: int| 0 <= i < hs.len() ==> #[trigger] keys_v@[i]@ == key(hs[i]),
    ensures
        match r {
            Some(i) => i as int == first_key_index(hs, key, k@),
            None => first_key_index(hs, key, k@) == -1,
        },
{
    proof {
        lemma_first_key_index(hs, key, k@);
    }
    match first_position(keys_v, k) {
        Some(i) => {
            proof {
                let f = first_key_index(hs, key, k@);
                assert(key(hs[i as int]) == k@);
                if f < i {
                    assert(keys_v@[f]@ == key(hs[f]));
                }
            }
            Some(i)
        },
        None => {
            proof {
                if first_key_index(hs, key, k@) >= 0 {
                    let f = first_key_index(hs, key, k@);
                    assert(keys_v@[f]@ == key(hs[f]));
                }
            }
            None
        },
    }
}


/// No two of `hs` have the same key.
pub open spec fn distinct_by(hs: Seq<Seq<char>>, key: spec_fn(Seq<char>) -> Seq<char>) -> bool {
    forall|i: int, j: int| 0 <= i < j < hs.len() ==> key(#[trigger] hs[i]) != key(#[trigger] hs[j])
}

/// The items of `with_rank` are items whose key has that rank.
proof fn lemma_with_rank_members(
    items: Seq<Seq<char>>,
    key: spec_fn(Seq<char>) -> Seq<char>,
    order_keys: Seq<Seq<char>>,
    r: int,
)
    ensures
        forall|q: int|
            0 <= q < with_rank(items, key, order_keys, r).len() ==> rank(
                order_keys,
                key(#[trigger] with_rank(items, key, order_keys, r)[q]),
            ) == r && items.contains(with_rank(items, key, order_keys, r)[q]),
    decreases items.len(),
{
    if items.len() > 0 {
        lemma_with_rank_members(items.drop_last(), key, order_keys, r);
        let p = with_rank(items.drop_last(), key, order_keys, r);
        let w = with_rank(items, key, order_keys, r);
        assert forall|q: int| 0 <= q < w.len() implies rank(order_keys, key(#[trigger] w[q])) == r
            && items.contains(w[q]) by {
            if q < p.len() {
                assert(w[q] == p[q]);
                let k = choose|k: int| 0 <= k < items.drop_last().len() && items.drop_last()[k] == p[q];
                assert(items[k] == p[q]);
            } else {
                assert(w[q] == items.last());
                assert(items[items.len() - 1] == items.last());
            }
        }
    }
}

/// Picking the items of one rank keeps their keys apart.
proof fn lemma_with_rank_distinct(
    items: Seq<Seq<char>>,
    key: spec_fn(Seq<char>) -> Seq<char>,
    order_keys: Seq<Seq<char>>,
    r: int,
)
    requires
        distinct_by(items, key),
    ensures
        distinct_by(with_rank(items, key, order_keys, r), key),
    decreases items.len(),
{
    if items.len() > 0 {
        let d = items.drop_last();
        assert(distinct_by(d, key)) by {
            assert forall|i: int, j: int| 0 <= i < j < d.len() implies key(#[trigger] d[i]) != key(#[trigger] d[j]) by {
                assert(d[i] == items[i] && d[j] == items[j]);
            }
        }
        lemma_with_rank_distinct(d, key, order_keys, r);
        lemma_with_rank_members(d, key, order_keys, r);
        let p = with_rank(d, key, order_keys, r);
        let w = with_rank(items, key, order_keys, r);
        if rank(order_keys, key(items.last())) == r {
            assert forall|i: int, j: int| 0 <= i < j < w.len() implies key(#[trigger] w[i]) != key(#[trigger] w[j]) by {
                if j < p.len() {
                    assert(w[i] == p[i] && w[j] == p[j]);
                } else {
                    assert(w[j] == items.last());
                    assert(w[i] == p[i]);
                    assert(d.contains(p[i]));
                    let k = choose|k: int| 0 <= k < d.len() && d[k] == p[i];
                    assert(items[k] == p[i]);
                    assert(items[items.len() - 1] == items.last());
                }
            }
        }
    }
}

/// The groups of rank below `n` keep keys apart, and each of their items has such a rank.
proof fn lemma_ranked_below_distinct(
    items: Seq<Seq<char>>,
    key: spec_fn(Seq<char>) -> Seq<char>,
    order_keys: Seq<Seq<char>>,
    n: int,
)
    requires
        distinct_by(items, key),
    ensures
        distinct_by(ranked_below(items, key, order_keys, n), key),
        forall|q: int|
            0 <= q < ranked_below(items, key, order_keys, n).len() ==> 0 <= rank(
                order_keys,
                key(#[trigger] ranked_below(items, key, order_keys, n)[q]),
            ) < n,
    decreases n,
{
    if n > 0 {
        lemma_ranked_below_distinct(items, key, order_keys, n - 1);
        lemma_with_rank_distinct(items, key, order_keys, n - 1);
        lemma_with_rank_members(items, key, order_keys, n - 1);
        let a = ranked_below(items, key, order_keys, n - 1);
        let b = with_rank(items, key, order_keys, n - 1);
        let whole = ranked_below(items, key, order_keys, n);
        assert(whole == a + b);
        assert forall|q: int| 0 <= q < whole.len() implies 0 <= rank(order_keys, key(#[trigger] whole[q])) < n by {
            if q < a.len() {
                assert(whole[q] == a[q]);
            } else {
                assert(whole[q] == b[q - a.len()]);
            }
        }
        assert forall|i: int, j: int| 0 <= i < j < whole.len() implies key(#[trigger] whole[i]) != key(#[trigger] whole[j]) by {
            if j < a.len() {
                assert(whole[i] == a[i] && whole[j] == a[j]);
            } else if i >= a.len() {
                assert(whole[i] == b[i - a.len()] && whole[j] == b[j - a.len()]);
            } else {
                assert(whole[i] == a[i] && whole[j] == b[j - a.len()]);
                assert(rank(order_keys, key(a[i])) < n - 1);
                assert(rank(order_keys, key(b[j - a.len()])) == n - 1);
            }
        }
    }
}

/// Reordering keeps keys apart.
pub proof fn lemma_reorder_distinct(
    items: Seq<Seq<char>>,
    key: spec_fn(Seq<char>) -> Seq<char>,
    order_keys: Seq<Seq<char>>,
)
    requires
        distinct_by(items, key),
    ensures
        distinct_by(reorder(items, key, order_keys), key),
{
    if order_keys.len() > 0 {
        let n = order_keys.len() as int;
        lemma_ranked_below_distinct(items, key, order_keys, n);
        lemma_with_rank_distinct(items, key, order_keys, -1);
        lemma_with_rank_members(items, key, order_keys, -1);
        let a = ranked_below(items, key, order_keys, n);
        let b = with_rank(items, key, order_keys, -1);
        let whole = reorder(items, key, order_keys);
        assert(whole == a + b);
        assert forall|i: int, j: int| 0 <= i < j < whole.len() implies key(#[trigger] whole[i]) != key(#[trigger] whole[j]) by {
            if j < a.len() {
                assert(whole[i] == a[i] && whole[j] == a[j]);
            } else if i >= a.len() {
                assert(whole[i] == b[i - a.len()] && whole[j] == b[j - a.len()]);
            } else {
                assert(whole[i] == a[i] && whole[j] == b[j - a.len()]);
                assert(rank(order_keys, key(a[i])) >= 0);
                assert(rank(order_keys, key(b[j - a.len()])) == -1);
            }
        }
    }
}

} // verus!
