//! The order of texts by their UTF-8 bytes, as `String` compares them, and sorting rows by key.
use vstd::prelude::*;
use vstd::relations::{total_ordering, sorted_by};
use vstd::utf8::{encode_utf8, encode_utf8_decode_utf8};

verus! {

/// `a` comes before `b` or equals it, comparing byte by byte, a prefix first.
pub open spec fn bytes_leq(a: Seq<u8>, b: Seq<u8>) -> bool
    decreases a.len(),
{
    if a.len() == 0 {
        true
    } else if b.len() == 0 {
        false
    } else if a[0] != b[0] {
        a[0] < b[0]
    } else {
        bytes_leq(a.drop_first(), b.drop_first())
    }
}

/// The byte order is a total order.
pub proof fn lemma_bytes_leq_total(a: Seq<u8>, b: Seq<u8>, c: Seq<u8>)
    ensures
        bytes_leq(a, a),
        bytes_leq(a, b) && bytes_leq(b, a) ==> a == b,
        bytes_leq(a, b) && bytes_leq(b, c) ==> bytes_leq(a, c),
        bytes_leq(a, b) || bytes_leq(b, a),
    decreases a.len(),
{
    if a.len() > 0 && b.len() > 0 && c.len() > 0 {
        lemma_bytes_leq_total(a.drop_first(), b.drop_first(), c.drop_first());
        if a[0] == b[0] && bytes_leq(a.drop_first(), b.drop_first()) && bytes_leq(
            b.drop_first(),
            a.drop_first(),
        ) {
            assert(a =~= seq![a[0]] + a.drop_first());
            assert(b =~= seq![b[0]] + b.drop_first());
        }
    } else if a.len() > 0 && b.len() > 0 {
        lemma_bytes_leq_total(a.drop_first(), b.drop_first(), b.drop_first());
        if a[0] == b[0] && bytes_leq(a.drop_first(), b.drop_first()) && bytes_leq(
            b.drop_first(),
            a.drop_first(),
        ) {
            assert(a =~= seq![a[0]] + a.drop_first());
            assert(b =~= seq![b[0]] + b.drop_first());
        }
    } else if a.len() > 0 {
        lemma_bytes_leq_total(a.drop_first(), a.drop_first(), a.drop_first());
    } else if b.len() == 0 {
        assert(a =~= b);
    }
}

/// `a` comes before `b` or equals it, comparing their UTF-8 bytes.
pub open spec fn text_leq(a: Seq<char>, b: Seq<char>) -> bool {
    bytes_leq(encode_utf8(a), encode_utf8(b))
}

/// A key with a position: ordered by key, then by position.
pub open spec fn pair_leq(a: (Seq<char>, usize), b: (Seq<char>, usize)) -> bool {
    if a.0 == b.0 {
        a.1 <= b.1
    } else {
        text_leq(a.0, b.0)
    }
}

/// The order of keyed positions as a relation.
pub open spec fn pair_order() -> spec_fn((Seq<char>, usize), (Seq<char>, usize)) -> bool {
    |a: (Seq<char>, usize), b: (Seq<char>, usize)| pair_leq(a, b)
}

/// The order of keyed positions is total.
pub proof fn lemma_pair_order_total()
    ensures
        total_ordering(pair_order()),
{
    let r = pair_order();
    assert forall|x: (Seq<char>, usize), y: (Seq<char>, usize)| #[trigger] r(x, y) && #[trigger] r(
        y,
        x,
    ) implies x == y by {
        lemma_bytes_leq_total(encode_utf8(x.0), encode_utf8(y.0), encode_utf8(y.0));
        if x.0 != y.0 {
            encode_utf8_decode_utf8(x.0);
            encode_utf8_decode_utf8(y.0);
        }
    }
    assert forall|x: (Seq<char>, usize), y: (Seq<char>, usize), z: (Seq<char>, usize)| #[trigger] r(
        x,
        y,
    ) && #[trigger] r(y, z) implies r(x, z) by {
        lemma_bytes_leq_total(encode_utf8(x.0), encode_utf8(y.0), encode_utf8(z.0));
        lemma_bytes_leq_total(encode_utf8(x.0), encode_utf8(z.0), encode_utf8(y.0));
        lemma_bytes_leq_total(encode_utf8(y.0), encode_utf8(x.0), encode_utf8(z.0));
        encode_utf8_decode_utf8(x.0);
        encode_utf8_decode_utf8(y.0);
        encode_utf8_decode_utf8(z.0);
    }
    assert forall|x: (Seq<char>, usize), y: (Seq<char>, usize)| #[trigger] r(x, y) || #[trigger] r(
        y,
        x,
    ) by {
        lemma_bytes_leq_total(encode_utf8(x.0), encode_utf8(y.0), encode_utf8(y.0));
    }
    assert forall|x: (Seq<char>, usize)| #[trigger] r(x, x) by {}
}

/// The texts of keyed positions.
pub open spec fn pair_views(v: Seq<(String, usize)>) -> Seq<(Seq<char>, usize)> {
    v.map_values(|p: (String, usize)| (p.0@, p.1))
}

/// Calls `slice::sort` on pairs of a text and a position. `String` compares by bytes and a
/// pair by its text, then its position, so the sorted pairs are the sorted sequence of
/// `pair_order`, the one order of the same pairs in which each comes before the next.
#[verifier::external_body]
fn sort_pairs(v: &mut Vec<(String, usize)>)
    ensures
        pair_views(final(v)@) == pair_views(old(v)@).sort_by(pair_order()),
{
    v.sort()
}

/// The positions of `keys`, sorted by key, equal keys by position.
pub open spec fn key_order(keys: Seq<Seq<char>>) -> Seq<(Seq<char>, usize)> {
    Seq::new(keys.len(), |i: int| (keys[i], i as usize)).sort_by(pair_order())
}

/// The positions `0 .. n` of `keys` sorted by key: a sorted sequence holding each position
/// once.
pub fn sorted_positions(keys: &Vec<String>) -> (r: Vec<usize>)
    ensures
        r@.len() == keys@.len(),
        forall|i: int| 0 <= i < r@.len() ==> #[trigger] r@[i] == key_order(crate::headers::texts(keys@))[i].1,
        forall|i: int| 0 <= i < r@.len() ==> #[trigger] r@[i] < keys@.len(),
{
    let ghost ks = crate::headers::texts(keys@);
    let mut pairs: Vec<(String, usize)> = Vec::new();
    let mut i: usize = 0;
    while i < keys.len()
        invariant
            i <= keys@.len(),
            ks == crate::headers::texts(keys@),
            pairs@.len() == i,
            pair_views(pairs@) == Seq::new(i as nat, |j: int| (ks[j], j as usize)),
        decreases keys@.len() - i,
    {
        let ghost prev = pairs@;
        pairs.push((keys[i].clone(), i));
        proof {
            assert(pairs@ == prev.push(pairs@[i as int]));
            assert(pairs@[i as int].0@ == ks[i as int]);
            assert forall|j: int| 0 <= j < i + 1 implies #[trigger] pair_views(pairs@)[j] == (
                ks[j],
                j as usize,
            ) by {
                if j < i {
                    assert(pairs@[j] == prev[j]);
                    assert(pair_views(prev)[j] == (ks[j], j as usize));
                }
            }
            assert(pair_views(pairs@) =~= Seq::new((i + 1) as nat, |j: int| (ks[j], j as usize)));
        }
        i = i + 1;
    }
    let ghost unsorted = pair_views(pairs@);
    sort_pairs(&mut pairs);
    proof {
        lemma_pair_order_total();
        unsorted.lemma_sort_by_ensures(pair_order());
        assert(unsorted =~= Seq::new(ks.len(), |i: int| (ks[i], i as usize)));
        vstd::seq_lib::to_multiset_len(unsorted);
        vstd::seq_lib::to_multiset_len(unsorted.sort_by(pair_order()));
        assert(pair_views(pairs@).len() == pairs@.len());
    }
    let mut out: Vec<usize> = Vec::new();
    let mut k: usize = 0;
    while k < pairs.len()
        invariant
            k <= pairs@.len(),
            pairs@.len() == keys@.len(),
            pair_views(pairs@) == key_order(ks),
            forall|x: (Seq<char>, usize)| !unsorted.contains(x) ==> !(#[trigger] key_order(ks).contains(x)),
            unsorted == Seq::new(ks.len(), |i: int| (ks[i], i as usize)),
            ks.len() == keys@.len(),
            out@.len() == k,
            forall|q: int| 0 <= q < k ==> #[trigger] out@[q] == key_order(ks)[q].1,
            forall|q: int| 0 <= q < k ==> #[trigger] out@[q] < keys@.len(),
        decreases pairs@.len() - k,
    {
        let p = pairs[k].1;
        proof {
            assert(pair_views(pairs@)[k as int] == key_order(ks)[k as int]);
            let x = key_order(ks)[k as int];
            assert(key_order(ks).contains(x));
            assert(unsorted.contains(x));
            let j = choose|j: int| 0 <= j < unsorted.len() && unsorted[j] == x;
            assert(x.1 == j as usize);
        }
        out.push(p);
        k = k + 1;
    }
    out
}

/// Sorting keeps the number of positions.
pub proof fn lemma_key_order_len(keys: Seq<Seq<char>>)
    ensures
        key_order(keys).len() == keys.len(),
{
    let unsorted = Seq::new(keys.len(), |i: int| (keys[i], i as usize));
    lemma_pair_order_total();
    unsorted.lemma_sort_by_ensures(pair_order());
    vstd::seq_lib::to_multiset_len(unsorted);
    vstd::seq_lib::to_multiset_len(unsorted.sort_by(pair_order()));
}

/// Whether position `q` of `keys` is among the positions sorted by key.
pub open spec fn sorted_holds(keys: Seq<Seq<char>>, q: int) -> bool {
    exists|k: int| 0 <= k < keys.len() && (#[trigger] key_order(keys)[k]).1 == q
}

/// Sorting the positions of `keys` by key gives each position exactly once, next to its key.
pub proof fn lemma_key_order_permutes(keys: Seq<Seq<char>>)
    requires
        keys.len() <= usize::MAX,
    ensures
        key_order(keys).len() == keys.len(),
        forall|k: int|
            0 <= k < keys.len() ==> (#[trigger] key_order(keys)[k]).1 < keys.len() && key_order(keys)[k].0
                == keys[key_order(keys)[k].1 as int],
        forall|a: int, b: int|
            0 <= a < keys.len() && 0 <= b < keys.len() && a != b ==> (#[trigger] key_order(keys)[a]).1
                != (#[trigger] key_order(keys)[b]).1,
        forall|q: int| 0 <= q < keys.len() ==> #[trigger] sorted_holds(keys, q),
{
    let unsorted = Seq::new(keys.len(), |i: int| (keys[i], i as usize));
    let sorted = key_order(keys);
    lemma_pair_order_total();
    unsorted.lemma_sort_by_ensures(pair_order());
    lemma_key_order_len(keys);
    assert(unsorted.no_duplicates()) by {
        assert forall|i: int, j: int| 0 <= i < unsorted.len() && 0 <= j < unsorted.len() && i != j implies unsorted[i]
            != unsorted[j] by {
            assert(unsorted[i].1 == i as usize && unsorted[j].1 == j as usize);
        }
    }
    unsorted.lemma_multiset_has_no_duplicates();
    assert forall|x: (Seq<char>, usize)| sorted.to_multiset().contains(x) implies sorted.to_multiset().count(x) == 1 by {
        assert(unsorted.to_multiset().contains(x));
    }
    sorted.lemma_multiset_has_no_duplicates_conv();
    assert forall|k: int| 0 <= k < keys.len() implies (#[trigger] sorted[k]).1 < keys.len() && sorted[k].0
        == keys[sorted[k].1 as int] by {
        assert(sorted.contains(sorted[k]));
        assert(unsorted.contains(sorted[k]));
        let i = choose|i: int| 0 <= i < unsorted.len() && unsorted[i] == sorted[k];
        assert(unsorted[i] == (keys[i], i as usize));
    }
    assert forall|a: int, b: int| 0 <= a < keys.len() && 0 <= b < keys.len() && a != b implies (#[trigger] sorted[a]).1
        != (#[trigger] sorted[b]).1 by {
        assert(sorted[a] != sorted[b]);
        if sorted[a].1 == sorted[b].1 {
            assert(sorted[a].0 == keys[sorted[a].1 as int]);
            assert(sorted[b].0 == keys[sorted[b].1 as int]);
            assert(sorted[a] == sorted[b]);
        }
    }
    assert forall|q: int| 0 <= q < keys.len() implies #[trigger] sorted_holds(keys, q) by {
        let x = unsorted[q];
        assert(unsorted.contains(x));
        vstd::seq_lib::to_multiset_contains(unsorted, x);
        vstd::seq_lib::to_multiset_contains(sorted, x);
        assert(sorted.contains(x));
        let k = choose|k: int| 0 <= k < sorted.len() && sorted[k] == x;
        assert(sorted[k].1 == q);
    }
}

/// Rows sorted by key come out with their keys in ascending byte order, each position of
/// the input exactly where its key falls.
pub proof fn lemma_key_order_ascending(keys: Seq<Seq<char>>, i: int, j: int)
    requires
        0 <= i < j < keys.len(),
        keys.len() <= usize::MAX,
    ensures
        key_order(keys)[i].1 < keys.len(),
        key_order(keys)[j].1 < keys.len(),
        key_order(keys)[i].0 == keys[key_order(keys)[i].1 as int],
        key_order(keys)[j].0 == keys[key_order(keys)[j].1 as int],
        text_leq(key_order(keys)[i].0, key_order(keys)[j].0),
{
    let unsorted = Seq::new(keys.len(), |q: int| (keys[q], q as usize));
    lemma_pair_order_total();
    unsorted.lemma_sort_by_ensures(pair_order());
    lemma_key_order_len(keys);
    let sorted = key_order(keys);
    assert(sorted.contains(sorted[i]));
    assert(sorted.contains(sorted[j]));
    assert(unsorted.contains(sorted[i]));
    assert(unsorted.contains(sorted[j]));
    assert(pair_order()(sorted[i], sorted[j]));
    let a = choose|q: int| 0 <= q < unsorted.len() && unsorted[q] == sorted[i];
    let b = choose|q: int| 0 <= q < unsorted.len() && unsorted[q] == sorted[j];
    assert(sorted[i].1 as int == a);
    assert(sorted[j].1 as int == b);
    if sorted[i].0 == sorted[j].0 {
        lemma_bytes_leq_total(encode_utf8(sorted[i].0), encode_utf8(sorted[i].0), encode_utf8(sorted[i].0));
    }
}

} // verus!
