//! The names that column mappings may be pointed at: header names that several tables share,
//! and the headers that match none of them.
use vstd::prelude::*;
use crate::desktop::model::{SourceTable, key, key_fn, key_list, enabled_positions, enabled_tables};
use crate::headers::{texts, keys, first_key_index, first_key_position, contains_text};
use crate::workbench::scan::distinct;

verus! {

broadcast use vstd::seq_lib::group_seq_properties;

/// The headers of the enabled tables, table after table.
pub open spec fn enabled_headers(ts: Seq<SourceTable>) -> Seq<Seq<char>>
    decreases ts.len(),
{
    if ts.len() == 0 {
        Seq::empty()
    } else {
        enabled_headers(ts.drop_last()) + if ts.last().enabled {
            texts(ts.last().headers@)
        } else {
            Seq::empty()
        }
    }
}

/// How many of `v` equal `x`.
pub open spec fn text_count(v: Seq<Seq<char>>, x: Seq<char>) -> nat
    decreases v.len(),
{
    if v.len() == 0 {
        0
    } else {
        text_count(v.drop_last(), x) + if v.last() == x {
            1nat
        } else {
            0nat
        }
    }
}

/// For each of the keys `ks` that at least two of `hs` have, the first of `hs` with it.
pub open spec fn frequent(hs: Seq<Seq<char>>, ks: Seq<Seq<char>>) -> Seq<Seq<char>>
    decreases ks.len(),
{
    if ks.len() == 0 {
        Seq::empty()
    } else {
        frequent(hs, ks.drop_last()) + if text_count(keys(hs, key_fn()), ks.last()) >= 2 {
            seq![hs[first_key_index(hs, key_fn(), ks.last())]]
        } else {
            Seq::empty()
        }
    }
}

/// The names mappings may be pointed at: for every header key that at least two headers of
/// the enabled tables have, the first such header, in order of first appearance.
pub open spec fn candidates_of(tables: Seq<SourceTable>) -> Seq<Seq<char>> {
    let hs = enabled_headers(tables);
    frequent(hs, distinct(keys(hs, key_fn())))
}

/// The headers of `hs` whose key no name of `names` has, in order.
pub open spec fn unmatched(hs: Seq<Seq<char>>, names: Seq<Seq<char>>) -> Seq<Seq<char>>
    decreases hs.len(),
{
    if hs.len() == 0 {
        Seq::empty()
    } else {
        unmatched(hs.drop_last(), names) + if keys(names, key_fn()).contains(key(hs.last())) {
            Seq::empty()
        } else {
            seq![hs.last()]
        }
    }
}

/// The headers of the enabled tables, table after table.
pub fn enabled_header_list(tables: &[SourceTable]) -> (r: Vec<String>)
    ensures
        texts(r@) == enabled_headers(tables@),
{
    let mut out: Vec<String> = Vec::new();
    let mut t: usize = 0;
    while t < tables.len()
        invariant
            t <= tables@.len(),
            texts(out@) == enabled_headers(tables@.take(t as int)),
        decreases tables@.len() - t,
    {
        let ghost before = texts(out@);
        proof {
            assert(tables@.take(t + 1).drop_last() =~= tables@.take(t as int));
            assert(tables@.take(t + 1).last() == tables@[t as int]);
        }
        if tables[t].enabled {
            let hs = &tables[t].headers;
            let mut h: usize = 0;
            while h < hs.len()
                invariant
                    h <= hs@.len(),
                    texts(out@) == before + texts(hs@).take(h as int),
                decreases hs@.len() - h,
            {
                let ghost prev = out@;
                out.push(hs[h].clone());
                proof {
                    assert(texts(out@) =~= texts(prev).push(hs@[h as int]@));
                    assert(texts(hs@).take(h + 1) =~= texts(hs@).take(h as int).push(hs@[h as int]@));
                    assert(texts(out@) =~= before + texts(hs@).take(h + 1));
                }
                h = h + 1;
            }
            proof {
                assert(texts(hs@).take(h as int) =~= texts(hs@));
            }
        } else {
            proof {
                assert(texts(out@) =~= before + Seq::<Seq<char>>::empty());
            }
        }
        t = t + 1;
    }
    proof {
        assert(tables@.take(t as int) =~= tables@);
    }
    out
}

/// How many of `v` equal `x`.
fn count_text(v: &Vec<String>, x: &String) -> (r: usize)
    ensures
        r == text_count(texts(v@), x@),
{
    let mut n: usize = 0;
    let mut i: usize = 0;
    while i < v.len()
        invariant
            i <= v@.len(),
            n <= i,
            n == text_count(texts(v@).take(i as int), x@),
        decreases v@.len() - i,
    {
        proof {
            assert(texts(v@).take(i + 1).drop_last() =~= texts(v@).take(i as int));
        }
        if v[i] == *x {
            n = n + 1;
        }
        i = i + 1;
    }
    proof {
        assert(texts(v@).take(i as int) =~= texts(v@));
    }
    n
}

/// The values of `v`, each once, in order of first occurrence.
fn distinct_texts(v: &Vec<String>) -> (r: Vec<String>)
    ensures
        texts(r@) == distinct(texts(v@)),
{
    let mut out: Vec<String> = Vec::new();
    let mut i: usize = 0;
    while i < v.len()
        invariant
            i <= v@.len(),
            texts(out@) == distinct(texts(v@).take(i as int)),
        decreases v@.len() - i,
    {
        proof {
            assert(texts(v@).take(i + 1).drop_last() =~= texts(v@).take(i as int));
            assert(texts(v@).take(i + 1).last() == v@[i as int]@);
        }
        if !contains_text(&out, &v[i]) {
            out.push(v[i].clone());
            proof {
                assert(texts(out@) =~= distinct(texts(v@).take(i as int)).push(v@[i as int]@));
            }
        }
        i = i + 1;
    }
    proof {
        assert(texts(v@).take(i as int) =~= texts(v@));
    }
    out
}

/// Every value of `distinct(v)` is one of `v`.
proof fn lemma_distinct_members(v: Seq<Seq<char>>, x: Seq<char>)
    ensures
        distinct(v).contains(x) ==> v.contains(x),
    decreases v.len(),
{
    if v.len() > 0 {
        lemma_distinct_members(v.drop_last(), x);
        if distinct(v.drop_last()).contains(x) {
            let j = choose|j: int| 0 <= j < v.drop_last().len() && v.drop_last()[j] == x;
            assert(v[j] == x);
        }
        if distinct(v).contains(x) && !distinct(v.drop_last()).contains(x) {
            assert(v[v.len() - 1] == x);
        }
    }
}

/// The names mappings may be pointed at: for every header key that at least two headers of
/// the enabled tables have, the first such header, in order of first appearance.
pub fn suggestion_candidates(tables: &[SourceTable]) -> (r: Vec<String>)
    ensures
        texts(r@) == candidates_of(tables@),
{
    let hs = enabled_header_list(tables);
    let ks = key_list(&hs);
    let dk = distinct_texts(&ks);
    let ghost hv = texts(hs@);
    let mut out: Vec<String> = Vec::new();
    let mut i: usize = 0;
    while i < dk.len()
        invariant
            i <= dk@.len(),
            hv == texts(hs@),
            hv == enabled_headers(tables@),
            texts(ks@) == keys(hv, key_fn()),
            ks@.len() == hv.len(),
            texts(dk@) == distinct(keys(hv, key_fn())),
            texts(out@) == frequent(hv, texts(dk@).take(i as int)),
        decreases dk@.len() - i,
    {
        proof {
            assert(texts(dk@).take(i + 1).drop_last() =~= texts(dk@).take(i as int));
            assert(texts(dk@).take(i + 1).last() == dk@[i as int]@);
        }
        let count = count_text(&ks, &dk[i]);
        if count >= 2 {
            proof {
                assert forall|q: int| 0 <= q < hv.len() implies #[trigger] ks@[q]@ == key_fn()(hv[q]) by {
                    assert(texts(ks@)[q] == ks@[q]@);
                }
                lemma_distinct_members(keys(hv, key_fn()), dk@[i as int]@);
                assert(texts(dk@)[i as int] == dk@[i as int]@);
                let j = choose|j: int| 0 <= j < keys(hv, key_fn()).len() && keys(hv, key_fn())[j] == dk@[i as int]@;
                crate::headers::lemma_first_key_index(hv, key_fn(), dk@[i as int]@);
                assert(key_fn()(hv[j]) == dk@[i as int]@);
            }
            match first_key_position(&ks, &dk[i], Ghost(hv), Ghost(key_fn())) {
                Some(p) => {
                    let ghost prev = texts(out@);
                    out.push(hs[p].clone());
                    proof {
                        assert(texts(out@) =~= prev.push(hv[p as int]));
                    }
                },
                None => {},
            }
        }
        proof {
            assert(texts(out@) =~= frequent(hv, texts(dk@).take(i + 1)));
        }
        i = i + 1;
    }
    proof {
        assert(texts(dk@).take(i as int) =~= texts(dk@));
    }
    out
}

/// The headers of the enabled tables whose key matches no candidate, in order: those that a
/// mapping suggestion is looked for.
pub fn unmatched_headers(tables: &[SourceTable], candidates: &Vec<String>) -> (r: Vec<String>)
    ensures
        texts(r@) == unmatched(enabled_headers(tables@), texts(candidates@)),
{
    let hs = enabled_header_list(tables);
    let ck = key_list(candidates);
    let ghost hv = texts(hs@);
    let mut out: Vec<String> = Vec::new();
    let mut i: usize = 0;
    while i < hs.len()
        invariant
            i <= hs@.len(),
            hv == texts(hs@),
            hv == enabled_headers(tables@),
            texts(ck@) == keys(texts(candidates@), key_fn()),
            texts(out@) == unmatched(hv.take(i as int), texts(candidates@)),
        decreases hs@.len() - i,
    {
        proof {
            assert(hv.take(i + 1).drop_last() =~= hv.take(i as int));
            assert(hv.take(i + 1).last() == hs@[i as int]@);
        }
        let k = crate::desktop::model::header_key(hs[i].as_str());
        if !contains_text(&ck, &k) {
            let ghost prev = texts(out@);
            out.push(hs[i].clone());
            proof {
                assert(texts(out@) =~= prev.push(hs@[i as int]@));
            }
        }
        i = i + 1;
    }
    proof {
        assert(hv.take(i as int) =~= hv);
    }
    out
}

} // verus!
