//! The messages that the scanning and merging workers send to the window.
use vstd::prelude::*;
use crate::desktop::model::SourceTable;
use crate::engine::inspect::CheckIssue;
use crate::text::join_strings;
use crate::text::joined;
use crate::text::lower;
use crate::engine::order::{key_order, sorted_positions, lemma_key_order_permutes, text_leq, pair_leq, pair_order};
use crate::headers::texts;

verus! {

/// What a scan reports.
#[derive(Debug)]
#[allow(inconsistent_fields)]
pub enum ScanEvent {
    Progress { done: usize, total: usize, name: String },
    Finished { tables: Vec<SourceTable>, warnings: Vec<String> },
    TableReloaded { index: usize, table: SourceTable },
    TablesReloaded { tables: Vec<(usize, SourceTable)> },
    TableReloadFailed { index: usize, message: String },
    Failed(String),
}

/// What a merge reports.
#[derive(Debug)]
pub enum MergeEvent {
    Progress { current: u64, total: u64, label: String },
    Preflight { issues: Vec<CheckIssue> },
    Finished { output: String, rows: u64, sheets: usize },
    Cancelled,
    Failed(String),
}

/// How a scan ends: it failed where no table was found and some file could not be read (the
/// messages one per line); otherwise it finished with the tables and warnings found.
pub fn scan_outcome(tables: Vec<SourceTable>, warnings: Vec<String>) -> (r: ScanEvent)
    ensures
        tables@.len() == 0 && warnings@.len() > 0 ==> (r matches ScanEvent::Failed(m) && m@ == joined(
            warnings@.map_values(|w: String| w@),
            "\n"@,
        )),
        !(tables@.len() == 0 && warnings@.len() > 0) ==> (r matches ScanEvent::Finished { tables: t, warnings: w }
            && t == tables && w == warnings),
{
    if tables.len() == 0 && warnings.len() > 0 {
        ScanEvent::Failed(join_strings(warnings.as_slice(), "\n"))
    } else {
        ScanEvent::Finished { tables, warnings }
    }
}

/// What the release check reports: the latest release's version and page, or why it could
/// not be read.
#[derive(Debug)]
pub enum UpdateEvent {
    Result { version: String, url: String },
    Failed(String),
}

/// The lowercased sheet names of `ts`.
pub open spec fn sheet_keys(ts: Seq<SourceTable>) -> Seq<Seq<char>> {
    ts.map_values(|t: SourceTable| lower(t.sheet_name@))
}

/// The positions of `ts` ordered by lowercased sheet name, equal names by position.
pub open spec fn by_sheet(ts: Seq<SourceTable>) -> Seq<usize> {
    key_order(sheet_keys(ts)).map_values(|p: (Seq<char>, usize)| p.1)
}

/// The lowercased paths of the tables of `ts` at the positions `o`.
pub open spec fn path_keys_at(ts: Seq<SourceTable>, o: Seq<usize>) -> Seq<Seq<char>> {
    o.map_values(|i: usize| lower(ts[i as int].path@))
}

/// The positions of `ts` ordered by lowercased path, then lowercased sheet name, then
/// position: a stable sort by sheet name, then a stable sort by path.
pub open spec fn scan_order(ts: Seq<SourceTable>) -> Seq<usize> {
    let o1 = by_sheet(ts);
    key_order(path_keys_at(ts, o1)).map_values(|p: (Seq<char>, usize)| o1[p.1 as int])
}

/// The order of a finished scan: the tables by lowercased path, then lowercased sheet name
/// (tables that tie keep their order), and the warnings sorted.
pub fn finish_scan(tables: Vec<SourceTable>, warnings: Vec<String>) -> (r: (Vec<SourceTable>, Vec<String>))
    ensures
        r.0@.len() == tables@.len(),
        forall|m: int| 0 <= m < tables@.len() ==> #[trigger] r.0@[m] == tables@[scan_order(tables@)[m] as int],
        texts(r.1@) == key_order(texts(warnings@)).map_values(|p: (Seq<char>, usize)| p.0),
{
    let ghost ts = tables@;
    let n = tables.len();
    let mut sk: Vec<String> = Vec::new();
    let mut i: usize = 0;
    while i < n
        invariant
            n == tables@.len(),
            ts == tables@,
            i <= n,
            texts(sk@) == sheet_keys(ts).take(i as int),
        decreases n - i,
    {
        let ghost prev = sk@;
        sk.push(crate::text::to_lowercase(tables[i].sheet_name.as_str()));
        proof {
            assert(texts(sk@) =~= texts(prev).push(lower(ts[i as int].sheet_name@)));
            assert(sheet_keys(ts).take(i + 1) =~= sheet_keys(ts).take(i as int).push(lower(ts[i as int].sheet_name@)));
        }
        i = i + 1;
    }
    proof {
        assert(sheet_keys(ts).take(n as int) =~= sheet_keys(ts));
        lemma_key_order_permutes(sheet_keys(ts));
    }
    let o1 = sorted_positions(&sk);
    proof {
        assert(o1@ =~= by_sheet(ts));
    }
    let mut pk: Vec<String> = Vec::new();
    let mut k: usize = 0;
    while k < n
        invariant
            n == tables@.len(),
            ts == tables@,
            o1@ == by_sheet(ts),
            o1@.len() == n,
            forall|q: int| 0 <= q < n ==> #[trigger] o1@[q] < n,
            k <= n,
            texts(pk@) == path_keys_at(ts, o1@).take(k as int),
        decreases n - k,
    {
        let ghost prev = pk@;
        pk.push(crate::text::to_lowercase(tables[o1[k]].path.as_str()));
        proof {
            assert(texts(pk@) =~= texts(prev).push(lower(ts[o1@[k as int] as int].path@)));
            assert(path_keys_at(ts, o1@).take(k + 1) =~= path_keys_at(ts, o1@).take(k as int).push(
                lower(ts[o1@[k as int] as int].path@),
            ));
        }
        k = k + 1;
    }
    proof {
        assert(path_keys_at(ts, o1@).take(n as int) =~= path_keys_at(ts, o1@));
        lemma_key_order_permutes(path_keys_at(ts, o1@));
    }
    let o2 = sorted_positions(&pk);
    let ghost order = scan_order(ts);
    proof {
        assert(order.len() == n);
        assert forall|m: int| 0 <= m < n implies #[trigger] order[m] == o1@[o2@[m] as int] && order[m] < n by {}
        // the order holds each position once
        assert forall|a: int, b: int| 0 <= a < n && 0 <= b < n && a != b implies #[trigger] order[a] != #[trigger] order[b] by {
            let ko = key_order(path_keys_at(ts, o1@));
            assert(ko[a].1 != ko[b].1);
            let ks = key_order(sheet_keys(ts));
            assert(ks[ko[a].1 as int].1 != ks[ko[b].1 as int].1);
        }
    }
    let mut slots: Vec<Option<SourceTable>> = Vec::new();
    let mut rest = tables;
    let mut j: usize = 0;
    proof {
        assert(ts.skip(0) =~= ts);
    }
    while rest.len() > 0
        invariant
            j <= n,
            ts.len() == n,
            rest@ == ts.skip(j as int),
            slots@.len() == j,
            forall|q: int| 0 <= q < j ==> #[trigger] slots@[q] == Some(ts[q]),
        decreases rest@.len(),
    {
        let t = rest.remove(0);
        slots.push(Some(t));
        proof {
            assert(ts.skip(j + 1) =~= ts.skip(j as int).drop_first());
        }
        j = j + 1;
    }
    let mut out: Vec<SourceTable> = Vec::new();
    let mut m: usize = 0;
    while m < n
        invariant
            ts.len() == n,
            order.len() == n,
            forall|q: int| 0 <= q < n ==> #[trigger] order[q] == o1@[o2@[q] as int] && order[q] < n,
            forall|a: int, b: int| 0 <= a < n && 0 <= b < n && a != b ==> #[trigger] order[a] != #[trigger] order[b],
            o1@.len() == n,
            o2@.len() == n,
            forall|q: int| 0 <= q < n ==> #[trigger] o2@[q] < n,
            m <= n,
            slots@.len() == n,
            out@.len() == m,
            forall|q: int| 0 <= q < m ==> #[trigger] out@[q] == ts[order[q] as int],
            forall|q: int|
                0 <= q < n ==> #[trigger] slots@[q] == (if exists|c: int| 0 <= c < m && order[c] == q {
                    None
                } else {
                    Some(ts[q])
                }),
        decreases n - m,
    {
        let idx = o1[o2[m]];
        proof {
            assert(order[m as int] == idx);
            if exists|c: int| 0 <= c < m && order[c] == idx as int {
                let c = choose|c: int| 0 <= c < m && order[c] == idx as int;
                assert(order[c] != order[m as int]);
            }
        }
        let mut taken: Option<SourceTable> = None;
        slots.set_and_swap(idx, &mut taken);
        match taken {
            Some(t) => {
                out.push(t);
            },
            None => {
                proof {
                    assert(false);
                }
            },
        }
        proof {
            assert forall|q: int| 0 <= q < n implies #[trigger] slots@[q] == (if exists|c: int| 0 <= c < m + 1 && order[c] == q {
                None
            } else {
                Some(ts[q])
            }) by {
                if q == idx {
                    assert(order[m as int] == q);
                } else {
                    if exists|c: int| 0 <= c < m + 1 && order[c] == q {
                        let c = choose|c: int| 0 <= c < m + 1 && order[c] == q;
                        assert(c != m);
                    }
                }
            }
        }
        m = m + 1;
    }
    let wo = sorted_positions(&warnings);
    let wn = warnings.len();
    proof {
        assert(texts(warnings@).len() == wn);
        lemma_key_order_permutes(texts(warnings@));
    }
    let mut sorted_warnings: Vec<String> = Vec::new();
    let mut w: usize = 0;
    while w < wo.len()
        invariant
            wo@.len() == warnings@.len(),
            forall|q: int| 0 <= q < wo@.len() ==> #[trigger] wo@[q] == key_order(texts(warnings@))[q].1,
            forall|q: int| 0 <= q < wo@.len() ==> #[trigger] wo@[q] < warnings@.len(),
            forall|q: int|
                0 <= q < warnings@.len() ==> (#[trigger] key_order(texts(warnings@))[q]).0 == texts(
                    warnings@,
                )[key_order(texts(warnings@))[q].1 as int],
            key_order(texts(warnings@)).len() == warnings@.len(),
            w <= wo@.len(),
            texts(sorted_warnings@) == key_order(texts(warnings@)).map_values(|p: (Seq<char>, usize)| p.0).take(
                w as int,
            ),
        decreases wo@.len() - w,
    {
        let ghost prev = sorted_warnings@;
        sorted_warnings.push(warnings[wo[w]].clone());
        proof {
            let ko = key_order(texts(warnings@));
            assert(texts(sorted_warnings@) =~= texts(prev).push(warnings@[wo@[w as int] as int]@));
            assert(ko[w as int].0 == texts(warnings@)[wo@[w as int] as int]);
            assert(ko.map_values(|p: (Seq<char>, usize)| p.0).take(w + 1) =~= ko.map_values(
                |p: (Seq<char>, usize)| p.0,
            ).take(w as int).push(ko[w as int].0));
        }
        w = w + 1;
    }
    proof {
        let ko = key_order(texts(warnings@));
        assert(ko.map_values(|p: (Seq<char>, usize)| p.0).take(w as int) =~= ko.map_values(|p: (Seq<char>, usize)| p.0));
    }
    (out, sorted_warnings)
}

/// A finished scan lists each table once, by lowercased path and, for equal paths, by
/// lowercased sheet name.
pub proof fn lemma_scan_order_sorted(ts: Seq<SourceTable>, a: int, b: int)
    requires
        ts.len() <= usize::MAX,
        0 <= a < b < ts.len(),
    ensures
        scan_order(ts).len() == ts.len(),
        scan_order(ts)[a] < ts.len() && scan_order(ts)[b] < ts.len(),
        scan_order(ts)[a] != scan_order(ts)[b],
        text_leq(lower(ts[scan_order(ts)[a] as int].path@), lower(ts[scan_order(ts)[b] as int].path@)),
        lower(ts[scan_order(ts)[a] as int].path@) == lower(ts[scan_order(ts)[b] as int].path@) ==> text_leq(
            lower(ts[scan_order(ts)[a] as int].sheet_name@),
            lower(ts[scan_order(ts)[b] as int].sheet_name@),
        ),
{
    let sk = sheet_keys(ts);
    lemma_key_order_permutes(sk);
    let ks = key_order(sk);
    let o1 = by_sheet(ts);
    let pk = path_keys_at(ts, o1);
    lemma_key_order_permutes(pk);
    let ko = key_order(pk);
    let o = scan_order(ts);
    assert(o[a] == o1[ko[a].1 as int] && o[b] == o1[ko[b].1 as int]);
    assert(o1[ko[a].1 as int] == ks[ko[a].1 as int].1);
    assert(o1[ko[b].1 as int] == ks[ko[b].1 as int].1);
    assert(ko[a].1 != ko[b].1);
    crate::engine::order::lemma_key_order_ascending(pk, a, b);
    assert(pk[ko[a].1 as int] == lower(ts[o[a] as int].path@));
    assert(pk[ko[b].1 as int] == lower(ts[o[b] as int].path@));
    if lower(ts[o[a] as int].path@) == lower(ts[o[b] as int].path@) {
        let unsorted = Seq::new(pk.len(), |i: int| (pk[i], i as usize));
        crate::engine::order::lemma_pair_order_total();
        unsorted.lemma_sort_by_ensures(pair_order());
        assert(pair_order()(ko[a], ko[b]));
        assert(pair_leq(ko[a], ko[b]));
        let i = ko[a].1 as int;
        let j = ko[b].1 as int;
        assert(i < j);
        crate::engine::order::lemma_key_order_ascending(sk, i, j);
        assert(sk[ks[i].1 as int] == lower(ts[ks[i].1 as int].sheet_name@));
        assert(sk[ks[j].1 as int] == lower(ts[ks[j].1 as int].sheet_name@));
    }
}

} // verus!
