//! What holds of the output columns that a workbench merge plans: no two share a key.
use vstd::prelude::*;
use crate::workbench::model::{
    MergeMode, MergeOptions, SourceTable, add_target, add_targets, enabled_tables, in_all_others,
    keep_common, key, key_fn, lemma_keep_common_members, manual_headers, meta_cand, meta_name,
    mode_headers, planned_headers, source_file_label, source_sheet_label, with_file_column,
    with_source_columns,
};
use crate::headers::{distinct_by, has_key, keys, lemma_first_fresh, lemma_reorder_distinct, texts};

verus! {

broadcast use vstd::seq_lib::group_seq_properties;

/// Adding a target where it is non-empty and its key is new keeps keys apart.
proof fn lemma_add_target_distinct(acc: Seq<Seq<char>>, t: Seq<char>)
    requires
        distinct_by(acc, key_fn()),
    ensures
        distinct_by(add_target(acc, t), key_fn()),
{
    if t.len() > 0 && !has_key(acc, key_fn(), key(t)) {
        let w = acc.push(t);
        assert forall|i: int, j: int| 0 <= i < j < w.len() implies key_fn()(#[trigger] w[i]) != key_fn()(
            #[trigger] w[j],
        ) by {
            if j == acc.len() {
                assert(keys(acc, key_fn())[i] == key_fn()(acc[i]));
            } else {
                assert(w[i] == acc[i] && w[j] == acc[j]);
            }
        }
    }
}

/// Adding the targets of mappings keeps keys apart.
proof fn lemma_add_targets_distinct(acc: Seq<Seq<char>>, ms: Seq<crate::workbench::model::ColumnMapping>)
    requires
        distinct_by(acc, key_fn()),
    ensures
        distinct_by(add_targets(acc, ms), key_fn()),
    decreases ms.len(),
{
    if ms.len() > 0 {
        lemma_add_targets_distinct(acc, ms.drop_last());
        if ms.last().enabled {
            lemma_add_target_distinct(add_targets(acc, ms.drop_last()), crate::text::trim(ms.last().target_name@));
        }
    }
}

/// The manual columns have distinct keys.
proof fn lemma_manual_distinct(ts: Seq<SourceTable>)
    ensures
        distinct_by(manual_headers(ts), key_fn()),
    decreases ts.len(),
{
    if ts.len() > 0 {
        lemma_manual_distinct(ts.drop_last());
        lemma_add_targets_distinct(manual_headers(ts.drop_last()), ts.last().mappings@);
    }
}

/// Keeping the shared headers of headers with distinct keys keeps keys apart.
proof fn lemma_keep_common_distinct(hs: Seq<Seq<char>>, ts: Seq<SourceTable>)
    requires
        distinct_by(hs, key_fn()),
    ensures
        distinct_by(keep_common(hs, ts), key_fn()),
    decreases hs.len(),
{
    if hs.len() > 0 {
        let d = hs.drop_last();
        assert(distinct_by(d, key_fn())) by {
            assert forall|i: int, j: int| 0 <= i < j < d.len() implies key_fn()(#[trigger] d[i]) != key_fn()(
                #[trigger] d[j],
            ) by {
                assert(d[i] == hs[i] && d[j] == hs[j]);
            }
        }
        lemma_keep_common_distinct(d, ts);
        let p = keep_common(d, ts);
        let w = keep_common(hs, ts);
        if in_all_others(ts, key(hs.last())) {
            assert forall|i: int, j: int| 0 <= i < j < w.len() implies key_fn()(#[trigger] w[i]) != key_fn()(
                #[trigger] w[j],
            ) by {
                if j < p.len() {
                    assert(w[i] == p[i] && w[j] == p[j]);
                } else {
                    assert(w[i] == p[i]);
                    assert(w[j] == hs.last());
                    lemma_keep_common_members(d, ts, key(p[i]));
                    let k = choose|k: int| 0 <= k < d.len() && #[trigger] key(d[k]) == key(p[i]);
                    assert(d[k] == hs[k]);
                    assert(hs[hs.len() - 1] == hs.last());
                    assert(key_fn()(hs[k]) != key_fn()(hs[hs.len() - 1]));
                }
            }
        }
    }
}

/// The columns of the merge mode have distinct keys; in intersection mode, given that the
/// first enabled table's headers do.
proof fn lemma_mode_headers_distinct(tables: Seq<SourceTable>, mode: MergeMode)
    requires
        mode == MergeMode::Intersection && enabled_tables(tables).len() > 0 ==> distinct_by(
            texts(enabled_tables(tables)[0].headers@),
            key_fn(),
        ),
    ensures
        distinct_by(mode_headers(tables, mode), key_fn()),
{
    let ts = enabled_tables(tables);
    match mode {
        MergeMode::Intersection => {
            if ts.len() > 0 {
                lemma_keep_common_distinct(texts(ts[0].headers@), ts);
            }
        },
        MergeMode::Manual => {
            lemma_manual_distinct(ts);
        },
    }
}

/// A source column named next to columns `h`: its key is new unless the search for a free
/// name ran out at `u64::MAX`.
proof fn lemma_meta_name_fresh(h: Seq<Seq<char>>, base: Seq<char>)
    ensures
        !keys(h, key_fn()).contains(key(meta_name(h, base))) || meta_name(h, base) == meta_cand(base)(
            u64::MAX as nat,
        ),
{
    lemma_first_fresh(keys(h, key_fn()), key_fn(), meta_cand(base), 1);
    let t = choose|t: nat|
        1 <= t && crate::headers::first_fresh(keys(h, key_fn()), key_fn(), meta_cand(base), 1)
            == #[trigger] meta_cand(base)(t) && (!keys(h, key_fn()).contains(key_fn()(meta_cand(base)(t)))
            || t >= u64::MAX) && (1 <= u64::MAX ==> t <= u64::MAX);
    assert(meta_name(h, base) == meta_cand(base)(t));
    if t >= u64::MAX {
        assert(t == u64::MAX);
    }
}

/// Appending a column under a fresh name keeps keys apart.
proof fn lemma_push_fresh_distinct(h: Seq<Seq<char>>, base: Seq<char>)
    requires
        distinct_by(h, key_fn()),
        meta_name(h, base) != meta_cand(base)(u64::MAX as nat),
    ensures
        distinct_by(h.push(meta_name(h, base)), key_fn()),
{
    lemma_meta_name_fresh(h, base);
    let w = h.push(meta_name(h, base));
    assert forall|i: int, j: int| 0 <= i < j < w.len() implies key_fn()(#[trigger] w[i]) != key_fn()(
        #[trigger] w[j],
    ) by {
        if j < h.len() {
            assert(w[i] == h[i] && w[j] == h[j]);
        } else {
            assert(w[i] == h[i]);
            assert(keys(h, key_fn())[i] == key(h[i]));
        }
    }
}

/// No two output columns of a workbench merge share a key, where the source file and sheet
/// columns found a free name before `u64::MAX`. In intersection mode this rests on the first
/// enabled table's headers having distinct keys, as normalized headers do.
pub proof fn lemma_planned_headers_distinct(tables: Seq<SourceTable>, options: MergeOptions)
    requires
        options.mode == MergeMode::Intersection && enabled_tables(tables).len() > 0 ==> distinct_by(
            texts(enabled_tables(tables)[0].headers@),
            key_fn(),
        ),
        options.include_source_file ==> meta_name(mode_headers(tables, options.mode), source_file_label())
            != meta_cand(source_file_label())(u64::MAX as nat),
        options.include_source_sheet ==> meta_name(with_file_column(tables, options), source_sheet_label())
            != meta_cand(source_sheet_label())(u64::MAX as nat),
    ensures
        distinct_by(planned_headers(tables, options), key_fn()),
{
    lemma_mode_headers_distinct(tables, options.mode);
    let h = mode_headers(tables, options.mode);
    if options.include_source_file {
        lemma_push_fresh_distinct(h, source_file_label());
    }
    let f = with_file_column(tables, options);
    assert(distinct_by(f, key_fn()));
    if options.include_source_sheet {
        lemma_push_fresh_distinct(f, source_sheet_label());
    }
    assert(distinct_by(with_source_columns(tables, options), key_fn()));
    lemma_reorder_distinct(with_source_columns(tables, options), key_fn(), keys(texts(options.output_order@), key_fn()));
}

} // verus!
