//! What holds of the output columns that a merge plans: no two share a key.
use vstd::prelude::*;
use crate::desktop::model::{
    MergeMode, MergeOptions, SourceTable, add_header, add_headers, add_target, add_targets,
    enabled_tables, in_all_others, intersection_headers, keep_common, key, key_fn,
    lemma_keep_common_members, manual_headers, meta_cand, meta_name, mode_headers,
    ordered_headers, planned_headers, source_file_label, source_sheet_label, union_headers,
    with_file_column,
};
use crate::headers::{distinct_by, has_key, keys, lemma_first_fresh, lemma_reorder_distinct, texts};

verus! {

broadcast use vstd::seq_lib::group_seq_properties;

/// Adding `h` where its key is new keeps keys apart.
proof fn lemma_add_header_distinct(acc: Seq<Seq<char>>, h: Seq<char>)
    requires
        distinct_by(acc, key_fn()),
    ensures
        distinct_by(add_header(acc, h), key_fn()),
{
    if !has_key(acc, key_fn(), key(h)) {
        let w = acc.push(h);
        assert forall|i: int, j: int| 0 <= i < j < w.len() implies key_fn()(#[trigger] w[i]) != key_fn()(
            #[trigger] w[j],
        ) by {
            if j == acc.len() {
                assert(keys(acc, key_fn())[i] == key_fn()(acc[i]));
            } else {
                assert(w[i] == acc[i] && w[j] == acc[j]);
            }
        }
    }
}

/// Adding headers each where its key is new keeps keys apart.
proof fn lemma_add_headers_distinct(acc: Seq<Seq<char>>, hs: Seq<Seq<char>>)
    requires
        distinct_by(acc, key_fn()),
    ensures
        distinct_by(add_headers(acc, hs), key_fn()),
    decreases hs.len(),
{
    if hs.len() > 0 {
        lemma_add_headers_distinct(acc, hs.drop_last());
        lemma_add_header_distinct(add_headers(acc, hs.drop_last()), hs.last());
    }
}

/// The union columns have distinct keys.
proof fn lemma_union_distinct(ts: Seq<SourceTable>)
    ensures
        distinct_by(union_headers(ts), key_fn()),
    decreases ts.len(),
{
    if ts.len() > 0 {
        lemma_union_distinct(ts.drop_last());
        lemma_add_headers_distinct(union_headers(ts.drop_last()), texts(ts.last().headers@));
    }
}

/// Adding a target where it is non-empty and its key is new keeps keys apart.
proof fn lemma_add_target_distinct(acc: Seq<Seq<char>>, t: Seq<char>)
    requires
        distinct_by(acc, key_fn()),
    ensures
        distinct_by(add_target(acc, t), key_fn()),
{
    if t.len() > 0 && !has_key(acc, key_fn(), key(t)) {
        let w = acc.push(t);
        assert forall|i: int, j: int| 0 <= i < j < w.len() implies key_fn()(#[trigger] w[i]) != key_fn()(
            #[trigger] w[j],
        ) by {
            if j == acc.len() {
                assert(keys(acc, key_fn())[i] == key_fn()(acc[i]));
            } else {
                assert(w[i] == acc[i] && w[j] == acc[j]);
            }
        }
    }
}

/// Adding the targets of mappings keeps keys apart.
proof fn lemma_add_targets_distinct(acc: Seq<Seq<char>>, ms: Seq<crate::desktop::model::ColumnMapping>)
    requires
        distinct_by(acc, key_fn()),
    ensures
        distinct_by(add_targets(acc, ms), key_fn()),
    decreases ms.len(),
{
    if ms.len() > 0 {
        lemma_add_targets_distinct(acc, ms.drop_last());
        if ms.last().enabled {
            lemma_add_target_distinct(add_targets(acc, ms.drop_last()), crate::text::trim(ms.last().target_name@));
        }
    }
}

/// The manual columns have distinct keys.
proof fn lemma_manual_distinct(ts: Seq<SourceTable>)
    ensures
        distinct_by(manual_headers(ts), key_fn()),
    decreases ts.len(),
{
    if ts.len() > 0 {
        lemma_manual_distinct(ts.drop_last());
        lemma_add_targets_distinct(manual_headers(ts.drop_last()), ts.last().mappings@);
    }
}

/// Keeping the shared headers of headers with distinct keys keeps keys apart.
proof fn lemma_keep_common_distinct(hs: Seq<Seq<char>>, ts: Seq<SourceTable>)
    requires
        distinct_by(hs, key_fn()),
    ensures
        distinct_by(keep_common(hs, ts), key_fn()),
    decreases hs.len(),
{
    if hs.len() > 0 {
        let d = hs.drop_last();
        assert(distinct_by(d, key_fn())) by {
            assert forall|i: int, j: int| 0 <= i < j < d.len() implies key_fn()(#[trigger] d[i]) != key_fn()(
                #[trigger] d[j],
            ) by {
                assert(d[i] == hs[i] && d[j] == hs[j]);
            }
        }
        lemma_keep_common_distinct(d, ts);
        let p = keep_common(d, ts);
        let w = keep_common(hs, ts);
        if in_all_others(ts, key(hs.last())) {
            assert forall|i: int, j: int| 0 <= i < j < w.len() implies key_fn()(#[trigger] w[i]) != key_fn()(
                #[trigger] w[j],
            ) by {
                if j < p.len() {
                    assert(w[i] == p[i] && w[j] == p[j]);
                } else {
                    assert(w[i] == p[i]);
                    assert(w[j] == hs.last());
                    lemma_keep_common_members(d, ts, key(p[i]));
                    let k = choose|k: int| 0 <= k < d.len() && #[trigger] key(d[k]) == key(p[i]);
                    assert(d[k] == hs[k]);
                    assert(hs[hs.len() - 1] == hs.last());
                    assert(key_fn()(hs[k]) != key_fn()(hs[hs.len() - 1]));
                }
            }
        }
    }
}

/// The columns of the merge mode have distinct keys; in intersection mode, given that the
/// first enabled table's headers do.
proof fn lemma_mode_headers_distinct(tables: Seq<SourceTable>, mode: MergeMode)
    requires
        mode == MergeMode::Intersection && enabled_tables(tables).len() > 0 ==> distinct_by(
            texts(enabled_tables(tables)[0].headers@),
            key_fn(),
        ),
    ensures
        distinct_by(mode_headers(tables, mode), key_fn()),
{
    let ts = enabled_tables(tables);
    match mode {
        MergeMode::Intersection => {
            if ts.len() > 0 {
                lemma_keep_common_distinct(texts(ts[0].headers@), ts);
            }
        },
        MergeMode::Manual => {
            lemma_manual_distinct(ts);
        },
        _ => {
            lemma_union_distinct(ts);
        },
    }
}

/// A source column named next to columns `h`: its key is new unless the search for a free
/// name ran out at `u64::MAX`.
proof fn lemma_meta_name_fresh(h: Seq<Seq<char>>, base: Seq<char>)
    ensures
        !keys(h, key_fn()).contains(key(meta_name(h, base))) || meta_name(h, base) == meta_cand(base)(
            u64::MAX as nat,
        ),
{
    lemma_first_fresh(keys(h, key_fn()), key_fn(), meta_cand(base), 1);
    let t = choose|t: nat|
        1 <= t && crate::headers::first_fresh(keys(h, key_fn()), key_fn(), meta_cand(base), 1)
            == #[trigger] meta_cand(base)(t) && (!keys(h, key_fn()).contains(key_fn()(meta_cand(base)(t)))
            || t >= u64::MAX) && (1 <= u64::MAX ==> t <= u64::MAX);
    assert(meta_name(h, base) == meta_cand(base)(t));
    if t >= u64::MAX {
        assert(t == u64::MAX);
    }
}

/// A column appended under a fresh name keeps keys apart.
proof fn lemma_push_meta_distinct(h: Seq<Seq<char>>, base: Seq<char>, i: int, j: int)
    requires
        distinct_by(h, key_fn()),
        0 <= i < j < h.len() + 1,
    ensures
        key(h.push(meta_name(h, base))[i]) != key(h.push(meta_name(h, base))[j]) || (j == h.len()
            && meta_name(h, base) == meta_cand(base)(u64::MAX as nat)),
{
    lemma_meta_name_fresh(h, base);
    let w = h.push(meta_name(h, base));
    if j < h.len() {
        assert(w[i] == h[i] && w[j] == h[j]);
        assert(key_fn()(h[i]) != key_fn()(h[j]));
    } else {
        assert(w[j] == meta_name(h, base));
        assert(w[i] == h[i]);
        assert(keys(h, key_fn())[i] == key(h[i]));
    }
}

/// No two output columns of a merge share a key, unless the search for a free name for a
/// source file or sheet column ran out at `u64::MAX`. In intersection mode this rests on the
/// first enabled table's headers having distinct keys, as normalized headers do.
pub proof fn lemma_planned_headers_distinct(tables: Seq<SourceTable>, options: MergeOptions, i: int, j: int)
    requires
        options.mode == MergeMode::Intersection && enabled_tables(tables).len() > 0 ==> distinct_by(
            texts(enabled_tables(tables)[0].headers@),
            key_fn(),
        ),
        0 <= i < j < planned_headers(tables, options).len(),
    ensures
        key(planned_headers(tables, options)[i]) != key(planned_headers(tables, options)[j])
            || planned_headers(tables, options)[j] == meta_cand(source_file_label())(u64::MAX as nat)
            || planned_headers(tables, options)[j] == meta_cand(source_sheet_label())(u64::MAX as nat),
{
    lemma_mode_headers_distinct(tables, options.mode);
    lemma_reorder_distinct(
        mode_headers(tables, options.mode),
        key_fn(),
        keys(texts(options.output_order@), key_fn()),
    );
    let h = ordered_headers(tables, options);
    assert(distinct_by(h, key_fn()));
    let f = with_file_column(tables, options);
    let p = planned_headers(tables, options);
    if options.include_source_file {
        if j < f.len() {
            lemma_push_meta_distinct(h, source_file_label(), i, j);
        }
    }
    if options.include_source_sheet {
        if j == f.len() {
            lemma_meta_name_fresh(f, source_sheet_label());
            assert(p[i] == f[i]);
            assert(keys(f, key_fn())[i] == key(f[i]));
        } else if options.include_source_file {
            assert(p[i] == f[i] && p[j] == f[j]);
            lemma_push_meta_distinct(h, source_file_label(), i, j);
        } else {
            assert(p[i] == h[i] && p[j] == h[j]);
            assert(key_fn()(h[i]) != key_fn()(h[j]));
        }
    } else if !options.include_source_file {
        assert(key_fn()(h[i]) != key_fn()(h[j]));
    }
}

} // verus!
