//! Previews and the checks made before a merge.
use vstd::prelude::*;
use crate::desktop::model::{
    MergeMode, MergeOptions, OutputPlan, SourceKind, SourceTable, enabled_tables, key, key_fn,
    header_key, planned_headers, build_output_plan, ordered_headers, with_file_column,
};
use crate::headers::{texts, keys};
use crate::text::{trim, lower, trim_str, to_lowercase, chars_of, string_of, push_str, owned, joined, join_strings, decimal, decimal_string};
use crate::workbench::scan::distinct;

verus! {

broadcast use vstd::seq_lib::group_seq_properties;

/// Rows of a table as text, under its headers.
#[derive(Clone, Debug)]
pub struct PreviewTable {
    pub headers: Vec<String>,
    pub rows: Vec<Vec<String>>,
}

/// How serious a finding is.
#[derive(Clone, Copy, Debug, PartialEq, Eq, Structural)]
pub enum IssueLevel {
    Info,
    Warning,
    Error,
}

/// One finding of the checks before a merge.
#[derive(Clone, Debug)]
pub struct CheckIssue {
    pub level: IssueLevel,
    pub title: String,
    pub detail: String,
}

/// A finding as texts.
pub struct IssueView {
    pub level: IssueLevel,
    pub title: Seq<char>,
    pub detail: Seq<char>,
}

/// The texts of findings.
pub open spec fn issue_views(v: Seq<CheckIssue>) -> Seq<IssueView> {
    v.map_values(|i: CheckIssue| IssueView { level: i.level, title: i.title@, detail: i.detail@ })
}

/// A finding.
pub fn issue(level: IssueLevel, title: &str, detail: &str) -> (r: CheckIssue)
    ensures
        r.level == level,
        r.title@ == title@,
        r.detail@ == detail@,
{
    CheckIssue { level, title: owned(title), detail: owned(detail) }
}

/// The output row of a preview: each pair copies its source value into its output column,
/// later pairs over earlier ones, then the file and sheet names go into their columns.
pub open spec fn preview_view(
    source: Seq<Seq<char>>,
    pairs: Seq<(usize, usize)>,
    width: nat,
    file: Option<(usize, Seq<char>)>,
    sheet: Option<(usize, Seq<char>)>,
) -> Seq<Seq<char>> {
    let base = copied(source, pairs, width);
    let with_file = match file {
        Some((i, f)) => base.update(i as int, f),
        None => base,
    };
    match sheet {
        Some((i, s)) => with_file.update(i as int, s),
        None => with_file,
    }
}

/// The cells that `pairs` copy from `source` into a row of `width` empty texts.
pub open spec fn copied(source: Seq<Seq<char>>, pairs: Seq<(usize, usize)>, width: nat) -> Seq<Seq<char>>
    decreases pairs.len(),
{
    if pairs.len() == 0 {
        Seq::new(width, |i: int| Seq::<char>::empty())
    } else {
        let prev = copied(source, pairs.drop_last(), width);
        let p = pairs.last();
        if p.0 < source.len() {
            prev.update(p.1 as int, source[p.0 as int])
        } else {
            prev
        }
    }
}

/// The widths stay the width of the plan.
pub proof fn lemma_copied_len(source: Seq<Seq<char>>, pairs: Seq<(usize, usize)>, width: nat)
    requires
        forall|k: int| 0 <= k < pairs.len() ==> (#[trigger] pairs[k]).1 < width,
    ensures
        copied(source, pairs, width).len() == width,
    decreases pairs.len(),
{
    if pairs.len() > 0 {
        lemma_copied_len(source, pairs.drop_last(), width);
    }
}

/// One row of the merged preview.
pub fn preview_row(
    source: &Vec<String>,
    pairs: &Vec<(usize, usize)>,
    plan: &OutputPlan,
    file: &String,
    sheet: &String,
) -> (r: Vec<String>)
    requires
        forall|k: int| 0 <= k < pairs@.len() ==> (#[trigger] pairs@[k]).1 < plan.headers@.len(),
        plan.source_file_column matches Some(i) ==> i < plan.headers@.len(),
        plan.source_sheet_column matches Some(i) ==> i < plan.headers@.len(),
    ensures
        texts(r@) == preview_view(
            texts(source@),
            pairs@,
            plan.headers@.len(),
            match plan.source_file_column {
                Some(i) => Some((i, file@)),
                None => None,
            },
            match plan.source_sheet_column {
                Some(i) => Some((i, sheet@)),
                None => None,
            },
        ),
{
    let width = plan.headers.len();
    let ghost src = texts(source@);
    let mut out: Vec<String> = Vec::new();
    let mut w: usize = 0;
    while w < width
        invariant
            w <= width,
            out@.len() == w,
            forall|q: int| 0 <= q < w ==> (#[trigger] out@[q])@ == Seq::<char>::empty(),
        decreases width - w,
    {
        out.push(String::new());
        w = w + 1;
    }
    proof {
        assert(texts(out@) =~= copied(src, pairs@.take(0), width as nat));
    }
    let mut k: usize = 0;
    while k < pairs.len()
        invariant
            k <= pairs@.len(),
            width == plan.headers@.len(),
            src == texts(source@),
            forall|q: int| 0 <= q < pairs@.len() ==> (#[trigger] pairs@[q]).1 < width,
            texts(out@) == copied(src, pairs@.take(k as int), width as nat),
        decreases pairs@.len() - k,
    {
        let (s, t) = pairs[k];
        proof {
            assert(pairs@.take(k + 1).drop_last() =~= pairs@.take(k as int));
            assert(pairs@.take(k + 1).last() == pairs@[k as int]);
            lemma_copied_len(src, pairs@.take(k as int), width as nat);
        }
        if s < source.len() {
            out.set(t, source[s].clone());
        }
        proof {
            assert(texts(out@) =~= copied(src, pairs@.take(k + 1), width as nat));
        }
        k = k + 1;
    }
    proof {
        assert(pairs@.take(pairs@.len() as int) =~= pairs@);
        lemma_copied_len(src, pairs@, width as nat);
    }
    match plan.source_file_column {
        Some(i) => {
            out.set(i, file.clone());
        },
        None => {},
    }
    match plan.source_sheet_column {
        Some(i) => {
            out.set(i, sheet.clone());
        },
        None => {},
    }
    proof {
        assert(texts(out@) =~= preview_view(
            src,
            pairs@,
            width as nat,
            match plan.source_file_column {
                Some(i) => Some((i, file@)),
                None => None,
            },
            match plan.source_sheet_column {
                Some(i) => Some((i, sheet@)),
                None => None,
            },
        ));
    }
    out
}

/// The (optional) column and text of a file or sheet name.
pub open spec fn named_column(column: Option<usize>, name: Seq<char>) -> Option<(usize, Seq<char>)> {
    match column {
        Some(i) => Some((i, name)),
        None => None,
    }
}

/// The preview rows of `table`, read rows `src`, file name `file`, as they go into `plan`.
pub open spec fn table_preview(
    table: SourceTable,
    src: Seq<Vec<String>>,
    plan: OutputPlan,
    mode: MergeMode,
    file: Seq<char>,
    count: nat,
) -> Seq<Seq<Seq<char>>> {
    Seq::new(
        count,
        |k: int|
            preview_view(
                texts(src[k]@),
                crate::engine::rows::output_pairs(table, plan, mode),
                plan.headers@.len(),
                named_column(plan.source_file_column, file),
                named_column(plan.source_sheet_column, table.sheet_name@),
            ),
    )
}

/// The preview rows of the first `n` tables: each enabled table adds its read rows, until
/// `limit` rows are there.
pub open spec fn preview_rows(
    tables: Seq<SourceTable>,
    samples: Seq<Vec<Vec<String>>>,
    plan: OutputPlan,
    mode: MergeMode,
    files: Seq<Seq<char>>,
    n: nat,
    limit: nat,
) -> Seq<Seq<Seq<char>>>
    decreases n,
{
    if n == 0 {
        Seq::empty()
    } else {
        let acc = preview_rows(tables, samples, plan, mode, files, (n - 1) as nat, limit);
        let t = tables[n - 1];
        if t.enabled && acc.len() < limit {
            let src = samples[n - 1]@;
            let count = if src.len() < limit - acc.len() {
                src.len()
            } else {
                (limit - acc.len()) as nat
            };
            acc + table_preview(t, src, plan, mode, files[n - 1], count)
        } else {
            acc
        }
    }
}

/// The texts of preview rows.
pub open spec fn preview_texts(rows: Seq<Vec<String>>) -> Seq<Seq<Seq<char>>> {
    rows.map_values(|r: Vec<String>| texts(r@))
}

/// The preview of a merge: the rows of the enabled tables, in order, at most `limit` in all,
/// each mapped into the output columns. `samples` holds, for each table, the rows read from
/// it after its header. The file names come from the platform's path rules.
pub fn preview_merged(
    tables: &[SourceTable],
    options: &MergeOptions,
    limit: usize,
    samples: &[Vec<Vec<String>>],
) -> (r: PreviewTable)
    requires
        samples@.len() == tables@.len(),
    ensures
        texts(r.headers@) == planned_headers(tables@, *options),
        r.rows@.len() <= limit,
        exists|plan: OutputPlan, files: Seq<Seq<char>>|
            {
                &&& texts(plan.headers@) == planned_headers(tables@, *options)
                &&& plan.source_file_column == (if options.include_source_file {
                    Some(ordered_headers(tables@, *options).len() as usize)
                } else {
                    None
                })
                &&& plan.source_sheet_column == (if options.include_source_sheet {
                    Some(with_file_column(tables@, *options).len() as usize)
                } else {
                    None
                })
                &&& files.len() == tables@.len()
                &&& forall|i: int| 0 <= i < files.len() ==> known_file(#[trigger] files[i], tables@[i].path@)
                &&& preview_texts(r.rows@) == preview_rows(
                    tables@,
                    samples@,
                    plan,
                    options.mode,
                    files,
                    tables@.len(),
                    limit as nat,
                )
            },
{
    let plan = build_output_plan(tables, options);
    let width = plan.headers.len();
    let mut rows: Vec<Vec<String>> = Vec::new();
    let ghost mut files: Seq<Seq<char>> = Seq::empty();
    let mut t: usize = 0;
    while t < tables.len()
        invariant
            t <= tables@.len(),
            samples@.len() == tables@.len(),
            files.len() == t,
            forall|i: int| 0 <= i < t ==> known_file(#[trigger] files[i], tables@[i].path@),
            rows@.len() <= limit,
            plan.source_file_column matches Some(i) ==> i < plan.headers@.len(),
            plan.source_sheet_column matches Some(i) ==> i < plan.headers@.len(),
            texts(plan.headers@) == planned_headers(tables@, *options),
            plan.source_file_column == (if options.include_source_file {
                Some(ordered_headers(tables@, *options).len() as usize)
            } else {
                None
            }),
            plan.source_sheet_column == (if options.include_source_sheet {
                Some(with_file_column(tables@, *options).len() as usize)
            } else {
                None
            }),
            width == plan.headers@.len(),
            preview_texts(rows@) == preview_rows(tables@, samples@, plan, options.mode, files, t as nat, limit as nat),
        decreases tables@.len() - t,
    {
        let table = &tables[t];
        let ghost acc = preview_texts(rows@);
        let ghost old_files = files;
        if table.enabled && rows.len() < limit {
            let pairs = crate::desktop::model::source_to_output_map(table, &plan, options.mode);
            proof {
                let pk = keys(texts(plan.headers@), key_fn());
                assert(pk.len() == plan.headers@.len());
                crate::engine::rows::lemma_header_pairs_bound(texts(table.headers@), pk);
                crate::engine::rows::lemma_mapping_pairs_bound(table.mappings@, pk);
            }
            let file = crate::paths::file_name_of(table.path.as_str());
            proof {
                files = files.push(file@);
            }
            let source_rows = &samples[t];
            let ghost start = rows@.len();
            let mut k: usize = 0;
            while k < source_rows.len() && rows.len() < limit
                invariant
                    k <= source_rows@.len(),
                    rows@.len() <= limit,
                    start <= limit,
                    rows@.len() == start + k,
                    acc == preview_texts(rows@.take(start as int)),
                    pairs@ == crate::engine::rows::output_pairs(*table, plan, options.mode),
                    forall|q: int| 0 <= q < pairs@.len() ==> (#[trigger] pairs@[q]).1 < plan.headers@.len(),
                    plan.source_file_column matches Some(i) ==> i < plan.headers@.len(),
                    plan.source_sheet_column matches Some(i) ==> i < plan.headers@.len(),
                    preview_texts(rows@) == acc + table_preview(*table, source_rows@, plan, options.mode, file@, k as nat),
                decreases source_rows@.len() - k,
            {
                let ghost prev = rows@;
                rows.push(preview_row(&source_rows[k], &pairs, &plan, &file, &table.sheet_name));
                proof {
                    assert(preview_texts(rows@) =~= preview_texts(prev).push(texts(rows@[rows@.len() - 1]@)));
                    assert(preview_texts(rows@) =~= acc + table_preview(*table, source_rows@, plan, options.mode, file@, (k + 1) as nat));
                    assert(rows@.take(start as int) =~= prev.take(start as int));
                }
                k = k + 1;
            }
            proof {
                assert(files.drop_last() =~= old_files);
                assert(files[t as int] == file@);
                assert(samples@[t as int]@ == source_rows@);
                assert(tables@[t as int] == *table);
                let count = if source_rows@.len() < limit - acc.len() {
                    source_rows@.len()
                } else {
                    (limit - acc.len()) as nat
                };
                assert(k == count);
                lemma_preview_rows_prefix(tables@, samples@, plan, options.mode, files, t as nat, limit as nat);
            }
        } else {
            proof {
                files = files.push(
                    if crate::paths::plain_path(table.path@) {
                        crate::paths::last_part(table.path@)
                    } else {
                        Seq::<char>::empty()
                    },
                );
                assert(files.drop_last() =~= old_files);
                lemma_preview_rows_prefix(tables@, samples@, plan, options.mode, files, t as nat, limit as nat);
            }
        }
        t = t + 1;
    }
    PreviewTable { headers: plan.headers, rows }
}

/// Whether `file` is the file name of `path` as far as every platform agrees: the text after
/// the last `/` of a plain path, empty for a portable path ending in `..`.
pub open spec fn known_file(file: Seq<char>, path: Seq<char>) -> bool {
    &&& crate::paths::plain_path(path) ==> file == crate::paths::last_part(path)
    &&& crate::paths::ends_in_parent(path) ==> file.len() == 0
}

/// The preview rows of the first `n` tables depend only on their file names.
pub proof fn lemma_preview_rows_prefix(
    tables: Seq<SourceTable>,
    samples: Seq<Vec<Vec<String>>>,
    plan: OutputPlan,
    mode: MergeMode,
    files: Seq<Seq<char>>,
    n: nat,
    limit: nat,
)
    requires
        n < files.len(),
    ensures
        preview_rows(tables, samples, plan, mode, files, n, limit) == preview_rows(
            tables,
            samples,
            plan,
            mode,
            files.drop_last(),
            n,
            limit,
        ),
    decreases n,
{
    if n > 0 {
        lemma_preview_rows_prefix(tables, samples, plan, mode, files, (n - 1) as nat, limit);
    }
}

/// A sampled cell: its text and whether it reads as a floating-point number (which the
/// caller tells, the number grammar being that of `f64`).
#[derive(Clone, Debug)]
pub struct SampleCell {
    pub text: String,
    pub number: bool,
}

/// What the caller found out about an enabled table by reading it.
#[derive(Debug)]
pub struct TableFacts {
    /// The source file exists.
    pub exists: bool,
    /// The first malformed record of a CSV file, if any.
    pub csv_error: Option<String>,
    /// The first rows after the header, or why they could not be read.
    pub sample: Result<Vec<Vec<SampleCell>>, String>,
}

/// The keys of a table's headers.
pub open spec fn table_keys(t: SourceTable) -> Seq<Seq<char>> {
    keys(texts(t.headers@), key_fn())
}

/// The header keys of `ts`, table after table.
pub open spec fn all_keys(ts: Seq<SourceTable>) -> Seq<Seq<char>>
    decreases ts.len(),
{
    if ts.len() == 0 {
        Seq::empty()
    } else {
        all_keys(ts.drop_last()) + table_keys(ts.last())
    }
}

/// The header keys of the enabled tables, each once, in order of first appearance.
pub open spec fn union_keys(tables: Seq<SourceTable>) -> Seq<Seq<char>> {
    distinct(all_keys(enabled_tables(tables)))
}

/// How many of `u` are not among `tk`.
pub open spec fn missing_count(u: Seq<Seq<char>>, tk: Seq<Seq<char>>) -> nat
    decreases u.len(),
{
    if u.len() == 0 {
        0
    } else {
        missing_count(u.drop_last(), tk) + if tk.contains(u.last()) {
            0nat
        } else {
            1nat
        }
    }
}

/// Whether a header was named automatically because it was empty.
pub open spec fn auto_named(h: Seq<char>) -> bool {
    h.len() >= 4 && h.take(4) == "未命名列"@
}

/// How many headers were named automatically.
pub open spec fn unnamed_count(hs: Seq<Seq<char>>) -> nat
    decreases hs.len(),
{
    if hs.len() == 0 {
        0
    } else {
        unnamed_count(hs.drop_last()) + if auto_named(hs.last()) {
            1nat
        } else {
            0nat
        }
    }
}

/// A finding with literal texts.
pub open spec fn found(level: IssueLevel, title: Seq<char>, detail: Seq<char>) -> IssueView {
    IssueView { level, title, detail }
}

/// The findings about one enabled table: a missing file, missing union fields, automatically
/// named headers and a malformed CSV record.
pub open spec fn table_findings(
    t: SourceTable,
    exists: bool,
    csv_error: Option<Seq<char>>,
    union: Seq<Seq<char>>,
    name: Seq<char>,
) -> Seq<IssueView> {
    if !exists {
        seq![found(IssueLevel::Error, "源文件不存在"@, t.path@ + " 已被移动或删除。"@)]
    } else {
        let missing = missing_count(union, table_keys(t));
        let unnamed = unnamed_count(texts(t.headers@));
        (if missing > 0 {
            seq![found(IssueLevel::Warning, "字段不一致"@, name + " 缺少并集中 "@ + decimal(missing) + " 个字段。"@)]
        } else {
            Seq::empty()
        }) + (if unnamed > 0 {
            seq![found(IssueLevel::Warning, "存在空表头"@, name + " 有 "@ + decimal(unnamed) + " 个空表头，已自动命名。"@)]
        } else {
            Seq::empty()
        }) + (match (t.kind, csv_error) {
            (SourceKind::Csv { .. }, Some(e)) => seq![found(IssueLevel::Error, "CSV 行格式异常"@, name + "："@ + e)],
            _ => Seq::empty(),
        })
    }
}

/// The kind of a sampled value: 0 for a number, 1 for a truth value, 2 for text.
pub open spec fn value_kind(value: Seq<char>, number: bool) -> nat {
    if number {
        0
    } else {
        let l = lower(value);
        if l == "true"@ || l == "false"@ || l == "是"@ || l == "否"@ {
            1
        } else {
            2
        }
    }
}

/// The sampled cells of a table as texts and number flags.
pub open spec fn sample_view(rows: Seq<Vec<SampleCell>>) -> Seq<Seq<(Seq<char>, bool)>> {
    rows.map_values(|r: Vec<SampleCell>| r@.map_values(|c: SampleCell| (c.text@, c.number)))
}

/// The observations of column `c`, keyed `k`, over the first `n` sampled rows: each non-blank
/// trimmed value gives its kind.
pub open spec fn column_obs(k: Seq<char>, rows: Seq<Seq<(Seq<char>, bool)>>, c: int, n: nat) -> Seq<(Seq<char>, nat)>
    decreases n,
{
    if n == 0 {
        Seq::empty()
    } else {
        let prev = column_obs(k, rows, c, (n - 1) as nat);
        let row = rows[n - 1];
        if 0 <= c < row.len() && trim(row[c].0).len() > 0 {
            prev.push((k, value_kind(trim(row[c].0), row[c].1)))
        } else {
            prev
        }
    }
}

/// The observations of the first `n` columns of a table.
pub open spec fn table_obs(hs: Seq<Seq<char>>, rows: Seq<Seq<(Seq<char>, bool)>>, n: nat) -> Seq<(Seq<char>, nat)>
    decreases n,
{
    if n == 0 {
        Seq::empty()
    } else {
        table_obs(hs, rows, (n - 1) as nat) + column_obs(key(hs[n - 1]), rows, n - 1, rows.len())
    }
}

/// The observations of the first `n` enabled tables whose samples could be read.
pub open spec fn all_obs(ts: Seq<SourceTable>, samples: Seq<Option<Seq<Seq<(Seq<char>, bool)>>>>, n: nat) -> Seq<(Seq<char>, nat)>
    decreases n,
{
    if n == 0 {
        Seq::empty()
    } else {
        all_obs(ts, samples, (n - 1) as nat) + match samples[n - 1] {
            Some(rows) => table_obs(texts(ts[n - 1].headers@), rows, ts[n - 1].headers@.len()),
            None => Seq::empty(),
        }
    }
}

/// The keys of observations.
pub open spec fn obs_keys(obs: Seq<(Seq<char>, nat)>) -> Seq<Seq<char>> {
    obs.map_values(|o: (Seq<char>, nat)| o.0)
}

/// Whether an observation of key `k` has kind `kind`.
pub open spec fn observed(obs: Seq<(Seq<char>, nat)>, k: Seq<char>, kind: nat) -> bool {
    obs.contains((k, kind))
}

/// The kinds observed for `k`, in the order `布尔`, `数字`, `文本`.
pub open spec fn kind_names(obs: Seq<(Seq<char>, nat)>, k: Seq<char>) -> Seq<Seq<char>> {
    (if observed(obs, k, 1) {
        seq!["布尔"@]
    } else {
        Seq::empty()
    }) + (if observed(obs, k, 0) {
        seq!["数字"@]
    } else {
        Seq::empty()
    }) + (if observed(obs, k, 2) {
        seq!["文本"@]
    } else {
        Seq::empty()
    })
}

/// The warnings about keys whose samples have more than one kind, in order of first
/// observation.
pub open spec fn mixed_findings(obs: Seq<(Seq<char>, nat)>, ks: Seq<Seq<char>>) -> Seq<IssueView>
    decreases ks.len(),
{
    if ks.len() == 0 {
        Seq::empty()
    } else {
        let k = ks.last();
        let names = kind_names(obs, k);
        mixed_findings(obs, ks.drop_last()) + if names.len() > 1 {
            seq![found(IssueLevel::Warning, "字段类型混合"@, "字段“"@ + k + "”的样本同时出现："@ + joined(names, "、"@) + "。"@)]
        } else {
            Seq::empty()
        }
    }
}

/// The warnings about union keys without any non-blank sample, in union order.
pub open spec fn empty_findings(union: Seq<Seq<char>>, seen: Seq<Seq<char>>) -> Seq<IssueView>
    decreases union.len(),
{
    if union.len() == 0 {
        Seq::empty()
    } else {
        let k = union.last();
        empty_findings(union.drop_last(), seen) + if seen.contains(k) {
            Seq::empty()
        } else {
            seq![found(IssueLevel::Warning, "字段样本全空"@, "字段“"@ + k + "”在抽样行中没有非空值。"@)]
        }
    }
}

/// The findings of the `n` first enabled tables.
pub open spec fn tables_findings(
    ts: Seq<SourceTable>,
    facts: Seq<TableFacts>,
    union: Seq<Seq<char>>,
    names: Seq<Seq<char>>,
    n: nat,
) -> Seq<IssueView>
    decreases n,
{
    if n == 0 {
        Seq::empty()
    } else {
        tables_findings(ts, facts, union, names, (n - 1) as nat) + table_findings(
            ts[n - 1],
            facts[n - 1].exists,
            match facts[n - 1].csv_error {
                Some(e) => Some(e@),
                None => None,
            },
            union,
            names[n - 1],
        )
    }
}

/// The errors of the samples that could not be read, table by table.
pub open spec fn sample_findings(facts: Seq<TableFacts>, names: Seq<Seq<char>>, n: nat) -> Seq<IssueView>
    decreases n,
{
    if n == 0 {
        Seq::empty()
    } else {
        sample_findings(facts, names, (n - 1) as nat) + match facts[n - 1].sample {
            Err(e) => seq![found(IssueLevel::Error, "无法抽样读取"@, names[n - 1] + "："@ + e@)],
            Ok(_) => Seq::empty(),
        }
    }
}

/// The sampled rows of each table whose sample could be read.
pub open spec fn samples_of(facts: Seq<TableFacts>) -> Seq<Option<Seq<Seq<(Seq<char>, bool)>>>> {
    facts.map_values(
        |f: TableFacts|
            match f.sample {
                Ok(rows) => Some(sample_view(rows@)),
                Err(_) => None,
            },
    )
}

/// The estimated rows of `ts`, summed.
pub open spec fn rows_total(ts: Seq<SourceTable>) -> nat
    decreases ts.len(),
{
    if ts.len() == 0 {
        0
    } else {
        (rows_total(ts.drop_last()) + ts.last().estimated_rows) as nat
    }
}

/// The findings about the settings: key columns for consolidating and joining, and a filter
/// column that the output has.
pub open spec fn settings_findings(options: MergeOptions, plan_headers: Seq<Seq<char>>) -> Seq<IssueView> {
    (if (options.mode == MergeMode::Consolidate || options.mode == MergeMode::Join)
        && options.key_columns@.len() == 0 {
        seq![found(IssueLevel::Error, "缺少键字段"@, "汇总或横向关联至少需要一个键字段。"@)]
    } else {
        Seq::empty()
    }) + if trim(options.filter_text@).len() > 0 {
        if trim(options.filter_column@).len() == 0 {
            seq![found(IssueLevel::Warning, "筛选字段未填写"@, "已设置筛选文本，但字段名为空，筛选不会生效。"@)]
        } else if !keys(plan_headers, key_fn()).contains(key(options.filter_column@)) {
            seq![found(IssueLevel::Error, "筛选字段不存在"@, "输出列中没有“"@ + options.filter_column@ + "”，筛选不会生效，请检查字段名。"@)]
        } else {
            Seq::empty()
        }
    } else {
        Seq::empty()
    }
}

/// The findings of the output's shape: no columns, too many columns, the expected size.
pub open spec fn shape_findings(cols: nat, rows: nat, size_text: Seq<char>) -> Seq<IssueView> {
    let sheets: nat = if rows == 0 {
        1
    } else {
        ((rows + 1_048_574) / 1_048_575) as nat
    };
    (if cols == 0 {
        seq![found(IssueLevel::Error, "没有输出字段"@, "请检查映射或合并方式。"@)]
    } else {
        Seq::empty()
    }) + (if cols > 16_384 {
        seq![found(IssueLevel::Error, "列数超出 XLSX 限制"@, "预计输出 "@ + decimal(cols) + " 列。"@)]
    } else {
        Seq::empty()
    }) + seq![
        found(IssueLevel::Info, "输出规模"@, "预计 "@ + decimal(rows) + " 行、"@ + decimal(cols) + " 列、约 "@ + decimal(sheets) + " 个结果 Sheet。"@),
        found(IssueLevel::Info, "输入文件规模"@, "已选数据源合计约 "@ + size_text + " MB。"@),
    ]
}

/// The findings of `v` at `level`, in order.
pub open spec fn at_level(v: Seq<IssueView>, level: IssueLevel) -> Seq<IssueView>
    decreases v.len(),
{
    if v.len() == 0 {
        Seq::empty()
    } else {
        at_level(v.drop_last(), level) + if v.last().level == level {
            seq![v.last()]
        } else {
            Seq::empty()
        }
    }
}

/// Findings sorted from errors to notes, keeping their order within a level.
pub open spec fn by_level(v: Seq<IssueView>) -> Seq<IssueView> {
    at_level(v, IssueLevel::Error) + at_level(v, IssueLevel::Warning) + at_level(v, IssueLevel::Info)
}

/// All findings before sorting, for enabled tables `ts` with display names `names`.
pub open spec fn all_findings(
    tables: Seq<SourceTable>,
    options: MergeOptions,
    facts: Seq<TableFacts>,
    size_text: Seq<char>,
    similar: Seq<Seq<char>>,
    names: Seq<Seq<char>>,
) -> Seq<IssueView> {
    let ts = enabled_tables(tables);
    let plan_headers = planned_headers(tables, options);
    let union = union_keys(tables);
    let obs = all_obs(ts, samples_of(facts), ts.len());
    shape_findings(plan_headers.len(), rows_total(ts), size_text)
        + tables_findings(ts, facts, union, names, ts.len())
        + sample_findings(facts, names, ts.len())
        + mixed_findings(obs, distinct(obs_keys(obs)))
        + empty_findings(union, obs_keys(obs))
        + (if similar.len() > 0 {
        seq![found(IssueLevel::Warning, "疑似同义/错拼字段"@, joined(similar, "；"@))]
    } else {
        Seq::empty()
    }) + settings_findings(options, plan_headers)
}

/// The rank of a level: errors first.
pub open spec fn level_rank(level: IssueLevel) -> int {
    match level {
        IssueLevel::Error => 0,
        IssueLevel::Warning => 1,
        IssueLevel::Info => 2,
    }
}

/// The findings of `v` at `level` all have that level and are at most as many as `v`.
proof fn lemma_at_level(v: Seq<IssueView>, level: IssueLevel)
    ensures
        at_level(v, level).len() <= v.len(),
        forall|i: int| 0 <= i < at_level(v, level).len() ==> (#[trigger] at_level(v, level)[i]).level == level,
    decreases v.len(),
{
    if v.len() > 0 {
        lemma_at_level(v.drop_last(), level);
        let p = at_level(v.drop_last(), level);
        assert forall|i: int| 0 <= i < at_level(v, level).len() implies (#[trigger] at_level(v, level)[i]).level
            == level by {
            if i < p.len() {
                assert(at_level(v, level)[i] == p[i]);
            }
        }
    }
}

/// How many findings of `v` have `level`.
pub open spec fn level_count(v: Seq<IssueView>, level: IssueLevel) -> nat
    decreases v.len(),
{
    if v.len() == 0 {
        0
    } else {
        level_count(v.drop_last(), level) + if v.last().level == level {
            1nat
        } else {
            0nat
        }
    }
}

/// The findings of `v` at `level` are exactly as many as `v` has of that level.
proof fn lemma_at_level_count(v: Seq<IssueView>, level: IssueLevel)
    ensures
        at_level(v, level).len() == level_count(v, level),
        level_count(v, IssueLevel::Error) + level_count(v, IssueLevel::Warning) + level_count(v, IssueLevel::Info)
            == v.len(),
    decreases v.len(),
{
    if v.len() > 0 {
        lemma_at_level_count(v.drop_last(), level);
    }
}

/// Sorting findings by level puts errors before warnings before notes, and keeps every
/// finding: as many of each level as before.
pub proof fn lemma_by_level_sorted(v: Seq<IssueView>, i: int, j: int)
    ensures
        by_level(v).len() == v.len(),
        0 <= i < j < by_level(v).len() ==> level_rank(by_level(v)[i].level) <= level_rank(by_level(v)[j].level),
        level_count(by_level(v), IssueLevel::Error) == level_count(v, IssueLevel::Error),
        level_count(by_level(v), IssueLevel::Warning) == level_count(v, IssueLevel::Warning),
        level_count(by_level(v), IssueLevel::Info) == level_count(v, IssueLevel::Info),
{
    lemma_at_level(v, IssueLevel::Error);
    lemma_at_level(v, IssueLevel::Warning);
    lemma_at_level(v, IssueLevel::Info);
    lemma_at_level_count(v, IssueLevel::Error);
    lemma_at_level_count(v, IssueLevel::Warning);
    lemma_at_level_count(v, IssueLevel::Info);
    let e = at_level(v, IssueLevel::Error);
    let w = at_level(v, IssueLevel::Warning);
    let n = at_level(v, IssueLevel::Info);
    let s = by_level(v);
    assert forall|k: int| 0 <= k < s.len() implies level_rank(#[trigger] s[k].level) == (if k < e.len() {
        0int
    } else if k < e.len() + w.len() {
        1int
    } else {
        2int
    }) by {
        if k < e.len() {
            assert(s[k] == e[k]);
        } else if k < e.len() + w.len() {
            assert(s[k] == w[k - e.len()]);
        } else {
            assert(s[k] == n[k - e.len() - w.len()]);
        }
    }
    if 0 <= i < j < s.len() {
        assert(level_rank(s[i].level) <= level_rank(s[j].level));
    }
    lemma_at_level_count(s, IssueLevel::Error);
    lemma_level_count_by_level(e, w, n);
}

/// Errors, then warnings, then notes hold as many of each level as each part is long.
proof fn lemma_level_count_by_level(e: Seq<IssueView>, w: Seq<IssueView>, n: Seq<IssueView>)
    requires
        forall|i: int| 0 <= i < e.len() ==> (#[trigger] e[i]).level == IssueLevel::Error,
        forall|i: int| 0 <= i < w.len() ==> (#[trigger] w[i]).level == IssueLevel::Warning,
        forall|i: int| 0 <= i < n.len() ==> (#[trigger] n[i]).level == IssueLevel::Info,
    ensures
        level_count(e + w + n, IssueLevel::Error) == e.len(),
        level_count(e + w + n, IssueLevel::Warning) == w.len(),
        level_count(e + w + n, IssueLevel::Info) == n.len(),
    decreases e.len() + w.len() + n.len(),
{
    if n.len() > 0 {
        assert((e + w + n).drop_last() =~= e + w + n.drop_last());
        lemma_level_count_by_level(e, w, n.drop_last());
    } else if w.len() > 0 {
        assert((e + w + n).drop_last() =~= e + w.drop_last() + n);
        lemma_level_count_by_level(e, w.drop_last(), n);
    } else if e.len() > 0 {
        assert((e + w + n).drop_last() =~= e.drop_last() + w + n);
        lemma_level_count_by_level(e.drop_last(), w, n);
    }
}

} // verus!
