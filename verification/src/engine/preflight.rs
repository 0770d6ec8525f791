//! The checks made before a merge, computed from the tables, the options and what was read
//! from the source files.
use vstd::prelude::*;
use crate::desktop::model::{
    MergeMode, MergeOptions, SourceTable, enabled_tables, enabled_positions, key, key_fn,
    header_key, key_list,
};
use crate::desktop::model::SourceKind;
use crate::engine::inspect::{
    CheckIssue, IssueLevel, IssueView, issue_views, found, table_keys, all_keys, union_keys,
    rows_total, missing_count, auto_named, unnamed_count, table_findings, SampleCell,
    TableFacts, value_kind, sample_view, column_obs, table_obs, all_obs, samples_of,
    obs_keys, observed, kind_names, mixed_findings, empty_findings, at_level, by_level,
    sample_findings, settings_findings, shape_findings, tables_findings, all_findings,
};
use crate::desktop::model::{build_output_plan, planned_headers};
use crate::paths::display_text;
use crate::headers::{texts, keys, contains_text};
use crate::text::{owned, concat, chars_of, decimal_string, decimal_chars_wide, string_of, trim, trim_str, to_lowercase, joined, join_strings};
use crate::workbench::scan::distinct;

verus! {

broadcast use vstd::seq_lib::group_seq_properties;

/// Appends a finding.
fn push_found(out: &mut Vec<CheckIssue>, level: IssueLevel, title: &str, detail: String)
    ensures
        issue_views(final(out)@) == issue_views(old(out)@).push(found(level, title@, detail@)),
{
    let ghost prev = out@;
    out.push(CheckIssue { level, title: owned(title), detail });
    proof {
        assert(issue_views(out@) =~= issue_views(prev).push(found(level, title@, detail@)));
    }
}

/// The sum of the estimates of a prefix is at most the sum of the whole.
proof fn lemma_rows_total_prefix(ts: Seq<SourceTable>, j: int)
    requires
        0 <= j <= ts.len(),
    ensures
        rows_total(ts.take(j)) <= rows_total(ts),
    decreases ts.len(),
{
    if j < ts.len() {
        assert(ts.drop_last().take(j) =~= ts.take(j));
        lemma_rows_total_prefix(ts.drop_last(), j);
    } else {
        assert(ts.take(j) =~= ts);
    }
}

/// The estimated rows of the enabled tables, summed.
pub fn estimated_rows_total(tables: &[SourceTable]) -> (r: u64)
    requires
        rows_total(enabled_tables(tables@)) <= u64::MAX,
    ensures
        r == rows_total(enabled_tables(tables@)),
{
    let positions = enabled_positions(tables);
    let ghost ets = enabled_tables(tables@);
    let mut sum: u64 = 0;
    let mut j: usize = 0;
    while j < positions.len()
        invariant
            j <= positions@.len(),
            positions@.len() == ets.len(),
            ets == enabled_tables(tables@),
            rows_total(ets) <= u64::MAX,
            forall|q: int|
                0 <= q < positions@.len() ==> #[trigger] positions@[q] < tables@.len()
                    && tables@[positions@[q] as int] == ets[q],
            sum == rows_total(ets.take(j as int)),
        decreases positions@.len() - j,
    {
        proof {
            assert(ets.take(j + 1).drop_last() =~= ets.take(j as int));
            lemma_rows_total_prefix(ets, j + 1);
        }
        sum = sum + tables[positions[j]].estimated_rows;
        j = j + 1;
    }
    proof {
        assert(ets.take(j as int) =~= ets);
    }
    sum
}

/// The header keys of the enabled tables, each once, in order of first appearance.
pub fn union_header_keys(tables: &[SourceTable]) -> (r: Vec<String>)
    ensures
        texts(r@) == union_keys(tables@),
{
    let positions = enabled_positions(tables);
    let ghost ets = enabled_tables(tables@);
    let mut out: Vec<String> = Vec::new();
    let mut j: usize = 0;
    while j < positions.len()
        invariant
            j <= positions@.len(),
            positions@.len() == ets.len(),
            ets == enabled_tables(tables@),
            forall|q: int|
                0 <= q < positions@.len() ==> #[trigger] positions@[q] < tables@.len()
                    && tables@[positions@[q] as int] == ets[q],
            texts(out@) == distinct(all_keys(ets.take(j as int))),
        decreases positions@.len() - j,
    {
        let table = &tables[positions[j]];
        let ghost before = all_keys(ets.take(j as int));
        let tk = key_list(&table.headers);
        let mut h: usize = 0;
        while h < tk.len()
            invariant
                h <= tk@.len(),
                texts(tk@) == table_keys(*table),
                texts(out@) == distinct(before + table_keys(*table).take(h as int)),
            decreases tk@.len() - h,
        {
            let ghost s = before + table_keys(*table).take(h as int);
            proof {
                assert(before + table_keys(*table).take(h + 1) =~= s.push(texts(tk@)[h as int]));
                assert(s.push(texts(tk@)[h as int]).drop_last() =~= s);
            }
            if !contains_text(&out, &tk[h]) {
                out.push(tk[h].clone());
                proof {
                    assert(texts(out@) =~= distinct(s).push(tk@[h as int]@));
                }
            }
            h = h + 1;
        }
        proof {
            assert(table_keys(*table).take(tk@.len() as int) =~= table_keys(*table));
            assert(ets.take(j + 1).drop_last() =~= ets.take(j as int));
            assert(ets.take(j + 1).last() == *table);
        }
        j = j + 1;
    }
    proof {
        assert(ets.take(j as int) =~= ets);
    }
    out
}

/// How many of `union` are not among `tk`.
fn missing_keys(union: &Vec<String>, tk: &Vec<String>) -> (r: usize)
    ensures
        r == missing_count(texts(union@), texts(tk@)),
{
    let mut count: usize = 0;
    let mut i: usize = 0;
    while i < union.len()
        invariant
            i <= union@.len(),
            count <= i,
            count == missing_count(texts(union@).take(i as int), texts(tk@)),
        decreases union@.len() - i,
    {
        proof {
            assert(texts(union@).take(i + 1).drop_last() =~= texts(union@).take(i as int));
        }
        if !contains_text(tk, &union[i]) {
            count = count + 1;
        }
        i = i + 1;
    }
    proof {
        assert(texts(union@).take(i as int) =~= texts(union@));
    }
    count
}

/// Whether `h` begins with `未命名列`, the name given to an empty header.
fn is_auto_named(h: &str) -> (r: bool)
    ensures
        r == auto_named(h@),
{
    let p = chars_of("未命名列");
    let c = chars_of(h);
    proof {
        reveal_strlit("未命名列");
    }
    if c.len() < p.len() {
        return false;
    }
    let mut i: usize = 0;
    while i < p.len()
        invariant
            p@ == "未命名列"@,
            c@ == h@,
            p@.len() <= c@.len(),
            i <= p@.len(),
            forall|q: int| 0 <= q < i ==> c@[q] == p@[q],
        decreases p@.len() - i,
    {
        if c[i] != p[i] {
            proof {
                reveal_strlit("未命名列");
                assert(h@.take(4)[i as int] != "未命名列"@[i as int]);
            }
            return false;
        }
        i = i + 1;
    }
    proof {
        assert(h@.take(4) =~= "未命名列"@);
    }
    true
}

/// How many of `hs` were named automatically.
fn unnamed_headers(hs: &Vec<String>) -> (r: usize)
    ensures
        r == unnamed_count(texts(hs@)),
{
    let mut count: usize = 0;
    let mut i: usize = 0;
    while i < hs.len()
        invariant
            i <= hs@.len(),
            count <= i,
            count == unnamed_count(texts(hs@).take(i as int)),
        decreases hs@.len() - i,
    {
        proof {
            assert(texts(hs@).take(i + 1).drop_last() =~= texts(hs@).take(i as int));
        }
        if is_auto_named(hs[i].as_str()) {
            count = count + 1;
        }
        i = i + 1;
    }
    proof {
        assert(texts(hs@).take(i as int) =~= texts(hs@));
    }
    count
}

/// The text of an optional string.
pub open spec fn opt_text(o: Option<String>) -> Option<Seq<char>> {
    match o {
        Some(e) => Some(e@),
        None => None,
    }
}

/// Appends the findings about one enabled table.
fn push_table_findings(
    out: &mut Vec<CheckIssue>,
    t: &SourceTable,
    exists: bool,
    csv_error: &Option<String>,
    union: &Vec<String>,
    name: &String,
)
    ensures
        issue_views(final(out)@) == issue_views(old(out)@) + table_findings(
            *t,
            exists,
            opt_text(*csv_error),
            texts(union@),
            name@,
        ),
{
    let ghost start = issue_views(out@);
    if !exists {
        let detail = concat(t.path.as_str(), " 已被移动或删除。");
        push_found(out, IssueLevel::Error, "源文件不存在", detail);
        proof {
            reveal_strlit("源文件不存在");
            assert(issue_views(out@) =~= start + table_findings(*t, exists, opt_text(*csv_error), texts(union@), name@));
        }
        return;
    }
    let tk = key_list(&t.headers);
    let missing = missing_keys(union, &tk);
    let ghost after_missing;
    if missing > 0 {
        let a = concat(name.as_str(), " 缺少并集中 ");
        let b = decimal_string(missing as u64);
        let c = concat(a.as_str(), b.as_str());
        let d = concat(c.as_str(), " 个字段。");
        push_found(out, IssueLevel::Warning, "字段不一致", d);
    }
    proof {
        after_missing = issue_views(out@);
    }
    let unnamed = unnamed_headers(&t.headers);
    if unnamed > 0 {
        let a = concat(name.as_str(), " 有 ");
        let b = decimal_string(unnamed as u64);
        let c = concat(a.as_str(), b.as_str());
        let d = concat(c.as_str(), " 个空表头，已自动命名。");
        push_found(out, IssueLevel::Warning, "存在空表头", d);
    }
    let ghost after_unnamed = issue_views(out@);
    match t.kind {
        SourceKind::Csv { .. } => {
            match csv_error {
                Some(e) => {
                    let a = concat(name.as_str(), "：");
                    let d = concat(a.as_str(), e.as_str());
                    push_found(out, IssueLevel::Error, "CSV 行格式异常", d);
                },
                None => {},
            }
        },
        SourceKind::Workbook => {},
    }
    proof {
        let m = missing_count(texts(union@), table_keys(*t));
        assert(m == missing as nat);
        let part1: Seq<IssueView> = if m > 0 {
            seq![found(IssueLevel::Warning, "字段不一致"@, name@ + " 缺少并集中 "@ + crate::text::decimal(m) + " 个字段。"@)]
        } else {
            Seq::empty()
        };
        assert(after_missing =~= start + part1);
        assert(issue_views(out@) =~= start + table_findings(*t, exists, opt_text(*csv_error), texts(union@), name@));
    }
}

/// Observations as texts and kinds.
pub open spec fn obs_view(v: Seq<(String, usize)>) -> Seq<(Seq<char>, nat)> {
    v.map_values(|o: (String, usize)| (o.0@, o.1 as nat))
}

/// The kind of a trimmed sampled value: 0 for a number, 1 for a truth value, 2 for text.
fn sample_kind(value: &str, number: bool) -> (r: usize)
    ensures
        r == value_kind(value@, number),
{
    if number {
        return 0;
    }
    let l = to_lowercase(value);
    if l == owned("true") || l == owned("false") || l == owned("是") || l == owned("否") {
        1
    } else {
        2
    }
}

/// Appends an observation.
fn push_obs(obs: &mut Vec<(String, usize)>, k: &String, kind: usize)
    ensures
        obs_view(final(obs)@) == obs_view(old(obs)@).push((k@, kind as nat)),
{
    let ghost prev = obs@;
    obs.push((k.clone(), kind));
    proof {
        assert(obs_view(obs@) =~= obs_view(prev).push((k@, kind as nat)));
    }
}

/// Appends the observations of column `c`, keyed `k`, over all sampled rows.
fn push_column_obs(obs: &mut Vec<(String, usize)>, k: &String, rows: &Vec<Vec<SampleCell>>, c: usize)
    ensures
        obs_view(final(obs)@) == obs_view(old(obs)@) + column_obs(k@, sample_view(rows@), c as int, rows@.len()),
{
    let ghost start = obs_view(obs@);
    let ghost sv = sample_view(rows@);
    let mut n: usize = 0;
    while n < rows.len()
        invariant
            n <= rows@.len(),
            sv == sample_view(rows@),
            obs_view(obs@) == start + column_obs(k@, sv, c as int, n as nat),
        decreases rows@.len() - n,
    {
        let row = &rows[n];
        proof {
            assert(sv[n as int] == row@.map_values(|x: SampleCell| (x.text@, x.number)));
        }
        if c < row.len() {
            let t = trim_str(row[c].text.as_str());
            if !t.as_str().is_empty() {
                let kind = sample_kind(t.as_str(), row[c].number);
                push_obs(obs, k, kind);
            }
        }
        proof {
            assert(obs_view(obs@) =~= start + column_obs(k@, sv, c as int, (n + 1) as nat));
        }
        n = n + 1;
    }
}

/// Appends the observations of every column of a table over its sampled rows.
fn push_table_obs(obs: &mut Vec<(String, usize)>, headers: &Vec<String>, rows: &Vec<Vec<SampleCell>>)
    ensures
        obs_view(final(obs)@) == obs_view(old(obs)@) + table_obs(texts(headers@), sample_view(rows@), headers@.len()),
{
    let ghost start = obs_view(obs@);
    let mut c: usize = 0;
    while c < headers.len()
        invariant
            c <= headers@.len(),
            obs_view(obs@) == start + table_obs(texts(headers@), sample_view(rows@), c as nat),
        decreases headers@.len() - c,
    {
        let k = header_key(headers[c].as_str());
        let ghost before = obs_view(obs@);
        push_column_obs(obs, &k, rows, c);
        proof {
            assert(obs_view(obs@) =~= start + table_obs(texts(headers@), sample_view(rows@), (c + 1) as nat));
        }
        c = c + 1;
    }
}

/// The observations of the enabled tables whose samples could be read.
fn observations(tables: &[SourceTable], facts: &[TableFacts]) -> (r: Vec<(String, usize)>)
    requires
        facts@.len() == enabled_tables(tables@).len(),
    ensures
        obs_view(r@) == all_obs(enabled_tables(tables@), samples_of(facts@), enabled_tables(tables@).len()),
{
    let positions = enabled_positions(tables);
    let ghost ets = enabled_tables(tables@);
    let ghost samples = samples_of(facts@);
    let mut obs: Vec<(String, usize)> = Vec::new();
    let mut j: usize = 0;
    while j < positions.len()
        invariant
            j <= positions@.len(),
            positions@.len() == ets.len(),
            facts@.len() == ets.len(),
            ets == enabled_tables(tables@),
            samples == samples_of(facts@),
            forall|q: int|
                0 <= q < positions@.len() ==> #[trigger] positions@[q] < tables@.len()
                    && tables@[positions@[q] as int] == ets[q],
            obs_view(obs@) == all_obs(ets, samples, j as nat),
        decreases positions@.len() - j,
    {
        let table = &tables[positions[j]];
        match &facts[j].sample {
            Ok(rows) => {
                push_table_obs(&mut obs, &table.headers, rows);
            },
            Err(_) => {},
        }
        proof {
            assert(samples[j as int] == match facts@[j as int].sample {
                Ok(rows) => Some(sample_view(rows@)),
                Err(_) => None::<Seq<Seq<(Seq<char>, bool)>>>,
            });
        }
        j = j + 1;
    }
    obs
}

/// Whether an observation of `k` with kind `kind` was made.
fn has_obs(obs: &Vec<(String, usize)>, k: &String, kind: usize) -> (r: bool)
    ensures
        r == observed(obs_view(obs@), k@, kind as nat),
{
    let mut i: usize = 0;
    while i < obs.len()
        invariant
            i <= obs@.len(),
            forall|q: int| 0 <= q < i ==> obs_view(obs@)[q] != (k@, kind as nat),
        decreases obs@.len() - i,
    {
        if obs[i].0 == *k && obs[i].1 == kind {
            proof {
                assert(obs_view(obs@)[i as int] == (k@, kind as nat));
            }
            return true;
        }
        i = i + 1;
    }
    false
}

/// Whether any observation of `k` was made.
fn has_key_obs(obs: &Vec<(String, usize)>, k: &String) -> (r: bool)
    ensures
        r == obs_keys(obs_view(obs@)).contains(k@),
{
    let mut i: usize = 0;
    while i < obs.len()
        invariant
            i <= obs@.len(),
            forall|q: int| 0 <= q < i ==> obs_keys(obs_view(obs@))[q] != k@,
        decreases obs@.len() - i,
    {
        if obs[i].0 == *k {
            proof {
                assert(obs_keys(obs_view(obs@))[i as int] == k@);
            }
            return true;
        }
        i = i + 1;
    }
    false
}

/// The keys of the observations, each once, in order of first observation.
fn observed_keys(obs: &Vec<(String, usize)>) -> (r: Vec<String>)
    ensures
        texts(r@) == distinct(obs_keys(obs_view(obs@))),
{
    let ghost all = obs_keys(obs_view(obs@));
    let mut out: Vec<String> = Vec::new();
    let mut i: usize = 0;
    while i < obs.len()
        invariant
            i <= obs@.len(),
            all == obs_keys(obs_view(obs@)),
            texts(out@) == distinct(all.take(i as int)),
        decreases obs@.len() - i,
    {
        proof {
            assert(all.take(i + 1).drop_last() =~= all.take(i as int));
            assert(all.take(i + 1).last() == obs@[i as int].0@);
        }
        if !contains_text(&out, &obs[i].0) {
            out.push(obs[i].0.clone());
            proof {
                assert(texts(out@) =~= distinct(all.take(i as int)).push(obs@[i as int].0@));
            }
        }
        i = i + 1;
    }
    proof {
        assert(all.take(i as int) =~= all);
    }
    out
}

/// The names of the kinds observed for `k`.
fn observed_kind_names(obs: &Vec<(String, usize)>, k: &String) -> (r: Vec<String>)
    ensures
        texts(r@) == kind_names(obs_view(obs@), k@),
{
    let mut names: Vec<String> = Vec::new();
    if has_obs(obs, k, 1) {
        names.push(owned("布尔"));
    }
    if has_obs(obs, k, 0) {
        names.push(owned("数字"));
    }
    if has_obs(obs, k, 2) {
        names.push(owned("文本"));
    }
    proof {
        assert(texts(names@) =~= kind_names(obs_view(obs@), k@));
    }
    names
}

/// Appends the warnings about keys whose samples have more than one kind.
fn push_mixed_findings(out: &mut Vec<CheckIssue>, obs: &Vec<(String, usize)>)
    ensures
        issue_views(final(out)@) == issue_views(old(out)@) + mixed_findings(
            obs_view(obs@),
            distinct(obs_keys(obs_view(obs@))),
        ),
{
    let ghost start = issue_views(out@);
    let ks = observed_keys(obs);
    let ghost kt = texts(ks@);
    let mut i: usize = 0;
    while i < ks.len()
        invariant
            i <= ks@.len(),
            kt == texts(ks@),
            issue_views(out@) == start + mixed_findings(obs_view(obs@), kt.take(i as int)),
        decreases ks@.len() - i,
    {
        let names = observed_kind_names(obs, &ks[i]);
        proof {
            assert(kt.take(i + 1).drop_last() =~= kt.take(i as int));
            assert(kt.take(i + 1).last() == ks@[i as int]@);
        }
        if names.len() > 1 {
            let list = join_strings(names.as_slice(), "、");
            proof {
                assert(names@.map_values(|p: String| p@) =~= texts(names@));
            }
            let a = concat("字段“", ks[i].as_str());
            let b = concat(a.as_str(), "”的样本同时出现：");
            let c = concat(b.as_str(), list.as_str());
            let d = concat(c.as_str(), "。");
            push_found(out, IssueLevel::Warning, "字段类型混合", d);
        }
        proof {
            assert(issue_views(out@) =~= start + mixed_findings(obs_view(obs@), kt.take(i + 1)));
        }
        i = i + 1;
    }
    proof {
        assert(kt.take(i as int) =~= kt);
    }
}

/// Appends the warnings about union keys without any non-blank sample.
fn push_empty_findings(out: &mut Vec<CheckIssue>, union: &Vec<String>, obs: &Vec<(String, usize)>)
    ensures
        issue_views(final(out)@) == issue_views(old(out)@) + empty_findings(
            texts(union@),
            obs_keys(obs_view(obs@)),
        ),
{
    let ghost start = issue_views(out@);
    let ghost ut = texts(union@);
    let mut i: usize = 0;
    while i < union.len()
        invariant
            i <= union@.len(),
            ut == texts(union@),
            issue_views(out@) == start + empty_findings(ut.take(i as int), obs_keys(obs_view(obs@))),
        decreases union@.len() - i,
    {
        proof {
            assert(ut.take(i + 1).drop_last() =~= ut.take(i as int));
            assert(ut.take(i + 1).last() == union@[i as int]@);
        }
        if !has_key_obs(obs, &union[i]) {
            let a = concat("字段“", union[i].as_str());
            let d = concat(a.as_str(), "”在抽样行中没有非空值。");
            push_found(out, IssueLevel::Warning, "字段样本全空", d);
        }
        proof {
            assert(issue_views(out@) =~= start + empty_findings(ut.take(i + 1), obs_keys(obs_view(obs@))));
        }
        i = i + 1;
    }
    proof {
        assert(ut.take(i as int) =~= ut);
    }
}

/// A copy of a finding.
fn copy_issue(i: &CheckIssue) -> (r: CheckIssue)
    ensures
        r.level == i.level,
        r.title@ == i.title@,
        r.detail@ == i.detail@,
{
    CheckIssue { level: i.level, title: i.title.clone(), detail: i.detail.clone() }
}

/// Appends the findings of `v` at `level`, in order.
fn push_at_level(out: &mut Vec<CheckIssue>, v: &Vec<CheckIssue>, level: IssueLevel)
    ensures
        issue_views(final(out)@) == issue_views(old(out)@) + at_level(issue_views(v@), level),
{
    let ghost start = issue_views(out@);
    let ghost vv = issue_views(v@);
    let mut i: usize = 0;
    while i < v.len()
        invariant
            i <= v@.len(),
            vv == issue_views(v@),
            issue_views(out@) == start + at_level(vv.take(i as int), level),
        decreases v@.len() - i,
    {
        proof {
            assert(vv.take(i + 1).drop_last() =~= vv.take(i as int));
        }
        if v[i].level == level {
            let ghost prev = out@;
            out.push(copy_issue(&v[i]));
            proof {
                assert(issue_views(out@) =~= issue_views(prev).push(vv[i as int]));
            }
        }
        proof {
            assert(issue_views(out@) =~= start + at_level(vv.take(i + 1), level));
        }
        i = i + 1;
    }
    proof {
        assert(vv.take(i as int) =~= vv);
    }
}

/// Findings sorted from errors to notes, keeping their order within a level.
pub fn sort_by_level(v: &Vec<CheckIssue>) -> (r: Vec<CheckIssue>)
    ensures
        issue_views(r@) == by_level(issue_views(v@)),
{
    let mut out: Vec<CheckIssue> = Vec::new();
    push_at_level(&mut out, v, IssueLevel::Error);
    push_at_level(&mut out, v, IssueLevel::Warning);
    push_at_level(&mut out, v, IssueLevel::Info);
    proof {
        assert(issue_views(Seq::<CheckIssue>::empty()) =~= Seq::<IssueView>::empty());
        assert(issue_views(out@) =~= by_level(issue_views(v@)));
    }
    out
}

/// Appends the errors of the samples that could not be read.
fn push_sample_findings(out: &mut Vec<CheckIssue>, facts: &[TableFacts], names: &Vec<String>)
    requires
        names@.len() == facts@.len(),
    ensures
        issue_views(final(out)@) == issue_views(old(out)@) + sample_findings(facts@, texts(names@), facts@.len()),
{
    let ghost start = issue_views(out@);
    let mut j: usize = 0;
    while j < facts.len()
        invariant
            j <= facts@.len(),
            names@.len() == facts@.len(),
            issue_views(out@) == start + sample_findings(facts@, texts(names@), j as nat),
        decreases facts@.len() - j,
    {
        match &facts[j].sample {
            Err(e) => {
                let a = concat(names[j].as_str(), "：");
                let d = concat(a.as_str(), e.as_str());
                push_found(out, IssueLevel::Error, "无法抽样读取", d);
            },
            Ok(_) => {},
        }
        proof {
            assert(issue_views(out@) =~= start + sample_findings(facts@, texts(names@), (j + 1) as nat));
        }
        j = j + 1;
    }
}

/// Appends the findings of the output's shape.
fn push_shape_findings(out: &mut Vec<CheckIssue>, cols: usize, rows: u64, size_text: &str)
    ensures
        issue_views(final(out)@) == issue_views(old(out)@) + shape_findings(cols as nat, rows as nat, size_text@),
{
    let ghost start = issue_views(out@);
    if cols == 0 {
        push_found(out, IssueLevel::Error, "没有输出字段", owned("请检查映射或合并方式。"));
    }
    let ghost after_none = issue_views(out@);
    if cols > 16_384 {
        let a = concat("预计输出 ", decimal_string(cols as u64).as_str());
        let d = concat(a.as_str(), " 列。");
        push_found(out, IssueLevel::Error, "列数超出 XLSX 限制", d);
    }
    let sheets: u128 = if rows == 0 {
        1
    } else {
        (rows as u128 + 1_048_574) / 1_048_575
    };
    let sheets_text = string_of(decimal_chars_wide(sheets).as_slice());
    let a = concat("预计 ", decimal_string(rows).as_str());
    let b = concat(a.as_str(), " 行、");
    let c = concat(b.as_str(), decimal_string(cols as u64).as_str());
    let d = concat(c.as_str(), " 列、约 ");
    let e = concat(d.as_str(), sheets_text.as_str());
    let f = concat(e.as_str(), " 个结果 Sheet。");
    push_found(out, IssueLevel::Info, "输出规模", f);
    let g = concat("已选数据源合计约 ", size_text);
    let h = concat(g.as_str(), " MB。");
    push_found(out, IssueLevel::Info, "输入文件规模", h);
    proof {
        let part0: Seq<IssueView> = if cols == 0 {
            seq![found(IssueLevel::Error, "没有输出字段"@, "请检查映射或合并方式。"@)]
        } else {
            Seq::empty()
        };
        assert(after_none =~= start + part0);
        assert(issue_views(out@) =~= start + shape_findings(cols as nat, rows as nat, size_text@));
    }
}

/// Appends the findings about the settings, with `plan_headers` the output columns.
fn push_settings_findings(out: &mut Vec<CheckIssue>, options: &MergeOptions, plan_headers: &Vec<String>)
    ensures
        issue_views(final(out)@) == issue_views(old(out)@) + settings_findings(*options, texts(plan_headers@)),
{
    let ghost start = issue_views(out@);
    let keyed_mode = match options.mode {
        MergeMode::Consolidate | MergeMode::Join => true,
        _ => false,
    };
    if keyed_mode && options.key_columns.len() == 0 {
        push_found(out, IssueLevel::Error, "缺少键字段", owned("汇总或横向关联至少需要一个键字段。"));
    }
    let ghost after_keys = issue_views(out@);
    let filter_text = trim_str(options.filter_text.as_str());
    if !filter_text.as_str().is_empty() {
        let column = trim_str(options.filter_column.as_str());
        if column.as_str().is_empty() {
            push_found(
                out,
                IssueLevel::Warning,
                "筛选字段未填写",
                owned("已设置筛选文本，但字段名为空，筛选不会生效。"),
            );
        } else {
            let pk = key_list(plan_headers);
            let fk = header_key(options.filter_column.as_str());
            if !contains_text(&pk, &fk) {
                let a = concat("输出列中没有“", options.filter_column.as_str());
                let d = concat(a.as_str(), "”，筛选不会生效，请检查字段名。");
                push_found(out, IssueLevel::Error, "筛选字段不存在", d);
            }
        }
    }
    proof {
        let part0: Seq<IssueView> = if (options.mode == MergeMode::Consolidate || options.mode == MergeMode::Join)
            && options.key_columns@.len() == 0 {
            seq![found(IssueLevel::Error, "缺少键字段"@, "汇总或横向关联至少需要一个键字段。"@)]
        } else {
            Seq::empty()
        };
        assert(after_keys =~= start + part0);
        assert(issue_views(out@) =~= start + settings_findings(*options, texts(plan_headers@)));
    }
}

/// The names `names` are those under which the tables `ts` are shown, each with the file
/// name that the platform's path rules give.
pub open spec fn shown_names(ts: Seq<SourceTable>, names: Seq<Seq<char>>) -> bool {
    &&& names.len() == ts.len()
    &&& forall|j: int| 0 <= j < ts.len() ==> #[trigger] shown_as(names[j], ts[j])
}

/// `name` is the name under which `t` is shown: some file name, which for a plain path is
/// the text after its last `/` and for a portable path ending in `..` is empty, then the sheet name.
pub open spec fn shown_as(name: Seq<char>, t: SourceTable) -> bool {
    &&& exists|file: Seq<char>| name == display_text(file, t.sheet_name@)
    &&& crate::paths::plain_path(t.path@) ==> name == display_text(crate::paths::last_part(t.path@), t.sheet_name@)
    &&& crate::paths::ends_in_parent(t.path@) ==> name == display_text(Seq::empty(), t.sheet_name@)
}

/// The checks made before a merge. `facts` holds what was read of each enabled table, in
/// order; `size_text` is the size of the source files in megabytes as shown, and `similar`
/// the pairs of union keys that look alike. With no enabled table the only finding is that
/// there is none; otherwise the findings come sorted from errors to notes.
pub fn preflight(
    tables: &[SourceTable],
    options: &MergeOptions,
    facts: &[TableFacts],
    size_text: &str,
    similar: &Vec<String>,
) -> (r: Vec<CheckIssue>)
    requires
        facts@.len() == enabled_tables(tables@).len(),
        rows_total(enabled_tables(tables@)) <= u64::MAX,
    ensures
        enabled_tables(tables@).len() == 0 ==> issue_views(r@) == seq![
            found(IssueLevel::Error, "没有数据表"@, "请至少选择一个工作表或 CSV。"@),
        ],
        enabled_tables(tables@).len() > 0 ==> exists|names: Seq<Seq<char>>|
            shown_names(enabled_tables(tables@), names) && issue_views(r@) == by_level(
                all_findings(tables@, *options, facts@, size_text@, texts(similar@), names),
            ),
{
    let positions = enabled_positions(tables);
    let ghost ets = enabled_tables(tables@);
    let mut issues: Vec<CheckIssue> = Vec::new();
    if positions.len() == 0 {
        push_found(&mut issues, IssueLevel::Error, "没有数据表", owned("请至少选择一个工作表或 CSV。"));
        proof {
            assert(issue_views(issues@) =~= seq![
                found(IssueLevel::Error, "没有数据表"@, "请至少选择一个工作表或 CSV。"@),
            ]);
        }
        return issues;
    }
    let plan = build_output_plan(tables, options);
    let rows = estimated_rows_total(tables);
    push_shape_findings(&mut issues, plan.headers.len(), rows, size_text);
    let union = union_header_keys(tables);
    let ghost after_shape = issue_views(issues@);
    let mut names: Vec<String> = Vec::new();
    let mut j: usize = 0;
    while j < positions.len()
        invariant
            j <= positions@.len(),
            positions@.len() == ets.len(),
            facts@.len() == ets.len(),
            ets == enabled_tables(tables@),
            forall|q: int|
                0 <= q < positions@.len() ==> #[trigger] positions@[q] < tables@.len()
                    && tables@[positions@[q] as int] == ets[q],
            names@.len() == j,
            shown_names(ets.take(j as int), texts(names@)),
            issue_views(issues@) == after_shape + tables_findings(ets, facts@, texts(union@), texts(names@), j as nat),
        decreases positions@.len() - j,
    {
        let table = &tables[positions[j]];
        let name = table.display_name();
        let ghost before = issue_views(issues@);
        let ghost old_names = names@;
        push_table_findings(&mut issues, table, facts[j].exists, &facts[j].csv_error, &union, &name);
        names.push(name);
        proof {
            assert(texts(names@) =~= texts(old_names).push(name@));
            assert forall|q: int| 0 <= q < j + 1 implies #[trigger] shown_as(texts(names@)[q], ets.take(j + 1)[q]) by {
                if q < j {
                    assert(texts(names@)[q] == texts(old_names)[q]);
                    assert(ets.take(j + 1)[q] == ets.take(j as int)[q]);
                    assert(shown_as(texts(old_names)[q], ets.take(j as int)[q]));
                } else {
                    assert(texts(names@)[q] == name@);
                    assert(ets.take(j + 1)[q] == *table);
                }
            }
            assert(facts@[j as int].csv_error == facts[j as int].csv_error);
            lemma_tables_findings_names(ets, facts@, texts(union@), texts(old_names), texts(names@), j as nat);
            assert(issue_views(issues@) =~= after_shape + tables_findings(ets, facts@, texts(union@), texts(names@), (j + 1) as nat));
        }
        j = j + 1;
    }
    let ghost after_tables = issue_views(issues@);
    push_sample_findings(&mut issues, facts, &names);
    let obs = observations(tables, facts);
    push_mixed_findings(&mut issues, &obs);
    push_empty_findings(&mut issues, &union, &obs);
    if similar.len() > 0 {
        let detail = join_strings(similar.as_slice(), "；");
        push_found(&mut issues, IssueLevel::Warning, "疑似同义/错拼字段", detail);
    }
    let ghost before_settings = issue_views(issues@);
    push_settings_findings(&mut issues, options, &plan.headers);
    proof {
        assert(ets.take(j as int) =~= ets);
        assert(similar@.map_values(|p: String| p@) =~= texts(similar@));
        assert(issue_views(issues@) =~= all_findings(tables@, *options, facts@, size_text@, texts(similar@), texts(names@)));
    }
    let sorted = sort_by_level(&issues);
    sorted
}

/// The findings of the first `n` tables read only the first `n` names.
proof fn lemma_tables_findings_names(
    ts: Seq<SourceTable>,
    facts: Seq<TableFacts>,
    union: Seq<Seq<char>>,
    a: Seq<Seq<char>>,
    b: Seq<Seq<char>>,
    n: nat,
)
    requires
        n <= a.len(),
        n <= b.len(),
        forall|q: int| 0 <= q < n ==> a[q] == b[q],
    ensures
        tables_findings(ts, facts, union, a, n) == tables_findings(ts, facts, union, b, n),
    decreases n,
{
    if n > 0 {
        lemma_tables_findings_names(ts, facts, union, a, b, (n - 1) as nat);
    }
}

} // verus!
