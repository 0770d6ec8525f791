//! Source tables, column mappings and the output plan of a merge.
use vstd::prelude::*;
use crate::headers::{texts, keys, keyed, has_key, first_fresh, next_suffix, reorder, rank, lemma_first_fresh};
use crate::text::{trim, lower, upper, owned, trim_str, to_lowercase, to_uppercase, chars_of, string_of, trim_chars, push_all, white_space, lemma_trim_ends, trim_start, trim_end};

verus! {

broadcast use vstd::seq_lib::group_seq_properties;

/// How the output columns of a merge are chosen.
#[derive(Clone, Copy, Debug, PartialEq, Eq, Structural)]
pub enum MergeMode {
    /// The enabled target names of every table's column mappings.
    Manual,
    /// The first table's headers that every enabled table has.
    Intersection,
}

/// The kind of file a source table comes from.
#[derive(Clone, Copy, Debug, PartialEq, Eq, Structural)]
pub enum SourceKind {
    Csv { delimiter: u8 },
    Workbook,
}

/// A cleaning step applied to the values of a column.
#[derive(Clone, Copy, Debug, PartialEq, Eq, Structural)]
pub enum TransformOp {
    Unchanged,
    Trim,
    Uppercase,
    Lowercase,
}

/// The text `op` makes of `value`.
pub open spec fn transform(op: TransformOp, value: Seq<char>) -> Seq<char> {
    match op {
        TransformOp::Unchanged => value,
        TransformOp::Trim => trim(value),
        TransformOp::Uppercase => upper(trim(value)),
        TransformOp::Lowercase => lower(trim(value)),
    }
}

/// Applying no step or the trimming step twice gives what applying it once gives. (That the
/// case steps are so too would rest on `str::to_uppercase` and `str::to_lowercase` being
/// idempotent and leaving no white space at the ends, which their documentation does not
/// say.)
pub proof fn lemma_clean_steps_settle(op: TransformOp, value: Seq<char>)
    requires
        op == TransformOp::Unchanged || op == TransformOp::Trim,
    ensures
        transform(op, transform(op, value)) == transform(op, value),
{
    crate::text::lemma_trim_twice(value);
}

impl TransformOp {
    /// Applies the cleaning step to `value`.
    pub fn apply(self, value: &str) -> (r: String)
        ensures
            r@ == transform(self, value@),
    {
        match self {
            TransformOp::Unchanged => owned(value),
            TransformOp::Trim => trim_str(value),
            TransformOp::Uppercase => {
                let t = trim_str(value);
                to_uppercase(t.as_str())
            },
            TransformOp::Lowercase => {
                let t = trim_str(value);
                to_lowercase(t.as_str())
            },
        }
    }
}

impl Default for TransformOp {
    fn default() -> (r: Self)
        ensures
            r == TransformOp::Unchanged,
    {
        TransformOp::Unchanged
    }
}

/// Where one source column goes in the output.
#[derive(Clone, Debug)]
pub struct ColumnMapping {
    pub source_index: usize,
    pub source_name: String,
    pub target_name: String,
    pub enabled: bool,
    pub transform: TransformOp,
}

/// One sheet of a workbook or one CSV file, with its header row and column mappings.
#[derive(Clone, Debug)]
pub struct SourceTable {
    pub path: String,
    pub sheet_name: String,
    pub kind: SourceKind,
    pub header_row: usize,
    pub header_rows: usize,
    pub suggested_header_row: usize,
    pub headers: Vec<String>,
    pub estimated_rows: u64,
    pub enabled: bool,
    pub mappings: Vec<ColumnMapping>,
}

/// The user's merge settings.
#[derive(Clone, Debug)]
pub struct MergeOptions {
    pub mode: MergeMode,
    pub include_source_file: bool,
    pub include_source_sheet: bool,
    pub output_order: Vec<String>,
    pub deduplicate: bool,
    pub filter_column: String,
    pub filter_text: String,
    pub filter_exclude: bool,
}

impl Default for MergeOptions {
    fn default() -> (r: Self)
        ensures
            r.mode == MergeMode::Manual,
            !r.include_source_file,
            !r.include_source_sheet,
            r.output_order@.len() == 0,
            !r.deduplicate,
            r.filter_column@.len() == 0,
            r.filter_text@.len() == 0,
            !r.filter_exclude,
    {
        MergeOptions {
            mode: MergeMode::Manual,
            include_source_file: false,
            include_source_sheet: false,
            output_order: Vec::new(),
            deduplicate: false,
            filter_column: String::new(),
            filter_text: String::new(),
            filter_exclude: false,
        }
    }
}

/// The output columns of a merge and where the source file and sheet columns stand.
#[derive(Clone, Debug)]
pub struct OutputPlan {
    pub headers: Vec<String>,
    pub source_file_column: Option<usize>,
    pub source_sheet_column: Option<usize>,
}

/// A line break inside a header cell.
pub open spec fn line_break(c: char) -> bool {
    c == '\r' || c == '\n' || c == '\u{2028}' || c == '\u{2029}'
}

/// The pieces of `s` between line breaks (one more than there are line breaks).
pub open spec fn pieces(s: Seq<char>) -> Seq<Seq<char>>
    decreases s.len(),
{
    if s.len() == 0 {
        seq![Seq::empty()]
    } else {
        let p = pieces(s.drop_last());
        if line_break(s.last()) {
            p.push(Seq::empty())
        } else {
            p.update(p.len() - 1, p.last().push(s.last()))
        }
    }
}

/// The trimmed pieces, put back together.
pub open spec fn joined_trimmed(ps: Seq<Seq<char>>) -> Seq<char>
    decreases ps.len(),
{
    if ps.len() == 0 {
        Seq::empty()
    } else {
        joined_trimmed(ps.drop_last()) + trim(ps.last())
    }
}

/// The matching key of a header: its lines trimmed and joined, then lowercased.
pub open spec fn key(s: Seq<char>) -> Seq<char> {
    lower(joined_trimmed(pieces(s)))
}

/// A header text always has at least one piece.
pub proof fn lemma_pieces_nonempty(s: Seq<char>)
    ensures
        pieces(s).len() >= 1,
    decreases s.len(),
{
    if s.len() > 0 {
        lemma_pieces_nonempty(s.drop_last());
    }
}

/// No piece of a header text holds a line break.
proof fn lemma_pieces_unbroken(s: Seq<char>)
    ensures
        forall|j: int, i: int|
            0 <= j < pieces(s).len() && 0 <= i < pieces(s)[j].len() ==> !line_break(
                #[trigger] pieces(s)[j][i],
            ),
    decreases s.len(),
{
    lemma_pieces_nonempty(s);
    if s.len() > 0 {
        lemma_pieces_unbroken(s.drop_last());
        lemma_pieces_nonempty(s.drop_last());
        let p = pieces(s.drop_last());
        if !line_break(s.last()) {
            let q = p.update(p.len() - 1, p.last().push(s.last()));
            assert forall|j: int, i: int| 0 <= j < q.len() && 0 <= i < q[j].len() implies !line_break(
                #[trigger] q[j][i],
            ) by {
                if j == p.len() - 1 && i == p.last().len() {
                    assert(q[j][i] == s.last());
                } else if j == p.len() - 1 {
                    assert(q[j][i] == p[j][i]);
                } else {
                    assert(q[j] == p[j]);
                }
            }
        } else {
            let q = p.push(Seq::<char>::empty());
            assert forall|j: int, i: int| 0 <= j < q.len() && 0 <= i < q[j].len() implies !line_break(
                #[trigger] q[j][i],
            ) by {
                assert(j < p.len());
                assert(q[j] == p[j]);
            }
        }
    }
}

/// Trimmed pieces without line breaks join into a text without line breaks that neither
/// starts nor ends with white space.
proof fn lemma_joined_trimmed_clean(ps: Seq<Seq<char>>)
    requires
        forall|j: int, i: int| 0 <= j < ps.len() && 0 <= i < ps[j].len() ==> !line_break(#[trigger] ps[j][i]),
    ensures
        forall|i: int| 0 <= i < joined_trimmed(ps).len() ==> !line_break(#[trigger] joined_trimmed(ps)[i]),
        joined_trimmed(ps).len() == 0 || (!white_space(joined_trimmed(ps)[0]) && !white_space(
            joined_trimmed(ps).last(),
        )),
    decreases ps.len(),
{
    if ps.len() > 0 {
        let init = ps.drop_last();
        assert forall|j: int, i: int| 0 <= j < init.len() && 0 <= i < init[j].len() implies !line_break(
            #[trigger] init[j][i],
        ) by {
            assert(init[j] == ps[j]);
        }
        lemma_joined_trimmed_clean(init);
        let a = joined_trimmed(init);
        let last = ps.last();
        let b = trim(last);
        lemma_trim_ends(last);
        let t = a + b;
        assert(joined_trimmed(ps) == t);
        assert forall|i: int| 0 <= i < t.len() implies !line_break(#[trigger] t[i]) by {
            if i >= a.len() {
                assert(t[i] == b[i - a.len()]);
                assert(last.contains(b[i - a.len()]));
                let k = choose|k: int| 0 <= k < last.len() && last[k] == b[i - a.len()];
                assert(ps[ps.len() - 1][k] == last[k]);
            } else {
                assert(t[i] == a[i]);
            }
        }
        if t.len() > 0 {
            if a.len() > 0 {
                assert(t[0] == a[0]);
            } else {
                assert(t[0] == b[0]);
            }
            if b.len() > 0 {
                assert(t.last() == b.last());
            } else {
                assert(t =~= a);
            }
        }
    }
}

/// A text without line breaks is one piece.
proof fn lemma_pieces_of_unbroken(t: Seq<char>)
    requires
        forall|i: int| 0 <= i < t.len() ==> !line_break(#[trigger] t[i]),
    ensures
        pieces(t) == seq![t],
    decreases t.len(),
{
    if t.len() > 0 {
        let u = t.drop_last();
        assert forall|i: int| 0 <= i < u.len() implies !line_break(#[trigger] u[i]) by {
            assert(u[i] == t[i]);
        }
        lemma_pieces_of_unbroken(u);
        assert(!line_break(t[t.len() - 1]));
        assert(u.push(t.last()) =~= t);
        assert(seq![u].update(0, u.push(t.last())) =~= seq![t]);
    } else {
        assert(t =~= Seq::<char>::empty());
    }
}

/// The text that a header's key case-folds has no line breaks, does not start or end with
/// white space, and is given back unchanged when its lines are trimmed and joined again.
pub proof fn lemma_key_text_settled(s: Seq<char>)
    ensures
        key(s) == lower(joined_trimmed(pieces(s))),
        forall|i: int|
            0 <= i < joined_trimmed(pieces(s)).len() ==> !line_break(#[trigger] joined_trimmed(pieces(s))[i]),
        trim(joined_trimmed(pieces(s))) == joined_trimmed(pieces(s)),
        joined_trimmed(pieces(joined_trimmed(pieces(s)))) == joined_trimmed(pieces(s)),
{
    lemma_pieces_unbroken(s);
    lemma_joined_trimmed_clean(pieces(s));
    let t = joined_trimmed(pieces(s));
    lemma_pieces_of_unbroken(t);
    let one = seq![t];
    assert(one.drop_last() =~= Seq::<Seq<char>>::empty());
    assert(one.last() == t);
    assert(joined_trimmed(Seq::<Seq<char>>::empty()) == Seq::<char>::empty());
    assert(joined_trimmed(one) =~= Seq::<char>::empty() + trim(t));
    assert(Seq::<char>::empty() + trim(t) =~= trim(t));
    if t.len() > 0 {
        assert(trim_start(t) == t);
        assert(trim_end(t) == t);
    } else {
        assert(trim_start(t) == t);
    }
}

/// Whether `c` breaks a header cell into lines.
pub fn is_line_break(c: char) -> (r: bool)
    ensures
        r == line_break(c),
{
    c == '\r' || c == '\n' || c == '\u{2028}' || c == '\u{2029}'
}

/// The matching key of a header: line breaks and the white space around them are ignored,
/// and case is folded.
pub fn header_key(value: &str) -> (r: String)
    ensures
        r@ == key(value@),
{
    let cs = chars_of(value);
    let mut out: Vec<char> = Vec::new();
    let mut cur: Vec<char> = Vec::new();
    let mut i: usize = 0;
    proof {
        assert(cs@.take(0) =~= Seq::<char>::empty());
    }
    while i < cs.len()
        invariant
            i <= cs@.len(),
            cs@ == value@,
            pieces(cs@.take(i as int)).len() >= 1,
            pieces(cs@.take(i as int)).last() == cur@,
            out@ == joined_trimmed(pieces(cs@.take(i as int)).drop_last()),
        decreases cs@.len() - i,
    {
        let c = cs[i];
        let ghost p = pieces(cs@.take(i as int));
        assert(cs@.take(i + 1).drop_last() =~= cs@.take(i as int));
        assert(cs@.take(i + 1).last() == c);
        if is_line_break(c) {
            let t = trim_chars(cur.as_slice());
            push_all(&mut out, t.as_slice());
            cur = Vec::new();
            assert(p.push(Seq::empty()).drop_last() =~= p);
        } else {
            cur.push(c);
            assert(p.update(p.len() - 1, p.last().push(c)).drop_last() =~= p.drop_last());
        }
        i = i + 1;
    }
    let t = trim_chars(cur.as_slice());
    push_all(&mut out, t.as_slice());
    proof {
        assert(cs@.take(cs@.len() as int) =~= cs@);
    }
    let joined = string_of(out.as_slice());
    to_lowercase(joined.as_str())
}

/// The default column mappings: every header maps to itself, enabled and untransformed.
pub fn make_default_mappings(headers: &[String]) -> (r: Vec<ColumnMapping>)
    ensures
        r@.len() == headers@.len(),
        forall|i: int|
            0 <= i < r@.len() ==> {
                &&& (#[trigger] r@[i]).source_index == i
                &&& r@[i].source_name@ == headers@[i]@
                &&& r@[i].target_name@ == headers@[i]@
                &&& r@[i].enabled
                &&& r@[i].transform == TransformOp::Unchanged
            },
{
    let mut out: Vec<ColumnMapping> = Vec::new();
    let mut i: usize = 0;
    while i < headers.len()
        invariant
            i <= headers@.len(),
            out@.len() == i,
            forall|j: int|
                0 <= j < i ==> {
                    &&& (#[trigger] out@[j]).source_index == j
                    &&& out@[j].source_name@ == headers@[j]@
                    &&& out@[j].target_name@ == headers@[j]@
                    &&& out@[j].enabled
                    &&& out@[j].transform == TransformOp::Unchanged
                },
        decreases headers@.len() - i,
    {
        out.push(
            ColumnMapping {
                source_index: i,
                source_name: headers[i].clone(),
                target_name: headers[i].clone(),
                enabled: true,
                transform: TransformOp::Unchanged,
            },
        );
        i = i + 1;
    }
    out
}

} // verus!

verus! {

/// `key` as a function value.
pub open spec fn key_fn() -> spec_fn(Seq<char>) -> Seq<char> {
    |s: Seq<char>| key(s)
}

/// The name a header cell gets before duplicates are told apart: the trimmed text, or
/// `未命名列<n>` for an empty cell in column `n` (counting from one).
pub open spec fn base_name(v: Seq<char>, index: int) -> Seq<char> {
    let t = crate::text::strip_bom(trim(v));
    if t.len() == 0 {
        "未命名列"@ + crate::text::decimal((index + 1) as nat)
    } else {
        t
    }
}

/// The candidates for a repeated header: the name itself, then `<name>_2`, `<name>_3`, ...
pub open spec fn suffixed(base: Seq<char>) -> spec_fn(nat) -> Seq<char> {
    |n: nat|
        if n < 2 {
            base
        } else {
            base + seq!['_'] + crate::text::decimal(n)
        }
}

/// The normalized header row: each cell gets its base name, made unique by the first
/// suffix whose key no earlier header has.
pub open spec fn normalized(values: Seq<Seq<char>>) -> Seq<Seq<char>>
    decreases values.len(),
{
    if values.len() == 0 {
        Seq::empty()
    } else {
        let p = normalized(values.drop_last());
        p.push(
            first_fresh(
                keys(p, key_fn()),
                key_fn(),
                suffixed(base_name(values.last(), values.len() - 1)),
                1,
            ),
        )
    }
}

/// The normalized headers of a prefix of a row are the prefix of its normalized headers.
proof fn lemma_normalized_take(values: Seq<Seq<char>>, n: int)
    requires
        0 <= n <= values.len(),
    ensures
        normalized(values).len() == values.len(),
        normalized(values.take(n)) == normalized(values).take(n),
    decreases values.len(),
{
    if values.len() > 0 {
        lemma_normalized_take(values.drop_last(), if n < values.len() { n } else { 0 });
    }
    if n == values.len() {
        assert(values.take(n) =~= values);
        assert(normalized(values).take(n) =~= normalized(values));
    } else {
        assert(values.take(n) =~= values.drop_last().take(n));
        assert(normalized(values).take(n) =~= normalized(values.drop_last()).take(n));
    }
}

/// Every normalized header is non-empty, and its key differs from the key of every earlier
/// header, unless the search for a free suffix ran out at `u64::MAX`.
pub proof fn lemma_normalized_headers(values: Seq<Seq<char>>, i: int, j: int)
    requires
        0 <= i < values.len(),
    ensures
        normalized(values).len() == values.len(),
        normalized(values)[i].len() > 0,
        0 <= j < i ==> key(normalized(values)[j]) != key(normalized(values)[i]) || normalized(values)[i]
            == suffixed(base_name(values[i], i))(u64::MAX as nat),
{
    lemma_normalized_take(values, i + 1);
    lemma_normalized_take(values, i);
    let pre = values.take(i + 1);
    assert(pre.drop_last() =~= values.take(i));
    assert(pre.last() == values[i]);
    let p = normalized(values.take(i));
    let cand = suffixed(base_name(values[i], i));
    let used = keys(p, key_fn());
    assert(normalized(values)[i] == normalized(pre)[i]);
    assert(normalized(pre)[i] == first_fresh(used, key_fn(), cand, 1));
    lemma_first_fresh(used, key_fn(), cand, 1);
    let t = choose|t: nat|
        1 <= t && first_fresh(used, key_fn(), cand, 1) == #[trigger] cand(t) && (!used.contains(
            key_fn()(cand(t)),
        ) || t >= u64::MAX) && (1 <= u64::MAX ==> t <= u64::MAX);
    reveal_strlit("未命名列");
    assert(base_name(values[i], i).len() > 0);
    assert(cand(t).len() > 0);
    if 0 <= j < i {
        assert(p[j] == normalized(values)[j]);
        assert(used[j] == key(normalized(values)[j]));
        if t < u64::MAX {
            assert(used.contains(key(normalized(values)[j])));
        }
    }
}

/// The base name of header cell `value` in column `index`.
fn base_name_of(value: &String, index: usize) -> (r: Vec<char>)
    requires
        index < usize::MAX,
    ensures
        r@ == base_name(value@, index as int),
{
    let cs = chars_of(value.as_str());
    let t = trim_chars(cs.as_slice());
    let b = crate::text::strip_bom_chars(&t);
    if b.len() == 0 {
        let mut out = chars_of("未命名列");
        let n = crate::text::decimal_chars((index as u64) + 1);
        push_all(&mut out, n.as_slice());
        out
    } else {
        b
    }
}

/// Turns a header row into unique, non-empty column names: cells are trimmed (and lose a
/// leading byte order mark), empty cells are named after their column, and a repeated
/// name gets the first free suffix `_2`, `_3`, ...
pub fn normalize_headers(values: &[String]) -> (r: Vec<String>)
    ensures
        texts(r@) == normalized(texts(values@)),
{
    let mut used: Vec<String> = Vec::new();
    let mut result: Vec<String> = Vec::new();
    let mut index: usize = 0;
    proof {
        assert(texts(values@).take(0) =~= Seq::<Seq<char>>::empty());
    }
    while index < values.len()
        invariant
            index <= values@.len(),
            keyed(used@, result@, key_fn()),
            texts(result@) == normalized(texts(values@).take(index as int)),
        decreases values@.len() - index,
    {
        let base = base_name_of(&values[index], index);
        let ghost cand = suffixed(base@);
        let ghost used_keys = keys(texts(result@), key_fn());
        assert(texts(used@) =~= used_keys);
        let mut suffix: u64 = 1;
        let mut candidate = string_of(base.as_slice());
        let mut k = header_key(candidate.as_str());
        while crate::headers::has_key_in(&used, &k) && suffix < u64::MAX
            invariant
                texts(used@) == used_keys,
                cand == suffixed(base@),
                candidate@ == cand(suffix as nat),
                k@ == key(candidate@),
                first_fresh(used_keys, key_fn(), cand, 1) == first_fresh(
                    used_keys,
                    key_fn(),
                    cand,
                    suffix as nat,
                ),
                1 <= suffix,
            decreases u64::MAX - suffix,
        {
            suffix = if suffix < 2 {
                2
            } else {
                suffix + 1
            };
            let mut c: Vec<char> = Vec::new();
            push_all(&mut c, base.as_slice());
            c.push('_');
            let digits = crate::text::decimal_chars(suffix);
            push_all(&mut c, digits.as_slice());
            assert(c@ =~= base@ + seq!['_'] + crate::text::decimal(suffix as nat));
            candidate = string_of(c.as_slice());
            k = header_key(candidate.as_str());
        }
        let ghost prev = texts(result@);
        used.push(k);
        result.push(candidate);
        proof {
            let vs = texts(values@).take(index + 1);
            assert(vs.drop_last() =~= texts(values@).take(index as int));
            assert(vs.last() == values@[index as int]@);
            assert(texts(result@) =~= prev.push(candidate@));
        }
        index = index + 1;
    }
    proof {
        assert(texts(values@).take(values@.len() as int) =~= texts(values@));
    }
    result
}

} // verus!

verus! {

/// The enabled tables of `ts`, in order.
pub open spec fn enabled_tables(ts: Seq<SourceTable>) -> Seq<SourceTable>
    decreases ts.len(),
{
    if ts.len() == 0 {
        Seq::empty()
    } else {
        let p = enabled_tables(ts.drop_last());
        if ts.last().enabled {
            p.push(ts.last())
        } else {
            p
        }
    }
}

/// The positions of the enabled tables of `tables`.
pub fn enabled_positions(tables: &[SourceTable]) -> (r: Vec<usize>)
    ensures
        r@.len() == enabled_tables(tables@).len(),
        forall|j: int|
            0 <= j < r@.len() ==> #[trigger] r@[j] < tables@.len() && tables@[r@[j] as int]
                == enabled_tables(tables@)[j],
        forall|j: int, k: int| 0 <= j < k < r@.len() ==> r@[j] < r@[k],
{
    let mut out: Vec<usize> = Vec::new();
    let mut i: usize = 0;
    assert(tables@.take(0) =~= Seq::<SourceTable>::empty());
    while i < tables.len()
        invariant
            i <= tables@.len(),
            out@.len() == enabled_tables(tables@.take(i as int)).len(),
            forall|j: int|
                0 <= j < out@.len() ==> #[trigger] out@[j] < i && tables@[out@[j] as int]
                    == enabled_tables(tables@.take(i as int))[j],
            forall|j: int, k: int| 0 <= j < k < out@.len() ==> out@[j] < out@[k],
        decreases tables@.len() - i,
    {
        let ghost t = tables@.take(i + 1);
        assert(t.drop_last() =~= tables@.take(i as int));
        assert(t.last() == tables@[i as int]);
        if tables[i].enabled {
            out.push(i);
        }
        i = i + 1;
    }
    assert(tables@.take(tables@.len() as int) =~= tables@);
    out
}

/// `acc` with the trimmed target `t` added where it is non-empty and its key is new.
pub open spec fn add_target(acc: Seq<Seq<char>>, t: Seq<char>) -> Seq<Seq<char>> {
    if t.len() > 0 && !has_key(acc, key_fn(), key(t)) {
        acc.push(t)
    } else {
        acc
    }
}

/// `acc` with the targets of the enabled mappings `ms` added in order.
pub open spec fn add_targets(acc: Seq<Seq<char>>, ms: Seq<ColumnMapping>) -> Seq<Seq<char>>
    decreases ms.len(),
{
    if ms.len() == 0 {
        acc
    } else {
        let a = add_targets(acc, ms.drop_last());
        if ms.last().enabled {
            add_target(a, trim(ms.last().target_name@))
        } else {
            a
        }
    }
}

/// The manual-mode columns: each distinct (by key) trimmed target name of an enabled
/// mapping, in table and mapping order.
pub open spec fn manual_headers(ts: Seq<SourceTable>) -> Seq<Seq<char>>
    decreases ts.len(),
{
    if ts.len() == 0 {
        Seq::empty()
    } else {
        add_targets(manual_headers(ts.drop_last()), ts.last().mappings@)
    }
}

/// Whether every table of `ts` after the first has a header with key `k`.
pub open spec fn in_all_others(ts: Seq<SourceTable>, k: Seq<char>) -> bool {
    forall|j: int| 1 <= j < ts.len() ==> #[trigger] has_key(texts(ts[j].headers@), key_fn(), k)
}

/// The headers of `hs` whose key every table of `ts` after the first has.
pub open spec fn keep_common(hs: Seq<Seq<char>>, ts: Seq<SourceTable>) -> Seq<Seq<char>>
    decreases hs.len(),
{
    if hs.len() == 0 {
        Seq::empty()
    } else {
        let p = keep_common(hs.drop_last(), ts);
        if in_all_others(ts, key(hs.last())) {
            p.push(hs.last())
        } else {
            p
        }
    }
}

/// The intersection-mode columns: the first table's headers that all tables share.
pub open spec fn intersection_headers(ts: Seq<SourceTable>) -> Seq<Seq<char>> {
    if ts.len() == 0 {
        Seq::empty()
    } else {
        keep_common(texts(ts[0].headers@), ts)
    }
}

/// The keys of `hs`, computed.
pub fn key_list(hs: &Vec<String>) -> (r: Vec<String>)
    ensures
        keyed(r@, hs@, key_fn()),
        texts(r@) == keys(texts(hs@), key_fn()),
{
    let mut out: Vec<String> = Vec::new();
    let mut i: usize = 0;
    while i < hs.len()
        invariant
            i <= hs@.len(),
            out@.len() == i,
            forall|j: int| 0 <= j < i ==> #[trigger] out@[j]@ == key(hs@[j]@),
        decreases hs@.len() - i,
    {
        out.push(header_key(hs[i].as_str()));
        i = i + 1;
    }
    assert(texts(out@) =~= keys(texts(hs@), key_fn()));
    out
}

/// The columns of manual mode over the enabled tables at `positions`.
fn manual_columns(tables: &[SourceTable], positions: &Vec<usize>) -> (r: Vec<String>)
    requires
        positions@.len() == enabled_tables(tables@).len(),
        forall|j: int|
            0 <= j < positions@.len() ==> #[trigger] positions@[j] < tables@.len()
                && tables@[positions@[j] as int] == enabled_tables(tables@)[j],
    ensures
        texts(r@) == manual_headers(enabled_tables(tables@)),
{
    let ghost ts = enabled_tables(tables@);
    let mut seen: Vec<String> = Vec::new();
    let mut out: Vec<String> = Vec::new();
    let mut t: usize = 0;
    assert(ts.take(0) =~= Seq::<SourceTable>::empty());
    while t < positions.len()
        invariant
            t <= positions@.len(),
            ts == enabled_tables(tables@),
            positions@.len() == ts.len(),
            forall|j: int|
                0 <= j < positions@.len() ==> #[trigger] positions@[j] < tables@.len()
                    && tables@[positions@[j] as int] == ts[j],
            keyed(seen@, out@, key_fn()),
            texts(out@) == manual_headers(ts.take(t as int)),
        decreases positions@.len() - t,
    {
        let table = &tables[positions[t]];
        let ghost ms = table.mappings@;
        let ghost start = texts(out@);
        let mut m: usize = 0;
        assert(ms.take(0) =~= Seq::<ColumnMapping>::empty());
        while m < table.mappings.len()
            invariant
                m <= ms.len(),
                ms == table.mappings@,
                keyed(seen@, out@, key_fn()),
                texts(out@) == add_targets(start, ms.take(m as int)),
            decreases ms.len() - m,
        {
            let mapping = &table.mappings[m];
            let ghost before = texts(out@);
            assert(ms.take(m + 1).drop_last() =~= ms.take(m as int));
            assert(ms.take(m + 1).last() == ms[m as int]);
            if mapping.enabled {
                let target = trim_str(mapping.target_name.as_str());
                if !target.as_str().is_empty() {
                    let k = header_key(target.as_str());
                    assert(texts(seen@) =~= keys(before, key_fn()));
                    if !crate::headers::has_key_in(&seen, &k) {
                        seen.push(k);
                        out.push(target);
                        assert(texts(out@) =~= before.push(trim(mapping.target_name@)));
                    }
                } else {
                    assert(target@.len() == 0);
                }
            }
            m = m + 1;
        }
        assert(ms.take(ms.len() as int) =~= ms);
        assert(ts.take(t + 1).drop_last() =~= ts.take(t as int));
        assert(ts.take(t + 1).last() == ts[t as int]);
        t = t + 1;
    }
    assert(ts.take(ts.len() as int) =~= ts);
    out
}

} // verus!

verus! {

/// The columns of intersection mode over the enabled tables at `positions`.
fn intersection_columns(tables: &[SourceTable], positions: &Vec<usize>) -> (r: Vec<String>)
    requires
        positions@.len() == enabled_tables(tables@).len(),
        forall|j: int|
            0 <= j < positions@.len() ==> #[trigger] positions@[j] < tables@.len()
                && tables@[positions@[j] as int] == enabled_tables(tables@)[j],
    ensures
        texts(r@) == intersection_headers(enabled_tables(tables@)),
{
    let ghost ts = enabled_tables(tables@);
    if positions.len() == 0 {
        return Vec::new();
    }
    let mut others: Vec<Vec<String>> = Vec::new();
    let mut j: usize = 1;
    while j < positions.len()
        invariant
            1 <= j <= positions@.len(),
            ts == enabled_tables(tables@),
            positions@.len() == ts.len(),
            forall|q: int|
                0 <= q < positions@.len() ==> #[trigger] positions@[q] < tables@.len()
                    && tables@[positions@[q] as int] == ts[q],
            others@.len() == j - 1,
            forall|q: int|
                0 <= q < others@.len() ==> texts(#[trigger] others@[q]@) == keys(
                    texts(ts[q + 1].headers@),
                    key_fn(),
                ),
        decreases positions@.len() - j,
    {
        let ks = key_list(&tables[positions[j]].headers);
        others.push(ks);
        j = j + 1;
    }
    let first = &tables[positions[0]];
    let ghost hs = texts(first.headers@);
    assert(first == ts[0]);
    let mut out: Vec<String> = Vec::new();
    let mut i: usize = 0;
    assert(hs.take(0) =~= Seq::<Seq<char>>::empty());
    while i < first.headers.len()
        invariant
            i <= hs.len(),
            hs == texts(first.headers@),
            ts.len() >= 1,
            others@.len() == ts.len() - 1,
            forall|q: int|
                0 <= q < others@.len() ==> texts(#[trigger] others@[q]@) == keys(
                    texts(ts[q + 1].headers@),
                    key_fn(),
                ),
            texts(out@) == keep_common(hs.take(i as int), ts),
        decreases hs.len() - i,
    {
        let k = header_key(first.headers[i].as_str());
        let mut all = true;
        let mut q: usize = 0;
        while q < others.len()
            invariant
                q <= others@.len(),
                others@.len() == ts.len() - 1,
                forall|p: int|
                    0 <= p < others@.len() ==> texts(#[trigger] others@[p]@) == keys(
                        texts(ts[p + 1].headers@),
                        key_fn(),
                    ),
                all == forall|p: int|
                    1 <= p < q + 1 ==> #[trigger] has_key(texts(ts[p].headers@), key_fn(), k@),
            decreases others@.len() - q,
        {
            let found = crate::headers::has_key_in(&others[q], &k);
            let ghost old_all = all;
            proof {
                assert(texts(others@[q as int]@) == keys(texts(ts[q + 1].headers@), key_fn()));
                assert(found == has_key(texts(ts[q + 1].headers@), key_fn(), k@));
            }
            all = all && found;
            proof {
                if all {
                    assert forall|p: int| 1 <= p < q + 2 implies #[trigger] has_key(
                        texts(ts[p].headers@),
                        key_fn(),
                        k@,
                    ) by {
                        if p < q + 1 {
                        }
                    }
                } else if !old_all {
                    let p = choose|p: int|
                        1 <= p < q + 1 && !#[trigger] has_key(texts(ts[p].headers@), key_fn(), k@);
                    assert(1 <= p < q + 2);
                } else {
                    assert(!has_key(texts(ts[q + 1].headers@), key_fn(), k@));
                }
            }
            q = q + 1;
        }
        assert(all == in_all_others(ts, key(hs[i as int])));
        let ghost before = texts(out@);
        assert(hs.take(i + 1).drop_last() =~= hs.take(i as int));
        assert(hs.take(i + 1).last() == hs[i as int]);
        if all {
            out.push(first.headers[i].clone());
            assert(texts(out@) =~= before.push(hs[i as int]));
        }
        i = i + 1;
    }
    assert(hs.take(hs.len() as int) =~= hs);
    out
}

/// The candidates for a source column name: the name, then `_<name>2`, `_<name>3`, ...
pub open spec fn meta_cand(base: Seq<char>) -> spec_fn(nat) -> Seq<char> {
    |n: nat|
        if n < 2 {
            base
        } else {
            seq!['_'] + base + crate::text::decimal(n)
        }
}

/// The name a source column gets next to the columns `hs`: the first candidate whose key
/// none of them has.
pub open spec fn meta_name(hs: Seq<Seq<char>>, base: Seq<char>) -> Seq<char> {
    first_fresh(keys(hs, key_fn()), key_fn(), meta_cand(base), 1)
}

/// A source column is named after its base (`来源文件`, `来源工作表`), or where a column of
/// that key exists, `_`, the base and a number from two up.
pub proof fn lemma_source_column_name(hs: Seq<Seq<char>>, base: Seq<char>)
    ensures
        meta_name(hs, base) == base || exists|n: nat|
            n >= 2 && meta_name(hs, base) == seq!['_'] + base + crate::text::decimal(n),
{
    crate::headers::lemma_first_fresh(keys(hs, key_fn()), key_fn(), meta_cand(base), 1);
    let t = choose|t: nat|
        1 <= t && first_fresh(keys(hs, key_fn()), key_fn(), meta_cand(base), 1) == #[trigger] meta_cand(base)(t)
            && (!keys(hs, key_fn()).contains(key_fn()(meta_cand(base)(t))) || t >= u64::MAX) && (1 <= u64::MAX
            ==> t <= u64::MAX);
    if t >= 2 {
        assert(meta_name(hs, base) == seq!['_'] + base + crate::text::decimal(t));
    }
}


/// Adds a source column named after `base` to `headers` and returns its name.
fn push_unique_metadata(headers: &mut Vec<String>, base: &str) -> (r: String)
    ensures
        r@ == meta_name(texts(old(headers)@), base@),
        texts(final(headers)@) == texts(old(headers)@).push(r@),
{
    let existing = key_list(headers);
    let ghost used_keys = keys(texts(headers@), key_fn());
    let ghost cand = meta_cand(base@);
    let base_chars = chars_of(base);
    let mut suffix: u64 = 1;
    let mut name = owned(base);
    let mut k = header_key(name.as_str());
    while crate::headers::has_key_in(&existing, &k) && suffix < u64::MAX
        invariant
            texts(existing@) == used_keys,
            cand == meta_cand(base@),
            base_chars@ == base@,
            name@ == cand(suffix as nat),
            k@ == key(name@),
            first_fresh(used_keys, key_fn(), cand, 1) == first_fresh(
                used_keys,
                key_fn(),
                cand,
                suffix as nat,
            ),
            1 <= suffix,
        decreases u64::MAX - suffix,
    {
        suffix = if suffix < 2 {
            2
        } else {
            suffix + 1
        };
        let mut c: Vec<char> = Vec::new();
        c.push('_');
        push_all(&mut c, base_chars.as_slice());
        let digits = crate::text::decimal_chars(suffix);
        push_all(&mut c, digits.as_slice());
        assert(c@ =~= seq!['_'] + base@ + crate::text::decimal(suffix as nat));
        name = string_of(c.as_slice());
        k = header_key(name.as_str());
    }
    let ghost before = texts(headers@);
    headers.push(name.clone());
    assert(texts(headers@) =~= before.push(name@));
    name
}

/// The name of the source file column.
pub open spec fn source_file_label() -> Seq<char> {
    "来源文件"@
}

/// The name of the source sheet column.
pub open spec fn source_sheet_label() -> Seq<char> {
    "来源工作表"@
}

/// The columns chosen by the merge mode, before any source column.
pub open spec fn mode_headers(ts: Seq<SourceTable>, mode: MergeMode) -> Seq<Seq<char>> {
    match mode {
        MergeMode::Manual => manual_headers(enabled_tables(ts)),
        MergeMode::Intersection => intersection_headers(enabled_tables(ts)),
    }
}

/// The mode columns followed by the source file column, where it is asked for.
pub open spec fn with_file_column(ts: Seq<SourceTable>, o: MergeOptions) -> Seq<Seq<char>> {
    let h = mode_headers(ts, o.mode);
    if o.include_source_file {
        h.push(meta_name(h, source_file_label()))
    } else {
        h
    }
}

/// The mode columns followed by the source file and source sheet columns that are asked for.
pub open spec fn with_source_columns(ts: Seq<SourceTable>, o: MergeOptions) -> Seq<Seq<char>> {
    let h = with_file_column(ts, o);
    if o.include_source_sheet {
        h.push(meta_name(h, source_sheet_label()))
    } else {
        h
    }
}

/// The output columns: the mode columns and source columns, stably ordered by the user's
/// output order (matched by key).
pub open spec fn planned_headers(ts: Seq<SourceTable>, o: MergeOptions) -> Seq<Seq<char>> {
    reorder(with_source_columns(ts, o), key_fn(), keys(texts(o.output_order@), key_fn()))
}

/// Where the source file column stands in the output, if it is asked for.
pub open spec fn planned_file_column(ts: Seq<SourceTable>, o: MergeOptions) -> Option<usize> {
    if o.include_source_file {
        Some(
            crate::headers::first_key_index(
                planned_headers(ts, o),
                key_fn(),
                key(meta_name(mode_headers(ts, o.mode), source_file_label())),
            ) as usize,
        )
    } else {
        None
    }
}

/// Where the source sheet column stands in the output, if it is asked for.
pub open spec fn planned_sheet_column(ts: Seq<SourceTable>, o: MergeOptions) -> Option<usize> {
    if o.include_source_sheet {
        Some(
            crate::headers::first_key_index(
                planned_headers(ts, o),
                key_fn(),
                key(meta_name(with_file_column(ts, o), source_sheet_label())),
            ) as usize,
        )
    } else {
        None
    }
}

/// Keeping only the enabled tables keeps them all.
proof fn lemma_enabled_twice(ts: Seq<SourceTable>)
    ensures
        enabled_tables(enabled_tables(ts)) == enabled_tables(ts),
    decreases ts.len(),
{
    if ts.len() > 0 {
        lemma_enabled_twice(ts.drop_last());
        let p = enabled_tables(ts.drop_last());
        if ts.last().enabled {
            assert(p.push(ts.last()).drop_last() =~= p);
        }
    }
}

/// Disabled tables do not change the output plan: the plan of the enabled tables alone is
/// the plan of all of them, its columns and its source file and sheet columns alike.
pub proof fn lemma_plan_ignores_disabled(ts: Seq<SourceTable>, o: MergeOptions)
    ensures
        planned_headers(enabled_tables(ts), o) == planned_headers(ts, o),
        planned_file_column(enabled_tables(ts), o) == planned_file_column(ts, o),
        planned_sheet_column(enabled_tables(ts), o) == planned_sheet_column(ts, o),
{
    lemma_enabled_twice(ts);
}

/// Decides the output columns of a merge: the columns of the merge mode over the enabled
/// tables, then the source file and sheet columns where asked for, sorted by the user's
/// output order; the source columns' positions are found after sorting.
/// No two output columns share a key, in manual mode always and in intersection mode where
/// the first enabled table's headers do not, unless the search for a free source column name
/// ran out of numbers.
pub fn build_output_plan(tables: &[SourceTable], options: &MergeOptions) -> (r: OutputPlan)
    ensures
        texts(r.headers@) == planned_headers(tables@, *options),
        r.source_file_column == planned_file_column(tables@, *options),
        r.source_sheet_column == planned_sheet_column(tables@, *options),
        r.source_file_column matches Some(i) ==> i < r.headers@.len(),
        r.source_sheet_column matches Some(i) ==> i < r.headers@.len(),
        (options.mode == MergeMode::Intersection && enabled_tables(tables@).len() > 0 ==> crate::headers::distinct_by(
            texts(enabled_tables(tables@)[0].headers@),
            key_fn(),
        )) && (options.include_source_file ==> meta_name(mode_headers(tables@, options.mode), source_file_label())
            != meta_cand(source_file_label())(u64::MAX as nat)) && (options.include_source_sheet ==> meta_name(
            with_file_column(tables@, *options),
            source_sheet_label(),
        ) != meta_cand(source_sheet_label())(u64::MAX as nat)) ==> crate::headers::distinct_by(
            texts(r.headers@),
            key_fn(),
        ),
{
    proof {
        if (options.mode == MergeMode::Intersection && enabled_tables(tables@).len() > 0 ==> crate::headers::distinct_by(
            texts(enabled_tables(tables@)[0].headers@),
            key_fn(),
        )) && (options.include_source_file ==> meta_name(mode_headers(tables@, options.mode), source_file_label())
            != meta_cand(source_file_label())(u64::MAX as nat)) && (options.include_source_sheet ==> meta_name(
            with_file_column(tables@, *options),
            source_sheet_label(),
        ) != meta_cand(source_sheet_label())(u64::MAX as nat)) {
            crate::workbench::columns::lemma_planned_headers_distinct(tables@, *options);
        }
    }
    let positions = enabled_positions(tables);
    let mut headers = match options.mode {
        MergeMode::Manual => manual_columns(tables, &positions),
        MergeMode::Intersection => intersection_columns(tables, &positions),
    };
    let ghost h0 = texts(headers@);
    let file_name = if options.include_source_file {
        Some(push_unique_metadata(&mut headers, "来源文件"))
    } else {
        None
    };
    let ghost h1 = texts(headers@);
    assert(h1 == with_file_column(tables@, *options));
    let sheet_name = if options.include_source_sheet {
        Some(push_unique_metadata(&mut headers, "来源工作表"))
    } else {
        None
    };
    let ghost h2 = texts(headers@);
    assert(h2 == with_source_columns(tables@, *options));
    let header_keys = key_list(&headers);
    let order_keys = key_list(&options.output_order);
    let sorted = crate::headers::reorder_items(&headers, &header_keys, &order_keys, Ghost(key_fn()));
    let ghost hs = texts(sorted@);
    assert(hs == planned_headers(tables@, *options));
    let sorted_keys = key_list(&sorted);
    let source_file_column = match file_name {
        Some(name) => {
            let k = header_key(name.as_str());
            proof {
                let i = h2.len() - 1 - (if options.include_source_sheet { 1int } else { 0int });
                assert(h2[i] == name@);
                crate::headers::lemma_reorder_contains(h2, key_fn(), texts(order_keys@), i);
                let j = choose|j: int| 0 <= j < hs.len() && hs[j] == h2[i];
                assert(key(hs[j]) == k@);
                crate::headers::lemma_first_key_index(hs, key_fn(), k@);
            }
            crate::headers::first_key_position(&sorted_keys, &k, Ghost(hs), Ghost(key_fn()))
        },
        None => None,
    };
    let source_sheet_column = match sheet_name {
        Some(name) => {
            let k = header_key(name.as_str());
            proof {
                let i = h2.len() - 1;
                assert(h2[i] == name@);
                crate::headers::lemma_reorder_contains(h2, key_fn(), texts(order_keys@), i);
                let j = choose|j: int| 0 <= j < hs.len() && hs[j] == h2[i];
                assert(key(hs[j]) == k@);
                crate::headers::lemma_first_key_index(hs, key_fn(), k@);
            }
            crate::headers::first_key_position(&sorted_keys, &k, Ghost(hs), Ghost(key_fn()))
        },
        None => None,
    };
    OutputPlan { headers: sorted, source_file_column, source_sheet_column }
}

} // verus!

verus! {

/// The pairs (source column, output column) of table headers found by key among the plan's
/// keys `pk`; an output column is the last one with that key.
pub open spec fn header_pairs(hs: Seq<Seq<char>>, pk: Seq<Seq<char>>) -> Seq<(usize, usize)>
    decreases hs.len(),
{
    if hs.len() == 0 {
        Seq::empty()
    } else {
        let p = header_pairs(hs.drop_last(), pk);
        let r = rank(pk, key(hs.last()));
        if r >= 0 {
            p.push(((hs.len() - 1) as usize, r as usize))
        } else {
            p
        }
    }
}

/// The pairs (source column, output column) of the enabled mappings with a non-empty
/// target whose key the plan has; an output column is the last one with that key.
pub open spec fn mapping_pairs(ms: Seq<ColumnMapping>, pk: Seq<Seq<char>>) -> Seq<(usize, usize)>
    decreases ms.len(),
{
    if ms.len() == 0 {
        Seq::empty()
    } else {
        let p = mapping_pairs(ms.drop_last(), pk);
        let m = ms.last();
        let r = rank(pk, key(m.target_name@));
        if m.enabled && trim(m.target_name@).len() > 0 && r >= 0 {
            p.push((m.source_index, r as usize))
        } else {
            p
        }
    }
}

/// Where each source column of `table` goes in the output of `plan`.
pub fn source_to_output_map(table: &SourceTable, plan: &OutputPlan, mode: MergeMode) -> (r: Vec<
    (usize, usize),
>)
    ensures
        r@ == match mode {
            MergeMode::Intersection => header_pairs(
                texts(table.headers@),
                keys(texts(plan.headers@), key_fn()),
            ),
            MergeMode::Manual => mapping_pairs(table.mappings@, keys(texts(plan.headers@), key_fn())),
        },
{
    let plan_keys = key_list(&plan.headers);
    let ghost pk = keys(texts(plan.headers@), key_fn());
    let mut out: Vec<(usize, usize)> = Vec::new();
    match mode {
        MergeMode::Intersection => {
            let ghost hs = texts(table.headers@);
            let mut i: usize = 0;
            assert(hs.take(0) =~= Seq::<Seq<char>>::empty());
            while i < table.headers.len()
                invariant
                    i <= hs.len(),
                    hs == texts(table.headers@),
                    texts(plan_keys@) == pk,
                    out@ == header_pairs(hs.take(i as int), pk),
                decreases hs.len() - i,
            {
                let k = header_key(table.headers[i].as_str());
                assert(hs.take(i + 1).drop_last() =~= hs.take(i as int));
                assert(hs.take(i + 1).last() == hs[i as int]);
                match crate::headers::rank_of(&plan_keys, &k) {
                    Some(o) => {
                        out.push((i, o));
                    },
                    None => {},
                }
                i = i + 1;
            }
            assert(hs.take(hs.len() as int) =~= hs);
        },
        MergeMode::Manual => {
            let ghost ms = table.mappings@;
            let mut i: usize = 0;
            assert(ms.take(0) =~= Seq::<ColumnMapping>::empty());
            while i < table.mappings.len()
                invariant
                    i <= ms.len(),
                    ms == table.mappings@,
                    texts(plan_keys@) == pk,
                    out@ == mapping_pairs(ms.take(i as int), pk),
                decreases ms.len() - i,
            {
                let mapping = &table.mappings[i];
                assert(ms.take(i + 1).drop_last() =~= ms.take(i as int));
                assert(ms.take(i + 1).last() == ms[i as int]);
                if mapping.enabled {
                    let t = trim_str(mapping.target_name.as_str());
                    if !t.as_str().is_empty() {
                        let k = header_key(mapping.target_name.as_str());
                        match crate::headers::rank_of(&plan_keys, &k) {
                            Some(o) => {
                                out.push((mapping.source_index, o));
                            },
                            None => {},
                        }
                    }
                }
                i = i + 1;
            }
            assert(ms.take(ms.len() as int) =~= ms);
        },
    }
    out
}

/// The keys that every enabled table has, when at least two tables are enabled.
pub open spec fn common_keys(tables: Seq<SourceTable>) -> Set<Seq<char>> {
    let ts = enabled_tables(tables);
    if ts.len() < 2 {
        Set::empty()
    } else {
        Set::new(|k: Seq<char>| has_key(texts(ts[0].headers@), key_fn(), k) && in_all_others(ts, k))
    }
}

/// The keys shared by every enabled table (none when fewer than two are enabled), each
/// once, in the first table's order.
pub fn common_header_keys(tables: &[SourceTable]) -> (r: Vec<String>)
    ensures
        texts(r@).to_set() == common_keys(tables@),
        texts(r@).no_duplicates(),
{
    let positions = enabled_positions(tables);
    let ghost ts = enabled_tables(tables@);
    if positions.len() < 2 {
        assert(texts(Seq::<String>::empty()).to_set() =~= Set::<Seq<char>>::empty());
        return Vec::new();
    }
    let common = intersection_columns(tables, &positions);
    let ghost ch = texts(common@);
    assert(ch == keep_common(texts(ts[0].headers@), ts));
    let mut out: Vec<String> = Vec::new();
    let mut i: usize = 0;
    while i < common.len()
        invariant
            i <= common@.len(),
            ch == texts(common@),
            texts(out@).no_duplicates(),
            forall|w: int| 0 <= w < out@.len() ==> key_among(ch, i as int, #[trigger] out@[w]@),
            forall|j: int| 0 <= j < i ==> texts(out@).contains(#[trigger] key(ch[j])),
        decreases common@.len() - i,
    {
        let k = header_key(common[i].as_str());
        let ghost before = texts(out@);
        let ghost before_v = out@;
        proof {
            assert forall|w: int| 0 <= w < out@.len() implies key_among(ch, i + 1, #[trigger] out@[w]@) by {
                let j = choose|j: int| 0 <= j < i && #[trigger] key(ch[j]) == out@[w]@;
                assert(0 <= j < i + 1);
            }
            assert(key_among(ch, i + 1, k@)) by {
                assert(key(ch[i as int]) == k@);
            }
        }
        if !crate::headers::contains_text(&out, &k) {
            out.push(k);
            proof {
                assert(texts(out@) =~= before.push(k@));
                assert forall|w: int| 0 <= w < out@.len() implies key_among(ch, i + 1, #[trigger] out@[w]@) by {
                    if w < before_v.len() {
                        assert(out@[w] == before_v[w]);
                    }
                }
                assert forall|j: int| 0 <= j < i + 1 implies texts(out@).contains(
                    #[trigger] key(ch[j]),
                ) by {
                    if j < i {
                        let w = choose|w: int| 0 <= w < before.len() && before[w] == key(ch[j]);
                        assert(texts(out@)[w] == key(ch[j]));
                    } else {
                        assert(texts(out@)[before.len() as int] == key(ch[j]));
                    }
                }
            }
        }
        i = i + 1;
    }
    proof {
        assert forall|x: Seq<char>| texts(out@).to_set().contains(x) <==> common_keys(tables@).contains(x) by {
            lemma_keep_common_members(texts(ts[0].headers@), ts, x);
            if texts(out@).contains(x) {
                let w = choose|w: int| 0 <= w < texts(out@).len() && texts(out@)[w] == x;
                assert(out@[w]@ == x);
                assert(key_among(ch, ch.len() as int, out@[w]@));
                let j = choose|j: int| 0 <= j < ch.len() && #[trigger] key(ch[j]) == out@[w]@;
                let f = keys(texts(ts[0].headers@), key_fn());
                let v = choose|v: int| 0 <= v < texts(ts[0].headers@).len() && #[trigger] key(texts(ts[0].headers@)[v]) == x;
                assert(f[v] == x);
            }
            if common_keys(tables@).contains(x) {
                let f = keys(texts(ts[0].headers@), key_fn());
                let w = choose|w: int| 0 <= w < f.len() && f[w] == x;
                assert(key(texts(ts[0].headers@)[w]) == x);
                let j = choose|j: int| 0 <= j < ch.len() && #[trigger] key(ch[j]) == x;
                assert(texts(out@).contains(key(ch[j])));
            }
        }
        assert(texts(out@).to_set() =~= common_keys(tables@));
    }
    out
}

/// Whether some of the first `n` texts of `ch` has key `x`.
pub open spec fn key_among(ch: Seq<Seq<char>>, n: int, x: Seq<char>) -> bool {
    exists|j: int| 0 <= j < n && #[trigger] key(ch[j]) == x
}

/// What `keep_common` keeps: exactly the headers whose key every other table has.
pub proof fn lemma_keep_common_members(hs: Seq<Seq<char>>, ts: Seq<SourceTable>, x: Seq<char>)
    ensures
        (exists|j: int| 0 <= j < keep_common(hs, ts).len() && #[trigger] key(keep_common(hs, ts)[j]) == x)
            <==> (exists|w: int| 0 <= w < hs.len() && #[trigger] key(hs[w]) == x) && in_all_others(ts, x),
    decreases hs.len(),
{
    if hs.len() > 0 {
        let d = hs.drop_last();
        let p = keep_common(d, ts);
        lemma_keep_common_members(d, ts, x);
        let whole = keep_common(hs, ts);
        if exists|j: int| 0 <= j < whole.len() && #[trigger] key(whole[j]) == x {
            let j = choose|j: int| 0 <= j < whole.len() && #[trigger] key(whole[j]) == x;
            if j < p.len() {
                assert(whole[j] == p[j]);
                assert(key(p[j]) == x);
                let w = choose|w: int| 0 <= w < d.len() && #[trigger] key(d[w]) == x;
                assert(d[w] == hs[w]);
            } else {
                assert(whole[j] == hs.last());
                assert(key(hs[hs.len() - 1]) == x);
            }
        }
        if (exists|w: int| 0 <= w < hs.len() && #[trigger] key(hs[w]) == x) && in_all_others(ts, x) {
            let w = choose|w: int| 0 <= w < hs.len() && #[trigger] key(hs[w]) == x;
            if w < hs.len() - 1 {
                assert(d[w] == hs[w]);
                let j = choose|j: int| 0 <= j < p.len() && #[trigger] key(p[j]) == x;
                assert(whole[j] == p[j]);
            } else {
                assert(whole[p.len() as int] == hs.last());
            }
        }
    }
}

impl SourceTable {
    /// The name under which the table is shown: its file name, then its sheet name. The file
    /// name comes from the platform's path rules: for a plain path it is the text after the
    /// last `/`, and a portable path that ends in `..` shows an empty name.
    pub fn display_name(&self) -> (r: String)
        ensures
            exists|file: Seq<char>| r@ == crate::paths::display_text(file, self.sheet_name@),
            crate::paths::plain_path(self.path@) ==> r@ == crate::paths::display_text(
                crate::paths::last_part(self.path@),
                self.sheet_name@,
            ),
            crate::paths::ends_in_parent(self.path@) ==> r@ == crate::paths::display_text(
                Seq::empty(),
                self.sheet_name@,
            ),
    {
        let file = crate::paths::file_name_of(self.path.as_str());
        crate::paths::display_name_of(file.as_str(), self.sheet_name.as_str())
    }
}

} // verus!
