//! Reading source files: which files are tables, where the header row is, how header rows
//! combine, and how a table's rows and columns are counted.
use vstd::prelude::*;
use vstd::utf8::{valid_utf8, decode_utf8};
use crate::headers::texts;
use crate::text::{trim, lower, trim_str, to_lowercase, chars_of, string_of, push_str, joined, join_strings, ascii_lower, to_ascii_lowercase, owned};
use crate::workbench::model::{ColumnMapping, SourceKind, SourceTable, key, header_key, normalize_headers, normalized, make_default_mappings};

verus! {

broadcast use vstd::seq_lib::group_seq_properties;

/// The rows of a sheet that the header search looks at.
pub const AUTO_HEADER_ROWS: usize = 20;

/// Whether `c` is alphabetic, as the Unicode tables behind `char::is_alphabetic` say.
pub uninterp spec fn alphabetic(c: char) -> bool;

/// Calls `char::is_alphabetic`; its answer is named `alphabetic`.
#[verifier::external_body]
fn is_alphabetic(c: char) -> (r: bool)
    ensures
        r == alphabetic(c),
{
    c.is_alphabetic()
}

/// Whether `s` holds an alphabetic character.
pub open spec fn has_letter(s: Seq<char>) -> bool {
    exists|i: int| 0 <= i < s.len() && alphabetic(#[trigger] s[i])
}

/// The number of cells of `row` that are not blank.
pub open spec fn filled_count(row: Seq<Seq<char>>) -> nat
    decreases row.len(),
{
    if row.len() == 0 {
        0
    } else {
        filled_count(row.drop_last()) + if trim(row.last()).len() > 0 {
            1nat
        } else {
            0nat
        }
    }
}

/// The number of cells of `row` that hold a letter.
pub open spec fn text_count(row: Seq<Seq<char>>) -> nat
    decreases row.len(),
{
    if row.len() == 0 {
        0
    } else {
        text_count(row.drop_last()) + if has_letter(row.last()) {
            1nat
        } else {
            0nat
        }
    }
}

/// The values of `s`, each once, in the order of first occurrence.
pub open spec fn distinct(s: Seq<Seq<char>>) -> Seq<Seq<char>>
    decreases s.len(),
{
    if s.len() == 0 {
        Seq::empty()
    } else {
        let p = distinct(s.drop_last());
        if p.contains(s.last()) {
            p
        } else {
            p.push(s.last())
        }
    }
}

/// The case-folded trimmed texts of the non-blank cells of `row`.
pub open spec fn folded_cells(row: Seq<Seq<char>>) -> Seq<Seq<char>>
    decreases row.len(),
{
    if row.len() == 0 {
        Seq::empty()
    } else {
        let p = folded_cells(row.drop_last());
        if trim(row.last()).len() > 0 {
            p.push(lower(trim(row.last())))
        } else {
            p
        }
    }
}

/// The widest row, and at least one.
pub open spec fn widest(rows: Seq<Seq<Seq<char>>>) -> nat
    decreases rows.len(),
{
    if rows.len() == 0 {
        1
    } else {
        let w = widest(rows.drop_last());
        if rows.last().len() > w {
            rows.last().len()
        } else {
            w
        }
    }
}

/// The widest row is at least one wide.
pub proof fn lemma_widest_positive(rows: Seq<Seq<Seq<char>>>)
    ensures
        widest(rows) >= 1,
    decreases rows.len(),
{
    if rows.len() > 0 {
        lemma_widest_positive(rows.drop_last());
    }
}

/// How much row `i` of `rows` looks like a header row: filled cells relative to the widest
/// row, distinct values, cells with letters, a next row of the same width, and a small
/// preference for earlier rows.
pub open spec fn header_score(rows: Seq<Seq<Seq<char>>>, i: int) -> int {
    let row = rows[i];
    let next_same = i + 1 < rows.len() && rows[i + 1].len() == row.len() && row.len() > 1;
    (filled_count(row) * 20) as int / widest(rows) as int + distinct(folded_cells(row)).len() * 4
        + text_count(row) * 3 + (if next_same {
        8int
    } else {
        0int
    }) - i
}

/// The first row, among the first `n`, with the highest score.
pub open spec fn best_row(rows: Seq<Seq<Seq<char>>>, n: nat) -> nat
    decreases n,
{
    if n <= 1 {
        0
    } else {
        let b = best_row(rows, (n - 1) as nat);
        if header_score(rows, n - 1) > header_score(rows, b as int) {
            (n - 1) as nat
        } else {
            b
        }
    }
}

/// Whether row `i` of `rows` is followed by a row of its width, and is more than one cell wide.
pub open spec fn followed_by_same_width(rows: Seq<Seq<Seq<char>>>, i: int) -> bool {
    i + 1 < rows.len() && rows[i + 1].len() == rows[i].len() && rows[i].len() > 1
}

/// Whether rows `i` and `j` of `rows` look alike to the header search: as many filled cells,
/// distinct values and cells with letters, and alike in being followed by a row of their
/// width.
pub open spec fn alike_rows(rows: Seq<Seq<Seq<char>>>, i: int, j: int) -> bool {
    &&& filled_count(rows[i]) == filled_count(rows[j])
    &&& distinct(folded_cells(rows[i])).len() == distinct(folded_cells(rows[j])).len()
    &&& text_count(rows[i]) == text_count(rows[j])
    &&& followed_by_same_width(rows, i) == followed_by_same_width(rows, j)
}

/// The row chosen among the first `n` scores at least as high as each of them, and higher
/// than each before it.
pub proof fn lemma_best_row_is_best(rows: Seq<Seq<Seq<char>>>, n: nat)
    requires
        1 <= n <= rows.len(),
    ensures
        best_row(rows, n) < n,
        forall|k: int| 0 <= k < n ==> header_score(rows, best_row(rows, n) as int) >= #[trigger] header_score(rows, k),
        forall|k: int| 0 <= k < best_row(rows, n) ==> header_score(rows, best_row(rows, n) as int) > #[trigger] header_score(rows, k),
    decreases n,
{
    if n > 1 {
        lemma_best_row_is_best(rows, (n - 1) as nat);
    }
}

/// Of two rows that look alike, the earlier scores higher, by the distance between them, and
/// the later one is never the recommended header row: the score falls with the row index.
pub proof fn lemma_earlier_of_alike_rows_wins(rows: Seq<Seq<Seq<char>>>, i: int, j: int)
    requires
        0 <= i < j < rows.len(),
        alike_rows(rows, i, j),
    ensures
        header_score(rows, i) - header_score(rows, j) == j - i,
        best_row(rows, rows.len()) != j,
{
    lemma_best_row_is_best(rows, rows.len());
    let wi = (filled_count(rows[i]) * 20) as int / widest(rows) as int;
    let wj = (filled_count(rows[j]) * 20) as int / widest(rows) as int;
    assert(wi == wj);
}

/// Whether row `j` of `rows` has nothing more of a header than row `i`: no more filled cells,
/// distinct values or cells with letters, and no row of its width after it unless row `i` has
/// one too.
pub open spec fn no_more_header_like(rows: Seq<Seq<Seq<char>>>, i: int, j: int) -> bool {
    &&& filled_count(rows[j]) <= filled_count(rows[i])
    &&& distinct(folded_cells(rows[j])).len() <= distinct(folded_cells(rows[i])).len()
    &&& text_count(rows[j]) <= text_count(rows[i])
    &&& followed_by_same_width(rows, j) ==> followed_by_same_width(rows, i)
}

/// A later row that has nothing more of a header than an earlier one scores lower and is never
/// the recommended header row: more filled cells, distinct values, cells with letters and a
/// row of the same width after it each count for a row, and a later position against it.
pub proof fn lemma_later_row_needs_more_to_win(rows: Seq<Seq<Seq<char>>>, i: int, j: int)
    requires
        0 <= i < j < rows.len(),
        no_more_header_like(rows, i, j),
    ensures
        header_score(rows, i) > header_score(rows, j),
        best_row(rows, rows.len()) != j,
{
    lemma_best_row_is_best(rows, rows.len());
    lemma_widest_positive(rows);
    vstd::arithmetic::div_mod::lemma_div_is_ordered(
        (filled_count(rows[j]) * 20) as int,
        (filled_count(rows[i]) * 20) as int,
        widest(rows) as int,
    );
}

/// The first twenty rows.
pub open spec fn sampled(rows: Seq<Seq<Seq<char>>>) -> Seq<Seq<Seq<char>>> {
    if rows.len() > 20 {
        rows.take(20)
    } else {
        rows
    }
}

/// The texts of a table of cells.
pub open spec fn grid(rows: Seq<Vec<String>>) -> Seq<Seq<Seq<char>>> {
    rows.map_values(|r: Vec<String>| texts(r@))
}

/// The counts of one row: filled cells, distinct folded values, and cells with letters.
fn row_counts(row: &Vec<String>) -> (r: (u64, u64, u64))
    ensures
        r.0 == filled_count(texts(row@)),
        r.1 == distinct(folded_cells(texts(row@))).len(),
        r.2 == text_count(texts(row@)),
{
    let ghost t = texts(row@);
    let mut filled: u64 = 0;
    let mut letters: u64 = 0;
    let mut seen: Vec<String> = Vec::new();
    let mut i: usize = 0;
    while i < row.len()
        invariant
            i <= row@.len(),
            t == texts(row@),
            filled == filled_count(t.take(i as int)),
            letters == text_count(t.take(i as int)),
            texts(seen@) == distinct(folded_cells(t.take(i as int))),
            filled <= i,
            letters <= i,
            seen@.len() <= i,
        decreases row@.len() - i,
    {
        proof {
            assert(t.take(i + 1).drop_last() =~= t.take(i as int));
            assert(t.take(i + 1).last() == row@[i as int]@);
        }
        let cell = &row[i];
        let trimmed = trim_str(cell.as_str());
        if !trimmed.as_str().is_empty() {
            filled = filled + 1;
            let folded = to_lowercase(trimmed.as_str());
            proof {
                let f = folded_cells(t.take(i as int));
                assert(folded_cells(t.take(i + 1)) == f.push(folded@));
                assert(f.push(folded@).drop_last() =~= f);
                assert(f.push(folded@).last() == folded@);
            }
            if !crate::headers::contains_text(&seen, &folded) {
                let ghost prev = seen@;
                seen.push(folded);
                proof {
                    assert(texts(seen@) =~= texts(prev).push(lower(trim(row@[i as int]@))));
                }
            }
        } else {
            proof {
                assert(folded_cells(t.take(i + 1)) == folded_cells(t.take(i as int)));
            }
        }
        let chars = chars_of(cell.as_str());
        let mut k: usize = 0;
        let mut found = false;
        while k < chars.len() && !found
            invariant
                i < row@.len(),
                k <= chars@.len(),
                chars@ == row@[i as int]@,
                found ==> has_letter(chars@),
                !found ==> forall|q: int| 0 <= q < k ==> !alphabetic(#[trigger] chars@[q]),
            decreases chars@.len() - k,
        {
            if is_alphabetic(chars[k]) {
                found = true;
            }
            k = k + 1;
        }
        if found {
            letters = letters + 1;
        }
        i = i + 1;
    }
    proof {
        assert(t.take(t.len() as int) =~= t);
    }
    (filled, seen.len() as u64, letters)
}

/// The header row of a sheet: among its first twenty rows, the first one with the best
/// header score; zero for a sheet without rows.
pub fn recommend_header(rows: Vec<Vec<String>>) -> (r: usize)
    ensures
        grid(rows@).len() == 0 ==> r == 0,
        grid(rows@).len() > 0 ==> r == best_row(sampled(grid(rows@)), sampled(grid(rows@)).len()),
        forall|i: int, j: int|
            0 <= i < j < sampled(grid(rows@)).len() && alike_rows(sampled(grid(rows@)), i, j) ==> r != j,
        forall|i: int, j: int|
            0 <= i < j < sampled(grid(rows@)).len() && no_more_header_like(sampled(grid(rows@)), i, j) ==> r
                != j,
{
    let ghost all = grid(rows@);
    proof {
        assert forall|i: int, j: int|
            0 <= i < j < sampled(all).len() && alike_rows(sampled(all), i, j) implies best_row(
            sampled(all),
            sampled(all).len(),
        ) != j by {
            lemma_earlier_of_alike_rows_wins(sampled(all), i, j);
        }
        assert forall|i: int, j: int|
            0 <= i < j < sampled(all).len() && no_more_header_like(sampled(all), i, j) implies best_row(
            sampled(all),
            sampled(all).len(),
        ) != j by {
            lemma_later_row_needs_more_to_win(sampled(all), i, j);
        }
    }
    if rows.len() == 0 {
        return 0;
    }
    let n: usize = if rows.len() > AUTO_HEADER_ROWS { AUTO_HEADER_ROWS } else { rows.len() };
    let ghost s = sampled(all);
    proof {
        assert(s.len() == n);
        assert forall|q: int| 0 <= q < n implies #[trigger] s[q] == texts(rows@[q]@) by {}
    }
    let mut width: usize = 1;
    let mut w: usize = 0;
    while w < n
        invariant
            w <= n <= rows@.len(),
            s.len() == n,
            forall|q: int| 0 <= q < n ==> #[trigger] s[q] == texts(rows@[q]@),
            width == widest(s.take(w as int)),
        decreases n - w,
    {
        proof {
            assert(s.take(w + 1).drop_last() =~= s.take(w as int));
            assert(s.take(w + 1).last() == s[w as int]);
        }
        if rows[w].len() > width {
            width = rows[w].len();
        }
        w = w + 1;
    }
    proof {
        assert(s.take(n as int) =~= s);
        lemma_widest_positive(s);
    }
    let mut best: usize = 0;
    let mut best_score: i128 = 0;
    let mut i: usize = 0;
    while i < n
        invariant
            i <= n <= rows@.len(),
            n >= 1,
            s.len() == n,
            forall|q: int| 0 <= q < n ==> #[trigger] s[q] == texts(rows@[q]@),
            width == widest(s),
            width >= 1,
            i > 0 ==> best == best_row(s, i as nat) && best_score == header_score(s, best as int),
            i == 0 ==> best == 0,
            best < n,
        decreases n - i,
    {
        let (filled, unique, letters) = row_counts(&rows[i]);
        let next_same = i + 1 < n && rows[i + 1].len() == rows[i].len() && rows[i].len() > 1;
        let score: i128 = (filled as i128) * 20 / (width as i128) + (unique as i128) * 4 + (letters
            as i128) * 3 + if next_same { 8 } else { 0 } - (i as i128);
        proof {
            assert(score == header_score(s, i as int));
        }
        if i == 0 || score > best_score {
            best = i;
            best_score = score;
        }
        i = i + 1;
    }
    best
}

/// The distinct non-blank trimmed values of column `column` over `rows`, distinct by header
/// key, in row order.
pub open spec fn column_parts(rows: Seq<Seq<Seq<char>>>, column: int) -> Seq<Seq<char>>
    decreases rows.len(),
{
    if rows.len() == 0 {
        Seq::empty()
    } else {
        let p = column_parts(rows.drop_last(), column);
        let row = rows.last();
        let v = if 0 <= column < row.len() {
            trim(row[column])
        } else {
            Seq::empty()
        };
        if v.len() > 0 && !p.map_values(|e: Seq<char>| key(e)).contains(key(v)) {
            p.push(v)
        } else {
            p
        }
    }
}

/// The headers of a table whose header takes several rows: per column, the distinct parts
/// joined by ` / `, then made unique and named.
pub open spec fn combined_headers(rows: Seq<Seq<Seq<char>>>, width: nat) -> Seq<Seq<char>> {
    normalized(Seq::new(width, |c: int| joined(column_parts(rows, c), " / "@)))
}

/// Combines header rows into one header per column over `width` columns.
pub fn combine_header_rows_with_width(rows: &[Vec<String>], width: usize) -> (r: Vec<String>)
    ensures
        texts(r@) == combined_headers(grid(rows@), width as nat),
{
    let ghost g = grid(rows@);
    let mut columns: Vec<String> = Vec::new();
    let mut c: usize = 0;
    while c < width
        invariant
            c <= width,
            g == grid(rows@),
            texts(columns@) == Seq::new(c as nat, |q: int| joined(column_parts(g, q), " / "@)),
        decreases width - c,
    {
        let mut seen: Vec<String> = Vec::new();
        let mut seen_keys: Vec<String> = Vec::new();
        let mut r: usize = 0;
        while r < rows.len()
            invariant
                r <= rows@.len(),
                g == grid(rows@),
                texts(seen@) == column_parts(g.take(r as int), c as int),
                texts(seen_keys@) == column_parts(g.take(r as int), c as int).map_values(
                    |e: Seq<char>| key(e),
                ),
            decreases rows@.len() - r,
        {
            proof {
                assert(g.take(r + 1).drop_last() =~= g.take(r as int));
                assert(g.take(r + 1).last() == texts(rows@[r as int]@));
            }
            let value = if c < rows[r].len() {
                trim_str(rows[r][c].as_str())
            } else {
                String::new()
            };
            if !value.as_str().is_empty() {
                let k = header_key(value.as_str());
                if !crate::headers::contains_text(&seen_keys, &k) {
                    let ghost prev = seen@;
                    let ghost prev_keys = seen_keys@;
                    seen.push(value);
                    seen_keys.push(k);
                    proof {
                        assert(texts(seen@) =~= texts(prev).push(seen@[seen@.len() - 1]@));
                        assert(texts(seen_keys@) =~= texts(prev_keys).push(seen_keys@[seen_keys@.len() - 1]@));
                        assert(column_parts(g.take(r + 1), c as int) =~= texts(seen@));
                        assert(texts(seen_keys@) =~= column_parts(g.take(r + 1), c as int).map_values(
                            |e: Seq<char>| key(e),
                        ));
                    }
                }
            }
            r = r + 1;
        }
        proof {
            assert(g.take(rows@.len() as int) =~= g);
        }
        let ghost prev = columns@;
        columns.push(join_strings(seen.as_slice(), " / "));
        proof {
            assert(texts(columns@) =~= texts(prev).push(joined(column_parts(g, c as int), " / "@)));
            assert(texts(columns@) =~= Seq::new((c + 1) as nat, |q: int| joined(column_parts(g, q), " / "@)));
        }
        c = c + 1;
    }
    normalize_headers(columns.as_slice())
}

/// The width of the widest of `rows`.
pub open spec fn max_width(rows: Seq<Seq<Seq<char>>>) -> nat
    decreases rows.len(),
{
    if rows.len() == 0 {
        0
    } else {
        let w = max_width(rows.drop_last());
        if rows.last().len() > w {
            rows.last().len()
        } else {
            w
        }
    }
}

/// Combines header rows into one header per column, as wide as the widest row.
pub fn combine_header_rows(rows: &[Vec<String>]) -> (r: Vec<String>)
    ensures
        texts(r@) == combined_headers(grid(rows@), max_width(grid(rows@))),
{
    let ghost g = grid(rows@);
    let mut width: usize = 0;
    let mut i: usize = 0;
    while i < rows.len()
        invariant
            i <= rows@.len(),
            g == grid(rows@),
            width == max_width(g.take(i as int)),
        decreases rows@.len() - i,
    {
        proof {
            assert(g.take(i + 1).drop_last() =~= g.take(i as int));
            assert(g.take(i + 1).last() == texts(rows@[i as int]@));
        }
        if rows[i].len() > width {
            width = rows[i].len();
        }
        i = i + 1;
    }
    proof {
        assert(g.take(rows@.len() as int) =~= g);
    }
    combine_header_rows_with_width(rows, width)
}

/// The text of an optional string.
pub open spec fn opt_view(o: Option<String>) -> Option<Seq<char>> {
    match o {
        Some(s) => Some(s@),
        None => None,
    }
}

/// Whether a file with this name and extension is a table file: not an Office lock file
/// (`~$...`), and a CSV, TSV or spreadsheet extension in any ASCII case.
pub open spec fn supported_parts(file_name: Option<Seq<char>>, extension: Option<Seq<char>>) -> bool {
    let locked = file_name matches Some(n) && n.len() >= 2 && n[0] == '~' && n[1] == '$';
    !locked && (extension matches Some(e) && {
        let x = ascii_lower(e);
        x == "csv"@ || x == "tsv"@ || x == "xlsx"@ || x == "xlsm"@ || x == "xls"@ || x == "xlsb"@
            || x == "ods"@
    })
}

/// Decides whether a file with this name and extension is a table file.
pub fn supported_name(file_name: Option<String>, extension: Option<String>) -> (r: bool)
    ensures
        r == supported_parts(
            match file_name {
                Some(n) => Some(n@),
                None => None,
            },
            match extension {
                Some(e) => Some(e@),
                None => None,
            },
        ),
{
    match &file_name {
        Some(n) => {
            let c = chars_of(n.as_str());
            if c.len() >= 2 && c[0] == '~' && c[1] == '$' {
                return false;
            }
        },
        None => {},
    }
    match extension {
        Some(e) => {
            let x = to_ascii_lowercase(e.as_str());
            x == owned("csv") || x == owned("tsv") || x == owned("xlsx") || x == owned("xlsm") || x
                == owned("xls") || x == owned("xlsb") || x == owned("ods")
        },
        None => false,
    }
}

/// Calls `Path::file_name` and `OsStr::to_str`: the file name of `path` where it is Unicode.
/// Which component is the last depends on the platform; for a plain path
/// (`crate::paths::plain_path`) it is the text after the last `/` on every platform, and a
/// slice of a `str` is Unicode. A portable path (`crate::paths::portable_path`) whose last
/// component is `..` has no name, as the documentation says. Of other paths nothing is
/// stated.
#[verifier::external_body]
fn unicode_file_name(path: &str) -> (r: Option<String>)
    ensures
        crate::paths::plain_path(path@) ==> match r {
            Some(n) => n@ == crate::paths::last_part(path@),
            None => false,
        },
        crate::paths::ends_in_parent(path@) ==> r is None,
{
    std::path::Path::new(path).file_name().and_then(|name| name.to_str()).map(|name| name.to_owned())
}

/// Whether `path` names a table file, judged by `supported_name` on the file name and the
/// extension that the platform's path rules give. For a plain path these are the text after
/// its last `/` and that name's extension.
pub fn supported_file(path: &str) -> (r: bool)
    ensures
        crate::paths::plain_path(path@) ==> r == supported_parts(
            Some(crate::paths::last_part(path@)),
            crate::paths::name_extension(crate::paths::last_part(path@)),
        ),
{
    let name = unicode_file_name(path);
    let extension = crate::paths::path_extension(path);
    supported_name(name, extension)
}

/// How a file is read, by its extension.
#[derive(Clone, Copy, Debug, PartialEq, Eq, Structural)]
pub enum ScanKind {
    /// A CSV or TSV file.
    Delimited,
    /// An XLSX workbook, read as a stream.
    Xlsx,
    /// Another workbook format.
    Workbook,
    /// Not a table file.
    Other,
}

/// The way to read a file with `extension`.
pub open spec fn scan_kind_of(extension: Option<Seq<char>>) -> ScanKind {
    match extension {
        Some(e) => {
            let x = ascii_lower(e);
            if x == "csv"@ || x == "tsv"@ {
                ScanKind::Delimited
            } else if x == "xlsx"@ || x == "xlsm"@ {
                ScanKind::Xlsx
            } else if x == "xls"@ || x == "xlsb"@ || x == "ods"@ {
                ScanKind::Workbook
            } else {
                ScanKind::Other
            }
        },
        None => ScanKind::Other,
    }
}

/// Decides how a file with `extension` is read.
pub fn scan_kind(extension: Option<String>) -> (r: ScanKind)
    ensures
        r == scan_kind_of(
            match extension {
                Some(e) => Some(e@),
                None => None,
            },
        ),
{
    match extension {
        Some(e) => {
            let x = to_ascii_lowercase(e.as_str());
            if x == owned("csv") || x == owned("tsv") {
                ScanKind::Delimited
            } else if x == owned("xlsx") || x == owned("xlsm") {
                ScanKind::Xlsx
            } else if x == owned("xls") || x == owned("xlsb") || x == owned("ods") {
                ScanKind::Workbook
            } else {
                ScanKind::Other
            }
        },
        None => ScanKind::Other,
    }
}

/// Whether an extension is one of the streamed XLSX formats.
pub fn is_xlsx_extension(extension: Option<String>) -> (r: bool)
    ensures
        r == (extension matches Some(e) && (ascii_lower(e@) == "xlsx"@ || ascii_lower(e@) == "xlsm"@
            || ascii_lower(e@) == "xlam"@)),
{
    match extension {
        Some(e) => {
            let x = to_ascii_lowercase(e.as_str());
            x == owned("xlsx") || x == owned("xlsm") || x == owned("xlam")
        },
        None => false,
    }
}

/// Whether `path` is read as a streamed XLSX workbook, judged by `is_xlsx_extension` on the
/// extension that the platform's path rules give. For a plain path that is the extension of
/// the text after its last `/`.
pub fn is_xlsx_path(path: &str) -> (r: bool)
    ensures
        crate::paths::plain_path(path@) ==> r == (crate::paths::name_extension(crate::paths::last_part(path@)) matches Some(e)
            && (ascii_lower(e) == "xlsx"@ || ascii_lower(e) == "xlsm"@ || ascii_lower(e) == "xlam"@)),
{
    let extension = crate::paths::path_extension(path);
    is_xlsx_extension(extension)
}

/// Whether `path` is a TSV file, judged by its extension as the platform's path rules give
/// it, in any case. For a plain path that is the extension of the text after its last `/`.
pub fn is_tsv_path(path: &str) -> (r: bool)
    ensures
        crate::paths::plain_path(path@) ==> r == (crate::paths::name_extension(crate::paths::last_part(path@)) matches Some(e)
            && ascii_lower(e) == "tsv"@),
{
    match crate::paths::path_extension(path) {
        Some(e) => to_ascii_lowercase(e.as_str()) == owned("tsv"),
        None => false,
    }
}

/// The header row (counted from 1) and the number of header rows (one to three) that a
/// table is read with, from the values asked for.
pub fn header_setting(header_row: usize, header_rows: usize) -> (r: (usize, usize))
    ensures
        r.0 == (if header_row < 1 {
            1
        } else {
            header_row
        }),
        r.1 == (if header_rows < 1 {
            1
        } else if header_rows > 3 {
            3
        } else {
            header_rows
        }),
{
    let row = if header_row < 1 {
        1
    } else {
        header_row
    };
    let rows = if header_rows < 1 {
        1
    } else if header_rows > 3 {
        3
    } else {
        header_rows
    };
    (row, rows)
}

/// The records before a table's data: those up to its header row, and the header rows after
/// the first.
pub fn rows_before_data(header_row: usize, header_rows: usize) -> (r: usize)
    requires
        1 <= header_row + header_rows <= usize::MAX + 1,
    ensures
        r == header_row + header_rows - 1,
{
    if header_row >= 1 {
        (header_row - 1) + header_rows
    } else {
        header_rows - 1
    }
}

/// The warning about a file whose text is neither UTF-8 nor GBK.
pub fn encoding_warning(path: &str) -> (r: String)
    ensures
        r@ == path@ + "：文件编码可能不是 UTF-8 或 GBK，部分字符无法识别"@,
{
    let mut m = chars_of(path);
    push_str(&mut m, "：文件编码可能不是 UTF-8 或 GBK，部分字符无法识别");
    string_of(m.as_slice())
}

/// The bounds of the non-empty cells of a streamed sheet: first cell, last cell, and the
/// first and last columns.
#[derive(Clone, Copy, Debug)]
pub struct XlsxStreamBounds {
    pub actual_start: Option<(u32, u32)>,
    pub actual_end: Option<(u32, u32)>,
    pub actual_columns: Option<(u32, u32)>,
}

/// The data rows of a streamed sheet: the rows from its first to its last non-empty cell,
/// less the rows before the data, never below zero.
pub fn xlsx_estimated_rows(bounds: &XlsxStreamBounds, rows_before_data: usize) -> (r: u64)
    ensures
        match (bounds.actual_start, bounds.actual_end) {
            (Some(s), Some(e)) => {
                let height: int = if e.0 >= s.0 {
                    if e.0 - s.0 + 1 > u32::MAX {
                        u32::MAX as int
                    } else {
                        e.0 - s.0 + 1
                    }
                } else {
                    1
                };
                r == if height > rows_before_data {
                    height - rows_before_data
                } else {
                    0
                }
            },
            _ => r == 0,
        },
{
    let (start_row, end_row) = match (bounds.actual_start, bounds.actual_end) {
        (Some(s), Some(e)) => (s.0, e.0),
        _ => {
            return 0;
        },
    };
    let span: u32 = if end_row >= start_row { end_row - start_row } else { 0 };
    let height: u32 = if span == u32::MAX { u32::MAX } else { span + 1 };
    let height = height as usize;
    if height > rows_before_data {
        (height - rows_before_data) as u64
    } else {
        0
    }
}

/// The number of columns between the first and last non-empty column of a streamed sheet.
pub fn xlsx_actual_width(bounds: &XlsxStreamBounds) -> (r: usize)
    ensures
        match bounds.actual_columns {
            Some((first, last)) => r == if last >= first {
                if last - first + 1 > u32::MAX {
                    u32::MAX as int
                } else {
                    last - first + 1
                }
            } else {
                1
            },
            None => r == 0,
        },
{
    match bounds.actual_columns {
        Some((first, last)) => {
            let span: u32 = if last >= first { last - first } else { 0 };
            let width: u32 = if span == u32::MAX { u32::MAX } else { span + 1 };
            width as usize
        },
        None => 0,
    }
}

/// A table whose headers are known: a workbook sheet with its header rows, default
/// mappings, and at least one header row of at most three rows.
pub fn source_table_from_headers(
    path: String,
    sheet_name: String,
    header_row: usize,
    header_rows: usize,
    suggested_header_row: usize,
    headers: Vec<String>,
    estimated_rows: u64,
) -> (r: SourceTable)
    ensures
        r.path@ == path@,
        r.sheet_name@ == sheet_name@,
        r.kind == SourceKind::Workbook,
        r.header_row == if header_row < 1 { 1 } else { header_row },
        r.header_rows == if header_rows < 1 { 1 } else if header_rows > 3 { 3 } else { header_rows },
        r.suggested_header_row == if suggested_header_row < 1 { 1 } else { suggested_header_row },
        texts(r.headers@) == texts(headers@),
        r.estimated_rows == estimated_rows,
        r.enabled,
        r.mappings@.len() == headers@.len(),
        forall|i: int|
            0 <= i < r.mappings@.len() ==> {
                &&& (#[trigger] r.mappings@[i]).source_index == i
                &&& r.mappings@[i].source_name@ == headers@[i]@
                &&& r.mappings@[i].target_name@ == headers@[i]@
                &&& r.mappings@[i].enabled
            },
{
    let mappings = make_default_mappings(headers.as_slice());
    SourceTable {
        path,
        sheet_name,
        kind: SourceKind::Workbook,
        header_row: if header_row < 1 { 1 } else { header_row },
        header_rows: if header_rows < 1 { 1 } else if header_rows > 3 { 3 } else { header_rows },
        suggested_header_row: if suggested_header_row < 1 { 1 } else { suggested_header_row },
        headers,
        estimated_rows,
        enabled: true,
        mappings,
    }
}

/// The first mapping of `ms` for the source column named `name`.
pub open spec fn mapping_named(ms: Seq<ColumnMapping>, name: Seq<char>) -> Option<ColumnMapping>
    decreases ms.len(),
{
    if ms.len() == 0 {
        None
    } else if ms[0].source_name@ == name {
        Some(ms[0])
    } else {
        mapping_named(ms.drop_first(), name)
    }
}

/// The first position of `name` among `hs`.
pub open spec fn header_position(hs: Seq<Seq<char>>, name: Seq<char>) -> Option<nat>
    decreases hs.len(),
{
    if hs.len() == 0 {
        None
    } else if hs[0] == name {
        Some(0)
    } else {
        match header_position(hs.drop_first(), name) {
            Some(p) => Some(p + 1),
            None => None,
        }
    }
}

/// The first mapping of `ms` for the source column named `name`, searched from `i` on.
fn find_mapping(ms: &Vec<ColumnMapping>, name: &String) -> (r: Option<usize>)
    ensures
        match r {
            Some(i) => i < ms@.len() && mapping_named(ms@, name@) == Some(ms@[i as int]),
            None => mapping_named(ms@, name@) is None,
        },
{
    let mut i: usize = 0;
    while i < ms.len()
        invariant
            i <= ms@.len(),
            mapping_named(ms@, name@) == mapping_named(ms@.skip(i as int), name@),
        decreases ms@.len() - i,
    {
        proof {
            assert(ms@.skip(i as int)[0] == ms@[i as int]);
            assert(ms@.skip(i as int).drop_first() =~= ms@.skip(i + 1));
        }
        if ms[i].source_name == *name {
            return Some(i);
        }
        i = i + 1;
    }
    proof {
        assert(ms@.skip(ms@.len() as int) =~= Seq::<ColumnMapping>::empty());
    }
    None
}

/// The first position of `name` among `hs`.
fn find_header(hs: &Vec<String>, name: &String) -> (r: Option<usize>)
    ensures
        match header_position(texts(hs@), name@) {
            Some(p) => r == Some(p as usize),
            None => r is None,
        },
{
    let ghost t = texts(hs@);
    let mut i: usize = 0;
    while i < hs.len()
        invariant
            i <= hs@.len(),
            t == texts(hs@),
            header_position(t, name@) == match header_position(t.skip(i as int), name@) {
                Some(p) => Some((p + i) as nat),
                None => None,
            },
        decreases hs@.len() - i,
    {
        proof {
            assert(t.skip(i as int)[0] == hs@[i as int]@);
            assert(t.skip(i as int).drop_first() =~= t.skip(i + 1));
        }
        if hs[i] == *name {
            return Some(i);
        }
        i = i + 1;
    }
    proof {
        assert(t.skip(hs@.len() as int) =~= Seq::<Seq<char>>::empty());
    }
    None
}

/// The mapping `m` keeps after a reload of a table whose old mappings are `old` and whose
/// new headers are `hs`: the old mapping of the same source name, pointed at the position
/// of that name among the new headers where it has one; else `m` itself.
pub open spec fn preserved(m: ColumnMapping, old: Seq<ColumnMapping>, hs: Seq<Seq<char>>) -> ColumnMapping {
    match mapping_named(old, m.source_name@) {
        Some(p) => ColumnMapping {
            source_index: match header_position(hs, p.source_name@) {
                Some(i) => i as usize,
                None => p.source_index,
            },
            ..p
        },
        None => m,
    }
}

/// A mapping with the same fields.
pub fn copy_mapping(m: &ColumnMapping) -> (r: ColumnMapping)
    ensures
        r == *m,
{
    ColumnMapping {
        source_index: m.source_index,
        source_name: m.source_name.clone(),
        target_name: m.target_name.clone(),
        enabled: m.enabled,
        transform: m.transform,
    }
}

/// After reloading a table, keeps the user's mappings: each new mapping whose source name
/// had a mapping before takes that mapping, pointed at the name's new position.
pub fn preserve_mappings(previous: &SourceTable, table: &mut SourceTable)
    ensures
        final(table).path == old(table).path,
        final(table).sheet_name == old(table).sheet_name,
        final(table).kind == old(table).kind,
        final(table).header_row == old(table).header_row,
        final(table).header_rows == old(table).header_rows,
        final(table).suggested_header_row == old(table).suggested_header_row,
        final(table).headers == old(table).headers,
        final(table).estimated_rows == old(table).estimated_rows,
        final(table).enabled == old(table).enabled,
        final(table).mappings@.len() == old(table).mappings@.len(),
        forall|i: int|
            0 <= i < final(table).mappings@.len() ==> #[trigger] final(table).mappings@[i] == preserved(
                old(table).mappings@[i],
                previous.mappings@,
                texts(old(table).headers@),
            ),
{
    let ghost start = table.mappings@;
    let mut i: usize = 0;
    while i < table.mappings.len()
        invariant
            i <= start.len(),
            table.mappings@.len() == start.len(),
            table.path == old(table).path,
            table.sheet_name == old(table).sheet_name,
            table.kind == old(table).kind,
            table.header_row == old(table).header_row,
            table.header_rows == old(table).header_rows,
            table.suggested_header_row == old(table).suggested_header_row,
            table.headers == old(table).headers,
            table.estimated_rows == old(table).estimated_rows,
            table.enabled == old(table).enabled,
            start == old(table).mappings@,
            forall|j: int|
                0 <= j < start.len() ==> #[trigger] table.mappings@[j] == if j < i {
                    preserved(start[j], previous.mappings@, texts(table.headers@))
                } else {
                    start[j]
                },
        decreases start.len() - i,
    {
        match find_mapping(&previous.mappings, &table.mappings[i].source_name) {
            Some(p) => {
                let mut m = copy_mapping(&previous.mappings[p]);
                match find_header(&table.headers, &m.source_name) {
                    Some(h) => {
                        m.source_index = h;
                    },
                    None => {},
                }
                table.mappings.set(i, m);
            },
            None => {},
        }
        i = i + 1;
    }
}

/// The widths of the records of `sample` read as CSV with `delimiter`, without headers and
/// with records of any width; an unreadable record has none. As the `csv` crate reads them.
pub uninterp spec fn csv_widths(sample: Seq<u8>, delimiter: u8) -> Seq<Option<usize>>;

/// Calls `csv::ReaderBuilder` (no headers, flexible, the given delimiter) on `sample` and
/// gives the width of each of its records; named `csv_widths`.
#[verifier::external_body]
fn record_widths(sample: &[u8], delimiter: u8) -> (r: Vec<Option<usize>>)
    ensures
        r@ == csv_widths(sample@, delimiter),
{
    csv::ReaderBuilder::new()
        .has_headers(false)
        .flexible(true)
        .delimiter(delimiter)
        .from_reader(sample)
        .byte_records()
        .map(|record| record.ok().map(|record| record.len()))
        .collect()
}

/// How many records of a sample a delimiter is judged on.
pub const SAMPLE_RECORDS: usize = 30;

/// The first thirty of the record widths `ws`.
pub open spec fn first_records(ws: Seq<Option<usize>>) -> Seq<Option<usize>> {
    if ws.len() > SAMPLE_RECORDS {
        ws.take(SAMPLE_RECORDS as int)
    } else {
        ws
    }
}

/// The widths of the readable, non-empty records, in order.
pub open spec fn usable_widths(ws: Seq<Option<usize>>) -> Seq<usize>
    decreases ws.len(),
{
    if ws.len() == 0 {
        Seq::empty()
    } else {
        let p = usable_widths(ws.drop_last());
        match ws.last() {
            Some(w) => if w > 0 {
                p.push(w)
            } else {
                p
            },
            None => p,
        }
    }
}

/// How often `w` occurs in `ws`.
pub open spec fn occurrences(ws: Seq<usize>, w: usize) -> nat
    decreases ws.len(),
{
    if ws.len() == 0 {
        0
    } else {
        occurrences(ws.drop_last(), w) + if ws.last() == w {
            1nat
        } else {
            0nat
        }
    }
}

/// The most frequent width among the first `n` of `ws`, the last of equally frequent ones.
pub open spec fn mode_among(ws: Seq<usize>, n: nat) -> usize
    decreases n,
{
    if n <= 1 {
        ws[0]
    } else {
        let m = mode_among(ws, (n - 1) as nat);
        if occurrences(ws, ws[n - 1]) >= occurrences(ws, m) {
            ws[n - 1]
        } else {
            m
        }
    }
}

/// How well `delimiter` splits the sample: many records of the most frequent width, a wide
/// most frequent width, and few records; a width of one is nearly ruled out.
pub open spec fn delimiter_score(ws: Seq<usize>) -> int {
    let mode = mode_among(ws, ws.len());
    occurrences(ws, mode) * 100 + mode * 50 - ws.len() - if mode == 1 {
        10_000int
    } else {
        0int
    }
}

/// The candidate delimiters, in the order they are tried.
pub open spec fn candidate(k: int) -> u8 {
    if k == 0 {
        44u8
    } else if k == 1 {
        9u8
    } else if k == 2 {
        59u8
    } else {
        124u8
    }
}

/// The best of the first `k` candidates for `sample`, with its score: a candidate wins only
/// with a higher score than the ones before it; a comma where none has usable records.
pub open spec fn best_delimiter(sample: Seq<u8>, k: nat) -> (Option<int>, u8)
    decreases k,
{
    if k == 0 {
        (None, 44u8)
    } else {
        let (score, d) = best_delimiter(sample, (k - 1) as nat);
        let ws = usable_widths(first_records(csv_widths(sample, candidate(k - 1))));
        if ws.len() == 0 {
            (score, d)
        } else {
            let s = delimiter_score(ws);
            match score {
                Some(b) => if s > b {
                    (Some(s), candidate(k - 1))
                } else {
                    (score, d)
                },
                None => (Some(s), candidate(k - 1)),
            }
        }
    }
}

/// The widths of the usable records among the first thirty that `delimiter` splits `sample`
/// into.
pub open spec fn judged_widths(sample: Seq<u8>, delimiter: u8) -> Seq<usize> {
    usable_widths(first_records(csv_widths(sample, delimiter)))
}

/// There are no more usable widths than records.
proof fn lemma_usable_widths_len(ws: Seq<Option<usize>>)
    ensures
        usable_widths(ws).len() <= ws.len(),
        forall|q: int| 0 <= q < usable_widths(ws).len() ==> #[trigger] usable_widths(ws)[q] > 0,
    decreases ws.len(),
{
    if ws.len() > 0 {
        lemma_usable_widths_len(ws.drop_last());
    }
}

/// A width occurs at most as often as there are widths, and as often where every width is it.
proof fn lemma_occurrences_bounds(ws: Seq<usize>, w: usize)
    ensures
        occurrences(ws, w) <= ws.len(),
        (forall|q: int| 0 <= q < ws.len() ==> #[trigger] ws[q] == w) ==> occurrences(ws, w) == ws.len(),
    decreases ws.len(),
{
    if ws.len() > 0 {
        lemma_occurrences_bounds(ws.drop_last(), w);
        if forall|q: int| 0 <= q < ws.len() ==> #[trigger] ws[q] == w {
            assert forall|q: int| 0 <= q < ws.drop_last().len() implies #[trigger] ws.drop_last()[q] == w by {
                assert(ws.drop_last()[q] == ws[q]);
            }
            assert(ws.last() == ws[ws.len() - 1]);
        }
    }
}

/// The most frequent width is one of the widths.
proof fn lemma_mode_among_member(ws: Seq<usize>, n: nat)
    requires
        1 <= n <= ws.len(),
    ensures
        exists|q: int| 0 <= q < n && ws[q] == mode_among(ws, n),
    decreases n,
{
    if n > 1 {
        lemma_mode_among_member(ws, (n - 1) as nat);
        let m = mode_among(ws, (n - 1) as nat);
        let q = choose|q: int| 0 <= q < n - 1 && ws[q] == m;
        if occurrences(ws, ws[n - 1]) >= occurrences(ws, m) {
            assert(ws[n - 1] == mode_among(ws, n));
        } else {
            assert(ws[q] == mode_among(ws, n));
        }
    } else {
        assert(ws[0] == mode_among(ws, n));
    }
}

/// Where every record a delimiter gives is one field wide, its score is negative; where every
/// record is `w >= 2` fields wide, its score is positive.
proof fn lemma_uniform_widths_score(ws: Seq<usize>, w: usize)
    requires
        ws.len() >= 1,
        ws.len() <= SAMPLE_RECORDS,
        forall|q: int| 0 <= q < ws.len() ==> #[trigger] ws[q] == w,
    ensures
        w == 1 ==> delimiter_score(ws) < 0,
        w >= 2 ==> delimiter_score(ws) > 0,
{
    lemma_mode_among_member(ws, ws.len());
    let q = choose|q: int| 0 <= q < ws.len() && ws[q] == mode_among(ws, ws.len());
    assert(mode_among(ws, ws.len()) == w);
    lemma_occurrences_bounds(ws, w);
}

/// The delimiter chosen for a sample is always one of comma, tab, semicolon and bar.
pub proof fn lemma_delimiter_is_a_candidate(sample: Seq<u8>, k: nat)
    ensures
        ({
            let d = best_delimiter(sample, k).1;
            d == 44u8 || d == 9u8 || d == 59u8 || d == 124u8
        }),
    decreases k,
{
    if k > 0 {
        lemma_delimiter_is_a_candidate(sample, (k - 1) as nat);
    }
}

/// The delimiter chosen among the first `k` candidates scores at least as high as each of
/// them that gives usable records, and higher than each such candidate tried before it; where
/// none gives usable records, the comma is chosen.
pub proof fn lemma_best_delimiter_scores_highest(sample: Seq<u8>, k: nat)
    requires
        k <= 4,
    ensures
        ({
            let (best, d) = best_delimiter(sample, k);
            &&& best is None <==> forall|j: int| 0 <= j < k ==> judged_widths(sample, #[trigger] candidate(j)).len() == 0
            &&& best is None ==> d == 44u8
            &&& forall|j: int|
                0 <= j < k && judged_widths(sample, #[trigger] candidate(j)).len() > 0 ==> (best matches Some(v)
                    && v >= delimiter_score(judged_widths(sample, candidate(j))))
            &&& best matches Some(v) ==> exists|j: int|
                0 <= j < k && d == candidate(j) && judged_widths(sample, candidate(j)).len() > 0 && v
                    == delimiter_score(judged_widths(sample, candidate(j))) && forall|i: int|
                    0 <= i < j && judged_widths(sample, #[trigger] candidate(i)).len() > 0 ==> delimiter_score(
                        judged_widths(sample, candidate(i)),
                    ) < v
        }),
    decreases k,
{
    if k > 0 {
        lemma_best_delimiter_scores_highest(sample, (k - 1) as nat);
        let (pb, pd) = best_delimiter(sample, (k - 1) as nat);
        let ws = judged_widths(sample, candidate(k - 1));
        if ws.len() > 0 {
            let s = delimiter_score(ws);
            match pb {
                Some(b) => {
                    let j0 = choose|j: int|
                        0 <= j < k - 1 && pd == candidate(j) && judged_widths(sample, candidate(j)).len() > 0 && b
                            == delimiter_score(judged_widths(sample, candidate(j))) && forall|i: int|
                            0 <= i < j && judged_widths(sample, #[trigger] candidate(i)).len() > 0 ==> delimiter_score(
                                judged_widths(sample, candidate(i)),
                            ) < b;
                    if s > b {
                        assert forall|i: int|
                            0 <= i < k - 1 && judged_widths(sample, #[trigger] candidate(i)).len() > 0 implies delimiter_score(
                            judged_widths(sample, candidate(i)),
                        ) < s by {}
                    } else {
                        assert(0 <= j0 < k);
                    }
                },
                None => {
                    assert forall|i: int|
                        0 <= i < k - 1 && judged_widths(sample, #[trigger] candidate(i)).len() > 0 implies delimiter_score(
                        judged_widths(sample, candidate(i)),
                    ) < s by {}
                },
            }
        }
    }
}

/// A sample that the bar splits into records all of one width of two or more fields, and that
/// comma, tab and semicolon each leave one field wide (or give no usable record), is split at
/// the bar.
pub proof fn lemma_bar_separated_sample(sample: Seq<u8>, w: usize)
    requires
        w >= 2,
        judged_widths(sample, 124u8).len() > 0,
        forall|q: int|
            0 <= q < judged_widths(sample, 124u8).len() ==> #[trigger] judged_widths(sample, 124u8)[q] == w,
        forall|q: int| 0 <= q < judged_widths(sample, 44u8).len() ==> #[trigger] judged_widths(sample, 44u8)[q] == 1,
        forall|q: int| 0 <= q < judged_widths(sample, 9u8).len() ==> #[trigger] judged_widths(sample, 9u8)[q] == 1,
        forall|q: int| 0 <= q < judged_widths(sample, 59u8).len() ==> #[trigger] judged_widths(sample, 59u8)[q] == 1,
    ensures
        best_delimiter(sample, 4).1 == 124u8,
{
    let c = judged_widths(sample, 44u8);
    let t = judged_widths(sample, 9u8);
    let m = judged_widths(sample, 59u8);
    let bar = judged_widths(sample, 124u8);
    lemma_usable_widths_len(first_records(csv_widths(sample, 44u8)));
    lemma_usable_widths_len(first_records(csv_widths(sample, 9u8)));
    lemma_usable_widths_len(first_records(csv_widths(sample, 59u8)));
    lemma_usable_widths_len(first_records(csv_widths(sample, 124u8)));
    if c.len() > 0 {
        lemma_uniform_widths_score(c, 1);
    }
    if t.len() > 0 {
        lemma_uniform_widths_score(t, 1);
    }
    if m.len() > 0 {
        lemma_uniform_widths_score(m, 1);
    }
    lemma_uniform_widths_score(bar, w);
    assert(candidate(0) == 44u8 && candidate(1) == 9u8 && candidate(2) == 59u8 && candidate(3) == 124u8);
    let b1 = best_delimiter(sample, 1);
    let b2 = best_delimiter(sample, 2);
    let b3 = best_delimiter(sample, 3);
    assert(best_delimiter(sample, 0) == (None::<int>, 44u8));
    assert(b1.0 matches Some(v) ==> v < 0);
    assert(b2.0 matches Some(v) ==> v < 0);
    assert(b3.0 matches Some(v) ==> v < 0);
}

/// The score of `delimiter` on `sample`, where it gives usable records.
#[verifier::rlimit(20)]
fn score_delimiter(sample: &[u8], delimiter: u8) -> (r: Option<i128>)
    ensures
        ({
            let ws = usable_widths(first_records(csv_widths(sample@, delimiter)));
            &&& ws.len() == 0 ==> r is None
            &&& ws.len() > 0 ==> (r matches Some(v) && v == delimiter_score(ws))
        }),
{
    let raw = record_widths(sample, delimiter);
    let ghost rv = raw@;
    let mut widths: Vec<usize> = Vec::new();
    let mut i: usize = 0;
    while i < raw.len() && i < SAMPLE_RECORDS
        invariant
            i <= SAMPLE_RECORDS,
            i <= rv.len(),
            rv == raw@,
            widths@ == usable_widths(rv.take(i as int)),
            widths@.len() <= i,
        decreases rv.len() - i,
    {
        proof {
            assert(rv.take(i + 1).drop_last() =~= rv.take(i as int));
            assert(rv.take(i + 1).last() == rv[i as int]);
        }
        match raw[i] {
            Some(w) => {
                if w > 0 {
                    widths.push(w);
                }
            },
            None => {},
        }
        i = i + 1;
    }
    proof {
        assert(rv.take(rv.len() as int) =~= rv);
        assert(rv.take(i as int) =~= first_records(rv));
    }
    let ghost ws = widths@;
    if widths.len() == 0 {
        return None;
    }
    let n = widths.len();
    let mut counts: Vec<usize> = Vec::new();
    let mut a: usize = 0;
    while a < n
        invariant
            a <= n,
            n == ws.len(),
            ws == widths@,
            counts@.len() == a,
            forall|q: int| 0 <= q < a ==> #[trigger] counts@[q] == occurrences(ws, ws[q]),
        decreases n - a,
    {
        let mut c: usize = 0;
        let mut b: usize = 0;
        while b < n
            invariant
                b <= n,
                a < n,
                n == ws.len(),
                ws == widths@,
                c == occurrences(ws.take(b as int), ws[a as int]),
                c <= b,
            decreases n - b,
        {
            proof {
                assert(ws.take(b + 1).drop_last() =~= ws.take(b as int));
                assert(ws.take(b + 1).last() == ws[b as int]);
            }
            if widths[b] == widths[a] {
                c = c + 1;
            }
            b = b + 1;
        }
        proof {
            assert(ws.take(n as int) =~= ws);
        }
        counts.push(c);
        a = a + 1;
    }
    let mut mode = widths[0];
    let mut mode_count = counts[0];
    let mut k: usize = 1;
    while k < n
        invariant
            1 <= k <= n,
            n == ws.len(),
            ws == widths@,
            counts@.len() == n,
            forall|q: int| 0 <= q < n ==> #[trigger] counts@[q] == occurrences(ws, ws[q]),
            mode == mode_among(ws, k as nat),
            mode_count == occurrences(ws, mode),
        decreases n - k,
    {
        if counts[k] >= mode_count {
            mode = widths[k];
            mode_count = counts[k];
        }
        k = k + 1;
    }
    let penalty: i128 = if mode == 1 { 10_000 } else { 0 };
    Some((mode_count as i128) * 100 + (mode as i128) * 50 - (n as i128) - penalty)
}

/// The delimiter of a CSV or TSV file: a tab for a `.tsv` file, else the best-scoring of
/// comma, tab, semicolon and bar on the first bytes of the file.
pub fn choose_delimiter(is_tsv: bool, sample: &[u8]) -> (r: u8)
    ensures
        is_tsv ==> r == 9u8,
        !is_tsv ==> r == best_delimiter(sample@, 4).1,
        r == 44u8 || r == 9u8 || r == 59u8 || r == 124u8,
{
    proof {
        lemma_delimiter_is_a_candidate(sample@, 4);
    }
    if is_tsv {
        return 9u8;
    }
    let mut best_score: Option<i128> = None;
    let mut best: u8 = 44u8;
    let mut k: usize = 0;
    while k < 4
        invariant
            k <= 4,
            best_delimiter(sample@, k as nat).1 == best,
            match best_delimiter(sample@, k as nat).0 {
                Some(b) => best_score matches Some(x) && x == b,
                None => best_score is None,
            },
        decreases 4 - k,
    {
        let d: u8 = if k == 0 { 44u8 } else if k == 1 { 9u8 } else if k == 2 { 59u8 } else { 124u8 };
        assert(d == candidate(k as int));
        match score_delimiter(sample, d) {
            Some(s) => {
                let better = match best_score {
                    Some(b) => s > b,
                    None => true,
                };
                if better {
                    best_score = Some(s);
                    best = d;
                }
            },
            None => {},
        }
        k = k + 1;
    }
    best
}

/// The text that the GBK decoder of `encoding_rs` makes of `bytes` (sniffing a byte order
/// mark first, replacing malformed sequences).
pub uninterp spec fn gbk_text(bytes: Seq<u8>) -> Seq<char>;

/// Whether that decoder replaced a malformed sequence.
pub uninterp spec fn gbk_errors(bytes: Seq<u8>) -> bool;

/// Calls `encoding_rs::GBK.decode`; its text and its error flag are named `gbk_text` and
/// `gbk_errors` of the bytes.
#[verifier::external_body]
fn decode_gbk(bytes: &[u8]) -> (r: (String, bool))
    ensures
        r.0@ == gbk_text(bytes@),
        r.1 == gbk_errors(bytes@),
{
    let (text, _, had_errors) = encoding_rs::GBK.decode(bytes);
    (text.into_owned(), had_errors)
}

/// Calls `std::str::from_utf8`: the text of `bytes` where they are valid UTF-8.
#[verifier::external_body]
fn utf8_text(bytes: &[u8]) -> (r: Option<String>)
    ensures
        r is Some <==> valid_utf8(bytes@),
        r matches Some(t) ==> t@ == decode_utf8(bytes@),
{
    std::str::from_utf8(bytes).ok().map(|text| text.to_owned())
}

/// `bytes` without a UTF-8 byte order mark at its start.
pub open spec fn without_bom(bytes: Seq<u8>) -> Seq<u8> {
    if bytes.len() >= 3 && bytes[0] == 0xEFu8 && bytes[1] == 0xBBu8 && bytes[2] == 0xBFu8 {
        bytes.skip(3)
    } else {
        bytes
    }
}

/// The text of a CSV field and whether its decoding replaced anything: UTF-8 where the bytes
/// (without a byte order mark) are valid UTF-8, else GBK.
pub open spec fn decoded_field(bytes: Seq<u8>) -> (Seq<char>, bool) {
    let b = without_bom(bytes);
    if valid_utf8(b) {
        (decode_utf8(b), false)
    } else {
        (gbk_text(b), gbk_errors(b))
    }
}

/// A CSV field that holds the UTF-8 text `s` reads back as `s`, with or without one byte order
/// mark before it, unless `s` itself starts with the character that mark encodes.
pub proof fn lemma_utf8_fields_read_back(s: Seq<char>)
    requires
        s.len() == 0 || s[0] != '\u{feff}',
    ensures
        decoded_field(vstd::utf8::encode_utf8(s)).0 == s,
        decoded_field(seq![0xEFu8, 0xBBu8, 0xBFu8] + vstd::utf8::encode_utf8(s)).0 == s,
{
    vstd::utf8::encode_utf8_valid_utf8(s);
    vstd::utf8::encode_utf8_decode_utf8(s);
    let e = vstd::utf8::encode_utf8(s);
    let b = seq![0xEFu8, 0xBBu8, 0xBFu8] + e;
    assert(b.skip(3) =~= e);
    if e.len() >= 3 && e[0] == 0xEFu8 && e[1] == 0xBBu8 && e[2] == 0xBFu8 {
        assert(vstd::utf8::codepoint_width_3(0xEFu8, 0xBBu8, 0xBFu8) == 0xFEFFu32) by (bit_vector);
        assert(vstd::utf8::decode_first_scalar(e) == 0xFEFFu32);
        assert(vstd::utf8::decode_utf8(e)[0] == (vstd::utf8::decode_first_scalar(e) as char));
        assert(false);
    }
}

/// Decodes a CSV field and tells whether characters could not be read.
pub fn decode_csv_field_with_quality(bytes: &[u8]) -> (r: (String, bool))
    ensures
        r.0@ == decoded_field(bytes@).0,
        r.1 == decoded_field(bytes@).1,
{
    let mut start: usize = 0;
    if bytes.len() >= 3 && bytes[0] == 0xEFu8 && bytes[1] == 0xBBu8 && bytes[2] == 0xBFu8 {
        start = 3;
    }
    let mut rest: Vec<u8> = Vec::new();
    let mut i: usize = start;
    while i < bytes.len()
        invariant
            start <= i <= bytes@.len(),
            rest@ == bytes@.subrange(start as int, i as int),
        decreases bytes@.len() - i,
    {
        rest.push(bytes[i]);
        proof {
            assert(bytes@.subrange(start as int, i + 1) =~= bytes@.subrange(start as int, i as int).push(
                bytes@[i as int],
            ));
        }
        i = i + 1;
    }
    proof {
        assert(rest@ =~= without_bom(bytes@));
    }
    match utf8_text(rest.as_slice()) {
        Some(t) => (t, false),
        None => decode_gbk(rest.as_slice()),
    }
}

/// Decodes a CSV field: UTF-8, or GBK where the bytes are not UTF-8.
pub fn decode_csv_field(bytes: &[u8]) -> (r: String)
    ensures
        r@ == decoded_field(bytes@).0,
{
    decode_csv_field_with_quality(bytes).0
}

/// A sheet cell as far as emptiness goes: no value, a text value, or another value.
#[derive(Clone, Debug)]
pub enum ScanCell {
    Empty,
    Text(String),
    Other,
}

/// Whether a cell counts as empty: no value, or text that is blank.
pub open spec fn scan_cell_empty(c: ScanCell) -> bool {
    match c {
        ScanCell::Empty => true,
        ScanCell::Text(t) => trim(t@).len() == 0,
        ScanCell::Other => false,
    }
}

/// Whether a cell counts as empty; cells that only carry formatting must not widen a sheet.
pub fn is_effectively_empty(value: &ScanCell) -> (r: bool)
    ensures
        r == scan_cell_empty(*value),
{
    match value {
        ScanCell::Empty => true,
        ScanCell::Text(t) => trim_str(t.as_str()).as_str().is_empty(),
        ScanCell::Other => false,
    }
}

/// The cells of a sheet, row by row.
pub open spec fn cell_grid(rows: Seq<Vec<ScanCell>>) -> Seq<Seq<ScanCell>> {
    rows.map_values(|v: Vec<ScanCell>| v@)
}

/// Whether row `row` of `rows` has a non-empty cell.
pub open spec fn row_has_content(rows: Seq<Seq<ScanCell>>, row: int) -> bool {
    exists|c: int| 0 <= c < rows[row].len() && !scan_cell_empty(#[trigger] rows[row][c])
}

/// The height and width of the non-empty part of the cells `rows`.
pub fn range_content_bounds(rows: &Vec<Vec<ScanCell>>) -> (r: (usize, usize))
    ensures
        r.0 <= rows@.len(),
        r.0 == 0 || row_has_content(cell_grid(rows@), r.0 - 1),
        forall|q: int| r.0 <= q < rows@.len() ==> !#[trigger] row_has_content(cell_grid(rows@), q),
        forall|q: int, c: int|
            0 <= q < rows@.len() && r.1 <= c < rows@[q]@.len() ==> scan_cell_empty(#[trigger] rows@[q]@[c]),
        r.1 == 0 || exists|q: int| 0 <= q < rows@.len() && r.1 - 1 < rows@[q]@.len() && !scan_cell_empty(
            #[trigger] rows@[q]@[r.1 - 1],
        ),
{
    let ghost g = cell_grid(rows@);
    let mut height: usize = 0;
    let mut width: usize = 0;
    let mut r: usize = 0;
    while r < rows.len()
        invariant
            r <= rows@.len(),
            g == cell_grid(rows@),
            height <= r,
            height == 0 || row_has_content(g, height - 1),
            forall|q: int| height <= q < r ==> !#[trigger] row_has_content(g, q),
            forall|q: int, c: int|
                0 <= q < r && width <= c < rows@[q]@.len() ==> scan_cell_empty(#[trigger] rows@[q]@[c]),
            width == 0 || exists|q: int| 0 <= q < r && width - 1 < rows@[q]@.len() && !scan_cell_empty(
                #[trigger] rows@[q]@[width - 1],
            ),
        decreases rows@.len() - r,
    {
        let row = &rows[r];
        let mut c: usize = 0;
        let mut found = false;
        let ghost width_before = width;
        while c < row.len()
            invariant
                c <= row@.len(),
                r < rows@.len(),
                row@ == rows@[r as int]@,
                found <==> exists|q: int| 0 <= q < c && !scan_cell_empty(#[trigger] row@[q]),
                width >= width_before,
                forall|q: int| width <= q < c ==> scan_cell_empty(#[trigger] row@[q]),
                forall|q: int, c2: int|
                    0 <= q < r && width <= c2 < rows@[q]@.len() ==> scan_cell_empty(#[trigger] rows@[q]@[c2]),
                width == 0 || (exists|q: int| 0 <= q < r && width - 1 < rows@[q]@.len() && !scan_cell_empty(
                    #[trigger] rows@[q]@[width - 1],
                )) || (width - 1 < c && !scan_cell_empty(row@[width - 1])),
            decreases row@.len() - c,
        {
            if !is_effectively_empty(&row[c]) {
                found = true;
                if c + 1 > width {
                    width = c + 1;
                }
            }
            c = c + 1;
        }
        if found {
            height = r + 1;
            proof {
                let q = choose|q: int| 0 <= q < c && !scan_cell_empty(#[trigger] row@[q]);
                assert(g[r as int] == row@);
                assert(!scan_cell_empty(g[r as int][q]));
            }
        } else {
            proof {
                assert(g[r as int] == row@);
                assert forall|q: int| 0 <= q < g[r as int].len() implies scan_cell_empty(#[trigger] g[r as int][q]) by {
                    assert(g[r as int][q] == row@[q]);
                }
            }
        }
        r = r + 1;
    }
    (height, width)
}


/// Files up to this size have their CSV rows counted one by one; larger ones are estimated.
pub const EXACT_COUNT_LIMIT: u64 = 67_108_864;

/// `a * b`, or `u64::MAX` where the product does not fit.
pub open spec fn saturating_product(a: u64, b: u64) -> u64 {
    if a * b > u64::MAX {
        u64::MAX
    } else {
        (a * b) as u64
    }
}

/// The data rows of a large CSV file estimated from a sample: `sampled` records read from
/// byte `start` to byte `end` of a file of `file_size` bytes, scaled to the bytes after
/// `start` (the sample counting at least one byte).
pub fn estimated_csv_rows(sampled: u64, file_size: u64, start: u64, end: u64) -> (r: u64)
    ensures
        ({
            let rest: u64 = if file_size < start { 0 } else { (file_size - start) as u64 };
            let consumed: u64 = if end <= start { 1 } else { (end - start) as u64 };
            r == saturating_product(sampled, rest) / consumed
        }),
{
    let rest: u64 = if file_size < start { 0 } else { file_size - start };
    let consumed: u64 = if end <= start { 1 } else { end - start };
    let product: u64 = match sampled.checked_mul(rest) {
        Some(p) => p,
        None => u64::MAX,
    };
    product / consumed
}

} // verus!
