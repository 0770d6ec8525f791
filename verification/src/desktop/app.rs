//! What the desktop window computes from text: dropped paths, number formatting, column
//! lists and the choices of the option boxes.
use vstd::prelude::*;
use vstd::utf8::{valid_utf8, decode_utf8, encode_utf8};
use crate::desktop::model::{AggregateOp, TransformOp};
use crate::text::{trim, trim_str, trim_chars, chars_of, string_of, decimal, decimal_chars};
use crate::headers::texts;

verus! {

broadcast use vstd::seq_lib::group_seq_properties;

/// The value of a hexadecimal digit byte.
pub open spec fn hex_value(b: u8) -> Option<u8> {
    if 48 <= b <= 57 {
        Some((b - 48) as u8)
    } else if 97 <= b <= 102 {
        Some((b - 87) as u8)
    } else if 65 <= b <= 70 {
        Some((b - 55) as u8)
    } else {
        None
    }
}

/// `bytes` with each `%` that two hexadecimal digits follow replaced by the byte they write.
pub open spec fn percent_bytes(bytes: Seq<u8>) -> Seq<u8>
    decreases bytes.len(),
{
    if bytes.len() == 0 {
        Seq::empty()
    } else if bytes[0] == 37u8 && bytes.len() > 2 && hex_value(bytes[1]) is Some && hex_value(
        bytes[2],
    ) is Some {
        seq![(hex_value(bytes[1])->0 * 16 + hex_value(bytes[2])->0) as u8] + percent_bytes(
            bytes.skip(3),
        )
    } else {
        seq![bytes[0]] + percent_bytes(bytes.skip(1))
    }
}

/// The text that `String::from_utf8_lossy` makes of `bytes`: malformed sequences become
/// replacement characters.
pub uninterp spec fn lossy_text(bytes: Seq<u8>) -> Seq<char>;

/// Calls `String::from_utf8_lossy`; its text is named `lossy_text` of the bytes, and is the
/// decoded text where the bytes are valid UTF-8.
#[verifier::external_body]
fn from_utf8_lossy(bytes: &[u8]) -> (r: String)
    ensures
        r@ == lossy_text(bytes@),
        valid_utf8(bytes@) ==> r@ == decode_utf8(bytes@),
{
    String::from_utf8_lossy(bytes).into_owned()
}

/// The hexadecimal value of a digit byte.
fn hex_digit_value(b: u8) -> (r: Option<u8>)
    ensures
        r == hex_value(b),
{
    if 48 <= b && b <= 57 {
        Some(b - 48)
    } else if 97 <= b && b <= 102 {
        Some(b - 87)
    } else if 65 <= b && b <= 70 {
        Some(b - 55)
    } else {
        None
    }
}

/// Decodes the percent escapes (`%XX`) of a dropped path, whose bytes may spell UTF-8: the
/// decoded bytes as text, malformed sequences replaced.
pub fn percent_decode(value: &str) -> (r: String)
    ensures
        r@ == lossy_text(percent_bytes(encode_utf8(value@))),
        valid_utf8(percent_bytes(encode_utf8(value@))) ==> r@ == decode_utf8(percent_bytes(encode_utf8(value@))),
{
    let bytes = value.as_bytes();
    let ghost all = bytes@;
    let mut output: Vec<u8> = Vec::new();
    let mut index: usize = 0;
    proof {
        assert(all.skip(0) =~= all);
        assert(output@ + percent_bytes(all.skip(0)) =~= percent_bytes(all));
    }
    while index < bytes.len()
        invariant
            index <= all.len(),
            all == bytes@,
            output@ + percent_bytes(all.skip(index as int)) == percent_bytes(all),
        decreases all.len() - index,
    {
        let ghost rest = all.skip(index as int);
        if bytes[index] == 37u8 && bytes.len() - index > 2 {
            let high = hex_digit_value(bytes[index + 1]);
            let low = hex_digit_value(bytes[index + 2]);
            match (high, low) {
                (Some(h), Some(l)) => {
                    let ghost before = output@;
                    output.push(h * 16 + l);
                    proof {
                        assert(rest[0] == 37u8 && rest[1] == all[index + 1] && rest[2] == all[index + 2]);
                        assert(rest.skip(3) =~= all.skip(index + 3));
                        assert(output@ == before + seq![(h * 16 + l) as u8]);
                        assert(output@ + percent_bytes(all.skip(index + 3)) =~= before + percent_bytes(rest));
                    }
                    index = index + 3;
                },
                _ => {
                    let ghost before = output@;
                    output.push(bytes[index]);
                    proof {
                        assert(rest[0] == all[index as int]);
                        assert(rest[1] == all[index + 1] && rest[2] == all[index + 2]);
                        assert(rest.skip(1) =~= all.skip(index + 1));
                        assert(output@ + percent_bytes(all.skip(index + 1)) =~= before + percent_bytes(rest));
                    }
                    index = index + 1;
                },
            }
        } else {
            let ghost before = output@;
            output.push(bytes[index]);
            proof {
                assert(rest[0] == all[index as int]);
                assert(rest.skip(1) =~= all.skip(index + 1));
                assert(output@ + percent_bytes(all.skip(index + 1)) =~= before + percent_bytes(rest));
            }
            index = index + 1;
        }
    }
    proof {
        assert(all.skip(all.len() as int) =~= Seq::<u8>::empty());
        assert(output@ =~= percent_bytes(all));
    }
    from_utf8_lossy(output.as_slice())
}

/// The digits `d` with a comma before every group of three counted from the right.
pub open spec fn grouped(d: Seq<char>, k: nat) -> Seq<char>
    decreases k,
{
    if k == 0 {
        Seq::empty()
    } else {
        let i = k - 1;
        grouped(d, i as nat) + (if i > 0 && (d.len() - i) % 3 == 0 {
            seq![',']
        } else {
            Seq::empty()
        }) + seq![d[i]]
    }
}

/// `value` in decimal with thousands separated by commas.
pub fn format_number(value: u64) -> (r: String)
    ensures
        r@ == grouped(decimal(value as nat), decimal(value as nat).len()),
{
    let d = decimal_chars(value);
    let n = d.len();
    let mut out: Vec<char> = Vec::new();
    let mut i: usize = 0;
    while i < n
        invariant
            i <= n,
            n == d@.len(),
            d@ == decimal(value as nat),
            out@ == grouped(d@, i as nat),
        decreases n - i,
    {
        if i > 0 && (n - i) % 3 == 0 {
            out.push(',');
        }
        out.push(d[i]);
        i = i + 1;
    }
    string_of(out.as_slice())
}

/// Whether `c` separates column names in a list: an ASCII or a full-width comma.
pub open spec fn is_comma(c: char) -> bool {
    c == ',' || c == '，'
}

/// The parts of `s` between commas.
pub open spec fn comma_parts(s: Seq<char>) -> Seq<Seq<char>>
    decreases s.len(),
{
    if s.len() == 0 {
        seq![Seq::empty()]
    } else {
        let p = comma_parts(s.drop_last());
        if is_comma(s.last()) {
            p.push(Seq::empty())
        } else {
            p.update(p.len() - 1, p.last().push(s.last()))
        }
    }
}

/// Splitting always gives at least one part.
pub proof fn lemma_comma_parts_nonempty(s: Seq<char>)
    ensures
        comma_parts(s).len() >= 1,
    decreases s.len(),
{
    if s.len() > 0 {
        lemma_comma_parts_nonempty(s.drop_last());
    }
}

/// The trimmed parts that are not empty, in order.
pub open spec fn named_parts(ps: Seq<Seq<char>>) -> Seq<Seq<char>>
    decreases ps.len(),
{
    if ps.len() == 0 {
        Seq::empty()
    } else {
        let p = named_parts(ps.drop_last());
        if trim(ps.last()).len() > 0 {
            p.push(trim(ps.last()))
        } else {
            p
        }
    }
}

/// The column names of a comma-separated list, trimmed, without empty ones.
pub fn split_columns(value: &str) -> (r: Vec<String>)
    ensures
        texts(r@) == named_parts(comma_parts(value@)),
{
    let chars = chars_of(value);
    let mut parts: Vec<Vec<char>> = Vec::new();
    parts.push(Vec::new());
    let mut i: usize = 0;
    proof {
        assert(chars@.take(0) =~= Seq::<char>::empty());
        assert(parts@.map_values(|p: Vec<char>| p@) =~= seq![Seq::<char>::empty()]);
    }
    while i < chars.len()
        invariant
            i <= chars@.len(),
            chars@ == value@,
            parts@.len() >= 1,
            parts@.map_values(|p: Vec<char>| p@) == comma_parts(chars@.take(i as int)),
        decreases chars@.len() - i,
    {
        let c = chars[i];
        let ghost before = parts@.map_values(|p: Vec<char>| p@);
        proof {
            assert(chars@.take(i + 1).drop_last() =~= chars@.take(i as int));
            assert(chars@.take(i + 1).last() == c);
        }
        if c == ',' || c == '，' {
            parts.push(Vec::new());
            proof {
                assert(parts@.map_values(|p: Vec<char>| p@) =~= before.push(Seq::<char>::empty()));
            }
        } else {
            let last = parts.len() - 1;
            let mut current: Vec<char> = Vec::new();
            parts.set_and_swap(last, &mut current);
            let ghost was = current@;
            current.push(c);
            parts.set_and_swap(last, &mut current);
            proof {
                assert(was == before[last as int]);
                assert(parts@.map_values(|p: Vec<char>| p@) =~= before.update(
                    last as int,
                    before[last as int].push(c),
                ));
            }
        }
        i = i + 1;
    }
    proof {
        assert(chars@.take(chars@.len() as int) =~= chars@);
    }
    let ghost ps = parts@.map_values(|p: Vec<char>| p@);
    let mut out: Vec<String> = Vec::new();
    let mut k: usize = 0;
    while k < parts.len()
        invariant
            k <= parts@.len(),
            ps == parts@.map_values(|p: Vec<char>| p@),
            texts(out@) == named_parts(ps.take(k as int)),
        decreases parts@.len() - k,
    {
        proof {
            assert(ps.take(k + 1).drop_last() =~= ps.take(k as int));
            assert(ps.take(k + 1).last() == parts@[k as int]@);
        }
        let t = crate::text::trim_chars(parts[k].as_slice());
        if t.len() > 0 {
            let ghost prev = out@;
            out.push(string_of(t.as_slice()));
            proof {
                assert(texts(out@) =~= texts(prev).push(trim(parts@[k as int]@)));
            }
        }
        k = k + 1;
    }
    proof {
        assert(ps.take(ps.len() as int) =~= ps);
    }
    out
}

/// The display width of a text: one unit per ASCII character, two per other character.
pub fn display_units(value: &str) -> (r: usize)
    requires
        value@.len() < usize::MAX / 2,
    ensures
        r == crate::engine::sheets::width_units(value@),
{
    let chars = chars_of(value);
    let mut units: usize = 0;
    let mut i: usize = 0;
    while i < chars.len()
        invariant
            i <= chars@.len(),
            chars@ == value@,
            chars@.len() < usize::MAX / 2,
            units == crate::engine::sheets::width_units(chars@.take(i as int)),
            units <= 2 * i,
        decreases chars@.len() - i,
    {
        proof {
            assert(chars@.take(i + 1).drop_last() =~= chars@.take(i as int));
            assert(chars@.take(i + 1).last() == chars@[i as int]);
        }
        units = units + if chars[i] <= '\u{7f}' { 1 } else { 2 };
        i = i + 1;
    }
    proof {
        assert(chars@.take(chars@.len() as int) =~= chars@);
    }
    units
}

/// The cleaning step at position `index` of its option box; positions outside it mean none.
pub open spec fn transform_at(index: i32) -> TransformOp {
    if index == 1 {
        TransformOp::Trim
    } else if index == 2 {
        TransformOp::Uppercase
    } else if index == 3 {
        TransformOp::Lowercase
    } else {
        TransformOp::Unchanged
    }
}

/// The combination at position `index` of its option box; positions outside it mean `First`.
pub open spec fn aggregate_at(index: i32) -> AggregateOp {
    if index == 1 {
        AggregateOp::Sum
    } else if index == 2 {
        AggregateOp::UniqueJoin
    } else if index == 3 {
        AggregateOp::TextJoin
    } else {
        AggregateOp::First
    }
}

/// The cleaning step chosen at position `index` of its option box.
pub fn transform_from_index(index: i32) -> (r: TransformOp)
    ensures
        r == transform_at(index),
{
    match index {
        1 => TransformOp::Trim,
        2 => TransformOp::Uppercase,
        3 => TransformOp::Lowercase,
        _ => TransformOp::Unchanged,
    }
}

/// The combination chosen at position `index` of its option box.
pub fn aggregate_from_index(index: i32) -> (r: AggregateOp)
    ensures
        r == aggregate_at(index),
{
    match index {
        1 => AggregateOp::Sum,
        2 => AggregateOp::UniqueJoin,
        3 => AggregateOp::TextJoin,
        _ => AggregateOp::First,
    }
}

/// The position of a cleaning step in its option box.
pub fn transform_index(value: TransformOp) -> (r: i32)
    ensures
        transform_at(r) == value,
        0 <= r <= 3,
{
    match value {
        TransformOp::Unchanged => 0,
        TransformOp::Trim => 1,
        TransformOp::Uppercase => 2,
        TransformOp::Lowercase => 3,
    }
}

/// The position of a combination in its option box.
pub fn aggregate_index(value: AggregateOp) -> (r: i32)
    ensures
        aggregate_at(r) == value,
        0 <= r <= 3,
{
    match value {
        AggregateOp::First => 0,
        AggregateOp::Sum => 1,
        AggregateOp::UniqueJoin => 2,
        AggregateOp::TextJoin => 3,
    }
}


/// `s` without the double quotes at its start.
pub open spec fn without_leading_quotes(s: Seq<char>) -> Seq<char>
    decreases s.len(),
{
    if s.len() > 0 && s[0] == '"' {
        without_leading_quotes(s.skip(1))
    } else {
        s
    }
}

/// `s` without the double quotes at its end.
pub open spec fn without_trailing_quotes(s: Seq<char>) -> Seq<char>
    decreases s.len(),
{
    if s.len() > 0 && s.last() == '"' {
        without_trailing_quotes(s.drop_last())
    } else {
        s
    }
}

/// `s` without the double quotes around it, as `trim_matches('"')` leaves it.
pub open spec fn unquoted(s: Seq<char>) -> Seq<char> {
    without_trailing_quotes(without_leading_quotes(s))
}

/// `s` without a leading `file:///`.
pub open spec fn without_file_scheme(s: Seq<char>) -> Seq<char> {
    if s.len() >= 8 && s.take(8) == "file:///"@ {
        s.skip(8)
    } else {
        s
    }
}

/// Whether a dropped line names a path: it is not blank and not a comment.
pub open spec fn names_path(line: Seq<char>) -> bool {
    trim(line).len() > 0 && trim(line)[0] != '#'
}

/// The path a dropped line names: trimmed, unquoted, without `file:///`, percent-decoded.
pub open spec fn dropped_path(line: Seq<char>) -> Seq<char> {
    lossy_text(percent_bytes(encode_utf8(without_file_scheme(unquoted(trim(line))))))
}

/// The paths that the lines `lines` name, in order.
pub open spec fn dropped_paths(lines: Seq<Seq<char>>) -> Seq<Seq<char>>
    decreases lines.len(),
{
    if lines.len() == 0 {
        Seq::empty()
    } else {
        dropped_paths(lines.drop_last()) + if names_path(lines.last()) {
            seq![dropped_path(lines.last())]
        } else {
            Seq::empty()
        }
    }
}

/// `s` without the double quotes around it.
fn unquote(s: &Vec<char>) -> (r: Vec<char>)
    ensures
        r@ == unquoted(s@),
{
    let mut start: usize = 0;
    while start < s.len() && s[start] == '"'
        invariant
            start <= s@.len(),
            without_leading_quotes(s@.skip(start as int)) == without_leading_quotes(s@),
        decreases s@.len() - start,
    {
        proof {
            assert(s@.skip(start as int).skip(1) =~= s@.skip(start + 1));
        }
        start = start + 1;
    }
    let mut end: usize = s.len();
    while end > start && s[end - 1] == '"'
        invariant
            start <= end <= s@.len(),
            without_leading_quotes(s@) == s@.skip(start as int),
            without_trailing_quotes(s@.subrange(start as int, end as int)) == unquoted(s@),
        decreases end,
    {
        proof {
            assert(s@.subrange(start as int, end as int).drop_last() =~= s@.subrange(start as int, end - 1));
        }
        end = end - 1;
    }
    let mut out: Vec<char> = Vec::new();
    let mut i: usize = start;
    while i < end
        invariant
            start <= i <= end <= s@.len(),
            out@ == s@.subrange(start as int, i as int),
        decreases end - i,
    {
        out.push(s[i]);
        proof {
            assert(out@ =~= s@.subrange(start as int, i + 1));
        }
        i = i + 1;
    }
    out
}

/// The paths named by text dropped on the window: one per line, blank lines and lines that
/// begin with `#` left out, each trimmed, unquoted, without `file:///` and percent-decoded.
/// Lines end at `\n`; a `\r` before it is white space that trimming removes.
pub fn drop_text_paths(value: &str) -> (r: Vec<String>)
    ensures
        texts(r@) == dropped_paths(crate::text::split_char(value@, '\n')),
{
    let chars = chars_of(value);
    let lines = crate::text::split_on(&chars, '\n');
    let ghost lv = lines@.map_values(|p: Vec<char>| p@);
    let scheme = chars_of("file:///");
    proof {
        reveal_strlit("file:///");
    }
    let mut out: Vec<String> = Vec::new();
    let mut k: usize = 0;
    while k < lines.len()
        invariant
            k <= lines@.len(),
            lv == lines@.map_values(|p: Vec<char>| p@),
            lv == crate::text::split_char(value@, '\n'),
            scheme@ == "file:///"@,
            scheme@.len() == 8,
            texts(out@) == dropped_paths(lv.take(k as int)),
        decreases lines@.len() - k,
    {
        proof {
            assert(lv.take(k + 1).drop_last() =~= lv.take(k as int));
            assert(lv.take(k + 1).last() == lines@[k as int]@);
        }
        let t = trim_chars(lines[k].as_slice());
        if t.len() > 0 && t[0] != '#' {
            let u = unquote(&t);
            let mut has_scheme = u.len() >= 8;
            let mut j: usize = 0;
            while has_scheme && j < 8
                invariant
                    j <= 8,
                    scheme@.len() == 8,
                    has_scheme ==> u@.len() >= 8 && forall|q: int| 0 <= q < j ==> u@[q] == scheme@[q],
                    !has_scheme ==> !(u@.len() >= 8 && u@.take(8) == scheme@),
                decreases 8 - j + if has_scheme { 1int } else { 0int },
            {
                if u[j] != scheme[j] {
                    proof {
                        assert(u@.take(8)[j as int] != scheme@[j as int]);
                    }
                    has_scheme = false;
                } else {
                    j = j + 1;
                }
            }
            let mut rest: Vec<char> = Vec::new();
            let start: usize = if has_scheme { 8 } else { 0 };
            proof {
                if has_scheme {
                    assert(u@.take(8) =~= scheme@);
                }
            }
            let mut i: usize = start;
            while i < u.len()
                invariant
                    start <= i <= u@.len(),
                    rest@ == u@.subrange(start as int, i as int),
                decreases u@.len() - i,
            {
                rest.push(u[i]);
                proof {
                    assert(rest@ =~= u@.subrange(start as int, i + 1));
                }
                i = i + 1;
            }
            proof {
                assert(rest@ =~= without_file_scheme(u@));
            }
            let path = percent_decode(string_of(rest.as_slice()).as_str());
            let ghost prev = texts(out@);
            out.push(path);
            proof {
                assert(texts(out@) =~= prev.push(path@));
            }
        }
        k = k + 1;
    }
    proof {
        assert(lv.take(k as int) =~= lv);
    }
    out
}

} // verus!
