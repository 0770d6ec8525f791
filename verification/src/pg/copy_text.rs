//! PostgreSQL `COPY ... FORMAT text` encoding.
use vstd::prelude::*;
use vstd::utf8::encode_utf8;

verus! {

/// The bytes that stand for one source byte inside a COPY text field.
pub open spec fn escape_byte(b: u8) -> Seq<u8> {
    if b == 92 {
        seq![92u8, 92u8]
    } else if b == 9 {
        seq![92u8, 116u8]
    } else if b == 10 {
        seq![92u8, 110u8]
    } else if b == 13 {
        seq![92u8, 114u8]
    } else {
        seq![b]
    }
}

/// Escapes every backslash, tab, line feed and carriage return of `s`.
pub open spec fn escape_bytes(s: Seq<u8>) -> Seq<u8>
    decreases s.len(),
{
    if s.len() == 0 {
        Seq::empty()
    } else {
        escape_bytes(s.drop_last()) + escape_byte(s.last())
    }
}

/// The COPY text form of one field: `\N` for NULL, else the escaped UTF-8 bytes.
pub open spec fn copy_field(value: Option<Seq<char>>) -> Seq<u8> {
    match value {
        None => seq![92u8, 78u8],
        Some(v) => escape_bytes(encode_utf8(v)),
    }
}

/// Appends the COPY text form of `value` to `output`.
pub fn encode_copy_field(value: Option<&str>, output: &mut Vec<u8>)
    ensures
        final(output)@ == old(output)@ + copy_field(
            match value {
                Some(v) => Some(v@),
                None => None,
            },
        ),
{
    match value {
        None => {
            output.push(92u8);
            output.push(78u8);
        },
        Some(v) => {
            let bytes = v.as_bytes();
            let ghost start = output@;
            let mut index: usize = 0;
            while index < bytes.len()
                invariant
                    index <= bytes@.len(),
                    bytes@ == encode_utf8(v@),
                    output@ == start + escape_bytes(bytes@.take(index as int)),
                decreases bytes@.len() - index,
            {
                let byte = bytes[index];
                if byte == 92u8 {
                    output.push(92u8);
                    output.push(92u8);
                } else if byte == 9u8 {
                    output.push(92u8);
                    output.push(116u8);
                } else if byte == 10u8 {
                    output.push(92u8);
                    output.push(110u8);
                } else if byte == 13u8 {
                    output.push(92u8);
                    output.push(114u8);
                } else {
                    output.push(byte);
                }
                proof {
                    assert(bytes@.take(index + 1).drop_last() =~= bytes@.take(index as int));
                }
                index = index + 1;
            }
            proof {
                assert(bytes@.take(bytes@.len() as int) =~= bytes@);
            }
        },
    }
}

} // verus!

verus! {

/// The texts of a row of optional strings.
pub open spec fn opt_texts(v: Seq<Option<String>>) -> Seq<Option<Seq<char>>> {
    v.map_values(
        |o: Option<String>|
            match o {
                Some(s) => Some(s@),
                None => None,
            },
    )
}

/// The fields of a row in COPY text form, separated by tabs.
pub open spec fn copy_fields(vs: Seq<Option<Seq<char>>>) -> Seq<u8>
    decreases vs.len(),
{
    if vs.len() == 0 {
        Seq::empty()
    } else if vs.len() == 1 {
        copy_field(vs[0])
    } else {
        copy_fields(vs.drop_last()) + seq![9u8] + copy_field(vs.last())
    }
}

/// A row in COPY text form: its fields, then a line feed.
pub open spec fn copy_row(vs: Seq<Option<Seq<char>>>) -> Seq<u8> {
    copy_fields(vs) + seq![10u8]
}

/// Appends the COPY text form of the row `values` to `output`.
pub fn encode_copy_row_into(values: &[Option<String>], output: &mut Vec<u8>)
    ensures
        final(output)@ == old(output)@ + copy_row(opt_texts(values@)),
{
    let ghost start = output@;
    let ghost vs = opt_texts(values@);
    let mut index: usize = 0;
    assert(vs.take(0) =~= Seq::<Option<Seq<char>>>::empty());
    while index < values.len()
        invariant
            index <= values@.len(),
            vs == opt_texts(values@),
            output@ == start + copy_fields(vs.take(index as int)),
        decreases values@.len() - index,
    {
        if index != 0 {
            output.push(9u8);
        }
        let field = match &values[index] {
            Some(v) => Some(v.as_str()),
            None => None,
        };
        encode_copy_field(field, output);
        proof {
            let t = vs.take(index + 1);
            assert(t.drop_last() =~= vs.take(index as int));
            assert(t.last() == vs[index as int]);
            if index == 0 {
                assert(t.len() == 1);
                assert(copy_fields(vs.take(0)) =~= Seq::<u8>::empty());
            }
            assert(output@ =~= start + copy_fields(t));
        }
        index = index + 1;
    }
    output.push(10u8);
    proof {
        assert(vs.take(values@.len() as int) =~= vs);
        assert(output@ =~= start + copy_row(vs));
    }
}

/// The COPY text form of the row `values`.
pub fn encode_copy_row(values: &[Option<String>]) -> (r: Vec<u8>)
    ensures
        r@ == copy_row(opt_texts(values@)),
{
    let mut output: Vec<u8> = Vec::new();
    encode_copy_row_into(values, &mut output);
    assert(output@ =~= copy_row(opt_texts(values@)));
    output
}

/// An escaped field holds no tab, line feed or carriage return, and every backslash in it
/// starts an escape.
pub proof fn lemma_escape_bytes_shape(s: Seq<u8>)
    ensures
        forall|i: int|
            0 <= i < escape_bytes(s).len() ==> #[trigger] escape_bytes(s)[i] != 9u8
                && escape_bytes(s)[i] != 10u8 && escape_bytes(s)[i] != 13u8,
        escape_bytes(s).len() >= s.len(),
        escape_bytes(s).len() > 0 ==> escape_bytes(s).last() != 92u8 || (escape_bytes(s).len()
            >= 2 && escape_bytes(s)[escape_bytes(s).len() - 2] == 92u8),
    decreases s.len(),
{
    if s.len() > 0 {
        lemma_escape_bytes_shape(s.drop_last());
        let p = escape_bytes(s.drop_last());
        let e = escape_byte(s.last());
        assert forall|i: int|
            0 <= i < (p + e).len() implies #[trigger] (p + e)[i] != 9u8 && (p + e)[i] != 10u8
                && (p + e)[i] != 13u8 by {
            if i >= p.len() {
                assert((p + e)[i] == e[i - p.len()]);
            } else {
                assert((p + e)[i] == p[i]);
            }
        }
    }
}

/// The NULL marker `\N` is never the COPY text form of a string: a value that is NULL, an
/// empty string, the word `NULL` or the text `\N` comes out distinct from the others.
pub proof fn lemma_null_marker_is_not_text(v: Seq<char>)
    ensures
        copy_field(Some(v)) != copy_field(None),
{
    let s = encode_utf8(v);
    if s.len() == 0 {
    } else {
        let p = escape_bytes(s.drop_last());
        let e = escape_byte(s.last());
        if escape_bytes(s) == seq![92u8, 78u8] {
            assert(escape_bytes(s) == p + e);
            lemma_escape_bytes_shape(s.drop_last());
            if e.len() == 2 {
                assert(p.len() == 0);
                assert(e[1] == (p + e)[1]);
            } else {
                assert(p.len() == 1);
                assert(p[0] == (p + e)[0]);
                assert(p.last() == 92u8);
            }
        }
    }
}

/// Appends the COPY text form of a row of cells: each cell's database value, with empty
/// texts as NULL where `empty_as_null` is set.
pub fn encode_copy_cells_row_into(values: &[crate::engine::cell::CellValue], empty_as_null: bool, output: &mut Vec<u8>)
    ensures
        final(output)@ == old(output)@ + copy_row(crate::engine::cell::copy_values(
            values@.map_values(|c: crate::engine::cell::CellValue| c@),
            empty_as_null,
        )),
{
    let row = crate::engine::cell::database_row(values, empty_as_null);
    encode_copy_row_into(row.as_slice(), output);
}

} // verus!
