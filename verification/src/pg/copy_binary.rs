//! PostgreSQL `COPY ... FORMAT binary` encoding.
use vstd::prelude::*;
use vstd::utf8::encode_utf8;
use crate::pg::error::AppError;
use crate::pg::copy_text::opt_texts;

verus! {

/// The signature that opens a binary COPY stream: `PGCOPY\n\xFF\r\n\0`.
pub open spec fn signature() -> Seq<u8> {
    seq![80u8, 71u8, 67u8, 79u8, 80u8, 89u8, 10u8, 255u8, 13u8, 10u8, 0u8]
}

/// `n` as a big-endian two's complement 16-bit integer.
pub open spec fn be16(n: int) -> Seq<u8> {
    let u = if n < 0 {
        n + 65536
    } else {
        n
    };
    seq![(u / 256) as u8, (u % 256) as u8]
}

/// `n` as a big-endian two's complement 32-bit integer.
pub open spec fn be32(n: int) -> Seq<u8> {
    let u = if n < 0 {
        n + 4294967296
    } else {
        n
    };
    seq![
        (u / 16777216 % 256) as u8,
        (u / 65536 % 256) as u8,
        (u / 256 % 256) as u8,
        (u % 256) as u8,
    ]
}

/// The header of a binary COPY stream: the signature, no flags, no extension area.
pub open spec fn binary_header() -> Seq<u8> {
    signature() + be32(0) + be32(0)
}

/// The trailer of a binary COPY stream: a field count of -1.
pub open spec fn binary_trailer() -> Seq<u8> {
    be16(-1)
}

/// One field of a binary COPY row: length -1 for NULL, else the byte length and the UTF-8 bytes.
pub open spec fn binary_field(v: Option<Seq<char>>) -> Seq<u8> {
    match v {
        None => be32(-1),
        Some(s) => be32(encode_utf8(s).len() as int) + encode_utf8(s),
    }
}

/// The fields of a binary COPY row, one after another.
pub open spec fn binary_fields(vs: Seq<Option<Seq<char>>>) -> Seq<u8>
    decreases vs.len(),
{
    if vs.len() == 0 {
        Seq::empty()
    } else {
        binary_fields(vs.drop_last()) + binary_field(vs.last())
    }
}

/// A binary COPY row: the field count, then the fields.
pub open spec fn binary_row(vs: Seq<Option<Seq<char>>>) -> Seq<u8> {
    be16(vs.len() as int) + binary_fields(vs)
}

/// Whether a field fits the 2 GiB limit of binary COPY.
pub open spec fn field_fits(v: Option<Seq<char>>) -> bool {
    match v {
        None => true,
        Some(s) => encode_utf8(s).len() <= i32::MAX,
    }
}

/// The first field of `vs` that does not fit, or `vs.len()`.
pub open spec fn first_oversized(vs: Seq<Option<Seq<char>>>) -> int
    decreases vs.len(),
{
    if vs.len() == 0 {
        0
    } else if !field_fits(vs[0]) {
        0
    } else {
        1 + first_oversized(vs.drop_first())
    }
}

/// The error text for a row with more fields than a binary COPY row may hold.
pub open spec fn too_many_fields_message(n: nat) -> Seq<char> {
    "二进制 COPY 单行字段数超过 PostgreSQL 限制："@ + crate::text::decimal(n)
}

/// The error text for a field over the 2 GiB limit.
pub open spec fn oversized_field_message() -> Seq<char> {
    "单个字段超过 PostgreSQL 二进制 COPY 的 2 GiB 限制"@
}

/// Appends `bytes` to `output`.
pub fn push_bytes(output: &mut Vec<u8>, bytes: &[u8])
    ensures
        final(output)@ == old(output)@ + bytes@,
{
    let ghost start = output@;
    let mut i: usize = 0;
    while i < bytes.len()
        invariant
            i <= bytes@.len(),
            output@ == start + bytes@.take(i as int),
        decreases bytes@.len() - i,
    {
        output.push(bytes[i]);
        assert(bytes@.take(i + 1) =~= bytes@.take(i as int).push(bytes@[i as int]));
        i = i + 1;
    }
    assert(bytes@.take(bytes@.len() as int) =~= bytes@);
}

/// Appends `n` (a 16-bit value, as an integer) in big-endian form.
fn push_be16(output: &mut Vec<u8>, n: i32)
    requires
        -32768 <= n <= 32767,
    ensures
        final(output)@ == old(output)@ + be16(n as int),
{
    let u: u32 = if n < 0 {
        (n + 65536) as u32
    } else {
        n as u32
    };
    output.push((u / 256) as u8);
    output.push((u % 256) as u8);
    assert(output@ =~= old(output)@ + be16(n as int));
}

/// Appends `n` (a 32-bit value, as an integer) in big-endian form.
fn push_be32(output: &mut Vec<u8>, n: i64)
    requires
        -2147483648 <= n <= 2147483647,
    ensures
        final(output)@ == old(output)@ + be32(n as int),
{
    let u: u64 = if n < 0 {
        (n + 4294967296) as u64
    } else {
        n as u64
    };
    output.push((u / 16777216 % 256) as u8);
    output.push((u / 65536 % 256) as u8);
    output.push((u / 256 % 256) as u8);
    output.push((u % 256) as u8);
    assert(output@ =~= old(output)@ + be32(n as int));
}

/// Appends the header of a binary COPY stream.
pub fn encode_binary_header(output: &mut Vec<u8>)
    ensures
        final(output)@ == old(output)@ + binary_header(),
{
    let signature: [u8; 11] = [80u8, 71u8, 67u8, 79u8, 80u8, 89u8, 10u8, 255u8, 13u8, 10u8, 0u8];
    push_bytes(output, &signature);
    push_be32(output, 0);
    push_be32(output, 0);
    assert(output@ =~= old(output)@ + binary_header());
}

/// Appends the trailer of a binary COPY stream.
pub fn encode_binary_trailer(output: &mut Vec<u8>)
    ensures
        final(output)@ == old(output)@ + binary_trailer(),
{
    push_be16(output, -1);
}

/// Appends one binary COPY row. A row of more than 32767 fields is refused before anything
/// is written; a field over 2 GiB is refused when it is reached, after the fields before it.
pub fn encode_binary_row(values: &[Option<String>], output: &mut Vec<u8>) -> (r: Result<(), AppError>)
    ensures
        ({
            let vs = opt_texts(values@);
            &&& vs.len() > 32767 ==> (final(output)@ == old(output)@ && (r matches Err(
                AppError::Config(m),
            ) && m@ == too_many_fields_message(vs.len())))
            &&& vs.len() <= 32767 && first_oversized(vs) < vs.len() ==> ((r matches Err(
                AppError::Config(m),
            ) && m@ == oversized_field_message()) && final(output)@ == old(output)@ + be16(
                vs.len() as int,
            ) + binary_fields(vs.take(first_oversized(vs))))
            &&& vs.len() <= 32767 && first_oversized(vs) == vs.len() ==> r is Ok && final(output)@
                == old(output)@ + binary_row(vs)
        }),
{
    let ghost vs = opt_texts(values@);
    proof {
        lemma_first_oversized(vs);
    }
    if values.len() > 32767 {
        let mut m = crate::text::chars_of("二进制 COPY 单行字段数超过 PostgreSQL 限制：");
        let digits = crate::text::decimal_chars(values.len() as u64);
        crate::text::push_all(&mut m, digits.as_slice());
        return Err(AppError::Config(crate::text::string_of(m.as_slice())));
    }
    push_be16(output, values.len() as i32);
    let ghost start = output@;
    let mut index: usize = 0;
    assert(vs.take(0) =~= Seq::<Option<Seq<char>>>::empty());
    while index < values.len()
        invariant
            index <= values@.len(),
            vs == opt_texts(values@),
            values@.len() <= 32767,
            start == old(output)@ + be16(values@.len() as int),
            forall|j: int| 0 <= j < index ==> field_fits(#[trigger] vs[j]),
            output@ == start + binary_fields(vs.take(index as int)),
        decreases values@.len() - index,
    {
        let ghost t = vs.take(index + 1);
        assert(t.drop_last() =~= vs.take(index as int));
        assert(t.last() == vs[index as int]);
        match &values[index] {
            None => {
                push_be32(output, -1);
            },
            Some(value) => {
                let bytes = value.as_str().as_bytes();
                assert(vs[index as int] == Some(value@));
                if bytes.len() > 2147483647 {
                    proof {
                        assert(!field_fits(vs[index as int]));
                        lemma_first_oversized_at(vs, index as int);
                    }
                    return Err(
                        AppError::Config(
                            crate::text::owned("单个字段超过 PostgreSQL 二进制 COPY 的 2 GiB 限制"),
                        ),
                    );
                }
                push_be32(output, bytes.len() as i64);
                push_bytes(output, bytes);
            },
        }
        assert(output@ =~= start + binary_fields(t));
        index = index + 1;
    }
    proof {
        assert(vs.take(values@.len() as int) =~= vs);
        lemma_all_fit(vs);
    }
    Ok(())
}

/// `first_oversized` lies within the row, and every field before it fits.
pub proof fn lemma_first_oversized(vs: Seq<Option<Seq<char>>>)
    ensures
        0 <= first_oversized(vs) <= vs.len(),
        forall|j: int| 0 <= j < first_oversized(vs) ==> field_fits(#[trigger] vs[j]),
        first_oversized(vs) < vs.len() ==> !field_fits(vs[first_oversized(vs)]),
    decreases vs.len(),
{
    if vs.len() > 0 && field_fits(vs[0]) {
        lemma_first_oversized(vs.drop_first());
        assert forall|j: int| 0 <= j < first_oversized(vs) implies field_fits(#[trigger] vs[j]) by {
            if j > 0 {
                assert(vs[j] == vs.drop_first()[j - 1]);
            }
        }
    }
}

/// Where all fields before `i` fit and field `i` does not, `i` is the first oversized field.
pub proof fn lemma_first_oversized_at(vs: Seq<Option<Seq<char>>>, i: int)
    requires
        0 <= i < vs.len(),
        forall|j: int| 0 <= j < i ==> field_fits(#[trigger] vs[j]),
        !field_fits(vs[i]),
    ensures
        first_oversized(vs) == i,
    decreases vs.len(),
{
    if i > 0 {
        assert(field_fits(vs[0]));
        assert forall|j: int| 0 <= j < i - 1 implies field_fits(#[trigger] vs.drop_first()[j]) by {
            assert(vs.drop_first()[j] == vs[j + 1]);
        }
        lemma_first_oversized_at(vs.drop_first(), i - 1);
    }
}

/// Where every field fits, there is no oversized field.
pub proof fn lemma_all_fit(vs: Seq<Option<Seq<char>>>)
    requires
        forall|j: int| 0 <= j < vs.len() ==> field_fits(#[trigger] vs[j]),
    ensures
        first_oversized(vs) == vs.len(),
    decreases vs.len(),
{
    if vs.len() > 0 {
        assert forall|j: int| 0 <= j < vs.len() - 1 implies field_fits(#[trigger] vs.drop_first()[j]) by {
            assert(vs.drop_first()[j] == vs[j + 1]);
        }
        lemma_all_fit(vs.drop_first());
        assert(field_fits(vs[0]));
    }
}

/// Appends one binary COPY row of cells, each cell giving its database value, with empty
/// texts as NULL where `empty_as_null` is set; refused as `encode_binary_row` refuses.
pub fn encode_binary_cells_row(
    values: &[crate::engine::cell::CellValue],
    empty_as_null: bool,
    output: &mut Vec<u8>,
) -> (r: Result<(), AppError>)
    ensures
        ({
            let vs = crate::engine::cell::copy_values(
                values@.map_values(|c: crate::engine::cell::CellValue| c@),
                empty_as_null,
            );
            &&& vs.len() > 32767 ==> (final(output)@ == old(output)@ && (r matches Err(
                AppError::Config(m),
            ) && m@ == too_many_fields_message(vs.len())))
            &&& vs.len() <= 32767 && first_oversized(vs) < vs.len() ==> ((r matches Err(
                AppError::Config(m),
            ) && m@ == oversized_field_message()) && final(output)@ == old(output)@ + be16(
                vs.len() as int,
            ) + binary_fields(vs.take(first_oversized(vs))))
            &&& vs.len() <= 32767 && first_oversized(vs) == vs.len() ==> r is Ok && final(output)@
                == old(output)@ + binary_row(vs)
        }),
{
    let row = crate::engine::cell::database_row(values, empty_as_null);
    encode_binary_row(row.as_slice(), output)
}

} // verus!
