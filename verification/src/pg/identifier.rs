//! Column names as PostgreSQL identifiers: quoting, the 63-byte limit and unique names.
use vstd::prelude::*;
use vstd::utf8::{encode_utf8, encode_scalar, char_is_scalar, is_ascii_chars, is_ascii_chars_encode_utf8};
use sha2::Digest;
use crate::text::{chars_of, string_of, lemma_encode_utf8_concat};

verus! {

/// The longest PostgreSQL identifier, in bytes.
pub const POSTGRES_IDENTIFIER_MAX_BYTES: usize = 63;

/// A column name and the identifier that stands for it in the database.
#[derive(Clone, Debug)]
pub struct IdentifierMapping {
    pub original: String,
    pub database: String,
}

/// `s` with each double quote written twice.
pub open spec fn double_quotes(s: Seq<char>) -> Seq<char>
    decreases s.len(),
{
    if s.len() == 0 {
        Seq::empty()
    } else {
        double_quotes(s.drop_last()) + if s.last() == '"' {
            seq!['"', '"']
        } else {
            seq![s.last()]
        }
    }
}

/// `identifier` as a quoted SQL identifier.
pub open spec fn quoted(identifier: Seq<char>) -> Seq<char> {
    seq!['"'] + double_quotes(identifier) + seq!['"']
}

/// Quotes `identifier` for SQL: double quotes around it, each double quote inside doubled.
pub fn quote_identifier(identifier: &str) -> (r: String)
    ensures
        r@ == quoted(identifier@),
{
    let chars = chars_of(identifier);
    let mut out: Vec<char> = Vec::new();
    out.push('"');
    let mut i: usize = 0;
    while i < chars.len()
        invariant
            i <= chars@.len(),
            chars@ == identifier@,
            out@ == seq!['"'] + double_quotes(chars@.take(i as int)),
        decreases chars@.len() - i,
    {
        let c = chars[i];
        if c == '"' {
            out.push('"');
            out.push('"');
        } else {
            out.push(c);
        }
        proof {
            assert(chars@.take(i + 1).drop_last() =~= chars@.take(i as int));
        }
        i = i + 1;
    }
    out.push('"');
    proof {
        assert(chars@.take(chars@.len() as int) =~= chars@);
    }
    string_of(out.as_slice())
}

/// The number of bytes of `s` in UTF-8.
pub open spec fn utf8_len(s: Seq<char>) -> nat {
    encode_utf8(s).len()
}

/// Counting on from `k`, how many leading characters of `s` fit into `max` bytes of UTF-8.
pub open spec fn fitting_from(s: Seq<char>, max: nat, k: nat) -> nat
    decreases s.len() - k,
{
    if k < s.len() && utf8_len(s.take(k + 1int)) <= max {
        fitting_from(s, max, k + 1)
    } else {
        k
    }
}

/// The longest prefix of `s` whose UTF-8 encoding has at most `max` bytes, that is `s` cut
/// at the last character boundary at or before byte `max`.
pub open spec fn utf8_prefix(s: Seq<char>, max: nat) -> Seq<char> {
    s.take(fitting_from(s, max, 0) as int)
}

/// One more character adds the width of its encoding.
pub proof fn lemma_utf8_len_step(s: Seq<char>, k: int)
    requires
        0 <= k < s.len(),
    ensures
        utf8_len(s.take(k + 1int)) == utf8_len(s.take(k)) + encode_scalar(s[k] as u32).len(),
{
    assert(s.take(k + 1) =~= s.take(k) + seq![s[k]]);
    lemma_encode_utf8_concat(s.take(k), seq![s[k]]);
    let one = seq![s[k]];
    assert(one[0] == s[k]);
    assert(one.drop_first() =~= Seq::<char>::empty());
    assert(encode_utf8(one.drop_first()) =~= Seq::<u8>::empty());
    assert(encode_utf8(one) =~= encode_scalar(s[k] as u32));
}

/// What `fitting_from` finds: a prefix that fits, and that cannot grow by one character.
pub proof fn lemma_fitting_from(s: Seq<char>, max: nat, k: nat)
    requires
        k <= s.len(),
        utf8_len(s.take(k as int)) <= max,
    ensures
        k <= fitting_from(s, max, k) <= s.len(),
        utf8_len(s.take(fitting_from(s, max, k) as int)) <= max,
        fitting_from(s, max, k) == s.len() || utf8_len(s.take(fitting_from(s, max, k) + 1int)) > max,
    decreases s.len() - k,
{
    if k < s.len() && utf8_len(s.take(k + 1int)) <= max {
        lemma_fitting_from(s, max, k + 1);
    }
}

/// The prefix chosen for `max` bytes has at most `max` bytes.
pub proof fn lemma_utf8_prefix_fits(s: Seq<char>, max: nat)
    ensures
        utf8_len(utf8_prefix(s, max)) <= max,
        utf8_prefix(s, max).len() <= s.len(),
{
    assert(s.take(0) =~= Seq::<char>::empty());
    assert(encode_utf8(Seq::<char>::empty()) =~= Seq::<u8>::empty());
    lemma_fitting_from(s, max, 0);
}

/// The number of bytes that `c` takes in UTF-8.
fn utf8_width(c: char) -> (w: usize)
    ensures
        w == encode_scalar(c as u32).len(),
{
    proof {
        char_is_scalar(c);
    }
    let v = c as u32;
    if v <= 0x7F {
        1
    } else if v <= 0x7FF {
        2
    } else if v <= 0xFFFF {
        3
    } else {
        4
    }
}

/// `value` cut to at most `max_bytes` bytes of UTF-8 without splitting a character.
fn truncate_utf8(value: &str, max_bytes: usize) -> (r: String)
    ensures
        r@ == utf8_prefix(value@, max_bytes as nat),
{
    let chars = chars_of(value);
    let ghost s = chars@;
    let mut used: usize = 0;
    let mut i: usize = 0;
    let mut full = false;
    proof {
        assert(s.take(0) =~= Seq::<char>::empty());
        assert(encode_utf8(Seq::<char>::empty()) =~= Seq::<u8>::empty());
    }
    while !full && i < chars.len()
        invariant
            s == chars@,
            s == value@,
            i <= s.len(),
            used == utf8_len(s.take(i as int)),
            used <= max_bytes,
            fitting_from(s, max_bytes as nat, i as nat) == fitting_from(s, max_bytes as nat, 0),
            full ==> i < s.len() && utf8_len(s.take(i + 1)) > max_bytes,
        decreases 2 * (s.len() - i) + if full {
            0int
        } else {
            1int
        },
    {
        let w = utf8_width(chars[i]);
        proof {
            lemma_utf8_len_step(s, i as int);
        }
        if w > max_bytes - used {
            full = true;
        } else {
            used = used + w;
            i = i + 1;
        }
    }
    let mut out: Vec<char> = Vec::new();
    let mut j: usize = 0;
    while j < i
        invariant
            s == chars@,
            i <= s.len(),
            j <= i,
            out@ == s.take(j as int),
        decreases i - j,
    {
        out.push(chars[j]);
        proof {
            assert(s.take(j + 1) =~= s.take(j as int).push(s[j as int]));
        }
        j = j + 1;
    }
    string_of(out.as_slice())
}

/// The lowercase hexadecimal digits, in order.
pub open spec fn hex_table() -> Seq<char> {
    seq!['0', '1', '2', '3', '4', '5', '6', '7', '8', '9', 'a', 'b', 'c', 'd', 'e', 'f']
}

/// Lowercase hexadecimal text of `data`: two digits per byte, the high half first.
pub open spec fn hex_text(data: Seq<u8>) -> Seq<char>
    decreases data.len(),
{
    if data.len() == 0 {
        Seq::empty()
    } else {
        hex_text(data.drop_last()) + seq![
            hex_table()[(data.last() / 16) as int],
            hex_table()[(data.last() % 16) as int],
        ]
    }
}

/// Hexadecimal text is ASCII and has two characters per byte.
pub proof fn lemma_hex_text(data: Seq<u8>)
    ensures
        hex_text(data).len() == 2 * data.len(),
        is_ascii_chars(hex_text(data)),
    decreases data.len(),
{
    if data.len() > 0 {
        lemma_hex_text(data.drop_last());
        let t = hex_table();
        assert(forall|i: int| 0 <= i < 16 ==> '\0' <= #[trigger] t[i] <= '\u{7f}');
        let h = hex_text(data);
        let p = hex_text(data.drop_last());
        assert forall|i: int| 0 <= i < h.len() implies '\0' <= #[trigger] h[i] <= '\u{7f}' by {
            if i < p.len() {
                assert(h[i] == p[i]);
            }
        }
    }
}

/// The SHA-256 digest of `data`, as `sha2::Sha256` computes it.
pub uninterp spec fn sha256(data: Seq<u8>) -> Seq<u8>;

/// Calls `sha2::Sha256::digest`. The digest is named `sha256` of the input bytes and, as
/// for every SHA-256 digest, is 32 bytes long.
#[verifier::external_body]
fn sha256_digest(data: &[u8]) -> (r: Vec<u8>)
    ensures
        r@ == sha256(data@),
        r@.len() == 32,
{
    sha2::Sha256::digest(data).to_vec()
}

/// Calls `hex::encode`, which writes each byte as two lowercase hexadecimal digits, the
/// high half first.
#[verifier::external_body]
fn hex_encode(data: &[u8]) -> (r: String)
    ensures
        r@ == hex_text(data@),
{
    hex::encode(data)
}

/// The text that is hashed for `name` with `salt`: the name, a NUL and the salt in decimal.
pub open spec fn salted(name: Seq<char>, salt: nat) -> Seq<char> {
    name + seq!['\0'] + crate::text::decimal(salt)
}

/// The eight hexadecimal digits that set the hashed identifier of `name` with `salt` apart.
pub open spec fn short_hash(name: Seq<char>, salt: nat) -> Seq<char> {
    hex_text(sha256(encode_utf8(salted(name, salt)))).take(8)
}

/// The identifier tried for `name` with `salt`: the name itself when it fits and the salt is
/// zero; else its first 54 bytes, an underscore and the short hash.
pub open spec fn candidate(name: Seq<char>, salt: nat) -> Seq<char> {
    if utf8_len(name) <= 63 && salt == 0 {
        name
    } else {
        utf8_prefix(name, 54) + seq!['_'] + short_hash(name, salt)
    }
}

/// The first salt from `salt` on whose candidate for `name` is not in `used`; the last salt
/// that a `u32` holds where every one is taken.
pub open spec fn free_salt(name: Seq<char>, used: Seq<Seq<char>>, salt: nat) -> nat
    decreases u32::MAX - salt,
{
    if salt >= u32::MAX || !used.contains(candidate(name, salt)) {
        salt
    } else {
        free_salt(name, used, salt + 1)
    }
}

/// The database identifiers given to `names`, in order: each name takes the candidate of its
/// first free salt, with the identifiers of the names before it taken.
pub open spec fn database_names(names: Seq<Seq<char>>) -> Seq<Seq<char>>
    decreases names.len(),
{
    if names.len() == 0 {
        Seq::empty()
    } else {
        let before = database_names(names.drop_last());
        before.push(candidate(names.last(), free_salt(names.last(), before, 0)))
    }
}

/// Every salt from `salt` to the last `u32` gives `name` a candidate that is in `used`.
pub open spec fn all_taken(name: Seq<char>, used: Seq<Seq<char>>, salt: nat) -> bool {
    forall|s: nat| salt <= s <= u32::MAX ==> #[trigger] used.contains(candidate(name, s))
}

/// The free salt is free, or every salt from `salt` on is taken.
pub proof fn lemma_free_salt(name: Seq<char>, used: Seq<Seq<char>>, salt: nat)
    requires
        salt <= u32::MAX,
    ensures
        salt <= free_salt(name, used, salt) <= u32::MAX,
        !used.contains(candidate(name, free_salt(name, used, salt))) || all_taken(name, used, salt),
    decreases u32::MAX - salt,
{
    if salt < u32::MAX && used.contains(candidate(name, salt)) {
        lemma_free_salt(name, used, salt + 1);
        let f = free_salt(name, used, salt);
        if used.contains(candidate(name, f)) {
            assert forall|s: nat| salt <= s <= u32::MAX implies #[trigger] used.contains(
                candidate(name, s),
            ) by {
                if s > salt {
                    assert(all_taken(name, used, salt + 1));
                }
            }
        }
    }
}

/// The identifier for `name` with `salt`.
fn make_candidate(name: &String, salt: u32) -> (r: String)
    ensures
        r@ == candidate(name@, salt as nat),
        utf8_len(r@) <= 63,
{
    if name.as_str().as_bytes().len() <= POSTGRES_IDENTIFIER_MAX_BYTES && salt == 0 {
        return name.clone();
    }
    let mut text = chars_of(name.as_str());
    text.push('\0');
    let digits = crate::text::decimal_chars(salt as u64);
    crate::text::push_all(&mut text, digits.as_slice());
    let salted_text = string_of(text.as_slice());
    let digest = sha256_digest(salted_text.as_str().as_bytes());
    let hex = chars_of(hex_encode(digest.as_slice()).as_str());
    let mut out = chars_of(truncate_utf8(name.as_str(), 54).as_str());
    out.push('_');
    let mut k: usize = 0;
    proof {
        lemma_hex_text(digest@);
    }
    while k < 8
        invariant
            k <= 8,
            hex@.len() == 64,
            out@ == utf8_prefix(name@, 54) + seq!['_'] + hex@.take(k as int),
        decreases 8 - k,
    {
        out.push(hex[k]);
        proof {
            assert(hex@.take(k + 1) =~= hex@.take(k as int).push(hex@[k as int]));
        }
        k = k + 1;
    }
    proof {
        assert(salted_text@ == salted(name@, salt as nat));
        let h = hex@.take(8);
        lemma_hex_text(digest@);
        assert(is_ascii_chars(seq!['_'] + h));
        is_ascii_chars_encode_utf8(seq!['_'] + h);
        lemma_utf8_prefix_fits(name@, 54);
        assert(out@ =~= utf8_prefix(name@, 54) + (seq!['_'] + h));
        lemma_encode_utf8_concat(utf8_prefix(name@, 54), seq!['_'] + h);
    }
    string_of(out.as_slice())
}

/// Gives each of `names` a database identifier of at most 63 bytes that no name before it
/// has taken: the name itself where it fits and is free, else a cut of it with a hash of the
/// name and a salt, counting the salt up from zero until the identifier is free.
pub fn map_identifiers(names: &[String]) -> (r: Vec<IdentifierMapping>)
    ensures
        r@.len() == names@.len(),
        forall|i: int| 0 <= i < r@.len() ==> #[trigger] r@[i].original@ == names@[i]@,
        forall|i: int| 0 <= i < r@.len() ==> #[trigger] r@[i].database@ == database_names(
            names@.map_values(|s: String| s@),
        )[i],
        forall|i: int| 0 <= i < r@.len() ==> utf8_len(#[trigger] r@[i].database@) <= 63,
{
    let ghost all = names@.map_values(|s: String| s@);
    let mut used: Vec<String> = Vec::new();
    let mut out: Vec<IdentifierMapping> = Vec::new();
    let mut i: usize = 0;
    while i < names.len()
        invariant
            i <= names@.len(),
            all == names@.map_values(|s: String| s@),
            out@.len() == i,
            used@.len() == i,
            database_names(all.take(i as int)) == used@.map_values(|s: String| s@),
            forall|j: int| 0 <= j < i ==> #[trigger] out@[j].original@ == names@[j]@,
            forall|j: int| 0 <= j < i ==> #[trigger] out@[j].database@ == used@[j]@,
            forall|j: int| 0 <= j < i ==> utf8_len(#[trigger] used@[j]@) <= 63,
        decreases names@.len() - i,
    {
        let name = &names[i];
        let ghost before = used@.map_values(|s: String| s@);
        let mut salt: u32 = 0;
        let mut database = make_candidate(name, salt);
        while salt < u32::MAX && crate::headers::contains_text(&used, &database)
            invariant
                before == used@.map_values(|s: String| s@),
                database@ == candidate(name@, salt as nat),
                free_salt(name@, before, salt as nat) == free_salt(name@, before, 0),
                utf8_len(database@) <= 63,
            decreases u32::MAX - salt,
        {
            proof {
                assert(crate::headers::texts(used@) == before);
            }
            salt = salt + 1;
            database = make_candidate(name, salt);
        }
        proof {
            assert(crate::headers::texts(used@) == before);
            assert(all.take(i + 1).drop_last() =~= all.take(i as int));
            assert(all.take(i + 1).last() == name@);
        }
        out.push(IdentifierMapping { original: name.clone(), database: database.clone() });
        used.push(database);
        proof {
            assert(used@.map_values(|s: String| s@) =~= before.push(database@));
        }
        i = i + 1;
    }
    proof {
        assert(all.take(names@.len() as int) =~= all);
        assert forall|i: int| 0 <= i < out@.len() implies #[trigger] out@[i].database@
            == database_names(all)[i] by {
            assert(used@.map_values(|s: String| s@)[i] == used@[i]@);
        }
    }
    out
}

/// The identifiers of a prefix of the names are the prefix of the identifiers.
pub proof fn lemma_database_names_prefix(names: Seq<Seq<char>>, k: int)
    requires
        0 <= k <= names.len(),
    ensures
        database_names(names).len() == names.len(),
        database_names(names.take(k)) == database_names(names).take(k),
    decreases names.len(),
{
    if names.len() > 0 {
        lemma_database_names_prefix(names.drop_last(), 0);
        if k == names.len() {
            assert(names.take(k) =~= names);
            assert(database_names(names).take(k) =~= database_names(names));
        } else {
            lemma_database_names_prefix(names.drop_last(), k);
            assert(names.drop_last().take(k) =~= names.take(k));
            assert(database_names(names).take(k) =~= database_names(names.drop_last()).take(k));
        }
    } else {
        assert(names.take(k) =~= names);
    }
}

/// Each name gets an identifier that no name before it has, unless every salt up to the
/// largest `u32` gives it an identifier that is already taken; and a name that fits into 63
/// bytes and is not taken yet keeps its own text.
pub proof fn lemma_database_names_distinct(names: Seq<Seq<char>>, i: int, j: int)
    requires
        0 <= i < j < names.len(),
    ensures
        database_names(names)[i] != database_names(names)[j] || all_taken(
            names[j],
            database_names(names.take(j)),
            0,
        ),
        utf8_len(names[j]) <= 63 && !database_names(names.take(j)).contains(names[j])
            ==> database_names(names)[j] == names[j],
{
    lemma_database_names_prefix(names, j + 1);
    lemma_database_names_prefix(names, j);
    let t = names.take(j + 1);
    assert(t.drop_last() =~= names.take(j));
    assert(t.last() == names[j]);
    let before = database_names(names.take(j));
    lemma_free_salt(names[j], before, 0);
    assert(database_names(t)[j] == database_names(names)[j]);
    assert(before[i] == database_names(names)[i]);
}

} // verus!
