//! Character and string primitives shared by the whole library.
use vstd::prelude::*;
use vstd::utf8::encode_utf8;

verus! {

broadcast use vstd::string::axiom_spec_iter;

/// The Unicode `White_Space` property, which `char::is_whitespace` reports.
pub open spec fn white_space(c: char) -> bool {
    let v = c as u32;
    ||| 9 <= v <= 13
    ||| v == 32
    ||| v == 0x85
    ||| v == 0xA0
    ||| v == 0x1680
    ||| 0x2000 <= v <= 0x200A
    ||| v == 0x2028
    ||| v == 0x2029
    ||| v == 0x202F
    ||| v == 0x205F
    ||| v == 0x3000
}

/// Whether `c` is a Unicode white space character.
pub fn is_white_space(c: char) -> (r: bool)
    ensures
        r == white_space(c),
{
    let v = c as u32;
    (9 <= v && v <= 13) || v == 32 || v == 0x85 || v == 0xA0 || v == 0x1680 || (0x2000 <= v && v
        <= 0x200A) || v == 0x2028 || v == 0x2029 || v == 0x202F || v == 0x205F || v == 0x3000
}

/// `s` without its leading white space.
pub open spec fn trim_start(s: Seq<char>) -> Seq<char>
    decreases s.len(),
{
    if s.len() > 0 && white_space(s[0]) {
        trim_start(s.drop_first())
    } else {
        s
    }
}

/// `s` without its trailing white space.
pub open spec fn trim_end(s: Seq<char>) -> Seq<char>
    decreases s.len(),
{
    if s.len() > 0 && white_space(s.last()) {
        trim_end(s.drop_last())
    } else {
        s
    }
}

/// `s` without leading and trailing white space, as `str::trim` gives it.
pub open spec fn trim(s: Seq<char>) -> Seq<char> {
    trim_end(trim_start(s))
}

/// What `trim_start` leaves does not start with white space.
proof fn lemma_trim_start_clean(s: Seq<char>)
    ensures
        trim_start(s).len() == 0 || !white_space(trim_start(s)[0]),
        trim_start(trim_start(s)) == trim_start(s),
    decreases s.len(),
{
    if s.len() > 0 && white_space(s[0]) {
        lemma_trim_start_clean(s.drop_first());
    }
}

/// What `trim_end` leaves is a start of `s` that does not end with white space.
proof fn lemma_trim_end_clean(s: Seq<char>)
    ensures
        trim_end(s) == s.take(trim_end(s).len() as int),
        trim_end(s).len() <= s.len(),
        trim_end(s).len() == 0 || !white_space(trim_end(s).last()),
        trim_end(trim_end(s)) == trim_end(s),
    decreases s.len(),
{
    if s.len() > 0 && white_space(s.last()) {
        lemma_trim_end_clean(s.drop_last());
        let u = trim_end(s.drop_last());
        assert(s.drop_last().take(u.len() as int) =~= s.take(u.len() as int));
    } else {
        assert(s.take(s.len() as int) =~= s);
    }
}

/// Trimming twice trims as much as trimming once.
pub proof fn lemma_trim_twice(s: Seq<char>)
    ensures
        trim(trim(s)) == trim(s),
{
    let a = trim_start(s);
    lemma_trim_start_clean(s);
    lemma_trim_end_clean(a);
    let u = trim_end(a);
    if u.len() > 0 {
        assert(u[0] == a[0]);
        assert(trim_start(u) == u);
    } else {
        assert(trim_start(u) == u);
    }
}

/// What `trim_start` leaves is an end of `s`.
proof fn lemma_trim_start_skip(s: Seq<char>)
    ensures
        trim_start(s).len() <= s.len(),
        trim_start(s) == s.skip(s.len() - trim_start(s).len()),
    decreases s.len(),
{
    if s.len() > 0 && white_space(s[0]) {
        lemma_trim_start_skip(s.drop_first());
        let u = trim_start(s.drop_first());
        assert(s.drop_first().skip(s.len() - 1 - u.len()) =~= s.skip(s.len() - u.len()));
    } else {
        assert(s.skip(0) =~= s);
    }
}

/// A trimmed text neither starts nor ends with white space, and each of its characters
/// occurs in the text it was trimmed from.
pub proof fn lemma_trim_ends(s: Seq<char>)
    ensures
        trim(s).len() == 0 || (!white_space(trim(s)[0]) && !white_space(trim(s).last())),
        forall|i: int| 0 <= i < trim(s).len() ==> s.contains(#[trigger] trim(s)[i]),
{
    let a = trim_start(s);
    lemma_trim_start_clean(s);
    lemma_trim_start_skip(s);
    lemma_trim_end_clean(a);
    let t = trim_end(a);
    let k = s.len() - a.len();
    assert forall|i: int| 0 <= i < t.len() implies s.contains(#[trigger] t[i]) by {
        assert(t[i] == a[i]);
        assert(a[i] == s[k + i]);
    }
    if t.len() > 0 {
        assert(t[0] == a[0]);
    }
}

/// The lowercase mapping of `s` that `str::to_lowercase` computes from the Unicode tables.
pub uninterp spec fn lower(s: Seq<char>) -> Seq<char>;

/// The uppercase mapping of `s` that `str::to_uppercase` computes from the Unicode tables.
pub uninterp spec fn upper(s: Seq<char>) -> Seq<char>;

/// Calls `str::to_lowercase`; its result is named `lower` of the argument.
#[verifier::external_body]
pub(crate) fn to_lowercase(s: &str) -> (r: String)
    ensures
        r@ == lower(s@),
{
    s.to_lowercase()
}

/// Calls `str::to_uppercase`; its result is named `upper` of the argument.
#[verifier::external_body]
pub(crate) fn to_uppercase(s: &str) -> (r: String)
    ensures
        r@ == upper(s@),
{
    s.to_uppercase()
}

/// The characters of `s` in order.
pub(crate) fn chars_of(s: &str) -> (r: Vec<char>)
    ensures
        r@ == s@,
{
    let mut out: Vec<char> = Vec::new();
    for c in it: s.chars()
        invariant
            it.seq() == s@,
            out@ == s@.take(it.index() as int),
            it.index() <= s@.len(),
    {
        out.push(c);
        assert(s@.take(it.index() + 1) =~= s@.take(it.index() as int).push(c));
    }
    assert(s@.take(s@.len() as int) =~= s@);
    out
}

/// Collects the characters `v` into a `String` (`FromIterator<char>`).
#[verifier::external_body]
pub(crate) fn string_of(v: &[char]) -> (r: String)
    ensures
        r@ == v@,
{
    v.iter().collect()
}

/// The characters of a string literal or other `&str` as an owned `String`.
pub fn owned(s: &str) -> (r: String)
    ensures
        r@ == s@,
{
    s.to_owned()
}

/// Appends `tail` to `s`.
pub fn concat(s: &str, tail: &str) -> (r: String)
    ensures
        r@ == s@ + tail@,
{
    let mut a = chars_of(s);
    let b = chars_of(tail);
    let mut i: usize = 0;
    while i < b.len()
        invariant
            i <= b@.len(),
            a@ == s@ + b@.take(i as int),
            b@ == tail@,
        decreases b@.len() - i,
    {
        a.push(b[i]);
        proof {
            assert(b@.take(i + 1) =~= b@.take(i as int).push(b@[i as int]));
        }
        i = i + 1;
    }
    proof {
        assert(b@.take(b@.len() as int) =~= b@);
    }
    string_of(a.as_slice())
}

/// `s` with leading and trailing white space removed.
pub fn trim_chars(s: &[char]) -> (r: Vec<char>)
    ensures
        r@ == trim(s@),
{
    let n = s.len();
    let mut start: usize = 0;
    assert(s@.subrange(0, n as int) =~= s@);
    while start < n && is_white_space(s[start])
        invariant
            start <= n,
            n == s@.len(),
            trim_start(s@) == trim_start(s@.subrange(start as int, n as int)),
        decreases n - start,
    {
        proof {
            assert(s@.subrange(start as int, n as int).drop_first() =~= s@.subrange(
                start + 1,
                n as int,
            ));
        }
        start = start + 1;
    }
    let ghost t = s@.subrange(start as int, n as int);
    assert(trim_start(s@) == t);
    let mut end: usize = n;
    while end > start && is_white_space(s[end - 1])
        invariant
            start <= end <= n,
            n == s@.len(),
            t == s@.subrange(start as int, n as int),
            trim_end(t) == trim_end(s@.subrange(start as int, end as int)),
        decreases end,
    {
        proof {
            assert(s@.subrange(start as int, end as int).drop_last() =~= s@.subrange(
                start as int,
                end - 1,
            ));
        }
        end = end - 1;
    }
    let mut out: Vec<char> = Vec::new();
    let mut i = start;
    while i < end
        invariant
            start <= i <= end,
            end <= n,
            n == s@.len(),
            out@ == s@.subrange(start as int, i as int),
        decreases end - i,
    {
        out.push(s[i]);
        proof {
            assert(s@.subrange(start as int, i + 1) =~= s@.subrange(start as int, i as int).push(
                s@[i as int],
            ));
        }
        i = i + 1;
    }
    out
}

/// `s` with leading and trailing white space removed, as `str::trim` does.
pub fn trim_str(s: &str) -> (r: String)
    ensures
        r@ == trim(s@),
{
    let chars = chars_of(s);
    let t = trim_chars(chars.as_slice());
    string_of(t.as_slice())
}

} // verus!

verus! {

/// The ASCII digit for `d` (which is below ten).
pub open spec fn digit(d: nat) -> char {
    if d == 0 {
        '0'
    } else if d == 1 {
        '1'
    } else if d == 2 {
        '2'
    } else if d == 3 {
        '3'
    } else if d == 4 {
        '4'
    } else if d == 5 {
        '5'
    } else if d == 6 {
        '6'
    } else if d == 7 {
        '7'
    } else if d == 8 {
        '8'
    } else {
        '9'
    }
}

/// The decimal representation of `n`, without sign or leading zeros.
pub open spec fn decimal(n: nat) -> Seq<char>
    decreases n,
{
    if n < 10 {
        seq![digit(n)]
    } else {
        decimal(n / 10).push(digit(n % 10))
    }
}

/// The ASCII digit for `d`.
pub fn digit_char(d: u64) -> (c: char)
    requires
        d < 10,
    ensures
        c == digit(d as nat),
{
    if d == 0 {
        '0'
    } else if d == 1 {
        '1'
    } else if d == 2 {
        '2'
    } else if d == 3 {
        '3'
    } else if d == 4 {
        '4'
    } else if d == 5 {
        '5'
    } else if d == 6 {
        '6'
    } else if d == 7 {
        '7'
    } else if d == 8 {
        '8'
    } else {
        '9'
    }
}

/// The decimal digits of `n`, as `u64::to_string` writes them.
pub fn decimal_chars(n: u64) -> (r: Vec<char>)
    ensures
        r@ == decimal(n as nat),
{
    decimal_chars_wide(n as u128)
}

/// The decimal digits of `n`, as `u128::to_string` writes them.
pub fn decimal_chars_wide(n: u128) -> (r: Vec<char>)
    ensures
        r@ == decimal(n as nat),
    decreases n,
{
    if n < 10 {
        let mut v: Vec<char> = Vec::new();
        v.push(digit_char(n as u64));
        v
    } else {
        let mut v = decimal_chars_wide(n / 10);
        v.push(digit_char((n % 10) as u64));
        v
    }
}

/// The decimal text of `n`, as `n.to_string()` gives it.
pub fn decimal_string(n: u64) -> (r: String)
    ensures
        r@ == decimal(n as nat),
{
    let v = decimal_chars(n);
    string_of(v.as_slice())
}

/// Appends the characters of `tail` to `out`.
pub fn push_all(out: &mut Vec<char>, tail: &[char])
    ensures
        final(out)@ == old(out)@ + tail@,
{
    let ghost start = out@;
    let mut i: usize = 0;
    while i < tail.len()
        invariant
            i <= tail@.len(),
            out@ == start + tail@.take(i as int),
        decreases tail@.len() - i,
    {
        out.push(tail[i]);
        proof {
            assert(tail@.take(i + 1) =~= tail@.take(i as int).push(tail@[i as int]));
        }
        i = i + 1;
    }
    proof {
        assert(tail@.take(tail@.len() as int) =~= tail@);
    }
}

/// Appends the characters of `tail` to `out`.
pub fn push_str(out: &mut Vec<char>, tail: &str)
    ensures
        final(out)@ == old(out)@ + tail@,
{
    let t = chars_of(tail);
    push_all(out, t.as_slice());
}

} // verus!

verus! {

/// `s` without the byte order marks at its start.
pub open spec fn strip_bom(s: Seq<char>) -> Seq<char>
    decreases s.len(),
{
    if s.len() > 0 && s[0] == '\u{feff}' {
        strip_bom(s.drop_first())
    } else {
        s
    }
}

/// The characters of `s` after its leading byte order marks.
pub fn strip_bom_chars(s: &Vec<char>) -> (r: Vec<char>)
    ensures
        r@ == strip_bom(s@),
{
    let n = s.len();
    let mut start: usize = 0;
    assert(s@.subrange(0, n as int) =~= s@);
    while start < n && s[start] == '\u{feff}'
        invariant
            start <= n,
            n == s@.len(),
            strip_bom(s@) == strip_bom(s@.subrange(start as int, n as int)),
        decreases n - start,
    {
        assert(s@.subrange(start as int, n as int).drop_first() =~= s@.subrange(
            start + 1,
            n as int,
        ));
        start = start + 1;
    }
    let mut out: Vec<char> = Vec::new();
    let mut i = start;
    while i < n
        invariant
            start <= i <= n,
            n == s@.len(),
            out@ == s@.subrange(start as int, i as int),
        decreases n - i,
    {
        out.push(s[i]);
        assert(s@.subrange(start as int, i + 1) =~= s@.subrange(start as int, i as int).push(
            s@[i as int],
        ));
        i = i + 1;
    }
    out
}

/// UTF-8 encoding distributes over concatenation.
pub proof fn lemma_encode_utf8_concat(a: Seq<char>, b: Seq<char>)
    ensures
        encode_utf8(a + b) == encode_utf8(a) + encode_utf8(b),
    decreases a.len(),
{
    if a.len() == 0 {
        assert(a + b =~= b);
        assert(encode_utf8(a) =~= Seq::<u8>::empty());
        assert(encode_utf8(a) + encode_utf8(b) =~= encode_utf8(b));
    } else {
        assert((a + b)[0] == a[0]);
        assert((a + b).drop_first() =~= a.drop_first() + b);
        lemma_encode_utf8_concat(a.drop_first(), b);
        assert(encode_utf8(a + b) =~= encode_utf8(a) + encode_utf8(b));
    }
}

/// `parts` written one after another with `sep` between each two, as `join` gives them.
pub open spec fn joined(parts: Seq<Seq<char>>, sep: Seq<char>) -> Seq<char>
    decreases parts.len(),
{
    if parts.len() == 0 {
        Seq::empty()
    } else if parts.len() == 1 {
        parts[0]
    } else {
        joined(parts.drop_last(), sep) + sep + parts.last()
    }
}

/// Joins `parts` with `sep` between each two.
pub fn join_strings(parts: &[String], sep: &str) -> (r: String)
    ensures
        r@ == joined(parts@.map_values(|p: String| p@), sep@),
{
    let ghost all = parts@.map_values(|p: String| p@);
    let mut out: Vec<char> = Vec::new();
    let mut i: usize = 0;
    while i < parts.len()
        invariant
            i <= parts@.len(),
            all == parts@.map_values(|p: String| p@),
            out@ == joined(all.take(i as int), sep@),
        decreases parts@.len() - i,
    {
        if i > 0 {
            push_str(&mut out, sep);
        }
        push_str(&mut out, parts[i].as_str());
        proof {
            assert(all.take(i + 1).drop_last() =~= all.take(i as int));
            if i == 0 {
                assert(all.take(0) =~= Seq::<Seq<char>>::empty());
                assert(out@ =~= all.take(1)[0]);
            }
        }
        i = i + 1;
    }
    proof {
        assert(all.take(parts@.len() as int) =~= all);
    }
    string_of(out.as_slice())
}

/// `c` with an ASCII capital letter made small, as `char::to_ascii_lowercase` does.
pub open spec fn ascii_lower_char(c: char) -> char {
    if 'A' <= c <= 'Z' {
        ((c as u8) + 32) as char
    } else {
        c
    }
}

/// `s` with its ASCII capital letters made small, as `str::to_ascii_lowercase` does.
pub open spec fn ascii_lower(s: Seq<char>) -> Seq<char> {
    s.map_values(|c: char| ascii_lower_char(c))
}

/// `s` with its ASCII capital letters made small.
pub fn to_ascii_lowercase(s: &str) -> (r: String)
    ensures
        r@ == ascii_lower(s@),
{
    let chars = chars_of(s);
    let mut out: Vec<char> = Vec::new();
    let mut i: usize = 0;
    while i < chars.len()
        invariant
            i <= chars@.len(),
            chars@ == s@,
            out@ == ascii_lower(chars@.take(i as int)),
        decreases chars@.len() - i,
    {
        let c = chars[i];
        let l = if 'A' <= c && c <= 'Z' {
            ((c as u8) + 32) as char
        } else {
            c
        };
        out.push(l);
        proof {
            assert(ascii_lower(chars@.take(i + 1)) =~= ascii_lower(chars@.take(i as int)).push(ascii_lower_char(c)));
        }
        i = i + 1;
    }
    proof {
        assert(chars@.take(chars@.len() as int) =~= chars@);
    }
    string_of(out.as_slice())
}

/// The parts of `s` between the occurrences of `c`, as `str::split` with a character gives
/// them: one part more than there are separators.
pub open spec fn split_char(s: Seq<char>, c: char) -> Seq<Seq<char>>
    decreases s.len(),
{
    if s.len() == 0 {
        seq![Seq::empty()]
    } else {
        let p = split_char(s.drop_last(), c);
        if s.last() == c {
            p.push(Seq::empty())
        } else {
            p.update(p.len() - 1, p.last().push(s.last()))
        }
    }
}

/// The parts of `s` between the occurrences of `sep`.
pub fn split_on(s: &Vec<char>, sep: char) -> (r: Vec<Vec<char>>)
    ensures
        r@.map_values(|p: Vec<char>| p@) == split_char(s@, sep),
{
    let mut parts: Vec<Vec<char>> = Vec::new();
    parts.push(Vec::new());
    let mut i: usize = 0;
    proof {
        assert(s@.take(0) =~= Seq::<char>::empty());
        assert(parts@.map_values(|p: Vec<char>| p@) =~= seq![Seq::<char>::empty()]);
    }
    while i < s.len()
        invariant
            i <= s@.len(),
            parts@.len() >= 1,
            parts@.map_values(|p: Vec<char>| p@) == split_char(s@.take(i as int), sep),
        decreases s@.len() - i,
    {
        let c = s[i];
        let ghost before = parts@.map_values(|p: Vec<char>| p@);
        proof {
            assert(s@.take(i + 1).drop_last() =~= s@.take(i as int));
            assert(s@.take(i + 1).last() == c);
        }
        if c == sep {
            parts.push(Vec::new());
            proof {
                assert(parts@.map_values(|p: Vec<char>| p@) =~= before.push(Seq::<char>::empty()));
            }
        } else {
            let last = parts.len() - 1;
            let mut current: Vec<char> = Vec::new();
            parts.set_and_swap(last, &mut current);
            let ghost was = current@;
            current.push(c);
            parts.set_and_swap(last, &mut current);
            proof {
                assert(was == before[last as int]);
                assert(parts@.map_values(|p: Vec<char>| p@) =~= before.update(
                    last as int,
                    before[last as int].push(c),
                ));
            }
        }
        i = i + 1;
    }
    proof {
        assert(s@.take(s@.len() as int) =~= s@);
    }
    parts
}

} // verus!
