//! Text helpers: equality, cutting at a character boundary, decimal and hexadecimal digits.
//!
//! A string is modelled as its sequence of characters. Limits are in bytes, so they speak of
//! the length of the UTF-8 encoding of that sequence.
use vstd::prelude::*;
use vstd::string::*;
use vstd::utf8::*;

verus! {

/// How many bytes `s` takes in UTF-8.
pub open spec fn byte_len(s: Seq<char>) -> nat {
    encode_utf8(s).len()
}

/// How many bytes one character takes in UTF-8.
pub open spec fn char_width(c: char) -> nat {
    encode_scalar(c as u32).len()
}

/// How many characters of `s`, counted from its start, fit into `limit` bytes.
pub open spec fn fitting(s: Seq<char>, limit: int) -> nat
    decreases s.len(),
{
    if s.len() == 0 || char_width(s[0]) > limit {
        0
    } else {
        1 + fitting(s.drop_first(), limit - char_width(s[0]))
    }
}

/// The longest prefix of `s` that takes at most `limit` bytes.
pub open spec fn cut_at(s: Seq<char>, limit: int) -> Seq<char> {
    s.take(fitting(s, limit) as int)
}

/// `s` if it takes at most `limit` bytes, else its longest prefix that does, followed by an
/// ellipsis.
pub open spec fn clipped(s: Seq<char>, limit: int) -> Seq<char> {
    if byte_len(s) <= limit {
        s
    } else {
        cut_at(s, limit) + "…"@
    }
}

proof fn lemma_fitting_bounds(s: Seq<char>, limit: int)
    ensures
        fitting(s, limit) <= s.len(),
    decreases s.len(),
{
    if s.len() > 0 && char_width(s[0]) <= limit {
        lemma_fitting_bounds(s.drop_first(), limit - char_width(s[0]));
    }
}

/// The encoding of a concatenation is the concatenation of the encodings.
pub proof fn lemma_encode_concat(a: Seq<char>, b: Seq<char>)
    ensures
        encode_utf8(a + b) == encode_utf8(a) + encode_utf8(b),
    decreases a.len(),
{
    if a.len() == 0 {
        assert(a + b =~= b);
        assert(encode_utf8(a) + encode_utf8(b) =~= encode_utf8(b));
    } else {
        assert((a + b).drop_first() =~= a.drop_first() + b);
        lemma_encode_concat(a.drop_first(), b);
        assert(encode_utf8(a + b) =~= encode_utf8(a) + encode_utf8(b));
    }
}

/// Every byte of a character beyond ASCII is beyond ASCII.
proof fn lemma_wide_bytes(c: u32)
    by (bit_vector)
    requires
        0x80 <= c < 0x11_0000,
    ensures
        leading_byte_width_2(c) >= 0x80,
        leading_byte_width_3(c) >= 0x80,
        leading_byte_width_4(c) >= 0x80,
        last_continuation_byte(c) >= 0x80,
        second_last_continuation_byte(c) >= 0x80,
        third_last_continuation_byte(c) >= 0x80,
{
}

proof fn lemma_narrow_byte(c: u32)
    by (bit_vector)
    requires
        c < 0x80,
    ensures
        leading_byte_width_1(c) == c,
{
}

/// The bytes of a text on one line hold no newline.
pub proof fn lemma_no_newline(s: Seq<char>)
    requires
        forall|i: int| 0 <= i < s.len() ==> #[trigger] s[i] != '\n',
    ensures
        !encode_utf8(s).contains(0x0au8),
    decreases s.len(),
{
    if s.len() > 0 {
        let c = s[0] as u32;
        let rest = s.drop_first();
        assert forall|i: int| 0 <= i < rest.len() implies #[trigger] rest[i] != '\n' by {
            assert(rest[i] == s[i + 1]);
        }
        lemma_no_newline(rest);
        char_is_scalar(s[0]);
        if c < 0x80 {
            lemma_narrow_byte(c);
        } else {
            lemma_wide_bytes(c);
        }
        let head = encode_scalar(c);
        assert(forall|i: int| 0 <= i < head.len() ==> #[trigger] head[i] != 0x0au8) by {
            char_u32_cast(s[0], c);
            assert(c != '\n' as u32);
        }
        assert(encode_utf8(s) == head + encode_utf8(rest));
        assert forall|i: int| 0 <= i < encode_utf8(s).len() implies #[trigger] encode_utf8(s)[i]
            != 0x0au8 by {
            if i < head.len() {
                assert(encode_utf8(s)[i] == head[i]);
            } else {
                assert(encode_utf8(s)[i] == encode_utf8(rest)[i - head.len()]);
                assert(encode_utf8(rest).contains(encode_utf8(rest)[i - head.len()]));
            }
        }
    }
}

/// Two texts with the same encoding are the same text.
pub proof fn lemma_encode_injective(a: Seq<char>, b: Seq<char>)
    requires
        encode_utf8(a) == encode_utf8(b),
    ensures
        a == b,
{
    encode_utf8_decode_utf8(a);
    encode_utf8_decode_utf8(b);
}

/// The prefix that `cut_at` picks ends at a character boundary, takes at most `limit` bytes, and
/// no later boundary does.
proof fn lemma_cut_boundary(s: Seq<char>, limit: int)
    requires
        0 <= limit,
    ensures
        byte_len(cut_at(s, limit)) <= limit,
        is_char_boundary(encode_utf8(s), byte_len(cut_at(s, limit)) as int),
        encode_utf8(s).subrange(0, byte_len(cut_at(s, limit)) as int) == encode_utf8(
            cut_at(s, limit),
        ),
        byte_len(cut_at(s, limit)) <= encode_utf8(s).len(),
        forall|m: int|
            byte_len(cut_at(s, limit)) < m <= limit ==> !#[trigger] is_char_boundary(
                encode_utf8(s),
                m,
            ),
    decreases s.len(),
{
    let bytes = encode_utf8(s);
    encode_utf8_valid_utf8(s);
    lemma_fitting_bounds(s, limit);
    assert(cut_at(s, limit) + s.skip(fitting(s, limit) as int) =~= s);
    lemma_encode_concat(cut_at(s, limit), s.skip(fitting(s, limit) as int));
    assert(bytes.subrange(0, byte_len(cut_at(s, limit)) as int) =~= encode_utf8(cut_at(s, limit)));
    if s.len() == 0 {
        assert(cut_at(s, limit) =~= Seq::<char>::empty());
        is_char_boundary_start_end_of_seq(bytes);
    } else {
        encode_utf8_first_scalar(s);
        assert(pop_first_scalar(bytes) =~= encode_utf8(s.drop_first()));
        let w = char_width(s[0]);
        assert(length_of_first_scalar(bytes) == w);
        if w > limit {
            assert(cut_at(s, limit) =~= Seq::<char>::empty());
            assert forall|m: int| 0 < m <= limit implies !#[trigger] is_char_boundary(
                bytes,
                m,
            ) by {
                reveal_with_fuel(is_char_boundary, 2);
                encode_utf8_valid_utf8(s.drop_first());
            }
        } else {
            let rest = s.drop_first();
            lemma_cut_boundary(rest, limit - w);
            lemma_fitting_bounds(rest, limit - w);
            let c = cut_at(s, limit);
            assert(c.drop_first() =~= cut_at(rest, limit - w));
            assert(c[0] == s[0]);
            assert(byte_len(c) == w + byte_len(cut_at(rest, limit - w)));
            assert forall|m: int| byte_len(c) < m <= limit implies !#[trigger] is_char_boundary(
                bytes,
                m,
            ) by {
                assert(!is_char_boundary(encode_utf8(rest), m - w));
            }
        }
    }
}

/// No longer prefix fits: `cut_at` is the longest one within the limit.
pub proof fn law_cut_is_longest(s: Seq<char>, limit: int, k: int)
    requires
        0 <= limit,
        cut_at(s, limit).len() < k <= s.len(),
    ensures
        byte_len(cut_at(s, limit)) <= limit,
        byte_len(s.take(k)) > limit,
    decreases s.len(),
{
    lemma_cut_boundary(s, limit);
    lemma_fitting_bounds(s, limit);
    assert(s.take(k).drop_first() =~= s.drop_first().take(k - 1));
    assert(s.take(k)[0] == s[0]);
    if char_width(s[0]) <= limit {
        lemma_fitting_bounds(s.drop_first(), limit - char_width(s[0]));
        law_cut_is_longest(s.drop_first(), limit - char_width(s[0]), k - 1);
    }
}

/// The ellipsis takes three bytes.
pub proof fn lemma_ellipsis()
    ensures
        byte_len("…"@) == 3,
{
    reveal_strlit("…");
    assert("…"@.len() == 1);
    reveal_with_fuel(encode_utf8, 2);
    assert("…"@.drop_first() =~= Seq::<char>::empty());
}

/// Clipped text never takes more than the limit and the ellipsis.
pub proof fn law_clipped_is_bounded(s: Seq<char>, limit: int)
    requires
        0 <= limit,
    ensures
        byte_len(clipped(s, limit)) <= limit + 3,
{
    lemma_cut_boundary(s, limit);
    lemma_ellipsis();
    lemma_encode_concat(cut_at(s, limit), "…"@);
}

/// The longest prefix of `s` that takes at most `limit` bytes and ends between two characters.
pub fn cut(s: &str, limit: usize) -> (r: &str)
    ensures
        r@ == cut_at(s@, limit as int),
{
    proof {
        encode_utf8_valid_utf8(s@);
        lemma_cut_boundary(s@, limit as int);
        is_char_boundary_start_end_of_seq(s.spec_bytes());
    }
    let len: usize = s.as_bytes().len();
    let mut end: usize = if len < limit {
        len
    } else {
        limit
    };
    let ghost n = byte_len(cut_at(s@, limit as int)) as int;
    while !s.is_char_boundary(end)
        invariant
            n <= end <= limit,
            end <= s.spec_bytes().len(),
            n >= 0,
            is_char_boundary(s.spec_bytes(), n),
        decreases end,
    {
        assert(end != n);
        end = end - 1;
    }
    let r = s.split_at(end).0;
    proof {
        assert(end == n) by {
            if n < end {
                assert(!is_char_boundary(encode_utf8(s@), end as int));
            }
        }
        lemma_encode_injective(r@, cut_at(s@, limit as int));
    }
    r
}

/// `s`, shortened to at most `limit` bytes and an ellipsis when it is longer than `limit`.
pub fn clip_to(s: &str, limit: usize) -> (r: String)
    ensures
        r@ == clipped(s@, limit as int),
{
    if s.as_bytes().len() <= limit {
        return s.to_owned();
    }
    let mut out = cut(s, limit).to_owned();
    out.append("…");
    out
}

/// Whether two byte strings are the same.
pub fn same_bytes(a: &[u8], b: &[u8]) -> (r: bool)
    ensures
        r == (a@ == b@),
{
    crate::drain::constant_time_eq(a, b)
}

/// The same bytes once more.
pub fn copy_bytes(bytes: &[u8]) -> (r: Vec<u8>)
    ensures
        r@ == bytes@,
{
    vstd::slice::slice_to_vec(bytes)
}

/// Whether two texts are the same.
pub fn same(a: &str, b: &str) -> (r: bool)
    ensures
        r == (a@ == b@),
{
    let x = a.as_bytes();
    let y = b.as_bytes();
    if x.len() != y.len() {
        return false;
    }
    let mut i: usize = 0;
    while i < x.len()
        invariant
            x@ == encode_utf8(a@),
            y@ == encode_utf8(b@),
            x@.len() == y@.len(),
            i <= x@.len(),
            forall|j: int| 0 <= j < i ==> x@[j] == y@[j],
        decreases x@.len() - i,
    {
        if x[i] != y[i] {
            return false;
        }
        i = i + 1;
    }
    proof {
        assert(x@ =~= y@);
        lemma_encode_injective(a@, b@);
    }
    true
}

/// The texts joined by `separator`.
pub open spec fn joined(parts: Seq<Seq<char>>, separator: Seq<char>) -> Seq<char>
    decreases parts.len(),
{
    if parts.len() == 0 {
        Seq::empty()
    } else if parts.len() == 1 {
        parts[0]
    } else {
        joined(parts.drop_last(), separator) + separator + parts.last()
    }
}

/// The characters of each string of a list.
pub open spec fn views(list: Seq<String>) -> Seq<Seq<char>> {
    Seq::new(list.len(), |i: int| list[i]@)
}

/// An equal list of strings.
pub fn copy_strings(list: &Vec<String>) -> (r: Vec<String>)
    ensures
        views(r@) == views(list@),
{
    let mut out: Vec<String> = Vec::new();
    let mut i: usize = 0;
    while i < list.len()
        invariant
            i <= list@.len(),
            out@.len() == i,
            forall|j: int| 0 <= j < i ==> out@[j]@ == list@[j]@,
        decreases list@.len() - i,
    {
        out.push(list[i].clone());
        i = i + 1;
    }
    proof {
        assert(views(out@) =~= views(list@));
    }
    out
}

/// The texts of a list of string slices.
pub open spec fn slices(list: Seq<&str>) -> Seq<Seq<char>> {
    Seq::new(list.len(), |i: int| list[i]@)
}

/// The same texts, owned.
pub fn own_strings(list: &[&str]) -> (r: Vec<String>)
    ensures
        views(r@) == slices(list@),
{
    let mut out: Vec<String> = Vec::new();
    let mut i: usize = 0;
    while i < list.len()
        invariant
            i <= list@.len(),
            out@.len() == i,
            forall|j: int| 0 <= j < i ==> out@[j]@ == list@[j]@,
        decreases list@.len() - i,
    {
        out.push(list[i].to_owned());
        i = i + 1;
    }
    proof {
        assert(views(out@) =~= slices(list@));
    }
    out
}

/// Joins a list of strings.
pub fn join(parts: &Vec<String>, separator: &str) -> (r: String)
    ensures
        r@ == joined(views(parts@), separator@),
{
    let mut out = String::new();
    let mut i: usize = 0;
    proof {
        assert(views(parts@).take(0) =~= Seq::<Seq<char>>::empty());
    }
    while i < parts.len()
        invariant
            i <= parts@.len(),
            out@ == joined(views(parts@).take(i as int), separator@),
        decreases parts@.len() - i,
    {
        if i > 0 {
            out.append(separator);
        }
        out.append(parts[i].as_str());
        proof {
            let next = views(parts@).take(i + 1);
            assert(next.drop_last() =~= views(parts@).take(i as int));
            assert(next.last() == parts@[i as int]@);
            if i == 0 {
                assert(out@ =~= next[0]);
            }
        }
        i = i + 1;
    }
    proof {
        assert(views(parts@).take(parts@.len() as int) =~= views(parts@));
    }
    out
}

/// The decimal digit `d`.
pub open spec fn digit(d: int) -> char {
    if d == 0 {
        '0'
    } else if d == 1 {
        '1'
    } else if d == 2 {
        '2'
    } else if d == 3 {
        '3'
    } else if d == 4 {
        '4'
    } else if d == 5 {
        '5'
    } else if d == 6 {
        '6'
    } else if d == 7 {
        '7'
    } else if d == 8 {
        '8'
    } else if d == 9 {
        '9'
    } else if d == 10 {
        'a'
    } else if d == 11 {
        'b'
    } else if d == 12 {
        'c'
    } else if d == 13 {
        'd'
    } else if d == 14 {
        'e'
    } else {
        'f'
    }
}

fn digit_str(d: u64) -> (r: &'static str)
    requires
        d < 16,
    ensures
        r@ == seq![digit(d as int)],
{
    let r = match d {
        0 => "0",
        1 => "1",
        2 => "2",
        3 => "3",
        4 => "4",
        5 => "5",
        6 => "6",
        7 => "7",
        8 => "8",
        9 => "9",
        10 => "a",
        11 => "b",
        12 => "c",
        13 => "d",
        14 => "e",
        _ => "f",
    };
    proof {
        reveal_strlit("0");
        reveal_strlit("1");
        reveal_strlit("2");
        reveal_strlit("3");
        reveal_strlit("4");
        reveal_strlit("5");
        reveal_strlit("6");
        reveal_strlit("7");
        reveal_strlit("8");
        reveal_strlit("9");
        reveal_strlit("a");
        reveal_strlit("b");
        reveal_strlit("c");
        reveal_strlit("d");
        reveal_strlit("e");
        reveal_strlit("f");
        assert(r@ =~= seq![digit(d as int)]);
    }
    r
}

/// `n` written in decimal, without leading zeros.
pub open spec fn decimal(n: nat) -> Seq<char>
    decreases n,
{
    if n < 10 {
        seq![digit(n as int)]
    } else {
        decimal(n / 10).push(digit((n % 10) as int))
    }
}

/// Writes a number in decimal.
pub fn decimal_string(n: u64) -> (r: String)
    ensures
        r@ == decimal(n as nat),
    decreases n,
{
    if n < 10 {
        return digit_str(n).to_owned();
    }
    let mut out = decimal_string(n / 10);
    out.append(digit_str(n % 10));
    proof {
        assert(out@ =~= decimal(n as nat));
    }
    out
}

/// Two numbers that are written alike are the same number.
pub proof fn law_decimal_is_injective(a: nat, b: nat)
    requires
        decimal(a) == decimal(b),
    ensures
        a == b,
{
    law_decimal_is_read_back(a);
    law_decimal_is_read_back(b);
}

pub proof fn lemma_decimal_len(n: nat)
    ensures
        decimal(n).len() >= 1,
        n >= 10 ==> decimal(n).len() >= 2,
    decreases n,
{
    if n >= 10 {
        lemma_decimal_len(n / 10);
    }
}

/// A decimal number is ASCII, and has at most as many digits as its bound.
pub proof fn lemma_decimal_ascii(n: nat)
    ensures
        is_ascii_chars(decimal(n)),
        byte_len(decimal(n)) == decimal(n).len(),
        forall|i: int| 0 <= i < decimal(n).len() ==> '0' <= #[trigger] decimal(n)[i] <= '9',
    decreases n,
{
    if n >= 10 {
        lemma_decimal_ascii(n / 10);
    }
    is_ascii_chars_encode_utf8(decimal(n));
}

/// A number below a power of ten has no more digits than its exponent.
pub proof fn lemma_decimal_width(n: nat)
    ensures
        n < 100_000 ==> decimal(n).len() <= 5,
        n <= u32::MAX ==> decimal(n).len() <= 10,
        n <= u64::MAX ==> decimal(n).len() <= 20,
{
    reveal_with_fuel(decimal, 21);
}

/// The two hexadecimal digits of one byte.
pub open spec fn hex_byte(b: u8) -> Seq<char> {
    seq![digit(b as int / 16), digit(b as int % 16)]
}

/// Bytes written in lower-case hexadecimal, two digits each.
pub open spec fn hex(bytes: Seq<u8>) -> Seq<char>
    decreases bytes.len(),
{
    if bytes.len() == 0 {
        Seq::empty()
    } else {
        hex(bytes.drop_last()) + hex_byte(bytes.last())
    }
}

/// Writes bytes in lower-case hexadecimal.
pub fn hex_string(bytes: &[u8]) -> (r: String)
    ensures
        r@ == hex(bytes@),
{
    let mut out = String::new();
    let mut i: usize = 0;
    proof {
        assert(bytes@.take(0) =~= Seq::<u8>::empty());
    }
    while i < bytes.len()
        invariant
            i <= bytes@.len(),
            out@ == hex(bytes@.take(i as int)),
        decreases bytes@.len() - i,
    {
        let b: u64 = bytes[i] as u64;
        out.append(digit_str(b / 16));
        out.append(digit_str(b % 16));
        proof {
            let next = bytes@.take(i + 1);
            assert(next.drop_last() =~= bytes@.take(i as int));
            assert(out@ =~= hex(next));
        }
        i = i + 1;
    }
    proof {
        assert(bytes@.take(bytes@.len() as int) =~= bytes@);
    }
    out
}

/// Two byte strings that are written alike in hexadecimal are the same.
pub proof fn law_hex_is_injective(a: Seq<u8>, b: Seq<u8>)
    requires
        hex(a) == hex(b),
    ensures
        a == b,
    decreases a.len(),
{
    lemma_hex_len(a);
    lemma_hex_len(b);
    if a.len() > 0 {
        let x = hex(a);
        let y = hex(b);
        let n = x.len() as int;
        assert(hex(a.drop_last()) =~= x.take(n - 2)) by {
            lemma_hex_len(a.drop_last());
        }
        assert(hex(b.drop_last()) =~= y.take(n - 2)) by {
            lemma_hex_len(b.drop_last());
        }
        law_hex_is_injective(a.drop_last(), b.drop_last());
        lemma_hex_len(a.drop_last());
        lemma_hex_len(b.drop_last());
        assert(x[n - 2] == y[n - 2]);
        assert(x[n - 1] == y[n - 1]);
        assert(a.last() == b.last());
        assert(a =~= a.drop_last().push(a.last()));
        assert(b =~= b.drop_last().push(b.last()));
    } else {
        assert(a =~= b);
    }
}

/// Hexadecimal takes two characters for each byte.
pub proof fn lemma_hex_len(bytes: Seq<u8>)
    ensures
        hex(bytes).len() == 2 * bytes.len(),
    decreases bytes.len(),
{
    if bytes.len() > 0 {
        lemma_hex_len(bytes.drop_last());
    }
}

/// Whether some bytes come before others, compared byte by byte.
pub open spec fn bytes_before(a: Seq<u8>, b: Seq<u8>) -> bool
    decreases a.len(),
{
    if b.len() == 0 {
        false
    } else if a.len() == 0 {
        true
    } else {
        a[0] < b[0] || (a[0] == b[0] && bytes_before(a.drop_first(), b.drop_first()))
    }
}

/// Whether a text comes before another in the order of their bytes.
pub open spec fn before(a: Seq<char>, b: Seq<char>) -> bool {
    bytes_before(encode_utf8(a), encode_utf8(b))
}

/// Whether a text comes before another in the order of their bytes.
pub fn is_before(a: &str, b: &str) -> (r: bool)
    ensures
        r == before(a@, b@),
{
    let x = a.as_bytes();
    let y = b.as_bytes();
    let mut i: usize = 0;
    assert(x@.skip(0) =~= x@);
    assert(y@.skip(0) =~= y@);
    while i < x.len() && i < y.len() && x[i] == y[i]
        invariant
            i <= x@.len(),
            i <= y@.len(),
            bytes_before(x@.skip(i as int), y@.skip(i as int)) == bytes_before(x@, y@),
        decreases x@.len() - i,
    {
        proof {
            let p = x@.skip(i as int);
            let q = y@.skip(i as int);
            assert(p[0] == q[0]);
            assert(p.drop_first() =~= x@.skip(i + 1));
            assert(q.drop_first() =~= y@.skip(i + 1));
        }
        i = i + 1;
    }
    proof {
        let p = x@.skip(i as int);
        let q = y@.skip(i as int);
        if i < x@.len() && i < y@.len() {
            assert(p[0] == x@[i as int]);
            assert(q[0] == y@[i as int]);
        }
    }
    if i >= y.len() {
        false
    } else if i >= x.len() {
        true
    } else {
        x[i] < y[i]
    }
}

/// A signed number written in decimal.
pub open spec fn signed_decimal(n: int) -> Seq<char> {
    if n < 0 {
        "-"@ + decimal((-n) as nat)
    } else {
        decimal(n as nat)
    }
}

/// Writes a signed number in decimal.
pub fn signed_decimal_string(n: i32) -> (r: String)
    ensures
        r@ == signed_decimal(n as int),
{
    if n < 0 {
        let mut out = "-".to_owned();
        out.append(decimal_string((-(n as i64)) as u64).as_str());
        out
    } else {
        decimal_string(n as u64)
    }
}

/// Three texts, one after the other.
pub fn concat3(a: &str, b: &str, c: &str) -> (r: String)
    ensures
        r@ == a@ + b@ + c@,
{
    let mut out = a.to_owned();
    out.append(b);
    out.append(c);
    out
}

/// Whether `s` starts with `prefix`.
pub open spec fn starts_with(s: Seq<char>, prefix: Seq<char>) -> bool {
    prefix.len() <= s.len() && s.take(prefix.len() as int) == prefix
}

/// Text starts with a prefix exactly when its bytes start with the prefix's bytes.
pub proof fn lemma_starts_with_bytes(s: Seq<char>, prefix: Seq<char>)
    ensures
        starts_with(s, prefix) <==> (byte_len(prefix) <= byte_len(s) && encode_utf8(s).take(
            byte_len(prefix) as int,
        ) == encode_utf8(prefix)),
    decreases prefix.len(),
{
    let x = encode_utf8(s);
    let y = encode_utf8(prefix);
    if starts_with(s, prefix) {
        let tail = s.skip(prefix.len() as int);
        assert(s =~= prefix + tail);
        lemma_encode_concat(prefix, tail);
        assert(x.take(y.len() as int) =~= y);
    }
    if y.len() <= x.len() && x.take(y.len() as int) == y {
        if prefix.len() == 0 {
            assert(s.take(0) =~= prefix);
        } else if s.len() == 0 {
            encode_utf8_first_scalar(prefix);
        } else {
            encode_utf8_first_scalar(prefix);
            encode_utf8_first_scalar(s);
            encode_utf8_valid_utf8(s);
            encode_utf8_valid_utf8(prefix);
            lemma_same_first(s, prefix);
            let w = char_width(s[0]) as int;
            assert(x.skip(w) =~= encode_utf8(s.drop_first()));
            assert(y.skip(w) =~= encode_utf8(prefix.drop_first()));
            assert(x.skip(w).take(y.len() - w) =~= y.skip(w)) by {
                assert forall|i: int| 0 <= i < y.len() - w implies x.skip(w).take(y.len() - w)[i]
                    == y.skip(w)[i] by {
                    assert(x.take(y.len() as int)[i + w] == y[i + w]);
                }
            }
            lemma_starts_with_bytes(s.drop_first(), prefix.drop_first());
            assert(s.take(prefix.len() as int) =~= prefix) by {
                assert(s.drop_first().take(prefix.len() - 1) == prefix.drop_first());
                assert forall|i: int| 0 <= i < prefix.len() implies s.take(
                    prefix.len() as int,
                )[i] == prefix[i] by {
                    if i > 0 {
                        assert(s.drop_first().take(prefix.len() - 1)[i - 1]
                            == prefix.drop_first()[i - 1]);
                    }
                }
            }
        }
    }
}

/// Two texts whose bytes begin alike, as far as the shorter goes, have the same first character.
proof fn lemma_same_first(s: Seq<char>, prefix: Seq<char>)
    requires
        s.len() > 0,
        prefix.len() > 0,
        byte_len(prefix) <= byte_len(s),
        encode_utf8(s).take(byte_len(prefix) as int) == encode_utf8(prefix),
    ensures
        s[0] == prefix[0],
{
    let x = encode_utf8(s);
    let y = encode_utf8(prefix);
    encode_utf8_first_scalar(s);
    encode_utf8_first_scalar(prefix);
    assert(x.take(y.len() as int)[0] == y[0]);
    assert(x[0] == y[0]);
    let w = length_of_first_scalar(y);
    assert(w <= y.len());
    assert(length_of_first_scalar(x) == w);
    assert forall|i: int| 0 <= i < w implies x[i] == y[i] by {
        assert(x.take(y.len() as int)[i] == y[i]);
    }
    assert(decode_first_scalar(x) == decode_first_scalar(y));
    char_u32_cast(s[0], decode_first_scalar(x));
    char_u32_cast(prefix[0], decode_first_scalar(y));
}

/// Whether `s` starts with `prefix`.
pub fn has_prefix(s: &str, prefix: &str) -> (r: bool)
    ensures
        r == starts_with(s@, prefix@),
{
    let x = s.as_bytes();
    let y = prefix.as_bytes();
    proof {
        lemma_starts_with_bytes(s@, prefix@);
    }
    if x.len() < y.len() {
        return false;
    }
    let mut i: usize = 0;
    while i < y.len()
        invariant
            i <= y@.len() <= x@.len(),
            x@ == encode_utf8(s@),
            y@ == encode_utf8(prefix@),
            starts_with(s@, prefix@) <==> (byte_len(prefix@) <= byte_len(s@) && encode_utf8(
                s@,
            ).take(byte_len(prefix@) as int) == encode_utf8(prefix@)),
            forall|j: int| 0 <= j < i ==> x@[j] == y@[j],
        decreases y@.len() - i,
    {
        if x[i] != y[i] {
            assert(x@.take(y@.len() as int)[i as int] != y@[i as int]);
            return false;
        }
        i = i + 1;
    }
    assert(x@.take(y@.len() as int) =~= y@);
    true
}

/// The value of a decimal digit.
pub open spec fn digit_value(c: char) -> Option<nat> {
    if '0' <= c <= '9' {
        Some((c as u32 - '0' as u32) as nat)
    } else {
        None
    }
}

/// The number that some text writes in decimal, without leading zeros.
pub open spec fn decimal_value(s: Seq<char>) -> Option<nat>
    decreases s.len(),
{
    if s.len() == 0 {
        None
    } else {
        match digit_value(s.last()) {
            None => None,
            Some(d) => if s.len() == 1 {
                Some(d)
            } else {
                match decimal_value(s.drop_last()) {
                    Some(n) if n > 0 => Some(10 * n + d),
                    _ => None,
                }
            },
        }
    }
}

/// A number that was written is read back.
pub proof fn law_decimal_is_read_back(n: nat)
    ensures
        decimal_value(decimal(n)) == Some(n),
    decreases n,
{
    let s = decimal(n);
    if n >= 10 {
        law_decimal_is_read_back(n / 10);
        lemma_decimal_len(n / 10);
        assert(s.drop_last() =~= decimal(n / 10));
        assert(s.last() == digit((n % 10) as int));
        lemma_digit_value(n % 10);
        assert(n == 10 * (n / 10) + n % 10);
    } else {
        assert(s.last() == digit(n as int));
        lemma_digit_value(n);
    }
}

proof fn lemma_digit_value(d: nat)
    requires
        d < 10,
    ensures
        digit_value(digit(d as int)) == Some(d),
{
}

proof fn lemma_prefix_value(s: Seq<char>, k: int)
    requires
        0 < k <= s.len(),
    ensures
        decimal_value(s) is Some ==> decimal_value(s.take(k)) is Some && decimal_value(
            s.take(k),
        )->Some_0 <= decimal_value(s)->Some_0,
    decreases s.len(),
{
    if k == s.len() {
        assert(s.take(k) =~= s);
    } else {
        assert(s.drop_last().take(k) =~= s.take(k));
        lemma_prefix_value(s.drop_last(), k);
    }
}

/// Reads a decimal number that fits.
pub fn parse_u32(s: &str) -> (r: Option<u32>)
    ensures
        match r {
            Some(n) => decimal_value(s@) == Some(n as nat),
            None => decimal_value(s@) is None || decimal_value(s@)->Some_0 > u32::MAX,
        },
{
    if !s.is_ascii() {
        proof {
            if decimal_value(s@) is Some {
                lemma_value_is_ascii(s@);
            }
        }
        return None;
    }
    proof {
        is_ascii_chars_encode_utf8(s@);
    }
    let b = s.as_bytes();
    if b.len() == 0 {
        return None;
    }
    let mut n: u64 = 0;
    let mut i: usize = 0;
    while i < b.len()
        invariant
            0 < b@.len() == s@.len(),
            is_ascii_chars(s@),
            i <= b@.len(),
            n <= u32::MAX,
            forall|j: int| 0 <= j < s@.len() ==> s@[j] as u8 == b@[j],
            i > 0 ==> decimal_value(s@.take(i as int)) == Some(n as nat),
            i == 0 ==> n == 0,
        decreases b@.len() - i,
    {
        let ghost next = s@.take(i + 1);
        proof {
            assert(next.drop_last() =~= s@.take(i as int));
            assert(next.last() == s@[i as int]);
            assert('\0' <= s@[i as int] <= '\u{7f}');
            assert(s@[i as int] as u8 == b@[i as int]);
            lemma_prefix_value(s@, i + 1);
        }
        if b[i] < 0x30 || b[i] > 0x39 {
            assert(digit_value(next.last()) is None);
            return None;
        }
        let d: u64 = (b[i] - 0x30) as u64;
        assert(digit_value(next.last()) == Some(d as nat));
        if i > 0 && n == 0 {
            assert(decimal_value(next) is None);
            return None;
        }
        n = 10 * n + d;
        assert(decimal_value(next) == Some(n as nat));
        if n > u32::MAX as u64 {
            return None;
        }
        i = i + 1;
    }
    assert(s@.take(i as int) =~= s@);
    Some(n as u32)
}

proof fn lemma_value_is_ascii(s: Seq<char>)
    requires
        decimal_value(s) is Some,
    ensures
        is_ascii_chars(s),
    decreases s.len(),
{
    if s.len() > 1 {
        lemma_value_is_ascii(s.drop_last());
        assert forall|i: int| 0 <= i < s.len() implies '\0' <= #[trigger] s[i] <= '\u{7f}' by {
            if i < s.len() - 1 {
                assert(s[i] == s.drop_last()[i]);
            }
        }
    }
}

/// How Rust's `Debug` writes a text.
pub uninterp spec fn debug_text(s: Seq<char>) -> Seq<char>;

/// Calls `format` with a text's `Debug`: the text in quotes, escaped as Rust source would have it.
#[verifier::external_body]
pub(crate) fn debug_string(s: &str) -> (r: String)
    ensures
        r@ == debug_text(s@),
{
    format!("{s:?}")
}

/// What `String::from_utf8_lossy` makes of some bytes.
pub uninterp spec fn lossy_text(bytes: Seq<u8>) -> Seq<char>;

/// Whether bytes that are a text are shown as that text.
pub open spec fn shown_whole(bytes: Seq<u8>, text: Seq<char>) -> bool {
    forall|s: Seq<char>| #[trigger] encode_utf8(s) == bytes ==> text == s
}

/// Calls `String::from_utf8_lossy`: bytes for people to read. What is a text is kept as it is.
#[verifier::external_body]
pub(crate) fn shown(bytes: &[u8]) -> (r: String)
    ensures
        r@ == lossy_text(bytes@),
        shown_whole(bytes@, r@),
{
    String::from_utf8_lossy(bytes).into_owned()
}

/// Some bytes, and others after them.
pub fn concat_bytes(a: &[u8], b: &[u8]) -> (r: Vec<u8>)
    ensures
        r@ == a@ + b@,
{
    let mut out = copy_bytes(a);
    let mut rest = copy_bytes(b);
    out.append(&mut rest);
    assert(out@ =~= a@ + b@);
    out
}

/// An equal list of byte strings.
pub fn copy_contents(list: &Vec<Vec<u8>>) -> (r: Vec<Vec<u8>>)
    ensures
        contents(r@) == contents(list@),
{
    let mut out: Vec<Vec<u8>> = Vec::new();
    let mut i: usize = 0;
    while i < list.len()
        invariant
            i <= list@.len(),
            out@.len() == i,
            forall|j: int| 0 <= j < i ==> (#[trigger] out@[j])@ == list@[j]@,
        decreases list@.len() - i,
    {
        out.push(copy_bytes(list[i].as_slice()));
        i = i + 1;
    }
    assert(contents(out@) =~= contents(list@));
    out
}

// ---------------------------------------------------------------------------
// Sorted lists
// ---------------------------------------------------------------------------

proof fn lemma_bytes_order(a: Seq<u8>, b: Seq<u8>)
    ensures
        !(bytes_before(a, b) && bytes_before(b, a)),
        a == b || bytes_before(a, b) || bytes_before(b, a),
        a == b ==> !bytes_before(a, b),
    decreases a.len(),
{
    if a.len() > 0 && b.len() > 0 {
        lemma_bytes_order(a.drop_first(), b.drop_first());
        if a[0] == b[0] && a.drop_first() == b.drop_first() {
            assert(a =~= seq![a[0]] + a.drop_first());
            assert(b =~= seq![b[0]] + b.drop_first());
        }
    } else if a.len() == 0 && b.len() == 0 {
        assert(a =~= b);
    }
}

proof fn lemma_bytes_transitive(a: Seq<u8>, b: Seq<u8>, c: Seq<u8>)
    requires
        bytes_before(a, b),
        bytes_before(b, c),
    ensures
        bytes_before(a, c),
    decreases a.len(),
{
    if a.len() > 0 && a[0] == b[0] && b[0] == c[0] {
        lemma_bytes_transitive(a.drop_first(), b.drop_first(), c.drop_first());
    }
}

/// Of two texts one comes before the other, unless they are the same.
pub proof fn lemma_order(a: Seq<char>, b: Seq<char>)
    ensures
        !(before(a, b) && before(b, a)),
        a == b || before(a, b) || before(b, a),
        !before(a, a),
{
    lemma_bytes_order(encode_utf8(a), encode_utf8(b));
    lemma_bytes_order(encode_utf8(a), encode_utf8(a));
    if encode_utf8(a) == encode_utf8(b) {
        lemma_encode_injective(a, b);
    }
}

/// Two ASCII texts that first differ at a character come in the order of that character.
pub proof fn lemma_first_difference(a: Seq<char>, b: Seq<char>, i: int)
    requires
        is_ascii_chars(a),
        is_ascii_chars(b),
        0 <= i < a.len(),
        i < b.len(),
        a.take(i) == b.take(i),
        a[i] < b[i],
    ensures
        before(a, b),
{
    is_ascii_chars_encode_utf8(a);
    is_ascii_chars_encode_utf8(b);
    let x = encode_utf8(a);
    let y = encode_utf8(b);
    assert forall|k: int| 0 <= k < i implies x[k] == y[k] by {
        assert(a.take(i)[k] == a[k]);
        assert(b.take(i)[k] == b[k]);
        assert(a[k] as u8 == x[k]);
        assert(b[k] as u8 == y[k]);
    }
    lemma_bytes_first_difference(x, y, i);
}

proof fn lemma_bytes_first_difference(a: Seq<u8>, b: Seq<u8>, i: int)
    requires
        0 <= i < a.len(),
        i < b.len(),
        forall|k: int| 0 <= k < i ==> a[k] == b[k],
        a[i] < b[i],
    ensures
        bytes_before(a, b),
    decreases i,
{
    if i > 0 {
        assert(a[0] == b[0]);
        lemma_bytes_first_difference(a.drop_first(), b.drop_first(), i - 1);
    }
}

pub proof fn lemma_order_transitive(a: Seq<char>, b: Seq<char>, c: Seq<char>)
    requires
        before(a, b),
        before(b, c),
    ensures
        before(a, c),
{
    lemma_bytes_transitive(encode_utf8(a), encode_utf8(b), encode_utf8(c));
}

/// Whether each text of a list comes before every later one.
pub open spec fn sorted(list: Seq<Seq<char>>) -> bool {
    forall|i: int, j: int|
        0 <= i < j < list.len() ==> before(#[trigger] list[i], #[trigger] list[j])
}

/// Whether a list holds the texts of a set, each once and in order.
pub open spec fn lists(list: Seq<Seq<char>>, set: Set<Seq<char>>) -> bool {
    &&& sorted(list)
    &&& forall|s: Seq<char>| #[trigger] list.contains(s) <==> set.contains(s)
}

/// Puts a text where it belongs in a sorted list that does not have it.
pub fn insert_sorted(list: &mut Vec<String>, s: String)
    requires
        sorted(views(old(list)@)),
        !views(old(list)@).contains(s@),
    ensures
        sorted(views(final(list)@)),
        forall|t: Seq<char>| #[trigger]
            views(final(list)@).contains(t) <==> (t == s@ || views(old(list)@).contains(t)),
{
    let ghost was = views(list@);
    let mut i: usize = 0;
    while i < list.len() && is_before(list[i].as_str(), s.as_str())
        invariant
            i <= list@.len(),
            was == views(list@),
            forall|j: int| 0 <= j < i ==> before(#[trigger] was[j], s@),
        decreases list@.len() - i,
    {
        assert(was[i as int] == list@[i as int]@);
        i = i + 1;
    }
    let ghost text = s@;
    list.insert(i, s);
    proof {
        let now = views(list@);
        assert(now =~= was.insert(i as int, text));
        if i < was.len() {
            assert(!before(was[i as int], text));
            assert(was.contains(was[i as int]));
            lemma_order(was[i as int], text);
        }
        assert forall|a: int, b: int| 0 <= a < b < now.len() implies before(
            #[trigger] now[a],
            #[trigger] now[b],
        ) by {
            let x = if a < i { a } else { a - 1 };
            let y = if b < i { b } else { b - 1 };
            if a == i {
                assert(now[b] == was[y]);
                if y > i {
                    assert(before(was[i as int], was[y]));
                    lemma_order_transitive(text, was[i as int], was[y]);
                }
            } else if b == i {
                assert(now[a] == was[a]);
            } else {
                assert(now[a] == was[x]);
                assert(now[b] == was[y]);
                assert(before(was[x], was[y]));
            }
        }
        assert forall|t: Seq<char>| #[trigger] now.contains(t) <==> (t == text || was.contains(
            t,
        )) by {
            if now.contains(t) {
                let k = choose|k: int| 0 <= k < now.len() && now[k] == t;
                if k < i {
                    assert(was[k] == t);
                } else if k > i {
                    assert(was[k - 1] == t);
                }
            }
            if was.contains(t) {
                let k = choose|k: int| 0 <= k < was.len() && was[k] == t;
                if k < i {
                    assert(now[k] == t);
                } else {
                    assert(now[k + 1] == t);
                }
            }
            if t == text {
                assert(now[i as int] == t);
            }
        }
    }
}

// ---------------------------------------------------------------------------
// Characters and pieces
// ---------------------------------------------------------------------------

/// The characters of a text.
pub fn chars_of(s: &str) -> (r: Vec<char>)
    ensures
        r@ == s@,
{
    let mut out: Vec<char> = Vec::new();
    for c in it: s.chars()
        invariant
            out@.len() == it.index(),
            it.seq() == s@,
            forall|j: int| 0 <= j < out@.len() ==> out@[j] == s@[j],
    {
        out.push(c);
    }
    assert(out@ =~= s@);
    out
}

/// Collects characters into a `String` with std's `FromIterator`: the text of those characters.
#[verifier::external_body]
pub(crate) fn string_of(chars: &Vec<char>) -> (r: String)
    ensures
        r@ == chars@,
{
    chars.iter().collect()
}

/// Where a separator stands first: how many items come before it, or all items if there is none.
pub open spec fn index_of_first<T>(s: Seq<T>, separator: T) -> nat
    decreases s.len(),
{
    if s.len() == 0 || s[0] == separator {
        0
    } else {
        1 + index_of_first(s.drop_first(), separator)
    }
}

/// The pieces between separators. There is one piece more than there are separators.
pub open spec fn pieces<T>(s: Seq<T>, separator: T) -> Seq<Seq<T>>
    decreases s.len(),
{
    let n = index_of_first(s, separator);
    if n >= s.len() {
        seq![s]
    } else {
        seq![s.take(n as int)] + pieces(s.skip((n + 1) as int), separator)
    }
}

pub proof fn lemma_index_of_first<T>(s: Seq<T>, separator: T)
    ensures
        index_of_first(s, separator) <= s.len(),
        index_of_first(s, separator) < s.len() ==> s[index_of_first(s, separator) as int]
            == separator,
        forall|i: int| 0 <= i < index_of_first(s, separator) ==> s[i] != separator,
    decreases s.len(),
{
    if s.len() > 0 && s[0] != separator {
        let tail = s.drop_first();
        lemma_index_of_first(tail, separator);
        assert forall|i: int| 0 <= i < index_of_first(s, separator) implies s[i] != separator by {
            if i > 0 {
                assert(s[i] == tail[i - 1]);
            }
        }
    }
}

/// The first separator is the one that no separator comes before.
pub proof fn lemma_index_of_first_is<T>(s: Seq<T>, separator: T, n: int)
    requires
        0 <= n <= s.len(),
        forall|i: int| 0 <= i < n ==> s[i] != separator,
        n < s.len() ==> s[n] == separator,
    ensures
        index_of_first(s, separator) == n,
{
    lemma_index_of_first(s, separator);
    let k = index_of_first(s, separator) as int;
    if k < n {
        assert(s[k] == separator);
    }
}

/// No piece holds the separator.
/// The pieces of two texts in a row: the last of the first and the first of the second are one.
pub proof fn lemma_pieces_concat<T>(a: Seq<T>, b: Seq<T>, separator: T)
    ensures
        pieces(a, separator).len() >= 1,
        pieces(b, separator).len() >= 1,
        pieces(a + b, separator) == pieces(a, separator).drop_last() + seq![
            pieces(a, separator).last() + pieces(b, separator)[0],
        ] + pieces(b, separator).drop_first(),
    decreases a.len(),
{
    let n = index_of_first(a, separator) as int;
    let m = index_of_first(b, separator) as int;
    let all = a + b;
    lemma_index_of_first(a, separator);
    lemma_index_of_first(b, separator);
    if n >= a.len() {
        assert forall|i: int| 0 <= i < a.len() + m implies all[i] != separator by {
            if i >= a.len() {
                assert(all[i] == b[i - a.len()]);
            }
        }
        if m < b.len() {
            assert(all[a.len() + m] == b[m]);
        }
        lemma_index_of_first_is(all, separator, a.len() + m);
        assert(pieces(a, separator) =~= seq![a]);
        if m >= b.len() {
            assert(pieces(b, separator) =~= seq![b]);
        } else {
            assert(all.take(a.len() + m) =~= a + b.take(m));
            assert(all.skip(a.len() + m + 1) =~= b.skip(m + 1));
            assert(pieces(b, separator).drop_first() =~= pieces(b.skip(m + 1), separator));
        }
    } else {
        let rest = a.skip(n + 1);
        assert forall|i: int| 0 <= i < n implies all[i] != separator by {
            assert(all[i] == a[i]);
        }
        lemma_index_of_first_is(all, separator, n);
        assert(all.take(n) =~= a.take(n));
        assert(all.skip(n + 1) =~= rest + b);
        lemma_pieces_concat(rest, b, separator);
        let x = pieces(rest, separator);
        assert(pieces(a, separator) == seq![a.take(n)] + x);
        assert(pieces(a, separator).drop_last() =~= seq![a.take(n)] + x.drop_last());
        assert(pieces(a, separator).last() == x.last());
    }
    assert(pieces(a + b, separator) =~= pieces(a, separator).drop_last() + seq![
        pieces(a, separator).last() + pieces(b, separator)[0],
    ] + pieces(b, separator).drop_first());
}

/// What is joined by a separator that none of it has comes apart there again.
pub proof fn lemma_joined_pieces(parts: Seq<Seq<char>>, separator: char)
    requires
        parts.len() > 0,
        forall|i: int| 0 <= i < parts.len() ==> !(#[trigger] parts[i]).contains(separator),
    ensures
        pieces(joined(parts, seq![separator]), separator) == parts,
    decreases parts.len(),
{
    let mark = seq![separator];
    let last = parts.last();
    lemma_one_piece(last, separator);
    if parts.len() == 1 {
        assert(joined(parts, mark) == last);
        assert(parts =~= seq![last]);
    } else {
        let front = parts.drop_last();
        assert forall|i: int| 0 <= i < front.len() implies !(#[trigger] front[i]).contains(
            separator,
        ) by {
            assert(front[i] == parts[i]);
        }
        lemma_joined_pieces(front, separator);
        let x = joined(front, mark);
        lemma_mark_pieces(separator);
        lemma_pieces_concat(x, mark, separator);
        let empty = Seq::<char>::empty();
        assert(front.last() + empty =~= front.last());
        assert(pieces(x + mark, separator) =~= front.push(empty));
        lemma_pieces_concat(x + mark, last, separator);
        assert(empty + last =~= last);
        assert(front.push(empty).drop_last() =~= front);
        assert(pieces(x + mark + last, separator) =~= front.push(last));
        assert(front.push(last) =~= parts);
    }
}

/// Without a separator there is one piece.
pub proof fn lemma_one_piece<T>(s: Seq<T>, separator: T)
    requires
        !s.contains(separator),
    ensures
        pieces(s, separator) == seq![s],
{
    lemma_index_of_first(s, separator);
    let n = index_of_first(s, separator) as int;
    if n < s.len() {
        assert(s.contains(s[n]));
    }
}

/// A separator alone has nothing before it and nothing after it.
pub proof fn lemma_mark_pieces<T>(separator: T)
    ensures
        pieces(seq![separator], separator) == seq![Seq::<T>::empty(), Seq::<T>::empty()],
{
    let mark = seq![separator];
    assert(index_of_first(mark, separator) == 0);
    assert(mark.take(0) =~= Seq::<T>::empty());
    assert(mark.skip(1) =~= Seq::<T>::empty());
    assert(pieces(Seq::<T>::empty(), separator) == seq![Seq::<T>::empty()]);
    assert(pieces(mark, separator) =~= seq![Seq::<T>::empty(), Seq::<T>::empty()]);
}

pub proof fn lemma_pieces_have_no_separator<T>(s: Seq<T>, separator: T)
    ensures
        forall|i: int|
            0 <= i < pieces(s, separator).len() ==> !(#[trigger] pieces(s, separator)[i]).contains(
                separator,
            ),
    decreases s.len(),
{
    let n = index_of_first(s, separator) as int;
    lemma_index_of_first(s, separator);
    if n >= s.len() {
        assert(!s.contains(separator)) by {
            if s.contains(separator) {
                let i = choose|i: int| 0 <= i < s.len() && s[i] == separator;
                assert(s[i] != separator);
            }
        }
    } else {
        let rest = pieces(s.skip(n + 1), separator);
        lemma_pieces_have_no_separator(s.skip(n + 1), separator);
        assert forall|i: int| 0 <= i < pieces(s, separator).len() implies !(#[trigger] pieces(
            s,
            separator,
        )[i]).contains(separator) by {
            if i == 0 {
                let first = s.take(n);
                if first.contains(separator) {
                    let k = choose|k: int| 0 <= k < first.len() && first[k] == separator;
                    assert(s[k] != separator);
                }
            } else {
                assert(pieces(s, separator)[i] == rest[i - 1]);
            }
        }
    }
}

/// The contents of a list of lists.
pub open spec fn contents<T>(list: Seq<Vec<T>>) -> Seq<Seq<T>> {
    Seq::new(list.len(), |i: int| list[i]@)
}

/// Splits bytes at a separator.
pub fn split_bytes(s: &[u8], separator: u8) -> (r: Vec<Vec<u8>>)
    ensures
        contents(r@) == pieces(s@, separator),
{
    let mut out: Vec<Vec<u8>> = Vec::new();
    let mut piece: Vec<u8> = Vec::new();
    let mut start: usize = 0;
    let mut i: usize = 0;
    assert(s@.skip(0) =~= s@);
    assert(contents(out@) + pieces(s@, separator) =~= pieces(s@, separator));
    while i < s.len()
        invariant
            start <= i <= s@.len(),
            piece@ == s@.subrange(start as int, i as int),
            forall|j: int| start <= j < i ==> s@[j] != separator,
            contents(out@) + pieces(s@.skip(start as int), separator) == pieces(s@, separator),
        decreases s@.len() - i,
    {
        if s[i] == separator {
            let ghost before = contents(out@);
            proof {
                let tail = s@.skip(start as int);
                let n = i - start;
                lemma_index_of_first_is(tail, separator, n);
                assert(tail.take(n) =~= piece@);
                assert(tail.skip(n + 1) =~= s@.skip(i + 1));
            }
            let ghost done = piece@;
            out.push(piece);
            proof {
                assert(contents(out@) =~= before.push(done));
                assert(contents(out@) + pieces(s@.skip(i + 1), separator) =~= before + pieces(
                    s@.skip(start as int),
                    separator,
                ));
            }
            piece = Vec::new();
            start = i + 1;
        } else {
            piece.push(s[i]);
        }
        i = i + 1;
        assert(piece@ =~= s@.subrange(start as int, i as int));
    }
    proof {
        let tail = s@.skip(start as int);
        lemma_index_of_first_is(tail, separator, tail.len() as int);
        assert(piece@ =~= tail);
    }
    let ghost before = contents(out@);
    let ghost done = piece@;
    out.push(piece);
    proof {
        assert(contents(out@) =~= before.push(done));
        assert(before.push(done) =~= before + seq![done]);
    }
    out
}

/// Splits characters at a separator.
pub fn split_chars(s: &Vec<char>, separator: char) -> (r: Vec<Vec<char>>)
    ensures
        contents(r@) == pieces(s@, separator),
{
    let mut out: Vec<Vec<char>> = Vec::new();
    let mut piece: Vec<char> = Vec::new();
    let mut start: usize = 0;
    let mut i: usize = 0;
    assert(s@.skip(0) =~= s@);
    assert(contents(out@) + pieces(s@, separator) =~= pieces(s@, separator));
    while i < s.len()
        invariant
            start <= i <= s@.len(),
            piece@ == s@.subrange(start as int, i as int),
            forall|j: int| start <= j < i ==> s@[j] != separator,
            contents(out@) + pieces(s@.skip(start as int), separator) == pieces(s@, separator),
        decreases s@.len() - i,
    {
        if s[i] == separator {
            let ghost before = contents(out@);
            proof {
                let tail = s@.skip(start as int);
                let n = i - start;
                lemma_index_of_first_is(tail, separator, n);
                assert(tail.take(n) =~= piece@);
                assert(tail.skip(n + 1) =~= s@.skip(i + 1));
            }
            let ghost done = piece@;
            out.push(piece);
            proof {
                assert(contents(out@) =~= before.push(done));
                assert(contents(out@) + pieces(s@.skip(i + 1), separator) =~= before + pieces(
                    s@.skip(start as int),
                    separator,
                ));
            }
            piece = Vec::new();
            start = i + 1;
        } else {
            piece.push(s[i]);
        }
        i = i + 1;
        assert(piece@ =~= s@.subrange(start as int, i as int));
    }
    proof {
        let tail = s@.skip(start as int);
        lemma_index_of_first_is(tail, separator, tail.len() as int);
        assert(piece@ =~= tail);
    }
    let ghost before = contents(out@);
    let ghost done = piece@;
    out.push(piece);
    proof {
        assert(contents(out@) =~= before.push(done));
        assert(before.push(done) =~= before + seq![done]);
    }
    out
}

// ---------------------------------------------------------------------------
// Signed numbers, as they are commonly written
// ---------------------------------------------------------------------------

/// The number that digits write; zeros may come first.
pub open spec fn digits_value(s: Seq<char>) -> Option<nat>
    decreases s.len(),
{
    if s.len() == 0 {
        None
    } else {
        match digit_value(s.last()) {
            None => None,
            Some(d) => if s.len() == 1 {
                Some(d)
            } else {
                match digits_value(s.drop_last()) {
                    Some(n) => Some(10 * n + d),
                    None => None,
                }
            },
        }
    }
}

/// The number that a text writes: digits, after a sign or none. Nothing if it is not one, or does
/// not fit.
pub open spec fn i32_value(s: Seq<char>) -> Option<int> {
    if s.len() > 0 && s[0] == '-' {
        match digits_value(s.skip(1)) {
            Some(n) if n <= 0x8000_0000 => Some(-n),
            _ => None,
        }
    } else {
        match digits_value(
            if s.len() > 0 && s[0] == '+' {
                s.skip(1)
            } else {
                s
            },
        ) {
            Some(n) if n <= 0x7fff_ffff => Some(n as int),
            _ => None,
        }
    }
}

/// More digits never make a number smaller, and never make a number of what is none.
proof fn lemma_digits_grow(s: Seq<char>, n: int)
    requires
        0 < n <= s.len(),
    ensures
        digits_value(s) is Some ==> digits_value(s.take(n)) is Some && digits_value(s.take(n))->Some_0
            <= digits_value(s)->Some_0,
    decreases s.len(),
{
    if n == s.len() {
        assert(s.take(n) =~= s);
    } else {
        lemma_digits_grow(s.drop_last(), n);
        assert(s.drop_last().take(n) =~= s.take(n));
    }
}

fn parse_digits(chars: &Vec<char>, from: usize, limit: u64) -> (r: Option<u64>)
    requires
        from <= chars@.len(),
        limit >= 9,
    ensures
        match r {
            Some(n) => digits_value(chars@.skip(from as int)) == Some(n as nat) && n <= limit,
            None => digits_value(chars@.skip(from as int)) is None || digits_value(
                chars@.skip(from as int),
            )->Some_0 > limit,
        },
{
    let ghost s = chars@.skip(from as int);
    if from >= chars.len() {
        return None;
    }
    let mut n: u64 = 0;
    let mut i: usize = from;
    while i < chars.len()
        invariant
            from <= i <= chars@.len(),
            from < chars@.len(),
            s == chars@.skip(from as int),
            n <= limit,
            limit >= 9,
            i == from ==> n == 0,
            i > from ==> digits_value(s.take(i - from)) == Some(n as nat),
        decreases chars@.len() - i,
    {
        let c = chars[i];
        let ghost next = s.take(i - from + 1);
        proof {
            assert(next.last() == c);
            assert(next.drop_last() =~= s.take(i - from));
            lemma_digits_grow(s, i - from + 1);
        }
        if c < '0' || c > '9' {
            return None;
        }
        let d: u64 = c as u64 - '0' as u64;
        if n > (limit - d) / 10 {
            return None;
        }
        n = 10 * n + d;
        i = i + 1;
    }
    assert(s.take(chars@.len() - from) =~= s);
    Some(n)
}

/// The number that a text writes: digits, after a minus or nothing. Nothing if it is not one, or
/// does not fit.
pub open spec fn i64_value(s: Seq<char>) -> Option<int> {
    if s.len() > 0 && s[0] == '-' {
        match digits_value(s.skip(1)) {
            Some(n) if n <= 0x8000_0000_0000_0000 => Some(-n),
            _ => None,
        }
    } else {
        match digits_value(s) {
            Some(n) if n <= 0x7fff_ffff_ffff_ffff => Some(n as int),
            _ => None,
        }
    }
}

proof fn lemma_plain_digits(s: Seq<char>)
    ensures
        decimal_value(s) is Some ==> digits_value(s) == decimal_value(s),
    decreases s.len(),
{
    if s.len() > 0 {
        lemma_plain_digits(s.drop_last());
    }
}

/// A signed number that was written is read back.
pub proof fn law_signed_decimal_is_read_back(n: int)
    requires
        -0x8000_0000_0000_0000 <= n <= 0x7fff_ffff_ffff_ffff,
    ensures
        i64_value(signed_decimal(n)) == Some(n),
{
    let s = signed_decimal(n);
    if n < 0 {
        let digits = decimal((-n) as nat);
        law_decimal_is_read_back((-n) as nat);
        lemma_plain_digits(digits);
        reveal_strlit("-");
        assert(s[0] == '-');
        assert(s.skip(1) =~= digits);
    } else {
        law_decimal_is_read_back(n as nat);
        lemma_plain_digits(s);
        lemma_decimal_ascii(n as nat);
    }
}

/// Reads a signed number.
pub fn parse_i64(s: &str) -> (r: Option<i64>)
    ensures
        match r {
            Some(n) => i64_value(s@) == Some(n as int),
            None => i64_value(s@) is None,
        },
{
    let chars = chars_of(s);
    if chars.len() > 0 && chars[0] == '-' {
        match parse_digits(&chars, 1, 0x8000_0000_0000_0000) {
            Some(n) => Some((-(n as i128)) as i64),
            None => None,
        }
    } else {
        assert(chars@.skip(0) =~= chars@);
        match parse_digits(&chars, 0, 0x7fff_ffff_ffff_ffff) {
            Some(n) => Some(n as i64),
            None => None,
        }
    }
}

/// Writes a signed number in decimal.
pub fn signed_decimal_string64(n: i64) -> (r: String)
    ensures
        r@ == signed_decimal(n as int),
{
    if n < 0 {
        let mut out = "-".to_owned();
        out.append(decimal_string((-(n as i128)) as u64).as_str());
        out
    } else {
        decimal_string(n as u64)
    }
}

/// Reads a signed number.
pub fn parse_i32(s: &str) -> (r: Option<i32>)
    ensures
        match r {
            Some(n) => i32_value(s@) == Some(n as int),
            None => i32_value(s@) is None,
        },
{
    let chars = chars_of(s);
    if chars.len() > 0 && chars[0] == '-' {
        match parse_digits(&chars, 1, 0x8000_0000) {
            Some(n) => Some((-(n as i64)) as i32),
            None => None,
        }
    } else {
        let from: usize = if chars.len() > 0 && chars[0] == '+' {
            1
        } else {
            0
        };
        assert(chars@.skip(0) =~= chars@);
        match parse_digits(&chars, from, 0x7fff_ffff) {
            Some(n) => Some(n as i32),
            None => None,
        }
    }
}

/// The last four octal digits of `n`.
pub open spec fn octal4(n: nat) -> Seq<char> {
    seq![
        digit((n / 512) as int % 8),
        digit((n / 64) as int % 8),
        digit((n / 8) as int % 8),
        digit(n as int % 8),
    ]
}

/// Writes the last four octal digits of a number.
pub fn octal4_string(n: u32) -> (r: String)
    ensures
        r@ == octal4(n as nat),
{
    let mut out = digit_str((n / 512 % 8) as u64).to_owned();
    out.append(digit_str((n / 64 % 8) as u64));
    out.append(digit_str((n / 8 % 8) as u64));
    out.append(digit_str((n % 8) as u64));
    assert(out@ =~= octal4(n as nat));
    out
}

/// A text that fits is kept whole, and one that does not is cut: what is left is its beginning, as
/// much of it as fits, and an ellipsis.
pub proof fn law_only_what_does_not_fit_is_cut(s: Seq<char>, limit: int)
    requires
        0 <= limit,
    ensures
        encode_utf8(s).len() <= limit ==> clipped(s, limit) == s,
        encode_utf8(s).len() > limit ==> exists|k: int|
            {
                &&& 0 <= k < s.len()
                &&& clipped(s, limit) == #[trigger] s.take(k) + seq!['\u{2026}']
                &&& encode_utf8(s.take(k)).len() <= limit
                &&& encode_utf8(s.take(k + 1)).len() > limit
            },
{
    if encode_utf8(s).len() > limit {
        let k = fitting(s, limit) as int;
        lemma_fitting(s, limit);
        assert(s.take(s.len() as int) =~= s);
        law_cut_is_longest(s, limit, k + 1);
        reveal_strlit("…");
        assert("…"@ =~= seq!['\u{2026}']);
        assert(clipped(s, limit) == s.take(k) + seq!['\u{2026}']);
    }
}

proof fn lemma_fitting(s: Seq<char>, limit: int)
    requires
        0 <= limit < byte_len(s),
    ensures
        fitting(s, limit) < s.len(),
    decreases s.len(),
{
    if s.len() > 0 && char_width(s[0]) <= limit {
        assert(encode_utf8(s).len() == char_width(s[0]) + encode_utf8(s.drop_first()).len());
        lemma_fitting(s.drop_first(), limit - char_width(s[0]));
    }
}

/// Pieces are what stands between the separators: put together again with the separators between
/// them they are the text, and none of them holds one.
pub proof fn law_pieces_make_the_text_again(s: Seq<char>, separator: char)
    ensures
        pieces(s, separator).len() > 0,
        joined(pieces(s, separator), seq![separator]) == s,
        forall|i: int|
            0 <= i < pieces(s, separator).len() ==> !(#[trigger] pieces(s, separator)[i]).contains(
                separator,
            ),
    decreases s.len(),
{
    lemma_pieces_have_no_separator(s, separator);
    lemma_index_of_first(s, separator);
    let n = index_of_first(s, separator) as int;
    if n < s.len() {
        let rest = s.skip(n + 1);
        law_pieces_make_the_text_again(rest, separator);
        let more = pieces(rest, separator);
        lemma_joined_front(s.take(n), more, seq![separator]);
        assert(s =~= s.take(n) + seq![separator] + rest);
    } else {
        assert(joined(seq![s], seq![separator]) == s);
    }
}

proof fn lemma_joined_front(first: Seq<char>, more: Seq<Seq<char>>, separator: Seq<char>)
    requires
        more.len() > 0,
    ensures
        joined(seq![first] + more, separator) == first + separator + joined(more, separator),
    decreases more.len(),
{
    let all = seq![first] + more;
    if more.len() == 1 {
        assert(all.drop_last() =~= seq![first]);
        assert(joined(seq![first], separator) == first);
    } else {
        assert(all.drop_last() =~= seq![first] + more.drop_last());
        lemma_joined_front(first, more.drop_last(), separator);
        assert(joined(all, separator) =~= first + separator + joined(more, separator));
    }
}

/// Decimal digits stand for what they say: the last one for ones, and what stands before it for tens.
pub proof fn law_decimals_are_written_digit_by_digit(n: nat)
    ensures
        n < 10 ==> decimal(n).len() == 1 && decimal(n)[0] as u32 == '0' as u32 + n,
        n >= 10 ==> decimal(n).drop_last() == decimal(n / 10) && decimal(n).last() as u32 == '0' as u32
            + n % 10,
{
    if n >= 10 {
        assert(decimal(n).drop_last() =~= decimal(n / 10));
    }
}

/// Hexadecimal has two digits for each byte, in order, the higher half first, in lower case.
pub proof fn law_hex_has_two_digits_for_each_byte(bytes: Seq<u8>, i: int)
    requires
        0 <= i < bytes.len(),
    ensures
        hex(bytes).len() == 2 * bytes.len(),
        ({
            let high = hex(bytes)[2 * i] as u32;
            let low = hex(bytes)[2 * i + 1] as u32;
            let h = bytes[i] as int / 16;
            let l = bytes[i] as int % 16;
            &&& high == (if h < 10 {
                '0' as u32 + h
            } else {
                'a' as u32 + h - 10
            })
            &&& low == (if l < 10 {
                '0' as u32 + l
            } else {
                'a' as u32 + l - 10
            })
        }),
    decreases bytes.len(),
{
    lemma_hex_len(bytes);
    lemma_hex_len(bytes.drop_last());
    if i < bytes.len() - 1 {
        law_hex_has_two_digits_for_each_byte(bytes.drop_last(), i);
    }
}

/// Only what was written of a number is read as it.
pub proof fn law_what_is_read_as_a_number_writes_it(s: Seq<char>, n: nat)
    ensures
        decimal_value(s) == Some(n) <==> s == decimal(n),
    decreases s.len(),
{
    law_decimal_is_read_back(n);
    if decimal_value(s) == Some(n) {
        let d = digit_value(s.last())->Some_0;
        law_decimals_are_written_digit_by_digit(n);
        if s.len() == 1 {
            assert(s =~= seq![s[0]]);
        } else {
            let m = decimal_value(s.drop_last())->Some_0;
            law_what_is_read_as_a_number_writes_it(s.drop_last(), m);
            assert(n == 10 * m + d && d < 10);
            assert(n / 10 == m && n % 10 == d);
            assert(s =~= s.drop_last().push(s.last()));
        }
    }
}

/// A number that fits 31 bits is read back from its digits.
pub proof fn law_a_number_that_fits_is_read_back(n: nat)
    requires
        n <= i32::MAX,
    ensures
        i32_value(decimal(n)) == Some(n as int),
{
    law_decimal_is_read_back(n);
    lemma_plain_digits(decimal(n));
    lemma_decimal_ascii(n);
    lemma_decimal_len(n);
}

/// Four octal digits say a number below 4096, the highest first.
pub proof fn law_octal_digits_say_their_number(n: nat)
    requires
        n < 4096,
    ensures
        octal4(n).len() == 4,
        exists|a: int, b: int, c: int, d: int|
            {
                &&& 0 <= a < 8 && 0 <= b < 8 && 0 <= c < 8 && 0 <= d < 8
                &&& n == 512 * a + 64 * b + 8 * c + d
                &&& octal4(n) == #[trigger] seq![digit(a), digit(b), digit(c), digit(d)]
            },
{
    let (a, b, c, d) = ((n / 512) as int, (n / 64) as int % 8, (n / 8) as int % 8, n as int % 8);
    assert(octal4(n) =~= seq![digit(a), digit(b), digit(c), digit(d)]);
    assert(n == 512 * a + 64 * b + 8 * c + d);
}

/// A signed number is read back exactly if it fits 32 bits.
pub proof fn law_exactly_what_fits_is_read_back(n: int)
    ensures
        i32_value(signed_decimal(n)) == if i32::MIN <= n <= i32::MAX {
            Some(n)
        } else {
            None
        },
{
    let s = signed_decimal(n);
    reveal_strlit("-");
    if n < 0 {
        let digits = decimal((-n) as nat);
        law_decimal_is_read_back((-n) as nat);
        lemma_plain_digits(digits);
        assert(s[0] == '-');
        assert(s.skip(1) =~= digits);
    } else {
        law_decimal_is_read_back(n as nat);
        lemma_plain_digits(decimal(n as nat));
        lemma_decimal_ascii(n as nat);
        lemma_decimal_len(n as nat);
    }
}

} // verus!
