//! Byte-level helpers shared by the wire formats: big-endian integers,
//! decimal numbers as the standard library reads and writes them, and
//! UTF-8 text.
use vstd::prelude::*;
use vstd::utf8::*;
use vstd::string::StringSliceAdditionalSpecFns;

verus! {

broadcast use vstd::seq_lib::group_seq_properties;

// ---------------------------------------------------------------------------
// Big-endian integers
// ---------------------------------------------------------------------------

/// The `u16` whose big-endian bytes are `b0 b1`.
pub open spec fn be_u16(b0: u8, b1: u8) -> u16 {
    ((b0 as u16) << 8u16) | (b1 as u16)
}

/// The `u32` whose big-endian bytes are `b0 b1 b2 b3`.
pub open spec fn be_u32(b0: u8, b1: u8, b2: u8, b3: u8) -> u32 {
    ((b0 as u32) << 24u32) | ((b1 as u32) << 16u32) | ((b2 as u32) << 8u32) | (b3 as u32)
}

/// The `u16` read big-endian from the first two bytes of `s`.
pub open spec fn be_u16_at(s: Seq<u8>, i: int) -> u16 {
    be_u16(s[i], s[i + 1])
}

/// The `u32` read big-endian from the four bytes of `s` at `i`.
pub open spec fn be_u32_at(s: Seq<u8>, i: int) -> u32 {
    be_u32(s[i], s[i + 1], s[i + 2], s[i + 3])
}

/// The big-endian bytes of a `u16`.
pub open spec fn u16_bytes(v: u16) -> Seq<u8> {
    seq![(v >> 8u16) as u8, v as u8]
}

/// The big-endian bytes of a `u32`.
pub open spec fn u32_bytes(v: u32) -> Seq<u8> {
    seq![(v >> 24u32) as u8, (v >> 16u32) as u8, (v >> 8u32) as u8, v as u8]
}

/// Reading back the bytes of a `u32` gives the `u32`.
pub proof fn lemma_u32_bytes_roundtrip(v: u32)
    ensures
        be_u32(
            u32_bytes(v)[0],
            u32_bytes(v)[1],
            u32_bytes(v)[2],
            u32_bytes(v)[3],
        ) == v,
        u32_bytes(v).len() == 4,
{
    let b0 = (v >> 24u32) as u8;
    let b1 = (v >> 16u32) as u8;
    let b2 = (v >> 8u32) as u8;
    let b3 = v as u8;
    assert(((b0 as u32) << 24u32) | ((b1 as u32) << 16u32) | ((b2 as u32) << 8u32) | (b3 as u32)
        == v) by (bit_vector)
        requires
            b0 == (v >> 24u32) as u8,
            b1 == (v >> 16u32) as u8,
            b2 == (v >> 8u32) as u8,
            b3 == v as u8,
    ;
}

/// Reading back the bytes of a `u16` gives the `u16`.
pub proof fn lemma_u16_bytes_roundtrip(v: u16)
    ensures
        be_u16(u16_bytes(v)[0], u16_bytes(v)[1]) == v,
        u16_bytes(v).len() == 2,
{
    let b0 = (v >> 8u16) as u8;
    let b1 = v as u8;
    assert(((b0 as u16) << 8u16) | (b1 as u16) == v) by (bit_vector)
        requires
            b0 == (v >> 8u16) as u8,
            b1 == v as u8,
    ;
}

/// Reads a big-endian `u16` at `i`.
pub fn read_u16(s: &[u8], i: usize) -> (v: u16)
    requires
        i + 2 <= s@.len(),
    ensures
        v == be_u16_at(s@, i as int),
{
    ((s[i] as u16) << 8u16) | (s[i + 1] as u16)
}

/// Reads a big-endian `u32` at `i`.
pub fn read_u32(s: &[u8], i: usize) -> (v: u32)
    requires
        i + 4 <= s@.len(),
    ensures
        v == be_u32_at(s@, i as int),
{
    ((s[i] as u32) << 24u32) | ((s[i + 1] as u32) << 16u32) | ((s[i + 2] as u32) << 8u32) | (s[i
        + 3] as u32)
}

/// Appends the big-endian bytes of a `u16`.
pub fn push_u16(out: &mut Vec<u8>, v: u16)
    ensures
        final(out)@ == old(out)@ + u16_bytes(v),
{
    out.push((v >> 8u16) as u8);
    out.push(v as u8);
    assert(final(out)@ =~= old(out)@ + u16_bytes(v));
}

/// Appends the big-endian bytes of a `u32`.
pub fn push_u32(out: &mut Vec<u8>, v: u32)
    ensures
        final(out)@ == old(out)@ + u32_bytes(v),
{
    out.push((v >> 24u32) as u8);
    out.push((v >> 16u32) as u8);
    out.push((v >> 8u32) as u8);
    out.push(v as u8);
    assert(final(out)@ =~= old(out)@ + u32_bytes(v));
}

/// Appends all of `src`.
pub fn push_all(out: &mut Vec<u8>, src: &[u8])
    ensures
        final(out)@ == old(out)@ + src@,
{
    let mut i: usize = 0;
    while i < src.len()
        invariant
            i <= src@.len(),
            out@ == old(out)@ + src@.subrange(0, i as int),
        decreases src@.len() - i,
    {
        out.push(src[i]);
        i = i + 1;
        assert(out@ =~= old(out)@ + src@.subrange(0, i as int));
    }
    assert(src@.subrange(0, src@.len() as int) =~= src@);
}

/// The bytes `s[start..end]` as a vector.
pub fn copy_range(s: &[u8], start: usize, end: usize) -> (r: Vec<u8>)
    requires
        start <= end <= s@.len(),
    ensures
        r@ == s@.subrange(start as int, end as int),
{
    let mut r: Vec<u8> = Vec::new();
    let mut i: usize = start;
    while i < end
        invariant
            start <= i <= end,
            end <= s@.len(),
            r@ == s@.subrange(start as int, i as int),
        decreases end - i,
    {
        r.push(s[i]);
        i = i + 1;
        assert(r@ =~= s@.subrange(start as int, i as int));
    }
    r
}

// ---------------------------------------------------------------------------
// Searching
// ---------------------------------------------------------------------------

/// The index of the first `c` in `t`.
pub open spec fn find_first(t: Seq<u8>, c: u8) -> Option<int>
    decreases t.len(),
{
    if t.len() == 0 {
        None
    } else if t[0] == c {
        Some(0)
    } else {
        match find_first(t.drop_first(), c) {
            Some(i) => Some(i + 1),
            None => None,
        }
    }
}

pub proof fn lemma_find_first(t: Seq<u8>, c: u8, i: int)
    requires
        0 <= i <= t.len(),
        forall|j: int| 0 <= j < i ==> t[j] != c,
    ensures
        i < t.len() && t[i] == c ==> find_first(t, c) == Some(i),
        i == t.len() ==> find_first(t, c) is None,
    decreases i,
{
    if i > 0 {
        lemma_find_first(t.drop_first(), c, i - 1);
    }
}

/// The index of the first `c` in `s[from..to]`.
pub fn find_byte(s: &[u8], from: usize, to: usize, c: u8) -> (r: Option<usize>)
    requires
        from <= to <= s@.len(),
    ensures
        match r {
            Some(i) => from <= i < to && s@[i as int] == c && find_first(
                s@.subrange(from as int, to as int),
                c,
            ) == Some(i - from),
            None => find_first(s@.subrange(from as int, to as int), c) is None,
        },
{
    let ghost t = s@.subrange(from as int, to as int);
    let mut i = from;
    while i < to
        invariant
            from <= i <= to <= s@.len(),
            t == s@.subrange(from as int, to as int),
            forall|j: int| 0 <= j < i - from ==> t[j] != c,
        decreases to - i,
    {
        if s[i] == c {
            proof {
                lemma_find_first(t, c, i - from);
            }
            return Some(i);
        }
        i = i + 1;
    }
    proof {
        lemma_find_first(t, c, to - from);
    }
    None
}

// ---------------------------------------------------------------------------
// Decimal numbers
// ---------------------------------------------------------------------------

/// An ASCII decimal digit.
pub open spec fn is_digit(c: u8) -> bool {
    48 <= c <= 57
}

/// Every byte of `s` is an ASCII decimal digit.
pub open spec fn all_digits(s: Seq<u8>) -> bool {
    forall|i: int| 0 <= i < s.len() ==> #[trigger] is_digit(s[i])
}

/// The number written by the digits `s`, most significant first.
pub open spec fn digits_value(s: Seq<u8>) -> nat
    decreases s.len(),
{
    if s.len() == 0 {
        0
    } else {
        digits_value(s.drop_last()) * 10 + (s.last() - 48) as nat
    }
}

/// What `from_str` of an unsigned integer type with largest value `max` makes of
/// `s`: an optional `+`, then at least one digit, and a value up to `max`.
pub open spec fn parse_unsigned(s: Seq<u8>, max: nat) -> Option<nat> {
    let d = if s.len() > 0 && s[0] == 43u8 {
        s.drop_first()
    } else {
        s
    };
    if d.len() > 0 && all_digits(d) && digits_value(d) <= max {
        Some(digits_value(d))
    } else {
        None
    }
}

/// What `i32::from_str` makes of `s`: an optional sign, then at least one
/// digit, and a value that fits in an `i32`.
pub open spec fn parse_i32_spec(s: Seq<u8>) -> Option<i32> {
    if s.len() > 0 && s[0] == 45u8 {
        let d = s.drop_first();
        if d.len() > 0 && all_digits(d) && digits_value(d) <= 0x8000_0000 {
            Some((0 - digits_value(d)) as i32)
        } else {
            None
        }
    } else {
        match parse_unsigned(s, 0x7fff_ffff) {
            Some(v) => Some(v as i32),
            None => None,
        }
    }
}

/// What `u32::from_str` makes of `s`.
pub open spec fn parse_u32_spec(s: Seq<u8>) -> Option<u32> {
    match parse_unsigned(s, 0xffff_ffff) {
        Some(v) => Some(v as u32),
        None => None,
    }
}

/// What `usize::from_str` makes of `s`.
pub open spec fn parse_usize_spec(s: Seq<u8>) -> Option<usize> {
    match parse_unsigned(s, usize::MAX as nat) {
        Some(v) => Some(v as usize),
        None => None,
    }
}

proof fn lemma_digits_step(s: Seq<u8>, start: int, i: int)
    requires
        0 <= start <= i < s.len(),
    ensures
        digits_value(s.subrange(start, i + 1)) == digits_value(s.subrange(start, i)) * 10 + (s[i]
            - 48) as nat,
{
    assert(s.subrange(start, i + 1).drop_last() =~= s.subrange(start, i));
}

/// Reads the digits `s[start..end]` as a number no larger than `limit`.
/// `None` unless the range is non-empty, all digits, and its value fits.
pub fn parse_digits(s: &[u8], start: usize, end: usize, limit: u64) -> (r: Option<u64>)
    requires
        start <= end <= s@.len(),
    ensures
        ({
            let d = s@.subrange(start as int, end as int);
            match r {
                Some(v) => d.len() > 0 && all_digits(d) && digits_value(d) <= limit && v
                    == digits_value(d),
                None => !(d.len() > 0 && all_digits(d) && digits_value(d) <= limit),
            }
        }),
{
    if start == end {
        return None;
    }
    let mut acc: u64 = 0;
    let mut over = false;
    let mut i = start;
    while i < end
        invariant
            start <= i <= end <= s@.len(),
            all_digits(s@.subrange(start as int, i as int)),
            !over ==> acc == digits_value(s@.subrange(start as int, i as int)) && acc <= limit,
            over ==> digits_value(s@.subrange(start as int, i as int)) > limit,
        decreases end - i,
    {
        let c = s[i];
        if !(48 <= c && c <= 57) {
            assert(!is_digit(s@.subrange(start as int, end as int)[i - start]));
            return None;
        }
        proof {
            lemma_digits_step(s@, start as int, i as int);
        }
        if !over {
            let next: u128 = acc as u128 * 10 + (c - 48) as u128;
            if next > limit as u128 {
                over = true;
            } else {
                acc = next as u64;
            }
        }
        i = i + 1;
        assert(all_digits(s@.subrange(start as int, i as int))) by {
            assert forall|k: int| 0 <= k < i - start implies #[trigger] is_digit(
                s@.subrange(start as int, i as int)[k],
            ) by {
                if k < i - 1 - start {
                    assert(s@.subrange(start as int, i as int)[k] == s@.subrange(
                        start as int,
                        (i - 1) as int,
                    )[k]);
                }
            }
        }
    }
    if over {
        None
    } else {
        Some(acc)
    }
}

/// `u32::from_str` on the bytes `s[start..end]`.
pub fn parse_u32(s: &[u8], start: usize, end: usize) -> (r: Option<u32>)
    requires
        start <= end <= s@.len(),
    ensures
        r == parse_u32_spec(s@.subrange(start as int, end as int)),
{
    let ghost t = s@.subrange(start as int, end as int);
    let mut from = start;
    if start < end && s[start] == 43u8 {
        from = start + 1;
        assert(t.drop_first() =~= s@.subrange(from as int, end as int));
    } else {
        assert(t =~= s@.subrange(from as int, end as int));
    }
    match parse_digits(s, from, end, 0xffff_ffff) {
        Some(v) => Some(v as u32),
        None => None,
    }
}

/// `usize::from_str` on the bytes `s[start..end]`.
pub fn parse_usize(s: &[u8], start: usize, end: usize) -> (r: Option<usize>)
    requires
        start <= end <= s@.len(),
    ensures
        r == parse_usize_spec(s@.subrange(start as int, end as int)),
{
    let ghost t = s@.subrange(start as int, end as int);
    let mut from = start;
    if start < end && s[start] == 43u8 {
        from = start + 1;
        assert(t.drop_first() =~= s@.subrange(from as int, end as int));
    } else {
        assert(t =~= s@.subrange(from as int, end as int));
    }
    match parse_digits(s, from, end, usize::MAX as u64) {
        Some(v) => Some(v as usize),
        None => None,
    }
}

/// `i32::from_str` on the bytes `s[start..end]`.
pub fn parse_i32(s: &[u8], start: usize, end: usize) -> (r: Option<i32>)
    requires
        start <= end <= s@.len(),
    ensures
        r == parse_i32_spec(s@.subrange(start as int, end as int)),
{
    let ghost t = s@.subrange(start as int, end as int);
    if start < end && s[start] == 45u8 {
        assert(t.drop_first() =~= s@.subrange(start + 1, end as int));
        match parse_digits(s, start + 1, end, 0x8000_0000) {
            Some(v) => Some((0 - (v as i64)) as i32),
            None => None,
        }
    } else {
        let mut from = start;
        if start < end && s[start] == 43u8 {
            from = start + 1;
            assert(t.drop_first() =~= s@.subrange(from as int, end as int));
        } else {
            assert(t =~= s@.subrange(from as int, end as int));
        }
        match parse_digits(s, from, end, 0x7fff_ffff) {
            Some(v) => Some(v as i32),
            None => None,
        }
    }
}

/// The decimal digits of `n`, as `format!("{}", n)` writes them.
pub open spec fn dec_digits(n: nat) -> Seq<u8>
    decreases n,
{
    if n < 10 {
        seq![(n + 48) as u8]
    } else {
        dec_digits(n / 10).push((n % 10 + 48) as u8)
    }
}

/// The decimal text of an integer, with a `-` before a negative one.
pub open spec fn dec_int(v: int) -> Seq<u8> {
    if v < 0 {
        seq![45u8] + dec_digits((0 - v) as nat)
    } else {
        dec_digits(v as nat)
    }
}

/// The decimal digits of a number are digits, and read back as the number.
pub proof fn lemma_dec_digits(n: nat)
    ensures
        dec_digits(n).len() > 0,
        all_digits(dec_digits(n)),
        digits_value(dec_digits(n)) == n,
    decreases n,
{
    if n >= 10 {
        lemma_dec_digits(n / 10);
        let d = dec_digits(n);
        assert(d.drop_last() =~= dec_digits(n / 10));
        assert(d.last() == (n % 10 + 48) as u8);
        assert((n / 10) * 10 + n % 10 == n) by (nonlinear_arith);
        assert(digits_value(d) == digits_value(d.drop_last()) * 10 + (d.last() - 48) as nat);
    } else {
        let d = dec_digits(n);
        assert(d.drop_last() =~= Seq::<u8>::empty());
        assert(digits_value(d) == digits_value(d.drop_last()) * 10 + (d.last() - 48) as nat);
        assert(is_digit(d[0]));
        assert forall|i: int| 0 <= i < d.len() implies #[trigger] is_digit(d[i]) by {
            if i < d.len() - 1 {
                assert(d[i] == dec_digits(n / 10)[i]);
            }
        }
    }
}

/// The decimal text of an `i32` reads back as that `i32`.
pub proof fn lemma_dec_int_parse(v: i32)
    ensures
        parse_i32_spec(dec_int(v as int)) == Some(v),
        dec_int(v as int).len() > 0,
{
    if v < 0 {
        let n = (0 - v) as nat;
        lemma_dec_digits(n);
        assert(dec_int(v as int).drop_first() =~= dec_digits(n));
    } else {
        lemma_dec_digits(v as nat);
        let d = dec_digits(v as nat);
        assert(is_digit(d[0]));
    }
}

/// Appends the decimal digits of `n`.
pub fn push_decimal(out: &mut Vec<u8>, n: u128)
    ensures
        final(out)@ == old(out)@ + dec_digits(n as nat),
    decreases n,
{
    if n >= 10 {
        push_decimal(out, n / 10);
    }
    out.push((n % 10 + 48) as u8);
    assert(final(out)@ =~= old(out)@ + dec_digits(n as nat));
}

/// Appends the decimal text of an `i32`, as `format!("{}", v)` writes it.
pub fn push_i32(out: &mut Vec<u8>, v: i32)
    ensures
        final(out)@ == old(out)@ + dec_int(v as int),
{
    if v < 0 {
        out.push(45u8);
        let ghost mid = out@;
        push_decimal(out, (0 - (v as i64)) as u128);
        assert(final(out)@ =~= old(out)@ + dec_int(v as int));
    } else {
        push_decimal(out, v as u128);
    }
}

// ---------------------------------------------------------------------------
// UTF-8
// ---------------------------------------------------------------------------

/// Text decoded from `bytes`, or `None` where they are not UTF-8.
pub open spec fn utf8_text(bytes: Seq<u8>) -> Option<Seq<char>> {
    if valid_utf8(bytes) {
        Some(decode_utf8(bytes))
    } else {
        None
    }
}

/// `std::str::from_utf8`: a string slice over `bytes` where they are valid
/// UTF-8, and `None` where they are not.
#[verifier::external_body]
fn str_from_utf8(bytes: &[u8]) -> (r: Option<&str>)
    ensures
        r is Some <==> valid_utf8(bytes@),
        r matches Some(s) ==> s.spec_bytes() == bytes@,
{
    std::str::from_utf8(bytes).ok()
}

/// The text `String::from_utf8_lossy` makes of `bytes`: their characters,
/// with U+FFFD in place of each sequence that is not UTF-8.
pub uninterp spec fn utf8_lossy(bytes: Seq<u8>) -> Seq<char>;

/// `String::from_utf8_lossy`, made into an owned string. Its documentation
/// says that valid UTF-8 comes back as the same text; what replaces invalid
/// sequences is only named by `utf8_lossy` here.
#[verifier::external_body]
pub(crate) fn string_from_utf8_lossy(bytes: &[u8]) -> (r: String)
    ensures
        r@ == utf8_lossy(bytes@),
        valid_utf8(bytes@) ==> r@ == decode_utf8(bytes@),
{
    String::from_utf8_lossy(bytes).into_owned()
}

/// `String::from_utf8` on a copy of `bytes`: the text they encode, or `None`
/// where they are not UTF-8.
pub fn string_from_utf8(bytes: &[u8]) -> (r: Option<String>)
    ensures
        r is Some <==> valid_utf8(bytes@),
        r matches Some(s) ==> encode_utf8(s@) == bytes@ && s@ == decode_utf8(bytes@),
{
    match str_from_utf8(bytes) {
        Some(s) => {
            let owned = s.to_owned();
            proof {
                encode_utf8_decode_utf8(owned@);
            }
            Some(owned)
        },
        None => None,
    }
}

/// The text that valid UTF-8 `bytes` encode.
pub fn string_from_valid(bytes: &[u8]) -> (r: String)
    requires
        valid_utf8(bytes@),
    ensures
        encode_utf8(r@) == bytes@,
        r@ == decode_utf8(bytes@),
{
    match string_from_utf8(bytes) {
        Some(s) => s,
        None => {
            proof {
                assert(false);
            }
            String::new()
        },
    }
}

/// The UTF-8 bytes of a string.
pub fn string_bytes(s: &String) -> (r: &[u8])
    ensures
        r@ == encode_utf8(s@),
{
    s.as_str().as_bytes()
}

/// The UTF-8 bytes of a string slice.
pub fn str_bytes(s: &str) -> (r: &[u8])
    ensures
        r@ == encode_utf8(s@),
{
    s.as_bytes()
}

/// Bytes below 0x80 are valid UTF-8.
pub proof fn lemma_ascii_valid(b: Seq<u8>)
    requires
        forall|i: int| 0 <= i < b.len() ==> #[trigger] b[i] < 128,
    ensures
        valid_utf8(b),
    decreases b.len(),
{
    if b.len() > 0 {
        let rest = b.subrange(1, b.len() as int);
        assert(is_leading_byte_width_1(b[0]));
        assert(pop_first_scalar(b) =~= rest);
        lemma_ascii_valid(rest);
    }
}

/// In valid UTF-8, an ASCII byte splits the bytes into two valid parts.
pub proof fn lemma_valid_split_ascii(b: Seq<u8>, i: int)
    requires
        valid_utf8(b),
        0 <= i < b.len(),
        b[i] < 128,
    ensures
        valid_utf8(b.subrange(0, i)),
        valid_utf8(b.subrange(i + 1, b.len() as int)),
{
    is_char_boundary_iff_not_is_continuation_byte(b, i);
    valid_utf8_split(b, i);
    let tail = b.subrange(i, b.len() as int);
    assert(is_leading_byte_width_1(tail[0]));
    assert(pop_first_scalar(tail) =~= b.subrange(i + 1, b.len() as int));
}

/// A valid UTF-8 sequence followed by an ASCII byte and another valid
/// sequence is valid.
pub proof fn lemma_valid_join_ascii(a: Seq<u8>, c: u8, d: Seq<u8>)
    requires
        valid_utf8(a),
        valid_utf8(d),
        c < 128,
    ensures
        valid_utf8(a + seq![c] + d),
{
    lemma_ascii_valid(seq![c]);
    valid_utf8_concat(a, seq![c]);
    valid_utf8_concat(a + seq![c], d);
}

/// Text with valid UTF-8 bytes decodes to the text.
pub proof fn lemma_text_of_bytes(s: Seq<char>)
    ensures
        utf8_text(encode_utf8(s)) == Some(s),
{
    encode_utf8_valid_utf8(s);
    encode_utf8_decode_utf8(s);
}

/// In valid UTF-8, the ends of the bytes, an ASCII byte, and the byte after
/// an ASCII byte all start a character.
pub proof fn lemma_ascii_boundary(b: Seq<u8>, i: int)
    requires
        valid_utf8(b),
        0 <= i <= b.len(),
        i == 0 || i == b.len() || b[i] < 128 || b[i - 1] < 128,
    ensures
        is_char_boundary(b, i),
{
    is_char_boundary_start_end_of_seq(b);
    if 0 < i < b.len() {
        is_char_boundary_iff_not_is_continuation_byte(b, i);
        if b[i] >= 128 {
            lemma_valid_split_ascii(b, i - 1);
            let rest = b.subrange(i, b.len() as int);
            assert(rest[0] == b[i]);
            assert(valid_first_scalar(rest));
        }
    }
}

/// The part of `s` between the byte offsets `start` and `end`, where each
/// end is an end of `s` or next to an ASCII byte.
pub fn substr(s: &str, start: usize, end: usize) -> (r: &str)
    requires
        start <= end <= encode_utf8(s@).len(),
        start == 0 || encode_utf8(s@)[start - 1] < 128 || encode_utf8(s@)[start as int] < 128,
        end == encode_utf8(s@).len() || encode_utf8(s@)[end as int] < 128 || encode_utf8(
            s@,
        )[end - 1] < 128,
    ensures
        encode_utf8(r@) == encode_utf8(s@).subrange(start as int, end as int),
{
    let ghost b = encode_utf8(s@);
    proof {
        encode_utf8_valid_utf8(s@);
        lemma_ascii_boundary(b, start as int);
    }
    let (_, tail) = s.split_at(start);
    let ghost t = b.subrange(start as int, b.len() as int);
    proof {
        valid_utf8_split(b, start as int);
        if end > start {
            assert(t[end - start - 1] == b[end - 1]);
        }
        lemma_ascii_boundary(t, end - start);
    }
    let (piece, _) = tail.split_at(end - start);
    proof {
        assert(t.subrange(0, end - start) =~= b.subrange(start as int, end as int));
    }
    piece
}

/// In valid UTF-8, the bytes between two offsets that each start a
/// character (or end the bytes) are valid UTF-8.
pub proof fn lemma_valid_subrange(b: Seq<u8>, s: int, e: int)
    requires
        valid_utf8(b),
        0 <= s <= e <= b.len(),
        s == b.len() || !is_continuation_byte(b[s]),
        e == b.len() || !is_continuation_byte(b[e]),
    ensures
        valid_utf8(b.subrange(s, e)),
{
    is_char_boundary_start_end_of_seq(b);
    if s < b.len() {
        is_char_boundary_iff_not_is_continuation_byte(b, s);
    }
    valid_utf8_split(b, s);
    let t = b.subrange(s, b.len() as int);
    is_char_boundary_start_end_of_seq(t);
    if e < b.len() {
        assert(t[e - s] == b[e]);
        is_char_boundary_iff_not_is_continuation_byte(t, e - s);
    }
    valid_utf8_split(t, e - s);
    assert(t.subrange(0, e - s) =~= b.subrange(s, e));
}

/// The decimal text of `n`.
pub open spec fn dec_text(n: nat) -> Seq<char> {
    decode_utf8(dec_digits(n))
}

/// `n` written in decimal.
pub fn decimal_string(n: u128) -> (r: String)
    ensures
        r@ == dec_text(n as nat),
        encode_utf8(r@) == dec_digits(n as nat),
{
    let mut out: Vec<u8> = Vec::new();
    push_decimal(&mut out, n);
    proof {
        lemma_dec_digits(n as nat);
        assert(out@ =~= dec_digits(n as nat));
        assert forall|i: int| 0 <= i < out@.len() implies #[trigger] out@[i] < 128 by {
            assert(is_digit(out@[i]));
        }
        lemma_ascii_valid(out@);
    }
    string_from_valid(out.as_slice())
}

// ---------------------------------------------------------------------------
// Lookups by name
// ---------------------------------------------------------------------------

/// The first entry for `name`, by its index.
pub open spec fn first_named<T>(entries: Seq<(Seq<char>, T)>, name: Seq<char>) -> Option<int>
    decreases entries.len(),
{
    if entries.len() == 0 {
        None
    } else if entries[0].0 == name {
        Some(0)
    } else {
        match first_named(entries.drop_first(), name) {
            Some(i) => Some(i + 1),
            None => None,
        }
    }
}

pub proof fn lemma_first_named<T>(entries: Seq<(Seq<char>, T)>, name: Seq<char>, i: int)
    requires
        0 <= i <= entries.len(),
        forall|j: int| 0 <= j < i ==> #[trigger] entries[j].0 != name,
    ensures
        i < entries.len() && entries[i].0 == name ==> first_named(entries, name) == Some(i),
        i == entries.len() ==> first_named(entries, name) is None,
    decreases i,
{
    if i > 0 {
        lemma_first_named(entries.drop_first(), name, i - 1);
    }
}


/// A lookup finds an entry that bears the name, before which none does.
pub proof fn lemma_first_named_some<T>(entries: Seq<(Seq<char>, T)>, name: Seq<char>)
    ensures
        first_named(entries, name) matches Some(i) ==> 0 <= i < entries.len() && entries[i].0 == name,
    decreases entries.len(),
{
    if entries.len() > 0 && entries[0].0 != name {
        lemma_first_named_some(entries.drop_first(), name);
    }
}

/// Lookups see only the names.
pub proof fn lemma_first_named_names<T>(a: Seq<(Seq<char>, T)>, b: Seq<(Seq<char>, T)>, n: Seq<char>)
    requires
        a.len() == b.len(),
        forall|j: int| 0 <= j < a.len() ==> #[trigger] a[j].0 == b[j].0,
    ensures
        first_named(a, n) == first_named(b, n),
    decreases a.len(),
{
    if a.len() > 0 {
        assert forall|j: int| 0 <= j < a.drop_first().len() implies #[trigger] a.drop_first()[j].0 == b.drop_first()[j].0 by {
            assert(a[j + 1].0 == b[j + 1].0);
        }
        lemma_first_named_names(a.drop_first(), b.drop_first(), n);
    }
}

/// Appending an entry for a name without one leaves every other lookup as
/// it was.
pub proof fn lemma_first_named_push<T>(entries: Seq<(Seq<char>, T)>, e: (Seq<char>, T), n: Seq<char>)
    requires
        first_named(entries, e.0) is None,
    ensures
        n != e.0 ==> first_named(entries.push(e), n) == first_named(entries, n),
        n == e.0 ==> first_named(entries.push(e), n) == Some(entries.len() as int),
    decreases entries.len(),
{
    if entries.len() > 0 {
        lemma_first_named_push(entries.drop_first(), e, n);
        assert(entries.push(e).drop_first() =~= entries.drop_first().push(e));
    } else {
        assert(entries.push(e).drop_first() =~= Seq::<(Seq<char>, T)>::empty());
    }
}

} // verus!
