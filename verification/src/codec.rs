//! The byte layout of the values that the engine stores.
//!
//! Integers are fixed-width and little-endian. A string is the length of its
//! UTF-8 encoding as a `u64`, then the encoding. A list is the encodings of
//! its items one after the other; its length is written by whoever holds the
//! list. Each layout comes as a pair of spec functions: `enc_*` gives the
//! bytes of a value, `parse_*` reads a value off the front of a byte string
//! and gives back what follows it. For each pair two lemmas show that they
//! are inverse to each other.
//!
//! The layout is the one that `bincode` gives to the same values with
//! fixed-width integers in little-endian order, so that files can be read
//! with it.

use vstd::prelude::*;
use vstd::bytes::*;
use vstd::slice::*;
use vstd::utf8::*;
use vstd::string::*;

verus! {

/// Appends the bytes of `src` to `out`.
pub fn append_bytes(out: &mut Vec<u8>, src: &[u8])
    ensures
        final(out)@ == old(out)@ + src@,
{
    let mut i: usize = 0;
    while i < src.len()
        invariant
            0 <= i <= src@.len(),
            out@ == old(out)@ + src@.subrange(0, i as int),
        decreases src@.len() - i,
    {
        out.push(src[i]);
        i += 1;
        proof {
            assert(out@ =~= old(out)@ + src@.subrange(0, i as int));
        }
    }
    proof {
        assert(src@.subrange(0, i as int) =~= src@);
    }
}

/// Joining byte strings does not depend on where the brackets stand.
pub proof fn lemma_concat_assoc(a: Seq<u8>, b: Seq<u8>, c: Seq<u8>)
    ensures
        (a + b) + c == a + (b + c),
{
    assert((a + b) + c =~= a + (b + c));
}

// ---------------------------------------------------------------- one byte

/// The bytes of a byte.
pub open spec fn enc_u8(x: u8) -> Seq<u8> {
    seq![x]
}

/// Reads a byte off the front of a byte string and gives back what follows it.
pub open spec fn parse_u8(s: Seq<u8>) -> Option<(u8, Seq<u8>)> {
    if s.len() >= 1 {
        Some((s[0], s.skip(1)))
    } else {
        None
    }
}

/// The bytes of a flag.
pub open spec fn enc_bool(b: bool) -> Seq<u8> {
    seq![if b { 1u8 } else { 0u8 }]
}

/// A flag is one byte, `0` or `1`; any other byte is refused.
pub open spec fn parse_bool(s: Seq<u8>) -> Option<(bool, Seq<u8>)> {
    if s.len() >= 1 && s[0] <= 1 {
        Some((s[0] == 1, s.skip(1)))
    } else {
        None
    }
}

/// Reading the bytes of a byte gives it back, whatever follows.
pub proof fn lemma_parse_enc_u8(x: u8, rest: Seq<u8>)
    ensures
        parse_u8(enc_u8(x) + rest) == Some((x, rest)),
{
    assert((enc_u8(x) + rest).skip(1) =~= rest);
}

/// What was read as a byte stands written at the front.
pub proof fn lemma_enc_parse_u8(s: Seq<u8>)
    requires
        parse_u8(s) is Some,
    ensures
        s == enc_u8((parse_u8(s)->0).0) + (parse_u8(s)->0).1,
{
    assert(s =~= enc_u8(s[0]) + s.skip(1));
}

/// Reading the bytes of a flag gives it back, whatever follows.
pub proof fn lemma_parse_enc_bool(x: bool, rest: Seq<u8>)
    ensures
        parse_bool(enc_bool(x) + rest) == Some((x, rest)),
{
    assert((enc_bool(x) + rest).skip(1) =~= rest);
}

/// What was read as a flag stands written at the front.
pub proof fn lemma_enc_parse_bool(s: Seq<u8>)
    requires
        parse_bool(s) is Some,
    ensures
        s == enc_bool((parse_bool(s)->0).0) + (parse_bool(s)->0).1,
{
    assert(s =~= enc_bool(s[0] == 1) + s.skip(1));
}

/// Appends the bytes of a byte.
pub fn put_u8(out: &mut Vec<u8>, x: u8)
    ensures
        final(out)@ == old(out)@ + enc_u8(x),
{
    out.push(x);
    proof {
        assert(out@ =~= old(out)@ + enc_u8(x));
    }
}

/// Appends the bytes of a flag.
pub fn put_bool(out: &mut Vec<u8>, x: bool)
    ensures
        final(out)@ == old(out)@ + enc_bool(x),
{
    out.push(if x { 1u8 } else { 0u8 });
    proof {
        assert(out@ =~= old(out)@ + enc_bool(x));
    }
}

/// Reads a byte at `at` and gives it with the position behind it.
pub fn take_u8(b: &[u8], at: usize) -> (r: Option<(u8, usize)>)
    requires
        at <= b@.len(),
    ensures
        r matches Some((_, end)) ==> end == at + 1,
        match r {
            Some((x, end)) => at <= end <= b@.len() && parse_u8(b@.skip(at as int)) == Some(
                (x, b@.skip(end as int)),
            ),
            None => parse_u8(b@.skip(at as int)) is None,
        },
{
    if at >= b.len() {
        return None;
    }
    proof {
        assert(b@.skip(at as int).skip(1) =~= b@.skip(at + 1));
    }
    Some((b[at], at + 1))
}

/// Reads a flag at `at` and gives it with the position behind it.
pub fn take_bool(b: &[u8], at: usize) -> (r: Option<(bool, usize)>)
    requires
        at <= b@.len(),
    ensures
        r matches Some((_, end)) ==> end == at + 1,
        match r {
            Some((x, end)) => at <= end <= b@.len() && parse_bool(b@.skip(at as int)) == Some(
                (x, b@.skip(end as int)),
            ),
            None => parse_bool(b@.skip(at as int)) is None,
        },
{
    if at >= b.len() {
        return None;
    }
    let v = b[at];
    if v > 1 {
        return None;
    }
    proof {
        assert(b@.skip(at as int).skip(1) =~= b@.skip(at + 1));
    }
    Some((v == 1, at + 1))
}

// ------------------------------------------------------- fixed-width integers

/// The bytes of a `u16`.
pub open spec fn enc_u16(x: u16) -> Seq<u8> {
    spec_u16_to_le_bytes(x)
}

/// Reads a `u16` off the front of a byte string and gives back what follows it.
pub open spec fn parse_u16(s: Seq<u8>) -> Option<(u16, Seq<u8>)> {
    if s.len() >= 2 {
        Some((spec_u16_from_le_bytes(s.subrange(0, 2)), s.skip(2)))
    } else {
        None
    }
}

/// The bytes of a `u32`.
pub open spec fn enc_u32(x: u32) -> Seq<u8> {
    spec_u32_to_le_bytes(x)
}

/// Reads a `u32` off the front of a byte string and gives back what follows it.
pub open spec fn parse_u32(s: Seq<u8>) -> Option<(u32, Seq<u8>)> {
    if s.len() >= 4 {
        Some((spec_u32_from_le_bytes(s.subrange(0, 4)), s.skip(4)))
    } else {
        None
    }
}

/// The bytes of a `u64`.
pub open spec fn enc_u64(x: u64) -> Seq<u8> {
    spec_u64_to_le_bytes(x)
}

/// Reads a `u64` off the front of a byte string and gives back what follows it.
pub open spec fn parse_u64(s: Seq<u8>) -> Option<(u64, Seq<u8>)> {
    if s.len() >= 8 {
        Some((spec_u64_from_le_bytes(s.subrange(0, 8)), s.skip(8)))
    } else {
        None
    }
}

/// Reading the bytes of a `u16` gives it back, whatever follows.
pub proof fn lemma_parse_enc_u16(x: u16, rest: Seq<u8>)
    ensures
        enc_u16(x).len() == 2,
        parse_u16(enc_u16(x) + rest) == Some((x, rest)),
{
    lemma_auto_spec_u16_to_from_le_bytes();
    assert((enc_u16(x) + rest).subrange(0, 2) =~= enc_u16(x));
    assert((enc_u16(x) + rest).skip(2) =~= rest);
}

/// What was read as a `u16` stands written at the front.
pub proof fn lemma_enc_parse_u16(s: Seq<u8>)
    requires
        parse_u16(s) is Some,
    ensures
        s == enc_u16((parse_u16(s)->0).0) + (parse_u16(s)->0).1,
{
    lemma_auto_spec_u16_to_from_le_bytes();
    assert(s =~= s.subrange(0, 2) + s.skip(2));
}

/// Reading the bytes of a `u32` gives it back, whatever follows.
pub proof fn lemma_parse_enc_u32(x: u32, rest: Seq<u8>)
    ensures
        enc_u32(x).len() == 4,
        parse_u32(enc_u32(x) + rest) == Some((x, rest)),
{
    lemma_auto_spec_u32_to_from_le_bytes();
    assert((enc_u32(x) + rest).subrange(0, 4) =~= enc_u32(x));
    assert((enc_u32(x) + rest).skip(4) =~= rest);
}

/// What was read as a `u32` stands written at the front.
pub proof fn lemma_enc_parse_u32(s: Seq<u8>)
    requires
        parse_u32(s) is Some,
    ensures
        s == enc_u32((parse_u32(s)->0).0) + (parse_u32(s)->0).1,
{
    lemma_auto_spec_u32_to_from_le_bytes();
    assert(s =~= s.subrange(0, 4) + s.skip(4));
}

/// Reading the bytes of a `u64` gives it back, whatever follows.
pub proof fn lemma_parse_enc_u64(x: u64, rest: Seq<u8>)
    ensures
        enc_u64(x).len() == 8,
        parse_u64(enc_u64(x) + rest) == Some((x, rest)),
{
    lemma_auto_spec_u64_to_from_le_bytes();
    assert((enc_u64(x) + rest).subrange(0, 8) =~= enc_u64(x));
    assert((enc_u64(x) + rest).skip(8) =~= rest);
}

/// What was read as a `u64` stands written at the front.
pub proof fn lemma_enc_parse_u64(s: Seq<u8>)
    requires
        parse_u64(s) is Some,
    ensures
        s == enc_u64((parse_u64(s)->0).0) + (parse_u64(s)->0).1,
{
    lemma_auto_spec_u64_to_from_le_bytes();
    assert(s =~= s.subrange(0, 8) + s.skip(8));
}

/// Appends the bytes of a `u16`.
pub fn put_u16(out: &mut Vec<u8>, x: u16)
    ensures
        final(out)@ == old(out)@ + enc_u16(x),
{
    let bytes = u16_to_le_bytes(x);
    append_bytes(out, bytes.as_slice());
}

/// Appends the bytes of a `u32`.
pub fn put_u32(out: &mut Vec<u8>, x: u32)
    ensures
        final(out)@ == old(out)@ + enc_u32(x),
{
    let bytes = u32_to_le_bytes(x);
    append_bytes(out, bytes.as_slice());
}

/// Appends the bytes of a `u64`.
pub fn put_u64(out: &mut Vec<u8>, x: u64)
    ensures
        final(out)@ == old(out)@ + enc_u64(x),
{
    let bytes = u64_to_le_bytes(x);
    append_bytes(out, bytes.as_slice());
}

/// Reads a `u16` at `at` and gives it with the position behind it.
pub fn take_u16(b: &[u8], at: usize) -> (r: Option<(u16, usize)>)
    requires
        at <= b@.len(),
    ensures
        r matches Some((_, end)) ==> end == at + 2,
        match r {
            Some((x, end)) => at <= end <= b@.len() && parse_u16(b@.skip(at as int)) == Some(
                (x, b@.skip(end as int)),
            ),
            None => parse_u16(b@.skip(at as int)) is None,
        },
{
    if b.len() - at < 2 {
        return None;
    }
    let x = u16_from_le_bytes(slice_subrange(b, at, at + 2));
    proof {
        assert(b@.skip(at as int).subrange(0, 2) =~= b@.subrange(at as int, at + 2));
        assert(b@.skip(at as int).skip(2) =~= b@.skip(at + 2));
    }
    Some((x, at + 2))
}

/// Reads a `u32` at `at` and gives it with the position behind it.
pub fn take_u32(b: &[u8], at: usize) -> (r: Option<(u32, usize)>)
    requires
        at <= b@.len(),
    ensures
        r matches Some((_, end)) ==> end == at + 4,
        match r {
            Some((x, end)) => at <= end <= b@.len() && parse_u32(b@.skip(at as int)) == Some(
                (x, b@.skip(end as int)),
            ),
            None => parse_u32(b@.skip(at as int)) is None,
        },
{
    if b.len() - at < 4 {
        return None;
    }
    let x = u32_from_le_bytes(slice_subrange(b, at, at + 4));
    proof {
        assert(b@.skip(at as int).subrange(0, 4) =~= b@.subrange(at as int, at + 4));
        assert(b@.skip(at as int).skip(4) =~= b@.skip(at + 4));
    }
    Some((x, at + 4))
}

/// Reads a `u64` at `at` and gives it with the position behind it.
pub fn take_u64(b: &[u8], at: usize) -> (r: Option<(u64, usize)>)
    requires
        at <= b@.len(),
    ensures
        r matches Some((_, end)) ==> end == at + 8,
        match r {
            Some((x, end)) => at <= end <= b@.len() && parse_u64(b@.skip(at as int)) == Some(
                (x, b@.skip(end as int)),
            ),
            None => parse_u64(b@.skip(at as int)) is None,
        },
{
    if b.len() - at < 8 {
        return None;
    }
    let x = u64_from_le_bytes(slice_subrange(b, at, at + 8));
    proof {
        assert(b@.skip(at as int).subrange(0, 8) =~= b@.subrange(at as int, at + 8));
        assert(b@.skip(at as int).skip(8) =~= b@.skip(at + 8));
    }
    Some((x, at + 8))
}

// ------------------------------------------------------------ signed integers

/// The two's-complement bits of a signed integer.
pub open spec fn i64_bits(x: i64) -> u64 {
    if x >= 0 {
        x as u64
    } else {
        (x + 0x1_0000_0000_0000_0000) as u64
    }
}

/// The signed integer that has the given two's-complement bits.
pub open spec fn bits_i64(u: u64) -> i64 {
    if u <= i64::MAX {
        u as i64
    } else {
        (u - 0x1_0000_0000_0000_0000) as i64
    }
}

/// The bytes of an `i64`.
pub open spec fn enc_i64(x: i64) -> Seq<u8> {
    enc_u64(i64_bits(x))
}

/// Reads an `i64` off the front of a byte string and gives back what follows it.
pub open spec fn parse_i64(s: Seq<u8>) -> Option<(i64, Seq<u8>)> {
    match parse_u64(s) {
        Some((u, rest)) => Some((bits_i64(u), rest)),
        None => None,
    }
}

/// Reading the bytes of an `i64` gives it back, whatever follows.
pub proof fn lemma_parse_enc_i64(x: i64, rest: Seq<u8>)
    ensures
        parse_i64(enc_i64(x) + rest) == Some((x, rest)),
{
    lemma_parse_enc_u64(i64_bits(x), rest);
}

/// What was read as an `i64` stands written at the front.
pub proof fn lemma_enc_parse_i64(s: Seq<u8>)
    requires
        parse_i64(s) is Some,
    ensures
        s == enc_i64((parse_i64(s)->0).0) + (parse_i64(s)->0).1,
{
    lemma_enc_parse_u64(s);
}

/// The two's-complement bits of a signed integer.
pub fn i64_to_bits(x: i64) -> (u: u64)
    ensures
        u == i64_bits(x),
{
    if x >= 0 {
        x as u64
    } else {
        u64::MAX - ((-(x + 1)) as u64)
    }
}

/// The signed integer that has the given two's-complement bits.
pub fn i64_from_bits(u: u64) -> (x: i64)
    ensures
        x == bits_i64(u),
{
    if u <= 0x7fff_ffff_ffff_ffff {
        u as i64
    } else {
        -((u64::MAX - u) as i64) - 1
    }
}

/// Appends the bytes of an `i64`.
pub fn put_i64(out: &mut Vec<u8>, x: i64)
    ensures
        final(out)@ == old(out)@ + enc_i64(x),
{
    put_u64(out, i64_to_bits(x));
}

/// Reads an `i64` at `at` and gives it with the position behind it.
pub fn take_i64(b: &[u8], at: usize) -> (r: Option<(i64, usize)>)
    requires
        at <= b@.len(),
    ensures
        r matches Some((_, end)) ==> end == at + 8,
        match r {
            Some((x, end)) => at <= end <= b@.len() && parse_i64(b@.skip(at as int)) == Some(
                (x, b@.skip(end as int)),
            ),
            None => parse_i64(b@.skip(at as int)) is None,
        },
{
    match take_u64(b, at) {
        Some((u, end)) => Some((i64_from_bits(u), end)),
        None => None,
    }
}

// -------------------------------------------------------------------- strings

/// The encoding of the string is short enough for its length to be written.
pub open spec fn str_fits(s: Seq<char>) -> bool {
    encode_utf8(s).len() <= u64::MAX
}

/// The bytes of a string.
pub open spec fn enc_str(s: Seq<char>) -> Seq<u8> {
    enc_u64(encode_utf8(s).len() as u64) + encode_utf8(s)
}

/// A string is read only where the bytes that its length announces are there
/// and are UTF-8.
pub open spec fn parse_str(b: Seq<u8>) -> Option<(Seq<char>, Seq<u8>)> {
    match parse_u64(b) {
        None => None,
        Some((n, rest)) => if n <= rest.len() && valid_utf8(rest.subrange(0, n as int)) {
            Some((decode_utf8(rest.subrange(0, n as int)), rest.skip(n as int)))
        } else {
            None
        },
    }
}

/// Reading the bytes of a string gives it back, whatever follows.
pub proof fn lemma_parse_enc_str(s: Seq<char>, rest: Seq<u8>)
    requires
        str_fits(s),
    ensures
        parse_str(enc_str(s) + rest) == Some((s, rest)),
{
    let body = encode_utf8(s);
    let n = body.len() as u64;
    assert(enc_str(s) + rest =~= enc_u64(n) + (body + rest));
    lemma_parse_enc_u64(n, body + rest);
    assert((body + rest).subrange(0, n as int) =~= body);
    assert((body + rest).skip(n as int) =~= rest);
    encode_utf8_valid_utf8(s);
    encode_utf8_decode_utf8(s);
}

/// What was read as a string stands written at the front.
pub proof fn lemma_enc_parse_str(b: Seq<u8>)
    requires
        parse_str(b) is Some,
    ensures
        str_fits((parse_str(b)->0).0),
        b == enc_str((parse_str(b)->0).0) + (parse_str(b)->0).1,
{
    lemma_enc_parse_u64(b);
    let (n, rest) = parse_u64(b)->0;
    let body = rest.subrange(0, n as int);
    decode_utf8_encode_utf8(body);
    assert(rest =~= body + rest.skip(n as int));
    assert(b =~= enc_u64(n) + body + rest.skip(n as int));
}

/// The string whose UTF-8 encoding the bytes are. The body calls
/// `String::from_utf8` of the standard library; that it succeeds exactly on
/// valid UTF-8 and gives the string that the bytes encode is not proved but
/// taken from its documentation.
#[verifier::external_body]
fn string_from_utf8(bytes: Vec<u8>) -> (r: Option<String>)
    ensures
        r is Some <==> valid_utf8(bytes@),
        r matches Some(s) ==> s@ == decode_utf8(bytes@),
{
    String::from_utf8(bytes).ok()
}

/// Appends the bytes of a string.
pub fn put_str(out: &mut Vec<u8>, s: &str)
    ensures
        final(out)@ == old(out)@ + enc_str(s@),
        str_fits(s@),
{
    let bytes = s.as_bytes();
    put_u64(out, bytes.len() as u64);
    append_bytes(out, bytes);
    proof {
        assert(out@ =~= old(out)@ + enc_str(s@));
    }
}

/// Reads a string at `at` and gives it with the position behind it.
pub fn take_str(b: &[u8], at: usize) -> (r: Option<(String, usize)>)
    requires
        at <= b@.len(),
    ensures
        match r {
            Some((s, end)) => at <= end <= b@.len() && parse_str(b@.skip(at as int)) == Some(
                (s@, b@.skip(end as int)),
            ),
            None => parse_str(b@.skip(at as int)) is None,
        },
{
    let (n, start) = match take_u64(b, at) {
        Some(p) => p,
        None => { return None; },
    };
    if n > (b.len() - start) as u64 {
        return None;
    }
    let len = n as usize;
    let body = slice_to_vec(slice_subrange(b, start, start + len));
    proof {
        assert(b@.skip(start as int).subrange(0, n as int) =~= b@.subrange(
            start as int,
            start + len,
        ));
        assert(b@.skip(start as int).skip(n as int) =~= b@.skip(start + len));
    }
    match string_from_utf8(body) {
        Some(s) => Some((s, start + len)),
        None => None,
    }
}

// ---------------------------------------------------------------------- lists

/// The encodings of the items, one after the other.
pub open spec fn enc_items<T>(items: Seq<T>, enc: spec_fn(T) -> Seq<u8>) -> Seq<u8>
    decreases items.len(),
{
    if items.len() == 0 {
        Seq::empty()
    } else {
        enc(items[0]) + enc_items(items.drop_first(), enc)
    }
}

/// Reads `n` items off the front of `s`.
pub open spec fn parse_items<T>(
    s: Seq<u8>,
    n: nat,
    parse: spec_fn(Seq<u8>) -> Option<(T, Seq<u8>)>,
) -> Option<(Seq<T>, Seq<u8>)>
    decreases n,
{
    if n == 0 {
        Some((Seq::empty(), s))
    } else {
        match parse(s) {
            None => None,
            Some((x, rest)) => match parse_items(rest, (n - 1) as nat, parse) {
                None => None,
                Some((xs, rest2)) => Some((seq![x] + xs, rest2)),
            },
        }
    }
}

/// One more item at the end adds its encoding at the end.
pub proof fn lemma_enc_items_push<T>(items: Seq<T>, x: T, enc: spec_fn(T) -> Seq<u8>)
    ensures
        enc_items(items.push(x), enc) == enc_items(items, enc) + enc(x),
    decreases items.len(),
{
    if items.len() == 0 {
        assert(items.push(x).drop_first() =~= Seq::<T>::empty());
        assert(enc_items(items.push(x).drop_first(), enc) =~= Seq::<u8>::empty());
        assert(items.push(x)[0] == x);
        assert(enc_items(items.push(x), enc) =~= enc_items(items, enc) + enc(x));
    } else {
        assert(items.push(x).drop_first() =~= items.drop_first().push(x));
        lemma_enc_items_push(items.drop_first(), x, enc);
        assert(enc_items(items.push(x), enc) =~= enc_items(items, enc) + enc(x));
    }
}

/// Reading one item more.
pub proof fn lemma_parse_items_step<T>(
    s: Seq<u8>,
    n: nat,
    parse: spec_fn(Seq<u8>) -> Option<(T, Seq<u8>)>,
)
    ensures
        match parse_items(s, n, parse) {
            None => parse_items(s, n + 1, parse) is None,
            Some((xs, rest)) => xs.len() == n && match parse(rest) {
                None => parse_items(s, n + 1, parse) is None,
                Some((x, rest2)) => parse_items(s, n + 1, parse) == Some((xs.push(x), rest2)),
            },
        },
    decreases n,
{
    reveal_with_fuel(parse_items, 3);
    if n == 0 {
        match parse(s) {
            None => {},
            Some((x, rest2)) => {
                assert(parse_items(rest2, 0, parse) == Some((Seq::<T>::empty(), rest2)));
                assert(seq![x] + Seq::<T>::empty() =~= Seq::<T>::empty().push(x));
            },
        }
    } else {
        match parse(s) {
            None => {},
            Some((x0, rest0)) => {
                lemma_parse_items_step(rest0, (n - 1) as nat, parse);
                match parse_items(rest0, (n - 1) as nat, parse) {
                    None => {},
                    Some((xs, rest)) => {
                        match parse(rest) {
                            None => {},
                            Some((x, rest2)) => {
                                assert(seq![x0] + xs.push(x) =~= (seq![x0] + xs).push(x));
                            },
                        }
                    },
                }
            },
        }
    }
}

/// Where fewer items cannot be read, more cannot either.
pub proof fn lemma_parse_items_none<T>(
    s: Seq<u8>,
    k: nat,
    n: nat,
    parse: spec_fn(Seq<u8>) -> Option<(T, Seq<u8>)>,
)
    requires
        parse_items(s, k, parse) is None,
        k <= n,
    ensures
        parse_items(s, n, parse) is None,
    decreases n - k,
{
    if k < n {
        lemma_parse_items_step(s, k, parse);
        lemma_parse_items_none(s, k + 1, n, parse);
    }
}

/// Reading gives back the items that were written, where each item does.
pub proof fn lemma_parse_enc_items<T>(
    items: Seq<T>,
    enc: spec_fn(T) -> Seq<u8>,
    parse: spec_fn(Seq<u8>) -> Option<(T, Seq<u8>)>,
    rest: Seq<u8>,
)
    requires
        forall|i: int, r: Seq<u8>|
            0 <= i < items.len() ==> #[trigger] parse(enc(items[i]) + r) == Some((items[i], r)),
    ensures
        parse_items(enc_items(items, enc) + rest, items.len(), parse) == Some((items, rest)),
    decreases items.len(),
{
    if items.len() == 0 {
        assert(enc_items(items, enc) + rest =~= rest);
        assert(items =~= Seq::<T>::empty());
    } else {
        let tail = items.drop_first();
        let after = enc_items(tail, enc) + rest;
        assert(enc_items(items, enc) + rest =~= enc(items[0]) + after);
        assert(parse(enc(items[0]) + after) == Some((items[0], after)));
        assert forall|i: int, r: Seq<u8>| 0 <= i < tail.len() implies #[trigger] parse(
            enc(tail[i]) + r,
        ) == Some((tail[i], r)) by {
            assert(tail[i] == items[i + 1]);
        }
        lemma_parse_enc_items(tail, enc, parse, rest);
        assert(seq![items[0]] + tail =~= items);
    }
}

/// What was read is what stands written, and each item read is valid, where
/// that holds of one item.
pub proof fn lemma_enc_parse_items<T>(
    s: Seq<u8>,
    n: nat,
    enc: spec_fn(T) -> Seq<u8>,
    parse: spec_fn(Seq<u8>) -> Option<(T, Seq<u8>)>,
    valid: spec_fn(T) -> bool,
)
    requires
        parse_items(s, n, parse) is Some,
        forall|b: Seq<u8>| #[trigger]
            parse(b) is Some ==> valid((parse(b)->0).0) && b == enc((parse(b)->0).0) + (parse(
                b,
            )->0).1,
    ensures
        (parse_items(s, n, parse)->0).0.len() == n,
        forall|i: int| 0 <= i < n ==> valid(#[trigger] (parse_items(s, n, parse)->0).0[i]),
        s == enc_items((parse_items(s, n, parse)->0).0, enc) + (parse_items(s, n, parse)->0).1,
    decreases n,
{
    if n == 0 {
        assert(s =~= enc_items(Seq::<T>::empty(), enc) + s);
    } else {
        assert(parse(s) is Some);
        let (x, rest) = parse(s)->0;
        lemma_enc_parse_items(rest, (n - 1) as nat, enc, parse, valid);
        let (xs, rest2) = parse_items(rest, (n - 1) as nat, parse)->0;
        let all = seq![x] + xs;
        assert(parse_items(s, n, parse) == Some((all, rest2)));
        assert(all.drop_first() =~= xs);
        assert(all[0] == x);
        assert(s =~= enc_items(all, enc) + rest2);
        assert forall|i: int| 0 <= i < n implies valid(#[trigger] all[i]) by {
            if i > 0 {
                assert(all[i] == xs[i - 1]);
            }
        }
    }
}

} // verus!
