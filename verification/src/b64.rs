//! A small base64 codec: tip and pattern pixels travel in JSON (presets, the
//! UI's file uploads). Encoding is standard base64 with `=` padding; decoding
//! accepts both the standard and the URL-safe alphabet and skips anything
//! that is not a base64 digit (padding, whitespace, a stray prefix).
use vstd::prelude::*;
use vstd::string::StringSliceAdditionalSpecFns;

use crate::strings::{find_bytes, occurs_at};

verus! {

/// The base64 digit of a 6-bit value `v` (`0 <= v < 64`), as an ASCII byte.
pub open spec fn digit_byte(v: int) -> u8 {
    if v < 26 {
        (65 + v) as u8
    } else if v < 52 {
        (97 + v - 26) as u8
    } else if v < 62 {
        (48 + v - 52) as u8
    } else if v == 62 {
        43u8
    } else {
        47u8
    }
}

/// The padding byte `=`.
pub open spec fn pad_byte() -> u8 {
    61u8
}

/// Byte `j` of `data`, or 0 past its end (the implicit zero padding of the
/// last group).
pub open spec fn byte_or_zero(data: Seq<u8>, j: int) -> int {
    if 0 <= j < data.len() {
        data[j] as int
    } else {
        0
    }
}

/// The four 6-bit values of the group that starts at byte `3 * g`.
pub open spec fn sextet(data: Seq<u8>, g: int, k: int) -> int {
    let b0 = byte_or_zero(data, 3 * g);
    let b1 = byte_or_zero(data, 3 * g + 1);
    let b2 = byte_or_zero(data, 3 * g + 2);
    if k == 0 {
        b0 / 4
    } else if k == 1 {
        (b0 % 4) * 16 + b1 / 16
    } else if k == 2 {
        (b1 % 16) * 4 + b2 / 64
    } else {
        b2 % 64
    }
}

/// Character `i` of the encoding of `data`: group `i / 4`, position `i % 4`;
/// the last group pads the positions no input byte reaches with `=`.
pub open spec fn encoded_at(data: Seq<u8>, i: int) -> u8 {
    let g = i / 4;
    let k = i % 4;
    if k == 2 && 3 * g + 1 >= data.len() {
        pad_byte()
    } else if k == 3 && 3 * g + 2 >= data.len() {
        pad_byte()
    } else {
        digit_byte(sextet(data, g, k))
    }
}

/// Number of 3-byte groups (the last one possibly short).
pub open spec fn group_count(n: int) -> int {
    (n + 2) / 3
}

/// The base64 encoding of `data`, as ASCII bytes.
pub open spec fn spec_encode(data: Seq<u8>) -> Seq<u8> {
    Seq::new((4 * group_count(data.len() as int)) as nat, |i: int| encoded_at(data, i))
}

/// The characters of an ASCII byte sequence.
pub open spec fn ascii_chars(bytes: Seq<u8>) -> Seq<char> {
    bytes.map_values(|b: u8| b as char)
}

/// `std::string::String::from_utf8` on bytes that are all ASCII. The
/// contract claims what the standard library documents: ASCII bytes are
/// valid UTF-8, so the call succeeds and the string holds one character per
/// byte, with that byte's code.
#[verifier::external_body]
fn ascii_string(bytes: Vec<u8>) -> (res: String)
    requires
        forall|i: int| 0 <= i < bytes@.len() ==> bytes@[i] < 128,
    ensures
        res@ == ascii_chars(bytes@),
{
    match String::from_utf8(bytes) {
        Ok(text) => text,
        Err(_) => String::new(),
    }
}

/// The digit of the 6-bit value `v`.
fn digit(v: u8) -> (b: u8)
    requires
        v < 64,
    ensures
        b == digit_byte(v as int),
        b < 128,
{
    if v < 26 {
        65 + v
    } else if v < 52 {
        97 + v - 26
    } else if v < 62 {
        48 + v - 52
    } else if v == 62 {
        43
    } else {
        47
    }
}

/// The base64 encoding of `data`, as ASCII bytes.
pub fn encode_bytes(data: &[u8]) -> (out: Vec<u8>)
    ensures
        out@ == spec_encode(data@),
{
    let n = data.len();
    let mut out: Vec<u8> = Vec::new();
    // `j` is where group `g` starts, or `n` once the groups are done.
    let mut j: usize = 0;
    let ghost mut g: int = 0;
    while j < n
        invariant
            n == data@.len(),
            0 <= g,
            j <= n,
            3 * g <= n ==> j == 3 * g,
            3 * g > n ==> j == n,
            g == 0 || 3 * (g - 1) < n,
            out@.len() == 4 * g,
            forall|i: int| 0 <= i < 4 * g ==> out@[i] == encoded_at(data@, i),
        decreases n - j,
    {
        let b0 = data[j];
        let b1 = if j + 1 < n { data[j + 1] } else { 0 };
        let b2 = if j + 2 < n { data[j + 2] } else { 0 };
        proof {
            assert(j == 3 * g);
            assert(b0 == byte_or_zero(data@, 3 * g));
            assert(b1 == byte_or_zero(data@, 3 * g + 1));
            assert(b2 == byte_or_zero(data@, 3 * g + 2));
        }
        let c0 = digit(b0 / 4);
        let c1 = digit((b0 % 4) * 16 + b1 / 16);
        let c2 = if j + 1 < n { digit((b1 % 16) * 4 + b2 / 64) } else { 61 };
        let c3 = if j + 2 < n { digit(b2 % 64) } else { 61 };
        let ghost before = out@;
        out.push(c0);
        out.push(c1);
        out.push(c2);
        out.push(c3);
        proof {
            let base = 4 * g;
            assert(base / 4 == g && base % 4 == 0);
            assert((base + 1) / 4 == g && (base + 1) % 4 == 1);
            assert((base + 2) / 4 == g && (base + 2) % 4 == 2);
            assert((base + 3) / 4 == g && (base + 3) % 4 == 3);
            assert forall|i: int| 0 <= i < 4 * (g + 1) implies out@[i] == encoded_at(data@, i) by {
                if i < base {
                    assert(out@[i] == before[i]);
                }
            }
            g = g + 1;
        }
        if n - j > 3 {
            j = j + 3;
        } else {
            j = n;
        }
    }
    proof {
        assert(g == group_count(n as int));
        assert(out@ =~= spec_encode(data@));
    }
    out
}

/// Standard base64 of `data`, with `=` padding.
pub fn encode(data: &[u8]) -> (text: String)
    ensures
        text@ == ascii_chars(spec_encode(data@)),
{
    let bytes = encode_bytes(data);
    proof {
        assert forall|i: int| 0 <= i < bytes@.len() implies bytes@[i] < 128 by {
            let g = i / 4;
            let k = i % 4;
            assert(0 <= sextet(data@, g, k) < 64);
        }
    }
    ascii_string(bytes)
}

/// The 6-bit value of a base64 digit of either alphabet (`+`/`-` are 62,
/// `/`/`_` are 63); `None` for any other byte.
pub open spec fn digit_value(c: u8) -> Option<u32> {
    if 65 <= c <= 90 {
        Some((c - 65) as u32)
    } else if 97 <= c <= 122 {
        Some((c - 97 + 26) as u32)
    } else if 48 <= c <= 57 {
        Some((c - 48 + 52) as u32)
    } else if c == 43 || c == 45 {
        Some(62u32)
    } else if c == 47 || c == 95 {
        Some(63u32)
    } else {
        None
    }
}

/// The decoder's state: the bit accumulator, how many of its low bits are
/// not yet emitted, and the bytes emitted so far.
pub type DecodeState = (u32, u32, Seq<u8>);

/// One input byte: a digit shifts six bits in and emits a byte as soon as
/// eight are pending; anything else is skipped.
pub open spec fn decode_step(st: DecodeState, c: u8) -> DecodeState {
    match digit_value(c) {
        None => st,
        Some(v) => {
            let acc = (st.0 << 6u32) | v;
            let bits = st.1 + 6;
            if bits >= 8 {
                let rest = (bits - 8) as u32;
                (acc, rest, st.2.push((acc >> rest) as u8))
            } else {
                (acc, bits as u32, st.2)
            }
        },
    }
}

/// The decoder's state after reading `s` from the start.
pub open spec fn decode_state(s: Seq<u8>) -> DecodeState
    decreases s.len(),
{
    if s.len() == 0 {
        (0u32, 0u32, Seq::empty())
    } else {
        decode_step(decode_state(s.drop_last()), s.last())
    }
}

/// The bytes that decoding `s` yields.
pub open spec fn spec_decode(s: Seq<u8>) -> Seq<u8> {
    decode_state(s).2
}

/// The pending-bit count stays below a byte.
proof fn lemma_decode_bits(s: Seq<u8>)
    ensures
        decode_state(s).1 < 8,
        decode_state(s).1 % 2 == 0,
    decreases s.len(),
{
    if s.len() > 0 {
        lemma_decode_bits(s.drop_last());
    }
}

/// The value of digit `c`, if it is one.
fn digit_of(c: u8) -> (v: Option<u32>)
    ensures
        v == digit_value(c),
{
    if 65 <= c && c <= 90 {
        Some((c - 65) as u32)
    } else if 97 <= c && c <= 122 {
        Some((c - 97 + 26) as u32)
    } else if 48 <= c && c <= 57 {
        Some((c - 48 + 52) as u32)
    } else if c == 43 || c == 45 {
        Some(62)
    } else if c == 47 || c == 95 {
        Some(63)
    } else {
        None
    }
}

/// Decode `bytes`, skipping anything that is not a base64 digit.
pub fn decode_bytes(bytes: &[u8]) -> (out: Vec<u8>)
    ensures
        out@ == spec_decode(bytes@),
{
    let mut out: Vec<u8> = Vec::new();
    let mut acc: u32 = 0;
    let mut bits: u32 = 0;
    let mut i: usize = 0;
    proof {
        assert(bytes@.take(0) =~= Seq::<u8>::empty());
    }
    while i < bytes.len()
        invariant
            i <= bytes@.len(),
            (acc, bits, out@) == decode_state(bytes@.take(i as int)),
            bits < 8,
        decreases bytes@.len() - i,
    {
        let c = bytes[i];
        proof {
            assert(bytes@.take(i + 1).drop_last() =~= bytes@.take(i as int));
            assert(bytes@.take(i + 1).last() == c);
            lemma_decode_bits(bytes@.take(i + 1));
        }
        match digit_of(c) {
            None => {},
            Some(v) => {
                acc = (acc << 6u32) | v;
                bits = bits + 6;
                if bits >= 8 {
                    bits = bits - 8;
                    out.push((acc >> bits) as u8);
                }
            },
        }
        i = i + 1;
    }
    proof {
        assert(bytes@.take(bytes@.len() as int) =~= bytes@);
    }
    out
}

/// Decode the bytes of `text`, skipping anything that is not a base64 digit
/// (a `data:` prefix must be stripped first).
pub fn decode(text: &str) -> (out: Vec<u8>)
    ensures
        out@ == spec_decode(text.spec_bytes()),
{
    decode_bytes(text.as_bytes())
}

/// The bytes of `base64,`, which ends the header of a `data:` URL.
pub open spec fn base64_marker() -> Seq<u8> {
    seq![98u8, 97u8, 115u8, 101u8, 54u8, 52u8, 44u8]
}

/// The payload of an uploaded file: base64 text, or a `data:` URL whose
/// payload follows the first `base64,`.
pub open spec fn spec_upload_payload(bytes: Seq<u8>) -> Seq<u8> {
    if exists|i: int| occurs_at(bytes, base64_marker(), i) {
        let i = choose|i: int|
            occurs_at(bytes, base64_marker(), i) && forall|j: int|
                0 <= j < i ==> !occurs_at(bytes, base64_marker(), j);
        bytes.skip(i + 7)
    } else {
        bytes
    }
}

/// The bytes of an uploaded file sent as text: the text after the first
/// `base64,` (a `data:` URL) or the whole text, decoded.
pub fn decode_upload(text: &str) -> (out: Vec<u8>)
    ensures
        out@ == spec_decode(spec_upload_payload(text.spec_bytes())),
{
    let bytes = text.as_bytes();
    let marker: Vec<u8> = vec![98u8, 97u8, 115u8, 101u8, 54u8, 52u8, 44u8];
    proof {
        assert(marker@ =~= base64_marker());
    }
    match find_bytes(bytes, marker.as_slice()) {
        Some(i) => {
            proof {
                let ghost b = bytes@;
                let ghost k = choose|k: int|
                    occurs_at(b, base64_marker(), k) && forall|j: int|
                        0 <= j < k ==> !occurs_at(b, base64_marker(), j);
                assert(occurs_at(b, base64_marker(), i as int));
                assert(i + 7 <= b.len());
                if k < i {
                } else if k > i {
                }
                assert(k == i);
            }
            let n = bytes.len();
            assert(i + 7 <= n);
            let (_, rest) = bytes.split_at(i + 7);
            proof {
                assert(rest@ =~= bytes@.skip(i + 7));
            }
            decode_bytes(rest)
        },
        None => decode_bytes(bytes),
    }
}

/// Reading one more byte is one more decoder step.
proof fn lemma_decode_push(s: Seq<u8>, c: u8)
    ensures
        decode_state(s.push(c)) == decode_step(decode_state(s), c),
{
    assert(s.push(c).drop_last() =~= s);
}

/// Every digit decodes back to its value, and the padding is skipped.
proof fn lemma_digit_value(v: int)
    requires
        0 <= v < 64,
    ensures
        digit_value(digit_byte(v)) == Some(v as u32),
        digit_value(pad_byte()) is None,
{
}

/// The bit arithmetic of one group: six bits at a time in, a byte out at
/// each whole byte, whatever the accumulator held before.
proof fn lemma_group_bits(acc: u32, b0: u8, b1: u8, b2: u8)
    ensures
        ({
            let s0 = (b0 / 4) as u32;
            let s1 = ((b0 % 4) * 16 + b1 / 16) as u32;
            let s2 = ((b1 % 16) * 4 + b2 / 64) as u32;
            let s3 = (b2 % 64) as u32;
            let a1 = (acc << 6u32) | s0;
            let a2 = (a1 << 6u32) | s1;
            let a3 = (a2 << 6u32) | s2;
            let a4 = (a3 << 6u32) | s3;
            &&& (a2 >> 4u32) as u8 == b0
            &&& (a3 >> 2u32) as u8 == b1
            &&& (a4 >> 0u32) as u8 == b2
        }),
{
    assert(({
        let s0 = (b0 / 4) as u32;
        let s1 = ((b0 % 4) * 16 + b1 / 16) as u32;
        let s2 = ((b1 % 16) * 4 + b2 / 64) as u32;
        let s3 = (b2 % 64) as u32;
        let a1 = (acc << 6u32) | s0;
        let a2 = (a1 << 6u32) | s1;
        let a3 = (a2 << 6u32) | s2;
        let a4 = (a3 << 6u32) | s3;
        &&& (a2 >> 4u32) as u8 == b0
        &&& (a3 >> 2u32) as u8 == b1
        &&& (a4 >> 0u32) as u8 == b2
    })) by (bit_vector);
}

/// The encoding of the first `g` groups, when they are all whole, decodes to
/// the first `3 * g` bytes with no bit left pending.
proof fn lemma_whole_groups(d: Seq<u8>, g: int)
    requires
        0 <= g,
        3 * g <= d.len(),
    ensures
        decode_state(spec_encode(d).take(4 * g)).1 == 0,
        decode_state(spec_encode(d).take(4 * g)).2 == d.take(3 * g),
    decreases g,
{
    let e = spec_encode(d);
    if g == 0 {
        assert(e.take(0) =~= Seq::<u8>::empty());
        assert(d.take(0) =~= Seq::<u8>::empty());
    } else {
        let h = g - 1;
        lemma_whole_groups(d, h);
        let st = decode_state(e.take(4 * h));
        let b0 = d[3 * h];
        let b1 = d[3 * h + 1];
        let b2 = d[3 * h + 2];
        assert(4 * h / 4 == h && (4 * h) % 4 == 0);
        assert((4 * h + 1) / 4 == h && (4 * h + 1) % 4 == 1);
        assert((4 * h + 2) / 4 == h && (4 * h + 2) % 4 == 2);
        assert((4 * h + 3) / 4 == h && (4 * h + 3) % 4 == 3);
        let s0 = sextet(d, h, 0);
        let s1 = sextet(d, h, 1);
        let s2 = sextet(d, h, 2);
        let s3 = sextet(d, h, 3);
        assert(e[4 * h] == digit_byte(s0));
        assert(e[4 * h + 1] == digit_byte(s1));
        assert(e[4 * h + 2] == digit_byte(s2));
        assert(e[4 * h + 3] == digit_byte(s3));
        lemma_digit_value(s0);
        lemma_digit_value(s1);
        lemma_digit_value(s2);
        lemma_digit_value(s3);
        let t1 = e.take(4 * h).push(e[4 * h]);
        let t2 = t1.push(e[4 * h + 1]);
        let t3 = t2.push(e[4 * h + 2]);
        let t4 = t3.push(e[4 * h + 3]);
        assert(t4 =~= e.take(4 * g));
        lemma_decode_push(e.take(4 * h), e[4 * h]);
        lemma_decode_push(t1, e[4 * h + 1]);
        lemma_decode_push(t2, e[4 * h + 2]);
        lemma_decode_push(t3, e[4 * h + 3]);
        lemma_group_bits(st.0, b0, b1, b2);
        assert(d.take(3 * g) =~= d.take(3 * h).push(b0).push(b1).push(b2));
    }
}

/// Decoding what `encode` produced gives the original bytes back.
pub proof fn law_decode_inverts_encode(data: Seq<u8>)
    ensures
        spec_decode(spec_encode(data)) == data,
{
    let n = data.len() as int;
    let g = n / 3;
    let r = n % 3;
    let e = spec_encode(data);
    lemma_whole_groups(data, g);
    if r == 0 {
        assert(e.take(4 * g) =~= e);
        assert(data.take(3 * g) =~= data);
    } else {
        let st = decode_state(e.take(4 * g));
        assert(group_count(n) == g + 1);
        assert(4 * g / 4 == g && (4 * g) % 4 == 0);
        assert((4 * g + 1) / 4 == g && (4 * g + 1) % 4 == 1);
        assert((4 * g + 2) / 4 == g && (4 * g + 2) % 4 == 2);
        assert((4 * g + 3) / 4 == g && (4 * g + 3) % 4 == 3);
        let b0 = data[3 * g];
        let b1: u8 = if r == 2 { data[3 * g + 1] } else { 0 };
        let s0 = sextet(data, g, 0);
        let s1 = sextet(data, g, 1);
        let s2 = sextet(data, g, 2);
        lemma_digit_value(s0);
        lemma_digit_value(s1);
        lemma_digit_value(s2);
        let t1 = e.take(4 * g).push(e[4 * g]);
        let t2 = t1.push(e[4 * g + 1]);
        let t3 = t2.push(e[4 * g + 2]);
        let t4 = t3.push(e[4 * g + 3]);
        assert(t4 =~= e);
        lemma_decode_push(e.take(4 * g), e[4 * g]);
        lemma_decode_push(t1, e[4 * g + 1]);
        lemma_decode_push(t2, e[4 * g + 2]);
        lemma_decode_push(t3, e[4 * g + 3]);
        lemma_group_bits(st.0, b0, b1, 0u8);
        if r == 1 {
            assert(data =~= data.take(3 * g).push(b0));
        } else {
            assert(data =~= data.take(3 * g).push(b0).push(b1));
        }
    }
}

/// The same law on the string `encode` returns: decoding its bytes gives
/// the original bytes back.
pub proof fn law_decode_inverts_encode_text(data: Seq<u8>, text: &str)
    requires
        text@ == ascii_chars(spec_encode(data)),
    ensures
        spec_decode(text.spec_bytes()) == data,
{
    let e = spec_encode(data);
    assert forall|i: int| 0 <= i < e.len() implies e[i] < 128 by {
        assert(0 <= sextet(data, i / 4, i % 4) < 64);
    }
    assert(vstd::utf8::is_ascii_chars(text@));
    vstd::utf8::is_ascii_chars_encode_utf8(text@);
    assert(text.spec_bytes() =~= e);
    law_decode_inverts_encode(data);
}

/// Whether byte `c` is a base64 digit of either alphabet.
pub open spec fn is_digit(c: u8) -> bool {
    digit_value(c) is Some
}

/// The decoder's state depends on the digits alone.
proof fn lemma_decode_state_digits(s: Seq<u8>)
    ensures
        decode_state(s) == decode_state(s.filter(|c: u8| is_digit(c))),
    decreases s.len(),
{
    reveal(Seq::filter);
    if s.len() > 0 {
        let init = s.drop_last();
        let c = s.last();
        lemma_decode_state_digits(init);
        let f = init.filter(|c: u8| is_digit(c));
        if is_digit(c) {
            assert(s.filter(|c: u8| is_digit(c)) == f.push(c));
            assert(f.push(c).drop_last() =~= f);
        } else {
            assert(s.filter(|c: u8| is_digit(c)) == f);
        }
    }
}

/// Decoding skips everything that is not a base64 digit: two texts with the
/// same digits in the same order (whatever else stands between them, such
/// as `=`, spaces or line breaks) decode to the same bytes.
pub proof fn law_decode_reads_digits_only(s: Seq<u8>, t: Seq<u8>)
    requires
        s.filter(|c: u8| is_digit(c)) == t.filter(|c: u8| is_digit(c)),
    ensures
        spec_decode(s) == spec_decode(t),
{
    lemma_decode_state_digits(s);
    lemma_decode_state_digits(t);
}

/// Whether byte `c` is a digit of the standard alphabet.
pub open spec fn std_digit(c: u8) -> bool {
    digit_value(c) is Some && c != 45 && c != 95
}

/// The value of a digit of either alphabet (0 for any other byte).
pub open spec fn value_of(c: u8) -> int {
    match digit_value(c) {
        Some(v) => v as int,
        None => 0,
    }
}

/// `s` is canonical standard base64 ending in `p` padding bytes: groups of
/// four, standard digits, then `p` (at most two) `=`, and the bits of the
/// last digit that no byte uses are zero.
pub open spec fn canonical_pads(s: Seq<u8>, p: int) -> bool {
    &&& 0 <= p <= 2
    &&& s.len() % 4 == 0
    &&& p > 0 ==> s.len() >= 4
    &&& forall|i: int| 0 <= i < s.len() - p ==> std_digit(#[trigger] s[i])
    &&& forall|i: int| s.len() - p <= i < s.len() ==> #[trigger] s[i] == pad_byte()
    &&& p == 2 ==> value_of(s[s.len() - 3]) % 16 == 0
    &&& p == 1 ==> value_of(s[s.len() - 2]) % 4 == 0
}

/// `s` is canonical standard base64 (see [`canonical_pads`]).
pub open spec fn is_canonical(s: Seq<u8>) -> bool {
    exists|p: int| canonical_pads(s, p)
}

/// Byte `j` of what the digits of `s` hold: three bytes per four digits.
pub open spec fn group_byte(s: Seq<u8>, j: int) -> int {
    let g = j / 3;
    let v0 = value_of(s[4 * g]);
    let v1 = value_of(s[4 * g + 1]);
    let v2 = value_of(s[4 * g + 2]);
    let v3 = value_of(s[4 * g + 3]);
    if j % 3 == 0 {
        v0 * 4 + v1 / 16
    } else if j % 3 == 1 {
        (v1 % 16) * 16 + v2 / 4
    } else {
        (v2 % 4) * 64 + v3
    }
}

/// The bytes the digits of a canonical text ending in `p` pads hold.
pub open spec fn digit_bytes(s: Seq<u8>, p: int) -> Seq<u8> {
    Seq::new((3 * (s.len() / 4) - p) as nat, |j: int| group_byte(s, j) as u8)
}

/// A standard digit is the digit of its value.
proof fn lemma_std_digit(c: u8)
    requires
        std_digit(c),
    ensures
        0 <= value_of(c) < 64,
        digit_byte(value_of(c)) == c,
{
}

/// Each byte of a canonical text is the byte the encoding of its digits'
/// bytes has there.
proof fn lemma_canonical_char(s: Seq<u8>, p: int, i: int)
    requires
        canonical_pads(s, p),
        0 <= i < s.len(),
    ensures
        encoded_at(digit_bytes(s, p), i) == s[i],
{
    let d = digit_bytes(s, p);
    let big = s.len() / 4;
    let n = d.len() as int;
    let g = i / 4;
    let k = i % 4;
    assert(n == 3 * big - p);
    assert(0 <= g < big);
    assert(i == 4 * g + k);
    let last = g == big - 1;
    if k == 2 && 3 * g + 1 >= n {
        assert(last && p == 2);
    } else if k == 3 && 3 * g + 2 >= n {
        assert(last && p >= 1);
    } else {
        assert(4 * g + 1 < s.len() - p);
        lemma_std_digit(s[4 * g]);
        lemma_std_digit(s[4 * g + 1]);
        let v0 = value_of(s[4 * g]);
        let v1 = value_of(s[4 * g + 1]);
        let v2 = value_of(s[4 * g + 2]);
        let v3 = value_of(s[4 * g + 3]);
        assert((3 * g) / 3 == g && (3 * g) % 3 == 0);
        assert((3 * g + 1) / 3 == g && (3 * g + 1) % 3 == 1);
        assert((3 * g + 2) / 3 == g && (3 * g + 2) % 3 == 2);
        let b0 = byte_or_zero(d, 3 * g);
        let b1 = byte_or_zero(d, 3 * g + 1);
        let b2 = byte_or_zero(d, 3 * g + 2);
        assert(3 * g < n);
        assert(b0 == v0 * 4 + v1 / 16);
        let has1 = 3 * g + 1 < n;
        let has2 = 3 * g + 2 < n;
        if has1 {
            assert(4 * g + 2 < s.len() - p);
            lemma_std_digit(s[4 * g + 2]);
            assert(b1 == (v1 % 16) * 16 + v2 / 4);
        } else {
            assert(last && p == 2);
            assert(s.len() - 3 == 4 * g + 1);
            assert(v1 % 16 == 0);
            assert(b1 == 0);
        }
        if has2 {
            assert(4 * g + 3 < s.len() - p);
            lemma_std_digit(s[4 * g + 3]);
            assert(b2 == (v2 % 4) * 64 + v3);
        } else {
            assert(last && p >= 1);
            assert(b2 == 0);
            if p == 1 {
                assert(s.len() - 2 == 4 * g + 2);
                assert(v2 % 4 == 0);
            }
        }
        if k == 0 {
            assert(sextet(d, g, 0) == v0);
        } else if k == 1 {
            assert(sextet(d, g, 1) == v1);
        } else if k == 2 {
            assert(has1);
            assert(4 * g + 2 < s.len() - p);
            lemma_std_digit(s[4 * g + 2]);
            assert(sextet(d, g, 2) == v2);
        } else {
            assert(has2);
            assert(sextet(d, g, 3) == v3);
        }
    }
}

/// A canonical text is the encoding of the bytes its digits hold.
proof fn lemma_canonical_is_an_encoding(s: Seq<u8>, p: int)
    requires
        canonical_pads(s, p),
    ensures
        spec_encode(digit_bytes(s, p)) == s,
{
    let d = digit_bytes(s, p);
    let big = s.len() / 4;
    assert(group_count(d.len() as int) == big);
    assert forall|i: int| 0 <= i < s.len() implies spec_encode(d)[i] == s[i] by {
        lemma_canonical_char(s, p, i);
    }
    assert(spec_encode(d) =~= s);
}

/// A canonical text comes back unchanged from decoding and encoding again:
/// standard digits in groups of four, at most two `=` to end, and zero in
/// the bits of the last digit that no byte uses (`Zg==`, `Zm8=`, `Zm9v`).
pub proof fn law_encode_inverts_decode_of_canonical(s: Seq<u8>)
    requires
        is_canonical(s),
    ensures
        spec_encode(spec_decode(s)) == s,
{
    let p = choose|p: int| canonical_pads(s, p);
    lemma_canonical_is_an_encoding(s, p);
    law_decode_inverts_encode(digit_bytes(s, p));
}

} // verus!
