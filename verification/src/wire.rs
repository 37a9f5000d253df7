//! Byte-level encoding primitives and the length-prefixed framing.
//!
//! Frames are little-endian: a 4-byte payload length, at most 128 MiB,
//! then the payload. The primitives here also serve the persistence
//! encoding: integers little-endian, strings as a character count
//! followed by one 32-bit code point per character.

use vstd::prelude::*;
use vstd::bytes::{
    lemma_auto_spec_u32_to_from_le_bytes, lemma_auto_spec_u64_to_from_le_bytes,
    spec_u128_from_le_bytes, spec_u128_to_le_bytes, spec_u32_from_le_bytes, spec_u32_to_le_bytes,
    spec_u64_from_le_bytes, spec_u64_to_le_bytes, u128_from_le_bytes, u128_to_le_bytes,
    u32_from_le_bytes, u32_to_le_bytes, u64_from_le_bytes, u64_to_le_bytes,
};
use vstd::string::StrSliceExecFns;

use crate::errors::CoreError;

verus! {

broadcast use vstd::seq::group_seq_axioms, vstd::std_specs::vec::group_vec_axioms, vstd::utf8::char_u32_cast, vstd::utf8::char_is_scalar;

/// The largest payload a frame may carry: 128 MiB.
pub const MAX_FRAME_LEN: usize = 134217728;

/// Relies on `char::from_u32`: a `char` for every Unicode scalar value,
/// that is every code point except the surrogate range, and nothing
/// else; the scalar value of the result is the argument.
pub assume_specification[ char::from_u32 ](v: u32) -> (r: Option<char>)
    ensures
        r is Some <==> (v < 0xD800 || (0xE000 <= v && v <= 0x10FFFF)),
        r is Some ==> (r.unwrap() as u32) == v,
;

/// Relies on `String::push`: appends one character.
pub assume_specification[ String::push ](s: &mut String, c: char)
    ensures
        final(s)@ == old(s)@.push(c),
;

/// Whether a code point is a Unicode scalar value, so a `char`.
pub open spec fn valid_scalar(v: u32) -> bool {
    v < 0xD800 || (0xE000 <= v && v <= 0x10FFFF)
}

/// Append one byte.
pub fn put_u8(out: &mut Vec<u8>, x: u8)
    ensures
        final(out)@ == old(out)@ + seq![x],
{
    out.push(x);
    proof {
        assert(final(out)@ =~= old(out)@ + seq![x]);
    }
}

/// Append a `u32`, little-endian.
pub fn put_u32(out: &mut Vec<u8>, x: u32)
    ensures
        final(out)@ == old(out)@ + spec_u32_to_le_bytes(x),
{
    let bytes = u32_to_le_bytes(x);
    append_bytes(out, &bytes);
}

/// Append a `u64`, little-endian.
pub fn put_u64(out: &mut Vec<u8>, x: u64)
    ensures
        final(out)@ == old(out)@ + spec_u64_to_le_bytes(x),
{
    let bytes = u64_to_le_bytes(x);
    append_bytes(out, &bytes);
}

/// Append a `u128`, little-endian.
pub fn put_u128(out: &mut Vec<u8>, x: u128)
    ensures
        final(out)@ == old(out)@ + spec_u128_to_le_bytes(x),
{
    let bytes = u128_to_le_bytes(x);
    append_bytes(out, &bytes);
}

/// Append all of `bytes`.
pub fn append_bytes(out: &mut Vec<u8>, bytes: &Vec<u8>)
    ensures
        final(out)@ == old(out)@ + bytes@,
{
    let mut i: usize = 0;
    while i < bytes.len()
        invariant
            i <= bytes.len(),
            out@ == old(out)@ + bytes@.take(i as int),
        decreases bytes.len() - i,
    {
        let ghost pre = out@;
        out.push(bytes[i]);
        proof {
            assert(out@ =~= old(out)@ + bytes@.take(i as int + 1));
        }
        i += 1;
    }
    proof {
        assert(old(out)@ + bytes@.take(bytes@.len() as int) =~= old(out)@ + bytes@);
    }
}

/// Read one byte.
pub fn read_u8(data: &Vec<u8>, pos: usize) -> (r: Option<(u8, usize)>)
    ensures
        pos + 1 <= data@.len() ==> r == Option::Some((data@[pos as int], (pos + 1) as usize)),
        pos + 1 > data@.len() ==> r is None,
{
    if pos < data.len() {
        Some((data[pos], pos + 1))
    } else {
        None
    }
}

/// Read a `u32`, little-endian.
pub fn read_u32(data: &Vec<u8>, pos: usize) -> (r: Option<(u32, usize)>)
    ensures
        pos + 4 <= data@.len() ==> r == Option::Some(
            (spec_u32_from_le_bytes(data@.subrange(pos as int, pos + 4)), (pos + 4) as usize),
        ),
        pos + 4 > data@.len() ==> r is None,
{
    if data.len() >= 4 && pos <= data.len() - 4 {
        let mut bytes: Vec<u8> = Vec::new();
        let mut i: usize = 0;
        while i < 4
            invariant
                i <= 4,
                pos + 4 <= data@.len(),
                data@.len() <= usize::MAX,
                bytes@ == data@.subrange(pos as int, pos + i),
            decreases 4 - i,
        {
            bytes.push(data[pos + i]);
            proof {
                assert(bytes@ =~= data@.subrange(pos as int, pos + i + 1));
            }
            i += 1;
        }
        let x = u32_from_le_bytes(bytes.as_slice());
        Some((x, pos + 4))
    } else {
        None
    }
}

/// Read a `u64`, little-endian.
pub fn read_u64(data: &Vec<u8>, pos: usize) -> (r: Option<(u64, usize)>)
    ensures
        pos + 8 <= data@.len() ==> r == Option::Some(
            (spec_u64_from_le_bytes(data@.subrange(pos as int, pos + 8)), (pos + 8) as usize),
        ),
        pos + 8 > data@.len() ==> r is None,
{
    if data.len() >= 8 && pos <= data.len() - 8 {
        let mut bytes: Vec<u8> = Vec::new();
        let mut i: usize = 0;
        while i < 8
            invariant
                i <= 8,
                pos + 8 <= data@.len(),
                data@.len() <= usize::MAX,
                bytes@ == data@.subrange(pos as int, pos + i),
            decreases 8 - i,
        {
            bytes.push(data[pos + i]);
            proof {
                assert(bytes@ =~= data@.subrange(pos as int, pos + i + 1));
            }
            i += 1;
        }
        let x = u64_from_le_bytes(bytes.as_slice());
        Some((x, pos + 8))
    } else {
        None
    }
}

/// Read a `u128`, little-endian.
pub fn read_u128(data: &Vec<u8>, pos: usize) -> (r: Option<(u128, usize)>)
    ensures
        pos + 16 <= data@.len() ==> r == Option::Some(
            (spec_u128_from_le_bytes(data@.subrange(pos as int, pos + 16)), (pos + 16) as usize),
        ),
        pos + 16 > data@.len() ==> r is None,
{
    if data.len() >= 16 && pos <= data.len() - 16 {
        let mut bytes: Vec<u8> = Vec::new();
        let mut i: usize = 0;
        while i < 16
            invariant
                i <= 16,
                pos + 16 <= data@.len(),
                data@.len() <= usize::MAX,
                bytes@ == data@.subrange(pos as int, pos + i),
            decreases 16 - i,
        {
            bytes.push(data[pos + i]);
            proof {
                assert(bytes@ =~= data@.subrange(pos as int, pos + i + 1));
            }
            i += 1;
        }
        let x = u128_from_le_bytes(bytes.as_slice());
        Some((x, pos + 16))
    } else {
        None
    }
}

/// The encoding of the first `i` characters of `s`: each as its code
/// point, 4 bytes little-endian.
pub open spec fn enc_chars_to(s: Seq<char>, i: int) -> Seq<u8>
    decreases i,
{
    if i <= 0 {
        Seq::empty()
    } else {
        enc_chars_to(s, i - 1) + spec_u32_to_le_bytes(s[i - 1] as u32)
    }
}

/// The encoding of a string: its character count as a `u64`, then each
/// character's code point as a `u32`, all little-endian.
pub open spec fn enc_string(s: Seq<char>) -> Seq<u8> {
    spec_u64_to_le_bytes(s.len() as u64) + enc_chars_to(s, s.len() as int)
}

/// The encoded characters take 4 bytes each.
pub proof fn lemma_enc_chars_len(s: Seq<char>, i: int)
    requires
        0 <= i <= s.len(),
    ensures
        enc_chars_to(s, i).len() == 4 * i,
    decreases i,
{
    if i > 0 {
        lemma_enc_chars_len(s, i - 1);
        lemma_auto_spec_u32_to_from_le_bytes();
    }
}

/// Character `j` sits at byte offset `4 * j`.
pub proof fn lemma_enc_chars_index(s: Seq<char>, i: int, j: int)
    requires
        0 <= j < i <= s.len(),
    ensures
        enc_chars_to(s, i).subrange(4 * j, 4 * j + 4) == spec_u32_to_le_bytes(s[j] as u32),
    decreases i,
{
    lemma_enc_chars_len(s, i);
    lemma_auto_spec_u32_to_from_le_bytes();
    if j == i - 1 {
        lemma_enc_chars_len(s, i - 1);
        assert(enc_chars_to(s, i).subrange(4 * j, 4 * j + 4) =~= spec_u32_to_le_bytes(
            s[j] as u32,
        ));
    } else {
        lemma_enc_chars_index(s, i - 1, j);
        lemma_enc_chars_len(s, i - 1);
        assert(enc_chars_to(s, i).subrange(4 * j, 4 * j + 4) =~= enc_chars_to(s, i - 1).subrange(
            4 * j,
            4 * j + 4,
        ));
    }
}

/// Append the encoding of a string.
pub fn put_string(out: &mut Vec<u8>, s: &str)
    ensures
        final(out)@ == old(out)@ + enc_string(s@),
{
    let n = s.unicode_len();
    put_u64(out, n as u64);
    let ghost base = out@;
    let mut i: usize = 0;
    while i < n
        invariant
            i <= n,
            n == s@.len(),
            out@ == base + enc_chars_to(s@, i as int),
        decreases n - i,
    {
        let c = s.get_char(i);
        put_u32(out, c as u32);
        proof {
            assert(out@ =~= base + enc_chars_to(s@, i as int + 1));
        }
        i += 1;
    }
    proof {
        assert(out@ =~= old(out)@ + enc_string(s@));
    }
}

/// What reading `n` characters from `pos` yields: the characters and
/// the next position, or nothing on truncation or an invalid code
/// point.
pub open spec fn dec_chars(data: Seq<u8>, pos: int, n: nat) -> Option<(Seq<char>, int)>
    decreases n,
{
    if n == 0 {
        Option::Some((Seq::empty(), pos))
    } else if pos < 0 || pos + 4 > data.len() {
        Option::None
    } else {
        let v = spec_u32_from_le_bytes(data.subrange(pos, pos + 4));
        if !valid_scalar(v) {
            Option::None
        } else {
            match dec_chars(data, pos + 4, (n - 1) as nat) {
                Option::Some((cs, p)) => Option::Some((seq![v as char] + cs, p)),
                Option::None => Option::None,
            }
        }
    }
}

/// What reading a string from `pos` yields.
pub open spec fn dec_string(data: Seq<u8>, pos: int) -> Option<(Seq<char>, int)> {
    if pos < 0 || pos + 8 > data.len() {
        Option::None
    } else {
        let n = spec_u64_from_le_bytes(data.subrange(pos, pos + 8));
        dec_chars(data, pos + 8, n as nat)
    }
}

/// Read a string.
pub fn read_string(data: &Vec<u8>, pos: usize) -> (r: Option<(String, usize)>)
    ensures
        match r {
            Option::Some((s, p)) => dec_string(data@, pos as int) == Option::Some(
                (s@, p as int),
            ) && p <= data@.len(),
            Option::None => dec_string(data@, pos as int) is None,
        },
{
    let (n, mut p) = match read_u64(data, pos) {
        Some(r) => r,
        None => {
            return None;
        },
    };
    let mut s = String::new();
    let mut k: u64 = 0;
    proof {
        assert(data.len() == data@.len());
        assert(p as int == pos as int + 8);
        assert(dec_string(data@, pos as int) == dec_chars(data@, pos as int + 8, n as nat));
        assert((n - k) as nat == n as nat);
        let d = dec_chars(data@, p as int, (n - k) as nat);
        if d is Some {
            assert(s@ + d.unwrap().0 =~= d.unwrap().0);
            assert((s@ + d.unwrap().0, d.unwrap().1) == d.unwrap());
        }
    }
    while k < n
        invariant
            k <= n,
            pos + 8 <= data@.len(),
            p <= data@.len(),
            n == spec_u64_from_le_bytes(data@.subrange(pos as int, pos as int + 8)),
            dec_string(data@, pos as int) == (match dec_chars(data@, p as int, (n - k) as nat) {
                Option::Some((cs, q)) => Option::Some((s@ + cs, q)),
                Option::None => Option::<(Seq<char>, int)>::None,
            }),
        decreases n - k,
    {
        let ghost p0 = p as int;
        let ghost rem = (n - k) as nat;
        let (v, p2) = match read_u32(data, p) {
            Some(r) => r,
            None => {
                proof {
                    assert(dec_chars(data@, p0, rem) is None);
                }
                return None;
            },
        };
        let c = match char::from_u32(v) {
            Some(c) => c,
            None => {
                proof {
                    assert(dec_chars(data@, p0, rem) is None);
                }
                return None;
            },
        };
        proof {
            assert(data.len() == data@.len());
            assert(p2 as int == p0 + 4);
            vstd::utf8::char_u32_cast(c, v);
            assert((v as char) == c);
            assert(dec_chars(data@, p0, rem) == (match dec_chars(
                data@,
                p0 + 4,
                (rem - 1) as nat,
            ) {
                Option::Some((cs, q)) => Option::Some((seq![c] + cs, q)),
                Option::None => Option::<(Seq<char>, int)>::None,
            }));
        }
        let ghost pre_s = s@;
        s.push(c);
        proof {
            let d = dec_chars(data@, p0 + 4, (rem - 1) as nat);
            if d is Some {
                assert(pre_s + (seq![c] + d.unwrap().0) =~= s@ + d.unwrap().0);
            }
        }
        p = p2;
        k = k + 1;
    }
    Some((s, p))
}

/// Law: decoding the encoding of a string, wherever it stands in a
/// byte sequence, yields the string back and lands just after it.
pub proof fn lemma_string_roundtrip(prefix: Seq<u8>, s: Seq<char>, rest: Seq<u8>)
    requires
        s.len() <= u64::MAX,
    ensures
        dec_string(prefix + enc_string(s) + rest, prefix.len() as int) == Option::Some(
            (s, prefix.len() as int + 8 + 4 * s.len() as int),
        ),
{
    let data = prefix + enc_string(s) + rest;
    let pos = prefix.len() as int;
    lemma_enc_chars_len(s, s.len() as int);
    lemma_auto_spec_u64_to_from_le_bytes();
    assert(data.subrange(pos, pos + 8) =~= spec_u64_to_le_bytes(s.len() as u64));
    let base = pos + 8;
    assert forall|j: int| 0 <= j < s.len() implies data.subrange(base + 4 * j, base + 4 * j + 4)
        == spec_u32_to_le_bytes(#[trigger] (s[j] as u32)) by {
        lemma_enc_chars_index(s, s.len() as int, j);
        lemma_enc_chars_len(s, s.len() as int);
        assert(data.subrange(base + 4 * j, base + 4 * j + 4) =~= enc_chars_to(
            s,
            s.len() as int,
        ).subrange(4 * j, 4 * j + 4));
    }
    lemma_chars_roundtrip(data, pos + 8, s, 0);
}

/// Law: the characters encoded from index `i` on decode back.
proof fn lemma_chars_roundtrip(data: Seq<u8>, base: int, s: Seq<char>, i: int)
    requires
        0 <= i <= s.len(),
        base - 8 >= 0,
        data.len() >= base + 4 * s.len(),
        forall|j: int|
            0 <= j < s.len() ==> data.subrange(base + 4 * j, base + 4 * j + 4)
                == spec_u32_to_le_bytes(#[trigger] (s[j] as u32)),
    ensures
        dec_chars(data, base + 4 * i, (s.len() - i) as nat) == Option::Some(
            (s.skip(i), base + 4 * s.len() as int),
        ),
    decreases s.len() - i,
{
    lemma_auto_spec_u32_to_from_le_bytes();
    if i == s.len() {
        assert(s.skip(i) =~= Seq::<char>::empty());
    } else {
        lemma_chars_roundtrip(data, base, s, i + 1);
        let u = (s[i] as u32);
        let v = spec_u32_from_le_bytes(data.subrange(base + 4 * i, base + 4 * i + 4));
        assert(data.subrange(base + 4 * i, base + 4 * i + 4) == spec_u32_to_le_bytes(u));
        assert(v == u);
        char_is_scalar_fact(s[i]);
        assert((v as char) == s[i]);
        assert(seq![v as char] + s.skip(i + 1) =~= s.skip(i));
    }
}

/// A character's scalar value decodes back to the character.
proof fn char_is_scalar_fact(c: char)
    ensures
        valid_scalar(c as u32),
        ((c as u32) as char) == c,
{
    vstd::utf8::char_is_scalar(c);
    vstd::utf8::char_u32_cast(c, c as u32);
    assert(valid_scalar(c as u32)) by {
        assert(vstd::utf8::is_scalar(c as u32));
        reveal(vstd::utf8::is_scalar);
    }
}

/// The bytes of one frame: the payload length as a 4-byte little-endian
/// prefix, then the payload.
pub open spec fn frame_bytes(payload: Seq<u8>) -> Seq<u8> {
    spec_u32_to_le_bytes(payload.len() as u32) + payload
}

/// Frame a payload. Fails exactly when the payload exceeds the maximum
/// frame length.
pub fn encode_frame(payload: &Vec<u8>) -> (r: Result<Vec<u8>, CoreError>)
    ensures
        r is Ok <==> payload@.len() <= MAX_FRAME_LEN,
        r is Ok ==> (r->Ok_0)@ == frame_bytes(payload@),
        r is Err ==> r->Err_0 == CoreError::Codec,
{
    if payload.len() > MAX_FRAME_LEN {
        return Err(CoreError::Codec);
    }
    let mut out: Vec<u8> = Vec::new();
    put_u32(&mut out, payload.len() as u32);
    append_bytes(&mut out, payload);
    proof {
        assert(out@ =~= frame_bytes(payload@));
    }
    Ok(out)
}

/// Take one frame off the front of a byte buffer: the payload and the
/// count of bytes consumed; nothing when the buffer does not yet hold a
/// whole frame; an error exactly when the announced length exceeds the
/// maximum.
pub fn decode_frame(data: &Vec<u8>) -> (r: Result<Option<(Vec<u8>, usize)>, CoreError>)
    ensures
        data@.len() < 4 ==> r == Result::<Option<(Vec<u8>, usize)>, CoreError>::Ok(Option::None),
        data@.len() >= 4 ==> {
            let n = spec_u32_from_le_bytes(data@.subrange(0, 4)) as int;
            if n > MAX_FRAME_LEN {
                r == Result::<Option<(Vec<u8>, usize)>, CoreError>::Err(CoreError::Codec)
            } else if data@.len() < 4 + n {
                r == Result::<Option<(Vec<u8>, usize)>, CoreError>::Ok(Option::None)
            } else {
                &&& r is Ok
                &&& (r->Ok_0) is Some
                &&& (r->Ok_0).unwrap().0@ == data@.subrange(4, 4 + n)
                &&& (r->Ok_0).unwrap().1 == 4 + n
            }
        },
{
    let (n, _) = match read_u32(data, 0) {
        Some(r) => r,
        None => {
            return Ok(None);
        },
    };
    let n = n as usize;
    if n > MAX_FRAME_LEN {
        return Err(CoreError::Codec);
    }
    if data.len() < 4 + n {
        return Ok(None);
    }
    let mut payload: Vec<u8> = Vec::new();
    let mut i: usize = 0;
    while i < n
        invariant
            i <= n,
            4 + n <= data@.len(),
            data@.len() <= usize::MAX,
            payload@ == data@.subrange(4, 4 + i),
        decreases n - i,
    {
        payload.push(data[4 + i]);
        proof {
            assert(payload@ =~= data@.subrange(4, 4 + i + 1));
        }
        i += 1;
    }
    Ok(Some((payload, 4 + n)))
}

/// Law: a framed payload within the limit decodes back exactly, from
/// its own bytes followed by anything.
pub proof fn lemma_frame_roundtrip(payload: Seq<u8>, rest: Seq<u8>)
    requires
        payload.len() <= MAX_FRAME_LEN,
    ensures
        ({
            let data = frame_bytes(payload) + rest;
            &&& data.len() >= 4
            &&& spec_u32_from_le_bytes(data.subrange(0, 4)) == payload.len()
            &&& data.subrange(4, 4 + payload.len() as int) == payload
        }),
{
    lemma_auto_spec_u32_to_from_le_bytes();
    let data = frame_bytes(payload) + rest;
    assert(data.subrange(0, 4) =~= spec_u32_to_le_bytes(payload.len() as u32));
    assert(data.subrange(4, 4 + payload.len() as int) =~= payload);
}

} // verus!
