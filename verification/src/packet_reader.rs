//! Byte-level framing primitives: big-endian 16-bit integers and the
//! remaining-length varint (1-4 bytes, 7 data bits per byte, most
//! significant bit set on all bytes but the last).

use vstd::prelude::*;
use crate::errors::{ErrorKind, PacketError, PacketResult};

verus! {

/// Largest value a remaining-length varint can carry.
pub const MAX_REMAINING_LENGTH: u32 = 268435455;

/// The two big-endian bytes of a 16-bit integer.
pub open spec fn spec_be16(x: u16) -> Seq<u8> {
    seq![(x / 256) as u8, (x % 256) as u8]
}

/// The 16-bit value two big-endian bytes carry.
pub open spec fn spec_u16_be(b0: u8, b1: u8) -> int {
    b0 * 256 + b1
}

pub proof fn lemma_be16_roundtrip(b0: u8, b1: u8)
    ensures
        spec_be16(spec_u16_be(b0, b1) as u16) == seq![b0, b1],
        0 <= spec_u16_be(b0, b1) <= 65535,
{
    let v: int = spec_u16_be(b0, b1);
    assert(v / 256 == b0 && v % 256 == b1) by (nonlinear_arith)
        requires
            v == b0 * 256 + b1,
            0 <= b0 < 256,
            0 <= b1 < 256,
    ;
    assert(spec_be16(v as u16) =~= seq![b0, b1]);
}

/// A 16-bit value survives the trip through its two big-endian bytes.
pub proof fn lemma_be16_value(x: u16)
    ensures
        spec_u16_be(spec_be16(x)[0], spec_be16(x)[1]) == x,
{
    vstd::arithmetic::div_mod::lemma_fundamental_div_mod(x as int, 256);
}

/// The varint encoding of a remaining length.
pub open spec fn spec_rl_enc(n: int) -> Seq<u8>
    decreases n,
{
    if n < 128 {
        seq![n as u8]
    } else {
        seq![((n % 128) + 128) as u8] + spec_rl_enc(n / 128)
    }
}

/// Value and number of bytes read by a varint parse that may consume at
/// most `budget` more bytes. The parse fails with `MalformedLength` when
/// the fourth byte still has its continuation bit set, and with
/// `UnexpectedEof` when the input ends first.
pub open spec fn spec_rl_parse_rec(bytes: Seq<u8>, budget: int) -> Result<(int, int), ErrorKind>
    decreases budget,
{
    if budget <= 0 {
        Err(ErrorKind::MalformedLength)
    } else if bytes.len() == 0 {
        Err(ErrorKind::UnexpectedEof)
    } else if bytes[0] < 128 {
        Ok((bytes[0] as int, 1))
    } else {
        match spec_rl_parse_rec(bytes.drop_first(), budget - 1) {
            Ok(vc) => Ok(((bytes[0] - 128) + 128 * vc.0, vc.1 + 1)),
            Err(k) => Err(k),
        }
    }
}

/// Value and number of bytes read by a remaining-length parse.
pub open spec fn spec_rl_parse(bytes: Seq<u8>) -> Result<(int, int), ErrorKind> {
    spec_rl_parse_rec(bytes, 4)
}

/// How long the encoding of each representable length is.
pub proof fn lemma_rl_enc_len(n: int)
    requires
        0 <= n <= MAX_REMAINING_LENGTH,
    ensures
        spec_rl_enc(n).len() == if n < 128 {
            1int
        } else if n < 16384 {
            2int
        } else if n < 2097152 {
            3int
        } else {
            4int
        },
    decreases n,
{
    if n >= 128 {
        lemma_rl_enc_len(n / 128);
    }
}

proof fn lemma_rl_roundtrip_rec(n: int, rest: Seq<u8>, budget: int)
    requires
        0 <= n,
        spec_rl_enc(n).len() <= budget,
    ensures
        spec_rl_parse_rec(spec_rl_enc(n) + rest, budget) == Ok::<(int, int), ErrorKind>(
            (n, spec_rl_enc(n).len() as int),
        ),
    decreases n,
{
    let e = spec_rl_enc(n);
    if n < 128 {
        assert((e + rest)[0] == n as u8);
        assert((e + rest).len() >= 1);
    } else {
        let b: u8 = ((n % 128) + 128) as u8;
        assert(e == seq![b] + spec_rl_enc(n / 128));
        assert((e + rest)[0] == b);
        assert((e + rest).drop_first() =~= spec_rl_enc(n / 128) + rest);
        lemma_rl_roundtrip_rec(n / 128, rest, budget - 1);
        assert((b - 128) + 128 * (n / 128) == n) by {
            vstd::arithmetic::div_mod::lemma_fundamental_div_mod(n, 128);
        };
    }
}

/// Round trip of the remaining-length varint: every representable length
/// parses back from its own encoding, whatever bytes follow it.
pub proof fn lemma_rl_roundtrip(n: int, rest: Seq<u8>)
    requires
        0 <= n <= MAX_REMAINING_LENGTH,
    ensures
        spec_rl_parse(spec_rl_enc(n) + rest) == Ok::<(int, int), ErrorKind>(
            (n, spec_rl_enc(n).len() as int),
        ),
        1 <= spec_rl_enc(n).len() <= 4,
{
    lemma_rl_enc_len(n);
    lemma_rl_roundtrip_rec(n, rest, 4);
}

/// Every value produced by a bounded parse is below `128^budget`.
pub proof fn lemma_rl_parse_bound(bytes: Seq<u8>, budget: int)
    requires
        budget <= 4,
    ensures
        match spec_rl_parse_rec(bytes, budget) {
            Ok(vc) => 0 <= vc.0 < pow128(budget) && 1 <= vc.1 <= budget,
            Err(_) => true,
        },
    decreases budget,
{
    if budget > 0 && bytes.len() > 0 {
        if bytes[0] < 128 {
            lemma_pow128_pos(budget - 1);
        } else {
            lemma_rl_parse_bound(bytes.drop_first(), budget - 1);
        }
    }
}

pub proof fn lemma_pow128_pos(k: int)
    ensures
        pow128(k) >= 1,
    decreases (if k > 0 { k } else { 0 }),
{
    if k > 0 {
        lemma_pow128_pos(k - 1);
    }
}

/// 128 raised to a small power; helper for the parse bound.
pub open spec fn pow128(k: int) -> int
    decreases k,
{
    if k <= 0 {
        1
    } else {
        128 * pow128(k - 1)
    }
}

/// Holds when the control byte carries the given packet type in its
/// upper nibble and the given reserved bits in its lower nibble.
pub open spec fn spec_header_ok(control_byte: u8, typ: u8, reserved: u8) -> bool {
    control_byte / 16 == typ && control_byte % 16 == reserved
}

/// The body a packet declares: the bytes after the remaining-length
/// varint, exactly as many as it says.
pub open spec fn spec_body(bytes: Seq<u8>) -> Result<Seq<u8>, ErrorKind> {
    match spec_rl_parse(bytes) {
        Err(k) => Err(k),
        Ok(lc) => if bytes.len() < lc.1 + lc.0 {
            Err(ErrorKind::UnexpectedEof)
        } else {
            Ok(bytes.subrange(lc.1, lc.1 + lc.0))
        },
    }
}

/// Round trip of the framing: a declared body follows its own length,
/// whatever bytes come after it.
pub proof fn lemma_body_roundtrip(body: Seq<u8>, rest: Seq<u8>)
    requires
        body.len() <= MAX_REMAINING_LENGTH,
    ensures
        spec_body(spec_rl_enc(body.len() as int) + body + rest) == Ok::<Seq<u8>, ErrorKind>(body),
{
    let n: int = body.len() as int;
    let e = spec_rl_enc(n);
    lemma_rl_roundtrip(n, body + rest);
    assert(e + body + rest =~= e + (body + rest));
    let full = e + body + rest;
    assert(full.subrange(e.len() as int, e.len() as int + n) =~= body);
}

/// Appends every byte of `src`.
pub fn push_all(out: &mut Vec<u8>, src: &[u8])
    ensures
        final(out)@ == old(out)@ + src@,
{
    let mut i: usize = 0;
    while i < src.len()
        invariant
            i <= src@.len(),
            out@ == old(out)@ + src@.subrange(0, i as int),
        decreases src@.len() - i,
    {
        out.push(src[i]);
        proof {
            assert(old(out)@ + src@.subrange(0, i as int) + seq![src@[i as int]] =~= old(out)@
                + src@.subrange(0, i as int + 1));
        }
        i += 1;
    }
    proof {
        assert(src@.subrange(0, src@.len() as int) =~= src@);
    }
}

/// Frames a body: the control byte, the remaining length, the body; or
/// a `MalformedLength` error when the body is longer than the varint
/// can say.
pub fn encode_with_header(control_byte: u8, body: &[u8]) -> (r: PacketResult<Vec<u8>>)
    ensures
        match r {
            Ok(v) => body@.len() <= MAX_REMAINING_LENGTH && v@ == seq![control_byte] + spec_rl_enc(
                body@.len() as int,
            ) + body@,
            Err(e) => body@.len() > MAX_REMAINING_LENGTH && e.kind == ErrorKind::MalformedLength,
        },
{
    if body.len() > MAX_REMAINING_LENGTH as usize {
        return Err(PacketError::new_kind("remaining length over 268435455", ErrorKind::MalformedLength));
    }
    let mut out: Vec<u8> = Vec::new();
    out.push(control_byte);
    proof {
        assert(out@ =~= seq![control_byte]);
    }
    write_remaining_length(&mut out, body.len() as u32);
    push_all(&mut out, body);
    Ok(out)
}

/// Locates the body a packet declares: on success, the bounds of the
/// body inside `bytes`.
pub fn read_body_bounds(bytes: &[u8]) -> (r: PacketResult<(usize, usize)>)
    ensures
        match r {
            Ok(se) => {
                &&& spec_body(bytes@) == Ok::<Seq<u8>, ErrorKind>(
                    bytes@.subrange(se.0 as int, se.1 as int),
                )
                &&& se.0 <= se.1 <= bytes@.len()
            },
            Err(e) => spec_body(bytes@) == Err::<Seq<u8>, ErrorKind>(e.kind),
        },
{
    proof {
        assert(bytes@.skip(0) =~= bytes@);
    }
    let (len, p) = match read_remaining_length(bytes, 0) {
        Ok(v) => v,
        Err(e) => {
            return Err(e);
        },
    };
    let len = len as usize;
    if bytes.len() - p < len {
        return Err(PacketError::new_kind("packet ends inside its declared body", ErrorKind::UnexpectedEof));
    }
    Ok((p, p + len))
}

/// Appends the big-endian bytes of `x`.
pub fn write_u16(out: &mut Vec<u8>, x: u16)
    ensures
        final(out)@ == old(out)@ + spec_be16(x),
{
    out.push((x / 256) as u8);
    out.push((x % 256) as u8);
    assert(out@ =~= old(out)@ + spec_be16(x));
}

/// Reads a big-endian 16-bit integer at `pos`.
pub fn read_u16(bytes: &[u8], pos: usize) -> (r: PacketResult<(u16, usize)>)
    requires
        pos <= bytes@.len(),
    ensures
        match r {
            Ok(vp) => {
                &&& pos + 2 <= bytes@.len()
                &&& vp.0 == spec_u16_be(bytes@[pos as int], bytes@[pos as int + 1])
                &&& vp.1 == pos + 2
            },
            Err(e) => pos + 2 > bytes@.len() && e.kind == ErrorKind::UnexpectedEof,
        },
{
    if bytes.len() - pos < 2 {
        return Err(PacketError::new_kind("packet ends inside a 16-bit field", ErrorKind::UnexpectedEof));
    }
    let hi = bytes[pos];
    let lo = bytes[pos + 1];
    Ok((hi as u16 * 256 + lo as u16, pos + 2))
}

/// Appends the varint encoding of `n`.
pub fn write_remaining_length(out: &mut Vec<u8>, n: u32)
    requires
        n <= MAX_REMAINING_LENGTH,
    ensures
        final(out)@ == old(out)@ + spec_rl_enc(n as int),
{
    let ghost n0: int = n as int;
    let mut cur: u32 = n;
    let ghost mut written: Seq<u8> = Seq::empty();
    proof {
        assert(out@ + written =~= out@);
    }
    while cur >= 128
        invariant
            out@ == old(out)@ + written,
            written + spec_rl_enc(cur as int) == spec_rl_enc(n0),
        decreases cur,
    {
        let b: u8 = ((cur % 128) + 128) as u8;
        out.push(b);
        proof {
            written = written + seq![b];
            assert(spec_rl_enc(cur as int) == seq![b] + spec_rl_enc(cur as int / 128));
            assert((written + spec_rl_enc(cur as int / 128)) =~= spec_rl_enc(n0));
        }
        cur = cur / 128;
    }
    out.push(cur as u8);
    proof {
        assert(spec_rl_enc(cur as int) =~= seq![cur as u8]);
        assert(out@ =~= old(out)@ + spec_rl_enc(n0));
    }
}

/// The varint encoding of `n` on its own, or a `MalformedLength` error
/// when `n` is too large for the four-byte form.
pub fn encode_remaining_length(n: u32) -> (r: PacketResult<Vec<u8>>)
    ensures
        match r {
            Ok(v) => n <= MAX_REMAINING_LENGTH && v@ == spec_rl_enc(n as int),
            Err(e) => n > MAX_REMAINING_LENGTH && e.kind == ErrorKind::MalformedLength,
        },
{
    if n > MAX_REMAINING_LENGTH {
        return Err(PacketError::new_kind("remaining length over 268435455", ErrorKind::MalformedLength));
    }
    let mut out: Vec<u8> = Vec::new();
    write_remaining_length(&mut out, n);
    Ok(out)
}

fn read_rl_rec(bytes: &[u8], pos: usize, budget: u8) -> (r: PacketResult<(u32, usize)>)
    requires
        pos <= bytes@.len(),
        budget <= 4,
    ensures
        match r {
            Ok(vp) => {
                &&& spec_rl_parse_rec(bytes@.skip(pos as int), budget as int)
                    == Ok::<(int, int), ErrorKind>((vp.0 as int, vp.1 - pos))
                &&& vp.0 < pow128(budget as int)
                &&& pos < vp.1 <= bytes@.len()
            },
            Err(e) => spec_rl_parse_rec(bytes@.skip(pos as int), budget as int)
                == Err::<(int, int), ErrorKind>(e.kind),
        },
    decreases budget,
{
    proof {
        lemma_rl_parse_bound(bytes@.skip(pos as int), budget as int);
    }
    if budget == 0 {
        return Err(PacketError::new_kind("remaining length varint over four bytes", ErrorKind::MalformedLength));
    }
    if pos >= bytes.len() {
        return Err(PacketError::new_kind("packet ends inside the remaining length", ErrorKind::UnexpectedEof));
    }
    let b = bytes[pos];
    if b < 128 {
        Ok((b as u32, pos + 1))
    } else {
        proof {
            assert(bytes@.skip(pos as int).drop_first() =~= bytes@.skip(pos as int + 1));
        }
        match read_rl_rec(bytes, pos + 1, budget - 1) {
            Ok((v, p)) => {
                proof {
                    assert(pow128(0) == 1);
                    assert(pow128(1) == 128);
                    assert(pow128(2) == 16384);
                    assert(pow128(3) == 2097152);
                    assert(pow128(budget as int) == 128 * pow128(budget as int - 1));
                }
                Ok(((b - 128) as u32 + 128 * v, p))
            },
            Err(e) => Err(e),
        }
    }
}

/// Reads a remaining-length varint at `pos`.
pub fn read_remaining_length(bytes: &[u8], pos: usize) -> (r: PacketResult<(u32, usize)>)
    requires
        pos <= bytes@.len(),
    ensures
        match r {
            Ok(vp) => {
                &&& spec_rl_parse(bytes@.skip(pos as int)) == Ok::<(int, int), ErrorKind>(
                    (vp.0 as int, vp.1 - pos),
                )
                &&& vp.0 <= MAX_REMAINING_LENGTH
                &&& pos < vp.1 <= bytes@.len()
            },
            Err(e) => spec_rl_parse(bytes@.skip(pos as int)) == Err::<(int, int), ErrorKind>(e.kind),
        },
{
    let r = read_rl_rec(bytes, pos, 4);
    proof {
        if r is Ok {
            assert(pow128(0) == 1);
            assert(pow128(1) == 128);
            assert(pow128(2) == 16384);
            assert(pow128(3) == 2097152);
            assert(pow128(4) == 268435456);
        }
    }
    r
}

} // verus!
