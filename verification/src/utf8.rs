//! Length-prefixed UTF-8 fields: a 2-byte big-endian length followed by
//! that many bytes of UTF-8. Fields containing U+0000 are rejected, and
//! Rust's UTF-8 validation rejects non-shortest forms.

use vstd::prelude::*;
use vstd::slice::{slice_subrange, slice_to_vec};
use vstd::string::StrSliceExecFns;
use vstd::utf8::{decode_utf8, encode_utf8, encode_utf8_decode_utf8, encode_utf8_valid_utf8,
    valid_utf8};
use crate::errors::{ErrorKind, PacketError, PacketResult};
use crate::packet_reader::{read_u16, spec_be16, spec_u16_be, write_u16};

verus! {

/// Holds when no byte of `b` is zero; in UTF-8 a zero byte occurs
/// exactly in the encoding of U+0000.
pub open spec fn no_zero_byte(b: Seq<u8>) -> bool {
    forall|i: int| 0 <= i < b.len() ==> b[i] != 0
}

/// Holds when `s` can be carried by a field: its UTF-8 form fits the
/// 16-bit length prefix and contains no U+0000.
pub open spec fn spec_field_ok(s: Seq<char>) -> bool {
    &&& encode_utf8(s).len() <= 65535
    &&& no_zero_byte(encode_utf8(s))
}

/// The wire form of a field: big-endian length, then the UTF-8 bytes.
pub open spec fn spec_field_enc(s: Seq<char>) -> Seq<u8> {
    spec_be16(encode_utf8(s).len() as u16) + encode_utf8(s)
}

/// The characters a field at the start of `bytes` carries, and how many
/// bytes it occupies; or why it cannot be read.
pub open spec fn spec_field_parse(bytes: Seq<u8>) -> Result<(Seq<char>, int), ErrorKind> {
    if bytes.len() < 2 {
        Err(ErrorKind::UnexpectedEof)
    } else {
        let n = spec_u16_be(bytes[0], bytes[1]);
        if bytes.len() < 2 + n {
            Err(ErrorKind::UnexpectedEof)
        } else {
            let chunk = bytes.subrange(2, 2 + n);
            if valid_utf8(chunk) && no_zero_byte(chunk) {
                Ok((decode_utf8(chunk), 2 + n))
            } else {
                Err(ErrorKind::InvalidUtf8)
            }
        }
    }
}

/// Round trip of a field: every carriable string parses back from its
/// own wire form, whatever bytes follow it.
pub proof fn lemma_field_roundtrip(s: Seq<char>, rest: Seq<u8>)
    requires
        spec_field_ok(s),
    ensures
        spec_field_parse(spec_field_enc(s) + rest) == Ok::<(Seq<char>, int), ErrorKind>(
            (s, 2 + encode_utf8(s).len() as int),
        ),
{
    let eb = encode_utf8(s);
    let l: int = eb.len() as int;
    let full = spec_field_enc(s) + rest;
    assert(full[0] == (l / 256) as u8 && full[1] == (l % 256) as u8);
    vstd::arithmetic::div_mod::lemma_fundamental_div_mod(l, 256);
    assert(spec_u16_be(full[0], full[1]) == l);
    assert(full.subrange(2, 2 + l) =~= eb);
    encode_utf8_valid_utf8(s);
    encode_utf8_decode_utf8(s);
}

/// UTF-8 encoding is injective: two strings with the same bytes are
/// the same string.
pub proof fn lemma_utf8_injective(s1: Seq<char>, s2: Seq<char>)
    requires
        encode_utf8(s1) == encode_utf8(s2),
    ensures
        s1 == s2,
{
    encode_utf8_decode_utf8(s1);
    encode_utf8_decode_utf8(s2);
}

/// The UTF-8 bytes of a string.
pub fn str_bytes(s: &str) -> (r: Vec<u8>)
    ensures
        r@ == encode_utf8(s@),
{
    s.as_bytes_vec()
}

/// Whether two strings hold the same characters, decided through
/// their bytes.
#[verifier::loop_isolation(false)]
pub fn str_eq(a: &str, b: &str) -> (r: bool)
    ensures
        r == (a@ == b@),
{
    let ab = a.as_bytes_vec();
    let bb = b.as_bytes_vec();
    if ab.len() != bb.len() {
        proof {
            assert(ab@.len() != bb@.len());
        }
        return false;
    }
    let mut i: usize = 0;
    while i < ab.len()
        invariant
            i <= ab@.len(),
            ab@.len() == bb@.len(),
            forall|j: int| 0 <= j < i ==> ab@[j] == bb@[j],
        decreases ab@.len() - i,
    {
        if ab[i] != bb[i] {
            return false;
        }
        i += 1;
    }
    proof {
        assert(ab@ =~= bb@);
        lemma_utf8_injective(a@, b@);
    }
    true
}

/// A UTF-8 string field of a control packet.
pub struct Field {
    pub value: String,
}

/// Relies on String::from_utf8: it succeeds exactly on valid UTF-8 and
/// returns the string whose encoding is the given bytes.
#[verifier::external_body]
fn bytes_to_string(bytes: Vec<u8>) -> (r: Option<String>)
    ensures
        match r {
            Some(s) => valid_utf8(bytes@) && encode_utf8(s@) == bytes@,
            None => !valid_utf8(bytes@),
        },
{
    String::from_utf8(bytes).ok()
}

impl Field {
    /// Wraps a string, or nothing when the string cannot be carried by
    /// a field.
    pub fn new_from_string(s: &str) -> (r: Option<Field>)
        ensures
            match r {
                Some(f) => spec_field_ok(s@) && f.value@ == s@,
                None => !spec_field_ok(s@),
            },
    {
        let b = s.as_bytes_vec();
        if b.len() > 65535 {
            return None;
        }
        let mut i: usize = 0;
        while i < b.len()
            invariant
                i <= b@.len(),
                b@ == encode_utf8(s@),
                forall|j: int| 0 <= j < i ==> b@[j] != 0,
            decreases b@.len() - i,
        {
            if b[i] == 0 {
                return None;
            }
            i += 1;
        }
        Some(Field { value: s.to_owned() })
    }

    /// True when the field holds the empty string.
    pub fn is_empty(&self) -> (r: bool)
        ensures
            r == (self.value@.len() == 0),
    {
        self.value.as_str().is_empty()
    }

    /// The wire form of this field.
    pub fn encode(&self) -> (r: Vec<u8>)
        requires
            spec_field_ok(self.value@),
        ensures
            r@ == spec_field_enc(self.value@),
    {
        let mut out: Vec<u8> = Vec::new();
        let mut b = self.value.as_str().as_bytes_vec();
        write_u16(&mut out, b.len() as u16);
        out.append(&mut b);
        proof {
            assert(out@ =~= spec_field_enc(self.value@));
        }
        out
    }

    /// Appends the wire form of a string field.
    pub fn write_field(out: &mut Vec<u8>, s: &str)
        requires
            spec_field_ok(s@),
        ensures
            final(out)@ == old(out)@ + spec_field_enc(s@),
    {
        let b = s.as_bytes_vec();
        write_u16(out, b.len() as u16);
        let mut i: usize = 0;
        while i < b.len()
            invariant
                i <= b@.len(),
                b@ == encode_utf8(s@),
                out@ == old(out)@ + spec_be16(b@.len() as u16) + b@.subrange(0, i as int),
            decreases b@.len() - i,
        {
            let byte = b[i];
            out.push(byte);
            proof {
                assert(old(out)@ + spec_be16(b@.len() as u16) + b@.subrange(0, i as int) + seq![
                    b@[i as int],
                ] =~= old(out)@ + spec_be16(b@.len() as u16) + b@.subrange(0, i as int + 1));
            }
            i += 1;
        }
        proof {
            assert(b@.subrange(0, b@.len() as int) =~= b@);
            assert(old(out)@ + spec_be16(b@.len() as u16) + b@ =~= old(out)@ + spec_field_enc(s@));
        }
    }

    /// Reads a field at `pos`; on success also reports the position
    /// just past it.
    #[verifier::loop_isolation(false)]
    pub fn read_at(bytes: &[u8], pos: usize) -> (r: PacketResult<(Field, usize)>)
        requires
            pos <= bytes@.len(),
        ensures
            match r {
                Ok(fp) => {
                    &&& spec_field_parse(bytes@.skip(pos as int)) == Ok::<(Seq<char>, int), ErrorKind>(
                        (fp.0.value@, fp.1 - pos),
                    )
                    &&& pos + 2 <= fp.1 <= bytes@.len()
                    &&& spec_field_ok(fp.0.value@)
                },
                Err(e) => spec_field_parse(bytes@.skip(pos as int)) == Err::<(Seq<char>, int), ErrorKind>(
                    e.kind,
                ),
            },
    {
        let ghost tail = bytes@.skip(pos as int);
        let (n, p2) = match read_u16(bytes, pos) {
            Ok(v) => v,
            Err(e) => {
                return Err(e);
            },
        };
        proof {
            assert(tail[0] == bytes@[pos as int] && tail[1] == bytes@[pos as int + 1]);
        }
        let n = n as usize;
        if bytes.len() - p2 < n {
            return Err(PacketError::new_kind("packet ends inside a string field", ErrorKind::UnexpectedEof));
        }
        let ghost chunk = tail.subrange(2, 2 + n as int);
        proof {
            assert(chunk =~= bytes@.subrange(p2 as int, p2 as int + n as int));
        }
        let end: usize = p2 + n;
        let mut i: usize = p2;
        while i < end
            invariant
                end == p2 + n,
                end <= bytes@.len(),
                p2 <= i <= end,
                chunk == bytes@.subrange(p2 as int, p2 as int + n as int),
                forall|j: int| p2 <= j < i ==> bytes@[j] != 0,
            decreases end - i,
        {
            if bytes[i] == 0 {
                proof {
                    assert(chunk[i as int - p2 as int] == bytes@[i as int]);
                    assert(!no_zero_byte(chunk));
                }
                return Err(PacketError::new_kind("string field contains a zero byte", ErrorKind::InvalidUtf8));
            }
            i += 1;
        }
        proof {
            assert(no_zero_byte(chunk));
        }
        let v = slice_to_vec(slice_subrange(bytes, p2, p2 + n));
        match bytes_to_string(v) {
            Some(s) => {
                proof {
                    encode_utf8_decode_utf8(s@);
                }
                Ok((Field { value: s }, p2 + n))
            },
            None => Err(PacketError::new_kind("string field is not valid UTF-8", ErrorKind::InvalidUtf8)),
        }
    }
}

} // verus!
