//! Decoding of one client frame (RFC 6455, section 5.2).
use vstd::prelude::*;
use crate::masking::{decode, masked};

verus! {

/// Why a frame could not be decoded.
#[derive(Clone, Copy, Debug, PartialEq, Eq, Structural)]
pub enum ErrorKind {
    /// The input ends before the frame does: read more bytes and try again.
    Incomplete,
    /// A client frame without the mask bit: the connection should be dropped.
    MalformedFrame,
}

/// A decoding failure, with the offset in the input of the field that failed.
#[derive(Clone, Copy, Debug, PartialEq, Eq, Structural)]
pub struct Error {
    pub kind: ErrorKind,
    pub offset: usize,
}

/// One decoded frame; `payload` is already unmasked.
#[derive(Debug)]
pub struct Frame {
    pub fin: u8,
    pub rsv: u8,
    pub mask: u8,
    pub opcode: u8,
    pub length: u64,
    pub masking_key: u32,
    pub payload: Vec<u8>,
}

/// The unsigned integer written big-endian in `s`.
pub open spec fn be_value(s: Seq<u8>) -> nat
    decreases s.len(),
{
    if s.len() == 0 {
        0
    } else {
        (be_value(s.drop_last()) * 256 + s.last()) as nat
    }
}

/// 256 to the power `n`.
pub open spec fn pow256(n: nat) -> nat
    decreases n,
{
    if n == 0 {
        1
    } else {
        256 * pow256((n - 1) as nat)
    }
}

/// The seven-bit length field of the second header byte.
pub open spec fn hint_of(s: Seq<u8>) -> u8 {
    (s[1] % 128) as u8
}

/// How many bytes of extended length follow the header for a length field `hint`.
pub open spec fn ext_len(hint: u8) -> int {
    if hint == 126 {
        2
    } else if hint == 127 {
        8
    } else {
        0
    }
}

/// Where the masking key starts.
pub open spec fn key_at(s: Seq<u8>) -> int {
    2 + ext_len(hint_of(s))
}

/// Where the payload starts.
pub open spec fn payload_at(s: Seq<u8>) -> int {
    key_at(s) + 4
}

/// The payload length that the header declares, once the extension is read.
pub open spec fn resolved_length(s: Seq<u8>) -> nat {
    if hint_of(s) < 126 {
        hint_of(s) as nat
    } else {
        be_value(s.subrange(2, key_at(s)))
    }
}

/// The four bytes of the masking key.
pub open spec fn key_bytes(s: Seq<u8>) -> Seq<u8> {
    s.subrange(key_at(s), payload_at(s))
}

/// The end of the frame in the input.
pub open spec fn frame_end(s: Seq<u8>) -> int {
    payload_at(s) + resolved_length(s)
}

/// The failure, kind and offset, that decoding `s` meets first, if any.
pub open spec fn decode_error(s: Seq<u8>) -> Option<(ErrorKind, int)> {
    if s.len() < 2 {
        Some((ErrorKind::Incomplete, 0))
    } else if s[1] < 128 {
        Some((ErrorKind::MalformedFrame, 1))
    } else if s.len() < key_at(s) {
        Some((ErrorKind::Incomplete, 2))
    } else if s.len() < payload_at(s) {
        Some((ErrorKind::Incomplete, key_at(s)))
    } else if s.len() < frame_end(s) {
        Some((ErrorKind::Incomplete, payload_at(s)))
    } else {
        None
    }
}

proof fn lemma_be_value_bound(s: Seq<u8>)
    ensures
        be_value(s) < pow256(s.len()),
    decreases s.len(),
{
    if s.len() > 0 {
        lemma_be_value_bound(s.drop_last());
        let h = be_value(s.drop_last());
        let p = pow256((s.len() - 1) as nat);
        assert(h * 256 + s.last() < 256 * p) by (nonlinear_arith)
            requires
                h < p,
                s.last() < 256,
        ;
    }
}

/// Reads the first `n` bytes of `input` as a big-endian unsigned integer.
fn read_be(input: &[u8], n: usize) -> (r: u64)
    requires
        n <= 8,
        n <= input@.len(),
    ensures
        r == be_value(input@.subrange(0, n as int)),
{
    let mut acc: u64 = 0;
    let mut i: usize = 0;
    while i < n
        invariant
            i <= n,
            n <= 8,
            n <= input@.len(),
            acc == be_value(input@.subrange(0, i as int)),
        decreases n - i,
    {
        let ghost prefix = input@.subrange(0, i as int + 1);
        proof {
            assert(prefix.drop_last() =~= input@.subrange(0, i as int));
            lemma_be_value_bound(prefix);
            lemma_pow256_monotone((i + 1) as nat, 8);
            reveal_with_fuel(pow256, 9);
            assert(pow256(8) == 0x1_0000_0000_0000_0000);
            assert(be_value(prefix) == acc * 256 + input@[i as int]);
        }
        acc = acc * 256 + input[i] as u64;
        i += 1;
    }
    acc
}

proof fn lemma_pow256_monotone(a: nat, b: nat)
    requires
        a <= b,
    ensures
        pow256(a) <= pow256(b),
    decreases b,
{
    if a < b {
        lemma_pow256_monotone(a, (b - 1) as nat);
    }
}

/// A length field from 0 to 125 is the payload length itself, and no
/// extension bytes stand between the header and the masking key.
pub proof fn lemma_short_length(s: Seq<u8>)
    requires
        s.len() >= 2,
        s[1] % 128 < 126,
    ensures
        resolved_length(s) == s[1] % 128,
        key_at(s) == 2,
{
}

/// A length field of 126 takes the payload length from the next two bytes,
/// big-endian; one of 127 from the next eight.
pub proof fn lemma_extended_length(s: Seq<u8>)
    requires
        s.len() >= 2,
        s[1] % 128 >= 126,
        s.len() >= key_at(s),
    ensures
        s[1] % 128 == 126 ==> key_at(s) == 4 && resolved_length(s) == s[2] * 256 + s[3],
        s[1] % 128 == 127 ==> key_at(s) == 10 && resolved_length(s) == be_value(s.subrange(2, 10)),
{
    if s[1] % 128 == 126 {
        let ext = s.subrange(2, 4);
        let first = ext.drop_last();
        assert(first.drop_last() =~= Seq::<u8>::empty());
        assert(be_value(first.drop_last()) == 0);
        assert(first.last() == s[2]);
        assert(be_value(first) == s[2]);
        assert(be_value(ext) == s[2] * 256 + s[3]);
    }
}

/// An input shorter than the two header bytes is incomplete, never malformed.
pub proof fn lemma_short_input_incomplete(s: Seq<u8>)
    requires
        s.len() < 2,
    ensures
        decode_error(s) == Some((ErrorKind::Incomplete, 0int)),
{
}

/// A masked frame whose declared length runs past the end of the input is
/// incomplete.
pub proof fn lemma_truncated_payload_incomplete(s: Seq<u8>)
    requires
        s.len() >= 2,
        s[1] >= 128,
        s.len() >= key_at(s),
        s.len() < frame_end(s),
    ensures
        decode_error(s) matches Some((ErrorKind::Incomplete, _)),
{
}

impl Frame {
    /// Reads the 32-bit big-endian masking key at the start of `input`.
    pub fn parse_masking_key(input: &[u8]) -> (r: Result<(&[u8], u32), Error>)
        ensures
            match r {
                Ok((rest, key)) => {
                    &&& input@.len() >= 4
                    &&& key == be_value(input@.subrange(0, 4))
                    &&& rest@ == input@.subrange(4, input@.len() as int)
                },
                Err(e) => input@.len() < 4 && e == (Error { kind: ErrorKind::Incomplete, offset: 0 }),
            },
    {
        if input.len() < 4 {
            return Err(Error { kind: ErrorKind::Incomplete, offset: 0 });
        }
        proof {
            lemma_be_value_bound(input@.subrange(0, 4));
            reveal_with_fuel(pow256, 5);
        }
        let key = read_be(input, 4) as u32;
        let (_, rest) = input.split_at(4);
        Ok((rest, key))
    }

    /// Reads the two header bytes: `(fin, rsv, opcode, mask, length field)`,
    /// in the order in which they stand on the wire.
    pub fn parse_pre_payload(input: &[u8]) -> (r: Result<(&[u8], (u8, u8, u8, u8, u8)), Error>)
        ensures
            match r {
                Ok((rest, (fin, rsv, opcode, mask, hint))) => {
                    &&& input@.len() >= 2
                    &&& fin == input@[0] / 128
                    &&& rsv == (input@[0] / 16) % 8
                    &&& opcode == input@[0] % 16
                    &&& mask == input@[1] / 128
                    &&& hint == hint_of(input@)
                    &&& rest@ == input@.subrange(2, input@.len() as int)
                },
                Err(e) => input@.len() < 2 && e == (Error { kind: ErrorKind::Incomplete, offset: 0 }),
            },
    {
        if input.len() < 2 {
            return Err(Error { kind: ErrorKind::Incomplete, offset: 0 });
        }
        let first = input[0];
        let second = input[1];
        let (_, rest) = input.split_at(2);
        Ok((rest, (first / 128, (first / 16) % 8, first % 16, second / 128, second % 128)))
    }

    /// Reads the extended payload length that the seven-bit field `hint`
    /// announces: none for 0 to 125, 16 bits for 126, 64 bits for 127.
    pub fn parse_extended_length(input: &[u8], hint: u8) -> (r: Result<(&[u8], u64), Error>)
        requires
            hint < 128,
        ensures
            match r {
                Ok((rest, len)) => {
                    &&& input@.len() >= ext_len(hint)
                    &&& len == if hint < 126 {
                        hint as nat
                    } else {
                        be_value(input@.subrange(0, ext_len(hint)))
                    }
                    &&& rest@ == input@.subrange(ext_len(hint), input@.len() as int)
                },
                Err(e) => input@.len() < ext_len(hint) && e == (Error {
                    kind: ErrorKind::Incomplete,
                    offset: 0,
                }),
            },
    {
        if hint < 126 {
            assert(input@.subrange(0, input@.len() as int) =~= input@);
            return Ok((input, hint as u64));
        }
        let width: usize = if hint == 126 { 2 } else { 8 };
        if input.len() < width {
            return Err(Error { kind: ErrorKind::Incomplete, offset: 0 });
        }
        let len = read_be(input, width);
        let (_, rest) = input.split_at(width);
        Ok((rest, len))
    }

    /// Decodes the frame at the start of `input`: returns the bytes that
    /// follow it and the frame, its payload unmasked. Frames from a client
    /// must be masked; one without the mask bit is malformed.
    pub fn from_bytes(input: Vec<u8>) -> (r: Result<(Vec<u8>, Frame), Error>)
        ensures
            match r {
                Ok((rest, frame)) => {
                    let s = input@;
                    &&& decode_error(s) is None
                    &&& frame.fin == s[0] / 128
                    &&& frame.rsv == (s[0] / 16) % 8
                    &&& frame.opcode == s[0] % 16
                    &&& frame.mask == 1
                    &&& frame.length == resolved_length(s)
                    &&& frame.masking_key == be_value(key_bytes(s))
                    &&& frame.payload@ == masked(s.subrange(payload_at(s), frame_end(s)), key_bytes(s))
                    &&& rest@ == s.subrange(frame_end(s), s.len() as int)
                },
                Err(e) => decode_error(input@) == Some((e.kind, e.offset as int)),
            },
    {
        let ghost s = input@;
        let (after_header, (fin, rsv, opcode, mask, hint)) = match Frame::parse_pre_payload(
            input.as_slice(),
        ) {
            Ok(parsed) => parsed,
            Err(e) => return Err(e),
        };
        if mask == 0 {
            return Err(Error { kind: ErrorKind::MalformedFrame, offset: 1 });
        }
        let (after_length, length) = match Frame::parse_extended_length(after_header, hint) {
            Ok(parsed) => parsed,
            Err(_) => return Err(Error { kind: ErrorKind::Incomplete, offset: 2 }),
        };
        proof {
            if hint >= 126 {
                assert(s.subrange(2, key_at(s)) =~= after_header@.subrange(0, ext_len(hint)));
            }
        }
        let key_offset = input.len() - after_length.len();
        let (after_key, masking_key) = match Frame::parse_masking_key(after_length) {
            Ok(parsed) => parsed,
            Err(_) => return Err(Error { kind: ErrorKind::Incomplete, offset: key_offset }),
        };
        assert(key_bytes(s) =~= after_length@.subrange(0, 4));
        let payload_offset = input.len() - after_key.len();
        if (after_key.len() as u64) < length {
            return Err(Error { kind: ErrorKind::Incomplete, offset: payload_offset });
        }
        let n = length as usize;
        let key: [u8; 4] = [after_length[0], after_length[1], after_length[2], after_length[3]];
        assert(key@ =~= key_bytes(s));
        let mut payload: Vec<u8> = vec![0u8; n];
        decode(payload.as_mut_slice(), after_key, key, n);
        let (_, tail) = after_key.split_at(n);
        let rest = vstd::slice::slice_to_vec(tail);
        assert(payload@ =~= payload@.subrange(0, n as int));
        assert(after_key@.subrange(0, n as int) =~= s.subrange(payload_at(s), frame_end(s)));
        assert(rest@ =~= s.subrange(frame_end(s), s.len() as int));
        Ok((rest, Frame { fin, rsv, mask, opcode, length, masking_key, payload }))
    }
}

} // verus!
