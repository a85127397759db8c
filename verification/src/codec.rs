//! The byte encoding of shard-run tables, as bincode writes and reads them
//! with its standard configuration.
//!
//! Integers use bincode's variable-length encoding: a value below 251 is one
//! byte; otherwise a tag byte (251, 252 or 253) is followed by the value as a
//! little-endian `u16`, `u32` or `u64`. A sequence is its length followed by
//! its elements, and a pair is its two fields in order.

use vstd::bytes::*;
use vstd::prelude::*;

verus! {

broadcast use vstd::seq_lib::group_seq_properties;

/// The variable-length encoding of an unsigned integer.
pub open spec fn varint(v: u64) -> Seq<u8> {
    if v <= 250 {
        seq![v as u8]
    } else if v <= 0xffff {
        seq![251u8] + spec_u16_to_le_bytes(v as u16)
    } else if v <= 0xffff_ffff {
        seq![252u8] + spec_u32_to_le_bytes(v as u32)
    } else {
        seq![253u8] + spec_u64_to_le_bytes(v)
    }
}

/// The encoding of the pairs of `runs`, one after the other.
pub open spec fn encode_pairs(runs: Seq<(u32, u32)>) -> Seq<u8>
    decreases runs.len(),
{
    if runs.len() == 0 {
        Seq::empty()
    } else {
        encode_pairs(runs.drop_last()) + varint(runs.last().0 as u64) + varint(runs.last().1 as u64)
    }
}

/// The encoding of a sequence of pairs: its length, then the pairs.
pub open spec fn encode_runs(runs: Seq<(u32, u32)>) -> Seq<u8> {
    varint(runs.len() as u64) + encode_pairs(runs)
}

/// Decoding a `u32` from the start of `s`: its value and the number of bytes read.
pub open spec fn parse_varint_u32(s: Seq<u8>) -> Option<(u32, nat)> {
    if s.len() == 0 {
        None
    } else if s[0] <= 250 {
        Some((s[0] as u32, 1))
    } else if s[0] == 251 {
        if s.len() < 3 {
            None
        } else {
            Some((spec_u16_from_le_bytes(s.subrange(1, 3)) as u32, 3))
        }
    } else if s[0] == 252 {
        if s.len() < 5 {
            None
        } else {
            Some((spec_u32_from_le_bytes(s.subrange(1, 5)), 5))
        }
    } else {
        None
    }
}

/// Decoding a `u64` from the start of `s`: its value and the number of bytes read.
pub open spec fn parse_varint_u64(s: Seq<u8>) -> Option<(u64, nat)> {
    if s.len() >= 1 && s[0] == 253 {
        if s.len() < 9 {
            None
        } else {
            Some((spec_u64_from_le_bytes(s.subrange(1, 9)), 9))
        }
    } else {
        match parse_varint_u32(s) {
            Some((v, n)) => Some((v as u64, n)),
            None => None,
        }
    }
}

/// Decoding `n` pairs from the start of `s`: the pairs and the number of bytes read.
pub open spec fn parse_pairs(s: Seq<u8>, n: nat) -> Option<(Seq<(u32, u32)>, nat)>
    decreases n,
{
    if n == 0 {
        Some((Seq::empty(), 0))
    } else {
        match parse_pairs(s, (n - 1) as nat) {
            None => None,
            Some((ps, used)) => match parse_varint_u32(s.skip(used as int)) {
                None => None,
                Some((a, k1)) => match parse_varint_u32(s.skip((used + k1) as int)) {
                    None => None,
                    Some((b, k2)) => Some((ps.push((a, b)), used + k1 + k2)),
                },
            },
        }
    }
}

/// Decoding a sequence of pairs from the start of `s`: the length (read as a
/// `u64` and taken as a `usize`), then that many pairs.
pub open spec fn parse_runs(s: Seq<u8>) -> Option<(Seq<(u32, u32)>, nat)> {
    match parse_varint_u64(s) {
        None => None,
        Some((n, k)) => match parse_pairs(s.skip(k as int), (n as usize) as nat) {
            None => None,
            Some((ps, used)) => Some((ps, k + used)),
        },
    }
}

/// Calls `bincode::serde::encode_to_vec` with the standard configuration on a
/// slice of pairs. The source writes the length and the fields with the
/// variable-length encoding into a growing vector, which cannot fail.
#[verifier::external_body]
pub(crate) fn bincode_encode_runs(runs: &[(u32, u32)]) -> (r: Vec<u8>)
    ensures
        r@ == encode_runs(runs@),
{
    bincode::serde::encode_to_vec(runs, bincode::config::standard()).unwrap_or_default()
}

/// Calls `bincode::serde::decode_from_slice` with the standard configuration
/// for a vector of pairs: it succeeds exactly when the bytes start with such a
/// vector, and returns it with the number of bytes read.
#[verifier::external_body]
pub(crate) fn bincode_decode_runs(data: &[u8]) -> (r: Option<(Vec<(u32, u32)>, usize)>)
    ensures
        r is Some <==> parse_runs(data@) is Some,
        r matches Some((v, n)) ==> parse_runs(data@) == Some((v@, n as nat)),
{
    bincode::serde::decode_from_slice::<Vec<(u32, u32)>, _>(data, bincode::config::standard()).ok()
}

/// Calls `bincode::serde::decode_from_slice` with the standard configuration
/// for a `u64`: it succeeds exactly when the bytes start with a variable-length
/// `u64`, and returns it with the number of bytes read.
#[verifier::external_body]
pub(crate) fn bincode_decode_u64(data: &[u8]) -> (r: Option<(u64, usize)>)
    ensures
        r is Some <==> parse_varint_u64(data@) is Some,
        r matches Some((v, n)) ==> parse_varint_u64(data@) == Some((v, n as nat)),
{
    bincode::serde::decode_from_slice::<u64, _>(data, bincode::config::standard()).ok()
}

/// Decoding the encoding of a value gives the value back, whatever follows it.
pub proof fn lemma_varint_roundtrip(v: u64, rest: Seq<u8>)
    ensures
        v <= u32::MAX ==> parse_varint_u32(varint(v) + rest) == Some((v as u32, varint(v).len())),
        parse_varint_u64(varint(v) + rest) == Some((v, varint(v).len())),
{
    lemma_auto_spec_u16_to_from_le_bytes();
    lemma_auto_spec_u32_to_from_le_bytes();
    lemma_auto_spec_u64_to_from_le_bytes();
    let s = varint(v) + rest;
    if v <= 250 {
    } else if v <= 0xffff {
        assert(s.subrange(1, 3) =~= spec_u16_to_le_bytes(v as u16));
    } else if v <= 0xffff_ffff {
        assert(s.subrange(1, 5) =~= spec_u32_to_le_bytes(v as u32));
    } else {
        assert(s.subrange(1, 9) =~= spec_u64_to_le_bytes(v));
    }
}

/// Decoding the encoding of pairs gives the pairs back, whatever follows them.
pub proof fn lemma_pairs_roundtrip(runs: Seq<(u32, u32)>, rest: Seq<u8>)
    ensures
        parse_pairs(encode_pairs(runs) + rest, runs.len()) == Some((runs, encode_pairs(runs).len())),
    decreases runs.len(),
{
    if runs.len() > 0 {
        let init = runs.drop_last();
        let (a, b) = runs.last();
        let tail = varint(a as u64) + varint(b as u64) + rest;
        assert(encode_pairs(runs) + rest =~= encode_pairs(init) + tail);
        lemma_pairs_roundtrip(init, tail);
        let s = encode_pairs(runs) + rest;
        let used = encode_pairs(init).len();
        assert(s.skip(used as int) =~= varint(a as u64) + (varint(b as u64) + rest));
        lemma_varint_roundtrip(a as u64, varint(b as u64) + rest);
        let k1 = varint(a as u64).len();
        assert(s.skip((used + k1) as int) =~= varint(b as u64) + rest);
        lemma_varint_roundtrip(b as u64, rest);
        assert(init.push((a, b)) =~= runs);
    }
}

/// Decoding the encoding of a table of runs gives the table back, whatever follows it.
pub proof fn lemma_runs_roundtrip(runs: Seq<(u32, u32)>, rest: Seq<u8>)
    requires
        runs.len() <= usize::MAX,
    ensures
        parse_runs(encode_runs(runs) + rest) == Some((runs, encode_runs(runs).len())),
{
    let n = runs.len() as u64;
    let s = encode_runs(runs) + rest;
    lemma_varint_roundtrip(n, encode_pairs(runs) + rest);
    assert(s =~= varint(n) + (encode_pairs(runs) + rest));
    assert(s.skip(varint(n).len() as int) =~= encode_pairs(runs) + rest);
    lemma_pairs_roundtrip(runs, rest);
}

} // verus!
