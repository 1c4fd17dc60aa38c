//! The streaming binary codec for the replay format.
//!
//! Fixed-width integers are little-endian.  Strings carry a presence byte
//! (`0x00` absent, `0x0b` present) and, when present, a ULEB128 byte-length
//! prefix followed by UTF-8 bytes.  The compressed action stream carries a
//! 32-bit byte-length prefix.  The spec-level readers below take a byte
//! sequence and a position and say exactly what value the matching
//! executable reader returns, or with which error it fails.

use vstd::arithmetic::power2::{
    lemma2_to64, lemma2_to64_rest, lemma_pow2_adds, lemma_pow2_pos, lemma_pow2_strictly_increases, pow2,
};
use vstd::bytes::{
    lemma_auto_spec_u16_to_from_le_bytes, lemma_auto_spec_u32_to_from_le_bytes,
    lemma_auto_spec_u64_to_from_le_bytes, spec_u16_from_le_bytes, spec_u16_to_le_bytes,
    spec_u32_from_le_bytes, spec_u32_to_le_bytes, spec_u64_from_le_bytes, spec_u64_to_le_bytes,
    u16_from_le_bytes, u16_to_le_bytes, u32_from_le_bytes, u32_to_le_bytes, u64_from_le_bytes,
    u64_to_le_bytes,
};
use vstd::prelude::*;
use vstd::slice::{slice_subrange, slice_to_vec};
use vstd::string::StringSliceAdditionalSpecFns;
use vstd::string::StrSliceExecFns;
use vstd::utf8::{
    decode_utf8, encode_utf8, encode_utf8_decode_utf8, encode_utf8_valid_utf8, valid_utf8,
};

use crate::mods::{Mod, ModSet};
use crate::replay::{
    mode_byte, mode_of_byte, spec_mode_byte, spec_mode_of_byte, Mode, Replay, ReplayView,
};
use crate::Error;

verus! {

/// Reads one byte.
pub open spec fn sdec_u8(s: Seq<u8>, i: int) -> Result<(u8, int), Error> {
    if 0 <= i && i + 1 <= s.len() {
        Ok((s[i], i + 1))
    } else {
        Err(Error::TruncatedInput)
    }
}

/// Reads a little-endian 16-bit integer.
pub open spec fn sdec_u16(s: Seq<u8>, i: int) -> Result<(u16, int), Error> {
    if 0 <= i && i + 2 <= s.len() {
        Ok((spec_u16_from_le_bytes(s.subrange(i, i + 2)), i + 2))
    } else {
        Err(Error::TruncatedInput)
    }
}

/// Reads a little-endian 32-bit integer.
pub open spec fn sdec_u32(s: Seq<u8>, i: int) -> Result<(u32, int), Error> {
    if 0 <= i && i + 4 <= s.len() {
        Ok((spec_u32_from_le_bytes(s.subrange(i, i + 4)), i + 4))
    } else {
        Err(Error::TruncatedInput)
    }
}

/// Reads a little-endian 64-bit integer.
pub open spec fn sdec_u64(s: Seq<u8>, i: int) -> Result<(u64, int), Error> {
    if 0 <= i && i + 8 <= s.len() {
        Ok((spec_u64_from_le_bytes(s.subrange(i, i + 8)), i + 8))
    } else {
        Err(Error::TruncatedInput)
    }
}

/// Reads a ULEB128 integer: seven value bits per byte, least significant
/// group first, the high bit of each byte marking a continuation.  A value
/// beyond 64 bits is rejected as [`Error::InvalidEncoding`].
pub open spec fn sdec_uleb_rec(s: Seq<u8>, i: int, shift: nat, acc: nat) -> Result<
    (nat, int),
    Error,
>
    decreases s.len() - i,
{
    if i < 0 || i >= s.len() {
        Err(Error::TruncatedInput)
    } else if shift >= 64 {
        Err(Error::InvalidEncoding)
    } else {
        let b = s[i];
        let acc2 = acc + (b % 128) * pow2(shift);
        if acc2 > 0xffff_ffff_ffff_ffff {
            Err(Error::InvalidEncoding)
        } else if b < 128 {
            Ok((acc2 as nat, i + 1))
        } else {
            sdec_uleb_rec(s, i + 1, (shift + 7) as nat, acc2 as nat)
        }
    }
}

/// Reads a ULEB128 integer.
pub open spec fn sdec_uleb(s: Seq<u8>, i: int) -> Result<(nat, int), Error> {
    sdec_uleb_rec(s, i, 0, 0)
}

/// The ULEB128 encoding of an integer: minimal, one byte per seven bits.
pub open spec fn spec_enc_uleb(n: nat) -> Seq<u8>
    decreases n,
{
    if n < 128 {
        seq![n as u8]
    } else {
        seq![(n % 128 + 128) as u8] + spec_enc_uleb(n / 128)
    }
}

/// Reads a presence-prefixed string: `0x00` for absent, `0x0b` for present
/// followed by a ULEB128 byte length and that many UTF-8 bytes.  A length
/// that overruns the input is [`Error::InvalidEncoding`]; bytes that are not
/// UTF-8 are [`Error::MalformedString`].
pub open spec fn sdec_str(s: Seq<u8>, i: int) -> Result<(Option<Seq<char>>, int), Error> {
    match sdec_u8(s, i) {
        Err(e) => Err(e),
        Ok((marker, i1)) => if marker == 0x00 {
            Ok((None, i1))
        } else if marker == 0x0b {
            match sdec_uleb(s, i1) {
                Err(e) => Err(e),
                Ok((n, i2)) => if i2 + n > s.len() {
                    Err(Error::InvalidEncoding)
                } else {
                    let b = s.subrange(i2, i2 + n);
                    if valid_utf8(b) {
                        Ok((Some(decode_utf8(b)), i2 + n))
                    } else {
                        Err(Error::MalformedString)
                    }
                },
            }
        } else {
            Err(Error::InvalidEncoding)
        },
    }
}

/// The encoding of an optional string: a presence byte, then a ULEB128
/// byte-length prefix and the UTF-8 bytes when present.
pub open spec fn spec_enc_str(s: Option<Seq<char>>) -> Seq<u8> {
    match s {
        None => seq![0x00u8],
        Some(t) => seq![0x0bu8] + spec_enc_uleb(encode_utf8(t).len()) + encode_utf8(t),
    }
}

/// Relies on `String::from_utf8`: it succeeds exactly on valid UTF-8 input,
/// and the returned string's UTF-8 encoding is the input itself.
#[verifier::external_body]
fn utf8_to_string(bytes: Vec<u8>) -> (r: Option<String>)
    ensures
        r matches Some(s) ==> valid_utf8(bytes@) && encode_utf8(s@) == bytes@,
        r is None ==> !valid_utf8(bytes@),
{
    match String::from_utf8(bytes) {
        Ok(s) => Some(s),
        Err(_) => None,
    }
}

/// Reads one byte at `pos`, returning the value and the next position.
pub fn read_u8(s: &Vec<u8>, pos: usize) -> (r: Result<(u8, usize), Error>)
    ensures
        sdec_u8(s@, pos as int) matches Ok(p) ==> r matches Ok(q) && q.0 == p.0 && q.1 == p.1,
        sdec_u8(s@, pos as int) matches Err(e) ==> r matches Err(e2) && e2 == e,
{
    if pos < s.len() {
        Ok((s[pos], pos + 1))
    } else {
        Err(Error::TruncatedInput)
    }
}

/// Reads a little-endian 16-bit integer at `pos`.
pub fn read_u16(s: &Vec<u8>, pos: usize) -> (r: Result<(u16, usize), Error>)
    ensures
        sdec_u16(s@, pos as int) matches Ok(p) ==> r matches Ok(q) && q.0 == p.0 && q.1 == p.1,
        sdec_u16(s@, pos as int) matches Err(e) ==> r matches Err(e2) && e2 == e,
{
    if pos <= s.len() && s.len() - pos >= 2 {
        let v = u16_from_le_bytes(slice_subrange(s.as_slice(), pos, pos + 2));
        Ok((v, pos + 2))
    } else {
        Err(Error::TruncatedInput)
    }
}

/// Reads a little-endian 32-bit integer at `pos`.
pub fn read_u32(s: &Vec<u8>, pos: usize) -> (r: Result<(u32, usize), Error>)
    ensures
        sdec_u32(s@, pos as int) matches Ok(p) ==> r matches Ok(q) && q.0 == p.0 && q.1 == p.1,
        sdec_u32(s@, pos as int) matches Err(e) ==> r matches Err(e2) && e2 == e,
{
    if pos <= s.len() && s.len() - pos >= 4 {
        let v = u32_from_le_bytes(slice_subrange(s.as_slice(), pos, pos + 4));
        Ok((v, pos + 4))
    } else {
        Err(Error::TruncatedInput)
    }
}

/// Reads a little-endian 64-bit integer at `pos`.
pub fn read_u64(s: &Vec<u8>, pos: usize) -> (r: Result<(u64, usize), Error>)
    ensures
        sdec_u64(s@, pos as int) matches Ok(p) ==> r matches Ok(q) && q.0 == p.0 && q.1 == p.1,
        sdec_u64(s@, pos as int) matches Err(e) ==> r matches Err(e2) && e2 == e,
{
    if pos <= s.len() && s.len() - pos >= 8 {
        let v = u64_from_le_bytes(slice_subrange(s.as_slice(), pos, pos + 8));
        Ok((v, pos + 8))
    } else {
        Err(Error::TruncatedInput)
    }
}

/// Reads a ULEB128 integer at `pos`.
pub fn read_uleb(s: &Vec<u8>, pos: usize) -> (r: Result<(u64, usize), Error>)
    ensures
        sdec_uleb(s@, pos as int) matches Ok(p) ==> r matches Ok(q) && q.0 as nat == p.0 && q.1
            == p.1,
        sdec_uleb(s@, pos as int) matches Err(e) ==> r matches Err(e2) && e2 == e,
        r matches Ok(q) ==> pos < q.1 <= s@.len(),
{
    let mut p = pos;
    let mut acc: u128 = 0;
    let mut factor: u128 = 1;
    let ghost mut shift: nat = 0;
    proof {
        lemma2_to64();
        lemma2_to64_rest();
    }
    loop
        invariant
            pos <= p,
            acc <= 0xffff_ffff_ffff_ffff,
            factor == pow2(shift),
            factor <= 0x8000_0000_0000_0000,
            shift % 7 == 0,
            shift < 64,
            sdec_uleb(s@, pos as int) == sdec_uleb_rec(s@, p as int, shift, acc as nat),
        decreases s@.len() - p,
    {
        if p >= s.len() {
            return Err(Error::TruncatedInput);
        }
        let b = s[p];
        proof {
            assert((b & 0x7f) == b % 128 && ((b & 0x80) == 0 <==> b < 128)) by (bit_vector);
            lemma2_to64();
            lemma2_to64_rest();
            if shift < 63 {
                lemma_pow2_strictly_increases(shift, 63);
            }
        }
        let low = (b & 0x7f) as u128;
        proof {
            assert(low <= 127 && factor <= 0x8000_0000_0000_0000 ==> low * factor <= 127
                * 0x8000_0000_0000_0000) by (nonlinear_arith);
        }
        let acc2 = acc + low * factor;
        if acc2 > 0xffff_ffff_ffff_ffff {
            return Err(Error::InvalidEncoding);
        }
        if (b & 0x80) == 0 {
            return Ok(((acc2 as u64), p + 1));
        }
        if factor >= 0x8000_0000_0000_0000 {
            // this was the group at bit 63: the next one would pass the
            // 64-bit bound, which the spec rejects once the byte is seen
            proof {
                assert(shift == 63);
                assert(sdec_uleb_rec(s@, p as int + 1, 70, acc2 as nat) == (if p as int + 1
                    >= s@.len() {
                    Err::<(nat, int), Error>(Error::TruncatedInput)
                } else {
                    Err::<(nat, int), Error>(Error::InvalidEncoding)
                }));
            }
            if p + 1 >= s.len() {
                return Err(Error::TruncatedInput);
            }
            return Err(Error::InvalidEncoding);
        }
        proof {
            lemma_pow2_adds(shift, 7);
            lemma2_to64();
            lemma2_to64_rest();
            assert(shift <= 56) by {
                if shift > 56 {
                    assert(shift == 63);
                }
            }
            if shift < 56 {
                lemma_pow2_strictly_increases(shift, 56);
            }
            assert(factor <= 0x100_0000_0000_0000);
        }
        factor = factor * 128;
        proof {
            shift = shift + 7;
        }
        acc = acc2;
        p = p + 1;
    }
}

/// Appends one byte.
pub fn write_u8(out: &mut Vec<u8>, v: u8)
    ensures
        final(out)@ == old(out)@ + seq![v],
{
    out.push(v);
    proof {
        assert(old(out)@.push(v) =~= old(out)@ + seq![v]);
    }
}

/// Appends a little-endian 16-bit integer.
pub fn write_u16(out: &mut Vec<u8>, v: u16)
    ensures
        final(out)@ == old(out)@ + spec_u16_to_le_bytes(v),
{
    let mut b = u16_to_le_bytes(v);
    out.append(&mut b);
}

/// Appends a little-endian 32-bit integer.
pub fn write_u32(out: &mut Vec<u8>, v: u32)
    ensures
        final(out)@ == old(out)@ + spec_u32_to_le_bytes(v),
{
    let mut b = u32_to_le_bytes(v);
    out.append(&mut b);
}

/// Appends a little-endian 64-bit integer.
pub fn write_u64(out: &mut Vec<u8>, v: u64)
    ensures
        final(out)@ == old(out)@ + spec_u64_to_le_bytes(v),
{
    let mut b = u64_to_le_bytes(v);
    out.append(&mut b);
}

/// Appends the ULEB128 encoding of an integer.
pub fn write_uleb(out: &mut Vec<u8>, n: u64)
    ensures
        final(out)@ == old(out)@ + spec_enc_uleb(n as nat),
{
    let mut m = n;
    loop
        invariant
            out@ + spec_enc_uleb(m as nat) == old(out)@ + spec_enc_uleb(n as nat),
        decreases m,
    {
        if m < 128 {
            out.push(m as u8);
            proof {
                assert(out@ =~= old(out)@ + spec_enc_uleb(n as nat));
            }
            return ;
        }
        let b = (m % 128 + 128) as u8;
        let ghost before = out@;
        out.push(b);
        proof {
            assert(out@ + spec_enc_uleb(m as nat / 128) =~= before + spec_enc_uleb(m as nat));
        }
        m = m / 128;
    }
}

/// Appends the encoding of an optional string.
pub fn write_str(out: &mut Vec<u8>, s: &Option<String>)
    ensures
        final(out)@ == old(out)@ + spec_enc_str(s.deep_view()),
{
    match s {
        None => {
            write_u8(out, 0x00);
        },
        Some(st) => {
            write_u8(out, 0x0b);
            let mut bytes = st.as_str().as_bytes_vec();
            write_uleb(out, bytes.len() as u64);
            out.append(&mut bytes);
            proof {
                assert(out@ =~= old(out)@ + spec_enc_str(s.deep_view()));
            }
        },
    }
}

/// Reads an optional string at `pos`.
pub fn read_str(s: &Vec<u8>, pos: usize) -> (r: Result<(Option<String>, usize), Error>)
    ensures
        sdec_str(s@, pos as int) matches Ok(p) ==> r matches Ok(q) && q.0.deep_view() == p.0
            && q.1 == p.1,
        sdec_str(s@, pos as int) matches Err(e) ==> r matches Err(e2) && e2 == e,
{
    let (marker, p1) = match read_u8(s, pos) {
        Ok(q) => q,
        Err(e) => {
            return Err(e);
        },
    };
    if marker == 0x00 {
        Ok((None, p1))
    } else if marker == 0x0b {
        let (n, p2) = match read_uleb(s, p1) {
            Ok(q) => q,
            Err(e) => {
                return Err(e);
            },
        };
        if n > (s.len() - p2) as u64 {
            return Err(Error::InvalidEncoding);
        }
        let nn = n as usize;
        let bytes = slice_to_vec(slice_subrange(s.as_slice(), p2, p2 + nn));
        match utf8_to_string(bytes) {
            Some(st) => {
                proof {
                    encode_utf8_decode_utf8(st@);
                }
                Ok((Some(st), p2 + nn))
            },
            None => Err(Error::MalformedString),
        }
    } else {
        Err(Error::InvalidEncoding)
    }
}

/// The byte image of a record: every field in its fixed order and width.
/// The trailing accuracy field is written exactly when present.
pub open spec fn spec_encode(v: ReplayView) -> Seq<u8> {
    seq![spec_mode_byte(v.mode)] + spec_u32_to_le_bytes(v.version) + spec_enc_str(v.beatmap_hash)
        + spec_enc_str(v.player_username) + spec_enc_str(v.replay_hash) + spec_u16_to_le_bytes(
        v.count_300,
    ) + spec_u16_to_le_bytes(v.count_100) + spec_u16_to_le_bytes(v.count_50)
        + spec_u16_to_le_bytes(v.count_geki) + spec_u16_to_le_bytes(v.count_katu)
        + spec_u16_to_le_bytes(v.count_miss) + spec_u32_to_le_bytes(v.score)
        + spec_u16_to_le_bytes(v.max_combo) + seq![
        if v.perfect {
            1u8
        } else {
            0u8
        },
    ] + spec_u32_to_le_bytes(v.mods.spec_bits()) + spec_enc_str(v.life_graph)
        + spec_u64_to_le_bytes(v.timestamp) + spec_u32_to_le_bytes(v.action_data.len() as u32)
        + v.action_data + spec_u64_to_le_bytes(v.score_id) + (match v.target_practice_accuracy {
        None => Seq::<u8>::empty(),
        Some(a) => spec_u64_to_le_bytes(a),
    })
}

/// What decoding a byte sequence yields: the record, or the error the
/// first ill-formed field raises.  Every byte must be consumed; trailing
/// data is [`Error::InvalidEncoding`].
pub open spec fn spec_decode(s: Seq<u8>) -> Result<ReplayView, Error> {
    match sdec_u8(s, 0) {
        Err(e) => Err(e),
        Ok((mode_b, p)) => match spec_mode_of_byte(mode_b) {
            None => Err(Error::InvalidEncoding),
            Some(mode) => match sdec_u32(s, p) {
                Err(e) => Err(e),
                Ok((version, p)) => match sdec_str(s, p) {
                    Err(e) => Err(e),
                    Ok((beatmap_hash, p)) => match sdec_str(s, p) {
                        Err(e) => Err(e),
                        Ok((player_username, p)) => match sdec_str(s, p) {
                            Err(e) => Err(e),
                            Ok((replay_hash, p)) => match sdec_u16(s, p) {
                                Err(e) => Err(e),
                                Ok((count_300, p)) => match sdec_u16(s, p) {
                                    Err(e) => Err(e),
                                    Ok((count_100, p)) => match sdec_u16(s, p) {
                                        Err(e) => Err(e),
                                        Ok((count_50, p)) => match sdec_u16(s, p) {
                                            Err(e) => Err(e),
                                            Ok((count_geki, p)) => spec_decode_tail(
                                                s,
                                                mode,
                                                version,
                                                beatmap_hash,
                                                player_username,
                                                replay_hash,
                                                count_300,
                                                count_100,
                                                count_50,
                                                count_geki,
                                                p,
                                            ),
                                        },
                                    },
                                },
                            },
                        },
                    },
                },
            },
        },
    }
}

/// The remainder of [`spec_decode`], from the katu count on.
pub open spec fn spec_decode_tail(
    s: Seq<u8>,
    mode: Mode,
    version: u32,
    beatmap_hash: Option<Seq<char>>,
    player_username: Option<Seq<char>>,
    replay_hash: Option<Seq<char>>,
    count_300: u16,
    count_100: u16,
    count_50: u16,
    count_geki: u16,
    p0: int,
) -> Result<ReplayView, Error> {
    match sdec_u16(s, p0) {
        Err(e) => Err(e),
        Ok((count_katu, p)) => match sdec_u16(s, p) {
            Err(e) => Err(e),
            Ok((count_miss, p)) => match sdec_u32(s, p) {
                Err(e) => Err(e),
                Ok((score, p)) => match sdec_u16(s, p) {
                    Err(e) => Err(e),
                    Ok((max_combo, p)) => match sdec_u8(s, p) {
                        Err(e) => Err(e),
                        Ok((perfect_b, p)) => match sdec_u32(s, p) {
                            Err(e) => Err(e),
                            Ok((mods_bits, p)) => match sdec_str(s, p) {
                                Err(e) => Err(e),
                                Ok((life_graph, p)) => match sdec_u64(s, p) {
                                    Err(e) => Err(e),
                                    Ok((timestamp, p)) => match sdec_u32(s, p) {
                                        Err(e) => Err(e),
                                        Ok((blob_len, p)) => if p + blob_len > s.len() {
                                            Err(Error::TruncatedInput)
                                        } else {
                                            let action_data = s.subrange(p, p + blob_len);
                                            let p2 = p + blob_len;
                                            match sdec_u64(s, p2) {
                                                Err(e) => Err(e),
                                                Ok((score_id, p3)) => {
                                                    let mods = ModSet::spec_from_bitmask(
                                                        mods_bits,
                                                    );
                                                    if mods.spec_contains(Mod::TargetPractice) {
                                                        match sdec_u64(s, p3) {
                                                            Err(e) => Err(e),
                                                            Ok((acc, p4)) => if p4 == s.len() {
                                                                Ok(
                                                                    ReplayView {
                                                                        mode,
                                                                        version,
                                                                        beatmap_hash,
                                                                        player_username,
                                                                        replay_hash,
                                                                        count_300,
                                                                        count_100,
                                                                        count_50,
                                                                        count_geki,
                                                                        count_katu,
                                                                        count_miss,
                                                                        score,
                                                                        max_combo,
                                                                        perfect: perfect_b == 1,
                                                                        mods,
                                                                        life_graph,
                                                                        timestamp,
                                                                        action_data,
                                                                        score_id,
                                                                        target_practice_accuracy:
                                                                            Some(acc),
                                                                    },
                                                                )
                                                            } else {
                                                                Err(Error::InvalidEncoding)
                                                            },
                                                        }
                                                    } else if p3 == s.len() {
                                                        Ok(
                                                            ReplayView {
                                                                mode,
                                                                version,
                                                                beatmap_hash,
                                                                player_username,
                                                                replay_hash,
                                                                count_300,
                                                                count_100,
                                                                count_50,
                                                                count_geki,
                                                                count_katu,
                                                                count_miss,
                                                                score,
                                                                max_combo,
                                                                perfect: perfect_b == 1,
                                                                mods,
                                                                life_graph,
                                                                timestamp,
                                                                action_data,
                                                                score_id,
                                                                target_practice_accuracy: None,
                                                            },
                                                        )
                                                    } else {
                                                        Err(Error::InvalidEncoding)
                                                    }
                                                },
                                            }
                                        },
                                    },
                                },
                            },
                        },
                    },
                },
            },
        },
    }
}

/// A string field short enough for its byte length to ride in a ULEB128
/// prefix of at most 64 bits.  Every string an executable record can hold
/// satisfies this.
pub open spec fn spec_str_bounded(o: Option<Seq<char>>) -> bool {
    match o {
        None => true,
        Some(t) => encode_utf8(t).len() <= 0xffff_ffff_ffff_ffff,
    }
}

/// A record whose variable-length fields fit their length prefixes.
pub open spec fn spec_view_bounded(v: ReplayView) -> bool {
    &&& spec_str_bounded(v.beatmap_hash)
    &&& spec_str_bounded(v.player_username)
    &&& spec_str_bounded(v.replay_hash)
    &&& spec_str_bounded(v.life_graph)
    &&& v.action_data.len() <= 0xffff_ffff
}

/// A byte sits where the encoder put it.
pub proof fn lemma_sdec_u8_at(s: Seq<u8>, i: int, v: u8)
    requires
        0 <= i,
        i + 1 <= s.len(),
        s.subrange(i, i + 1) == seq![v],
    ensures
        sdec_u8(s, i) == Ok::<(u8, int), Error>((v, i + 1)),
{
    assert(s.subrange(i, i + 1)[0] == s[i]);
}

/// A 16-bit field reads back as written.
pub proof fn lemma_sdec_u16_at(s: Seq<u8>, i: int, v: u16)
    requires
        0 <= i,
        i + 2 <= s.len(),
        s.subrange(i, i + 2) == spec_u16_to_le_bytes(v),
    ensures
        sdec_u16(s, i) == Ok::<(u16, int), Error>((v, i + 2)),
{
    lemma_auto_spec_u16_to_from_le_bytes();
    assert(spec_u16_to_le_bytes(v).len() == 2);
    assert(spec_u16_from_le_bytes(spec_u16_to_le_bytes(v)) == v);
}

/// A 32-bit field reads back as written.
pub proof fn lemma_sdec_u32_at(s: Seq<u8>, i: int, v: u32)
    requires
        0 <= i,
        i + 4 <= s.len(),
        s.subrange(i, i + 4) == spec_u32_to_le_bytes(v),
    ensures
        sdec_u32(s, i) == Ok::<(u32, int), Error>((v, i + 4)),
{
    lemma_auto_spec_u32_to_from_le_bytes();
    assert(spec_u32_to_le_bytes(v).len() == 4);
    assert(spec_u32_from_le_bytes(spec_u32_to_le_bytes(v)) == v);
}

/// A 64-bit field reads back as written.
pub proof fn lemma_sdec_u64_at(s: Seq<u8>, i: int, v: u64)
    requires
        0 <= i,
        i + 8 <= s.len(),
        s.subrange(i, i + 8) == spec_u64_to_le_bytes(v),
    ensures
        sdec_u64(s, i) == Ok::<(u64, int), Error>((v, i + 8)),
{
    lemma_auto_spec_u64_to_from_le_bytes();
    assert(spec_u64_to_le_bytes(v).len() == 8);
    assert(spec_u64_from_le_bytes(spec_u64_to_le_bytes(v)) == v);
}

/// The generalized step for the ULEB128 round trip: with `acc` already
/// gathered below `shift`, reading the encoding of `n` lands on the total.
proof fn lemma_sdec_uleb_rec_at(s: Seq<u8>, i: int, shift: nat, acc: nat, n: nat)
    requires
        0 <= i,
        shift < 64,
        acc + n * pow2(shift) <= 0xffff_ffff_ffff_ffff,
        i + spec_enc_uleb(n).len() <= s.len(),
        s.subrange(i, i + spec_enc_uleb(n).len()) == spec_enc_uleb(n),
    ensures
        sdec_uleb_rec(s, i, shift, acc) == Ok::<(nat, int), Error>(
            ((acc + n * pow2(shift)) as nat, i + spec_enc_uleb(n).len()),
        ),
    decreases n,
{
    lemma_pow2_pos(shift);
    let enc = spec_enc_uleb(n);
    assert(s.subrange(i, i + enc.len())[0] == s[i]);
    if n < 128 {
        assert(s[i] == n as u8);
        assert(n * pow2(shift) >= n * 1) by (nonlinear_arith)
            requires
                pow2(shift) >= 1,
                n >= 0,
        ;
    } else {
        let b: u8 = (n % 128 + 128) as u8;
        assert(s[i] == b);
        let tail = spec_enc_uleb(n / 128);
        assert(enc == seq![b] + tail);
        assert forall|k: int| 0 <= k < tail.len() implies #[trigger] s.subrange(
            i + 1,
            i + 1 + tail.len(),
        )[k] == tail[k] by {
            assert(s.subrange(i + 1, i + 1 + tail.len())[k] == s[i + 1 + k]);
            assert(s.subrange(i, i + enc.len())[k + 1] == s[i + 1 + k]);
            assert(enc[k + 1] == tail[k]);
        }
        assert(s.subrange(i + 1, i + 1 + tail.len()) =~= tail);
        let acc2: nat = acc + (n % 128) * pow2(shift);
        lemma_pow2_adds(shift, 7);
        lemma2_to64();
        assert(pow2((shift + 7) as nat) == pow2(shift) * 128);
        assert(n * pow2(shift) == (n % 128) * pow2(shift) + (n / 128) * (pow2(shift) * 128))
            by (nonlinear_arith)
            requires
                n >= 0,
        ;
        assert(acc2 + (n / 128) * pow2((shift + 7) as nat) == acc + n * pow2(shift));
        assert(shift + 7 < 64) by {
            if shift + 7 >= 64 {
                lemma_pow2_strictly_increases(shift, 64);
                lemma_pow2_strictly_increases(shift, (shift + 7) as nat);
                lemma2_to64_rest();
                assert(n / 128 >= 1);
                assert((n / 128) * pow2((shift + 7) as nat) >= 1 * pow2((shift + 7) as nat))
                    by (nonlinear_arith)
                    requires
                        n / 128 >= 1,
                        pow2((shift + 7) as nat) >= 0,
                ;
                if shift + 7 > 64 {
                    lemma_pow2_strictly_increases(64, (shift + 7) as nat);
                }
                assert(pow2((shift + 7) as nat) >= pow2(64));
                assert(pow2(64) == 0x1_0000_0000_0000_0000);
            }
        }
        assert((n % 128) * pow2(shift) <= n * pow2(shift)) by (nonlinear_arith)
            requires
                0 <= n % 128 <= n,
                pow2(shift) >= 0,
        ;
        lemma_sdec_uleb_rec_at(s, i + 1, (shift + 7) as nat, acc2, n / 128);
    }
}

/// A ULEB128 length prefix reads back as written.
pub proof fn lemma_sdec_uleb_at(s: Seq<u8>, i: int, n: nat)
    requires
        0 <= i,
        n <= 0xffff_ffff_ffff_ffff,
        i + spec_enc_uleb(n).len() <= s.len(),
        s.subrange(i, i + spec_enc_uleb(n).len()) == spec_enc_uleb(n),
    ensures
        sdec_uleb(s, i) == Ok::<(nat, int), Error>((n, i + spec_enc_uleb(n).len())),
{
    lemma2_to64();
    assert(n * pow2(0) == n) by (nonlinear_arith)
        requires
            pow2(0) == 1,
    ;
    lemma_sdec_uleb_rec_at(s, i, 0, 0, n);
}

/// An optional string field reads back as written.
pub proof fn lemma_sdec_str_at(s: Seq<u8>, i: int, o: Option<Seq<char>>)
    requires
        0 <= i,
        spec_str_bounded(o),
        i + spec_enc_str(o).len() <= s.len(),
        s.subrange(i, i + spec_enc_str(o).len()) == spec_enc_str(o),
    ensures
        sdec_str(s, i) == Ok::<(Option<Seq<char>>, int), Error>((o, i + spec_enc_str(o).len())),
{
    let enc = spec_enc_str(o);
    assert(s.subrange(i, i + enc.len())[0] == s[i]);
    match o {
        None => {
            assert(s[i] == 0x00u8);
        },
        Some(t) => {
            let bytes = encode_utf8(t);
            let m = bytes.len();
            let lenc = spec_enc_uleb(m);
            assert(s[i] == 0x0bu8);
            assert forall|k: int| 0 <= k < lenc.len() implies #[trigger] s.subrange(
                i + 1,
                i + 1 + lenc.len(),
            )[k] == lenc[k] by {
                assert(s.subrange(i + 1, i + 1 + lenc.len())[k] == s[i + 1 + k]);
                assert(s.subrange(i, i + enc.len())[k + 1] == s[i + 1 + k]);
                assert(enc[k + 1] == lenc[k]);
            }
            assert(s.subrange(i + 1, i + 1 + lenc.len()) =~= lenc);
            lemma_sdec_uleb_at(s, i + 1, m);
            let i2 = i + 1 + lenc.len();
            assert forall|k: int| 0 <= k < m implies #[trigger] s.subrange(i2, i2 + m)[k]
                == bytes[k] by {
                assert(s.subrange(i2, i2 + m)[k] == s[i2 + k]);
                assert(s.subrange(i, i + enc.len())[1 + lenc.len() + k] == s[i2 + k]);
                assert(enc[1 + lenc.len() + k] == bytes[k]);
            }
            assert(s.subrange(i2, i2 + m) =~= bytes);
            encode_utf8_valid_utf8(t);
            encode_utf8_decode_utf8(t);
        },
    }
}

/// The tail of the record round trip: from the katu count on, the bytes
/// the encoder wrote read back as the record's own fields.
#[verifier::rlimit(100)]
#[verifier::spinoff_prover]
proof fn lemma_record_round_trip_tail(v: ReplayView, p0: int)
    requires
        v.wf(),
        spec_view_bounded(v),
        p0 == 13 + spec_enc_str(v.beatmap_hash).len() + spec_enc_str(v.player_username).len()
            + spec_enc_str(v.replay_hash).len(),
    ensures
        spec_decode_tail(
            spec_encode(v),
            v.mode,
            v.version,
            v.beatmap_hash,
            v.player_username,
            v.replay_hash,
            v.count_300,
            v.count_100,
            v.count_50,
            v.count_geki,
            p0,
        ) == Ok::<ReplayView, Error>(v),
{
    let s = spec_encode(v);
    let e10 = spec_u16_to_le_bytes(v.count_katu);
    let e11 = spec_u16_to_le_bytes(v.count_miss);
    let e12 = spec_u32_to_le_bytes(v.score);
    let e13 = spec_u16_to_le_bytes(v.max_combo);
    let e14 = seq![if v.perfect { 1u8 } else { 0u8 }];
    let e15 = spec_u32_to_le_bytes(v.mods.spec_bits());
    let e16 = spec_enc_str(v.life_graph);
    let e17 = spec_u64_to_le_bytes(v.timestamp);
    let e18 = spec_u32_to_le_bytes(v.action_data.len() as u32);
    let e19 = v.action_data;
    let e20 = spec_u64_to_le_bytes(v.score_id);
    let e21 = match v.target_practice_accuracy {
        None => Seq::<u8>::empty(),
        Some(a) => spec_u64_to_le_bytes(a),
    };
    lemma_auto_spec_u16_to_from_le_bytes();
    lemma_auto_spec_u32_to_from_le_bytes();
    lemma_auto_spec_u64_to_from_le_bytes();
    let o10 = p0 + e10.len();
    let o11 = o10 + e11.len();
    let o12 = o11 + e12.len();
    let o13 = o12 + e13.len();
    let o14 = o13 + e14.len();
    let o15 = o14 + e15.len();
    let o16 = o15 + e16.len();
    let o17 = o16 + e17.len();
    let o18 = o17 + e18.len();
    let o19 = o18 + e19.len();
    let o20 = o19 + e20.len();
    let o21 = o20 + e21.len();
    assert(s.len() == o21);
    assert(s.subrange(p0, o10) =~= e10);
    assert(s.subrange(o10, o11) =~= e11);
    assert(s.subrange(o11, o12) =~= e12);
    assert(s.subrange(o12, o13) =~= e13);
    assert(s.subrange(o13, o14) =~= e14);
    assert(s.subrange(o14, o15) =~= e15);
    assert(s.subrange(o15, o16) =~= e16);
    assert(s.subrange(o16, o17) =~= e17);
    assert(s.subrange(o17, o18) =~= e18);
    assert(s.subrange(o18, o19) =~= e19);
    assert(s.subrange(o19, o20) =~= e20);
    assert(s.subrange(o20, o21) =~= e21);
    lemma_sdec_u16_at(s, p0, v.count_katu);
    lemma_sdec_u16_at(s, o10, v.count_miss);
    lemma_sdec_u32_at(s, o11, v.score);
    lemma_sdec_u16_at(s, o12, v.max_combo);
    lemma_sdec_u8_at(s, o13, if v.perfect { 1u8 } else { 0u8 });
    lemma_sdec_u32_at(s, o14, v.mods.spec_bits());
    lemma_sdec_str_at(s, o15, v.life_graph);
    lemma_sdec_u64_at(s, o16, v.timestamp);
    lemma_sdec_u32_at(s, o17, v.action_data.len() as u32);
    ModSet::lemma_modset_round_trip(v.mods);
    assert(o18 + (v.action_data.len() as u32) as int <= s.len());
    lemma_sdec_u64_at(s, o19, v.score_id);
    match v.target_practice_accuracy {
        Some(a) => {
            lemma_sdec_u64_at(s, o20, a);
        },
        None => {},
    }
}

/// Byte offset of the beatmap hash within an encoded record.
pub open spec fn off_beatmap_hash() -> int {
    5
}

/// Byte offset of the player name within an encoded record.
pub open spec fn off_username(v: ReplayView) -> int {
    off_beatmap_hash() + spec_enc_str(v.beatmap_hash).len()
}

/// Byte offset of the replay hash within an encoded record.
pub open spec fn off_replay_hash(v: ReplayView) -> int {
    off_username(v) + spec_enc_str(v.player_username).len()
}

/// Byte offset of the judgement counts within an encoded record.
pub open spec fn off_counts(v: ReplayView) -> int {
    off_replay_hash(v) + spec_enc_str(v.replay_hash).len()
}

/// The segments of an encoded record's head sit at their offsets.
#[verifier::rlimit(100)]
#[verifier::spinoff_prover]
proof fn lemma_head_segments(v: ReplayView)
    ensures
        spec_encode(v).len() >= off_counts(v) + 8,
        spec_encode(v).subrange(0, 1) == seq![spec_mode_byte(v.mode)],
        spec_encode(v).subrange(1, 5) == spec_u32_to_le_bytes(v.version),
        spec_encode(v).subrange(off_beatmap_hash(), off_username(v)) == spec_enc_str(
            v.beatmap_hash,
        ),
        spec_encode(v).subrange(off_username(v), off_replay_hash(v)) == spec_enc_str(
            v.player_username,
        ),
        spec_encode(v).subrange(off_replay_hash(v), off_counts(v)) == spec_enc_str(v.replay_hash),
        spec_encode(v).subrange(off_counts(v), off_counts(v) + 2) == spec_u16_to_le_bytes(
            v.count_300,
        ),
        spec_encode(v).subrange(off_counts(v) + 2, off_counts(v) + 4) == spec_u16_to_le_bytes(
            v.count_100,
        ),
        spec_encode(v).subrange(off_counts(v) + 4, off_counts(v) + 6) == spec_u16_to_le_bytes(
            v.count_50,
        ),
        spec_encode(v).subrange(off_counts(v) + 6, off_counts(v) + 8) == spec_u16_to_le_bytes(
            v.count_geki,
        ),
{
    let s = spec_encode(v);
    lemma_auto_spec_u16_to_from_le_bytes();
    lemma_auto_spec_u32_to_from_le_bytes();
    assert(spec_u32_to_le_bytes(v.version).len() == 4);
    assert(spec_u16_to_le_bytes(v.count_300).len() == 2);
    assert(spec_u16_to_le_bytes(v.count_100).len() == 2);
    assert(spec_u16_to_le_bytes(v.count_50).len() == 2);
    assert(spec_u16_to_le_bytes(v.count_geki).len() == 2);
    assert(s.subrange(0, 1) =~= seq![spec_mode_byte(v.mode)]);
    assert(s.subrange(1, 5) =~= spec_u32_to_le_bytes(v.version));
    assert(s.subrange(off_beatmap_hash(), off_username(v)) =~= spec_enc_str(v.beatmap_hash));
    assert(s.subrange(off_username(v), off_replay_hash(v)) =~= spec_enc_str(v.player_username));
    assert(s.subrange(off_replay_hash(v), off_counts(v)) =~= spec_enc_str(v.replay_hash));
    assert(s.subrange(off_counts(v), off_counts(v) + 2) =~= spec_u16_to_le_bytes(v.count_300));
    assert(s.subrange(off_counts(v) + 2, off_counts(v) + 4) =~= spec_u16_to_le_bytes(
        v.count_100,
    ));
    assert(s.subrange(off_counts(v) + 4, off_counts(v) + 6) =~= spec_u16_to_le_bytes(v.count_50));
    assert(s.subrange(off_counts(v) + 6, off_counts(v) + 8) =~= spec_u16_to_le_bytes(
        v.count_geki,
    ));
}

/// Every byte of a ULEB128 encoding but the last marks a continuation.
proof fn lemma_enc_uleb_continuation(m: nat)
    ensures
        forall|k: int|
            0 <= k < spec_enc_uleb(m).len() - 1 ==> #[trigger] spec_enc_uleb(m)[k] >= 128,
    decreases m,
{
    if m < 128 {
    } else {
        let tail = spec_enc_uleb(m / 128);
        lemma_enc_uleb_continuation(m / 128);
        assert forall|k: int| 0 <= k < spec_enc_uleb(m).len() - 1 implies #[trigger] spec_enc_uleb(
            m,
        )[k] >= 128 by {
            if k == 0 {
                assert(spec_enc_uleb(m)[0] == (m % 128 + 128) as u8);
            } else {
                assert(spec_enc_uleb(m)[k] == tail[k - 1]);
            }
        }
    }
}

/// A ULEB128 read that sees only continuation bytes up to the end of the
/// input cannot succeed.
proof fn lemma_sdec_uleb_continuation_fails(p: Seq<u8>, i: int, shift: nat, acc: nat)
    requires
        0 <= i,
        forall|j: int| i <= j < p.len() ==> p[j] >= 128,
    ensures
        sdec_uleb_rec(p, i, shift, acc) is Err,
    decreases p.len() - i,
{
    if i >= p.len() {
    } else if shift >= 64 {
    } else {
        let b = p[i];
        let acc2 = acc + (b % 128) * pow2(shift);
        if acc2 > 0xffff_ffff_ffff_ffff {
        } else {
            lemma_sdec_uleb_continuation_fails(p, i + 1, (shift + 7) as nat, acc2 as nat);
        }
    }
}

/// A string field cut anywhere before its end cannot be read.
proof fn lemma_sdec_str_prefix_fails(s: Seq<u8>, i: int, o: Option<Seq<char>>, n: int)
    requires
        0 <= i,
        spec_str_bounded(o),
        i + spec_enc_str(o).len() <= s.len(),
        s.subrange(i, i + spec_enc_str(o).len()) == spec_enc_str(o),
        i <= n < i + spec_enc_str(o).len(),
        n <= s.len(),
    ensures
        sdec_str(s.take(n), i) is Err,
{
    let enc = spec_enc_str(o);
    let p = s.take(n);
    if n == i {
        assert(sdec_u8(p, i) is Err);
    } else {
        assert(p[i] == s[i]);
        assert(s.subrange(i, i + enc.len())[0] == s[i]);
        match o {
            None => {
                assert(false);
            },
            Some(t) => {
                let bytes = encode_utf8(t);
                let m = bytes.len();
                let lenc = spec_enc_uleb(m);
                assert(p[i] == 0x0bu8);
                if n < i + 1 + lenc.len() {
                    lemma_enc_uleb_continuation(m);
                    assert forall|j: int| i + 1 <= j < p.len() implies p[j] >= 128 by {
                        assert(p[j] == s[j]);
                        assert(s.subrange(i, i + enc.len())[j - i] == s[j]);
                        assert(enc[j - i] == lenc[j - i - 1]);
                        assert(j - i - 1 < lenc.len() - 1);
                    }
                    lemma_sdec_uleb_continuation_fails(p, i + 1, 0, 0);
                } else {
                    assert forall|k: int| 0 <= k < lenc.len() implies #[trigger] p.subrange(
                        i + 1,
                        i + 1 + lenc.len(),
                    )[k] == lenc[k] by {
                        assert(p.subrange(i + 1, i + 1 + lenc.len())[k] == p[i + 1 + k]);
                        assert(p[i + 1 + k] == s[i + 1 + k]);
                        assert(s.subrange(i, i + enc.len())[k + 1] == s[i + 1 + k]);
                        assert(enc[k + 1] == lenc[k]);
                    }
                    assert(p.subrange(i + 1, i + 1 + lenc.len()) =~= lenc);
                    lemma_sdec_uleb_at(p, i + 1, m);
                    assert(i + 1 + lenc.len() + m > p.len());
                }
            },
        }
    }
}

/// Law: decoding what the encoder wrote returns the very record that was
/// encoded, every field equal — the encode-then-decode round trip.
#[verifier::rlimit(100)]
#[verifier::spinoff_prover]
pub proof fn lemma_record_round_trip(v: ReplayView)
    requires
        v.wf(),
        spec_view_bounded(v),
    ensures
        spec_decode(spec_encode(v)) == Ok::<ReplayView, Error>(v),
{
    let s = spec_encode(v);
    lemma_head_segments(v);
    lemma_sdec_u8_at(s, 0, spec_mode_byte(v.mode));
    lemma_sdec_u32_at(s, 1, v.version);
    lemma_sdec_str_at(s, off_beatmap_hash(), v.beatmap_hash);
    lemma_sdec_str_at(s, off_username(v), v.player_username);
    lemma_sdec_str_at(s, off_replay_hash(v), v.replay_hash);
    lemma_sdec_u16_at(s, off_counts(v), v.count_300);
    lemma_sdec_u16_at(s, off_counts(v) + 2, v.count_100);
    lemma_sdec_u16_at(s, off_counts(v) + 4, v.count_50);
    lemma_sdec_u16_at(s, off_counts(v) + 6, v.count_geki);
    assert(spec_mode_of_byte(spec_mode_byte(v.mode)) == Some(v.mode));
    lemma_record_round_trip_tail(v, off_counts(v) + 8);
}

/// Byte offset of the katu count within an encoded record.
pub open spec fn off_katu(v: ReplayView) -> int {
    off_counts(v) + 8
}

/// Byte offset of the life-graph string within an encoded record.
pub open spec fn off_life(v: ReplayView) -> int {
    off_katu(v) + 15
}

/// Byte offset of the timestamp within an encoded record.
pub open spec fn off_timestamp(v: ReplayView) -> int {
    off_life(v) + spec_enc_str(v.life_graph).len()
}

/// Byte offset of the action-stream length prefix within an encoded record.
pub open spec fn off_blob_len(v: ReplayView) -> int {
    off_timestamp(v) + 8
}

/// Byte offset of the action stream within an encoded record.
pub open spec fn off_blob(v: ReplayView) -> int {
    off_blob_len(v) + 4
}

/// Byte offset of the online score identifier within an encoded record.
pub open spec fn off_score_id(v: ReplayView) -> int {
    off_blob(v) + v.action_data.len()
}

/// Byte offset of the trailing accuracy field within an encoded record.
pub open spec fn off_tp(v: ReplayView) -> int {
    off_score_id(v) + 8
}

/// The segments of an encoded record's tail sit at their offsets.
#[verifier::rlimit(100)]
#[verifier::spinoff_prover]
proof fn lemma_tail_segments(v: ReplayView)
    ensures
        spec_encode(v).len() == off_tp(v) + (if v.target_practice_accuracy is Some {
            8int
        } else {
            0int
        }),
        spec_encode(v).subrange(off_katu(v), off_katu(v) + 2) == spec_u16_to_le_bytes(
            v.count_katu,
        ),
        spec_encode(v).subrange(off_katu(v) + 2, off_katu(v) + 4) == spec_u16_to_le_bytes(
            v.count_miss,
        ),
        spec_encode(v).subrange(off_katu(v) + 4, off_katu(v) + 8) == spec_u32_to_le_bytes(
            v.score,
        ),
        spec_encode(v).subrange(off_katu(v) + 8, off_katu(v) + 10) == spec_u16_to_le_bytes(
            v.max_combo,
        ),
        spec_encode(v).subrange(off_katu(v) + 10, off_katu(v) + 11) == seq![
            if v.perfect {
                1u8
            } else {
                0u8
            },
        ],
        spec_encode(v).subrange(off_katu(v) + 11, off_life(v)) == spec_u32_to_le_bytes(
            v.mods.spec_bits(),
        ),
        spec_encode(v).subrange(off_life(v), off_timestamp(v)) == spec_enc_str(v.life_graph),
        spec_encode(v).subrange(off_timestamp(v), off_blob_len(v)) == spec_u64_to_le_bytes(
            v.timestamp,
        ),
        spec_encode(v).subrange(off_blob_len(v), off_blob(v)) == spec_u32_to_le_bytes(
            v.action_data.len() as u32,
        ),
        spec_encode(v).subrange(off_blob(v), off_score_id(v)) == v.action_data,
        spec_encode(v).subrange(off_score_id(v), off_tp(v)) == spec_u64_to_le_bytes(v.score_id),
        v.target_practice_accuracy matches Some(a) ==> spec_encode(v).subrange(
            off_tp(v),
            off_tp(v) + 8,
        ) == spec_u64_to_le_bytes(a),
{
    let s = spec_encode(v);
    lemma_auto_spec_u16_to_from_le_bytes();
    lemma_auto_spec_u32_to_from_le_bytes();
    lemma_auto_spec_u64_to_from_le_bytes();
    assert(s.subrange(off_katu(v), off_katu(v) + 2) =~= spec_u16_to_le_bytes(v.count_katu));
    assert(s.subrange(off_katu(v) + 2, off_katu(v) + 4) =~= spec_u16_to_le_bytes(v.count_miss));
    assert(s.subrange(off_katu(v) + 4, off_katu(v) + 8) =~= spec_u32_to_le_bytes(v.score));
    assert(s.subrange(off_katu(v) + 8, off_katu(v) + 10) =~= spec_u16_to_le_bytes(v.max_combo));
    assert(s.subrange(off_katu(v) + 10, off_katu(v) + 11) =~= seq![
        if v.perfect {
            1u8
        } else {
            0u8
        },
    ]);
    assert(s.subrange(off_katu(v) + 11, off_life(v)) =~= spec_u32_to_le_bytes(
        v.mods.spec_bits(),
    ));
    assert(s.subrange(off_life(v), off_timestamp(v)) =~= spec_enc_str(v.life_graph));
    assert(s.subrange(off_timestamp(v), off_blob_len(v)) =~= spec_u64_to_le_bytes(v.timestamp));
    assert(s.subrange(off_blob_len(v), off_blob(v)) =~= spec_u32_to_le_bytes(
        v.action_data.len() as u32,
    ));
    assert(s.subrange(off_blob(v), off_score_id(v)) =~= v.action_data);
    assert(s.subrange(off_score_id(v), off_tp(v)) =~= spec_u64_to_le_bytes(v.score_id));
    match v.target_practice_accuracy {
        Some(a) => {
            assert(s.subrange(off_tp(v), off_tp(v) + 8) =~= spec_u64_to_le_bytes(a));
        },
        None => {},
    }
}

/// A cut in the record's head (before the katu count) makes decoding fail.
#[verifier::rlimit(100)]
#[verifier::spinoff_prover]
proof fn lemma_truncation_head(v: ReplayView, n: int)
    requires
        v.wf(),
        spec_view_bounded(v),
        0 <= n < off_katu(v),
        n <= spec_encode(v).len(),
    ensures
        spec_decode(spec_encode(v).take(n)) is Err,
{
    let s = spec_encode(v);
    let p = s.take(n);
    lemma_head_segments(v);
    if 1 <= n {
        assert(p.subrange(0, 1) =~= s.subrange(0, 1));
        lemma_sdec_u8_at(p, 0, spec_mode_byte(v.mode));
        assert(spec_mode_of_byte(spec_mode_byte(v.mode)) == Some(v.mode));
    }
    if 5 <= n {
        assert(p.subrange(1, 5) =~= s.subrange(1, 5));
        lemma_sdec_u32_at(p, 1, v.version);
    }
    if off_username(v) <= n {
        assert(p.subrange(off_beatmap_hash(), off_username(v)) =~= s.subrange(
            off_beatmap_hash(),
            off_username(v),
        ));
        lemma_sdec_str_at(p, off_beatmap_hash(), v.beatmap_hash);
    }
    if off_replay_hash(v) <= n {
        assert(p.subrange(off_username(v), off_replay_hash(v)) =~= s.subrange(
            off_username(v),
            off_replay_hash(v),
        ));
        lemma_sdec_str_at(p, off_username(v), v.player_username);
    }
    if off_counts(v) <= n {
        assert(p.subrange(off_replay_hash(v), off_counts(v)) =~= s.subrange(
            off_replay_hash(v),
            off_counts(v),
        ));
        lemma_sdec_str_at(p, off_replay_hash(v), v.replay_hash);
    }
    if off_counts(v) + 2 <= n {
        assert(p.subrange(off_counts(v), off_counts(v) + 2) =~= s.subrange(
            off_counts(v),
            off_counts(v) + 2,
        ));
        lemma_sdec_u16_at(p, off_counts(v), v.count_300);
    }
    if off_counts(v) + 4 <= n {
        assert(p.subrange(off_counts(v) + 2, off_counts(v) + 4) =~= s.subrange(
            off_counts(v) + 2,
            off_counts(v) + 4,
        ));
        lemma_sdec_u16_at(p, off_counts(v) + 2, v.count_100);
    }
    if off_counts(v) + 6 <= n {
        assert(p.subrange(off_counts(v) + 4, off_counts(v) + 6) =~= s.subrange(
            off_counts(v) + 4,
            off_counts(v) + 6,
        ));
        lemma_sdec_u16_at(p, off_counts(v) + 4, v.count_50);
    }
    if n < 1 {
        assert(sdec_u8(p, 0) is Err);
    } else if n < 5 {
        assert(sdec_u32(p, 1) is Err);
    } else if n < off_username(v) {
        lemma_sdec_str_prefix_fails(s, off_beatmap_hash(), v.beatmap_hash, n);
    } else if n < off_replay_hash(v) {
        lemma_sdec_str_prefix_fails(s, off_username(v), v.player_username, n);
    } else if n < off_counts(v) {
        lemma_sdec_str_prefix_fails(s, off_replay_hash(v), v.replay_hash, n);
    } else if n < off_counts(v) + 2 {
        assert(sdec_u16(p, off_counts(v)) is Err);
    } else if n < off_counts(v) + 4 {
        assert(sdec_u16(p, off_counts(v) + 2) is Err);
    } else if n < off_counts(v) + 6 {
        assert(sdec_u16(p, off_counts(v) + 4) is Err);
    } else {
        assert(sdec_u16(p, off_counts(v) + 6) is Err);
    }
    assert(spec_decode(p) is Err);
}

/// On a prefix that reaches the katu count, the head fields decode as the
/// record's own, so decoding continues into the tail at its offset.
#[verifier::rlimit(100)]
#[verifier::spinoff_prover]
proof fn lemma_head_complete_on_prefix(v: ReplayView, n: int)
    requires
        v.wf(),
        spec_view_bounded(v),
        off_katu(v) <= n <= spec_encode(v).len(),
    ensures
        spec_decode(spec_encode(v).take(n)) == spec_decode_tail(
            spec_encode(v).take(n),
            v.mode,
            v.version,
            v.beatmap_hash,
            v.player_username,
            v.replay_hash,
            v.count_300,
            v.count_100,
            v.count_50,
            v.count_geki,
            off_katu(v),
        ),
{
    let s = spec_encode(v);
    let p = s.take(n);
    lemma_head_segments(v);
    assert(p.subrange(0, 1) =~= s.subrange(0, 1));
    lemma_sdec_u8_at(p, 0, spec_mode_byte(v.mode));
    assert(spec_mode_of_byte(spec_mode_byte(v.mode)) == Some(v.mode));
    assert(p.subrange(1, 5) =~= s.subrange(1, 5));
    lemma_sdec_u32_at(p, 1, v.version);
    assert(p.subrange(off_beatmap_hash(), off_username(v)) =~= s.subrange(
        off_beatmap_hash(),
        off_username(v),
    ));
    lemma_sdec_str_at(p, off_beatmap_hash(), v.beatmap_hash);
    assert(p.subrange(off_username(v), off_replay_hash(v)) =~= s.subrange(
        off_username(v),
        off_replay_hash(v),
    ));
    lemma_sdec_str_at(p, off_username(v), v.player_username);
    assert(p.subrange(off_replay_hash(v), off_counts(v)) =~= s.subrange(
        off_replay_hash(v),
        off_counts(v),
    ));
    lemma_sdec_str_at(p, off_replay_hash(v), v.replay_hash);
    assert(p.subrange(off_counts(v), off_counts(v) + 2) =~= s.subrange(
        off_counts(v),
        off_counts(v) + 2,
    ));
    lemma_sdec_u16_at(p, off_counts(v), v.count_300);
    assert(p.subrange(off_counts(v) + 2, off_counts(v) + 4) =~= s.subrange(
        off_counts(v) + 2,
        off_counts(v) + 4,
    ));
    lemma_sdec_u16_at(p, off_counts(v) + 2, v.count_100);
    assert(p.subrange(off_counts(v) + 4, off_counts(v) + 6) =~= s.subrange(
        off_counts(v) + 4,
        off_counts(v) + 6,
    ));
    lemma_sdec_u16_at(p, off_counts(v) + 4, v.count_50);
    assert(p.subrange(off_counts(v) + 6, off_counts(v) + 8) =~= s.subrange(
        off_counts(v) + 6,
        off_counts(v) + 8,
    ));
    lemma_sdec_u16_at(p, off_counts(v) + 6, v.count_geki);
}

/// A cut in the record's tail (from the katu count on) makes decoding fail.
#[verifier::rlimit(100)]
#[verifier::spinoff_prover]
proof fn lemma_truncation_tail(v: ReplayView, n: int)
    requires
        v.wf(),
        spec_view_bounded(v),
        off_katu(v) <= n < spec_encode(v).len(),
    ensures
        spec_decode(spec_encode(v).take(n)) is Err,
{
    let s = spec_encode(v);
    let p = s.take(n);
    lemma_tail_segments(v);
    lemma_head_complete_on_prefix(v, n);
    if off_katu(v) + 2 <= n {
        assert(p.subrange(off_katu(v), off_katu(v) + 2) =~= s.subrange(
            off_katu(v),
            off_katu(v) + 2,
        ));
        lemma_sdec_u16_at(p, off_katu(v), v.count_katu);
    }
    if off_katu(v) + 4 <= n {
        assert(p.subrange(off_katu(v) + 2, off_katu(v) + 4) =~= s.subrange(
            off_katu(v) + 2,
            off_katu(v) + 4,
        ));
        lemma_sdec_u16_at(p, off_katu(v) + 2, v.count_miss);
    }
    if off_katu(v) + 8 <= n {
        assert(p.subrange(off_katu(v) + 4, off_katu(v) + 8) =~= s.subrange(
            off_katu(v) + 4,
            off_katu(v) + 8,
        ));
        lemma_sdec_u32_at(p, off_katu(v) + 4, v.score);
    }
    if off_katu(v) + 10 <= n {
        assert(p.subrange(off_katu(v) + 8, off_katu(v) + 10) =~= s.subrange(
            off_katu(v) + 8,
            off_katu(v) + 10,
        ));
        lemma_sdec_u16_at(p, off_katu(v) + 8, v.max_combo);
    }
    if off_katu(v) + 11 <= n {
        assert(p.subrange(off_katu(v) + 10, off_katu(v) + 11) =~= s.subrange(
            off_katu(v) + 10,
            off_katu(v) + 11,
        ));
        lemma_sdec_u8_at(p, off_katu(v) + 10, if v.perfect { 1u8 } else { 0u8 });
    }
    if off_life(v) <= n {
        assert(p.subrange(off_katu(v) + 11, off_life(v)) =~= s.subrange(
            off_katu(v) + 11,
            off_life(v),
        ));
        lemma_sdec_u32_at(p, off_katu(v) + 11, v.mods.spec_bits());
        ModSet::lemma_modset_round_trip(v.mods);
    }
    if off_timestamp(v) <= n {
        assert(p.subrange(off_life(v), off_timestamp(v)) =~= s.subrange(
            off_life(v),
            off_timestamp(v),
        ));
        lemma_sdec_str_at(p, off_life(v), v.life_graph);
    }
    if off_blob_len(v) <= n {
        assert(p.subrange(off_timestamp(v), off_blob_len(v)) =~= s.subrange(
            off_timestamp(v),
            off_blob_len(v),
        ));
        lemma_sdec_u64_at(p, off_timestamp(v), v.timestamp);
    }
    if off_blob(v) <= n {
        assert(p.subrange(off_blob_len(v), off_blob(v)) =~= s.subrange(
            off_blob_len(v),
            off_blob(v),
        ));
        lemma_sdec_u32_at(p, off_blob_len(v), v.action_data.len() as u32);
    }
    if off_tp(v) <= n {
        assert(p.subrange(off_score_id(v), off_tp(v)) =~= s.subrange(
            off_score_id(v),
            off_tp(v),
        ));
        lemma_sdec_u64_at(p, off_score_id(v), v.score_id);
    }
    if n < off_katu(v) + 2 {
        assert(sdec_u16(p, off_katu(v)) is Err);
    } else if n < off_katu(v) + 4 {
        assert(sdec_u16(p, off_katu(v) + 2) is Err);
    } else if n < off_katu(v) + 8 {
        assert(sdec_u32(p, off_katu(v) + 4) is Err);
    } else if n < off_katu(v) + 10 {
        assert(sdec_u16(p, off_katu(v) + 8) is Err);
    } else if n < off_katu(v) + 11 {
        assert(sdec_u8(p, off_katu(v) + 10) is Err);
    } else if n < off_life(v) {
        assert(sdec_u32(p, off_katu(v) + 11) is Err);
    } else if n < off_timestamp(v) {
        lemma_sdec_str_prefix_fails(s, off_life(v), v.life_graph, n);
    } else if n < off_blob_len(v) {
        assert(sdec_u64(p, off_timestamp(v)) is Err);
    } else if n < off_blob(v) {
        assert(sdec_u32(p, off_blob_len(v)) is Err);
    } else if n < off_score_id(v) {
        assert(off_blob(v) + (v.action_data.len() as u32) as int > p.len());
    } else if n < off_tp(v) {
        assert(sdec_u64(p, off_score_id(v)) is Err);
    } else {
        assert(v.target_practice_accuracy is Some);
        assert(sdec_u64(p, off_tp(v)) is Err);
    }
    assert(spec_decode(p) is Err);
}

/// Law: a byte sequence cut anywhere short of a full encoding never
/// decodes to a record — truncation, wherever it falls, is reported as an
/// error, never as a partial or wrong value.
pub proof fn lemma_truncated_prefix_fails(v: ReplayView, n: int)
    requires
        v.wf(),
        spec_view_bounded(v),
        0 <= n < spec_encode(v).len(),
    ensures
        spec_decode(spec_encode(v).take(n)) is Err,
{
    if n < off_katu(v) {
        lemma_truncation_head(v, n);
    } else {
        lemma_truncation_tail(v, n);
    }
}

/// Law: a byte sequence the encoder produced, once decoded and re-encoded,
/// comes back byte-identical — the decode-then-encode round trip on every
/// well-formed input.
pub proof fn lemma_bytes_round_trip(v: ReplayView)
    requires
        v.wf(),
        spec_view_bounded(v),
    ensures
        spec_decode(spec_encode(v)) matches Ok(w) && spec_encode(w) == spec_encode(v),
{
    lemma_record_round_trip(v);
}

/// Serializes a well-formed record.  This fails only when the action
/// stream's byte length passes the 32-bit width of its length prefix.
pub fn encode(r: &Replay) -> (res: Result<Vec<u8>, Error>)
    requires
        r@.wf(),
    ensures
        r@.action_data.len() > 0xffff_ffff ==> (res matches Err(e) && e == Error::FieldTooLarge),
        r@.action_data.len() <= 0xffff_ffff ==> (res matches Ok(out) && out@ == spec_encode(r@)),
{
    if r.action_data.len() as u64 > 0xffff_ffff {
        return Err(Error::FieldTooLarge);
    }
    let mut out: Vec<u8> = Vec::new();
    write_u8(&mut out, mode_byte(r.mode));
    write_u32(&mut out, r.version);
    write_str(&mut out, &r.beatmap_hash);
    write_str(&mut out, &r.player_username);
    write_str(&mut out, &r.replay_hash);
    write_u16(&mut out, r.count_300);
    write_u16(&mut out, r.count_100);
    write_u16(&mut out, r.count_50);
    write_u16(&mut out, r.count_geki);
    write_u16(&mut out, r.count_katu);
    write_u16(&mut out, r.count_miss);
    write_u32(&mut out, r.score);
    write_u16(&mut out, r.max_combo);
    write_u8(&mut out, if r.perfect { 1 } else { 0 });
    write_u32(&mut out, r.mods.to_bitmask());
    write_str(&mut out, &r.life_graph);
    write_u64(&mut out, r.timestamp);
    write_u32(&mut out, r.action_data.len() as u32);
    let mut blob = slice_to_vec(r.action_data.as_slice());
    out.append(&mut blob);
    write_u64(&mut out, r.score_id);
    match &r.target_practice_accuracy {
        Some(a) => {
            write_u64(&mut out, *a);
        },
        None => {},
    }
    proof {
        assert(out@ =~= spec_encode(r@));
    }
    Ok(out)
}

/// Deserializes a record, reporting the first ill-formed field.  The
/// decoded record is well formed, so it can always be re-encoded.
#[verifier::rlimit(60)]
pub fn decode(s: &Vec<u8>) -> (res: Result<Replay, Error>)
    ensures
        spec_decode(s@) matches Ok(v) ==> res matches Ok(rep) && rep@ == v && rep@.wf(),
        spec_decode(s@) matches Err(e) ==> res matches Err(e2) && e2 == e,
{
    let (mode_b, p) = match read_u8(s, 0) {
        Ok(q) => q,
        Err(e) => {
            return Err(e);
        },
    };
    let mode = match mode_of_byte(mode_b) {
        Some(m) => m,
        None => {
            return Err(Error::InvalidEncoding);
        },
    };
    let (version, p) = match read_u32(s, p) {
        Ok(q) => q,
        Err(e) => {
            return Err(e);
        },
    };
    let (beatmap_hash, p) = match read_str(s, p) {
        Ok(q) => q,
        Err(e) => {
            return Err(e);
        },
    };
    let (player_username, p) = match read_str(s, p) {
        Ok(q) => q,
        Err(e) => {
            return Err(e);
        },
    };
    let (replay_hash, p) = match read_str(s, p) {
        Ok(q) => q,
        Err(e) => {
            return Err(e);
        },
    };
    let (count_300, p) = match read_u16(s, p) {
        Ok(q) => q,
        Err(e) => {
            return Err(e);
        },
    };
    let (count_100, p) = match read_u16(s, p) {
        Ok(q) => q,
        Err(e) => {
            return Err(e);
        },
    };
    let (count_50, p) = match read_u16(s, p) {
        Ok(q) => q,
        Err(e) => {
            return Err(e);
        },
    };
    let (count_geki, p) = match read_u16(s, p) {
        Ok(q) => q,
        Err(e) => {
            return Err(e);
        },
    };
    let (count_katu, p) = match read_u16(s, p) {
        Ok(q) => q,
        Err(e) => {
            return Err(e);
        },
    };
    let (count_miss, p) = match read_u16(s, p) {
        Ok(q) => q,
        Err(e) => {
            return Err(e);
        },
    };
    let (score, p) = match read_u32(s, p) {
        Ok(q) => q,
        Err(e) => {
            return Err(e);
        },
    };
    let (max_combo, p) = match read_u16(s, p) {
        Ok(q) => q,
        Err(e) => {
            return Err(e);
        },
    };
    let (perfect_b, p) = match read_u8(s, p) {
        Ok(q) => q,
        Err(e) => {
            return Err(e);
        },
    };
    let (mods_bits, p) = match read_u32(s, p) {
        Ok(q) => q,
        Err(e) => {
            return Err(e);
        },
    };
    let (life_graph, p) = match read_str(s, p) {
        Ok(q) => q,
        Err(e) => {
            return Err(e);
        },
    };
    let (timestamp, p) = match read_u64(s, p) {
        Ok(q) => q,
        Err(e) => {
            return Err(e);
        },
    };
    let (blob_len, p) = match read_u32(s, p) {
        Ok(q) => q,
        Err(e) => {
            return Err(e);
        },
    };
    if blob_len as u64 > (s.len() - p) as u64 {
        return Err(Error::TruncatedInput);
    }
    let n = blob_len as usize;
    let action_data = slice_to_vec(slice_subrange(s.as_slice(), p, p + n));
    let p = p + n;
    let (score_id, p) = match read_u64(s, p) {
        Ok(q) => q,
        Err(e) => {
            return Err(e);
        },
    };
    let mods = ModSet::from_bitmask(mods_bits);
    let (target_practice_accuracy, p) = if mods.contains(Mod::TargetPractice) {
        match read_u64(s, p) {
            Ok(q) => (Some(q.0), q.1),
            Err(e) => {
                return Err(e);
            },
        }
    } else {
        (None, p)
    };
    if p != s.len() {
        return Err(Error::InvalidEncoding);
    }
    Ok(
        Replay {
            mode,
            version,
            beatmap_hash,
            player_username,
            replay_hash,
            count_300,
            count_100,
            count_50,
            count_geki,
            count_katu,
            count_miss,
            score,
            max_combo,
            perfect: perfect_b == 1,
            mods,
            life_graph,
            timestamp,
            action_data,
            score_id,
            target_practice_accuracy,
        },
    )
}

} // verus!
