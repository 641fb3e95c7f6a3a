use vstd::prelude::*;
use vstd::arithmetic::div_mod::lemma_mod_mod;
use crate::bcode::{Btype, btype_of};
use crate::bitfield::{
    TraceStream, MSEO_EOF, MSEO_LAST, run_end, field_value, plain_value, modulus64,
    pack_field, lemma_u16_cast, lemma_run_end_bounds, lemma_run_end_take,
};
use crate::error::DecodeError;
use crate::tcode::{Tcode, tcode_of};

verus! {

/// The marker that a program-trace synchronization packet must carry.
pub const SYNC_MARKER: u8 = 5;

/// One decoded trace packet. Which fields are meaningful depends on `tcode`;
/// the others stay zero.
#[derive(Debug, Clone, Copy, PartialEq, Eq, Structural)]
pub struct Packet {
    pub tcode: Tcode,
    /// Synchronization marker (synchronization packets).
    pub sync: u8,
    /// Cause of the branch (indirect-branch packets).
    pub b_type: Btype,
    /// Instruction count, in 16-bit parcels.
    pub icnt: u16,
    /// Halfword-scaled absolute address (synchronization packets).
    pub f_addr: u64,
    /// Differential address (indirect-branch packets).
    pub u_addr: u64,
    pub tstamp: u64,
    /// Event code (trace-correlation packets).
    pub evcode: u16,
}

/// A packet of kind `t` with every other field zero.
pub open spec fn blank_packet(t: Tcode) -> Packet {
    Packet {
        tcode: t,
        sync: 0,
        b_type: Btype::Bindirect,
        icnt: 0,
        f_addr: 0,
        u_addr: 0,
        tstamp: 0,
        evcode: 0,
    }
}

/// A field value kept to its low 16 bits.
pub open spec fn low16(v: nat) -> u16 {
    (v % 0x10000) as u16
}

/// A field value kept to its low 64 bits.
pub open spec fn low64(v: nat) -> u64 {
    (v % modulus64()) as u64
}

/// The field run that starts at `i` and ends with the first byte tagged `tag`,
/// and the position after it; `None` where the stream ends first.
pub open spec fn run_at(s: Seq<u8>, i: int, tag: u8) -> Option<(Seq<u8>, int)> {
    let e = run_end(s, i, tag);
    if e < s.len() {
        Some((s.subrange(i, e + 1), e + 1))
    } else {
        None
    }
}

/// Body of a synchronization packet whose fields start at `i`.
pub open spec fn decode_sync(s: Seq<u8>, i: int) -> Result<(Packet, int), DecodeError> {
    match run_at(s, i, MSEO_EOF) {
        None => Err(DecodeError::UnexpectedEof),
        Some((a, j)) => {
            let sync = ((a[0] / 4) % 16) as u8;
            if sync != SYNC_MARKER {
                Err(DecodeError::SyncMarkerMismatch(sync))
            } else {
                match run_at(s, j, MSEO_LAST) {
                    None => Err(DecodeError::UnexpectedEof),
                    Some((b, k)) => Ok(
                        (
                            Packet {
                                sync,
                                f_addr: low64(field_value(a, 2)),
                                tstamp: low64(plain_value(b)),
                                ..blank_packet(Tcode::TcodeProgTraceSync)
                            },
                            k,
                        ),
                    ),
                }
            }
        },
    }
}

/// Body of a direct-branch packet whose fields start at `i`.
pub open spec fn decode_dbr(s: Seq<u8>, i: int) -> Result<(Packet, int), DecodeError> {
    match run_at(s, i, MSEO_EOF) {
        None => Err(DecodeError::UnexpectedEof),
        Some((a, j)) => match run_at(s, j, MSEO_LAST) {
            None => Err(DecodeError::UnexpectedEof),
            Some((b, k)) => Ok(
                (
                    Packet {
                        icnt: low16(plain_value(a)),
                        tstamp: low64(plain_value(b)),
                        ..blank_packet(Tcode::TcodeDbr)
                    },
                    k,
                ),
            ),
        },
    }
}

/// Body of an indirect-branch packet whose fields start at `i`.
pub open spec fn decode_ibr(s: Seq<u8>, i: int) -> Result<(Packet, int), DecodeError> {
    match run_at(s, i, MSEO_EOF) {
        None => Err(DecodeError::UnexpectedEof),
        Some((a, j)) => match run_at(s, j, MSEO_EOF) {
            None => Err(DecodeError::UnexpectedEof),
            Some((u, k)) => match run_at(s, k, MSEO_LAST) {
                None => Err(DecodeError::UnexpectedEof),
                Some((b, l)) => Ok(
                    (
                        Packet {
                            b_type: btype_of(((a[0] / 4) % 4) as u8),
                            icnt: low16(field_value(a, 4)),
                            u_addr: low64(plain_value(u)),
                            tstamp: low64(plain_value(b)),
                            ..blank_packet(Tcode::TcodeIbr)
                        },
                        l,
                    ),
                ),
            },
        },
    }
}

/// Body of a trace-correlation packet whose fields start at `i`.
pub open spec fn decode_corr(s: Seq<u8>, i: int) -> Result<(Packet, int), DecodeError> {
    match run_at(s, i, MSEO_EOF) {
        None => Err(DecodeError::UnexpectedEof),
        Some((a, j)) => match run_at(s, j, MSEO_LAST) {
            None => Err(DecodeError::UnexpectedEof),
            Some((b, k)) => Ok(
                (
                    Packet {
                        evcode: ((a[0] / 4) % 16) as u16,
                        icnt: low16(field_value(a, 2)),
                        tstamp: low64(plain_value(b)),
                        ..blank_packet(Tcode::TcodeProgTraceCorr)
                    },
                    k,
                ),
            ),
        },
    }
}

/// The packet that starts at `pos` of `s` and the position after it, or why
/// there is none.
pub open spec fn decode_at(s: Seq<u8>, pos: int) -> Result<(Packet, int), DecodeError> {
    if pos < 0 || pos >= s.len() {
        Err(DecodeError::UnexpectedEof)
    } else {
        let code = s[pos] / 4;
        match tcode_of(code) {
            None => Err(DecodeError::InvalidTcode(code)),
            Some(t) => match t {
                Tcode::TcodeProgTraceSync => decode_sync(s, pos + 1),
                Tcode::TcodeDbr => decode_dbr(s, pos + 1),
                Tcode::TcodeIbr => decode_ibr(s, pos + 1),
                Tcode::TcodeProgTraceCorr => decode_corr(s, pos + 1),
                _ => Ok((blank_packet(t), pos + 1)),
            },
        }
    }
}

impl Packet {
    /// A packet of no kind with every field zero.
    pub fn new() -> (r: Packet)
        ensures
            r == blank_packet(Tcode::TcodeNull),
    {
        Packet {
            tcode: Tcode::TcodeNull,
            sync: 0,
            b_type: Btype::Bindirect,
            icnt: 0,
            f_addr: 0,
            u_addr: 0,
            tstamp: 0,
            evcode: 0,
        }
    }
}

/// Packs a field into 16 bits.
fn pack_field16(data: &Vec<u8>, head_bits: u64) -> (r: u16)
    requires
        data@.len() >= 1,
        head_bits == 2 || head_bits == 4 || head_bits == 6,
    ensures
        r == low16(field_value(data@, head_bits as nat)),
{
    let v = pack_field(data, head_bits);
    proof {
        lemma_u16_cast(v);
        lemma_mod_mod(field_value(data@, head_bits as nat) as int, 0x10000, 0x1_0000_0000_0000);
        assert(0x10000 * 0x1_0000_0000_0000 == modulus64());
    }
    v as u16
}

/// Decodes the packet at the stream's position and moves past it. On failure
/// no packet is returned.
pub fn read_packet(stream: &mut TraceStream) -> (r: Result<Packet, DecodeError>)
    requires
        old(stream).wf(),
    ensures
        final(stream).wf(),
        final(stream).data@ == old(stream).data@,
        match decode_at(old(stream).data@, old(stream).pos as int) {
            Ok((p, next)) => r == Ok::<Packet, DecodeError>(p) && final(stream).pos == next,
            Err(e) => r == Err::<Packet, DecodeError>(e),
        },
{
    let ghost s = stream.data@;
    let first = stream.read_u8()?;
    let code = first / 4;
    let tcode = match Tcode::from(code) {
        Some(t) => t,
        None => {
            return Err(DecodeError::InvalidTcode(code));
        },
    };
    let mut packet = Packet::new();
    packet.tcode = tcode;
    match tcode {
        Tcode::TcodeProgTraceSync => {
            let data = stream.read_till_eof()?;
            let sync = (data[0] / 4) % 16;
            if sync != SYNC_MARKER {
                return Err(DecodeError::SyncMarkerMismatch(sync));
            }
            let f_addr = pack_field(&data, 2);
            let data = stream.read_till_last()?;
            packet.sync = sync;
            packet.f_addr = f_addr;
            packet.tstamp = pack_field(&data, 6);
        },
        Tcode::TcodeDbr => {
            let data = stream.read_till_eof()?;
            packet.icnt = pack_field16(&data, 6);
            let data = stream.read_till_last()?;
            packet.tstamp = pack_field(&data, 6);
        },
        Tcode::TcodeIbr => {
            let data = stream.read_till_eof()?;
            packet.b_type = Btype::from((data[0] / 4) % 4);
            packet.icnt = pack_field16(&data, 4);
            let data = stream.read_till_eof()?;
            packet.u_addr = pack_field(&data, 6);
            let data = stream.read_till_last()?;
            packet.tstamp = pack_field(&data, 6);
        },
        Tcode::TcodeProgTraceCorr => {
            let data = stream.read_till_eof()?;
            packet.evcode = ((data[0] / 4) % 16) as u16;
            packet.icnt = pack_field16(&data, 2);
            let data = stream.read_till_last()?;
            packet.tstamp = pack_field(&data, 6);
        },
        _ => {},
    }
    Ok(packet)
}

/// A run read from a stream cut at `k`: the same run where it ends before
/// the cut, none otherwise.
proof fn lemma_run_at_take(s: Seq<u8>, i: int, tag: u8, k: int)
    requires
        0 <= i,
        0 <= k <= s.len(),
    ensures
        run_at(s.take(k), i, tag) == if run_end(s, i, tag) < k {
            run_at(s, i, tag)
        } else {
            None
        },
{
    lemma_run_end_take(s, i, tag, k);
    lemma_run_end_bounds(s, i, tag);
    let e = run_end(s, i, tag);
    if e < k {
        assert(s.take(k).subrange(i, e + 1) =~= s.subrange(i, e + 1));
    }
}

/// A stream that ends inside a packet gives a framing error for that packet,
/// never a packet.
pub proof fn lemma_truncated_packet_fails(s: Seq<u8>, pos: int, k: int)
    requires
        0 <= pos < k,
        decode_at(s, pos).is_ok(),
        k < decode_at(s, pos).unwrap().1,
    ensures
        decode_at(s.take(k), pos) == Err::<(Packet, int), DecodeError>(DecodeError::UnexpectedEof),
{
    let t = s.take(k);
    let i = pos + 1;
    lemma_run_end_bounds(s, i, MSEO_EOF);
    lemma_run_end_bounds(s, i, MSEO_LAST);
    assert(k <= s.len()) by {
        lemma_run_end_bounds(s, i, MSEO_EOF);
        let j = run_end(s, i, MSEO_EOF) + 1;
        lemma_run_end_bounds(s, j, MSEO_EOF);
        lemma_run_end_bounds(s, j, MSEO_LAST);
        let l = run_end(s, j, MSEO_EOF) + 1;
        lemma_run_end_bounds(s, l, MSEO_LAST);
    }
    assert(t[pos] == s[pos]);
    lemma_run_at_take(s, i, MSEO_EOF, k);
    let j = run_end(s, i, MSEO_EOF) + 1;
    lemma_run_at_take(s, j, MSEO_EOF, k);
    lemma_run_at_take(s, j, MSEO_LAST, k);
    let l = run_end(s, j, MSEO_EOF) + 1;
    lemma_run_end_bounds(s, j, MSEO_EOF);
    lemma_run_at_take(s, l, MSEO_LAST, k);
}

/// A first byte whose type code names no packet kind fails with that code.
pub proof fn lemma_invalid_tcode_fails(s: Seq<u8>, pos: int)
    requires
        0 <= pos < s.len(),
        tcode_of(s[pos] / 4).is_none(),
    ensures
        decode_at(s, pos) == Err::<(Packet, int), DecodeError>(DecodeError::InvalidTcode(s[pos] / 4)),
{
}

} // verus!
