use trace_decoder::bcode::Btype;
use trace_decoder::bitfield::{pack_field, TraceStream};
use trace_decoder::error::DecodeError;
use trace_decoder::packet::{read_packet, Packet};
use trace_decoder::tcode::Tcode;

fn stream(bytes: &[u8]) -> TraceStream {
    TraceStream::new(bytes.to_vec())
}

#[test]
fn tcode_known_values() {
    assert_eq!(Tcode::from(2), Some(Tcode::TcodeOwn));
    assert_eq!(Tcode::from(3), Some(Tcode::TcodeDbr));
    assert_eq!(Tcode::from(4), Some(Tcode::TcodeIbr));
    assert_eq!(Tcode::from(9), Some(Tcode::TcodeProgTraceSync));
    assert_eq!(Tcode::from(33), Some(Tcode::TcodeProgTraceCorr));
    assert_eq!(Tcode::from(30), Some(Tcode::TcodeRbr));
}

#[test]
fn tcode_unknown_values() {
    assert_eq!(Tcode::from(0), None);
    assert_eq!(Tcode::from(1), None);
    assert_eq!(Tcode::from(5), None);
    assert_eq!(Tcode::from(63), None);
}

#[test]
fn btype_values() {
    assert_eq!(Btype::from(0), Btype::Bindirect);
    assert_eq!(Btype::from(1), Btype::Btrap);
    assert_eq!(Btype::from(2), Btype::Bexception);
    assert_eq!(Btype::from(3), Btype::Binterrupt);
}

#[test]
fn new_packet_is_blank() {
    let p = Packet::new();
    assert_eq!(p.tcode, Tcode::TcodeNull);
    assert_eq!(p.icnt, 0);
    assert_eq!(p.f_addr, 0);
    assert_eq!(p.u_addr, 0);
    assert_eq!(p.tstamp, 0);
    assert_eq!(p.b_type, Btype::Bindirect);
}

#[test]
fn pack_plain_groups_little_endian() {
    // groups 0x15 and 0x01: 0x15 + 0x01 * 64
    assert_eq!(pack_field(&vec![0x54, 0x05], 6), 0x55);
    assert_eq!(pack_field(&vec![0xFF], 6), 63);
}

#[test]
fn pack_with_two_head_bits() {
    // head 0b01, then group 21 above it
    assert_eq!(pack_field(&vec![0x54, 0x55], 2), 0x55);
}

#[test]
fn pack_with_four_head_bits() {
    assert_eq!(pack_field(&vec![0xF0, 0x05], 4), 0xF + (1 << 4));
}

#[test]
fn pack_keeps_low_64_bits() {
    // twelve full groups: 72 bits, all ones; the low 64 are kept
    let bytes = vec![0xFC; 12];
    assert_eq!(pack_field(&bytes, 6), u64::MAX);
}

#[test]
fn decode_sync_packet() {
    let mut s = stream(&[0x24, 0x14, 0x00, 0x21, 0x17]);
    let p = read_packet(&mut s).unwrap();
    assert_eq!(p.tcode, Tcode::TcodeProgTraceSync);
    assert_eq!(p.sync, 5);
    assert_eq!(p.f_addr, 0x800);
    assert_eq!(p.tstamp, 5);
    assert_eq!(s.pos, 5);
    assert!(s.at_end());
}

#[test]
fn decode_direct_branch_packet() {
    let mut s = stream(&[0x0C, 0x09, 0x1F]);
    let p = read_packet(&mut s).unwrap();
    assert_eq!(p.tcode, Tcode::TcodeDbr);
    assert_eq!(p.icnt, 2);
    assert_eq!(p.tstamp, 7);
}

#[test]
fn decode_indirect_branch_packet() {
    // icnt low nibble 3, branch type trap, then one more group of 1
    let mut s = stream(&[0x10, 0x34, 0x05, 0x54, 0x05, 0x0B]);
    let p = read_packet(&mut s).unwrap();
    assert_eq!(p.tcode, Tcode::TcodeIbr);
    assert_eq!(p.b_type, Btype::Btrap);
    assert_eq!(p.icnt, 3 + (1 << 4));
    assert_eq!(p.u_addr, 0x55);
    assert_eq!(p.tstamp, 2);
}

#[test]
fn decode_correlation_packet() {
    let mut s = stream(&[0x84, 0x91, 0x03]);
    let p = read_packet(&mut s).unwrap();
    assert_eq!(p.tcode, Tcode::TcodeProgTraceCorr);
    assert_eq!(p.evcode, 4);
    assert_eq!(p.icnt, 2);
    assert_eq!(p.tstamp, 0);
}

#[test]
fn decode_unhandled_kind_keeps_only_kind() {
    let mut s = stream(&[0x08, 0x0C, 0x09, 0x1F]);
    let p = read_packet(&mut s).unwrap();
    assert_eq!(p.tcode, Tcode::TcodeOwn);
    assert_eq!(p.icnt, 0);
    assert_eq!(p.tstamp, 0);
    assert_eq!(s.pos, 1);
    let q = read_packet(&mut s).unwrap();
    assert_eq!(q.tcode, Tcode::TcodeDbr);
}

#[test]
fn decode_consecutive_packets() {
    let mut s = stream(&[0x24, 0x14, 0x00, 0x21, 0x17, 0x0C, 0x09, 0x1F]);
    assert_eq!(read_packet(&mut s).unwrap().tcode, Tcode::TcodeProgTraceSync);
    assert_eq!(read_packet(&mut s).unwrap().icnt, 2);
    assert_eq!(read_packet(&mut s), Err(DecodeError::UnexpectedEof));
}

#[test]
fn truncated_packet_is_a_framing_error() {
    let full = [0x24, 0x14, 0x00, 0x21, 0x17];
    for cut in 0..full.len() {
        let mut s = stream(&full[..cut]);
        assert_eq!(read_packet(&mut s), Err(DecodeError::UnexpectedEof));
    }
}

#[test]
fn missing_terminator_is_a_framing_error() {
    // the count field never ends with its tag
    let mut s = stream(&[0x0C, 0x08, 0x08, 0x0B]);
    assert_eq!(read_packet(&mut s), Err(DecodeError::UnexpectedEof));
}

#[test]
fn unknown_type_code_is_a_validation_error() {
    let mut s = stream(&[0x14, 0x01, 0x03]);
    assert_eq!(read_packet(&mut s), Err(DecodeError::InvalidTcode(5)));
    let mut s = stream(&[0x00]);
    assert_eq!(read_packet(&mut s), Err(DecodeError::InvalidTcode(0)));
}

#[test]
fn wrong_sync_marker_is_rejected() {
    let mut s = stream(&[0x24, 0x18, 0x00, 0x21, 0x17]);
    assert_eq!(read_packet(&mut s), Err(DecodeError::SyncMarkerMismatch(6)));
}

#[test]
fn read_runs_by_tag() {
    let mut s = stream(&[0x04, 0x09, 0x0B]);
    assert_eq!(s.read_till_eof().unwrap(), vec![0x04, 0x09]);
    assert_eq!(s.read_till_last().unwrap(), vec![0x0B]);
    assert_eq!(s.read_u8(), Err(DecodeError::UnexpectedEof));
}

#[test]
fn missing_tag_reads_to_the_end() {
    let mut s = stream(&[0x0B, 0x08, 0x0B]);
    assert_eq!(s.read_till_eof(), Err(DecodeError::UnexpectedEof));
    assert_eq!(s.pos, 3);
    let mut s = stream(&[0x09, 0x05]);
    assert_eq!(s.read_till_last(), Err(DecodeError::UnexpectedEof));
    assert_eq!(s.pos, 2);
}

/// A synchronization packet with both fields written out in eleven groups.
fn full_width_sync(f_addr: u64, tstamp: u64) -> Vec<u8> {
    let mut v = vec![0x24, (((f_addr % 4) << 6) | (5 << 2)) as u8];
    let mut rest = f_addr >> 2;
    for k in 0..11 {
        let tag = if k == 10 { 1 } else { 0 };
        v.push((((rest & 0x3F) << 2) | tag) as u8);
        rest >>= 6;
    }
    let mut rest = tstamp;
    for k in 0..11 {
        let tag = if k == 10 { 3 } else { 0 };
        v.push((((rest & 0x3F) << 2) | tag) as u8);
        rest >>= 6;
    }
    v
}

#[test]
fn sync_round_trip_full_width() {
    for (f, t) in [(0xDEAD_BEEF_1234_5679u64, u64::MAX), (0, 0), (u64::MAX, 1), (0x800, 5)] {
        let bytes = full_width_sync(f, t);
        assert_eq!(bytes.len(), 24);
        let mut s = stream(&bytes);
        let p = read_packet(&mut s).unwrap();
        assert_eq!(p.f_addr, f);
        assert_eq!(p.tstamp, t);
        assert_eq!(p.sync, 5);
        assert!(s.at_end());
    }
}
