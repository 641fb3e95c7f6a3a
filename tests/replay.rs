use trace_decoder::error::{DecodeError, ReplayError, TraceFault};
use trace_decoder::image::{build_index, load_image, ImageError};
use trace_decoder::index::{InsnIndex, Instruction};
use trace_decoder::offset::compute_offset;
use trace_decoder::packet::Packet;
use trace_decoder::replay::{refund_addr, replay_packet, run_count, step_pc, ReplayState};
use trace_decoder::tcode::Tcode;
use trace_decoder::trace::replay_trace;

fn insn(address: u64, mnemonic: &str, op_str: &str, len: u64) -> Instruction {
    Instruction { address, mnemonic: mnemonic.to_string(), op_str: op_str.to_string(), len }
}

fn index_of(insns: Vec<Instruction>) -> InsnIndex {
    let mut index = InsnIndex::new();
    for i in insns {
        index.insert(i);
    }
    index
}

fn packet(tcode: Tcode, icnt: u16, u_addr: u64) -> Packet {
    let mut p = Packet::new();
    p.tcode = tcode;
    p.icnt = icnt;
    p.u_addr = u_addr;
    p
}

// Synchronization packet with full address 0x800 and timestamp 5.
const SYNC_0X800: [u8; 5] = [0x24, 0x14, 0x00, 0x21, 0x17];

#[test]
fn offset_forms() {
    assert_eq!(compute_offset("0x10"), Some(16));
    assert_eq!(compute_offset("-0x20"), Some(-32));
    assert_eq!(compute_offset("12"), Some(12));
    assert_eq!(compute_offset("-8"), Some(-8));
    assert_eq!(compute_offset("0xFf"), Some(255));
}

#[test]
fn offset_is_last_token_trimmed() {
    assert_eq!(compute_offset("a0, a1, 0x20"), Some(32));
    assert_eq!(compute_offset("ra,  -0x4  "), Some(-4));
    assert_eq!(compute_offset("t0, 0x10, 8"), Some(8));
}

#[test]
fn offset_rejects_what_is_no_number() {
    assert_eq!(compute_offset(""), None);
    assert_eq!(compute_offset("a0"), None);
    assert_eq!(compute_offset("a0, "), None);
    assert_eq!(compute_offset("0x"), None);
    assert_eq!(compute_offset("-"), None);
    assert_eq!(compute_offset("0x1g"), None);
    assert_eq!(compute_offset("12a"), None);
}

#[test]
fn offset_range() {
    assert_eq!(compute_offset("0x7fffffffffffffff"), Some(i64::MAX));
    assert_eq!(compute_offset("-0x7fffffffffffffff"), Some(-i64::MAX));
    assert_eq!(compute_offset("0x8000000000000000"), None);
    assert_eq!(compute_offset("99999999999999999999"), None);
}

#[test]
fn unscale_doubles() {
    assert_eq!(refund_addr(0x800), 0x1000);
    assert_eq!(refund_addr(0), 0);
    assert_eq!(refund_addr(0xFF), 0x1FE);
    assert_eq!(refund_addr(0x8000_0000_0000_0001), 2);
}

#[test]
fn xor_self_inverse_on_addresses() {
    let d: u64 = 0x55;
    let last: u64 = 0xAA;
    assert_eq!(d ^ last ^ d, last);
}

#[test]
fn step_over_plain_instruction() {
    let i = insn(0x1000, "addi", "a0, a0, 1", 4);
    assert_eq!(step_pc(0x1000, &i), Ok(0x1004));
    let c = insn(0x1000, "c.addi", "a0, 1", 2);
    assert_eq!(step_pc(0x1000, &c), Ok(0x1002));
}

#[test]
fn step_follows_jumps() {
    assert_eq!(step_pc(0x1000, &insn(0x1000, "jal", "0x10", 4)), Ok(0x1010));
    assert_eq!(step_pc(0x1000, &insn(0x1000, "j", "-0x8", 4)), Ok(0xFF8));
    assert_eq!(step_pc(0x1000, &insn(0x1000, "c.j", "6", 2)), Ok(0x1006));
    assert_eq!(step_pc(0x1000, &insn(0x1000, "c.jal", "-2", 2)), Ok(0xFFE));
    assert_eq!(step_pc(0x1000, &insn(0x1000, "jal", "ra, 0x20", 4)), Ok(0x1020));
}

#[test]
fn step_rejects_unreadable_jump_operand() {
    let i = insn(0x1000, "jal", "ra", 4);
    assert_eq!(step_pc(0x1000, &i), Err(ReplayError::UnsupportedBranchOperand(0x1000)));
}

#[test]
fn step_does_not_parse_branches() {
    // a conditional branch falls through when stepped
    let i = insn(0x1000, "beq", "a0, a1, 0x20", 4);
    assert_eq!(step_pc(0x1000, &i), Ok(0x1004));
}

#[test]
fn run_count_covers_parcels() {
    let index = index_of(vec![
        insn(0x1000, "addi", "a0, a0, 1", 4),
        insn(0x1004, "c.addi", "a0, 1", 2),
        insn(0x1006, "beq", "a0, a1, 0x20", 4),
    ]);
    let mut out = Vec::new();
    assert_eq!(run_count(&index, 0x1000, 5, &mut out), Ok((0x100A, 0x1006)));
    assert_eq!(out, vec![0x1000, 0x1004, 0x1006]);
}

#[test]
fn run_count_zero_visits_nothing() {
    let index = InsnIndex::new();
    let mut out = Vec::new();
    assert_eq!(run_count(&index, 0x1000, 0, &mut out).map(|r| r.0), Ok(0x1000));
    assert!(out.is_empty());
}

#[test]
fn run_count_missing_instruction() {
    let index = index_of(vec![insn(0x1000, "addi", "a0, a0, 1", 4)]);
    let mut out = Vec::new();
    assert_eq!(
        run_count(&index, 0x1000, 4, &mut out),
        Err(ReplayError::MissingInstruction(0x1004))
    );
}

#[test]
fn run_count_overshoot_is_a_mismatch() {
    let index = index_of(vec![insn(0x1000, "addi", "a0, a0, 1", 4)]);
    let mut out = Vec::new();
    assert_eq!(
        run_count(&index, 0x1000, 1, &mut out),
        Err(ReplayError::ParcelCountMismatch(0x1000))
    );
}

#[test]
fn sync_sets_pc_to_unscaled_address() {
    let index = index_of(vec![insn(0x1000, "jal", "0x10", 4)]);
    let r = replay_trace(SYNC_0X800.to_vec(), &index).unwrap();
    assert_eq!(r.state.pc, 0x1000);
    assert_eq!(r.state.last_addr, 0x1000);
    assert_eq!(r.packet_count, 0);
    assert!(r.addresses.is_empty());
}

#[test]
fn direct_branch_resolves_at_last_instruction() {
    let index = index_of(vec![insn(0x1000, "beq", "a0, a1, 0x20", 4)]);
    let mut state = ReplayState { pc: 0x1000, last_addr: 0x1000 };
    let mut out = Vec::new();
    let done = replay_packet(&mut state, &packet(Tcode::TcodeDbr, 2, 0), &index, &mut out);
    assert_eq!(done, Ok(false));
    assert_eq!(out, vec![0x1000]);
    assert_eq!(state.pc, 0x1020);
}

#[test]
fn direct_branch_in_a_trace() {
    let index = index_of(vec![insn(0x1000, "beq", "a0, a1, 0x20", 4)]);
    let mut trace = SYNC_0X800.to_vec();
    trace.extend_from_slice(&[0x0C, 0x09, 0x1F]);
    let r = replay_trace(trace, &index).unwrap();
    assert_eq!(r.addresses, vec![0x1000]);
    assert_eq!(r.state.pc, 0x1020);
    assert_eq!(r.packet_count, 1);
}

#[test]
fn indirect_branch_target_from_differential() {
    let index = InsnIndex::new();
    let mut state = ReplayState { pc: 0x4000, last_addr: 0xAA };
    let mut out = Vec::new();
    let done = replay_packet(&mut state, &packet(Tcode::TcodeIbr, 0, 0x55), &index, &mut out);
    assert_eq!(done, Ok(false));
    assert!(out.is_empty());
    assert_eq!(state.pc, 0x1FE);
    assert_eq!(state.last_addr, 0x1FE);
}

#[test]
fn indirect_branch_in_a_trace() {
    // sync at scaled 0x55 (pc 0xAA), then icnt 0 and differential 0x55
    let trace = vec![0x24, 0x54, 0x55, 0x03, 0x10, 0x01, 0x54, 0x05, 0x03];
    let r = replay_trace(trace, &InsnIndex::new()).unwrap();
    assert_eq!(r.state.pc, 0x1FE);
    assert_eq!(r.packet_count, 1);
}

#[test]
fn indirect_branch_steps_through_jumps() {
    let index = index_of(vec![
        insn(0x1000, "jal", "0x10", 4),
        insn(0x1010, "c.addi", "a0, 1", 2),
    ]);
    let mut state = ReplayState { pc: 0x1000, last_addr: 0x0 };
    let mut out = Vec::new();
    let done = replay_packet(&mut state, &packet(Tcode::TcodeIbr, 3, 0x900), &index, &mut out);
    assert_eq!(done, Ok(false));
    assert_eq!(out, vec![0x1000, 0x1010]);
    assert_eq!(state.pc, 0x1200);
}

#[test]
fn correlation_ends_the_trace() {
    let index = index_of(vec![
        insn(0x1000, "addi", "a0, a0, 1", 4),
        insn(0x1004, "beq", "a0, a1, 0x20", 4),
    ]);
    let mut trace = SYNC_0X800.to_vec();
    trace.extend_from_slice(&[0x84, 0x91, 0x03]);
    // a direct-branch packet after the end is never read
    trace.extend_from_slice(&[0x0C, 0x09, 0x1F]);
    let r = replay_trace(trace, &index).unwrap();
    assert_eq!(r.addresses, vec![0x1000]);
    assert_eq!(r.state.pc, 0x1004);
    assert_eq!(r.packet_count, 1);
}

#[test]
fn unhandled_packet_is_ignored() {
    let mut state = ReplayState { pc: 0x1000, last_addr: 0x1000 };
    let mut out = Vec::new();
    let done = replay_packet(&mut state, &packet(Tcode::TcodeOwn, 0, 0), &InsnIndex::new(), &mut out);
    assert_eq!(done, Ok(false));
    assert_eq!(state, ReplayState { pc: 0x1000, last_addr: 0x1000 });
}

#[test]
fn trace_must_open_with_sync() {
    let r = replay_trace(vec![0x0C, 0x09, 0x1F], &InsnIndex::new());
    let e = r.err().unwrap();
    assert_eq!(e.packet_index, 0);
    assert_eq!(e.fault, TraceFault::Replay(ReplayError::MissingSync));
}

#[test]
fn trace_error_names_packet_and_offset() {
    let index = index_of(vec![insn(0x1000, "beq", "a0, a1, 0x20", 4)]);
    let mut trace = SYNC_0X800.to_vec();
    trace.extend_from_slice(&[0x0C, 0x09, 0x1F, 0x0C, 0x09]);
    let e = replay_trace(trace, &index).err().unwrap();
    assert_eq!(e.packet_index, 2);
    assert_eq!(e.offset, 8);
    assert_eq!(e.fault, TraceFault::Decode(DecodeError::UnexpectedEof));
}

#[test]
fn trace_missing_instruction() {
    let mut trace = SYNC_0X800.to_vec();
    trace.extend_from_slice(&[0x0C, 0x09, 0x1F]);
    let e = replay_trace(trace, &InsnIndex::new()).err().unwrap();
    assert_eq!(e.packet_index, 1);
    assert_eq!(e.offset, 5);
    assert_eq!(e.fault, TraceFault::Replay(ReplayError::MissingInstruction(0x1000)));
}

#[test]
fn trace_unsupported_branch_operand() {
    let index = index_of(vec![insn(0x1000, "beqz", "a0, target", 4)]);
    let mut trace = SYNC_0X800.to_vec();
    trace.extend_from_slice(&[0x0C, 0x09, 0x1F]);
    let e = replay_trace(trace, &index).err().unwrap();
    assert_eq!(e.fault, TraceFault::Replay(ReplayError::UnsupportedBranchOperand(0x1000)));
}

#[test]
fn empty_trace_fails() {
    let e = replay_trace(Vec::new(), &InsnIndex::new()).err().unwrap();
    assert_eq!(e.fault, TraceFault::Decode(DecodeError::UnexpectedEof));
}

#[test]
fn index_keeps_later_instruction() {
    let index = build_index(vec![
        insn(0x1000, "addi", "a0, a0, 1", 4),
        insn(0x1004, "nop", "", 4),
        insn(0x1000, "c.nop", "", 2),
    ]);
    assert_eq!(index.len(), 2);
    assert_eq!(index.get(0x1000).unwrap().mnemonic, "c.nop");
    assert_eq!(index.get(0x1004).unwrap().len, 4);
    assert!(index.get(0x1008).is_none());
}

#[test]
fn image_rejects_non_object_bytes() {
    assert_eq!(load_image(b"not an elf file").err(), Some(ImageError::Unparsable));
}

#[test]
fn direct_branch_with_zero_count_is_an_error() {
    let index = index_of(vec![insn(0x1000, "beq", "a0, a1, 0x20", 4)]);
    let mut state = ReplayState { pc: 0x3000, last_addr: 0x1000 };
    let mut out = vec![0x10];
    let done = replay_packet(&mut state, &packet(Tcode::TcodeDbr, 0, 0), &index, &mut out);
    assert_eq!(done, Err(ReplayError::EmptyDirectBranch(0x3000)));
    assert_eq!(out, vec![0x10]);
}

#[test]
fn failed_walk_keeps_addresses_stepped_before() {
    let index = index_of(vec![
        insn(0x1000, "addi", "a0, a0, 1", 4),
        insn(0x1004, "c.addi", "a0, 1", 2),
    ]);
    let mut out = vec![0x1];
    assert_eq!(
        run_count(&index, 0x1000, 5, &mut out),
        Err(ReplayError::MissingInstruction(0x1006))
    );
    assert_eq!(out, vec![0x1, 0x1000, 0x1004]);
    let mut state = ReplayState { pc: 0x1000, last_addr: 0 };
    let mut out = Vec::new();
    let r = replay_packet(&mut state, &packet(Tcode::TcodeIbr, 5, 0), &index, &mut out);
    assert_eq!(r, Err(ReplayError::MissingInstruction(0x1006)));
    assert_eq!(out, vec![0x1000, 0x1004]);
}

#[test]
fn offset_unicode_white_space() {
    assert_eq!(compute_offset("\u{b}0x10"), Some(16));
    assert_eq!(compute_offset("a0,\u{a0}-8\u{3000}"), Some(-8));
    assert_eq!(compute_offset("\u{2028}12\u{85}"), Some(12));
}

#[test]
fn offset_digit_signs() {
    assert_eq!(compute_offset("+5"), Some(5));
    assert_eq!(compute_offset("a0, +0x10"), None);
    assert_eq!(compute_offset("0x+10"), Some(16));
    assert_eq!(compute_offset("--5"), Some(5));
    assert_eq!(compute_offset("-0x-5"), Some(5));
    assert_eq!(compute_offset("+"), None);
    assert_eq!(compute_offset("-9223372036854775808"), None);
    assert_eq!(compute_offset("0x-8000000000000000"), Some(i64::MIN));
    assert_eq!(compute_offset("-0x-8000000000000000"), None);
}

#[test]
fn jump_wraps_round_the_address_space() {
    assert_eq!(step_pc(0x4, &insn(0x4, "j", "-0x8", 4)), Ok(0xFFFF_FFFF_FFFF_FFFC));
    assert_eq!(step_pc(u64::MAX - 1, &insn(0, "addi", "a0, a0, 1", 4)), Ok(2));
}
