use vstd::prelude::*;
use crate::bitfield::{modulus64, lemma_wrapping_add};
use crate::error::ReplayError;
use crate::index::{Instruction, InsnIndex};
use crate::offset::{operand_offset, compute_offset};
use crate::packet::Packet;
use crate::tcode::Tcode;

verus! {

/// The replay engine's state between packets.
#[derive(Debug, Clone, Copy, PartialEq, Eq, Structural)]
pub struct ReplayState {
    /// Address of the next instruction to run.
    pub pc: u64,
    /// The last absolute address established, by synchronization or by an
    /// indirect branch.
    pub last_addr: u64,
}

/// A halfword-scaled address as a byte address.
pub open spec fn unscale(addr: u64) -> u64 {
    addr << 1
}

/// `pc` moved by `off` bytes, wrapping round the 64-bit address space.
pub open spec fn add_offset(pc: u64, off: int) -> u64 {
    ((pc + off) % (modulus64() as int)) as u64
}

/// The unconditional jumps whose target the instruction itself gives.
pub open spec fn is_jump_mnemonic(m: Seq<char>) -> bool {
    m == seq!['j'] || m == seq!['j', 'a', 'l'] || m == seq!['c', '.', 'j'] || m == seq![
        'c',
        '.',
        'j',
        'a',
        'l',
    ]
}

/// Where control goes after `insn` runs at `pc`: the jump target for a jump,
/// the next instruction otherwise; `None` for a jump whose operand is no offset.
pub open spec fn next_pc(pc: u64, insn: Instruction) -> Option<u64> {
    if is_jump_mnemonic(insn.mnemonic@) {
        match operand_offset(insn.op_str@) {
            Some(off) => Some(add_offset(pc, off)),
            None => None,
        }
    } else {
        Some(add_offset(pc, insn.len as int))
    }
}

/// Number of 16-bit parcels that an instruction occupies.
pub open spec fn parcels(insn: Instruction) -> nat {
    (insn.len / 2) as nat
}

/// Stepping from `pc` through the instructions that make up exactly `count`
/// parcels: the addresses visited, in order, and the address reached after
/// the last of them.
pub open spec fn walk(m: Map<u64, Instruction>, pc: u64, count: nat) -> Result<
    (Seq<u64>, u64),
    ReplayError,
>
    decreases count,
{
    if count == 0 {
        Ok((seq![], pc))
    } else if !m.contains_key(pc) {
        Err(ReplayError::MissingInstruction(pc))
    } else {
        let insn = m[pc];
        match next_pc(pc, insn) {
            None => Err(ReplayError::UnsupportedBranchOperand(pc)),
            Some(next) => if parcels(insn) == 0 || parcels(insn) > count {
                Err(ReplayError::ParcelCountMismatch(pc))
            } else {
                match walk(m, next, (count - parcels(insn)) as nat) {
                    Ok((rest, end)) => Ok((seq![pc] + rest, end)),
                    Err(e) => Err(e),
                }
            },
        }
    }
}

/// `visited` put in front of the addresses of a walk's outcome.
pub open spec fn after_visits(visited: Seq<u64>, r: Result<(Seq<u64>, u64), ReplayError>) -> Result<
    (Seq<u64>, u64),
    ReplayError,
> {
    match r {
        Ok((rest, end)) => Ok((visited + rest, end)),
        Err(e) => Err(e),
    }
}

/// The addresses that stepping from `pc` through `count` parcels visits
/// before it ends or fails; the instruction at which it fails is not among
/// them.
pub open spec fn walk_trail(m: Map<u64, Instruction>, pc: u64, count: nat) -> Seq<u64>
    decreases count,
{
    if count == 0 || !m.contains_key(pc) {
        seq![]
    } else {
        let insn = m[pc];
        match next_pc(pc, insn) {
            None => seq![],
            Some(next) => if parcels(insn) == 0 || parcels(insn) > count {
                seq![]
            } else {
                seq![pc] + walk_trail(m, next, (count - parcels(insn)) as nat)
            },
        }
    }
}

/// The addresses that a packet has run by the time its replay fails.
pub open spec fn step_trail(st: ReplayState, p: Packet, m: Map<u64, Instruction>) -> Seq<u64> {
    match p.tcode {
        Tcode::TcodeDbr => if p.icnt == 0 {
            seq![]
        } else {
            walk_trail(m, st.pc, p.icnt as nat)
        },
        Tcode::TcodeIbr => walk_trail(m, st.pc, p.icnt as nat),
        Tcode::TcodeProgTraceCorr => walk_trail(m, st.pc, p.icnt as nat),
        _ => seq![],
    }
}

/// A walk that succeeds visits exactly its trail.
pub proof fn lemma_trail_of_walk(m: Map<u64, Instruction>, pc: u64, count: nat)
    requires
        walk(m, pc, count).is_ok(),
    ensures
        walk_trail(m, pc, count) == walk(m, pc, count).unwrap().0,
    decreases count,
{
    if count > 0 {
        let insn = m[pc];
        let next = next_pc(pc, insn).unwrap();
        lemma_trail_of_walk(m, next, (count - parcels(insn)) as nat);
    }
}

/// The state after the synchronization packet `p`.
pub open spec fn sync_state(p: Packet) -> ReplayState {
    ReplayState { pc: unscale(p.f_addr), last_addr: unscale(p.f_addr) }
}

/// What one packet does to the replay: the next state, the addresses of the
/// instructions it ran, and whether it ends the trace.
pub open spec fn replay_step(st: ReplayState, p: Packet, m: Map<u64, Instruction>) -> Result<
    (ReplayState, Seq<u64>, bool),
    ReplayError,
> {
    match p.tcode {
        Tcode::TcodeDbr => if p.icnt == 0 {
            Err(ReplayError::EmptyDirectBranch(st.pc))
        } else {
            match walk(m, st.pc, p.icnt as nat) {
            Err(e) => Err(e),
            Ok((visited, _)) => {
                let b = visited.last();
                if !m.contains_key(b) {
                    Err(ReplayError::MissingInstruction(b))
                } else {
                    match operand_offset(m[b].op_str@) {
                        None => Err(ReplayError::UnsupportedBranchOperand(b)),
                        Some(off) => Ok(
                            (ReplayState { pc: add_offset(b, off), ..st }, visited, false),
                        ),
                    }
                }
            },
            }
        },
        Tcode::TcodeIbr => match walk(m, st.pc, p.icnt as nat) {
            Err(e) => Err(e),
            Ok((visited, _)) => {
                let target = unscale(p.u_addr ^ st.last_addr);
                Ok((ReplayState { pc: target, last_addr: target, ..st }, visited, false))
            },
        },
        Tcode::TcodeProgTraceCorr => match walk(m, st.pc, p.icnt as nat) {
            Err(e) => Err(e),
            Ok((visited, end)) => Ok((ReplayState { pc: end, ..st }, visited, true)),
        },
        _ => Ok((st, seq![], false)),
    }
}

/// A halfword-scaled address as a byte address.
pub fn refund_addr(addr: u64) -> (r: u64)
    ensures
        r == unscale(addr),
{
    addr << 1
}

/// Moves `pc` by `off` bytes.
fn offset_pc(pc: u64, off: i64) -> (r: u64)
    ensures
        r == add_offset(pc, off as int),
{
    pc.wrapping_add_signed(off)
}

/// Moves `pc` past an instruction of `len` bytes.
fn advance_pc(pc: u64, len: u64) -> (r: u64)
    ensures
        r == add_offset(pc, len as int),
{
    proof {
        lemma_wrapping_add(pc, len);
    }
    pc.wrapping_add(len)
}

/// Whether `m` names one of the unconditional jumps.
fn is_jump(m: &str) -> (r: bool)
    ensures
        r == is_jump_mnemonic(m@),
{
    let n = m.unicode_len();
    if n == 1 {
        let r = m.get_char(0) == 'j';
        assert(r ==> m@ =~= seq!['j']);
        r
    } else if n == 3 {
        let c0 = m.get_char(0);
        let c1 = m.get_char(1);
        let c2 = m.get_char(2);
        let r = (c0 == 'j' && c1 == 'a' && c2 == 'l') || (c0 == 'c' && c1 == '.' && c2 == 'j');
        assert(c0 == 'j' && c1 == 'a' && c2 == 'l' ==> m@ =~= seq!['j', 'a', 'l']);
        assert(c0 == 'c' && c1 == '.' && c2 == 'j' ==> m@ =~= seq!['c', '.', 'j']);
        r
    } else if n == 5 {
        let r = m.get_char(0) == 'c' && m.get_char(1) == '.' && m.get_char(2) == 'j' && m.get_char(3)
            == 'a' && m.get_char(4) == 'l';
        assert(r ==> m@ =~= seq!['c', '.', 'j', 'a', 'l']);
        r
    } else {
        false
    }
}

/// The address after `insn` runs at `pc`: a jump's own target, or the next
/// instruction.
pub fn step_pc(pc: u64, insn: &Instruction) -> (r: Result<u64, ReplayError>)
    ensures
        match next_pc(pc, *insn) {
            Some(next) => r == Ok::<u64, ReplayError>(next),
            None => r == Err::<u64, ReplayError>(ReplayError::UnsupportedBranchOperand(pc)),
        },
{
    if is_jump(insn.mnemonic.as_str()) {
        match compute_offset(insn.op_str.as_str()) {
            Some(off) => Ok(offset_pc(pc, off)),
            None => Err(ReplayError::UnsupportedBranchOperand(pc)),
        }
    } else {
        Ok(advance_pc(pc, insn.len))
    }
}

/// Steps from `pc` through the instructions that make up `count` parcels,
/// appending the address of each to `out`. Returns the address reached and the
/// address of the last instruction stepped. On failure `out` holds the
/// addresses stepped before the failing instruction.
pub fn run_count(index: &InsnIndex, pc: u64, count: u16, out: &mut Vec<u64>) -> (r: Result<
    (u64, u64),
    ReplayError,
>)
    ensures
        match walk(index@, pc, count as nat) {
            Ok((visited, end)) => {
                &&& r.is_ok()
                &&& r.unwrap().0 == end
                &&& visited.len() > 0 ==> r.unwrap().1 == visited.last()
                &&& final(out)@ == old(out)@ + visited
            },
            Err(e) => r == Err::<(u64, u64), ReplayError>(e) && final(out)@ == old(out)@
                + walk_trail(index@, pc, count as nat),
        },
{
    let ghost m = index@;
    let ghost start = old(out)@;
    let mut cur = pc;
    let mut left = count;
    let mut last = pc;
    proof {
        assert(out@.subrange(start.len() as int, out@.len() as int) =~= Seq::<u64>::empty());
    }
    while left > 0
        invariant
            m == index@,
            start == old(out)@,
            out@.len() >= start.len(),
            out@.subrange(0, start.len() as int) == start,
            walk(m, pc, count as nat) == after_visits(
                out@.subrange(start.len() as int, out@.len() as int),
                walk(m, cur, left as nat),
            ),
            walk_trail(m, pc, count as nat) == out@.subrange(start.len() as int, out@.len() as int)
                + walk_trail(m, cur, left as nat),
            out@.len() > start.len() ==> last == out@.last(),
        decreases left,
    {
        proof {
            assert(out@ =~= start + out@.subrange(start.len() as int, out@.len() as int));
        }
        let insn = match index.get(cur) {
            Some(i) => i,
            None => {
                assert(walk_trail(m, cur, left as nat) == Seq::<u64>::empty());
                assert(out@.subrange(start.len() as int, out@.len() as int) + seq![] =~= out@.subrange(start.len() as int, out@.len() as int));
                return Err(ReplayError::MissingInstruction(cur));
            },
        };
        let next = match step_pc(cur, insn) {
            Ok(n) => n,
            Err(e) => {
                assert(next_pc(cur, *insn).is_none());
                assert(walk_trail(m, cur, left as nat) == Seq::<u64>::empty());
                assert(out@.subrange(start.len() as int, out@.len() as int) + seq![] =~= out@.subrange(start.len() as int, out@.len() as int));
                return Err(e);
            },
        };
        let p = insn.len / 2;
        if p == 0 || p > left as u64 {
            assert(out@.subrange(start.len() as int, out@.len() as int) + seq![] =~= out@.subrange(start.len() as int, out@.len() as int));
            return Err(ReplayError::ParcelCountMismatch(cur));
        }
        let ghost done = out@.subrange(start.len() as int, out@.len() as int);
        let ghost w = walk(m, next, (left - p) as nat);
        let ghost tr = walk_trail(m, next, (left - p) as nat);
        out.push(cur);
        proof {
            assert(out@.subrange(start.len() as int, out@.len() as int) =~= done + seq![cur]);
            assert(out@.subrange(0, start.len() as int) =~= start);
            assert(done + (seq![cur] + tr) =~= (done + seq![cur]) + tr);
            match w {
                Ok((rest, end)) => {
                    assert(done + (seq![cur] + rest) =~= (done + seq![cur]) + rest);
                },
                Err(e) => {},
            }
        }
        last = cur;
        cur = next;
        left = left - p as u16;
    }
    proof {
        assert(out@ =~= start + out@.subrange(start.len() as int, out@.len() as int));
        assert(out@.subrange(start.len() as int, out@.len() as int) + seq![] =~= out@.subrange(start.len() as int, out@.len() as int));
    }
    Ok((cur, last))
}

/// The replay state that the synchronization packet `p` establishes.
pub fn sync_replay(p: &Packet) -> (r: ReplayState)
    ensures
        r == sync_state(*p),
{
    let a = refund_addr(p.f_addr);
    ReplayState { pc: a, last_addr: a }
}

/// Folds one packet into the replay: runs the instructions that it accounts
/// for, appending their addresses to `out`, and moves `state` on. Returns
/// whether the packet ends the trace. On failure `out` holds the addresses
/// run before the failure.
pub fn replay_packet(state: &mut ReplayState, packet: &Packet, index: &InsnIndex, out: &mut Vec<u64>) -> (r: Result<bool, ReplayError>)
    ensures
        match replay_step(*old(state), *packet, index@) {
            Ok((next, visited, done)) => r == Ok::<bool, ReplayError>(done) && *final(state) == next
                && final(out)@ == old(out)@ + visited,
            Err(e) => r == Err::<bool, ReplayError>(e) && final(out)@ == old(out)@ + step_trail(
                *old(state),
                *packet,
                index@,
            ),
        },
{
    let ghost m = index@;
    match packet.tcode {
        Tcode::TcodeDbr => {
            if packet.icnt == 0 {
                assert(old(out)@ + seq![] =~= old(out)@);
                return Err(ReplayError::EmptyDirectBranch(state.pc));
            }
            let (_, b) = run_count(index, state.pc, packet.icnt, out)?;
            proof {
                lemma_trail_of_walk(m, state.pc, packet.icnt as nat);
                lemma_walk_covers(m, state.pc, packet.icnt as nat);
            }
            let insn = match index.get(b) {
                Some(i) => i,
                None => {
                    return Err(ReplayError::MissingInstruction(b));
                },
            };
            let off = match compute_offset(insn.op_str.as_str()) {
                Some(o) => o,
                None => {
                    return Err(ReplayError::UnsupportedBranchOperand(b));
                },
            };
            state.pc = offset_pc(b, off);
            Ok(false)
        },
        Tcode::TcodeIbr => {
            run_count(index, state.pc, packet.icnt, out)?;
            let target = refund_addr(packet.u_addr ^ state.last_addr);
            state.pc = target;
            state.last_addr = target;
            Ok(false)
        },
        Tcode::TcodeProgTraceCorr => {
            let (end, _) = run_count(index, state.pc, packet.icnt, out)?;
            state.pc = end;
            Ok(true)
        },
        _ => {
            assert(old(out)@ + seq![] =~= old(out)@);
            Ok(false)
        },
    }
}

/// Total parcels of the instructions at `addrs`.
pub open spec fn parcel_total(m: Map<u64, Instruction>, addrs: Seq<u64>) -> nat
    decreases addrs.len(),
{
    if addrs.len() == 0 {
        0
    } else {
        parcels(m[addrs[0]]) + parcel_total(m, addrs.drop_first())
    }
}

/// Unscaling doubles an address: it is a left shift by one, equal to `2 * a`
/// for every address below 2^63, and on those addresses it is injective.
pub proof fn lemma_unscale(a: u64, b: u64)
    ensures
        unscale(a) == a << 1,
        a < 0x8000_0000_0000_0000 ==> unscale(a) == 2 * a,
        a < 0x8000_0000_0000_0000 && b < 0x8000_0000_0000_0000 && unscale(a) == unscale(b) ==> a
            == b,
{
    assert(a < 0x8000_0000_0000_0000 ==> a << 1 == 2 * a) by (bit_vector);
    assert(a < 0x8000_0000_0000_0000 && b < 0x8000_0000_0000_0000 && a << 1 == b << 1 ==> a == b)
        by (bit_vector);
}

/// XOR with the same differential twice gives the address back, so the
/// target of an indirect branch is recovered from the differential that
/// encodes it against the last absolute address.
pub proof fn lemma_xor_self_inverse(differential: u64, last_addr: u64)
    ensures
        differential ^ last_addr ^ differential == last_addr,
        (differential ^ last_addr) ^ last_addr == differential,
{
    assert(differential ^ last_addr ^ differential == last_addr) by (bit_vector);
    assert((differential ^ last_addr) ^ last_addr == differential) by (bit_vector);
}

/// A walk that covers `count` parcels visits instructions whose parcels add
/// up to exactly `count`, starting at `pc`, each of them in the image and at
/// least one parcel long; each visited address is where the one before it
/// steps to, and the walk ends where the last one steps to.
pub proof fn lemma_walk_covers(m: Map<u64, Instruction>, pc: u64, count: nat)
    requires
        walk(m, pc, count).is_ok(),
    ensures
        parcel_total(m, walk(m, pc, count).unwrap().0) == count,
        (walk(m, pc, count).unwrap().0.len() > 0) == (count > 0),
        count > 0 ==> walk(m, pc, count).unwrap().0[0] == pc,
        forall|k: int|
            0 <= k < walk(m, pc, count).unwrap().0.len() ==> m.contains_key(
                #[trigger] walk(m, pc, count).unwrap().0[k],
            ) && parcels(m[walk(m, pc, count).unwrap().0[k]]) >= 1,
        forall|k: int|
            0 <= k < walk(m, pc, count).unwrap().0.len() - 1 ==> next_pc(
                #[trigger] walk(m, pc, count).unwrap().0[k],
                m[walk(m, pc, count).unwrap().0[k]],
            ) == Some(walk(m, pc, count).unwrap().0[k + 1]),
        walk(m, pc, count).unwrap().0.len() > 0 ==> ({
            let v = walk(m, pc, count).unwrap().0;
            next_pc(v.last(), m[v.last()]) == Some(walk(m, pc, count).unwrap().1)
        }),
    decreases count,
{
    if count > 0 {
        let insn = m[pc];
        let next = next_pc(pc, insn).unwrap();
        let rest_count = (count - parcels(insn)) as nat;
        lemma_walk_covers(m, next, rest_count);
        let rest = walk(m, next, rest_count).unwrap().0;
        let visited = walk(m, pc, count).unwrap().0;
        assert(visited == seq![pc] + rest);
        assert(visited.drop_first() =~= rest);
        assert forall|k: int| 0 <= k < visited.len() implies m.contains_key(#[trigger] visited[k])
            && parcels(m[visited[k]]) >= 1 by {
            if k > 0 {
                assert(visited[k] == rest[k - 1]);
            }
        }
        assert forall|k: int| 0 <= k < visited.len() - 1 implies next_pc(
            #[trigger] visited[k],
            m[visited[k]],
        ) == Some(visited[k + 1]) by {
            if k > 0 {
                assert(visited[k] == rest[k - 1]);
                assert(visited[k + 1] == rest[k]);
            } else {
                if rest.len() == 0 {
                } else {
                    assert(visited[1] == rest[0]);
                }
            }
        }
        if rest.len() > 0 {
            assert(visited.last() == rest.last());
        }
    }
}

/// A direct-branch packet that replays runs instructions covering exactly its
/// instruction count, which is not zero, and resolves the branch at the last
/// of them: the new pc is that instruction's address plus its offset operand.
pub proof fn lemma_direct_branch_covers(st: ReplayState, p: Packet, m: Map<u64, Instruction>)
    requires
        p.tcode == Tcode::TcodeDbr,
        replay_step(st, p, m).is_ok(),
    ensures
        ({
            let (next, visited, done) = replay_step(st, p, m).unwrap();
            &&& !done
            &&& parcel_total(m, visited) == p.icnt
            &&& p.icnt > 0
            &&& {
                let b = visited.last();
                &&& visited[0] == st.pc
                &&& next.pc == add_offset(b, operand_offset(m[b].op_str@).unwrap())
            }
        }),
{
    lemma_walk_covers(m, st.pc, p.icnt as nat);
}

} // verus!
