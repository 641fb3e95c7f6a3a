use vstd::prelude::*;
use crate::bitfield::{TraceStream, MSEO_EOF, MSEO_LAST, lemma_run_end_bounds};
use crate::error::{TraceError, TraceFault, ReplayError};
use crate::index::{Instruction, InsnIndex};
use crate::packet::{decode_at, read_packet};
use crate::replay::{ReplayState, replay_step, sync_state, sync_replay, replay_packet};
use crate::tcode::Tcode;

verus! {

/// What a replayed trace gives: the address of each instruction run, in
/// order, the number of packets after the synchronization packet that were
/// folded in, and the final state.
pub struct Replay {
    pub addresses: Vec<u64>,
    pub packet_count: u64,
    pub state: ReplayState,
}

/// A failure at the packet with index `idx` that starts at `pos`.
pub open spec fn fault_at(idx: nat, pos: int, fault: TraceFault) -> TraceError {
    TraceError { packet_index: idx as u64, offset: pos as usize, fault }
}

/// What the packet at `pos` does to the replay from state `st`: the next
/// state, the addresses run, whether it ends the trace, and the position
/// after it.
#[verifier::opaque]
pub open spec fn packet_effect(
    m: Map<u64, Instruction>,
    s: Seq<u8>,
    pos: int,
    st: ReplayState,
) -> Result<(ReplayState, Seq<u64>, bool, int), TraceFault> {
    match decode_at(s, pos) {
        Err(e) => Err(TraceFault::Decode(e)),
        Ok((p, next)) => match replay_step(st, p, m) {
            Err(e) => Err(TraceFault::Replay(e)),
            Ok((st2, visited, done)) => Ok((st2, visited, done, next)),
        },
    }
}

/// Replay of the packets from `pos` on, from state `st`, where `idx` is the
/// index of the packet at `pos`: the addresses run, the final state and the
/// number of packets folded in. Replay ends at the end of the stream or after
/// a trace-correlation packet.
pub open spec fn replay_rest(
    m: Map<u64, Instruction>,
    s: Seq<u8>,
    pos: int,
    st: ReplayState,
    idx: nat,
) -> Result<(Seq<u64>, ReplayState, nat), TraceError>
    decreases s.len() - pos,
{
    if pos < 0 || pos >= s.len() {
        Ok((seq![], st, 0))
    } else {
        match packet_effect(m, s, pos, st) {
            Err(f) => Err(fault_at(idx, pos, f)),
            Ok((st2, visited, done, next)) => {
                // Of the last two tests neither ever holds: a packet takes at
                // least one byte, and no more than the stream has.
                if done || next <= pos || next > s.len() {
                    Ok((visited, st2, 1))
                } else {
                    match replay_rest(m, s, next, st2, idx + 1) {
                        Ok((rest, fin, k)) => Ok((visited + rest, fin, k + 1)),
                        Err(e) => Err(e),
                    }
                }
            },
        }
    }
}

/// Replay of a whole trace, which opens with a synchronization packet.
pub open spec fn replay_spec(m: Map<u64, Instruction>, s: Seq<u8>) -> Result<
    (Seq<u64>, ReplayState, nat),
    TraceError,
> {
    match decode_at(s, 0) {
        Err(e) => Err(fault_at(0, 0, TraceFault::Decode(e))),
        Ok((p, next)) => if p.tcode != Tcode::TcodeProgTraceSync {
            Err(fault_at(0, 0, TraceFault::Replay(ReplayError::MissingSync)))
        } else {
            replay_rest(m, s, next, sync_state(p), 1)
        },
    }
}

/// `done` and `k` put before an outcome of `replay_rest`.
pub open spec fn after_packets(
    done: Seq<u64>,
    k: nat,
    r: Result<(Seq<u64>, ReplayState, nat), TraceError>,
) -> Result<(Seq<u64>, ReplayState, nat), TraceError> {
    match r {
        Ok((rest, fin, j)) => Ok((done + rest, fin, k + j)),
        Err(e) => Err(e),
    }
}

/// A decoded packet ends after the position where it starts.
pub proof fn lemma_decode_advances(s: Seq<u8>, pos: int)
    requires
        0 <= pos,
        decode_at(s, pos).is_ok(),
    ensures
        pos < decode_at(s, pos).unwrap().1 <= s.len(),
{
    let i = pos + 1;
    lemma_run_end_bounds(s, i, MSEO_EOF);
    lemma_run_end_bounds(s, i, MSEO_LAST);
    let j = crate::bitfield::run_end(s, i, MSEO_EOF) + 1;
    if j >= 0 {
        lemma_run_end_bounds(s, j, MSEO_EOF);
        lemma_run_end_bounds(s, j, MSEO_LAST);
        let k = crate::bitfield::run_end(s, j, MSEO_EOF) + 1;
        if k >= 0 {
            lemma_run_end_bounds(s, k, MSEO_LAST);
        }
    }
}

/// Decodes the packet at the stream's position, with index `idx`, and folds
/// it into the replay.
fn fold_next(
    stream: &mut TraceStream,
    state: &mut ReplayState,
    index: &InsnIndex,
    out: &mut Vec<u64>,
    idx: u64,
) -> (r: Result<bool, TraceError>)
    requires
        old(stream).wf(),
        old(stream).pos < old(stream).data@.len(),
    ensures
        final(stream).wf(),
        final(stream).data@ == old(stream).data@,
        ({
            let s = old(stream).data@;
            let pos = old(stream).pos as int;
            match packet_effect(index@, s, pos, *old(state)) {
                Err(f) => r == Err::<bool, TraceError>(fault_at(idx as nat, pos, f)),
                Ok((st2, visited, done, next)) => {
                    &&& r == Ok::<bool, TraceError>(done)
                    &&& final(stream).pos == next
                    &&& pos < next
                    &&& *final(state) == st2
                    &&& final(out)@ == old(out)@ + visited
                },
            }
        }),
{
    let start = stream.pos;
    let ghost s = stream.data@;
    let packet = match read_packet(stream) {
        Ok(p) => p,
        Err(e) => {
            proof {
                reveal(packet_effect);
            }
            return Err(TraceError { packet_index: idx, offset: start, fault: TraceFault::Decode(e) });
        },
    };
    proof {
        lemma_decode_advances(s, start as int);
        reveal(packet_effect);
    }
    match replay_packet(state, &packet, index, out) {
        Ok(d) => Ok(d),
        Err(e) => Err(TraceError { packet_index: idx, offset: start, fault: TraceFault::Replay(e) }),
    }
}

/// Decodes `trace` packet by packet and replays it against `index`: the first
/// packet must be a synchronization packet; replay stops at the end of the
/// stream or after a trace-correlation packet. A failure names the packet
/// and the offset at which it starts.
#[verifier::rlimit(60)]
pub fn replay_trace(trace: Vec<u8>, index: &InsnIndex) -> (r: Result<Replay, TraceError>)
    ensures
        match replay_spec(index@, trace@) {
            Ok((addresses, state, count)) => {
                &&& r.is_ok()
                &&& r.unwrap().addresses@ == addresses
                &&& r.unwrap().state == state
                &&& r.unwrap().packet_count == count
            },
            Err(e) => r == Err::<Replay, TraceError>(e),
        },
{
    let ghost m = index@;
    let ghost s = trace@;
    let mut stream = TraceStream::new(trace);
    let first = match read_packet(&mut stream) {
        Ok(p) => p,
        Err(e) => {
            return Err(TraceError { packet_index: 0, offset: 0, fault: TraceFault::Decode(e) });
        },
    };
    if first.tcode != Tcode::TcodeProgTraceSync {
        return Err(
            TraceError {
                packet_index: 0,
                offset: 0,
                fault: TraceFault::Replay(ReplayError::MissingSync),
            },
        );
    }
    proof {
        lemma_decode_advances(s, 0);
    }
    let mut state = sync_replay(&first);
    let mut out: Vec<u64> = Vec::new();
    let mut count: u64 = 0;
    loop
        invariant_except_break
            replay_spec(m, s) == after_packets(
                out@,
                count as nat,
                replay_rest(m, s, stream.pos as int, state, count as nat + 1),
            ),
        invariant
            stream.wf(),
            stream.data@ == s,
            s == trace@,
            m == index@,
            count < stream.pos,
        ensures
            replay_spec(m, s) == Ok::<(Seq<u64>, ReplayState, nat), TraceError>(
                (out@, state, count as nat),
            ),
        decreases s.len() - stream.pos,
    {
        if stream.at_end() {
            assert(out@ + seq![] =~= out@);
            break;
        }
        let ghost before = out@;
        let ghost pos = stream.pos as int;
        let ghost st0 = state;
        let ghost idx = count as nat + 1;
        let ghost effect = packet_effect(m, s, pos, st0);
        let done = match fold_next(&mut stream, &mut state, index, &mut out, count + 1) {
            Ok(d) => d,
            Err(e) => {
                assert(replay_rest(m, s, pos, st0, idx) == Err::<(Seq<u64>, ReplayState, nat), TraceError>(e));
                assert(replay_spec(m, s) == Err::<(Seq<u64>, ReplayState, nat), TraceError>(e));
                return Err(e);
            },
        };
        proof {
            match effect {
                Ok((st2, visited, d, next)) => {
                    assert(out@ == before + visited);
                    if done {
                        assert(replay_rest(m, s, pos, st0, idx) == Ok::<
                            (Seq<u64>, ReplayState, nat),
                            TraceError,
                        >((visited, state, 1)));
                    } else {
                        let w = replay_rest(m, s, stream.pos as int, state, idx + 1);
                        match w {
                            Ok((rest, fin, j)) => {
                                assert(before + (visited + rest) =~= out@ + rest);
                            },
                            Err(e) => {},
                        }
                    }
                },
                Err(f) => {},
            }
        }
        count = count + 1;
        if done {
            break;
        }
    }
    Ok(Replay { addresses: out, packet_count: count, state })
}

} // verus!
