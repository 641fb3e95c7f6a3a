use vstd::prelude::*;
use vstd::arithmetic::div_mod::{lemma_mod_breakdown, lemma_small_mod, lemma_fundamental_div_mod};
use vstd::arithmetic::power2::{pow2, lemma_pow2_adds, lemma2_to64, lemma_pow2_pos};
use crate::bitfield::{
    MSEO_EOF, MSEO_LAST, mseo, mdo, run_end, groups_value, field_value, plain_value,
};
use crate::packet::{Packet, SYNC_MARKER, blank_packet, decode_at};
use crate::tcode::Tcode;
use crate::error::DecodeError;

verus! {

/// A trace byte that carries six-bit group `g` under tag `tag`.
pub open spec fn group_byte(g: nat, tag: u8) -> u8 {
    (g * 4 + tag) as u8
}

/// `v` as `n` six-bit groups, low group first; the last byte carries `tag`,
/// the others no tag.
pub open spec fn encode_groups(v: nat, n: nat, tag: u8) -> Seq<u8>
    decreases n,
{
    if n == 0 {
        seq![]
    } else if n == 1 {
        seq![group_byte(v % 64, tag)]
    } else {
        seq![group_byte(v % 64, 0)] + encode_groups(v / 64, (n - 1) as nat, tag)
    }
}

/// A program-trace synchronization packet for a full address and a
/// timestamp: the address's two low bits in the marker byte, then `g1`
/// groups of the rest of it, then `g2` groups of the timestamp.
pub open spec fn sync_packet_bytes(f_addr: u64, tstamp: u64, g1: nat, g2: nat) -> Seq<u8> {
    seq![(9 * 4) as u8, ((f_addr % 4) * 64 + SYNC_MARKER * 4) as u8] + encode_groups(
        f_addr as nat / 4,
        g1,
        MSEO_EOF,
    ) + encode_groups(tstamp as nat, g2, MSEO_LAST)
}

/// Reading groups from the front: the first byte is the lowest group.
proof fn lemma_groups_front(b: u8, t: Seq<u8>, base: nat)
    ensures
        groups_value(seq![b] + t, base) == mdo(b) * pow2(base) + groups_value(t, base + 6),
    decreases t.len(),
{
    let u = seq![b] + t;
    if t.len() == 0 {
        assert(u.drop_last() =~= Seq::<u8>::empty());
        assert(u.last() == b);
        assert(groups_value(u, base) == groups_value(u.drop_last(), base) + mdo(u.last()) * pow2(
            base + 6 * (u.len() - 1) as nat,
        ));
        assert(base + 6 * (u.len() - 1) as nat == base);
    } else {
        assert(u.drop_last() =~= seq![b] + t.drop_last());
        assert(u.last() == t.last());
        lemma_groups_front(b, t.drop_last(), base);
        assert(base + 6 * (u.len() - 1) as nat == (base + 6) + 6 * (t.len() - 1) as nat);
        assert(groups_value(u, base) == groups_value(u.drop_last(), base) + mdo(u.last()) * pow2(
            base + 6 * (u.len() - 1) as nat,
        ));
        assert(groups_value(t, base + 6) == groups_value(t.drop_last(), base + 6) + mdo(t.last())
            * pow2((base + 6) + 6 * (t.len() - 1) as nat));
    }
}

proof fn lemma_group_byte(g: nat, tag: u8)
    requires
        g < 64,
        tag < 4,
    ensures
        mdo(group_byte(g, tag)) == g,
        mseo(group_byte(g, tag)) == tag,
{
}

/// Encoded groups read back as the value kept to their width; only the last
/// byte carries the tag.
proof fn lemma_encode_groups(v: nat, n: nat, tag: u8, base: nat)
    requires
        n >= 1,
        1 <= tag < 4,
    ensures
        encode_groups(v, n, tag).len() == n,
        groups_value(encode_groups(v, n, tag), base) == (v % pow2(6 * n)) * pow2(base),
        mseo(encode_groups(v, n, tag)[n - 1]) == tag,
        forall|k: int| 0 <= k < n - 1 ==> mseo(#[trigger] encode_groups(v, n, tag)[k]) == 0,
    decreases n,
{
    lemma2_to64();
    let e = encode_groups(v, n, tag);
    if n == 1 {
        lemma_group_byte(v % 64, tag);
        assert(e.drop_last() =~= Seq::<u8>::empty());
        assert(groups_value(e, base) == groups_value(e.drop_last(), base) + mdo(e.last()) * pow2(
            base + 6 * (e.len() - 1) as nat,
        ));
        assert(6 * n == 6);
        assert(base + 6 * (e.len() - 1) as nat == base);
    } else {
        let rest = encode_groups(v / 64, (n - 1) as nat, tag);
        lemma_encode_groups(v / 64, (n - 1) as nat, tag, base + 6);
        lemma_group_byte(v % 64, 0);
        lemma_groups_front(group_byte(v % 64, 0), rest, base);
        let p = pow2(6 * (n - 1) as nat);
        lemma_pow2_pos(6 * (n - 1) as nat);
        lemma_pow2_adds(6, 6 * (n - 1) as nat);
        assert(e == seq![group_byte(v % 64, 0)] + rest);
        assert(6 + 6 * (n - 1) as nat == 6 * n);
        lemma_pow2_adds(base, 6);
        lemma_mod_breakdown(v as int, 64, p as int);
        let bp = pow2(base);
        let x = (v / 64) % p;
        assert((v % 64) * bp + x * (bp * 64) == (64 * x + v % 64) * bp) by (nonlinear_arith);
        assert forall|k: int| 0 <= k < n - 1 implies mseo(#[trigger] e[k]) == 0 by {
            if k > 0 {
                assert(e[k] == rest[k - 1]);
            }
        }
        assert(e[n - 1] == rest[n - 2]);
    }
}

/// A run ends at the first byte that carries its tag.
proof fn lemma_run_end_at(s: Seq<u8>, i: int, e: int, tag: u8)
    requires
        0 <= i <= e < s.len(),
        mseo(s[e]) == tag,
        forall|k: int| i <= k < e ==> mseo(#[trigger] s[k]) != tag,
    ensures
        run_end(s, i, tag) == e,
    decreases e - i,
{
    if i < e {
        lemma_run_end_at(s, i + 1, e, tag);
    }
}

/// The first run of a synchronization packet carries the marker and gives
/// back the full address.
proof fn lemma_sync_first_run(f_addr: u64, g1: nat)
    requires
        1 <= g1,
        f_addr as nat / 4 < pow2(6 * g1),
    ensures
        ({
            let head = ((f_addr % 4) * 64 + SYNC_MARKER * 4) as u8;
            let a = seq![head] + encode_groups(f_addr as nat / 4, g1, MSEO_EOF);
            &&& ((a[0] / 4) % 16) as u8 == SYNC_MARKER
            &&& field_value(a, 2) == f_addr
        }),
{
    lemma2_to64();
    let head = ((f_addr % 4) * 64 + SYNC_MARKER * 4) as u8;
    let e1 = encode_groups(f_addr as nat / 4, g1, MSEO_EOF);
    let a = seq![head] + e1;
    lemma_encode_groups(f_addr as nat / 4, g1, MSEO_EOF, 2);
    assert(a.drop_first() =~= e1);
    assert(a[0] == head);
    lemma_small_mod(f_addr as nat / 4, pow2(6 * g1));
    lemma_fundamental_div_mod(f_addr as int, 4);
    assert(head as nat / pow2(6) == f_addr % 4);
}

/// A plain run of `g` groups gives back a value that fits in them.
proof fn lemma_plain_run(v: u64, g: nat)
    requires
        1 <= g,
        v < pow2(6 * g),
    ensures
        plain_value(encode_groups(v as nat, g, MSEO_LAST)) == v,
{
    lemma2_to64();
    let b = encode_groups(v as nat, g, MSEO_LAST);
    lemma_encode_groups(v as nat, g, MSEO_LAST, 0);
    assert(b =~= seq![b[0]] + b.drop_first());
    lemma_groups_front(b[0], b.drop_first(), 0);
    lemma_small_mod(v as nat, pow2(6 * g));
}

/// Decoding a synchronization packet written for `f_addr` and `tstamp`, with
/// any number of groups in which the two values fit and any bytes after it,
/// gives back exactly those two values, bit for bit, and stops at the end of
/// the packet.
pub proof fn lemma_sync_round_trip(f_addr: u64, tstamp: u64, g1: nat, g2: nat, rest: Seq<u8>)
    requires
        1 <= g1,
        1 <= g2,
        f_addr as nat / 4 < pow2(6 * g1),
        tstamp < pow2(6 * g2),
    ensures
        decode_at(sync_packet_bytes(f_addr, tstamp, g1, g2) + rest, 0) == Ok::<
            (Packet, int),
            DecodeError,
        >(
            (
                Packet {
                    sync: SYNC_MARKER,
                    f_addr,
                    tstamp,
                    ..blank_packet(Tcode::TcodeProgTraceSync)
                },
                (2 + g1 + g2) as int,
            ),
        ),
{
    let s = sync_packet_bytes(f_addr, tstamp, g1, g2) + rest;
    let head = ((f_addr % 4) * 64 + SYNC_MARKER * 4) as u8;
    let e1 = encode_groups(f_addr as nat / 4, g1, MSEO_EOF);
    let e2 = encode_groups(tstamp as nat, g2, MSEO_LAST);
    lemma_encode_groups(f_addr as nat / 4, g1, MSEO_EOF, 2);
    lemma_encode_groups(tstamp as nat, g2, MSEO_LAST, 0);
    lemma_sync_first_run(f_addr, g1);
    lemma_plain_run(tstamp, g2);
    let j = 2 + g1;
    let k = j + g2;
    assert(s.len() == k + rest.len());
    assert(s[0] == 36);
    assert(s[1] == head);
    assert(mseo(head) == 0);
    assert(forall|i: int| 0 <= i < g1 ==> s[2 + i] == e1[i]);
    assert(forall|i: int| 0 <= i < g2 ==> s[j + i] == e2[i]);
    assert forall|i: int| 1 <= i < j - 1 implies mseo(#[trigger] s[i]) != MSEO_EOF by {
        if i >= 2 {
            assert(s[i] == e1[i - 2]);
        }
    }
    assert(s[j - 1] == e1[g1 - 1]);
    lemma_run_end_at(s, 1, j - 1, MSEO_EOF);
    assert(s.subrange(1, j as int) =~= seq![head] + e1);
    assert forall|i: int| j <= i < k - 1 implies mseo(#[trigger] s[i]) != MSEO_LAST by {
        assert(s[i] == e2[i - j]);
    }
    assert(s[k - 1] == e2[g2 - 1]);
    lemma_run_end_at(s, j as int, k - 1, MSEO_LAST);
    assert(s.subrange(j as int, k as int) =~= e2);
}

/// Decoding a synchronization packet and writing its address and timestamp
/// out again, in full width, gives bytes that decode to the same packet.
pub proof fn lemma_sync_decode_reencode(s: Seq<u8>, pos: int)
    requires
        decode_at(s, pos).is_ok(),
        decode_at(s, pos).unwrap().0.tcode == Tcode::TcodeProgTraceSync,
    ensures
        ({
            let p = decode_at(s, pos).unwrap().0;
            decode_at(sync_packet_bytes(p.f_addr, p.tstamp, 11, 11), 0) == Ok::<
                (Packet, int),
                DecodeError,
            >((p, 24))
        }),
{
    let p = decode_at(s, pos).unwrap().0;
    lemma2_to64();
    lemma_pow2_adds(64, 2);
    assert(6 * 11nat == 66);
    assert(sync_packet_bytes(p.f_addr, p.tstamp, 11, 11) + Seq::<u8>::empty() =~= sync_packet_bytes(
        p.f_addr,
        p.tstamp,
        11,
        11,
    ));
    lemma_sync_round_trip(p.f_addr, p.tstamp, 11, 11, Seq::empty());
}

} // verus!
