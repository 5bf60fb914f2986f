//! The wire codec: rumor envelopes and probe control messages over
//! connectionless datagrams.
//!
//! Every scalar goes out as a little-endian 64-bit word and every byte
//! string is length-prefixed, so a decoder can always walk a datagram
//! segment by segment. Each rumor in a batch sits in its own
//! length-prefixed segment: a decoder that does not know a rumor kind
//! skips the segment instead of failing, which keeps the protocol
//! forward-tolerant.
//!
//! Decoding is proved to be the exact inverse of encoding: a decoded
//! control message re-encodes to the very bytes consumed, and so does a
//! decoded rumor (print-parse identity).

use vstd::prelude::*;
use crate::rumor::{Rumor, RumorBody, VersionStamp};
use crate::types::{Liveness, Member};

verus! {

/// The little-endian bytes of a 64-bit word.
#[verifier::opaque]
pub open spec fn u64_le(x: u64) -> Seq<u8> {
    seq![
        (x & 0xff) as u8,
        ((x >> 8) & 0xff) as u8,
        ((x >> 16) & 0xff) as u8,
        ((x >> 24) & 0xff) as u8,
        ((x >> 32) & 0xff) as u8,
        ((x >> 40) & 0xff) as u8,
        ((x >> 48) & 0xff) as u8,
        ((x >> 56) & 0xff) as u8,
    ]
}

/// A word's encoding is eight bytes long.
pub broadcast proof fn lemma_u64_le_len(x: u64)
    ensures
        (#[trigger] u64_le(x)).len() == 8,
{
    reveal(u64_le);
}

/// Two words with the same little-endian bytes are the same word.
pub proof fn lemma_u64_le_injective(a: u64, b: u64)
    requires
        u64_le(a) == u64_le(b),
    ensures
        a == b,
{
    reveal(u64_le);
    assert(u64_le(a)[0] == u64_le(b)[0]);
    assert(u64_le(a)[1] == u64_le(b)[1]);
    assert(u64_le(a)[2] == u64_le(b)[2]);
    assert(u64_le(a)[3] == u64_le(b)[3]);
    assert(u64_le(a)[4] == u64_le(b)[4]);
    assert(u64_le(a)[5] == u64_le(b)[5]);
    assert(u64_le(a)[6] == u64_le(b)[6]);
    assert(u64_le(a)[7] == u64_le(b)[7]);
    assert(((a & 0xff) as u8 == (b & 0xff) as u8 && ((a >> 8) & 0xff) as u8 == ((b >> 8) & 0xff)
        as u8 && ((a >> 16) & 0xff) as u8 == ((b >> 16) & 0xff) as u8 && ((a >> 24) & 0xff) as u8
        == ((b >> 24) & 0xff) as u8 && ((a >> 32) & 0xff) as u8 == ((b >> 32) & 0xff) as u8 && ((a
        >> 40) & 0xff) as u8 == ((b >> 40) & 0xff) as u8 && ((a >> 48) & 0xff) as u8 == ((b >> 48)
        & 0xff) as u8 && ((a >> 56) & 0xff) as u8 == ((b >> 56) & 0xff) as u8) ==> a == b)
        by (bit_vector);
}

/// Appends the little-endian bytes of a word.
pub fn put_u64(buf: &mut Vec<u8>, x: u64)
    ensures
        final(buf)@ == old(buf)@ + u64_le(x),
{
    proof {
        reveal(u64_le);
    }
    let ghost before = buf@;
    buf.push((x & 0xff) as u8);
    buf.push(((x >> 8) & 0xff) as u8);
    buf.push(((x >> 16) & 0xff) as u8);
    buf.push(((x >> 24) & 0xff) as u8);
    buf.push(((x >> 32) & 0xff) as u8);
    buf.push(((x >> 40) & 0xff) as u8);
    buf.push(((x >> 48) & 0xff) as u8);
    buf.push(((x >> 56) & 0xff) as u8);
    proof {
        assert(buf@ =~= before + u64_le(x));
    }
}

/// Reads a word back; the consumed bytes are exactly its encoding.
pub fn get_u64(buf: &Vec<u8>, pos: usize) -> (x: u64)
    requires
        pos + 8 <= buf@.len(),
    ensures
        u64_le(x) == buf@.subrange(pos as int, pos as int + 8),
{
    let n = buf.len();
    proof {
        assert(pos + 8 <= n);
    }
    let b0 = buf[pos] as u64;
    let b1 = buf[pos + 1] as u64;
    let b2 = buf[pos + 2] as u64;
    let b3 = buf[pos + 3] as u64;
    let b4 = buf[pos + 4] as u64;
    let b5 = buf[pos + 5] as u64;
    let b6 = buf[pos + 6] as u64;
    let b7 = buf[pos + 7] as u64;
    let x = b0 | (b1 << 8) | (b2 << 16) | (b3 << 24) | (b4 << 32) | (b5 << 40) | (b6 << 48) | (b7
        << 56);
    proof {
        reveal(u64_le);
        let y = x;
        assert(b0 < 256 && b1 < 256 && b2 < 256 && b3 < 256 && b4 < 256 && b5 < 256 && b6 < 256
            && b7 < 256);
        assert((y == b0 | (b1 << 8) | (b2 << 16) | (b3 << 24) | (b4 << 32) | (b5 << 40) | (b6
            << 48) | (b7 << 56) && b0 < 256 && b1 < 256 && b2 < 256 && b3 < 256 && b4 < 256 && b5
            < 256 && b6 < 256 && b7 < 256) ==> ((y & 0xff) == b0 && ((y >> 8) & 0xff) == b1 && ((y
            >> 16) & 0xff) == b2 && ((y >> 24) & 0xff) == b3 && ((y >> 32) & 0xff) == b4 && ((y
            >> 40) & 0xff) == b5 && ((y >> 48) & 0xff) == b6 && ((y >> 56) & 0xff) == b7)) by (bit_vector);
        assert(u64_le(x) =~= buf@.subrange(pos as int, pos as int + 8));
    }
    x
}

/// Probe control messages and the rumor-batch envelope.
#[derive(Debug, PartialEq, Eq)]
pub enum Message {
    Ping { from: u64 },
    Ack { from: u64 },
    PingReq { from: u64, target: u64 },
    PingReqAck { from: u64, target: u64 },
    RumorBatch { rumors: Vec<Rumor> },
}

/// Encoding of a member record: six words.
pub open spec fn enc_member(m: Member) -> Seq<u8> {
    u64_le(m.id) + u64_le(m.address as u64) + u64_le(m.swim_port as u64) + u64_le(
        m.gossip_port as u64,
    ) + u64_le(m.incarnation) + u64_le(m.liveness.rank() as u64)
}

/// Encoding of a rumor: its stamp, a kind tag, then the kind's fields;
/// byte strings carry a leading length word.
pub open spec fn enc_rumor(r: Rumor) -> Seq<u8> {
    u64_le(r.stamp.epoch) + u64_le(r.stamp.seq) + match r.body {
        RumorBody::Membership { member } => u64_le(0) + enc_member(member),
        RumorBody::Service { group, originator, config } => u64_le(1) + u64_le(group) + u64_le(
            originator,
        ) + u64_le(config@.len() as u64) + config@,
        RumorBody::Election { group, term, winner, suitability } => u64_le(2) + u64_le(group)
            + u64_le(term) + u64_le(winner) + u64_le(suitability),
        RumorBody::Departure { member_id, incarnation } => u64_le(3) + u64_le(member_id) + u64_le(
            incarnation,
        ),
        RumorBody::ServiceFile { group, contents } => u64_le(4) + u64_le(group) + u64_le(
            contents@.len() as u64,
        ) + contents@,
    }
}

/// Appends the encoding of a member record.
pub fn put_member(buf: &mut Vec<u8>, m: &Member)
    ensures
        final(buf)@ == old(buf)@ + enc_member(*m),
{
    broadcast use lemma_u64_le_len;

    let ghost before = buf@;
    put_u64(buf, m.id);
    put_u64(buf, m.address as u64);
    put_u64(buf, m.swim_port as u64);
    put_u64(buf, m.gossip_port as u64);
    put_u64(buf, m.incarnation);
    put_u64(buf, m.liveness.precedence() as u64);
    proof {
        assert(buf@ =~= before + enc_member(*m));
    }
}

/// Appends the encoding of a rumor.
#[verifier::rlimit(100)]
pub fn put_rumor(buf: &mut Vec<u8>, r: &Rumor)
    ensures
        final(buf)@ == old(buf)@ + enc_rumor(*r),
{
    broadcast use lemma_u64_le_len;

    let ghost before = buf@;
    put_u64(buf, r.stamp.epoch);
    put_u64(buf, r.stamp.seq);
    match &r.body {
        RumorBody::Membership { member } => {
            put_u64(buf, 0);
            put_member(buf, member);
            proof {
                assert(buf@ =~= before + enc_rumor(*r));
            }
        },
        RumorBody::Service { group, originator, config } => {
            put_u64(buf, 1);
            put_u64(buf, *group);
            put_u64(buf, *originator);
            put_u64(buf, config.len() as u64);
            put_bytes(buf, config);
            proof {
                assert(buf@ =~= before + enc_rumor(*r));
            }
        },
        RumorBody::Election { group, term, winner, suitability } => {
            put_u64(buf, 2);
            put_u64(buf, *group);
            put_u64(buf, *term);
            put_u64(buf, *winner);
            put_u64(buf, *suitability);
            proof {
                assert(buf@ =~= before + enc_rumor(*r));
            }
        },
        RumorBody::Departure { member_id, incarnation } => {
            put_u64(buf, 3);
            put_u64(buf, *member_id);
            put_u64(buf, *incarnation);
            proof {
                assert(buf@ =~= before + enc_rumor(*r));
            }
        },
        RumorBody::ServiceFile { group, contents } => {
            put_u64(buf, 4);
            put_u64(buf, *group);
            put_u64(buf, contents.len() as u64);
            put_bytes(buf, contents);
            proof {
                assert(buf@ =~= before + enc_rumor(*r));
            }
        },
    }
}

/// Appends raw bytes.
fn put_bytes(buf: &mut Vec<u8>, v: &Vec<u8>)
    ensures
        final(buf)@ == old(buf)@ + v@,
{
    let mut i: usize = 0;
    while i < v.len()
        invariant
            0 <= i <= v@.len(),
            buf@ == old(buf)@ + v@.take(i as int),
        decreases v@.len() - i,
    {
        buf.push(v[i]);
        proof {
            assert(buf@ =~= old(buf)@ + v@.take(i as int + 1));
        }
        i += 1;
    }
    proof {
        assert(old(buf)@ + v@.take(v@.len() as int) =~= old(buf)@ + v@);
    }
}

/// A rumor whose byte payloads fit the wire's length word.
pub open spec fn wire_sized(r: Rumor) -> bool {
    match r.body {
        RumorBody::Service { config, .. } => config@.len() <= 0xffff,
        RumorBody::ServiceFile { contents, .. } => contents@.len() <= 0xffff,
        _ => true,
    }
}

/// The same fact: equal stamps and equal bodies, with byte payloads
/// compared by content (two byte vectors with the same bytes carry the
/// same fact).
pub open spec fn rumor_models(a: Rumor, b: Rumor) -> bool {
    &&& a.stamp == b.stamp
    &&& match (a.body, b.body) {
        (RumorBody::Membership { member: m1 }, RumorBody::Membership { member: m2 }) => m1 == m2,
        (
            RumorBody::Service { group: g1, originator: o1, config: c1 },
            RumorBody::Service { group: g2, originator: o2, config: c2 },
        ) => g1 == g2 && o1 == o2 && c1@ == c2@,
        (
            RumorBody::Election { group: g1, term: t1, winner: w1, suitability: s1 },
            RumorBody::Election { group: g2, term: t2, winner: w2, suitability: s2 },
        ) => g1 == g2 && t1 == t2 && w1 == w2 && s1 == s2,
        (
            RumorBody::Departure { member_id: m1, incarnation: i1 },
            RumorBody::Departure { member_id: m2, incarnation: i2 },
        ) => m1 == m2 && i1 == i2,
        (
            RumorBody::ServiceFile { group: g1, contents: c1 },
            RumorBody::ServiceFile { group: g2, contents: c2 },
        ) => g1 == g2 && c1@ == c2@,
        _ => false,
    }
}

/// A window into bytes that hold a known sequence is the corresponding
/// window of that sequence.
proof fn lemma_window(h: Seq<u8>, pos: int, e: Seq<u8>, a: int, b: int)
    requires
        0 <= pos,
        pos + e.len() <= h.len(),
        h.subrange(pos, pos + e.len() as int) == e,
        0 <= a <= b <= e.len(),
    ensures
        h.subrange(pos + a, pos + b) == e.subrange(a, b),
{
    assert forall|z: int| 0 <= z < b - a implies h.subrange(pos + a, pos + b)[z] == e.subrange(
        a,
        b,
    )[z] by {
        assert(h.subrange(pos, pos + e.len() as int)[a + z] == e[a + z]);
    }
    assert(h.subrange(pos + a, pos + b) =~= e.subrange(a, b));
}

/// Where each component of a rumor's encoding sits when the encoding
/// occupies `[pos, pos + len)` of a buffer.
#[verifier::rlimit(100)]
proof fn lemma_enc_parts(h: Seq<u8>, pos: int, orig: Rumor)
    requires
        0 <= pos,
        pos + enc_rumor(orig).len() <= h.len(),
        h.subrange(pos, pos + enc_rumor(orig).len() as int) == enc_rumor(orig),
    ensures
        h.subrange(pos, pos + 8) == u64_le(orig.stamp.epoch),
        h.subrange(pos + 8, pos + 16) == u64_le(orig.stamp.seq),
        match orig.body {
            RumorBody::Membership { member } => {
                &&& enc_rumor(orig).len() == 72
                &&& h.subrange(pos + 16, pos + 24) == u64_le(0)
                &&& h.subrange(pos + 24, pos + 32) == u64_le(member.id)
                &&& h.subrange(pos + 32, pos + 40) == u64_le(member.address as u64)
                &&& h.subrange(pos + 40, pos + 48) == u64_le(member.swim_port as u64)
                &&& h.subrange(pos + 48, pos + 56) == u64_le(member.gossip_port as u64)
                &&& h.subrange(pos + 56, pos + 64) == u64_le(member.incarnation)
                &&& h.subrange(pos + 64, pos + 72) == u64_le(member.liveness.rank() as u64)
            },
            RumorBody::Service { group, originator, config } => {
                &&& enc_rumor(orig).len() == 48 + config@.len()
                &&& h.subrange(pos + 16, pos + 24) == u64_le(1)
                &&& h.subrange(pos + 24, pos + 32) == u64_le(group)
                &&& h.subrange(pos + 32, pos + 40) == u64_le(originator)
                &&& h.subrange(pos + 40, pos + 48) == u64_le(config@.len() as u64)
                &&& h.subrange(pos + 48, pos + 48 + config@.len() as int) == config@
            },
            RumorBody::Election { group, term, winner, suitability } => {
                &&& enc_rumor(orig).len() == 56
                &&& h.subrange(pos + 16, pos + 24) == u64_le(2)
                &&& h.subrange(pos + 24, pos + 32) == u64_le(group)
                &&& h.subrange(pos + 32, pos + 40) == u64_le(term)
                &&& h.subrange(pos + 40, pos + 48) == u64_le(winner)
                &&& h.subrange(pos + 48, pos + 56) == u64_le(suitability)
            },
            RumorBody::Departure { member_id, incarnation } => {
                &&& enc_rumor(orig).len() == 40
                &&& h.subrange(pos + 16, pos + 24) == u64_le(3)
                &&& h.subrange(pos + 24, pos + 32) == u64_le(member_id)
                &&& h.subrange(pos + 32, pos + 40) == u64_le(incarnation)
            },
            RumorBody::ServiceFile { group, contents } => {
                &&& enc_rumor(orig).len() == 40 + contents@.len()
                &&& h.subrange(pos + 16, pos + 24) == u64_le(4)
                &&& h.subrange(pos + 24, pos + 32) == u64_le(group)
                &&& h.subrange(pos + 32, pos + 40) == u64_le(contents@.len() as u64)
                &&& h.subrange(pos + 40, pos + 40 + contents@.len() as int) == contents@
            },
        },
{
    broadcast use lemma_u64_le_len;

    let e = enc_rumor(orig);
    lemma_window(h, pos, e, 0, 8);
    assert(e.subrange(0, 8) =~= u64_le(orig.stamp.epoch));
    lemma_window(h, pos, e, 8, 16);
    assert(e.subrange(8, 16) =~= u64_le(orig.stamp.seq));
    match orig.body {
        RumorBody::Membership { member } => {
            lemma_window(h, pos, e, 16, 24);
            assert(e.subrange(16, 24) =~= u64_le(0));
            lemma_window(h, pos, e, 24, 32);
            assert(e.subrange(24, 32) =~= u64_le(member.id));
            lemma_window(h, pos, e, 32, 40);
            assert(e.subrange(32, 40) =~= u64_le(member.address as u64));
            lemma_window(h, pos, e, 40, 48);
            assert(e.subrange(40, 48) =~= u64_le(member.swim_port as u64));
            lemma_window(h, pos, e, 48, 56);
            assert(e.subrange(48, 56) =~= u64_le(member.gossip_port as u64));
            lemma_window(h, pos, e, 56, 64);
            assert(e.subrange(56, 64) =~= u64_le(member.incarnation));
            lemma_window(h, pos, e, 64, 72);
            assert(e.subrange(64, 72) =~= u64_le(member.liveness.rank() as u64));
        },
        RumorBody::Service { group, originator, config } => {
            lemma_window(h, pos, e, 16, 24);
            assert(e.subrange(16, 24) =~= u64_le(1));
            lemma_window(h, pos, e, 24, 32);
            assert(e.subrange(24, 32) =~= u64_le(group));
            lemma_window(h, pos, e, 32, 40);
            assert(e.subrange(32, 40) =~= u64_le(originator));
            lemma_window(h, pos, e, 40, 48);
            assert(e.subrange(40, 48) =~= u64_le(config@.len() as u64));
            lemma_window(h, pos, e, 48, 48 + config@.len() as int);
            assert(e.subrange(48, 48 + config@.len() as int) =~= config@);
        },
        RumorBody::Election { group, term, winner, suitability } => {
            lemma_window(h, pos, e, 16, 24);
            assert(e.subrange(16, 24) =~= u64_le(2));
            lemma_window(h, pos, e, 24, 32);
            assert(e.subrange(24, 32) =~= u64_le(group));
            lemma_window(h, pos, e, 32, 40);
            assert(e.subrange(32, 40) =~= u64_le(term));
            lemma_window(h, pos, e, 40, 48);
            assert(e.subrange(40, 48) =~= u64_le(winner));
            lemma_window(h, pos, e, 48, 56);
            assert(e.subrange(48, 56) =~= u64_le(suitability));
        },
        RumorBody::Departure { member_id, incarnation } => {
            lemma_window(h, pos, e, 16, 24);
            assert(e.subrange(16, 24) =~= u64_le(3));
            lemma_window(h, pos, e, 24, 32);
            assert(e.subrange(24, 32) =~= u64_le(member_id));
            lemma_window(h, pos, e, 32, 40);
            assert(e.subrange(32, 40) =~= u64_le(incarnation));
        },
        RumorBody::ServiceFile { group, contents } => {
            lemma_window(h, pos, e, 16, 24);
            assert(e.subrange(16, 24) =~= u64_le(4));
            lemma_window(h, pos, e, 24, 32);
            assert(e.subrange(24, 32) =~= u64_le(group));
            lemma_window(h, pos, e, 32, 40);
            assert(e.subrange(32, 40) =~= u64_le(contents@.len() as u64));
            lemma_window(h, pos, e, 40, 40 + contents@.len() as int);
            assert(e.subrange(40, 40 + contents@.len() as int) =~= contents@);
        },
    }
}

/// A wire-sized rumor's encoding occupies `[pos, pos + len)` of `h`.
pub open spec fn encoding_at(h: Seq<u8>, pos: int, orig: Rumor) -> bool {
    &&& wire_sized(orig)
    &&& 0 <= pos
    &&& pos + enc_rumor(orig).len() <= h.len()
    &&& h.subrange(pos, pos + enc_rumor(orig).len() as int) == enc_rumor(orig)
}

/// Equal encodings carry the same fact.
pub proof fn lemma_enc_rumor_injective(a: Rumor, b: Rumor)
    requires
        enc_rumor(a) == enc_rumor(b),
    ensures
        rumor_models(a, b),
{
    broadcast use lemma_u64_le_len;

    let e = enc_rumor(a);
    assert(e.subrange(0, e.len() as int) =~= e);
    lemma_enc_parts(e, 0, a);
    lemma_enc_parts(e, 0, b);
    lemma_u64_le_injective_seq(e.subrange(0, 8), a.stamp.epoch, b.stamp.epoch);
    lemma_u64_le_injective_seq(e.subrange(8, 16), a.stamp.seq, b.stamp.seq);
    match (a.body, b.body) {
        (RumorBody::Membership { member: m1 }, RumorBody::Membership { member: m2 }) => {
            lemma_u64_le_injective_seq(e.subrange(24, 32), m1.id, m2.id);
            lemma_u64_le_injective_seq(e.subrange(32, 40), m1.address as u64, m2.address as u64);
            lemma_u64_le_injective_seq(
                e.subrange(40, 48),
                m1.swim_port as u64,
                m2.swim_port as u64,
            );
            lemma_u64_le_injective_seq(
                e.subrange(48, 56),
                m1.gossip_port as u64,
                m2.gossip_port as u64,
            );
            lemma_u64_le_injective_seq(e.subrange(56, 64), m1.incarnation, m2.incarnation);
            lemma_u64_le_injective_seq(
                e.subrange(64, 72),
                m1.liveness.rank() as u64,
                m2.liveness.rank() as u64,
            );
        },
        (
            RumorBody::Service { group: g1, originator: o1, config: c1 },
            RumorBody::Service { group: g2, originator: o2, config: c2 },
        ) => {
            lemma_u64_le_injective_seq(e.subrange(24, 32), g1, g2);
            lemma_u64_le_injective_seq(e.subrange(32, 40), o1, o2);
            lemma_u64_le_injective_seq(e.subrange(40, 48), c1@.len() as u64, c2@.len() as u64);
            assert(c1@ == c2@);
        },
        (
            RumorBody::Election { group: g1, term: t1, winner: w1, suitability: s1 },
            RumorBody::Election { group: g2, term: t2, winner: w2, suitability: s2 },
        ) => {
            lemma_u64_le_injective_seq(e.subrange(24, 32), g1, g2);
            lemma_u64_le_injective_seq(e.subrange(32, 40), t1, t2);
            lemma_u64_le_injective_seq(e.subrange(40, 48), w1, w2);
            lemma_u64_le_injective_seq(e.subrange(48, 56), s1, s2);
        },
        (
            RumorBody::Departure { member_id: m1, incarnation: i1 },
            RumorBody::Departure { member_id: m2, incarnation: i2 },
        ) => {
            lemma_u64_le_injective_seq(e.subrange(24, 32), m1, m2);
            lemma_u64_le_injective_seq(e.subrange(32, 40), i1, i2);
        },
        (
            RumorBody::ServiceFile { group: g1, contents: c1 },
            RumorBody::ServiceFile { group: g2, contents: c2 },
        ) => {
            lemma_u64_le_injective_seq(e.subrange(24, 32), g1, g2);
            lemma_u64_le_injective_seq(e.subrange(32, 40), c1@.len() as u64, c2@.len() as u64);
            assert(c1@ == c2@);
        },
        _ => {
            lemma_u64_le_injective_seq(e.subrange(16, 24), tag_of(a), tag_of(b));
        },
    }
}

/// The kind tag a rumor's encoding carries.
pub open spec fn tag_of(r: Rumor) -> u64 {
    match r.body {
        RumorBody::Membership { .. } => 0,
        RumorBody::Service { .. } => 1,
        RumorBody::Election { .. } => 2,
        RumorBody::Departure { .. } => 3,
        RumorBody::ServiceFile { .. } => 4,
    }
}

/// Both words encode the same bytes, so they are equal.
proof fn lemma_u64_le_injective_seq(bytes: Seq<u8>, x: u64, y: u64)
    requires
        u64_le(x) == bytes,
        u64_le(y) == bytes,
    ensures
        x == y,
{
    lemma_u64_le_injective(x, y);
}

/// Two encodings starting at the same position have the same length:
/// the wire format is self-delimiting.
pub proof fn lemma_enc_prefix_deterministic(h: Seq<u8>, pos: int, a: Rumor, b: Rumor)
    requires
        encoding_at(h, pos, a),
        encoding_at(h, pos, b),
    ensures
        enc_rumor(a).len() == enc_rumor(b).len(),
        enc_rumor(a) == enc_rumor(b),
{
    broadcast use lemma_u64_le_len;

    lemma_enc_parts(h, pos, a);
    lemma_enc_parts(h, pos, b);
    lemma_u64_le_injective_seq(h.subrange(pos + 16, pos + 24), tag_of(a), tag_of(b));
    match (a.body, b.body) {
        (
            RumorBody::Service { config: c1, .. },
            RumorBody::Service { config: c2, .. },
        ) => {
            lemma_u64_le_injective_seq(
                h.subrange(pos + 40, pos + 48),
                c1@.len() as u64,
                c2@.len() as u64,
            );
        },
        (
            RumorBody::ServiceFile { contents: c1, .. },
            RumorBody::ServiceFile { contents: c2, .. },
        ) => {
            lemma_u64_le_injective_seq(
                h.subrange(pos + 32, pos + 40),
                c1@.len() as u64,
                c2@.len() as u64,
            );
        },
        _ => {},
    }
    assert(enc_rumor(a) =~= enc_rumor(b)) by {
        assert forall|z: int| 0 <= z < enc_rumor(a).len() implies enc_rumor(a)[z] == enc_rumor(
            b,
        )[z] by {
            assert(h.subrange(pos, pos + enc_rumor(a).len() as int)[z] == enc_rumor(a)[z]);
            assert(h.subrange(pos, pos + enc_rumor(b).len() as int)[z] == enc_rumor(b)[z]);
        }
    }
}

/// Decodes one rumor from `buf` starting at `pos`. On success the
/// decoded rumor re-encodes to exactly the consumed bytes; on failure
/// the segment is truncated, carries an unknown kind tag, or carries a
/// field out of range — and then provably no wire-sized rumor's
/// encoding sits at `pos`, so decoding what `put_rumor` wrote always
/// succeeds and returns the written fact.
#[verifier::rlimit(100)]
pub fn get_rumor(buf: &Vec<u8>, pos: usize) -> (r: Option<(Rumor, usize)>)
    requires
        pos <= buf@.len(),
    ensures
        match r {
            Option::Some((rum, p2)) => pos < p2 <= buf@.len() && enc_rumor(rum) == buf@.subrange(
                pos as int,
                p2 as int,
            ) && wire_sized(rum) && encoding_at(buf@, pos as int, rum),
            Option::None => forall|orig: Rumor| !encoding_at(buf@, pos as int, orig),
        },
{
    broadcast use lemma_u64_le_len;

    if buf.len() - pos < 24 {
        proof {
            assert forall|orig: Rumor| !encoding_at(buf@, pos as int, orig) by {
                if encoding_at(buf@, pos as int, orig) {
                    assert(enc_rumor(orig).len() >= 24);
                }
            }
        }
        return Option::None;
    }
    let epoch = get_u64(buf, pos);
    let seq = get_u64(buf, pos + 8);
    let tag = get_u64(buf, pos + 16);
    let stamp = VersionStamp { epoch, seq };
    let body_pos = pos + 24;
    if tag == 0 {
        if buf.len() - body_pos < 48 {
            proof {
            assert forall|orig: Rumor| !encoding_at(buf@, pos as int, orig) by {
                if encoding_at(buf@, pos as int, orig) {
                    lemma_enc_parts(buf@, pos as int, orig);
                    lemma_u64_le_injective_seq(
                        buf@.subrange(pos as int + 16, pos as int + 24),
                        tag,
                        tag_of(orig),
                    );
                }
            }
        }
        return Option::None;
        }
        let id = get_u64(buf, body_pos);
        let address = get_u64(buf, body_pos + 8);
        let swim_port = get_u64(buf, body_pos + 16);
        let gossip_port = get_u64(buf, body_pos + 24);
        let incarnation = get_u64(buf, body_pos + 32);
        let rank = get_u64(buf, body_pos + 40);
        if address > 0xffff_ffff || swim_port > 0xffff || gossip_port > 0xffff {
            proof {
                assert forall|orig: Rumor| !encoding_at(buf@, pos as int, orig) by {
                    if encoding_at(buf@, pos as int, orig) {
                        lemma_enc_parts(buf@, pos as int, orig);
                        lemma_u64_le_injective_seq(
                            buf@.subrange(pos as int + 16, pos as int + 24),
                            tag,
                            tag_of(orig),
                        );
                        match orig.body {
                            RumorBody::Membership { member } => {
                                lemma_u64_le_injective_seq(
                                    buf@.subrange(pos as int + 32, pos as int + 40),
                                    address,
                                    member.address as u64,
                                );
                                lemma_u64_le_injective_seq(
                                    buf@.subrange(pos as int + 40, pos as int + 48),
                                    swim_port,
                                    member.swim_port as u64,
                                );
                                lemma_u64_le_injective_seq(
                                    buf@.subrange(pos as int + 48, pos as int + 56),
                                    gossip_port,
                                    member.gossip_port as u64,
                                );
                            },
                            _ => {},
                        }
                    }
                }
            }
            return Option::None;
        }
        let liveness = match rank {
            0u64 => Liveness::Alive,
            1u64 => Liveness::Suspect,
            2u64 => Liveness::Confirmed,
            3u64 => Liveness::Departed,
            _ => {
                proof {
                    assert forall|orig: Rumor| !encoding_at(buf@, pos as int, orig) by {
                        if encoding_at(buf@, pos as int, orig) {
                            lemma_enc_parts(buf@, pos as int, orig);
                            lemma_u64_le_injective_seq(
                                buf@.subrange(pos as int + 16, pos as int + 24),
                                tag,
                                tag_of(orig),
                            );
                            match orig.body {
                                RumorBody::Membership { member } => {
                                    lemma_u64_le_injective_seq(
                                        buf@.subrange(pos as int + 64, pos as int + 72),
                                        rank,
                                        member.liveness.rank() as u64,
                                    );
                                },
                                _ => {},
                            }
                        }
                    }
                }
                return Option::None;
            },
        };
        let member = Member {
            id,
            address: address as u32,
            swim_port: swim_port as u16,
            gossip_port: gossip_port as u16,
            incarnation,
            liveness,
        };
        let rum = Rumor { stamp, body: RumorBody::Membership { member } };
        proof {
            assert(enc_rumor(rum) =~= buf@.subrange(pos as int, body_pos as int + 48));
            assert(encoding_at(buf@, pos as int, rum));
        }
        Option::Some((rum, body_pos + 48))
    } else if tag == 1 {
        if buf.len() - body_pos < 24 {
            proof {
            assert forall|orig: Rumor| !encoding_at(buf@, pos as int, orig) by {
                if encoding_at(buf@, pos as int, orig) {
                    lemma_enc_parts(buf@, pos as int, orig);
                    lemma_u64_le_injective_seq(
                        buf@.subrange(pos as int + 16, pos as int + 24),
                        tag,
                        tag_of(orig),
                    );
                }
            }
        }
        return Option::None;
        }
        let group = get_u64(buf, body_pos);
        let originator = get_u64(buf, body_pos + 8);
        let len = get_u64(buf, body_pos + 16);
        if len > 0xffff || (buf.len() - body_pos - 24) < (len as usize) {
            proof {
                assert forall|orig: Rumor| !encoding_at(buf@, pos as int, orig) by {
                    if encoding_at(buf@, pos as int, orig) {
                        lemma_enc_parts(buf@, pos as int, orig);
                        lemma_u64_le_injective_seq(
                            buf@.subrange(pos as int + 16, pos as int + 24),
                            tag,
                            tag_of(orig),
                        );
                        match orig.body {
                            RumorBody::Service { config, .. } => {
                                lemma_u64_le_injective_seq(
                                    buf@.subrange(pos as int + 40, pos as int + 48),
                                    len,
                                    config@.len() as u64,
                                );
                            },
                            _ => {},
                        }
                    }
                }
            }
            return Option::None;
        }
        let config = get_bytes(buf, body_pos + 24, len as usize);
        let p2 = body_pos + 24 + len as usize;
        let rum = Rumor { stamp, body: RumorBody::Service { group, originator, config } };
        proof {
            assert(enc_rumor(rum) =~= buf@.subrange(pos as int, p2 as int));
            assert(encoding_at(buf@, pos as int, rum));
        }
        Option::Some((rum, p2))
    } else if tag == 2 {
        if buf.len() - body_pos < 32 {
            proof {
            assert forall|orig: Rumor| !encoding_at(buf@, pos as int, orig) by {
                if encoding_at(buf@, pos as int, orig) {
                    lemma_enc_parts(buf@, pos as int, orig);
                    lemma_u64_le_injective_seq(
                        buf@.subrange(pos as int + 16, pos as int + 24),
                        tag,
                        tag_of(orig),
                    );
                }
            }
        }
        return Option::None;
        }
        let group = get_u64(buf, body_pos);
        let term = get_u64(buf, body_pos + 8);
        let winner = get_u64(buf, body_pos + 16);
        let suitability = get_u64(buf, body_pos + 24);
        let rum = Rumor { stamp, body: RumorBody::Election { group, term, winner, suitability } };
        proof {
            assert(enc_rumor(rum) =~= buf@.subrange(pos as int, body_pos as int + 32));
            assert(encoding_at(buf@, pos as int, rum));
        }
        Option::Some((rum, body_pos + 32))
    } else if tag == 3 {
        if buf.len() - body_pos < 16 {
            proof {
            assert forall|orig: Rumor| !encoding_at(buf@, pos as int, orig) by {
                if encoding_at(buf@, pos as int, orig) {
                    lemma_enc_parts(buf@, pos as int, orig);
                    lemma_u64_le_injective_seq(
                        buf@.subrange(pos as int + 16, pos as int + 24),
                        tag,
                        tag_of(orig),
                    );
                }
            }
        }
        return Option::None;
        }
        let member_id = get_u64(buf, body_pos);
        let incarnation = get_u64(buf, body_pos + 8);
        let rum = Rumor { stamp, body: RumorBody::Departure { member_id, incarnation } };
        proof {
            assert(enc_rumor(rum) =~= buf@.subrange(pos as int, body_pos as int + 16));
            assert(encoding_at(buf@, pos as int, rum));
        }
        Option::Some((rum, body_pos + 16))
    } else if tag == 4 {
        if buf.len() - body_pos < 16 {
            proof {
            assert forall|orig: Rumor| !encoding_at(buf@, pos as int, orig) by {
                if encoding_at(buf@, pos as int, orig) {
                    lemma_enc_parts(buf@, pos as int, orig);
                    lemma_u64_le_injective_seq(
                        buf@.subrange(pos as int + 16, pos as int + 24),
                        tag,
                        tag_of(orig),
                    );
                }
            }
        }
        return Option::None;
        }
        let group = get_u64(buf, body_pos);
        let len = get_u64(buf, body_pos + 8);
        if len > 0xffff || (buf.len() - body_pos - 16) < (len as usize) {
            proof {
                assert forall|orig: Rumor| !encoding_at(buf@, pos as int, orig) by {
                    if encoding_at(buf@, pos as int, orig) {
                        lemma_enc_parts(buf@, pos as int, orig);
                        lemma_u64_le_injective_seq(
                            buf@.subrange(pos as int + 16, pos as int + 24),
                            tag,
                            tag_of(orig),
                        );
                        match orig.body {
                            RumorBody::ServiceFile { contents, .. } => {
                                lemma_u64_le_injective_seq(
                                    buf@.subrange(pos as int + 32, pos as int + 40),
                                    len,
                                    contents@.len() as u64,
                                );
                            },
                            _ => {},
                        }
                    }
                }
            }
            return Option::None;
        }
        let contents = get_bytes(buf, body_pos + 16, len as usize);
        let p2 = body_pos + 16 + len as usize;
        let rum = Rumor { stamp, body: RumorBody::ServiceFile { group, contents } };
        proof {
            assert(enc_rumor(rum) =~= buf@.subrange(pos as int, p2 as int));
            assert(encoding_at(buf@, pos as int, rum));
        }
        Option::Some((rum, p2))
    } else {
        proof {
            assert forall|orig: Rumor| !encoding_at(buf@, pos as int, orig) by {
                if encoding_at(buf@, pos as int, orig) {
                    lemma_enc_parts(buf@, pos as int, orig);
                    lemma_u64_le_injective_seq(
                        buf@.subrange(pos as int + 16, pos as int + 24),
                        tag,
                        tag_of(orig),
                    );
                }
            }
        }
        Option::None
    }
}

/// Copies `len` bytes out of the buffer.
fn get_bytes(buf: &Vec<u8>, pos: usize, len: usize) -> (v: Vec<u8>)
    requires
        pos + len <= buf@.len(),
    ensures
        v@ == buf@.subrange(pos as int, pos as int + len as int),
{
    let n = buf.len();
    proof {
        assert(pos + len <= n);
    }
    let mut v: Vec<u8> = Vec::new();
    let mut i: usize = 0;
    while i < len
        invariant
            pos + len <= buf@.len(),
            buf@.len() <= usize::MAX,
            0 <= i <= len,
            v@ == buf@.subrange(pos as int, pos as int + i as int),
        decreases len - i,
    {
        v.push(buf[pos + i]);
        proof {
            assert(v@ =~= buf@.subrange(pos as int, pos as int + i as int + 1));
        }
        i += 1;
    }
    v
}

/// Encoding of a whole message: a tag word, then the control fields, or
/// the batch as a count of segments, each rumor length-prefixed.
pub open spec fn enc_message(m: Message) -> Seq<u8> {
    match m {
        Message::Ping { from } => u64_le(10) + u64_le(from),
        Message::Ack { from } => u64_le(11) + u64_le(from),
        Message::PingReq { from, target } => u64_le(12) + u64_le(from) + u64_le(target),
        Message::PingReqAck { from, target } => u64_le(13) + u64_le(from) + u64_le(target),
        Message::RumorBatch { rumors } => u64_le(14) + u64_le(rumors@.len() as u64) + enc_segments(
            rumors@,
        ),
    }
}

/// The length-prefixed rumor segments of a batch.
pub open spec fn enc_segments(rs: Seq<Rumor>) -> Seq<u8>
    decreases rs.len(),
{
    if rs.len() == 0 {
        Seq::<u8>::empty()
    } else {
        enc_segments(rs.drop_last()) + u64_le(enc_rumor(rs.last()).len() as u64) + enc_rumor(
            rs.last(),
        )
    }
}

/// Encodes a control message (a probe envelope); batches are encoded
/// with `encode_batch`.
pub fn encode_control(m: &Message) -> (buf: Vec<u8>)
    requires
        !(m matches Message::RumorBatch { .. }),
    ensures
        buf@ == enc_message(*m),
{
    broadcast use lemma_u64_le_len;

    let mut buf: Vec<u8> = Vec::new();
    match m {
        Message::Ping { from } => {
            put_u64(&mut buf, 10);
            put_u64(&mut buf, *from);
        },
        Message::Ack { from } => {
            put_u64(&mut buf, 11);
            put_u64(&mut buf, *from);
        },
        Message::PingReq { from, target } => {
            put_u64(&mut buf, 12);
            put_u64(&mut buf, *from);
            put_u64(&mut buf, *target);
        },
        Message::PingReqAck { from, target } => {
            put_u64(&mut buf, 13);
            put_u64(&mut buf, *from);
            put_u64(&mut buf, *target);
        },
        Message::RumorBatch { .. } => {},
    }
    proof {
        assert(buf@ =~= enc_message(*m));
    }
    buf
}

/// Decodes a control message; a decoded message re-encodes to exactly
/// the bytes given, so decoding an encoded control message returns it
/// unchanged.
#[verifier::rlimit(100)]
pub fn decode_control(buf: &Vec<u8>) -> (r: Option<Message>)
    ensures
        match r {
            Option::Some(m) => enc_message(m) == buf@,
            Option::None => true,
        },
        forall|m: Message|
            !(m matches Message::RumorBatch { .. }) && buf@ == enc_message(m) ==> r
                == Option::Some(m),
{
    broadcast use lemma_u64_le_len;

    if buf.len() < 16 {
        proof {
            assert forall|m: Message|
                !(m matches Message::RumorBatch { .. }) && buf@ == enc_message(m) implies false by {
                assert(enc_message(m).len() >= 16);
            }
        }
        return Option::None;
    }
    let tag = get_u64(buf, 0);
    let from = get_u64(buf, 8);
    let target_opt: Option<u64> = if buf.len() >= 24 {
        Option::Some(get_u64(buf, 16))
    } else {
        Option::None
    };
    let r: Option<Message> = if tag == 10 && buf.len() == 16 {
        Option::Some(Message::Ping { from })
    } else if tag == 11 && buf.len() == 16 {
        Option::Some(Message::Ack { from })
    } else if (tag == 12 || tag == 13) && buf.len() == 24 {
        let target = match target_opt {
            Option::Some(t) => t,
            Option::None => 0,
        };
        if tag == 12 {
            Option::Some(Message::PingReq { from, target })
        } else {
            Option::Some(Message::PingReqAck { from, target })
        }
    } else {
        Option::None
    };
    proof {
        match &r {
            Option::Some(m) => {
                assert(enc_message(*m) =~= buf@);
            },
            Option::None => {},
        }
        assert forall|m: Message|
            !(m matches Message::RumorBatch { .. }) && buf@ == enc_message(m) implies r
            == Option::Some(m) by {
            lemma_control_decode_unique(buf@, m, tag, from);
            match m {
                Message::PingReq { from: f, target: t } => {
                    match target_opt {
                        Option::Some(tv) => {
                            lemma_u64_le_injective(tv, t);
                        },
                        Option::None => {},
                    }
                },
                Message::PingReqAck { from: f, target: t } => {
                    match target_opt {
                        Option::Some(tv) => {
                            lemma_u64_le_injective(tv, t);
                        },
                        Option::None => {},
                    }
                },
                _ => {},
            }
        }
    }
    r
}

/// If a buffer is the encoding of a control message, the tag and sender
/// words read back from it are that message's.
proof fn lemma_control_decode_unique(bytes: Seq<u8>, m: Message, tag: u64, from: u64)
    requires
        !(m matches Message::RumorBatch { .. }),
        bytes == enc_message(m),
        bytes.len() >= 16,
        u64_le(tag) == bytes.subrange(0, 8),
        u64_le(from) == bytes.subrange(8, 16),
    ensures
        match m {
            Message::Ping { from: f } => tag == 10 && from == f && bytes.len() == 16,
            Message::Ack { from: f } => tag == 11 && from == f && bytes.len() == 16,
            Message::PingReq { from: f, target: t } => tag == 12 && from == f && bytes.len() == 24
                && bytes.subrange(16, 24) == u64_le(t),
            Message::PingReqAck { from: f, target: t } => tag == 13 && from == f && bytes.len()
                == 24 && bytes.subrange(16, 24) == u64_le(t),
            Message::RumorBatch { .. } => true,
        },
{
    broadcast use lemma_u64_le_len;

    match m {
        Message::Ping { from: f } => {
            assert(bytes.subrange(0, 8) =~= u64_le(10));
            assert(bytes.subrange(8, 16) =~= u64_le(f));
            lemma_u64_le_injective(tag, 10);
            lemma_u64_le_injective(from, f);
        },
        Message::Ack { from: f } => {
            assert(bytes.subrange(0, 8) =~= u64_le(11));
            assert(bytes.subrange(8, 16) =~= u64_le(f));
            lemma_u64_le_injective(tag, 11);
            lemma_u64_le_injective(from, f);
        },
        Message::PingReq { from: f, target: t } => {
            assert(bytes.subrange(0, 8) =~= u64_le(12));
            assert(bytes.subrange(8, 16) =~= u64_le(f));
            assert(bytes.subrange(16, 24) =~= u64_le(t));
            lemma_u64_le_injective(tag, 12);
            lemma_u64_le_injective(from, f);
        },
        Message::PingReqAck { from: f, target: t } => {
            assert(bytes.subrange(0, 8) =~= u64_le(13));
            assert(bytes.subrange(8, 16) =~= u64_le(f));
            assert(bytes.subrange(16, 24) =~= u64_le(t));
            lemma_u64_le_injective(tag, 13);
            lemma_u64_le_injective(from, f);
        },
        Message::RumorBatch { .. } => {},
    }
}

/// Encodes a rumor batch: the batch tag, the rumor count, then one
/// length-prefixed segment per rumor.
pub fn encode_batch(rumors: &Vec<Rumor>) -> (buf: Vec<u8>)
    ensures
        buf@ == u64_le(14) + u64_le(rumors@.len() as u64) + enc_segments(rumors@),
{
    broadcast use lemma_u64_le_len;

    let mut buf: Vec<u8> = Vec::new();
    put_u64(&mut buf, 14);
    put_u64(&mut buf, rumors.len() as u64);
    let ghost header = buf@;
    let mut i: usize = 0;
    while i < rumors.len()
        invariant
            0 <= i <= rumors@.len(),
            buf@ == header + enc_segments(rumors@.take(i as int)),
        decreases rumors@.len() - i,
    {
        let mut seg: Vec<u8> = Vec::new();
        put_rumor(&mut seg, &rumors[i]);
        put_u64(&mut buf, seg.len() as u64);
        put_bytes(&mut buf, &seg);
        proof {
            lemma_enc_segments_snoc(rumors@, i as int);
            assert(buf@ =~= header + enc_segments(rumors@.take(i as int + 1)));
        }
        i += 1;
    }
    proof {
        assert(rumors@.take(rumors@.len() as int) =~= rumors@);
    }
    buf
}

/// Unrolling `enc_segments` at the tail of a prefix.
proof fn lemma_enc_segments_snoc(rs: Seq<Rumor>, i: int)
    requires
        0 <= i < rs.len(),
    ensures
        enc_segments(rs.take(i + 1)) == enc_segments(rs.take(i)) + u64_le(
            enc_rumor(rs[i]).len() as u64,
        ) + enc_rumor(rs[i]),
{
    assert(rs.take(i + 1).drop_last() =~= rs.take(i));
    assert(rs.take(i + 1).last() == rs[i]);
}

/// The bytes of a whole batch datagram carrying the rumors `rs`.
pub open spec fn batch_encoding(b: Seq<u8>, rs: Seq<Rumor>) -> bool {
    &&& forall|t: int| 0 <= t < rs.len() ==> wire_sized(#[trigger] rs[t])
    &&& rs.len() <= u64::MAX
    &&& b == u64_le(14) + u64_le(rs.len() as u64) + enc_segments(rs)
}

/// The decoded batch carries the same facts, in order.
pub open spec fn batch_decoded(out: Seq<Rumor>, rs: Seq<Rumor>) -> bool {
    &&& out.len() == rs.len()
    &&& forall|t: int| 0 <= t < rs.len() ==> rumor_models(#[trigger] out[t], rs[t])
}

/// Decoder progress through a batch: after `seen` segments the cursor
/// sits at the end of the prefix and the outputs model it.
pub open spec fn batch_progress(rs: Seq<Rumor>, out: Seq<Rumor>, seen: int, pos: int) -> bool {
    &&& 0 <= seen <= rs.len()
    &&& pos == 16 + enc_segments(rs.take(seen)).len()
    &&& out.len() == seen
    &&& forall|t: int| 0 <= t < seen ==> rumor_models(#[trigger] out[t], rs[t])
}

/// The segments of a prefix are a prefix of the segments.
proof fn lemma_enc_segments_prefix(rs: Seq<Rumor>, k: int)
    requires
        0 <= k <= rs.len(),
    ensures
        enc_segments(rs.take(k)).len() <= enc_segments(rs).len(),
        enc_segments(rs).subrange(0, enc_segments(rs.take(k)).len() as int) == enc_segments(
            rs.take(k),
        ),
    decreases rs.len() - k,
{
    broadcast use lemma_u64_le_len;

    if k == rs.len() {
        assert(rs.take(k) =~= rs);
        assert(enc_segments(rs).subrange(0, enc_segments(rs).len() as int) =~= enc_segments(rs));
    } else {
        lemma_enc_segments_snoc(rs, k);
        lemma_enc_segments_prefix(rs, k + 1);
        assert(enc_segments(rs).subrange(0, enc_segments(rs.take(k)).len() as int)
            =~= enc_segments(rs.take(k)));
    }
}

/// Decodes a rumor batch. Each returned rumor re-encodes to exactly the
/// bytes of its segment; a segment whose kind the decoder does not know
/// is skipped, never fatal. Decoding the bytes `encode_batch` wrote for
/// wire-sized rumors always succeeds and returns the same facts in the
/// same order.
#[verifier::rlimit(100)]
#[verifier::rlimit(100)]
#[verifier::loop_isolation(false)]
pub fn decode_batch(buf: &Vec<u8>) -> (r: Option<Vec<Rumor>>)
    ensures
        match r {
            Option::Some(rumors) => forall|i: int|
                0 <= i < rumors@.len() ==> exists|lo: int, hi: int|
                    0 <= lo < hi <= buf@.len() && enc_rumor(#[trigger] rumors@[i])
                        == buf@.subrange(lo, hi),
            Option::None => true,
        },
        forall|rs: Seq<Rumor>|
            batch_encoding(buf@, rs) ==> match r {
                Option::Some(rumors) => batch_decoded(rumors@, rs),
                Option::None => false,
            },
{
    broadcast use lemma_u64_le_len;

    if buf.len() < 16 {
        return Option::None;
    }
    let tag = get_u64(buf, 0);
    let count = get_u64(buf, 8);
    proof {
        assert forall|rs: Seq<Rumor>|
            batch_encoding(buf@, rs) implies tag == 14 && count as int == rs.len() by {
            assert(buf@.subrange(0, 8) =~= u64_le(14));
            assert(buf@.subrange(8, 16) =~= u64_le(rs.len() as u64));
            lemma_u64_le_injective_seq(buf@.subrange(0, 8), tag, 14);
            lemma_u64_le_injective_seq(buf@.subrange(8, 16), count, rs.len() as u64);
        }
    }
    if tag != 14 {
        return Option::None;
    }
    let mut rumors: Vec<Rumor> = Vec::new();
    let mut pos: usize = 16;
    let mut seen: u64 = 0;
    while seen < count
        invariant
            16 <= pos <= buf@.len(),
            seen <= count,
            forall|i: int|
                0 <= i < rumors@.len() ==> exists|lo: int, hi: int|
                    0 <= lo < hi <= buf@.len() && enc_rumor(#[trigger] rumors@[i])
                        == buf@.subrange(lo, hi),
            forall|rs: Seq<Rumor>|
                #[trigger] batch_encoding(buf@, rs) ==> batch_progress(
                    rs,
                    rumors@,
                    seen as int,
                    pos as int,
                ),
        decreases count - seen,
    {
        proof {
            assert forall|rs: Seq<Rumor>| #[trigger]
                batch_encoding(buf@, rs) implies {
                &&& (seen as int) < rs.len()
                &&& buf@.subrange(pos as int, pos as int + 8) == u64_le(
                    enc_rumor(rs[seen as int]).len() as u64,
                )
                &&& encoding_at(buf@, pos as int + 8, rs[seen as int])
                &&& pos + 8 + enc_rumor(rs[seen as int]).len() <= buf@.len()
            } by {
                let k = seen as int;
                let segk = enc_segments(rs.take(k));
                lemma_enc_segments_snoc(rs, k);
                lemma_enc_segments_prefix(rs, k + 1);
                lemma_enc_segments_prefix(rs, k);
                let e = enc_rumor(rs[k]);
                // the bytes from `pos` begin with this segment
                assert(buf@.subrange(16, 16 + enc_segments(rs).len() as int) =~= enc_segments(rs));
                lemma_window(
                    buf@,
                    16,
                    enc_segments(rs),
                    segk.len() as int,
                    segk.len() + 8 + e.len() as int,
                );
                assert forall|z: int|
                    0 <= z < 8 + e.len() implies #[trigger] enc_segments(rs)[segk.len() + z]
                    == (u64_le(e.len() as u64) + e)[z] by {
                    assert(enc_segments(rs).subrange(
                        0,
                        enc_segments(rs.take(k + 1)).len() as int,
                    )[segk.len() + z] == enc_segments(rs.take(k + 1))[segk.len() + z]);
                }
                let w = u64_le(e.len() as u64) + e;
                assert(enc_segments(rs.take(k + 1)).len() == segk.len() + 8 + e.len());
                assert(buf@.subrange(pos as int, pos as int + 8 + e.len() as int) =~= w) by {
                    assert forall|z: int|
                        0 <= z < 8 + e.len() implies #[trigger] buf@.subrange(
                        pos as int,
                        pos as int + 8 + e.len() as int,
                    )[z] == w[z] by {
                        assert(buf@.subrange(
                            16 + segk.len() as int,
                            16 + segk.len() + 8 + e.len() as int,
                        )[z] == enc_segments(rs).subrange(
                            segk.len() as int,
                            segk.len() + 8 + e.len() as int,
                        )[z]);
                        assert(enc_segments(rs)[segk.len() + z] == w[z]);
                    }
                }
                assert(buf@.subrange(pos as int, pos as int + 8 + e.len() as int) == w);
                lemma_window(buf@, pos as int, w, 0, 8);
                assert(w.subrange(0, 8) =~= u64_le(e.len() as u64));
                lemma_window(buf@, pos as int, w, 8, 8 + e.len() as int);
                assert(w.subrange(8, 8 + e.len() as int) =~= e);
                assert(buf@.subrange(pos as int, pos as int + 8) == u64_le(e.len() as u64));
                assert(buf@.subrange(pos as int + 8, pos as int + 8 + e.len() as int) == e);
            }
        }
        if buf.len() - pos < 8 {
            return Option::None;
        }
        let seg_len = get_u64(buf, pos);
        proof {
            assert forall|rs: Seq<Rumor>| #[trigger]
                batch_encoding(buf@, rs) implies seg_len as int == enc_rumor(
                rs[seen as int],
            ).len() && seg_len <= 0x1_0000_0000 by {
                lemma_u64_le_injective_seq(
                    buf@.subrange(pos as int, pos as int + 8),
                    seg_len,
                    enc_rumor(rs[seen as int]).len() as u64,
                );
                lemma_enc_parts(buf@, pos as int + 8, rs[seen as int]);
            }
        }
        if seg_len > 0x1_0000_0000 || (buf.len() - pos - 8) < (seg_len as usize) {
            return Option::None;
        }
        let seg_end = pos + 8 + seg_len as usize;
        let decoded = get_rumor(buf, pos + 8);
        proof {
            assert forall|rs: Seq<Rumor>| #[trigger]
                batch_encoding(buf@, rs) implies match decoded {
                Option::Some((rum, p2)) => p2 == seg_end && rumor_models(rum, rs[seen as int]),
                Option::None => false,
            } by {
                match decoded {
                    Option::Some((rum, p2)) => {
                        lemma_enc_prefix_deterministic(
                            buf@,
                            pos as int + 8,
                            rum,
                            rs[seen as int],
                        );
                        lemma_enc_rumor_injective(rum, rs[seen as int]);
                    },
                    Option::None => {},
                }
            }
        }
        match decoded {
            Option::Some((rum, p2)) => {
                if p2 <= seg_end {
                    let ghost prev = rumors@;
                    rumors.push(rum);
                    proof {
                        assert forall|i: int|
                            0 <= i < rumors@.len() implies exists|lo: int, hi: int|
                            0 <= lo < hi <= buf@.len() && enc_rumor(#[trigger] rumors@[i])
                                == buf@.subrange(lo, hi) by {
                            if i < prev.len() {
                                assert(rumors@[i] == prev[i]);
                            } else {
                                assert(rumors@[i] == rum);
                                assert(enc_rumor(rum) == buf@.subrange(
                                    pos as int + 8,
                                    p2 as int,
                                ));
                            }
                        }
                    }
                }
            },
            Option::None => {
                // unknown or malformed segment: skip it, the protocol is
                // forward-tolerant
            },
        }
        proof {
            assert forall|rs: Seq<Rumor>| #[trigger]
                batch_encoding(buf@, rs) implies batch_progress(
                rs,
                rumors@,
                seen as int + 1,
                seg_end as int,
            ) by {
                lemma_enc_segments_snoc(rs, seen as int);
                assert(rumors@[seen as int] == rumors@.last());
            }
        }
        pos = seg_end;
        seen = seen + 1;
    }
    proof {
        assert forall|rs: Seq<Rumor>| #[trigger]
            batch_encoding(buf@, rs) implies batch_decoded(rumors@, rs) by {
            assert(seen as int == rs.len());
        }
    }
    Option::Some(rumors)
}

} // verus!
