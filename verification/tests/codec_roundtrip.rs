//! Wire codec round trips and forward tolerance.

use butterfly::codec::{
    decode_batch, decode_control, encode_batch, encode_control, get_rumor, put_u64, Message,
};
use butterfly::rumor::{Rumor, RumorBody, VersionStamp};
use butterfly::types::{Liveness, Member};

#[test]
fn control_messages_round_trip() {
    let messages = vec![
        Message::Ping { from: 11 },
        Message::Ack { from: u64::MAX },
        Message::PingReq { from: 1, target: 2 },
        Message::PingReqAck { from: 9, target: 1 },
    ];
    for m in messages {
        let bytes = encode_control(&m);
        let back = decode_control(&bytes).expect("control message must decode");
        assert_eq!(back, m);
    }
}

#[test]
fn garbage_is_not_a_control_message() {
    assert!(decode_control(&vec![]).is_none());
    assert!(decode_control(&vec![0u8; 16]).is_none());
    let mut short = encode_control(&Message::PingReq { from: 1, target: 2 });
    short.pop();
    assert!(decode_control(&short).is_none());
}

#[test]
fn rumor_batch_round_trips() {
    let member = Member {
        id: 4,
        address: 0x7f00_0001,
        swim_port: 6000,
        gossip_port: 7000,
        incarnation: 3,
        liveness: Liveness::Suspect,
    };
    let rumors = vec![
        Rumor {
            stamp: VersionStamp { epoch: 3, seq: 1 },
            body: RumorBody::Membership { member },
        },
        Rumor {
            stamp: VersionStamp { epoch: 8, seq: 0 },
            body: RumorBody::Service { group: 12, originator: 4, config: b"port=1".to_vec() },
        },
        Rumor {
            stamp: VersionStamp { epoch: 2, seq: 0 },
            body: RumorBody::Election { group: 12, term: 2, winner: 4, suitability: 7 },
        },
        Rumor {
            stamp: VersionStamp { epoch: 5, seq: 3 },
            body: RumorBody::Departure { member_id: 9, incarnation: 5 },
        },
        Rumor {
            stamp: VersionStamp { epoch: 1, seq: 0 },
            body: RumorBody::ServiceFile { group: 12, contents: vec![0, 1, 2, 255] },
        },
    ];
    let bytes = encode_batch(&rumors);
    let back = decode_batch(&bytes).expect("batch must decode");
    assert_eq!(back, rumors);
}

#[test]
fn unknown_rumor_kind_is_skipped_not_fatal() {
    // a batch of two segments: one with an unknown kind tag, one sound
    let known = Rumor {
        stamp: VersionStamp { epoch: 8, seq: 0 },
        body: RumorBody::Departure { member_id: 2, incarnation: 8 },
    };

    let mut unknown_seg: Vec<u8> = Vec::new();
    put_u64(&mut unknown_seg, 1); // stamp epoch
    put_u64(&mut unknown_seg, 0); // stamp seq
    put_u64(&mut unknown_seg, 999); // a kind this decoder has never heard of
    put_u64(&mut unknown_seg, 77); // opaque payload

    let known_bytes = encode_batch(&vec![known.clone()]);

    let mut bytes: Vec<u8> = Vec::new();
    put_u64(&mut bytes, 14); // batch tag
    put_u64(&mut bytes, 2); // two segments
    put_u64(&mut bytes, unknown_seg.len() as u64);
    bytes.extend_from_slice(&unknown_seg);
    bytes.extend_from_slice(&known_bytes[16..]); // the known segment, length prefix included

    let back = decode_batch(&bytes).expect("a batch with an unknown kind still decodes");
    assert_eq!(back, vec![known]);
}

#[test]
fn truncated_rumor_is_rejected() {
    let r = Rumor {
        stamp: VersionStamp { epoch: 8, seq: 0 },
        body: RumorBody::Service { group: 12, originator: 4, config: b"abc".to_vec() },
    };
    let mut seg: Vec<u8> = Vec::new();
    butterfly::codec::put_rumor(&mut seg, &r);
    let (back, used) = get_rumor(&seg, 0).expect("full segment decodes");
    assert_eq!(back, r);
    assert_eq!(used, seg.len());
    seg.pop();
    assert!(get_rumor(&seg, 0).is_none());
}
