use chat_relay::lane::WriteLane;
use chat_relay::message::Message;
use chat_relay::reactor::{
    Action, PendingOperation, Reactor, LISTEN_TOKEN, RECEIVE_CAPACITY, WRITE_TOKEN_BASE,
};

const LISTENER: i32 = 3;

fn none() -> Vec<u8> {
    Vec::new()
}

/// Accepts one peer on socket `handle` and checks the identifier it gets.
fn accept(r: &mut Reactor, handle: i32, expect_id: u64) {
    let acts = r.handle_completion(LISTEN_TOKEN, handle, &none());
    assert_eq!(
        acts,
        vec![
            Action::PollReadable { token: expect_id, handle },
            Action::Accept { token: LISTEN_TOKEN, listener: LISTENER },
        ]
    );
}

/// Peer `id` on socket `handle` becomes readable, then its receive yields `data`.
fn receive(r: &mut Reactor, id: u64, handle: i32, data: &[u8]) -> Vec<Action> {
    let acts = r.handle_completion(id, 1, &none());
    assert_eq!(acts, vec![Action::Receive { token: id, handle, capacity: RECEIVE_CAPACITY }]);
    r.handle_completion(id, data.len() as i32, &data.to_vec())
}

fn peers(n: u64) -> Reactor {
    let mut r = Reactor::new(LISTENER);
    for id in 1..=n {
        accept(&mut r, 10 + id as i32, id);
    }
    r
}

#[test]
fn first_action_is_accept() {
    let r = Reactor::new(LISTENER);
    assert_eq!(r.accept_action(), Action::Accept { token: LISTEN_TOKEN, listener: LISTENER });
    assert_eq!(r.pending(LISTEN_TOKEN), Some(PendingOperation::Listening));
    assert_eq!(r.len(), 0);
}

#[test]
fn scenario_two_peers_hi() {
    let mut r = peers(2);
    let acts = receive(&mut r, 1, 11, b"hi\n");
    assert_eq!(
        acts,
        vec![
            Action::Send { token: WRITE_TOKEN_BASE + 2, handle: 12, length: 3 },
            Action::PollReadable { token: 1, handle: 11 },
        ]
    );
    assert_eq!(r.send_bytes(WRITE_TOKEN_BASE + 2), Some(b"hi\n".to_vec()));
    assert_eq!(r.send_bytes(WRITE_TOKEN_BASE + 1), None);
    assert_eq!(r.handle_completion(WRITE_TOKEN_BASE + 2, 3, &none()), vec![]);
    assert_eq!(r.pending(WRITE_TOKEN_BASE + 2), None);
    assert_eq!(r.pending(2), Some(PendingOperation::AwaitingReadiness { connection: 2 }));
}

#[test]
fn scenario_three_peers_hello() {
    let mut r = peers(3);
    let acts = receive(&mut r, 1, 11, b"hello\n");
    assert_eq!(
        acts,
        vec![
            Action::Send { token: WRITE_TOKEN_BASE + 2, handle: 12, length: 6 },
            Action::Send { token: WRITE_TOKEN_BASE + 3, handle: 13, length: 6 },
            Action::PollReadable { token: 1, handle: 11 },
        ]
    );
    assert_eq!(r.send_bytes(WRITE_TOKEN_BASE + 2), Some(b"hello\n".to_vec()));
    assert_eq!(r.send_bytes(WRITE_TOKEN_BASE + 3), Some(b"hello\n".to_vec()));
    assert_eq!(r.pending(WRITE_TOKEN_BASE + 1), None);
    assert_eq!(r.pending(1), Some(PendingOperation::AwaitingReadiness { connection: 1 }));
}

#[test]
fn scenario_disconnect_during_receive() {
    let mut r = peers(3);
    // Peer 2 is mid-receive.
    assert_eq!(
        r.handle_completion(2, 1, &none()),
        vec![Action::Receive { token: 2, handle: 12, capacity: RECEIVE_CAPACITY }]
    );
    // Peer 1 disconnects.
    assert_eq!(r.handle_completion(1, 1, &none()).len(), 1);
    assert_eq!(r.handle_completion(1, 0, &none()), vec![Action::Close { handle: 11 }]);
    assert_eq!(r.lookup(1), None);
    // Peer 3 broadcasts: only peer 2 is sent to.
    let acts = receive(&mut r, 3, 13, b"yo\n");
    assert_eq!(
        acts,
        vec![
            Action::Send { token: WRITE_TOKEN_BASE + 2, handle: 12, length: 3 },
            Action::PollReadable { token: 3, handle: 13 },
        ]
    );
    assert_eq!(r.pending(2), Some(PendingOperation::Receiving { connection: 2 }));
}

#[test]
fn scenario_fragmented_send() {
    let mut r = peers(2);
    let payload: Vec<u8> = (0..1024u32).map(|i| (i % 251) as u8).collect();
    r.handle_completion(1, 1, &none());
    let acts = r.handle_completion(1, 1024, &payload);
    assert_eq!(acts[0], Action::Send { token: WRITE_TOKEN_BASE + 2, handle: 12, length: 1024 });
    assert_eq!(r.send_bytes(WRITE_TOKEN_BASE + 2), Some(payload.clone()));
    let acts = r.handle_completion(WRITE_TOKEN_BASE + 2, 600, &none());
    assert_eq!(acts, vec![Action::Send { token: WRITE_TOKEN_BASE + 2, handle: 12, length: 424 }]);
    assert_eq!(r.send_bytes(WRITE_TOKEN_BASE + 2), Some(payload[600..].to_vec()));
    assert_eq!(
        r.pending(WRITE_TOKEN_BASE + 2),
        Some(PendingOperation::Sending { connection: 2, payload_length: 1024, bytes_flushed: 600 })
    );
    let acts = r.handle_completion(WRITE_TOKEN_BASE + 2, 424, &none());
    assert_eq!(acts, vec![]);
    assert_eq!(r.pending(WRITE_TOKEN_BASE + 2), None);
}

#[test]
fn broadcast_reaches_each_other_peer_once() {
    let mut r = peers(4);
    let acts = receive(&mut r, 3, 13, b"x\n");
    let send_tokens: Vec<u64> = acts
        .iter()
        .filter_map(|a| match a {
            Action::Send { token, .. } => Some(*token),
            _ => None,
        })
        .collect();
    assert_eq!(
        send_tokens,
        vec![WRITE_TOKEN_BASE + 1, WRITE_TOKEN_BASE + 2, WRITE_TOKEN_BASE + 4]
    );
}

#[test]
fn busy_recipient_gets_bytes_after_send_in_flight() {
    let mut r = peers(3);
    receive(&mut r, 1, 11, b"one\n");
    // Peer 3 is still being sent "one\n" when peer 2 speaks.
    let acts = receive(&mut r, 2, 12, b"two\n");
    assert_eq!(
        acts,
        vec![
            Action::Send { token: WRITE_TOKEN_BASE + 1, handle: 11, length: 4 },
            Action::PollReadable { token: 2, handle: 12 },
        ]
    );
    let acts = r.handle_completion(WRITE_TOKEN_BASE + 3, 4, &none());
    assert_eq!(acts, vec![Action::Send { token: WRITE_TOKEN_BASE + 3, handle: 13, length: 4 }]);
    assert_eq!(r.send_bytes(WRITE_TOKEN_BASE + 3), Some(b"two\n".to_vec()));
}

#[test]
fn lone_sender_sends_nothing() {
    let mut r = peers(1);
    let acts = receive(&mut r, 1, 11, b"alone\n");
    assert_eq!(acts, vec![Action::PollReadable { token: 1, handle: 11 }]);
}

#[test]
fn removed_id_is_not_reused() {
    let mut r = peers(2);
    r.handle_completion(1, 1, &none());
    assert_eq!(r.handle_completion(1, 0, &none()), vec![Action::Close { handle: 11 }]);
    accept(&mut r, 11, 3);
    assert_eq!(r.all_except(0), vec![2, 3]);
}

#[test]
fn stale_token_is_ignored() {
    let mut r = peers(2);
    receive(&mut r, 1, 11, b"hi\n");
    // Peer 2 fails its poll and is removed while a send to it is in flight.
    assert_eq!(r.handle_completion(2, -104, &none()), vec![Action::Close { handle: 12 }]);
    assert_eq!(r.handle_completion(WRITE_TOKEN_BASE + 2, 3, &none()), vec![]);
    assert_eq!(r.handle_completion(2, 1, &none()), vec![]);
    assert_eq!(r.handle_completion(99, 1, &none()), vec![]);
    assert_eq!(r.len(), 1);
    assert_eq!(r.lookup(1), Some(11));
}

#[test]
fn failed_accept_is_resubmitted() {
    let mut r = Reactor::new(LISTENER);
    assert_eq!(
        r.handle_completion(LISTEN_TOKEN, -24, &none()),
        vec![Action::Accept { token: LISTEN_TOKEN, listener: LISTENER }]
    );
    assert_eq!(r.len(), 0);
}

#[test]
fn failed_send_removes_recipient() {
    let mut r = peers(2);
    receive(&mut r, 1, 11, b"hi\n");
    assert_eq!(r.handle_completion(WRITE_TOKEN_BASE + 2, -32, &none()), vec![Action::Close { handle: 12 }]);
    assert_eq!(r.lookup(2), None);
    assert_eq!(r.all_except(1), Vec::<u64>::new());
}

#[test]
fn failed_receive_removes_sender() {
    let mut r = peers(2);
    r.handle_completion(2, 1, &none());
    assert_eq!(r.handle_completion(2, -104, &none()), vec![Action::Close { handle: 12 }]);
    assert_eq!(r.pending(2), None);
}

#[test]
fn registry_operations() {
    let mut r = peers(3);
    assert_eq!(r.lookup(2), Some(12));
    assert_eq!(r.lookup(4), None);
    assert_eq!(r.all_except(2), vec![1, 3]);
    assert_eq!(r.remove(2), Some(12));
    assert_eq!(r.remove(2), None);
    assert_eq!(r.register(40), Some(4));
    assert_eq!(r.all_except(9), vec![1, 3, 4]);
}

#[test]
fn lane_continues_partial_writes() {
    let mut lane = WriteLane::new();
    assert!(!lane.is_busy());
    assert!(lane.enqueue(&b"abcdef".to_vec()));
    assert!(!lane.enqueue(&b"gh".to_vec()));
    assert!(lane.complete(2));
    assert_eq!(lane.remainder(), b"cdef".to_vec());
    assert!(lane.complete(3));
    assert_eq!(lane.remainder(), b"f".to_vec());
    assert!(lane.complete(1));
    assert_eq!(lane.remainder(), b"gh".to_vec());
    assert!(!lane.complete(2));
    assert!(!lane.is_busy());
    assert!(!lane.enqueue(&Vec::new()));
}

#[test]
fn message_holds_its_fields() {
    let m = Message::new(4, String::from("hello\n"));
    assert_eq!(m.client_id, 4);
    assert_eq!(m.content, "hello\n");
}
