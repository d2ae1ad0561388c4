use line_relay::codec::{frame_line, LineCodec};
use line_relay::registry::Registry;
use line_relay::session::{Session, SessionPhase};

// ---- codec ----

#[test]
fn split_line_decodes_once() {
    // A client sends "part1" without a terminator, then "part2\r\n" in a
    // second write: exactly one frame, equal to "part1part2".
    let mut codec = LineCodec::new();
    codec.feed(b"part1");
    assert_eq!(codec.decode_next(), None);
    codec.feed(b"part2\r\n");
    assert_eq!(codec.decode_next(), Some(b"part1part2".to_vec()));
    assert_eq!(codec.decode_next(), None);
}

#[test]
fn chunking_does_not_change_frames() {
    let msg = b"alpha\r\nbeta\r\ngamma\r\n";
    let mut one_byte_at_a_time: Vec<Vec<u8>> = Vec::new();
    let mut codec = LineCodec::new();
    for &byte in msg.iter() {
        codec.feed(&[byte]);
        while let Some(line) = codec.decode_next() {
            one_byte_at_a_time.push(line);
        }
    }
    let mut all_at_once: Vec<Vec<u8>> = Vec::new();
    let mut codec2 = LineCodec::new();
    codec2.feed(msg);
    while let Some(line) = codec2.decode_next() {
        all_at_once.push(line);
    }
    let expect = vec![b"alpha".to_vec(), b"beta".to_vec(), b"gamma".to_vec()];
    assert_eq!(one_byte_at_a_time, expect);
    assert_eq!(all_at_once, expect);
}

#[test]
fn decode_all_takes_every_complete_line() {
    let mut codec = LineCodec::new();
    codec.feed(b"one\r\ntwo\r\nthr");
    let lines = codec.decode_all();
    assert_eq!(lines, vec![b"one".to_vec(), b"two".to_vec()]);
    // The partial trailing line stayed buffered.
    codec.feed(b"ee\r\n");
    assert_eq!(codec.decode_all(), vec![b"three".to_vec()]);
}

#[test]
fn empty_line_is_a_frame() {
    let mut codec = LineCodec::new();
    codec.feed(b"\r\n");
    assert_eq!(codec.decode_next(), Some(Vec::new()));
}

#[test]
fn bare_cr_or_lf_is_no_terminator() {
    let mut codec = LineCodec::new();
    codec.feed(b"a\rb\nc");
    assert_eq!(codec.decode_next(), None);
    codec.feed(b"\r\n");
    assert_eq!(codec.decode_next(), Some(b"a\rb\nc".to_vec()));
}

#[test]
fn frame_line_is_name_colon_space_line_crlf() {
    let framed = frame_line(&b"alice".to_vec(), &b"hello".to_vec());
    assert_eq!(framed, b"alice: hello\r\n".to_vec());
}

#[test]
fn encoded_frames_decode_back() {
    // Round trip: encoding lines and feeding the exact bytes back yields
    // the original lines.
    let lines = vec![b"one".to_vec(), b"".to_vec(), b"three".to_vec()];
    let mut wire: Vec<u8> = Vec::new();
    for line in &lines {
        wire.extend_from_slice(line);
        wire.extend_from_slice(b"\r\n");
    }
    let mut codec = LineCodec::new();
    codec.feed(&wire);
    let mut back: Vec<Vec<u8>> = Vec::new();
    while let Some(line) = codec.decode_next() {
        back.push(line);
    }
    assert_eq!(back, lines);
}

#[test]
fn write_buffer_keeps_unaccepted_bytes() {
    let mut codec = LineCodec::new();
    codec.buffer(b"hello ");
    codec.buffer(b"world");
    assert_eq!(codec.pending_len(), 11);
    assert_eq!(codec.pending(), b"hello world".to_vec());
    codec.advance_write(6);
    assert_eq!(codec.pending(), b"world".to_vec());
    codec.advance_write(5);
    assert_eq!(codec.pending_len(), 0);
}

// ---- registry ----

#[test]
fn broadcast_skips_origin_and_is_fifo() {
    let mut reg = Registry::new();
    reg.register(1);
    reg.register(2);
    reg.register(3);
    reg.broadcast(1, b"first");
    reg.broadcast(1, b"second");
    assert_eq!(reg.pop_front(2), Some(b"first".to_vec()));
    assert_eq!(reg.pop_front(2), Some(b"second".to_vec()));
    assert_eq!(reg.pop_front(2), None);
    assert_eq!(reg.pop_front(3), Some(b"first".to_vec()));
    // The origin receives nothing from its own broadcast.
    assert_eq!(reg.pop_front(1), None);
}

#[test]
fn unregister_is_idempotent() {
    let mut reg = Registry::new();
    reg.register(5);
    assert!(reg.contains(5));
    assert_eq!(reg.peer_count(), 1);
    reg.unregister(5);
    assert!(!reg.contains(5));
    reg.unregister(5);
    assert!(!reg.contains(5));
    assert_eq!(reg.peer_count(), 0);
}

#[test]
fn register_overwrites_a_duplicate() {
    let mut reg = Registry::new();
    reg.register(9);
    reg.broadcast(1, b"stale");
    reg.register(9);
    // The duplicate registration reset the queue; nothing stale remains.
    assert_eq!(reg.peer_count(), 1);
    assert_eq!(reg.pop_front(9), None);
}

#[test]
fn push_to_absent_peer_is_a_no_op() {
    let mut reg = Registry::new();
    reg.register(1);
    reg.unregister(1);
    reg.broadcast(2, b"late");
    assert_eq!(reg.peer_count(), 0);
    assert_eq!(reg.pop_front(1), None);
}

// ---- sessions ----

#[test]
fn alice_line_reaches_bob_and_carol() {
    // Peers connect in order and handshake as alice, bob, carol; alice
    // sends one line.
    let mut reg = Registry::new();
    let mut alice = Session::new(1);
    let mut bob = Session::new(2);
    let mut carol = Session::new(3);
    alice.on_bytes(&mut reg, b"alice\r\n");
    bob.on_bytes(&mut reg, b"bob\r\n");
    carol.on_bytes(&mut reg, b"carol\r\n");
    assert_eq!(alice.phase(), SessionPhase::Active);
    assert_eq!(alice.name(), &b"alice".to_vec());
    assert_eq!(reg.peer_count(), 3);

    alice.on_bytes(&mut reg, b"hello\r\n");

    assert_eq!(reg.pop_front(2), Some(b"alice: hello\r\n".to_vec()));
    assert_eq!(reg.pop_front(2), None);
    assert_eq!(reg.pop_front(3), Some(b"alice: hello\r\n".to_vec()));
    assert_eq!(reg.pop_front(3), None);
    // Alice receives nothing for her own line.
    assert_eq!(reg.pop_front(1), None);
}

#[test]
fn handshake_line_is_never_echoed() {
    let mut reg = Registry::new();
    let mut first = Session::new(1);
    let mut second = Session::new(2);
    first.on_bytes(&mut reg, b"one\r\n");
    // The second peer's name line registers it but reaches nobody.
    second.on_bytes(&mut reg, b"two\r\n");
    assert_eq!(reg.pop_front(1), None);
}

#[test]
fn handshake_and_first_message_in_one_chunk() {
    let mut reg = Registry::new();
    let mut listener = Session::new(1);
    let mut talker = Session::new(2);
    listener.on_bytes(&mut reg, b"quiet\r\n");
    talker.on_bytes(&mut reg, b"chatty\r\nhi there\r\n");
    assert_eq!(talker.phase(), SessionPhase::Active);
    assert_eq!(reg.pop_front(1), Some(b"chatty: hi there\r\n".to_vec()));
    assert_eq!(reg.pop_front(1), None);
}

#[test]
fn handshake_arrives_in_pieces() {
    let mut reg = Registry::new();
    let mut peer = Session::new(1);
    peer.on_bytes(&mut reg, b"al");
    assert_eq!(peer.phase(), SessionPhase::AwaitingHandshake);
    assert!(!reg.contains(1));
    peer.on_bytes(&mut reg, b"ice\r\n");
    assert_eq!(peer.phase(), SessionPhase::Active);
    assert_eq!(peer.name(), &b"alice".to_vec());
    assert!(reg.contains(1));
}

#[test]
fn silent_disconnect_leaves_no_trace() {
    // A connection that goes away before sending a name line produces no
    // registry entry and no traffic.
    let mut reg = Registry::new();
    let mut bystander = Session::new(1);
    bystander.on_bytes(&mut reg, b"bystander\r\n");
    let mut ghost_peer = Session::new(2);
    ghost_peer.on_bytes(&mut reg, b"half a nam");
    ghost_peer.disconnect(&mut reg);
    assert_eq!(ghost_peer.phase(), SessionPhase::Closed);
    assert_eq!(reg.peer_count(), 1);
    assert!(!reg.contains(2));
    assert_eq!(reg.pop_front(1), None);
}

#[test]
fn mid_session_disconnect_unregisters_once() {
    let mut reg = Registry::new();
    let mut stayer = Session::new(1);
    let mut leaver = Session::new(2);
    stayer.on_bytes(&mut reg, b"stayer\r\n");
    leaver.on_bytes(&mut reg, b"leaver\r\n");
    assert_eq!(reg.peer_count(), 2);
    leaver.disconnect(&mut reg);
    assert_eq!(reg.peer_count(), 1);
    assert!(!reg.contains(2));
    // Tearing down again changes nothing.
    leaver.disconnect(&mut reg);
    assert_eq!(reg.peer_count(), 1);
    // Later broadcasts no longer reach the departed peer.
    stayer.on_bytes(&mut reg, b"anyone?\r\n");
    assert!(!reg.contains(2));
    assert_eq!(reg.pop_front(2), None);
}

#[test]
fn drain_duty_moves_queue_to_write_buffer() {
    let mut reg = Registry::new();
    let mut receiver = Session::new(1);
    let mut sender = Session::new(2);
    receiver.on_bytes(&mut reg, b"receiver\r\n");
    sender.on_bytes(&mut reg, b"sender\r\nfirst\r\nsecond\r\n");
    receiver.pump_deliveries(&mut reg);
    assert_eq!(
        receiver.outgoing(),
        b"sender: first\r\nsender: second\r\n".to_vec()
    );
    // The queue was drained; pumping again adds nothing.
    receiver.pump_deliveries(&mut reg);
    assert_eq!(receiver.outgoing().len(), 31);
    // The stream accepted a prefix; the rest stays queued.
    receiver.on_write_result(&mut reg, 15);
    assert_eq!(receiver.outgoing(), b"sender: second\r\n".to_vec());
    receiver.on_write_result(&mut reg, 16);
    assert_eq!(receiver.outgoing(), Vec::<u8>::new());
    assert_eq!(receiver.phase(), SessionPhase::Active);
}

#[test]
fn zero_byte_write_with_backlog_is_fatal() {
    let mut reg = Registry::new();
    let mut witness = Session::new(1);
    let mut victim = Session::new(2);
    witness.on_bytes(&mut reg, b"witness\r\n");
    victim.on_bytes(&mut reg, b"victim\r\n");
    witness.on_bytes(&mut reg, b"hello\r\n");
    victim.pump_deliveries(&mut reg);
    assert!(victim.outgoing().len() > 0);
    // The stream accepted zero bytes while data remained buffered: fatal
    // to this session alone.
    victim.on_write_result(&mut reg, 0);
    assert_eq!(victim.phase(), SessionPhase::Closed);
    assert!(!reg.contains(2));
    assert!(reg.contains(1));
}

#[test]
fn zero_byte_write_with_empty_buffer_is_harmless() {
    let mut reg = Registry::new();
    let mut idle = Session::new(1);
    idle.on_bytes(&mut reg, b"idle\r\n");
    idle.on_write_result(&mut reg, 0);
    assert_eq!(idle.phase(), SessionPhase::Active);
    assert!(reg.contains(1));
}

#[test]
fn abrupt_reset_leaves_the_rest_running() {
    // A hundred peers; one drops mid-storm; the other ninety-nine keep
    // exchanging lines with no duplicate or missing registry entries.
    let mut reg = Registry::new();
    let mut sessions: Vec<Session> = Vec::new();
    for id in 0..100u64 {
        let mut s = Session::new(id);
        let hello = format!("peer{}\r\n", id);
        s.on_bytes(&mut reg, hello.as_bytes());
        sessions.push(s);
    }
    assert_eq!(reg.peer_count(), 100);

    sessions[3].on_bytes(&mut reg, b"storm one\r\n");
    // Peer 7 resets abruptly mid-storm.
    sessions[7].disconnect(&mut reg);
    assert_eq!(reg.peer_count(), 99);
    sessions[3].on_bytes(&mut reg, b"storm two\r\n");

    // Every remaining peer but the sender has both lines, in order.
    for id in 0..100u64 {
        if id == 3 || id == 7 {
            continue;
        }
        assert_eq!(reg.pop_front(id), Some(b"peer3: storm one\r\n".to_vec()));
        assert_eq!(reg.pop_front(id), Some(b"peer3: storm two\r\n".to_vec()));
        assert_eq!(reg.pop_front(id), None);
    }
    // The sender got nothing of its own; the departed peer is gone.
    assert_eq!(reg.pop_front(3), None);
    assert!(!reg.contains(7));
    assert_eq!(reg.pop_front(7), None);
}
