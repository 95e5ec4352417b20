use privsep::ancillary::SocketAncillary;
use privsep::imsg::{
    check_written, select_fd, Frame, Framer, Message, Outgoing, BUFFER_LENGTH, CONNECT,
    HEADER_LENGTH, RESERVED,
};
use privsep::Error;

fn send(framer: &Framer, id: u32, fd: Option<i32>, payload: &[u8], pid: i32) -> Outgoing {
    let mut message = Message::new(id);
    message.flags = 3;
    message.peer_id = 9;
    framer.prepare_send(message, fd, payload, pid).unwrap()
}

fn received_control(out: &Outgoing) -> SocketAncillary {
    let mut anc = SocketAncillary::new(vec![0u8; 128]);
    anc.set_received(&out.control.used_bytes(), false);
    anc
}

fn next(framer: &mut Framer) -> Frame {
    framer.next_frame().unwrap().unwrap()
}

#[test]
fn imsg_test_empty_data() {
    let data = bincode::serialize(&()).unwrap();
    assert!(data.is_empty());
}

#[test]
fn header_bytes_are_little_endian() {
    let m = Message { id: 0x0403_0201, length: 0x0605, flags: 0x0807, peer_id: 0x0c0b_0a09, pid: -2 };
    let mut out = Vec::new();
    m.write(&mut out);
    assert_eq!(out, vec![1, 2, 3, 4, 5, 6, 7, 8, 9, 10, 11, 12, 0xfe, 0xff, 0xff, 0xff]);
    assert_eq!(Message::read(&out), m);
}

#[test]
fn frame_is_preserved() {
    let tx = Framer::new();
    let out = send(&tx, 42, None, b"hello", 1234);
    assert_eq!(out.bytes.len(), HEADER_LENGTH + 5);
    let mut rx = Framer::new();
    assert_eq!(rx.receive(&out.bytes), Ok(true));
    let f = next(&mut rx);
    assert_eq!(f.header.id, 42);
    assert_eq!(f.header.flags, 3);
    assert_eq!(f.header.peer_id, 9);
    assert_eq!(f.header.pid, 1234);
    assert_eq!(f.header.length as usize, HEADER_LENGTH + 5);
    assert_eq!(f.payload, b"hello".to_vec());
    assert!(matches!(rx.next_frame(), Ok(None)));
}

#[test]
fn fd_is_present_iff_sent() {
    let tx = Framer::new();
    let with = send(&tx, 11, Some(7), b"", 1);
    assert_eq!(select_fd(None, &received_control(&with)), (Some(7), vec![]));
    let without = send(&tx, 11, None, b"", 1);
    assert!(without.control.is_empty());
    assert_eq!(select_fd(None, &received_control(&without)), (None, vec![]));
}

#[test]
fn reserved_ids_are_refused() {
    let tx = Framer::new();
    for id in 0..=RESERVED {
        assert!(matches!(tx.prepare_send(Message::new(id), None, b"", 1), Err(Error::InvalidArgument)));
    }
    assert!(tx.prepare_send(Message::new(RESERVED + 1), None, b"", 1).is_ok());
    assert_eq!(Message::min().id, RESERVED + 1);
}

#[test]
fn internal_path_sends_connect() {
    let tx = Framer::new();
    let out = tx.prepare_send_internal(Message::connect(2), Some(5), b"", 77).unwrap();
    let mut rx = Framer::new();
    rx.receive(&out.bytes).unwrap();
    let f = next(&mut rx);
    assert_eq!(f.header.id, CONNECT);
    assert_eq!(f.header.peer_id, 2);
    assert_eq!(f.header.length as usize, HEADER_LENGTH);
    assert_eq!(select_fd(None, &received_control(&out)).0, Some(5));
}

#[test]
fn extra_fds_are_dropped() {
    let mut anc = SocketAncillary::new(vec![0u8; 128]);
    assert!(anc.add_fds(&[10, 11]));
    assert!(anc.add_fds(&[12]));
    assert_eq!(select_fd(None, &anc), (Some(10), vec![11, 12]));
    assert_eq!(select_fd(Some(3), &anc), (Some(3), vec![10, 11, 12]));
}

#[test]
fn chunked_delivery_keeps_frames_in_order() {
    let tx = Framer::new();
    let mut stream = Vec::new();
    for (i, p) in [&b"a"[..], &b""[..], &b"xyz"[..]].iter().enumerate() {
        stream.extend(send(&tx, 20 + i as u32, None, p, 5).bytes);
    }
    for size in 1..stream.len() + 1 {
        let mut rx = Framer::new();
        let mut got = Vec::new();
        for chunk in stream.chunks(size) {
            assert_eq!(rx.receive(chunk), Ok(true));
            while let Some(f) = rx.next_frame().unwrap() {
                got.push((f.header.id, f.payload));
            }
        }
        assert_eq!(got, vec![(20, b"a".to_vec()), (21, vec![]), (22, b"xyz".to_vec())]);
    }
}

#[test]
fn shutdown_is_idempotent() {
    let mut f = Framer::new();
    f.receive(&[1, 2, 3]).unwrap();
    f.shutdown();
    f.shutdown();
    assert!(f.is_shutdown());
    assert!(matches!(f.prepare_send(Message::new(11), None, b"", 1), Err(Error::NotConnected)));
    assert!(matches!(f.next_frame(), Err(Error::NotConnected)));
}

#[test]
fn s1_echo() {
    let parent = Framer::new();
    let mut hello = Framer::new();
    let out = parent.prepare_send(Message::new(23), None, &bincode::serialize(&()).unwrap(), 100).unwrap();
    hello.receive(&out.bytes).unwrap();
    let got = next(&mut hello);
    assert_eq!(got.header.id, 23);
    assert!(got.payload.is_empty());
    let reply = hello.prepare_send(Message::new(23), None, &got.payload, 200).unwrap();
    let mut back = Framer::new();
    back.receive(&reply.bytes).unwrap();
    let f = next(&mut back);
    assert_eq!(f.header.id, 23);
    assert_eq!(f.header.pid, 200);
}

#[test]
fn s2_triad_ping_pong() {
    let hello = Framer::new();
    let mut child = Framer::new();
    let ping = bincode::serialize("ping").unwrap();
    let out = hello.prepare_send(Message::new(100), None, &ping, 1).unwrap();
    child.receive(&out.bytes).unwrap();
    let f = next(&mut child);
    assert_eq!(f.header.id, 100);
    assert_eq!(bincode::deserialize::<String>(&f.payload).unwrap(), "ping");
    let pong = bincode::serialize("pong").unwrap();
    let reply = child.prepare_send(Message::new(100), None, &pong, 2).unwrap();
    let mut back = Framer::new();
    back.receive(&reply.bytes).unwrap();
    assert_eq!(bincode::deserialize::<String>(&next(&mut back).payload).unwrap(), "pong");
}

#[test]
fn s3_fd_passing_with_port_reply() {
    let parent = Framer::new();
    let out = parent.prepare_send(Message::new(23), Some(9), b"", 1).unwrap();
    let (fd, extra) = select_fd(None, &received_control(&out));
    assert_eq!(fd, Some(9));
    assert!(extra.is_empty());
    let port: u16 = 40123;
    let reply = parent.prepare_send(Message::new(23), None, &bincode::serialize(&port).unwrap(), 2).unwrap();
    let mut rx = Framer::new();
    rx.receive(&reply.bytes).unwrap();
    assert_eq!(bincode::deserialize::<u16>(&next(&mut rx).payload).unwrap(), port);
}

#[test]
fn s4_short_and_full_frames() {
    let mut rx = Framer::new();
    let header = Message { id: 30, length: 16, flags: 0, peer_id: 0, pid: 1 };
    let mut bytes = Vec::new();
    header.write(&mut bytes);
    rx.receive(&bytes).unwrap();
    let f = next(&mut rx);
    assert_eq!(f.header, header);
    assert!(f.payload.is_empty());
    bincode::deserialize::<()>(&f.payload).unwrap();

    let big = Message { id: 31, length: 65535, flags: 0, peer_id: 0, pid: 1 };
    let mut bytes = Vec::new();
    big.write(&mut bytes);
    rx.receive(&bytes).unwrap();
    assert!(matches!(rx.next_frame(), Ok(None)));
    rx.receive(&vec![0xab; 65519]).unwrap();
    let f = next(&mut rx);
    assert_eq!(f.payload.len(), 65519);
    assert!(f.payload.iter().all(|b| *b == 0xab));
}

#[test]
fn s5_peer_close() {
    let mut rx = Framer::new();
    assert_eq!(rx.receive(&[]), Ok(false));
    assert_eq!(rx.receive(&[]), Ok(false));
    rx.shutdown();
    assert!(matches!(rx.next_frame(), Err(Error::NotConnected)));
}

#[test]
fn s6_reserved_id_leaves_stream_unchanged() {
    let tx = Framer::new();
    let mut wire = Vec::new();
    if let Ok(out) = tx.prepare_send(Message::new(5), None, b"x", 1) {
        wire.extend(out.bytes);
    }
    wire.extend(tx.prepare_send(Message::new(11), None, b"", 1).unwrap().bytes);
    let mut rx = Framer::new();
    rx.receive(&wire).unwrap();
    assert_eq!(next(&mut rx).header.id, 11);
}

#[test]
fn oversized_payload_is_invalid_data() {
    let tx = Framer::new();
    let payload = vec![0u8; BUFFER_LENGTH - HEADER_LENGTH + 1];
    assert!(matches!(tx.prepare_send(Message::new(11), None, &payload, 1), Err(Error::InvalidData)));
    let payload = vec![0u8; BUFFER_LENGTH - HEADER_LENGTH];
    assert_eq!(tx.prepare_send(Message::new(11), None, &payload, 1).unwrap().header.length, 65535);
}

#[test]
fn impossible_length_is_invalid_data() {
    let mut rx = Framer::new();
    let bad = Message { id: 12, length: 15, flags: 0, peer_id: 0, pid: 0 };
    let mut bytes = Vec::new();
    bad.write(&mut bytes);
    rx.receive(&bytes).unwrap();
    assert!(matches!(rx.next_frame(), Err(Error::InvalidData)));
}

#[test]
fn new_header_carries_own_pid() {
    let m = Message::new(50);
    assert_eq!(m.pid, nix::unistd::getpid().as_raw());
    assert_eq!(m.length as usize, HEADER_LENGTH);
    let tx = Framer::new();
    let out = tx.send_message(Message::new(50), None, b"").unwrap();
    assert_eq!(out.header.pid, nix::unistd::getpid().as_raw());
}

#[test]
fn short_write_is_detected() {
    assert_eq!(check_written(20, 20), Ok(()));
    assert_eq!(check_written(20, 19), Err(Error::ShortWrite));
}
