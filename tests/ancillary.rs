use privsep::ancillary::{AncillaryData, AncillaryError, SocketAncillary, SocketCred, SCM_CREDENTIALS, SCM_RIGHTS, SOL_SOCKET};

#[test]
fn one_fd_record_layout() {
    let mut anc = SocketAncillary::new(vec![0xffu8; 128]);
    assert!(anc.add_fds(&[0x0102_0304]));
    assert_eq!(anc.len(), 24);
    assert_eq!(
        anc.used_bytes(),
        vec![20, 0, 0, 0, 0, 0, 0, 0, 1, 0, 0, 0, 1, 0, 0, 0, 4, 3, 2, 1, 0, 0, 0, 0]
    );
}

#[test]
fn fds_round_trip_through_messages() {
    let mut anc = SocketAncillary::new(vec![0u8; 128]);
    assert!(anc.is_empty());
    assert!(anc.add_fds(&[3, 4, 5]));
    let mut msgs = anc.messages();
    match msgs.next() {
        Some(Ok(AncillaryData::ScmRights(mut rights))) => {
            assert_eq!(rights.next(), Some(3));
            assert_eq!(rights.next(), Some(4));
            assert_eq!(rights.next(), Some(5));
            assert_eq!(rights.next(), None);
        }
        _ => panic!("expected SCM_RIGHTS"),
    }
    assert!(msgs.next().is_none());
}

#[test]
fn creds_round_trip_through_messages() {
    let mut cred = SocketCred::new();
    assert_eq!((cred.get_pid(), cred.get_uid(), cred.get_gid()), (0, 0, 0));
    cred.set_pid(42);
    cred.set_uid(1000);
    cred.set_gid(100);
    assert_eq!((cred.get_pid(), cred.get_uid(), cred.get_gid()), (42, 1000, 100));
    let mut anc = SocketAncillary::new(vec![0u8; 128]);
    assert!(anc.add_creds(&[cred]));
    assert_eq!(anc.len(), 32);
    let mut msgs = anc.messages();
    match msgs.next() {
        Some(Ok(AncillaryData::ScmCredentials(mut creds))) => {
            let c = creds.next().unwrap();
            assert_eq!((c.get_pid(), c.get_uid(), c.get_gid()), (42, 1000, 100));
            assert!(creds.next().is_none());
        }
        _ => panic!("expected SCM_CREDENTIALS"),
    }
}

#[test]
fn records_keep_their_order() {
    let mut anc = SocketAncillary::new(vec![0u8; 128]);
    assert!(anc.add_creds(&[SocketCred::new()]));
    assert!(anc.add_fds(&[8]));
    let mut msgs = anc.messages();
    assert!(matches!(msgs.next(), Some(Ok(AncillaryData::ScmCredentials(_)))));
    assert!(matches!(msgs.next(), Some(Ok(AncillaryData::ScmRights(_)))));
    assert!(msgs.next().is_none());
}

#[test]
fn full_buffer_refuses_and_keeps_state() {
    let mut anc = SocketAncillary::new(vec![0u8; 30]);
    assert!(anc.add_fds(&[1]));
    assert!(!anc.add_fds(&[2]));
    assert_eq!(anc.len(), 24);
    assert_eq!(anc.capacity(), 30);
    let mut small = SocketAncillary::new(vec![0u8; 23]);
    assert!(!small.add_fds(&[1]));
    assert!(small.is_empty());
}

#[test]
fn unknown_record_is_reported() {
    let mut bytes = vec![20u8, 0, 0, 0, 0, 0, 0, 0];
    bytes.extend([7, 0, 0, 0, 9, 0, 0, 0, 1, 2, 3, 4, 0, 0, 0, 0]);
    let mut anc = SocketAncillary::new(vec![0u8; 64]);
    anc.set_received(&bytes, true);
    assert!(anc.truncated());
    let mut msgs = anc.messages();
    assert!(matches!(
        msgs.next(),
        Some(Err(AncillaryError::Unknown { cmsg_level: 7, cmsg_type: 9 }))
    ));
    assert!(msgs.next().is_none());
    assert_eq!((SOL_SOCKET, SCM_RIGHTS, SCM_CREDENTIALS), (1, 1, 2));
}

#[test]
fn short_record_ends_the_walk() {
    let mut anc = SocketAncillary::new(vec![0u8; 64]);
    anc.set_received(&[0u8; 24], false);
    assert!(anc.messages().next().is_none());
}

#[test]
fn clear_resets_length_and_flag() {
    let mut anc = SocketAncillary::new(vec![0u8; 64]);
    anc.set_received(&[1, 2, 3], true);
    anc.clear();
    assert!(anc.is_empty());
    assert!(!anc.truncated());
    assert_eq!(anc.capacity(), 64);
}

#[test]
fn received_control_sets_length_and_flag() {
    let mut anc = SocketAncillary::new(vec![0u8; 64]);
    assert!(anc.add_fds(&[1]));
    anc.set_received(&[9u8; 40], false);
    assert_eq!(anc.len(), 40);
    assert!(!anc.truncated());
    assert_eq!(anc.capacity(), 64);
    assert_eq!(anc.used_bytes(), vec![9u8; 40]);
}
