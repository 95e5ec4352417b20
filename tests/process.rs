use privsep::imsg::Message;
use privsep::process::{
    check_parent, child_index, chroot_dir, foreground_flag, log_filter, peer_pairs, resolve_topology,
    role_of, topology_processes, Config, Options, PeerWait, Process, PRIVSEP_FD, STDERR_FILENO,
};
use privsep::Error;

fn names() -> Vec<&'static str> {
    vec!["parent", "hello", "child"]
}

fn procs(list: &[(&'static str, bool)]) -> Vec<Process> {
    list.iter().map(|(name, connect)| Process { name, connect: *connect }).collect()
}

#[test]
fn privsep_fd_follows_stderr() {
    assert_eq!(PRIVSEP_FD, STDERR_FILENO + 1);
    assert_eq!(STDERR_FILENO, 2);
}

#[test]
fn parent_needs_root_for_privdrop() {
    let p = procs(&[("parent", false), ("hello", true)]);
    let options = Options::default();
    assert_eq!(check_parent(&p, &options, 1000), Err(Error::PermissionDenied));
    assert_eq!(check_parent(&p, &options, 0), Ok(()));
    let relaxed = Options { disable_privdrop: true, ..Options::default() };
    assert_eq!(check_parent(&p, &relaxed, 1000), Ok(()));
}

#[test]
fn parent_must_come_first() {
    let options = Options { disable_privdrop: true, ..Options::default() };
    let p = procs(&[("hello", true), ("parent", false)]);
    assert_eq!(check_parent(&p, &options, 0), Err(Error::MissingParent));
    assert_eq!(check_parent(&Vec::new(), &options, 0), Err(Error::MissingParent));
}

#[test]
fn topology_is_symmetrised() {
    let rows = resolve_topology(&names(), &vec![("child", "hello")]).unwrap();
    assert_eq!(rows.len(), 3);
    let connect = |i: usize, j: usize| rows[i][j].connect;
    assert!(connect(1, 0) && connect(2, 0) && connect(0, 0));
    assert!(connect(1, 2) && connect(2, 1));
    assert!(!connect(1, 1) && !connect(2, 2) && !connect(0, 1));
    assert_eq!(rows[1][2].name, "child");
}

#[test]
fn topology_errors() {
    assert!(matches!(resolve_topology(&vec!["hello"], &vec![]), Err(Error::MissingParent)));
    assert!(matches!(resolve_topology(&vec![], &vec![]), Err(Error::MissingParent)));
    assert!(matches!(
        resolve_topology(&names(), &vec![("hello", "nobody")]),
        Err(Error::InvalidProcess)
    ));
}

#[test]
fn brokering_pairs_are_canonical() {
    let n = vec!["parent", "a", "b", "c"];
    let rows = resolve_topology(&n, &vec![("c", "a"), ("a", "c"), ("b", "a")]).unwrap();
    let top = topology_processes(&n);
    assert!(!top[0].connect && top[1].connect && top[3].connect);
    assert_eq!(peer_pairs(&top, &rows), vec![(1, 2), (1, 3)]);
}

#[test]
fn brokering_skips_unconnected_children() {
    let rows = resolve_topology(&names(), &vec![("hello", "child")]).unwrap();
    let top = procs(&[("parent", false), ("hello", true), ("child", false)]);
    assert!(peer_pairs(&top, &rows).is_empty());
}

#[test]
fn brokered_peers_match_waits() {
    let n = vec!["parent", "a", "b", "c"];
    let rows = resolve_topology(&n, &vec![("a", "b"), ("c", "b")]).unwrap();
    let pairs = peer_pairs(&topology_processes(&n), &rows);
    for c in 1..n.len() {
        let mut wait = PeerWait::new(&rows[c]);
        for (a, b) in &pairs {
            let peer = if *a == c { *b } else if *b == c { *a } else { continue };
            let header = Message::connect(peer);
            assert_eq!(wait.accept(&header, Some(40), &[]), Ok(peer));
        }
        assert!(wait.is_done());
    }
}

#[test]
fn role_follows_argv0() {
    let p = procs(&[("parent", false), ("hello", true), ("child", true)]);
    assert_eq!(role_of(&p, "child"), Some(2));
    assert_eq!(role_of(&p, "/usr/bin/program"), None);
    assert_eq!(role_of(&p, "parent"), None);
    assert_eq!(child_index(&p, "hello"), Ok(1));
    assert_eq!(child_index(&p, "other"), Err(Error::InvalidProcess));
}

#[test]
fn peer_wait_rejects_protocol_violations() {
    let row = procs(&[("parent", true), ("hello", false), ("child", true)]);
    let mut wait = PeerWait::new(&row);
    assert!(!wait.is_done());
    let mut wrong_id = Message::connect(2);
    wrong_id.id = 11;
    assert_eq!(wait.accept(&wrong_id, Some(5), &[]), Err(Error::InvalidData));
    assert_eq!(wait.accept(&Message::connect(2), None, &[]), Err(Error::InvalidData));
    assert_eq!(wait.accept(&Message::connect(1), Some(5), &[]), Err(Error::InvalidData));
    assert_eq!(wait.accept(&Message::connect(2), Some(5), &[]), Ok(2));
    assert!(wait.is_done());
    assert_eq!(wait.accept(&Message::connect(2), Some(5), &[]), Err(Error::InvalidData));
}

#[test]
fn child_arguments_and_environment() {
    assert_eq!(foreground_flag(true), "-d");
    assert_eq!(foreground_flag(false), "");
    let config = Config { foreground: true, log_level: Some("debug".to_string()) };
    assert_eq!(log_filter(Some("info".to_string()), &config), "info");
    assert_eq!(log_filter(None, &config), "debug");
    assert_eq!(log_filter(None, &Config::default()), "");
}

#[test]
fn chroot_falls_back_to_var_empty() {
    assert_eq!(chroot_dir("/home/_relayd", true), "/home/_relayd");
    assert_eq!(chroot_dir("/home/_relayd", false), "/var/empty");
}
