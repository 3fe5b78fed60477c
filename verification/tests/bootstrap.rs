//! The rendezvous: configuration, messages, and a whole exchange in memory.

use pluvio::collective::error::CollectiveError;
use pluvio::collective::ucx_backend::bootstrap::{
    connect_targets, hello_message, table_message, write_u32_len_prefixed, AddressExchange,
    BootstrapConfig, BootstrapVars, ExchangeAction,
};
use std::collections::HashMap;

fn vars() -> BootstrapVars {
    BootstrapVars {
        coll_rank: Some("3".into()),
        ompi_rank: Some("4".into()),
        pmi_rank: Some("5".into()),
        coll_size: None,
        ompi_size: None,
        pmi_size: Some("+8".into()),
        root_host: None,
        root_port: None,
    }
}

fn text(r: Result<BootstrapConfig, CollectiveError>) -> &'static str {
    match r {
        Err(CollectiveError::Protocol(m)) => m,
        Err(e) => panic!("unexpected error: {:?}", e),
        Ok(c) => panic!("no error: {:?}", c),
    }
}

#[test]
fn configuration_comes_from_the_first_variable_set() {
    let c = BootstrapConfig::from_env(&vars()).unwrap();
    assert_eq!((c.rank, c.size), (3, 8));
    assert_eq!(c.root_host, "localhost");
    assert_eq!(c.root_port, 13337);
    assert_eq!(c.bind_addr(), "0.0.0.0:13337");
    assert_eq!(c.connect_addr(), "localhost:13337");

    let mut v = vars();
    v.coll_rank = None;
    v.coll_size = Some("2".into());
    v.root_host = Some("node1".into());
    v.root_port = Some("14200".into());
    let c = BootstrapConfig::from_env(&v).unwrap();
    assert_eq!((c.rank, c.size), (4, 2));
    assert_eq!(c.connect_addr(), "node1:14200");
    v.ompi_rank = None;
    assert_eq!(BootstrapConfig::from_env(&v).unwrap().rank, 5);
}

#[test]
fn configuration_errors_name_what_is_wrong() {
    let mut v = vars();
    v.coll_rank = None;
    v.ompi_rank = None;
    v.pmi_rank = None;
    assert_eq!(text(BootstrapConfig::from_env(&v)), "rank not provided");
    for bad in ["", "+", "-1", "1x", " 1", "99999999999999999999"] {
        v.coll_rank = Some(bad.into());
        assert_eq!(text(BootstrapConfig::from_env(&v)), "rank parse error");
    }
    v.coll_rank = Some("18446744073709551615".into());
    v.pmi_size = None;
    assert_eq!(text(BootstrapConfig::from_env(&v)), "size not provided");
    v.coll_size = Some("two".into());
    assert_eq!(text(BootstrapConfig::from_env(&v)), "size parse error");
    v.coll_size = Some("0002".into());
    v.root_port = Some("65536".into());
    assert_eq!(text(BootstrapConfig::from_env(&v)), "port parse error");
    v.root_port = Some("65535".into());
    assert_eq!(BootstrapConfig::from_env(&v).unwrap().root_port, 65535);
}

#[test]
fn messages_are_length_prefixed() {
    let mut out = vec![7u8];
    write_u32_len_prefixed(&mut out, b"abc");
    assert_eq!(out, [7, 3, 0, 0, 0, b'a', b'b', b'c']);
    assert_eq!(hello_message(0x0102, b"x"), [2, 1, 0, 0, 1, 0, 0, 0, b'x']);
    assert_eq!(
        table_message(&vec![b"p".to_vec(), Vec::new()]),
        [2, 0, 0, 0, 1, 0, 0, 0, b'p', 0, 0, 0, 0]
    );
}

fn config(rank: usize, size: usize) -> BootstrapConfig {
    BootstrapConfig { rank, size, root_host: "h".into(), root_port: 1 }
}

/// What a rank other than 0 does up to its hello.
fn say_hello(peer: &mut AddressExchange) -> Vec<u8> {
    assert!(matches!(peer.action(), ExchangeAction::Connect));
    peer.on_done().unwrap();
    match peer.action() {
        ExchangeAction::Write { bytes } => {
            peer.on_done().unwrap();
            bytes
        }
        a => panic!("{:?}", a),
    }
}

/// Feed `stream` to whoever reads until it stops reading.
fn feed(x: &mut AddressExchange, stream: &[u8]) -> (usize, Option<usize>) {
    let mut at = 0;
    let mut peer = None;
    while let ExchangeAction::Read { len } = x.action() {
        if let Some(p) = x.on_read(&stream[at..at + len]).unwrap() {
            peer = Some(p);
        }
        at += len;
    }
    (at, peer)
}

#[test]
fn all_ranks_end_with_all_addresses() {
    for size in [1usize, 2, 4] {
        let addr = |r: usize| vec![r as u8; r * 3];
        let mut root = AddressExchange::new(&config(0, size), &addr(0));
        let mut peers: HashMap<usize, AddressExchange> = (1..size)
            .map(|r| (r, AddressExchange::new(&config(r, size), &addr(r))))
            .collect();
        assert!(matches!(root.action(), ExchangeAction::Bind));
        root.on_done().unwrap();
        // The ranks connect last to first.
        for r in (1..size).rev() {
            let hello = say_hello(peers.get_mut(&r).unwrap());
            assert!(matches!(root.action(), ExchangeAction::Accept));
            root.on_done().unwrap();
            assert_eq!(feed(&mut root, &hello), (hello.len(), Some(r)));
        }
        for r in 1..size {
            match root.action() {
                ExchangeAction::Reply { to, bytes } => {
                    assert_eq!(to, r);
                    let peer = peers.get_mut(&r).unwrap();
                    assert_eq!(feed(peer, &bytes), (bytes.len(), None));
                }
                a => panic!("{:?}", a),
            }
            root.on_done().unwrap();
        }
        let expected: Vec<Vec<u8>> = (0..size).map(addr).collect();
        assert!(matches!(root.action(), ExchangeAction::Finish));
        assert_eq!(root.into_addresses(), expected);
        for (_, peer) in peers {
            assert!(matches!(peer.action(), ExchangeAction::Finish));
            assert_eq!(peer.into_addresses(), expected);
        }
    }
}

#[test]
fn the_named_rank_is_known_before_its_address() {
    let mut root = AddressExchange::new(&config(0, 2), b"");
    root.on_done().unwrap();
    root.on_done().unwrap();
    assert_eq!(root.named_rank(), None);
    root.on_read(&[9, 0, 0, 0]).unwrap();
    assert_eq!(root.named_rank(), Some(9));
}

#[test]
fn connecting_is_tried_two_hundred_times() {
    let mut peer = AddressExchange::new(&config(1, 2), b"a");
    for attempt in 1..=200 {
        assert!(matches!(peer.action(), ExchangeAction::Connect));
        peer.on_connect_failed();
        assert!(matches!(peer.action(), ExchangeAction::Sleep { millis: 50 }));
        let r = peer.on_done();
        if attempt < 200 {
            r.unwrap();
        } else {
            match r {
                Err(CollectiveError::Protocol(m)) => {
                    assert_eq!(m, "bootstrap: failed to connect to rank 0")
                }
                other => panic!("{:?}", other),
            }
        }
    }
}

#[test]
fn a_table_of_another_size_is_refused() {
    let mut peer = AddressExchange::new(&config(1, 2), b"a");
    say_hello(&mut peer);
    match peer.on_read(&[3, 0, 0, 0]) {
        Err(CollectiveError::Protocol(m)) => assert_eq!(m, "bootstrap: size mismatch"),
        other => panic!("{:?}", other),
    }
}

#[test]
fn nobody_connects_to_itself() {
    let list = vec![vec![0u8], vec![1], vec![2]];
    assert_eq!(connect_targets(list.clone(), 1), [Some(vec![0u8]), None, Some(vec![2])]);
    assert_eq!(connect_targets(list, 7), [Some(vec![0u8]), Some(vec![1]), Some(vec![2])]);
    assert!(connect_targets(Vec::new(), 0).is_empty());
}
