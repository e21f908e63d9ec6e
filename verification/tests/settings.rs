use std::num::IntErrorKind;

use libp2p_raft::settings::{
    build_config, list_items, parse_peer_entry, parse_u64, parse_voters, NumberError, PeerEntryError,
    VoterListError,
};

fn kind_of(e: NumberError) -> IntErrorKind {
    match e {
        NumberError::Empty => IntErrorKind::Empty,
        NumberError::InvalidDigit => IntErrorKind::InvalidDigit,
        NumberError::TooLarge => IntErrorKind::PosOverflow,
    }
}

#[test]
fn parse_u64_agrees_with_std() {
    let cases = [
        "0",
        "42",
        "+7",
        "+",
        "-",
        "-1",
        "",
        " 1",
        "1 ",
        "007",
        "12a",
        "18446744073709551615",
        "18446744073709551616",
        "99999999999999999999",
        "9999999999999999999x",
        "18446744073709551619x",
        "1844674407370955161x",
        "١٢",
        "+-3",
    ];
    for s in cases {
        match (parse_u64(s), s.parse::<u64>()) {
            (Ok(a), Ok(b)) => assert_eq!(a, b, "value of {s:?}"),
            (Err(a), Err(b)) => {
                assert_eq!(kind_of(a), *b.kind(), "kind for {s:?}");
                assert_eq!(a.message(), b.to_string(), "message for {s:?}");
            }
            (a, b) => panic!("{s:?}: {a:?} vs {b:?}"),
        }
    }
}

#[test]
fn list_items_trims_and_drops_empty_pieces() {
    assert_eq!(list_items(" a , b,,c "), vec!["a", "b", "c"]);
    assert_eq!(list_items(""), Vec::<String>::new());
    assert_eq!(list_items(" , \t,"), Vec::<String>::new());
    assert_eq!(list_items("x\u{3000}"), vec!["x"]);
    assert_eq!(list_items("one"), vec!["one"]);
}

#[test]
fn list_items_agrees_with_std_split_and_trim() {
    for raw in ["1,2,3", " 1 , 2 ,, 3 ", ",,", "a:b:c, d", "\n1\t,\u{a0}2\u{2003}", "é, ü ,"] {
        let expected: Vec<String> = raw
            .split(',')
            .map(str::trim)
            .filter(|s| !s.is_empty())
            .map(String::from)
            .collect();
        assert_eq!(list_items(raw), expected, "items of {raw:?}");
    }
}

#[test]
fn parse_voters_reads_ids_in_order() {
    assert_eq!(parse_voters("1,2,3"), Ok(vec![1, 2, 3]));
    assert_eq!(parse_voters(" 3 , 1 ,, 2 "), Ok(vec![3, 1, 2]));
    assert_eq!(parse_voters("+5"), Ok(vec![5]));
}

#[test]
fn parse_voters_refuses_bad_lists() {
    assert_eq!(parse_voters(""), Err(VoterListError::NoVoters));
    assert_eq!(parse_voters(" , ,"), Err(VoterListError::NoVoters));
    assert_eq!(parse_voters("1,x,3"), Err(VoterListError::Number(NumberError::InvalidDigit)));
    assert_eq!(parse_voters("1,-2"), Err(VoterListError::Number(NumberError::InvalidDigit)));
    assert_eq!(
        parse_voters("18446744073709551616,x"),
        Err(VoterListError::Number(NumberError::TooLarge))
    );
    assert_eq!(
        VoterListError::NoVoters.message(),
        "RAFT_VOTERS must list at least one node id"
    );
    assert_eq!(
        VoterListError::Number(NumberError::InvalidDigit).message(),
        "invalid digit found in string"
    );
}

#[test]
fn parse_peer_entry_reads_id_host_and_port() {
    let e = parse_peer_entry("2:127.0.0.1:4102", 1).unwrap().unwrap();
    assert_eq!((e.node_id, e.host.as_str(), e.port), (2, "127.0.0.1", 4102));
    let e = parse_peer_entry("3:node-3:4103:extra", 1).unwrap().unwrap();
    assert_eq!((e.node_id, e.host.as_str(), e.port), (3, "node-3", 4103));
    let e = parse_peer_entry("4::1", 1).unwrap().unwrap();
    assert_eq!((e.node_id, e.host.as_str(), e.port), (4, "", 1));
}

#[test]
fn parse_peer_entry_skips_the_node_itself() {
    assert!(parse_peer_entry("1", 1).unwrap().is_none());
    assert!(parse_peer_entry("1:host:notaport", 1).unwrap().is_none());
}

#[test]
fn parse_peer_entry_errors() {
    assert_eq!(parse_peer_entry("2", 1).unwrap_err(), PeerEntryError::MissingHost);
    assert_eq!(parse_peer_entry("2:h", 1).unwrap_err(), PeerEntryError::MissingPort);
    assert_eq!(
        parse_peer_entry("2:h:70000", 1).unwrap_err(),
        PeerEntryError::Port(NumberError::TooLarge)
    );
    assert_eq!(
        parse_peer_entry("2:h:", 1).unwrap_err(),
        PeerEntryError::Port(NumberError::Empty)
    );
    assert_eq!(
        parse_peer_entry("x:h:1", 1).unwrap_err(),
        PeerEntryError::NodeId(NumberError::InvalidDigit)
    );
    assert_eq!(PeerEntryError::MissingHost.message(), "peer entry missing host");
    assert_eq!(PeerEntryError::MissingPort.message(), "peer entry missing port");
    assert_eq!(
        PeerEntryError::Port(NumberError::TooLarge).message(),
        "number too large to fit in target type"
    );
}

#[test]
fn build_config_defaults_depend_on_node_id() {
    let c = build_config(1, vec![1, 2, 3], Vec::new(), None, None, None, None);
    assert_eq!(c.node_id, 1);
    assert_eq!(c.voters, vec![1, 2, 3]);
    assert_eq!(c.election_timeout, 700);
    assert_eq!(c.election_jitter, 40);
    assert_eq!(c.heartbeat_interval, 100);
    assert_eq!(c.rpc_timeout, 500);
    assert_eq!(c.rpc_max_retries, 0);
    assert_eq!(c.snapshot_threshold, 10_000);

    let c = build_config(3, vec![3], Vec::new(), None, None, None, None);
    assert_eq!((c.election_timeout, c.election_jitter), (1100, 100));
}

#[test]
fn build_config_takes_given_timings() {
    let c = build_config(2, vec![2], Vec::new(), Some(150), Some(0), Some(20), Some(75));
    assert_eq!(c.election_timeout, 150);
    assert_eq!(c.election_jitter, 0);
    assert_eq!(c.heartbeat_interval, 20);
    assert_eq!(c.rpc_timeout, 75);
}
