use reki3::announce::{
    announce_commands, announce_commands_at, announce_response, ip_param, parse_announce, RedisCommand,
};
use reki3::peer::IpAddress;

const HASH: &str = "%124Vx%9A%BC%DE%F1%23Eg%89%AB%CD%EF%124Vx%9A";
const HASH_HEX: &str = "123456789abcdef123456789abcdef123456789a";

fn query(rest: &str) -> Vec<u8> {
    format!("info_hash={}{}", HASH, rest).into_bytes()
}

#[test]
fn parse_announce_accepts_a_complete_query() {
    let req = parse_announce(&query("&port=6881&left=0&compact=1")).unwrap();
    assert_eq!(req.info_hash, HASH_HEX);
    assert_eq!(req.port, 6881);
    assert_eq!(req.left, 0);
    assert_eq!(req.numwant, 50);
    let req = parse_announce(&query("&port=1&left=12&compact=1&numwant=7")).unwrap();
    assert_eq!((req.port, req.left, req.numwant), (1, 12, 7));
}

#[test]
fn parse_announce_error_for_each_check() {
    let cases: Vec<(Vec<u8>, &str)> = vec![
        (b"port=1&left=0&compact=1".to_vec(), "No info_hash specified"),
        (b"info_hash=%zz".to_vec(), "Invalid percent encoding"),
        (b"info_hash=abc".to_vec(), "Info hash is invalid (too short)."),
        (query("&left=0&compact=1"), "No port specified"),
        (query("&port=70000&left=0&compact=1"), "Invalid port specified"),
        (query("&port=1&compact=1"), "No left specified"),
        (query("&port=1&left=-1&compact=1"), "Invalid left specified"),
        (query("&port=1&left=0"), "No compact specified"),
        (query("&port=1&left=0&compact=yes"), "Invalid compact specified"),
        (query("&port=1&left=0&compact=0"), "This tracker only supports compact responses"),
        (query("&port=1&left=0&compact=1&numwant=many"), "Invalid numwant specified"),
    ];
    for (q, msg) in cases {
        match parse_announce(&q) {
            Ok(_) => panic!("accepted {:?}", String::from_utf8_lossy(&q)),
            Err(e) => assert_eq!(e, msg),
        }
    }
}

#[test]
fn ip_param_by_family() {
    let q = b"ip=1.2.3.4&ipv6=::1";
    assert_eq!(ip_param(q, false), Some(&b"1.2.3.4"[..]));
    assert_eq!(ip_param(q, true), Some(&b"::1"[..]));
    assert_eq!(ip_param(b"ip=::2", true), Some(&b"::2"[..]));
    assert_eq!(ip_param(b"ipv6=::2", false), None);
}

fn key(cmd: &RedisCommand) -> &str {
    match cmd {
        RedisCommand::RemoveRangeByScore { key, .. } => key,
        RedisCommand::Count { key } => key,
        RedisCommand::Range { key, .. } => key,
        RedisCommand::Add { key, .. } => key,
    }
}

#[test]
fn announce_commands_for_a_downloading_peer() {
    let req = parse_announce(&query("&port=6881&left=5&compact=1&numwant=10")).unwrap();
    let cmds = announce_commands_at(&req, IpAddress::V4([1, 2, 3, 4]), 3600, 1_000);
    let seeds = format!("torrent:{}:seeds", HASH_HEX);
    let peers = format!("torrent:{}:peers", HASH_HEX);
    assert_eq!(cmds.len(), 7);
    match &cmds[0] {
        RedisCommand::RemoveRangeByScore { min, max, .. } => assert_eq!((*min, *max), (0, 1_000_000 - 3_600_000)),
        _ => panic!("expected a removal"),
    }
    assert!(matches!(cmds[1], RedisCommand::RemoveRangeByScore { .. }));
    assert!(matches!(cmds[2], RedisCommand::Count { .. }));
    assert!(matches!(cmds[3], RedisCommand::Count { .. }));
    match &cmds[4] {
        RedisCommand::Range { start, stop, .. } => assert_eq!((*start, *stop), (0, 10)),
        _ => panic!("expected a range"),
    }
    assert!(matches!(cmds[5], RedisCommand::Range { .. }));
    let keys: Vec<&str> = cmds.iter().map(key).collect();
    assert_eq!(keys, vec![&seeds[..], &peers[..], &seeds[..], &peers[..], &seeds[..], &peers[..], &peers[..]]);
    match &cmds[6] {
        RedisCommand::Add { score, member, .. } => {
            assert_eq!(*score, 1_000_000);
            assert_eq!(member, &vec![1, 2, 3, 4, 0x1a, 0xe1]);
        },
        _ => panic!("expected an addition"),
    }
}

#[test]
fn announce_commands_for_a_seed_over_ipv6() {
    let req = parse_announce(&query("&port=1&left=0&compact=1")).unwrap();
    let cmds = announce_commands_at(&req, IpAddress::V6([0, 0, 0, 0, 0, 0, 0, 1]), 60, 0);
    let seeds6 = format!("torrent:{}:seeds6", HASH_HEX);
    match &cmds[6] {
        RedisCommand::Add { key, member, .. } => {
            assert_eq!(key, &seeds6);
            assert_eq!(member.len(), 18);
        },
        _ => panic!("expected an addition"),
    }
    assert_eq!(key(&cmds[1]), format!("torrent:{}:peers6", HASH_HEX));
}

#[test]
fn announce_commands_reads_the_clock() {
    let req = parse_announce(&query("&port=1&left=0&compact=1")).unwrap();
    let (now, cmds) = announce_commands(&req, IpAddress::V4([1, 1, 1, 1]), 60);
    assert!(now > 1_500_000_000);
    let cmds = cmds.unwrap();
    match &cmds[6] {
        RedisCommand::Add { score, .. } => assert_eq!(*score, now * 1000),
        _ => panic!("expected an addition"),
    }
}

#[test]
fn announce_response_for_a_downloading_peer() {
    let seeds = vec![vec![1, 2, 3, 4, 5, 6]];
    let peers = vec![vec![7, 8, 9, 10, 11, 12]];
    let r = announce_response(2, 3, 60, false, false, &seeds, &peers);
    let mut expected = b"d8:completei2e10:incompletei3e8:intervali60e5:peers12:".to_vec();
    expected.extend(1..=12u8);
    expected.push(b'e');
    assert_eq!(r, expected);
}

#[test]
fn announce_response_gives_seeds_no_seeds() {
    let seeds = vec![vec![1u8; 18], vec![2u8; 18]];
    let peers = vec![vec![3u8; 18]];
    let r = announce_response(0, 1800, 1800, true, true, &seeds, &peers);
    let mut expected = b"d8:completei0e10:incompletei1800e8:intervali1800e6:peers618:".to_vec();
    expected.extend(vec![3u8; 18]);
    expected.push(b'e');
    assert_eq!(r, expected);
}

#[test]
fn announce_response_with_nothing_stored() {
    let empty: Vec<Vec<u8>> = Vec::new();
    assert_eq!(
        announce_response(0, 0, 60, false, false, &empty, &empty),
        b"d8:completei0e10:incompletei0e8:intervali60e5:peers0:e".to_vec()
    );
}
