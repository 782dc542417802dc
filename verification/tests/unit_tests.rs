use proxyd::{
    compute_hash, parse_bool, parse_cidr, parse_csv_parallel, parse_ip, parse_port,
    parse_sync_hour, IpAddress, IpTrie, LookupError, ReputationFlags,
};

fn flags_with(set: &[&str]) -> ReputationFlags {
    let mut f = ReputationFlags::default();
    for name in set {
        match *name {
            "anonblock" => f.anonblock = true,
            "proxy" => f.proxy = true,
            "vpn" => f.vpn = true,
            "cdn" => f.cdn = true,
            "public_wifi" => f.public_wifi = true,
            "rangeblock" => f.rangeblock = true,
            "school_block" => f.school_block = true,
            "tor" => f.tor = true,
            "webhost" => f.webhost = true,
            _ => panic!("unknown flag"),
        }
    }
    f
}

#[test]
fn test_reputation_flags_merge() {
    let a = flags_with(&["proxy"]);
    let b = flags_with(&["vpn"]);
    let merged = a.merge(&b);
    assert!(merged.proxy);
    assert!(merged.vpn);
    assert!(!merged.tor);
}

#[test]
fn test_lookup_error_display() {
    let err = LookupError::InvalidIp("not-an-ip".to_owned());
    assert!(err.message().contains("Invalid IP"));

    let err = LookupError::InvalidCidr("not-a-cidr".to_owned());
    assert!(err.message().contains("Invalid CIDR"));
}

#[test]
fn test_insert_and_find_v4() {
    let mut trie = IpTrie::new();
    let flags = flags_with(&["proxy"]);

    trie.insert(&parse_cidr("10.0.0.0/8").unwrap(), flags);

    let matches = trie.find_all_matches(&parse_ip("10.1.2.3").unwrap());
    assert_eq!(matches.len(), 1);
    assert!(matches[0].1.proxy);

    let no_matches = trie.find_all_matches(&parse_ip("192.168.1.1").unwrap());
    assert!(no_matches.is_empty());
}

#[test]
fn test_multiple_matches() {
    let mut trie = IpTrie::new();

    trie.insert(&parse_cidr("10.0.0.0/8").unwrap(), flags_with(&["proxy"]));
    trie.insert(&parse_cidr("10.0.0.0/16").unwrap(), flags_with(&["vpn"]));

    let matches = trie.find_all_matches(&parse_ip("10.0.1.1").unwrap());
    assert_eq!(matches.len(), 2);
}

#[test]
fn test_v6() {
    let mut trie = IpTrie::new();
    let flags = flags_with(&["tor"]);

    trie.insert(&parse_cidr("2001:db8::/32").unwrap(), flags);

    let matches = trie.find_all_matches(&parse_ip("2001:db8::1").unwrap());
    assert_eq!(matches.len(), 1);
    assert!(matches[0].1.tor);
}

#[test]
fn test_exact_match() {
    let mut trie = IpTrie::new();
    let flags = flags_with(&["cdn"]);

    trie.insert(&parse_cidr("192.168.1.0/24").unwrap(), flags);
    trie.insert(&parse_cidr("192.168.1.100/32").unwrap(), flags);

    let matches = trie.find_all_matches(&parse_ip("192.168.1.100").unwrap());
    assert_eq!(matches.len(), 2);
}

#[test]
fn test_parse_bool_true_values() {
    assert!(parse_bool("true"));
    assert!(parse_bool("True"));
    assert!(parse_bool("TRUE"));
    assert!(parse_bool("1"));
    assert!(parse_bool("yes"));
    assert!(parse_bool("Yes"));
    assert!(parse_bool("YES"));
    assert!(parse_bool("  true  "));
}

#[test]
fn test_parse_bool_false_values() {
    assert!(!parse_bool("false"));
    assert!(!parse_bool("0"));
    assert!(!parse_bool("no"));
    assert!(!parse_bool(""));
    assert!(!parse_bool("invalid"));
}

#[test]
fn test_parse_csv_parallel_basic() {
    let csv = "ip,proxy,vpn,tor\n192.168.1.1,true,false,true\n10.0.0.0/8,false,true,false";
    let records = parse_csv_parallel(csv).unwrap();

    assert_eq!(records.len(), 2);
    assert_eq!(records[0].ip, "192.168.1.1");
    assert!(records[0].flags.proxy);
    assert!(!records[0].flags.vpn);
    assert!(records[0].flags.tor);

    assert_eq!(records[1].ip, "10.0.0.0/8");
    assert!(!records[1].flags.proxy);
    assert!(records[1].flags.vpn);
}

#[test]
fn test_parse_csv_parallel_missing_columns() {
    let csv = "ip,proxy\n192.168.1.1,true";
    let records = parse_csv_parallel(csv).unwrap();

    assert_eq!(records.len(), 1);
    assert!(records[0].flags.proxy);
    assert!(!records[0].flags.vpn);
    assert!(!records[0].flags.tor);
}

#[test]
fn test_parse_csv_parallel_empty_ip_filtered() {
    let csv = "ip,proxy\n,true\n192.168.1.1,true";
    let records = parse_csv_parallel(csv).unwrap();

    assert_eq!(records.len(), 1);
    assert_eq!(records[0].ip, "192.168.1.1");
}

#[test]
fn test_parse_csv_parallel_empty() {
    let csv = "ip,proxy,vpn";
    let records = parse_csv_parallel(csv).unwrap();
    assert!(records.is_empty());
}

#[test]
fn test_parse_csv_parallel_all_flag_columns() {
    let csv = "ip,anonblock,proxy,vpn,cdn,public-wifi,rangeblock,school-block,tor,webhost\n\
               1.2.3.4,1,1,1,1,1,1,1,1,1";
    let records = parse_csv_parallel(csv).unwrap();

    assert_eq!(records.len(), 1);
    let flags = &records[0].flags;
    assert!(flags.anonblock);
    assert!(flags.proxy);
    assert!(flags.vpn);
    assert!(flags.cdn);
    assert!(flags.public_wifi);
    assert!(flags.rangeblock);
    assert!(flags.school_block);
    assert!(flags.tor);
    assert!(flags.webhost);
}

fn now_unix() -> i64 {
    std::time::SystemTime::now()
        .duration_since(std::time::UNIX_EPOCH)
        .unwrap()
        .as_secs() as i64
}

#[test]
fn test_duration_until_next_sync_returns_valid_duration() {
    let duration = proxyd::duration_until_next_sync(now_unix(), 3);
    assert!(duration <= 24 * 60 * 60);
}

#[test]
fn test_duration_until_next_sync_same_hour_schedules_tomorrow() {
    let now = now_unix();
    let current_hour = ((now / 3600) % 24) as u8;
    let duration = proxyd::duration_until_next_sync(now, current_hour);
    assert!(duration >= 23 * 60 * 60);
}

#[test]
fn ip_text_round_trips_through_the_parser() {
    for s in ["0.0.0.0", "255.255.255.255", "10.0.0.1", "::", "::1", "2001:db8::1", "fe80::",
        "1:2:3:4:5:6:7:8", "::ffff:1.2.3.4"] {
        let a = parse_ip(s).expect(s);
        match a {
            IpAddress::V4(_) => assert!(!s.contains(':')),
            IpAddress::V6(_) => assert!(s.contains(':')),
        }
    }
    assert!(parse_ip("256.1.1.1").is_none());
    assert!(parse_ip("1.2.3").is_none());
    assert!(parse_ip("01.2.3.4").is_none());
    assert!(parse_ip("1:2:3:4:5:6:7:8:9").is_none());
    assert!(parse_ip(":::1").is_none());
    assert!(parse_ip("").is_none());
}

#[test]
fn cidr_text_parses_and_bounds_the_prefix() {
    assert!(parse_cidr("10.0.0.0/8").is_some());
    assert!(parse_cidr("2001:db8::/32").is_some());
    let bare = parse_cidr("1.2.3.4").unwrap();
    assert_eq!(bare.prefix, 32);
    assert!(parse_cidr("192.168.1.0/33").is_none());
    assert!(parse_cidr("192.168.1.0/-1").is_none());
    assert!(parse_cidr("not-a-cidr").is_none());
}

#[test]
fn hash_of_empty_text_is_the_known_digest() {
    assert_eq!(
        compute_hash(""),
        "e3b0c44298fc1c149afbf4c8996fb92427ae41e4649b934ca495991b7852b855"
    );
}

#[test]
fn port_and_hour_settings_fall_back_on_bad_values() {
    assert_eq!(parse_port("8080", 7891), 8080);
    assert_eq!(parse_port("0", 7891), 7891);
    assert_eq!(parse_port("", 7891), 7891);
    assert_eq!(parse_port("70000", 7891), 7891);
    assert_eq!(parse_port("abc", 7891), 7891);
    assert_eq!(parse_sync_hour("5", 2), 5);
    assert_eq!(parse_sync_hour("23", 2), 23);
    assert_eq!(parse_sync_hour("24", 2), 2);
    assert_eq!(parse_sync_hour("x", 2), 2);
}

#[test]
fn trie_insert_overwrites_same_network() {
    let mut trie = IpTrie::new();
    trie.insert(&parse_cidr("10.0.0.0/8").unwrap(), flags_with(&["proxy"]));
    trie.insert(&parse_cidr("10.0.0.0/8").unwrap(), flags_with(&["vpn"]));
    let matches = trie.find_all_matches(&parse_ip("10.1.1.1").unwrap());
    assert_eq!(matches.len(), 1);
    assert!(matches[0].1.vpn);
    assert!(!matches[0].1.proxy);
}

#[test]
fn trie_matches_come_shortest_prefix_first() {
    let mut trie = IpTrie::new();
    trie.insert(&parse_cidr("10.10.10.0/24").unwrap(), flags_with(&["vpn"]));
    trie.insert(&parse_cidr("10.0.0.0/8").unwrap(), flags_with(&["proxy"]));
    trie.insert(&parse_cidr("10.10.0.0/16").unwrap(), flags_with(&["tor"]));
    let matches = trie.find_all_matches(&parse_ip("10.10.10.10").unwrap());
    assert_eq!(matches.len(), 3);
    assert!(matches[0].0.prefix < matches[1].0.prefix);
    assert!(matches[1].0.prefix < matches[2].0.prefix);
}

#[test]
fn trie_keeps_families_apart() {
    let mut trie = IpTrie::new();
    trie.insert(&parse_cidr("0.0.0.0/0").unwrap(), flags_with(&["proxy"]));
    trie.insert(&parse_cidr("::/0").unwrap(), flags_with(&["tor"]));
    let v4 = trie.find_all_matches(&parse_ip("9.9.9.9").unwrap());
    assert_eq!(v4.len(), 1);
    assert!(v4[0].1.proxy);
    let v6 = trie.find_all_matches(&parse_ip("2001:db8::9").unwrap());
    assert_eq!(v6.len(), 1);
    assert!(v6[0].1.tor);
}
