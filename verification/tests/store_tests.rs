use proxyd::{Database, Metadata, ReputationFlags};
use tempfile::TempDir;

struct TestContext {
    db: Database,
    #[allow(dead_code)]
    dir: TempDir,
}

impl TestContext {
    fn new() -> Self {
        let dir = TempDir::new().expect("failed to create temp directory");
        let db = Database::open(dir.path().to_str().unwrap()).expect("failed to open database");
        Self { db, dir }
    }

    fn insert_ip(&mut self, ip: &str, flags: ReputationFlags) {
        self.db.insert_record(ip, &flags).unwrap();
    }

    fn insert_cidr(&mut self, cidr: &str, flags: ReputationFlags) {
        self.db.insert_record(cidr, &flags).unwrap();
        self.db.rebuild_trie().unwrap();
    }

    fn insert_records(&mut self, records: &[(&str, ReputationFlags)]) {
        for (entry, flags) in records {
            self.db.insert_record(entry, flags).unwrap();
        }
        self.db.rebuild_trie().unwrap();
    }
}

fn flags(set: &[&str]) -> ReputationFlags {
    let mut f = ReputationFlags::default();
    for name in set {
        match *name {
            "anonblock" => f.anonblock = true,
            "proxy" => f.proxy = true,
            "vpn" => f.vpn = true,
            "cdn" => f.cdn = true,
            "public_wifi" => f.public_wifi = true,
            "rangeblock" => f.rangeblock = true,
            "school_block" => f.school_block = true,
            "tor" => f.tor = true,
            "webhost" => f.webhost = true,
            _ => panic!("unknown flag"),
        }
    }
    f
}

#[test]
fn test_insert_and_lookup_ipv4() {
    let mut ctx = TestContext::new();
    ctx.insert_ip("192.168.1.1", flags(&["proxy"]));

    let result = ctx
        .db
        .lookup_ip(&proxyd::parse_ip("192.168.1.1").unwrap())
        .unwrap();
    assert!(result.is_some());
    assert!(result.unwrap().proxy);
}

#[test]
fn test_insert_and_lookup_cidr() {
    let mut ctx = TestContext::new();
    ctx.insert_cidr("10.0.0.0/8", flags(&["cdn"]));

    let matches = ctx
        .db
        .find_matching_cidrs_fast(&proxyd::parse_ip("10.1.2.3").unwrap());
    assert_eq!(matches.len(), 1);
    assert!(matches[0].1.cdn);
}

#[test]
fn test_ipv6_support() {
    let mut ctx = TestContext::new();
    ctx.insert_ip("2001:db8::1", flags(&["tor"]));
    ctx.insert_cidr("2001:db8::/32", flags(&["tor"]));

    let result = ctx
        .db
        .lookup_ip(&proxyd::parse_ip("2001:db8::1").unwrap())
        .unwrap();
    assert!(result.is_some());

    let matches = ctx
        .db
        .find_matching_cidrs_fast(&proxyd::parse_ip("2001:db8::2").unwrap());
    assert_eq!(matches.len(), 1);
}

#[test]
fn single_ip_lookup() {
    let mut ctx = TestContext::new();
    ctx.insert_ip("192.168.1.100", flags(&["proxy", "vpn"]));

    let result = proxyd::lookup_ip(&ctx.db, "192.168.1.100").unwrap();

    assert!(result.found, "expected IP to be found");
    assert_eq!(result.query, "192.168.1.100");
    assert!(result.flags.proxy, "expected proxy flag to be set");
    assert!(result.flags.vpn, "expected vpn flag to be set");
    assert!(!result.flags.tor, "expected tor flag to be unset");
    assert_eq!(result.matched_entries.len(), 1);
}

#[test]
fn cidr_trie_lookup() {
    let mut ctx = TestContext::new();
    ctx.insert_cidr("10.0.0.0/8", flags(&["cdn", "webhost"]));

    let result = proxyd::lookup_ip(&ctx.db, "10.50.100.200").unwrap();

    assert!(result.found, "expected IP within CIDR to be found");
    assert!(result.flags.cdn, "expected cdn flag");
    assert!(result.flags.webhost, "expected webhost flag");
    assert_eq!(result.matched_entries.len(), 1);
    assert_eq!(result.matched_entries[0].entry, "10.0.0.0/8");
}

#[test]
fn combined_ip_and_cidr_lookup() {
    let mut ctx = TestContext::new();
    ctx.insert_cidr("172.16.0.0/12", flags(&["cdn"]));
    ctx.insert_ip("172.16.1.1", flags(&["proxy"]));

    let result = proxyd::lookup_ip(&ctx.db, "172.16.1.1").unwrap();

    assert!(result.found);
    assert!(result.flags.cdn, "expected cdn flag from CIDR");
    assert!(result.flags.proxy, "expected proxy flag from exact IP");
    assert_eq!(result.matched_entries.len(), 2, "expected both matches");
}

#[test]
fn nested_cidr_matching() {
    let mut ctx = TestContext::new();
    ctx.insert_records(&[
        ("192.0.0.0/8", flags(&["rangeblock"])),
        ("192.168.0.0/16", flags(&["tor"])),
    ]);

    let result = proxyd::lookup_ip(&ctx.db, "192.168.100.50").unwrap();

    assert!(result.found);
    assert!(result.flags.rangeblock, "expected broad CIDR flag");
    assert!(result.flags.tor, "expected narrow CIDR flag");
    assert_eq!(result.matched_entries.len(), 2);
}

#[test]
fn clear_and_reimport() {
    let mut ctx = TestContext::new();
    ctx.insert_ip("192.168.1.1", flags(&["proxy"]));

    assert!(proxyd::lookup_ip(&ctx.db, "192.168.1.1").unwrap().found);

    ctx.db.clear_all().unwrap();
    ctx.db.rebuild_trie().unwrap();

    assert!(!proxyd::lookup_ip(&ctx.db, "192.168.1.1").unwrap().found);

    ctx.insert_ip("10.0.0.1", flags(&["cdn"]));

    let result = proxyd::lookup_ip(&ctx.db, "10.0.0.1").unwrap();
    assert!(result.found);
    assert!(result.flags.cdn);
}

#[test]
fn delete_record() {
    let mut ctx = TestContext::new();
    ctx.insert_ip("192.168.1.1", flags(&["proxy"]));

    assert!(proxyd::lookup_ip(&ctx.db, "192.168.1.1").unwrap().found);

    let deleted = ctx.db.delete_record("192.168.1.1").unwrap();
    assert!(deleted, "expected record to be deleted");

    assert!(!proxyd::lookup_ip(&ctx.db, "192.168.1.1").unwrap().found);
}

#[test]
fn metadata_persistence() {
    let mut ctx = TestContext::new();

    let meta = Metadata {
        last_sync: Some(1700000000),
        csv_hash: Some("abc123".to_owned()),
        record_count: 1000,
    };
    ctx.db.set_metadata(&meta).unwrap();

    let retrieved = ctx.db.get_metadata().unwrap();
    assert_eq!(retrieved.last_sync, Some(1700000000));
    assert_eq!(retrieved.csv_hash, Some("abc123".to_owned()));
    assert_eq!(retrieved.record_count, 1000);
}

#[test]
fn get_all_entries() {
    let mut ctx = TestContext::new();
    ctx.insert_records(&[
        ("192.168.1.1", flags(&["proxy"])),
        ("10.0.0.0/8", flags(&["cdn"])),
        ("2001:db8::1", flags(&["tor"])),
    ]);

    let entries = ctx.db.get_all_entries().unwrap();
    assert_eq!(entries.len(), 3);

    let entry_strs: Vec<&str> = entries.iter().map(|(s, _)| s.as_str()).collect();
    assert!(entry_strs.contains(&"192.168.1.1"));
    assert!(entry_strs.contains(&"10.0.0.0/8"));
    assert!(entry_strs.contains(&"2001:db8::1"));
}

#[test]
fn health_check() {
    let ctx = TestContext::new();
    assert!(ctx.db.is_healthy());
}

#[test]
fn batch_ip_lookup() {
    let mut ctx = TestContext::new();
    ctx.insert_records(&[
        ("8.8.8.8", flags(&["proxy"])),
        ("1.1.1.1", flags(&["cdn"])),
        ("9.9.9.9", flags(&["vpn"])),
    ]);

    let ips: Vec<String> = ["8.8.8.8", "1.1.1.1", "9.9.9.9", "203.0.113.1"]
        .iter()
        .map(|s| s.to_string())
        .collect();
    let results = proxyd::lookup_ips_batch(&ctx.db, &ips).unwrap();

    assert_eq!(results.len(), 4);
    assert!(results[0].found && results[0].flags.proxy);
    assert!(results[1].found && results[1].flags.cdn);
    assert!(results[2].found && results[2].flags.vpn);
    assert!(!results[3].found);
}

#[test]
fn batch_range_lookup() {
    let mut ctx = TestContext::new();
    ctx.insert_records(&[
        ("10.0.0.0/8", flags(&["anonblock"])),
        ("172.16.0.0/12", flags(&["school_block"])),
    ]);

    let cidrs: Vec<String> = ["10.0.0.0/8", "172.16.0.0/12", "192.168.0.0/16"]
        .iter()
        .map(|s| s.to_string())
        .collect();
    let results = proxyd::lookup_ranges_batch(&ctx.db, &cidrs).unwrap();

    assert_eq!(results.len(), 3);
    assert!(results[0].found && results[0].flags.anonblock);
    assert!(results[1].found && results[1].flags.school_block);
    assert!(!results[2].found);
}

#[test]
fn empty_batch() {
    let ctx = TestContext::new();

    let empty_ips: Vec<String> = vec![];
    let results = proxyd::lookup_ips_batch(&ctx.db, &empty_ips).unwrap();
    assert!(results.is_empty());

    let empty_cidrs: Vec<String> = vec![];
    let results = proxyd::lookup_ranges_batch(&ctx.db, &empty_cidrs).unwrap();
    assert!(results.is_empty());
}

#[test]
fn single_item_batch() {
    let mut ctx = TestContext::new();
    ctx.insert_ip("1.2.3.4", flags(&["tor"]));

    let ips = vec!["1.2.3.4".to_string()];
    let results = proxyd::lookup_ips_batch(&ctx.db, &ips).unwrap();

    assert_eq!(results.len(), 1);
    assert!(results[0].found);
    assert!(results[0].flags.tor);
}

#[test]
fn batch_all_not_found() {
    let ctx = TestContext::new();

    let ips: Vec<String> = ["1.1.1.1", "2.2.2.2", "3.3.3.3"]
        .iter()
        .map(|s| s.to_string())
        .collect();
    let results = proxyd::lookup_ips_batch(&ctx.db, &ips).unwrap();

    assert_eq!(results.len(), 3);
    assert!(results.iter().all(|r| !r.found));
}

#[test]
fn ipv6_exact_and_cidr() {
    let mut ctx = TestContext::new();
    ctx.insert_records(&[
        ("2001:db8::1", flags(&["tor"])),
        ("2001:db8::/32", flags(&["vpn"])),
    ]);

    let result = proxyd::lookup_ip(&ctx.db, "2001:db8::1").unwrap();
    assert!(result.found);
    assert!(result.flags.tor);
    assert!(result.flags.vpn);

    let result = proxyd::lookup_ip(&ctx.db, "2001:db8::2").unwrap();
    assert!(result.found);
    assert!(!result.flags.tor);
    assert!(result.flags.vpn);

    let result = proxyd::lookup_ip(&ctx.db, "2001:db9::1").unwrap();
    assert!(!result.found);
}

#[test]
fn ipv6_full_address() {
    let mut ctx = TestContext::new();
    ctx.insert_ip(
        "2001:0db8:0000:0000:0000:0000:0000:0001",
        flags(&["proxy"]),
    );

    let result = proxyd::lookup_ip(&ctx.db, "2001:db8::1").unwrap();
    assert!(result.found);
    assert!(result.flags.proxy);
}

#[test]
fn ipv6_batch() {
    let mut ctx = TestContext::new();
    ctx.insert_records(&[
        ("2001:db8::1", flags(&["cdn"])),
        ("fe80::/10", flags(&["rangeblock"])),
    ]);

    let ips: Vec<String> = ["2001:db8::1", "fe80::1", "::1"]
        .iter()
        .map(|s| s.to_string())
        .collect();
    let results = proxyd::lookup_ips_batch(&ctx.db, &ips).unwrap();

    assert_eq!(results.len(), 3);
    assert!(results[0].found && results[0].flags.cdn);
    assert!(results[1].found && results[1].flags.rangeblock);
    assert!(!results[2].found);
}

#[test]
fn trie_fast_lookup_with_many_entries() {
    let mut ctx = TestContext::new();

    for i in 0..100u8 {
        let cidr = format!("{}.0.0.0/8", i);
        ctx.db.insert_record(&cidr, &flags(&["proxy"])).unwrap();
    }
    ctx.db.rebuild_trie().unwrap();

    for i in 0..100u8 {
        let ip_str = format!("{}.1.2.3", i);
        let ip = proxyd::parse_ip(&ip_str).unwrap();
        let matches = ctx.db.find_matching_cidrs_fast(&ip);
        assert_eq!(matches.len(), 1, "expected single match for {}", ip_str);
    }

    let no_match = proxyd::parse_ip("200.1.2.3").unwrap();
    let matches = ctx.db.find_matching_cidrs_fast(&no_match);
    assert!(matches.is_empty());
}

#[test]
fn trie_overlapping_cidrs() {
    let mut ctx = TestContext::new();
    ctx.insert_records(&[
        ("10.0.0.0/8", flags(&["anonblock"])),
        ("10.10.0.0/16", flags(&["proxy"])),
        ("10.10.10.0/24", flags(&["vpn"])),
    ]);

    let result = proxyd::lookup_ip(&ctx.db, "10.10.10.5").unwrap();
    assert!(result.found);
    assert_eq!(result.matched_entries.len(), 3, "expected all 3 CIDRs to match");
    assert!(result.flags.anonblock);
    assert!(result.flags.proxy);
    assert!(result.flags.vpn);

    let result = proxyd::lookup_ip(&ctx.db, "10.10.20.1").unwrap();
    assert!(result.found);
    assert_eq!(result.matched_entries.len(), 2, "expected 2 CIDRs to match");
    assert!(result.flags.anonblock);
    assert!(result.flags.proxy);
    assert!(!result.flags.vpn);

    let result = proxyd::lookup_ip(&ctx.db, "10.20.1.1").unwrap();
    assert!(result.found);
    assert_eq!(result.matched_entries.len(), 1);
    assert!(result.flags.anonblock);
}

#[test]
fn invalid_ip_address() {
    let ctx = TestContext::new();

    assert!(proxyd::lookup_ip(&ctx.db, "not-an-ip").is_err());
    assert!(proxyd::lookup_ip(&ctx.db, "256.256.256.256").is_err());
    assert!(proxyd::lookup_ip(&ctx.db, "999.999.999.999").is_err());
    assert!(proxyd::lookup_ip(&ctx.db, "").is_err());
    assert!(proxyd::lookup_ip(&ctx.db, "192.168.1").is_err());
    assert!(proxyd::lookup_ip(&ctx.db, "192.168.1.1.1").is_err());
}

#[test]
fn invalid_cidr() {
    let ctx = TestContext::new();

    assert!(proxyd::lookup_range(&ctx.db, "not-a-cidr").is_err());
    assert!(proxyd::lookup_range(&ctx.db, "192.168.1.0/33").is_err());
    assert!(proxyd::lookup_range(&ctx.db, "192.168.1.0/-1").is_err());
    assert!(proxyd::lookup_range(&ctx.db, "").is_err());
}

#[test]
fn batch_with_invalid_entry() {
    let ctx = TestContext::new();

    let ips: Vec<String> = ["1.1.1.1", "invalid", "2.2.2.2"]
        .iter()
        .map(|s| s.to_string())
        .collect();
    let result = proxyd::lookup_ips_batch(&ctx.db, &ips);
    assert!(result.is_err(), "batch should fail on invalid IP");

    let cidrs: Vec<String> = ["10.0.0.0/8", "invalid/cidr"]
        .iter()
        .map(|s| s.to_string())
        .collect();
    let result = proxyd::lookup_ranges_batch(&ctx.db, &cidrs);
    assert!(result.is_err(), "batch should fail on invalid CIDR");
}

#[test]
fn delete_nonexistent_record() {
    let mut ctx = TestContext::new();
    let deleted = ctx.db.delete_record("192.168.1.1").unwrap();
    assert!(!deleted, "expected delete to return false for nonexistent record");
}

#[test]
fn all_flags_set() {
    let mut ctx = TestContext::new();
    let all = flags(&[
        "anonblock", "proxy", "vpn", "cdn", "public_wifi", "rangeblock", "school_block", "tor",
        "webhost",
    ]);
    ctx.insert_ip("1.2.3.4", all);

    let result = proxyd::lookup_ip(&ctx.db, "1.2.3.4").unwrap();
    assert!(result.found);
    assert!(result.flags.anonblock);
    assert!(result.flags.proxy);
    assert!(result.flags.vpn);
    assert!(result.flags.cdn);
    assert!(result.flags.public_wifi);
    assert!(result.flags.rangeblock);
    assert!(result.flags.school_block);
    assert!(result.flags.tor);
    assert!(result.flags.webhost);
}

#[test]
fn flags_merge_from_multiple_sources() {
    let mut ctx = TestContext::new();
    ctx.insert_records(&[
        ("10.0.0.0/8", flags(&["anonblock", "proxy"])),
        ("10.10.0.0/16", flags(&["vpn", "cdn"])),
        ("10.10.10.10", flags(&["tor", "webhost"])),
    ]);

    let result = proxyd::lookup_ip(&ctx.db, "10.10.10.10").unwrap();
    assert!(result.found);
    assert_eq!(result.matched_entries.len(), 3);

    assert!(result.flags.anonblock);
    assert!(result.flags.proxy);
    assert!(result.flags.vpn);
    assert!(result.flags.cdn);
    assert!(result.flags.tor);
    assert!(result.flags.webhost);

    assert!(!result.flags.public_wifi);
    assert!(!result.flags.rangeblock);
    assert!(!result.flags.school_block);
}

#[test]
fn full_import_loads_every_record_and_the_metadata() {
    let mut ctx = TestContext::new();
    let csv = "ip,proxy,vpn\n192.168.1.1,true,false\n10.0.0.0/8,false,true";
    let hash = proxyd::compute_hash(csv);
    let n = proxyd::full_import(&mut ctx.db, csv, &hash, 1700000000).unwrap();
    assert_eq!(n, 2);

    let meta = ctx.db.get_metadata().unwrap();
    assert_eq!(meta.record_count, 2);
    assert_eq!(meta.last_sync, Some(1700000000));
    assert_eq!(meta.csv_hash, Some(hash));

    let result = proxyd::lookup_ip(&ctx.db, "10.1.2.3").unwrap();
    assert!(result.found);
    assert!(result.flags.vpn);
}

#[test]
fn incremental_import_counts_the_diff() {
    let mut ctx = TestContext::new();
    let first = "ip,proxy,vpn\n1.1.1.1,true,false\n2.2.2.2,false,true";
    let h1 = proxyd::compute_hash(first);
    proxyd::full_import(&mut ctx.db, first, &h1, 100).unwrap();

    let second = "ip,proxy,vpn\n2.2.2.2,true,true\n3.3.3.3,false,false";
    let h2 = proxyd::compute_hash(second);
    let (added, updated, deleted) =
        proxyd::incremental_import(&mut ctx.db, second, &h2, 200).unwrap();
    assert_eq!((added, updated, deleted), (1, 1, 1));

    assert!(!proxyd::lookup_ip(&ctx.db, "1.1.1.1").unwrap().found);
    assert!(proxyd::lookup_ip(&ctx.db, "2.2.2.2").unwrap().flags.proxy);
    assert!(proxyd::lookup_ip(&ctx.db, "3.3.3.3").unwrap().found);
}

#[test]
fn incremental_import_twice_changes_nothing() {
    let mut ctx = TestContext::new();
    let csv = "ip,proxy,vpn\n1.1.1.1,true,false\n10.0.0.0/8,false,true\n2001:db8::/32,true,true";
    let h = proxyd::compute_hash(csv);
    proxyd::full_import(&mut ctx.db, csv, &h, 100).unwrap();

    let counts = proxyd::incremental_import(&mut ctx.db, csv, &h, 200).unwrap();
    assert_eq!(counts, (0, 0, 0));
}

#[test]
fn oversized_batches_are_rejected() {
    let ctx = TestContext::new();
    let ips: Vec<String> = (0..1001).map(|_| "1.2.3.4".to_string()).collect();
    let r = proxyd::batch_lookup_ip(&ctx.db, &ips);
    assert!(matches!(r, Err(proxyd::LookupError::BatchTooLarge)));

    let ok: Vec<String> = (0..3).map(|_| "1.2.3.4".to_string()).collect();
    assert!(proxyd::batch_lookup_ip(&ctx.db, &ok).is_ok());
    assert!(proxyd::batch_lookup_range(&ctx.db, &ips).is_err());
}

#[test]
fn unparseable_entries_are_ignored_on_insert() {
    let mut ctx = TestContext::new();
    ctx.db.insert_record("not-an-entry", &flags(&["proxy"])).unwrap();
    assert_eq!(ctx.db.get_all_entries().unwrap().len(), 0);
    assert!(ctx.db.is_empty().unwrap());
}

#[test]
fn lookup_range_finds_only_the_exact_range() {
    let mut ctx = TestContext::new();
    ctx.insert_cidr("10.0.0.0/8", flags(&["cdn"]));

    let hit = proxyd::lookup_range(&ctx.db, "10.0.0.0/8").unwrap();
    assert!(hit.found);
    assert_eq!(hit.matched_entries.len(), 1);
    assert!(hit.flags.cdn);

    let miss = proxyd::lookup_range(&ctx.db, "10.0.0.0/9").unwrap();
    assert!(!miss.found);

    let canonicalized = proxyd::lookup_range(&ctx.db, "10.1.2.3/8").unwrap();
    assert!(canonicalized.found, "host bits are cleared before the probe");
}
