use keyspace_stats::text::{split_on, str_to_i64, str_to_u64};
use keyspace_stats::{KeyspaceId, KeyspaceInfo, KeyspacesInfo};

#[test]
fn keyspace_id_round_trip() {
    assert_eq!(KeyspaceId::new(7).as_i64(), 7);
    assert_eq!(KeyspaceId::new(-1).as_i64(), -1);
}

#[test]
fn info_from_str() {
    assert!(KeyspaceInfo::is_well_formed("keys=12,expires=3,avg_ttl=4500"));
    let info = KeyspaceInfo::from_str("keys=12,expires=3,avg_ttl=4500");
    assert_eq!(info, KeyspaceInfo { keys: 12, expires: 3, avg_ttl: 4500 });
}

#[test]
fn info_ignores_unknown_fields_and_last_wins() {
    let info = KeyspaceInfo::from_str("subexpiry=0,keys=1,keys=2,avg_ttl=0,expires=+9");
    assert_eq!(info, KeyspaceInfo { keys: 2, expires: 9, avg_ttl: 0 });
}

#[test]
fn info_errors() {
    assert!(!KeyspaceInfo::is_well_formed(""));
    assert!(!KeyspaceInfo::is_well_formed("keys=1,expires=2"));
    assert!(!KeyspaceInfo::is_well_formed("keys=1,expires=2,avg_ttl=x"));
    assert!(!KeyspaceInfo::is_well_formed("keys=abc,expires=0,avg_ttl=0"));
    assert!(!KeyspaceInfo::is_well_formed("keys=1,expires,avg_ttl=3"));
    assert!(!KeyspaceInfo::is_well_formed("keys=1,junk,expires=0,avg_ttl=0"));
    assert!(!KeyspaceInfo::is_well_formed("keys=-1,expires=2,avg_ttl=3"));
    assert!(!KeyspaceInfo::is_well_formed("keys=18446744073709551616,expires=2,avg_ttl=3"));
}

#[test]
fn report_parse() {
    let report = "# Keyspace\r\ndb0:keys=5,expires=0,avg_ttl=0\r\n\r\ndb12:keys=7,expires=1,avg_ttl=2\n";
    assert!(KeyspacesInfo::is_well_formed(report));
    let parsed = KeyspacesInfo::parse(report);
    assert_eq!(parsed.keyspaces.len(), 2);
    assert_eq!(parsed.keyspaces[0], (KeyspaceId(0), KeyspaceInfo { keys: 5, expires: 0, avg_ttl: 0 }));
    assert_eq!(parsed.keyspaces[1], (KeyspaceId(12), KeyspaceInfo { keys: 7, expires: 1, avg_ttl: 2 }));
    assert_eq!(KeyspacesInfo::parse("").keyspaces.len(), 0);
}

#[test]
fn report_skips_every_comment_line() {
    let report = "#\n# Keyspace\n#anything: at all\ndb1:keys=1,expires=0,avg_ttl=0";
    assert!(KeyspacesInfo::is_well_formed(report));
    let parsed = KeyspacesInfo::parse(report);
    assert_eq!(parsed.keyspaces, vec![(KeyspaceId(1), KeyspaceInfo { keys: 1, expires: 0, avg_ttl: 0 })]);
}

#[test]
fn report_lists_each_namespace_once() {
    let report = "db1:keys=1,expires=0,avg_ttl=0\ndb2:keys=2,expires=0,avg_ttl=0\ndb1:keys=9,expires=0,avg_ttl=0";
    let parsed = KeyspacesInfo::parse(report);
    assert_eq!(parsed.keyspaces.len(), 2);
    assert!(parsed.keyspaces.contains(&(KeyspaceId(1), KeyspaceInfo { keys: 9, expires: 0, avg_ttl: 0 })));
    assert!(parsed.keyspaces.contains(&(KeyspaceId(2), KeyspaceInfo { keys: 2, expires: 0, avg_ttl: 0 })));
}

#[test]
fn report_errors() {
    assert!(!KeyspacesInfo::is_well_formed("xx0:keys=1,expires=0,avg_ttl=0"));
    assert!(!KeyspacesInfo::is_well_formed("db0"));
    assert!(!KeyspacesInfo::is_well_formed("dbx:keys=1,expires=0,avg_ttl=0"));
    assert!(!KeyspacesInfo::is_well_formed("db1:keys=1"));
    assert!(!KeyspacesInfo::is_well_formed(" # not a comment"));
}

#[test]
fn number_parsing() {
    assert_eq!(str_to_u64("18446744073709551615"), Some(u64::MAX));
    assert_eq!(str_to_u64("+5"), Some(5));
    assert_eq!(str_to_u64("+"), None);
    assert_eq!(str_to_u64(""), None);
    assert_eq!(str_to_i64("-9223372036854775808"), Some(i64::MIN));
    assert_eq!(str_to_i64("9223372036854775808"), None);
    assert_eq!(str_to_i64("-12"), Some(-12));
}

#[test]
fn splitting() {
    assert_eq!(split_on("a,,b", ','), vec!["a", "", "b"]);
    assert_eq!(split_on("", ','), vec![""]);
}
