//! Lookups over a dataset built from records.

use asinfo::{build, count, iter, lookup, AsInfo, Country, Table};
use std::sync::OnceLock;

const COUNTRIES: [&str; 6] = ["US", "DE", "BR", "JP", "NL", "ZA"];
const DESCRIPTIONS: [&str; 5] = [
    "Level 3 Parent LLC",
    "Telefônica Brasil S.A.",
    "Deutsche Telekom AG",
    "Internet Initiative Japan Inc.",
    "Hosting provider",
];

/// ASN, handle, description, country of each record of the test dataset:
/// a few real entries and many generated ones, in no particular order.
fn records() -> Vec<(u32, String, String, &'static str)> {
    let mut out = vec![
        (3856, "PCH-AS".to_string(), "Packet Clearing House Inc.".to_string(), "US"),
        (0, "IANA-RSVD-0".to_string(), "Reserved AS".to_string(), "US"),
        (3356, "LEVEL3".to_string(), "Level 3 Parent LLC".to_string(), "US"),
    ];
    for n in 0..120_000u32 {
        let asn = 10_000 + n * 7;
        let handle = format!("AS-{}", n % 50_000);
        let description = DESCRIPTIONS[(n % 5) as usize].to_string();
        let country = COUNTRIES[(n % 6) as usize];
        out.push((asn, handle, description, country));
    }
    out
}

fn dataset() -> &'static Table {
    static TABLE: OnceLock<Table> = OnceLock::new();
    TABLE.get_or_init(|| {
        let recs = records();
        let rows: Vec<AsInfo> = recs
            .iter()
            .map(|(asn, h, d, c)| AsInfo {
                asn: *asn,
                handle: h.as_str(),
                description: d.as_str(),
                country: Country::from_code(c).unwrap(),
            })
            .collect();
        build(&rows).unwrap()
    })
}

#[test]
fn asn_zero_is_iana() {
    let t = dataset();
    let info = lookup(t, 0).unwrap();
    assert_eq!(info.asn, 0);
    assert_eq!(info.handle, "IANA-RSVD-0");
    assert_eq!(info.country.as_str(), "US");
}

#[test]
fn table_is_consistent() {
    let t = dataset();
    assert_eq!(t.index().len() % 12, 0);
    assert_eq!(iter(t).into_iter().count(), count(t));
    assert!(count(t) > 100_000, "dataset suspiciously small: {}", count(t));
}

#[test]
fn first_and_last_round_trip() {
    let t = dataset();
    let first = iter(t).into_iter().next().unwrap();
    assert_eq!(lookup(t, first.asn), Some(first));
    let last = iter(t).into_iter().last().unwrap();
    assert_eq!(lookup(t, last.asn), Some(last));
}

#[test]
fn missing_asns_return_none() {
    let t = dataset();
    assert!(lookup(t, u32::MAX).is_none());
    let last_asn = iter(t).into_iter().last().unwrap().asn;
    assert!(lookup(t, last_asn + 1).is_none());
}

#[test]
fn asns_strictly_increasing() {
    let t = dataset();
    let mut prev = None;
    for info in iter(t) {
        if let Some(prev) = prev {
            assert!(info.asn > prev, "ASN {} not after {prev}", info.asn);
        }
        prev = Some(info.asn);
    }
}

#[test]
fn all_entries_well_formed() {
    let t = dataset();
    for info in iter(t) {
        assert!(!info.handle.is_empty(), "ASN {} has empty handle", info.asn);
        assert!(
            !info.description.is_empty(),
            "ASN {} has empty description",
            info.asn
        );
        assert!(
            info.country
                .as_bytes()
                .iter()
                .all(|b| b.is_ascii_uppercase()),
            "ASN {} has bad country {:?}",
            info.asn,
            info.country
        );
        assert_eq!(lookup(t, info.asn), Some(info));
    }
}

#[test]
fn readme_example_lookup() {
    let t = dataset();
    let info = lookup(t, 3856).unwrap();
    assert_eq!(info.asn, 3856);
    assert_eq!(info.description, "Packet Clearing House Inc.");
    assert_eq!(info.handle, "PCH-AS");
    assert_eq!(info.country.as_str(), "US");
    let line = format!(
        "AS{}: {} ({}) [{}]",
        info.asn,
        info.description,
        info.handle,
        info.country.to_string()
    );
    assert_eq!(line, "AS3856: Packet Clearing House Inc. (PCH-AS) [US]");
}

#[test]
fn every_record_round_trips() {
    let t = dataset();
    for (asn, h, d, c) in records() {
        let info = lookup(t, asn).unwrap();
        assert_eq!(info.asn, asn);
        assert_eq!(info.handle, h);
        assert_eq!(info.description, d);
        assert_eq!(info.country.as_str(), c);
    }
    assert_eq!(count(t), records().len());
}

#[test]
fn gaps_between_records_return_none() {
    let t = dataset();
    for n in 0..1000u32 {
        let asn = 10_000 + n * 7;
        assert!(lookup(t, asn + 1).is_none());
        assert!(lookup(t, asn + 6).is_none());
    }
    assert!(lookup(t, 1).is_none());
    assert!(lookup(t, 9_999).is_none());
}
