//! Validates a table built from CSV text against an independent parse of
//! that text: every row must round-trip through `lookup`, and ASNs absent
//! from the CSV must return `None`.

use asinfo::dataset::load_table;
use asinfo::{count, lookup};
use std::collections::BTreeSet;

const HEAD: &str = "asn,handle,description,country-code
0,IANA-RSVD-0,Reserved AS,US
1,LVLT-1,Level 3 Parent LLC,US
3356,LEVEL3,Level 3 Parent LLC,US
3856,PCH-AS,\"Packet Clearing House, Inc.\",US
3320,DTAG,Deutsche Telekom AG,DE
18881,TELEFONICA BRASIL S.A,Telefônica Brasil S.A.,BR
";

fn csv_text() -> String {
    let mut text = HEAD.to_string();
    for n in 0..20_000u32 {
        let asn = 100_000 + n * 11;
        text.push_str(&format!("{asn},NET-{n},Network number {},NL\n", n % 300));
    }
    text
}

#[test]
fn every_csv_row_round_trips() {
    let text = csv_text();

    // The table, built as the library's users build it.
    let table = load_table(text.as_bytes()).unwrap();

    // An independent pass over the same text.
    let mut reader = csv::Reader::from_reader(text.as_bytes());
    let mut asns = BTreeSet::new();
    let mut rows = 0usize;

    for record in reader.records() {
        let record = record.unwrap();
        let asn: u32 = record[0].parse().unwrap();
        let info = lookup(&table, asn)
            .unwrap_or_else(|| panic!("ASN {asn} from CSV missing in embedded table"));
        assert_eq!(info.asn, asn);
        assert_eq!(info.handle, &record[1], "handle mismatch for ASN {asn}");
        assert_eq!(
            info.description, &record[2],
            "description mismatch for ASN {asn}"
        );
        assert_eq!(
            info.country.as_str(),
            &record[3],
            "country mismatch for ASN {asn}"
        );
        asns.insert(asn);
        rows += 1;
    }

    assert_eq!(rows, count(&table), "entry count mismatch");

    // Probe the gaps: ASNs not in the CSV must not resolve.
    let max = *asns.last().unwrap();
    for asn in (0..=max).step_by(1013) {
        if !asns.contains(&asn) {
            assert!(
                lookup(&table, asn).is_none(),
                "ASN {asn} not in CSV but found in embedded table"
            );
        }
    }
}

#[test]
fn csv_text_with_bom_and_quotes_loads() {
    let text = "\u{feff}asn,handle,description,country-code\n7,\"A,B\",\"say \"\"hi\"\"\",SE\n";
    let table = load_table(text.as_bytes()).unwrap();
    let info = lookup(&table, 7).unwrap();
    assert_eq!(info.handle, "A,B");
    assert_eq!(info.description, "say \"hi\"");
    assert_eq!(info.country.as_str(), "SE");
    assert_eq!(count(&table), 1);
}
