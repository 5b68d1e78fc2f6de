//! The tables that `build` lays out, its errors, and the record parser.

use asinfo::dataset::{dataset_rows, load_table, DatasetError};
use asinfo::record::{is_expected_header, parse_record, parse_u32, RecordError};
use asinfo::varint::put_varint;
use asinfo::{build, count, iter, lookup, AsInfo, BuildError, Country};

fn row<'a>(asn: u32, handle: &'a str, description: &'a str, country: &str) -> AsInfo<'a> {
    AsInfo { asn, handle, description, country: Country::from_code(country).unwrap() }
}

#[test]
fn small_table_exact_bytes() {
    let rows = vec![row(5, "A", "X", "US"), row(3, "B", "X", "DE"), row(9, "A", "Y", "US")];
    let t = build(&rows).unwrap();
    assert_eq!(t.countries(), b"USDE");
    assert_eq!(t.strings(), b"BXAY");
    assert_eq!(t.stream(), &[2, 2, 1, 2, 2, 3, 2, 0, 4, 3, 1, 2, 0]);
    assert_eq!(t.index(), &[3, 0, 0, 0, 0, 0, 0, 0, 0, 0, 0, 0]);
    assert_eq!(count(&t), 3);
    let all = iter(&t);
    assert_eq!(all.iter().map(|i| i.asn).collect::<Vec<_>>(), vec![3, 5, 9]);
    assert_eq!(lookup(&t, 9).unwrap().description, "Y");
    assert_eq!(lookup(&t, 3).unwrap().country.as_str(), "DE");
    assert!(lookup(&t, 4).is_none());
    assert!(lookup(&t, 2).is_none());
    assert!(lookup(&t, 10).is_none());
}

#[test]
fn tables_do_not_depend_on_input_order() {
    let a = vec![
        row(7, "K", "same", "FR"),
        row(2, "L", "other", "DE"),
        row(11, "K", "same", "DE"),
        row(5, "M", "same", "FR"),
    ];
    let b = vec![a[2], a[0], a[3], a[1]];
    let ta = build(&a).unwrap();
    let tb = build(&b).unwrap();
    assert_eq!(ta.stream(), tb.stream());
    assert_eq!(ta.index(), tb.index());
    assert_eq!(ta.strings(), tb.strings());
    // DE and FR are as frequent; the tie goes to the code.
    assert_eq!(ta.countries(), b"DEFR");
    assert_eq!(tb.countries(), b"DEFR");
}

#[test]
fn index_entries_at_block_starts() {
    let names: Vec<String> = (0..70).map(|n| format!("H{n}")).collect();
    let rows: Vec<AsInfo> = names
        .iter()
        .enumerate()
        .map(|(n, h)| row(1000 + n as u32 * 3, h, "same", "NL"))
        .collect();
    let t = build(&rows).unwrap();
    // 70 records make three blocks of 32.
    assert_eq!(t.index().len(), 36);
    let entry = |b: usize| {
        let e = &t.index()[b * 12..b * 12 + 12];
        (
            u32::from_le_bytes(e[0..4].try_into().unwrap()),
            u32::from_le_bytes(e[4..8].try_into().unwrap()),
            u32::from_le_bytes(e[8..12].try_into().unwrap()),
        )
    };
    assert_eq!(entry(0), (1000, 0, 0));
    assert_eq!(entry(1).0, 1000 + 32 * 3);
    assert_eq!(entry(2).0, 1000 + 64 * 3);
    // Handles "H0".."H31" and one copy of "same" come before block 1.
    assert_eq!(entry(1).2 as usize, (0..32).map(|n: usize| format!("H{n}").len()).sum::<usize>() + 4);
    for n in 0..70u32 {
        let info = lookup(&t, 1000 + n * 3).unwrap();
        assert_eq!(info.handle, format!("H{n}"));
        assert_eq!(info.description, "same");
        assert!(lookup(&t, 1001 + n * 3).is_none());
    }
}

#[test]
fn strings_are_stored_once() {
    let rows = vec![
        row(1, "SAME", "SAME", "US"),
        row(2, "SAME", "other", "US"),
        row(3, "other", "SAME", "US"),
    ];
    let t = build(&rows).unwrap();
    assert_eq!(t.strings(), b"SAMEother");
    for asn in 1..=3 {
        assert!(lookup(&t, asn).is_some());
    }
}

#[test]
fn non_ascii_strings_round_trip() {
    let rows = vec![row(7, "TELEFÔNICA", "Telefônica Brasil S.A.", "BR"), row(8, "Ĳ", "日本", "JP")];
    let t = build(&rows).unwrap();
    assert_eq!(lookup(&t, 7).unwrap().description, "Telefônica Brasil S.A.");
    assert_eq!(lookup(&t, 8).unwrap().handle, "Ĳ");
    assert_eq!(lookup(&t, 8).unwrap().description, "日本");
}

#[test]
fn countries_most_frequent_first() {
    let rows = vec![
        row(1, "a", "a", "ZA"),
        row(2, "a", "a", "DE"),
        row(3, "a", "a", "ZA"),
        row(4, "a", "a", "BR"),
        row(5, "a", "a", "DE"),
        row(6, "a", "a", "AR"),
    ];
    let t = build(&rows).unwrap();
    assert_eq!(t.countries(), b"DEZAARBR");
}

#[test]
fn empty_dataset_is_refused() {
    let rows: Vec<AsInfo> = Vec::new();
    assert_eq!(build(&rows).err(), Some(BuildError::NoRows));
}

#[test]
fn duplicate_asn_is_refused() {
    let rows = vec![
        row(9, "a", "a", "US"),
        row(4, "b", "b", "US"),
        row(9, "c", "c", "US"),
        row(4, "d", "d", "US"),
        row(1, "e", "e", "US"),
    ];
    assert_eq!(build(&rows).err(), Some(BuildError::DuplicateAsn(4)));
}

#[test]
fn varint_encodings() {
    let cases: [(u32, &[u8]); 6] = [
        (0, &[0]),
        (127, &[0x7F]),
        (128, &[0x80, 0x01]),
        (300, &[0xAC, 0x02]),
        (16_384, &[0x80, 0x80, 0x01]),
        (u32::MAX, &[0xFF, 0xFF, 0xFF, 0xFF, 0x0F]),
    ];
    for (v, bytes) in cases {
        let mut out = vec![9u8];
        put_varint(&mut out, v);
        assert_eq!(&out[1..], bytes, "encoding of {v}");
        assert_eq!(out[0], 9);
    }
}

#[test]
fn country_codes() {
    assert_eq!(Country::from_code("US").unwrap().as_str(), "US");
    assert_eq!(Country::from_code("US").unwrap().as_bytes(), *b"US");
    assert!(Country::from_code("us").is_none());
    assert!(Country::from_code("USA").is_none());
    assert!(Country::from_code("U").is_none());
    assert!(Country::from_code("Ü1").is_none());
    assert!(Country::from_code("").is_none());
}

#[test]
fn decimal_asns() {
    assert_eq!(parse_u32("0"), Some(0));
    assert_eq!(parse_u32("3856"), Some(3856));
    assert_eq!(parse_u32("+12"), Some(12));
    assert_eq!(parse_u32("0004294967295"), Some(u32::MAX));
    assert_eq!(parse_u32("4294967296"), None);
    assert_eq!(parse_u32("99999999999999999999"), None);
    assert_eq!(parse_u32(""), None);
    assert_eq!(parse_u32("+"), None);
    assert_eq!(parse_u32("-1"), None);
    assert_eq!(parse_u32(" 1"), None);
    assert_eq!(parse_u32("12a"), None);
    for s in ["0", "42", "+7", "4294967295", "4294967296", "", "x", "1_0"] {
        assert_eq!(parse_u32(s), s.parse::<u32>().ok(), "{s:?}");
    }
}

#[test]
fn csv_header_and_records() {
    assert!(is_expected_header(&["asn", "handle", "description", "country-code"]));
    assert!(!is_expected_header(&["asn", "handle", "description"]));
    assert!(!is_expected_header(&["asn", "handle", "description", "country"]));
    let info = parse_record(&["3856", "PCH-AS", "Packet Clearing House Inc.", "US"]).unwrap();
    assert_eq!(info.asn, 3856);
    assert_eq!(info.handle, "PCH-AS");
    assert_eq!(info.description, "Packet Clearing House Inc.");
    assert_eq!(info.country.as_str(), "US");
    assert_eq!(parse_record(&["1", "a", "b"]).err(), Some(RecordError::FieldCount(3)));
    assert_eq!(parse_record(&["x", "a", "b", "US"]).err(), Some(RecordError::BadAsn));
    assert_eq!(parse_record(&["1", "a", "b", "us"]).err(), Some(RecordError::BadCountry));
}

fn load_err(text: &str) -> DatasetError {
    match load_table(text.as_bytes()) {
        Ok(_) => panic!("loaded"),
        Err(e) => e,
    }
}

#[test]
fn dataset_errors() {
    let head = "asn,handle,description,country-code\n";
    assert_eq!(load_err("asn,handle,description\n1,a,b\n"), DatasetError::BadHeader);
    assert_eq!(load_err(""), DatasetError::BadHeader);
    assert_eq!(load_err("asn,handle,descr,country-code\n"), DatasetError::BadHeader);
    assert_eq!(load_err(&format!("{head}1,a,b,US\n2,a,b\n")), DatasetError::Csv);
    assert_eq!(load_err(&format!("{head}1,a,b,US\nx,a,b,US\n")), DatasetError::BadRecord(3, RecordError::BadAsn));
    assert_eq!(load_err(&format!("{head}1,a,b,us\n")), DatasetError::BadRecord(2, RecordError::BadCountry));
    assert_eq!(load_err(head), DatasetError::Build(BuildError::NoRows));
    assert_eq!(
        load_err(&format!("{head}4,a,b,US\n4,c,d,DE\n")),
        DatasetError::Build(BuildError::DuplicateAsn(4))
    );
}

#[test]
fn dataset_rows_follow_the_header() {
    let records: Vec<Vec<String>> = vec![
        vec!["asn".into(), "handle".into(), "description".into(), "country-code".into()],
        vec!["+12".into(), "H".into(), "D".into(), "FI".into()],
        vec!["3".into(), "H".into(), "E".into(), "NO".into(), "extra".into()],
    ];
    assert_eq!(dataset_rows(&records).err(), Some(DatasetError::BadRecord(3, RecordError::FieldCount(5))));
    let rows = dataset_rows(&records[..2]).unwrap();
    assert_eq!(rows.len(), 1);
    assert_eq!(rows[0].asn, 12);
    assert_eq!(rows[0].handle, "H");
    assert_eq!(rows[0].country.as_str(), "FI");
}
