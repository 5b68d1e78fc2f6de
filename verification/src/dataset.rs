//! Reading a dataset from the text of its CSV file: a header line
//! `asn,handle,description,country-code`, then one record per line.
use vstd::prelude::*;
use vstd::utf8::encode_utf8;
use crate::encode::{
    build, fits_format, has_duplicate, layout_of, least_duplicate, views, BuildError,
};
use crate::format::{is_country_code, strictly_sorted, AsInfoView};
use crate::record::{
    expected_header, is_expected_header, parse_record, spec_parse_u32, RecordError,
};
use crate::{AsInfo, Table};

verus! {

/// The records of the CSV text `text`, the header included, each a list of
/// its fields, as the `csv` crate reads them: a UTF-8 byte order mark at
/// the start is skipped, fields may be quoted, and every record must have
/// as many fields as the first. `None` when the crate reports an error.
pub uninterp spec fn csv_fields(text: Seq<u8>) -> Option<Seq<Seq<Seq<char>>>>;

/// The pieces of `s` between its bytes `sep`: one more than there are
/// separators.
pub open spec fn pieces(s: Seq<u8>, sep: u8) -> Seq<Seq<u8>>
    decreases s.len(),
{
    if s.len() == 0 {
        seq![Seq::<u8>::empty()]
    } else {
        let p = pieces(s.drop_last(), sep);
        if s.last() == sep {
            p.push(Seq::<u8>::empty())
        } else {
            p.update(p.len() - 1, p.last().push(s.last()))
        }
    }
}

/// How many bytes of `s` are `b`.
pub open spec fn count_byte(s: Seq<u8>, b: u8) -> nat
    decreases s.len(),
{
    if s.len() == 0 {
        0
    } else {
        count_byte(s.drop_last(), b) + if s.last() == b {
            1nat
        } else {
            0nat
        }
    }
}

/// Text in the plainest form of CSV: ASCII without quotes (`"`) or carriage
/// returns, in non-empty lines that each end with a newline.
pub open spec fn plain_csv(text: Seq<u8>) -> bool {
    &&& forall|i: int| 0 <= i < text.len() ==> #[trigger] text[i] < 128 && text[i] != 34 && text[i] != 13
    &&& text.len() > 0 ==> text.last() == 10 && text[0] != 10
    &&& forall|i: int| 0 <= i < text.len() - 1 ==> !(#[trigger] text[i] == 10 && text[i + 1] == 10)
}

/// The records of plain CSV text: its lines, each cut at its commas.
pub open spec fn plain_records(text: Seq<u8>) -> Seq<Seq<Seq<char>>> {
    if text.len() == 0 {
        seq![]
    } else {
        pieces(text.drop_last(), 10).map_values(
            |line: Seq<u8>| pieces(line, 44).map_values(|f: Seq<u8>| f.map_values(|b: u8| b as char)),
        )
    }
}

/// Every record has as many fields as the first.
pub open spec fn same_width(recs: Seq<Seq<Seq<char>>>) -> bool {
    forall|i: int| 0 <= i < recs.len() ==> #[trigger] recs[i].len() == recs[0].len()
}

/// There is one more piece than there are separators.
proof fn lemma_pieces_len(s: Seq<u8>, sep: u8)
    ensures
        pieces(s, sep).len() == count_byte(s, sep) + 1,
    decreases s.len(),
{
    if s.len() > 0 {
        lemma_pieces_len(s.drop_last(), sep);
    }
}

/// Plain CSV text has one record per line: as many as it has newlines.
pub proof fn lemma_plain_records_are_lines(text: Seq<u8>)
    requires
        plain_csv(text),
    ensures
        plain_records(text).len() == count_byte(text, 10),
{
    if text.len() > 0 {
        lemma_pieces_len(text.drop_last(), 10);
    }
}

/// The fields of a list of records, as text.
pub open spec fn fields_view(r: Seq<Vec<String>>) -> Seq<Seq<Seq<char>>> {
    r.map_values(|rec: Vec<String>| rec@.map_values(|f: String| f@))
}

/// Calls the `csv` crate's reader, with no header row, on `text` and
/// collects every record as a list of owned fields. Claimed of it: the
/// records it returns are what `csv_fields` names for that text, and it
/// returns `None` exactly when the crate reports an error (invalid CSV or
/// UTF-8, or a record whose field count differs from the first one's).
/// For plain CSV text the crate's documented reading is stated outright:
/// one record per line, its fields the pieces between commas, and an error
/// only when the lines have different numbers of fields.
#[verifier::external_body]
fn read_csv(text: &[u8]) -> (res: Option<Vec<Vec<String>>>)
    ensures
        res is None <==> csv_fields(text@) is None,
        res matches Some(r) ==> csv_fields(text@) == Some(fields_view(r@)),
        plain_csv(text@) ==> (res is None <==> !same_width(plain_records(text@))),
        plain_csv(text@) ==> (res matches Some(r) ==> fields_view(r@) == plain_records(text@)),
{
    let mut reader = csv::ReaderBuilder::new().has_headers(false).from_reader(text);
    let mut out = Vec::new();
    for record in reader.records() {
        match record {
            Ok(r) => out.push(r.iter().map(|f| f.to_string()).collect()),
            Err(_) => return None,
        }
    }
    Some(out)
}

/// Why the text of a dataset does not give a table.
#[derive(Debug, Clone, Copy, PartialEq, Eq)]
pub enum DatasetError {
    /// The text is not valid CSV.
    Csv,
    /// The first record is not the expected header.
    BadHeader,
    /// The record on this line (the header is line 1) is not a valid row.
    BadRecord(usize, RecordError),
    /// The rows do not make a table.
    Build(BuildError),
}

/// The dataset row that a record with fields `f` holds, or why it holds
/// none.
pub open spec fn spec_record(f: Seq<Seq<char>>) -> Result<AsInfoView, RecordError> {
    if f.len() != 4 {
        Err(RecordError::FieldCount(f.len() as usize))
    } else {
        match spec_parse_u32(encode_utf8(f[0])) {
            None => Err(RecordError::BadAsn),
            Some(asn) => if is_country_code(encode_utf8(f[3])) {
                Ok(AsInfoView { asn, handle: f[1], description: f[2], country: encode_utf8(f[3]) })
            } else {
                Err(RecordError::BadCountry)
            },
        }
    }
}

/// The records start with the expected header.
pub open spec fn header_ok(recs: Seq<Seq<Seq<char>>>) -> bool {
    recs.len() > 0 && recs[0] == expected_header()
}

/// The header is right and every later record is a valid row.
pub open spec fn rows_ok(recs: Seq<Seq<Seq<char>>>) -> bool {
    &&& header_ok(recs)
    &&& forall|r: int| 1 <= r < recs.len() ==> (#[trigger] spec_record(recs[r])) is Ok
}

/// The rows of the records after the header.
pub open spec fn spec_rows(recs: Seq<Seq<Seq<char>>>) -> Seq<AsInfoView> {
    Seq::new((recs.len() - 1) as nat, |i: int| spec_record(recs[i + 1])->Ok_0)
}

/// `e` is what is wrong with the records: a wrong header, or the first
/// record that is not a valid row, named by its line.
pub open spec fn rows_error(recs: Seq<Seq<Seq<char>>>, e: DatasetError) -> bool {
    match e {
        DatasetError::BadHeader => !header_ok(recs),
        DatasetError::BadRecord(line, err) => {
            &&& header_ok(recs)
            &&& 2 <= line <= recs.len()
            &&& spec_record(recs[line - 1]) == Err::<AsInfoView, RecordError>(err)
            &&& forall|q: int| 1 <= q < line - 1 ==> (#[trigger] spec_record(recs[q])) is Ok
        },
        _ => false,
    }
}

/// What `build` gives for the records `v`.
pub open spec fn build_result(v: Seq<AsInfoView>, res: Result<Table, BuildError>) -> bool {
    &&& match res {
        Ok(t) => {
            &&& v.len() > 0
            &&& !has_duplicate(v)
            &&& fits_format(v)
            &&& layout_of(t.layout(), v)
            &&& t@ == t.layout().rows
            &&& t@.len() == v.len()
            &&& strictly_sorted(t@)
            &&& forall|k: int| 0 <= k < v.len() ==> t@.contains(#[trigger] v[k])
            &&& forall|i: int| 0 <= i < t@.len() ==> v.contains(#[trigger] t@[i])
        },
        Err(BuildError::NoRows) => v.len() == 0,
        Err(BuildError::DuplicateAsn(a)) => least_duplicate(v, a),
        Err(BuildError::TooLarge) => v.len() > 0 && !has_duplicate(v) && (v.len() > usize::MAX / 2
            || !fits_format(v)),
    }
    &&& (v.len() == 0 <==> res matches Err(BuildError::NoRows))
    &&& (has_duplicate(v) <==> res matches Err(BuildError::DuplicateAsn(_)))
}

/// The fields of a record, borrowed.
fn str_fields<'a>(rec: &'a Vec<String>) -> (res: Vec<&'a str>)
    ensures
        res@.len() == rec@.len(),
        forall|i: int| 0 <= i < rec@.len() ==> #[trigger] res@[i]@ == rec@[i]@,
{
    let mut res: Vec<&'a str> = Vec::new();
    let mut i: usize = 0;
    while i < rec.len()
        invariant
            i <= rec@.len(),
            res@.len() == i,
            forall|j: int| 0 <= j < i ==> #[trigger] res@[j]@ == rec@[j]@,
        decreases rec@.len() - i,
    {
        res.push(rec[i].as_str());
        i = i + 1;
    }
    res
}

/// The rows of a dataset's records (as the CSV reader gives them, the
/// header first), or what is wrong with them.
pub fn dataset_rows<'a>(records: &'a [Vec<String>]) -> (res: Result<Vec<AsInfo<'a>>, DatasetError>)
    ensures
        match res {
            Ok(rows) => rows_ok(fields_view(records@)) && views(rows@) == spec_rows(
                fields_view(records@),
            ),
            Err(e) => rows_error(fields_view(records@), e),
        },
{
    let ghost recs = fields_view(records@);
    if records.len() == 0 {
        return Err(DatasetError::BadHeader);
    }
    let header = str_fields(&records[0]);
    let ok = is_expected_header(header.as_slice());
    proof {
        assert(recs[0] == records@[0]@.map_values(|f: String| f@));
        if ok {
            assert forall|i: int| 0 <= i < 4 implies recs[0][i] == expected_header()[i] by {
                assert(recs[0][i] == records@[0]@[i]@);
                assert(header@[i]@ == records@[0]@[i]@);
            }
            assert(recs[0] =~= expected_header());
        } else if recs[0] == expected_header() {
            assert(header@.len() == 4);
            assert forall|i: int| 0 <= i < 4 implies #[trigger] header@[i]@ == expected_header()[i] by {
                assert(recs[0][i] == records@[0]@[i]@);
            }
        }
    }
    if !ok {
        return Err(DatasetError::BadHeader);
    }
    let mut rows: Vec<AsInfo<'a>> = Vec::new();
    let mut r: usize = 1;
    while r < records.len()
        invariant
            recs == fields_view(records@),
            header_ok(recs),
            1 <= r <= records@.len(),
            rows@.len() == r - 1,
            forall|q: int| 1 <= q < r ==> (#[trigger] spec_record(recs[q])) is Ok,
            forall|i: int| 0 <= i < r - 1 ==> spec_record(recs[i + 1]) == Ok::<AsInfoView, RecordError>(#[trigger] rows@[i]@),
        decreases records@.len() - r,
    {
        let fields = str_fields(&records[r]);
        let parsed = parse_record(fields.as_slice());
        let ghost f = recs[r as int];
        proof {
            assert(f == records@[r as int]@.map_values(|s: String| s@));
            assert forall|i: int| 0 <= i < f.len() implies #[trigger] fields@[i]@ == f[i] by {}
            assert(fields@.len() == f.len());
            if f.len() == 4 {
                assert(fields@[0]@ == f[0]);
                assert(fields@[1]@ == f[1]);
                assert(fields@[2]@ == f[2]);
                assert(fields@[3]@ == f[3]);
            }
        }
        match parsed {
            Ok(info) => {
                proof {
                    assert(info@ == spec_record(f)->Ok_0);
                }
                rows.push(info);
            },
            Err(e) => {
                proof {
                    assert(spec_record(f) == Err::<AsInfoView, RecordError>(e));
                }
                return Err(DatasetError::BadRecord(r + 1, e));
            },
        }
        r = r + 1;
    }
    proof {
        assert(views(rows@) =~= spec_rows(recs));
    }
    Ok(rows)
}

/// Builds the table of a dataset from the text of its CSV file.
pub fn load_table(text: &[u8]) -> (res: Result<Table, DatasetError>)
    ensures
        match csv_fields(text@) {
            None => res matches Err(DatasetError::Csv),
            Some(recs) => match res {
                Ok(t) => rows_ok(recs) && build_result(spec_rows(recs), Ok(t)),
                Err(DatasetError::Build(e)) => rows_ok(recs) && build_result(
                    spec_rows(recs),
                    Err(e),
                ),
                Err(e) => rows_error(recs, e),
            },
        },
        plain_csv(text@) ==> match res {
            Err(DatasetError::Csv) => !same_width(plain_records(text@)),
            Ok(t) => t@.len() == count_byte(text@, 10) - 1,
            _ => true,
        },
{
    proof {
        if plain_csv(text@) {
            lemma_plain_records_are_lines(text@);
        }
    }
    let records = match read_csv(text) {
        Some(r) => r,
        None => return Err(DatasetError::Csv),
    };
    let rows = match dataset_rows(records.as_slice()) {
        Ok(rows) => rows,
        Err(e) => return Err(e),
    };
    let built = build(rows.as_slice());
    proof {
        let v = views(rows@);
        assert forall|k: int| 0 <= k < rows@.len() implies #[trigger] v[k] == rows@[k]@ by {}
        assert(v.len() == rows@.len());
    }
    match built {
        Ok(t) => Ok(t),
        Err(e) => Err(DatasetError::Build(e)),
    }
}

} // verus!
