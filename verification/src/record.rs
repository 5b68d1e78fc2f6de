//! Records of the source dataset: a CSV file with the columns `asn`,
//! `handle`, `description` and `country-code`.
use vstd::prelude::*;
use vstd::string::StringSliceAdditionalSpecFns;
use vstd::utf8::{encode_utf8, encode_utf8_decode_utf8};
use crate::{AsInfo, Country};
use crate::format::is_country_code;

verus! {

/// Why a CSV record is not a valid dataset row.
#[derive(Debug, Clone, Copy, PartialEq, Eq, Structural)]
pub enum RecordError {
    /// The record does not have four fields; it has this many.
    FieldCount(usize),
    /// The first field is not a decimal `u32`.
    BadAsn,
    /// The fourth field is not two ASCII uppercase letters.
    BadCountry,
}

/// `b` is an ASCII decimal digit.
pub open spec fn is_digit(b: u8) -> bool {
    48 <= b <= 57
}

/// The value of a string of decimal digits.
pub open spec fn digits_value(d: Seq<u8>) -> int
    decreases d.len(),
{
    if d.len() == 0 {
        0
    } else {
        digits_value(d.drop_last()) * 10 + (d.last() - 48)
    }
}

/// How `u32::from_str` reads `b`: an optional `+`, then one or more
/// decimal digits whose value fits in a `u32`.
pub open spec fn spec_parse_u32(b: Seq<u8>) -> Option<u32> {
    let d = unsigned_digits(b);
    if d.len() > 0 && all_digits(d) && digits_value(d) <= u32::MAX {
        Some(digits_value(d) as u32)
    } else {
        None
    }
}

/// `b` without a leading `+`.
pub open spec fn unsigned_digits(b: Seq<u8>) -> Seq<u8> {
    if b.len() > 0 && b[0] == 43 {
        b.drop_first()
    } else {
        b
    }
}

/// Every byte of `d` is a decimal digit.
pub open spec fn all_digits(d: Seq<u8>) -> bool {
    forall|i: int| 0 <= i < d.len() ==> #[trigger] is_digit(d[i])
}

proof fn lemma_digits_value_grows(d: Seq<u8>, i: int)
    requires
        0 <= i <= d.len(),
        forall|j: int| 0 <= j < d.len() ==> #[trigger] is_digit(d[j]),
    ensures
        digits_value(d.take(i)) <= digits_value(d),
        0 <= digits_value(d),
    decreases d.len(),
{
    if d.len() > 0 {
        let e = d.drop_last();
        assert(is_digit(d[d.len() - 1]));
        assert forall|j: int| 0 <= j < e.len() implies #[trigger] is_digit(e[j]) by {
            assert(is_digit(d[j]));
        }
        if i == d.len() {
            assert(d.take(i) =~= d);
            lemma_digits_value_grows(e, 0);
        } else {
            lemma_digits_value_grows(e, i);
            assert(e.take(i) =~= d.take(i));
        }
    } else {
        assert(d.take(i) =~= d);
    }
}

/// Reads a decimal `u32` as `u32::from_str` does.
pub fn parse_u32(s: &str) -> (res: Option<u32>)
    ensures
        res == spec_parse_u32(s.spec_bytes()),
{
    let b = s.as_bytes();
    let ghost bs = b@;
    let start: usize = if b.len() > 0 && b[0] == 43 {
        1
    } else {
        0
    };
    let ghost d = unsigned_digits(bs);
    if start == b.len() {
        return None;
    }
    let mut value: u64 = 0;
    let mut i: usize = start;
    while i < b.len()
        invariant
            start <= i <= bs.len(),
            bs == b@,
            bs == s.spec_bytes(),
            start == (if bs.len() > 0 && bs[0] == 43 { 1int } else { 0int }),
            d == unsigned_digits(bs),
            d == bs.subrange(start as int, bs.len() as int),
            forall|j: int| 0 <= j < i - start ==> #[trigger] is_digit(d[j]),
            value == digits_value(d.take(i - start)),
            value <= u32::MAX,
        decreases bs.len() - i,
    {
        let c = b[i];
        if c < 48 || c > 57 {
            proof {
                assert(!is_digit(d[i - start]));
                assert(!all_digits(d));
                assert(spec_parse_u32(bs) is None);
            }
            return None;
        }
        proof {
            assert(d.take(i - start + 1).drop_last() =~= d.take(i - start));
        }
        value = value * 10 + (c - 48) as u64;
        i = i + 1;
        if value > 0xFFFF_FFFF {
            proof {
                if all_digits(d) {
                    lemma_digits_value_grows(d, i - start);
                    assert(digits_value(d) > u32::MAX);
                }
                assert(spec_parse_u32(bs) is None);
            }
            return None;
        }
    }
    proof {
        assert(d.take(i - start) =~= d);
    }
    Some(value as u32)
}

/// `s` reads as `lit`, byte for byte.
fn str_is(s: &str, lit: &str) -> (res: bool)
    ensures
        res == (s@ == lit@),
{
    let a = s.as_bytes();
    let b = lit.as_bytes();
    proof {
        encode_utf8_decode_utf8(s@);
        encode_utf8_decode_utf8(lit@);
    }
    assert(a@ == encode_utf8(s@) && b@ == encode_utf8(lit@));
    if a.len() != b.len() {
        return false;
    }
    let mut i: usize = 0;
    while i < a.len()
        invariant
            a@ == encode_utf8(s@),
            b@ == encode_utf8(lit@),
            vstd::utf8::decode_utf8(encode_utf8(s@)) == s@,
            vstd::utf8::decode_utf8(encode_utf8(lit@)) == lit@,
            a@.len() == b@.len(),
            i <= a@.len(),
            forall|j: int| 0 <= j < i ==> a@[j] == b@[j],
        decreases a@.len() - i,
    {
        if a[i] != b[i] {
            return false;
        }
        i = i + 1;
    }
    assert(a@ =~= b@);
    true
}

/// The decimal digits of `n`, most significant first, without leading
/// zeros.
pub open spec fn decimal(n: nat) -> Seq<u8>
    decreases n,
{
    if n < 10 {
        seq![(48 + n) as u8]
    } else {
        decimal(n / 10).push((48 + n % 10) as u8)
    }
}

/// The decimal digits of `n` are digits and have the value `n`.
proof fn lemma_decimal_value(n: nat)
    ensures
        decimal(n).len() > 0,
        all_digits(decimal(n)),
        digits_value(decimal(n)) == n,
    decreases n,
{
    if n >= 10 {
        lemma_decimal_value(n / 10);
        let d = decimal(n);
        assert(d.drop_last() =~= decimal(n / 10));
        assert(d.last() == (48 + n % 10) as u8);
        assert(d.last() - 48 == n % 10);
        assert(digits_value(d) == digits_value(d.drop_last()) * 10 + (d.last() - 48));
        assert((n / 10) * 10 + n % 10 == n);
        assert forall|i: int| 0 <= i < d.len() implies #[trigger] is_digit(d[i]) by {
            if i < d.len() - 1 {
                assert(d[i] == decimal(n / 10)[i]);
                assert(is_digit(decimal(n / 10)[i]));
            }
        }
    } else {
        let d = decimal(n);
        assert(d.drop_last() =~= Seq::<u8>::empty());
        assert(digits_value(d) == digits_value(d.drop_last()) * 10 + (d.last() - 48));
    }
}

/// Every `u32` written in decimal reads back as itself, as
/// `u32::from_str` reads it, with or without a leading `+`.
pub proof fn lemma_parse_decimal(n: u32)
    ensures
        spec_parse_u32(decimal(n as nat)) == Some(n),
        spec_parse_u32(seq![43u8] + decimal(n as nat)) == Some(n),
{
    lemma_decimal_value(n as nat);
    let d = decimal(n as nat);
    assert(is_digit(d[0]));
    assert(unsigned_digits(d) == d);
    assert((seq![43u8] + d).drop_first() =~= d);
    assert(unsigned_digits(seq![43u8] + d) == d);
}

/// The header that the dataset's CSV file starts with.
pub open spec fn expected_header() -> Seq<Seq<char>> {
    seq!["asn"@, "handle"@, "description"@, "country-code"@]
}

/// The header is `asn,handle,description,country-code`.
pub fn is_expected_header(fields: &[&str]) -> (res: bool)
    ensures
        res == (fields@.len() == 4 && forall|i: int| 0 <= i < 4 ==> #[trigger] fields@[i]@ == expected_header()[i]),
{
    if fields.len() != 4 {
        return false;
    }
    let r = str_is(fields[0], "asn") && str_is(fields[1], "handle") && str_is(fields[2], "description")
        && str_is(fields[3], "country-code");
    proof {
        if !r {
            if fields@[0]@ != "asn"@ {
                assert(fields@[0]@ != expected_header()[0]);
            } else if fields@[1]@ != "handle"@ {
                assert(fields@[1]@ != expected_header()[1]);
            } else if fields@[2]@ != "description"@ {
                assert(fields@[2]@ != expected_header()[2]);
            } else {
                assert(fields@[3]@ != expected_header()[3]);
            }
        }
    }
    r
}

/// The dataset row that a CSV record with fields `fields` holds.
pub fn parse_record<'a>(fields: &[&'a str]) -> (res: Result<AsInfo<'a>, RecordError>)
    ensures
        fields@.len() != 4 ==> res == Err::<AsInfo<'a>, RecordError>(RecordError::FieldCount(fields@.len() as usize)),
        fields@.len() == 4 ==> match res {
            Ok(info) => {
                &&& spec_parse_u32(fields@[0].spec_bytes()) == Some(info.asn)
                &&& info.handle == fields@[1]
                &&& info.description == fields@[2]
                &&& info.country@ == fields@[3].spec_bytes()
                &&& is_country_code(info.country@)
            },
            Err(RecordError::BadAsn) => spec_parse_u32(fields@[0].spec_bytes()) is None,
            Err(RecordError::BadCountry) => spec_parse_u32(fields@[0].spec_bytes()) is Some
                && !is_country_code(fields@[3].spec_bytes()),
            Err(RecordError::FieldCount(_)) => false,
        },
{
    if fields.len() != 4 {
        return Err(RecordError::FieldCount(fields.len()));
    }
    let asn = match parse_u32(fields[0]) {
        Some(a) => a,
        None => return Err(RecordError::BadAsn),
    };
    let country = match Country::from_code(fields[3]) {
        Some(c) => c,
        None => return Err(RecordError::BadCountry),
    };
    Ok(AsInfo { asn, handle: fields[1], description: fields[2], country })
}

} // verus!
