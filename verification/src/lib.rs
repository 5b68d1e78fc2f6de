//! Lookup from an Autonomous System Number (ASN) to its handle,
//! description, and country code.
//!
//! A dataset is held in a [`Table`]: compact binary tables (a varint-encoded
//! record stream in blocks, a block index, a deduplicated string blob and a
//! country table). A lookup binary-searches the block index and decodes at
//! most one block; the returned strings are slices of the table.
pub mod dataset;
pub mod encode;
pub mod format;
pub mod record;
mod text;
pub mod varint;

pub use crate::encode::{build, BuildError};
pub use crate::format::AsInfoView;

use vstd::prelude::*;
use vstd::string::StringSliceAdditionalSpecFns;
use vstd::utf8::{encode_utf8, encode_utf8_decode_utf8, encode_utf8_valid_utf8, valid_utf8};
use crate::format::{
    blob_upto, block_start, blocks_of, bytes_at, codes_upto, delta_bytes, entry_bytes, index_upto,
    is_country_code, layout_ok, le_bytes, lemma_blob_prefix, lemma_bytes_at_split, lemma_codes_at,
    lemma_index_entry, lemma_layout_basics, lemma_layout_block, lemma_layout_row, lemma_layout_str, lemma_rec_at, lemma_stream_pos_injective, lemma_stream_prefix, rec_bytes,
    str_bytes, str_tag, stream_upto, strictly_sorted, text_of, Layout, BLOCK_SIZE,
    INDEX_ENTRY_SIZE,
};
use crate::text::str_from_utf8;
use crate::varint::{read_varint, varint_at, varint_bytes};

verus! {

/// An ISO 3166-1 alpha-2 country code (two ASCII uppercase letters).
#[derive(Copy, Clone, PartialEq, Eq, PartialOrd, Ord, Hash, Debug)]
pub struct Country([u8; 2]);

impl View for Country {
    type V = Seq<u8>;

    closed spec fn view(&self) -> Seq<u8> {
        self.0@
    }
}

impl Country {
    #[verifier::type_invariant]
    closed spec fn is_code(self) -> bool {
        is_country_code(self.0@)
    }

    /// The country with code `code`, if it is two ASCII uppercase letters.
    pub fn from_code(code: &str) -> (res: Option<Country>)
        ensures
            res is Some <==> is_country_code(code.spec_bytes()),
            res matches Some(c) ==> c@ == code.spec_bytes(),
    {
        let bytes = code.as_bytes();
        if bytes.len() != 2 {
            return None;
        }
        let b0 = bytes[0];
        let b1 = bytes[1];
        if b0 < 65 || b0 > 90 || b1 < 65 || b1 > 90 {
            return None;
        }
        let c = Country([b0, b1]);
        assert(c@ =~= code.spec_bytes());
        Some(c)
    }

    /// The country code as a string slice, e.g. `"US"`.
    pub fn as_str(&self) -> (res: &str)
        ensures
            res.spec_bytes() == self@,
            res@ == seq![self@[0] as char, self@[1] as char],
    {
        proof {
            use_type_invariant(self);
            lemma_ascii_pair_utf8(self.0[0], self.0[1]);
            assert(self.0@ =~= seq![self.0[0], self.0[1]]);
        }
        // Every code is ASCII, so this cannot fail.
        match str_from_utf8(self.0.as_slice()) {
            Some(s) => {
                proof {
                    encode_utf8_decode_utf8(s@);
                }
                s
            },
            None => "??",
        }
    }

    /// The country code as it is displayed, e.g. `"US"`.
    pub fn to_string(&self) -> (res: String)
        ensures
            res@ == seq![self@[0] as char, self@[1] as char],
    {
        self.as_str().to_owned()
    }

    /// The country code as raw bytes, e.g. `b"US"`.
    pub fn as_bytes(&self) -> (res: [u8; 2])
        ensures
            res@ == self@,
            is_country_code(res@),
    {
        proof {
            use_type_invariant(self);
        }
        self.0
    }
}

/// Every two capital letters `A` to `Z` make a country code: the UTF-8
/// bytes of such a two-letter string are its letters, and they are a code
/// (so `Country::from_code` accepts it, with those bytes).
pub proof fn lemma_capital_letters_are_codes(s: Seq<char>)
    requires
        s.len() == 2,
        forall|i: int| 0 <= i < 2 ==> 'A' <= #[trigger] s[i] <= 'Z',
    ensures
        encode_utf8(s) == seq![s[0] as u8, s[1] as u8],
        is_country_code(encode_utf8(s)),
{
    assert(vstd::utf8::is_ascii_chars(s));
    vstd::utf8::is_ascii_chars_encode_utf8(s);
    assert(encode_utf8(s) =~= seq![s[0] as u8, s[1] as u8]);
    assert(s[0] as u8 == s[0] as u32);
    assert(s[1] as u8 == s[1] as u32);
}

/// Only two capital letters `A` to `Z` make a country code.
pub proof fn lemma_codes_are_capital_letters(s: Seq<char>)
    requires
        is_country_code(encode_utf8(s)),
    ensures
        s.len() == 2,
        forall|i: int| 0 <= i < 2 ==> 'A' <= #[trigger] s[i] <= 'Z',
{
    let b = encode_utf8(s);
    lemma_ascii_pair_utf8(b[0], b[1]);
    assert(b =~= seq![b[0], b[1]]);
    encode_utf8_decode_utf8(s);
    assert(s == seq![b[0] as char, b[1] as char]);
}

proof fn lemma_ascii_pair_utf8(b0: u8, b1: u8)
    requires
        b0 < 128,
        b1 < 128,
    ensures
        vstd::utf8::valid_utf8(seq![b0, b1]),
        vstd::utf8::decode_utf8(seq![b0, b1]) == seq![b0 as char, b1 as char],
{
    let s = seq![b0, b1];
    let t = seq![b1];
    let e = Seq::<u8>::empty();
    assert((b0 & 0x7fu8) == b0) by (bit_vector)
        requires
            b0 < 128,
    ;
    assert((b1 & 0x7fu8) == b1) by (bit_vector)
        requires
            b1 < 128,
    ;
    assert(vstd::utf8::decode_first_scalar(s) == b0 as u32);
    assert(vstd::utf8::decode_first_scalar(t) == b1 as u32);
    assert(vstd::utf8::pop_first_scalar(s) =~= t);
    assert(vstd::utf8::pop_first_scalar(t) =~= e);
    assert(vstd::utf8::valid_utf8(e));
    assert(vstd::utf8::valid_utf8(t));
    assert(vstd::utf8::valid_utf8(s));
    assert(vstd::utf8::decode_utf8(e) =~= e.map_values(|b: u8| b as char));
    assert(vstd::utf8::decode_utf8(t) =~= seq![b1 as char]);
    assert(vstd::utf8::decode_utf8(s) =~= seq![b0 as char, b1 as char]);
}

/// Metadata of an autonomous system.
#[derive(Copy, Clone, Debug, PartialEq, Eq)]
pub struct AsInfo<'a> {
    /// The autonomous system number.
    pub asn: u32,
    /// Short handle, e.g. `"LVLT-1"`.
    pub handle: &'a str,
    /// Human-readable description, e.g. `"Level 3 Parent LLC"`.
    pub description: &'a str,
    /// Registered country code.
    pub country: Country,
}

impl<'a> View for AsInfo<'a> {
    type V = AsInfoView;

    open spec fn view(&self) -> AsInfoView {
        AsInfoView {
            asn: self.asn,
            handle: self.handle@,
            description: self.description@,
            country: self.country@,
        }
    }
}

/// A dataset of autonomous systems in its compact binary form.
pub struct Table {
    stream: Vec<u8>,
    index: Vec<u8>,
    strings: Vec<u8>,
    countries: Vec<u8>,
    record_count: usize,
    layout: Ghost<Layout>,
}

impl View for Table {
    type V = Seq<AsInfoView>;

    /// The records of the dataset, in ascending ASN order.
    closed spec fn view(&self) -> Seq<AsInfoView> {
        self.layout@.rows
    }
}

impl Table {
    /// How the records are laid out in the tables.
    pub closed spec fn layout(&self) -> Layout {
        self.layout@
    }

    #[verifier::type_invariant]
    closed spec fn wf(self) -> bool {
        let l = self.layout@;
        let n = l.rows.len();
        &&& n > 0
        &&& layout_ok(l)
        &&& self.stream@ == stream_upto(l, n)
        &&& self.strings@ == blob_upto(l, 2 * n)
        &&& self.index@ == index_upto(l, blocks_of(n))
        &&& self.countries@ == codes_upto(l.codes, l.codes.len())
        &&& self.record_count == n
    }

    /// Assembles a table from tables laid out as `l` says.
    pub(crate) fn from_parts(
        stream: Vec<u8>,
        index: Vec<u8>,
        strings: Vec<u8>,
        countries: Vec<u8>,
        record_count: usize,
        Ghost(l): Ghost<Layout>,
    ) -> (res: Table)
        requires
            l.rows.len() > 0,
            layout_ok(l),
            stream@ == stream_upto(l, l.rows.len()),
            strings@ == blob_upto(l, 2 * l.rows.len()),
            index@ == index_upto(l, blocks_of(l.rows.len())),
            countries@ == codes_upto(l.codes, l.codes.len()),
            record_count == l.rows.len(),
        ensures
            res.layout() == l,
            res@ == l.rows,
    {
        Table { stream, index, strings, countries, record_count, layout: Ghost(l) }
    }

    /// The record stream.
    pub fn stream(&self) -> (res: &[u8])
        ensures
            self.layout().rows == self@,
            layout_ok(self.layout()),
            res@ == stream_upto(self.layout(), self@.len()),
    {
        proof {
            use_type_invariant(self);
        }
        self.stream.as_slice()
    }

    /// The block index.
    pub fn index(&self) -> (res: &[u8])
        ensures
            self.layout().rows == self@,
            layout_ok(self.layout()),
            res@ == index_upto(self.layout(), blocks_of(self@.len())),
            res@.len() == INDEX_ENTRY_SIZE * blocks_of(self@.len()),
            res@.len() >= INDEX_ENTRY_SIZE,
    {
        proof {
            use_type_invariant(self);
            lemma_index_entry_len(self.layout@);
        }
        self.index.as_slice()
    }

    /// The string blob.
    pub fn strings(&self) -> (res: &[u8])
        ensures
            self.layout().rows == self@,
            layout_ok(self.layout()),
            res@ == blob_upto(self.layout(), 2 * self@.len()),
    {
        proof {
            use_type_invariant(self);
        }
        self.strings.as_slice()
    }

    /// The country table.
    pub fn countries(&self) -> (res: &[u8])
        ensures
            self.layout().rows == self@,
            layout_ok(self.layout()),
            res@ == codes_upto(self.layout().codes, self.layout().codes.len()),
    {
        proof {
            use_type_invariant(self);
        }
        self.countries.as_slice()
    }
}

/// The record of `rows` with ASN `asn`, if any.
#[verifier::opaque]
pub open spec fn spec_lookup(rows: Seq<AsInfoView>, asn: u32) -> Option<AsInfoView> {
    if exists|i: int| 0 <= i < rows.len() && rows[i].asn == asn {
        Some(rows[choose|i: int| 0 <= i < rows.len() && rows[i].asn == asn])
    } else {
        None
    }
}

/// In records without shared ASNs, a lookup of a record's ASN gives that
/// record.
pub proof fn lemma_lookup_finds_record(rows: Seq<AsInfoView>, i: int)
    requires
        !crate::encode::has_duplicate(rows),
        0 <= i < rows.len(),
    ensures
        spec_lookup(rows, rows[i].asn) == Some(rows[i]),
{
    reveal(spec_lookup);
    let k = choose|k: int| 0 <= k < rows.len() && rows[k].asn == rows[i].asn;
    if k < i {
        assert(rows[k].asn == rows[i].asn);
    } else if i < k {
        assert(rows[i].asn == rows[k].asn);
    }
}

/// Strictly sorted records share no ASN: every entry of a dataset is what a
/// lookup of its ASN gives.
pub proof fn lemma_lookup_finds_entry(rows: Seq<AsInfoView>, i: int)
    requires
        strictly_sorted(rows),
        0 <= i < rows.len(),
    ensures
        spec_lookup(rows, rows[i].asn) == Some(rows[i]),
{
    assert(!crate::encode::has_duplicate(rows)) by {
        if crate::encode::has_duplicate(rows) {
            let (a, b) = choose|a: int, b: int|
                0 <= a < b < rows.len() && #[trigger] rows[a].asn == #[trigger] rows[b].asn;
            assert(rows[a].asn < rows[b].asn);
        }
    }
    lemma_lookup_finds_record(rows, i);
}

/// A dataset built from records without shared ASNs answers every lookup as
/// the records themselves do: each record's ASN with that record, any other
/// ASN with nothing. (The requirements are what `build` ensures of a table
/// it returns.)
pub proof fn lemma_built_table_lookup(input: Seq<AsInfoView>, table: Seq<AsInfoView>, asn: u32)
    requires
        !crate::encode::has_duplicate(input),
        table.len() == input.len(),
        strictly_sorted(table),
        forall|k: int| 0 <= k < input.len() ==> table.contains(#[trigger] input[k]),
        forall|i: int| 0 <= i < table.len() ==> input.contains(#[trigger] table[i]),
    ensures
        spec_lookup(table, asn) == spec_lookup(input, asn),
{
    reveal(spec_lookup);
    if exists|k: int| 0 <= k < input.len() && input[k].asn == asn {
        let k = choose|k: int| 0 <= k < input.len() && input[k].asn == asn;
        lemma_lookup_finds_record(input, k);
        assert(table.contains(input[k]));
        let i = choose|i: int| 0 <= i < table.len() && table[i] == input[k];
        lemma_lookup_finds_entry(table, i);
    } else {
        assert forall|i: int| 0 <= i < table.len() implies table[i].asn != asn by {
            assert(input.contains(table[i]));
        }
    }
}

/// The optional view of an optional record.
pub open spec fn opt_view(o: Option<AsInfo>) -> Option<AsInfoView> {
    match o {
        Some(info) => Some(info@),
        None => None,
    }
}

/// Looks up an ASN. Returns `None` if the ASN is not in the dataset.
///
/// Binary search over the block index, then a sequential decode of at most
/// one block. O(log N), no allocation.
pub fn lookup<'a>(table: &'a Table, asn: u32) -> (res: Option<AsInfo<'a>>)
    ensures
        opt_view(res) == spec_lookup(table@, asn),
        res matches Some(info) ==> info.asn == asn,
{
    // Find the last block whose first ASN is <= the target.
    let lo = find_block(table, asn);
    if lo == 0 {
        proof {
            use_type_invariant(table);
            let l = table.layout@;
            lemma_layout_basics(l);
            if l.rows.len() > 0 {
                lemma_block_bounds(l.rows.len(), 0);
                lemma_sorted_below(l.rows, asn);
            } else {
                reveal(spec_lookup);
            }
        }
        return None;
    }
    scan_block(table, lo - 1, asn)
}

/// The number of leading blocks whose first ASN is at most `asn`.
fn find_block(table: &Table, asn: u32) -> (lo: usize)
    ensures
        lo <= blocks_of(table@.len()),
        forall|b: nat| b < lo ==> #[trigger] table@[block_start(b) as int].asn <= asn,
        forall|b: nat|
            lo <= b < blocks_of(table@.len()) ==> #[trigger] table@[block_start(b) as int].asn
                > asn,
{
    proof {
        use_type_invariant(table);
    }
    let ghost l = table.layout@;
    let ghost n = l.rows.len();
    let nb = block_count(table);
    let mut lo: usize = 0;
    let mut hi: usize = nb;
    while lo < hi
        invariant
            layout_ok(l),
            table.layout@ == l,
            n == l.rows.len(),
            nb == blocks_of(n),
            lo <= hi <= nb,
            forall|b: nat| b < lo ==> #[trigger] l.rows[block_start(b) as int].asn <= asn,
            forall|b: nat| hi <= b < nb ==> #[trigger] l.rows[block_start(b) as int].asn > asn,
        decreases hi - lo,
    {
        let mid = lo + (hi - lo) / 2;
        if index_entry(table, mid).0 <= asn {
            proof {
                assert forall|b: nat| b < mid + 1 implies #[trigger] l.rows[block_start(
                    b,
                ) as int].asn <= asn by {
                    lemma_block_start_order(l, b, mid as nat);
                }
            }
            lo = mid + 1;
        } else {
            proof {
                assert forall|b: nat| mid <= b < nb implies #[trigger] l.rows[block_start(
                    b,
                ) as int].asn > asn by {
                    lemma_block_start_order(l, mid as nat, b);
                }
            }
            hi = mid;
        }
    }
    lo
}

/// Decodes block `block`, the last one whose first ASN is at most `asn`,
/// up to the first record at or past `asn`.
fn scan_block<'a>(table: &'a Table, block: usize, asn: u32) -> (res: Option<AsInfo<'a>>)
    requires
        block < blocks_of(table@.len()),
        table@[block_start(block as nat) as int].asn <= asn,
        block + 1 < blocks_of(table@.len()) ==> table@[block_start((block + 1) as nat) as int].asn
            > asn,
    ensures
        opt_view(res) == spec_lookup(table@, asn),
        res matches Some(info) ==> info.asn == asn,
{
    proof {
        use_type_invariant(table);
    }
    let ghost l = table.layout@;
    let ghost n = l.rows.len();
    let nb = block_count(table);
    let ghost j0 = block_start(block as nat);
    let ghost jend = if block + 1 < nb {
        block_start((block + 1) as nat)
    } else {
        n
    };
    proof {
        lemma_block_bounds(n, block as nat);
        lemma_stream_prefix(l, jend, n);
        assert(j0 % (BLOCK_SIZE as nat) == 0) by (nonlinear_arith)
            requires
                j0 == block * 32,
        ;
    }
    let (first_asn, stream_pos, blob_pos) = index_entry(table, block);
    let end = if block + 1 < nb {
        index_entry(table, block + 1).1
    } else {
        table.stream.len()
    };
    let mut cursor = Cursor { pos: stream_pos, blob: blob_pos, asn: first_asn, first: true };
    let ghost mut j: nat = j0;
    while cursor.pos < end
        invariant
            table.layout@ == l,
            n == l.rows.len(),
            layout_ok(l),
            table.stream@ == stream_upto(l, n),
            table.strings@ == blob_upto(l, 2 * n),
            table.countries@ == codes_upto(l.codes, l.codes.len()),
            j0 <= j <= jend <= n,
            j0 < n,
            j0 == block_start(block as nat),
            jend <= j0 + BLOCK_SIZE,
            j0 % (BLOCK_SIZE as nat) == 0,
            jend < n ==> l.rows[jend as int].asn > asn,
            l.rows[j0 as int].asn <= asn,
            end == stream_upto(l, jend).len(),
            cursor.positioned(l, j),
            j < jend ==> cursor.at_record(l, j),
            forall|i: int| j0 <= i < j ==> l.rows[i].asn < asn,
        decreases end - cursor.pos,
    {
        proof {
            if j == jend {
                assert(false);
            }
        }
        let info = cursor.decode(table, Ghost(j));
        if info.asn >= asn {
            proof {
                lemma_layout_basics(l);
                lemma_sorted_lookup(l.rows, j as int, j0 as int, asn);
            }
            if info.asn == asn {
                return Some(info);
            } else {
                return None;
            }
        }
        proof {
            lemma_stream_prefix(l, j, j + 1);
            lemma_stream_prefix(l, j + 1, jend);
            j = j + 1;
            if j < jend {
                lemma_next_in_block(j0, j, jend);
            }
        }
    }
    proof {
        use_type_invariant(table);
        lemma_layout_basics(l);
        if j < jend {
            lemma_stream_prefix(l, j, jend);
        }
        lemma_sorted_absent(l.rows, j0 as int, jend as int, asn);
    }
    None
}

proof fn lemma_next_in_block(j0: nat, j: nat, jend: nat)
    requires
        j0 % (BLOCK_SIZE as nat) == 0,
        j0 < j < jend <= j0 + BLOCK_SIZE,
    ensures
        j % (BLOCK_SIZE as nat) != 0,
{
    assert(j % 32 != 0) by (nonlinear_arith)
        requires
            j0 < j < j0 + 32,
            j0 % 32 == 0,
    ;
}

proof fn lemma_block_bounds(n: nat, b: nat)
    requires
        b < blocks_of(n),
    ensures
        block_start(b) < n,
        b + 1 < blocks_of(n) ==> block_start(b + 1) < n,
        b + 1 >= blocks_of(n) ==> n <= block_start(b + 1),
        block_start(b + 1) == block_start(b) + BLOCK_SIZE,
{
    assert(block_start(b + 1) == block_start(b) + BLOCK_SIZE) by (nonlinear_arith);
    assert(block_start(b) < n) by (nonlinear_arith)
        requires
            b < (n + 31) / 32,
            block_start(b) == b * 32,
    ;
    assert(b + 1 < blocks_of(n) ==> block_start(b + 1) < n) by (nonlinear_arith)
        requires
            blocks_of(n) == (n + 31) / 32,
            block_start(b + 1) == (b + 1) * 32,
    ;
    assert(b + 1 >= blocks_of(n) ==> n <= block_start(b + 1)) by (nonlinear_arith)
        requires
            blocks_of(n) == (n + 31) / 32,
            block_start(b + 1) == (b + 1) * 32,
    ;
}

proof fn lemma_block_start_order(l: Layout, b1: nat, b2: nat)
    requires
        layout_ok(l),
        b1 <= b2 < blocks_of(l.rows.len()),
    ensures
        l.rows[block_start(b1) as int].asn <= l.rows[block_start(b2) as int].asn,
{
    lemma_block_bounds(l.rows.len(), b2);
    lemma_layout_basics(l);
    assert(block_start(b1) <= block_start(b2)) by (nonlinear_arith)
        requires
            b1 <= b2,
    ;
}

/// In a strictly sorted sequence, once a record at or past `asn` is met at
/// `j` after a stretch `j0..j` of smaller ones, and `rows[j0] <= asn`, the
/// lookup result is decided by `rows[j]`.
proof fn lemma_sorted_lookup(rows: Seq<AsInfoView>, j: int, j0: int, asn: u32)
    requires
        strictly_sorted(rows),
        0 <= j0 <= j < rows.len(),
        rows[j0].asn <= asn,
        forall|i: int| j0 <= i < j ==> rows[i].asn < asn,
        rows[j].asn >= asn,
    ensures
        rows[j].asn == asn ==> spec_lookup(rows, asn) == Some(rows[j]),
        rows[j].asn != asn ==> spec_lookup(rows, asn) is None,
{
    reveal(spec_lookup);
    if rows[j].asn == asn {
        let k = choose|i: int| 0 <= i < rows.len() && rows[i].asn == asn;
        assert(k == j) by {
            if k < j {
                assert(rows[k].asn < rows[j].asn);
            }
            if k > j {
                assert(rows[j].asn < rows[k].asn);
            }
        }
    } else {
        assert forall|i: int| 0 <= i < rows.len() implies rows[i].asn != asn by {
            if i < j0 {
                assert(rows[i].asn < rows[j0].asn);
            } else if i < j {
                assert(rows[i].asn < asn);
            } else if i > j {
                assert(rows[j].asn < rows[i].asn);
            }
        }
    }
}

/// No record of a strictly sorted sequence has ASN `asn` when the first
/// one is above it.
proof fn lemma_sorted_below(rows: Seq<AsInfoView>, asn: u32)
    requires
        strictly_sorted(rows),
        rows.len() > 0,
        rows[0].asn > asn,
    ensures
        spec_lookup(rows, asn) is None,
{
    reveal(spec_lookup);
    assert forall|i: int| 0 <= i < rows.len() implies rows[i].asn != asn by {
        if i > 0 {
            assert(rows[0].asn < rows[i].asn);
        }
    }
}

/// No record of a strictly sorted sequence has ASN `asn` when the records
/// of `j0..jend` are below it, the one before `j0` is not above `rows[j0]`,
/// and the one at `jend` is above it.
proof fn lemma_sorted_absent(rows: Seq<AsInfoView>, j0: int, jend: int, asn: u32)
    requires
        strictly_sorted(rows),
        0 <= j0 < jend <= rows.len(),
        rows[j0].asn <= asn,
        forall|i: int| j0 <= i < jend ==> rows[i].asn < asn,
        jend < rows.len() ==> rows[jend].asn > asn,
    ensures
        spec_lookup(rows, asn) is None,
{
    reveal(spec_lookup);
    assert forall|i: int| 0 <= i < rows.len() implies rows[i].asn != asn by {
        if i < j0 {
            assert(rows[i].asn < rows[j0].asn);
        } else if i < jend {
            assert(rows[i].asn < asn);
        } else if i == jend {
            assert(rows[jend].asn > asn);
        } else {
            assert(rows[jend].asn < rows[i].asn);
        }
    }
}

/// The number of autonomous systems in the dataset.
pub fn count(table: &Table) -> (res: usize)
    ensures
        res == table@.len(),
        res > 0,
{
    proof {
        use_type_invariant(table);
    }
    table.record_count
}

/// All entries, in ascending ASN order.
pub fn iter<'a>(table: &'a Table) -> (res: Vec<AsInfo<'a>>)
    ensures
        res@.len() == table@.len(),
        forall|i: int| 0 <= i < res@.len() ==> #[trigger] res@[i]@ == table@[i],
        strictly_sorted(table@),
{
    proof {
        use_type_invariant(table);
    }
    let mut it = Iter::new(table);
    let mut out: Vec<AsInfo<'a>> = Vec::new();
    let ghost l = table.layout@;
    let ghost n = l.rows.len();
    proof {
        lemma_stream_prefix(l, 0, n);
    }
    loop
        invariant
            it.table == table,
            it.inv(),
            it.walked@ == out@.len(),
            table.layout@ == l,
            n == l.rows.len(),
            out@.len() <= n,
            forall|i: int| 0 <= i < out@.len() ==> #[trigger] out@[i]@ == l.rows[i],
        ensures
            out@.len() == n,
            forall|i: int| 0 <= i < out@.len() ==> #[trigger] out@[i]@ == l.rows[i],
        decreases n - out@.len(),
    {
        match it.next() {
            Some(info) => {
                out.push(info);
            },
            None => {
                break ;
            },
        }
    }
    proof {
        lemma_layout_basics(l);
    }
    out
}

/// The stream bytes that head a string with tag `tag`: the tag, then, for
/// a reused string, its back-distance `dist`.
spec fn str_head(tag: u32, dist: u32) -> Seq<u8> {
    varint_bytes(tag) + if tag % 2 == 1 {
        varint_bytes(dist)
    } else {
        seq![]
    }
}

/// Where in the blob the text of a string starts, with the blob cursor at
/// `blob`: at the cursor for a new string, `dist` bytes back for a reused one.
spec fn str_start(blob: usize, tag: u32, dist: u32) -> int {
    if tag % 2 == 1 {
        blob - dist
    } else {
        blob as int
    }
}

/// Decoder state while walking the varint record stream. `blob` tracks the
/// position implicitly assigned to the next new string; `first` marks a
/// block's first record, whose ASN comes from the index instead of a delta.
struct Cursor {
    pos: usize,
    blob: usize,
    asn: u32,
    first: bool,
}

impl Cursor {
    /// The cursor stands where record `j` starts in the stream and blob.
    spec fn positioned(self, l: Layout, j: nat) -> bool {
        &&& j <= l.rows.len()
        &&& self.pos == stream_upto(l, j).len()
        &&& self.blob == blob_upto(l, 2 * j).len()
    }

    /// The cursor stands at the start of record `j`, ready to decode it.
    spec fn at_record(self, l: Layout, j: nat) -> bool {
        &&& self.positioned(l, j)
        &&& j < l.rows.len() ==> if self.first {
            j % (BLOCK_SIZE as nat) == 0 && self.asn == l.rows[j as int].asn
        } else {
            j % (BLOCK_SIZE as nat) != 0 && self.asn == l.rows[j - 1].asn
        }
    }

    fn varint(&mut self, table: &Table, Ghost(v): Ghost<u32>) -> (res: u32)
        requires
            varint_at(table.stream@, old(self).pos as int, v),
        ensures
            res == v,
            final(self).pos == old(self).pos + varint_bytes(v).len(),
            final(self).blob == old(self).blob,
            final(self).asn == old(self).asn,
            final(self).first == old(self).first,
    {
        let (value, pos) = read_varint(table.stream.as_slice(), self.pos, Ghost(v));
        self.pos = pos;
        value
    }

    /// Decodes a string: `varint(tag)`, then for an odd tag
    /// `varint(dist)`. Its `tag / 2` bytes sit in the blob at the cursor for
    /// an even tag, which then moves past them, or `dist` bytes back from it
    /// for an odd tag.
    fn decode_str<'a>(
        &mut self,
        table: &'a Table,
        Ghost(tag): Ghost<u32>,
        Ghost(dist): Ghost<u32>,
    ) -> (res: &'a str)
        requires
            bytes_at(table.stream@, old(self).pos as int, str_head(tag, dist)),
            tag % 2 == 1 ==> dist <= old(self).blob,
            0 <= str_start(old(self).blob, tag, dist),
            str_start(old(self).blob, tag, dist) + tag / 2 <= table.strings@.len(),
            valid_utf8(
                table.strings@.subrange(
                    str_start(old(self).blob, tag, dist),
                    str_start(old(self).blob, tag, dist) + tag / 2,
                ),
            ),
        ensures
            res.spec_bytes() == table.strings@.subrange(
                str_start(old(self).blob, tag, dist),
                str_start(old(self).blob, tag, dist) + tag / 2,
            ),
            final(self).pos == old(self).pos + str_head(tag, dist).len(),
            final(self).blob == if tag % 2 == 1 {
                old(self).blob as int
            } else {
                old(self).blob + tag / 2
            },
            final(self).asn == old(self).asn,
            final(self).first == old(self).first,
    {
        proof {
            if tag % 2 == 1 {
                lemma_bytes_at_split(
                    table.stream@,
                    self.pos as int,
                    varint_bytes(tag),
                    varint_bytes(dist),
                );
            } else {
                assert(str_head(tag, dist) =~= varint_bytes(tag));
            }
        }
        let strings_len = table.strings.len();
        let tag_value = self.varint(table, Ghost(tag));
        let len = (tag_value >> 1) as usize;
        proof {
            assert(tag_value >> 1 == tag_value / 2) by (bit_vector);
            assert(tag_value & 1 == tag_value % 2) by (bit_vector);
        }
        let offset = if tag_value & 1 == 1 {
            let back = self.varint(table, Ghost(dist)) as usize;
            self.blob - back
        } else {
            let offset = self.blob;
            self.blob = self.blob + len;
            offset
        };
        let bytes = &table.strings.as_slice()[offset..offset + len];
        match str_from_utf8(bytes) {
            Some(s) => s,
            None => "",
        }
    }

    /// Decodes string `k` of the table.
    fn decode_text<'a>(&mut self, table: &'a Table, Ghost(k): Ghost<nat>) -> (res: &'a str)
        requires
            layout_ok(table.layout@),
            table.stream@ == stream_upto(table.layout@, table.layout@.rows.len()),
            table.strings@ == blob_upto(table.layout@, 2 * table.layout@.rows.len()),
            k < 2 * table.layout@.rows.len(),
            bytes_at(table.stream@, old(self).pos as int, str_bytes(table.layout@, k)),
            old(self).blob == blob_upto(table.layout@, k).len(),
        ensures
            encode_utf8(res@) == text_of(table.layout@.rows, k as int),
            final(self).pos == old(self).pos + str_bytes(table.layout@, k).len(),
            final(self).blob == blob_upto(table.layout@, k + 1).len(),
            final(self).asn == old(self).asn,
            final(self).first == old(self).first,
    {
        let ghost l = table.layout@;
        let ghost n = l.rows.len();
        let ghost text = text_of(l.rows, k as int);
        let ghost tag = str_tag(l, k) as u32;
        let ghost dist: u32 = match l.refs[k as int] {
            Some(o) => (blob_upto(l, k).len() - o) as u32,
            None => 0,
        };
        proof {
            lemma_layout_str(l, k as int);
            lemma_blob_prefix(l, k, k + 1);
            lemma_blob_prefix(l, k + 1, 2 * n);
            let b = blob_upto(l, 2 * n);
            let start = str_start(self.blob, tag, dist);
            if l.refs[k as int] is Some {
                assert(str_bytes(l, k) == str_head(tag, dist));
                assert(b.subrange(start, start + tag / 2) =~= blob_upto(l, k).subrange(
                    start,
                    start + tag / 2,
                ));
            } else {
                assert(str_bytes(l, k) =~= str_head(tag, dist));
                assert(b.subrange(start, start + tag / 2) =~= blob_upto(l, k + 1).subrange(
                    start,
                    start + tag / 2,
                ));
                assert(blob_upto(l, k + 1).subrange(start, start + tag / 2) =~= text);
            }
            encode_utf8_valid_utf8(
                if k % 2 == 0 {
                    l.rows[(k / 2) as int].handle
                } else {
                    l.rows[(k / 2) as int].description
                },
            );
        }
        self.decode_str(table, Ghost(tag), Ghost(dist))
    }

    /// Decodes record `j` and moves past it.
    fn decode<'a>(&mut self, table: &'a Table, Ghost(j): Ghost<nat>) -> (res: AsInfo<'a>)
        requires
            layout_ok(table.layout@),
            table.stream@ == stream_upto(table.layout@, table.layout@.rows.len()),
            table.strings@ == blob_upto(table.layout@, 2 * table.layout@.rows.len()),
            table.countries@ == codes_upto(table.layout@.codes, table.layout@.codes.len()),
            j < table.layout@.rows.len(),
            old(self).at_record(table.layout@, j),
        ensures
            res@ == table.layout@.rows[j as int],
            final(self).pos == stream_upto(table.layout@, j + 1).len(),
            final(self).blob == blob_upto(table.layout@, 2 * j + 2).len(),
            final(self).asn == table.layout@.rows[j as int].asn,
            !final(self).first,
    {
        let ghost l = table.layout@;
        let ghost n = l.rows.len();
        let ghost row = l.rows[j as int];
        let ghost p = self.pos as int;
        let ghost d = delta_bytes(l, j);
        let ghost s1 = str_bytes(l, 2 * j);
        let ghost s2 = str_bytes(l, 2 * j + 1);
        let ghost cv = varint_bytes(l.cidx[j as int] as u32);
        proof {
            lemma_layout_basics(l);
            lemma_layout_row(l, j as int);
            lemma_rec_at(l, j, n);
            assert(rec_bytes(l, j) == d + s1 + s2 + cv);
            lemma_bytes_at_split(table.stream@, p, d + s1 + s2, cv);
            lemma_bytes_at_split(table.stream@, p, d + s1, s2);
            lemma_bytes_at_split(table.stream@, p, d, s1);
        }
        if self.first {
            self.first = false;
            proof {
                assert(d =~= Seq::<u8>::empty());
            }
        } else {
            proof {
                assert(l.rows[j - 1].asn < row.asn);
            }
            let delta = self.varint(table, Ghost((row.asn - l.rows[j - 1].asn) as u32));
            self.asn = self.asn + delta;
        }
        let handle = self.decode_text(table, Ghost(2 * j));
        let description = self.decode_text(table, Ghost(2 * j + 1));
        let countries_len = table.countries.len();
        proof {
            crate::format::lemma_codes_len(l.codes, l.codes.len());
        }
        let country = 2 * self.varint(table, Ghost(l.cidx[j as int] as u32)) as usize;
        proof {
            let c = l.cidx[j as int];
            lemma_codes_at(l.codes, c, l.codes.len());
            assert(table.countries@[(2 * c) as int] == l.codes[c as int][0]);
            assert(table.countries@[(2 * c + 1) as int] == l.codes[c as int][1]);
            encode_utf8_decode_utf8(handle@);
            encode_utf8_decode_utf8(row.handle);
            encode_utf8_decode_utf8(description@);
            encode_utf8_decode_utf8(row.description);
            assert((2 * j) % 2 == 0 && (2 * j) / 2 == j);
            assert((2 * j + 1) % 2 == 1 && (2 * j + 1) / 2 == j);
        }
        let code = Country([table.countries[country], table.countries[country + 1]]);
        proof {
            assert(code@ =~= row.country);
        }
        AsInfo { asn: self.asn, handle, description, country: code }
    }
}

/// Walks the whole record stream in order.
struct Iter<'a> {
    table: &'a Table,
    cursor: Cursor,
    next_block: usize,
    /// How many records the walk has given so far.
    walked: Ghost<nat>,
}

impl<'a> Iter<'a> {
    /// The walk stands before record `walked`.
    spec fn inv(self) -> bool {
        let l = self.table.layout@;
        let j = self.walked@;
        &&& j <= l.rows.len()
        &&& self.cursor.pos == stream_upto(l, j).len()
        &&& self.cursor.blob == blob_upto(l, 2 * j).len()
        &&& !self.cursor.first
        &&& j > 0 ==> self.cursor.asn == l.rows[j - 1].asn
        &&& self.next_block == blocks_of(j)
    }

    /// A walk of `table` from its first record.
    fn new(table: &'a Table) -> (it: Iter<'a>)
        ensures
            it.inv(),
            it.table == table,
            it.walked@ == 0,
    {
        Iter {
            table,
            cursor: Cursor { pos: 0, blob: 0, asn: 0, first: false },
            next_block: 0,
            walked: Ghost(0),
        }
    }

    /// The next record: the `k`-th call on a new walk gives record `k` of
    /// the table while there is one, and `None` from then on, leaving the
    /// walk as it is.
    fn next(&mut self) -> (res: Option<AsInfo<'a>>)
        requires
            old(self).inv(),
        ensures
            final(self).inv(),
            final(self).table == old(self).table,
            old(self).walked@ == old(self).table@.len() ==> res is None && *final(self) == *old(
                self,
            ),
            old(self).walked@ < old(self).table@.len() ==> (res matches Some(info) && info@
                == old(self).table@[old(self).walked@ as int] && final(self).walked@
                == old(self).walked@ + 1),
    {
        let ghost j = self.walked@;
        let table = self.table;
        proof {
            use_type_invariant(table);
        }
        let ghost l = table.layout@;
        let ghost n = l.rows.len();
        proof {
            lemma_stream_prefix(l, j, n);
        }
        if self.cursor.pos >= table.stream.len() {
            return None;
        }
        let nb = block_count(table);
        proof {
            crate::format::lemma_blocks_of_step(j);
        }
        if self.next_block < nb {
            let (first_asn, stream_pos, blob_pos) = index_entry(table, self.next_block);
            if self.cursor.pos == stream_pos {
                proof {
                    lemma_stream_pos_injective(l, j, block_start(self.next_block as nat));
                }
                self.cursor.asn = first_asn;
                self.cursor.first = true;
                self.next_block = self.next_block + 1;
            } else {
                proof {
                    if j % (BLOCK_SIZE as nat) == 0 {
                        assert(block_start(self.next_block as nat) == j) by (nonlinear_arith)
                            requires
                                self.next_block == (j + 31) / 32,
                                j % 32 == 0,
                                block_start(self.next_block as nat) == self.next_block * 32,
                        ;
                    }
                }
            }
        } else {
            proof {
                assert(j % (BLOCK_SIZE as nat) != 0) by (nonlinear_arith)
                    requires
                        self.next_block == (j + 31) / 32,
                        self.next_block >= (n + 31) / 32,
                        j < n,
                ;
            }
        }
        let info = self.cursor.decode(table, Ghost(j));
        self.walked = Ghost(j + 1);
        Some(info)
    }
}

/// Number of blocks in the index.
fn block_count(table: &Table) -> (res: usize)
    ensures
        res == blocks_of(table@.len()),
        res >= 1,
{
    proof {
        use_type_invariant(table);
        lemma_index_entry_len(table.layout@);
    }
    table.index.len() / INDEX_ENTRY_SIZE
}

proof fn lemma_index_entry_len(l: Layout)
    ensures
        index_upto(l, blocks_of(l.rows.len())).len() == blocks_of(l.rows.len()) * 12,
{
    if blocks_of(l.rows.len()) > 0 {
        lemma_index_entry(l, 0, blocks_of(l.rows.len()));
    } else {
        assert(index_upto(l, 0).len() == 0);
    }
}

/// Entry `block` of the index: the first ASN of the block, its stream
/// position and the blob position at its start.
fn index_entry(table: &Table, block: usize) -> (res: (u32, usize, usize))
    requires
        block < blocks_of(table@.len()),
    ensures
        res.0 == table@[block_start(block as nat) as int].asn,
        res.1 == stream_upto(table.layout(), block_start(block as nat)).len(),
        res.2 == blob_upto(table.layout(), 2 * block_start(block as nat)).len(),
{
    proof {
        use_type_invariant(table);
    }
    let ghost l = table.layout@;
    let ghost n = l.rows.len();
    let ghost e = entry_bytes(l, block as nat);
    let ghost i = block_start(block as nat);
    proof {
        lemma_index_entry(l, block as nat, blocks_of(n));
        lemma_block_bounds(n, block as nat);
        lemma_layout_block(l, block as nat);
        let a = le_bytes(l.rows[i as int].asn);
        let b = le_bytes(stream_upto(l, i).len() as u32);
        let c = le_bytes(blob_upto(l, 2 * i).len() as u32);
        lemma_bytes_at_split(table.index@, (block * 12) as int, a + b, c);
        lemma_bytes_at_split(table.index@, (block * 12) as int, a, b);
        assert(layout_ok(l));
    }
    let base = block * INDEX_ENTRY_SIZE;
    let asn = read_u32(table, base);
    let pos = read_u32(table, base + 4);
    let blob = read_u32(table, base + 8);
    (asn, pos as usize, blob as usize)
}

/// The little-endian `u32` at `offset` in the index.
fn read_u32(table: &Table, offset: usize) -> (res: u32)
    requires
        offset + 4 <= table.index@.len(),
    ensures
        forall|x: u32|
            #![trigger le_bytes(x)]
            bytes_at(table.index@, offset as int, le_bytes(x)) ==> res == x,
{
    let len = table.index.len();
    let b0 = table.index[offset];
    let b1 = table.index[offset + 1];
    let b2 = table.index[offset + 2];
    let b3 = table.index[offset + 3];
    proof {
        assert forall|x: u32|
            #![trigger le_bytes(x)]
            bytes_at(table.index@, offset as int, le_bytes(x)) implies (b0 as u32) | ((b1 as u32)
            << 8u32) | ((b2 as u32) << 16u32) | ((b3 as u32) << 24u32) == x by {
            let s = table.index@.subrange(offset as int, offset + 4);
            assert(s[0] == b0 && s[1] == b1 && s[2] == b2 && s[3] == b3);
            assert(le_bytes(x)[0] == (x % 256) as u8);
            lemma_le_bytes_value(x, b0, b1, b2, b3);
        }
    }
    (b0 as u32) | ((b1 as u32) << 8) | ((b2 as u32) << 16) | ((b3 as u32) << 24)
}

proof fn lemma_le_bytes_value(x: u32, b0: u8, b1: u8, b2: u8, b3: u8)
    requires
        b0 == (x % 256) as u8,
        b1 == ((x / 256) % 256) as u8,
        b2 == ((x / 65536) % 256) as u8,
        b3 == (x / 16777216) as u8,
    ensures
        (b0 as u32) | ((b1 as u32) << 8u32) | ((b2 as u32) << 16u32) | ((b3 as u32) << 24u32) == x,
{
    let c0 = b0 as u32;
    let c1 = b1 as u32;
    let c2 = b2 as u32;
    let c3 = b3 as u32;
    assert(c0 == x % 256 && c1 == (x / 256) % 256 && c2 == (x / 65536) % 256 && c3 == x / 16777216);
    assert(c0 | (c1 << 8u32) | (c2 << 16u32) | (c3 << 24u32) == x) by (bit_vector)
        requires
            c0 == x % 256,
            c1 == (x / 256) % 256,
            c2 == (x / 65536) % 256,
            c3 == x / 16777216,
    ;
}

} // verus!
