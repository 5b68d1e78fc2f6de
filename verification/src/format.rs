//! The layout of the four tables that hold a dataset, as a function of the
//! records they describe.
//!
//! * strings: the text of handles and descriptions, each new string placed
//!   at the current end of the blob; a string seen before is referenced
//!   by its distance back from that end.
//! * stream: per record, the varint ASN delta from the previous record
//!   (left out for the first record of a block, whose ASN the index holds),
//!   the handle and the description as `varint(len << 1 | reused)`, followed
//!   for a reused string by `varint(back-distance)`, and the varint country
//!   index.
//! * index: for each block of `BLOCK_SIZE` records, its first ASN, its
//!   stream position and the blob position at its start, as little-endian
//!   `u32`s.
//! * countries: two bytes per country code.
use vstd::prelude::*;
use vstd::utf8::encode_utf8;
use crate::varint::{varint_bytes, lemma_varint_len};

verus! {

/// Records per index block.
pub const BLOCK_SIZE: usize = 32;

/// Bytes per index entry: first ASN, stream position, blob position.
pub const INDEX_ENTRY_SIZE: usize = 12;

/// What the dataset says of one autonomous system.
pub struct AsInfoView {
    pub asn: u32,
    pub handle: Seq<char>,
    pub description: Seq<char>,
    pub country: Seq<u8>,
}

/// How a list of records is laid out in the tables: for each string, in
/// the order handle, description, record by record, whether it is new
/// (`None`) or refers back to an earlier copy at a blob offset; the
/// country table; and each record's index into it.
pub struct Layout {
    pub rows: Seq<AsInfoView>,
    pub refs: Seq<Option<nat>>,
    pub codes: Seq<Seq<u8>>,
    pub cidx: Seq<nat>,
}

/// An ISO 3166-1 alpha-2 code: two ASCII uppercase letters.
pub open spec fn is_country_code(c: Seq<u8>) -> bool {
    &&& c.len() == 2
    &&& 65 <= c[0] <= 90
    &&& 65 <= c[1] <= 90
}

/// The UTF-8 bytes of string `k` of the records: the handle of record
/// `k / 2` for even `k`, its description for odd `k`.
pub open spec fn text_of(rows: Seq<AsInfoView>, k: int) -> Seq<u8> {
    encode_utf8(
        if k % 2 == 0 {
            rows[k / 2].handle
        } else {
            rows[k / 2].description
        },
    )
}

/// The blob after the first `k` strings have been laid out.
pub open spec fn blob_upto(l: Layout, k: nat) -> Seq<u8>
    decreases k,
{
    if k == 0 {
        seq![]
    } else {
        let j = (k - 1) as nat;
        blob_upto(l, j) + if l.refs[j as int] is None {
            text_of(l.rows, j as int)
        } else {
            seq![]
        }
    }
}

/// The tag of string `k`: twice its length, plus one when it is reused.
pub open spec fn str_tag(l: Layout, k: nat) -> int {
    text_of(l.rows, k as int).len() * 2 + if l.refs[k as int] is Some {
        1int
    } else {
        0int
    }
}

/// The stream bytes of string `k`.
pub open spec fn str_bytes(l: Layout, k: nat) -> Seq<u8> {
    varint_bytes(str_tag(l, k) as u32) + match l.refs[k as int] {
        Some(o) => varint_bytes((blob_upto(l, k).len() - o) as u32),
        None => seq![],
    }
}

/// The ASN delta of record `i`, present unless it opens a block.
pub open spec fn delta_bytes(l: Layout, i: nat) -> Seq<u8> {
    if i % (BLOCK_SIZE as nat) == 0 {
        seq![]
    } else {
        varint_bytes((l.rows[i as int].asn - l.rows[i - 1].asn) as u32)
    }
}

/// The stream bytes of record `i`.
pub open spec fn rec_bytes(l: Layout, i: nat) -> Seq<u8> {
    delta_bytes(l, i) + str_bytes(l, 2 * i) + str_bytes(l, 2 * i + 1) + varint_bytes(
        l.cidx[i as int] as u32,
    )
}

/// The stream after the first `i` records.
pub open spec fn stream_upto(l: Layout, i: nat) -> Seq<u8>
    decreases i,
{
    if i == 0 {
        seq![]
    } else {
        stream_upto(l, (i - 1) as nat) + rec_bytes(l, (i - 1) as nat)
    }
}

/// Little-endian bytes of `x`.
pub open spec fn le_bytes(x: u32) -> Seq<u8> {
    seq![(x % 256) as u8, ((x / 256) % 256) as u8, ((x / 65536) % 256) as u8, (x / 16777216) as u8]
}

/// Number of blocks of `n` records.
pub open spec fn blocks_of(n: nat) -> nat {
    ((n + BLOCK_SIZE - 1) / (BLOCK_SIZE as int)) as nat
}

/// First record of block `b`.
pub open spec fn block_start(b: nat) -> nat {
    b * (BLOCK_SIZE as nat)
}

/// Index entry of block `b`.
pub open spec fn entry_bytes(l: Layout, b: nat) -> Seq<u8> {
    let i = block_start(b);
    le_bytes(l.rows[i as int].asn) + le_bytes(stream_upto(l, i).len() as u32) + le_bytes(
        blob_upto(l, 2 * i).len() as u32,
    )
}

/// The index after the first `b` blocks.
pub open spec fn index_upto(l: Layout, b: nat) -> Seq<u8>
    decreases b,
{
    if b == 0 {
        seq![]
    } else {
        index_upto(l, (b - 1) as nat) + entry_bytes(l, (b - 1) as nat)
    }
}

/// The country table after the first `c` codes.
pub open spec fn codes_upto(codes: Seq<Seq<u8>>, c: nat) -> Seq<u8>
    decreases c,
{
    if c == 0 {
        seq![]
    } else {
        codes_upto(codes, (c - 1) as nat) + codes[c - 1]
    }
}

/// ASNs strictly increase along `rows`.
pub open spec fn strictly_sorted(rows: Seq<AsInfoView>) -> bool {
    forall|i: int, j: int| 0 <= i < j < rows.len() ==> rows[i].asn < rows[j].asn
}

/// String `k` has a tag that fits in 32 bits and, when reused, refers back
/// to a copy of itself at a distance that fits in 32 bits.
pub open spec fn str_ok(l: Layout, k: int) -> bool {
    &&& str_tag(l, k as nat) <= u32::MAX
    &&& match l.refs[k] {
        Some(o) => {
            &&& o + text_of(l.rows, k).len() <= blob_upto(l, k as nat).len()
            &&& blob_upto(l, k as nat).subrange(o as int, (o + text_of(l.rows, k).len()) as int)
                == text_of(l.rows, k)
            &&& blob_upto(l, k as nat).len() - o <= u32::MAX
        },
        None => true,
    }
}

/// Record `i` points at its own country code.
pub open spec fn row_ok(l: Layout, i: int) -> bool {
    &&& l.cidx[i] < l.codes.len()
    &&& l.codes[l.cidx[i] as int] == l.rows[i].country
}

/// The stream and blob positions at the start of block `b` fit in 32 bits.
pub open spec fn block_ok(l: Layout, b: nat) -> bool {
    &&& stream_upto(l, block_start(b)).len() <= u32::MAX
    &&& blob_upto(l, 2 * block_start(b)).len() <= u32::MAX
}

/// The layout describes a valid set of tables: records in ASN order,
/// country indices and back-references that point where they should, and
/// every number that the format stores in 32 bits fitting there.
#[verifier::opaque]
pub open spec fn layout_ok(l: Layout) -> bool {
    let n = l.rows.len();
    &&& l.refs.len() == 2 * n
    &&& l.cidx.len() == n
    &&& strictly_sorted(l.rows)
    &&& forall|c: int| 0 <= c < l.codes.len() ==> #[trigger] is_country_code(l.codes[c])
    &&& l.codes.len() <= u32::MAX
    &&& forall|i: int| 0 <= i < n ==> #[trigger] row_ok(l, i)
    &&& forall|k: int| 0 <= k < 2 * n ==> #[trigger] str_ok(l, k)
    &&& forall|b: nat| b < blocks_of(n) ==> #[trigger] block_ok(l, b)
}

/// Establishes a valid layout from its parts.
pub proof fn lemma_layout_ok_intro(l: Layout)
    requires
        l.refs.len() == 2 * l.rows.len(),
        l.cidx.len() == l.rows.len(),
        strictly_sorted(l.rows),
        forall|c: int| 0 <= c < l.codes.len() ==> #[trigger] is_country_code(l.codes[c]),
        l.codes.len() <= u32::MAX,
        forall|i: int| 0 <= i < l.rows.len() ==> #[trigger] row_ok(l, i),
        forall|k: int| 0 <= k < 2 * l.rows.len() ==> #[trigger] str_ok(l, k),
        forall|b: nat| b < blocks_of(l.rows.len()) ==> #[trigger] block_ok(l, b),
    ensures
        layout_ok(l),
{
    reveal(layout_ok);
}

/// The facts of a valid layout that concern all of it.
pub proof fn lemma_layout_basics(l: Layout)
    requires
        layout_ok(l),
    ensures
        l.refs.len() == 2 * l.rows.len(),
        l.cidx.len() == l.rows.len(),
        strictly_sorted(l.rows),
        l.codes.len() <= u32::MAX,
        forall|c: int| 0 <= c < l.codes.len() ==> #[trigger] is_country_code(l.codes[c]),
        forall|c: int| 0 <= c < l.codes.len() ==> #[trigger] l.codes[c].len() == 2,
{
    reveal(layout_ok);
    assert forall|c: int| 0 <= c < l.codes.len() implies #[trigger] l.codes[c].len() == 2 by {
        assert(is_country_code(l.codes[c]));
    }
}

/// The facts of a valid layout that concern record `i`.
pub proof fn lemma_layout_row(l: Layout, i: int)
    requires
        layout_ok(l),
        0 <= i < l.rows.len(),
    ensures
        l.cidx[i] < l.codes.len(),
        l.codes[l.cidx[i] as int] == l.rows[i].country,
        is_country_code(l.rows[i].country),
{
    reveal(layout_ok);
    assert(row_ok(l, i));
    assert(is_country_code(l.codes[l.cidx[i] as int]));
}

/// The facts of a valid layout that concern string `k`.
pub proof fn lemma_layout_str(l: Layout, k: int)
    requires
        layout_ok(l),
        0 <= k < 2 * l.rows.len(),
    ensures
        str_tag(l, k as nat) <= u32::MAX,
        l.refs[k] matches Some(o) ==> {
            &&& o + text_of(l.rows, k).len() <= blob_upto(l, k as nat).len()
            &&& blob_upto(l, k as nat).subrange(o as int, (o + text_of(l.rows, k).len()) as int)
                == text_of(l.rows, k)
            &&& blob_upto(l, k as nat).len() - o <= u32::MAX
        },
{
    reveal(layout_ok);
    assert(str_ok(l, k));
}

/// The facts of a valid layout that concern block `b`.
pub proof fn lemma_layout_block(l: Layout, b: nat)
    requires
        layout_ok(l),
        b < blocks_of(l.rows.len()),
    ensures
        stream_upto(l, block_start(b)).len() <= u32::MAX,
        blob_upto(l, 2 * block_start(b)).len() <= u32::MAX,
{
    reveal(layout_ok);
    assert(block_ok(l, b));
}

/// `s` holds `t` at `p`.
pub open spec fn bytes_at(s: Seq<u8>, p: int, t: Seq<u8>) -> bool {
    &&& 0 <= p
    &&& p + t.len() <= s.len()
    &&& s.subrange(p, p + t.len()) == t
}

pub proof fn lemma_bytes_at_split(s: Seq<u8>, p: int, a: Seq<u8>, b: Seq<u8>)
    requires
        bytes_at(s, p, a + b),
    ensures
        bytes_at(s, p, a),
        bytes_at(s, p + a.len(), b),
{
    let w = s.subrange(p, p + a.len() + b.len());
    assert(w == a + b);
    assert(s.subrange(p, p + a.len()) =~= w.subrange(0, a.len() as int));
    assert(w.subrange(0, a.len() as int) =~= a);
    assert(s.subrange(p + a.len(), p + a.len() + b.len()) =~= w.subrange(
        a.len() as int,
        w.len() as int,
    ));
    assert(w.subrange(a.len() as int, w.len() as int) =~= b);
}

pub proof fn lemma_bytes_at_prefix(s: Seq<u8>, t: Seq<u8>, p: int, u: Seq<u8>)
    requires
        t.len() <= s.len(),
        s.subrange(0, t.len() as int) == t,
        bytes_at(t, p, u),
    ensures
        bytes_at(s, p, u),
{
    assert(s.subrange(p, p + u.len()) =~= t.subrange(p, p + u.len()));
}

/// The blob only grows, and its earlier contents stay in place.
pub proof fn lemma_blob_prefix(l: Layout, j: nat, k: nat)
    requires
        j <= k,
    ensures
        blob_upto(l, j).len() <= blob_upto(l, k).len(),
        blob_upto(l, k).subrange(0, blob_upto(l, j).len() as int) == blob_upto(l, j),
    decreases k,
{
    if j < k {
        lemma_blob_prefix(l, j, (k - 1) as nat);
        let a = blob_upto(l, (k - 1) as nat);
        assert(blob_upto(l, k).subrange(0, blob_upto(l, j).len() as int) =~= a.subrange(
            0,
            blob_upto(l, j).len() as int,
        ));
    } else {
        assert(blob_upto(l, k).subrange(0, blob_upto(l, j).len() as int) =~= blob_upto(l, j));
    }
}

/// Each record takes at least three stream bytes.
pub proof fn lemma_rec_len(l: Layout, i: nat)
    ensures
        rec_bytes(l, i).len() >= 3,
{
    lemma_varint_len(str_tag(l, 2 * i) as u32);
    lemma_varint_len(str_tag(l, 2 * i + 1) as u32);
    lemma_varint_len(l.cidx[i as int] as u32);
}

/// The stream only grows, strictly from record to record, and its earlier
/// contents stay in place.
pub proof fn lemma_stream_prefix(l: Layout, j: nat, k: nat)
    requires
        j <= k,
    ensures
        stream_upto(l, j).len() <= stream_upto(l, k).len(),
        j < k ==> stream_upto(l, j).len() < stream_upto(l, k).len(),
        stream_upto(l, k).subrange(0, stream_upto(l, j).len() as int) == stream_upto(l, j),
    decreases k,
{
    if j < k {
        lemma_stream_prefix(l, j, (k - 1) as nat);
        lemma_rec_len(l, (k - 1) as nat);
        let a = stream_upto(l, (k - 1) as nat);
        assert(stream_upto(l, k).subrange(0, stream_upto(l, j).len() as int) =~= a.subrange(
            0,
            stream_upto(l, j).len() as int,
        ));
    } else {
        assert(stream_upto(l, k).subrange(0, stream_upto(l, j).len() as int) =~= stream_upto(
            l,
            j,
        ));
    }
}

/// Record `i` sits in the stream right after the records before it.
pub proof fn lemma_rec_at(l: Layout, i: nat, n: nat)
    requires
        i < n,
    ensures
        bytes_at(stream_upto(l, n), stream_upto(l, i).len() as int, rec_bytes(l, i)),
        stream_upto(l, i + 1).len() == stream_upto(l, i).len() + rec_bytes(l, i).len(),
{
    lemma_stream_prefix(l, i + 1, n);
    let s = stream_upto(l, i + 1);
    assert(s.subrange(stream_upto(l, i).len() as int, s.len() as int) =~= rec_bytes(l, i));
    lemma_bytes_at_prefix(stream_upto(l, n), s, stream_upto(l, i).len() as int, rec_bytes(l, i));
}

/// Positions in the stream tell records apart.
pub proof fn lemma_stream_pos_injective(l: Layout, j: nat, k: nat)
    requires
        stream_upto(l, j).len() == stream_upto(l, k).len(),
    ensures
        j == k,
{
    if j < k {
        lemma_stream_prefix(l, j, k);
    } else if k < j {
        lemma_stream_prefix(l, k, j);
    }
}

/// Entry `b` sits at `b * INDEX_ENTRY_SIZE` in the index.
pub proof fn lemma_index_entry(l: Layout, b: nat, nb: nat)
    requires
        b < nb,
    ensures
        index_upto(l, nb).len() == nb * 12,
        bytes_at(index_upto(l, nb), (b * 12) as int, entry_bytes(l, b)),
    decreases nb,
{
    lemma_index_len(l, nb);
    if b + 1 == nb {
        let s = index_upto(l, nb);
        lemma_index_len(l, b);
        assert(s.subrange((b * 12) as int, (b * 12 + 12) as int) =~= entry_bytes(l, b));
    } else {
        lemma_index_entry(l, b, (nb - 1) as nat);
        let t = index_upto(l, (nb - 1) as nat);
        assert(index_upto(l, nb).subrange(0, t.len() as int) =~= t);
        lemma_bytes_at_prefix(index_upto(l, nb), t, (b * 12) as int, entry_bytes(l, b));
    }
}

proof fn lemma_index_len(l: Layout, nb: nat)
    ensures
        index_upto(l, nb).len() == nb * 12,
    decreases nb,
{
    if nb > 0 {
        lemma_index_len(l, (nb - 1) as nat);
    }
}

/// Code `c` sits at `2 * c` in the country table.
pub proof fn lemma_codes_at(codes: Seq<Seq<u8>>, c: nat, nc: nat)
    requires
        c < nc <= codes.len(),
        forall|i: int| 0 <= i < codes.len() ==> #[trigger] codes[i].len() == 2,
    ensures
        codes_upto(codes, nc).len() == nc * 2,
        bytes_at(codes_upto(codes, nc), (c * 2) as int, codes[c as int]),
    decreases nc,
{
    lemma_codes_len(codes, nc);
    if c + 1 == nc {
        lemma_codes_len(codes, c);
        assert(codes_upto(codes, nc).subrange((c * 2) as int, (c * 2 + 2) as int) =~= codes[c as int]);
    } else {
        lemma_codes_at(codes, c, (nc - 1) as nat);
        let t = codes_upto(codes, (nc - 1) as nat);
        assert(codes_upto(codes, nc).subrange(0, t.len() as int) =~= t);
        lemma_bytes_at_prefix(codes_upto(codes, nc), t, (c * 2) as int, codes[c as int]);
    }
}

pub proof fn lemma_codes_len(codes: Seq<Seq<u8>>, nc: nat)
    requires
        nc <= codes.len(),
        forall|i: int| 0 <= i < codes.len() ==> #[trigger] codes[i].len() == 2,
    ensures
        codes_upto(codes, nc).len() == nc * 2,
    decreases nc,
{
    if nc > 0 {
        lemma_codes_len(codes, (nc - 1) as nat);
    }
}

/// Two layouts with the same records that agree on the strings before
/// `2 * i` and the country indices before `i` have the same tables up to
/// record `i`.
pub open spec fn agree_upto(l1: Layout, l2: Layout, i: nat) -> bool {
    &&& l1.rows == l2.rows
    &&& l1.codes == l2.codes
    &&& 2 * i <= l1.refs.len()
    &&& 2 * i <= l2.refs.len()
    &&& i <= l1.cidx.len()
    &&& i <= l2.cidx.len()
    &&& forall|k: int| 0 <= k < 2 * i ==> l1.refs[k] == l2.refs[k]
    &&& forall|j: int| 0 <= j < i ==> l1.cidx[j] == l2.cidx[j]
}

pub proof fn lemma_blob_ext(l1: Layout, l2: Layout, k: nat)
    requires
        l1.rows == l2.rows,
        forall|j: int| 0 <= j < k ==> l1.refs[j] == l2.refs[j],
    ensures
        blob_upto(l1, k) == blob_upto(l2, k),
    decreases k,
{
    if k > 0 {
        lemma_blob_ext(l1, l2, (k - 1) as nat);
    }
}

pub proof fn lemma_stream_ext(l1: Layout, l2: Layout, i: nat)
    requires
        agree_upto(l1, l2, i),
    ensures
        stream_upto(l1, i) == stream_upto(l2, i),
    decreases i,
{
    if i > 0 {
        let j = (i - 1) as nat;
        assert(agree_upto(l1, l2, j));
        lemma_stream_ext(l1, l2, j);
        lemma_blob_ext(l1, l2, 2 * j);
        lemma_blob_ext(l1, l2, 2 * j + 1);
        assert(rec_bytes(l1, j) == rec_bytes(l2, j));
    }
}

pub proof fn lemma_block_start_below(b: nat, i: nat)
    requires
        b < blocks_of(i),
    ensures
        block_start(b) < i,
{
    assert(b * 32 < i) by (nonlinear_arith)
        requires
            b < (i + 31) / 32,
    ;
}

pub proof fn lemma_index_ext(l1: Layout, l2: Layout, i: nat, b: nat)
    requires
        agree_upto(l1, l2, i),
        b <= blocks_of(i),
    ensures
        index_upto(l1, b) == index_upto(l2, b),
    decreases b,
{
    if b > 0 {
        let c = (b - 1) as nat;
        lemma_index_ext(l1, l2, i, c);
        lemma_block_start_below(c, i);
        let s = block_start(c);
        assert(agree_upto(l1, l2, s));
        lemma_stream_ext(l1, l2, s);
        lemma_blob_ext(l1, l2, 2 * s);
    }
}

/// What is settled of records before `i` stays true in an agreeing layout.
pub proof fn lemma_prefix_facts_ext(l1: Layout, l2: Layout, i: nat)
    requires
        agree_upto(l1, l2, i),
    ensures
        forall|k: int| 0 <= k < 2 * i ==> #[trigger] str_ok(l1, k) == str_ok(l2, k),
        forall|j: int| 0 <= j < i ==> #[trigger] row_ok(l1, j) == row_ok(l2, j),
        forall|b: nat| b < blocks_of(i) ==> #[trigger] block_ok(l1, b) == block_ok(l2, b),
{
    assert forall|k: int| 0 <= k < 2 * i implies #[trigger] str_ok(l1, k) == str_ok(l2, k) by {
        lemma_blob_ext(l1, l2, k as nat);
    }
    assert forall|b: nat| b < blocks_of(i) implies #[trigger] block_ok(l1, b) == block_ok(l2, b) by {
        lemma_block_start_below(b, i);
        let s = block_start(b);
        assert(agree_upto(l1, l2, s));
        lemma_stream_ext(l1, l2, s);
        lemma_blob_ext(l1, l2, 2 * s);
    }
}

/// How the block count moves from one record to the next.
pub proof fn lemma_blocks_of_step(j: nat)
    ensures
        j % (BLOCK_SIZE as nat) == 0 ==> blocks_of(j + 1) == blocks_of(j) + 1,
        j % (BLOCK_SIZE as nat) != 0 ==> blocks_of(j + 1) == blocks_of(j),
        j % (BLOCK_SIZE as nat) == 0 ==> block_start(blocks_of(j)) == j,
        j % (BLOCK_SIZE as nat) != 0 ==> block_start(blocks_of(j)) > j,
{
    assert(j % 32 == 0 ==> (j + 32) / 32 == (j + 31) / 32 + 1) by (nonlinear_arith);
    assert(j % 32 != 0 ==> (j + 32) / 32 == (j + 31) / 32) by (nonlinear_arith);
    assert(j % 32 == 0 ==> ((j + 31) / 32) * 32 == j) by (nonlinear_arith);
    assert(j % 32 != 0 ==> ((j + 31) / 32) * 32 > j) by (nonlinear_arith);
}

} // verus!
