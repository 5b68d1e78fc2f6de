//! Building the tables of a dataset from its records.
use vstd::prelude::*;
use vstd::std_specs::hash::group_hash_axioms;
use std::collections::HashMap;
use vstd::string::StringSliceAdditionalSpecFns;
use crate::format::{
    blob_upto, block_ok, blocks_of, bytes_at, codes_upto, delta_bytes, entry_bytes, index_upto,
    layout_ok, le_bytes, lemma_blob_ext, lemma_blob_prefix, rec_bytes, row_ok, str_bytes,
    block_start, str_ok, str_tag, stream_upto, strictly_sorted, text_of, Layout, BLOCK_SIZE,
};
use crate::Table;
use crate::varint::{put_varint, varint_bytes};
use crate::format::AsInfoView;
use crate::{AsInfo, Country};
use crate::format::is_country_code;

verus! {

broadcast use group_hash_axioms;

/// Lexicographic order on pairs.
pub open spec fn pair_le(a: (u64, u64), b: (u64, u64)) -> bool {
    a.0 < b.0 || (a.0 == b.0 && a.1 <= b.1)
}

/// Calls `<[(u64, u64)]>::sort` (`slice::sort`). Claimed of it, as its
/// documentation says: afterwards the vector holds the same pairs, in
/// ascending order (pairs compare lexicographically).
#[verifier::external_body]
fn sort_pairs(v: &mut Vec<(u64, u64)>)
    ensures
        final(v)@.to_multiset() == old(v)@.to_multiset(),
        forall|i: int, j: int|
            0 <= i < j < final(v)@.len() ==> #[trigger] pair_le(final(v)@[i], final(v)@[j]),
{
    v.sort();
}

/// Modulus of the string hash.
pub const HASH_MODULUS: u64 = 4294967291;

/// Polynomial hash of a byte string, used to find earlier copies of a
/// string.
pub open spec fn text_hash(s: Seq<u8>) -> u64
    decreases s.len(),
{
    if s.len() == 0 {
        0
    } else {
        ((text_hash(s.drop_last()) * 257 + s.last()) % (HASH_MODULUS as int)) as u64
    }
}

proof fn lemma_text_hash_bound(s: Seq<u8>)
    ensures
        text_hash(s) < HASH_MODULUS,
    decreases s.len(),
{
    if s.len() > 0 {
        lemma_text_hash_bound(s.drop_last());
    }
}

fn hash_bytes(bytes: &[u8]) -> (res: u64)
    ensures
        res == text_hash(bytes@),
{
    let mut h: u64 = 0;
    let mut i: usize = 0;
    while i < bytes.len()
        invariant
            i <= bytes@.len(),
            h == text_hash(bytes@.take(i as int)),
        decreases bytes@.len() - i,
    {
        proof {
            lemma_text_hash_bound(bytes@.take(i as int));
            assert(bytes@.take(i + 1).drop_last() =~= bytes@.take(i as int));
        }
        h = (h * 257 + bytes[i] as u64) % HASH_MODULUS;
        i = i + 1;
    }
    proof {
        assert(bytes@.take(i as int) =~= bytes@);
    }
    h
}

/// Appends the little-endian bytes of `x` to `out`.
fn put_le_u32(out: &mut Vec<u8>, x: u32)
    ensures
        final(out)@ == old(out)@ + le_bytes(x),
{
    proof {
        assert((x & 0xFFu32) as u8 == (x % 256) as u8) by (bit_vector);
        assert(((x >> 8u32) & 0xFFu32) as u8 == ((x / 256) % 256) as u8) by (bit_vector);
        assert(((x >> 16u32) & 0xFFu32) as u8 == ((x / 65536) % 256) as u8) by (bit_vector);
        assert((x >> 24u32) as u8 == (x / 16777216) as u8) by (bit_vector);
    }
    out.push((x & 0xFF) as u8);
    out.push(((x >> 8) & 0xFF) as u8);
    out.push(((x >> 16) & 0xFF) as u8);
    out.push((x >> 24) as u8);
    assert(final(out)@ =~= old(out)@ + le_bytes(x));
}

/// `hay` holds `needle` at `pos`.
fn bytes_equal_at(hay: &[u8], pos: usize, needle: &[u8]) -> (res: bool)
    ensures
        res == bytes_at(hay@, pos as int, needle@),
{
    let len = needle.len();
    if pos > hay.len() || len > hay.len() - pos {
        return false;
    }
    let mut i: usize = 0;
    while i < len
        invariant
            len == needle@.len(),
            pos + len <= hay.len(),
            i <= len,
            forall|j: int| 0 <= j < i ==> hay@[pos + j] == needle@[j],
        decreases len - i,
    {
        if hay[pos + i] != needle[i] {
            assert(hay@.subrange(pos as int, pos + len)[i as int] != needle@[i as int]);
            return false;
        }
        i = i + 1;
    }
    assert(hay@.subrange(pos as int, pos + len) =~= needle@);
    true
}

/// Why the tables of a list of records could not be built.
#[derive(Debug, Clone, Copy, PartialEq, Eq, Structural)]
pub enum BuildError {
    /// There are no records.
    NoRows,
    /// Two records have this ASN.
    DuplicateAsn(u32),
    /// A position, length or distance does not fit in 32 bits.
    TooLarge,
}

/// An entry of the string pool: a string laid out as new, at `.0` in the
/// order of strings, at blob offset `.1`, with byte length `.2`.
pub open spec fn entry_ok(l: Layout, k: nat, h: u64, e: (usize, usize, usize)) -> bool {
    &&& e.0 < k
    &&& l.refs[e.0 as int] is None
    &&& e.1 == blob_upto(l, e.0 as nat).len()
    &&& e.2 == text_of(l.rows, e.0 as int).len()
    &&& text_hash(text_of(l.rows, e.0 as int)) == h
}

/// String `j` is listed in the pool under its hash.
pub open spec fn listed(pool: Map<u64, Vec<(usize, usize, usize)>>, l: Layout, j: int) -> bool {
    let h = text_hash(text_of(l.rows, j));
    &&& pool.contains_key(h)
    &&& pool[h]@.contains(
        (j as usize, blob_upto(l, j as nat).len() as usize, text_of(l.rows, j).len() as usize),
    )
}

/// The pool lists exactly the strings before `k` that were laid out as new.
pub open spec fn pool_ok(pool: Map<u64, Vec<(usize, usize, usize)>>, l: Layout, k: nat) -> bool {
    &&& forall|h: u64, x: int|
        pool.contains_key(h) && 0 <= x < pool[h]@.len() ==> #[trigger] entry_ok(
            l,
            k,
            h,
            pool[h]@[x],
        )
    &&& forall|j: int| 0 <= j < k && l.refs[j] is None ==> #[trigger] listed(pool, l, j)
}

/// String `j` is new exactly when no earlier string has the same text,
/// and otherwise refers to the first copy.
pub open spec fn first_ok(l: Layout, j: int) -> bool {
    match l.refs[j] {
        None => forall|i: int| 0 <= i < j ==> text_of(l.rows, i) != text_of(l.rows, j),
        Some(o) => exists|f: int|
            0 <= f < j && l.refs[f] is None && #[trigger] text_of(l.rows, f) == text_of(l.rows, j)
                && o == blob_upto(l, f as nat).len(),
    }
}

/// Strings are interned: every string before `k` is new exactly when it
/// has not occurred before, and otherwise refers to its first copy.
pub open spec fn dedup_ok(l: Layout, k: nat) -> bool {
    forall|j: int| 0 <= j < k ==> #[trigger] first_ok(l, j)
}

/// The layout `l` with one more string reference.
pub open spec fn with_ref(l: Layout, r: Option<nat>) -> Layout {
    Layout { refs: l.refs.push(r), ..l }
}

/// A first copy of `j`'s text sits at `blob_upto(l, j)` in any later blob.
proof fn lemma_first_copy_in_blob(l: Layout, j: nat, k: nat)
    requires
        j < k,
        j < l.refs.len(),
        l.refs[j as int] is None,
    ensures
        bytes_at(blob_upto(l, k), blob_upto(l, j).len() as int, text_of(l.rows, j as int)),
{
    lemma_blob_prefix(l, j + 1, k);
    let b = blob_upto(l, j + 1);
    assert(b.subrange(blob_upto(l, j).len() as int, b.len() as int) =~= text_of(l.rows, j as int));
    crate::format::lemma_bytes_at_prefix(
        blob_upto(l, k),
        b,
        blob_upto(l, j).len() as int,
        text_of(l.rows, j as int),
    );
}

proof fn lemma_pool_keep(pool: Map<u64, Vec<(usize, usize, usize)>>, l: Layout, l2: Layout, k: nat)
    requires
        pool_ok(pool, l, k),
        l.refs.len() == k,
        l2 == with_ref(l, l2.refs[k as int]),
        l2.refs[k as int] is Some,
    ensures
        pool_ok(pool, l2, k + 1),
{
    assert forall|h: u64, x: int| pool.contains_key(h) && 0 <= x < pool[h]@.len() implies #[trigger] entry_ok(
        l2,
        k + 1,
        h,
        pool[h]@[x],
    ) by {
        assert(entry_ok(l, k, h, pool[h]@[x]));
        lemma_blob_ext(l, l2, pool[h]@[x].0 as nat);
    }
    assert forall|j: int| 0 <= j < k + 1 && l2.refs[j] is None implies #[trigger] listed(
        pool,
        l2,
        j,
    ) by {
        assert(j < k);
        assert(listed(pool, l, j));
        lemma_blob_ext(l, l2, j as nat);
    }
}

/// When the pool holds no copy of string `k`'s text, no earlier string
/// has that text.
proof fn lemma_no_copy(pool: Map<u64, Vec<(usize, usize, usize)>>, l: Layout, k: nat, h: u64)
    requires
        pool_ok(pool, l, k),
        dedup_ok(l, k),
        l.refs.len() == k,
        k <= usize::MAX,
        h == text_hash(text_of(l.rows, k as int)),
        pool.contains_key(h) ==> forall|x: int|
            0 <= x < pool[h]@.len() ==> !(#[trigger] pool[h]@[x].2 == text_of(
                l.rows,
                k as int,
            ).len() && bytes_at(blob_upto(l, k), pool[h]@[x].1 as int, text_of(l.rows, k as int))),
    ensures
        forall|i: int| 0 <= i < k ==> text_of(l.rows, i) != text_of(l.rows, k as int),
{
    let text = text_of(l.rows, k as int);
    assert forall|i: int| 0 <= i < k implies text_of(l.rows, i) != text by {
        if text_of(l.rows, i) == text {
            assert(first_ok(l, i));
            if l.refs[i] is None {
                lemma_listed_copy(pool, l, k, h, i);
            } else {
                let f = choose|f: int|
                    0 <= f < i && l.refs[f] is None && #[trigger] text_of(l.rows, f) == text_of(
                        l.rows,
                        i,
                    ) && l.refs[i]->Some_0 == blob_upto(l, f as nat).len();
                lemma_listed_copy(pool, l, k, h, f);
            }
        }
    }
}

/// A string laid out as new before `k` with the same text as string `k`
/// is found in the pool under `k`'s hash.
proof fn lemma_listed_copy(pool: Map<u64, Vec<(usize, usize, usize)>>, l: Layout, k: nat, h: u64, f: int)
    requires
        pool_ok(pool, l, k),
        l.refs.len() == k,
        k <= usize::MAX,
        0 <= f < k,
        l.refs[f] is None,
        text_of(l.rows, f) == text_of(l.rows, k as int),
        h == text_hash(text_of(l.rows, k as int)),
    ensures
        pool.contains_key(h),
        exists|x: int|
            0 <= x < pool[h]@.len() && #[trigger] pool[h]@[x].2 == text_of(l.rows, k as int).len()
                && bytes_at(blob_upto(l, k), pool[h]@[x].1 as int, text_of(l.rows, k as int)),
{
    assert(listed(pool, l, f));
    let e = (f as usize, blob_upto(l, f as nat).len() as usize, text_of(l.rows, f).len() as usize);
    assert(pool[h]@.contains(e));
    let x = choose|x: int| 0 <= x < pool[h]@.len() && pool[h]@[x] == e;
    assert(entry_ok(l, k, h, pool[h]@[x]));
    lemma_first_copy_in_blob(l, f as nat, k);
    assert(pool[h]@[x].2 == text_of(l.rows, k as int).len());
    assert(bytes_at(blob_upto(l, k), pool[h]@[x].1 as int, text_of(l.rows, k as int)));
}

/// Adding string `k`, laid out as new, to the pool under its hash.
proof fn lemma_pool_add(pool: Map<u64, Vec<(usize, usize, usize)>>, nb: Vec<(usize, usize, usize)>, l: Layout, k: nat, h: u64)
    requires
        pool_ok(pool, l, k),
        l.refs.len() == k,
        h == text_hash(text_of(l.rows, k as int)),
        blob_upto(l, k).len() <= usize::MAX,
        text_of(l.rows, k as int).len() <= usize::MAX,
        k <= usize::MAX,
        nb@ == (if pool.contains_key(h) {
            pool[h]@
        } else {
            Seq::<(usize, usize, usize)>::empty()
        }).push((k as usize, blob_upto(l, k).len() as usize, text_of(l.rows, k as int).len() as usize)),
    ensures
        pool_ok(pool.insert(h, nb), with_ref(l, None), k + 1),
{
    let l2 = with_ref(l, None);
    let np = pool.insert(h, nb);
    let entry = (k as usize, blob_upto(l, k).len() as usize, text_of(l.rows, k as int).len() as usize);
    lemma_blob_ext(l, l2, k);
    assert forall|g: u64, x: int| np.contains_key(g) && 0 <= x < np[g]@.len() implies #[trigger] entry_ok(
        l2,
        k + 1,
        g,
        np[g]@[x],
    ) by {
        if g == h && x == np[g]@.len() - 1 {
            assert(np[g]@[x] == entry);
        } else {
            assert(pool.contains_key(g) && np[g]@[x] == pool[g]@[x]);
            assert(entry_ok(l, k, g, pool[g]@[x]));
            lemma_blob_ext(l, l2, pool[g]@[x].0 as nat);
        }
    }
    assert forall|j: int| 0 <= j < k + 1 && l2.refs[j] is None implies #[trigger] listed(
        np,
        l2,
        j,
    ) by {
        lemma_blob_ext(l, l2, j as nat);
        if j == k {
            assert(np[h]@[np[h]@.len() - 1] == entry);
        } else {
            assert(listed(pool, l, j));
            let g = text_hash(text_of(l.rows, j));
            let e = (j as usize, blob_upto(l, j as nat).len() as usize, text_of(l.rows, j).len() as usize);
            let x = choose|x: int| 0 <= x < pool[g]@.len() && pool[g]@[x] == e;
            assert(np[g]@[x] == e);
        }
    }
}

/// Looks in the pool, under hash `h`, for a string laid out earlier in
/// `blob` with the same bytes as `bytes`.
fn find_copy(
    pool: &HashMap<u64, Vec<(usize, usize, usize)>>,
    blob: &Vec<u8>,
    h: u64,
    bytes: &[u8],
) -> (res: Option<(usize, usize, usize)>)
    ensures
        res matches Some(e) ==> pool@.contains_key(h) && pool@[h]@.contains(e) && e.2
            == bytes@.len() && bytes_at(blob@, e.1 as int, bytes@),
        res is None ==> (pool@.contains_key(h) ==> forall|x: int|
            0 <= x < pool@[h]@.len() ==> !(#[trigger] pool@[h]@[x].2 == bytes@.len() && bytes_at(
                blob@,
                pool@[h]@[x].1 as int,
                bytes@,
            ))),
{
    match pool.get(&h) {
        None => None,
        Some(bucket) => {
            let mut x: usize = 0;
            while x < bucket.len()
                invariant
                    pool@.contains_key(h),
                    pool@[h] == *bucket,
                    x <= bucket@.len(),
                    forall|y: int|
                        0 <= y < x ==> !(#[trigger] bucket@[y].2 == bytes@.len() && bytes_at(
                            blob@,
                            bucket@[y].1 as int,
                            bytes@,
                        )),
                decreases bucket@.len() - x,
            {
                let e = bucket[x];
                if e.2 == bytes.len() && bytes_equal_at(blob.as_slice(), e.1, bytes) {
                    assert(bucket@[x as int] == e);
                    return Some(e);
                }
                x = x + 1;
            }
            None
        },
    }
}

/// Lays out string `k` (the text of `s`): as a back-reference when an
/// earlier string has the same text, else as a new string appended to the
/// blob. Returns how it was laid out.
fn encode_string(
    stream: &mut Vec<u8>,
    blob: &mut Vec<u8>,
    pool: &mut HashMap<u64, Vec<(usize, usize, usize)>>,
    s: &str,
    k: usize,
    Ghost(l): Ghost<Layout>,
) -> (res: Result<Ghost<Option<nat>>, BuildError>)
    requires
        l.refs.len() == k,
        k < 2 * l.rows.len(),
        text_of(l.rows, k as int) == s.spec_bytes(),
        old(blob)@ == blob_upto(l, k as nat),
        pool_ok(old(pool)@, l, k as nat),
        dedup_ok(l, k as nat),
    ensures
        match res {
            Ok(r) => {
                let l2 = with_ref(l, r@);
                &&& final(stream)@ == old(stream)@ + str_bytes(l2, k as nat)
                &&& final(blob)@ == blob_upto(l2, (k + 1) as nat)
                &&& pool_ok(final(pool)@, l2, (k + 1) as nat)
                &&& dedup_ok(l2, (k + 1) as nat)
                &&& str_ok(l2, k as int)
            },
            Err(e) => e == BuildError::TooLarge && forall|r: Option<nat>|
                #[trigger] dedup_ok(with_ref(l, r), (k + 1) as nat) ==> !str_ok(with_ref(l, r), k as int),
        },
{
    let ghost pool0 = pool@;
    let bytes = s.as_bytes();
    let len = bytes.len();
    if len > 0x7FFF_FFFF {
        proof {
            lemma_long_text(l, k as nat);
        }
        return Err(BuildError::TooLarge);
    }
    let tag = (len as u32) << 1;
    proof {
        assert(tag == 2 * len) by (bit_vector)
            requires
                tag == (len as u32) << 1u32,
                len <= 0x7FFF_FFFF,
        ;
        assert(tag | 1u32 == tag + 1) by (bit_vector)
            requires
                tag == 2 * len,
                len <= 0x7FFF_FFFF,
        ;
    }
    let h = hash_bytes(bytes);
    let ghost text = text_of(l.rows, k as int);
    match find_copy(pool, blob, h, bytes) {
        Some(e) => {
            let ghost o = e.1 as nat;
            let ghost l2 = with_ref(l, Some(o));
            proof {
                let x = choose|x: int| 0 <= x < pool@[h]@.len() && pool@[h]@[x] == e;
                assert(entry_ok(l, k as nat, h, pool@[h]@[x]));
                assert(entry_ok(l, k as nat, h, e));
                lemma_first_copy_in_blob(l, e.0 as nat, k as nat);
                assert(text_of(l.rows, e.0 as int) == text) by {
                    assert(blob@.subrange(e.1 as int, e.1 + e.2) == text_of(l.rows, e.0 as int));
                }
            }
            if blob.len() - e.1 > 0xFFFF_FFFF {
                proof {
                    lemma_far_copy(l, k as nat, e.0 as nat);
                }
                return Err(BuildError::TooLarge);
            }
            let dist = (blob.len() - e.1) as u32;
            put_varint(stream, tag | 1);
            put_varint(stream, dist);
            proof {
                lemma_blob_ext(l, l2, k as nat);
                assert(blob_upto(l2, (k + 1) as nat) =~= blob_upto(l2, k as nat));
                assert(str_tag(l2, k as nat) == tag + 1);
                assert(str_bytes(l2, k as nat) == varint_bytes(tag | 1) + varint_bytes(dist));
                assert(final(stream)@ =~= old(stream)@ + str_bytes(l2, k as nat));
                assert forall|j: int| 0 <= j < k + 1 implies #[trigger] first_ok(l2, j) by {
                    if j < k {
                        assert(first_ok(l, j));
                        if l.refs[j] is Some {
                            let f = choose|f: int|
                                0 <= f < j && l.refs[f] is None && #[trigger] text_of(l.rows, f)
                                    == text_of(l.rows, j) && l.refs[j]->Some_0 == blob_upto(
                                    l,
                                    f as nat,
                                ).len();
                            lemma_blob_ext(l, l2, f as nat);
                        }
                    } else {
                        assert(l2.refs[e.0 as int] is None);
                        lemma_blob_ext(l, l2, e.0 as nat);
                    }
                }
                assert(blob@.subrange(e.1 as int, e.1 + e.2) == text);
                lemma_pool_keep(pool@, l, l2, k as nat);
            }
            Ok(Ghost(Some(o)))
        },
        None => {
            let ghost l2 = with_ref(l, None);
            put_varint(stream, tag);
            proof {
                lemma_no_copy(pool@, l, k as nat, h);
            }
            let mut bucket = match pool.remove(&h) {
                Some(b) => b,
                None => Vec::new(),
            };
            let ghost old_bucket = bucket@;
            assert(old_bucket == if pool0.contains_key(h) {
                pool0[h]@
            } else {
                Seq::<(usize, usize, usize)>::empty()
            });
            let entry = (k, blob.len(), len);
            bucket.push(entry);
            let ghost pool_before = pool@;
            pool.insert(h, bucket);
            let ghost blob_before = blob@;
            blob.extend_from_slice(bytes);
            proof {
                assert(blob@ =~= blob_before + bytes@);
                lemma_blob_ext(l, l2, k as nat);
                assert(blob_upto(l2, (k + 1) as nat) =~= blob_upto(l, k as nat) + text);
                assert(str_bytes(l2, k as nat) =~= varint_bytes(tag));
                assert(pool@ =~= pool0.insert(h, pool@[h]));
                lemma_pool_add(pool0, pool@[h], l, k as nat, h);
                assert forall|j: int| 0 <= j < k + 1 implies #[trigger] first_ok(l2, j) by {
                    if j < k {
                        assert(first_ok(l, j));
                        if l.refs[j] is Some {
                            let f = choose|f: int|
                                0 <= f < j && l.refs[f] is None && #[trigger] text_of(l.rows, f)
                                    == text_of(l.rows, j) && l.refs[j]->Some_0 == blob_upto(
                                    l,
                                    f as nat,
                                ).len();
                            lemma_blob_ext(l, l2, f as nat);
                        }
                    }
                }
            }
            Ok(Ghost(None))
        },
    }
}

/// The views of a list of records.
pub open spec fn views<'a>(rows: Seq<AsInfo<'a>>) -> Seq<AsInfoView> {
    rows.map_values(|r: AsInfo<'a>| r@)
}

/// Two records share an ASN.
pub open spec fn has_duplicate(v: Seq<AsInfoView>) -> bool {
    exists|i: int, j: int| 0 <= i < j < v.len() && #[trigger] v[i].asn == #[trigger] v[j].asn
}

/// `a` is the least ASN that two records share.
pub open spec fn least_duplicate(v: Seq<AsInfoView>, a: u32) -> bool {
    &&& exists|i: int, j: int| 0 <= i < j < v.len() && #[trigger] v[i].asn == a && #[trigger] v[j].asn == a
    &&& forall|i: int, j: int| 0 <= i < j < v.len() && #[trigger] v[i].asn == #[trigger] v[j].asn ==> a <= v[i].asn
}

/// The records `v` fit the format: their layout keeps every position,
/// length and distance that the tables store within 32 bits.
pub open spec fn fits_format(v: Seq<AsInfoView>) -> bool {
    exists|l: Layout| #[trigger] layout_of(l, v) && layout_ok(l)
}

/// Each record's ASN paired with its position.
pub open spec fn asn_pairs(v: Seq<AsInfoView>) -> Seq<(u64, u64)> {
    Seq::new(v.len(), |k: int| (v[k].asn as u64, k as u64))
}

/// The records in the order given by `order`.
pub open spec fn arrange(v: Seq<AsInfoView>, order: Seq<(u64, u64)>) -> Seq<AsInfoView> {
    order.map_values(|p: (u64, u64)| v[p.1 as int])
}

/// What sorting the ASN pairs tells of the order: each entry names a
/// record by position, with that record's ASN, and every record is named.
proof fn lemma_order_facts(v: Seq<AsInfoView>, order: Seq<(u64, u64)>)
    requires
        v.len() <= usize::MAX,
        order.to_multiset() == asn_pairs(v).to_multiset(),
    ensures
        order.len() == v.len(),
        order.no_duplicates(),
        forall|i: int|
            0 <= i < order.len() ==> (#[trigger] order[i]).1 < v.len() && order[i].0 == v[order[i].1
                as int].asn,
        forall|k: int| 0 <= k < v.len() ==> order.contains(#[trigger] asn_pairs(v)[k]),
{
    broadcast use vstd::seq_lib::group_to_multiset_ensures;

    let p = asn_pairs(v);
    assert(p.to_multiset().len() == p.len());
    assert(order.to_multiset().len() == order.len());
    assert forall|i: int| 0 <= i < order.len() implies (#[trigger] order[i]).1 < v.len()
        && order[i].0 == v[order[i].1 as int].asn by {
        assert(order.to_multiset().count(order[i]) > 0);
        assert(p.contains(order[i]));
        let k = choose|k: int| 0 <= k < p.len() && p[k] == order[i];
        assert(p[k].1 as int == k);
    }
    assert forall|k: int| 0 <= k < v.len() implies order.contains(#[trigger] asn_pairs(v)[k]) by {
        assert(p.to_multiset().count(p[k]) > 0);
    }
    assert(p.no_duplicates()) by {
        assert forall|i: int, j: int| 0 <= i < p.len() && 0 <= j < p.len() && i != j implies p[i]
            != p[j] by {
            assert(p[i].1 == i as u64);
        }
    }
    p.lemma_multiset_has_no_duplicates();
    assert forall|x: (u64, u64)| order.to_multiset().contains(x) implies order.to_multiset().count(
        x,
    ) == 1 by {
        assert(p.to_multiset().contains(x));
    }
    order.lemma_multiset_has_no_duplicates_conv();
}

/// The ASN pairs of `rows`, in ascending order.
fn sorted_order(rows: &[AsInfo]) -> (order: Vec<(u64, u64)>)
    ensures
        order@.to_multiset() == asn_pairs(views(rows@)).to_multiset(),
        forall|i: int, j: int|
            0 <= i < j < order@.len() ==> #[trigger] pair_le(order@[i], order@[j]),
{
    let ghost v = views(rows@);
    let mut order: Vec<(u64, u64)> = Vec::new();
    let mut k: usize = 0;
    while k < rows.len()
        invariant
            v == views(rows@),
            k <= rows@.len(),
            order@ =~= asn_pairs(v).take(k as int),
        decreases rows@.len() - k,
    {
        order.push((rows[k].asn as u64, k as u64));
        k = k + 1;
    }
    assert(order@ =~= asn_pairs(v));
    sort_pairs(&mut order);
    order
}

/// Entries `x` and `x + 1` of the order have different ASNs.
pub open spec fn neighbours_differ(order: Seq<(u64, u64)>, x: int) -> bool {
    order[x].0 != order[x + 1].0
}

/// The first ASN that two neighbours of the sorted order share, if any.
fn find_duplicate(order: &Vec<(u64, u64)>) -> (res: Option<usize>)
    ensures
        res matches Some(w) ==> w + 1 < order@.len() && order@[w as int].0 == order@[w + 1].0
            && forall|x: int| 0 <= x < w ==> #[trigger] neighbours_differ(order@, x),
        res is None ==> forall|x: int| 0 <= x < order@.len() - 1 ==> #[trigger] neighbours_differ(order@, x),
{
    let mut w: usize = 0;
    while w < order.len() && w + 1 < order.len()
        invariant
            w <= order@.len(),
            forall|x: int| 0 <= x < w ==> #[trigger] neighbours_differ(order@, x),
        decreases order@.len() - w,
    {
        if order[w].0 == order[w + 1].0 {
            return Some(w);
        }
        w = w + 1;
    }
    None
}

/// The two countries have the same code.
fn same_country(a: &Country, b: &Country) -> (res: bool)
    ensures
        res == (a@ == b@),
{
    let x = a.as_bytes();
    let y = b.as_bytes();
    let res = x[0] == y[0] && x[1] == y[1];
    proof {
        if x[0] == y[0] && x[1] == y[1] {
            assert(x@ =~= y@);
        }
    }
    res
}

/// Where `c` first occurs in `codes`, if anywhere.
fn find_country(codes: &Vec<Country>, c: &Country) -> (res: Option<usize>)
    ensures
        res matches Some(i) ==> i < codes@.len() && codes@[i as int]@ == c@ && forall|j: int|
            0 <= j < i ==> codes@[j]@ != c@,
        res is None ==> forall|j: int| 0 <= j < codes@.len() ==> codes@[j]@ != c@,
{
    let mut i: usize = 0;
    while i < codes.len()
        invariant
            i <= codes@.len(),
            forall|j: int| 0 <= j < i ==> codes@[j]@ != c@,
        decreases codes@.len() - i,
    {
        if same_country(&codes[i], c) {
            return Some(i);
        }
        i = i + 1;
    }
    None
}

/// The codes of a list of countries.
pub open spec fn code_views(codes: Seq<Country>) -> Seq<Seq<u8>> {
    codes.map_values(|c: Country| c@)
}

/// No code occurs twice.
pub open spec fn distinct_codes(codes: Seq<Seq<u8>>) -> bool {
    forall|i: int, j: int| 0 <= i < j < codes.len() ==> codes[i] != codes[j]
}

/// Some record has country `c`.
pub open spec fn used_code(v: Seq<AsInfoView>, c: Seq<u8>) -> bool {
    exists|k: int| 0 <= k < v.len() && #[trigger] v[k].country == c
}

/// `codes` is the country table of `v`: each of its countries once, most
/// frequent first, ties broken by code.
pub open spec fn country_table_of(codes: Seq<Seq<u8>>, v: Seq<AsInfoView>) -> bool {
    &&& distinct_codes(codes)
    &&& forall|c: int| 0 <= c < codes.len() ==> #[trigger] used_code(v, codes[c])
    &&& forall|k: int| 0 <= k < v.len() ==> codes.contains(#[trigger] v[k].country)
    &&& by_frequency(codes, v)
}

/// `codes` holds code `c`.
pub open spec fn holds_code(codes: Seq<Country>, c: Seq<u8>) -> bool {
    exists|i: int| 0 <= i < codes.len() && #[trigger] codes[i]@ == c
}

/// The distinct countries of `rows`, in order of first occurrence.
fn country_table(rows: &[AsInfo]) -> (codes: Vec<Country>)
    ensures
        distinct_codes(code_views(codes@)),
        codes@.len() <= rows@.len(),
        forall|c: int| 0 <= c < codes@.len() ==> #[trigger] is_country_code(codes@[c]@),
        forall|k: int| 0 <= k < rows@.len() ==> #[trigger] holds_code(codes@, rows@[k].country@),
        forall|c: int| 0 <= c < codes@.len() ==> #[trigger] used_code(views(rows@), codes@[c]@),
{
    let mut codes: Vec<Country> = Vec::new();
    let mut k: usize = 0;
    while k < rows.len()
        invariant
            k <= rows@.len(),
            codes@.len() <= k,
            distinct_codes(code_views(codes@)),
            forall|c: int| 0 <= c < codes@.len() ==> #[trigger] is_country_code(codes@[c]@),
            forall|k2: int| 0 <= k2 < k ==> #[trigger] holds_code(codes@, rows@[k2].country@),
            forall|c: int| 0 <= c < codes@.len() ==> #[trigger] used_code(views(rows@), codes@[c]@),
        decreases rows@.len() - k,
    {
        let country = rows[k].country;
        let _ = country.as_bytes();
        match find_country(&codes, &country) {
            Some(_) => {},
            None => {
                let ghost before = codes@;
                codes.push(country);
                proof {
                    assert(code_views(codes@) =~= code_views(before).push(country@));
                    assert forall|k2: int| 0 <= k2 < k implies #[trigger] holds_code(
                        codes@,
                        rows@[k2].country@,
                    ) by {
                        assert(holds_code(before, rows@[k2].country@));
                        let c = choose|c: int|
                            0 <= c < before.len() && #[trigger] before[c]@ == rows@[k2].country@;
                        assert(codes@[c] == before[c]);
                    }
                    assert(codes@[codes@.len() - 1]@ == rows@[k as int].country@);
                    assert(views(rows@)[k as int].country == rows@[k as int].country@);
                    assert forall|c: int| 0 <= c < codes@.len() implies #[trigger] used_code(
                        views(rows@),
                        codes@[c]@,
                    ) by {
                        if c < before.len() {
                            assert(codes@[c] == before[c]);
                            assert(used_code(views(rows@), before[c]@));
                        }
                    }
                }
            },
        }
        k = k + 1;
    }
    codes
}

/// The country index of `c`, which `codes` holds.
fn country_index(codes: &Vec<Country>, c: &Country) -> (res: usize)
    requires
        holds_code(codes@, c@),
    ensures
        res < codes@.len(),
        codes@[res as int]@ == c@,
{
    match find_country(codes, c) {
        Some(i) => i,
        None => {
            proof {
                let i = choose|i: int| 0 <= i < codes@.len() && #[trigger] codes@[i]@ == c@;
                assert(codes@[i]@ != c@);
            }
            0
        },
    }
}

/// Number of records of `v` with country `c`.
pub open spec fn country_count(v: Seq<AsInfoView>, c: Seq<u8>) -> nat
    decreases v.len(),
{
    if v.len() == 0 {
        0
    } else {
        country_count(v.drop_last(), c) + if v.last().country == c {
            1nat
        } else {
            0nat
        }
    }
}

/// A two-letter code as a number, so that codes order as their letters do.
pub open spec fn code_number(c: Seq<u8>) -> int {
    c[0] * 256 + c[1]
}

/// Country `a` comes before country `b` in the table: more records have
/// it, or as many and its code comes first.
pub open spec fn ranks_before(v: Seq<AsInfoView>, a: Seq<u8>, b: Seq<u8>) -> bool {
    ||| country_count(v, a) > country_count(v, b)
    ||| (country_count(v, a) == country_count(v, b) && code_number(a) < code_number(b))
}

/// The country table lists the countries of `v`, most frequent first,
/// ties broken by code.
pub open spec fn by_frequency(codes: Seq<Seq<u8>>, v: Seq<AsInfoView>) -> bool {
    forall|i: int, j: int| 0 <= i < j < codes.len() ==> #[trigger] ranks_before(v, codes[i], codes[j])
}

proof fn lemma_country_count_bound(v: Seq<AsInfoView>, c: Seq<u8>)
    ensures
        country_count(v, c) <= v.len(),
    decreases v.len(),
{
    if v.len() > 0 {
        lemma_country_count_bound(v.drop_last(), c);
    }
}

/// How many records have each country of `codes`.
fn count_countries(rows: &[AsInfo], codes: &Vec<Country>) -> (counts: Vec<u64>)
    requires
        distinct_codes(code_views(codes@)),
        forall|k: int| 0 <= k < rows@.len() ==> #[trigger] holds_code(codes@, rows@[k].country@),
    ensures
        counts@.len() == codes@.len(),
        forall|c: int| 0 <= c < codes@.len() ==> #[trigger] counts@[c] == country_count(views(rows@), codes@[c]@),
{
    let ghost v = views(rows@);
    let mut counts: Vec<u64> = Vec::new();
    let mut c: usize = 0;
    while c < codes.len()
        invariant
            c <= codes@.len(),
            counts@.len() == c,
            forall|x: int| 0 <= x < c ==> #[trigger] counts@[x] == 0,
        decreases codes@.len() - c,
    {
        counts.push(0);
        c = c + 1;
    }
    let mut k: usize = 0;
    while k < rows.len()
        invariant
            v == views(rows@),
            distinct_codes(code_views(codes@)),
            forall|k2: int| 0 <= k2 < rows@.len() ==> #[trigger] holds_code(codes@, rows@[k2].country@),
            k <= rows@.len(),
            counts@.len() == codes@.len(),
            forall|x: int| 0 <= x < codes@.len() ==> #[trigger] counts@[x] == country_count(v.take(k as int), codes@[x]@),
        decreases rows@.len() - k,
    {
        let ci = country_index(codes, &rows[k].country);
        proof {
            lemma_country_count_bound(v.take(k as int), codes@[ci as int]@);
            assert(v.take(k + 1).drop_last() =~= v.take(k as int));
            assert(v.take(k + 1).last() == rows@[k as int]@);
        }
        let n = counts[ci];
        counts.set(ci, n + 1);
        proof {
            assert forall|x: int| 0 <= x < codes@.len() implies #[trigger] counts@[x] == country_count(
                v.take(k + 1),
                codes@[x]@,
            ) by {
                if x != ci {
                    assert(code_views(codes@)[x] != code_views(codes@)[ci as int]) by {
                        if x < ci {
                            assert(code_views(codes@)[x] != code_views(codes@)[ci as int]);
                        } else {
                            assert(code_views(codes@)[ci as int] != code_views(codes@)[x]);
                        }
                    }
                }
            }
        }
        k = k + 1;
    }
    proof {
        assert(v.take(k as int) =~= v);
    }
    counts
}

/// A sorted rearrangement of pairs holds just the pairs it started from.
proof fn lemma_same_pairs(a: Seq<(u64, u64)>, b: Seq<(u64, u64)>)
    requires
        a.to_multiset() == b.to_multiset(),
        b.no_duplicates(),
    ensures
        a.len() == b.len(),
        a.no_duplicates(),
        forall|i: int| 0 <= i < a.len() ==> b.contains(#[trigger] a[i]),
        forall|c: int| 0 <= c < b.len() ==> a.contains(#[trigger] b[c]),
{
    broadcast use vstd::seq_lib::group_to_multiset_ensures;

    assert(a.to_multiset().len() == a.len());
    assert(b.to_multiset().len() == b.len());
    assert forall|i: int| 0 <= i < a.len() implies b.contains(#[trigger] a[i]) by {
        assert(a.to_multiset().count(a[i]) > 0);
    }
    assert forall|c: int| 0 <= c < b.len() implies a.contains(#[trigger] b[c]) by {
        assert(b.to_multiset().count(b[c]) > 0);
    }
    b.lemma_multiset_has_no_duplicates();
    assert forall|x: (u64, u64)| a.to_multiset().contains(x) implies a.to_multiset().count(x) == 1 by {
        assert(b.to_multiset().contains(x));
    }
    a.lemma_multiset_has_no_duplicates_conv();
}

/// The sort key of a country: fewer records first when reversed, then code.
pub open spec fn country_key(v: Seq<AsInfoView>, c: Seq<u8>) -> (u64, u64) {
    ((u64::MAX - country_count(v, c)) as u64, code_number(c) as u64)
}

proof fn lemma_frequency_facts(
    v: Seq<AsInfoView>,
    codes: Seq<Country>,
    keys0: Seq<(u64, u64)>,
    keys: Seq<(u64, u64)>,
    sorted: Seq<Country>,
    src: Seq<int>,
)
    requires
        v.len() <= usize::MAX,
        distinct_codes(code_views(codes)),
        forall|k: int| 0 <= k < v.len() ==> #[trigger] holds_code(codes, v[k].country),
        forall|c: int| 0 <= c < codes.len() ==> #[trigger] used_code(v, codes[c]@),
        forall|c: int| 0 <= c < codes.len() ==> #[trigger] is_country_code(codes[c]@),
        keys0.len() == codes.len(),
        keys0.no_duplicates(),
        keys.no_duplicates(),
        keys.len() == keys0.len(),
        forall|x: int| 0 <= x < keys0.len() ==> #[trigger] keys0[x] == country_key(v, codes[x]@),
        forall|c: int| 0 <= c < keys0.len() ==> keys.contains(#[trigger] keys0[c]),
        forall|i: int, j: int| 0 <= i < j < keys.len() ==> #[trigger] pair_le(keys[i], keys[j]),
        sorted.len() == keys.len(),
        src.len() == keys.len(),
        forall|x: int|
            0 <= x < keys.len() ==> 0 <= #[trigger] src[x] < keys0.len() && keys[x] == keys0[src[x]]
                && sorted[x]@ == codes[src[x]]@,
    ensures
        distinct_codes(code_views(sorted)),
        forall|c: int| 0 <= c < sorted.len() ==> #[trigger] is_country_code(sorted[c]@),
        forall|k: int| 0 <= k < v.len() ==> #[trigger] holds_code(sorted, v[k].country),
        forall|c: int| 0 <= c < sorted.len() ==> #[trigger] used_code(v, sorted[c]@),
        by_frequency(code_views(sorted), v),
{
    let cv = code_views(codes);
    let sv = code_views(sorted);
    assert forall|i: int, j: int| 0 <= i < j < sv.len() implies sv[i] != sv[j] by {
        assert(0 <= src[i] < keys0.len() && 0 <= src[j] < keys0.len());
        if sv[i] == sv[j] {
            assert(cv[src[i]] == cv[src[j]]);
            lemma_index_unique(cv, src[i], src[j]);
            assert(keys[i] == keys[j]);
        }
    }
    assert forall|c: int| 0 <= c < sorted.len() implies #[trigger] is_country_code(sorted[c]@) by {
        assert(0 <= src[c] < keys0.len());
        assert(is_country_code(codes[src[c]]@));
    }
    assert forall|c: int| 0 <= c < sorted.len() implies #[trigger] used_code(v, sorted[c]@) by {
        assert(0 <= src[c] < keys0.len());
        assert(used_code(v, codes[src[c]]@));
    }
    assert forall|k: int| 0 <= k < v.len() implies #[trigger] holds_code(sorted, v[k].country) by {
        assert(holds_code(codes, v[k].country));
        let c = choose|c: int| 0 <= c < codes.len() && #[trigger] codes[c]@ == v[k].country;
        assert(keys.contains(keys0[c]));
        let x = choose|x: int| 0 <= x < keys.len() && keys[x] == keys0[c];
        assert(0 <= src[x] < keys0.len());
        assert(keys0[src[x]] == keys0[c]);
        assert(src[x] == c);
        assert(sorted[x]@ == v[k].country);
    }
    assert forall|i: int, j: int| 0 <= i < j < sv.len() implies #[trigger] ranks_before(v, sv[i], sv[j]) by {
        assert(pair_le(keys[i], keys[j]));
        assert(keys[i] != keys[j]);
        assert(0 <= src[i] < keys0.len() && 0 <= src[j] < keys0.len());
        assert(keys[i] == country_key(v, sv[i]));
        assert(keys[j] == country_key(v, sv[j]));
        lemma_country_count_bound(v, sv[i]);
        lemma_country_count_bound(v, sv[j]);
        assert(is_country_code(codes[src[i]]@) && is_country_code(codes[src[j]]@));
    }
}

/// The distinct countries `codes` of `rows`, most frequent first, ties
/// broken by code.
fn frequency_order(rows: &[AsInfo], codes: &Vec<Country>) -> (sorted: Vec<Country>)
    requires
        distinct_codes(code_views(codes@)),
        forall|c: int| 0 <= c < codes@.len() ==> #[trigger] is_country_code(codes@[c]@),
        forall|k: int| 0 <= k < rows@.len() ==> #[trigger] holds_code(codes@, rows@[k].country@),
        forall|c: int| 0 <= c < codes@.len() ==> #[trigger] used_code(views(rows@), codes@[c]@),
    ensures
        sorted@.len() == codes@.len(),
        distinct_codes(code_views(sorted@)),
        forall|c: int| 0 <= c < sorted@.len() ==> #[trigger] is_country_code(sorted@[c]@),
        forall|k: int| 0 <= k < rows@.len() ==> #[trigger] holds_code(sorted@, rows@[k].country@),
        forall|c: int| 0 <= c < sorted@.len() ==> #[trigger] used_code(views(rows@), sorted@[c]@),
        by_frequency(code_views(sorted@), views(rows@)),
{
    let ghost v = views(rows@);
    let counts = count_countries(rows, codes);
    let mut keys: Vec<(u64, u64)> = Vec::new();
    let mut c: usize = 0;
    while c < codes.len()
        invariant
            v == views(rows@),
            c <= codes@.len(),
            counts@.len() == codes@.len(),
            forall|x: int| 0 <= x < codes@.len() ==> #[trigger] counts@[x] == country_count(v, codes@[x]@),
            forall|x: int| 0 <= x < codes@.len() ==> #[trigger] is_country_code(codes@[x]@),
            keys@.len() == c,
            forall|x: int| 0 <= x < c ==> #[trigger] keys@[x] == country_key(v, codes@[x]@),
        decreases codes@.len() - c,
    {
        let code = codes[c].as_bytes();
        proof {
            lemma_country_count_bound(v, codes@[c as int]@);
            assert(is_country_code(codes@[c as int]@));
        }
        keys.push((u64::MAX - counts[c], (code[0] as u64) * 256 + code[1] as u64));
        c = c + 1;
    }
    let ghost keys0 = keys@;
    proof {
        assert(keys0.no_duplicates()) by {
            assert forall|i: int, j: int| 0 <= i < keys0.len() && 0 <= j < keys0.len() && i != j implies keys0[i] != keys0[j] by {
                assert(is_country_code(codes@[i]@) && is_country_code(codes@[j]@));
                if i < j {
                    assert(code_views(codes@)[i] != code_views(codes@)[j]);
                } else {
                    assert(code_views(codes@)[j] != code_views(codes@)[i]);
                }
                if code_number(codes@[i]@) == code_number(codes@[j]@) {
                    assert(codes@[i]@ =~= codes@[j]@);
                }
            }
        }
    }
    sort_pairs(&mut keys);
    proof {
        lemma_same_pairs(keys@, keys0);
    }
    let mut sorted: Vec<Country> = Vec::new();
    let ghost mut src: Seq<int> = Seq::empty();
    let mut i: usize = 0;
    while i < keys.len()
        invariant
            v == views(rows@),
            keys0.len() == codes@.len(),
            keys0.no_duplicates(),
            forall|x: int| 0 <= x < codes@.len() ==> #[trigger] is_country_code(codes@[x]@),
            forall|x: int| 0 <= x < keys0.len() ==> #[trigger] keys0[x] == country_key(v, codes@[x]@),
            forall|x: int| 0 <= x < keys@.len() ==> keys0.contains(#[trigger] keys@[x]),
            i <= keys@.len(),
            sorted@.len() == i,
            src.len() == i,
            forall|x: int|
                0 <= x < i ==> 0 <= #[trigger] src[x] < keys0.len() && keys@[x] == keys0[src[x]]
                    && sorted@[x]@ == codes@[src[x]]@,
        decreases keys@.len() - i,
    {
        let k = keys[i].1;
        let ghost c = choose|c: int| 0 <= c < keys0.len() && keys0[c] == keys@[i as int];
        proof {
            assert(keys0.contains(keys@[i as int]));
            assert(is_country_code(codes@[c]@));
            let b0 = codes@[c]@[0];
            let b1 = codes@[c]@[1];
            assert(k == b0 * 256 + b1);
            assert(((k >> 8u64) as u8) == b0 && ((k & 0xFFu64) as u8) == b1) by (bit_vector)
                requires
                    k == b0 as u64 * 256 + b1 as u64,
            ;
        }
        let country = Country([#[verifier::truncate] ((k >> 8) as u8), #[verifier::truncate] ((k & 0xFF) as u8)]);
        proof {
            assert(country@ =~= codes@[c]@);
            src = src.push(c);
        }
        sorted.push(country);
        i = i + 1;
    }
    let m = rows.len();
    proof {
        assert(v.len() == m);
        assert forall|k: int| 0 <= k < v.len() implies #[trigger] holds_code(codes@, v[k].country) by {
            assert(holds_code(codes@, rows@[k].country@));
        }
        lemma_frequency_facts(v, codes@, keys0, keys@, sorted@, src);
        assert forall|k: int| 0 <= k < rows@.len() implies #[trigger] holds_code(sorted@, rows@[k].country@) by {
            assert(holds_code(sorted@, v[k].country));
        }
    }
    sorted
}

/// The index of each record's country in `codes`.
pub open spec fn country_indices(rows: Seq<AsInfoView>, codes: Seq<Seq<u8>>) -> Seq<nat> {
    Seq::new(
        rows.len(),
        |j: int| (choose|c: int| 0 <= c < codes.len() && codes[c] == rows[j].country) as nat,
    )
}

/// The layout of `rows` with the strings laid out so far as `refs` says.
pub open spec fn build_layout(
    rows: Seq<AsInfoView>,
    refs: Seq<Option<nat>>,
    codes: Seq<Seq<u8>>,
) -> Layout {
    Layout { rows, refs, codes, cidx: country_indices(rows, codes) }
}

/// Sorting the ASN pairs with no two neighbours sharing an ASN puts the
/// records in strictly ascending ASN order.
proof fn lemma_sorted_rows(v: Seq<AsInfoView>, order: Seq<(u64, u64)>)
    requires
        v.len() <= usize::MAX,
        order.to_multiset() == asn_pairs(v).to_multiset(),
        forall|x: int| 0 <= x < order.len() - 1 ==> #[trigger] neighbours_differ(order, x),
        forall|i: int, j: int| 0 <= i < j < order.len() ==> #[trigger] pair_le(order[i], order[j]),
    ensures
        strictly_sorted(arrange(v, order)),
        arrange(v, order).len() == v.len(),
{
    lemma_order_facts(v, order);
    let sr = arrange(v, order);
    assert forall|i: int, j: int| 0 <= i < j < sr.len() implies sr[i].asn < sr[j].asn by {
        assert(neighbours_differ(order, i));
        assert(pair_le(order[i], order[i + 1]));
        if i + 1 < j {
            assert(pair_le(order[i + 1], order[j]));
        }
        assert(order[i].0 < order[j].0);
        assert(sr[i] == v[order[i].1 as int]);
        assert(sr[j] == v[order[j].1 as int]);
    }
}

/// Each record's country sits at its chosen index of the country table.
proof fn lemma_country_indices(v: Seq<AsInfoView>, order: Seq<(u64, u64)>, codes: Seq<Country>)
    requires
        v.len() <= usize::MAX,
        order.to_multiset() == asn_pairs(v).to_multiset(),
        forall|k: int| 0 <= k < v.len() ==> #[trigger] holds_code(codes, v[k].country),
    ensures
        forall|j: int|
            0 <= j < v.len() ==> #[trigger] country_indices(arrange(v, order), code_views(codes))[j]
                < codes.len() && code_views(codes)[country_indices(arrange(v, order), code_views(codes))[j] as int]
                == arrange(v, order)[j].country,
{
    lemma_order_facts(v, order);
    let sr = arrange(v, order);
    let cv = code_views(codes);
    assert forall|j: int| 0 <= j < v.len() implies #[trigger] country_indices(sr, cv)[j]
        < codes.len() && cv[country_indices(sr, cv)[j] as int] == sr[j].country by {
        let k = order[j].1 as int;
        assert(sr[j] == v[k]);
        assert(holds_code(codes, v[k].country));
        let c = choose|c: int| 0 <= c < codes.len() && #[trigger] codes[c]@ == v[k].country;
        assert(cv[c] == codes[c]@);
    }
}

proof fn lemma_index_unique(cv: Seq<Seq<u8>>, a: int, b: int)
    requires
        distinct_codes(cv),
        0 <= a < cv.len(),
        0 <= b < cv.len(),
        cv[a] == cv[b],
    ensures
        a == b,
{
    if a < b {
        assert(cv[a] != cv[b]);
    } else if b < a {
        assert(cv[b] != cv[a]);
    }
}

/// What laying out record `i` keeps of the records before it.
proof fn lemma_step(l0: Layout, l1: Layout, l2: Layout, i: nat)
    requires
        l0.refs.len() == 2 * i,
        i <= l0.cidx.len(),
        l1 == with_ref(l0, l1.refs[2 * i as int]),
        l2 == with_ref(l1, l2.refs[(2 * i + 1) as int]),
    ensures
        crate::format::agree_upto(l0, l2, i),
        stream_upto(l2, i) == stream_upto(l0, i),
        blob_upto(l2, 2 * i) == blob_upto(l0, 2 * i),
        blob_upto(l2, 2 * i) == blob_upto(l1, 2 * i),
        blob_upto(l2, 2 * i + 1) == blob_upto(l1, 2 * i + 1),
        str_bytes(l2, 2 * i) == str_bytes(l1, 2 * i),
        str_ok(l2, (2 * i) as int) == str_ok(l1, (2 * i) as int),
        delta_bytes(l2, i) == delta_bytes(l0, i),
        forall|k: int| 0 <= k < 2 * i ==> #[trigger] str_ok(l0, k) == str_ok(l2, k),
        forall|b: nat| b < blocks_of(i) ==> #[trigger] block_ok(l0, b) == block_ok(l2, b),
{
    assert forall|k: int| 0 <= k < 2 * i implies l0.refs[k] == l2.refs[k] by {
        assert(l1.refs[k] == l0.refs[k]);
    }
    assert(crate::format::agree_upto(l0, l2, i));
    crate::format::lemma_stream_ext(l0, l2, i);
    lemma_blob_ext(l0, l2, 2 * i);
    lemma_blob_ext(l1, l2, 2 * i);
    lemma_blob_ext(l1, l2, 2 * i + 1);
    crate::format::lemma_prefix_facts_ext(l0, l2, i);
}

/// What the encoder needs of its inputs: the records in a sorted order
/// without shared ASNs, and a table of their distinct countries.
#[verifier::opaque]
pub open spec fn encoder_inputs(rows: Seq<AsInfo>, order: Seq<(u64, u64)>, codes: Seq<Country>) -> bool {
    let v = views(rows);
    let sr = arrange(v, order);
    let cv = code_views(codes);
    &&& 0 < rows.len() <= usize::MAX / 2
    &&& order.len() == rows.len()
    &&& order.to_multiset() == asn_pairs(v).to_multiset()
    &&& forall|x: int|
        0 <= x < order.len() ==> (#[trigger] order[x]).1 < rows.len() && order[x].0 == v[order[x].1 as int].asn
    &&& strictly_sorted(sr)
    &&& sr.len() == rows.len()
    &&& forall|j: int|
        0 <= j < rows.len() ==> #[trigger] country_indices(sr, cv)[j] < cv.len() && cv[country_indices(
            sr,
            cv,
        )[j] as int] == sr[j].country
    &&& distinct_codes(cv)
    &&& cv.len() <= u32::MAX
    &&& forall|c: int| 0 <= c < codes.len() ==> #[trigger] is_country_code(codes[c]@)
    &&& country_table_of(cv, v)
    &&& forall|k: int| 0 <= k < v.len() ==> sr.contains(#[trigger] v[k])
    &&& forall|i: int| 0 <= i < sr.len() ==> v.contains(#[trigger] sr[i])
}

/// Any layout of the records agrees with the tables being built on the
/// order of the records, the country table and the strings laid out so
/// far.
proof fn lemma_layout_prefix(
    rows: Seq<AsInfo>,
    order: Seq<(u64, u64)>,
    codes: Seq<Country>,
    refs: Seq<Option<nat>>,
    l: Layout,
    k: nat,
)
    requires
        encoder_inputs(rows, order, codes),
        layout_of(l, views(rows)),
        k <= refs.len(),
        k <= 2 * rows.len(),
        dedup_ok(build_layout(arrange(views(rows), order), refs, code_views(codes)), k),
    ensures
        l.rows == arrange(views(rows), order),
        l.codes == code_views(codes),
        l.cidx == country_indices(l.rows, l.codes),
        forall|j: int| 0 <= j < k ==> l.refs[j] == refs[j],
{
    reveal(encoder_inputs);
    let v = views(rows);
    let sr = arrange(v, order);
    let cv = code_views(codes);
    lemma_rows_unique(l.rows, sr, v);
    lemma_country_table_unique(l.codes, cv, v);
    let l0 = build_layout(sr, refs, cv);
    lemma_refs_agree(l, l0, k);
}

/// A block that starts past 32 bits of stream or blob rules out that the
/// records fit the format.
proof fn lemma_block_too_large(
    rows: Seq<AsInfo>,
    order: Seq<(u64, u64)>,
    codes: Seq<Country>,
    refs: Seq<Option<nat>>,
    i: nat,
)
    requires
        encoder_inputs(rows, order, codes),
        i < rows.len(),
        i % (BLOCK_SIZE as nat) == 0,
        refs.len() == 2 * i,
        dedup_ok(build_layout(arrange(views(rows), order), refs, code_views(codes)), 2 * i),
        stream_upto(build_layout(arrange(views(rows), order), refs, code_views(codes)), i).len()
            > u32::MAX || blob_upto(
            build_layout(arrange(views(rows), order), refs, code_views(codes)),
            2 * i,
        ).len() > u32::MAX,
    ensures
        !fits_format(views(rows)),
{
    let v = views(rows);
    let l0 = build_layout(arrange(v, order), refs, code_views(codes));
    if fits_format(v) {
        let l = choose|l: Layout| layout_of(l, v) && layout_ok(l);
        lemma_layout_prefix(rows, order, codes, refs, l, 2 * i);
        lemma_inputs_facts(rows, order, codes, i as int);
        assert(crate::format::agree_upto(l, l0, i));
        crate::format::lemma_stream_ext(l, l0, i);
        lemma_blob_ext(l, l0, 2 * i);
        crate::format::lemma_blocks_of_step(i);
        let n = rows.len();
        assert(blocks_of(i + 1) <= blocks_of(n)) by (nonlinear_arith)
            requires
                i + 1 <= n,
                blocks_of(i + 1) == (i + 1 + 31) / 32,
                blocks_of(n) == (n + 31) / 32,
        ;
        crate::format::lemma_layout_block(l, blocks_of(i));
    }
}

/// A string that does not fit the format, however it is laid out in
/// keeping with the strings before it, rules out that the records fit it.
proof fn lemma_string_too_large(
    rows: Seq<AsInfo>,
    order: Seq<(u64, u64)>,
    codes: Seq<Country>,
    refs: Seq<Option<nat>>,
    k: nat,
)
    requires
        encoder_inputs(rows, order, codes),
        k < 2 * rows.len(),
        refs.len() == k,
        dedup_ok(build_layout(arrange(views(rows), order), refs, code_views(codes)), k),
        forall|r: Option<nat>|
            #[trigger] dedup_ok(
                with_ref(build_layout(arrange(views(rows), order), refs, code_views(codes)), r),
                k + 1,
            ) ==> !str_ok(
                with_ref(build_layout(arrange(views(rows), order), refs, code_views(codes)), r),
                k as int,
            ),
    ensures
        !fits_format(views(rows)),
{
    let v = views(rows);
    let l0 = build_layout(arrange(v, order), refs, code_views(codes));
    if fits_format(v) {
        let l = choose|l: Layout| layout_of(l, v) && layout_ok(l);
        lemma_layout_prefix(rows, order, codes, refs, l, k);
        let lk = with_ref(l0, l.refs[k as int]);
        assert forall|f: int| 0 <= f <= k implies lk.refs[f] == l.refs[f] by {
            if f < k {
                assert(lk.refs[f] == refs[f]);
            }
        }
        assert forall|j: int| 0 <= j < k + 1 implies #[trigger] first_ok(lk, j) by {
            lemma_first_ok_ext(lk, l, j);
            assert(first_ok(l, j));
        }
        assert(dedup_ok(lk, k + 1));
        lemma_str_ok_ext(lk, l, k as int);
        crate::format::lemma_layout_str(l, k as int);
    }
}

/// A string too long for its tag rules out every way to lay it out.
proof fn lemma_long_text(l: Layout, k: nat)
    requires
        l.refs.len() == k,
        2 * text_of(l.rows, k as int).len() > u32::MAX,
    ensures
        forall|r: Option<nat>|
            #[trigger] dedup_ok(with_ref(l, r), k + 1) ==> !str_ok(with_ref(l, r), k as int),
{
    assert forall|r: Option<nat>| #[trigger] dedup_ok(with_ref(l, r), k + 1) implies !str_ok(
        with_ref(l, r),
        k as int,
    ) by {
        assert(str_tag(with_ref(l, r), k) >= 2 * text_of(l.rows, k as int).len());
    }
}

/// A string whose first copy `f` lies more than 32 bits back can only be
/// laid out as a reference to it, which does not fit the format.
proof fn lemma_far_copy(l: Layout, k: nat, f: nat)
    requires
        l.refs.len() == k,
        f < k,
        l.refs[f as int] is None,
        text_of(l.rows, f as int) == text_of(l.rows, k as int),
        blob_upto(l, k).len() - blob_upto(l, f).len() > u32::MAX,
    ensures
        forall|r: Option<nat>|
            #[trigger] dedup_ok(with_ref(l, r), k + 1) ==> !str_ok(with_ref(l, r), k as int),
{
    assert forall|r: Option<nat>| #[trigger] dedup_ok(with_ref(l, r), k + 1) implies !str_ok(
        with_ref(l, r),
        k as int,
    ) by {
        let l2 = with_ref(l, r);
        assert(l2.refs[f as int] == l.refs[f as int]);
        assert(forall|j: int| 0 <= j < k ==> l2.refs[j] == l.refs[j]);
        lemma_blob_ext(l, l2, k);
        lemma_blob_ext(l, l2, f);
        assert(first_ok(l2, k as int));
        assert(l2.refs[k as int] == r);
        if r is None {
            assert(text_of(l2.rows, f as int) == text_of(l2.rows, k as int));
        } else {
            let g = choose|g: int|
                0 <= g < k && l2.refs[g] is None && #[trigger] text_of(l2.rows, g) == text_of(
                    l2.rows,
                    k as int,
                ) && l2.refs[k as int]->Some_0 == blob_upto(l2, g as nat).len();
            if g < f {
                assert(first_ok(l2, f as int));
                assert(text_of(l2.rows, g) == text_of(l2.rows, f as int));
            } else if f < g {
                assert(first_ok(l2, g));
                assert(text_of(l2.rows, f as int) == text_of(l2.rows, g));
            }
        }
    }
}

/// The tables built so far hold the first `i` records as `l` lays them out.
#[verifier::opaque]
pub open spec fn laid_out(
    l: Layout,
    i: nat,
    stream: Seq<u8>,
    blob: Seq<u8>,
    index: Seq<u8>,
    pool: Map<u64, Vec<(usize, usize, usize)>>,
) -> bool {
    &&& l.refs.len() == 2 * i
    &&& stream == stream_upto(l, i)
    &&& blob == blob_upto(l, 2 * i)
    &&& index == index_upto(l, blocks_of(i))
    &&& pool_ok(pool, l, 2 * i)
    &&& dedup_ok(l, 2 * i)
    &&& forall|k: int| 0 <= k < 2 * i ==> #[trigger] str_ok(l, k)
    &&& forall|b: nat| b < blocks_of(i) ==> #[trigger] block_ok(l, b)
}

proof fn lemma_laid_out_parts(
    l: Layout,
    i: nat,
    stream: Seq<u8>,
    blob: Seq<u8>,
    index: Seq<u8>,
    pool: Map<u64, Vec<(usize, usize, usize)>>,
)
    requires
        laid_out(l, i, stream, blob, index, pool),
    ensures
        l.refs.len() == 2 * i,
        stream == stream_upto(l, i),
        blob == blob_upto(l, 2 * i),
        index == index_upto(l, blocks_of(i)),
        pool_ok(pool, l, 2 * i),
        dedup_ok(l, 2 * i),
{
    reveal(laid_out);
}

/// Record `i` is laid out once its header, its two strings and its country
/// index follow the records before it.
proof fn lemma_record_done(
    l0: Layout,
    l1: Layout,
    l2: Layout,
    i: nat,
    s0: Seq<u8>,
    x0: Seq<u8>,
    p0: Map<u64, Vec<(usize, usize, usize)>>,
    b0: Seq<u8>,
    stream: Seq<u8>,
    blob: Seq<u8>,
    index: Seq<u8>,
    pool: Map<u64, Vec<(usize, usize, usize)>>,
)
    requires
        laid_out(l0, i, s0, b0, x0, p0),
        i < l0.cidx.len(),
        l1 == with_ref(l0, l1.refs[2 * i as int]),
        l2 == with_ref(l1, l2.refs[(2 * i + 1) as int]),
        stream == s0 + delta_bytes(l0, i) + str_bytes(l1, 2 * i) + str_bytes(l2, 2 * i + 1)
            + varint_bytes(l2.cidx[i as int] as u32),
        blob == blob_upto(l2, 2 * i + 2),
        pool_ok(pool, l2, 2 * i + 2),
        dedup_ok(l2, 2 * i + 2),
        str_ok(l1, 2 * i as int),
        str_ok(l2, (2 * i + 1) as int),
        i % (BLOCK_SIZE as nat) == 0 ==> index == x0 + entry_bytes(l0, blocks_of(i)) && block_ok(
            l0,
            blocks_of(i),
        ),
        i % (BLOCK_SIZE as nat) != 0 ==> index == x0,
    ensures
        laid_out(l2, i + 1, stream, blob, index, pool),
{
    reveal(laid_out);
    crate::format::lemma_blocks_of_step(i);
    lemma_step(l0, l1, l2, i);
    assert(rec_bytes(l2, i) == delta_bytes(l0, i) + str_bytes(l1, 2 * i) + str_bytes(l2, 2 * i + 1)
        + varint_bytes(l2.cidx[i as int] as u32));
    assert(stream =~= stream_upto(l2, i + 1));
    crate::format::lemma_index_ext(l0, l2, i, blocks_of(i));
    if i % (BLOCK_SIZE as nat) == 0 {
        assert(entry_bytes(l2, blocks_of(i)) == entry_bytes(l0, blocks_of(i)));
        assert(block_ok(l2, blocks_of(i)));
    }
    assert forall|k: int| 0 <= k < 2 * (i + 1) implies #[trigger] str_ok(l2, k) by {
        if k < 2 * i {
            assert(str_ok(l0, k));
        }
    }
    assert forall|b: nat| b < blocks_of(i + 1) implies #[trigger] block_ok(l2, b) by {
        if b < blocks_of(i) {
            assert(block_ok(l0, b));
        }
    }
}

proof fn lemma_inputs_facts(rows: Seq<AsInfo>, order: Seq<(u64, u64)>, codes: Seq<Country>, i: int)
    requires
        encoder_inputs(rows, order, codes),
        0 <= i < rows.len(),
    ensures
        rows.len() <= usize::MAX / 2,
        order.len() == rows.len(),
        order.to_multiset() == asn_pairs(views(rows)).to_multiset(),
        order[i].1 < rows.len(),
        arrange(views(rows), order)[i] == rows[order[i].1 as int]@,
        arrange(views(rows), order).len() == rows.len(),
        i > 0 ==> arrange(views(rows), order)[i - 1].asn < arrange(views(rows), order)[i].asn,
        country_indices(arrange(views(rows), order), code_views(codes))[i] < codes.len(),
        codes[country_indices(arrange(views(rows), order), code_views(codes))[i] as int]@
            == arrange(views(rows), order)[i].country,
        distinct_codes(code_views(codes)),
{
    reveal(encoder_inputs);
    let c = country_indices(arrange(views(rows), order), code_views(codes))[i] as int;
    assert(code_views(codes)[c] == codes[c]@);
}

proof fn lemma_inputs_table(rows: Seq<AsInfo>, order: Seq<(u64, u64)>, codes: Seq<Country>)
    requires
        encoder_inputs(rows, order, codes),
    ensures
        rows.len() > 0,
        forall|c: int| 0 <= c < codes.len() ==> #[trigger] is_country_code(codes[c]@),
        code_views(codes).len() <= u32::MAX,
        strictly_sorted(arrange(views(rows), order)),
        arrange(views(rows), order).len() == rows.len(),
        forall|j: int|
            0 <= j < rows.len() ==> #[trigger] country_indices(
                arrange(views(rows), order),
                code_views(codes),
            )[j] < code_views(codes).len() && code_views(codes)[country_indices(
                arrange(views(rows), order),
                code_views(codes),
            )[j] as int] == arrange(views(rows), order)[j].country,
{
    reveal(encoder_inputs);
}

/// Lays out record `i` of the sorted order.
fn encode_record(
    rows: &[AsInfo],
    order: &Vec<(u64, u64)>,
    codes: &Vec<Country>,
    i: usize,
    prev_asn: u32,
    stream: &mut Vec<u8>,
    blob: &mut Vec<u8>,
    index: &mut Vec<u8>,
    pool: &mut HashMap<u64, Vec<(usize, usize, usize)>>,
    Ghost(refs): Ghost<Seq<Option<nat>>>,
) -> (res: Result<Ghost<Seq<Option<nat>>>, BuildError>)
    requires
        encoder_inputs(rows@, order@, codes@),
        i < rows@.len(),
        i > 0 ==> prev_asn == arrange(views(rows@), order@)[i - 1].asn,
        laid_out(
            build_layout(arrange(views(rows@), order@), refs, code_views(codes@)),
            i as nat,
            old(stream)@,
            old(blob)@,
            old(index)@,
            old(pool)@,
        ),
    ensures
        match res {
            Ok(r) => laid_out(
                build_layout(arrange(views(rows@), order@), r@, code_views(codes@)),
                (i + 1) as nat,
                final(stream)@,
                final(blob)@,
                final(index)@,
                final(pool)@,
            ),
            Err(e) => e == BuildError::TooLarge && !fits_format(views(rows@)),
        },
{
    let ghost v = views(rows@);
    let ghost sr = arrange(v, order@);
    let ghost cv = code_views(codes@);
    let ghost l0 = build_layout(sr, refs, cv);
    let ghost s0 = stream@;
    let ghost b0 = blob@;
    let ghost x0 = index@;
    let ghost p0 = pool@;
    proof {
        lemma_inputs_facts(rows@, order@, codes@, i as int);
        lemma_laid_out_parts(l0, i as nat, s0, b0, x0, p0);
    }
    let r = &rows[order[i].1 as usize];
    if i % BLOCK_SIZE == 0 {
        if stream.len() > 0xFFFF_FFFF || blob.len() > 0xFFFF_FFFF {
            proof {
                lemma_block_too_large(rows@, order@, codes@, refs, i as nat);
            }
            return Err(BuildError::TooLarge);
        }
        put_le_u32(index, r.asn);
        put_le_u32(index, stream.len() as u32);
        put_le_u32(index, blob.len() as u32);
        proof {
            crate::format::lemma_blocks_of_step(i as nat);
            assert(index@ =~= x0 + entry_bytes(l0, blocks_of(i as nat)));
        }
    } else {
        put_varint(stream, r.asn - prev_asn);
    }
    proof {
        assert(text_of(sr, 2 * i) == r.handle.spec_bytes()) by {
            assert((2 * i) / 2 == i && (2 * i) % 2 == 0);
        }
        assert(text_of(sr, 2 * i + 1) == r.description.spec_bytes()) by {
            assert((2 * i + 1) / 2 == i && (2 * i + 1) % 2 == 1);
        }
    }
    let ghost s1 = stream@;
    let g1 = match encode_string(stream, blob, pool, r.handle, 2 * i, Ghost(l0)) {
        Ok(g) => g,
        Err(e) => {
            proof {
                lemma_string_too_large(rows@, order@, codes@, refs, 2 * i as nat);
            }
            return Err(e);
        },
    };
    let ghost l1 = with_ref(l0, g1@);
    proof {
        assert(l1 == build_layout(sr, refs.push(g1@), cv));
    }
    let ghost s2 = stream@;
    let g2 = match encode_string(stream, blob, pool, r.description, 2 * i + 1, Ghost(l1)) {
        Ok(g) => g,
        Err(e) => {
            proof {
                lemma_string_too_large(rows@, order@, codes@, refs.push(g1@), (2 * i + 1) as nat);
            }
            return Err(e);
        },
    };
    let ghost l2 = with_ref(l1, g2@);
    let ci = country_index(codes, &r.country);
    let ghost s3 = stream@;
    put_varint(stream, ci as u32);
    let ghost refs2 = refs.push(g1@).push(g2@);
    proof {
        assert(l2 == build_layout(sr, refs2, cv));
        lemma_index_unique(cv, l2.cidx[i as int] as int, ci as int);
        assert(stream@ =~= s0 + delta_bytes(l0, i as nat) + str_bytes(l1, 2 * i as nat) + str_bytes(
            l2,
            (2 * i + 1) as nat,
        ) + varint_bytes(l2.cidx[i as int] as u32));
        lemma_record_done(l0, l1, l2, i as nat, s0, x0, p0, b0, stream@, blob@, index@, pool@);
    }
    Ok(Ghost(refs2))
}

/// Lays out the records of `rows` in the order `order`, with country table
/// `codes`.
fn encode_records(rows: &[AsInfo], order: &Vec<(u64, u64)>, codes: &Vec<Country>) -> (res: Result<
    Table,
    BuildError,
>)
    requires
        encoder_inputs(rows@, order@, codes@),
    ensures
        match res {
            Ok(t) => {
                &&& t@ == arrange(views(rows@), order@)
                &&& t.layout() == build_layout(
                    arrange(views(rows@), order@),
                    t.layout().refs,
                    code_views(codes@),
                )
                &&& t.layout().refs.len() == 2 * rows@.len()
                &&& layout_ok(t.layout())
                &&& dedup_ok(t.layout(), 2 * rows@.len() as nat)
            },
            Err(e) => e == BuildError::TooLarge && !fits_format(views(rows@)),
        },
{
    let ghost v = views(rows@);
    let ghost sr = arrange(v, order@);
    let ghost cv = code_views(codes@);
    let m = rows.len();
    let mut stream: Vec<u8> = Vec::new();
    let mut index: Vec<u8> = Vec::new();
    let mut blob: Vec<u8> = Vec::new();
    let mut pool: HashMap<u64, Vec<(usize, usize, usize)>> = HashMap::new();
    let mut prev_asn: u32 = 0;
    let ghost mut refs: Seq<Option<nat>> = Seq::empty();
    let mut i: usize = 0;
    proof {
        reveal(laid_out);
        assert(pool_ok(pool@, build_layout(sr, refs, cv), 0));
        assert(stream@ =~= stream_upto(build_layout(sr, refs, cv), 0));
        assert(blob@ =~= blob_upto(build_layout(sr, refs, cv), 0));
        assert(index@ =~= index_upto(build_layout(sr, refs, cv), blocks_of(0)));
    }
    while i < m
        invariant
            encoder_inputs(rows@, order@, codes@),
            v == views(rows@),
            sr == arrange(v, order@),
            cv == code_views(codes@),
            m == rows@.len(),
            i <= m,
            i > 0 ==> prev_asn == sr[i - 1].asn,
            laid_out(build_layout(sr, refs, cv), i as nat, stream@, blob@, index@, pool@),
        decreases m - i,
    {
        proof {
            lemma_inputs_facts(rows@, order@, codes@, i as int);
        }
        let next = encode_record(
            rows,
            order,
            codes,
            i,
            prev_asn,
            &mut stream,
            &mut blob,
            &mut index,
            &mut pool,
            Ghost(refs),
        );
        match next {
            Ok(r) => {
                proof {
                    refs = r@;
                }
            },
            Err(e) => {
                return Err(e);
            },
        }
        prev_asn = rows[order[i].1 as usize].asn;
        i = i + 1;
    }
    proof {
        lemma_inputs_table(rows@, order@, codes@);
    }
    let mut countries: Vec<u8> = Vec::new();
    let mut c: usize = 0;
    while c < codes.len()
        invariant
            cv == code_views(codes@),
            c <= codes@.len(),
            forall|x: int| 0 <= x < codes@.len() ==> #[trigger] is_country_code(codes@[x]@),
            countries@ == codes_upto(cv, c as nat),
        decreases codes@.len() - c,
    {
        let code = codes[c].as_bytes();
        countries.push(code[0]);
        countries.push(code[1]);
        proof {
            assert(is_country_code(codes@[c as int]@));
            assert(countries@ =~= codes_upto(cv, (c + 1) as nat));
        }
        c = c + 1;
    }
    let ghost l = build_layout(sr, refs, cv);
    proof {
        assert forall|j: int| 0 <= j < m implies #[trigger] row_ok(l, j) by {
            assert(country_indices(sr, cv)[j] < cv.len());
        }
        assert forall|c: int| 0 <= c < cv.len() implies #[trigger] is_country_code(cv[c]) by {
            assert(is_country_code(codes@[c]@));
        }
        crate::format::lemma_layout_ok_intro(l);
    }
    Ok(Table::from_parts(stream, index, blob, countries, m, Ghost(l)))
}

/// Where record `k`'s pair sits in a sorted order.
proof fn lemma_pair_position(v: Seq<AsInfoView>, order: Seq<(u64, u64)>, k: int) -> (p: int)
    requires
        v.len() <= usize::MAX,
        order.to_multiset() == asn_pairs(v).to_multiset(),
        0 <= k < v.len(),
    ensures
        0 <= p < order.len(),
        order[p] == (v[k].asn as u64, k as u64),
        arrange(v, order)[p] == v[k],
{
    lemma_order_facts(v, order);
    assert(order.contains(asn_pairs(v)[k]));
    let p = choose|p: int| 0 <= p < order.len() && order[p] == asn_pairs(v)[k];
    assert(order[p].1 as int == k);
    p
}

/// In a sorted order, two entries with one ASN have only that ASN between
/// them, so two neighbours there share it.
proof fn lemma_shared_neighbours(order: Seq<(u64, u64)>, p: int, q: int)
    requires
        forall|i: int, j: int| 0 <= i < j < order.len() ==> #[trigger] pair_le(order[i], order[j]),
        0 <= p < q < order.len(),
        order[p].0 == order[q].0,
    ensures
        !neighbours_differ(order, p),
{
    assert(pair_le(order[p], order[p + 1]));
    if p + 1 < q {
        assert(pair_le(order[p + 1], order[q]));
    }
}

/// A sorted order of the ASN pairs without neighbours sharing an ASN comes
/// from records without shared ASNs.
proof fn lemma_no_duplicate(v: Seq<AsInfoView>, order: Seq<(u64, u64)>)
    requires
        v.len() <= usize::MAX,
        order.to_multiset() == asn_pairs(v).to_multiset(),
        forall|x: int| 0 <= x < order.len() - 1 ==> #[trigger] neighbours_differ(order, x),
        forall|i: int, j: int| 0 <= i < j < order.len() ==> #[trigger] pair_le(order[i], order[j]),
    ensures
        !has_duplicate(v),
{
    lemma_order_facts(v, order);
    if has_duplicate(v) {
        let (i, j) = choose|i: int, j: int|
            0 <= i < j < v.len() && #[trigger] v[i].asn == #[trigger] v[j].asn;
        let p = lemma_pair_position(v, order, i);
        let q = lemma_pair_position(v, order, j);
        if p < q {
            lemma_shared_neighbours(order, p, q);
        } else {
            lemma_shared_neighbours(order, q, p);
        }
    }
}

/// The first neighbours of a sorted order that share an ASN give the least
/// ASN that two records share.
proof fn lemma_least_duplicate(v: Seq<AsInfoView>, order: Seq<(u64, u64)>, w: int)
    requires
        v.len() <= usize::MAX,
        order.to_multiset() == asn_pairs(v).to_multiset(),
        forall|i: int, j: int| 0 <= i < j < order.len() ==> #[trigger] pair_le(order[i], order[j]),
        0 <= w,
        w + 1 < order.len(),
        order[w].0 == order[w + 1].0,
        forall|x: int| 0 <= x < w ==> #[trigger] neighbours_differ(order, x),
    ensures
        least_duplicate(v, order[w].0 as u32),
{
    lemma_order_facts(v, order);
    let a = order[w].0 as u32;
    let k1 = order[w].1 as int;
    let k2 = order[w + 1].1 as int;
    assert(order[w] != order[w + 1]);
    assert(k1 != k2);
    if k1 < k2 {
        assert(v[k1].asn == a && v[k2].asn == a);
    } else {
        assert(v[k2].asn == a && v[k1].asn == a);
    }
    assert forall|i: int, j: int| 0 <= i < j < v.len() && #[trigger] v[i].asn == #[trigger] v[j].asn implies a
        <= v[i].asn by {
        let p = lemma_pair_position(v, order, i);
        let q = lemma_pair_position(v, order, j);
        let lo = if p < q { p } else { q };
        let hi = if p < q { q } else { p };
        lemma_shared_neighbours(order, lo, hi);
        assert(lo >= w);
        if lo > w {
            assert(pair_le(order[w], order[lo]));
        }
    }
}

/// `l` lays out the records `v` as their tables do: the records in
/// ascending ASN order, the country table of `v` and each record's index
/// into it, and every string new exactly when its text has not occurred
/// before, else a reference to its first copy.
pub open spec fn layout_of(l: Layout, v: Seq<AsInfoView>) -> bool {
    &&& l.rows.len() == v.len()
    &&& strictly_sorted(l.rows)
    &&& forall|k: int| 0 <= k < v.len() ==> l.rows.contains(#[trigger] v[k])
    &&& forall|i: int| 0 <= i < l.rows.len() ==> v.contains(#[trigger] l.rows[i])
    &&& country_table_of(l.codes, v)
    &&& l.cidx == country_indices(l.rows, l.codes)
    &&& l.refs.len() == 2 * v.len()
    &&& dedup_ok(l, 2 * v.len() as nat)
}

/// Two lists, each in strictly ascending order under the asymmetric
/// relation `lt`, that hold the same elements are the same list.
proof fn lemma_sorted_unique<A>(a: Seq<A>, b: Seq<A>, lt: spec_fn(A, A) -> bool)
    requires
        forall|x: A, y: A| #[trigger] lt(x, y) ==> !lt(y, x),
        forall|i: int, j: int| 0 <= i < j < a.len() ==> lt(a[i], a[j]),
        forall|i: int, j: int| 0 <= i < j < b.len() ==> lt(b[i], b[j]),
        forall|i: int| 0 <= i < a.len() ==> b.contains(#[trigger] a[i]),
        forall|j: int| 0 <= j < b.len() ==> a.contains(#[trigger] b[j]),
    ensures
        a == b,
    decreases a.len(),
{
    if a.len() == 0 {
        if b.len() > 0 {
            assert(a.contains(b[0]));
        }
        assert(a =~= b);
    } else {
        assert(b.contains(a[0]));
        assert(a.contains(b[0]));
        let p = choose|p: int| 0 <= p < b.len() && b[p] == a[0];
        let q = choose|q: int| 0 <= q < a.len() && a[q] == b[0];
        if p > 0 {
            assert(lt(b[0], b[p]));
            if q > 0 {
                assert(lt(a[0], a[q]));
            }
        }
        assert(a[0] == b[0]);
        let a1 = a.drop_first();
        let b1 = b.drop_first();
        assert forall|i: int| 0 <= i < a1.len() implies b1.contains(#[trigger] a1[i]) by {
            assert(a1[i] == a[i + 1]);
            assert(b.contains(a[i + 1]));
            let r = choose|r: int| 0 <= r < b.len() && b[r] == a[i + 1];
            assert(lt(a[0], a[i + 1]));
            assert(r != 0);
            assert(b1[r - 1] == b[r]);
        }
        assert forall|j: int| 0 <= j < b1.len() implies a1.contains(#[trigger] b1[j]) by {
            assert(b1[j] == b[j + 1]);
            assert(a.contains(b[j + 1]));
            let r = choose|r: int| 0 <= r < a.len() && a[r] == b[j + 1];
            assert(lt(b[0], b[j + 1]));
            assert(r != 0);
            assert(a1[r - 1] == a[r]);
        }
        assert forall|i: int, j: int| 0 <= i < j < a1.len() implies lt(a1[i], a1[j]) by {
            assert(lt(a[i + 1], a[j + 1]));
        }
        assert forall|i: int, j: int| 0 <= i < j < b1.len() implies lt(b1[i], b1[j]) by {
            assert(lt(b[i + 1], b[j + 1]));
        }
        lemma_sorted_unique(a1, b1, lt);
        assert(a =~= b) by {
            assert forall|i: int| 0 <= i < a.len() implies a[i] == b[i] by {
                if i > 0 {
                    assert(a[i] == a1[i - 1]);
                    assert(b[i] == b1[i - 1]);
                }
            }
        }
    }
}

/// Whether string `j` is new, and where its first copy sits, depends only
/// on the strings up to it.
proof fn lemma_first_ok_ext(l1: Layout, l2: Layout, j: int)
    requires
        0 <= j,
        l1.rows == l2.rows,
        forall|f: int| 0 <= f <= j ==> l1.refs[f] == l2.refs[f],
    ensures
        first_ok(l1, j) == first_ok(l2, j),
{
    assert forall|f: int| 0 <= f < j implies #[trigger] blob_upto(l1, f as nat) == blob_upto(l2, f as nat) by {
        lemma_blob_ext(l1, l2, f as nat);
    }
    if l1.refs[j] is Some {
        if first_ok(l1, j) {
            let f = choose|f: int|
                0 <= f < j && l1.refs[f] is None && #[trigger] text_of(l1.rows, f) == text_of(l1.rows, j)
                    && l1.refs[j]->Some_0 == blob_upto(l1, f as nat).len();
            assert(text_of(l2.rows, f) == text_of(l2.rows, j));
        }
        if first_ok(l2, j) {
            let f = choose|f: int|
                0 <= f < j && l2.refs[f] is None && #[trigger] text_of(l2.rows, f) == text_of(l2.rows, j)
                    && l2.refs[j]->Some_0 == blob_upto(l2, f as nat).len();
            assert(text_of(l1.rows, f) == text_of(l1.rows, j));
        }
    }
}

/// Whether string `k` fits the format depends only on the strings up to it.
proof fn lemma_str_ok_ext(l1: Layout, l2: Layout, k: int)
    requires
        0 <= k,
        l1.rows == l2.rows,
        forall|f: int| 0 <= f <= k ==> l1.refs[f] == l2.refs[f],
    ensures
        str_ok(l1, k) == str_ok(l2, k),
{
    lemma_blob_ext(l1, l2, k as nat);
}

/// Two layouts of the same records with their first `k` strings interned
/// lay out those strings alike.
proof fn lemma_refs_agree(l1: Layout, l2: Layout, k: nat)
    requires
        l1.rows == l2.rows,
        k <= l1.refs.len(),
        k <= l2.refs.len(),
        dedup_ok(l1, k),
        dedup_ok(l2, k),
    ensures
        forall|j: int| 0 <= j < k ==> l1.refs[j] == l2.refs[j],
    decreases k,
{
    if k > 0 {
        let j = (k - 1) as int;
        lemma_refs_agree(l1, l2, j as nat);
        assert(first_ok(l1, j));
        assert(first_ok(l2, j));
        let t = text_of(l1.rows, j);
        if l1.refs[j] is None && l2.refs[j] is Some {
            let f = choose|f: int|
                0 <= f < j && l2.refs[f] is None && #[trigger] text_of(l2.rows, f) == text_of(l2.rows, j)
                    && l2.refs[j]->Some_0 == blob_upto(l2, f as nat).len();
            assert(text_of(l1.rows, f) != t);
        } else if l1.refs[j] is Some && l2.refs[j] is None {
            let f = choose|f: int|
                0 <= f < j && l1.refs[f] is None && #[trigger] text_of(l1.rows, f) == text_of(l1.rows, j)
                    && l1.refs[j]->Some_0 == blob_upto(l1, f as nat).len();
            assert(text_of(l2.rows, f) != t);
        } else if l1.refs[j] is Some && l2.refs[j] is Some {
            let f1 = choose|f: int|
                0 <= f < j && l1.refs[f] is None && #[trigger] text_of(l1.rows, f) == text_of(l1.rows, j)
                    && l1.refs[j]->Some_0 == blob_upto(l1, f as nat).len();
            let f2 = choose|f: int|
                0 <= f < j && l2.refs[f] is None && #[trigger] text_of(l2.rows, f) == text_of(l2.rows, j)
                    && l2.refs[j]->Some_0 == blob_upto(l2, f as nat).len();
            if f1 < f2 {
                assert(first_ok(l2, f2));
                assert(text_of(l2.rows, f1) == text_of(l2.rows, f2));
            } else if f2 < f1 {
                assert(first_ok(l1, f1));
                assert(text_of(l1.rows, f2) == text_of(l1.rows, f1));
            }
            lemma_blob_ext(l1, l2, f1 as nat);
        }
    }
}

/// Two country tables of the same records are the same.
proof fn lemma_country_table_unique(c1: Seq<Seq<u8>>, c2: Seq<Seq<u8>>, v: Seq<AsInfoView>)
    requires
        country_table_of(c1, v),
        country_table_of(c2, v),
    ensures
        c1 == c2,
{
    let lt = |a: Seq<u8>, b: Seq<u8>| ranks_before(v, a, b);
    assert forall|i: int| 0 <= i < c1.len() implies c2.contains(#[trigger] c1[i]) by {
        assert(used_code(v, c1[i]));
        let k = choose|k: int| 0 <= k < v.len() && #[trigger] v[k].country == c1[i];
        assert(c2.contains(v[k].country));
    }
    assert forall|j: int| 0 <= j < c2.len() implies c1.contains(#[trigger] c2[j]) by {
        assert(used_code(v, c2[j]));
        let k = choose|k: int| 0 <= k < v.len() && #[trigger] v[k].country == c2[j];
        assert(c1.contains(v[k].country));
    }
    assert forall|i: int, j: int| 0 <= i < j < c1.len() implies lt(c1[i], c1[j]) by {
        assert(ranks_before(v, c1[i], c1[j]));
    }
    assert forall|i: int, j: int| 0 <= i < j < c2.len() implies lt(c2[i], c2[j]) by {
        assert(ranks_before(v, c2[i], c2[j]));
    }
    lemma_sorted_unique(c1, c2, lt);
}

/// Two strictly ASN-ordered lists of the records `v` are the same.
proof fn lemma_rows_unique(r1: Seq<AsInfoView>, r2: Seq<AsInfoView>, v: Seq<AsInfoView>)
    requires
        strictly_sorted(r1),
        strictly_sorted(r2),
        forall|i: int| 0 <= i < r1.len() ==> v.contains(#[trigger] r1[i]),
        forall|i: int| 0 <= i < r2.len() ==> v.contains(#[trigger] r2[i]),
        forall|k: int| 0 <= k < v.len() ==> r1.contains(#[trigger] v[k]),
        forall|k: int| 0 <= k < v.len() ==> r2.contains(#[trigger] v[k]),
    ensures
        r1 == r2,
{
    let lt = |a: AsInfoView, b: AsInfoView| a.asn < b.asn;
    assert forall|i: int| 0 <= i < r1.len() implies r2.contains(#[trigger] r1[i]) by {
        assert(v.contains(r1[i]));
        let k = choose|k: int| 0 <= k < v.len() && v[k] == r1[i];
        assert(r2.contains(v[k]));
    }
    assert forall|j: int| 0 <= j < r2.len() implies r1.contains(#[trigger] r2[j]) by {
        assert(v.contains(r2[j]));
        let k = choose|k: int| 0 <= k < v.len() && v[k] == r2[j];
        assert(r1.contains(v[k]));
    }
    lemma_sorted_unique(r1, r2, lt);
}

/// The tables of a dataset are determined by its records: two layouts of
/// the same records are the same.
pub proof fn lemma_layout_of_unique(l1: Layout, l2: Layout, v: Seq<AsInfoView>)
    requires
        layout_of(l1, v),
        layout_of(l2, v),
    ensures
        l1 == l2,
{
    lemma_rows_unique(l1.rows, l2.rows, v);
    lemma_country_table_unique(l1.codes, l2.codes, v);
    lemma_refs_agree(l1, l2, 2 * v.len() as nat);
    assert(l1.refs =~= l2.refs);
}

/// Counting a country's records from the back, from a starting count `b`.
proof fn lemma_country_count_fold(v: Seq<AsInfoView>, c: Seq<u8>, b: nat)
    ensures
        v.fold_right(
            |r: AsInfoView, acc: nat|
                acc + if r.country == c {
                    1nat
                } else {
                    0nat
                },
            b,
        ) == b + country_count(v, c),
    decreases v.len(),
{
    let f = |r: AsInfoView, acc: nat|
        acc + if r.country == c {
            1nat
        } else {
            0nat
        };
    if v.len() > 0 {
        lemma_country_count_fold(v.drop_last(), c, f(v.last(), b));
    }
}

/// Reordering records keeps the number of records of each country.
proof fn lemma_country_count_permutation(v1: Seq<AsInfoView>, v2: Seq<AsInfoView>, c: Seq<u8>)
    requires
        v1.to_multiset() == v2.to_multiset(),
    ensures
        country_count(v1, c) == country_count(v2, c),
{
    let f = |r: AsInfoView, acc: nat|
        acc + if r.country == c {
            1nat
        } else {
            0nat
        };
    assert(vstd::seq_lib::commutative_foldr(f));
    vstd::seq_lib::lemma_fold_right_permutation(v1, v2, f, 0);
    lemma_country_count_fold(v1, c, 0);
    lemma_country_count_fold(v2, c, 0);
}

/// A layout of records is a layout of the same records in any order.
proof fn lemma_layout_of_reordered(l: Layout, v1: Seq<AsInfoView>, v2: Seq<AsInfoView>)
    requires
        layout_of(l, v1),
        v1.to_multiset() == v2.to_multiset(),
    ensures
        layout_of(l, v2),
{
    assert forall|x: AsInfoView| #[trigger] v1.contains(x) <==> v2.contains(x) by {
        vstd::seq_lib::to_multiset_contains(v1, x);
        vstd::seq_lib::to_multiset_contains(v2, x);
    }
    assert(v1.len() == v2.len()) by {
        vstd::seq_lib::to_multiset_len(v1);
        vstd::seq_lib::to_multiset_len(v2);
    }
    assert forall|k: int| 0 <= k < v2.len() implies l.rows.contains(#[trigger] v2[k]) by {
        assert(v1.contains(v2[k]));
        let k1 = choose|k1: int| 0 <= k1 < v1.len() && v1[k1] == v2[k];
        assert(l.rows.contains(v1[k1]));
    }
    assert forall|i: int| 0 <= i < l.rows.len() implies v2.contains(#[trigger] l.rows[i]) by {
        assert(v1.contains(l.rows[i]));
    }
    let codes = l.codes;
    assert forall|c: int| 0 <= c < codes.len() implies #[trigger] used_code(v2, codes[c]) by {
        assert(used_code(v1, codes[c]));
        let k = choose|k: int| 0 <= k < v1.len() && #[trigger] v1[k].country == codes[c];
        assert(v2.contains(v1[k]));
        let k2 = choose|k2: int| 0 <= k2 < v2.len() && v2[k2] == v1[k];
        assert(v2[k2].country == codes[c]);
    }
    assert forall|k: int| 0 <= k < v2.len() implies codes.contains(#[trigger] v2[k].country) by {
        assert(v1.contains(v2[k]));
        let k1 = choose|k1: int| 0 <= k1 < v1.len() && v1[k1] == v2[k];
        assert(codes.contains(v1[k1].country));
    }
    assert forall|i: int, j: int| 0 <= i < j < codes.len() implies #[trigger] ranks_before(
        v2,
        codes[i],
        codes[j],
    ) by {
        assert(ranks_before(v1, codes[i], codes[j]));
        lemma_country_count_permutation(v1, v2, codes[i]);
        lemma_country_count_permutation(v1, v2, codes[j]);
    }
}

/// The tables of a dataset do not depend on the order of its records: the
/// layouts of two orderings of the same records are the same.
pub proof fn lemma_layout_order_free(l1: Layout, l2: Layout, v1: Seq<AsInfoView>, v2: Seq<AsInfoView>)
    requires
        layout_of(l1, v1),
        layout_of(l2, v2),
        v1.to_multiset() == v2.to_multiset(),
    ensures
        l1 == l2,
{
    lemma_layout_of_reordered(l1, v1, v2);
    lemma_layout_of_unique(l1, l2, v2);
}

/// A stream of `i` records holds at least `i` bytes.
proof fn lemma_stream_at_least(l: Layout, i: nat)
    ensures
        stream_upto(l, i).len() >= i,
    decreases i,
{
    if i > 0 {
        lemma_stream_at_least(l, (i - 1) as nat);
        crate::format::lemma_stream_prefix(l, (i - 1) as nat, i);
    }
}

/// The records fit the format whenever every number that it stores in 32
/// bits does: each string is shorter than 2^31 bytes (so its tag fits),
/// and the whole stream and the whole blob are at most `u32::MAX` bytes (so
/// every position and back-distance fits).
pub proof fn lemma_fits_within_32_bits(l: Layout, v: Seq<AsInfoView>)
    requires
        layout_of(l, v),
        forall|i: int| 0 <= i < v.len() ==> #[trigger] is_country_code(v[i].country),
        forall|k: int| 0 <= k < 2 * v.len() ==> #[trigger] text_of(l.rows, k).len() < 0x8000_0000,
        stream_upto(l, v.len()).len() <= u32::MAX,
        blob_upto(l, 2 * v.len()).len() <= u32::MAX,
    ensures
        layout_ok(l),
        fits_format(v),
{
    let n = v.len();
    let codes = l.codes;
    let countries = v.map_values(|r: AsInfoView| r.country);
    assert forall|c: int| 0 <= c < codes.len() implies #[trigger] is_country_code(codes[c]) by {
        assert(used_code(v, codes[c]));
        let k = choose|k: int| 0 <= k < v.len() && #[trigger] v[k].country == codes[c];
        assert(is_country_code(v[k].country));
    }
    assert(codes.len() <= u32::MAX) by {
        assert(codes.no_duplicates()) by {
            assert forall|i: int, j: int| 0 <= i < codes.len() && 0 <= j < codes.len() && i != j
                implies codes[i] != codes[j] by {
                if i < j {
                    assert(codes[i] != codes[j]);
                } else {
                    assert(codes[j] != codes[i]);
                }
            }
        }
        codes.unique_seq_to_set();
        assert forall|x: Seq<u8>| codes.to_set().contains(x) implies countries.to_set().contains(x) by {
            let c = choose|c: int| 0 <= c < codes.len() && codes[c] == x;
            assert(used_code(v, codes[c]));
            let k = choose|k: int| 0 <= k < v.len() && #[trigger] v[k].country == codes[c];
            assert(countries[k] == x);
        }
        vstd::seq_lib::seq_to_set_is_finite(countries);
        vstd::set_lib::lemma_len_subset(codes.to_set(), countries.to_set());
        countries.lemma_cardinality_of_set();
        lemma_stream_at_least(l, n);
    }
    assert forall|i: int| 0 <= i < n implies #[trigger] row_ok(l, i) by {
        assert(v.contains(l.rows[i]));
        let k = choose|k: int| 0 <= k < v.len() && v[k] == l.rows[i];
        assert(codes.contains(v[k].country));
        assert(l.cidx[i] == (choose|c: int| 0 <= c < codes.len() && codes[c] == l.rows[i].country) as nat);
    }
    assert forall|k: int| 0 <= k < 2 * n implies #[trigger] str_ok(l, k) by {
        crate::format::lemma_blob_prefix(l, k as nat, 2 * n);
        assert(first_ok(l, k));
        if l.refs[k] is Some {
            let f = choose|f: int|
                0 <= f < k && l.refs[f] is None && #[trigger] text_of(l.rows, f) == text_of(l.rows, k)
                    && l.refs[k]->Some_0 == blob_upto(l, f as nat).len();
            lemma_first_copy_in_blob(l, f as nat, k as nat);
        }
    }
    assert forall|b: nat| b < blocks_of(n) implies #[trigger] block_ok(l, b) by {
        crate::format::lemma_block_start_below(b, n);
        crate::format::lemma_stream_prefix(l, block_start(b), n);
        crate::format::lemma_blob_prefix(l, 2 * block_start(b), 2 * n);
    }
    crate::format::lemma_layout_ok_intro(l);
}

/// Builds the tables of a dataset from its records, in any order: sorts
/// them by ASN, interns their strings and counts their countries.
pub fn build<'a>(rows: &[AsInfo<'a>]) -> (res: Result<Table, BuildError>)
    ensures
        match res {
            Ok(t) => {
                &&& !has_duplicate(views(rows@))
                &&& fits_format(views(rows@))
                &&& layout_of(t.layout(), views(rows@))
                &&& t@ == t.layout().rows
                &&& t@.len() == rows@.len()
                &&& strictly_sorted(t@)
                &&& forall|k: int| 0 <= k < rows@.len() ==> t@.contains(#[trigger] rows@[k]@)
                &&& forall|i: int| 0 <= i < t@.len() ==> views(rows@).contains(#[trigger] t@[i])
            },
            Err(BuildError::NoRows) => rows@.len() == 0,
            Err(BuildError::DuplicateAsn(a)) => least_duplicate(views(rows@), a),
            Err(BuildError::TooLarge) => rows@.len() > 0 && !has_duplicate(views(rows@)) && (
            rows@.len() > usize::MAX / 2 || !fits_format(views(rows@))),
        },
        rows@.len() == 0 <==> res matches Err(BuildError::NoRows),
        has_duplicate(views(rows@)) <==> res matches Err(BuildError::DuplicateAsn(_)),
{
    if rows.len() == 0 {
        return Err(BuildError::NoRows);
    }
    let ghost v = views(rows@);
    let m = rows.len();
    let order = sorted_order(rows);
    proof {
        lemma_order_facts(v, order@);
    }
    match find_duplicate(&order) {
        Some(w) => {
            proof {
                lemma_least_duplicate(v, order@, w as int);
            }
            return Err(BuildError::DuplicateAsn(order[w].0 as u32));
        },
        None => {},
    }
    proof {
        lemma_no_duplicate(v, order@);
    }
    if m > usize::MAX / 2 {
        return Err(BuildError::TooLarge);
    }
    let first_seen = country_table(rows);
    let codes = frequency_order(rows, &first_seen);
    let ghost sr = arrange(v, order@);
    let ghost cv = code_views(codes@);
    proof {
        assert forall|k: int| 0 <= k < v.len() implies cv.contains(#[trigger] v[k].country) by {
            assert(holds_code(codes@, rows@[k].country@));
            let c = choose|c: int| 0 <= c < codes@.len() && #[trigger] codes@[c]@ == rows@[k].country@;
            assert(cv[c] == v[k].country);
        }
        assert forall|c: int| 0 <= c < cv.len() implies #[trigger] used_code(v, cv[c]) by {
            assert(used_code(views(rows@), codes@[c]@));
        }
        assert(country_table_of(cv, v));
    }
    if codes.len() > 0xFFFF_FFFF {
        proof {
            if fits_format(v) {
                let l = choose|l: Layout| #[trigger] layout_of(l, v) && layout_ok(l);
                lemma_country_table_unique(l.codes, cv, v);
                crate::format::lemma_layout_basics(l);
            }
        }
        return Err(BuildError::TooLarge);
    }
    proof {
        lemma_sorted_rows(v, order@);
        assert forall|k: int| 0 <= k < v.len() implies #[trigger] holds_code(codes@, v[k].country) by {
            assert(holds_code(codes@, rows@[k].country@));
        }
        lemma_country_indices(v, order@, codes@);
        assert forall|k: int| 0 <= k < v.len() implies sr.contains(#[trigger] v[k]) by {
            let p = lemma_pair_position(v, order@, k);
            assert(sr[p] == v[k]);
        }
        assert forall|i: int| 0 <= i < sr.len() implies v.contains(#[trigger] sr[i]) by {
            assert(sr[i] == v[order@[i].1 as int]);
        }
        reveal(encoder_inputs);
    }
    let res = encode_records(rows, &order, &codes);
    proof {
        if res is Ok {
            let t = res->Ok_0;
            assert forall|k: int| 0 <= k < rows@.len() implies t@.contains(#[trigger] rows@[k]@) by {
                assert(sr.contains(v[k]));
            }
            assert forall|i: int| 0 <= i < t@.len() implies views(rows@).contains(#[trigger] t@[i]) by {
                assert(v.contains(sr[i]));
            }
            assert(layout_of(t.layout(), v));
        }
    }
    res
}

} // verus!
