use vstd::prelude::*;
use vstd::utf8::encode_utf8;
use crate::coord::AxialCoord;
use crate::grid::{HexGrid, lists_cells, map_of_entries, read_entries};

verus! {

/// A saved cell as it is written: `q`, `r` and the JSON text of its value.
pub type Record = (i32, i32, Seq<char>);

/// The four little-endian two's-complement bytes of `v`.
pub open spec fn le_i32(v: i32) -> Seq<u8> {
    seq![v as u8, (v >> 8u32) as u8, (v >> 16u32) as u8, (v >> 24u32) as u8]
}

/// The eight little-endian bytes of `v`.
pub open spec fn le_u64(v: u64) -> Seq<u8> {
    seq![
        v as u8,
        (v >> 8u64) as u8,
        (v >> 16u64) as u8,
        (v >> 24u64) as u8,
        (v >> 32u64) as u8,
        (v >> 40u64) as u8,
        (v >> 48u64) as u8,
        (v >> 56u64) as u8,
    ]
}

/// The bytes of one record: `q`, `r`, the byte length of the text, then the
/// text in UTF-8.
pub open spec fn record_bytes(rec: Record) -> Seq<u8> {
    le_i32(rec.0) + le_i32(rec.1) + le_u64(encode_utf8(rec.2).len() as u64) + encode_utf8(rec.2)
}

/// The bytes of the records one after another.
pub open spec fn records_body(recs: Seq<Record>) -> Seq<u8>
    decreases recs.len(),
{
    if recs.len() == 0 {
        Seq::empty()
    } else {
        record_bytes(recs[0]) + records_body(recs.drop_first())
    }
}

/// The save format: the number of records, then the records.
pub open spec fn records_encoding(recs: Seq<Record>) -> Seq<u8> {
    le_u64(recs.len() as u64) + records_body(recs)
}

/// Whether every length written in the save format of `recs` fits in its
/// eight bytes.
pub open spec fn records_fit(recs: Seq<Record>) -> bool {
    &&& recs.len() <= u64::MAX
    &&& forall|i: int| 0 <= i < recs.len() ==> #[trigger] encode_utf8(recs[i].2).len() <= u64::MAX
}

/// The records of cells with their texts.
pub open spec fn entry_records(entries: Seq<(AxialCoord, String)>) -> Seq<Record> {
    entries.map_values(|e: (AxialCoord, String)| (e.0.q, e.0.r, e.1@))
}

/// The records of decoded triples.
pub open spec fn triple_records(triples: Seq<(i32, i32, String)>) -> Seq<Record> {
    triples.map_values(|t: (i32, i32, String)| (t.0, t.1, t.2@))
}

/// The texts of a grid of JSON texts.
pub open spec fn texts(m: Map<AxialCoord, String>) -> Map<AxialCoord, Seq<char>> {
    m.map_values(|s: String| s@)
}

proof fn lemma_le_i32_injective(a: i32, b: i32)
    requires
        le_i32(a) == le_i32(b),
    ensures
        a == b,
{
    assert(le_i32(a)[0] == le_i32(b)[0]);
    assert(le_i32(a)[1] == le_i32(b)[1]);
    assert(le_i32(a)[2] == le_i32(b)[2]);
    assert(le_i32(a)[3] == le_i32(b)[3]);
    assert(a == b) by (bit_vector)
        requires
            a as u8 == b as u8,
            (a >> 8u32) as u8 == (b >> 8u32) as u8,
            (a >> 16u32) as u8 == (b >> 16u32) as u8,
            (a >> 24u32) as u8 == (b >> 24u32) as u8,
    ;
}

proof fn lemma_le_u64_injective(a: u64, b: u64)
    requires
        le_u64(a) == le_u64(b),
    ensures
        a == b,
{
    assert(le_u64(a)[0] == le_u64(b)[0]);
    assert(le_u64(a)[1] == le_u64(b)[1]);
    assert(le_u64(a)[2] == le_u64(b)[2]);
    assert(le_u64(a)[3] == le_u64(b)[3]);
    assert(le_u64(a)[4] == le_u64(b)[4]);
    assert(le_u64(a)[5] == le_u64(b)[5]);
    assert(le_u64(a)[6] == le_u64(b)[6]);
    assert(le_u64(a)[7] == le_u64(b)[7]);
    assert(a == b) by (bit_vector)
        requires
            a as u8 == b as u8,
            (a >> 8u64) as u8 == (b >> 8u64) as u8,
            (a >> 16u64) as u8 == (b >> 16u64) as u8,
            (a >> 24u64) as u8 == (b >> 24u64) as u8,
            (a >> 32u64) as u8 == (b >> 32u64) as u8,
            (a >> 40u64) as u8 == (b >> 40u64) as u8,
            (a >> 48u64) as u8 == (b >> 48u64) as u8,
            (a >> 56u64) as u8 == (b >> 56u64) as u8,
    ;
}

/// If `x + y` is a prefix of `d`, then `x` starts `d` and `y` is a prefix of
/// the rest.
proof fn lemma_split_prefix(x: Seq<u8>, y: Seq<u8>, d: Seq<u8>)
    requires
        (x + y).is_prefix_of(d),
    ensures
        x == d.subrange(0, x.len() as int),
        y.is_prefix_of(d.subrange(x.len() as int, d.len() as int)),
{
    assert(x =~= (x + y).subrange(0, x.len() as int));
    assert forall|i: int| 0 <= i < y.len() implies y[i] == d[x.len() + i] by {
        assert((x + y)[x.len() + i] == y[i]);
        assert((x + y)[x.len() + i] == d.subrange(0, (x + y).len() as int)[x.len() + i]);
    }
    assert(y =~= d.subrange(x.len() as int, d.len() as int).subrange(0, y.len() as int));
}

/// Two record sequences of the same length whose bytes both start `d` are
/// the same.
proof fn lemma_records_body_unique(a: Seq<Record>, b: Seq<Record>, d: Seq<u8>)
    requires
        a.len() == b.len(),
        records_fit(a),
        records_fit(b),
        records_body(a).is_prefix_of(d),
        records_body(b).is_prefix_of(d),
    ensures
        a == b,
    decreases a.len(),
{
    if a.len() == 0 {
        assert(a =~= b);
    } else {
        let ra = a[0];
        let rb = b[0];
        let ta = encode_utf8(ra.2);
        let tb = encode_utf8(rb.2);
        assert(ta.len() <= u64::MAX);
        assert(tb.len() <= u64::MAX);
        let ha = le_i32(ra.0) + le_i32(ra.1) + le_u64(ta.len() as u64);
        let hb = le_i32(rb.0) + le_i32(rb.1) + le_u64(tb.len() as u64);
        assert(records_body(a) == ha + ta + records_body(a.drop_first()));
        assert(records_body(b) == hb + tb + records_body(b.drop_first()));
        lemma_split_prefix(ha + ta, records_body(a.drop_first()), d);
        lemma_split_prefix(hb + tb, records_body(b.drop_first()), d);
        lemma_split_prefix(ha, ta, d.subrange(0, (ha + ta).len() as int));
        lemma_split_prefix(hb, tb, d.subrange(0, (hb + tb).len() as int));
        assert(ha.len() == 16 && hb.len() == 16);
        assert(ha =~= hb);
        assert(le_i32(ra.0) =~= ha.subrange(0, 4));
        assert(le_i32(rb.0) =~= hb.subrange(0, 4));
        assert(le_i32(ra.1) =~= ha.subrange(4, 8));
        assert(le_i32(rb.1) =~= hb.subrange(4, 8));
        assert(le_u64(ta.len() as u64) =~= ha.subrange(8, 16));
        assert(le_u64(tb.len() as u64) =~= hb.subrange(8, 16));
        lemma_le_i32_injective(ra.0, rb.0);
        lemma_le_i32_injective(ra.1, rb.1);
        lemma_le_u64_injective(ta.len() as u64, tb.len() as u64);
        assert(ta.len() == tb.len());
        assert(ta =~= tb);
        vstd::utf8::encode_utf8_decode_utf8(ra.2);
        vstd::utf8::encode_utf8_decode_utf8(rb.2);
        assert(ra == rb);
        let n = (ha + ta).len() as int;
        let rest = d.subrange(n, d.len() as int);
        assert forall|i: int| 0 <= i < a.drop_first().len() implies #[trigger] encode_utf8(
            a.drop_first()[i].2,
        ).len() <= u64::MAX by {
            assert(a.drop_first()[i] == a[i + 1]);
        }
        assert forall|i: int| 0 <= i < b.drop_first().len() implies #[trigger] encode_utf8(
            b.drop_first()[i].2,
        ).len() <= u64::MAX by {
            assert(b.drop_first()[i] == b[i + 1]);
        }
        lemma_records_body_unique(a.drop_first(), b.drop_first(), rest);
        assert(a =~= b) by {
            assert forall|i: int| 0 <= i < a.len() implies a[i] == b[i] by {
                if i > 0 {
                    assert(a[i] == a.drop_first()[i - 1]);
                    assert(b[i] == b.drop_first()[i - 1]);
                }
            }
        }
    }
}

/// The save format can be read back in only one way: two record sequences
/// whose encodings both start the same bytes are the same.
pub proof fn lemma_records_encoding_unique(a: Seq<Record>, b: Seq<Record>, d: Seq<u8>)
    requires
        records_fit(a),
        records_fit(b),
        records_encoding(a).is_prefix_of(d),
        records_encoding(b).is_prefix_of(d),
    ensures
        a == b,
{
    lemma_split_prefix(le_u64(a.len() as u64), records_body(a), d);
    lemma_split_prefix(le_u64(b.len() as u64), records_body(b), d);
    assert(le_u64(a.len() as u64) =~= le_u64(b.len() as u64));
    lemma_le_u64_injective(a.len() as u64, b.len() as u64);
    lemma_records_body_unique(a, b, d.subrange(8, d.len() as int));
}

/// The body of the save format has sixteen bytes per record at least, and
/// holds the text of each record.
proof fn lemma_body_length(recs: Seq<Record>)
    ensures
        records_body(recs).len() >= 16 * recs.len(),
        forall|i: int|
            0 <= i < recs.len() ==> records_body(recs).len() >= #[trigger] encode_utf8(
                recs[i].2,
            ).len(),
    decreases recs.len(),
{
    if recs.len() > 0 {
        let rest = recs.drop_first();
        lemma_body_length(rest);
        assert forall|i: int| 0 <= i < recs.len() implies records_body(recs).len()
            >= #[trigger] encode_utf8(recs[i].2).len() by {
            if i > 0 {
                assert(recs[i] == rest[i - 1]);
            }
        }
    }
}

/// Records whose encoding is held in memory have lengths that fit.
proof fn lemma_encoding_in_memory_fits(recs: Seq<Record>)
    requires
        records_encoding(recs).len() <= u64::MAX,
    ensures
        records_fit(recs),
{
    lemma_body_length(recs);
}

/// The record of a saved cell is that cell's own `q`, then its own `r`,
/// then its text, in the order of the cells; likewise for decoded triples.
pub proof fn lemma_records_are_cell_fields(
    entries: Seq<(AxialCoord, String)>,
    triples: Seq<(i32, i32, String)>,
)
    ensures
        entry_records(entries).len() == entries.len(),
        forall|i: int|
            0 <= i < entries.len() ==> #[trigger] entry_records(entries)[i] == (
                entries[i].0.q,
                entries[i].0.r,
                entries[i].1@,
            ),
        triple_records(triples).len() == triples.len(),
        forall|i: int|
            0 <= i < triples.len() ==> #[trigger] triple_records(triples)[i] == (
                triples[i].0,
                triples[i].1,
                triples[i].2@,
            ),
{
}

/// The four bytes written for an `i32` are its two's-complement value,
/// least significant byte first.
pub proof fn lemma_le_i32_value(v: i32)
    ensures
        le_i32(v).len() == 4,
        le_i32(v)[0] as u32 + le_i32(v)[1] as u32 * 0x100 + le_i32(v)[2] as u32 * 0x1_0000
            + le_i32(v)[3] as u32 * 0x100_0000 == v as u32,
{
    let (b0, b1, b2, b3) = (le_i32(v)[0], le_i32(v)[1], le_i32(v)[2], le_i32(v)[3]);
    assert(b0 as u32 + b1 as u32 * 0x100 + b2 as u32 * 0x1_0000 + b3 as u32 * 0x100_0000 == v
        as u32) by (bit_vector)
        requires
            b0 == v as u8,
            b1 == (v >> 8u32) as u8,
            b2 == (v >> 16u32) as u8,
            b3 == (v >> 24u32) as u8,
    ;
}

/// The eight bytes written for a `u64` are its value, least significant
/// byte first.
pub proof fn lemma_le_u64_value(v: u64)
    ensures
        le_u64(v).len() == 8,
        le_u64(v)[0] as u64 + le_u64(v)[1] as u64 * 0x100 + le_u64(v)[2] as u64 * 0x1_0000
            + le_u64(v)[3] as u64 * 0x100_0000 + le_u64(v)[4] as u64 * 0x1_0000_0000 + le_u64(
            v,
        )[5] as u64 * 0x100_0000_0000 + le_u64(v)[6] as u64 * 0x1_0000_0000_0000 + le_u64(v)[7] as u64
            * 0x100_0000_0000_0000 == v,
{
    let s = le_u64(v);
    let (b0, b1, b2, b3, b4, b5, b6, b7) = (s[0], s[1], s[2], s[3], s[4], s[5], s[6], s[7]);
    assert(b0 as u64 + b1 as u64 * 0x100 + b2 as u64 * 0x1_0000 + b3 as u64 * 0x100_0000 + b4 as u64
        * 0x1_0000_0000 + b5 as u64 * 0x100_0000_0000 + b6 as u64 * 0x1_0000_0000_0000 + b7 as u64
        * 0x100_0000_0000_0000 == v) by (bit_vector)
        requires
            b0 == v as u8,
            b1 == (v >> 8u64) as u8,
            b2 == (v >> 16u64) as u8,
            b3 == (v >> 24u64) as u8,
            b4 == (v >> 32u64) as u8,
            b5 == (v >> 40u64) as u8,
            b6 == (v >> 48u64) as u8,
            b7 == (v >> 56u64) as u8,
    ;
}

/// Records are written one after another in their order: the bytes of a
/// single record are its own bytes, and the bytes of two lists joined are
/// the bytes of the first followed by those of the second.
pub proof fn lemma_records_body_in_order(a: Seq<Record>, b: Seq<Record>, rec: Record)
    ensures
        records_body(seq![rec]) == record_bytes(rec),
        records_body(a + b) == records_body(a) + records_body(b),
    decreases a.len(),
{
    let one = seq![rec];
    assert(one.drop_first() =~= Seq::<Record>::empty());
    assert(records_body(one.drop_first()) =~= Seq::<u8>::empty());
    assert(one[0] == rec);
    assert(records_body(one) =~= record_bytes(rec));
    if a.len() == 0 {
        assert(a + b =~= b);
        assert(records_body(a) =~= Seq::<u8>::empty());
        assert(records_body(a + b) =~= records_body(a) + records_body(b));
    } else {
        lemma_records_body_in_order(a.drop_first(), b, rec);
        assert((a + b).drop_first() =~= a.drop_first() + b);
        assert((a + b)[0] == a[0]);
        assert(records_body(a + b) =~= records_body(a) + records_body(b));
    }
}

/// Saving a grid with the one cell `c` holding `text` writes the count 1,
/// then `c.q`, then `c.r`, then the byte length of the text, then the text
/// in UTF-8.
pub proof fn lemma_single_cell_bytes(c: AxialCoord, text: String)
    ensures
        records_encoding(entry_records(seq![(c, text)])) == le_u64(1) + le_i32(c.q) + le_i32(c.r)
            + le_u64(encode_utf8(text@).len() as u64) + encode_utf8(text@),
{
    let recs = entry_records(seq![(c, text)]);
    assert(recs[0] == (c.q, c.r, text@));
    assert(recs.drop_first() =~= Seq::<Record>::empty());
    assert(records_body(recs.drop_first()) =~= Seq::<u8>::empty());
    assert(records_body(recs) =~= record_bytes(recs[0]));
    assert(records_encoding(recs) =~= le_u64(1) + le_i32(c.q) + le_i32(c.r) + le_u64(
        encode_utf8(text@).len() as u64,
    ) + encode_utf8(text@));
}

/// What loading reads (the entries `deserialize_js` returns) are the cells
/// of the records that start the data, each with the record's own `q` and
/// `r` and its text, in the order written.
pub proof fn lemma_loaded_cells_are_records(
    loaded: Seq<(AxialCoord, String)>,
    recs: Seq<Record>,
    data: Seq<u8>,
)
    requires
        records_fit(entry_records(loaded)),
        records_encoding(entry_records(loaded)).is_prefix_of(data),
        records_fit(recs),
        records_encoding(recs).is_prefix_of(data),
    ensures
        loaded.len() == recs.len(),
        forall|i: int|
            0 <= i < recs.len() ==> {
                &&& (#[trigger] loaded[i]).0.q == recs[i].0
                &&& loaded[i].0.r == recs[i].1
                &&& loaded[i].1@ == recs[i].2
            },
{
    lemma_records_encoding_unique(entry_records(loaded), recs, data);
    assert forall|i: int| 0 <= i < recs.len() implies {
        &&& (#[trigger] loaded[i]).0.q == recs[i].0
        &&& loaded[i].0.r == recs[i].1
        &&& loaded[i].1@ == recs[i].2
    } by {
        assert(entry_records(loaded)[i] == recs[i]);
    }
}

/// Loading data that starts with the bytes of one cell `(q, r)` holding
/// `text` gives exactly that one cell, with that text.
pub proof fn lemma_single_cell_read(
    loaded: Seq<(AxialCoord, String)>,
    q: i32,
    r: i32,
    text: Seq<char>,
    data: Seq<u8>,
)
    requires
        records_fit(entry_records(loaded)),
        records_encoding(entry_records(loaded)).is_prefix_of(data),
        encode_utf8(text).len() <= u64::MAX,
        (le_u64(1) + le_i32(q) + le_i32(r) + le_u64(encode_utf8(text).len() as u64) + encode_utf8(
            text,
        )).is_prefix_of(data),
    ensures
        loaded.len() == 1,
        loaded[0].0 == (AxialCoord { q, r }),
        loaded[0].1@ == text,
{
    let recs = seq![(q, r, text)];
    assert(recs.drop_first() =~= Seq::<Record>::empty());
    assert(records_body(recs.drop_first()) =~= Seq::<u8>::empty());
    assert(records_body(recs) =~= record_bytes(recs[0]));
    assert(records_encoding(recs) =~= le_u64(1) + le_i32(q) + le_i32(r) + le_u64(
        encode_utf8(text).len() as u64,
    ) + encode_utf8(text));
    lemma_loaded_cells_are_records(loaded, recs, data);
}

/// Entries whose records agree build grids with the same texts.
proof fn lemma_same_records_same_texts(a: Seq<(AxialCoord, String)>, b: Seq<(AxialCoord, String)>)
    requires
        entry_records(a) == entry_records(b),
    ensures
        texts(map_of_entries(a)) == texts(map_of_entries(b)),
    decreases a.len(),
{
    assert(a.len() == entry_records(a).len());
    if a.len() > 0 {
        assert(entry_records(a.drop_last()) =~= entry_records(b.drop_last())) by {
            assert forall|i: int| 0 <= i < a.len() - 1 implies #[trigger] entry_records(
                a.drop_last(),
            )[i] == entry_records(b.drop_last())[i] by {
                assert(entry_records(a)[i] == entry_records(b)[i]);
            }
        }
        lemma_same_records_same_texts(a.drop_last(), b.drop_last());
        let n = a.len() - 1;
        assert(entry_records(a)[n] == entry_records(b)[n]);
        let (ka, va) = a.last();
        let (kb, vb) = b.last();
        assert(ka == kb && va@ == vb@);
        let ma = map_of_entries(a.drop_last());
        let mb = map_of_entries(b.drop_last());
        assert(map_of_entries(a) == ma.insert(ka, va));
        assert(map_of_entries(b) == mb.insert(kb, vb));
        assert(texts(ma.insert(ka, va)) =~= texts(ma).insert(ka, va@));
        assert(texts(mb.insert(kb, vb)) =~= texts(mb).insert(kb, vb@));
    }
}

/// Loading the bytes that saving a grid of JSON texts wrote gives back the
/// same cells with the same texts. `saved` is the listing that
/// `serialize_js` wrote and `loaded` what `deserialize_js` read back.
pub proof fn lemma_load_after_save(
    m: Map<AxialCoord, String>,
    saved: Seq<(AxialCoord, String)>,
    loaded: Seq<(AxialCoord, String)>,
)
    requires
        lists_cells(m, saved),
        records_fit(entry_records(saved)),
        records_fit(entry_records(loaded)),
        records_encoding(entry_records(loaded)).is_prefix_of(
            records_encoding(entry_records(saved)),
        ),
    ensures
        texts(map_of_entries(loaded)) == texts(m),
{
    let d = records_encoding(entry_records(saved));
    assert(d.is_prefix_of(d)) by {
        assert(d =~= d.subrange(0, d.len() as int));
    }
    lemma_records_encoding_unique(entry_records(loaded), entry_records(saved), d);
    lemma_same_records_same_texts(loaded, saved);
    crate::grid::lemma_rebuild_from_listing(m, saved);
}

#[verifier::external_type_specification]
#[verifier::external_body]
pub struct ExBincodeErrorKind(bincode::ErrorKind);

/// Calls `bincode::serialize` on a list of `(q, r, text)` triples. With
/// bincode's default options integers are written little-endian at full
/// width and a list or a string is preceded by its length as eight bytes,
/// so the bytes are `records_encoding` of the triples. For such a list it
/// has no failure path: the size limit is infinite, lists carry their
/// length, and writing into a `Vec` does not fail.
#[verifier::external_body]
fn bincode_serialize_triples(triples: &Vec<(i32, i32, String)>) -> (res: Result<
    Vec<u8>,
    Box<bincode::ErrorKind>,
>)
    ensures
        res is Ok,
        res matches Ok(bytes) ==> bytes@ == records_encoding(triple_records(triples@)),
{
    bincode::serialize(triples)
}

/// Calls `bincode::deserialize` for a list of `(q, r, text)` triples. It
/// reads the format that `bincode_serialize_triples` writes and ignores
/// bytes after it: when it succeeds, the encoding of what it read starts
/// `data` (every length in it came from `data`, so it fits), and it
/// succeeds whenever the encoding of some records starts `data`.
#[verifier::external_body]
fn bincode_deserialize_triples(data: &[u8]) -> (res: Result<
    Vec<(i32, i32, String)>,
    Box<bincode::ErrorKind>,
>)
    ensures
        res matches Ok(triples) ==> records_fit(triple_records(triples@)) && records_encoding(
            triple_records(triples@),
        ).is_prefix_of(data@),
        (exists|recs: Seq<Record>| #[trigger]
            records_fit(recs) && records_encoding(recs).is_prefix_of(data@)) ==> res is Ok,
{
    bincode::deserialize(data)
}

/// Calls the `Display` impl of bincode's error type to get its message;
/// nothing is stated of the text.
#[verifier::external_body]
fn bincode_error_message(err: &Box<bincode::ErrorKind>) -> String {
    err.to_string()
}

/// A failure of bincode to write or read the save format, with its message.
#[derive(Debug)]
pub struct CodecError {
    pub message: String,
}

impl HexGrid<String> {
    /// Saves a grid whose values are JSON texts: the cells, in no particular
    /// order, as records of `q`, `r` and the text (see `records_encoding`).
    /// It always succeeds.
    pub fn serialize_js(&self) -> (res: Result<Vec<u8>, CodecError>)
        ensures
            res matches Ok(bytes) && exists|saved: Seq<(AxialCoord, String)>|
                #![trigger lists_cells(self@, saved)]
                {
                    &&& lists_cells(self@, saved)
                    &&& records_fit(entry_records(saved))
                    &&& bytes@ == records_encoding(entry_records(saved))
                },
            res matches Ok(bytes) ==> (self@.len() == 1 ==> forall|c: AxialCoord| #[trigger]
                self@.contains_key(c) ==> bytes@ == le_u64(1) + le_i32(c.q) + le_i32(c.r)
                    + le_u64(encode_utf8(self@[c]@).len() as u64) + encode_utf8(self@[c]@)),
    {
        let entries = self.iter();
        let ghost saved = read_entries(entries@);
        let n = entries.len();
        let mut triples: Vec<(i32, i32, String)> = Vec::new();
        for i in 0..n
            invariant
                n == entries@.len(),
                saved == read_entries(entries@),
                triples@.len() == i,
                forall|j: int|
                    0 <= j < i ==> {
                        &&& (#[trigger] triples@[j]).0 == saved[j].0.q
                        &&& triples@[j].1 == saved[j].0.r
                        &&& triples@[j].2@ == saved[j].1@
                    },
        {
            let (c, text) = entries[i];
            triples.push((c.q, c.r, text.clone()));
        }
        assert(triple_records(triples@) =~= entry_records(saved));
        match bincode_serialize_triples(&triples) {
            Ok(bytes) => {
                let written = bytes.len();
                proof {
                    assert(written <= u64::MAX);
                    lemma_encoding_in_memory_fits(entry_records(saved));
                    if self@.len() == 1 {
                        assert forall|c: AxialCoord| #[trigger] self@.contains_key(c) implies bytes@
                            == le_u64(1) + le_i32(c.q) + le_i32(c.r) + le_u64(
                            encode_utf8(self@[c]@).len() as u64,
                        ) + encode_utf8(self@[c]@) by {
                            let i = choose|i: int| 0 <= i < saved.len() && saved[i].0 == c;
                            assert(i == 0);
                            assert(saved =~= seq![(c, saved[0].1)]);
                            lemma_single_cell_bytes(c, saved[0].1);
                        }
                    }
                }
                Ok(bytes)
            },
            Err(e) => Err(CodecError { message: bincode_error_message(&e) }),
        }
    }

    /// Reads saved records back: the cells and JSON texts in the order they
    /// were written. It succeeds exactly when `data` starts with the
    /// encoding of some records; bytes after them are ignored.
    pub fn deserialize_js(data: &[u8]) -> (res: Result<Vec<(AxialCoord, String)>, CodecError>)
        ensures
            res matches Ok(entries) ==> records_fit(entry_records(entries@)) && records_encoding(
                entry_records(entries@),
            ).is_prefix_of(data@),
            res is Ok <==> exists|recs: Seq<Record>| #[trigger]
                records_fit(recs) && records_encoding(recs).is_prefix_of(data@),
            res matches Ok(entries) ==> forall|recs: Seq<Record>|
                #![trigger records_encoding(recs)]
                records_fit(recs) && records_encoding(recs).is_prefix_of(data@) ==> {
                    &&& entries@.len() == recs.len()
                    &&& forall|i: int|
                        0 <= i < recs.len() ==> {
                            &&& (#[trigger] entries@[i]).0.q == recs[i].0
                            &&& entries@[i].0.r == recs[i].1
                            &&& entries@[i].1@ == recs[i].2
                        }
                },
    {
        match bincode_deserialize_triples(data) {
            Ok(triples) => {
                let ghost recs = triple_records(triples@);
                let mut out: Vec<(AxialCoord, String)> = Vec::new();
                for t in it: triples.into_iter()
                    invariant
                        recs == triple_records(it.seq()),
                        out@.len() == it.index(),
                        forall|j: int|
                            0 <= j < it.index() ==> {
                                &&& (#[trigger] out@[j]).0.q == recs[j].0
                                &&& out@[j].0.r == recs[j].1
                                &&& out@[j].1@ == recs[j].2
                            },
                {
                    let (q, r, text) = t;
                    out.push((AxialCoord::new(q, r), text));
                }
                assert(entry_records(out@) =~= recs);
                proof {
                    assert forall|rs: Seq<Record>|
                        records_fit(rs) && #[trigger] records_encoding(rs).is_prefix_of(
                            data@,
                        ) implies {
                        &&& out@.len() == rs.len()
                        &&& forall|i: int|
                            0 <= i < rs.len() ==> {
                                &&& (#[trigger] out@[i]).0.q == rs[i].0
                                &&& out@[i].0.r == rs[i].1
                                &&& out@[i].1@ == rs[i].2
                            }
                    } by {
                        lemma_loaded_cells_are_records(out@, rs, data@);
                    }
                }
                Ok(out)
            },
            Err(e) => Err(CodecError { message: bincode_error_message(&e) }),
        }
    }
}

} // verus!
