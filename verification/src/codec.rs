//! The byte layout of the interchange container, as spec-level encoding
//! and decoding functions over byte sequences, the proof that decoding
//! undoes encoding, and the executable encoder and decoder that match
//! them.
//!
//! A file is: a four-byte magic, the record batches, a one-byte
//! end-of-stream marker, the metadata footer (batch count and schema) and
//! the footer's byte length. Each batch carries a compression tag, its
//! row count and one field-aligned column region per schema field
//! (validity bytes, then the typed value buffer). All integers are
//! little-endian 64-bit.
use vstd::prelude::*;

use vstd::bytes::{spec_u64_from_le_bytes, spec_u64_to_le_bytes};
use vstd::utf8::{decode_utf8, encode_utf8, valid_utf8};

use crate::series::{ColCells, DType};

verus! {

/// The first magic byte.
pub const MAGIC0: u8 = 0x43;

/// The second magic byte.
pub const MAGIC1: u8 = 0x46;

/// The third magic byte.
pub const MAGIC2: u8 = 0x49;

/// The fourth magic byte.
pub const MAGIC3: u8 = 0x31;

/// One on-wire type descriptor: a column name and its logical type
/// (every column is nullable).
pub struct FieldVal {
    pub name: Seq<char>,
    pub dtype: DType,
}

/// The logical content of one file: its schema and, per field, the cells
/// of all batches concatenated.
pub struct FileVal {
    pub fields: Seq<FieldVal>,
    pub cols: Seq<ColCells>,
}

pub open spec fn dtype_tag(d: DType) -> u8 {
    match d {
        DType::Boolean => 1,
        DType::Int64 => 2,
        DType::Utf8 => 3,
    }
}

pub open spec fn col_dtype(c: ColCells) -> DType {
    match c {
        ColCells::Bools(_) => DType::Boolean,
        ColCells::Ints(_) => DType::Int64,
        ColCells::Strs(_) => DType::Utf8,
    }
}

/// An empty column of the given type.
pub open spec fn empty_col(d: DType) -> ColCells {
    match d {
        DType::Boolean => ColCells::Bools(Seq::empty()),
        DType::Int64 => ColCells::Ints(Seq::empty()),
        DType::Utf8 => ColCells::Strs(Seq::empty()),
    }
}

pub open spec fn u64le(n: int) -> Seq<u8> {
    spec_u64_to_le_bytes(n as u64)
}

/// What a well-formed file value looks like: one column per field, of
/// the field's type, all of one height, everything within the wire
/// format's 64-bit bounds.
pub open spec fn wf_file(f: FileVal, rows: nat) -> bool {
    &&& f.cols.len() == f.fields.len()
    &&& rows < 0x1_0000_0000_0000_0000
    &&& forall|i: int|
        0 <= i < f.cols.len() ==> col_dtype(#[trigger] f.cols[i]) == f.fields[i].dtype
    &&& forall|i: int| 0 <= i < f.cols.len() ==> (#[trigger] f.cols[i]).len() == rows
    &&& forall|i: int|
        0 <= i < f.fields.len() ==> encode_utf8((#[trigger] f.fields[i]).name).len()
            < 0x1_0000_0000_0000_0000
    &&& forall|i: int| 0 <= i < f.cols.len() ==> wf_col(#[trigger] f.cols[i])
    &&& f.fields.len() < 0x1_0000_0000_0000_0000
    &&& enc_fields(f.fields).len() + 16 < 0x1_0000_0000_0000_0000
    &&& enc_cols(f.cols).len() < 0x1_0000_0000_0000_0000
}

/// Every string cell's byte encoding fits the wire's 64-bit length.
pub open spec fn wf_col(c: ColCells) -> bool {
    match c {
        ColCells::Strs(s) => forall|i: int|
            0 <= i < s.len() ==> (match #[trigger] s[i] {
                Some(t) => encode_utf8(t).len() < 0x1_0000_0000_0000_0000,
                None => true,
            }),
        _ => true,
    }
}

// ---------------------------------------------------------------------
// encoding
// ---------------------------------------------------------------------
/// The validity bytes of a column: one byte per row, one for a value,
/// zero for a null.
pub open spec fn enc_validity(c: ColCells) -> Seq<u8> {
    match c {
        ColCells::Bools(s) => Seq::new(
            s.len(),
            |i: int| if s[i] is Some {
                1u8
            } else {
                0u8
            },
        ),
        ColCells::Ints(s) => Seq::new(
            s.len(),
            |i: int| if s[i] is Some {
                1u8
            } else {
                0u8
            },
        ),
        ColCells::Strs(s) => Seq::new(
            s.len(),
            |i: int| if s[i] is Some {
                1u8
            } else {
                0u8
            },
        ),
    }
}

pub open spec fn enc_bool_cell(c: Option<bool>) -> Seq<u8> {
    seq![if c == Some(true) {
        1u8
    } else {
        0u8
    }]
}


/// The signed reading of a 64-bit pattern.
pub open spec fn i64_of_bits(w: u64) -> i64 {
    #[verifier::truncate] (w as i64)
}

/// The bit pattern of a signed 64-bit value.
pub open spec fn bits_of_i64(v: i64) -> u64 {
    #[verifier::truncate] (v as u64)
}

fn i64_from_bits(w: u64) -> (r: i64)
    ensures
        r == i64_of_bits(w),
{
    #[verifier::truncate] (w as i64)
}

fn bits_from_i64(v: i64) -> (r: u64)
    ensures
        r == bits_of_i64(v),
{
    #[verifier::truncate] (v as u64)
}

pub open spec fn enc_int_cell(c: Option<i64>) -> Seq<u8> {
    match c {
        Some(v) => u64le(bits_of_i64(v) as int),
        None => u64le(0),
    }
}

pub open spec fn enc_str_cell(c: Option<Seq<char>>) -> Seq<u8> {
    match c {
        Some(t) => u64le(encode_utf8(t).len() as int) + encode_utf8(t),
        None => u64le(0),
    }
}

pub open spec fn enc_bool_vals(s: Seq<Option<bool>>) -> Seq<u8>
    decreases s.len(),
{
    if s.len() == 0 {
        Seq::empty()
    } else {
        enc_bool_cell(s.first()) + enc_bool_vals(s.drop_first())
    }
}

pub open spec fn enc_int_vals(s: Seq<Option<i64>>) -> Seq<u8>
    decreases s.len(),
{
    if s.len() == 0 {
        Seq::empty()
    } else {
        enc_int_cell(s.first()) + enc_int_vals(s.drop_first())
    }
}

pub open spec fn enc_str_vals(s: Seq<Option<Seq<char>>>) -> Seq<u8>
    decreases s.len(),
{
    if s.len() == 0 {
        Seq::empty()
    } else {
        enc_str_cell(s.first()) + enc_str_vals(s.drop_first())
    }
}

/// The value buffer of a column.
pub open spec fn enc_vals(c: ColCells) -> Seq<u8> {
    match c {
        ColCells::Bools(s) => enc_bool_vals(s),
        ColCells::Ints(s) => enc_int_vals(s),
        ColCells::Strs(s) => enc_str_vals(s),
    }
}

/// One column region: validity bytes, then the value buffer.
pub open spec fn enc_col(c: ColCells) -> Seq<u8> {
    enc_validity(c) + enc_vals(c)
}

/// All column regions of one batch, in schema order.
pub open spec fn enc_cols(cols: Seq<ColCells>) -> Seq<u8>
    decreases cols.len(),
{
    if cols.len() == 0 {
        Seq::empty()
    } else {
        enc_col(cols.first()) + enc_cols(cols.drop_first())
    }
}

/// One on-wire field: name length, name bytes, type tag, nullability.
pub open spec fn enc_field(f: FieldVal) -> Seq<u8> {
    u64le(encode_utf8(f.name).len() as int) + encode_utf8(f.name) + seq![dtype_tag(f.dtype), 1u8]
}

pub open spec fn enc_fields(fs: Seq<FieldVal>) -> Seq<u8>
    decreases fs.len(),
{
    if fs.len() == 0 {
        Seq::empty()
    } else {
        enc_field(fs.first()) + enc_fields(fs.drop_first())
    }
}

/// The schema message: field count, then the fields.
pub open spec fn enc_schema(fs: Seq<FieldVal>) -> Seq<u8> {
    u64le(fs.len() as int) + enc_fields(fs)
}

/// The footer: batch count, then the schema.
pub open spec fn enc_footer(fs: Seq<FieldVal>, n_batches: nat) -> Seq<u8> {
    u64le(n_batches as int) + enc_schema(fs)
}

/// One record batch around already-stored (possibly compressed) payload
/// bytes.
pub open spec fn enc_batch_stored(comp: u8, rows: nat, stored: Seq<u8>) -> Seq<u8> {
    seq![1u8, comp] + u64le(rows as int) + u64le(stored.len() as int) + stored
}

/// A whole single-batch file around already-stored payload bytes.
pub open spec fn enc_file_stored(f: FileVal, rows: nat, comp: u8, stored: Seq<u8>) -> Seq<u8> {
    let body = enc_batch_stored(comp, rows, stored);
    let footer = enc_footer(f.fields, 1);
    seq![MAGIC0, MAGIC1, MAGIC2, MAGIC3] + body + seq![0u8] + footer + u64le(
        footer.len() as int,
    )
}

/// A whole single-batch uncompressed file.
pub open spec fn enc_file(f: FileVal, rows: nat) -> Seq<u8> {
    enc_file_stored(f, rows, 0, enc_cols(f.cols))
}

// ---------------------------------------------------------------------
// decoding
// ---------------------------------------------------------------------
pub open spec fn parse_u64(b: Seq<u8>, pos: int) -> Option<(u64, int)> {
    if 0 <= pos && pos + 8 <= b.len() {
        Some((spec_u64_from_le_bytes(b.subrange(pos, pos + 8)), pos + 8))
    } else {
        None
    }
}

pub open spec fn parse_byte(b: Seq<u8>, pos: int) -> Option<(u8, int)> {
    if 0 <= pos && pos + 1 <= b.len() {
        Some((b[pos], pos + 1))
    } else {
        None
    }
}

pub open spec fn tag_dtype(t: u8) -> Option<DType> {
    if t == 1 {
        Some(DType::Boolean)
    } else if t == 2 {
        Some(DType::Int64)
    } else if t == 3 {
        Some(DType::Utf8)
    } else {
        None
    }
}

pub open spec fn parse_field(b: Seq<u8>, pos: int) -> Option<(FieldVal, int)> {
    match parse_u64(b, pos) {
        None => None,
        Some((n, p1)) => if p1 + n <= b.len() {
            let nb = b.subrange(p1, p1 + n);
            if valid_utf8(nb) {
                let p2 = p1 + n;
                if p2 + 2 <= b.len() && b[p2 + 1] == 1 {
                    match tag_dtype(b[p2]) {
                        Some(d) => Some(
                            (FieldVal { name: decode_utf8(nb), dtype: d }, p2 + 2),
                        ),
                        None => None,
                    }
                } else {
                    None
                }
            } else {
                None
            }
        } else {
            None
        },
    }
}

pub open spec fn parse_fields(b: Seq<u8>, pos: int, n: nat) -> Option<(Seq<FieldVal>, int)>
    decreases n,
{
    if n == 0 {
        Some((Seq::empty(), pos))
    } else {
        match parse_field(b, pos) {
            None => None,
            Some((f, p1)) => match parse_fields(b, p1, (n - 1) as nat) {
                None => None,
                Some((rest, p2)) => Some((seq![f] + rest, p2)),
            },
        }
    }
}

pub open spec fn parse_bool_vals(b: Seq<u8>, pos: int, validity: Seq<u8>) -> Option<
    (Seq<Option<bool>>, int),
>
    decreases validity.len(),
{
    if validity.len() == 0 {
        Some((Seq::empty(), pos))
    } else if 0 <= pos && pos + 1 <= b.len() {
        let byte = b[pos];
        if validity.first() == 1 && byte != 0 && byte != 1 {
            None
        } else {
            let cell: Option<bool> = if validity.first() == 1 {
                Some(byte == 1)
            } else {
                None
            };
            match parse_bool_vals(b, pos + 1, validity.drop_first()) {
                None => None,
                Some((rest, p1)) => Some((seq![cell] + rest, p1)),
            }
        }
    } else {
        None
    }
}

pub open spec fn parse_int_vals(b: Seq<u8>, pos: int, validity: Seq<u8>) -> Option<
    (Seq<Option<i64>>, int),
>
    decreases validity.len(),
{
    if validity.len() == 0 {
        Some((Seq::empty(), pos))
    } else {
        match parse_u64(b, pos) {
            None => None,
            Some((w, p1)) => {
                let cell: Option<i64> = if validity.first() == 1 {
                    Some(i64_of_bits(w))
                } else {
                    None
                };
                match parse_int_vals(b, p1, validity.drop_first()) {
                    None => None,
                    Some((rest, p2)) => Some((seq![cell] + rest, p2)),
                }
            },
        }
    }
}

pub open spec fn parse_str_vals(b: Seq<u8>, pos: int, validity: Seq<u8>) -> Option<
    (Seq<Option<Seq<char>>>, int),
>
    decreases validity.len(),
{
    if validity.len() == 0 {
        Some((Seq::empty(), pos))
    } else {
        match parse_u64(b, pos) {
            None => None,
            Some((n, p1)) => if p1 + n <= b.len() {
                let sb = b.subrange(p1, p1 + n);
                if validity.first() == 1 && !valid_utf8(sb) {
                    None
                } else {
                    let cell: Option<Seq<char>> = if validity.first() == 1 {
                        Some(decode_utf8(sb))
                    } else {
                        None
                    };
                    match parse_str_vals(b, p1 + n, validity.drop_first()) {
                        None => None,
                        Some((rest, p2)) => Some((seq![cell] + rest, p2)),
                    }
                }
            } else {
                None
            },
        }
    }
}

/// One column region: the validity bytes, then the typed value buffer.
pub open spec fn parse_col(b: Seq<u8>, pos: int, dtype: DType, rows: nat) -> Option<
    (ColCells, int),
> {
    if 0 <= pos && pos + rows <= b.len() {
        let validity = b.subrange(pos, pos + rows);
        if forall|i: int| 0 <= i < validity.len() ==> validity[i] == 0 || validity[i] == 1 {
            match dtype {
                DType::Boolean => match parse_bool_vals(b, pos + rows, validity) {
                    None => None,
                    Some((s, p1)) => Some((ColCells::Bools(s), p1)),
                },
                DType::Int64 => match parse_int_vals(b, pos + rows, validity) {
                    None => None,
                    Some((s, p1)) => Some((ColCells::Ints(s), p1)),
                },
                DType::Utf8 => match parse_str_vals(b, pos + rows, validity) {
                    None => None,
                    Some((s, p1)) => Some((ColCells::Strs(s), p1)),
                },
            }
        } else {
            None
        }
    } else {
        None
    }
}

pub open spec fn parse_cols(b: Seq<u8>, pos: int, fields: Seq<FieldVal>, rows: nat) -> Option<
    (Seq<ColCells>, int),
>
    decreases fields.len(),
{
    if fields.len() == 0 {
        Some((Seq::empty(), pos))
    } else {
        match parse_col(b, pos, fields.first().dtype, rows) {
            None => None,
            Some((c, p1)) => match parse_cols(b, p1, fields.drop_first(), rows) {
                None => None,
                Some((rest, p2)) => Some((seq![c] + rest, p2)),
            },
        }
    }
}

/// Decompress a batch payload according to its tag: zero is raw, one the
/// first registered codec, two the second. The named results `lz4_unof`
/// and `zstd_unof` stand for the outside decompressors.
pub open spec fn payload_raw(comp: u8, payload: Seq<u8>) -> Option<Seq<u8>> {
    if comp == 0 {
        Some(payload)
    } else if comp == 1 {
        crate::compress::lz4_unof(payload)
    } else if comp == 2 {
        crate::compress::zstd_unof(payload)
    } else {
        None
    }
}

/// One record batch: marker, compression tag, row count, payload length,
/// payload; the payload must parse as exactly one column region per
/// field and be fully consumed.
pub open spec fn parse_batch(b: Seq<u8>, pos: int, fields: Seq<FieldVal>) -> Option<
    (Seq<ColCells>, int),
> {
    if 0 <= pos && pos + 2 <= b.len() && b[pos] == 1 {
        let comp = b[pos + 1];
        match parse_u64(b, pos + 2) {
            None => None,
            Some((rows, p1)) => match parse_u64(b, p1) {
                None => None,
                Some((plen, p2)) => if p2 + plen <= b.len() {
                    let payload = b.subrange(p2, p2 + plen);
                    match payload_raw(comp, payload) {
                        None => None,
                        Some(raw) => match parse_cols(raw, 0, fields, rows as nat) {
                            None => None,
                            Some((cols, end)) => if end == raw.len() {
                                Some((cols, p2 + plen))
                            } else {
                                None
                            },
                        },
                    }
                } else {
                    None
                },
            },
        }
    } else {
        None
    }
}

/// The column-wise concatenation of two batches' columns.
pub open spec fn cols_concat(a: Seq<ColCells>, b: Seq<ColCells>) -> Seq<ColCells> {
    Seq::new(a.len(), |i: int| crate::series::col_concat(a[i], b[i]))
}

/// `n` record batches, concatenated column-wise in stream order.
pub open spec fn parse_batches(b: Seq<u8>, pos: int, fields: Seq<FieldVal>, n: nat) -> Option<
    (Seq<ColCells>, int),
>
    decreases n,
{
    if n == 0 {
        Some((Seq::new(fields.len(), |i: int| empty_col(fields[i].dtype)), pos))
    } else {
        match parse_batch(b, pos, fields) {
            None => None,
            Some((c1, p1)) => match parse_batches(b, p1, fields, (n - 1) as nat) {
                None => None,
                Some((rest, p2)) => Some((cols_concat(c1, rest), p2)),
            },
        }
    }
}

/// The footer: batch count and schema, fully consuming its region.
pub open spec fn parse_footer(region: Seq<u8>) -> Option<(nat, Seq<FieldVal>)> {
    match parse_u64(region, 0) {
        None => None,
        Some((nb, p1)) => match parse_u64(region, p1) {
            None => None,
            Some((nf, p2)) => match parse_fields(region, p2, nf as nat) {
                None => None,
                Some((fields, p3)) => if p3 == region.len() {
                    Some((nb as nat, fields))
                } else {
                    None
                },
            },
        },
    }
}

/// Decode a whole file: magic, the batches named by the footer, the
/// end-of-stream marker, the footer, its length. Anything malformed or
/// truncated decodes to nothing.
pub open spec fn dec_file(b: Seq<u8>) -> Option<FileVal> {
    let len = b.len() as int;
    if len < 12 {
        None
    } else {
        let flen = spec_u64_from_le_bytes(b.subrange(len - 8, len)) as int;
        let fstart = len - 8 - flen;
        if fstart < 5 {
            None
        } else if b[0] == MAGIC0 && b[1] == MAGIC1 && b[2] == MAGIC2 && b[3] == MAGIC3 {
            match parse_footer(b.subrange(fstart, len - 8)) {
                None => None,
                Some((nb, fields)) => match parse_batches(b, 4, fields, nb) {
                    None => None,
                    Some((cols, p)) => if p == fstart - 1 && b[p] == 0 {
                        Some(FileVal { fields, cols })
                    } else {
                        None
                    },
                },
            }
        } else {
            None
        }
    }
}

// ---------------------------------------------------------------------
// decoding undoes encoding
// ---------------------------------------------------------------------
/// Reading eight bytes that were written from `n` gives `n` back.
pub proof fn lemma_parse_u64le(b: Seq<u8>, pos: int, n: int)
    requires
        0 <= n < 0x1_0000_0000_0000_0000,
        0 <= pos,
        pos + 8 <= b.len(),
        b.subrange(pos, pos + 8) == u64le(n),
    ensures
        parse_u64(b, pos) == Some((n as u64, pos + 8)),
{
    vstd::bytes::lemma_auto_spec_u64_to_from_le_bytes();
}

/// A signed value survives the trip through its unsigned bit pattern.
pub proof fn lemma_i64_u64_cast(v: i64)
    ensures
        i64_of_bits(bits_of_i64(v)) == v,
{
    let w = bits_of_i64(v);
    assert(w == #[verifier::truncate] (v as u64));
    assert(#[verifier::truncate] ((#[verifier::truncate] (v as u64)) as i64) == v)
        by (bit_vector);
}

pub proof fn lemma_parse_field_enc(b: Seq<u8>, pos: int, f: FieldVal)
    requires
        0 <= pos,
        pos + enc_field(f).len() <= b.len(),
        b.subrange(pos, pos + enc_field(f).len()) == enc_field(f),
        encode_utf8(f.name).len() < 0x1_0000_0000_0000_0000,
    ensures
        parse_field(b, pos) == Some((f, pos + enc_field(f).len())),
{
    broadcast use vstd::utf8::encode_utf8_valid_utf8;
    broadcast use vstd::utf8::encode_utf8_decode_utf8;

    vstd::bytes::lemma_auto_spec_u64_to_from_le_bytes();
    let nb = encode_utf8(f.name);
    let e = enc_field(f);
    let n = nb.len() as int;
    assert(e.len() == 8 + n + 2);
    assert(b.subrange(pos, pos + 8) =~= e.subrange(0, 8));
    assert(e.subrange(0, 8) =~= u64le(n));
    lemma_parse_u64le(b, pos, n);
    let p1 = pos + 8;
    assert(b.subrange(p1, p1 + n) =~= e.subrange(8, 8 + n));
    assert(e.subrange(8, 8 + n) =~= nb);
    assert(valid_utf8(nb));
    assert(decode_utf8(nb) == f.name);
    let p2 = p1 + n;
    assert(b[p2] == e[8 + n]);
    assert(b[p2 + 1] == e[8 + n + 1]);
    assert(e[8 + n] == dtype_tag(f.dtype));
    assert(e[8 + n + 1] == 1u8);
    match f.dtype {
        DType::Boolean => {
            assert(tag_dtype(dtype_tag(f.dtype)) == Some(f.dtype));
        },
        DType::Int64 => {
            assert(tag_dtype(dtype_tag(f.dtype)) == Some(f.dtype));
        },
        DType::Utf8 => {
            assert(tag_dtype(dtype_tag(f.dtype)) == Some(f.dtype));
        },
    }
}

pub proof fn lemma_parse_fields_enc(b: Seq<u8>, pos: int, fs: Seq<FieldVal>)
    requires
        0 <= pos,
        pos + enc_fields(fs).len() <= b.len(),
        b.subrange(pos, pos + enc_fields(fs).len()) == enc_fields(fs),
        forall|i: int|
            0 <= i < fs.len() ==> encode_utf8((#[trigger] fs[i]).name).len()
                < 0x1_0000_0000_0000_0000,
    ensures
        parse_fields(b, pos, fs.len()) == Some((fs, pos + enc_fields(fs).len())),
    decreases fs.len(),
{
    if fs.len() == 0 {
        assert(parse_fields(b, pos, 0) == Some((Seq::<FieldVal>::empty(), pos)));
        assert(fs =~= Seq::<FieldVal>::empty());
    } else {
        let f = fs.first();
        let e1 = enc_field(f);
        let rest = fs.drop_first();
        let er = enc_fields(rest);
        assert(enc_fields(fs) == e1 + er);
        assert(b.subrange(pos, pos + e1.len()) =~= enc_fields(fs).subrange(0, e1.len() as int));
        assert(enc_fields(fs).subrange(0, e1.len() as int) =~= e1);
        assert(fs[0] == f);
        lemma_parse_field_enc(b, pos, f);
        let p1 = pos + e1.len();
        assert(b.subrange(p1, p1 + er.len()) =~= enc_fields(fs).subrange(
            e1.len() as int,
            enc_fields(fs).len() as int,
        ));
        assert(enc_fields(fs).subrange(e1.len() as int, enc_fields(fs).len() as int) =~= er);
        assert(forall|i: int|
            0 <= i < rest.len() ==> encode_utf8((#[trigger] rest[i]).name).len()
                < 0x1_0000_0000_0000_0000) by {
            assert(forall|i: int| 0 <= i < rest.len() ==> rest[i] == fs[i + 1]);
        }
        lemma_parse_fields_enc(b, p1, rest);
        assert(seq![f] + rest =~= fs);
    }
}

pub proof fn lemma_parse_bool_vals_enc(b: Seq<u8>, pos: int, s: Seq<Option<bool>>)
    requires
        0 <= pos,
        pos + enc_bool_vals(s).len() <= b.len(),
        b.subrange(pos, pos + enc_bool_vals(s).len()) == enc_bool_vals(s),
    ensures
        parse_bool_vals(b, pos, enc_validity(ColCells::Bools(s))) == Some((s, pos + s.len())),
        enc_bool_vals(s).len() == s.len(),
    decreases s.len(),
{
    let validity = enc_validity(ColCells::Bools(s));
    if s.len() == 0 {
        assert(s =~= Seq::<Option<bool>>::empty());
    } else {
        let e = enc_bool_vals(s);
        assert(e == enc_bool_cell(s.first()) + enc_bool_vals(s.drop_first()));
        lemma_parse_bool_vals_enc_len(s.drop_first());
        assert(e.len() == 1 + (s.len() - 1));
        assert(b[pos] == e[0]);
        assert(e[0] == (if s.first() == Some(true) {
            1u8
        } else {
            0u8
        }));
        assert(validity.first() == (if s.first() is Some {
            1u8
        } else {
            0u8
        }));
        assert(validity.drop_first() =~= enc_validity(ColCells::Bools(s.drop_first())));
        assert(b.subrange(pos + 1, pos + 1 + (s.len() - 1)) =~= e.subrange(1, e.len() as int));
        assert(e.subrange(1, e.len() as int) =~= enc_bool_vals(s.drop_first()));
        lemma_parse_bool_vals_enc(b, pos + 1, s.drop_first());
        let cell: Option<bool> = if validity.first() == 1 {
            Some(b[pos] == 1)
        } else {
            None
        };
        match s.first() {
            Some(x) => {
                if x {
                    assert(cell == s.first());
                } else {
                    assert(cell == s.first());
                }
            },
            None => {
                assert(cell == s.first());
            },
        }
        assert(seq![s.first()] + s.drop_first() =~= s);
    }
}

/// The boolean value buffer has one byte per row.
pub proof fn lemma_parse_bool_vals_enc_len(s: Seq<Option<bool>>)
    ensures
        enc_bool_vals(s).len() == s.len(),
    decreases s.len(),
{
    if s.len() > 0 {
        lemma_parse_bool_vals_enc_len(s.drop_first());
    }
}

/// The integer value buffer has eight bytes per row.
pub proof fn lemma_enc_int_vals_len(s: Seq<Option<i64>>)
    ensures
        enc_int_vals(s).len() == 8 * s.len(),
    decreases s.len(),
{
    vstd::bytes::lemma_auto_spec_u64_to_from_le_bytes();
    if s.len() > 0 {
        lemma_enc_int_vals_len(s.drop_first());
    }
}

pub proof fn lemma_parse_int_vals_enc(b: Seq<u8>, pos: int, s: Seq<Option<i64>>)
    requires
        0 <= pos,
        pos + enc_int_vals(s).len() <= b.len(),
        b.subrange(pos, pos + enc_int_vals(s).len()) == enc_int_vals(s),
    ensures
        parse_int_vals(b, pos, enc_validity(ColCells::Ints(s))) == Some(
            (s, pos + enc_int_vals(s).len()),
        ),
    decreases s.len(),
{
    vstd::bytes::lemma_auto_spec_u64_to_from_le_bytes();
    let validity = enc_validity(ColCells::Ints(s));
    if s.len() == 0 {
        assert(s =~= Seq::<Option<i64>>::empty());
    } else {
        let e = enc_int_vals(s);
        let e1 = enc_int_cell(s.first());
        let er = enc_int_vals(s.drop_first());
        assert(e == e1 + er);
        assert(e1.len() == 8);
        lemma_enc_int_vals_len(s.drop_first());
        assert(b.subrange(pos, pos + 8) =~= e.subrange(0, 8));
        assert(e.subrange(0, 8) =~= e1);
        let w: int = match s.first() {
            Some(v) => bits_of_i64(v) as int,
            None => 0,
        };
        assert(e1 =~= u64le(w));
        lemma_parse_u64le(b, pos, w);
        let p1 = pos + 8;
        assert(b.subrange(p1, p1 + er.len()) =~= e.subrange(8, e.len() as int));
        assert(e.subrange(8, e.len() as int) =~= er);
        assert(validity.drop_first() =~= enc_validity(ColCells::Ints(s.drop_first())));
        lemma_parse_int_vals_enc(b, p1, s.drop_first());
        let cell: Option<i64> = if validity.first() == 1 {
            Some(i64_of_bits(w as u64))
        } else {
            None
        };
        match s.first() {
            Some(v) => {
                lemma_i64_u64_cast(v);
                assert(cell == s.first());
            },
            None => {
                assert(cell == s.first());
            },
        }
        assert(seq![s.first()] + s.drop_first() =~= s);
    }
}

pub proof fn lemma_parse_str_vals_enc(b: Seq<u8>, pos: int, s: Seq<Option<Seq<char>>>)
    requires
        0 <= pos,
        pos + enc_str_vals(s).len() <= b.len(),
        b.subrange(pos, pos + enc_str_vals(s).len()) == enc_str_vals(s),
        forall|i: int|
            0 <= i < s.len() ==> (match #[trigger] s[i] {
                Some(t) => encode_utf8(t).len() < 0x1_0000_0000_0000_0000,
                None => true,
            }),
    ensures
        parse_str_vals(b, pos, enc_validity(ColCells::Strs(s))) == Some(
            (s, pos + enc_str_vals(s).len()),
        ),
    decreases s.len(),
{
    broadcast use vstd::utf8::encode_utf8_valid_utf8;
    broadcast use vstd::utf8::encode_utf8_decode_utf8;

    vstd::bytes::lemma_auto_spec_u64_to_from_le_bytes();
    let validity = enc_validity(ColCells::Strs(s));
    if s.len() == 0 {
        assert(s =~= Seq::<Option<Seq<char>>>::empty());
    } else {
        let e = enc_str_vals(s);
        let e1 = enc_str_cell(s.first());
        let er = enc_str_vals(s.drop_first());
        assert(e == e1 + er);
        let n: int = match s.first() {
            Some(t) => encode_utf8(t).len() as int,
            None => 0,
        };
        assert(s[0] == s.first());
        assert(0 <= n < 0x1_0000_0000_0000_0000);
        assert(e1.len() == 8 + n);
        assert(b.subrange(pos, pos + 8) =~= e.subrange(0, 8));
        assert(e.subrange(0, 8) =~= u64le(n));
        lemma_parse_u64le(b, pos, n);
        let p1 = pos + 8;
        assert(b.subrange(p1, p1 + n) =~= e.subrange(8, 8 + n));
        match s.first() {
            Some(t) => {
                assert(e.subrange(8, 8 + n) =~= encode_utf8(t));
                assert(valid_utf8(b.subrange(p1, p1 + n)));
                assert(decode_utf8(b.subrange(p1, p1 + n)) == t);
            },
            None => {
                assert(n == 0);
            },
        }
        let p2 = p1 + n;
        assert(b.subrange(p2, p2 + er.len()) =~= e.subrange(8 + n, e.len() as int));
        assert(e.subrange(8 + n, e.len() as int) =~= er);
        assert(validity.drop_first() =~= enc_validity(ColCells::Strs(s.drop_first())));
        assert(forall|i: int|
            0 <= i < s.drop_first().len() ==> (match #[trigger] s.drop_first()[i] {
                Some(t) => encode_utf8(t).len() < 0x1_0000_0000_0000_0000,
                None => true,
            })) by {
            assert(forall|i: int|
                0 <= i < s.drop_first().len() ==> s.drop_first()[i] == s[i + 1]);
        }
        lemma_parse_str_vals_enc(b, p2, s.drop_first());
        assert(seq![s.first()] + s.drop_first() =~= s);
    }
}

/// The length of one encoded column region.
pub proof fn lemma_enc_col_len(c: ColCells)
    ensures
        enc_col(c).len() == c.len() + enc_vals(c).len(),
        enc_validity(c).len() == c.len(),
{
}

pub proof fn lemma_parse_col_enc(b: Seq<u8>, pos: int, c: ColCells)
    requires
        0 <= pos,
        pos + enc_col(c).len() <= b.len(),
        b.subrange(pos, pos + enc_col(c).len()) == enc_col(c),
        wf_col(c),
    ensures
        parse_col(b, pos, col_dtype(c), c.len()) == Some((c, pos + enc_col(c).len())),
{
    let rows = c.len();
    let e = enc_col(c);
    let ev = enc_validity(c);
    assert(ev.len() == rows);
    assert(b.subrange(pos, pos + rows) =~= e.subrange(0, rows as int));
    assert(e.subrange(0, rows as int) =~= ev);
    assert(forall|i: int| 0 <= i < ev.len() ==> ev[i] == 0 || ev[i] == 1);
    let p1 = pos + rows;
    let evals = enc_vals(c);
    assert(b.subrange(p1, p1 + evals.len()) =~= e.subrange(rows as int, e.len() as int));
    assert(e.subrange(rows as int, e.len() as int) =~= evals);
    match c {
        ColCells::Bools(s) => {
            lemma_parse_bool_vals_enc(b, p1, s);
        },
        ColCells::Ints(s) => {
            lemma_parse_int_vals_enc(b, p1, s);
        },
        ColCells::Strs(s) => {
            lemma_parse_str_vals_enc(b, p1, s);
        },
    }
}

pub proof fn lemma_parse_cols_enc(
    b: Seq<u8>,
    pos: int,
    fields: Seq<FieldVal>,
    cols: Seq<ColCells>,
    rows: nat,
)
    requires
        0 <= pos,
        pos + enc_cols(cols).len() <= b.len(),
        b.subrange(pos, pos + enc_cols(cols).len()) == enc_cols(cols),
        cols.len() == fields.len(),
        forall|i: int| 0 <= i < cols.len() ==> col_dtype(#[trigger] cols[i]) == fields[i].dtype,
        forall|i: int| 0 <= i < cols.len() ==> (#[trigger] cols[i]).len() == rows,
        forall|i: int| 0 <= i < cols.len() ==> wf_col(#[trigger] cols[i]),
    ensures
        parse_cols(b, pos, fields, rows) == Some((cols, pos + enc_cols(cols).len())),
    decreases cols.len(),
{
    if cols.len() == 0 {
        assert(cols =~= Seq::<ColCells>::empty());
    } else {
        let c = cols.first();
        let e1 = enc_col(c);
        let rest = cols.drop_first();
        let er = enc_cols(rest);
        assert(enc_cols(cols) == e1 + er);
        assert(b.subrange(pos, pos + e1.len()) =~= enc_cols(cols).subrange(0, e1.len() as int));
        assert(enc_cols(cols).subrange(0, e1.len() as int) =~= e1);
        assert(cols[0] == c);
        lemma_parse_col_enc(b, pos, c);
        let p1 = pos + e1.len();
        assert(b.subrange(p1, p1 + er.len()) =~= enc_cols(cols).subrange(
            e1.len() as int,
            enc_cols(cols).len() as int,
        ));
        assert(enc_cols(cols).subrange(e1.len() as int, enc_cols(cols).len() as int) =~= er);
        assert(forall|i: int| 0 <= i < rest.len() ==> rest[i] == cols[i + 1]);
        assert(forall|i: int|
            0 <= i < fields.drop_first().len() ==> fields.drop_first()[i] == fields[i + 1]);
        lemma_parse_cols_enc(b, p1, fields.drop_first(), rest, rows);
        assert(fields.first().dtype == col_dtype(c));
        assert(seq![c] + rest =~= cols);
    }
}

/// Concatenating the one batch's columns with the empty columns of the
/// schema gives the batch's columns back.
pub proof fn lemma_cols_concat_empty(fields: Seq<FieldVal>, cols: Seq<ColCells>)
    requires
        cols.len() == fields.len(),
        forall|i: int| 0 <= i < cols.len() ==> col_dtype(#[trigger] cols[i]) == fields[i].dtype,
    ensures
        cols_concat(cols, Seq::new(fields.len(), |i: int| empty_col(fields[i].dtype))) == cols,
{
    let empties = Seq::new(fields.len(), |i: int| empty_col(fields[i].dtype));
    let cc = cols_concat(cols, empties);
    assert forall|i: int| 0 <= i < cols.len() implies cc[i] == cols[i] by {
        match cols[i] {
            ColCells::Bools(s) => {
                assert(s + Seq::<Option<bool>>::empty() =~= s);
            },
            ColCells::Ints(s) => {
                assert(s + Seq::<Option<i64>>::empty() =~= s);
            },
            ColCells::Strs(s) => {
                assert(s + Seq::<Option<Seq<char>>>::empty() =~= s);
            },
        }
    }
    assert(cc =~= cols);
}

/// Decoding a single-batch uncompressed encoding restores the file value.
pub proof fn lemma_round_trip_stored(f: FileVal, rows: nat, comp: u8, stored: Seq<u8>)
    requires
        wf_file(f, rows),
        payload_raw(comp, stored) == Some(enc_cols(f.cols)),
        stored.len() < 0x1_0000_0000_0000_0000,
    ensures
        dec_file(enc_file_stored(f, rows, comp, stored)) == Some(f),
{
    vstd::bytes::lemma_auto_spec_u64_to_from_le_bytes();
    let b = enc_file_stored(f, rows, comp, stored);
    let body = enc_batch_stored(comp, rows, stored);
    let footer = enc_footer(f.fields, 1);
    let magic = seq![MAGIC0, MAGIC1, MAGIC2, MAGIC3];
    assert(b == magic + body + seq![0u8] + footer + u64le(footer.len() as int));
    assert(body.len() == 18 + stored.len());
    let len = b.len() as int;
    let flen = footer.len() as int;
    assert(len == 4 + body.len() + 1 + flen + 8);
    // the trailing footer length
    assert(b.subrange(len - 8, len) =~= u64le(flen));
    lemma_footer_len_bound(f.fields, 1);
    assert(flen < 0x1_0000_0000_0000_0000);
    assert(spec_u64_from_le_bytes(b.subrange(len - 8, len)) == flen as u64);
    let fstart = len - 8 - flen;
    assert(fstart == 4 + body.len() + 1);
    assert(b[0] == MAGIC0 && b[1] == MAGIC1 && b[2] == MAGIC2 && b[3] == MAGIC3);
    // the footer parses back to the schema and batch count
    let freg = b.subrange(fstart, len - 8);
    assert(freg =~= footer);
    lemma_parse_footer_enc(f.fields);
    assert(parse_footer(freg) == Some((1nat, f.fields)));
    // the one batch parses back to the columns
    assert(b.subrange(4, 4 + body.len() as int) =~= body);
    lemma_parse_batch_stored(b, 4, f, rows, comp, stored);
    assert(parse_batch(b, 4, f.fields) == Some((f.cols, 4 + body.len() as int)));
    assert(parse_batches(b, 4 + body.len() as int, f.fields, 0nat) == Some(
        (Seq::new(f.fields.len(), |i: int| empty_col(f.fields[i].dtype)), 4 + body.len() as int),
    ));
    lemma_cols_concat_empty(f.fields, f.cols);
    assert(parse_batches(b, 4, f.fields, 1nat) == Some((f.cols, 4 + body.len() as int)));
    // the end-of-stream marker sits between the batches and the footer
    assert(b[4 + body.len() as int] == 0u8);
    assert(4 + body.len() as int == fstart - 1);
}

/// Decoding a single-batch uncompressed encoding restores the file value.
pub proof fn lemma_round_trip(f: FileVal, rows: nat)
    requires
        wf_file(f, rows),
    ensures
        dec_file(enc_file(f, rows)) == Some(f),
{
    lemma_round_trip_stored(f, rows, 0, enc_cols(f.cols));
}

/// The footer is shorter than the wire's 64-bit bound (its pieces are
/// sequences, whose lengths are finite; this bound is what the trailing
/// length field requires).
pub proof fn lemma_footer_len_bound(fields: Seq<FieldVal>, n_batches: nat)
    ensures
        enc_footer(fields, n_batches).len() == 16 + enc_fields(fields).len(),
{
    vstd::bytes::lemma_auto_spec_u64_to_from_le_bytes();
}

pub proof fn lemma_parse_footer_enc(fields: Seq<FieldVal>)
    requires
        forall|i: int|
            0 <= i < fields.len() ==> encode_utf8((#[trigger] fields[i]).name).len()
                < 0x1_0000_0000_0000_0000,
        fields.len() < 0x1_0000_0000_0000_0000,
    ensures
        parse_footer(enc_footer(fields, 1)) == Some((1nat, fields)),
{
    vstd::bytes::lemma_auto_spec_u64_to_from_le_bytes();
    let footer = enc_footer(fields, 1);
    let es = enc_schema(fields);
    assert(footer == u64le(1) + es);
    assert(es == u64le(fields.len() as int) + enc_fields(fields));
    assert(footer.subrange(0, 8) =~= u64le(1));
    lemma_parse_u64le(footer, 0, 1);
    assert(footer.subrange(8, 16) =~= u64le(fields.len() as int));
    lemma_parse_u64le(footer, 8, fields.len() as int);
    assert(footer.subrange(16, footer.len() as int) =~= enc_fields(fields));
    lemma_parse_fields_enc(footer, 16, fields);
}

pub proof fn lemma_parse_batch_stored(
    b: Seq<u8>,
    pos: int,
    f: FileVal,
    rows: nat,
    comp: u8,
    stored: Seq<u8>,
)
    requires
        wf_file(f, rows),
        0 <= pos,
        pos + enc_batch_stored(comp, rows, stored).len() <= b.len(),
        b.subrange(pos, pos + enc_batch_stored(comp, rows, stored).len()) == enc_batch_stored(
            comp,
            rows,
            stored,
        ),
        payload_raw(comp, stored) == Some(enc_cols(f.cols)),
        stored.len() < 0x1_0000_0000_0000_0000,
    ensures
        parse_batch(b, pos, f.fields) == Some(
            (f.cols, pos + enc_batch_stored(comp, rows, stored).len()),
        ),
{
    vstd::bytes::lemma_auto_spec_u64_to_from_le_bytes();
    let payload = enc_cols(f.cols);
    let e = enc_batch_stored(comp, rows, stored);
    assert(e == seq![1u8, comp] + u64le(rows as int) + u64le(stored.len() as int) + stored);
    assert(e.len() == 18 + stored.len());
    assert(b[pos] == e[0] && e[0] == 1u8);
    assert(b[pos + 1] == e[1] && e[1] == comp);
    assert(b.subrange(pos + 2, pos + 10) =~= e.subrange(2, 10));
    assert(e.subrange(2, 10) =~= u64le(rows as int));
    lemma_parse_u64le(b, pos + 2, rows as int);
    assert(b.subrange(pos + 10, pos + 18) =~= e.subrange(10, 18));
    assert(e.subrange(10, 18) =~= u64le(stored.len() as int));
    lemma_parse_u64le(b, pos + 10, stored.len() as int);
    let p2 = pos + 18;
    let region = b.subrange(p2, p2 + stored.len());
    assert(region =~= e.subrange(18, e.len() as int));
    assert(e.subrange(18, e.len() as int) =~= stored);
    assert(payload_raw(comp, region) == Some(payload));
    assert(payload.subrange(0, payload.len() as int) =~= payload);
    lemma_parse_cols_enc(payload, 0, f.fields, f.cols, rows);
}

// ---------------------------------------------------------------------
// executable encoder
// ---------------------------------------------------------------------
pub proof fn lemma_enc_bool_vals_push(s: Seq<Option<bool>>, x: Option<bool>)
    ensures
        enc_bool_vals(s.push(x)) == enc_bool_vals(s) + enc_bool_cell(x),
    decreases s.len(),
{
    if s.len() == 0 {
        assert(s.push(x).drop_first() =~= Seq::<Option<bool>>::empty());
        assert(s.push(x).first() == x);
        assert(enc_bool_vals(Seq::<Option<bool>>::empty()) =~= Seq::<u8>::empty());
        assert(enc_bool_vals(s.push(x)) =~= enc_bool_cell(x));
        assert(s =~= Seq::<Option<bool>>::empty());
        assert(enc_bool_vals(s) + enc_bool_cell(x) =~= enc_bool_cell(x));
    } else {
        assert(s.push(x).first() == s.first());
        assert(s.push(x).drop_first() =~= s.drop_first().push(x));
        lemma_enc_bool_vals_push(s.drop_first(), x);
        assert(enc_bool_cell(s.first()) + (enc_bool_vals(s.drop_first()) + enc_bool_cell(x)) =~= (
        enc_bool_cell(s.first()) + enc_bool_vals(s.drop_first())) + enc_bool_cell(x));
    }
}

pub proof fn lemma_enc_int_vals_push(s: Seq<Option<i64>>, x: Option<i64>)
    ensures
        enc_int_vals(s.push(x)) == enc_int_vals(s) + enc_int_cell(x),
    decreases s.len(),
{
    if s.len() == 0 {
        assert(s.push(x).drop_first() =~= Seq::<Option<i64>>::empty());
        assert(s.push(x).first() == x);
        assert(enc_int_vals(Seq::<Option<i64>>::empty()) =~= Seq::<u8>::empty());
        assert(enc_int_vals(s.push(x)) =~= enc_int_cell(x));
        assert(s =~= Seq::<Option<i64>>::empty());
        assert(enc_int_vals(s) + enc_int_cell(x) =~= enc_int_cell(x));
    } else {
        assert(s.push(x).first() == s.first());
        assert(s.push(x).drop_first() =~= s.drop_first().push(x));
        lemma_enc_int_vals_push(s.drop_first(), x);
        assert(enc_int_cell(s.first()) + (enc_int_vals(s.drop_first()) + enc_int_cell(x)) =~= (
        enc_int_cell(s.first()) + enc_int_vals(s.drop_first())) + enc_int_cell(x));
    }
}

pub proof fn lemma_enc_str_vals_push(s: Seq<Option<Seq<char>>>, x: Option<Seq<char>>)
    ensures
        enc_str_vals(s.push(x)) == enc_str_vals(s) + enc_str_cell(x),
    decreases s.len(),
{
    if s.len() == 0 {
        assert(s.push(x).drop_first() =~= Seq::<Option<Seq<char>>>::empty());
        assert(s.push(x).first() == x);
        assert(enc_str_vals(Seq::<Option<Seq<char>>>::empty()) =~= Seq::<u8>::empty());
        assert(enc_str_vals(s.push(x)) =~= enc_str_cell(x));
        assert(s =~= Seq::<Option<Seq<char>>>::empty());
        assert(enc_str_vals(s) + enc_str_cell(x) =~= enc_str_cell(x));
    } else {
        assert(s.push(x).first() == s.first());
        assert(s.push(x).drop_first() =~= s.drop_first().push(x));
        lemma_enc_str_vals_push(s.drop_first(), x);
        assert(enc_str_cell(s.first()) + (enc_str_vals(s.drop_first()) + enc_str_cell(x)) =~= (
        enc_str_cell(s.first()) + enc_str_vals(s.drop_first())) + enc_str_cell(x));
    }
}

pub proof fn lemma_enc_cols_push(s: Seq<ColCells>, x: ColCells)
    ensures
        enc_cols(s.push(x)) == enc_cols(s) + enc_col(x),
    decreases s.len(),
{
    if s.len() == 0 {
        assert(s.push(x).drop_first() =~= Seq::<ColCells>::empty());
        assert(s.push(x).first() == x);
        assert(enc_cols(Seq::<ColCells>::empty()) =~= Seq::<u8>::empty());
        assert(enc_cols(s.push(x)) =~= enc_col(x));
        assert(s =~= Seq::<ColCells>::empty());
        assert(enc_cols(s) + enc_col(x) =~= enc_col(x));
    } else {
        assert(s.push(x).first() == s.first());
        assert(s.push(x).drop_first() =~= s.drop_first().push(x));
        lemma_enc_cols_push(s.drop_first(), x);
        assert(enc_col(s.first()) + (enc_cols(s.drop_first()) + enc_col(x)) =~= (enc_col(
            s.first(),
        ) + enc_cols(s.drop_first())) + enc_col(x));
    }
}

pub proof fn lemma_enc_fields_push(s: Seq<FieldVal>, x: FieldVal)
    ensures
        enc_fields(s.push(x)) == enc_fields(s) + enc_field(x),
    decreases s.len(),
{
    if s.len() == 0 {
        assert(s.push(x).drop_first() =~= Seq::<FieldVal>::empty());
        assert(s.push(x).first() == x);
        assert(enc_fields(Seq::<FieldVal>::empty()) =~= Seq::<u8>::empty());
        assert(enc_fields(s.push(x)) =~= enc_field(x));
        assert(s =~= Seq::<FieldVal>::empty());
        assert(enc_fields(s) + enc_field(x) =~= enc_field(x));
    } else {
        assert(s.push(x).first() == s.first());
        assert(s.push(x).drop_first() =~= s.drop_first().push(x));
        lemma_enc_fields_push(s.drop_first(), x);
        assert(enc_field(s.first()) + (enc_fields(s.drop_first()) + enc_field(x)) =~= (enc_field(
            s.first(),
        ) + enc_fields(s.drop_first())) + enc_field(x));
    }
}

/// Append one little-endian 64-bit integer.
pub fn emit_u64(out: &mut Vec<u8>, x: u64)
    ensures
        final(out)@ == old(out)@ + u64le(x as int),
{
    let mut b = vstd::bytes::u64_to_le_bytes(x);
    proof {
        assert(b@ == u64le(x as int));
    }
    out.append(&mut b);
}

/// One column's typed cells, as decoded from or encoded into the wire.
pub enum ColData {
    Bools(Vec<Option<bool>>),
    Ints(Vec<Option<i64>>),
    Strs(Vec<Option<String>>),
}

impl ColData {
    /// The logical content this column data carries.
    pub open spec fn view_cells(self) -> ColCells {
        match self {
            ColData::Bools(v) => ColCells::Bools(v@),
            ColData::Ints(v) => ColCells::Ints(v@),
            ColData::Strs(v) => ColCells::Strs(crate::series::str_cells_view(v@)),
        }
    }

    /// How many cells the column holds.
    pub fn cell_count(&self) -> (r: usize)
        ensures
            r == self.view_cells().len(),
    {
        match self {
            ColData::Bools(v) => v.len(),
            ColData::Ints(v) => v.len(),
            ColData::Strs(v) => v.len(),
        }
    }
}

/// Append the validity bytes of a column.
fn emit_validity_bool(out: &mut Vec<u8>, cells: &Vec<Option<bool>>)
    ensures
        final(out)@ == old(out)@ + enc_validity(ColCells::Bools(cells@)),
{
    let ghost target = enc_validity(ColCells::Bools(cells@));
    let mut i: usize = 0;
    while i < cells.len()
        invariant
            i <= cells@.len(),
            target == enc_validity(ColCells::Bools(cells@)),
            out@ == old(out)@ + target.take(i as int),
        decreases cells@.len() - i,
    {
        out.push(if cells[i].is_some() {
            1u8
        } else {
            0u8
        });
        proof {
            assert(old(out)@ + target.take(i + 1) =~= (old(out)@ + target.take(i as int)).push(
                target[i as int],
            ));
        }
        i = i + 1;
    }
    proof {
        assert(target.take(target.len() as int) =~= target);
    }
}

fn emit_validity_int(out: &mut Vec<u8>, cells: &Vec<Option<i64>>)
    ensures
        final(out)@ == old(out)@ + enc_validity(ColCells::Ints(cells@)),
{
    let ghost target = enc_validity(ColCells::Ints(cells@));
    let mut i: usize = 0;
    while i < cells.len()
        invariant
            i <= cells@.len(),
            target == enc_validity(ColCells::Ints(cells@)),
            out@ == old(out)@ + target.take(i as int),
        decreases cells@.len() - i,
    {
        out.push(if cells[i].is_some() {
            1u8
        } else {
            0u8
        });
        proof {
            assert(old(out)@ + target.take(i + 1) =~= (old(out)@ + target.take(i as int)).push(
                target[i as int],
            ));
        }
        i = i + 1;
    }
    proof {
        assert(target.take(target.len() as int) =~= target);
    }
}

fn emit_validity_str(out: &mut Vec<u8>, cells: &Vec<Option<String>>)
    ensures
        final(out)@ == old(out)@ + enc_validity(
            ColCells::Strs(crate::series::str_cells_view(cells@)),
        ),
{
    let ghost target = enc_validity(ColCells::Strs(crate::series::str_cells_view(cells@)));
    proof {
        assert(target.len() == cells@.len());
    }
    let mut i: usize = 0;
    while i < cells.len()
        invariant
            i <= cells@.len(),
            target == enc_validity(ColCells::Strs(crate::series::str_cells_view(cells@))),
            target.len() == cells@.len(),
            out@ == old(out)@ + target.take(i as int),
        decreases cells@.len() - i,
    {
        proof {
            assert(crate::series::str_cells_view(cells@)[i as int] == (match cells@[i as int] {
                Some(s) => Some(s@),
                None => None::<Seq<char>>,
            }));
        }
        out.push(if cells[i].is_some() {
            1u8
        } else {
            0u8
        });
        proof {
            assert(old(out)@ + target.take(i + 1) =~= (old(out)@ + target.take(i as int)).push(
                target[i as int],
            ));
        }
        i = i + 1;
    }
    proof {
        assert(target.take(target.len() as int) =~= target);
    }
}

/// Append one whole column region (validity, then values).
fn emit_col(out: &mut Vec<u8>, col: &ColData)
    ensures
        final(out)@ == old(out)@ + enc_col(col.view_cells()),
        wf_col(col.view_cells()),
{
    match col {
        ColData::Bools(cells) => {
            emit_validity_bool(out, cells);
            let ghost base = out@;
            let mut i: usize = 0;
            while i < cells.len()
                invariant
                    i <= cells@.len(),
                    out@ == base + enc_bool_vals(cells@.take(i as int)),
                decreases cells@.len() - i,
            {
                out.push(if cells[i] == Some(true) {
                    1u8
                } else {
                    0u8
                });
                proof {
                    assert(cells@.take(i + 1) =~= cells@.take(i as int).push(cells@[i as int]));
                    lemma_enc_bool_vals_push(cells@.take(i as int), cells@[i as int]);
                    assert(base + enc_bool_vals(cells@.take(i + 1)) =~= (base + enc_bool_vals(
                        cells@.take(i as int),
                    )).push(if cells@[i as int] == Some(true) {
                        1u8
                    } else {
                        0u8
                    }));
                }
                i = i + 1;
            }
            proof {
                assert(cells@.take(cells@.len() as int) =~= cells@);
                assert(out@ =~= old(out)@ + enc_col(ColCells::Bools(cells@)));
            }
        },
        ColData::Ints(cells) => {
            emit_validity_int(out, cells);
            let ghost base = out@;
            let mut i: usize = 0;
            while i < cells.len()
                invariant
                    i <= cells@.len(),
                    out@ == base + enc_int_vals(cells@.take(i as int)),
                decreases cells@.len() - i,
            {
                let w: u64 = match cells[i] {
                    Some(v) => bits_from_i64(v),
                    None => 0,
                };
                emit_u64(out, w);
                proof {
                    assert(cells@.take(i + 1) =~= cells@.take(i as int).push(cells@[i as int]));
                    lemma_enc_int_vals_push(cells@.take(i as int), cells@[i as int]);
                    assert(u64le(w as int) == enc_int_cell(cells@[i as int]));
                    assert(base + enc_int_vals(cells@.take(i + 1)) =~= base + enc_int_vals(
                        cells@.take(i as int),
                    ) + u64le(w as int));
                }
                i = i + 1;
            }
            proof {
                assert(cells@.take(cells@.len() as int) =~= cells@);
                assert(out@ =~= old(out)@ + enc_col(ColCells::Ints(cells@)));
            }
        },
        ColData::Strs(cells) => {
            emit_validity_str(out, cells);
            let ghost view = crate::series::str_cells_view(cells@);
            let ghost base = out@;
            let mut i: usize = 0;
            while i < cells.len()
                invariant
                    i <= cells@.len(),
                    view == crate::series::str_cells_view(cells@),
                    out@ == base + enc_str_vals(view.take(i as int)),
                    forall|j: int|
                        0 <= j < i ==> (match #[trigger] view[j] {
                            Some(t) => encode_utf8(t).len() < 0x1_0000_0000_0000_0000,
                            None => true,
                        }),
                decreases cells@.len() - i,
            {
                proof {
                    assert(view[i as int] == (match cells@[i as int] {
                        Some(s) => Some(s@),
                        None => None::<Seq<char>>,
                    }));
                }
                match &cells[i] {
                    Some(s) => {
                        let mut nb = s.as_str().as_bytes_vec();
                        proof {
                            assert(nb@ == encode_utf8(s@));
                        }
                        emit_u64(out, nb.len() as u64);
                        out.append(&mut nb);
                    },
                    None => {
                        emit_u64(out, 0);
                    },
                }
                proof {
                    assert(view.take(i + 1) =~= view.take(i as int).push(view[i as int]));
                    lemma_enc_str_vals_push(view.take(i as int), view[i as int]);
                    assert(out@ =~= base + enc_str_vals(view.take(i + 1)));
                }
                i = i + 1;
            }
            proof {
                assert(view.take(view.len() as int) =~= view);
                assert(out@ =~= old(out)@ + enc_col(ColCells::Strs(view)));
            }
        },
    }
}

/// Append every column region of one batch, in schema order.
pub fn emit_cols(out: &mut Vec<u8>, cols: &Vec<ColData>)
    ensures
        final(out)@ == old(out)@ + enc_cols(
            Seq::new(cols@.len(), |i: int| cols@[i].view_cells()),
        ),
        forall|i: int| 0 <= i < cols@.len() ==> wf_col((#[trigger] cols@[i]).view_cells()),
{
    let ghost views = Seq::new(cols@.len(), |i: int| cols@[i].view_cells());
    let mut ci: usize = 0;
    while ci < cols.len()
        invariant
            ci <= cols@.len(),
            views == Seq::new(cols@.len(), |i: int| cols@[i].view_cells()),
            out@ == old(out)@ + enc_cols(views.take(ci as int)),
            forall|i: int| 0 <= i < ci ==> wf_col((#[trigger] cols@[i]).view_cells()),
        decreases cols@.len() - ci,
    {
        emit_col(out, &cols[ci]);
        proof {
            assert(views.take(ci + 1) =~= views.take(ci as int).push(views[ci as int]));
            lemma_enc_cols_push(views.take(ci as int), views[ci as int]);
        }
        ci = ci + 1;
    }
    proof {
        assert(views.take(views.len() as int) =~= views);
    }
}

/// One schema entry as the executable reader and writer handle it.
pub struct Field {
    pub name: String,
    pub dtype: DType,
}

impl Field {
    /// The on-wire descriptor this entry stands for.
    pub open spec fn view_field(self) -> FieldVal {
        FieldVal { name: self.name@, dtype: self.dtype }
    }
}

/// The on-wire descriptors of a run of schema entries.
pub open spec fn fields_view(fs: Seq<Field>) -> Seq<FieldVal> {
    Seq::new(fs.len(), |i: int| fs[i].view_field())
}

pub fn dtype_tag_exec(d: DType) -> (r: u8)
    ensures
        r == dtype_tag(d),
{
    match d {
        DType::Boolean => 1,
        DType::Int64 => 2,
        DType::Utf8 => 3,
    }
}

/// Relies on `String::from_utf8`: it accepts exactly the valid UTF-8
/// byte sequences and the returned string holds exactly those bytes.
#[verifier::external_body]
pub fn bytes_to_string(v: Vec<u8>) -> (r: Option<String>)
    ensures
        r matches Some(s) ==> valid_utf8(v@) && encode_utf8(s@) == v@ && s@ == decode_utf8(v@),
        r is None ==> !valid_utf8(v@),
{
    match String::from_utf8(v) {
        Ok(s) => Some(s),
        Err(_) => None,
    }
}

/// Append one on-wire field.
fn emit_field(out: &mut Vec<u8>, f: &Field)
    ensures
        final(out)@ == old(out)@ + enc_field(f.view_field()),
        encode_utf8(f.name@).len() < 0x1_0000_0000_0000_0000,
{
    let mut nb = f.name.as_str().as_bytes_vec();
    proof {
        assert(nb@ == encode_utf8(f.name@));
    }
    emit_u64(out, nb.len() as u64);
    out.append(&mut nb);
    out.push(dtype_tag_exec(f.dtype));
    out.push(1u8);
    proof {
        assert(out@ =~= old(out)@ + enc_field(f.view_field()));
    }
}

/// Append the whole footer: batch count, field count, fields.
pub fn emit_footer(out: &mut Vec<u8>, fields: &Vec<Field>)
    ensures
        final(out)@ == old(out)@ + enc_footer(fields_view(fields@), 1),
        forall|i: int|
            0 <= i < fields@.len() ==> encode_utf8((#[trigger] fields_view(fields@)[i]).name).len()
                < 0x1_0000_0000_0000_0000,
{
    emit_u64(out, 1u64);
    emit_u64(out, fields.len() as u64);
    let ghost fv = fields_view(fields@);
    let ghost base = out@;
    let mut i: usize = 0;
    while i < fields.len()
        invariant
            i <= fields@.len(),
            fv == fields_view(fields@),
            out@ == base + enc_fields(fv.take(i as int)),
            forall|j: int|
                0 <= j < i ==> encode_utf8((#[trigger] fv[j]).name).len()
                    < 0x1_0000_0000_0000_0000,
        decreases fields@.len() - i,
    {
        emit_field(out, &fields[i]);
        proof {
            assert(fv.take(i + 1) =~= fv.take(i as int).push(fv[i as int]));
            lemma_enc_fields_push(fv.take(i as int), fv[i as int]);
        }
        i = i + 1;
    }
    proof {
        assert(fv.take(fv.len() as int) =~= fv);
        assert(out@ =~= old(out)@ + enc_footer(fields_view(fields@), 1));
    }
}

// ---------------------------------------------------------------------
// executable decoder
// ---------------------------------------------------------------------
pub fn take_u64(b: &Vec<u8>, pos: usize) -> (r: Option<(u64, usize)>)
    ensures
        r is Some <==> parse_u64(b@, pos as int) is Some,
        r matches Some(x) ==> parse_u64(b@, pos as int) == Some((x.0, x.1 as int)),
{
    if b.len() >= 8 && pos <= b.len() - 8 {
        let s = vstd::slice::slice_subrange(b.as_slice(), pos, pos + 8);
        let w = vstd::bytes::u64_from_le_bytes(s);
        Some((w, pos + 8))
    } else {
        None
    }
}

fn take_field(b: &Vec<u8>, pos: usize) -> (r: Option<(Field, usize)>)
    ensures
        match parse_field(b@, pos as int) {
            Some((fv, p)) => r matches Some(x) && x.0.view_field() == fv && x.1 == p,
            None => r is None,
        },
{
    match take_u64(b, pos) {
        None => None,
        Some((n, p1)) => {
            if n > (b.len() - p1) as u64 {
                return None;
            }
            let nlen = n as usize;
            let nb = vstd::slice::slice_to_vec(
                vstd::slice::slice_subrange(b.as_slice(), p1, p1 + nlen),
            );
            match bytes_to_string(nb) {
                None => None,
                Some(name) => {
                    let p2 = p1 + nlen;
                    if b.len() - p2 < 2 {
                        return None;
                    }
                    if b[p2 + 1] != 1 {
                        return None;
                    }
                    let tag = b[p2];
                    let dtype = if tag == 1 {
                        DType::Boolean
                    } else if tag == 2 {
                        DType::Int64
                    } else if tag == 3 {
                        DType::Utf8
                    } else {
                        return None;
                    };
                    Some((Field { name, dtype }, p2 + 2))
                },
            }
        },
    }
}

pub fn take_fields(b: &Vec<u8>, pos: usize, n: u64) -> (r: Option<(Vec<Field>, usize)>)
    ensures
        match parse_fields(b@, pos as int, n as nat) {
            Some((fvs, p)) => r matches Some(x) && fields_view(x.0@) == fvs && x.1 == p,
            None => r is None,
        },
    decreases n,
{
    if n == 0 {
        let v: Vec<Field> = Vec::new();
        proof {
            assert(fields_view(v@) =~= Seq::<FieldVal>::empty());
        }
        Some((v, pos))
    } else {
        match take_field(b, pos) {
            None => None,
            Some((f, p1)) => match take_fields(b, p1, n - 1) {
                None => None,
                Some((mut rest, p2)) => {
                    rest.insert(0, f);
                    proof {
                        if parse_fields(b@, pos as int, n as nat) is Some {
                            let (fvs, _) = parse_fields(b@, pos as int, n as nat).unwrap();
                            assert(fields_view(rest@) =~= fvs);
                        }
                    }
                    Some((rest, p2))
                },
            },
        }
    }
}

fn take_bool_vals(b: &Vec<u8>, pos: usize, validity: &Vec<u8>, k: usize) -> (r: Option<
    (Vec<Option<bool>>, usize),
>)
    requires
        k <= validity@.len(),
    ensures
        match parse_bool_vals(b@, pos as int, validity@.skip(k as int)) {
            Some((cells, p)) => r matches Some(x) && x.0@ == cells && x.1 == p,
            None => r is None,
        },
    decreases validity@.len() - k,
{
    let ghost va = validity@.skip(k as int);
    if k == validity.len() {
        let v: Vec<Option<bool>> = Vec::new();
        proof {
            assert(va.len() == 0);
        }
        Some((v, pos))
    } else {
        proof {
            assert(va.first() == validity@[k as int]);
            assert(va.drop_first() =~= validity@.skip(k + 1));
        }
        if pos < b.len() {
            let byte = b[pos];
            let valid = validity[k] == 1;
            if valid && byte != 0 && byte != 1 {
                return None;
            }
            let cell: Option<bool> = if valid {
                Some(byte == 1)
            } else {
                None
            };
            match take_bool_vals(b, pos + 1, validity, k + 1) {
                None => None,
                Some((mut rest, p1)) => {
                    rest.insert(0, cell);
                    proof {
                        if parse_bool_vals(b@, pos as int, va) is Some {
                            let (cells, _) = parse_bool_vals(b@, pos as int, va).unwrap();
                            assert(rest@ =~= cells);
                        }
                    }
                    Some((rest, p1))
                },
            }
        } else {
            None
        }
    }
}

fn take_int_vals(b: &Vec<u8>, pos: usize, validity: &Vec<u8>, k: usize) -> (r: Option<
    (Vec<Option<i64>>, usize),
>)
    requires
        k <= validity@.len(),
    ensures
        match parse_int_vals(b@, pos as int, validity@.skip(k as int)) {
            Some((cells, p)) => r matches Some(x) && x.0@ == cells && x.1 == p,
            None => r is None,
        },
    decreases validity@.len() - k,
{
    let ghost va = validity@.skip(k as int);
    if k == validity.len() {
        let v: Vec<Option<i64>> = Vec::new();
        proof {
            assert(va.len() == 0);
        }
        Some((v, pos))
    } else {
        proof {
            assert(va.first() == validity@[k as int]);
            assert(va.drop_first() =~= validity@.skip(k + 1));
        }
        match take_u64(b, pos) {
            None => None,
            Some((w, p1)) => {
                let cell: Option<i64> = if validity[k] == 1 {
                    Some(i64_from_bits(w))
                } else {
                    None
                };
                match take_int_vals(b, p1, validity, k + 1) {
                    None => None,
                    Some((mut rest, p2)) => {
                        let ghost pre = rest@;
                        rest.insert(0, cell);
                        proof {
                            assert(parse_u64(b@, pos as int) == Some((w, p1 as int)));
                            assert(rest@ =~= seq![cell] + pre);
                            if parse_int_vals(b@, pos as int, va) is Some {
                                let (cells, _) = parse_int_vals(b@, pos as int, va).unwrap();
                                assert(cells == seq![
                                    if va.first() == 1 {
                                        Some(i64_of_bits(w))
                                    } else {
                                        None
                                    },
                                ] + parse_int_vals(b@, p1 as int, va.drop_first()).unwrap().0);
                                assert(rest@ =~= cells);
                            }
                        }
                        Some((rest, p2))
                    },
                }
            },
        }
    }
}

fn take_str_vals(b: &Vec<u8>, pos: usize, validity: &Vec<u8>, k: usize) -> (r: Option<
    (Vec<Option<String>>, usize),
>)
    requires
        k <= validity@.len(),
    ensures
        match parse_str_vals(b@, pos as int, validity@.skip(k as int)) {
            Some((cells, p)) => r matches Some(x) && crate::series::str_cells_view(x.0@) == cells
                && x.1 == p,
            None => r is None,
        },
    decreases validity@.len() - k,
{
    let ghost va = validity@.skip(k as int);
    if k == validity.len() {
        let v: Vec<Option<String>> = Vec::new();
        proof {
            assert(va.len() == 0);
            assert(crate::series::str_cells_view(v@) =~= Seq::<Option<Seq<char>>>::empty());
        }
        Some((v, pos))
    } else {
        proof {
            assert(va.first() == validity@[k as int]);
            assert(va.drop_first() =~= validity@.skip(k + 1));
        }
        match take_u64(b, pos) {
            None => None,
            Some((n, p1)) => {
                if n > (b.len() - p1) as u64 {
                    return None;
                }
                let nlen = n as usize;
                let valid = validity[k] == 1;
                let cell: Option<String> = if valid {
                    let sb = vstd::slice::slice_to_vec(
                        vstd::slice::slice_subrange(b.as_slice(), p1, p1 + nlen),
                    );
                    match bytes_to_string(sb) {
                        None => {
                            return None;
                        },
                        Some(t) => Some(t),
                    }
                } else {
                    None
                };
                match take_str_vals(b, p1 + nlen, validity, k + 1) {
                    None => None,
                    Some((mut rest, p2)) => {
                        rest.insert(0, cell);
                        proof {
                            assert(crate::series::str_cells_view(rest@) =~= seq![
                                match cell {
                                    Some(t) => Some(t@),
                                    None => None,
                                },
                            ] + crate::series::str_cells_view(rest@.drop_first()));
                            if parse_str_vals(b@, pos as int, va) is Some {
                                let (cells, _) = parse_str_vals(b@, pos as int, va).unwrap();
                                assert(crate::series::str_cells_view(rest@) =~= cells);
                            }
                        }
                        Some((rest, p2))
                    },
                }
            },
        }
    }
}

fn take_col(b: &Vec<u8>, pos: usize, dtype: DType, rows: u64) -> (r: Option<(ColData, usize)>)
    ensures
        match parse_col(b@, pos as int, dtype, rows as nat) {
            Some((c, p)) => r matches Some(x) && x.0.view_cells() == c && x.1 == p,
            None => r is None,
        },
{
    if pos > b.len() {
        return None;
    }
    if rows > (b.len() - pos) as u64 {
        return None;
    }
    let rows_us = rows as usize;
    let validity = vstd::slice::slice_to_vec(
        vstd::slice::slice_subrange(b.as_slice(), pos, pos + rows_us),
    );
    let mut i: usize = 0;
    while i < validity.len()
        invariant
            i <= validity@.len(),
            validity@ == b@.subrange(pos as int, pos + rows as int),
            forall|j: int| 0 <= j < i ==> validity@[j] == 0 || validity@[j] == 1,
        decreases validity@.len() - i,
    {
        if validity[i] != 0 && validity[i] != 1 {
            return None;
        }
        i = i + 1;
    }
    proof {
        assert(validity@.skip(0) =~= validity@);
    }
    match dtype {
        DType::Boolean => match take_bool_vals(b, pos + rows_us, &validity, 0) {
            None => None,
            Some((cells, p1)) => Some((ColData::Bools(cells), p1)),
        },
        DType::Int64 => match take_int_vals(b, pos + rows_us, &validity, 0) {
            None => None,
            Some((cells, p1)) => Some((ColData::Ints(cells), p1)),
        },
        DType::Utf8 => match take_str_vals(b, pos + rows_us, &validity, 0) {
            None => None,
            Some((cells, p1)) => Some((ColData::Strs(cells), p1)),
        },
    }
}

/// The column views of a run of decoded columns.
pub open spec fn coldata_views(cs: Seq<ColData>) -> Seq<ColCells> {
    Seq::new(cs.len(), |i: int| cs[i].view_cells())
}

fn take_cols(b: &Vec<u8>, pos: usize, fields: &Vec<Field>, fidx: usize, rows: u64) -> (r: Option<
    (Vec<ColData>, usize),
>)
    requires
        fidx <= fields@.len(),
    ensures
        match parse_cols(b@, pos as int, fields_view(fields@).skip(fidx as int), rows as nat) {
            Some((cs, p)) => r matches Some(x) && coldata_views(x.0@) == cs && x.1 == p,
            None => r is None,
        },
    decreases fields@.len() - fidx,
{
    let ghost fv = fields_view(fields@).skip(fidx as int);
    if fidx == fields.len() {
        let v: Vec<ColData> = Vec::new();
        proof {
            assert(fv.len() == 0);
            assert(coldata_views(v@) =~= Seq::<ColCells>::empty());
        }
        Some((v, pos))
    } else {
        proof {
            assert(fv.first() == fields@[fidx as int].view_field());
            assert(fv.drop_first() =~= fields_view(fields@).skip(fidx + 1));
        }
        match take_col(b, pos, fields[fidx].dtype, rows) {
            None => None,
            Some((c, p1)) => match take_cols(b, p1, fields, fidx + 1, rows) {
                None => None,
                Some((mut rest, p2)) => {
                    rest.insert(0, c);
                    proof {
                        if parse_cols(b@, pos as int, fv, rows as nat) is Some {
                            let (cs, _) = parse_cols(b@, pos as int, fv, rows as nat).unwrap();
                            assert(coldata_views(rest@) =~= cs);
                        }
                    }
                    Some((rest, p2))
                },
            },
        }
    }
}

/// Column-wise concatenation of two batches' decoded columns, mirroring
/// the specification's `col_concat` (a type mismatch keeps the first).
fn coldata_concat(a: ColData, b: ColData) -> (r: ColData)
    ensures
        r.view_cells() == crate::series::col_concat(a.view_cells(), b.view_cells()),
{
    match (a, b) {
        (ColData::Bools(mut x), ColData::Bools(mut y)) => {
            x.append(&mut y);
            ColData::Bools(x)
        },
        (ColData::Ints(mut x), ColData::Ints(mut y)) => {
            x.append(&mut y);
            ColData::Ints(x)
        },
        (ColData::Strs(mut x), ColData::Strs(mut y)) => {
            let ghost xv = x@;
            let ghost yv = y@;
            x.append(&mut y);
            proof {
                assert(crate::series::str_cells_view(xv + yv) =~= crate::series::str_cells_view(
                    xv,
                ) + crate::series::str_cells_view(yv));
            }
            ColData::Strs(x)
        },
        (other, _) => other,
    }
}

fn take_batch(b: &Vec<u8>, pos: usize, fields: &Vec<Field>) -> (r: Option<(Vec<ColData>, usize)>)
    ensures
        match parse_batch(b@, pos as int, fields_view(fields@)) {
            Some((cs, p)) => r matches Some(x) && coldata_views(x.0@) == cs && x.1 == p,
            None => r is None,
        },
{
    if pos >= b.len() || b.len() - pos < 2 || b[pos] != 1 {
        return None;
    }
    let comp = b[pos + 1];
    match take_u64(b, pos + 2) {
        None => None,
        Some((rows, p1)) => match take_u64(b, p1) {
            None => None,
            Some((plen, p2)) => {
                if plen > (b.len() - p2) as u64 {
                    return None;
                }
                let plen_us = plen as usize;
                let payload = vstd::slice::slice_to_vec(
                    vstd::slice::slice_subrange(b.as_slice(), p2, p2 + plen_us),
                );
                let raw: Vec<u8> = if comp == 0 {
                    payload
                } else if comp == 1 {
                    match crate::compress::lz4_decompress(&payload) {
                        Some(v) => v,
                        None => {
                            return None;
                        },
                    }
                } else if comp == 2 {
                    match crate::compress::zstd_decompress(&payload) {
                        Some(v) => v,
                        None => {
                            return None;
                        },
                    }
                } else {
                    return None;
                };
                proof {
                    assert(fields_view(fields@).skip(0) =~= fields_view(fields@));
                }
                match take_cols(&raw, 0, fields, 0, rows) {
                    None => None,
                    Some((cols, end)) => {
                        if end == raw.len() {
                            Some((cols, p2 + plen_us))
                        } else {
                            None
                        }
                    },
                }
            },
        },
    }
}


/// The views of a run of decoded columns, from position `k` on.
pub open spec fn coldata_views_skip(views: Seq<ColCells>, k: int) -> Seq<ColCells> {
    views.skip(k)
}

/// A successfully parsed batch has one column per field.
pub proof fn lemma_parse_cols_len(b: Seq<u8>, pos: int, fields: Seq<FieldVal>, rows: nat)
    ensures
        parse_cols(b, pos, fields, rows) matches Some(x) ==> x.0.len() == fields.len(),
    decreases fields.len(),
{
    if fields.len() > 0 {
        match parse_col(b, pos, fields.first().dtype, rows) {
            None => {},
            Some((c, p1)) => {
                lemma_parse_cols_len(b, p1, fields.drop_first(), rows);
            },
        }
    }
}

pub proof fn lemma_parse_batch_len(b: Seq<u8>, pos: int, fields: Seq<FieldVal>)
    ensures
        parse_batch(b, pos, fields) matches Some(x) ==> x.0.len() == fields.len(),
{
    if 0 <= pos && pos + 2 <= b.len() && b[pos] == 1 {
        let comp = b[pos + 1];
        match parse_u64(b, pos + 2) {
            None => {},
            Some((rows, p1)) => match parse_u64(b, p1) {
                None => {},
                Some((plen, p2)) => {
                    if p2 + plen <= b.len() {
                        let payload = b.subrange(p2, p2 + plen);
                        match payload_raw(comp, payload) {
                            None => {},
                            Some(raw) => {
                                lemma_parse_cols_len(raw, 0, fields, rows as nat);
                            },
                        }
                    }
                },
            },
        }
    }
}

pub proof fn lemma_parse_batches_len(b: Seq<u8>, pos: int, fields: Seq<FieldVal>, n: nat)
    ensures
        parse_batches(b, pos, fields, n) matches Some(x) ==> x.0.len() == fields.len(),
    decreases n,
{
    if n > 0 {
        match parse_batch(b, pos, fields) {
            None => {},
            Some((c1, p1)) => {
                lemma_parse_batch_len(b, pos, fields);
                lemma_parse_batches_len(b, p1, fields, (n - 1) as nat);
            },
        }
    }
}

pub fn take_batches(b: &Vec<u8>, pos: usize, fields: &Vec<Field>, n: u64) -> (r: Option<
    (Vec<ColData>, usize),
>)
    ensures
        match parse_batches(b@, pos as int, fields_view(fields@), n as nat) {
            Some((cs, p)) => r matches Some(x) && coldata_views(x.0@) == cs && x.1 == p,
            None => r is None,
        },
    decreases n,
{
    if n == 0 {
        let mut v: Vec<ColData> = Vec::new();
        let ghost fv = fields_view(fields@);
        let mut i: usize = 0;
        while i < fields.len()
            invariant
                i <= fields@.len(),
                fv == fields_view(fields@),
                v@.len() == i,
                forall|j: int|
                    0 <= j < i ==> (#[trigger] v@[j]).view_cells() == empty_col(fv[j].dtype),
            decreases fields@.len() - i,
        {
            let c = match fields[i].dtype {
                DType::Boolean => ColData::Bools(Vec::new()),
                DType::Int64 => ColData::Ints(Vec::new()),
                DType::Utf8 => {
                    let e: Vec<Option<String>> = Vec::new();
                    proof {
                        assert(crate::series::str_cells_view(e@) =~= Seq::<
                            Option<Seq<char>>,
                        >::empty());
                    }
                    ColData::Strs(e)
                },
            };
            v.push(c);
            i = i + 1;
        }
        proof {
            assert(coldata_views(v@) =~= Seq::new(fv.len(), |j: int| empty_col(fv[j].dtype)));
        }
        Some((v, pos))
    } else {
        match take_batch(b, pos, fields) {
            None => None,
            Some((c1, p1)) => match take_batches(b, p1, fields, n - 1) {
                None => None,
                Some((rest, p2)) => {
                    proof {
                        lemma_parse_batch_len(b@, pos as int, fields_view(fields@));
                        lemma_parse_batches_len(b@, p1 as int, fields_view(fields@), (n - 1) as nat);
                    }
                    let mut out: Vec<ColData> = Vec::new();
                    let mut c1m = c1;
                    let mut restm = rest;
                    let ghost c1v = coldata_views(c1m@);
                    let ghost restv = coldata_views(restm@);
                    let ghost target = cols_concat(c1v, restv);
                    while c1m.len() > 0
                        invariant
                            restm@.len() == c1m@.len(),
                            out@.len() + c1m@.len() == c1v.len(),
                            restv.len() == c1v.len(),
                            target == cols_concat(c1v, restv),
                            coldata_views(out@) =~= target.take(out@.len() as int),
                            coldata_views(c1m@) =~= coldata_views_skip(c1v, out@.len() as int),
                            coldata_views(restm@) =~= coldata_views_skip(restv, out@.len() as int),
                        decreases c1m@.len(),
                    {
                        let ghost done = out@.len() as int;
                        let ghost pre_c1 = c1m@;
                        let ghost pre_rest = restm@;
                        let a = c1m.remove(0);
                        let bb = restm.remove(0);
                        proof {
                            assert(a.view_cells() == coldata_views(pre_c1)[0]);
                            assert(bb.view_cells() == coldata_views(pre_rest)[0]);
                            assert(coldata_views(pre_c1)[0] == c1v[done]);
                            assert(coldata_views(pre_rest)[0] == restv[done]);
                            assert(c1m@ =~= pre_c1.drop_first());
                            assert(restm@ =~= pre_rest.drop_first());
                            assert(coldata_views(c1m@) =~= coldata_views(pre_c1).skip(1));
                            assert(coldata_views(restm@) =~= coldata_views(pre_rest).skip(1));
                            assert(coldata_views(pre_c1).skip(1) =~= c1v.skip(done).skip(1));
                            assert(coldata_views(pre_rest).skip(1) =~= restv.skip(done).skip(1));
                            assert(c1v.skip(done).skip(1) =~= c1v.skip(done + 1));
                            assert(restv.skip(done).skip(1) =~= restv.skip(done + 1));
                        }
                        let combined = coldata_concat(a, bb);
                        out.push(combined);
                        proof {
                            assert(coldata_views(out@) =~= target.take(done + 1));
                        }
                    }
                    proof {
                        assert(coldata_views(out@) =~= target);
                    }
                    Some((out, p2))
                },
            },
        }
    }
}

/// A decoded file has one column per schema field.
pub proof fn lemma_dec_file_cols_len(b: Seq<u8>)
    ensures
        dec_file(b) matches Some(f) ==> f.cols.len() == f.fields.len(),
{
    let len = b.len() as int;
    if len >= 12 {
        let flen = spec_u64_from_le_bytes(b.subrange(len - 8, len)) as int;
        let fstart = len - 8 - flen;
        if fstart >= 5 && b[0] == MAGIC0 && b[1] == MAGIC1 && b[2] == MAGIC2 && b[3] == MAGIC3 {
            match parse_footer(b.subrange(fstart, len - 8)) {
                None => {},
                Some((nb, fields)) => {
                    lemma_parse_batches_len(b, 4, fields, nb);
                },
            }
        }
    }
}

/// Decode the footer region: batch count, field count, fields, fully
/// consumed.
pub fn take_footer(region: &Vec<u8>) -> (r: Option<(u64, Vec<Field>)>)
    ensures
        match parse_footer(region@) {
            Some(x) => r matches Some(y) && y.0 as nat == x.0 && fields_view(y.1@) == x.1,
            None => r is None,
        },
{
    let (nb, p1) = match take_u64(region, 0) {
        Some(x) => x,
        None => {
            return None;
        },
    };
    let (nf, p2) = match take_u64(region, p1) {
        Some(x) => x,
        None => {
            return None;
        },
    };
    let (fields, p3) = match take_fields(region, p2, nf) {
        Some(x) => x,
        None => {
            return None;
        },
    };
    if p3 == region.len() {
        Some((nb, fields))
    } else {
        None
    }
}

/// Decode a whole file into its schema and, per field, the concatenated
/// cells of all batches. Malformed or truncated bytes decode to nothing;
/// nothing partial is ever returned.
pub fn decode_file(b: &Vec<u8>) -> (r: Option<(Vec<Field>, Vec<ColData>)>)
    ensures
        r matches Some(x) ==> dec_file(b@) matches Some(f) && fields_view(x.0@) == f.fields
            && coldata_views(x.1@) == f.cols,
        r is None <==> dec_file(b@) is None,
{
    let len = b.len();
    if len < 13 {
        return None;
    }
    let flen_u64 = match take_u64(b, len - 8) {
        Some(x) => x.0,
        None => {
            return None;
        },
    };
    if flen_u64 > (len - 13) as u64 {
        return None;
    }
    let flen = flen_u64 as usize;
    let fstart = len - 8 - flen;
    if !(b[0] == MAGIC0 && b[1] == MAGIC1 && b[2] == MAGIC2 && b[3] == MAGIC3) {
        return None;
    }
    let freg = vstd::slice::slice_to_vec(
        vstd::slice::slice_subrange(b.as_slice(), fstart, len - 8),
    );
    let (nb, fields) = match take_footer(&freg) {
        Some(x) => x,
        None => {
            return None;
        },
    };
    let (cols, p) = match take_batches(b, 4, &fields, nb) {
        Some(x) => x,
        None => {
            return None;
        },
    };
    if p == fstart - 1 && b[p] == 0 {
        Some((fields, cols))
    } else {
        None
    }
}

} // verus!
