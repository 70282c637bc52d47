//! Segments: header, definition and data frames, and the trailing checksum.

use vstd::prelude::*;

use crate::error::DecodeError;
use crate::value::{
    base_from_code, base_of_code, decode_value, value_of, BaseType, Scalar, Value, ValueV,
};

verus! {

/// Bytes in a segment header: size, protocol version, body length (two
/// bytes, least significant first) and the header checksum.
pub const HEADER_SIZE: u8 = 5;

/// The protocol version that this decoder reads.
pub const PROTOCOL_VERSION: u8 = 1;

/// The field identifier whose value, when present, names the logical kind
/// of a record in place of its frame type.
pub const KIND_FIELD: u8 = 0xFD;

/// The layout of one field in a definition frame.
#[derive(Clone, Copy, Debug, PartialEq, Eq)]
pub struct FieldDef {
    pub id: u8,
    pub size: u8,
    pub base: BaseType,
}

/// The layout of the data frames of one type.
#[derive(Clone, Debug)]
pub struct Definition {
    pub big_endian: bool,
    pub fields: Vec<FieldDef>,
}

pub struct DefinitionV {
    pub big_endian: bool,
    pub fields: Seq<FieldDef>,
}

impl View for Definition {
    type V = DefinitionV;

    open spec fn view(&self) -> DefinitionV {
        DefinitionV { big_endian: self.big_endian, fields: self.fields@ }
    }
}

/// One decoded field of a record.
#[derive(Clone, Debug, PartialEq, Eq)]
pub struct Field {
    pub id: u8,
    pub value: Value,
}

impl View for Field {
    type V = (u8, ValueV);

    open spec fn view(&self) -> (u8, ValueV) {
        (self.id, self.value@)
    }
}

/// One decoded data frame.
#[derive(Clone, Debug, PartialEq, Eq)]
pub struct Record {
    /// The frame type that the data frame named.
    pub type_id: u8,
    /// The logical kind of the record: the value of its `KIND_FIELD` field
    /// when it has one holding an unsigned or enumerated scalar, else its
    /// frame type.
    pub kind: u64,
    pub fields: Vec<Field>,
}

pub struct RecordV {
    pub type_id: u8,
    pub kind: u64,
    pub fields: Seq<(u8, ValueV)>,
}

impl View for Record {
    type V = RecordV;

    open spec fn view(&self) -> RecordV {
        RecordV {
            type_id: self.type_id,
            kind: self.kind,
            fields: self.fields@.map_values(|f: Field| f@),
        }
    }
}

/// One decoded segment.
#[derive(Clone, Debug, PartialEq, Eq)]
pub struct Segment {
    pub version: u8,
    pub records: Vec<Record>,
}

pub struct SegmentV {
    pub version: u8,
    pub records: Seq<RecordV>,
}

impl View for Segment {
    type V = SegmentV;

    open spec fn view(&self) -> SegmentV {
        SegmentV { version: self.version, records: self.records@.map_values(|r: Record| r@) }
    }
}

/// The definition table of one segment: an entry for each frame type.
pub type TableV = Seq<Option<DefinitionV>>;

pub open spec fn empty_table() -> TableV {
    Seq::new(256, |i: int| None)
}

pub open spec fn table_view(t: Seq<Option<Definition>>) -> TableV {
    t.map_values(
        |o: Option<Definition>|
            match o {
                Some(d) => Some(d@),
                None => None,
            },
    )
}

/// The logical kind of a record of frame type `t` with fields `fs`.
pub open spec fn kind_of(t: u8, fs: Seq<(u8, ValueV)>) -> u64
    decreases fs.len(),
{
    if fs.len() == 0 {
        t as u64
    } else if fs[0].0 == KIND_FIELD && (fs[0].1 matches ValueV::Scalar(Scalar::UInt { .. })
        || fs[0].1 matches ValueV::Scalar(Scalar::Enum { .. })) {
        match fs[0].1 {
            ValueV::Scalar(Scalar::UInt { value, .. }) => value,
            ValueV::Scalar(Scalar::Enum { code }) => code as u64,
            _ => 0,
        }
    } else {
        kind_of(t, fs.drop_first())
    }
}

/// Decodes, from position `pos` of `b`, the fields `defs[i..]` after the
/// fields `acc`, giving all fields and the position after the last.
pub open spec fn fields_run(
    b: Seq<u8>,
    pos: nat,
    defs: Seq<FieldDef>,
    i: nat,
    big_endian: bool,
    acc: Seq<(u8, ValueV)>,
) -> Result<(Seq<(u8, ValueV)>, nat), DecodeError>
    decreases defs.len() - i,
{
    if i >= defs.len() {
        Ok((acc, pos))
    } else {
        let fd = defs[i as int];
        if pos + fd.size > b.len() {
            Err(DecodeError::TruncatedStream)
        } else {
            match value_of(b.subrange(pos as int, pos + fd.size), fd.base, big_endian) {
                Err(e) => Err(e),
                Ok(v) => fields_run(
                    b,
                    (pos + fd.size) as nat,
                    defs,
                    i + 1,
                    big_endian,
                    acc.push((fd.id, v)),
                ),
            }
        }
    }
}

/// What one frame leaves: the position after it, the table after it, and
/// the record it holds if it is a data frame.
pub struct FrameV {
    pub next: nat,
    pub table: TableV,
    pub record: Option<RecordV>,
}

/// The field layouts of a definition frame whose field list starts at `q`.
pub open spec fn field_defs_at(b: Seq<u8>, q: int, n: nat) -> Seq<FieldDef> {
    Seq::new(
        n,
        |i: int|
            FieldDef {
                id: b[q + 3 * i],
                size: b[q + 3 * i + 1],
                base: base_of_code(b[q + 3 * i + 2]),
            },
    )
}

/// The frame type named by the frame starting at `p`, and where its
/// content starts. Low bits `0x7F` mean that the next byte names the type.
pub open spec fn frame_type_at(b: Seq<u8>, p: int) -> (u8, int) {
    let d = b[p];
    if d & 0x7F == 0x7F {
        (b[p + 1], p + 2)
    } else {
        (d & 0x7F, p + 1)
    }
}

/// Decodes the frame that starts at position `p < b.len()` of the body `b`.
pub open spec fn frame_at(b: Seq<u8>, p: nat, table: TableV) -> Result<FrameV, DecodeError> {
    let d = b[p as int];
    if d & 0x7F == 0x7F && p + 1 >= b.len() {
        Err(DecodeError::TruncatedStream)
    } else {
        let (t, q) = frame_type_at(b, p as int);
        if d & 0x80 != 0 {
            if q + 2 > b.len() || q + 2 + 3 * b[q + 1] > b.len() {
                Err(DecodeError::TruncatedStream)
            } else {
                let def = DefinitionV {
                    big_endian: b[q] != 0,
                    fields: field_defs_at(b, q + 2, b[q + 1] as nat),
                };
                Ok(
                    FrameV {
                        next: (q + 2 + 3 * b[q + 1]) as nat,
                        table: table.update(t as int, Some(def)),
                        record: None,
                    },
                )
            }
        } else {
            match table[t as int] {
                None => Err(DecodeError::UndefinedFrameType { type_id: t, offset: p as usize }),
                Some(def) => match fields_run(b, q as nat, def.fields, 0, def.big_endian, seq![]) {
                    Err(e) => Err(e),
                    Ok((fs, end)) => Ok(
                        FrameV {
                            next: end,
                            table,
                            record: Some(RecordV { type_id: t, kind: kind_of(t, fs), fields: fs }),
                        },
                    ),
                },
            }
        }
    }
}

/// Decodes the frames of the body `b` from position `p`, with the table
/// `table` and the records `acc` decoded before it.
pub open spec fn frames_run(b: Seq<u8>, p: nat, table: TableV, acc: Seq<RecordV>) -> Result<
    Seq<RecordV>,
    DecodeError,
>
    decreases b.len() - p,
{
    if p >= b.len() {
        Ok(acc)
    } else {
        match frame_at(b, p, table) {
            Err(e) => Err(e),
            Ok(f) => if f.next <= p || f.next > b.len() {
                Err(DecodeError::TruncatedStream)
            } else {
                frames_run(
                    b,
                    f.next,
                    f.table,
                    match f.record {
                        Some(r) => acc.push(r),
                        None => acc,
                    },
                )
            },
        }
    }
}

/// The records of a segment body, decoded with a fresh table.
pub open spec fn body_records(b: Seq<u8>) -> Result<Seq<RecordV>, DecodeError> {
    frames_run(b, 0, empty_table(), seq![])
}


pub open spec fn fields_view(fs: Seq<Field>) -> Seq<(u8, ValueV)> {
    fs.map_values(|f: Field| f@)
}

pub open spec fn records_view(rs: Seq<Record>) -> Seq<RecordV> {
    rs.map_values(|r: Record| r@)
}

/// Decodes, from position `pos` of `b`, one field for each layout of `defs`.
pub fn decode_fields(b: &[u8], pos: usize, defs: &Vec<FieldDef>, big_endian: bool) -> (r: Result<
    (Vec<Field>, usize),
    DecodeError,
>)
    requires
        pos <= b@.len(),
    ensures
        match r {
            Ok((fs, end)) => pos <= end <= b@.len() && fields_run(
                b@,
                pos as nat,
                defs@,
                0,
                big_endian,
                seq![],
            ) == Ok::<(Seq<(u8, ValueV)>, nat), DecodeError>((fields_view(fs@), end as nat)),
            Err(e) => fields_run(b@, pos as nat, defs@, 0, big_endian, seq![]) == Err::<
                (Seq<(u8, ValueV)>, nat),
                DecodeError,
            >(e),
        },
{
    let mut fs: Vec<Field> = Vec::new();
    let mut p: usize = pos;
    let mut i: usize = 0;
    proof {
        assert(fields_view(fs@) =~= seq![]);
    }
    while i < defs.len()
        invariant
            i <= defs@.len(),
            pos <= p <= b@.len(),
            fields_run(b@, pos as nat, defs@, 0, big_endian, seq![]) == fields_run(
                b@,
                p as nat,
                defs@,
                i as nat,
                big_endian,
                fields_view(fs@),
            ),
        decreases defs@.len() - i,
    {
        let fd = defs[i];
        if fd.size as usize > b.len() - p {
            return Err(DecodeError::TruncatedStream);
        }
        match decode_value(b, p, fd.size as usize, fd.base, big_endian) {
            Err(e) => {
                return Err(e);
            },
            Ok(v) => {
                let ghost old_fs = fs@;
                fs.push(Field { id: fd.id, value: v });
                proof {
                    assert(fields_view(fs@) =~= fields_view(old_fs).push((fd.id, v@)));
                }
                p = p + fd.size as usize;
                i = i + 1;
            },
        }
    }
    Ok((fs, p))
}

/// The logical kind of a record of frame type `t` with fields `fs`.
pub fn record_kind(t: u8, fs: &Vec<Field>) -> (r: u64)
    ensures
        r == kind_of(t, fields_view(fs@)),
{
    let ghost all = fields_view(fs@);
    let mut i: usize = 0;
    assert(all.subrange(0, all.len() as int) =~= all);
    while i < fs.len()
        invariant
            i <= fs@.len(),
            all == fields_view(fs@),
            kind_of(t, all) == kind_of(t, all.subrange(i as int, all.len() as int)),
        decreases fs@.len() - i,
    {
        let ghost rest = all.subrange(i as int, all.len() as int);
        assert(rest.drop_first() =~= all.subrange(i + 1, all.len() as int));
        assert(rest[0] == fs@[i as int]@);
        if fs[i].id == KIND_FIELD {
            match &fs[i].value {
                Value::Scalar(Scalar::UInt { value, .. }) => {
                    return *value;
                },
                Value::Scalar(Scalar::Enum { code }) => {
                    return *code as u64;
                },
                _ => {},
            }
        }
        i = i + 1;
    }
    t as u64
}

/// A definition table with no entries.
pub fn new_table() -> (r: Vec<Option<Definition>>)
    ensures
        r@.len() == 256,
        table_view(r@) == empty_table(),
{
    let mut t: Vec<Option<Definition>> = Vec::new();
    let mut i: usize = 0;
    while i < 256
        invariant
            i <= 256,
            t@.len() == i,
            forall|k: int| 0 <= k < i ==> t@[k] is None,
        decreases 256 - i,
    {
        t.push(None);
        i = i + 1;
    }
    assert(table_view(t@) =~= empty_table());
    t
}

/// Decodes the frames of the segment body `b`.
pub fn decode_body(b: &[u8]) -> (r: Result<Vec<Record>, DecodeError>)
    ensures
        match r {
            Ok(rs) => body_records(b@) == Ok::<Seq<RecordV>, DecodeError>(records_view(rs@)),
            Err(e) => body_records(b@) == Err::<Seq<RecordV>, DecodeError>(e),
        },
{
    let mut table = new_table();
    let mut rs: Vec<Record> = Vec::new();
    let mut p: usize = 0;
    proof {
        assert(records_view(rs@) =~= seq![]);
    }
    while p < b.len()
        invariant
            p <= b@.len(),
            table@.len() == 256,
            body_records(b@) == frames_run(b@, p as nat, table_view(table@), records_view(rs@)),
        decreases b@.len() - p,
    {
        let ghost tv = table_view(table@);
        let ghost acc = records_view(rs@);
        let d = b[p];
        if d & 0x7F == 0x7F && p + 1 >= b.len() {
            return Err(DecodeError::TruncatedStream);
        }
        let (t, q) = if d & 0x7F == 0x7F {
            (b[p + 1], p + 2)
        } else {
            (d & 0x7F, p + 1)
        };
        assert(frame_type_at(b@, p as int) == (t, q as int));
        assert(q <= b@.len());
        assert((t as int) < 256) by (bit_vector);
        if d & 0x80 != 0 {
            if b.len() - q < 2 || 3 * (b[q + 1] as usize) > b.len() - (q + 2) {
                return Err(DecodeError::TruncatedStream);
            }
            let n = b[q + 1] as usize;
            let big_endian = b[q] != 0;
            let mut fields: Vec<FieldDef> = Vec::new();
            let mut k: usize = 0;
            while k < n
                invariant
                    k <= n,
                    n == b@[q + 1],
                    q + 2 + 3 * n <= b.len(),
                    fields@ =~= field_defs_at(b@, q + 2, k as nat),
                decreases n - k,
            {
                let at = q + 2 + 3 * k;
                let fd = FieldDef { id: b[at], size: b[at + 1], base: base_from_code(b[at + 2]) };
                fields.push(fd);
                k = k + 1;
                assert(fields@ =~= field_defs_at(b@, q + 2, k as nat));
            }
            let def = Definition { big_endian, fields };
            proof {
                assert(fields@ =~= field_defs_at(b@, q + 2, n as nat));
            }
            table.set(t as usize, Some(def));
            proof {
                assert(table_view(table@) =~= tv.update(t as int, Some(def@)));
            }
            p = q + 2 + 3 * n;
        } else {
            let looked = match &table[t as usize] {
                None => None,
                Some(def) => Some(decode_fields(b, q, &def.fields, def.big_endian)),
            };
            assert(tv[t as int] == match table@[t as int] {
                Some(d) => Some(d@),
                None => None::<DefinitionV>,
            });
            match looked {
                None => {
                    return Err(DecodeError::UndefinedFrameType { type_id: t, offset: p });
                },
                Some(Err(e)) => {
                    return Err(e);
                },
                Some(Ok((fs, end))) => {
                    let kind = record_kind(t, &fs);
                    let rec = Record { type_id: t, kind, fields: fs };
                    rs.push(rec);
                    proof {
                        assert(records_view(rs@) =~= acc.push(rec@));
                    }
                    assert(end > p);
                    p = end;
                },
            }
        }
    }
    Ok(rs)
}


/// A data frame whose type has no definition in the table fails the decode
/// with `UndefinedFrameType` naming that frame's own offset: nothing past it
/// is read.
pub proof fn lemma_undefined_frame(b: Seq<u8>, p: nat, table: TableV, acc: Seq<RecordV>)
    requires
        p < b.len(),
        p <= usize::MAX,
        b[p as int] & 0x80 == 0,
        b[p as int] & 0x7F != 0x7F || p + 1 < b.len(),
        0 <= frame_type_at(b, p as int).0 < table.len(),
        table[frame_type_at(b, p as int).0 as int] is None,
    ensures
        frames_run(b, p, table, acc) == Err::<Seq<RecordV>, DecodeError>(
            DecodeError::UndefinedFrameType { type_id: frame_type_at(b, p as int).0, offset: p as usize },
        ),
{
}

/// A body whose first frame is a data frame fails with `UndefinedFrameType`
/// at offset zero.
pub proof fn lemma_data_before_definition(b: Seq<u8>)
    requires
        b.len() > 0,
        b[0] & 0x80 == 0,
        b[0] & 0x7F != 0x7F || 1 < b.len(),
    ensures
        body_records(b) == Err::<Seq<RecordV>, DecodeError>(
            DecodeError::UndefinedFrameType { type_id: frame_type_at(b, 0).0, offset: 0 },
        ),
{
    let t = frame_type_at(b, 0).0;
    assert(0 <= t < 256) by (bit_vector);
    lemma_undefined_frame(b, 0, empty_table(), seq![]);
}

} // verus!
