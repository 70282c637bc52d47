//! Field values: base types, raw integer reading and sentinel handling.

use vstd::prelude::*;

use crate::error::DecodeError;

verus! {

/// The base type of a field, as named by the code in a definition frame.
#[derive(Clone, Copy, Debug, PartialEq, Eq)]
pub enum BaseType {
    Enum,
    SInt8,
    UInt8,
    SInt16,
    UInt16,
    SInt32,
    UInt32,
    SInt64,
    UInt64,
    Float32,
    Float64,
    Text,
    Bytes,
}

/// One scalar element of a field. `Absent` stands for the sentinel pattern.
#[allow(inconsistent_fields)]
#[derive(Clone, Copy, Debug, PartialEq, Eq)]
pub enum Scalar {
    Absent,
    SInt { value: i64, bits: u8 },
    UInt { value: u64, bits: u8 },
    /// A floating-point value, kept as its raw IEEE-754 bit pattern.
    Float { raw: u64, bits: u8 },
    Enum { code: u8 },
}

/// A decoded field value.
#[derive(Clone, Debug, PartialEq, Eq)]
pub enum Value {
    /// The field holds its sentinel: present in the layout, value unknown.
    Absent,
    Scalar(Scalar),
    Array(Vec<Scalar>),
    Text(Vec<u8>),
    Bytes(Vec<u8>),
}

/// The mathematical form of a [`Value`].
pub enum ValueV {
    Absent,
    Scalar(Scalar),
    Array(Seq<Scalar>),
    Text(Seq<u8>),
    Bytes(Seq<u8>),
}

impl View for Value {
    type V = ValueV;

    open spec fn view(&self) -> ValueV {
        match self {
            Value::Absent => ValueV::Absent,
            Value::Scalar(s) => ValueV::Scalar(*s),
            Value::Array(v) => ValueV::Array(v@),
            Value::Text(v) => ValueV::Text(v@),
            Value::Bytes(v) => ValueV::Bytes(v@),
        }
    }
}

/// The base type that a code of a definition frame names; unknown codes
/// name a plain byte array.
pub open spec fn base_of_code(c: u8) -> BaseType {
    if c == 0 {
        BaseType::Enum
    } else if c == 1 {
        BaseType::SInt8
    } else if c == 2 {
        BaseType::UInt8
    } else if c == 3 {
        BaseType::SInt16
    } else if c == 4 {
        BaseType::UInt16
    } else if c == 5 {
        BaseType::SInt32
    } else if c == 6 {
        BaseType::UInt32
    } else if c == 7 {
        BaseType::Text
    } else if c == 8 {
        BaseType::Float32
    } else if c == 9 {
        BaseType::Float64
    } else if c == 10 {
        BaseType::SInt64
    } else if c == 11 {
        BaseType::UInt64
    } else {
        BaseType::Bytes
    }
}

/// The code that names a base type in a definition frame.
pub open spec fn code_of_base(b: BaseType) -> u8 {
    match b {
        BaseType::Enum => 0,
        BaseType::SInt8 => 1,
        BaseType::UInt8 => 2,
        BaseType::SInt16 => 3,
        BaseType::UInt16 => 4,
        BaseType::SInt32 => 5,
        BaseType::UInt32 => 6,
        BaseType::Text => 7,
        BaseType::Float32 => 8,
        BaseType::Float64 => 9,
        BaseType::SInt64 => 10,
        BaseType::UInt64 => 11,
        BaseType::Bytes => 12,
    }
}

/// Bytes taken by one element of a base type.
pub open spec fn elem_width(b: BaseType) -> nat {
    match b {
        BaseType::SInt16 | BaseType::UInt16 => 2,
        BaseType::SInt32 | BaseType::UInt32 | BaseType::Float32 => 4,
        BaseType::SInt64 | BaseType::UInt64 | BaseType::Float64 => 8,
        _ => 1,
    }
}

pub open spec fn is_signed(b: BaseType) -> bool {
    matches!(b, BaseType::SInt8 | BaseType::SInt16 | BaseType::SInt32 | BaseType::SInt64)
}

pub open spec fn is_float(b: BaseType) -> bool {
    matches!(b, BaseType::Float32 | BaseType::Float64)
}

/// `256` to the power `n`: the number of values that `n` bytes hold.
pub open spec fn cap(n: nat) -> nat
    decreases n,
{
    if n == 0 {
        1
    } else {
        256 * cap((n - 1) as nat)
    }
}

/// The unsigned number that bytes spell, least significant first.
pub open spec fn le_val(s: Seq<u8>) -> nat
    decreases s.len(),
{
    if s.len() == 0 {
        0
    } else {
        s[0] as nat + 256 * le_val(s.subrange(1, s.len() as int))
    }
}

/// The unsigned number that bytes spell, most significant first.
pub open spec fn be_val(s: Seq<u8>) -> nat
    decreases s.len(),
{
    if s.len() == 0 {
        0
    } else {
        be_val(s.drop_last()) * 256 + s.last() as nat
    }
}

pub open spec fn raw_val(s: Seq<u8>, big_endian: bool) -> nat {
    if big_endian {
        be_val(s)
    } else {
        le_val(s)
    }
}

/// The scalar that the raw number `raw` of one element of base `b` stands
/// for: the sentinel (all bits set for unsigned, enumerated and float
/// elements; the largest positive value for signed ones) gives `Absent`.
pub open spec fn scalar_of(b: BaseType, raw: nat) -> Scalar {
    let n = elem_width(b);
    let bits = (8 * n) as u8;
    if is_signed(b) {
        if raw == cap(n) / 2 - 1 {
            Scalar::Absent
        } else if raw >= cap(n) / 2 {
            Scalar::SInt { value: (raw - cap(n)) as i64, bits }
        } else {
            Scalar::SInt { value: raw as i64, bits }
        }
    } else if raw == cap(n) - 1 {
        Scalar::Absent
    } else if is_float(b) {
        Scalar::Float { raw: raw as u64, bits }
    } else if b == BaseType::Enum {
        Scalar::Enum { code: raw as u8 }
    } else {
        Scalar::UInt { value: raw as u64, bits }
    }
}

pub proof fn lemma_cap_mono(a: nat, b: nat)
    requires
        a <= b,
    ensures
        1 <= cap(a) <= cap(b),
    decreases b,
{
    if a < b {
        lemma_cap_mono(a, (b - 1) as nat);
    } else if b > 0 {
        lemma_cap_mono(0, (b - 1) as nat);
    }
}

/// A positive multiple of `e` is at least `e`, and less `e` is a multiple
/// still.
pub proof fn lemma_multiple_step(x: int, e: int)
    requires
        x % e == 0,
        x > 0,
        e > 0,
    ensures
        x >= e,
        (x - e) % e == 0,
{
    let q = x / e;
    vstd::arithmetic::div_mod::lemma_fundamental_div_mod(x, e);
    assert(x == e * q);
    assert(q >= 1) by (nonlinear_arith)
        requires
            x == e * q,
            x > 0,
            e > 0,
    ;
    assert(x - e == (q - 1) * e) by (nonlinear_arith)
        requires
            x == e * q,
    ;
    assert(x >= e) by (nonlinear_arith)
        requires
            x == e * q,
            q >= 1,
            e > 0,
    ;
    vstd::arithmetic::div_mod::lemma_mod_multiples_basic(q - 1, e);
}

proof fn lemma_cap_values()
    ensures
        cap(1) == 0x100,
        cap(2) == 0x10000,
        cap(4) == 0x1_0000_0000,
        cap(8) == 0x1_0000_0000_0000_0000,
{
    reveal_with_fuel(cap, 9);
}

/// The code of a definition frame, read as a base type.
pub fn base_from_code(c: u8) -> (r: BaseType)
    ensures
        r == base_of_code(c),
{
    match c {
        0 => BaseType::Enum,
        1 => BaseType::SInt8,
        2 => BaseType::UInt8,
        3 => BaseType::SInt16,
        4 => BaseType::UInt16,
        5 => BaseType::SInt32,
        6 => BaseType::UInt32,
        7 => BaseType::Text,
        8 => BaseType::Float32,
        9 => BaseType::Float64,
        10 => BaseType::SInt64,
        11 => BaseType::UInt64,
        _ => BaseType::Bytes,
    }
}

/// The code that names `b` in a definition frame.
pub fn base_code(b: BaseType) -> (r: u8)
    ensures
        r == code_of_base(b),
        base_of_code(r) == b,
{
    match b {
        BaseType::Enum => 0,
        BaseType::SInt8 => 1,
        BaseType::UInt8 => 2,
        BaseType::SInt16 => 3,
        BaseType::UInt16 => 4,
        BaseType::SInt32 => 5,
        BaseType::UInt32 => 6,
        BaseType::Text => 7,
        BaseType::Float32 => 8,
        BaseType::Float64 => 9,
        BaseType::SInt64 => 10,
        BaseType::UInt64 => 11,
        BaseType::Bytes => 12,
    }
}

/// Bytes taken by one element of `b`.
pub fn element_width(b: BaseType) -> (r: usize)
    ensures
        r == elem_width(b),
        r == 1 || r == 2 || r == 4 || r == 8,
{
    match b {
        BaseType::SInt16 | BaseType::UInt16 => 2,
        BaseType::SInt32 | BaseType::UInt32 | BaseType::Float32 => 4,
        BaseType::SInt64 | BaseType::UInt64 | BaseType::Float64 => 8,
        _ => 1,
    }
}

/// Reads the unsigned number held by `bytes[start..start + n]` in the given
/// byte order.
pub fn read_raw(bytes: &[u8], start: usize, n: usize, big_endian: bool) -> (r: u64)
    requires
        start + n <= bytes@.len(),
        n <= 8,
    ensures
        r as nat == raw_val(bytes@.subrange(start as int, start + n), big_endian),
        (r as nat) < cap(n as nat),
{
    proof {
        lemma_cap_values();
        lemma_cap_mono(n as nat, 8);
    }
    let mut val: u64 = 0;
    if big_endian {
        let mut i: usize = 0;
        while i < n
            invariant
                i <= n,
                start + n <= bytes.len(),
                n <= 8,
                cap(n as nat) <= cap(8),
                cap(8) == 0x1_0000_0000_0000_0000,
                val as nat == be_val(bytes@.subrange(start as int, start + i)),
                (val as nat) < cap(i as nat),
            decreases n - i,
        {
            proof {
                lemma_cap_mono((i + 1) as nat, n as nat);
                let s = bytes@.subrange(start as int, start + i + 1);
                assert(s.drop_last() =~= bytes@.subrange(start as int, start + i));
            }
            val = val * 256 + bytes[start + i] as u64;
            i = i + 1;
        }
    } else {
        let mut i: usize = n;
        while i > 0
            invariant
                i <= n,
                start + n <= bytes.len(),
                n <= 8,
                cap(n as nat) <= cap(8),
                cap(8) == 0x1_0000_0000_0000_0000,
                val as nat == le_val(bytes@.subrange(start + i, start + n)),
                (val as nat) < cap((n - i) as nat),
            decreases i,
        {
            proof {
                lemma_cap_mono((n - i + 1) as nat, n as nat);
                let s = bytes@.subrange(start + i - 1, start + n);
                assert(s.subrange(1, s.len() as int) =~= bytes@.subrange(start + i, start + n));
            }
            val = val * 256 + bytes[start + i - 1] as u64;
            i = i - 1;
        }
    }
    val
}


/// Every byte of `s` is `x`.
pub open spec fn all_eq(s: Seq<u8>, x: u8) -> bool {
    forall|k: int| 0 <= k < s.len() ==> s[k] == x
}

/// The elements of an array field of base `b` held by the window `w`.
pub open spec fn elems_of(b: BaseType, w: Seq<u8>, big_endian: bool) -> Seq<Scalar>
    decreases w.len(),
{
    let e = elem_width(b);
    if w.len() < e || e == 0 {
        seq![]
    } else {
        seq![scalar_of(b, raw_val(w.subrange(0, e as int), big_endian))] + elems_of(
            b,
            w.subrange(e as int, w.len() as int),
            big_endian,
        )
    }
}

/// The value that the window `w` holds for a field of base `b`.
///
/// A text field whose bytes are all zero, and a byte-array field whose bytes
/// are all `0xFF`, are absent. A numeric field must hold a whole number of
/// elements; one element gives a scalar, or `Absent` on its sentinel, and any
/// other count gives an array of elements.
pub open spec fn value_of(w: Seq<u8>, b: BaseType, big_endian: bool) -> Result<ValueV, DecodeError> {
    if b == BaseType::Text {
        Ok(if all_eq(w, 0) { ValueV::Absent } else { ValueV::Text(w) })
    } else if b == BaseType::Bytes {
        Ok(if all_eq(w, 0xFF) { ValueV::Absent } else { ValueV::Bytes(w) })
    } else if w.len() % elem_width(b) != 0 {
        Err(DecodeError::FieldWidthMismatch)
    } else if w.len() == elem_width(b) {
        let s = scalar_of(b, raw_val(w, big_endian));
        Ok(if s == Scalar::Absent { ValueV::Absent } else { ValueV::Scalar(s) })
    } else {
        Ok(ValueV::Array(elems_of(b, w, big_endian)))
    }
}

/// The scalar that the raw number of one element of `b` stands for.
pub fn scalar_from_raw(b: BaseType, raw: u64) -> (r: Scalar)
    requires
        (raw as nat) < cap(elem_width(b)),
    ensures
        r == scalar_of(b, raw as nat),
{
    proof {
        lemma_cap_values();
    }
    let n = element_width(b);
    let bits: u8 = (8 * n) as u8;
    let top: u64 = if n == 1 {
        0xFF
    } else if n == 2 {
        0xFFFF
    } else if n == 4 {
        0xFFFF_FFFF
    } else {
        0xFFFF_FFFF_FFFF_FFFF
    };
    assert(top as nat == cap(n as nat) - 1);
    match b {
        BaseType::SInt8 | BaseType::SInt16 | BaseType::SInt32 | BaseType::SInt64 => {
            let half: u64 = top / 2 + 1;
            if raw == half - 1 {
                Scalar::Absent
            } else if raw >= half {
                let neg: i64 = (top - raw) as i64;
                Scalar::SInt { value: -neg - 1, bits }
            } else {
                Scalar::SInt { value: raw as i64, bits }
            }
        },
        _ => {
            if raw == top {
                Scalar::Absent
            } else {
                match b {
                    BaseType::Float32 | BaseType::Float64 => Scalar::Float { raw, bits },
                    BaseType::Enum => Scalar::Enum { code: raw as u8 },
                    _ => Scalar::UInt { value: raw, bits },
                }
            }
        },
    }
}

/// Whether every byte of `bytes[start..start + size]` is `x`.
fn all_bytes_are(bytes: &[u8], start: usize, size: usize, x: u8) -> (r: bool)
    requires
        start + size <= bytes@.len(),
    ensures
        r == all_eq(bytes@.subrange(start as int, start + size), x),
{
    let mut i: usize = 0;
    while i < size
        invariant
            i <= size,
            start + size <= bytes.len(),
            all_eq(bytes@.subrange(start as int, start + i), x),
        decreases size - i,
    {
        if bytes[start + i] != x {
            assert(bytes@.subrange(start as int, start + size)[i as int] != x);
            return false;
        }
        i = i + 1;
    }
    true
}

/// A copy of `bytes[start..start + size]`.
pub fn copy_window(bytes: &[u8], start: usize, size: usize) -> (r: Vec<u8>)
    requires
        start + size <= bytes@.len(),
    ensures
        r@ == bytes@.subrange(start as int, start + size),
{
    let mut v: Vec<u8> = Vec::new();
    let mut i: usize = 0;
    while i < size
        invariant
            i <= size,
            start + size <= bytes.len(),
            v@ =~= bytes@.subrange(start as int, start + i),
        decreases size - i,
    {
        v.push(bytes[start + i]);
        i = i + 1;
    }
    v
}

/// Decodes the field of base `base` held by `bytes[start..start + size]`.
pub fn decode_value(bytes: &[u8], start: usize, size: usize, base: BaseType, big_endian: bool) -> (r:
    Result<Value, DecodeError>)
    requires
        start + size <= bytes@.len(),
    ensures
        match r {
            Ok(v) => value_of(bytes@.subrange(start as int, start + size), base, big_endian) == Ok::<
                ValueV,
                DecodeError,
            >(v@),
            Err(e) => value_of(bytes@.subrange(start as int, start + size), base, big_endian) == Err::<
                ValueV,
                DecodeError,
            >(e),
        },
{
    let ghost w = bytes@.subrange(start as int, start + size);
    match base {
        BaseType::Text => {
            if all_bytes_are(bytes, start, size, 0) {
                return Ok(Value::Absent);
            }
            return Ok(Value::Text(copy_window(bytes, start, size)));
        },
        BaseType::Bytes => {
            if all_bytes_are(bytes, start, size, 0xFF) {
                return Ok(Value::Absent);
            }
            return Ok(Value::Bytes(copy_window(bytes, start, size)));
        },
        _ => {},
    }
    let e = element_width(base);
    if size % e != 0 {
        return Err(DecodeError::FieldWidthMismatch);
    }
    if size == e {
        let raw = read_raw(bytes, start, size, big_endian);
        let s = scalar_from_raw(base, raw);
        if let Scalar::Absent = s {
            return Ok(Value::Absent);
        }
        return Ok(Value::Scalar(s));
    }
    let mut v: Vec<Scalar> = Vec::new();
    let mut off: usize = 0;
    while off < size
        invariant
            off <= size,
            start + size <= bytes.len(),
            e == elem_width(base),
            e == 1 || e == 2 || e == 4 || e == 8,
            (size - off) % (e as int) == 0,
            elems_of(base, w, big_endian) == v@ + elems_of(
                base,
                bytes@.subrange(start + off, start + size),
                big_endian,
            ),
        decreases size - off,
    {
        let ghost x = bytes@.subrange(start + off, start + size);
        proof {
            lemma_multiple_step(size - off, e as int);
        }
        let raw = read_raw(bytes, start + off, e, big_endian);
        let s = scalar_from_raw(base, raw);
        proof {
            assert(x.subrange(0, e as int) =~= bytes@.subrange(start + off, start + off + e));
            assert(x.subrange(e as int, x.len() as int) =~= bytes@.subrange(
                start + off + e,
                start + size,
            ));
            assert(v@.push(s) + elems_of(base, x.subrange(e as int, x.len() as int), big_endian)
                =~= v@ + elems_of(base, x, big_endian));
        }
        v.push(s);
        off = off + e;
    }
    proof {
        assert(v@ + elems_of(base, bytes@.subrange(start + off, start + size), big_endian) =~= v@);
    }
    Ok(Value::Array(v))
}


proof fn lemma_all_ff_is_top(s: Seq<u8>)
    requires
        all_eq(s, 0xFF),
    ensures
        le_val(s) == cap(s.len()) - 1,
        be_val(s) == cap(s.len()) - 1,
    decreases s.len(),
{
    if s.len() > 0 {
        let t = s.subrange(1, s.len() as int);
        lemma_all_ff_is_top(t);
        lemma_all_ff_is_top(s.drop_last());
        lemma_cap_mono(0, (s.len() - 1) as nat);
    }
}

/// A single unsigned, enumerated or floating-point element whose bytes are
/// all set decodes to the absent marker, not to its numeric maximum, in
/// either byte order.
pub proof fn lemma_sentinel_is_absent(w: Seq<u8>, b: BaseType, big_endian: bool)
    requires
        !is_signed(b),
        b != BaseType::Text,
        b != BaseType::Bytes,
        w.len() == elem_width(b),
        all_eq(w, 0xFF),
    ensures
        value_of(w, b, big_endian) == Ok::<ValueV, DecodeError>(ValueV::Absent),
{
    lemma_all_ff_is_top(w);
    assert(w.len() % elem_width(b) == 0) by (nonlinear_arith)
        requires
            w.len() == elem_width(b),
            elem_width(b) > 0,
    ;
}

} // verus!
