//! Encoding values, frames and segments: the inverse of the decoder, and
//! the proofs that decoding then encoding gives back the same bytes.

use vstd::prelude::*;

use crate::segment::{
    body_records, empty_table, field_defs_at, fields_run, fields_view, frame_at, frame_type_at,
    frames_run, Definition, DefinitionV, Field, FieldDef, RecordV, TableV, HEADER_SIZE,
};
use crate::stream::{decode_step, lemma_segment_bytes_of_decoded, segment_bytes};
use crate::value::{
    all_eq, base_code, base_of_code, be_val, cap, code_of_base, elem_width, element_width,
    elems_of, is_float, is_signed, le_val, lemma_multiple_step, raw_val, scalar_of, value_of,
    BaseType, Scalar, Value, ValueV,
};

verus! {

/// The `n` bytes that spell `x`, least significant first.
pub open spec fn le_bytes(x: nat, n: nat) -> Seq<u8>
    decreases n,
{
    if n == 0 {
        seq![]
    } else {
        seq![(x % 256) as u8] + le_bytes(x / 256, (n - 1) as nat)
    }
}

/// The `n` bytes that spell `x`, most significant first.
pub open spec fn be_bytes(x: nat, n: nat) -> Seq<u8>
    decreases n,
{
    if n == 0 {
        seq![]
    } else {
        be_bytes(x / 256, (n - 1) as nat).push((x % 256) as u8)
    }
}

pub open spec fn raw_bytes(x: nat, n: nat, big_endian: bool) -> Seq<u8> {
    if big_endian {
        be_bytes(x, n)
    } else {
        le_bytes(x, n)
    }
}

/// The raw number that stands for the element `s` of base `b`; `Absent`
/// stands for the sentinel.
pub open spec fn raw_of(b: BaseType, s: Scalar) -> nat {
    let c = cap(elem_width(b));
    match s {
        Scalar::Absent => if is_signed(b) {
            (c / 2 - 1) as nat
        } else {
            (c - 1) as nat
        },
        Scalar::SInt { value, .. } => if value < 0 {
            (value + c) as nat
        } else {
            value as nat
        },
        Scalar::UInt { value, .. } => value as nat,
        Scalar::Float { raw, .. } => raw as nat,
        Scalar::Enum { code } => code as nat,
    }
}

/// The bytes of the elements `es` of base `b`, one after another.
pub open spec fn encode_elems(b: BaseType, es: Seq<Scalar>, big_endian: bool) -> Seq<u8>
    decreases es.len(),
{
    if es.len() == 0 {
        seq![]
    } else {
        raw_bytes(raw_of(b, es[0]), elem_width(b), big_endian) + encode_elems(
            b,
            es.drop_first(),
            big_endian,
        )
    }
}

/// The `size` bytes that hold the value `v` of a field of base `b`.
pub open spec fn encode_of(v: ValueV, b: BaseType, big_endian: bool, size: nat) -> Seq<u8> {
    match v {
        ValueV::Absent => if b == BaseType::Text {
            Seq::new(size, |i: int| 0u8)
        } else if b == BaseType::Bytes {
            Seq::new(size, |i: int| 0xFFu8)
        } else {
            raw_bytes(raw_of(b, Scalar::Absent), elem_width(b), big_endian)
        },
        ValueV::Scalar(s) => raw_bytes(raw_of(b, s), elem_width(b), big_endian),
        ValueV::Array(es) => encode_elems(b, es, big_endian),
        ValueV::Text(w) => w,
        ValueV::Bytes(w) => w,
    }
}

/// A byte plus 256 times `k` splits back into the byte and `k`.
pub proof fn lemma_split_byte(a: int, k: int)
    requires
        0 <= a < 256,
        k >= 0,
    ensures
        (a + 256 * k) % 256 == a,
        (a + 256 * k) / 256 == k,
{
    vstd::arithmetic::div_mod::lemma_fundamental_div_mod_converse(a + 256 * k, 256, k, a);
}

/// Bytes read as a number and written back give the same bytes.
pub proof fn lemma_bytes_of_val(s: Seq<u8>)
    ensures
        le_bytes(le_val(s), s.len()) == s,
        be_bytes(be_val(s), s.len()) == s,
    decreases s.len(),
{
    if s.len() > 0 {
        let t = s.subrange(1, s.len() as int);
        lemma_bytes_of_val(t);
        lemma_split_byte(s[0] as int, le_val(t) as int);
        assert(le_bytes(le_val(s), s.len()) =~= s);
        let d = s.drop_last();
        lemma_bytes_of_val(d);
        lemma_split_byte(s.last() as int, be_val(d) as int);
        assert(be_bytes(be_val(s), s.len()) =~= s);
    }
}

/// The number that bytes spell is below `cap` of their count.
pub proof fn lemma_val_bound(s: Seq<u8>)
    ensures
        le_val(s) < cap(s.len()),
        be_val(s) < cap(s.len()),
    decreases s.len(),
{
    if s.len() > 0 {
        lemma_val_bound(s.subrange(1, s.len() as int));
        lemma_val_bound(s.drop_last());
    }
}

proof fn lemma_cap_widths(b: BaseType)
    ensures
        elem_width(b) == 1 ==> cap(elem_width(b)) == 0x100,
        elem_width(b) == 2 ==> cap(elem_width(b)) == 0x10000,
        elem_width(b) == 4 ==> cap(elem_width(b)) == 0x1_0000_0000,
        elem_width(b) == 8 ==> cap(elem_width(b)) == 0x1_0000_0000_0000_0000,
{
    reveal_with_fuel(cap, 9);
}

/// The raw number of a decoded element is the number it was decoded from.
pub proof fn lemma_raw_of_scalar(b: BaseType, raw: nat)
    requires
        b != BaseType::Text,
        b != BaseType::Bytes,
        raw < cap(elem_width(b)),
    ensures
        raw_of(b, scalar_of(b, raw)) == raw,
{
    lemma_cap_widths(b);
}

proof fn lemma_elems_round_trip(b: BaseType, w: Seq<u8>, big_endian: bool)
    requires
        b != BaseType::Text,
        b != BaseType::Bytes,
        w.len() % elem_width(b) == 0,
    ensures
        encode_elems(b, elems_of(b, w, big_endian), big_endian) == w,
    decreases w.len(),
{
    let e = elem_width(b);
    if w.len() == 0 {
        assert(encode_elems(b, elems_of(b, w, big_endian), big_endian) =~= w);
    } else {
        lemma_multiple_step(w.len() as int, e as int);
        let h = w.subrange(0, e as int);
        let t = w.subrange(e as int, w.len() as int);
        lemma_elems_round_trip(b, t, big_endian);
        lemma_val_bound(h);
        lemma_bytes_of_val(h);
        lemma_raw_of_scalar(b, raw_val(h, big_endian));
        let es = elems_of(b, w, big_endian);
        assert(es.drop_first() =~= elems_of(b, t, big_endian));
        assert(encode_elems(b, es, big_endian) =~= h + t);
        assert(h + t =~= w);
    }
}

/// Decoding a field's bytes and encoding the value again with the same base
/// type and byte order gives back exactly those bytes.
pub proof fn lemma_value_round_trip(w: Seq<u8>, b: BaseType, big_endian: bool)
    requires
        value_of(w, b, big_endian) is Ok,
    ensures
        encode_of(value_of(w, b, big_endian)->Ok_0, b, big_endian, w.len()) == w,
{
    let v = value_of(w, b, big_endian)->Ok_0;
    if b == BaseType::Text {
        if all_eq(w, 0) {
            assert(encode_of(v, b, big_endian, w.len()) =~= w);
        }
    } else if b == BaseType::Bytes {
        if all_eq(w, 0xFF) {
            assert(encode_of(v, b, big_endian, w.len()) =~= w);
        }
    } else if w.len() == elem_width(b) {
        lemma_val_bound(w);
        lemma_bytes_of_val(w);
        lemma_raw_of_scalar(b, raw_val(w, big_endian));
    } else {
        lemma_elems_round_trip(b, w, big_endian);
    }
}


/// The element `s` can be written as an element of base `b`: its variant
/// matches the base and its number fits the element's width.
pub open spec fn scalar_fits(b: BaseType, s: Scalar) -> bool {
    let c = cap(elem_width(b));
    match s {
        Scalar::Absent => true,
        Scalar::SInt { value, .. } => is_signed(b) && -(c / 2) <= value < c / 2,
        Scalar::UInt { value, .. } => !is_signed(b) && !is_float(b) && b != BaseType::Enum && b
            != BaseType::Text && b != BaseType::Bytes && value < c,
        Scalar::Float { raw, .. } => is_float(b) && raw < c,
        Scalar::Enum { .. } => b == BaseType::Enum,
    }
}

/// The value `v` can be written as a field of base `b` taking `size` bytes.
pub open spec fn encodable(v: ValueV, b: BaseType, size: nat) -> bool {
    let numeric = b != BaseType::Text && b != BaseType::Bytes;
    match v {
        ValueV::Absent => !numeric || size == elem_width(b),
        ValueV::Scalar(s) => numeric && size == elem_width(b) && scalar_fits(b, s),
        ValueV::Array(es) => numeric && es.len() * elem_width(b) == size && forall|i: int|
            0 <= i < es.len() ==> scalar_fits(b, #[trigger] es[i]),
        ValueV::Text(w) => b == BaseType::Text && w.len() == size,
        ValueV::Bytes(w) => b == BaseType::Bytes && w.len() == size,
    }
}

proof fn lemma_fits_bound(b: BaseType, s: Scalar)
    requires
        b != BaseType::Text,
        b != BaseType::Bytes,
        scalar_fits(b, s),
    ensures
        raw_of(b, s) < cap(elem_width(b)),
{
    lemma_cap_widths(b);
}

/// The raw number that stands for the element `s` of base `b`.
pub fn scalar_raw(b: BaseType, s: Scalar) -> (r: u64)
    requires
        b != BaseType::Text,
        b != BaseType::Bytes,
        scalar_fits(b, s),
    ensures
        r == raw_of(b, s),
        (r as nat) < cap(elem_width(b)),
{
    proof {
        lemma_cap_widths(b);
        lemma_fits_bound(b, s);
    }
    let n = element_width(b);
    let top: u64 = if n == 1 {
        0xFF
    } else if n == 2 {
        0xFFFF
    } else if n == 4 {
        0xFFFF_FFFF
    } else {
        0xFFFF_FFFF_FFFF_FFFF
    };
    match s {
        Scalar::Absent => match b {
            BaseType::SInt8 | BaseType::SInt16 | BaseType::SInt32 | BaseType::SInt64 => top / 2,
            _ => top,
        },
        Scalar::SInt { value, .. } => if value < 0 {
            top - ((-(value + 1)) as u64)
        } else {
            value as u64
        },
        Scalar::UInt { value, .. } => value,
        Scalar::Float { raw, .. } => raw,
        Scalar::Enum { code } => code as u64,
    }
}

/// Appends to `out` the `n` bytes that spell `x` in the given byte order.
pub fn push_raw(out: &mut Vec<u8>, x: u64, n: usize, big_endian: bool)
    requires
        n <= 8,
    ensures
        final(out)@ == old(out)@ + raw_bytes(x as nat, n as nat, big_endian),
{
    if big_endian {
        let mut tmp: Vec<u8> = Vec::new();
        let mut k: usize = 0;
        while k < n
            invariant
                k <= n,
                tmp@.len() == k,
            decreases n - k,
        {
            tmp.push(0);
            k = k + 1;
        }
        let mut y: u64 = x;
        assert(tmp@.subrange(n as int, n as int) =~= Seq::<u8>::empty());
        assert(be_bytes(x as nat, n as nat) =~= be_bytes(y as nat, k as nat) + tmp@.subrange(
            k as int,
            n as int,
        ));
        while k > 0
            invariant
                k <= n,
                tmp@.len() == n,
                be_bytes(x as nat, n as nat) == be_bytes(y as nat, k as nat) + tmp@.subrange(
                    k as int,
                    n as int,
                ),
            decreases k,
        {
            let ghost before = tmp@;
            tmp.set(k - 1, (y % 256) as u8);
            assert(tmp@.subrange(k - 1, n as int) =~= seq![(y % 256) as u8] + before.subrange(
                k as int,
                n as int,
            ));
            assert(be_bytes(y as nat, k as nat) + before.subrange(k as int, n as int) =~= be_bytes(
                (y / 256) as nat,
                (k - 1) as nat,
            ) + tmp@.subrange(k - 1, n as int));
            y = y / 256;
            k = k - 1;
        }
        assert(tmp@.subrange(0, n as int) =~= tmp@);
        assert(be_bytes(y as nat, 0) =~= Seq::<u8>::empty());
        let mut i: usize = 0;
        let ghost start = out@;
        while i < n
            invariant
                i <= n,
                tmp@.len() == n,
                tmp@ == be_bytes(x as nat, n as nat),
                out@ == start + tmp@.subrange(0, i as int),
            decreases n - i,
        {
            out.push(tmp[i]);
            i = i + 1;
            assert(out@ =~= start + tmp@.subrange(0, i as int));
        }
        assert(out@ =~= start + tmp@);
    } else {
        let mut y: u64 = x;
        let mut k: usize = 0;
        let ghost start = out@;
        assert(start + le_bytes(x as nat, n as nat) =~= out@ + le_bytes(y as nat, n as nat));
        while k < n
            invariant
                k <= n,
                start + le_bytes(x as nat, n as nat) == out@ + le_bytes(y as nat, (n - k) as nat),
            decreases n - k,
        {
            let ghost before = out@;
            out.push((y % 256) as u8);
            assert(before + le_bytes(y as nat, (n - k) as nat) =~= out@ + le_bytes(
                (y / 256) as nat,
                (n - k - 1) as nat,
            ));
            y = y / 256;
            k = k + 1;
        }
        assert(out@ + le_bytes(y as nat, 0) =~= out@);
    }
}

/// The `size` bytes that hold the value `v` of a field of base `base`.
pub fn encode_value(v: &Value, base: BaseType, big_endian: bool, size: usize) -> (r: Vec<u8>)
    requires
        encodable(v@, base, size as nat),
    ensures
        r@ == encode_of(v@, base, big_endian, size as nat),
{
    let mut out: Vec<u8> = Vec::new();
    match v {
        Value::Absent => {
            match base {
                BaseType::Text | BaseType::Bytes => {
                    let fill: u8 = if let BaseType::Text = base {
                        0
                    } else {
                        0xFF
                    };
                    let mut i: usize = 0;
                    while i < size
                        invariant
                            i <= size,
                            out@ =~= Seq::new(i as nat, |k: int| fill),
                        decreases size - i,
                    {
                        out.push(fill);
                        i = i + 1;
                    }
                    assert(encode_of(v@, base, big_endian, size as nat) =~= out@);
                },
                _ => {
                    let x = scalar_raw(base, Scalar::Absent);
                    push_raw(&mut out, x, element_width(base), big_endian);
                    assert(out@ =~= encode_of(v@, base, big_endian, size as nat));
                },
            }
        },
        Value::Scalar(s) => {
            let x = scalar_raw(base, *s);
            push_raw(&mut out, x, element_width(base), big_endian);
            assert(out@ =~= encode_of(v@, base, big_endian, size as nat));
        },
        Value::Array(es) => {
            let e = element_width(base);
            let mut i: usize = 0;
            assert(es@.subrange(0, es@.len() as int) =~= es@);
            assert(out@ + encode_elems(base, es@, big_endian) =~= encode_elems(base, es@, big_endian));
            while i < es.len()
                invariant
                    i <= es@.len(),
                    e == elem_width(base),
                    e <= 8,
                    base != BaseType::Text,
                    base != BaseType::Bytes,
                    forall|k: int| 0 <= k < es@.len() ==> scalar_fits(base, #[trigger] es@[k]),
                    out@ + encode_elems(base, es@.subrange(i as int, es@.len() as int), big_endian)
                        == encode_elems(base, es@, big_endian),
                decreases es@.len() - i,
            {
                let ghost before = out@;
                let ghost rest = es@.subrange(i as int, es@.len() as int);
                assert(rest.drop_first() =~= es@.subrange(i + 1, es@.len() as int));
                let x = scalar_raw(base, es[i]);
                push_raw(&mut out, x, e, big_endian);
                assert(before + encode_elems(base, rest, big_endian) =~= out@ + encode_elems(
                    base,
                    es@.subrange(i + 1, es@.len() as int),
                    big_endian,
                ));
                i = i + 1;
            }
            assert(out@ + encode_elems(base, es@.subrange(i as int, es@.len() as int), big_endian)
                =~= out@);
        },
        Value::Text(w) => {
            out = w.clone();
        },
        Value::Bytes(w) => {
            out = w.clone();
        },
    }
    out
}


proof fn lemma_scalar_of_fits(b: BaseType, raw: nat)
    requires
        b != BaseType::Text,
        b != BaseType::Bytes,
        raw < cap(elem_width(b)),
    ensures
        scalar_fits(b, scalar_of(b, raw)),
{
    lemma_cap_widths(b);
}

proof fn lemma_elems_fit(b: BaseType, w: Seq<u8>, big_endian: bool)
    requires
        b != BaseType::Text,
        b != BaseType::Bytes,
        w.len() % elem_width(b) == 0,
    ensures
        elems_of(b, w, big_endian).len() * elem_width(b) == w.len(),
        forall|i: int|
            0 <= i < elems_of(b, w, big_endian).len() ==> scalar_fits(
                b,
                #[trigger] elems_of(b, w, big_endian)[i],
            ),
    decreases w.len(),
{
    let e = elem_width(b);
    if w.len() > 0 {
        lemma_multiple_step(w.len() as int, e as int);
        let h = w.subrange(0, e as int);
        let t = w.subrange(e as int, w.len() as int);
        lemma_elems_fit(b, t, big_endian);
        lemma_val_bound(h);
        lemma_scalar_of_fits(b, raw_val(h, big_endian));
        let es = elems_of(b, w, big_endian);
        assert(es.len() == 1 + elems_of(b, t, big_endian).len());
        assert(es.len() * e == e + elems_of(b, t, big_endian).len() * e) by (nonlinear_arith)
            requires
                es.len() == 1 + elems_of(b, t, big_endian).len(),
        ;
        assert forall|i: int| 0 <= i < es.len() implies scalar_fits(b, #[trigger] es[i]) by {
            if i > 0 {
                assert(es[i] == elems_of(b, t, big_endian)[i - 1]);
            }
        }
    }
}

/// Every value that decoding gives can be encoded again with the same base
/// type and size.
pub proof fn lemma_decoded_is_encodable(w: Seq<u8>, b: BaseType, big_endian: bool)
    requires
        value_of(w, b, big_endian) is Ok,
    ensures
        encodable(value_of(w, b, big_endian)->Ok_0, b, w.len()),
{
    if b != BaseType::Text && b != BaseType::Bytes {
        if w.len() == elem_width(b) {
            lemma_val_bound(w);
            lemma_scalar_of_fits(b, raw_val(w, big_endian));
        } else {
            lemma_elems_fit(b, w, big_endian);
        }
    }
}


/// The bytes of the fields `fs` laid out by `defs`, one after another.
pub open spec fn encode_fields_of(fs: Seq<(u8, ValueV)>, defs: Seq<FieldDef>, big_endian: bool) -> Seq<
    u8,
>
    decreases defs.len(),
{
    if defs.len() == 0 || fs.len() == 0 {
        seq![]
    } else {
        encode_of(fs[0].1, defs[0].base, big_endian, defs[0].size as nat) + encode_fields_of(
            fs.drop_first(),
            defs.drop_first(),
            big_endian,
        )
    }
}

proof fn lemma_fields_run_round_trip(
    b: Seq<u8>,
    pos: nat,
    defs: Seq<FieldDef>,
    i: nat,
    big_endian: bool,
    acc: Seq<(u8, ValueV)>,
)
    requires
        i <= defs.len(),
        pos <= b.len(),
        fields_run(b, pos, defs, i, big_endian, acc) is Ok,
    ensures
        ({
            let (fs, end) = fields_run(b, pos, defs, i, big_endian, acc)->Ok_0;
            &&& pos <= end <= b.len()
            &&& fs.len() == acc.len() + defs.len() - i
            &&& fs.subrange(0, acc.len() as int) == acc
            &&& forall|k: int|
                0 <= k < defs.len() - i ==> encodable(
                    #[trigger] fs[acc.len() + k].1,
                    defs[i + k].base,
                    defs[i + k].size as nat,
                )
            &&& encode_fields_of(
                fs.subrange(acc.len() as int, fs.len() as int),
                defs.subrange(i as int, defs.len() as int),
                big_endian,
            ) == b.subrange(pos as int, end as int)
        }),
    decreases defs.len() - i,
{
    if i == defs.len() {
        let (fs, end) = fields_run(b, pos, defs, i, big_endian, acc)->Ok_0;
        assert(fs.subrange(0, acc.len() as int) =~= acc);
        assert(b.subrange(pos as int, end as int) =~= Seq::<u8>::empty());
    } else {
        let fd = defs[i as int];
        let w = b.subrange(pos as int, pos + fd.size);
        let v = value_of(w, fd.base, big_endian)->Ok_0;
        let acc2 = acc.push((fd.id, v));
        lemma_fields_run_round_trip(b, (pos + fd.size) as nat, defs, i + 1, big_endian, acc2);
        lemma_value_round_trip(w, fd.base, big_endian);
        lemma_decoded_is_encodable(w, fd.base, big_endian);
        let (fs, end) = fields_run(b, pos, defs, i, big_endian, acc)->Ok_0;
        assert(fs.subrange(0, acc2.len() as int)[acc.len() as int] == (fd.id, v));
        assert(fs.subrange(0, acc.len() as int) =~= fs.subrange(0, acc2.len() as int).subrange(
            0,
            acc.len() as int,
        ));
        let tail = fs.subrange(acc.len() as int, fs.len() as int);
        let dtail = defs.subrange(i as int, defs.len() as int);
        assert(tail.drop_first() =~= fs.subrange(acc2.len() as int, fs.len() as int));
        assert(dtail.drop_first() =~= defs.subrange((i + 1) as int, defs.len() as int));
        assert(b.subrange(pos as int, end as int) =~= w + b.subrange(pos + fd.size, end as int));
        assert forall|k: int| 0 <= k < defs.len() - i implies encodable(
            #[trigger] fs[acc.len() + k].1,
            defs[i + k].base,
            defs[i + k].size as nat,
        ) by {
            if k > 0 {
                assert(fs[acc2.len() + (k - 1)] == fs[acc.len() + k]);
                assert(defs[(i + 1) + (k - 1)] == defs[i + k]);
            }
        }
    }
}

/// Decoding a data frame's fields with a definition and encoding them again
/// with that same definition gives back exactly the bytes they were decoded
/// from; every decoded field meets the encoder's precondition.
pub proof fn lemma_fields_round_trip(b: Seq<u8>, pos: nat, defs: Seq<FieldDef>, big_endian: bool)
    requires
        pos <= b.len(),
        fields_run(b, pos, defs, 0, big_endian, seq![]) is Ok,
    ensures
        ({
            let (fs, end) = fields_run(b, pos, defs, 0, big_endian, seq![])->Ok_0;
            &&& pos <= end <= b.len()
            &&& fs.len() == defs.len()
            &&& forall|k: int|
                0 <= k < defs.len() ==> encodable(
                    #[trigger] fs[k].1,
                    defs[k].base,
                    defs[k].size as nat,
                )
            &&& encode_fields_of(fs, defs, big_endian) == b.subrange(pos as int, end as int)
        }),
{
    lemma_fields_run_round_trip(b, pos, defs, 0, big_endian, seq![]);
    let (fs, end) = fields_run(b, pos, defs, 0, big_endian, seq![])->Ok_0;
    assert(fs.subrange(0, fs.len() as int) =~= fs);
    assert(defs.subrange(0, defs.len() as int) =~= defs);
    assert forall|k: int| 0 <= k < defs.len() implies encodable(
        #[trigger] fs[k].1,
        defs[k].base,
        defs[k].size as nat,
    ) by {
        assert(fs[0 + k] == fs[k]);
        assert(defs[0 + k] == defs[k]);
    }
}

/// The bytes of the fields `fs` laid out by `defs`, one after another: the
/// content of a data frame of that layout.
pub fn encode_fields(fs: &Vec<Field>, defs: &Vec<FieldDef>, big_endian: bool) -> (r: Vec<u8>)
    requires
        fs@.len() == defs@.len(),
        forall|k: int|
            0 <= k < defs@.len() ==> encodable(
                #[trigger] fs@[k].value@,
                defs@[k].base,
                defs@[k].size as nat,
            ),
    ensures
        r@ == encode_fields_of(fields_view(fs@), defs@, big_endian),
{
    let ghost fv = fields_view(fs@);
    let mut out: Vec<u8> = Vec::new();
    let mut i: usize = 0;
    assert(fv.subrange(0, fv.len() as int) =~= fv);
    assert(defs@.subrange(0, defs@.len() as int) =~= defs@);
    assert(out@ + encode_fields_of(fv, defs@, big_endian) =~= encode_fields_of(fv, defs@, big_endian));
    while i < defs.len()
        invariant
            i <= defs@.len(),
            fs@.len() == defs@.len(),
            fv == fields_view(fs@),
            forall|k: int|
                0 <= k < defs@.len() ==> encodable(
                    #[trigger] fs@[k].value@,
                    defs@[k].base,
                    defs@[k].size as nat,
                ),
            out@ + encode_fields_of(
                fv.subrange(i as int, fv.len() as int),
                defs@.subrange(i as int, defs@.len() as int),
                big_endian,
            ) == encode_fields_of(fv, defs@, big_endian),
        decreases defs@.len() - i,
    {
        let ghost ft = fv.subrange(i as int, fv.len() as int);
        let ghost dt = defs@.subrange(i as int, defs@.len() as int);
        assert(ft.drop_first() =~= fv.subrange(i + 1, fv.len() as int));
        assert(dt.drop_first() =~= defs@.subrange(i + 1, defs@.len() as int));
        let fd = defs[i];
        let bytes = encode_value(&fs[i].value, fd.base, big_endian, fd.size as usize);
        let ghost before = out@;
        let mut j: usize = 0;
        while j < bytes.len()
            invariant
                j <= bytes@.len(),
                out@ == before + bytes@.subrange(0, j as int),
            decreases bytes@.len() - j,
        {
            out.push(bytes[j]);
            j = j + 1;
            assert(out@ =~= before + bytes@.subrange(0, j as int));
        }
        assert(bytes@.subrange(0, bytes@.len() as int) =~= bytes@);
        assert(before + encode_fields_of(ft, dt, big_endian) =~= out@ + encode_fields_of(
            fv.subrange(i + 1, fv.len() as int),
            defs@.subrange(i + 1, defs@.len() as int),
            big_endian,
        ));
        i = i + 1;
    }
    assert(out@ + encode_fields_of(
        fv.subrange(i as int, fv.len() as int),
        defs@.subrange(i as int, defs@.len() as int),
        big_endian,
    ) =~= out@);
    out
}


/// The bytes that open a frame of type `t`: the short form for types below
/// `0x7F`, else `0x7F` and the type in a second byte; the high bit marks a
/// definition frame.
pub open spec fn type_header(t: u8, definition: bool) -> Seq<u8> {
    let flag: u8 = if definition {
        0x80
    } else {
        0
    };
    if t >= 0x7F {
        seq![0x7F | flag, t]
    } else {
        seq![t | flag]
    }
}

/// The bytes of the field layouts `fds`, three for each.
pub open spec fn field_defs_bytes(fds: Seq<FieldDef>) -> Seq<u8>
    decreases fds.len(),
{
    if fds.len() == 0 {
        seq![]
    } else {
        seq![fds[0].id, fds[0].size, code_of_base(fds[0].base)] + field_defs_bytes(fds.drop_first())
    }
}

/// The bytes of a definition frame of type `t` with layout `def`.
pub open spec fn definition_frame_bytes(t: u8, def: DefinitionV) -> Seq<u8> {
    type_header(t, true) + seq![
        if def.big_endian {
            1u8
        } else {
            0u8
        },
        def.fields.len() as u8,
    ] + field_defs_bytes(def.fields)
}

/// The bytes of a data frame of type `t` holding `fs`, laid out by `def`.
pub open spec fn data_frame_bytes(t: u8, fs: Seq<(u8, ValueV)>, def: DefinitionV) -> Seq<u8> {
    type_header(t, false) + encode_fields_of(fs, def.fields, def.big_endian)
}

proof fn lemma_header_canonical(b: Seq<u8>, p: int)
    requires
        0 <= p < b.len(),
        b[p] & 0x7F == 0x7F ==> p + 1 < b.len() && b[(p + 1) as int] >= 0x7F,
    ensures
        ({
            let (t, q) = frame_type_at(b, p);
            &&& q <= b.len()
            &&& b.subrange(p, q) == type_header(t, b[p] & 0x80 != 0)
        }),
{
    let d = b[p];
    let (t, q) = frame_type_at(b, p);
    if d & 0x7F == 0x7F {
        assert(d & 0x80 != 0 ==> d == (0x7F | 0x80) as u8) by (bit_vector)
            requires
                d & 0x7F == 0x7F,
        ;
        assert(d & 0x80 == 0 ==> d == (0x7F | 0) as u8) by (bit_vector)
            requires
                d & 0x7F == 0x7F,
        ;
        assert(b.subrange(p, q) =~= type_header(t, d & 0x80 != 0));
    } else {
        assert(d & 0x7F < 0x7F) by (bit_vector)
            requires
                d & 0x7F != 0x7F,
        ;
        assert(d & 0x80 != 0 ==> d == ((d & 0x7F) | 0x80) as u8) by (bit_vector);
        assert(d & 0x80 == 0 ==> d == ((d & 0x7F) | 0) as u8) by (bit_vector);
        assert(b.subrange(p, q) =~= type_header(t, d & 0x80 != 0));
    }
}

proof fn lemma_field_defs_bytes(b: Seq<u8>, q: int, n: nat)
    requires
        0 <= q,
        q + 3 * n <= b.len(),
        forall|k: int| 0 <= k < n ==> #[trigger] b[q + 3 * k + 2] <= 12,
    ensures
        field_defs_bytes(field_defs_at(b, q, n)) == b.subrange(q, q + 3 * n),
    decreases n,
{
    if n > 0 {
        assert(b[q + 3 * 0 + 2] <= 12);
        assert forall|k: int| 0 <= k < n - 1 implies #[trigger] b[(q + 3) + 3 * k + 2] <= 12 by {
            assert(b[q + 3 * (k + 1) + 2] <= 12);
            assert((q + 3) + 3 * k + 2 == q + 3 * (k + 1) + 2);
        }
        lemma_field_defs_bytes(b, q + 3, (n - 1) as nat);
        let fds = field_defs_at(b, q, n);
        assert(fds.drop_first() =~= field_defs_at(b, q + 3, (n - 1) as nat));
        let c = b[q + 2];
        assert(code_of_base(base_of_code(c)) == c);
        assert(field_defs_bytes(fds) =~= b.subrange(q, q + 3 * n));
    }
}

/// A definition frame in canonical form (short type form below `0x7F`,
/// byte order `0` or `1`, known base codes) is exactly the encoding of the
/// definition it decodes to.
pub proof fn lemma_definition_frame_round_trip(b: Seq<u8>, p: nat, table: TableV)
    requires
        p < b.len(),
        table.len() == 256,
        b[p as int] & 0x80 != 0,
        b[p as int] & 0x7F == 0x7F ==> p + 1 < b.len() && b[(p + 1) as int] >= 0x7F,
        frame_at(b, p, table) is Ok,
        b[frame_type_at(b, p as int).1] <= 1,
        forall|k: int|
            0 <= k < b[frame_type_at(b, p as int).1 + 1] ==> #[trigger] b[frame_type_at(
                b,
                p as int,
            ).1 + 2 + 3 * k + 2] <= 12,
    ensures
        ({
            let (t, q) = frame_type_at(b, p as int);
            let f = frame_at(b, p, table)->Ok_0;
            &&& f.table[t as int] is Some
            &&& definition_frame_bytes(t, f.table[t as int]->Some_0) == b.subrange(
                p as int,
                f.next as int,
            )
        }),
{
    let (t, q) = frame_type_at(b, p as int);
    lemma_header_canonical(b, p as int);
    let n = b[q + 1] as nat;
    assert(0 <= t < 256) by (bit_vector);
    lemma_field_defs_bytes(b, q + 2, n);
    let f = frame_at(b, p, table)->Ok_0;
    let def = f.table[t as int]->Some_0;
    assert(def.fields.len() == n);
    assert(b.subrange(q, q + 2) =~= seq![
        if def.big_endian {
            1u8
        } else {
            0u8
        },
        def.fields.len() as u8,
    ]);
    assert(b.subrange(p as int, f.next as int) =~= b.subrange(p as int, q) + b.subrange(q, q + 2)
        + b.subrange(q + 2, q + 2 + 3 * n));
}

/// A data frame in canonical form is exactly the encoding, with its
/// definition, of the record it decodes to.
pub proof fn lemma_data_frame_round_trip(b: Seq<u8>, p: nat, table: TableV)
    requires
        p < b.len(),
        table.len() == 256,
        b[p as int] & 0x80 == 0,
        b[p as int] & 0x7F == 0x7F ==> p + 1 < b.len() && b[(p + 1) as int] >= 0x7F,
        frame_at(b, p, table) is Ok,
    ensures
        ({
            let (t, q) = frame_type_at(b, p as int);
            let f = frame_at(b, p, table)->Ok_0;
            &&& table[t as int] is Some
            &&& f.record is Some
            &&& data_frame_bytes(t, f.record->Some_0.fields, table[t as int]->Some_0) == b.subrange(
                p as int,
                f.next as int,
            )
        }),
{
    let (t, q) = frame_type_at(b, p as int);
    lemma_header_canonical(b, p as int);
    assert(0 <= t < 256) by (bit_vector);
    let def = table[t as int]->Some_0;
    lemma_fields_round_trip(b, q as nat, def.fields, def.big_endian);
    let f = frame_at(b, p, table)->Ok_0;
    assert(b.subrange(p as int, f.next as int) =~= b.subrange(p as int, q) + b.subrange(
        q,
        f.next as int,
    ));
}

fn push_type_header(out: &mut Vec<u8>, t: u8, definition: bool)
    ensures
        final(out)@ == old(out)@ + type_header(t, definition),
{
    let flag: u8 = if definition {
        0x80
    } else {
        0
    };
    if t >= 0x7F {
        out.push(0x7F | flag);
        out.push(t);
        assert(final(out)@ =~= old(out)@ + type_header(t, definition));
    } else {
        out.push(t | flag);
        assert(final(out)@ =~= old(out)@ + type_header(t, definition));
    }
}

/// The bytes of a definition frame of type `t` with layout `def`.
pub fn encode_definition_frame(t: u8, def: &Definition) -> (r: Vec<u8>)
    requires
        def.fields@.len() <= 255,
    ensures
        r@ == definition_frame_bytes(t, def@),
{
    let mut out: Vec<u8> = Vec::new();
    push_type_header(&mut out, t, true);
    out.push(if def.big_endian {
        1
    } else {
        0
    });
    out.push(def.fields.len() as u8);
    let ghost head = out@;
    let ghost fds = def.fields@;
    let mut i: usize = 0;
    assert(fds.subrange(0, fds.len() as int) =~= fds);
    assert(head + field_defs_bytes(fds) =~= out@ + field_defs_bytes(fds.subrange(0, fds.len() as int)));
    while i < def.fields.len()
        invariant
            i <= fds.len(),
            fds == def.fields@,
            head + field_defs_bytes(fds) == out@ + field_defs_bytes(
                fds.subrange(i as int, fds.len() as int),
            ),
        decreases fds.len() - i,
    {
        let ghost rest = fds.subrange(i as int, fds.len() as int);
        assert(rest.drop_first() =~= fds.subrange(i + 1, fds.len() as int));
        let fd = def.fields[i];
        let ghost before = out@;
        out.push(fd.id);
        out.push(fd.size);
        out.push(base_code(fd.base));
        assert(before + field_defs_bytes(rest) =~= out@ + field_defs_bytes(
            fds.subrange(i + 1, fds.len() as int),
        ));
        i = i + 1;
    }
    assert(out@ + field_defs_bytes(fds.subrange(i as int, fds.len() as int)) =~= out@);
    assert(definition_frame_bytes(t, def@) =~= head + field_defs_bytes(fds));
    out
}

/// The bytes of a data frame of type `t` holding `fs`, laid out by `def`.
pub fn encode_data_frame(t: u8, fs: &Vec<Field>, def: &Definition) -> (r: Vec<u8>)
    requires
        fs@.len() == def.fields@.len(),
        forall|k: int|
            0 <= k < def.fields@.len() ==> encodable(
                #[trigger] fs@[k].value@,
                def.fields@[k].base,
                def.fields@[k].size as nat,
            ),
    ensures
        r@ == data_frame_bytes(t, fields_view(fs@), def@),
{
    let mut out: Vec<u8> = Vec::new();
    push_type_header(&mut out, t, false);
    let body = encode_fields(fs, &def.fields, def.big_endian);
    let ghost head = out@;
    let mut j: usize = 0;
    while j < body.len()
        invariant
            j <= body@.len(),
            out@ == head + body@.subrange(0, j as int),
        decreases body@.len() - j,
    {
        out.push(body[j]);
        j = j + 1;
        assert(out@ =~= head + body@.subrange(0, j as int));
    }
    assert(body@.subrange(0, body@.len() as int) =~= body@);
    assert(head =~= type_header(t, false));
    out
}


/// The frame at `p` is written in canonical form: the long type form only
/// for types from `0x7F` on and, for a definition frame, byte order `0` or
/// `1` and known base codes.
pub open spec fn frame_canonical(b: Seq<u8>, p: nat) -> bool {
    let q = frame_type_at(b, p as int).1;
    &&& (b[p as int] & 0x7F == 0x7F ==> p + 1 < b.len() && b[(p + 1) as int] >= 0x7F)
    &&& (b[p as int] & 0x80 != 0 ==> b[q] <= 1 && forall|k: int|
        0 <= k < b[q + 1] ==> #[trigger] b[q + 2 + 3 * k + 2] <= 12)
}

/// Every frame of the body `b` from `p` on decodes, and each is canonical.
pub open spec fn canonical_run(b: Seq<u8>, p: nat, table: TableV) -> bool
    decreases b.len() - p,
{
    if p >= b.len() {
        true
    } else {
        match frame_at(b, p, table) {
            Err(_) => false,
            Ok(f) => f.next > p && f.next <= b.len() && frame_canonical(b, p) && canonical_run(
                b,
                f.next,
                f.table,
            ),
        }
    }
}

/// The frames of the body `b` from `p` on, each decoded and encoded again:
/// a definition frame from the definition it installs, a data frame from its
/// record and the definition in force.
pub open spec fn reencode_run(b: Seq<u8>, p: nat, table: TableV) -> Seq<u8>
    decreases b.len() - p,
{
    if p >= b.len() {
        seq![]
    } else {
        match frame_at(b, p, table) {
            Err(_) => seq![],
            Ok(f) => if f.next <= p || f.next > b.len() {
                seq![]
            } else {
                let t = frame_type_at(b, p as int).0;
                let bytes = match f.record {
                    None => definition_frame_bytes(t, f.table[t as int]->Some_0),
                    Some(r) => data_frame_bytes(t, r.fields, table[t as int]->Some_0),
                };
                bytes + reencode_run(b, f.next, f.table)
            },
        }
    }
}

proof fn lemma_reencode_run(b: Seq<u8>, p: nat, table: TableV, acc: Seq<RecordV>)
    requires
        p <= b.len(),
        table.len() == 256,
        canonical_run(b, p, table),
    ensures
        frames_run(b, p, table, acc) is Ok,
        reencode_run(b, p, table) == b.subrange(p as int, b.len() as int),
    decreases b.len() - p,
{
    if p >= b.len() {
        assert(b.subrange(p as int, b.len() as int) =~= Seq::<u8>::empty());
    } else {
        let f = frame_at(b, p, table)->Ok_0;
        let t = frame_type_at(b, p as int).0;
        assert(0 <= t < 256) by (bit_vector);
        if b[p as int] & 0x80 != 0 {
            lemma_definition_frame_round_trip(b, p, table);
        } else {
            lemma_data_frame_round_trip(b, p, table);
        }
        assert(f.table.len() == 256);
        let acc2 = match f.record {
            Some(r) => acc.push(r),
            None => acc,
        };
        lemma_reencode_run(b, f.next, f.table, acc2);
        assert(b.subrange(p as int, b.len() as int) =~= b.subrange(p as int, f.next as int)
            + b.subrange(f.next as int, b.len() as int));
    }
}

/// A body whose frames are all canonical decodes, and encoding each decoded
/// frame again, in order and with the definitions in force at it, gives back
/// the body byte for byte.
pub proof fn lemma_body_round_trip(b: Seq<u8>)
    requires
        canonical_run(b, 0, empty_table()),
    ensures
        body_records(b) is Ok,
        reencode_run(b, 0, empty_table()) == b,
{
    lemma_reencode_run(b, 0, empty_table(), seq![]);
    assert(b.subrange(0, b.len() as int) =~= b);
}


/// A segment that decodes whole with both checksums right, and whose frames
/// are canonical, is given back byte for byte by framing again the frames
/// encoded from what was decoded.
pub proof fn lemma_segment_round_trip(buf: Seq<u8>)
    requires
        decode_step(buf) is Ok,
        decode_step(buf)->Ok_0.consumed == buf.len(),
        decode_step(buf)->Ok_0.warning is None,
        canonical_run(buf.subrange(HEADER_SIZE as int, buf.len() - 1), 0, empty_table()),
    ensures
        segment_bytes(
            buf[1],
            reencode_run(buf.subrange(HEADER_SIZE as int, buf.len() - 1), 0, empty_table()),
        ) == buf,
{
    lemma_body_round_trip(buf.subrange(HEADER_SIZE as int, buf.len() - 1));
    lemma_segment_bytes_of_decoded(buf);
}

} // verus!
