//! The signed message envelope: a fixed header, a fixed body of declared
//! fields, variable-length segment data, and a trailing signature.
//!
//! Wire layout: `[version:1][network_id:1][service_id:2][message_id:2]
//! [body_size:4][fixed body][segment data][signature:64]`, all integers
//! little-endian. A segment's fixed slot holds its absolute start offset and
//! its length, four bytes each.
use vstd::prelude::*;

verus! {

/// Size of the fixed header in bytes.
pub const HEADER_SIZE: usize = 10;

/// Size of the trailing signature in bytes.
pub const SIGNATURE_SIZE: usize = 64;

/// `256` raised to `n`.
pub open spec fn pow256(n: nat) -> nat
    decreases n,
{
    if n == 0 {
        1
    } else {
        256 * pow256((n - 1) as nat)
    }
}

/// The `n` low-order bytes of `v`, least significant first.
pub open spec fn le_bytes(v: nat, n: nat) -> Seq<u8>
    decreases n,
{
    if n == 0 {
        Seq::empty()
    } else {
        seq![(v % 256) as u8] + le_bytes(v / 256, (n - 1) as nat)
    }
}

/// The number that bytes denote when read least significant first.
pub open spec fn le_value(s: Seq<u8>) -> nat
    decreases s.len(),
{
    if s.len() == 0 {
        0
    } else {
        s[0] as nat + 256 * le_value(s.drop_first())
    }
}

pub proof fn lemma_pow256_positive(n: nat)
    ensures
        pow256(n) >= 1,
    decreases n,
{
    if n > 0 {
        lemma_pow256_positive((n - 1) as nat);
    }
}

pub proof fn lemma_pow256_small()
    ensures
        pow256(2) == 0x1_0000,
        pow256(4) == 0x1_0000_0000,
        pow256(8) == 0x1_0000_0000_0000_0000,
{
    reveal_with_fuel(pow256, 9);
}

pub proof fn lemma_pow256_mono(m: nat, n: nat)
    requires
        m <= n,
    ensures
        pow256(m) <= pow256(n),
    decreases n,
{
    if m < n {
        lemma_pow256_mono(m, (n - 1) as nat);
        lemma_pow256_positive((n - 1) as nat);
    }
}

pub proof fn lemma_le_len(v: nat, n: nat)
    ensures
        le_bytes(v, n).len() == n,
    decreases n,
{
    if n > 0 {
        lemma_le_len(v / 256, (n - 1) as nat);
    }
}

pub proof fn lemma_le_value_bound(s: Seq<u8>)
    ensures
        le_value(s) < pow256(s.len()),
    decreases s.len(),
{
    if s.len() > 0 {
        lemma_le_value_bound(s.drop_first());
    }
}

/// Reading back the bytes of a value that fits gives the value.
pub proof fn lemma_le_round_trip(v: nat, n: nat)
    requires
        v < pow256(n),
    ensures
        le_value(le_bytes(v, n)) == v,
    decreases n,
{
    if n > 0 {
        let s = le_bytes(v, n);
        assert(s.drop_first() =~= le_bytes(v / 256, (n - 1) as nat));
        lemma_le_round_trip(v / 256, (n - 1) as nat);
    }
}

/// Writing back the value of some bytes gives the bytes.
pub proof fn lemma_le_bytes_of_value(s: Seq<u8>)
    ensures
        le_bytes(le_value(s), s.len()) == s,
    decreases s.len(),
{
    if s.len() > 0 {
        let v = le_value(s);
        lemma_le_bytes_of_value(s.drop_first());
        assert(v % 256 == s[0] as nat);
        assert(v / 256 == le_value(s.drop_first()));
        assert(le_bytes(v, s.len()) =~= s);
    }
}

/// Appends the `n` low-order bytes of `v` to `buf`, least significant first.
fn write_le(buf: &mut Vec<u8>, v: u64, n: usize)
    ensures
        final(buf)@ == old(buf)@ + le_bytes(v as nat, n as nat),
    decreases n,
{
    if n > 0 {
        buf.push((v % 256) as u8);
        write_le(buf, v / 256, n - 1);
        assert(final(buf)@ =~= old(buf)@ + le_bytes(v as nat, n as nat));
    }
}

/// Reads `n` bytes at `pos` as a little-endian number.
fn read_le(buf: &Vec<u8>, pos: usize, n: usize) -> (r: u64)
    requires
        n <= 8,
        pos + n <= buf@.len(),
    ensures
        r == le_value(buf@.subrange(pos as int, pos + n)),
    decreases n,
{
    if n == 0 {
        0
    } else {
        let _len = buf.len();
        let rest = read_le(buf, pos + 1, n - 1);
        proof {
            let s = buf@.subrange(pos as int, pos + n);
            assert(s.drop_first() =~= buf@.subrange(pos + 1, pos + n));
            lemma_le_value_bound(buf@.subrange(pos + 1, pos + n));
            lemma_pow256_mono((n - 1) as nat, 7);
            reveal_with_fuel(pow256, 8);
        }
        buf[pos] as u64 + 256 * rest
    }
}

/// How a declared field occupies its fixed slot.
#[derive(Clone, Copy, Debug, PartialEq, Eq, Structural)]
pub enum FieldKind {
    /// An unsigned little-endian integer as wide as its slot (1 to 8 bytes).
    Int,
    /// A byte string: the 8-byte slot points into the segment data.
    Segment,
}

/// A declared field: its kind and its slot `[from, to)` within the body.
#[derive(Clone, Copy, Debug, PartialEq, Eq, Structural)]
pub struct FieldDecl {
    pub kind: FieldKind,
    pub from: u32,
    pub to: u32,
}

/// The static description of one message type.
#[derive(Clone, Debug, PartialEq, Eq)]
pub struct MessageLayout {
    pub service_id: u16,
    pub message_id: u16,
    pub body_size: u32,
    pub fields: Vec<FieldDecl>,
}

/// The fixed header of an envelope.
#[derive(Clone, Copy, Debug, PartialEq, Eq, Structural)]
pub struct Header {
    pub protocol_version: u8,
    pub network_id: u8,
    pub service_id: u16,
    pub message_id: u16,
}

/// The signature that closes an envelope.
#[derive(Clone, Copy, Debug, PartialEq, Eq)]
pub struct Signature(pub [u8; 64]);

/// The value of one field.
#[derive(Clone, Debug, PartialEq, Eq)]
pub enum FieldValue {
    Int(u64),
    Bytes(Vec<u8>),
}

/// The mathematical value of one field.
pub enum FieldData {
    Int(u64),
    Bytes(Seq<u8>),
}

impl View for FieldValue {
    type V = FieldData;

    open spec fn view(&self) -> FieldData {
        match self {
            FieldValue::Int(x) => FieldData::Int(*x),
            FieldValue::Bytes(b) => FieldData::Bytes(b@),
        }
    }
}

/// The values of a sequence of fields.
pub open spec fn data_view(v: Seq<FieldValue>) -> Seq<FieldData> {
    v.map_values(|x: FieldValue| x@)
}

/// Width of a field's fixed slot.
pub open spec fn width(d: FieldDecl) -> nat {
    (d.to - d.from) as nat
}

pub open spec fn decl_ok(d: FieldDecl) -> bool {
    &&& d.from < d.to
    &&& match d.kind {
        FieldKind::Int => d.to - d.from <= 8,
        FieldKind::Segment => d.to - d.from == 8,
    }
}

/// A layout whose slots tile the body from its first byte to its last, and
/// whose envelope offsets fit in 32 bits.
pub open spec fn layout_ok(l: MessageLayout) -> bool {
    let f = l.fields@;
    &&& forall|i: int| 0 <= i < f.len() ==> decl_ok(#[trigger] f[i])
    &&& f.len() == 0 ==> l.body_size == 0
    &&& f.len() > 0 ==> f[0].from == 0 && f.last().to == l.body_size
    &&& forall|i: int| 0 <= i < f.len() - 1 ==> #[trigger] f[i].to == f[i + 1].from
    &&& HEADER_SIZE + l.body_size + SIGNATURE_SIZE <= u32::MAX
}

/// Each value has its field's kind, and each integer fits its slot.
pub open spec fn conforms(fields: Seq<FieldDecl>, vals: Seq<FieldData>) -> bool {
    &&& vals.len() == fields.len()
    &&& forall|i: int| 0 <= i < vals.len() ==> value_fits(fields[i], #[trigger] vals[i])
}

/// A value has its field's kind, and an integer fits its slot.
pub open spec fn value_fits(d: FieldDecl, v: FieldData) -> bool {
    match v {
        FieldData::Int(x) => d.kind == FieldKind::Int && x < pow256(width(d)),
        FieldData::Bytes(_) => d.kind == FieldKind::Segment,
    }
}

/// The segment data that a value contributes.
pub open spec fn data_of(v: FieldData) -> Seq<u8> {
    match v {
        FieldData::Int(_) => Seq::empty(),
        FieldData::Bytes(b) => b,
    }
}

/// The segment data of all values, in declaration order.
pub open spec fn data_bytes(vals: Seq<FieldData>) -> Seq<u8>
    decreases vals.len(),
{
    if vals.len() == 0 {
        Seq::empty()
    } else {
        data_bytes(vals.drop_last()) + data_of(vals.last())
    }
}

/// The fixed slot of a value whose segment data would start at `offset`.
pub open spec fn slot(d: FieldDecl, v: FieldData, offset: nat) -> Seq<u8> {
    match v {
        FieldData::Int(x) => le_bytes(x as nat, width(d)),
        FieldData::Bytes(b) => le_bytes(offset, 4) + le_bytes(b.len(), 4),
    }
}

/// The fixed body, with segment data starting at `base`.
pub open spec fn body_bytes(fields: Seq<FieldDecl>, vals: Seq<FieldData>, base: nat) -> Seq<u8>
    decreases vals.len(),
{
    if vals.len() == 0 || fields.len() == 0 {
        Seq::empty()
    } else {
        body_bytes(fields.drop_last(), vals.drop_last(), base) + slot(
            fields.last(),
            vals.last(),
            base + data_bytes(vals.drop_last()).len(),
        )
    }
}

pub open spec fn header_bytes(h: Header, body_size: u32) -> Seq<u8> {
    seq![h.protocol_version, h.network_id] + le_bytes(h.service_id as nat, 2) + le_bytes(
        h.message_id as nat,
        2,
    ) + le_bytes(body_size as nat, 4)
}

/// Where segment data starts.
pub open spec fn data_start(l: MessageLayout) -> nat {
    (HEADER_SIZE + l.body_size) as nat
}

/// What a signature covers: every byte of the envelope before it.
pub open spec fn signed_part(h: Header, l: MessageLayout, vals: Seq<FieldData>) -> Seq<u8> {
    header_bytes(h, l.body_size) + body_bytes(l.fields@, vals, data_start(l)) + data_bytes(vals)
}

/// The whole envelope.
pub open spec fn encoding(h: Header, l: MessageLayout, vals: Seq<FieldData>, sig: Seq<u8>) -> Seq<u8> {
    signed_part(h, l, vals) + sig
}

/// The envelope's offsets fit in 32 bits.
pub open spec fn fits(l: MessageLayout, vals: Seq<FieldData>) -> bool {
    data_start(l) + data_bytes(vals).len() + SIGNATURE_SIZE <= u32::MAX
}

/// The header of a message of layout `l`.
pub open spec fn header_for(l: MessageLayout, protocol_version: u8, network_id: u8) -> Header {
    Header { protocol_version, network_id, service_id: l.service_id, message_id: l.message_id }
}

pub proof fn lemma_data_prefix(vals: Seq<FieldData>, k: int)
    requires
        0 <= k <= vals.len(),
    ensures
        data_bytes(vals.take(k)).len() <= data_bytes(vals).len(),
        data_bytes(vals).subrange(0, data_bytes(vals.take(k)).len() as int) == data_bytes(
            vals.take(k),
        ),
    decreases vals.len() - k,
{
    if k == vals.len() {
        assert(vals.take(k) =~= vals);
        assert(data_bytes(vals).subrange(0, data_bytes(vals).len() as int) =~= data_bytes(vals));
    } else {
        let d = vals.drop_last();
        lemma_data_prefix(d, k);
        assert(d.take(k) =~= vals.take(k));
        let p = data_bytes(vals.take(k));
        assert(data_bytes(vals).subrange(0, p.len() as int) =~= data_bytes(d).subrange(
            0,
            p.len() as int,
        ));
    }
}

proof fn lemma_take_step<T>(s: Seq<T>, i: int)
    requires
        0 <= i < s.len(),
    ensures
        s.take(i + 1).drop_last() == s.take(i),
        s.take(i + 1).last() == s[i],
        s.take(i + 1).len() == i + 1,
{
    assert(s.take(i + 1).drop_last() =~= s.take(i));
}

/// One more field extends the body by its slot and the data by its bytes.
proof fn lemma_steps(fields: Seq<FieldDecl>, vals: Seq<FieldData>, i: int, base: nat)
    requires
        0 <= i < vals.len(),
        vals.len() == fields.len(),
    ensures
        body_bytes(fields.take(i + 1), vals.take(i + 1), base) == body_bytes(
            fields.take(i),
            vals.take(i),
            base,
        ) + slot(fields[i], vals[i], base + data_bytes(vals.take(i)).len()),
        data_bytes(vals.take(i + 1)) == data_bytes(vals.take(i)) + data_of(vals[i]),
{
    lemma_take_step(fields, i);
    lemma_take_step(vals, i);
}

/// Appends the fixed slot of `v` to `buf`, its segment data starting at `cursor`.
fn write_slot(buf: &mut Vec<u8>, d: FieldDecl, v: &FieldValue, cursor: usize)
    requires
        decl_ok(d),
    ensures
        final(buf)@ == old(buf)@ + slot(d, v@, cursor as nat),
{
    match v {
        FieldValue::Int(x) => {
            write_le(buf, *x, (d.to - d.from) as usize);
        },
        FieldValue::Bytes(b) => {
            write_le(buf, cursor as u64, 4);
            write_le(buf, b.len() as u64, 4);
            assert(final(buf)@ =~= old(buf)@ + slot(d, v@, cursor as nat));
        },
    }
}

/// Appends the bytes of `b` to `buf`.
fn append_bytes(buf: &mut Vec<u8>, b: &Vec<u8>)
    ensures
        final(buf)@ == old(buf)@ + b@,
{
    let mut j: usize = 0;
    while j < b.len()
        invariant
            j <= b@.len(),
            buf@ == old(buf)@ + b@.take(j as int),
        decreases b@.len() - j,
    {
        buf.push(b[j]);
        j += 1;
        assert(buf@ =~= old(buf)@ + b@.take(j as int));
    }
    assert(b@.take(b@.len() as int) =~= b@);
}

/// Appends the header of an envelope.
fn write_header(buf: &mut Vec<u8>, h: Header, body_size: u32)
    ensures
        final(buf)@ == old(buf)@ + header_bytes(h, body_size),
{
    buf.push(h.protocol_version);
    buf.push(h.network_id);
    write_le(buf, h.service_id as u64, 2);
    write_le(buf, h.message_id as u64, 2);
    write_le(buf, body_size as u64, 4);
    assert(final(buf)@ =~= old(buf)@ + header_bytes(h, body_size));
}

/// Appends the fixed slots of all values, segment data starting at `base`.
fn write_body(buf: &mut Vec<u8>, fields: &Vec<FieldDecl>, values: &Vec<FieldValue>, base: usize)
    requires
        forall|j: int| 0 <= j < fields@.len() ==> decl_ok(#[trigger] fields@[j]),
        values@.len() == fields@.len(),
        base + data_bytes(data_view(values@)).len() <= u32::MAX,
    ensures
        final(buf)@ == old(buf)@ + body_bytes(fields@, data_view(values@), base as nat),
{
    let ghost vals = data_view(values@);
    let ghost start = buf@;
    let mut cursor: usize = base;
    let mut i: usize = 0;
    while i < values.len()
        invariant
            i <= values@.len(),
            vals == data_view(values@),
            forall|j: int| 0 <= j < fields@.len() ==> decl_ok(#[trigger] fields@[j]),
            values@.len() == fields@.len(),
            base + data_bytes(vals).len() <= u32::MAX,
            buf@ == start + body_bytes(fields@.take(i as int), vals.take(i as int), base as nat),
            cursor == base + data_bytes(vals.take(i as int)).len(),
        decreases values@.len() - i,
    {
        let d = fields[i];
        let v = &values[i];
        proof {
            lemma_steps(fields@, vals, i as int, base as nat);
            lemma_data_prefix(vals, i as int + 1);
            assert(decl_ok(fields@[i as int]));
            assert(vals[i as int] == values@[i as int]@);
        }
        write_slot(buf, d, v, cursor);
        if let FieldValue::Bytes(b) = v {
            cursor = cursor + b.len();
        }
        assert(buf@ =~= start + body_bytes(fields@.take(i + 1), vals.take(i + 1), base as nat));
        i += 1;
    }
    assert(fields@.take(i as int) =~= fields@);
    assert(vals.take(i as int) =~= vals);
}

/// Appends the segment data of all values in declaration order.
fn write_data(buf: &mut Vec<u8>, values: &Vec<FieldValue>)
    ensures
        final(buf)@ == old(buf)@ + data_bytes(data_view(values@)),
{
    let ghost vals = data_view(values@);
    let ghost start = buf@;
    let mut i: usize = 0;
    while i < values.len()
        invariant
            i <= values@.len(),
            vals == data_view(values@),
            buf@ == start + data_bytes(vals.take(i as int)),
        decreases values@.len() - i,
    {
        proof {
            lemma_take_step(vals, i as int);
            assert(vals[i as int] == values@[i as int]@);
        }
        match &values[i] {
            FieldValue::Int(_) => {},
            FieldValue::Bytes(b) => {
                append_bytes(buf, b);
            },
        }
        assert(buf@ =~= start + data_bytes(vals.take(i + 1)));
        i += 1;
    }
    assert(vals.take(i as int) =~= vals);
}

/// The bytes that a signature of this message covers.
pub fn signing_bytes(
    layout: &MessageLayout,
    protocol_version: u8,
    network_id: u8,
    values: &Vec<FieldValue>,
) -> (r: Vec<u8>)
    requires
        layout_ok(*layout),
        conforms(layout.fields@, data_view(values@)),
        fits(*layout, data_view(values@)),
    ensures
        r@ == signed_part(
            header_for(*layout, protocol_version, network_id),
            *layout,
            data_view(values@),
        ),
{
    let h = Header {
        protocol_version,
        network_id,
        service_id: layout.service_id,
        message_id: layout.message_id,
    };
    let ghost vals = data_view(values@);
    let mut buf: Vec<u8> = Vec::new();
    write_header(&mut buf, h, layout.body_size);
    let ghost a = buf@;
    assert(a =~= header_bytes(h, layout.body_size));
    write_body(&mut buf, &layout.fields, values, HEADER_SIZE + layout.body_size as usize);
    let ghost b = buf@;
    assert(b == a + body_bytes(layout.fields@, vals, data_start(*layout)));
    write_data(&mut buf, values);
    assert(buf@ == b + data_bytes(vals));
    buf
}

/// Slots follow each other from the start of the body.
pub open spec fn packed(fields: Seq<FieldDecl>) -> bool {
    &&& forall|i: int| 0 <= i < fields.len() ==> decl_ok(#[trigger] fields[i])
    &&& fields.len() > 0 ==> fields[0].from == 0
    &&& forall|i: int| 0 <= i < fields.len() - 1 ==> #[trigger] fields[i].to == fields[i + 1].from
}

/// Where the slots of the first `k` fields end within the body.
pub open spec fn slots_end(fields: Seq<FieldDecl>, k: int) -> int {
    if k == 0 {
        0
    } else {
        fields[k - 1].to as int
    }
}

proof fn lemma_slot_len(d: FieldDecl, v: FieldData, offset: nat)
    requires
        decl_ok(d),
        value_fits(d, v),
    ensures
        slot(d, v, offset).len() == width(d),
{
    match v {
        FieldData::Int(x) => lemma_le_len(x as nat, width(d)),
        FieldData::Bytes(b) => {
            lemma_le_len(offset, 4);
            lemma_le_len(b.len(), 4);
        },
    }
}

proof fn lemma_body_len(fields: Seq<FieldDecl>, vals: Seq<FieldData>, base: nat, k: int)
    requires
        packed(fields),
        conforms(fields, vals),
        0 <= k <= fields.len(),
    ensures
        body_bytes(fields.take(k), vals.take(k), base).len() == slots_end(fields, k),
    decreases k,
{
    if k > 0 {
        lemma_body_len(fields, vals, base, k - 1);
        lemma_steps(fields, vals, k - 1, base);
        assert(decl_ok(fields[k - 1]));
        assert(value_fits(fields[k - 1], vals[k - 1]));
        lemma_slot_len(
            fields[k - 1],
            vals[k - 1],
            base + data_bytes(vals.take(k - 1)).len(),
        );
        if k > 1 {
            assert(fields[k - 2].to == fields[k - 1].from);
        }
    }
}

proof fn lemma_body_prefix(fields: Seq<FieldDecl>, vals: Seq<FieldData>, base: nat, k: int)
    requires
        fields.len() == vals.len(),
        0 <= k <= vals.len(),
    ensures
        body_bytes(fields.take(k), vals.take(k), base).len() <= body_bytes(
            fields,
            vals,
            base,
        ).len(),
        body_bytes(fields, vals, base).subrange(
            0,
            body_bytes(fields.take(k), vals.take(k), base).len() as int,
        ) == body_bytes(fields.take(k), vals.take(k), base),
    decreases vals.len() - k,
{
    let full = body_bytes(fields, vals, base);
    if k == vals.len() {
        assert(vals.take(k) =~= vals);
        assert(fields.take(k) =~= fields);
        assert(full.subrange(0, full.len() as int) =~= full);
    } else {
        let df = fields.drop_last();
        let dv = vals.drop_last();
        lemma_body_prefix(df, dv, base, k);
        assert(df.take(k) =~= fields.take(k));
        assert(dv.take(k) =~= vals.take(k));
        let p = body_bytes(fields.take(k), vals.take(k), base);
        assert(full.subrange(0, p.len() as int) =~= body_bytes(df, dv, base).subrange(
            0,
            p.len() as int,
        ));
    }
}

/// The slot of field `i` stands at `[from, to)` within the body.
#[verifier::rlimit(60)]
proof fn lemma_slot_at(fields: Seq<FieldDecl>, vals: Seq<FieldData>, base: nat, i: int)
    requires
        packed(fields),
        conforms(fields, vals),
        0 <= i < fields.len(),
    ensures
        body_bytes(fields, vals, base).subrange(fields[i].from as int, fields[i].to as int)
            == slot(fields[i], vals[i], base + data_bytes(vals.take(i)).len()),
{
    let s = slot(fields[i], vals[i], base + data_bytes(vals.take(i)).len());
    let before = body_bytes(fields.take(i), vals.take(i), base);
    let pre = body_bytes(fields.take(i + 1), vals.take(i + 1), base);
    let full = body_bytes(fields, vals, base);
    lemma_steps(fields, vals, i, base);
    assert(pre == before + s);
    lemma_body_len(fields, vals, base, i);
    lemma_body_len(fields, vals, base, i + 1);
    lemma_body_prefix(fields, vals, base, i + 1);
    if i > 0 {
        assert(fields[i - 1].to == fields[i].from);
    }
    assert(before.len() == fields[i].from);
    assert(pre.len() == fields[i].to);
    assert(full.subrange(0, pre.len() as int) == pre);
    assert(full.subrange(fields[i].from as int, fields[i].to as int) =~= pre.subrange(
        fields[i].from as int,
        fields[i].to as int,
    ));
    assert(pre.subrange(fields[i].from as int, fields[i].to as int) =~= s);
}

/// The segment data of field `i` follows that of the fields before it.
proof fn lemma_data_at(vals: Seq<FieldData>, i: int)
    requires
        0 <= i < vals.len(),
    ensures
        data_bytes(vals.take(i + 1)) == data_bytes(vals.take(i)) + data_of(vals[i]),
        data_bytes(vals.take(i + 1)).len() <= data_bytes(vals).len(),
        data_bytes(vals).subrange(
            data_bytes(vals.take(i)).len() as int,
            data_bytes(vals.take(i + 1)).len() as int,
        ) == data_of(vals[i]),
{
    lemma_take_step(vals, i);
    lemma_data_prefix(vals, i + 1);
    let a = data_bytes(vals.take(i));
    let b = data_bytes(vals.take(i + 1));
    assert(data_bytes(vals).subrange(a.len() as int, b.len() as int) =~= b.subrange(
        a.len() as int,
        b.len() as int,
    ));
    assert(b.subrange(a.len() as int, b.len() as int) =~= data_of(vals[i]));
}

/// Why a buffer is not a well-formed envelope of the expected type.
#[derive(Clone, Copy, Debug, PartialEq, Eq, Structural)]
pub enum CodecError {
    /// Shorter than header, declared body and signature together.
    TooShort,
    /// The header's body size is not the layout's.
    BodySizeMismatch,
    /// The header's service id is not the layout's.
    ServiceIdMismatch,
    /// The header's message id is not the layout's.
    MessageIdMismatch,
    /// A segment does not start where the previous segment data ended.
    SegmentMisplaced,
    /// A segment reaches into the signature or past the buffer.
    SegmentOutOfBounds,
    /// Bytes stand between the last segment data and the signature.
    TrailingData,
    /// Longer than 32-bit offsets can address.
    TooLong,
}

/// The bytes of one encoded envelope.
#[derive(Clone, Debug, PartialEq, Eq)]
pub struct RawMessage {
    bytes: Vec<u8>,
}

impl View for RawMessage {
    type V = Seq<u8>;

    closed spec fn view(&self) -> Seq<u8> {
        self.bytes@
    }
}

impl RawMessage {
    /// Wraps encoded bytes.
    pub fn new(bytes: Vec<u8>) -> (r: Self)
        ensures
            r@ == bytes@,
    {
        RawMessage { bytes }
    }

    /// The encoded bytes.
    pub fn as_bytes(&self) -> (r: &Vec<u8>)
        ensures
            r@ == self@,
    {
        &self.bytes
    }
}

/// `bytes` holds, at `base` onwards, the fixed slots and segment data of
/// `vals` with the data ending at or before `end`.
pub open spec fn fields_encoded(
    bytes: Seq<u8>,
    fields: Seq<FieldDecl>,
    base: nat,
    end: nat,
    vals: Seq<FieldData>,
) -> bool {
    &&& conforms(fields, vals)
    &&& base + data_bytes(vals).len() <= end
    &&& base + data_bytes(vals).len() < pow256(4)
    &&& end <= bytes.len()
    &&& bytes.subrange(HEADER_SIZE as int, HEADER_SIZE + slots_end(fields, fields.len() as int))
        == body_bytes(fields, vals, base)
    &&& bytes.subrange(base as int, (base + data_bytes(vals).len()) as int) == data_bytes(vals)
}

/// Copies `buf[from..from + n]`.
pub(crate) fn copy_range(buf: &Vec<u8>, from: usize, n: usize) -> (r: Vec<u8>)
    requires
        from + n <= buf@.len(),
    ensures
        r@ == buf@.subrange(from as int, from + n),
{
    let _len = buf.len();
    let mut out: Vec<u8> = Vec::new();
    let mut j: usize = 0;
    while j < n
        invariant
            j <= n,
            buf@.len() <= usize::MAX,
            from + n <= buf@.len(),
            out@ == buf@.subrange(from as int, from + j),
        decreases n - j,
    {
        let k: usize = from + j;
        out.push(buf[k]);
        j += 1;
        assert(out@ =~= buf@.subrange(from as int, from + j));
    }
    out
}

/// `buf` holds at `pos` the slot of value `e` of field `d`, and at `cursor`
/// its segment data, ending by `end`.
pub open spec fn field_at(buf: Seq<u8>, d: FieldDecl, pos: nat, cursor: nat, end: nat, e: FieldData) -> bool {
    &&& value_fits(d, e)
    &&& buf.subrange(pos as int, (pos + width(d)) as int) == slot(d, e, cursor)
    &&& cursor + data_of(e).len() <= end
    &&& cursor + data_of(e).len() < pow256(4)
    &&& buf.subrange(cursor as int, (cursor + data_of(e).len()) as int) == data_of(e)
}

/// Checks and reads one field whose slot starts at `pos`, its segment data
/// (if any) required to start at `cursor` and to end by `end`.
fn read_field(buf: &Vec<u8>, d: FieldDecl, pos: usize, cursor: usize, end: usize) -> (r: Result<
    (FieldValue, usize),
    CodecError,
>)
    requires
        decl_ok(d),
        pos + width(d) <= buf@.len(),
        cursor <= end <= buf@.len(),
    ensures
        r matches Ok((v, c)) ==> {
            &&& value_fits(d, v@)
            &&& buf@.subrange(pos as int, pos + width(d)) == slot(d, v@, cursor as nat)
            &&& c == cursor + data_of(v@).len()
            &&& c <= end
            &&& buf@.subrange(cursor as int, c as int) == data_of(v@)
        },
        r matches Err(err) ==> err == CodecError::SegmentMisplaced || err
            == CodecError::SegmentOutOfBounds,
        forall|e: FieldData|
            #[trigger] field_at(buf@, d, pos as nat, cursor as nat, end as nat, e) ==> (r matches Ok(
                (v, _),
            ) && v@ == e),
{
    let _len = buf.len();
    let w: usize = (d.to - d.from) as usize;
    match d.kind {
        FieldKind::Int => {
            let n = read_le(buf, pos, w);
            proof {
                lemma_le_bytes_of_value(buf@.subrange(pos as int, pos + w));
                lemma_le_value_bound(buf@.subrange(pos as int, pos + w));
                assert(buf@.subrange(cursor as int, cursor as int) =~= Seq::<u8>::empty());
                assert forall|e: FieldData|
                    #[trigger] field_at(
                        buf@,
                        d,
                        pos as nat,
                        cursor as nat,
                        end as nat,
                        e,
                    ) implies FieldValue::Int(n)@ == e by {
                    if let FieldData::Int(y) = e {
                        lemma_le_round_trip(y as nat, w as nat);
                    }
                }
            }
            Ok((FieldValue::Int(n), cursor))
        },
        FieldKind::Segment => {
            let off = read_le(buf, pos, 4);
            let cnt = read_le(buf, pos + 4, 4);
            let ghost sl = buf@.subrange(pos as int, pos + 8);
            proof {
                assert(buf@.subrange(pos as int, pos + 4) =~= sl.subrange(0, 4));
                assert(buf@.subrange(pos + 4, pos + 8) =~= sl.subrange(4, 8));
                lemma_le_value_bound(buf@.subrange(pos as int, pos + 4));
                lemma_le_value_bound(buf@.subrange(pos + 4, pos + 8));
                lemma_pow256_small();
                assert forall|e: FieldData|
                    #[trigger] field_at(
                        buf@,
                        d,
                        pos as nat,
                        cursor as nat,
                        end as nat,
                        e,
                    ) implies off == cursor && cnt == data_of(e).len() by {
                    lemma_le_len(cursor as nat, 4);
                    if let FieldData::Bytes(b) = e {
                        lemma_le_len(b.len(), 4);
                        assert(sl.subrange(0, 4) =~= le_bytes(cursor as nat, 4));
                        assert(sl.subrange(4, 8) =~= le_bytes(b.len(), 4));
                        lemma_le_round_trip(cursor as nat, 4);
                        lemma_le_round_trip(b.len(), 4);
                    }
                }
            }
            if off as usize != cursor {
                return Err(CodecError::SegmentMisplaced);
            }
            if cnt as usize > end - cursor {
                return Err(CodecError::SegmentOutOfBounds);
            }
            let b = copy_range(buf, cursor, cnt as usize);
            proof {
                lemma_le_bytes_of_value(buf@.subrange(pos as int, pos + 4));
                lemma_le_bytes_of_value(buf@.subrange(pos + 4, pos + 8));
                assert(sl =~= buf@.subrange(pos as int, pos + 4) + buf@.subrange(pos + 4, pos + 8));
            }
            Ok((FieldValue::Bytes(b), cursor + cnt as usize))
        },
    }
}

/// Checks and reads the declared fields, keeping segment data in declaration
/// order: each segment must start where the previous one ended, beginning at
/// `base`, and end by `end`.
#[verifier::rlimit(100)]
fn read_fields(buf: &Vec<u8>, fields: &Vec<FieldDecl>, base: usize, end: usize) -> (r: Result<
    (Vec<FieldValue>, usize),
    CodecError,
>)
    requires
        packed(fields@),
        HEADER_SIZE + slots_end(fields@, fields@.len() as int) <= base,
        base <= end <= buf@.len(),
    ensures
        r matches Ok((vals, cursor)) ==> {
            &&& conforms(fields@, data_view(vals@))
            &&& buf@.subrange(
                HEADER_SIZE as int,
                HEADER_SIZE + slots_end(fields@, fields@.len() as int),
            ) == body_bytes(fields@, data_view(vals@), base as nat)
            &&& cursor == base + data_bytes(data_view(vals@)).len()
            &&& cursor <= end
            &&& buf@.subrange(base as int, cursor as int) == data_bytes(data_view(vals@))
        },
        r matches Err(e) ==> e == CodecError::SegmentMisplaced || e
            == CodecError::SegmentOutOfBounds,
        forall|x: Seq<FieldData>|
            #[trigger] fields_encoded(buf@, fields@, base as nat, end as nat, x) ==> (r matches Ok(
                (vals, _),
            ) && data_view(vals@) == x),
{
    let ghost fs = fields@;
    let mut out: Vec<FieldValue> = Vec::new();
    let mut cursor: usize = base;
    let mut i: usize = 0;
    while i < fields.len()
        invariant
            fs == fields@,
            packed(fs),
            HEADER_SIZE + slots_end(fs, fs.len() as int) <= base,
            base <= cursor <= end <= buf@.len(),
            i <= fs.len(),
            out@.len() == i,
            conforms(fs.take(i as int), data_view(out@)),
            buf@.subrange(HEADER_SIZE as int, HEADER_SIZE + slots_end(fs, i as int)) == body_bytes(
                fs.take(i as int),
                data_view(out@),
                base as nat,
            ),
            cursor == base + data_bytes(data_view(out@)).len(),
            buf@.subrange(base as int, cursor as int) == data_bytes(data_view(out@)),
            forall|x: Seq<FieldData>|
                #[trigger] fields_encoded(buf@, fs, base as nat, end as nat, x) ==> data_view(out@)
                    == x.take(i as int),
        decreases fs.len() - i,
    {
        let d = fields[i];
        let pos: usize = HEADER_SIZE + d.from as usize;
        let ghost prev = data_view(out@);
        proof {
            assert(decl_ok(fs[i as int]));
            if i > 0 {
                assert(fs[i - 1].to == fs[i as int].from);
            }
            lemma_slots_end_mono(fs, i as int + 1, fs.len() as int);
            assert forall|x: Seq<FieldData>|
                #[trigger] fields_encoded(buf@, fs, base as nat, end as nat, x) implies field_at(
                buf@,
                d,
                pos as nat,
                cursor as nat,
                end as nat,
                x[i as int],
            ) by {
                lemma_field_at(buf@, fs, base as nat, end as nat, x, i as int, cursor as nat);
            }
        }
        let (v, next) = match read_field(buf, d, pos, cursor, end) {
            Ok(p) => p,
            Err(e) => {
                proof {
                    assert forall|x: Seq<FieldData>|
                        #[trigger] fields_encoded(
                            buf@,
                            fs,
                            base as nat,
                            end as nat,
                            x,
                        ) implies false by {
                        assert(field_at(buf@, d, pos as nat, cursor as nat, end as nat, x[i as int]));
                    }
                }
                return Err(e);
            },
        };
        out.push(v);
        proof {
            let now = data_view(out@);
            assert(now.drop_last() =~= prev);
            lemma_take_step(now, i as int);
            lemma_take_step(fs, i as int);
            assert(now.take(i + 1) =~= now);
            assert(now.take(i as int) =~= prev);
            assert(conforms(fs.take(i + 1), now));
            lemma_steps(fs.take(i + 1), now, i as int, base as nat);
            assert(fs.take(i + 1).take(i + 1) =~= fs.take(i + 1));
            assert(fs.take(i + 1).take(i as int) =~= fs.take(i as int));
            assert(buf@.subrange(HEADER_SIZE as int, HEADER_SIZE + slots_end(fs, i + 1))
                =~= buf@.subrange(HEADER_SIZE as int, HEADER_SIZE + slots_end(fs, i as int))
                + buf@.subrange(pos as int, pos + width(d)));
            assert(buf@.subrange(base as int, next as int) =~= data_bytes(prev) + data_of(v@));
            assert forall|x: Seq<FieldData>|
                #[trigger] fields_encoded(buf@, fs, base as nat, end as nat, x) implies now
                == x.take(i + 1) by {
                assert(field_at(buf@, d, pos as nat, cursor as nat, end as nat, x[i as int]));
                lemma_take_step(x, i as int);
                assert(now =~= x.take(i + 1));
            }
        }
        cursor = next;
        i += 1;
    }
    proof {
        assert(fs.take(i as int) =~= fs);
        assert forall|x: Seq<FieldData>|
            #[trigger] fields_encoded(buf@, fs, base as nat, end as nat, x) implies data_view(out@)
            == x by {
            assert(x.take(i as int) =~= x);
        }
    }
    Ok((out, cursor))
}

/// Where `buf` holds the fields `x`, field `i` stands at its slot and at
/// the end of the segment data before it.
#[verifier::rlimit(100)]
proof fn lemma_field_at(
    buf: Seq<u8>,
    fs: Seq<FieldDecl>,
    base: nat,
    end: nat,
    x: Seq<FieldData>,
    i: int,
    cursor: nat,
)
    requires
        packed(fs),
        0 <= i < fs.len(),
        fields_encoded(buf, fs, base, end, x),
        cursor == base + data_bytes(x.take(i)).len(),
        HEADER_SIZE + slots_end(fs, fs.len() as int) <= base,
    ensures
        field_at(buf, fs[i], (HEADER_SIZE + fs[i].from) as nat, cursor, end, x[i]),
{
    let d = fs[i];
    let pos = HEADER_SIZE + d.from;
    lemma_slot_at(fs, x, base, i);
    lemma_data_at(x, i);
    lemma_slots_end_mono(fs, i + 1, fs.len() as int);
    lemma_body_len(fs, x, base, fs.len() as int);
    assert(fs.take(fs.len() as int) =~= fs);
    assert(x.take(x.len() as int) =~= x);
    if i > 0 {
        assert(fs[i - 1].to == fs[i].from);
    }
    let body = body_bytes(fs, x, base);
    assert(body.len() == slots_end(fs, fs.len() as int));
    assert(d.to <= body.len());
    assert(decl_ok(d));
    assert(value_fits(fs[i], x[i]));
    assert(buf.subrange(pos as int, pos + width(d)) =~= body_bytes(fs, x, base).subrange(
        d.from as int,
        d.to as int,
    ));
    assert(buf.subrange(cursor as int, (cursor + data_of(x[i]).len()) as int) =~= data_bytes(x).subrange(
        data_bytes(x.take(i)).len() as int,
        data_bytes(x.take(i + 1)).len() as int,
    ));
}

proof fn lemma_slots_end_mono(fields: Seq<FieldDecl>, j: int, k: int)
    requires
        packed(fields),
        0 <= j <= k <= fields.len(),
    ensures
        slots_end(fields, j) <= slots_end(fields, k),
    decreases k - j,
{
    if j < k {
        lemma_slots_end_mono(fields, j, k - 1);
        assert(decl_ok(fields[k - 1]));
        if k > 1 {
            assert(fields[k - 2].to == fields[k - 1].from);
        }
    }
}

/// `bytes` is the envelope of a message of layout `l` with header `h`, field
/// values `vals` and signature `sig`.
pub open spec fn encodes(
    l: MessageLayout,
    bytes: Seq<u8>,
    h: Header,
    vals: Seq<FieldData>,
    sig: Seq<u8>,
) -> bool {
    &&& h.service_id == l.service_id
    &&& h.message_id == l.message_id
    &&& conforms(l.fields@, vals)
    &&& fits(l, vals)
    &&& sig.len() == SIGNATURE_SIZE
    &&& bytes == encoding(h, l, vals, sig)
}

/// A decoded message: its header, its field values and its envelope.
pub struct Message {
    header: Header,
    values: Vec<FieldValue>,
    raw: RawMessage,
}

impl Message {
    pub closed spec fn spec_header(&self) -> Header {
        self.header
    }

    pub closed spec fn spec_values(&self) -> Seq<FieldData> {
        data_view(self.values@)
    }

    pub closed spec fn spec_raw(&self) -> Seq<u8> {
        self.raw@
    }

    /// The trailing signature bytes of the envelope.
    pub open spec fn spec_signature(&self) -> Seq<u8> {
        self.spec_raw().subrange(
            self.spec_raw().len() - SIGNATURE_SIZE,
            self.spec_raw().len() as int,
        )
    }

    /// Lays out the fields and appends a signature made elsewhere, which is
    /// not checked here.
    pub fn new_with_signature(
        layout: &MessageLayout,
        protocol_version: u8,
        network_id: u8,
        values: Vec<FieldValue>,
        signature: &Signature,
    ) -> (r: Message)
        requires
            layout_ok(*layout),
            conforms(layout.fields@, data_view(values@)),
            fits(*layout, data_view(values@)),
        ensures
            r.spec_header() == header_for(*layout, protocol_version, network_id),
            r.spec_values() == data_view(values@),
            r.spec_raw() == encoding(r.spec_header(), *layout, r.spec_values(), signature.0@),
            r.spec_signature() == signature.0@,
            encodes(*layout, r.spec_raw(), r.spec_header(), r.spec_values(), r.spec_signature()),
    {
        Message::assemble(layout, protocol_version, network_id, values, signature.0.as_slice())
    }

    /// Lays out the fields and appends the given signature bytes.
    pub(crate) fn assemble(
        layout: &MessageLayout,
        protocol_version: u8,
        network_id: u8,
        values: Vec<FieldValue>,
        signature: &[u8],
    ) -> (r: Message)
        requires
            layout_ok(*layout),
            conforms(layout.fields@, data_view(values@)),
            fits(*layout, data_view(values@)),
            signature@.len() == SIGNATURE_SIZE,
        ensures
            r.spec_header() == header_for(*layout, protocol_version, network_id),
            r.spec_values() == data_view(values@),
            r.spec_raw() == encoding(r.spec_header(), *layout, r.spec_values(), signature@),
            r.spec_signature() == signature@,
            encodes(*layout, r.spec_raw(), r.spec_header(), r.spec_values(), r.spec_signature()),
    {
        let mut bytes = signing_bytes(layout, protocol_version, network_id, &values);
        let ghost signed = bytes@;
        let mut j: usize = 0;
        while j < SIGNATURE_SIZE
            invariant
                j <= SIGNATURE_SIZE,
                signature@.len() == SIGNATURE_SIZE,
                bytes@ == signed + signature@.take(j as int),
            decreases SIGNATURE_SIZE - j,
        {
            bytes.push(signature[j]);
            j += 1;
            assert(bytes@ =~= signed + signature@.take(j as int));
        }
        assert(signature@.take(64) =~= signature@);
        let header = Header {
            protocol_version,
            network_id,
            service_id: layout.service_id,
            message_id: layout.message_id,
        };
        let r = Message { header, values, raw: RawMessage::new(bytes) };
        assert(r.spec_signature() =~= signature@);
        r
    }

    /// The header.
    pub fn header(&self) -> (r: Header)
        ensures
            r == self.spec_header(),
    {
        self.header
    }

    /// The field values in declaration order.
    pub fn values(&self) -> (r: &Vec<FieldValue>)
        ensures
            data_view(r@) == self.spec_values(),
    {
        &self.values
    }

    /// The envelope.
    pub fn raw(&self) -> (r: &RawMessage)
        ensures
            r@ == self.spec_raw(),
    {
        &self.raw
    }

    /// The trailing signature bytes.
    pub fn signature(&self) -> (r: Vec<u8>)
        requires
            self.spec_raw().len() >= SIGNATURE_SIZE,
        ensures
            r@ == self.spec_signature(),
    {
        let n = self.raw.bytes.len();
        copy_range(&self.raw.bytes, n - SIGNATURE_SIZE, SIGNATURE_SIZE)
    }
}

proof fn lemma_header_of_bytes(b: Seq<u8>)
    requires
        b.len() >= HEADER_SIZE,
    ensures
        le_value(b.subrange(2, 4)) < 0x1_0000,
        le_value(b.subrange(4, 6)) < 0x1_0000,
        le_value(b.subrange(6, 10)) < 0x1_0000_0000,
        header_bytes(
            Header {
                protocol_version: b[0],
                network_id: b[1],
                service_id: le_value(b.subrange(2, 4)) as u16,
                message_id: le_value(b.subrange(4, 6)) as u16,
            },
            le_value(b.subrange(6, 10)) as u32,
        ) == b.subrange(0, 10),
{
    lemma_pow256_small();
    lemma_le_value_bound(b.subrange(2, 4));
    lemma_le_value_bound(b.subrange(4, 6));
    lemma_le_value_bound(b.subrange(6, 10));
    lemma_le_bytes_of_value(b.subrange(2, 4));
    lemma_le_bytes_of_value(b.subrange(4, 6));
    lemma_le_bytes_of_value(b.subrange(6, 10));
    let h = Header {
        protocol_version: b[0],
        network_id: b[1],
        service_id: le_value(b.subrange(2, 4)) as u16,
        message_id: le_value(b.subrange(4, 6)) as u16,
    };
    assert(header_bytes(h, le_value(b.subrange(6, 10)) as u32) =~= b.subrange(0, 10));
}

proof fn lemma_header_values(h: Header, body_size: u32, b: Seq<u8>)
    requires
        b.len() >= HEADER_SIZE,
        b.subrange(0, 10) == header_bytes(h, body_size),
    ensures
        b[0] == h.protocol_version,
        b[1] == h.network_id,
        le_value(b.subrange(2, 4)) == h.service_id,
        le_value(b.subrange(4, 6)) == h.message_id,
        le_value(b.subrange(6, 10)) == body_size,
{
    lemma_pow256_small();
    lemma_le_len(h.service_id as nat, 2);
    lemma_le_len(h.message_id as nat, 2);
    lemma_le_len(body_size as nat, 4);
    let hb = header_bytes(h, body_size);
    assert(b.subrange(2, 4) =~= hb.subrange(2, 4));
    assert(b.subrange(4, 6) =~= hb.subrange(4, 6));
    assert(b.subrange(6, 10) =~= hb.subrange(6, 10));
    assert(hb.subrange(2, 4) =~= le_bytes(h.service_id as nat, 2));
    assert(hb.subrange(4, 6) =~= le_bytes(h.message_id as nat, 2));
    assert(hb.subrange(6, 10) =~= le_bytes(body_size as nat, 4));
    lemma_le_round_trip(h.service_id as nat, 2);
    lemma_le_round_trip(h.message_id as nat, 2);
    lemma_le_round_trip(body_size as nat, 4);
    assert(b[0] == hb[0]);
    assert(b[1] == hb[1]);
}

/// The parts of an envelope, where it is one.
proof fn lemma_encoding_parts(
    l: MessageLayout,
    bytes: Seq<u8>,
    h: Header,
    vals: Seq<FieldData>,
    sig: Seq<u8>,
)
    requires
        layout_ok(l),
        encodes(l, bytes, h, vals, sig),
    ensures
        bytes.len() == data_start(l) + data_bytes(vals).len() + SIGNATURE_SIZE,
        bytes.subrange(0, 10) == header_bytes(h, l.body_size),
        fields_encoded(
            bytes,
            l.fields@,
            data_start(l),
            (bytes.len() - SIGNATURE_SIZE) as nat,
            vals,
        ),
        bytes.subrange(bytes.len() - SIGNATURE_SIZE, bytes.len() as int) == sig,
{
    let f = l.fields@;
    let hb = header_bytes(h, l.body_size);
    let body = body_bytes(f, vals, data_start(l));
    let data = data_bytes(vals);
    lemma_le_len(h.service_id as nat, 2);
    lemma_le_len(h.message_id as nat, 2);
    lemma_le_len(l.body_size as nat, 4);
    assert(packed(f));
    lemma_body_len(f, vals, data_start(l), f.len() as int);
    assert(f.take(f.len() as int) =~= f);
    assert(vals.take(vals.len() as int) =~= vals);
    assert(slots_end(f, f.len() as int) == l.body_size);
    assert(body.len() == l.body_size);
    assert(bytes == hb + body + data + sig);
    assert(bytes.subrange(0, 10) =~= hb);
    assert(bytes.subrange(10, (10 + body.len()) as int) =~= body);
    assert(bytes.subrange(data_start(l) as int, (data_start(l) + data.len()) as int) =~= data);
    assert(bytes.subrange(bytes.len() - SIGNATURE_SIZE, bytes.len() as int) =~= sig);
    lemma_pow256_small();
}

/// In an envelope of layout `l`, each segment's slot points at the byte where
/// the segment data of the fields before it ends, and holds that segment's
/// length: segments follow each other with no gap and no overlap.
pub proof fn lemma_segments_in_order(
    l: MessageLayout,
    bytes: Seq<u8>,
    h: Header,
    vals: Seq<FieldData>,
    sig: Seq<u8>,
    i: int,
)
    requires
        layout_ok(l),
        encodes(l, bytes, h, vals, sig),
        0 <= i < l.fields@.len(),
        l.fields@[i].kind == FieldKind::Segment,
    ensures
        le_value(bytes.subrange(HEADER_SIZE + l.fields@[i].from, HEADER_SIZE + l.fields@[i].from + 4))
            == data_start(l) + data_bytes(vals.take(i)).len(),
        le_value(bytes.subrange(HEADER_SIZE + l.fields@[i].from + 4, HEADER_SIZE + l.fields@[i].to))
            == data_of(vals[i]).len(),
{
    let fs = l.fields@;
    let d = fs[i];
    let base = data_start(l);
    let cursor = base + data_bytes(vals.take(i)).len();
    lemma_encoding_parts(l, bytes, h, vals, sig);
    lemma_slots_end_mono(fs, 0, fs.len() as int);
    if fs.len() > 0 {
        assert(slots_end(fs, fs.len() as int) == l.body_size);
    }
    lemma_data_prefix(vals, i);
    lemma_field_at(bytes, fs, base, (bytes.len() - SIGNATURE_SIZE) as nat, vals, i, cursor);
    assert(decl_ok(d));
    assert(value_fits(d, vals[i]));
    lemma_pow256_small();
    let pos = HEADER_SIZE + d.from;
    lemma_slots_end_mono(fs, i + 1, fs.len() as int);
    assert(d.to == slots_end(fs, i + 1));
    assert(pos + 8 <= bytes.len());
    let sl = bytes.subrange(pos as int, pos + 8);
    if let FieldData::Bytes(b) = vals[i] {
        lemma_le_len(cursor, 4);
        lemma_le_len(b.len(), 4);
        assert(bytes.subrange(pos as int, pos + 4) =~= sl.subrange(0, 4));
        assert(bytes.subrange(pos + 4, pos + 8) =~= sl.subrange(4, 8));
        assert(sl.subrange(0, 4) =~= le_bytes(cursor, 4));
        assert(sl.subrange(4, 8) =~= le_bytes(b.len(), 4));
        lemma_le_round_trip(cursor, 4);
        lemma_le_round_trip(b.len(), 4);
    }
}

/// The first fault, if any, of an envelope's length and header against a
/// layout, in the order in which they are checked.
pub open spec fn header_fault(l: MessageLayout, bytes: Seq<u8>) -> Option<CodecError> {
    if bytes.len() < data_start(l) + SIGNATURE_SIZE {
        Some(CodecError::TooShort)
    } else if bytes.len() > u32::MAX {
        Some(CodecError::TooLong)
    } else if le_value(bytes.subrange(6, 10)) != l.body_size {
        Some(CodecError::BodySizeMismatch)
    } else if le_value(bytes.subrange(2, 4)) != l.service_id {
        Some(CodecError::ServiceIdMismatch)
    } else if le_value(bytes.subrange(4, 6)) != l.message_id {
        Some(CodecError::MessageIdMismatch)
    } else {
        None
    }
}

/// Checks an envelope against a layout and reads its fields.
///
/// The signature is not verified: that is the caller's duty before the
/// message is trusted.
pub fn decode(layout: &MessageLayout, raw: RawMessage) -> (r: Result<Message, CodecError>)
    requires
        layout_ok(*layout),
    ensures
        r matches Ok(m) ==> {
            &&& m.spec_raw() == raw@
            &&& encodes(*layout, raw@, m.spec_header(), m.spec_values(), m.spec_signature())
        },
        forall|h: Header, vals: Seq<FieldData>, sig: Seq<u8>|
            #[trigger] encodes(*layout, raw@, h, vals, sig) ==> (r matches Ok(m) && m.spec_header()
                == h && m.spec_values() == vals && m.spec_signature() == sig),
        raw@.len() >= HEADER_SIZE && (le_value(raw@.subrange(2, 4)) != layout.service_id
            || le_value(raw@.subrange(4, 6)) != layout.message_id) ==> r is Err,
        header_fault(*layout, raw@) matches Some(e) ==> r == Err::<Message, CodecError>(e),
        header_fault(*layout, raw@) is None ==> (r matches Err(e) ==> e
            == CodecError::SegmentMisplaced || e == CodecError::SegmentOutOfBounds || e
            == CodecError::TrailingData),
{
    let buf = &raw.bytes;
    let len = buf.len();
    let base: usize = HEADER_SIZE + layout.body_size as usize;
    proof {
        assert forall|h: Header, v: Seq<FieldData>, s: Seq<u8>|
            #[trigger] encodes(*layout, buf@, h, v, s) implies len >= base + SIGNATURE_SIZE && len
            <= 0xFFFF_FFFF by {
            lemma_encoding_parts(*layout, buf@, h, v, s);
        }
    }
    if len < base + SIGNATURE_SIZE {
        return Err(CodecError::TooShort);
    }
    if len > 0xFFFF_FFFF {
        return Err(CodecError::TooLong);
    }
    let ghost b = buf@;
    proof {
        lemma_header_of_bytes(b);
    }
    let protocol_version = buf[0];
    let network_id = buf[1];
    let service_id = read_le(buf, 2, 2) as u16;
    let message_id = read_le(buf, 4, 2) as u16;
    let body_size = read_le(buf, 6, 4) as u32;
    proof {
        assert forall|h: Header, v: Seq<FieldData>, s: Seq<u8>|
            #[trigger] encodes(*layout, b, h, v, s) implies body_size == layout.body_size
            && service_id == layout.service_id && message_id == layout.message_id
            && h.protocol_version == protocol_version && h.network_id == network_id by {
            lemma_encoding_parts(*layout, b, h, v, s);
            lemma_header_values(h, layout.body_size, b);
        }
    }
    if body_size != layout.body_size {
        return Err(CodecError::BodySizeMismatch);
    }
    if service_id != layout.service_id {
        return Err(CodecError::ServiceIdMismatch);
    }
    if message_id != layout.message_id {
        return Err(CodecError::MessageIdMismatch);
    }
    let end: usize = len - SIGNATURE_SIZE;
    proof {
        assert(packed(layout.fields@));
        if layout.fields@.len() > 0 {
            assert(slots_end(layout.fields@, layout.fields@.len() as int) == layout.body_size);
        }
    }
    let (values, cursor) = match read_fields(buf, &layout.fields, base, end) {
        Ok(p) => p,
        Err(e) => {
            proof {
                assert forall|h: Header, v: Seq<FieldData>, s: Seq<u8>|
                    #[trigger] encodes(*layout, b, h, v, s) implies false by {
                    lemma_encoding_parts(*layout, b, h, v, s);
                    assert(fields_encoded(b, layout.fields@, base as nat, end as nat, v));
                }
            }
            return Err(e);
        },
    };
    if cursor != end {
        proof {
            assert forall|h: Header, v: Seq<FieldData>, s: Seq<u8>|
                #[trigger] encodes(*layout, b, h, v, s) implies false by {
                lemma_encoding_parts(*layout, b, h, v, s);
                assert(fields_encoded(b, layout.fields@, base as nat, end as nat, v));
            }
        }
        return Err(CodecError::TrailingData);
    }
    let header = Header { protocol_version, network_id, service_id, message_id };
    let m = Message { header, values, raw };
    proof {
        let vals = m.spec_values();
        let sig = m.spec_signature();
        lemma_pow256_small();
        assert(b =~= header_bytes(header, layout.body_size) + b.subrange(10, base as int)
            + b.subrange(base as int, end as int) + sig);
        assert(encodes(*layout, b, header, vals, sig));
        assert forall|h: Header, v: Seq<FieldData>, s: Seq<u8>|
            #[trigger] encodes(*layout, b, h, v, s) implies m.spec_header() == h
            && m.spec_values() == v && m.spec_signature() == s by {
            lemma_encoding_parts(*layout, b, h, v, s);
            lemma_header_values(h, layout.body_size, b);
            assert(fields_encoded(b, layout.fields@, base as nat, end as nat, v));
        }
    }
    Ok(m)
}

impl MessageLayout {
    /// Whether the slots tile the body in order, each of a width its kind
    /// allows, and the envelope's offsets fit in 32 bits.
    pub fn is_valid(&self) -> (r: bool)
        ensures
            r == layout_ok(*self),
    {
        let f = &self.fields;
        if self.body_size as usize > 0xFFFF_FFFF - (HEADER_SIZE + SIGNATURE_SIZE) {
            return false;
        }
        if f.len() == 0 {
            return self.body_size == 0;
        }
        if f[0].from != 0 || f[f.len() - 1].to != self.body_size {
            return false;
        }
        let mut i: usize = 0;
        while i < f.len()
            invariant
                f@ == self.fields@,
                i <= f@.len(),
                f@.len() > 0,
                forall|j: int| 0 <= j < i ==> decl_ok(#[trigger] f@[j]),
                forall|j: int| 0 <= j < i && j < f@.len() - 1 ==> #[trigger] f@[j].to == f@[j + 1].from,
            decreases f@.len() - i,
        {
            let d = f[i];
            let ok = d.from < d.to && match d.kind {
                FieldKind::Int => d.to - d.from <= 8,
                FieldKind::Segment => d.to - d.from == 8,
            };
            if !ok {
                assert(!decl_ok(f@[i as int]));
                return false;
            }
            if i + 1 < f.len() && d.to != f[i + 1].from {
                assert(f@[i as int].to != f@[i + 1].from);
                return false;
            }
            i += 1;
        }
        true
    }
}

proof fn lemma_field_at_unique(
    buf: Seq<u8>,
    d: FieldDecl,
    pos: nat,
    cursor: nat,
    end: nat,
    e1: FieldData,
    e2: FieldData,
)
    requires
        decl_ok(d),
        field_at(buf, d, pos, cursor, end, e1),
        field_at(buf, d, pos, cursor, end, e2),
    ensures
        e1 == e2,
{
    match e1 {
        FieldData::Int(x1) => {
            if let FieldData::Int(x2) = e2 {
                lemma_le_round_trip(x1 as nat, width(d));
                lemma_le_round_trip(x2 as nat, width(d));
            }
        },
        FieldData::Bytes(b1) => {
            if let FieldData::Bytes(b2) = e2 {
                lemma_pow256_small();
                let s1 = slot(d, e1, cursor);
                let s2 = slot(d, e2, cursor);
                lemma_le_len(cursor, 4);
                lemma_le_len(b1.len(), 4);
                lemma_le_len(b2.len(), 4);
                assert(s1.subrange(4, 8) =~= le_bytes(b1.len(), 4));
                assert(s2.subrange(4, 8) =~= le_bytes(b2.len(), 4));
                lemma_le_round_trip(b1.len(), 4);
                lemma_le_round_trip(b2.len(), 4);
                assert(b1 =~= b2);
            }
        },
    }
}

proof fn lemma_fields_prefix_unique(
    bytes: Seq<u8>,
    fs: Seq<FieldDecl>,
    base: nat,
    end: nat,
    v1: Seq<FieldData>,
    v2: Seq<FieldData>,
    k: int,
)
    requires
        0 <= k <= fs.len(),
        packed(fs),
        HEADER_SIZE + slots_end(fs, fs.len() as int) <= base,
        fields_encoded(bytes, fs, base, end, v1),
        fields_encoded(bytes, fs, base, end, v2),
    ensures
        v1.take(k) == v2.take(k),
    decreases k,
{
    if k > 0 {
        let i = k - 1;
        lemma_fields_prefix_unique(bytes, fs, base, end, v1, v2, i);
        lemma_field_at(bytes, fs, base, end, v1, i, base + data_bytes(v1.take(i)).len());
        lemma_field_at(bytes, fs, base, end, v2, i, base + data_bytes(v2.take(i)).len());
        assert(decl_ok(fs[i]));
        lemma_field_at_unique(
            bytes,
            fs[i],
            (HEADER_SIZE + fs[i].from) as nat,
            base + data_bytes(v1.take(i)).len(),
            end,
            v1[i],
            v2[i],
        );
        assert(v1.take(i + 1) =~= v1.take(i).push(v1[i]));
        assert(v2.take(i + 1) =~= v2.take(i).push(v2[i]));
    }
}

/// An envelope determines its header, its field values and its signature:
/// no two messages of one layout share an envelope, so decoding gives back
/// exactly what was encoded.
pub proof fn lemma_encoding_unique(
    l: MessageLayout,
    bytes: Seq<u8>,
    h1: Header,
    v1: Seq<FieldData>,
    s1: Seq<u8>,
    h2: Header,
    v2: Seq<FieldData>,
    s2: Seq<u8>,
)
    requires
        layout_ok(l),
        encodes(l, bytes, h1, v1, s1),
        encodes(l, bytes, h2, v2, s2),
    ensures
        h1 == h2,
        v1 == v2,
        s1 == s2,
{
    let fs = l.fields@;
    let base = data_start(l);
    let end = (bytes.len() - SIGNATURE_SIZE) as nat;
    lemma_encoding_parts(l, bytes, h1, v1, s1);
    lemma_encoding_parts(l, bytes, h2, v2, s2);
    lemma_header_values(h1, l.body_size, bytes);
    lemma_header_values(h2, l.body_size, bytes);
    if fs.len() > 0 {
        assert(slots_end(fs, fs.len() as int) == l.body_size);
    }
    lemma_fields_prefix_unique(bytes, fs, base, end, v1, v2, fs.len() as int);
    let i = fs.len() as int;
    assert(v1.take(i) =~= v1);
    assert(v2.take(i) =~= v2);
}

} // verus!
