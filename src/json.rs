//! The structured form of a message used at the system's boundary: header
//! values, the body as named field values, and the signature. Turning it
//! back into a message checks the ids against the expected ones and reuses
//! the signature as it stands, without checking it.
use vstd::prelude::*;
use crate::message::{
    conforms, copy_range, data_view, encodes, fits, layout_ok, pow256, width, FieldData,
    FieldKind, FieldValue, Header, Message, MessageLayout, SIGNATURE_SIZE,
};

verus! {

/// A message as named values.
pub struct JsonMessage {
    pub body: Vec<(String, FieldValue)>,
    pub signature: Vec<u8>,
    pub message_id: u16,
    pub service_id: u16,
    pub network_id: u8,
    pub protocol_version: u8,
}

/// Why a structured message does not make a message of the expected type.
#[derive(Clone, Copy, Debug, PartialEq, Eq, Structural)]
pub enum JsonError {
    /// The service id is not the expected one.
    ServiceIdMismatch,
    /// The message id is not the expected one.
    MessageIdMismatch,
    /// The signature does not have the signature's size.
    BadSignature,
    /// A declared field is missing from the body.
    MissingField,
    /// A field value does not have its field's kind or does not fit its slot.
    FieldMismatch,
    /// The message would be longer than 32-bit offsets can address.
    TooLong,
}

/// The value of the first body entry with this name.
pub open spec fn lookup(body: Seq<(String, FieldValue)>, name: Seq<char>) -> Option<FieldData>
    decreases body.len(),
{
    if body.len() == 0 {
        None
    } else if body[0].0@ == name {
        Some(body[0].1@)
    } else {
        lookup(body.drop_first(), name)
    }
}

pub open spec fn distinct_names(names: Seq<String>) -> bool {
    forall|i: int, j: int| 0 <= i < j < names.len() ==> names[i]@ != names[j]@
}

/// Every name has an entry in the body.
pub open spec fn all_found(body: Seq<(String, FieldValue)>, names: Seq<String>) -> bool {
    forall|i: int| 0 <= i < names.len() ==> (#[trigger] lookup(body, names[i]@)) is Some
}

/// The values that the body gives the names, in the order of the names.
pub open spec fn found_values(body: Seq<(String, FieldValue)>, names: Seq<String>) -> Seq<
    FieldData,
> {
    Seq::new(
        names.len(),
        |i: int|
            match lookup(body, names[i]@) {
                Some(v) => v,
                None => FieldData::Int(0),
            },
    )
}

/// The header that a structured message gives.
pub open spec fn json_header(j: JsonMessage) -> Header {
    Header {
        protocol_version: j.protocol_version,
        network_id: j.network_id,
        service_id: j.service_id,
        message_id: j.message_id,
    }
}

proof fn lemma_lookup_at(body: Seq<(String, FieldValue)>, name: Seq<char>, i: int)
    requires
        0 <= i < body.len(),
        body[i].0@ == name,
        forall|j: int| 0 <= j < i ==> (#[trigger] body[j]).0@ != name,
    ensures
        lookup(body, name) == Some(body[i].1@),
    decreases i,
{
    if i > 0 {
        assert(body[0].0@ != name);
        let rest = body.drop_first();
        assert forall|j: int| 0 <= j < i - 1 implies (#[trigger] rest[j]).0@ != name by {
            assert(rest[j] == body[j + 1]);
        }
        lemma_lookup_at(rest, name, i - 1);
    }
}

proof fn lemma_lookup_none(body: Seq<(String, FieldValue)>, name: Seq<char>)
    requires
        forall|j: int| 0 <= j < body.len() ==> (#[trigger] body[j]).0@ != name,
    ensures
        lookup(body, name) is None,
    decreases body.len(),
{
    if body.len() > 0 {
        let rest = body.drop_first();
        assert forall|j: int| 0 <= j < rest.len() implies (#[trigger] rest[j]).0@ != name by {
            assert(rest[j] == body[j + 1]);
        }
        lemma_lookup_none(rest, name);
    }
}

/// Names laid out beside values, each once, are found with their values.
pub proof fn lemma_found_in_order(
    body: Seq<(String, FieldValue)>,
    names: Seq<String>,
    vals: Seq<FieldData>,
)
    requires
        distinct_names(names),
        body.len() == names.len(),
        vals.len() == names.len(),
        forall|i: int| 0 <= i < body.len() ==> (#[trigger] body[i]).0@ == names[i]@ && body[i].1@
            == vals[i],
    ensures
        all_found(body, names),
        found_values(body, names) == vals,
{
    assert forall|i: int| 0 <= i < names.len() implies (#[trigger] lookup(body, names[i]@)) == Some(
        vals[i],
    ) by {
        assert(body[i].0@ == names[i]@);
        assert forall|j: int| 0 <= j < i implies (#[trigger] body[j]).0@ != names[i]@ by {
            assert(body[j].0@ == names[j]@);
        }
        lemma_lookup_at(body, names[i]@, i);
    }
    assert(found_values(body, names) =~= vals);
    assert forall|i: int| 0 <= i < names.len() implies (#[trigger] lookup(body, names[i]@)) is Some by {
        assert(lookup(body, names[i]@) == Some(vals[i]));
    }
}

/// Serializing a decoded message and reading it back gives the same
/// header, field values and signature, and so the same envelope.
pub proof fn lemma_json_round_trip(
    l: MessageLayout,
    names: Seq<String>,
    raw: Seq<u8>,
    h: Header,
    vals: Seq<FieldData>,
    sig: Seq<u8>,
    j: JsonMessage,
)
    requires
        layout_ok(l),
        distinct_names(names),
        names.len() == l.fields@.len(),
        encodes(l, raw, h, vals, sig),
        json_header(j) == h,
        j.signature@ == sig,
        j.body@.len() == names.len(),
        forall|i: int| 0 <= i < names.len() ==> (#[trigger] j.body@[i]).0@ == names[i]@
            && j.body@[i].1@ == vals[i],
    ensures
        j.service_id == l.service_id,
        j.message_id == l.message_id,
        j.signature@.len() == SIGNATURE_SIZE,
        all_found(j.body@, names),
        found_values(j.body@, names) == vals,
        conforms(l.fields@, found_values(j.body@, names)),
        fits(l, found_values(j.body@, names)),
        encodes(l, raw, json_header(j), found_values(j.body@, names), j.signature@),
{
    lemma_found_in_order(j.body@, names, vals);
}

/// Copies a field value.
fn copy_value(v: &FieldValue) -> (r: FieldValue)
    ensures
        r@ == v@,
{
    match v {
        FieldValue::Int(x) => {
            let r = FieldValue::Int(*x);
            assert(r@ == FieldData::Int(*x));
            r
        },
        FieldValue::Bytes(b) => {
            let c = copy_range(b, 0, b.len());
            assert(c@ =~= b@);
            FieldValue::Bytes(c)
        },
    }
}

/// The structured form of a message, its fields named by `names`.
pub fn serialize(names: &Vec<String>, m: &Message) -> (r: JsonMessage)
    requires
        names@.len() == m.spec_values().len(),
        m.spec_raw().len() >= SIGNATURE_SIZE,
    ensures
        json_header(r) == m.spec_header(),
        r.signature@ == m.spec_signature(),
        r.body@.len() == names@.len(),
        forall|i: int| 0 <= i < names@.len() ==> (#[trigger] r.body@[i]).0@ == names@[i]@
            && r.body@[i].1@ == m.spec_values()[i],
{
    let values = m.values();
    let mut body: Vec<(String, FieldValue)> = Vec::new();
    let mut i: usize = 0;
    while i < names.len()
        invariant
            i <= names@.len(),
            names@.len() == values@.len(),
            data_view(values@) == m.spec_values(),
            body@.len() == i,
            forall|k: int| 0 <= k < i ==> (#[trigger] body@[k]).0@ == names@[k]@ && body@[k].1@
                == m.spec_values()[k],
        decreases names@.len() - i,
    {
        let v = copy_value(&values[i]);
        assert(m.spec_values()[i as int] == values@[i as int]@);
        body.push((names[i].clone(), v));
        i += 1;
    }
    let h = m.header();
    JsonMessage {
        body,
        signature: m.signature(),
        message_id: h.message_id,
        service_id: h.service_id,
        network_id: h.network_id,
        protocol_version: h.protocol_version,
    }
}

/// The value of the first body entry named `name`.
fn find_entry<'a>(body: &'a Vec<(String, FieldValue)>, name: &String) -> (r: Option<&'a FieldValue>)
    ensures
        match lookup(body@, name@) {
            Some(v) => r matches Some(x) && x@ == v,
            None => r is None,
        },
{
    let mut k: usize = 0;
    while k < body.len()
        invariant
            k <= body@.len(),
            forall|j: int| 0 <= j < k ==> (#[trigger] body@[j]).0@ != name@,
        decreases body@.len() - k,
    {
        if body[k].0 == *name {
            proof {
                lemma_lookup_at(body@, name@, k as int);
            }
            return Some(&body[k].1);
        }
        k += 1;
    }
    proof {
        lemma_lookup_none(body@, name@);
    }
    None
}

/// Whether a value has its field's kind and fits its slot.
fn value_fits_exec(kind: FieldKind, w: u32, v: &FieldValue) -> (r: bool)
    requires
        1 <= w <= 8,
    ensures
        r == match v@ {
            FieldData::Int(x) => kind == FieldKind::Int && x < pow256(w as nat),
            FieldData::Bytes(_) => kind == FieldKind::Segment,
        },
{
    match v {
        FieldValue::Int(x) => {
            if kind != FieldKind::Int {
                return false;
            }
            if w == 8 {
                proof {
                    crate::message::lemma_pow256_small();
                }
                return true;
            }
            let mut lim: u64 = 1;
            let mut k: u32 = 0;
            while k < w
                invariant
                    k <= w < 8,
                    lim == pow256(k as nat),
                decreases w - k,
            {
                proof {
                    crate::message::lemma_pow256_mono(k as nat + 1, 7);
                    reveal_with_fuel(pow256, 8);
                }
                lim = lim * 256;
                k += 1;
            }
            *x < lim
        },
        FieldValue::Bytes(_) => kind == FieldKind::Segment,
    }
}

/// Rebuilds a message of layout `l` from its structured form, fields found
/// by the names in `names`.
pub fn deserialize(layout: &MessageLayout, names: &Vec<String>, json: &JsonMessage) -> (r: Result<
    Message,
    JsonError,
>)
    requires
        layout_ok(*layout),
        names@.len() == layout.fields@.len(),
    ensures
        json.service_id != layout.service_id ==> r == Err::<Message, JsonError>(
            JsonError::ServiceIdMismatch,
        ),
        json.service_id == layout.service_id && json.message_id != layout.message_id ==> r
            == Err::<Message, JsonError>(JsonError::MessageIdMismatch),
        r is Ok <==> {
            &&& json.service_id == layout.service_id
            &&& json.message_id == layout.message_id
            &&& json.signature@.len() == SIGNATURE_SIZE
            &&& all_found(json.body@, names@)
            &&& conforms(layout.fields@, found_values(json.body@, names@))
            &&& fits(*layout, found_values(json.body@, names@))
        },
        r matches Ok(m) ==> {
            &&& m.spec_header() == json_header(*json)
            &&& m.spec_values() == found_values(json.body@, names@)
            &&& m.spec_signature() == json.signature@
            &&& encodes(*layout, m.spec_raw(), m.spec_header(), m.spec_values(), m.spec_signature())
        },
{
    if json.service_id != layout.service_id {
        return Err(JsonError::ServiceIdMismatch);
    }
    if json.message_id != layout.message_id {
        return Err(JsonError::MessageIdMismatch);
    }
    if json.signature.len() != SIGNATURE_SIZE {
        return Err(JsonError::BadSignature);
    }
    let ghost found = found_values(json.body@, names@);
    let ghost fs = layout.fields@;
    let limit: usize = 0xFFFF_FFFF - (10 + layout.body_size as usize + SIGNATURE_SIZE);
    let mut total: usize = 0;
    let mut values: Vec<FieldValue> = Vec::new();
    let mut i: usize = 0;
    while i < layout.fields.len()
        invariant
            fs == layout.fields@,
            layout_ok(*layout),
            json.service_id == layout.service_id,
            json.message_id == layout.message_id,
            json.signature@.len() == SIGNATURE_SIZE,
            names@.len() == fs.len(),
            found == found_values(json.body@, names@),
            limit == 0xFFFF_FFFF - (10 + layout.body_size + SIGNATURE_SIZE),
            i <= fs.len(),
            data_view(values@) == found.take(i as int),
            forall|k: int| 0 <= k < i ==> (#[trigger] lookup(json.body@, names@[k]@)) is Some,
            conforms(fs.take(i as int), found.take(i as int)),
            total == crate::message::data_bytes(found.take(i as int)).len(),
            total <= limit,
        decreases fs.len() - i,
    {
        let d = layout.fields[i];
        assert(crate::message::decl_ok(fs[i as int]));
        let v = match find_entry(&json.body, &names[i]) {
            Some(v) => v,
            None => {
                return Err(JsonError::MissingField);
            },
        };
        assert(found[i as int] == v@);
        if !value_fits_exec(d.kind, d.to - d.from, v) {
            assert(!crate::message::value_fits(fs[i as int], found[i as int]));
            return Err(JsonError::FieldMismatch);
        }
        let ghost next = found.take(i + 1);
        proof {
            assert(next.drop_last() =~= found.take(i as int));
            assert(next.last() == v@);
        }
        if let FieldValue::Bytes(b) = v {
            if b.len() > limit - total {
                proof {
                    crate::message::lemma_data_prefix(found, i + 1);
                }
                return Err(JsonError::TooLong);
            }
            total = total + b.len();
        }
        values.push(copy_value(v));
        proof {
            assert(data_view(values@) =~= next);
            assert(fs.take(i + 1).drop_last() =~= fs.take(i as int));
            assert forall|k: int| 0 <= k < i + 1 implies crate::message::value_fits(
                fs.take(i + 1)[k],
                #[trigger] next[k],
            ) by {
                if k < i {
                    assert(fs.take(i + 1)[k] == fs.take(i as int)[k]);
                    assert(next[k] == found.take(i as int)[k]);
                }
            }
        }
        i += 1;
    }
    proof {
        assert(fs.take(i as int) =~= fs);
        assert(found.take(i as int) =~= found);
    }
    Ok(Message::assemble(
        layout,
        json.protocol_version,
        json.network_id,
        values,
        json.signature.as_slice(),
    ))
}

} // verus!
