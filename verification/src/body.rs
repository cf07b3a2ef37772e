//! The JSON body of a request.
use serde_json::Value;
use vstd::prelude::*;

use crate::errors::Refusal;
use crate::geometry::{key_of, order_key};
use crate::json::{scalar_text, value_to_string, Scalar};
use crate::state::{text_in, texts};
use crate::text::same_text;

verus! {

/// Most bytes that a body may have.
pub const MAX_BODY: usize = 2_000_000;

/// A field of a JSON object, as far as requests look at it: its text or number, its
/// value as an integer and as the bit pattern of a double where it is a number, and
/// its items where it is a list.
pub struct Field {
    pub scalar: Scalar,
    pub integer: Option<i64>,
    pub bits: Option<u64>,
    pub items: Vec<Scalar>,
}

#[verifier::ext_equal]
pub struct FieldView {
    pub text: Option<Seq<char>>,
    pub id: Option<Seq<char>>,
    pub integer: Option<i64>,
    pub bits: Option<u64>,
    pub items: Seq<Option<Seq<char>>>,
}

impl View for Field {
    type V = FieldView;

    open spec fn view(&self) -> FieldView {
        FieldView {
            text: match self.scalar {
                Scalar::Text(text) => Some(text@),
                _ => None,
            },
            id: scalar_text(self.scalar),
            integer: self.integer,
            bits: self.bits,
            items: item_texts(self.items@),
        }
    }
}

/// The texts of the items of a list, where they have one.
pub open spec fn item_texts(items: Seq<Scalar>) -> Seq<Option<Seq<char>>> {
    Seq::new(items.len(), |i: int| scalar_text(items[i]))
}

/// The fields of an object.
pub open spec fn field_views(fields: Seq<(String, Field)>) -> Seq<(Seq<char>, FieldView)> {
    Seq::new(fields.len(), |i: int| (fields[i].0@, fields[i].1@))
}

/// The fields of the JSON object that bytes spell, none for another JSON value, and
/// nothing for bytes that are not JSON.
pub uninterp spec fn json_fields(bytes: Seq<u8>) -> Option<Seq<(Seq<char>, FieldView)>>;

/// `serde_json::from_slice` to a `Value`, of which the fields of an object are kept:
/// each by its kind, with what `Value::as_i64`, `as_f64` and `as_array` give of it.
#[verifier::external_body]
pub(crate) fn parse_json(bytes: &[u8]) -> (r: Option<Vec<(String, Field)>>)
    ensures
        match r {
            Some(fields) => json_fields(bytes@) == Some(field_views(fields@)),
            None => json_fields(bytes@) is None,
        },
{
    let scalar = |value: &Value| match value {
        Value::String(text) => Scalar::Text(text.clone()),
        Value::Number(number) => Scalar::Number(number.to_string()),
        _ => Scalar::Other,
    };
    let field = |value: &Value| Field {
        scalar: scalar(value),
        integer: value.as_i64(),
        bits: value.as_f64().map(|x| x.to_bits()),
        items: value.as_array().into_iter().flatten().map(scalar).collect(),
    };
    let value: Value = serde_json::from_slice(bytes).ok()?;
    Some(value.as_object().into_iter().flatten().map(|(k, v)| (k.clone(), field(v))).collect())
}

/// The first field of a name.
pub open spec fn field_of(fields: Seq<(Seq<char>, FieldView)>, name: Seq<char>) -> Option<FieldView>
    decreases fields.len(),
{
    if fields.len() == 0 {
        None
    } else if fields[0].0 == name {
        Some(fields[0].1)
    } else {
        field_of(fields.skip(1), name)
    }
}

fn find_field<'a>(fields: &'a Vec<(String, Field)>, name: &str) -> (r: Option<&'a Field>)
    ensures
        match r {
            Some(field) => field_of(field_views(fields@), name@) == Some(field@),
            None => field_of(field_views(fields@), name@) is None,
        },
{
    let ghost all = field_views(fields@);
    let mut i: usize = 0;
    proof {
        assert(all.skip(0) =~= all);
    }
    while i < fields.len()
        invariant
            all == field_views(fields@),
            i <= fields.len(),
            field_of(all, name@) == field_of(all.skip(i as int), name@),
        decreases fields.len() - i,
    {
        proof {
            assert(all.skip(i as int).skip(1) =~= all.skip(i + 1));
            assert(all.skip(i as int)[0] == all[i as int]);
        }
        let (key, field) = &fields[i];
        if same_text(key.as_str(), name) {
            return Some(field);
        }
        i += 1;
    }
    None
}

/// The text in a field, if it holds one.
pub open spec fn text_field(fields: Seq<(Seq<char>, FieldView)>, name: Seq<char>) -> Option<
    Seq<char>,
> {
    match field_of(fields, name) {
        Some(field) => field.text,
        None => None,
    }
}

pub fn get_text(fields: &Vec<(String, Field)>, name: &str) -> (r: Option<String>)
    ensures
        text_in(r) == text_field(field_views(fields@), name@),
{
    match find_field(fields, name) {
        Some(field) => match &field.scalar {
            Scalar::Text(text) => Some(text.clone()),
            _ => None,
        },
        None => None,
    }
}

/// The id in a field, which is a text or a number.
pub open spec fn id_field(fields: Seq<(Seq<char>, FieldView)>, name: Seq<char>) -> Option<
    Seq<char>,
> {
    match field_of(fields, name) {
        Some(field) => field.id,
        None => None,
    }
}

pub fn get_id(fields: &Vec<(String, Field)>, name: &str) -> (r: Option<String>)
    ensures
        text_in(r) == id_field(field_views(fields@), name@),
{
    match find_field(fields, name) {
        Some(field) => value_to_string(&field.scalar),
        None => None,
    }
}

/// The integer in a field, if it holds one.
pub open spec fn integer_field(fields: Seq<(Seq<char>, FieldView)>, name: Seq<char>) -> Option<
    i64,
> {
    match field_of(fields, name) {
        Some(field) => field.integer,
        None => None,
    }
}

pub fn get_integer(fields: &Vec<(String, Field)>, name: &str) -> (r: Option<i64>)
    ensures
        r == integer_field(field_views(fields@), name@),
{
    match find_field(fields, name) {
        Some(field) => field.integer,
        None => None,
    }
}

/// The number in a field as a coordinate, if it holds one.
pub open spec fn degrees_field(fields: Seq<(Seq<char>, FieldView)>, name: Seq<char>) -> Option<
    i64,
> {
    match field_of(fields, name) {
        Some(field) => match field.bits {
            Some(b) => Some(key_of(b)),
            None => None,
        },
        None => None,
    }
}

pub fn get_degrees(fields: &Vec<(String, Field)>, name: &str) -> (r: Option<i64>)
    ensures
        r == degrees_field(field_views(fields@), name@),
{
    match find_field(fields, name) {
        Some(field) => match field.bits {
            Some(b) => Some(order_key(b)),
            None => None,
        },
        None => None,
    }
}

/// The texts that are there.
pub open spec fn present(items: Seq<Option<Seq<char>>>) -> Seq<Seq<char>>
    decreases items.len(),
{
    if items.len() == 0 {
        Seq::empty()
    } else {
        match items.last() {
            Some(text) => present(items.drop_last()).push(text),
            None => present(items.drop_last()),
        }
    }
}

/// The ids in a list, those items left out that are none.
pub open spec fn ids_field(fields: Seq<(Seq<char>, FieldView)>, name: Seq<char>) -> Seq<Seq<char>> {
    match field_of(fields, name) {
        Some(field) => present(field.items),
        None => Seq::empty(),
    }
}

pub fn get_ids(fields: &Vec<(String, Field)>, name: &str) -> (r: Vec<String>)
    ensures
        texts(r@) == ids_field(field_views(fields@), name@),
{
    let mut out: Vec<String> = Vec::new();
    if let Some(field) = find_field(fields, name) {
        let items = &field.items;
        let ghost all = item_texts(items@);
        let mut i: usize = 0;
        proof {
            assert(texts(out@) =~= present(all.take(0)));
        }
        while i < items.len()
            invariant
                all == item_texts(items@),
                i <= items.len(),
                texts(out@) == present(all.take(i as int)),
            decreases items.len() - i,
        {
            proof {
                assert(all.take(i + 1).drop_last() =~= all.take(i as int));
                assert(all.take(i + 1).last() == all[i as int]);
            }
            if let Some(text) = value_to_string(&items[i]) {
                let ghost before = out@;
                out.push(text);
                proof {
                    assert(texts(out@) =~= texts(before).push(text@));
                }
            }
            i += 1;
        }
        proof {
            assert(all.take(i as int) =~= all);
        }
    } else {
        proof {
            assert(texts(out@) =~= Seq::<Seq<char>>::empty());
        }
    }
    out
}

/// The fields of a body: none where it is empty.
pub open spec fn body_fields(bytes: Seq<u8>) -> Result<Seq<(Seq<char>, FieldView)>, Refusal> {
    if bytes.len() > MAX_BODY {
        Err(Refusal::BodyTooLarge)
    } else if bytes.len() == 0 {
        Ok(Seq::empty())
    } else {
        match json_fields(bytes) {
            Some(fields) => Ok(fields),
            None => Err(Refusal::InvalidJson),
        }
    }
}

/// Reads the body of a request.
pub fn parse_body_json(bytes: &Vec<u8>) -> (r: Result<Vec<(String, Field)>, Refusal>)
    ensures
        match r {
            Ok(fields) => body_fields(bytes@) == Ok::<Seq<(Seq<char>, FieldView)>, Refusal>(
                field_views(fields@),
            ),
            Err(refusal) => body_fields(bytes@) == Err::<Seq<(Seq<char>, FieldView)>, Refusal>(
                refusal,
            ),
        },
{
    if bytes.len() > MAX_BODY {
        return Err(Refusal::BodyTooLarge);
    }
    if bytes.len() == 0 {
        let none: Vec<(String, Field)> = Vec::new();
        proof {
            assert(field_views(none@) =~= Seq::empty());
        }
        return Ok(none);
    }
    match parse_json(bytes.as_slice()) {
        Some(fields) => Ok(fields),
        None => Err(Refusal::InvalidJson),
    }
}

} // verus!
