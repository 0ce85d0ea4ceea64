use vstd::prelude::*;

verus! {

/// One decoded input record: an immutable, dynamically shaped tree value.
/// Numbers keep the decimal text they were rendered with, strings and field
/// names hold their decoded content bytes, and object members keep the order
/// in which the decoder produced them.
pub enum Record {
    Null,
    Bool(bool),
    /// Decimal text of a number, as rendered by the decoder.
    Num(Vec<u8>),
    /// Content bytes of a string value.
    Str(Vec<u8>),
    Arr(Vec<Record>),
    /// Members in decoder order; names produced by the decoder are unique.
    Obj(Vec<(Vec<u8>, Record)>),
}

/// First member of `fields` whose name equals `name`.
pub open spec fn lookup_field(fields: Seq<(Vec<u8>, Record)>, name: Seq<u8>) -> Option<Record>
    decreases fields.len(),
{
    if fields.len() == 0 {
        None
    } else if fields[0].0@ == name {
        Some(fields[0].1)
    } else {
        lookup_field(fields.skip(1), name)
    }
}

/// The content of the string held by top-level member `name` of `r`, if `r`
/// is an object, the member is present, and its value is a string.
pub open spec fn field_string(r: Record, name: Seq<u8>) -> Option<Seq<u8>> {
    match r {
        Record::Obj(fields) => match lookup_field(fields@, name) {
            Some(Record::Str(s)) => Some(s@),
            _ => None,
        },
        _ => None,
    }
}

impl Record {
    /// Looks `name` up as a top-level member and returns a copy of its string
    /// content; `None` where the record is not an object, the member is
    /// missing, or its value is not a string.
    pub fn get_field_string(&self, name: &Vec<u8>) -> (r: Option<Vec<u8>>)
        ensures
            match r {
                Some(v) => field_string(*self, name@) == Some(v@),
                None => field_string(*self, name@) is None,
            },
    {
        match self {
            Record::Obj(fields) => {
                proof {
                    assert(fields@.skip(0) =~= fields@);
                }
                let mut i: usize = 0;
                while i < fields.len()
                    invariant
                        0 <= i <= fields@.len(),
                        *self == Record::Obj(*fields),
                        lookup_field(fields@, name@) == lookup_field(
                            fields@.skip(i as int),
                            name@,
                        ),
                    decreases fields@.len() - i,
                {
                    proof {
                        assert(fields@.skip(i as int)[0] == fields@[i as int]);
                    }
                    if crate::bytes_order::bytes_eq(&fields[i].0, name) {
                        match &fields[i].1 {
                            Record::Str(s) => {
                                return Some(vstd::slice::slice_to_vec(s.as_slice()));
                            },
                            _ => {
                                return None;
                            },
                        }
                    }
                    proof {
                        assert(fields@.skip(i as int).skip(1) =~= fields@.skip(i + 1));
                    }
                    i = i + 1;
                }
                proof {
                    assert(fields@.skip(i as int).len() == 0);
                }
                None
            },
            _ => None,
        }
    }
}

/// The record that the underlying decoder yields for one self-describing
/// document, if the bytes form one; the result depends on the bytes alone.
pub uninterp spec fn json_decode(bytes: Seq<u8>) -> Option<Record>;

#[verifier::external_type_specification]
#[verifier::external_body]
pub struct ExValue(serde_json::Value);

/// Relies on the shape of serde_json::Value: each variant is moved into the
/// corresponding `Record` variant, numbers as their rendered decimal text,
/// object members in the order the map yields them.
#[verifier::external_body]
fn record_from_value(v: &serde_json::Value) -> Record {
    match v {
        serde_json::Value::Null => Record::Null,
        serde_json::Value::Bool(b) => Record::Bool(*b),
        serde_json::Value::Number(n) => Record::Num(n.to_string().into_bytes()),
        serde_json::Value::String(s) => Record::Str(s.as_bytes().to_vec()),
        serde_json::Value::Array(a) => Record::Arr(a.iter().map(record_from_value).collect()),
        serde_json::Value::Object(o) => Record::Obj(
            o.iter().map(|(k, x)| (k.as_bytes().to_vec(), record_from_value(x))).collect(),
        ),
    }
}

/// Relies on serde_json::from_slice: decodes one document from exactly these
/// bytes, deterministically; trailing content other than whitespace fails.
#[verifier::external_body]
pub fn parse_record(bytes: &[u8]) -> (r: Option<Record>)
    ensures
        match r {
            Some(rec) => json_decode(bytes@) == Some(rec),
            None => json_decode(bytes@) is None,
        },
{
    match serde_json::from_slice::<serde_json::Value>(bytes) {
        Ok(v) => Some(record_from_value(&v)),
        Err(_) => None,
    }
}

} // verus!
