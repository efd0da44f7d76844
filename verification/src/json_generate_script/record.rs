//! JSON records: objects whose fields are looked up by their key.
//!
//! A value that is a JSON string is held as its text. Any other value is a
//! value of the `serde_json` crate, which the library carries through and
//! never looks inside.

use vstd::prelude::*;

verus! {

#[verifier::external_type_specification]
#[verifier::external_body]
pub struct ExJsonValue(serde_json::Value);

#[verifier::external_type_specification]
#[verifier::external_body]
pub struct ExJsonError(serde_json::Error);

/// The value of a field.
#[derive(Debug, PartialEq)]
pub enum JsonValue {
    /// A JSON string, as its text.
    Text(String),
    /// A JSON value of another kind.
    Other(serde_json::Value),
}

/// The value of a field as a mathematical value.
pub enum JsonValueView {
    Text(Seq<char>),
    Other(serde_json::Value),
}

impl View for JsonValue {
    type V = JsonValueView;

    open spec fn view(&self) -> JsonValueView {
        match self {
            JsonValue::Text(text) => JsonValueView::Text(text@),
            JsonValue::Other(value) => JsonValueView::Other(*value),
        }
    }
}

/// One field of a record.
struct Field {
    key: String,
    value: JsonValue,
}

/// A record: fields with distinct keys. The order in which they are held
/// says nothing; a record is the map from its keys to its values.
pub struct Record {
    fields: Vec<Field>,
}

/// Whether no two of the fields have the same key.
spec fn keys_distinct(fields: Seq<Field>) -> bool {
    forall|i: int, j: int|
        0 <= i < j < fields.len() ==> (#[trigger] fields[i]).key@ != (#[trigger] fields[j]).key@
}

/// Whether the field at position `i` has the key `key`.
spec fn has_key_at(fields: Seq<Field>, key: Seq<char>, i: int) -> bool {
    0 <= i < fields.len() && fields[i].key@ == key
}

/// The fields as a map from keys to values.
spec fn fields_map(fields: Seq<Field>) -> Map<Seq<char>, JsonValueView> {
    Map::new(
        |key: Seq<char>| exists|i: int| has_key_at(fields, key, i),
        |key: Seq<char>| fields[choose|i: int| has_key_at(fields, key, i)].value@,
    )
}

/// Among fields with distinct keys, a key stands at one position only.
proof fn lemma_key_position(fields: Seq<Field>, key: Seq<char>, i: int)
    requires
        keys_distinct(fields),
        has_key_at(fields, key, i),
    ensures
        fields_map(fields).contains_key(key),
        fields_map(fields)[key] == fields[i].value@,
        (choose|j: int| has_key_at(fields, key, j)) == i,
{
    let j = choose|j: int| has_key_at(fields, key, j);
    if j < i {
        assert(fields[j].key@ != fields[i].key@);
    } else if i < j {
        assert(fields[i].key@ != fields[j].key@);
    }
}

impl View for Record {
    type V = Map<Seq<char>, JsonValueView>;

    closed spec fn view(&self) -> Map<Seq<char>, JsonValueView> {
        fields_map(self.fields@)
    }
}

impl Record {
    /// What holds of every record: no two of its fields have the same key.
    #[verifier::type_invariant]
    pub closed spec fn well_formed(self) -> bool {
        keys_distinct(self.fields@)
    }

    /// A record without fields.
    pub fn new() -> (record: Record)
        ensures
            record@ == Map::<Seq<char>, JsonValueView>::empty(),
    {
        let record = Record { fields: Vec::new() };
        assert(record@ =~= Map::<Seq<char>, JsonValueView>::empty());
        record
    }

    /// The position of the field with the key `key`, if there is one.
    fn position(&self, key: &str) -> (r: Option<usize>)
        ensures
            match r {
                Some(i) => has_key_at(self.fields@, key@, i as int),
                None => forall|i: int| !has_key_at(self.fields@, key@, i),
            },
    {
        let wanted = key.to_owned();
        let mut i: usize = 0;
        while i < self.fields.len()
            invariant
                i <= self.fields@.len(),
                wanted@ == key@,
                forall|j: int| 0 <= j < i ==> self.fields@[j].key@ != key@,
            decreases self.fields@.len() - i,
        {
            if self.fields[i].key == wanted {
                return Some(i);
            }
            i += 1;
        }
        None
    }

    /// The value of the field with the key `key`, if the record has one.
    pub fn get(&self, key: &str) -> (r: Option<&JsonValue>)
        ensures
            match r {
                Some(value) => self@.contains_key(key@) && self@[key@] == value@,
                None => !self@.contains_key(key@),
            },
    {
        proof {
            use_type_invariant(self);
        }
        match self.position(key) {
            Some(i) => {
                proof {
                    lemma_key_position(self.fields@, key@, i as int);
                }
                Some(&self.fields[i].value)
            },
            None => None,
        }
    }

    /// The record with the field `key` set to `value`: the field is added
    /// where the record has none with that key, and else gets the new value.
    /// The other fields stay as they are.
    pub fn with_field(self, key: &str, value: JsonValue) -> (record: Record)
        ensures
            record@ == self@.insert(key@, value@),
    {
        proof {
            use_type_invariant(&self);
        }
        let found = self.position(key);
        let mut fields = self.fields;
        let ghost before = fields@;
        let ghost wanted = fields_map(before).insert(key@, value@);
        let field = Field { key: key.to_owned(), value };
        match found {
            Some(i) => {
                fields.set(i, field);
                proof {
                    let after = fields@;
                    assert forall|a: int, b: int| 0 <= a < b < after.len() implies (
                    #[trigger] after[a]).key@ != (#[trigger] after[b]).key@ by {
                        assert(after[a].key@ == before[a].key@);
                        assert(after[b].key@ == before[b].key@);
                    }
                    lemma_key_position(after, key@, i as int);
                    assert forall|k: Seq<char>| #[trigger] wanted.contains_key(k) implies fields_map(
                        after,
                    ).contains_key(k) && fields_map(after)[k] == wanted[k] by {
                        if k != key@ {
                            let j = choose|j: int| has_key_at(before, k, j);
                            assert(after[j] == before[j]);
                            assert(has_key_at(after, k, j));
                            lemma_key_position(before, k, j);
                            lemma_key_position(after, k, j);
                        }
                    }
                    assert forall|k: Seq<char>| #[trigger]
                        fields_map(after).contains_key(k) implies wanted.contains_key(k) by {
                        let j = choose|j: int| has_key_at(after, k, j);
                        assert(after[j].key@ == before[j].key@);
                        assert(has_key_at(before, k, j));
                    }
                    assert(fields_map(after) =~= wanted);
                }
            },
            None => {
                fields.push(field);
                proof {
                    let after = fields@;
                    let last = before.len() as int;
                    assert forall|a: int, b: int| 0 <= a < b < after.len() implies (
                    #[trigger] after[a]).key@ != (#[trigger] after[b]).key@ by {
                        assert(after[a] == before[a]);
                        if b < last {
                            assert(after[b] == before[b]);
                        } else {
                            assert(!has_key_at(before, key@, a));
                        }
                    }
                    lemma_key_position(after, key@, last);
                    assert forall|k: Seq<char>| #[trigger] wanted.contains_key(k) implies fields_map(
                        after,
                    ).contains_key(k) && fields_map(after)[k] == wanted[k] by {
                        if k != key@ {
                            let j = choose|j: int| has_key_at(before, k, j);
                            assert(after[j] == before[j]);
                            assert(has_key_at(after, k, j));
                            lemma_key_position(before, k, j);
                            lemma_key_position(after, k, j);
                        }
                    }
                    assert forall|k: Seq<char>| #[trigger]
                        fields_map(after).contains_key(k) implies wanted.contains_key(k) by {
                        let j = choose|j: int| has_key_at(after, k, j);
                        if j < last {
                            assert(after[j] == before[j]);
                            assert(has_key_at(before, k, j));
                        }
                    }
                    assert(fields_map(after) =~= wanted);
                }
            },
        }
        Record { fields }
    }
}

/// What `serde_json` reads from `text` as a list of objects: the fields of
/// each object in the order of the list, and nothing where the text is no
/// such list. It is what `serde_json::from_str` gives for a list of maps from
/// strings to JSON values, a string value taken as its text.
pub uninterp spec fn records_read(text: Seq<char>) -> Option<Seq<Map<Seq<char>, JsonValueView>>>;

/// Whether `serde_json` reads `text` as a list of objects.
pub open spec fn reads_as_records(text: Seq<char>) -> bool {
    records_read(text) is Some
}

/// The views of a list of records.
pub open spec fn records_view(records: Seq<Record>) -> Seq<Map<Seq<char>, JsonValueView>> {
    Seq::new(records.len(), |i: int| records[i]@)
}

/// Reads a JSON text as a list of records.
///
/// This calls `serde_json::from_str` for a list of maps from strings to JSON
/// values and hands out each map as a record, field by field, a string
/// value as its text. The call decides whether the text is such a list and
/// what the records hold, and the contract gives that result its name: the
/// same text is read as the same records. Of the records it claims besides
/// that no key stands twice in one of them, as in the maps that they are
/// made from.
#[verifier::external_body]
pub(crate) fn parse_records(content: &str) -> (r: Result<Vec<Record>, serde_json::Error>)
    ensures
        match r {
            Ok(records) => records_read(content@) == Some(records_view(records@)),
            Err(_) => records_read(content@) is None,
        },
        r matches Ok(records) ==> forall|i: int|
            0 <= i < records@.len() ==> (#[trigger] records@[i]).well_formed(),
{
    let data: Vec<std::collections::HashMap<String, serde_json::Value>> = serde_json::from_str(
        content,
    )?;
    let field = |(key, value)| match value {
        serde_json::Value::String(text) => Field { key, value: JsonValue::Text(text) },
        other => Field { key, value: JsonValue::Other(other) },
    };
    Ok(data.into_iter().map(|m| Record { fields: m.into_iter().map(field).collect() }).collect())
}

/// The indented JSON text that `serde_json` writes for a list of records:
/// what `serde_json::to_string_pretty` gives for the list of their fields,
/// the fields of each record by ascending key and a text as a JSON string.
pub uninterp spec fn records_written(records: Seq<Map<Seq<char>, JsonValueView>>) -> Seq<char>;

/// Writes a list of records as indented JSON text.
///
/// This hands the records to `serde_json::to_string_pretty` as a list of
/// ordered maps from their keys to their values, a text as a JSON string.
/// The contract claims that the call succeeds: the crate writes into a
/// buffer in memory, the keys are strings, and its serializer for JSON
/// values fails only where the writer does. It gives the text its name: an
/// ordered map is walked by ascending key, so the same records are written
/// as the same text.
#[verifier::external_body]
pub(crate) fn render_records(records: Vec<Record>) -> (r: Result<String, serde_json::Error>)
    ensures
        r is Ok,
        r matches Ok(text) ==> text@ == records_written(records_view(records@)),
{
    let value = |value| match value {
        JsonValue::Text(text) => serde_json::Value::String(text),
        JsonValue::Other(other) => other,
    };
    let data: Vec<std::collections::BTreeMap<String, serde_json::Value>> = records.into_iter().map(
        |r| r.fields.into_iter().map(|f| (f.key, value(f.value))).collect(),
    ).collect();
    serde_json::to_string_pretty(&data)
}

} // verus!
