//! Cleaning an exported list of JSON records: dropping the lines that hold
//! volatile fields, and giving every record a fresh identifier.

use vstd::prelude::*;
use crate::error::ScriptError;
use crate::json_generate_script::identifier::is_id;
use crate::json_generate_script::record::{
    JsonValueView, parse_records, reads_as_records, records_read, records_view, records_written,
    render_records,
};
use crate::lines::{after_first_line, contains_chars, first_line, lemma_line_end, occurs_in};
use crate::text::{chars_between, chars_of};

pub mod identifier;
pub mod record;

pub use self::identifier::generate_id;
pub use self::record::{JsonValue, Record};

verus! {

/// Whether a line holds a field that changes from one export to the next:
/// an object id, a date, or the user who created or updated the record.
pub open spec fn is_volatile_line(line: Seq<char>) -> bool {
    ||| occurs_in("$oid"@, line)
    ||| occurs_in("$date"@, line)
    ||| occurs_in("updateUserId"@, line)
    ||| occurs_in("createUserId"@, line)
}

/// What one line leaves in the output: nothing when it is volatile, else
/// the line with a line feed behind it.
pub open spec fn kept_line(line: Seq<char>) -> Seq<char> {
    if is_volatile_line(line) {
        Seq::empty()
    } else {
        line.push('\n')
    }
}

/// The text without its volatile lines. Every line that stays ends in a
/// single line feed, whatever its line ending was.
pub open spec fn format_lines(text: Seq<char>) -> Seq<char>
    decreases text.len(),
{
    if text.len() == 0 {
        Seq::empty()
    } else {
        kept_line(first_line(text)) + format_lines(after_first_line(text))
    }
}

/// Tells whether a line is volatile.
pub fn is_volatile(line: &Vec<char>) -> (r: bool)
    ensures
        r == is_volatile_line(line@),
{
    let oid = chars_of("$oid");
    let date = chars_of("$date");
    let updated_by = chars_of("updateUserId");
    let created_by = chars_of("createUserId");
    contains_chars(line, &oid) || contains_chars(line, &date) || contains_chars(line, &updated_by)
        || contains_chars(line, &created_by)
}

/// Drops the volatile lines of an export: those that hold `$oid`, `$date`,
/// `updateUserId` or `createUserId`. The lines that stay keep their order,
/// and each ends in a line feed.
pub fn format_json(text: &str) -> (out: String)
    ensures
        out@ == format_lines(text@),
{
    let chars = chars_of(text);
    let len = chars.len();
    let mut out = String::new();
    let mut pos: usize = 0;
    assert(chars@.subrange(0, len as int) =~= chars@);
    while pos < len
        invariant
            len == chars.len(),
            chars@ == text@,
            pos <= len,
            out@ + format_lines(chars@.subrange(pos as int, len as int)) == format_lines(text@),
        decreases len - pos,
    {
        let ghost rest = chars@.subrange(pos as int, len as int);
        let mut nl: usize = pos;
        while nl < len && chars[nl] != '\n'
            invariant
                len == chars.len(),
                pos <= nl <= len,
                forall|i: int| pos <= i < nl ==> chars@[i] != '\n',
            decreases len - nl,
        {
            nl += 1;
        }
        let terminated = nl < len;
        let end: usize = if terminated && nl > pos && chars[nl - 1] == '\r' {
            (nl - 1) as usize
        } else {
            nl
        };
        let next: usize = if terminated {
            (nl + 1) as usize
        } else {
            nl
        };
        let line = chars_between(&chars, pos, end);
        proof {
            lemma_line_end(rest, nl - pos);
            let raw = rest.subrange(0, nl - pos);
            if nl > pos {
                assert(raw.last() == chars@[nl - 1]);
            }
            assert(first_line(rest) =~= line@);
            assert(after_first_line(rest) =~= chars@.subrange(next as int, len as int));
        }
        let ghost before = out@;
        if !is_volatile(&line) {
            let mut i: usize = 0;
            while i < line.len()
                invariant
                    i <= line.len(),
                    out@ == before + line@.take(i as int),
                decreases line.len() - i,
            {
                out.push(line[i]);
                assert(line@.take(i + 1) =~= line@.take(i as int).push(line@[i as int]));
                i += 1;
            }
            assert(line@.take(i as int) =~= line@);
            out.push('\n');
        }
        assert(out@ =~= before + kept_line(line@));
        assert((before + kept_line(line@)) + format_lines(
            chars@.subrange(next as int, len as int),
        ) =~= before + (kept_line(line@) + format_lines(
            chars@.subrange(next as int, len as int),
        )));
        pos = next;
    }
    assert(out@ + Seq::<char>::empty() =~= out@);
    out
}

/// Whether `after` is `before` with the identifier `id` in it: the fields
/// `_id` and `id` hold the text `id`, and every other field is as it was.
pub open spec fn has_id_set(
    before: Map<Seq<char>, JsonValueView>,
    after: Map<Seq<char>, JsonValueView>,
    id: Seq<char>,
) -> bool {
    after == before.insert("_id"@, JsonValueView::Text(id)).insert("id"@, JsonValueView::Text(id))
}

/// Whether `after` is `before` with some identifier set in it.
pub open spec fn has_fresh_id(
    before: Map<Seq<char>, JsonValueView>,
    after: Map<Seq<char>, JsonValueView>,
) -> bool {
    exists|id: Seq<char>| is_id(id) && #[trigger] has_id_set(before, after, id)
}

/// The record with the identifier `id` in it, under the key `_id` and under
/// the key `id`.
pub fn with_id_fields(record: Record, id: &str) -> (r: Record)
    ensures
        has_id_set(record@, r@, id@),
{
    let first = JsonValue::Text(id.to_owned());
    let second = JsonValue::Text(id.to_owned());
    record.with_field("_id", first).with_field("id", second)
}

/// Gives every record a fresh identifier of its own, under the key `_id`
/// and under the key `id`. The records keep their order and their other
/// fields.
pub fn assign_ids(records: Vec<Record>) -> (out: Vec<Record>)
    ensures
        out@.len() == records@.len(),
        forall|i: int| 0 <= i < out@.len() ==> has_fresh_id(records@[i]@, (#[trigger] out@[i])@),
{
    let ghost before = records@;
    let mut out: Vec<Record> = Vec::new();
    for record in it: records
        invariant
            it.seq() == before,
            out@.len() == it.index(),
            forall|i: int| 0 <= i < out@.len() ==> has_fresh_id(before[i]@, (#[trigger] out@[i])@),
    {
        let id = generate_id();
        let ghost old_view = record@;
        let updated = with_id_fields(record, id.as_str());
        assert(has_id_set(old_view, updated@, id@));
        out.push(updated);
    }
    out
}

/// Whether `text` is what is written for the records `before` once every
/// one of them has been given a fresh identifier: the records keep their
/// number, their order and their other fields.
pub open spec fn is_written_with_ids(
    before: Seq<Map<Seq<char>, JsonValueView>>,
    text: Seq<char>,
) -> bool {
    exists|after: Seq<Map<Seq<char>, JsonValueView>>|
        after.len() == before.len() && (forall|i: int|
            0 <= i < after.len() ==> has_fresh_id(before[i], #[trigger] after[i])) && text
            == #[trigger] records_written(after)
}

/// Gives every record of an export a fresh identifier and writes the
/// records back as indented JSON, the fields of each record by ascending
/// key.
///
/// Succeeds exactly when the text can be read as a list of objects, and
/// fails with `NotRecords` when it cannot.
pub fn generate_file(content: &str) -> (r: Result<String, ScriptError>)
    ensures
        r is Ok <==> reads_as_records(content@),
        r matches Ok(text) ==> records_read(content@) matches Some(before)
            && is_written_with_ids(before, text@),
        r matches Err(e) ==> e == ScriptError::NotRecords,
{
    let records = match parse_records(content) {
        Ok(records) => records,
        Err(_) => {
            return Err(ScriptError::NotRecords);
        },
    };
    let ghost before = records_view(records@);
    let records = assign_ids(records);
    let ghost after = records_view(records@);
    match render_records(records) {
        Ok(text) => {
            proof {
                assert forall|i: int| 0 <= i < after.len() implies has_fresh_id(
                    before[i],
                    #[trigger] after[i],
                ) by {}
                assert(text@ == records_written(after));
            }
            Ok(text)
        },
        Err(_) => vstd::pervasive::unreached(),
    }
}

} // verus!
