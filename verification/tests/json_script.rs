use file_parts::error::ScriptError;
use file_parts::json_generate_script::identifier::strip_hyphens;
use file_parts::json_generate_script::{
    assign_ids, format_json, generate_file, generate_id, with_id_fields, JsonValue, Record,
};
use file_parts::lines::contains_chars;

fn text(value: &str) -> JsonValue {
    JsonValue::Text(value.to_string())
}

fn number(value: i64) -> JsonValue {
    JsonValue::Other(serde_json::Value::from(value))
}

fn json_text(value: &str) -> serde_json::Value {
    serde_json::Value::String(value.to_string())
}

fn is_id(id: &str) -> bool {
    id.len() == 32 && id.chars().all(|c| c.is_ascii_digit() || ('a'..='f').contains(&c))
}

#[test]
fn test_generate_file() {
    let content = "[{\n    \"name\": \"Alice\",\n    \"age\": 20,\n    \"email\": \"alice@example.com\"}]\n    ";
    assert!(!content.is_empty());
    let file_content = generate_file(content).unwrap();
    assert!(file_content.contains("id"));
    assert!(file_content.contains("_id"));
}

#[test]
fn generate_id_test() {
    println!("generate id test");
    let id = generate_id();
    println!("generate id : {}", id);
    assert!(id != "");
    assert!(!id.contains("-"))
}

#[test]
fn test_string_default_value() {
    let id = String::new();
    assert!(id == "");
}

#[test]
fn an_id_is_thirty_two_lowercase_hex_digits() {
    for _ in 0..50 {
        let id = generate_id();
        assert!(is_id(&id), "id {:?}", id);
    }
}

#[test]
fn ids_differ_from_call_to_call() {
    assert_ne!(generate_id(), generate_id());
}

#[test]
fn hyphens_are_taken_out() {
    assert_eq!(
        strip_hyphens("67e55044-10b1-426f-9247-bb680e5fe0c8"),
        "67e5504410b1426f9247bb680e5fe0c8"
    );
    assert_eq!(strip_hyphens("--a--b-"), "ab");
    assert_eq!(strip_hyphens(""), "");
    assert_eq!(strip_hyphens("---"), "");
    assert_eq!(strip_hyphens("no hyphen"), "no hyphen");
}

#[test]
fn volatile_lines_are_dropped() {
    let export = "{\n  \"_id\": { \"$oid\": \"5f1\" },\n  \"name\": \"Alice\",\n  \"createdAt\": { \"$date\": 1 },\n  \"updateUserId\": 7,\n  \"createUserId\": 8,\n  \"age\": 20\n}\n";
    assert_eq!(format_json(export), "{\n  \"name\": \"Alice\",\n  \"age\": 20\n}\n");
}

#[test]
fn every_line_that_stays_ends_in_a_line_feed() {
    assert_eq!(format_json("a"), "a\n");
    assert_eq!(format_json("a\n"), "a\n");
    assert_eq!(format_json("a\nb"), "a\nb\n");
    assert_eq!(format_json("a\n\nb\n"), "a\n\nb\n");
    assert_eq!(format_json("\n"), "\n");
    assert_eq!(format_json("\n\n"), "\n\n");
    assert_eq!(format_json(""), "");
}

#[test]
fn a_carriage_return_before_the_line_feed_goes_with_it() {
    assert_eq!(format_json("a\r\nb\r\n"), "a\nb\n");
    assert_eq!(format_json("a\r\r\nb"), "a\r\nb\n");
    assert_eq!(format_json("a\rb\n"), "a\rb\n");
    assert_eq!(format_json("a\r"), "a\r\n");
    assert_eq!(format_json("\r\n"), "\n");
}

#[test]
fn format_json_agrees_with_the_lines_of_std() {
    let texts = [
        "", "a", "a\n", "\n", "\r", "\r\n", "a\r\nb", "foo\nbar\n\r\nbaz\r", "x $oid y\nkeep\n$date",
        "updateUserId\r\ncreateUserId", "one\ntwo $dat\n$oi d\n\n\n", "\u{6587}\u{4ef6}\n$oid\u{6587}",
    ];
    for t in texts {
        let mut expected = String::new();
        for line in t.lines() {
            if line.contains("$oid") || line.contains("$date") {
                continue;
            }
            if line.contains("updateUserId") || line.contains("createUserId") {
                continue;
            }
            expected.push_str(line);
            expected.push('\n');
        }
        assert_eq!(format_json(t), expected, "text {:?}", t);
    }
}

#[test]
fn only_whole_marks_make_a_line_volatile() {
    assert_eq!(format_json("$oi\n$dat\nupdateUserI\ncreateUser\n"), "$oi\n$dat\nupdateUserI\ncreateUser\n");
    assert_eq!(format_json("oid$\nUpdateUserId\n$OID\n"), "oid$\nUpdateUserId\n$OID\n");
    assert_eq!(format_json("x$oidx\n$$date\nmyupdateUserIds\n"), "");
    assert_eq!(format_json("$oid"), "");
}

#[test]
fn search_for_a_word_in_a_line() {
    let chars = |s: &str| s.chars().collect::<Vec<char>>();
    assert!(contains_chars(&chars("hello world"), &chars("o w")));
    assert!(contains_chars(&chars("hello"), &chars("hello")));
    assert!(contains_chars(&chars("hello"), &chars("")));
    assert!(contains_chars(&chars(""), &chars("")));
    assert!(contains_chars(&chars("aab"), &chars("ab")));
    assert!(!contains_chars(&chars("hello"), &chars("hello!")));
    assert!(!contains_chars(&chars("abc"), &chars("ac")));
    assert!(!contains_chars(&chars(""), &chars("a")));
}

#[test]
fn a_record_keeps_one_value_for_each_key() {
    let record = Record::new();
    assert!(record.get("name").is_none());
    let record = record.with_field("name", text("Alice"));
    let record = record.with_field("age", number(20));
    assert_eq!(record.get("name"), Some(&text("Alice")));
    assert_eq!(record.get("age"), Some(&number(20)));
    assert!(record.get("Name").is_none());
    assert!(record.get("").is_none());
    let record = record.with_field("name", text("Bob"));
    assert_eq!(record.get("name"), Some(&text("Bob")));
    assert_eq!(record.get("age"), Some(&number(20)));
    let record = record.with_field("age", JsonValue::Other(serde_json::Value::Null));
    let record = record.with_field("email", text("bob@example.com"));
    assert_eq!(record.get("age"), Some(&JsonValue::Other(serde_json::Value::Null)));
    assert_eq!(record.get("email"), Some(&text("bob@example.com")));
    assert_eq!(record.get("name"), Some(&text("Bob")));
}

#[test]
fn id_fields_are_set_beside_the_others() {
    let record = Record::new().with_field("name", text("Alice")).with_field("id", number(5));
    let record = with_id_fields(record, "0123456789abcdef0123456789abcdef");
    assert_eq!(record.get("_id"), Some(&text("0123456789abcdef0123456789abcdef")));
    assert_eq!(record.get("id"), Some(&text("0123456789abcdef0123456789abcdef")));
    assert_eq!(record.get("name"), Some(&text("Alice")));
}

#[test]
fn every_record_gets_one_fresh_id_under_both_keys() {
    let records = vec![
        Record::new().with_field("name", text("Alice")),
        Record::new(),
        Record::new().with_field("_id", text("stale")).with_field("n", number(1)),
    ];
    let records = assign_ids(records);
    assert_eq!(records.len(), 3);
    let mut seen = Vec::new();
    for record in &records {
        let id = match record.get("_id") {
            Some(JsonValue::Text(id)) => id.clone(),
            other => panic!("no text under _id: {:?}", other),
        };
        assert!(is_id(&id), "id {:?}", id);
        assert_eq!(record.get("id"), Some(&text(&id)));
        assert!(!seen.contains(&id));
        seen.push(id);
    }
    assert_eq!(records[0].get("name"), Some(&text("Alice")));
    assert_eq!(records[2].get("n"), Some(&number(1)));
    assert!(records[1].get("name").is_none());
}

#[test]
fn generate_file_keeps_the_fields_and_adds_the_ids() {
    let content = "[{\"name\": \"Alice\", \"age\": 20, \"tags\": [\"a\", {\"k\": null}]}, {}, {\"id\": 5}]";
    let out = generate_file(content).unwrap();
    let parsed: serde_json::Value = serde_json::from_str(&out).unwrap();
    let list = parsed.as_array().unwrap();
    assert_eq!(list.len(), 3);
    for item in list {
        let id = item.get("_id").unwrap().as_str().unwrap();
        assert!(is_id(id), "id {:?}", id);
        assert_eq!(item.get("id").unwrap().as_str(), Some(id));
    }
    assert_eq!(list[0].get("name"), Some(&json_text("Alice")));
    assert_eq!(list[0].get("age"), Some(&serde_json::Value::from(20)));
    let tags: serde_json::Value = serde_json::from_str("[\"a\", {\"k\": null}]").unwrap();
    assert_eq!(list[0].get("tags"), Some(&tags));
    assert_eq!(list[0].as_object().unwrap().len(), 5);
    assert_eq!(list[1].as_object().unwrap().len(), 2);
    assert_eq!(list[2].as_object().unwrap().len(), 2);
    assert!(out.contains("\n  {"));
}

#[test]
fn generate_file_writes_the_fields_by_ascending_key() {
    let content = "[{\"zeta\": 1, \"id\": 0, \"Alpha\": 2, \"name\": \"x\", \"a\": null}, {\"b\": [], \"B\": {}}]";
    let out = generate_file(content).unwrap();
    let parsed: serde_json::Value = serde_json::from_str(&out).unwrap();
    let ids: Vec<String> = parsed
        .as_array()
        .unwrap()
        .iter()
        .map(|item| item.get("_id").unwrap().as_str().unwrap().to_string())
        .collect();
    let expected = format!(
        "[\n  {{\n    \"Alpha\": 2,\n    \"_id\": \"{0}\",\n    \"a\": null,\n    \"id\": \"{0}\",\n    \"name\": \"x\",\n    \"zeta\": 1\n  }},\n  {{\n    \"B\": {{}},\n    \"_id\": \"{1}\",\n    \"b\": [],\n    \"id\": \"{1}\"\n  }}\n]",
        ids[0], ids[1]
    );
    assert_eq!(out, expected);
}

#[test]
fn generate_file_of_an_empty_list() {
    assert_eq!(generate_file("[]"), Ok("[]".to_string()));
}

#[test]
fn generate_file_fails_on_what_is_no_list_of_objects() {
    assert_eq!(generate_file(""), Err(ScriptError::NotRecords));
    assert_eq!(generate_file("{\"a\": 1}"), Err(ScriptError::NotRecords));
    assert_eq!(generate_file("[1, 2]"), Err(ScriptError::NotRecords));
    assert_eq!(generate_file("[{\"a\": 1}"), Err(ScriptError::NotRecords));
    assert_eq!(generate_file("not json"), Err(ScriptError::NotRecords));
}
