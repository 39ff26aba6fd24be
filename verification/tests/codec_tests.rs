use todo_cli::codec::decode_store;
use todo_cli::codec::encode_tasks;
use todo_cli::codec::parse_tasks;
use todo_cli::tasks::Task;

fn task(description: &str, done: bool) -> Task {
    Task { description: String::from(description), done }
}

fn same_tasks(a: &Vec<Task>, b: &Vec<Task>) -> bool {
    a.len() == b.len()
        && a.iter().zip(b.iter()).all(|(x, y)| x.description == y.description && x.done == y.done)
}

#[test]
fn encode_is_exact_compact_json() {
    let tasks = vec![task("Buy milk", false), task("Write report", true)];
    assert_eq!(
        encode_tasks(&tasks),
        "[{\"description\":\"Buy milk\",\"done\":false},{\"description\":\"Write report\",\"done\":true}]"
    );
}

#[test]
fn encode_empty_list() {
    let tasks: Vec<Task> = Vec::new();
    assert_eq!(encode_tasks(&tasks), "[]");
}

#[test]
fn encode_escapes_specials() {
    let tasks = vec![task("say \"hi\" \\ now", false)];
    assert_eq!(
        encode_tasks(&tasks),
        "[{\"description\":\"say \\\"hi\\\" \\\\ now\",\"done\":false}]"
    );
    let tasks = vec![task("tab\there", false)];
    assert_eq!(encode_tasks(&tasks), "[{\"description\":\"tab\\u0009here\",\"done\":false}]");
}

#[test]
fn round_trip_preserves_everything() {
    let tasks = vec![
        task("Buy milk", false),
        task("", true),
        task("Déjà vu ☕ 日本語", false),
        task("quote \" backslash \\ slash / newline\ncontrol\u{1}end", true),
    ];
    let encoded = encode_tasks(&tasks);
    let decoded = parse_tasks(&encoded).expect("round trip must parse");
    assert!(same_tasks(&tasks, &decoded));
    assert_eq!(encode_tasks(&decoded), encoded);
}

#[test]
fn round_trip_empty_list() {
    let tasks: Vec<Task> = Vec::new();
    let decoded = parse_tasks(&encode_tasks(&tasks)).expect("empty array must parse");
    assert!(decoded.is_empty());
}

#[test]
fn parse_plain_literal() {
    let decoded = parse_tasks("[{\"description\":\"a\",\"done\":true}]").expect("must parse");
    assert_eq!(decoded.len(), 1);
    assert_eq!(decoded[0].description, "a");
    assert!(decoded[0].done);
}

#[test]
fn parse_allows_whitespace_between_tokens() {
    let text = " [ {\n\t\"description\" : \"a b\" ,\r\n\"done\" : false } ,\
                 {\"description\":\"c\",\"done\":true} ] ";
    let decoded = parse_tasks(text).expect("must parse");
    assert_eq!(decoded.len(), 2);
    assert_eq!(decoded[0].description, "a b");
    assert!(!decoded[0].done);
    assert_eq!(decoded[1].description, "c");
    assert!(decoded[1].done);
}

#[test]
fn parse_decodes_escapes() {
    let decoded = parse_tasks(
        "[{\"description\":\"\\\"\\\\\\/\\b\\f\\n\\r\\t\\u0009\\u001b\",\"done\":false}]",
    )
    .expect("must parse");
    assert_eq!(decoded[0].description, "\"\\/\u{8}\u{c}\n\r\t\t\u{1b}");
}

#[test]
fn parse_rejects_malformed_content() {
    assert!(parse_tasks("").is_none());
    assert!(parse_tasks("   ").is_none());
    assert!(parse_tasks("garbage").is_none());
    assert!(parse_tasks("[").is_none());
    assert!(parse_tasks("[]x").is_none());
    assert!(parse_tasks("{}").is_none());
    assert!(parse_tasks("[{\"description\":\"a\",\"done\":false}").is_none());
    assert!(parse_tasks("[{\"description\":\"a\",\"done\":maybe}]").is_none());
    assert!(parse_tasks("[{\"description\":\"a\",\"done\":false},]").is_none());
    assert!(parse_tasks("[{\"done\":false}]").is_none());
    assert!(parse_tasks("[{\"description\":\"a\"}]").is_none());
    assert!(parse_tasks("[{\"done\":false,\"description\":\"a\",\"extra\":1}]").is_none());
    assert!(parse_tasks("[{\"description\":\"unterminated,\"done\":false}]").is_none());
    assert!(parse_tasks("[{\"description\":\"bad\\q\",\"done\":false}]").is_none());
    assert!(parse_tasks("[{\"description\":\"raw\ncontrol\",\"done\":false}]").is_none());
}

#[test]
fn parse_accepts_fields_in_either_order() {
    let decoded = parse_tasks("[{\"done\":true,\"description\":\"swapped\"}]").expect("must parse");
    assert_eq!(decoded.len(), 1);
    assert_eq!(decoded[0].description, "swapped");
    assert!(decoded[0].done);
    let decoded = parse_tasks(
        "[ {\"done\":false,\"description\":\"x\"} , {\"description\":\"y\",\"done\":true} ]",
    )
    .expect("must parse");
    assert_eq!(decoded.len(), 2);
    assert_eq!(decoded[0].description, "x");
    assert!(!decoded[0].done);
    assert_eq!(decoded[1].description, "y");
    assert!(decoded[1].done);
}

#[test]
fn decode_store_accepts_empty_content() {
    let decoded = decode_store("").expect("empty store is an empty list");
    assert!(decoded.is_empty());
    let decoded = decode_store("[]").expect("encoded empty list");
    assert!(decoded.is_empty());
}

#[test]
fn decode_store_rejects_malformed_content() {
    assert!(decode_store("not json").is_none());
}

#[test]
fn serde_json_reads_our_encoding() {
    let tasks = vec![task("Déjà ☕ \"q\" \\ tab\tend", true), task("", false)];
    let encoded = encode_tasks(&tasks);
    let value: serde_json::Value = serde_json::from_str(&encoded).expect("valid JSON");
    let items = value.as_array().expect("an array");
    assert_eq!(items.len(), 2);
    assert_eq!(
        items[0].get("description").and_then(|d| d.as_str()),
        Some("Déjà ☕ \"q\" \\ tab\tend")
    );
    assert_eq!(items[0].get("done").and_then(|d| d.as_bool()), Some(true));
    assert_eq!(items[1].get("description").and_then(|d| d.as_str()), Some(""));
    assert_eq!(items[1].get("done").and_then(|d| d.as_bool()), Some(false));
}

#[test]
fn we_read_serde_json_encoding() {
    let mut obj = serde_json::Map::new();
    obj.insert(
        String::from("description"),
        serde_json::Value::String(String::from("tab\there nl\n esc\u{1b} Déjà ☕")),
    );
    obj.insert(String::from("done"), serde_json::Value::Bool(true));
    let value = serde_json::Value::Array(vec![serde_json::Value::Object(obj)]);
    let encoded = serde_json::to_string(&value).expect("serializes");
    let decoded = parse_tasks(&encoded).expect("our parser reads serde_json output");
    assert_eq!(decoded.len(), 1);
    assert_eq!(decoded[0].description, "tab\there nl\n esc\u{1b} Déjà ☕");
    assert!(decoded[0].done);
}
