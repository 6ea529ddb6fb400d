use kiro_rs::anthropic::json::{
    block_token_texts, content_token_texts, json_to_string, key_less, normalize_block_for_hash,
    normalize_json_value, normalize_tool, sort_json_value, Json,
};
use kiro_rs::model::config::system_version_of;
use kiro_rs::text::{char_is_whitespace, trim};
use serde_json::Value;

fn to_json(v: &Value) -> Json {
    match v {
        Value::Null => Json::Null,
        Value::Bool(b) => Json::Bool(*b),
        Value::Number(n) => Json::Number(n.to_string()),
        Value::String(s) => Json::Str(s.clone()),
        Value::Array(items) => Json::Array(items.iter().map(to_json).collect()),
        Value::Object(map) => Json::Object(map.iter().map(|(k, x)| (k.clone(), to_json(x))).collect()),
    }
}

fn obj(members: Vec<(&str, Json)>) -> Json {
    Json::Object(members.into_iter().map(|(k, v)| (k.to_string(), v)).collect())
}

fn s(text: &str) -> Json {
    Json::Str(text.to_string())
}

#[test]
fn canonical_text_sorts_keys_at_every_depth() {
    let v = obj(vec![
        ("b", Json::Number("1".to_string())),
        ("a", Json::Array(vec![obj(vec![("z", Json::Null), ("y", Json::Bool(true))])])),
    ]);
    assert_eq!(normalize_json_value(&v), r#"{"a":[{"y":true,"z":null}],"b":1}"#);
    let w = obj(vec![
        ("a", Json::Array(vec![obj(vec![("y", Json::Bool(true)), ("z", Json::Null)])])),
        ("b", Json::Number("1".to_string())),
    ]);
    assert_eq!(normalize_json_value(&v), normalize_json_value(&w));
}

#[test]
fn canonical_text_matches_serde() {
    let value: Value = serde_json::from_str(
        r#"{"type":"tool_use","input":{"q":"a \"quoted\"\nline","n":[1,2.5,-3],"é":"ü"},"id":"x"}"#,
    )
    .unwrap();
    let j = to_json(&value);
    assert_eq!(normalize_json_value(&j), serde_json::to_string(&value).unwrap());
    assert_eq!(json_to_string(&j), serde_json::to_string(&value).unwrap());
}

#[test]
fn duplicate_keys_keep_the_last() {
    let v = obj(vec![("a", Json::Number("1".to_string())), ("a", Json::Number("2".to_string()))]);
    assert_eq!(json_to_string(&sort_json_value(&v)), r#"{"a":2}"#);
}

#[test]
fn block_hash_text_drops_cache_control() {
    let b = obj(vec![
        ("type", s("text")),
        ("text", s("hi")),
        ("cache_control", obj(vec![("type", s("ephemeral"))])),
    ]);
    assert_eq!(normalize_block_for_hash(&b), r#"{"text":"hi","type":"text"}"#);
    assert_eq!(normalize_block_for_hash(&s("x")), r#""x""#);
}

#[test]
fn tool_text() {
    let schema = obj(vec![("type", s("object"))]);
    assert_eq!(
        normalize_tool("n", "d", &schema, Some("t")),
        r#"{"description":"d","input_schema":{"type":"object"},"name":"n","type":"t"}"#
    );
    assert_eq!(normalize_tool("n", "d", &Json::Null, None), r#"{"description":"d","input_schema":null,"name":"n"}"#);
}

#[test]
fn token_texts_per_block_kind() {
    let text = obj(vec![("type", s("text")), ("text", s("hello"))]);
    assert_eq!(block_token_texts(&text), vec!["hello".to_string()]);
    let no_text = obj(vec![("type", s("text"))]);
    assert!(block_token_texts(&no_text).is_empty());
    let use_block = obj(vec![("type", s("tool_use")), ("input", obj(vec![("b", Json::Null), ("a", Json::Bool(false))]))]);
    assert_eq!(block_token_texts(&use_block), vec![r#"{"a":false,"b":null}"#.to_string()]);
    let result = obj(vec![
        ("type", s("tool_result")),
        ("content", Json::Array(vec![obj(vec![("type", s("text")), ("text", s("one"))]), s("two")])),
    ]);
    assert_eq!(block_token_texts(&result), vec!["one".to_string(), r#""two""#.to_string()]);
    let image = obj(vec![("type", s("image"))]);
    assert_eq!(block_token_texts(&image), vec![r#"{"type":"image"}"#.to_string()]);
    assert_eq!(content_token_texts(&s("plain")), vec!["plain".to_string()]);
    assert_eq!(content_token_texts(&Json::Number("7".to_string())), vec!["7".to_string()]);
}

#[test]
fn key_order() {
    assert!(key_less("a", "b"));
    assert!(key_less("a", "ab"));
    assert!(!key_less("ab", "a"));
    assert!(!key_less("a", "a"));
    assert!(key_less("Z", "a"));
    assert!(key_less("z", "é"));
}

#[test]
fn white_space_matches_std() {
    for c in (0u32..0x11000).filter_map(char::from_u32) {
        assert_eq!(char_is_whitespace(c), c.is_whitespace(), "{:?}", c);
    }
    assert_eq!(trim(" a"), "a");
}

#[test]
fn system_versions_by_index() {
    assert_eq!(system_version_of(0), "darwin#24.6.0");
    assert_eq!(system_version_of(1), "win32#10.0.22631");
}

#[test]
fn block_hash_text_ignores_member_order() {
    let a = obj(vec![
        ("cache_control", obj(vec![("type", s("ephemeral"))])),
        ("type", s("text")),
        ("text", s("hi")),
    ]);
    let b = obj(vec![
        ("text", s("hi")),
        ("type", s("text")),
        ("cache_control", obj(vec![("ttl", s("1h")), ("type", s("ephemeral"))])),
    ]);
    assert_eq!(normalize_block_for_hash(&a), normalize_block_for_hash(&b));
}

#[test]
fn string_escapes() {
    let v = s("q\"b\\\u{8}\t\n\u{c}\r\u{1}\u{1f} é/");
    assert_eq!(json_to_string(&v), "\"q\\\"b\\\\\\b\\t\\n\\f\\r\\u0001\\u001f é/\"");
}

#[test]
fn sorting_twice_changes_nothing() {
    let v = obj(vec![
        ("z", Json::Array(vec![obj(vec![("b", Json::Null), ("a", obj(vec![("d", s("x")), ("c", s("y"))]))])])),
        ("m", Json::Bool(false)),
    ]);
    let once = sort_json_value(&v);
    let twice = sort_json_value(&once);
    assert_eq!(json_to_string(&once), r#"{"m":false,"z":[{"a":{"c":"y","d":"x"},"b":null}]}"#);
    assert_eq!(json_to_string(&twice), json_to_string(&once));
}

#[test]
fn key_order_ignored_at_depth() {
    let a = obj(vec![("k", obj(vec![("x", s("1")), ("y", obj(vec![("p", Json::Null), ("q", Json::Null)]))]))]);
    let b = obj(vec![("k", obj(vec![("y", obj(vec![("q", Json::Null), ("p", Json::Null)])), ("x", s("1"))]))]);
    assert_eq!(normalize_json_value(&a), normalize_json_value(&b));
}
