use kiro_rs::anthropic::cache::{
    account_prompt_cache, cache_key, clear_for_tests, compute_cache_breakpoints, lookup_or_create, parse_ttl,
    try_account_prompt_cache, CacheBreakpoint, CacheResult, DEFAULT_TTL_MS, EXTENDED_TTL_MS,
};
use kiro_rs::anthropic::hashing::{sha256_hex_exec, to_hex_lower};
use kiro_rs::anthropic::store::CacheStore;
use kiro_rs::anthropic::types::{CacheControl, ContentBlock, Message, MessageContent, SystemMessage, Tool};

const MODEL: &str = "sonnet-4-6";

/// A stand-in token counter: one token per four characters, rounded up.
fn count_tokens(text: &str) -> i32 {
    ((text.chars().count() + 3) / 4) as i32
}

fn cache_control() -> CacheControl {
    CacheControl { cache_type: "ephemeral".to_string(), ttl: None }
}

fn text_block(text: &str, cache: Option<CacheControl>) -> ContentBlock {
    ContentBlock {
        normalized: format!("{{\"text\":{:?},\"type\":\"text\"}}", text),
        tokens: count_tokens(text),
        cache_control: cache,
    }
}

fn block_message(blocks: Vec<ContentBlock>) -> Message {
    Message { role: "user".to_string(), content: MessageContent::Blocks(blocks) }
}

fn text_message(text: &str) -> Message {
    Message {
        role: "user".to_string(),
        content: MessageContent::Text { text: text.to_string(), tokens: count_tokens(text) },
    }
}

fn total_of(system: &[SystemMessage], messages: &[Message]) -> i32 {
    let mut total = 0;
    for m in system {
        total += m.tokens;
    }
    for m in messages {
        match &m.content {
            MessageContent::Text { tokens, .. } => total += tokens,
            MessageContent::Blocks(blocks) => {
                for b in blocks {
                    total += b.tokens;
                }
            }
            MessageContent::Other { tokens, .. } => total += tokens,
        }
    }
    total
}

#[test]
fn creates_then_reads_message_block_cache() {
    let mut store = CacheStore::new();
    clear_for_tests(&mut store);
    let messages = vec![block_message(vec![
        text_block("stable prefix content for prompt cache", Some(cache_control())),
        text_block("uncached suffix", None),
    ])];
    let total = total_of(&[], &messages);

    let first = account_prompt_cache(&mut store, MODEL, "key", None, &messages, None, total, 1_000);
    assert!(first.cache_creation_input_tokens > 0);
    assert_eq!(first.cache_read_input_tokens, 0);

    let second = account_prompt_cache(&mut store, MODEL, "key", None, &messages, None, total, 2_000);
    assert_eq!(second.cache_creation_input_tokens, 0);
    assert_eq!(second.cache_read_input_tokens, first.cache_creation_input_tokens);
}

#[test]
fn supports_system_cache_control() {
    let mut store = CacheStore::new();
    clear_for_tests(&mut store);
    let text = "stable system prompt";
    let system = vec![SystemMessage { text: text.to_string(), tokens: count_tokens(text), cache_control: Some(cache_control()) }];
    let messages = vec![text_message("hello")];
    let total = total_of(&system, &messages);

    let first = account_prompt_cache(&mut store, MODEL, "key-system", Some(&system), &messages, None, total, 1_000);
    let second = account_prompt_cache(&mut store, MODEL, "key-system", Some(&system), &messages, None, total, 2_000);

    assert!(first.cache_creation_input_tokens > 0);
    assert_eq!(second.cache_read_input_tokens, first.cache_creation_input_tokens);
}

#[test]
fn cached_tokens_sum_creation_and_read() {
    let r = CacheResult { cache_creation_input_tokens: 7, cache_read_input_tokens: 5, uncached_input_tokens: 3 };
    assert_eq!(r.cached_input_tokens(), 12);
    assert_eq!(r.input_tokens_after_cache(Some(20)), 8);
    assert_eq!(r.input_tokens_after_cache(Some(10)), 0);
    assert_eq!(r.input_tokens_after_cache(None), 3);
    let d = CacheResult::default();
    assert_eq!(d.cache_creation_input_tokens, 0);
    assert_eq!(d.cache_read_input_tokens, 0);
    assert_eq!(d.uncached_input_tokens, 0);
}

#[test]
fn exact_creation_counts_whole_prefix() {
    let mut store = CacheStore::new();
    let system = vec![SystemMessage { text: "abcdefgh".to_string(), tokens: 10, cache_control: Some(cache_control()) }];
    let messages = vec![block_message(vec![
        ContentBlock { normalized: "{}".to_string(), tokens: 5, cache_control: Some(cache_control()) },
        ContentBlock { normalized: "[]".to_string(), tokens: 7, cache_control: None },
    ])];
    let first = account_prompt_cache(&mut store, "m", "k", Some(&system), &messages, None, 100, 0);
    assert_eq!(first.cache_creation_input_tokens, 15);
    assert_eq!(first.cache_read_input_tokens, 0);
    assert_eq!(first.uncached_input_tokens, 85);
    let second = account_prompt_cache(&mut store, "m", "k", Some(&system), &messages, None, 100, 10);
    assert_eq!(second.cache_creation_input_tokens, 0);
    assert_eq!(second.cache_read_input_tokens, 15);
    assert_eq!(second.uncached_input_tokens, 85);
}

#[test]
fn longer_prompt_reads_prefix_and_creates_rest() {
    let mut store = CacheStore::new();
    let short = vec![block_message(vec![ContentBlock { normalized: "a".to_string(), tokens: 10, cache_control: Some(cache_control()) }])];
    let first = account_prompt_cache(&mut store, "m", "k", None, &short, None, 10, 0);
    assert_eq!(first.cache_creation_input_tokens, 10);
    let long = vec![block_message(vec![
        ContentBlock { normalized: "a".to_string(), tokens: 10, cache_control: Some(cache_control()) },
        ContentBlock { normalized: "b".to_string(), tokens: 4, cache_control: Some(cache_control()) },
    ])];
    let second = account_prompt_cache(&mut store, "m", "k", None, &long, None, 20, 5);
    assert_eq!(second.cache_read_input_tokens, 10);
    assert_eq!(second.cache_creation_input_tokens, 4);
    assert_eq!(second.uncached_input_tokens, 6);
}

#[test]
fn no_breakpoints_means_all_uncached() {
    let mut store = CacheStore::new();
    let messages = vec![text_message("hello there")];
    let r = account_prompt_cache(&mut store, "m", "k", None, &messages, None, 42, 0);
    assert_eq!(r.cache_creation_input_tokens, 0);
    assert_eq!(r.cache_read_input_tokens, 0);
    assert_eq!(r.uncached_input_tokens, 42);
}

#[test]
fn non_ephemeral_marker_sets_no_breakpoint() {
    let cc = CacheControl { cache_type: "persistent".to_string(), ttl: None };
    let messages = vec![block_message(vec![text_block("x", Some(cc))])];
    let bps = compute_cache_breakpoints("m", None, &messages, None);
    assert!(bps.is_empty());
}

#[test]
fn entries_expire_after_their_ttl() {
    let mut store = CacheStore::new();
    let messages = vec![block_message(vec![ContentBlock { normalized: "a".to_string(), tokens: 9, cache_control: Some(cache_control()) }])];
    let first = account_prompt_cache(&mut store, "m", "k", None, &messages, None, 9, 0);
    assert_eq!(first.cache_creation_input_tokens, 9);
    let late = account_prompt_cache(&mut store, "m", "k", None, &messages, None, 9, DEFAULT_TTL_MS);
    assert_eq!(late.cache_read_input_tokens, 0);
    assert_eq!(late.cache_creation_input_tokens, 9);
}

#[test]
fn one_hour_ttl_outlives_default() {
    let cc = CacheControl { cache_type: "ephemeral".to_string(), ttl: Some("1h".to_string()) };
    assert_eq!(parse_ttl(&cc), EXTENDED_TTL_MS);
    assert_eq!(parse_ttl(&CacheControl { cache_type: "ephemeral".to_string(), ttl: Some("5m".to_string()) }), DEFAULT_TTL_MS);
    assert_eq!(parse_ttl(&cache_control()), DEFAULT_TTL_MS);
    let mut store = CacheStore::new();
    let messages = vec![block_message(vec![ContentBlock { normalized: "a".to_string(), tokens: 9, cache_control: Some(cc) }])];
    account_prompt_cache(&mut store, "m", "k", None, &messages, None, 9, 0);
    let later = account_prompt_cache(&mut store, "m", "k", None, &messages, None, 9, DEFAULT_TTL_MS + 1);
    assert_eq!(later.cache_read_input_tokens, 9);
}

#[test]
fn only_last_four_breakpoints_kept() {
    let blocks: Vec<ContentBlock> = (0..6)
        .map(|i| ContentBlock { normalized: format!("b{}", i), tokens: 1, cache_control: Some(cache_control()) })
        .collect();
    let messages = vec![block_message(blocks)];
    let bps = compute_cache_breakpoints("m", None, &messages, None);
    assert_eq!(bps.len(), 4);
    let tokens: Vec<i32> = bps.iter().map(|b| b.tokens()).collect();
    assert_eq!(tokens, vec![3, 4, 5, 6]);
}

#[test]
fn tools_and_system_breakpoints_in_order() {
    let tools = vec![Tool { normalized: "{\"name\":\"t\"}".to_string(), tokens: 3, cache_control: Some(cache_control()) }];
    let system = vec![SystemMessage { text: "s".to_string(), tokens: 2, cache_control: Some(cache_control()) }];
    let bps = compute_cache_breakpoints("m", Some(&system), &[], Some(&tools));
    assert_eq!(bps.len(), 2);
    assert_eq!(bps[0].tokens(), 3);
    assert_eq!(bps[1].tokens(), 5);
    assert_eq!(bps[0].ttl(), DEFAULT_TTL_MS);
    let expected = sha256_hex_exec(b"tool:{\"name\":\"t\"}");
    assert_eq!(bps[0].hash(), expected.as_slice());
    let expected2 = sha256_hex_exec(b"tool:{\"name\":\"t\"}system:s");
    assert_eq!(bps[1].hash(), expected2.as_slice());
}

#[test]
fn negative_running_total_gives_zero_tokens() {
    let messages = vec![block_message(vec![ContentBlock { normalized: "a".to_string(), tokens: -5, cache_control: Some(cache_control()) }])];
    let bps = compute_cache_breakpoints("m", None, &messages, None);
    assert_eq!(bps.len(), 1);
    assert_eq!(bps[0].tokens(), 0);
    let b = CacheBreakpoint::new(b"ab".to_vec(), -3, 7);
    assert_eq!(b.tokens(), 0);
    assert_eq!(b.ttl(), 7);
}

#[test]
fn empty_api_key_shares_anonymous_namespace() {
    let mut store = CacheStore::new();
    let messages = vec![block_message(vec![ContentBlock { normalized: "a".to_string(), tokens: 8, cache_control: Some(cache_control()) }])];
    let first = account_prompt_cache(&mut store, "m", "", None, &messages, None, 8, 0);
    assert_eq!(first.cache_creation_input_tokens, 8);
    let second = account_prompt_cache(&mut store, "m", "anonymous", None, &messages, None, 8, 1);
    assert_eq!(second.cache_read_input_tokens, 8);
    let other = account_prompt_cache(&mut store, "m", "someone", None, &messages, None, 8, 2);
    assert_eq!(other.cache_read_input_tokens, 0);
    assert_eq!(other.cache_creation_input_tokens, 8);
}

#[test]
fn lookup_with_no_breakpoints_keeps_store() {
    let mut store = CacheStore::new();
    store.insert(b"k", 3, 0);
    let r = lookup_or_create(&mut store, "key", &[], 11, 100);
    assert_eq!(r.uncached_input_tokens, 11);
    assert_eq!(store.get(b"k"), Some((3, 0)));
}

#[test]
fn lookup_drops_expired_entries() {
    let mut store = CacheStore::new();
    store.insert(b"old", 3, 50);
    store.insert(b"new", 4, 500);
    let bp = CacheBreakpoint::new(b"h".to_vec(), 2, 10);
    lookup_or_create(&mut store, "key", &[bp], 2, 100);
    assert_eq!(store.get(b"old"), None);
    assert_eq!(store.get(b"new"), Some((4, 500)));
}

#[test]
fn uncached_never_negative() {
    let mut store = CacheStore::new();
    let bp = CacheBreakpoint::new(b"h".to_vec(), 50, 10);
    let r = lookup_or_create(&mut store, "key", &[bp], 20, 0);
    assert_eq!(r.cache_creation_input_tokens, 50);
    assert_eq!(r.uncached_input_tokens, 0);
}

#[test]
fn try_account_refuses_overflowing_totals() {
    let mut store = CacheStore::new();
    let messages = vec![block_message(vec![
        ContentBlock { normalized: "a".to_string(), tokens: i32::MAX, cache_control: None },
        ContentBlock { normalized: "b".to_string(), tokens: 1, cache_control: Some(cache_control()) },
    ])];
    assert!(try_account_prompt_cache(&mut store, "m", "k", None, &messages, None, 0, 0).is_none());
    let ok = vec![block_message(vec![ContentBlock { normalized: "a".to_string(), tokens: 5, cache_control: Some(cache_control()) }])];
    let r = try_account_prompt_cache(&mut store, "m", "k", None, &ok, None, 5, 0).unwrap();
    assert_eq!(r.cache_creation_input_tokens, 5);
    assert!(try_account_prompt_cache(&mut store, "m", "k2", None, &ok, None, i32::MIN, 0).is_none());
}

#[test]
fn store_insert_get_clear() {
    let mut store = CacheStore::new();
    assert_eq!(store.get(b"a"), None);
    store.insert(b"a", 1, 10);
    store.insert(b"a", 2, 20);
    store.insert(b"b", 3, 30);
    assert_eq!(store.get(b"a"), Some((2, 20)));
    assert_eq!(store.get(b"b"), Some((3, 30)));
    store.retain_unexpired(20);
    assert_eq!(store.get(b"a"), None);
    clear_for_tests(&mut store);
    assert_eq!(store.get(b"b"), None);
}

#[test]
fn sha256_hex_of_abc() {
    let h = sha256_hex_exec(b"abc");
    assert_eq!(
        String::from_utf8(h).unwrap(),
        "ba7816bf8f01cfea414140de5dae2223b00361a396177a9cb410ff61f20015ad"
    );
    assert_eq!(to_hex_lower(&[0x00, 0x0f, 0xa5, 0xff]), b"000fa5ff".to_vec());
}

#[test]
fn last_breakpoint_stays_cached_for_its_ttl() {
    let mut store = CacheStore::new();
    let messages = vec![block_message(vec![
        ContentBlock { normalized: "a".to_string(), tokens: 3, cache_control: Some(cache_control()) },
        ContentBlock { normalized: "b".to_string(), tokens: 4, cache_control: Some(cache_control()) },
    ])];
    let bps = compute_cache_breakpoints(MODEL, None, &messages, None);
    account_prompt_cache(&mut store, MODEL, "k", None, &messages, None, 7, 100);
    let last = bps.last().unwrap();
    let key = cache_key("k", last.hash());
    assert_eq!(store.get(&key), Some((7, 100 + DEFAULT_TTL_MS)));
    let first_key = cache_key("k", bps[0].hash());
    assert_eq!(store.get(&first_key), Some((3, 100 + DEFAULT_TTL_MS)));
    let mut expected = sha256_hex_exec(b"k");
    expected.push(b':');
    expected.extend_from_slice(last.hash());
    assert_eq!(key, expected);
}

#[test]
fn token_counts_add_up() {
    assert_eq!(kiro_rs::anthropic::cache::sum_token_counts(&[]), Some(0));
    assert_eq!(kiro_rs::anthropic::cache::sum_token_counts(&[3, 4, 5]), Some(12));
    assert_eq!(kiro_rs::anthropic::cache::sum_token_counts(&[i32::MAX, 1, -5]), None);
    assert_eq!(kiro_rs::anthropic::cache::sum_token_counts(&[i32::MAX, -1, 1]), Some(i32::MAX));
}
