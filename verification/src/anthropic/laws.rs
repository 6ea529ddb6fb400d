//! What holds of prompt-cache accounting over whole requests and across requests.

use vstd::prelude::*;

use crate::anthropic::cache::{
    fed_bytes, is_ephemeral, messages_steps, BreakpointView, breakpoints_of, cumulative, keep_last, prompt_steps, tokens_fit, LookupOutcome, MAX_BREAKPOINTS, store_key, creation_run, find_hit, insert_run,
    lookup_outcome, namespace_of, request_breakpoints, clamp_zero, prev_tokens, lookup_fits, tool_steps, system_steps,
    block_steps, message_steps, step, role_tag,
};
use crate::anthropic::store::{EntryView, unexpired};
use crate::anthropic::hashing::{sha256, sha256_hex, hex_lower, lemma_hex_lower_len};
use vstd::utf8::encode_utf8;
use crate::anthropic::types::{CacheControl, ContentBlock, Message, MessageContent, Step, SystemMessage, Tool};

verus! {

/// Token counts that never decrease along the breakpoints and are not negative.
pub open spec fn tokens_nondecreasing(bps: Seq<BreakpointView>) -> bool {
    forall|i: int, j: int| 0 <= i <= j < bps.len() ==> 0 <= #[trigger] bps[i].tokens <= #[trigger] bps[j].tokens
}

proof fn lemma_creation_telescopes(bps: Seq<BreakpointView>, to: int)
    requires
        tokens_nondecreasing(bps),
        0 < to <= bps.len(),
    ensures
        creation_run(bps, 0, to, 0) == bps[to - 1].tokens,
    decreases to,
{
    if to > 1 {
        lemma_creation_telescopes(bps, to - 1);
        assert(0 <= bps[to - 2].tokens <= bps[to - 1].tokens);
        assert(prev_tokens(bps, 0, to - 1, 0) == bps[to - 2].tokens);
        assert(creation_run(bps, 0, to, 0) == creation_run(bps, 0, to - 1, 0) + clamp_zero(
            bps[to - 1].tokens - prev_tokens(bps, 0, to - 1, 0),
        ));
    } else {
        assert(0 <= bps[0].tokens <= bps[0].tokens);
        assert(creation_run(bps, 0, 0, 0) == 0);
        assert(creation_run(bps, 0, 1, 0) == creation_run(bps, 0, 0, 0) + clamp_zero(
            bps[0].tokens - prev_tokens(bps, 0, 0, 0),
        ));
    }
}

proof fn lemma_find_hit_range(
    m: Map<Seq<u8>, EntryView>,
    namespace: Seq<char>,
    bps: Seq<BreakpointView>,
    i: int,
)
    ensures
        find_hit(m, namespace, bps, i) matches Some(idx) ==> 0 <= idx < i && m.dom().contains(
            store_key(namespace, bps[idx].hash),
        ),
    decreases i,
{
    if i > 0 {
        lemma_find_hit_range(m, namespace, bps, i - 1);
    }
}

proof fn lemma_insert_run_last(
    m: Map<Seq<u8>, EntryView>,
    namespace: Seq<char>,
    bps: Seq<BreakpointView>,
    from: int,
    to: int,
    now: u64,
)
    requires
        from < to,
    ensures
        insert_run(m, namespace, bps, from, to, now).dom().contains(store_key(namespace, bps[to - 1].hash)),
        insert_run(m, namespace, bps, from, to, now)[store_key(namespace, bps[to - 1].hash)] == (
            bps[to - 1].tokens,
            (now + bps[to - 1].ttl) as u64,
        ),
{
}

proof fn lemma_insert_run_other(
    m: Map<Seq<u8>, EntryView>,
    namespace: Seq<char>,
    bps: Seq<BreakpointView>,
    from: int,
    to: int,
    now: u64,
    k: Seq<u8>,
)
    requires
        forall|j: int| 0 <= j < bps.len() ==> k != store_key(namespace, #[trigger] bps[j].hash),
        0 <= from,
        to <= bps.len(),
    ensures
        insert_run(m, namespace, bps, from, to, now).dom().contains(k) == m.dom().contains(k),
        m.dom().contains(k) ==> insert_run(m, namespace, bps, from, to, now)[k] == m[k],
    decreases to - from,
{
    if to > from {
        lemma_insert_run_other(m, namespace, bps, from, to - 1, now, k);
        assert(k != store_key(namespace, bps[to - 1].hash));
    }
}

/// A request repeated before its last breakpoint expires reads from the
/// cache exactly the tokens that the first request wrote, and writes none.
/// This holds when the first request found none of its breakpoints cached
/// and its token counts do not decrease along its breakpoints.
pub proof fn law_repeat_request_reads_what_first_created(
    m: Map<Seq<u8>, EntryView>,
    api_key: Seq<char>,
    bps: Seq<BreakpointView>,
    total: int,
    first: u64,
    second: u64,
)
    requires
        bps.len() > 0,
        tokens_nondecreasing(bps),
        find_hit(unexpired(m, first), namespace_of(api_key), bps, bps.len() as int) is None,
        first + bps.last().ttl <= u64::MAX,
        second < first + bps.last().ttl,
    ensures
        ({
            let o1 = lookup_outcome(m, api_key, bps, total, first);
            let o2 = lookup_outcome(o1.store, api_key, bps, total, second);
            &&& o1.read == 0
            &&& o2.read == o1.creation
            &&& o2.creation == 0
        }),
{
    let ns = namespace_of(api_key);
    let n = bps.len() as int;
    let o1 = lookup_outcome(m, api_key, bps, total, first);
    let key = store_key(ns, bps[n - 1].hash);
    lemma_creation_telescopes(bps, n);
    lemma_insert_run_last(unexpired(m, first), ns, bps, 0, n, first);
    assert(o1.store == insert_run(unexpired(m, first), ns, bps, 0, n, first));
    assert(o1.creation == bps[n - 1].tokens);
    let m1 = unexpired(o1.store, second);
    assert(m1.dom().contains(key));
    assert(find_hit(m1, ns, bps, n) == Some(n - 1));
    assert(m1[key].0 == bps[n - 1].tokens);
    lemma_creation_telescopes(bps, n);
}

/// Every step adds a non-negative number of tokens.
pub open spec fn steps_nonneg(steps: Seq<Step>) -> bool {
    forall|i: int| 0 <= i < steps.len() ==> #[trigger] steps[i].tokens >= 0
}

/// When every step adds a non-negative number of tokens, the breakpoints'
/// token counts do not decrease, and none exceeds the request's total.
pub proof fn lemma_breakpoint_tokens_grow(steps: Seq<Step>)
    requires
        steps_nonneg(steps),
        tokens_fit(steps),
    ensures
        tokens_nondecreasing(breakpoints_of(steps)),
        forall|i: int|
            0 <= i < breakpoints_of(steps).len() ==> #[trigger] breakpoints_of(steps)[i].tokens <= clamp_zero(
                cumulative(steps),
            ),
        cumulative(steps) >= 0,
    decreases steps.len(),
{
    if steps.len() > 0 {
        let prev = steps.drop_last();
        assert forall|k: int| 0 < k <= prev.len() implies i32::MIN <= #[trigger] cumulative(prev.take(k)) <= i32::MAX by {
            assert(prev.take(k) =~= steps.take(k));
        }
        assert(steps_nonneg(prev));
        lemma_breakpoint_tokens_grow(prev);
        assert(steps.last().tokens >= 0);
        assert(steps.take(steps.len() as int) =~= steps);
        assert(i32::MIN <= cumulative(steps.take(steps.len() as int)) <= i32::MAX);
    }
}

/// Keeping the last `n` breakpoints keeps counts that do not decrease, and
/// keeps the last breakpoint.
pub proof fn lemma_keep_last_nondecreasing(bps: Seq<BreakpointView>, n: int)
    requires
        tokens_nondecreasing(bps),
        n >= 0,
    ensures
        tokens_nondecreasing(keep_last(bps, n)),
        keep_last(bps, n).len() > 0 ==> keep_last(bps, n).last() == bps.last(),
{
    if bps.len() > n {
        let k = keep_last(bps, n);
        assert forall|i: int, j: int| 0 <= i <= j < k.len() implies 0 <= #[trigger] k[i].tokens <= #[trigger] k[j].tokens by {
            assert(k[i] == bps[bps.len() - n + i]);
            assert(k[j] == bps[bps.len() - n + j]);
        }
    }
}

/// The same holds of whole requests: when every part of a request counts a
/// non-negative number of tokens and none of its breakpoints is cached, the
/// same request repeated before its last breakpoint expires reads what the
/// first wrote and writes nothing.
pub proof fn law_repeat_request_reads_what_first_created_for_requests(
    m: Map<Seq<u8>, EntryView>,
    api_key: Seq<char>,
    system: Option<&Vec<SystemMessage>>,
    messages: Seq<Message>,
    tools: Option<&Vec<Tool>>,
    total: int,
    first: u64,
    second: u64,
)
    requires
        steps_nonneg(prompt_steps(system, messages, tools)),
        tokens_fit(prompt_steps(system, messages, tools)),
        request_breakpoints(system, messages, tools).len() > 0,
        find_hit(
            unexpired(m, first),
            namespace_of(api_key),
            request_breakpoints(system, messages, tools),
            request_breakpoints(system, messages, tools).len() as int,
        ) is None,
        first + request_breakpoints(system, messages, tools).last().ttl <= u64::MAX,
        second < first + request_breakpoints(system, messages, tools).last().ttl,
    ensures
        ({
            let bps = request_breakpoints(system, messages, tools);
            let o1 = lookup_outcome(m, api_key, bps, total, first);
            let o2 = lookup_outcome(o1.store, api_key, bps, total, second);
            &&& o1.read == 0
            &&& o2.read == o1.creation
            &&& o2.creation == 0
        }),
{
    let steps = prompt_steps(system, messages, tools);
    lemma_breakpoint_tokens_grow(steps);
    lemma_keep_last_nondecreasing(breakpoints_of(steps), MAX_BREAKPOINTS as int);
    law_repeat_request_reads_what_first_created(
        m,
        api_key,
        request_breakpoints(system, messages, tools),
        total,
        first,
        second,
    );
}

/// After a request with breakpoints, its last breakpoint stays cached until
/// its lifetime has passed from the time of the request.
pub proof fn law_last_breakpoint_is_cached(
    m: Map<Seq<u8>, EntryView>,
    api_key: Seq<char>,
    bps: Seq<BreakpointView>,
    total: int,
    now: u64,
)
    requires
        bps.len() > 0,
        now + bps.last().ttl <= u64::MAX,
    ensures
        ({
            let o = lookup_outcome(m, api_key, bps, total, now);
            let key = store_key(namespace_of(api_key), bps.last().hash);
            &&& o.store.dom().contains(key)
            &&& o.store[key].1 == now + bps.last().ttl
        }),
{
    let ns = namespace_of(api_key);
    let n = bps.len() as int;
    let m1 = unexpired(m, now);
    let key = store_key(ns, bps[n - 1].hash);
    lemma_find_hit_range(m1, ns, bps, n);
    match find_hit(m1, ns, bps, n) {
        Some(idx) => {
            let k = store_key(ns, bps[idx].hash);
            let refreshed = m1.insert(k, (m1[k].0, (now + bps[idx].ttl) as u64));
            let m2 = insert_run(refreshed, ns, bps, idx + 1, n, now);
            if idx + 1 < n {
                lemma_insert_run_last(refreshed, ns, bps, idx + 1, n, now);
            } else {
                assert(m2 == refreshed);
                assert(k == key);
            }
            assert(m2.dom().contains(key) && m2[key].1 == now + bps[n - 1].ttl);
            lemma_insert_run_last(m2, ns, bps, 0, n, now);
        },
        None => {
            lemma_insert_run_last(m1, ns, bps, 0, n, now);
        },
    }
}

/// A request changes only the entries of its own breakpoints: every other
/// key stays as it was, except that entries expired at the time of the
/// request are dropped.
pub proof fn law_other_entries_only_expire(
    m: Map<Seq<u8>, EntryView>,
    api_key: Seq<char>,
    bps: Seq<BreakpointView>,
    total: int,
    now: u64,
    k: Seq<u8>,
)
    requires
        bps.len() > 0,
        forall|j: int| 0 <= j < bps.len() ==> k != store_key(namespace_of(api_key), #[trigger] bps[j].hash),
    ensures
        ({
            let o = lookup_outcome(m, api_key, bps, total, now);
            &&& o.store.dom().contains(k) == (m.dom().contains(k) && m[k].1 > now)
            &&& o.store.dom().contains(k) ==> o.store[k] == m[k]
        }),
{
    let ns = namespace_of(api_key);
    let n = bps.len() as int;
    let m1 = unexpired(m, now);
    lemma_find_hit_range(m1, ns, bps, n);
    match find_hit(m1, ns, bps, n) {
        Some(idx) => {
            let key = store_key(ns, bps[idx].hash);
            assert(k != key);
            let refreshed = m1.insert(key, (m1[key].0, (now + bps[idx].ttl) as u64));
            lemma_insert_run_other(refreshed, ns, bps, idx + 1, n, now, k);
            let m2 = insert_run(refreshed, ns, bps, idx + 1, n, now);
            lemma_insert_run_other(m2, ns, bps, 0, n, now, k);
        },
        None => {
            lemma_insert_run_other(m1, ns, bps, 0, n, now, k);
        },
    }
}

/// A request reads from the cache only what an unexpired entry of one of
/// its breakpoints held: the entry of the last such breakpoint.
pub proof fn law_reads_come_from_unexpired_entries(
    m: Map<Seq<u8>, EntryView>,
    api_key: Seq<char>,
    bps: Seq<BreakpointView>,
    total: int,
    now: u64,
)
    ensures
        ({
            let o = lookup_outcome(m, api_key, bps, total, now);
            let ns = namespace_of(api_key);
            o.read != 0 ==> {
                &&& find_hit(unexpired(m, now), ns, bps, bps.len() as int) matches Some(idx)
                &&& 0 <= idx < bps.len()
                &&& m.dom().contains(store_key(ns, bps[idx].hash))
                &&& m[store_key(ns, bps[idx].hash)].1 > now
                &&& o.read == m[store_key(ns, bps[idx].hash)].0
            }
        }),
{
    lemma_find_hit_range(unexpired(m, now), namespace_of(api_key), bps, bps.len() as int);
}

/// A request without an API key is accounted as one whose key is `anonymous`.
pub proof fn law_empty_api_key_is_anonymous(
    m: Map<Seq<u8>, EntryView>,
    bps: Seq<BreakpointView>,
    total: int,
    now: u64,
)
    ensures
        lookup_outcome(m, Seq::<char>::empty(), bps, total, now) == lookup_outcome(m, "anonymous"@, bps, total, now),
{
    assert(namespace_of(Seq::<char>::empty()) == namespace_of("anonymous"@));
}

/// A request with no breakpoints caches nothing, counts all its tokens as
/// uncached and leaves the store as it was.
pub proof fn law_no_breakpoints_no_caching(
    m: Map<Seq<u8>, EntryView>,
    api_key: Seq<char>,
    total: int,
    now: u64,
)
    ensures
        lookup_outcome(m, api_key, Seq::<BreakpointView>::empty(), total, now) == (LookupOutcome {
            creation: 0,
            read: 0,
            uncached: total,
            store: m,
        }),
{
}

/// The uncached tokens are the total less the cached ones, never below zero.
pub proof fn law_tokens_add_up(
    m: Map<Seq<u8>, EntryView>,
    api_key: Seq<char>,
    bps: Seq<BreakpointView>,
    total: int,
    now: u64,
)
    requires
        bps.len() > 0,
    ensures
        ({
            let o = lookup_outcome(m, api_key, bps, total, now);
            o.uncached == clamp_zero(total - (o.creation + o.read))
        }),
{
}

/// At most `MAX_BREAKPOINTS` breakpoints of a request are considered.
pub proof fn law_at_most_four_breakpoints(
    system: Option<&Vec<SystemMessage>>,
    messages: Seq<Message>,
    tools: Option<&Vec<Tool>>,
)
    ensures
        request_breakpoints(system, messages, tools).len() <= MAX_BREAKPOINTS,
{
}


proof fn lemma_creation_telescopes_from(bps: Seq<BreakpointView>, from: int, to: int, p: int)
    requires
        tokens_nondecreasing(bps),
        0 <= from < to <= bps.len(),
        0 <= p <= bps[from].tokens,
    ensures
        creation_run(bps, from, to, p) == bps[to - 1].tokens - p,
    decreases to,
{
    if to > from + 1 {
        lemma_creation_telescopes_from(bps, from, to - 1, p);
        assert(0 <= bps[to - 2].tokens <= bps[to - 1].tokens);
        assert(prev_tokens(bps, from, to - 1, p) == bps[to - 2].tokens);
    } else {
        assert(creation_run(bps, from, from, p) == 0);
        assert(prev_tokens(bps, from, from, p) == p);
    }
}

/// A request repeated before its last breakpoint expires reads from the
/// cache what the first request read and wrote together, writes nothing,
/// and leaves as many tokens uncached. This holds when every breakpoint
/// holds some tokens, the counts do not decrease along the breakpoints, and
/// every unexpired entry of a breakpoint held that breakpoint's count.
pub proof fn law_repeat_request_reads_what_first_cached(
    m: Map<Seq<u8>, EntryView>,
    api_key: Seq<char>,
    bps: Seq<BreakpointView>,
    total: int,
    first: u64,
    second: u64,
)
    requires
        bps.len() > 0,
        tokens_nondecreasing(bps),
        forall|j: int| 0 <= j < bps.len() ==> #[trigger] bps[j].tokens > 0,
        forall|j: int|
            0 <= j < bps.len() && unexpired(m, first).dom().contains(store_key(namespace_of(api_key), #[trigger] bps[j].hash))
                ==> unexpired(m, first)[store_key(namespace_of(api_key), bps[j].hash)].0 == bps[j].tokens,
        first + bps.last().ttl <= u64::MAX,
        second < first + bps.last().ttl,
    ensures
        ({
            let o1 = lookup_outcome(m, api_key, bps, total, first);
            let o2 = lookup_outcome(o1.store, api_key, bps, total, second);
            &&& o2.read == o1.creation + o1.read
            &&& o2.creation == 0
            &&& o2.uncached == o1.uncached
        }),
{
    let ns = namespace_of(api_key);
    let n = bps.len() as int;
    let m1 = unexpired(m, first);
    let o1 = lookup_outcome(m, api_key, bps, total, first);
    let key = store_key(ns, bps[n - 1].hash);
    lemma_find_hit_range(m1, ns, bps, n);
    match find_hit(m1, ns, bps, n) {
        Some(idx) => {
            let k = store_key(ns, bps[idx].hash);
            assert(m1[k].0 == bps[idx].tokens);
            let refreshed = m1.insert(k, (m1[k].0, (first + bps[idx].ttl) as u64));
            if idx + 1 < n {
                lemma_insert_run_last(refreshed, ns, bps, idx + 1, n, first);
                lemma_creation_telescopes_from(bps, idx + 1, n, bps[idx].tokens as int);
                assert(0 <= bps[idx].tokens <= bps[idx + 1].tokens);
            } else {
                assert(insert_run(refreshed, ns, bps, idx + 1, n, first) == refreshed);
            }
            assert(o1.read == bps[idx].tokens);
            assert(o1.creation + o1.read == bps[n - 1].tokens);
            assert(o1.store.dom().contains(key));
            assert(o1.store[key] == (bps[n - 1].tokens, (first + bps[n - 1].ttl) as u64));
        },
        None => {
            lemma_creation_telescopes(bps, n);
            lemma_insert_run_last(m1, ns, bps, 0, n, first);
            assert(o1.creation + o1.read == bps[n - 1].tokens);
        },
    }
    let m1b = unexpired(o1.store, second);
    assert(m1b.dom().contains(key));
    assert(find_hit(m1b, ns, bps, n) == Some(n - 1));
    assert(m1b[key].0 == bps[n - 1].tokens);
}

/// The same holds of whole requests, cache hits included: when every part
/// of a request counts a non-negative number of tokens, every breakpoint
/// holds some tokens, and every unexpired entry of a breakpoint held that
/// breakpoint's count, the request repeated before its last breakpoint
/// expires reads what the first read and wrote together, writes nothing,
/// and leaves as many tokens uncached.
pub proof fn law_repeat_request_reads_what_first_cached_for_requests(
    m: Map<Seq<u8>, EntryView>,
    api_key: Seq<char>,
    system: Option<&Vec<SystemMessage>>,
    messages: Seq<Message>,
    tools: Option<&Vec<Tool>>,
    total: int,
    first: u64,
    second: u64,
)
    requires
        steps_nonneg(prompt_steps(system, messages, tools)),
        tokens_fit(prompt_steps(system, messages, tools)),
        request_breakpoints(system, messages, tools).len() > 0,
        forall|j: int|
            0 <= j < request_breakpoints(system, messages, tools).len() ==> #[trigger] request_breakpoints(
                system,
                messages,
                tools,
            )[j].tokens > 0,
        forall|j: int|
            0 <= j < request_breakpoints(system, messages, tools).len() && unexpired(m, first).dom().contains(
                store_key(namespace_of(api_key), #[trigger] request_breakpoints(system, messages, tools)[j].hash),
            ) ==> unexpired(m, first)[store_key(
                namespace_of(api_key),
                request_breakpoints(system, messages, tools)[j].hash,
            )].0 == request_breakpoints(system, messages, tools)[j].tokens,
        first + request_breakpoints(system, messages, tools).last().ttl <= u64::MAX,
        second < first + request_breakpoints(system, messages, tools).last().ttl,
    ensures
        ({
            let bps = request_breakpoints(system, messages, tools);
            let o1 = lookup_outcome(m, api_key, bps, total, first);
            let o2 = lookup_outcome(o1.store, api_key, bps, total, second);
            &&& o2.read == o1.creation + o1.read
            &&& o2.creation == 0
            &&& o2.uncached == o1.uncached
        }),
{
    let steps = prompt_steps(system, messages, tools);
    lemma_breakpoint_tokens_grow(steps);
    lemma_keep_last_nondecreasing(breakpoints_of(steps), MAX_BREAKPOINTS as int);
    law_repeat_request_reads_what_first_cached(
        m,
        api_key,
        request_breakpoints(system, messages, tools),
        total,
        first,
        second,
    );
}

proof fn lemma_find_hit_agree(
    a: Map<Seq<u8>, EntryView>,
    b: Map<Seq<u8>, EntryView>,
    namespace: Seq<char>,
    bps: Seq<BreakpointView>,
    i: int,
)
    requires
        i <= bps.len(),
        forall|j: int|
            0 <= j < bps.len() ==> (a.dom().contains(store_key(namespace, #[trigger] bps[j].hash)) == b.dom().contains(
                store_key(namespace, bps[j].hash),
            )),
    ensures
        find_hit(a, namespace, bps, i) == find_hit(b, namespace, bps, i),
    decreases i,
{
    if i > 0 {
        lemma_find_hit_agree(a, b, namespace, bps, i - 1);
    }
}

/// The store after a run of requests under one API key, all at time `now`;
/// each request is given by its breakpoints and its total input tokens.
pub open spec fn after_requests(
    m: Map<Seq<u8>, EntryView>,
    api_key: Seq<char>,
    reqs: Seq<(Seq<BreakpointView>, int)>,
    now: u64,
) -> Map<Seq<u8>, EntryView>
    decreases reqs.len(),
{
    if reqs.len() == 0 {
        m
    } else {
        lookup_outcome(after_requests(m, api_key, reqs.drop_last(), now), api_key, reqs.last().0, reqs.last().1, now).store
    }
}

proof fn lemma_requests_keep_other_entries(
    m: Map<Seq<u8>, EntryView>,
    api_key: Seq<char>,
    reqs: Seq<(Seq<BreakpointView>, int)>,
    now: u64,
    k: Seq<u8>,
)
    requires
        forall|i: int, j: int|
            0 <= i < reqs.len() && 0 <= j < reqs[i].0.len() ==> k != store_key(
                namespace_of(api_key),
                #[trigger] reqs[i].0[j].hash,
            ),
    ensures
        ({
            let after = after_requests(m, api_key, reqs, now);
            &&& (after.dom().contains(k) && after[k].1 > now) == (m.dom().contains(k) && m[k].1 > now)
            &&& (after.dom().contains(k) && after[k].1 > now) ==> after[k] == m[k]
        }),
    decreases reqs.len(),
{
    if reqs.len() > 0 {
        let init = reqs.drop_last();
        assert forall|i: int, j: int| 0 <= i < init.len() && 0 <= j < init[i].0.len() implies k != store_key(
            namespace_of(api_key),
            #[trigger] init[i].0[j].hash,
        ) by {
            assert(init[i] == reqs[i]);
        }
        lemma_requests_keep_other_entries(m, api_key, init, now, k);
        let prev = after_requests(m, api_key, init, now);
        let bps = reqs.last().0;
        if bps.len() > 0 {
            assert forall|j: int| 0 <= j < bps.len() implies k != store_key(namespace_of(api_key), #[trigger] bps[j].hash) by {
                assert(reqs[reqs.len() - 1].0[j] == bps[j]);
            }
            law_other_entries_only_expire(prev, api_key, bps, reqs.last().1, now, k);
        }
    }
}

/// What one API key caches is not seen by another: a request under one key
/// gives the same numbers whether or not any run of requests under another
/// key came first, at the same time, as long as the store keys of the two
/// keys' breakpoints differ (which holds wherever SHA-256 gives the two
/// namespaces different digests).
pub proof fn law_api_keys_are_separate(
    m: Map<Seq<u8>, EntryView>,
    key1: Seq<char>,
    reqs: Seq<(Seq<BreakpointView>, int)>,
    key2: Seq<char>,
    bps2: Seq<BreakpointView>,
    total2: int,
    now: u64,
)
    requires
        forall|i: int, j1: int, j2: int|
            0 <= i < reqs.len() && 0 <= j1 < reqs[i].0.len() && 0 <= j2 < bps2.len() ==> store_key(
                namespace_of(key1),
                #[trigger] reqs[i].0[j1].hash,
            ) != store_key(namespace_of(key2), #[trigger] bps2[j2].hash),
    ensures
        ({
            let a = lookup_outcome(m, key2, bps2, total2, now);
            let b = lookup_outcome(after_requests(m, key1, reqs, now), key2, bps2, total2, now);
            &&& a.creation == b.creation
            &&& a.read == b.read
            &&& a.uncached == b.uncached
        }),
{
    let ns2 = namespace_of(key2);
    let after = after_requests(m, key1, reqs, now);
    if bps2.len() > 0 {
        let ma = unexpired(m, now);
        let mb = unexpired(after, now);
        assert forall|j: int| 0 <= j < bps2.len() implies (ma.dom().contains(store_key(ns2, #[trigger] bps2[j].hash))
            == mb.dom().contains(store_key(ns2, bps2[j].hash))) && (ma.dom().contains(store_key(ns2, bps2[j].hash))
            ==> ma[store_key(ns2, bps2[j].hash)] == mb[store_key(ns2, bps2[j].hash)]) by {
            let k = store_key(ns2, bps2[j].hash);
            assert forall|i: int, j1: int| 0 <= i < reqs.len() && 0 <= j1 < reqs[i].0.len() implies k != store_key(
                namespace_of(key1),
                #[trigger] reqs[i].0[j1].hash,
            ) by {
                assert(store_key(namespace_of(key1), reqs[i].0[j1].hash) != store_key(ns2, bps2[j].hash));
            }
            lemma_requests_keep_other_entries(m, key1, reqs, now, k);
        }
        lemma_find_hit_agree(ma, mb, ns2, bps2, bps2.len() as int);
        lemma_find_hit_range(ma, ns2, bps2, bps2.len() as int);
    }
}

/// A request that extends a cached one by one more breakpoint reads the
/// cached prefix and writes only the tokens beyond it. Here the first
/// request has the one breakpoint `x`, found in nothing cached, and the
/// second has `x` followed by `y`, whose hash differs and which was not
/// cached either; the second comes before `x` expires.
pub proof fn law_longer_request_reads_cached_prefix(
    m: Map<Seq<u8>, EntryView>,
    api_key: Seq<char>,
    x: BreakpointView,
    y: BreakpointView,
    total1: int,
    total2: int,
    first: u64,
    second: u64,
)
    requires
        0 < x.tokens <= y.tokens,
        x.hash != y.hash,
        !unexpired(m, first).dom().contains(store_key(namespace_of(api_key), x.hash)),
        !unexpired(m, first).dom().contains(store_key(namespace_of(api_key), y.hash)),
        first + x.ttl <= u64::MAX,
        second < first + x.ttl,
    ensures
        ({
            let o1 = lookup_outcome(m, api_key, seq![x], total1, first);
            let o2 = lookup_outcome(o1.store, api_key, seq![x, y], total2, second);
            &&& o1.creation == x.tokens
            &&& o2.read == x.tokens
            &&& o2.creation == y.tokens - x.tokens
            &&& o2.uncached == clamp_zero(total2 - y.tokens)
        }),
{
    let ns = namespace_of(api_key);
    let kx = store_key(ns, x.hash);
    let ky = store_key(ns, y.hash);
    let pre = sha256_hex(encode_utf8(ns)) + seq![58u8];
    assert(kx =~= pre + x.hash);
    assert(ky =~= pre + y.hash);
    assert(kx.subrange(pre.len() as int, kx.len() as int) =~= x.hash);
    assert(ky.subrange(pre.len() as int, ky.len() as int) =~= y.hash);
    assert(kx != ky);
    let bx = seq![x];
    let bxy = seq![x, y];
    let m1 = unexpired(m, first);
    assert(bx[0] == x);
    assert(find_hit(m1, ns, bx, 0) is None);
    assert(find_hit(m1, ns, bx, 1) is None);
    assert(insert_run(m1, ns, bx, 0, 0, first) == m1);
    assert(creation_run(bx, 0, 0, 0) == 0);
    let o1 = lookup_outcome(m, api_key, bx, total1, first);
    assert(o1.store == m1.insert(kx, (x.tokens, (first + x.ttl) as u64)));
    let m2 = unexpired(o1.store, second);
    assert(m2.dom().contains(kx));
    assert(!m2.dom().contains(ky));
    assert(bxy[1].hash == y.hash && bxy[0].hash == x.hash);
    assert(find_hit(m2, ns, bxy, 1) == Some(0int));
    assert(find_hit(m2, ns, bxy, 2) == Some(0int));
    assert(creation_run(bxy, 1, 1, x.tokens as int) == 0);
    assert(creation_run(bxy, 1, 2, x.tokens as int) == clamp_zero(y.tokens - x.tokens));
}


proof fn lemma_messages_steps_append(a: Seq<Message>, b: Seq<Message>)
    ensures
        messages_steps(a + b) == messages_steps(a) + messages_steps(b),
    decreases b.len(),
{
    if b.len() == 0 {
        assert(a + b =~= a);
        assert(messages_steps(a) + messages_steps(b) =~= messages_steps(a));
    } else {
        lemma_messages_steps_append(a, b.drop_last());
        assert((a + b).drop_last() =~= a + b.drop_last());
        assert((a + b).last() == b.last());
    }
}

proof fn lemma_breakpoints_prefix(a: Seq<Step>, b: Seq<Step>)
    ensures
        breakpoints_of(a).len() <= breakpoints_of(a + b).len(),
        breakpoints_of(a + b).take(breakpoints_of(a).len() as int) == breakpoints_of(a),
    decreases b.len(),
{
    if b.len() == 0 {
        assert(a + b =~= a);
        assert(breakpoints_of(a).take(breakpoints_of(a).len() as int) =~= breakpoints_of(a));
    } else {
        lemma_breakpoints_prefix(a, b.drop_last());
        assert((a + b).drop_last() =~= a + b.drop_last());
        let p = breakpoints_of(a + b.drop_last());
        let n = breakpoints_of(a).len() as int;
        assert forall|x: BreakpointView| p.push(x).take(n) =~= p.take(n) by {}
    }
}

/// Appending messages to a request keeps its breakpoints, with the same
/// hashes, token counts and lifetimes, as the first ones of the longer
/// request, where the longer request sets at most `MAX_BREAKPOINTS`.
pub proof fn law_appending_messages_keeps_breakpoints(
    system: Option<&Vec<SystemMessage>>,
    messages: Seq<Message>,
    more: Seq<Message>,
    tools: Option<&Vec<Tool>>,
)
    requires
        breakpoints_of(prompt_steps(system, messages + more, tools)).len() <= MAX_BREAKPOINTS,
    ensures
        ({
            let r1 = request_breakpoints(system, messages, tools);
            let r2 = request_breakpoints(system, messages + more, tools);
            &&& r1.len() <= r2.len()
            &&& r2.take(r1.len() as int) == r1
        }),
{
    lemma_messages_steps_append(messages, more);
    let s1 = prompt_steps(system, messages, tools);
    assert(prompt_steps(system, messages + more, tools) =~= s1 + messages_steps(more));
    lemma_breakpoints_prefix(s1, messages_steps(more));
}

/// Two walks that differ at most in the lifetimes of their markers.
pub open spec fn differ_in_ttl_only(s1: Seq<Step>, s2: Seq<Step>) -> bool {
    &&& s1.len() == s2.len()
    &&& forall|i: int|
        0 <= i < s1.len() ==> {
            &&& (#[trigger] s1[i]).bytes == s2[i].bytes
            &&& s1[i].tokens == s2[i].tokens
            &&& (s1[i].cache_control is Some) == (s2[i].cache_control is Some)
            &&& (s1[i].cache_control matches Some(c1) ==> is_ephemeral(c1) == is_ephemeral(s2[i].cache_control->0))
        }
}

/// A marker's lifetime changes neither where the breakpoints fall nor the
/// hash and tokens of any of them.
pub proof fn law_ttl_changes_only_lifetimes(s1: Seq<Step>, s2: Seq<Step>)
    requires
        differ_in_ttl_only(s1, s2),
    ensures
        breakpoints_of(s1).len() == breakpoints_of(s2).len(),
        forall|i: int|
            0 <= i < breakpoints_of(s1).len() ==> (#[trigger] breakpoints_of(s1)[i]).hash == breakpoints_of(s2)[i].hash
                && breakpoints_of(s1)[i].tokens == breakpoints_of(s2)[i].tokens,
        fed_bytes(s1) == fed_bytes(s2),
        cumulative(s1) == cumulative(s2),
    decreases s1.len(),
{
    if s1.len() > 0 {
        assert(differ_in_ttl_only(s1.drop_last(), s2.drop_last()));
        law_ttl_changes_only_lifetimes(s1.drop_last(), s2.drop_last());
        assert(s1.last() == s1[s1.len() - 1]);
    }
}

/// The token counts of the tools, summed.
pub open spec fn tools_tokens(tools: Seq<Tool>) -> int
    decreases tools.len(),
{
    if tools.len() == 0 {
        0
    } else {
        tools_tokens(tools.drop_last()) + tools.last().tokens
    }
}

/// The token counts of the system prompt entries, summed.
pub open spec fn system_tokens(system: Seq<SystemMessage>) -> int
    decreases system.len(),
{
    if system.len() == 0 {
        0
    } else {
        system_tokens(system.drop_last()) + system.last().tokens
    }
}

/// The token counts of content blocks, summed.
pub open spec fn blocks_tokens(blocks: Seq<ContentBlock>) -> int
    decreases blocks.len(),
{
    if blocks.len() == 0 {
        0
    } else {
        blocks_tokens(blocks.drop_last()) + blocks.last().tokens
    }
}

/// The token count of a message's content: of its string, of all its
/// blocks, or of its other JSON value.
pub open spec fn content_tokens(content: MessageContent) -> int {
    match content {
        MessageContent::Text { tokens, .. } => tokens as int,
        MessageContent::Blocks(blocks) => blocks_tokens(blocks@),
        MessageContent::Other { tokens, .. } => tokens as int,
    }
}

/// The token counts of the messages' contents, summed.
pub open spec fn messages_tokens(messages: Seq<Message>) -> int
    decreases messages.len(),
{
    if messages.len() == 0 {
        0
    } else {
        messages_tokens(messages.drop_last()) + content_tokens(messages.last().content)
    }
}

/// The token counts of every part of a request, summed: tools, system
/// prompt and message contents.
pub open spec fn request_tokens(
    system: Option<&Vec<SystemMessage>>,
    messages: Seq<Message>,
    tools: Option<&Vec<Tool>>,
) -> int {
    tools_tokens(
        match tools {
            Some(t) => t@,
            None => seq![],
        },
    ) + system_tokens(
        match system {
            Some(s) => s@,
            None => seq![],
        },
    ) + messages_tokens(messages)
}

/// The marker of a message's last block, where its content is a list of
/// blocks and the last one carries one.
pub open spec fn last_block_marker(m: Message) -> Option<CacheControl> {
    match m.content {
        MessageContent::Blocks(blocks) => if blocks@.len() > 0 {
            blocks@.last().cache_control
        } else {
            None
        },
        _ => None,
    }
}

/// Whether a marker asks for the one-hour lifetime: its `ttl` reads `1h`.
pub open spec fn asks_one_hour(marker: Option<CacheControl>) -> bool {
    match marker {
        Some(cc) => match cc.ttl {
            Some(t) => t@ == "1h"@,
            None => false,
        },
        None => false,
    }
}

/// Whether a message's content is a list of blocks whose last block carries
/// an ephemeral `cache_control` marker.
pub open spec fn ends_with_ephemeral_block(m: Message) -> bool {
    match m.content {
        MessageContent::Blocks(blocks) => blocks@.len() > 0 && match blocks@.last().cache_control {
            Some(cc) => cc.cache_type@ == "ephemeral"@,
            None => false,
        },
        _ => false,
    }
}

proof fn lemma_cumulative_append(a: Seq<Step>, b: Seq<Step>)
    ensures
        cumulative(a + b) == cumulative(a) + cumulative(b),
    decreases b.len(),
{
    if b.len() == 0 {
        assert(a + b =~= a);
    } else {
        lemma_cumulative_append(a, b.drop_last());
        assert((a + b).drop_last() =~= a + b.drop_last());
        assert((a + b).last() == b.last());
    }
}

proof fn lemma_tool_steps_tokens(tools: Seq<Tool>)
    ensures
        cumulative(tool_steps(tools)) == tools_tokens(tools),
    decreases tools.len(),
{
    if tools.len() > 0 {
        lemma_tool_steps_tokens(tools.drop_last());
        assert(tool_steps(tools).drop_last() =~= tool_steps(tools.drop_last()));
        assert(tool_steps(tools).last().tokens == tools.last().tokens);
    }
}

proof fn lemma_system_steps_tokens(system: Seq<SystemMessage>)
    ensures
        cumulative(system_steps(system)) == system_tokens(system),
    decreases system.len(),
{
    if system.len() > 0 {
        lemma_system_steps_tokens(system.drop_last());
        assert(system_steps(system).drop_last() =~= system_steps(system.drop_last()));
        assert(system_steps(system).last().tokens == system.last().tokens);
    }
}

proof fn lemma_block_steps_tokens(blocks: Seq<ContentBlock>)
    ensures
        cumulative(block_steps(blocks)) == blocks_tokens(blocks),
    decreases blocks.len(),
{
    if blocks.len() > 0 {
        lemma_block_steps_tokens(blocks.drop_last());
        assert(block_steps(blocks).drop_last() =~= block_steps(blocks.drop_last()));
        assert(block_steps(blocks).last().tokens == blocks.last().tokens);
    }
}

proof fn lemma_message_steps_tokens(m: Message)
    ensures
        cumulative(message_steps(m)) == content_tokens(m.content),
{
    let steps = message_steps(m);
    let role = seq![steps[0]];
    let rest = steps.skip(1);
    assert(steps =~= role + rest);
    lemma_cumulative_append(role, rest);
    assert(role.drop_last() =~= Seq::<Step>::empty());
    assert(steps[0] == step(role_tag(), m.role@, 0, None));
    assert(cumulative(Seq::<Step>::empty()) == 0);
    assert(cumulative(role) == 0);
    match m.content {
        MessageContent::Blocks(blocks) => {
            assert(rest =~= block_steps(blocks@));
            lemma_block_steps_tokens(blocks@);
        },
        _ => {
            assert(rest.len() == 1);
            assert(rest.drop_last() =~= Seq::<Step>::empty());
        },
    }
}

proof fn lemma_messages_steps_tokens(messages: Seq<Message>)
    ensures
        cumulative(messages_steps(messages)) == messages_tokens(messages),
    decreases messages.len(),
{
    if messages.len() > 0 {
        lemma_messages_steps_tokens(messages.drop_last());
        lemma_cumulative_append(messages_steps(messages.drop_last()), message_steps(messages.last()));
        lemma_message_steps_tokens(messages.last());
    }
}

/// The tokens of all steps of a request are the tokens of all its parts.
pub proof fn lemma_prompt_steps_tokens(
    system: Option<&Vec<SystemMessage>>,
    messages: Seq<Message>,
    tools: Option<&Vec<Tool>>,
)
    ensures
        cumulative(prompt_steps(system, messages, tools)) == request_tokens(system, messages, tools),
{
    let t = tool_steps(match tools {
        Some(v) => v@,
        None => seq![],
    });
    let sy = system_steps(match system {
        Some(v) => v@,
        None => seq![],
    });
    let ms = messages_steps(messages);
    lemma_cumulative_append(t, sy);
    lemma_cumulative_append(t + sy, ms);
    lemma_tool_steps_tokens(match tools {
        Some(v) => v@,
        None => seq![],
    });
    lemma_system_steps_tokens(match system {
        Some(v) => v@,
        None => seq![],
    });
    lemma_messages_steps_tokens(messages);
}

#[verifier::spinoff_prover]
#[verifier::rlimit(40)]
proof fn lemma_prompt_ends_with_marker(
    system: Option<&Vec<SystemMessage>>,
    messages: Seq<Message>,
    tools: Option<&Vec<Tool>>,
)
    requires
        messages.len() > 0,
        ends_with_ephemeral_block(messages.last()),
    ensures
        prompt_steps(system, messages, tools).len() > 0,
        prompt_steps(system, messages, tools).last().cache_control matches Some(cc) && is_ephemeral(cc),
        prompt_steps(system, messages, tools).last().cache_control == last_block_marker(messages.last()),
{
    let s = prompt_steps(system, messages, tools);
    let last = messages.last();
    let blocks = match last.content {
        MessageContent::Blocks(b) => b,
        _ => arbitrary(),
    };
    let bs = block_steps(blocks@);
    let ms = message_steps(last);
    assert(ms =~= seq![ms[0]] + bs);
    assert(ms.last() == bs.last());
    assert(bs.last() == bs[bs.len() - 1]);
    assert(bs.last().cache_control == blocks@.last().cache_control);
    let init = messages_steps(messages.drop_last());
    assert(messages_steps(messages) == init + ms);
    assert((init + ms).last() == ms.last());
    let pre = tool_steps(match tools {
        Some(v) => v@,
        None => seq![],
    }) + system_steps(match system {
        Some(v) => v@,
        None => seq![],
    });
    assert(s == pre + messages_steps(messages));
    assert(s.last() == (pre + messages_steps(messages)).last());
}

/// A breakpoint holds the tokens of every part of the request before it,
/// string message contents included: where the last block of a request's
/// last message carries an ephemeral marker, the breakpoint set there holds
/// the tokens of all the request's tools, system prompt entries and message
/// contents, summed (at least zero); it stays so when more messages follow,
/// and it is the last breakpoint the request itself considers.
pub proof fn law_breakpoint_holds_every_part_before_it(
    system: Option<&Vec<SystemMessage>>,
    messages: Seq<Message>,
    more: Seq<Message>,
    tools: Option<&Vec<Tool>>,
)
    requires
        messages.len() > 0,
        ends_with_ephemeral_block(messages.last()),
        request_tokens(system, messages, tools) <= i32::MAX,
    ensures
        ({
            let total = request_tokens(system, messages, tools);
            let expected = if total < 0 {
                0
            } else {
                total
            };
            let own = request_breakpoints(system, messages, tools);
            let all = breakpoints_of(prompt_steps(system, messages + more, tools));
            let k = breakpoints_of(prompt_steps(system, messages, tools)).len();
            &&& own.len() > 0
            &&& own.last().tokens == expected
            &&& own.last().ttl == if asks_one_hour(last_block_marker(messages.last())) {
                3_600_000u64
            } else {
                300_000u64
            }
            &&& 0 < k <= all.len()
            &&& all[k - 1].tokens == expected
        }),
{
    let s = prompt_steps(system, messages, tools);
    lemma_prompt_steps_tokens(system, messages, tools);
    lemma_prompt_ends_with_marker(system, messages, tools);
    let b = breakpoints_of(s);
    assert(b.len() > 0 && b.last().tokens == clamp_zero(cumulative(s)) as i32);
    lemma_messages_steps_append(messages, more);
    assert(prompt_steps(system, messages + more, tools) =~= s + messages_steps(more));
    lemma_breakpoints_prefix(s, messages_steps(more));
    let all = breakpoints_of(s + messages_steps(more));
    assert(all[b.len() - 1] == all.take(b.len() as int)[b.len() - 1]);
    let own = keep_last(b, MAX_BREAKPOINTS as int);
    if b.len() > MAX_BREAKPOINTS {
        assert(own.last() == b[b.len() - 1]);
    }
}

proof fn lemma_find_hit_is_last(
    m: Map<Seq<u8>, EntryView>,
    namespace: Seq<char>,
    bps: Seq<BreakpointView>,
    i: int,
    j: int,
)
    requires
        0 <= j < i <= bps.len(),
        m.dom().contains(store_key(namespace, bps[j].hash)),
        forall|k: int| j < k < i ==> !m.dom().contains(store_key(namespace, #[trigger] bps[k].hash)),
    ensures
        find_hit(m, namespace, bps, i) == Some(j),
    decreases i,
{
    if i - 1 > j {
        lemma_find_hit_is_last(m, namespace, bps, i - 1, j);
    }
}

proof fn lemma_find_hit_none(m: Map<Seq<u8>, EntryView>, namespace: Seq<char>, bps: Seq<BreakpointView>, i: int)
    requires
        i <= bps.len(),
        forall|k: int| 0 <= k < i ==> !m.dom().contains(store_key(namespace, #[trigger] bps[k].hash)),
    ensures
        find_hit(m, namespace, bps, i) is None,
    decreases i,
{
    if i > 0 {
        lemma_find_hit_none(m, namespace, bps, i - 1);
    }
}

/// Whether the store holds an entry for `key` that is still live at `now`.
pub open spec fn live_entry(m: Map<Seq<u8>, EntryView>, key: Seq<u8>, now: u64) -> bool {
    m.dom().contains(key) && m[key].1 > now
}

/// A request reads the longest cached prefix: where breakpoint `j` has an
/// unexpired entry and no breakpoint after it has one, the request reads
/// the tokens of that entry, however many breakpoints before it are cached
/// too; and where no breakpoint has an unexpired entry, it reads nothing.
pub proof fn law_read_is_last_cached_breakpoint(
    m: Map<Seq<u8>, EntryView>,
    api_key: Seq<char>,
    bps: Seq<BreakpointView>,
    total: int,
    now: u64,
    j: int,
)
    ensures
        ({
            let o = lookup_outcome(m, api_key, bps, total, now);
            let ns = namespace_of(api_key);
            &&& (0 <= j < bps.len() && live_entry(m, store_key(ns, bps[j].hash), now) && (forall|k: int|
                j < k < bps.len() ==> !#[trigger] live_entry(m, store_key(ns, bps[k].hash), now)))
                ==> o.read == m[store_key(ns, bps[j].hash)].0
            &&& (forall|k: int| 0 <= k < bps.len() ==> !#[trigger] live_entry(m, store_key(ns, bps[k].hash), now))
                ==> o.read == 0
        }),
{
    let ns = namespace_of(api_key);
    let m1 = unexpired(m, now);
    if 0 <= j < bps.len() && live_entry(m, store_key(ns, bps[j].hash), now) && (forall|k: int|
        j < k < bps.len() ==> !#[trigger] live_entry(m, store_key(ns, bps[k].hash), now)) {
        assert forall|k: int| j < k < bps.len() implies !m1.dom().contains(store_key(ns, #[trigger] bps[k].hash)) by {
            assert(!live_entry(m, store_key(ns, bps[k].hash), now));
        }
        lemma_find_hit_is_last(m1, ns, bps, bps.len() as int, j);
    }
    if forall|k: int| 0 <= k < bps.len() ==> !#[trigger] live_entry(m, store_key(ns, bps[k].hash), now) {
        assert forall|k: int| 0 <= k < bps.len() implies !m1.dom().contains(store_key(ns, #[trigger] bps[k].hash)) by {
            assert(!live_entry(m, store_key(ns, bps[k].hash), now));
        }
        lemma_find_hit_none(m1, ns, bps, bps.len() as int);
    }
}

/// A breakpoint is stored under the digest of the whole API key (or of
/// `anonymous` when the key is empty), a colon, and the breakpoint's hash:
/// after a request with breakpoints, its last breakpoint is stored there.
pub proof fn law_store_key_uses_whole_api_key(
    m: Map<Seq<u8>, EntryView>,
    api_key: Seq<char>,
    bps: Seq<BreakpointView>,
    total: int,
    now: u64,
)
    requires
        bps.len() > 0,
        now + bps.last().ttl <= u64::MAX,
    ensures
        ({
            let o = lookup_outcome(m, api_key, bps, total, now);
            let owner = if api_key.len() == 0 {
                "anonymous"@
            } else {
                api_key
            };
            let key = sha256_hex(encode_utf8(owner)) + seq![58u8] + bps.last().hash;
            &&& o.store.dom().contains(key)
            &&& o.store[key].1 == now + bps.last().ttl
        }),
{
    law_last_breakpoint_is_cached(m, api_key, bps, total, now);
}

/// Two distinct non-empty API keys have distinct namespaces.
pub proof fn law_distinct_api_keys_have_distinct_namespaces(key1: Seq<char>, key2: Seq<char>)
    requires
        key1.len() > 0,
        key2.len() > 0,
        key1 != key2,
    ensures
        namespace_of(key1) != namespace_of(key2),
{
}

/// What one API key caches is not seen by another: for two non-empty keys
/// whose SHA-256 digests differ (each digest 32 bytes, as the hash gives),
/// a request under the second key gives the same numbers whether or not any
/// run of requests under the first key came first, at the same time.
pub proof fn law_distinct_api_keys_are_separate(
    m: Map<Seq<u8>, EntryView>,
    key1: Seq<char>,
    reqs: Seq<(Seq<BreakpointView>, int)>,
    key2: Seq<char>,
    bps2: Seq<BreakpointView>,
    total2: int,
    now: u64,
)
    requires
        key1.len() > 0,
        key2.len() > 0,
        sha256(encode_utf8(key1)).len() == 32,
        sha256(encode_utf8(key2)).len() == 32,
        sha256_hex(encode_utf8(key1)) != sha256_hex(encode_utf8(key2)),
    ensures
        ({
            let a = lookup_outcome(m, key2, bps2, total2, now);
            let b = lookup_outcome(after_requests(m, key1, reqs, now), key2, bps2, total2, now);
            &&& a.creation == b.creation
            &&& a.read == b.read
            &&& a.uncached == b.uncached
        }),
{
    let d1 = sha256_hex(encode_utf8(namespace_of(key1)));
    let d2 = sha256_hex(encode_utf8(namespace_of(key2)));
    lemma_hex_lower_len(sha256(encode_utf8(key1)));
    lemma_hex_lower_len(sha256(encode_utf8(key2)));
    assert(d1.len() == 64 && d2.len() == 64);
    assert forall|i: int, j1: int, j2: int|
        0 <= i < reqs.len() && 0 <= j1 < reqs[i].0.len() && 0 <= j2 < bps2.len() implies store_key(
        namespace_of(key1),
        #[trigger] reqs[i].0[j1].hash,
    ) != store_key(namespace_of(key2), #[trigger] bps2[j2].hash) by {
        let k1 = store_key(namespace_of(key1), reqs[i].0[j1].hash);
        let k2 = store_key(namespace_of(key2), bps2[j2].hash);
        assert(k1.take(64) =~= d1);
        assert(k2.take(64) =~= d2);
    }
    law_api_keys_are_separate(m, key1, reqs, key2, bps2, total2, now);
}

/// Whether a lookup stays within range depends on its arithmetic alone, not
/// on how many breakpoints it has: it does exactly when every expiry time
/// fits in a `u64` and the tokens created, read and left fit in an `i32`.
pub proof fn law_lookup_fits_is_arithmetic(
    m: Map<Seq<u8>, EntryView>,
    api_key: Seq<char>,
    bps: Seq<BreakpointView>,
    total: int,
    now: u64,
)
    ensures
        ({
            let o = lookup_outcome(m, api_key, bps, total, now);
            bps.len() > 0 ==> (lookup_fits(m, api_key, bps, total, now) <==> {
                &&& forall|j: int| 0 <= j < bps.len() ==> now + #[trigger] bps[j].ttl <= u64::MAX
                &&& o.creation <= i32::MAX
                &&& o.creation + o.read <= i32::MAX
                &&& i32::MIN <= total - (o.creation + o.read)
            })
        }),
{
}

/// Whether an optional marker is an ephemeral one.
pub open spec fn ephemeral_marker(marker: Option<CacheControl>) -> bool {
    match marker {
        Some(cc) => cc.cache_type@ == "ephemeral"@,
        None => false,
    }
}

/// The number of ephemeral markers on the tools.
pub open spec fn tools_markers(tools: Seq<Tool>) -> int
    decreases tools.len(),
{
    if tools.len() == 0 {
        0
    } else {
        tools_markers(tools.drop_last()) + if ephemeral_marker(tools.last().cache_control) {
            1int
        } else {
            0
        }
    }
}

/// The number of ephemeral markers on the system prompt entries.
pub open spec fn system_markers(system: Seq<SystemMessage>) -> int
    decreases system.len(),
{
    if system.len() == 0 {
        0
    } else {
        system_markers(system.drop_last()) + if ephemeral_marker(system.last().cache_control) {
            1int
        } else {
            0
        }
    }
}

/// The number of ephemeral markers on content blocks.
pub open spec fn blocks_markers(blocks: Seq<ContentBlock>) -> int
    decreases blocks.len(),
{
    if blocks.len() == 0 {
        0
    } else {
        blocks_markers(blocks.drop_last()) + if ephemeral_marker(blocks.last().cache_control) {
            1int
        } else {
            0
        }
    }
}

/// The number of ephemeral markers in the messages: on their blocks only.
pub open spec fn messages_markers(messages: Seq<Message>) -> int
    decreases messages.len(),
{
    if messages.len() == 0 {
        0
    } else {
        messages_markers(messages.drop_last()) + match messages.last().content {
            MessageContent::Blocks(blocks) => blocks_markers(blocks@),
            _ => 0,
        }
    }
}

/// The number of ephemeral markers in a request.
pub open spec fn request_markers(
    system: Option<&Vec<SystemMessage>>,
    messages: Seq<Message>,
    tools: Option<&Vec<Tool>>,
) -> int {
    tools_markers(
        match tools {
            Some(t) => t@,
            None => seq![],
        },
    ) + system_markers(
        match system {
            Some(s) => s@,
            None => seq![],
        },
    ) + messages_markers(messages)
}

spec fn steps_markers(steps: Seq<Step>) -> int
    decreases steps.len(),
{
    if steps.len() == 0 {
        0
    } else {
        steps_markers(steps.drop_last()) + if ephemeral_marker(steps.last().cache_control) {
            1int
        } else {
            0
        }
    }
}

proof fn lemma_breakpoints_count(steps: Seq<Step>)
    ensures
        breakpoints_of(steps).len() == steps_markers(steps),
    decreases steps.len(),
{
    if steps.len() > 0 {
        lemma_breakpoints_count(steps.drop_last());
    }
}

proof fn lemma_steps_markers_append(a: Seq<Step>, b: Seq<Step>)
    ensures
        steps_markers(a + b) == steps_markers(a) + steps_markers(b),
    decreases b.len(),
{
    if b.len() == 0 {
        assert(a + b =~= a);
    } else {
        lemma_steps_markers_append(a, b.drop_last());
        assert((a + b).drop_last() =~= a + b.drop_last());
        assert((a + b).last() == b.last());
    }
}

proof fn lemma_tool_steps_markers(tools: Seq<Tool>)
    ensures
        steps_markers(tool_steps(tools)) == tools_markers(tools),
    decreases tools.len(),
{
    if tools.len() > 0 {
        lemma_tool_steps_markers(tools.drop_last());
        assert(tool_steps(tools).drop_last() =~= tool_steps(tools.drop_last()));
        assert(tool_steps(tools).last().cache_control == tools.last().cache_control);
    }
}

proof fn lemma_system_steps_markers(system: Seq<SystemMessage>)
    ensures
        steps_markers(system_steps(system)) == system_markers(system),
    decreases system.len(),
{
    if system.len() > 0 {
        lemma_system_steps_markers(system.drop_last());
        assert(system_steps(system).drop_last() =~= system_steps(system.drop_last()));
        assert(system_steps(system).last().cache_control == system.last().cache_control);
    }
}

proof fn lemma_block_steps_markers(blocks: Seq<ContentBlock>)
    ensures
        steps_markers(block_steps(blocks)) == blocks_markers(blocks),
    decreases blocks.len(),
{
    if blocks.len() > 0 {
        lemma_block_steps_markers(blocks.drop_last());
        assert(block_steps(blocks).drop_last() =~= block_steps(blocks.drop_last()));
        assert(block_steps(blocks).last().cache_control == blocks.last().cache_control);
    }
}

proof fn lemma_messages_steps_markers(messages: Seq<Message>)
    ensures
        steps_markers(messages_steps(messages)) == messages_markers(messages),
    decreases messages.len(),
{
    if messages.len() > 0 {
        lemma_messages_steps_markers(messages.drop_last());
        let m = messages.last();
        let steps = message_steps(m);
        let role = seq![steps[0]];
        let rest = steps.skip(1);
        assert(steps =~= role + rest);
        lemma_steps_markers_append(role, rest);
        assert(role.drop_last() =~= Seq::<Step>::empty());
        assert(steps[0] == step(role_tag(), m.role@, 0, None));
        assert(steps_markers(Seq::<Step>::empty()) == 0);
        assert(steps_markers(role) == 0);
        match m.content {
            MessageContent::Blocks(blocks) => {
                assert(rest =~= block_steps(blocks@));
                lemma_block_steps_markers(blocks@);
            },
            _ => {
                assert(rest.len() == 1);
                assert(rest.drop_last() =~= Seq::<Step>::empty());
            },
        }
        lemma_steps_markers_append(messages_steps(messages.drop_last()), steps);
    }
}

/// A request sets one breakpoint for each ephemeral marker on its tools,
/// system prompt entries and content blocks, and the last `MAX_BREAKPOINTS`
/// of them are considered: their number is the number of such markers, at
/// most four.
pub proof fn law_one_breakpoint_per_marker(
    system: Option<&Vec<SystemMessage>>,
    messages: Seq<Message>,
    tools: Option<&Vec<Tool>>,
)
    ensures
        request_breakpoints(system, messages, tools).len() == if request_markers(system, messages, tools) > 4 {
            4
        } else {
            request_markers(system, messages, tools)
        },
{
    let t = tool_steps(match tools {
        Some(v) => v@,
        None => seq![],
    });
    let sy = system_steps(match system {
        Some(v) => v@,
        None => seq![],
    });
    let ms = messages_steps(messages);
    lemma_steps_markers_append(t, sy);
    lemma_steps_markers_append(t + sy, ms);
    lemma_tool_steps_markers(match tools {
        Some(v) => v@,
        None => seq![],
    });
    lemma_system_steps_markers(match system {
        Some(v) => v@,
        None => seq![],
    });
    lemma_messages_steps_markers(messages);
    lemma_breakpoints_count(prompt_steps(system, messages, tools));
}

/// A request that finds none of its breakpoints cached writes the tokens of
/// its last breakpoint, reads none, and leaves uncached what the total has
/// beyond them (at least zero), when its counts do not decrease along its
/// breakpoints.
pub proof fn law_uncached_request_creates_its_last_breakpoint(
    m: Map<Seq<u8>, EntryView>,
    api_key: Seq<char>,
    bps: Seq<BreakpointView>,
    total: int,
    now: u64,
)
    requires
        bps.len() > 0,
        tokens_nondecreasing(bps),
        forall|k: int| 0 <= k < bps.len() ==> !#[trigger] live_entry(m, store_key(namespace_of(api_key), bps[k].hash), now),
    ensures
        ({
            let o = lookup_outcome(m, api_key, bps, total, now);
            &&& o.read == 0
            &&& o.creation == bps.last().tokens
            &&& o.uncached == if total - bps.last().tokens < 0 {
                0
            } else {
                total - bps.last().tokens
            }
        }),
{
    let ns = namespace_of(api_key);
    let m1 = unexpired(m, now);
    assert forall|k: int| 0 <= k < bps.len() implies !m1.dom().contains(store_key(ns, #[trigger] bps[k].hash)) by {
        assert(!live_entry(m, store_key(ns, bps[k].hash), now));
    }
    lemma_find_hit_none(m1, ns, bps, bps.len() as int);
    lemma_creation_telescopes(bps, bps.len() as int);
}

/// A request whose last cached breakpoint `j` held that breakpoint's count
/// reads that count and writes only the tokens beyond it up to its last
/// breakpoint, when its counts do not decrease along its breakpoints.
pub proof fn law_cached_prefix_is_read_and_rest_created(
    m: Map<Seq<u8>, EntryView>,
    api_key: Seq<char>,
    bps: Seq<BreakpointView>,
    total: int,
    now: u64,
    j: int,
)
    requires
        0 <= j < bps.len(),
        tokens_nondecreasing(bps),
        bps[j].tokens > 0,
        live_entry(m, store_key(namespace_of(api_key), bps[j].hash), now),
        m[store_key(namespace_of(api_key), bps[j].hash)].0 == bps[j].tokens,
        forall|k: int|
            j < k < bps.len() ==> !#[trigger] live_entry(m, store_key(namespace_of(api_key), bps[k].hash), now),
    ensures
        ({
            let o = lookup_outcome(m, api_key, bps, total, now);
            &&& o.read == bps[j].tokens
            &&& o.creation == bps.last().tokens - bps[j].tokens
            &&& o.uncached == if total - bps.last().tokens < 0 {
                0
            } else {
                total - bps.last().tokens
            }
        }),
{
    let ns = namespace_of(api_key);
    let m1 = unexpired(m, now);
    let n = bps.len() as int;
    assert forall|k: int| j < k < n implies !m1.dom().contains(store_key(ns, #[trigger] bps[k].hash)) by {
        assert(!live_entry(m, store_key(ns, bps[k].hash), now));
    }
    lemma_find_hit_is_last(m1, ns, bps, n, j);
    if j + 1 < n {
        lemma_creation_telescopes_from(bps, j + 1, n, bps[j].tokens as int);
        assert(0 <= bps[j].tokens <= bps[j + 1].tokens);
    } else {
        assert(creation_run(bps, j + 1, n, bps[j].tokens as int) == 0);
    }
}

} // verus!
