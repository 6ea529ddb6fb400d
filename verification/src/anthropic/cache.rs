//! Prompt cache accounting for Anthropic-compatible usage fields.
//!
//! The cache is local to the proxy. It does not remove prompt content from
//! requests; it only makes Anthropic cache usage visible to clients that send
//! `cache_control` breakpoints.

use vstd::prelude::*;

use crate::anthropic::hashing::{sha256_hex, sha256_hex_exec};
use crate::anthropic::store::{CacheStore, EntryView, unexpired};
use crate::anthropic::types::{CacheControl, ContentBlock, Message, MessageContent, Step, SystemMessage, Tool};
use crate::text::str_eq;
use vstd::utf8::encode_utf8;
use vstd::string::StringSliceAdditionalSpecFns;

verus! {

/// How long a breakpoint stays cached by default: five minutes, in milliseconds.
pub const DEFAULT_TTL_MS: u64 = 300_000;

/// How long a breakpoint marked `"ttl": "1h"` stays cached, in milliseconds.
pub const EXTENDED_TTL_MS: u64 = 3_600_000;

/// At most this many breakpoints, the last ones, are considered.
pub const MAX_BREAKPOINTS: usize = 4;

/// The cache usage of one request.
#[derive(Debug, Clone)]
pub struct CacheResult {
    pub cache_creation_input_tokens: i32,
    pub cache_read_input_tokens: i32,
    pub uncached_input_tokens: i32,
}

impl Default for CacheResult {
    fn default() -> (res: Self)
        ensures
            res.cache_creation_input_tokens == 0,
            res.cache_read_input_tokens == 0,
            res.uncached_input_tokens == 0,
    {
        CacheResult { cache_creation_input_tokens: 0, cache_read_input_tokens: 0, uncached_input_tokens: 0 }
    }
}

/// The larger of a value and zero.
pub open spec fn clamp_zero(v: int) -> int {
    if v > 0 {
        v
    } else {
        0
    }
}

impl CacheResult {
    /// Tokens written to or read from the cache.
    pub open spec fn spec_cached(&self) -> int {
        self.cache_creation_input_tokens + self.cache_read_input_tokens
    }

    /// Tokens written to or read from the cache.
    pub fn cached_input_tokens(&self) -> (res: i32)
        requires
            i32::MIN <= self.spec_cached() <= i32::MAX,
        ensures
            res == self.spec_cached(),
    {
        self.cache_creation_input_tokens + self.cache_read_input_tokens
    }

    /// Input tokens not served from the cache: the observed count less the
    /// cached tokens, at least zero, or the estimate when nothing was observed.
    pub fn input_tokens_after_cache(&self, observed_input_tokens: Option<i32>) -> (res: i32)
        requires
            observed_input_tokens is Some ==> {
                &&& i32::MIN <= self.spec_cached() <= i32::MAX
                &&& i32::MIN <= observed_input_tokens->0 - self.spec_cached() <= i32::MAX
            },
        ensures
            res == match observed_input_tokens {
                Some(tokens) => clamp_zero(tokens - self.spec_cached()),
                None => self.uncached_input_tokens as int,
            },
    {
        match observed_input_tokens {
            Some(tokens) => {
                let d = tokens - self.cached_input_tokens();
                if d > 0 {
                    d
                } else {
                    0
                }
            },
            None => self.uncached_input_tokens,
        }
    }
}


// ---------------------------------------------------------------------------
// The walk over a request and the breakpoints it yields.
// ---------------------------------------------------------------------------

/// The bytes that introduce a tool in the hash.
pub open spec fn tool_tag() -> Seq<u8> {
    "tool:".spec_bytes()
}

/// The bytes that introduce a system prompt entry in the hash.
pub open spec fn system_tag() -> Seq<u8> {
    "system:".spec_bytes()
}

/// The bytes that introduce a message's role in the hash.
pub open spec fn role_tag() -> Seq<u8> {
    "role:".spec_bytes()
}

/// The bytes that introduce string content in the hash.
pub open spec fn text_tag() -> Seq<u8> {
    "text:".spec_bytes()
}

/// The bytes that introduce a content block in the hash.
pub open spec fn block_tag() -> Seq<u8> {
    "block:".spec_bytes()
}

/// The bytes that introduce content of another JSON kind in the hash.
pub open spec fn content_tag() -> Seq<u8> {
    "content:".spec_bytes()
}

/// A step that feeds `tag` and the UTF-8 bytes of `text`.
pub open spec fn step(tag: Seq<u8>, text: Seq<char>, tokens: int, cache_control: Option<CacheControl>) -> Step {
    Step { bytes: tag + encode_utf8(text), tokens, cache_control }
}

/// The steps for the tools, in order.
pub open spec fn tool_steps(tools: Seq<Tool>) -> Seq<Step> {
    tools.map_values(|t: Tool| step(tool_tag(), t.normalized@, t.tokens as int, t.cache_control))
}

/// The steps for the system prompt, in order.
pub open spec fn system_steps(system: Seq<SystemMessage>) -> Seq<Step> {
    system.map_values(|m: SystemMessage| step(system_tag(), m.text@, m.tokens as int, m.cache_control))
}

/// The steps for the blocks of a message, in order.
pub open spec fn block_steps(blocks: Seq<ContentBlock>) -> Seq<Step> {
    blocks.map_values(|b: ContentBlock| step(block_tag(), b.normalized@, b.tokens as int, b.cache_control))
}

/// The steps for one message: its role, then its content.
pub open spec fn message_steps(m: Message) -> Seq<Step> {
    seq![step(role_tag(), m.role@, 0, None)] + match m.content {
        MessageContent::Text { text, tokens } => seq![step(text_tag(), text@, tokens as int, None)],
        MessageContent::Blocks(blocks) => block_steps(blocks@),
        MessageContent::Other { normalized, tokens } => seq![step(content_tag(), normalized@, tokens as int, None)],
    }
}

/// The steps for the messages, in order.
pub open spec fn messages_steps(messages: Seq<Message>) -> Seq<Step>
    decreases messages.len(),
{
    if messages.len() == 0 {
        seq![]
    } else {
        messages_steps(messages.drop_last()) + message_steps(messages.last())
    }
}

/// The contents of an optional list, or nothing.
pub open spec fn opt_seq<T>(v: Option<&Vec<T>>) -> Seq<T> {
    match v {
        Some(v) => v@,
        None => seq![],
    }
}

/// The steps of a request: tools, then system prompt, then messages.
pub open spec fn prompt_steps(
    system: Option<&Vec<SystemMessage>>,
    messages: Seq<Message>,
    tools: Option<&Vec<Tool>>,
) -> Seq<Step> {
    tool_steps(opt_seq(tools)) + system_steps(opt_seq(system)) + messages_steps(messages)
}

/// All bytes fed to the hash by the steps.
pub open spec fn fed_bytes(steps: Seq<Step>) -> Seq<u8>
    decreases steps.len(),
{
    if steps.len() == 0 {
        seq![]
    } else {
        fed_bytes(steps.drop_last()) + steps.last().bytes
    }
}

/// The tokens of the steps, summed.
pub open spec fn cumulative(steps: Seq<Step>) -> int
    decreases steps.len(),
{
    if steps.len() == 0 {
        0
    } else {
        cumulative(steps.drop_last()) + steps.last().tokens
    }
}

/// Every running token total along the steps fits in an `i32`.
pub open spec fn tokens_fit(steps: Seq<Step>) -> bool {
    forall|k: int| 0 < k <= steps.len() ==> i32::MIN <= #[trigger] cumulative(steps.take(k)) <= i32::MAX
}

/// A marker sets a breakpoint when its type is `ephemeral`.
pub open spec fn is_ephemeral(cache_control: CacheControl) -> bool {
    cache_control.cache_type@ == "ephemeral"@
}

/// A breakpoint's lifetime: one hour for `"ttl": "1h"`, else five minutes.
pub open spec fn ttl_of(cache_control: CacheControl) -> u64 {
    match cache_control.ttl {
        Some(t) => if t@ == "1h"@ {
            EXTENDED_TTL_MS
        } else {
            DEFAULT_TTL_MS
        },
        None => DEFAULT_TTL_MS,
    }
}

/// A breakpoint as a value: the hex hash of the prefix it ends, the tokens of
/// that prefix (at least zero) and its lifetime.
pub ghost struct BreakpointView {
    pub hash: Seq<u8>,
    pub tokens: i32,
    pub ttl: u64,
}

/// The breakpoints set along the steps, in order: one after each step whose
/// marker is ephemeral.
pub open spec fn breakpoints_of(steps: Seq<Step>) -> Seq<BreakpointView>
    decreases steps.len(),
{
    if steps.len() == 0 {
        seq![]
    } else {
        let prev = breakpoints_of(steps.drop_last());
        match steps.last().cache_control {
            Some(cc) => if is_ephemeral(cc) {
                prev.push(
                    BreakpointView {
                        hash: sha256_hex(fed_bytes(steps)),
                        tokens: clamp_zero(cumulative(steps)) as i32,
                        ttl: ttl_of(cc),
                    },
                )
            } else {
                prev
            },
            None => prev,
        }
    }
}

/// The last `n` items of a sequence, or all of them when there are fewer.
pub open spec fn keep_last<T>(s: Seq<T>, n: int) -> Seq<T> {
    if s.len() > n {
        s.subrange(s.len() - n, s.len() as int)
    } else {
        s
    }
}

/// The breakpoints of a request that accounting considers.
pub open spec fn request_breakpoints(
    system: Option<&Vec<SystemMessage>>,
    messages: Seq<Message>,
    tools: Option<&Vec<Tool>>,
) -> Seq<BreakpointView> {
    keep_last(breakpoints_of(prompt_steps(system, messages, tools)), MAX_BREAKPOINTS as int)
}

/// A point in the request at which a prefix can be cached.
pub struct CacheBreakpoint {
    hash: Vec<u8>,
    tokens: i32,
    ttl: u64,
}

impl View for CacheBreakpoint {
    type V = BreakpointView;

    closed spec fn view(&self) -> BreakpointView {
        BreakpointView { hash: self.hash@, tokens: self.tokens, ttl: self.ttl }
    }
}

/// The values of a list of breakpoints.
pub open spec fn breakpoint_views(bps: Seq<CacheBreakpoint>) -> Seq<BreakpointView> {
    bps.map_values(|b: CacheBreakpoint| b@)
}

impl CacheBreakpoint {
    #[verifier::type_invariant]
    spec fn inv(self) -> bool {
        self.tokens >= 0
    }

    /// A breakpoint for the prefix whose hex hash is `hash`, with `tokens`
    /// (taken as zero when negative) and lifetime `ttl`.
    pub fn new(hash: Vec<u8>, tokens: i32, ttl: u64) -> (res: Self)
        ensures
            res@ == (BreakpointView { hash: hash@, tokens: clamp_zero(tokens as int) as i32, ttl }),
    {
        CacheBreakpoint { hash, tokens: if tokens > 0 { tokens } else { 0 }, ttl }
    }

    /// The hex hash of the prefix that the breakpoint ends, as ASCII bytes.
    pub fn hash(&self) -> (res: &[u8])
        ensures
            res@ == self@.hash,
    {
        self.hash.as_slice()
    }

    /// The tokens of the prefix.
    pub fn tokens(&self) -> (res: i32)
        ensures
            res == self@.tokens,
    {
        self.tokens
    }

    /// How long the prefix stays cached, in milliseconds.
    pub fn ttl(&self) -> (res: u64)
        ensures
            res == self@.ttl,
    {
        self.ttl
    }
}

/// The lifetime of a breakpoint set by `cache_control`.
pub fn parse_ttl(cache_control: &CacheControl) -> (res: u64)
    ensures
        res == ttl_of(*cache_control),
{
    match &cache_control.ttl {
        Some(t) => if str_eq(t.as_str(), "1h") {
            EXTENDED_TTL_MS
        } else {
            DEFAULT_TTL_MS
        },
        None => DEFAULT_TTL_MS,
    }
}

/// The running state of the walk: the bytes fed so far, the running token
/// total and the breakpoints set so far.
struct Walk {
    fed: Vec<u8>,
    cumulative: i32,
    breakpoints: Vec<CacheBreakpoint>,
    done: Ghost<Seq<Step>>,
}

impl Walk {
    spec fn inv(&self) -> bool {
        &&& self.fed@ == fed_bytes(self.done@)
        &&& self.cumulative == cumulative(self.done@)
        &&& breakpoint_views(self.breakpoints@) == breakpoints_of(self.done@)
    }

    fn new() -> (res: Self)
        ensures
            res.inv(),
            res.done@ == Seq::<Step>::empty(),
    {
        let res = Walk { fed: Vec::new(), cumulative: 0, breakpoints: Vec::new(), done: Ghost(Seq::empty()) };
        assert(breakpoint_views(res.breakpoints@) =~= seq![]);
        res
    }

    /// Feeds one step: `tag`, then the bytes of `text`; adds `tokens`; then
    /// sets a breakpoint where `cache_control` is ephemeral.
    fn feed(&mut self, tag: &[u8], text: &str, tokens: i32, cache_control: Option<&CacheControl>)
        requires
            old(self).inv(),
            i32::MIN <= old(self).cumulative + tokens <= i32::MAX,
        ensures
            final(self).inv(),
            final(self).done@ == old(self).done@.push(
                step(
                    tag@,
                    text@,
                    tokens as int,
                    marker(cache_control),
                ),
            ),
    {
        let ghost st = step(tag@, text@, tokens as int, marker(cache_control));
        let ghost done2 = self.done@.push(st);
        assert(done2.drop_last() =~= self.done@);
        append_bytes(&mut self.fed, tag);
        append_bytes(&mut self.fed, text.as_bytes());
        assert(self.fed@ =~= fed_bytes(done2));
        self.cumulative = self.cumulative + tokens;
        if let Some(c) = cache_control {
            push_breakpoint(&mut self.breakpoints, self.fed.as_slice(), self.cumulative, c);
        }
        self.done = Ghost(done2);
    }
}

/// Sets a breakpoint after the bytes `fed`, holding `tokens` (zero when
/// negative), when `cache_control` is ephemeral; otherwise does nothing.
fn push_breakpoint(breakpoints: &mut Vec<CacheBreakpoint>, fed: &[u8], tokens: i32, cache_control: &CacheControl)
    ensures
        breakpoint_views(final(breakpoints)@) == if is_ephemeral(*cache_control) {
            breakpoint_views(old(breakpoints)@).push(
                BreakpointView {
                    hash: sha256_hex(fed@),
                    tokens: clamp_zero(tokens as int) as i32,
                    ttl: ttl_of(*cache_control),
                },
            )
        } else {
            breakpoint_views(old(breakpoints)@)
        },
{
    if !str_eq(cache_control.cache_type.as_str(), "ephemeral") {
        return;
    }
    let ghost old_bps = breakpoints@;
    let bp = CacheBreakpoint::new(sha256_hex_exec(fed), tokens, parse_ttl(cache_control));
    breakpoints.push(bp);
    assert(breakpoint_views(breakpoints@) =~= breakpoint_views(old_bps).push(bp@));
}

/// The marker behind an optional reference.
pub open spec fn marker(cache_control: Option<&CacheControl>) -> Option<CacheControl> {
    match cache_control {
        Some(c) => Some(*c),
        None => None,
    }
}

/// Appends bytes to a buffer.
fn append_bytes(buf: &mut Vec<u8>, more: &[u8])
    ensures
        final(buf)@ == old(buf)@ + more@,
{
    let mut i: usize = 0;
    while i < more.len()
        invariant
            i <= more@.len(),
            buf@ == old(buf)@ + more@.take(i as int),
        decreases more@.len() - i,
    {
        buf.push(more[i]);
        assert(more@.take(i + 1) =~= more@.take(i as int).push(more@[i as int]));
        i = i + 1;
    }
    assert(more@.take(more@.len() as int) =~= more@);
}


proof fn lemma_next_fits(all: Seq<Step>, done: Seq<Step>)
    requires
        tokens_fit(all),
        done.len() < all.len(),
        done == all.take(done.len() as int),
    ensures
        i32::MIN <= cumulative(done) + all[done.len() as int].tokens <= i32::MAX,
        done.push(all[done.len() as int]) == all.take(done.len() as int + 1),
{
    let n = done.len() as int;
    assert(all.take(n + 1) =~= done.push(all[n]));
    assert(all.take(n + 1).drop_last() =~= done);
    assert(i32::MIN <= cumulative(all.take(n + 1)) <= i32::MAX);
}

proof fn lemma_messages_prefix(ms: Seq<Message>, j: int)
    requires
        0 <= j <= ms.len(),
    ensures
        messages_steps(ms.take(j)).len() <= messages_steps(ms).len(),
        forall|k: int|
            0 <= k < messages_steps(ms.take(j)).len() ==> messages_steps(ms)[k] == #[trigger] messages_steps(
                ms.take(j),
            )[k],
    decreases ms.len(),
{
    if j == ms.len() {
        assert(ms.take(j) =~= ms);
    } else {
        assert(ms.take(j) =~= ms.drop_last().take(j));
        lemma_messages_prefix(ms.drop_last(), j);
    }
}

proof fn lemma_messages_step(ms: Seq<Message>, i: int)
    requires
        0 <= i < ms.len(),
    ensures
        messages_steps(ms.take(i + 1)) == messages_steps(ms.take(i)) + message_steps(ms[i]),
{
    assert(ms.take(i + 1).drop_last() =~= ms.take(i));
}

/// One step of a request, borrowed from it: the tag, the text after it, the
/// tokens and the marker.
pub struct StepRef<'a> {
    pub tag: &'static str,
    pub text: &'a str,
    pub tokens: i32,
    pub cache_control: Option<&'a CacheControl>,
}

/// The step that a borrowed step stands for.
pub open spec fn step_of(r: StepRef) -> Step {
    step(r.tag.spec_bytes(), r.text@, r.tokens as int, marker(r.cache_control))
}

/// The steps that a list of borrowed steps stands for.
pub open spec fn steps_of(rs: Seq<StepRef>) -> Seq<Step> {
    rs.map_values(|r: StepRef| step_of(r))
}

proof fn lemma_steps_push(rs: Seq<StepRef>, r: StepRef, all: Seq<Step>)
    requires
        steps_of(rs) == all.take(rs.len() as int),
        rs.len() < all.len(),
        step_of(r) == all[rs.len() as int],
    ensures
        steps_of(rs.push(r)) == all.take(rs.len() as int + 1),
{
    assert(steps_of(rs).len() == rs.len());
    assert(steps_of(rs.push(r)) =~= steps_of(rs).push(step_of(r)));
    assert(all.take(rs.len() as int + 1) =~= all.take(rs.len() as int).push(all[rs.len() as int]));
}

/// Lists the steps of a request: tools, then system prompt, then messages.
pub fn request_steps<'a>(
    system: Option<&'a Vec<SystemMessage>>,
    messages: &'a [Message],
    tools: Option<&'a Vec<Tool>>,
) -> (res: Vec<StepRef<'a>>)
    ensures
        steps_of(res@) == prompt_steps(system, messages@, tools),
{
    let ghost all = prompt_steps(system, messages@, tools);
    let ghost ts = tool_steps(opt_seq(tools));
    let ghost ss = system_steps(opt_seq(system));
    let ghost ms = messages_steps(messages@);
    assert(all == ts + ss + ms);
    let mut out: Vec<StepRef<'a>> = Vec::new();
    assert(steps_of(out@) =~= all.take(0));
    if let Some(tools) = tools {
        let mut i: usize = 0;
        while i < tools.len()
            invariant
                all == ts + ss + ms,
                ts == tool_steps(tools@),
                i <= tools@.len(),
                steps_of(out@) == all.take(i as int),
                out@.len() == i,
            decreases tools@.len() - i,
        {
            let t = &tools[i];
            let r = StepRef { tag: "tool:", text: t.normalized.as_str(), tokens: t.tokens, cache_control: t.cache_control.as_ref() };
            assert(step_of(r) == all[i as int]);
            assert(all.len() >= tools@.len());
            proof {
                lemma_steps_push(out@, r, all);
            }
            out.push(r);
            i = i + 1;
        }
        assert(steps_of(out@) == all.take(ts.len() as int));
    } else {
        assert(steps_of(out@) == all.take(ts.len() as int));
    }
    if let Some(system) = system {
        let mut i: usize = 0;
        while i < system.len()
            invariant
                all == ts + ss + ms,
                ss == system_steps(system@),
                i <= system@.len(),
                steps_of(out@) == all.take(ts.len() + i as int),
                out@.len() == ts.len() + i,
            decreases system@.len() - i,
        {
            let m = &system[i];
            let r = StepRef { tag: "system:", text: m.text.as_str(), tokens: m.tokens, cache_control: m.cache_control.as_ref() };
            assert(step_of(r) == all[ts.len() + i]);
            assert(all.len() >= ts.len() + system@.len());
            proof {
                lemma_steps_push(out@, r, all);
            }
            out.push(r);
            i = i + 1;
        }
        assert(steps_of(out@) == all.take((ts.len() + ss.len()) as int));
    } else {
        assert(steps_of(out@) == all.take((ts.len() + ss.len()) as int));
    }
    let ghost base: int = (ts.len() + ss.len()) as int;
    let mut i: usize = 0;
    while i < messages.len()
        invariant
            all == ts + ss + ms,
            ms == messages_steps(messages@),
            base == ts.len() + ss.len(),
            i <= messages@.len(),
            steps_of(out@) == all.take((base + messages_steps(messages@.take(i as int)).len()) as int),
            out@.len() == base + messages_steps(messages@.take(i as int)).len(),
        decreases messages@.len() - i,
    {
        let msg = &messages[i];
        let ghost start: int = base + messages_steps(messages@.take(i as int)).len();
        let ghost cur = message_steps(messages@[i as int]);
        proof {
            lemma_messages_step(messages@, i as int);
            lemma_messages_prefix(messages@, i + 1);
            assert forall|r: int| 0 <= r < cur.len() implies all[start + r] == cur[r] by {
                assert(messages_steps(messages@.take(i + 1))[messages_steps(messages@.take(i as int)).len() + r]
                    == cur[r]);
            }
            assert(start + cur.len() <= all.len());
        }
        let r = StepRef { tag: "role:", text: msg.role.as_str(), tokens: 0, cache_control: None };
        assert(all[start + 0] == cur[0]);
        assert(step_of(r) == all[start]);
        proof {
            lemma_steps_push(out@, r, all);
        }
        out.push(r);
        match &msg.content {
            MessageContent::Text { text, tokens } => {
                let r = StepRef { tag: "text:", text: text.as_str(), tokens: *tokens, cache_control: None };
                assert(all[start + 1] == cur[1]);
                assert(step_of(r) == all[start + 1]);
                proof {
                    lemma_steps_push(out@, r, all);
                }
                out.push(r);
            },
            MessageContent::Blocks(blocks) => {
                let mut j: usize = 0;
                while j < blocks.len()
                    invariant
                        cur == message_steps(messages@[i as int]),
                        cur == seq![step(role_tag(), msg.role@, 0, None)] + block_steps(blocks@),
                        forall|r: int| 0 <= r < cur.len() ==> all[start + r] == cur[r],
                        0 <= start,
                        start + cur.len() <= all.len(),
                        j <= blocks@.len(),
                        steps_of(out@) == all.take(start + 1 + j),
                        out@.len() == start + 1 + j,
                    decreases blocks@.len() - j,
                {
                    let b = &blocks[j];
                    assert(cur.len() == 1 + blocks@.len());
                    assert(cur[1 + j] == step(block_tag(), b.normalized@, b.tokens as int, b.cache_control));
                    let r = StepRef { tag: "block:", text: b.normalized.as_str(), tokens: b.tokens, cache_control: b.cache_control.as_ref() };
                    assert(step_of(r) == all[start + 1 + j]);
                    proof {
                        lemma_steps_push(out@, r, all);
                    }
                    out.push(r);
                    j = j + 1;
                }
            },
            MessageContent::Other { normalized, tokens } => {
                let r = StepRef { tag: "content:", text: normalized.as_str(), tokens: *tokens, cache_control: None };
                assert(all[start + 1] == cur[1]);
                assert(step_of(r) == all[start + 1]);
                proof {
                    lemma_steps_push(out@, r, all);
                }
                out.push(r);
            },
        }
        assert(steps_of(out@) == all.take((start + cur.len()) as int));
        i = i + 1;
    }
    assert(messages@.take(messages@.len() as int) =~= messages@);
    assert(steps_of(out@) =~= all);
    out
}

/// Whether every running token total along the request fits in an `i32`.
pub fn prompt_tokens_fit(
    system: Option<&Vec<SystemMessage>>,
    messages: &[Message],
    tools: Option<&Vec<Tool>>,
) -> (res: bool)
    ensures
        res == tokens_fit(prompt_steps(system, messages@, tools)),
{
    let steps = request_steps(system, messages, tools);
    let ghost all = steps_of(steps@);
    let mut total: i64 = 0;
    let mut i: usize = 0;
    while i < steps.len()
        invariant
            all == steps_of(steps@),
            all == prompt_steps(system, messages@, tools),
            i <= steps@.len(),
            total == cumulative(all.take(i as int)),
            i32::MIN <= total <= i32::MAX,
            forall|k: int| 0 < k <= i ==> i32::MIN <= #[trigger] cumulative(all.take(k)) <= i32::MAX,
        decreases steps@.len() - i,
    {
        assert(all.take(i + 1).drop_last() =~= all.take(i as int));
        assert(all[i as int].tokens == steps@[i as int].tokens);
        total = total + steps[i].tokens as i64;
        if total < i32::MIN as i64 || total > i32::MAX as i64 {
            assert(!(i32::MIN <= cumulative(all.take(i + 1)) <= i32::MAX));
            return false;
        }
        i = i + 1;
    }
    assert(all.take(all.len() as int) =~= all);
    true
}

/// The breakpoints of a request: the hash of the prefix that ends at each
/// ephemeral `cache_control` marker (tools, then system prompt, then
/// message blocks), with the tokens counted so far; only the last
/// `MAX_BREAKPOINTS` are kept.
pub fn compute_cache_breakpoints(
    model: &str,
    system: Option<&Vec<SystemMessage>>,
    messages: &[Message],
    tools: Option<&Vec<Tool>>,
) -> (res: Vec<CacheBreakpoint>)
    requires
        tokens_fit(prompt_steps(system, messages@, tools)),
    ensures
        breakpoint_views(res@) == request_breakpoints(system, messages@, tools),
{
    let steps = request_steps(system, messages, tools);
    let ghost all = steps_of(steps@);
    let mut walk = Walk::new();
    assert(all.take(0) =~= Seq::<Step>::empty());
    let mut i: usize = 0;
    while i < steps.len()
        invariant
            walk.inv(),
            all == steps_of(steps@),
            tokens_fit(all),
            i <= steps@.len(),
            walk.done@ == all.take(i as int),
        decreases steps@.len() - i,
    {
        let r = &steps[i];
        proof {
            lemma_next_fits(all, walk.done@);
        }
        assert(all[i as int] == step_of(*r));
        walk.feed(r.tag.as_bytes(), r.text, r.tokens, r.cache_control);
        i = i + 1;
    }
    assert(walk.done@ =~= all);
    let mut breakpoints = walk.breakpoints;
    if breakpoints.len() > MAX_BREAKPOINTS {
        let keep_from = breakpoints.len() - MAX_BREAKPOINTS;
        let kept = breakpoints.split_off(keep_from);
        assert(breakpoint_views(kept@) =~= request_breakpoints(system, messages@, tools));
        return kept;
    }
    breakpoints
}

// ---------------------------------------------------------------------------
// Looking breakpoints up in the store, and creating them.
// ---------------------------------------------------------------------------

/// The namespace of a request: its API key, or `anonymous` when it has none.
pub open spec fn namespace_of(api_key: Seq<char>) -> Seq<char> {
    if api_key.len() == 0 {
        "anonymous"@
    } else {
        api_key
    }
}

/// The store key of a breakpoint: the hex hash of the namespace, a colon,
/// and the breakpoint's hash.
pub open spec fn store_key(namespace: Seq<char>, hash: Seq<u8>) -> Seq<u8> {
    sha256_hex(encode_utf8(namespace)) + seq![58u8] + hash
}

/// The last of the first `i` breakpoints whose key is in `m`.
pub open spec fn find_hit(
    m: Map<Seq<u8>, EntryView>,
    namespace: Seq<char>,
    bps: Seq<BreakpointView>,
    i: int,
) -> Option<int>
    decreases i,
{
    if i <= 0 {
        None
    } else if m.dom().contains(store_key(namespace, bps[i - 1].hash)) {
        Some(i - 1)
    } else {
        find_hit(m, namespace, bps, i - 1)
    }
}

/// `m` after storing breakpoints `from..to` in order, each with its tokens
/// and expiring its lifetime after `now`.
pub open spec fn insert_run(
    m: Map<Seq<u8>, EntryView>,
    namespace: Seq<char>,
    bps: Seq<BreakpointView>,
    from: int,
    to: int,
    now: u64,
) -> Map<Seq<u8>, EntryView>
    decreases to - from,
{
    if to <= from {
        m
    } else {
        insert_run(m, namespace, bps, from, to - 1, now).insert(
            store_key(namespace, bps[to - 1].hash),
            (bps[to - 1].tokens, (now + bps[to - 1].ttl) as u64),
        )
    }
}

/// The token count before breakpoint `j` in a run that starts at `from`
/// after `prev` tokens.
pub open spec fn prev_tokens(bps: Seq<BreakpointView>, from: int, j: int, prev: int) -> int {
    if j <= from {
        prev
    } else {
        bps[j - 1].tokens as int
    }
}

/// The tokens newly written by breakpoints `from..to`: each adds what it
/// holds beyond the one before it, if anything.
pub open spec fn creation_run(bps: Seq<BreakpointView>, from: int, to: int, prev: int) -> int
    decreases to - from,
{
    if to <= from {
        0
    } else {
        creation_run(bps, from, to - 1, prev) + clamp_zero(
            bps[to - 1].tokens - prev_tokens(bps, from, to - 1, prev),
        )
    }
}

/// What a lookup computes: tokens created, tokens read, tokens left
/// uncached, and the store afterwards.
pub ghost struct LookupOutcome {
    pub creation: int,
    pub read: int,
    pub uncached: int,
    pub store: Map<Seq<u8>, EntryView>,
}

/// The outcome of looking up the breakpoints of a request in store `m` at `now`.
///
/// With no breakpoints nothing is cached and the store is left as it is.
/// Otherwise expired entries are dropped; the last breakpoint found in the
/// store is read and refreshed, and the breakpoints after it are stored.
/// When nothing was read, every breakpoint is stored.
pub open spec fn lookup_outcome(
    m: Map<Seq<u8>, EntryView>,
    api_key: Seq<char>,
    bps: Seq<BreakpointView>,
    total: int,
    now: u64,
) -> LookupOutcome {
    if bps.len() == 0 {
        LookupOutcome { creation: 0, read: 0, uncached: total, store: m }
    } else {
        let namespace = namespace_of(api_key);
        let n = bps.len() as int;
        let m1 = unexpired(m, now);
        let (m2, read, c1) = match find_hit(m1, namespace, bps, n) {
            Some(idx) => {
                let key = store_key(namespace, bps[idx].hash);
                let tokens = m1[key].0;
                let refreshed = m1.insert(key, (tokens, (now + bps[idx].ttl) as u64));
                (
                    insert_run(refreshed, namespace, bps, idx + 1, n, now),
                    tokens as int,
                    creation_run(bps, idx + 1, n, tokens as int),
                )
            },
            None => (m1, 0int, 0int),
        };
        let (m3, creation) = if read == 0 {
            (insert_run(m2, namespace, bps, 0, n, now), c1 + creation_run(bps, 0, n, 0))
        } else {
            (m2, c1)
        };
        LookupOutcome {
            creation,
            read,
            uncached: clamp_zero(total - (creation + read)),
            store: m3,
        }
    }
}

/// The lookup's arithmetic stays within range: expiry times fit in a `u64`
/// and token counts in an `i32`.
pub open spec fn lookup_fits(
    m: Map<Seq<u8>, EntryView>,
    api_key: Seq<char>,
    bps: Seq<BreakpointView>,
    total: int,
    now: u64,
) -> bool {
    bps.len() > 0 ==> {
        let o = lookup_outcome(m, api_key, bps, total, now);
        &&& forall|j: int| 0 <= j < bps.len() ==> now + #[trigger] bps[j].ttl <= u64::MAX
        &&& o.creation <= i32::MAX
        &&& o.creation + o.read <= i32::MAX
        &&& i32::MIN <= total - (o.creation + o.read)
    }
}

proof fn lemma_creation_run_monotone(bps: Seq<BreakpointView>, from: int, to: int, n: int, prev: int)
    requires
        from <= to <= n,
    ensures
        0 <= creation_run(bps, from, to, prev) <= creation_run(bps, from, n, prev),
    decreases n - to,
{
    if to < n {
        lemma_creation_run_monotone(bps, from, to, n - 1, prev);
    } else {
        lemma_creation_run_nonneg(bps, from, to, prev);
    }
}

proof fn lemma_creation_run_nonneg(bps: Seq<BreakpointView>, from: int, to: int, prev: int)
    ensures
        0 <= creation_run(bps, from, to, prev),
    decreases to - from,
{
    if to > from {
        lemma_creation_run_nonneg(bps, from, to - 1, prev);
    }
}

/// The store key of a breakpoint's hash in a namespace.
pub fn cache_key(namespace: &str, hash: &[u8]) -> (res: Vec<u8>)
    ensures
        res@ == store_key(namespace@, hash@),
{
    let mut key = sha256_hex_exec(namespace.as_bytes());
    key.push(58u8);
    append_bytes(&mut key, hash);
    key
}

/// Stores breakpoints `from..` in order and returns the tokens they newly
/// write, counted from `prev` tokens before the first.
fn insert_run_exec(
    store: &mut CacheStore,
    namespace: &str,
    bps: &[CacheBreakpoint],
    from: usize,
    prev: i32,
    now: u64,
) -> (res: i32)
    requires
        old(store).wf(),
        from <= bps@.len(),
        prev >= 0,
        creation_run(breakpoint_views(bps@), from as int, bps@.len() as int, prev as int) <= i32::MAX,
        forall|j: int| 0 <= j < bps@.len() ==> now + #[trigger] bps@[j]@.ttl <= u64::MAX,
    ensures
        final(store).wf(),
        final(store)@ == insert_run(old(store)@, namespace@, breakpoint_views(bps@), from as int, bps@.len() as int, now),
        res == creation_run(breakpoint_views(bps@), from as int, bps@.len() as int, prev as int),
{
    let ghost views = breakpoint_views(bps@);
    let ghost n = bps@.len() as int;
    let creation: i32 = match creation_within(bps, from, prev, i32::MAX as i64) {
        Some(c) => c as i32,
        None => 0,
    };
    let mut j: usize = from;
    while j < bps.len()
        invariant
            store.wf(),
            views == breakpoint_views(bps@),
            n == bps@.len(),
            from <= j <= n,
            forall|k: int| 0 <= k < n ==> now + #[trigger] bps@[k]@.ttl <= u64::MAX,
            store@ == insert_run(old(store)@, namespace@, views, from as int, j as int, now),
        decreases n - j,
    {
        let bp = &bps[j];
        proof {
            use_type_invariant(bp);
        }
        assert(views[j as int] == bp@);
        assert(now + views[j as int].ttl <= u64::MAX);
        let key = cache_key(namespace, bp.hash.as_slice());
        store.insert(key.as_slice(), bp.tokens, now + bp.ttl);
        j = j + 1;
    }
    creation
}

/// Looks the breakpoints of a request up in the store at time `now` and
/// reports how many tokens were read from the cache, how many were written
/// to it, and how many of `total_input_tokens` were neither.
pub fn lookup_or_create(
    store: &mut CacheStore,
    api_key: &str,
    breakpoints: &[CacheBreakpoint],
    total_input_tokens: i32,
    now: u64,
) -> (res: CacheResult)
    requires
        old(store).wf(),
        lookup_fits(old(store)@, api_key@, breakpoint_views(breakpoints@), total_input_tokens as int, now),
    ensures
        final(store).wf(),
        ({
            let o = lookup_outcome(old(store)@, api_key@, breakpoint_views(breakpoints@), total_input_tokens as int, now);
            &&& res.cache_creation_input_tokens == o.creation
            &&& res.cache_read_input_tokens == o.read
            &&& res.uncached_input_tokens == o.uncached
            &&& final(store)@ == o.store
        }),
{
    let ghost views = breakpoint_views(breakpoints@);
    let ghost o = lookup_outcome(old(store)@, api_key@, views, total_input_tokens as int, now);
    if breakpoints.len() == 0 {
        return CacheResult { cache_creation_input_tokens: 0, cache_read_input_tokens: 0, uncached_input_tokens: total_input_tokens };
    }
    store.retain_unexpired(now);
    let namespace: &str = if api_key.is_empty() {
        "anonymous"
    } else {
        api_key
    };
    let ghost ns = namespace_of(api_key@);
    assert(namespace@ == ns);
        let ghost n = breakpoints@.len() as int;
    let ghost m1 = store@;
    assert(m1 == unexpired(old(store)@, now));
    assert forall|j: int| 0 <= j < n implies now + #[trigger] breakpoints@[j]@.ttl <= u64::MAX by {
        assert(views[j] == breakpoints@[j]@);
    }
    proof {
        lemma_creation_run_nonneg(views, 0, n, 0);
    }
    let mut creation: i32 = 0;
    let mut read: i32 = 0;
    assert(unexpired(m1, now) =~= m1);
    match find_unexpired_hit(store, namespace, breakpoints, now) {
        Some((idx, tokens)) => {
            read = tokens;
            let bp = &breakpoints[idx];
            assert(views[idx as int] == bp@);
            let key = cache_key(namespace, bp.hash.as_slice());
            store.insert(key.as_slice(), tokens, now + bp.ttl);
            proof {
                lemma_creation_run_nonneg(views, idx + 1, n, tokens as int);
                assert(o.read == tokens);
                assert(o.creation >= creation_run(views, idx + 1, n, tokens as int));
            }
            creation = insert_run_exec(store, namespace, breakpoints, idx + 1, tokens, now);
        },
        None => {},
    }
    if read == 0 {
        proof {
            match find_hit(m1, ns, views, n) {
                Some(idx) => {
                    lemma_creation_run_nonneg(views, idx + 1, n, 0);
                },
                None => {},
            }
            assert(o.creation == creation + creation_run(views, 0, n, 0));
        }
        let more = insert_run_exec(store, namespace, breakpoints, 0, 0, now);
        creation = creation + more;
    }
    let cached = creation + read;
    let diff = total_input_tokens - cached;
    let uncached = if diff > 0 {
        diff
    } else {
        0
    };
    CacheResult { cache_creation_input_tokens: creation, cache_read_input_tokens: read, uncached_input_tokens: uncached }
}


/// Searches the breakpoints from the last to the first for one whose key is
/// in the store and unexpired at `now`, without changing the store.
fn find_unexpired_hit(
    store: &CacheStore,
    namespace: &str,
    bps: &[CacheBreakpoint],
    now: u64,
) -> (res: Option<(usize, i32)>)
    requires
        store.wf(),
    ensures
        match res {
            Some((idx, tokens)) => {
                &&& find_hit(unexpired(store@, now), namespace@, breakpoint_views(bps@), bps@.len() as int) == Some(idx as int)
                &&& idx < bps@.len()
                &&& unexpired(store@, now)[store_key(namespace@, bps@[idx as int]@.hash)].0 == tokens
                &&& tokens >= 0
            },
            None => find_hit(unexpired(store@, now), namespace@, breakpoint_views(bps@), bps@.len() as int) is None,
        },
{
    let ghost views = breakpoint_views(bps@);
    let ghost m1 = unexpired(store@, now);
    let mut i: usize = bps.len();
    while i > 0
        invariant
            store.wf(),
            views == breakpoint_views(bps@),
            m1 == unexpired(store@, now),
            i <= bps@.len(),
            find_hit(m1, namespace@, views, bps@.len() as int) == find_hit(m1, namespace@, views, i as int),
        decreases i,
    {
        let key = cache_key(namespace, bps[i - 1].hash.as_slice());
        assert(key@ == store_key(namespace@, views[i - 1].hash));
        match store.get(key.as_slice()) {
            Some((tokens, expires_at)) => {
                if expires_at > now {
                    return Some((i - 1, tokens));
                }
            },
            None => {},
        }
        i = i - 1;
    }
    None
}

/// The tokens newly written by breakpoints `from..`, counted from `prev`,
/// when they are at most `limit`.
fn creation_within(bps: &[CacheBreakpoint], from: usize, prev: i32, limit: i64) -> (res: Option<i64>)
    requires
        from <= bps@.len(),
        prev >= 0,
        0 <= limit <= i32::MAX,
    ensures
        ({
            let c = creation_run(breakpoint_views(bps@), from as int, bps@.len() as int, prev as int);
            match res {
                Some(v) => v == c && 0 <= c <= limit,
                None => c > limit,
            }
        }),
{
    let ghost views = breakpoint_views(bps@);
    let ghost n = bps@.len() as int;
    let mut creation: i64 = 0;
    let mut previous: i32 = prev;
    let mut j: usize = from;
    while j < bps.len()
        invariant
            views == breakpoint_views(bps@),
            n == bps@.len(),
            from <= j <= n,
            0 <= limit <= i32::MAX,
            creation == creation_run(views, from as int, j as int, prev as int),
            0 <= creation <= limit,
            previous == prev_tokens(views, from as int, j as int, prev as int),
            previous >= 0,
        decreases n - j,
    {
        let bp = &bps[j];
        proof {
            use_type_invariant(bp);
        }
        assert(views[j as int] == bp@);
        let diff = bp.tokens as i64 - previous as i64;
        if diff > 0 {
            creation = creation + diff;
        }
        previous = bp.tokens;
        j = j + 1;
        if creation > limit {
            proof {
                lemma_creation_run_monotone(views, from as int, j as int, n, prev as int);
            }
            return None;
        }
    }
    Some(creation)
}

/// Whether a lookup of these breakpoints at `now` stays within range.
pub fn lookup_fits_exec(
    store: &CacheStore,
    api_key: &str,
    breakpoints: &[CacheBreakpoint],
    total_input_tokens: i32,
    now: u64,
) -> (res: bool)
    requires
        store.wf(),
    ensures
        res == lookup_fits(store@, api_key@, breakpoint_views(breakpoints@), total_input_tokens as int, now),
{
    let ghost views = breakpoint_views(breakpoints@);
    let ghost o = lookup_outcome(store@, api_key@, views, total_input_tokens as int, now);
    if breakpoints.len() == 0 {
        return true;
    }
    let mut j: usize = 0;
    while j < breakpoints.len()
        invariant
            views == breakpoint_views(breakpoints@),
            j <= breakpoints@.len(),
            forall|k: int| 0 <= k < j ==> now + #[trigger] views[k].ttl <= u64::MAX,
        decreases breakpoints@.len() - j,
    {
        assert(views[j as int] == breakpoints@[j as int]@);
        if breakpoints[j].ttl > u64::MAX - now {
            assert(now + views[j as int].ttl > u64::MAX);
            return false;
        }
        j = j + 1;
    }
    let namespace: &str = if api_key.is_empty() {
        "anonymous"
    } else {
        api_key
    };
    let ghost ns = namespace_of(api_key@);
    assert(namespace@ == ns);
        let ghost n = breakpoints@.len() as int;
    let ghost m1 = unexpired(store@, now);
    let mut read: i32 = 0;
    let mut c1: i64 = 0;
    match find_unexpired_hit(store, namespace, breakpoints, now) {
        Some((idx, tokens)) => {
            read = tokens;
            match creation_within(breakpoints, idx + 1, tokens, i32::MAX as i64) {
                Some(c) => {
                    c1 = c;
                },
                None => {
                    proof {
                        lemma_creation_run_nonneg(views, 0, n, 0);
                    }
                    return false;
                },
            }
        },
        None => {},
    }
    assert(read == o.read);
    assert(0 <= c1 <= i32::MAX);
    let mut creation: i64 = c1;
    if read == 0 {
        match creation_within(breakpoints, 0, 0, i32::MAX as i64 - c1) {
            Some(c) => {
                creation = c1 + c;
            },
            None => {
                return false;
            },
        }
    }
    assert(creation == o.creation);
    creation + (read as i64) <= i32::MAX as i64 && (total_input_tokens as i64) - (creation + (read as i64)) >= i32::MIN as i64
}

/// Accounts the prompt cache for one request at time `now`: computes its
/// breakpoints and looks them up in the store, creating what is missing.
pub fn account_prompt_cache(
    store: &mut CacheStore,
    model: &str,
    api_key: &str,
    system: Option<&Vec<SystemMessage>>,
    messages: &[Message],
    tools: Option<&Vec<Tool>>,
    total_input_tokens: i32,
    now: u64,
) -> (res: CacheResult)
    requires
        old(store).wf(),
        tokens_fit(prompt_steps(system, messages@, tools)),
        lookup_fits(
            old(store)@,
            api_key@,
            request_breakpoints(system, messages@, tools),
            total_input_tokens as int,
            now,
        ),
    ensures
        final(store).wf(),
        ({
            let o = lookup_outcome(
                old(store)@,
                api_key@,
                request_breakpoints(system, messages@, tools),
                total_input_tokens as int,
                now,
            );
            &&& res.cache_creation_input_tokens == o.creation
            &&& res.cache_read_input_tokens == o.read
            &&& res.uncached_input_tokens == o.uncached
            &&& final(store)@ == o.store
        }),
{
    let breakpoints = compute_cache_breakpoints(model, system, messages, tools);
    lookup_or_create(store, api_key, breakpoints.as_slice(), total_input_tokens, now)
}

/// Accounts the prompt cache for one request when its token counts stay
/// within range; otherwise gives `None` and leaves the store as it was.
pub fn try_account_prompt_cache(
    store: &mut CacheStore,
    model: &str,
    api_key: &str,
    system: Option<&Vec<SystemMessage>>,
    messages: &[Message],
    tools: Option<&Vec<Tool>>,
    total_input_tokens: i32,
    now: u64,
) -> (res: Option<CacheResult>)
    requires
        old(store).wf(),
    ensures
        final(store).wf(),
        ({
            let fits = tokens_fit(prompt_steps(system, messages@, tools)) && lookup_fits(
                old(store)@,
                api_key@,
                request_breakpoints(system, messages@, tools),
                total_input_tokens as int,
                now,
            );
            let o = lookup_outcome(
                old(store)@,
                api_key@,
                request_breakpoints(system, messages@, tools),
                total_input_tokens as int,
                now,
            );
            match res {
                Some(r) => {
                    &&& fits
                    &&& r.cache_creation_input_tokens == o.creation
                    &&& r.cache_read_input_tokens == o.read
                    &&& r.uncached_input_tokens == o.uncached
                    &&& final(store)@ == o.store
                },
                None => !fits && final(store)@ == old(store)@,
            }
        }),
{
    if !prompt_tokens_fit(system, messages, tools) {
        return None;
    }
    let breakpoints = compute_cache_breakpoints(model, system, messages, tools);
    if !lookup_fits_exec(store, api_key, breakpoints.as_slice(), total_input_tokens, now) {
        return None;
    }
    Some(lookup_or_create(store, api_key, breakpoints.as_slice(), total_input_tokens, now))
}

/// Empties the store.
pub fn clear_for_tests(store: &mut CacheStore)
    ensures
        final(store).wf(),
        final(store)@ == Map::<Seq<u8>, EntryView>::empty(),
{
    store.clear();
}

/// The sum of token counts.
pub open spec fn counts_sum(counts: Seq<i32>) -> int
    decreases counts.len(),
{
    if counts.len() == 0 {
        0
    } else {
        counts_sum(counts.drop_last()) + counts.last()
    }
}

/// Every running sum of the counts, in order, fits in an `i32`.
pub open spec fn counts_fit(counts: Seq<i32>) -> bool {
    forall|k: int| 0 < k <= counts.len() ==> i32::MIN <= #[trigger] counts_sum(counts.take(k)) <= i32::MAX
}

/// Adds up the token counts of a block's texts: their sum, or `None` where
/// a running sum leaves `i32`.
pub fn sum_token_counts(counts: &[i32]) -> (res: Option<i32>)
    ensures
        match res {
            Some(t) => counts_fit(counts@) && t == counts_sum(counts@),
            None => !counts_fit(counts@),
        },
{
    let mut total: i32 = 0;
    let mut i: usize = 0;
    assert(counts@.take(0) =~= Seq::<i32>::empty());
    while i < counts.len()
        invariant
            i <= counts@.len(),
            total == counts_sum(counts@.take(i as int)),
            forall|k: int| 0 < k <= i ==> i32::MIN <= #[trigger] counts_sum(counts@.take(k)) <= i32::MAX,
        decreases counts@.len() - i,
    {
        assert(counts@.take(i + 1).drop_last() =~= counts@.take(i as int));
        match total.checked_add(counts[i]) {
            Some(t) => {
                total = t;
            },
            None => {
                assert(!(i32::MIN <= counts_sum(counts@.take(i + 1)) <= i32::MAX));
                return None;
            },
        }
        i = i + 1;
    }
    assert(counts@.take(counts@.len() as int) =~= counts@);
    Some(total)
}

} // verus!
