//! Reduction of streamed chunks to content-block events.
//!
//! The upstream interleaves reasoning, text and tool-call fragments. The events number the
//! content blocks from 0 in the order in which they start, and every block is stopped before the
//! final [`ReducerEvent::Finish`].
use vstd::prelude::*;

use crate::chunk;
use crate::chunk::{StreamChunk, StreamDelta, StreamToolCall, StreamUsage};
use crate::sse;
use crate::sse::SseEvent;
use crate::text;

verus! {

#[derive(Debug, Clone)]
pub struct UpstreamStreamError {
    pub kind: UpstreamErrorKind,
    pub message: String,
    pub retry_after_seconds: Option<u64>,
}

#[derive(Debug, Clone, Copy, PartialEq, Eq, Structural)]
pub enum UpstreamErrorKind {
    RateLimit,
    Failed,
}

#[derive(Debug, Clone, Copy, Default)]
pub struct KimiUsage {
    pub prompt_tokens: Option<u64>,
    pub completion_tokens: Option<u64>,
    pub total_tokens: Option<u64>,
    pub cached_tokens: Option<u64>,
    pub reasoning_tokens: Option<u64>,
}

#[derive(Debug, Clone, Copy, PartialEq, Eq, Structural)]
pub enum StopReason {
    EndTurn,
    ToolUse,
    MaxTokens,
}

#[derive(Debug, Clone)]
pub enum ReducerEvent {
    ThinkingStart { index: usize },
    ThinkingDelta { index: usize, text: String },
    ThinkingStop { index: usize },
    TextStart { index: usize },
    TextDelta { index: usize, text: String },
    TextStop { index: usize },
    ToolStart { index: usize, id: String, name: String },
    ToolDelta { index: usize, partial_json: String },
    ToolStop { index: usize },
    Finish { stop_reason: StopReason, usage: Option<KimiUsage> },
}

#[derive(Debug, Clone, Copy)]
pub struct AnthropicUsage {
    pub input_tokens: u64,
    pub output_tokens: u64,
    pub cache_creation_input_tokens: u64,
    pub cache_read_input_tokens: u64,
}

impl Default for AnthropicUsage {
    fn default() -> (r: Self)
        ensures
            r == no_usage(),
    {
        AnthropicUsage {
            input_tokens: 0,
            output_tokens: 0,
            cache_creation_input_tokens: 0,
            cache_read_input_tokens: 0,
        }
    }
}

/// The usage of a message for which the upstream reported none.
pub open spec fn no_usage() -> AnthropicUsage {
    AnthropicUsage {
        input_tokens: 0,
        output_tokens: 0,
        cache_creation_input_tokens: 0,
        cache_read_input_tokens: 0,
    }
}

/// `v`, or 0 where there is none.
pub open spec fn count(v: Option<u64>) -> u64 {
    match v {
        Some(n) => n,
        None => 0,
    }
}

/// The reported usage, with the cached share taken out of the input tokens.
pub open spec fn anthropic_usage(u: Option<KimiUsage>) -> AnthropicUsage {
    match u {
        Some(k) => AnthropicUsage {
            input_tokens: if count(k.cached_tokens) <= count(k.prompt_tokens) {
                (count(k.prompt_tokens) - count(k.cached_tokens)) as u64
            } else {
                0
            },
            output_tokens: count(k.completion_tokens),
            cache_creation_input_tokens: 0,
            cache_read_input_tokens: count(k.cached_tokens),
        },
        None => no_usage(),
    }
}

/// The usage as the upstream reported it, with the details flattened. The cached tokens of the
/// prompt details take precedence.
pub open spec fn kimi_usage(u: StreamUsage) -> KimiUsage {
    KimiUsage {
        prompt_tokens: u.prompt_tokens,
        completion_tokens: u.completion_tokens,
        total_tokens: u.total_tokens,
        cached_tokens: match u.prompt_tokens_details {
            Some(d) => if d.cached_tokens is Some {
                d.cached_tokens
            } else {
                u.cached_tokens
            },
            None => u.cached_tokens,
        },
        reasoning_tokens: match u.completion_tokens_details {
            Some(d) => d.reasoning_tokens,
            None => None,
        },
    }
}

/// Flattens the usage that a chunk reports.
pub fn kimi_usage_from_stream(u: &StreamUsage) -> (r: KimiUsage)
    ensures
        r == kimi_usage(*u),
{
    let detailed: Option<u64> = match &u.prompt_tokens_details {
        Some(d) => d.cached_tokens,
        None => None,
    };
    KimiUsage {
        prompt_tokens: u.prompt_tokens,
        completion_tokens: u.completion_tokens,
        total_tokens: u.total_tokens,
        cached_tokens: if detailed.is_some() {
            detailed
        } else {
            u.cached_tokens
        },
        reasoning_tokens: match &u.completion_tokens_details {
            Some(d) => d.reasoning_tokens,
            None => None,
        },
    }
}

/// The usage of a message, from what the upstream reported.
pub fn map_usage_to_anthropic(u: &Option<KimiUsage>) -> (r: AnthropicUsage)
    ensures
        r == anthropic_usage(*u),
{
    let usage = match u {
        Some(u) => u,
        None => return AnthropicUsage::default(),
    };
    let cached: u64 = usage.cached_tokens.unwrap_or(0);
    let total_prompt: u64 = usage.prompt_tokens.unwrap_or(0);
    AnthropicUsage {
        input_tokens: total_prompt.saturating_sub(cached),
        output_tokens: usage.completion_tokens.unwrap_or(0),
        cache_creation_input_tokens: 0,
        cache_read_input_tokens: cached,
    }
}

/// The content of a [`ReducerEvent`].
pub enum Event {
    ThinkingStart { index: nat },
    ThinkingDelta { index: nat, text: Seq<char> },
    ThinkingStop { index: nat },
    TextStart { index: nat },
    TextDelta { index: nat, text: Seq<char> },
    TextStop { index: nat },
    ToolStart { index: nat, id: Seq<char>, name: Seq<char> },
    ToolDelta { index: nat, partial_json: Seq<char> },
    ToolStop { index: nat },
    Finish { stop_reason: StopReason, usage: Option<KimiUsage> },
}

impl View for ReducerEvent {
    type V = Event;

    open spec fn view(&self) -> Event {
        match *self {
            ReducerEvent::ThinkingStart { index } => Event::ThinkingStart { index: index as nat },
            ReducerEvent::ThinkingDelta { index, text } => Event::ThinkingDelta {
                index: index as nat,
                text: text@,
            },
            ReducerEvent::ThinkingStop { index } => Event::ThinkingStop { index: index as nat },
            ReducerEvent::TextStart { index } => Event::TextStart { index: index as nat },
            ReducerEvent::TextDelta { index, text } => Event::TextDelta {
                index: index as nat,
                text: text@,
            },
            ReducerEvent::TextStop { index } => Event::TextStop { index: index as nat },
            ReducerEvent::ToolStart { index, id, name } => Event::ToolStart {
                index: index as nat,
                id: id@,
                name: name@,
            },
            ReducerEvent::ToolDelta { index, partial_json } => Event::ToolDelta {
                index: index as nat,
                partial_json: partial_json@,
            },
            ReducerEvent::ToolStop { index } => Event::ToolStop { index: index as nat },
            ReducerEvent::Finish { stop_reason, usage } => Event::Finish { stop_reason, usage },
        }
    }
}

/// The contents of events.
pub open spec fn events_of(v: Seq<ReducerEvent>) -> Seq<Event> {
    v.map_values(|e: ReducerEvent| e@)
}

/// A tool call of the upstream and the content block that it fills.
pub struct Slot {
    pub upstream: nat,
    pub block: nat,
}

/// What the chunks so far amount to.
#[verifier::ext_equal]
pub struct Reduction {
    pub events: Seq<Event>,
    /// The index of the next content block.
    pub next: nat,
    /// The thinking block that is open.
    pub thinking: Option<nat>,
    /// The text block that is open.
    pub text: Option<nat>,
    /// The tool calls, all of which stay open to the end.
    pub slots: Seq<Slot>,
    pub finish_reason: Option<Seq<char>>,
    pub usage: Option<KimiUsage>,
}

/// The reduction of no chunks.
pub open spec fn nothing_reduced() -> Reduction {
    Reduction {
        events: Seq::empty(),
        next: 0,
        thinking: None,
        text: None,
        slots: Seq::empty(),
        finish_reason: None,
        usage: None,
    }
}

/// The text in an optional string, if it is not empty.
pub open spec fn nonempty(s: Option<Seq<char>>) -> Option<Seq<char>> {
    match s {
        Some(t) => if t.len() > 0 {
            Some(t)
        } else {
            None
        },
        None => None,
    }
}

pub open spec fn stop_thinking(r: Reduction) -> Reduction {
    match r.thinking {
        Some(index) => Reduction {
            events: r.events.push(Event::ThinkingStop { index }),
            thinking: None,
            ..r
        },
        None => r,
    }
}

pub open spec fn stop_text(r: Reduction) -> Reduction {
    match r.text {
        Some(index) => Reduction {
            events: r.events.push(Event::TextStop { index }),
            text: None,
            ..r
        },
        None => r,
    }
}

pub open spec fn start_thinking(r: Reduction) -> Reduction {
    match r.thinking {
        Some(_) => r,
        None => Reduction {
            events: r.events.push(Event::ThinkingStart { index: r.next }),
            thinking: Some(r.next),
            next: r.next + 1,
            ..r
        },
    }
}

pub open spec fn start_text(r: Reduction) -> Reduction {
    match r.text {
        Some(_) => r,
        None => Reduction {
            events: r.events.push(Event::TextStart { index: r.next }),
            text: Some(r.next),
            next: r.next + 1,
            ..r
        },
    }
}

/// Reasoning goes to the open thinking block, or to a new one.
pub open spec fn add_reasoning(r: Reduction, reasoning: Option<Seq<char>>) -> Reduction {
    match nonempty(reasoning) {
        Some(text) => {
            let s = start_thinking(r);
            Reduction {
                events: s.events.push(Event::ThinkingDelta { index: s.thinking.unwrap(), text }),
                ..s
            }
        },
        None => r,
    }
}

/// Text stops the thinking block and goes to the open text block, or to a new one.
pub open spec fn add_content(r: Reduction, content: Option<Seq<char>>) -> Reduction {
    match nonempty(content) {
        Some(text) => {
            let s = start_text(stop_thinking(r));
            Reduction {
                events: s.events.push(Event::TextDelta { index: s.text.unwrap(), text }),
                ..s
            }
        },
        None => r,
    }
}

/// The block of the tool call with the upstream index `upstream`.
pub open spec fn block_of(slots: Seq<Slot>, upstream: nat) -> Option<nat>
    decreases slots.len(),
{
    if slots.len() == 0 {
        None
    } else {
        match block_of(slots.drop_last(), upstream) {
            Some(block) => Some(block),
            None => if slots.last().upstream == upstream {
                Some(slots.last().block)
            } else {
                None
            },
        }
    }
}

/// The name in a fragment of a tool call.
pub open spec fn call_name(call: chunk::ToolCall) -> Option<Seq<char>> {
    match call.function {
        Some(f) => f.name,
        None => None,
    }
}

/// The arguments in a fragment of a tool call.
pub open spec fn call_arguments(call: chunk::ToolCall) -> Option<Seq<char>> {
    match call.function {
        Some(f) => f.arguments,
        None => None,
    }
}

/// Whether a fragment can start a tool call: it has an id and a name.
pub open spec fn can_start(call: chunk::ToolCall) -> bool {
    nonempty(call.id) is Some && nonempty(call_name(call)) is Some
}

/// Starts a tool block for a fragment of a call that has none, if the fragment can start one.
pub open spec fn start_tool(r: Reduction, call: chunk::ToolCall) -> Reduction {
    if block_of(r.slots, call.index) is None && can_start(call) {
        Reduction {
            events: r.events.push(
                Event::ToolStart {
                    index: r.next,
                    id: call.id.unwrap(),
                    name: call_name(call).unwrap(),
                },
            ),
            next: r.next + 1,
            slots: r.slots.push(Slot { upstream: call.index, block: r.next }),
            ..r
        }
    } else {
        r
    }
}

/// The arguments of a fragment go to the block of its call. A fragment of a call that has not
/// started is dropped.
pub open spec fn add_tool_call(r: Reduction, call: chunk::ToolCall) -> Reduction {
    let s = start_tool(r, call);
    match (block_of(s.slots, call.index), nonempty(call_arguments(call))) {
        (Some(index), Some(partial_json)) => Reduction {
            events: s.events.push(Event::ToolDelta { index, partial_json }),
            ..s
        },
        _ => s,
    }
}

pub open spec fn add_fragments(r: Reduction, calls: Seq<chunk::ToolCall>) -> Reduction
    decreases calls.len(),
{
    if calls.len() == 0 {
        r
    } else {
        add_tool_call(add_fragments(r, calls.drop_last()), calls.last())
    }
}

/// Tool calls stop the thinking block and the text block.
pub open spec fn add_tool_calls(r: Reduction, calls: Option<Seq<chunk::ToolCall>>) -> Reduction {
    match calls {
        Some(calls) => if calls.len() > 0 {
            add_fragments(stop_text(stop_thinking(r)), calls)
        } else {
            r
        },
        None => r,
    }
}

/// A finish reason is remembered, with the usage that came along.
pub open spec fn note_finish(
    r: Reduction,
    reason: Option<Seq<char>>,
    usage: Option<StreamUsage>,
) -> Reduction {
    match reason {
        Some(_) => Reduction {
            finish_reason: reason,
            usage: match usage {
                Some(u) => Some(kimi_usage(u)),
                None => r.usage,
            },
            ..r
        },
        None => r,
    }
}

/// The first choice of a chunk, the only one that counts.
pub open spec fn first_choice(c: chunk::Chunk) -> Option<chunk::Choice> {
    match c.choices {
        Some(choices) => if choices.len() > 0 {
            Some(choices[0])
        } else {
            None
        },
        None => None,
    }
}

pub open spec fn add_delta(r: Reduction, d: chunk::Delta) -> Reduction {
    add_tool_calls(add_content(add_reasoning(r, d.reasoning_content), d.content), d.tool_calls)
}

/// One more chunk, which reports no error.
pub open spec fn add_chunk(r: Reduction, c: chunk::Chunk) -> Reduction {
    match first_choice(c) {
        Some(choice) => note_finish(
            match choice.delta {
                Some(d) => add_delta(r, d),
                None => r,
            },
            choice.finish_reason,
            c.usage,
        ),
        None => match c.usage {
            Some(u) => Reduction { usage: Some(kimi_usage(u)), ..r },
            None => r,
        },
    }
}

/// What the chunks amount to.
pub open spec fn reduction(chunks: Seq<chunk::Chunk>) -> Reduction
    decreases chunks.len(),
{
    if chunks.len() == 0 {
        nothing_reduced()
    } else {
        add_chunk(reduction(chunks.drop_last()), chunks.last())
    }
}

/// The reason for which the message stopped.
pub open spec fn stop_reason(r: Reduction) -> StopReason {
    if r.finish_reason == Some("length"@) {
        StopReason::MaxTokens
    } else if r.finish_reason == Some("tool_calls"@) || r.slots.len() > 0 {
        StopReason::ToolUse
    } else {
        StopReason::EndTurn
    }
}

/// The events that stop the tool blocks.
pub open spec fn tool_stops(slots: Seq<Slot>) -> Seq<Event> {
    slots.map_values(|s: Slot| Event::ToolStop { index: s.block })
}

/// The events of a finished message.
pub open spec fn finished(r: Reduction) -> Seq<Event> {
    (stop_text(stop_thinking(r)).events + tool_stops(r.slots)).push(
        Event::Finish { stop_reason: stop_reason(r), usage: r.usage },
    )
}

/// The message of the first error that the chunks report.
pub open spec fn first_error(chunks: Seq<chunk::Chunk>) -> Option<Seq<char>>
    decreases chunks.len(),
{
    if chunks.len() == 0 {
        None
    } else {
        match first_error(chunks.drop_last()) {
            Some(message) => Some(message),
            None => match chunks.last().error {
                Some(Some(message)) => Some(message),
                Some(None) => Some("Upstream error"@),
                None => None,
            },
        }
    }
}

/// Whether `r` is what the chunks reduce to: the events of the finished message, or the first
/// error that they report.
pub open spec fn reduces_to(
    chunks: Seq<chunk::Chunk>,
    r: Result<Vec<ReducerEvent>, UpstreamStreamError>,
) -> bool {
    match r {
        Ok(events) => first_error(chunks) is None && events_of(events@) == finished(
            reduction(chunks),
        ),
        Err(e) => first_error(chunks) == Some(e.message@) && e.kind == UpstreamErrorKind::Failed
            && e.retry_after_seconds is None,
    }
}

/// The chunk in the data of an event, if it holds one.
pub open spec fn chunk_in(data: Seq<char>) -> Option<chunk::Chunk> {
    let payload = text::trimmed(data);
    if payload.len() == 0 || payload == "[DONE]"@ {
        None
    } else {
        chunk::decode_chunk(vstd::utf8::encode_utf8(payload))
    }
}

/// The chunks in the data of events.
pub open spec fn chunks_in(texts: Seq<Seq<char>>) -> Seq<chunk::Chunk> {
    texts.filter_map(|t: Seq<char>| chunk_in(t))
}

/// The chunks of a response body.
pub open spec fn chunks_of_body(body: Seq<u8>) -> Seq<chunk::Chunk> {
    chunks_in(sse::event_texts(body))
}

// Upstream tool-call fragments are keyed by their position in the upstream's array, while events
// carry content-block indexes. The two diverge as soon as a thinking or text block precedes the
// first tool call, so a slot remembers both.
struct ToolSlot {
    upstream_index: usize,
    block_index: usize,
}

spec fn slots_of(v: Seq<ToolSlot>) -> Seq<Slot> {
    v.map_values(
        |s: ToolSlot| Slot { upstream: s.upstream_index as nat, block: s.block_index as nat },
    )
}

spec fn optional_index(v: Option<usize>) -> Option<nat> {
    match v {
        Some(i) => Some(i as nat),
        None => None,
    }
}

struct Reducer {
    out: Vec<ReducerEvent>,
    next_block_index: usize,
    thinking_index: Option<usize>,
    text_index: Option<usize>,
    tool_slots: Vec<ToolSlot>,
    finish_reason: Option<String>,
    final_usage: Option<KimiUsage>,
}

impl View for Reducer {
    type V = Reduction;

    closed spec fn view(&self) -> Reduction {
        Reduction {
            events: events_of(self.out@),
            next: self.next_block_index as nat,
            thinking: optional_index(self.thinking_index),
            text: optional_index(self.text_index),
            slots: slots_of(self.tool_slots@),
            finish_reason: text::optional_text(self.finish_reason),
            usage: self.final_usage,
        }
    }
}

impl Reducer {
    /// Every block has a start event, so block indexes cannot run out before events do.
    spec fn wf(self) -> bool {
        self.next_block_index <= self.out@.len()
    }

    fn new() -> (r: Self)
        ensures
            r.wf(),
            r@ == nothing_reduced(),
    {
        let r = Reducer {
            out: Vec::new(),
            next_block_index: 0,
            thinking_index: None,
            text_index: None,
            tool_slots: Vec::new(),
            finish_reason: None,
            final_usage: None,
        };
        proof {
            assert(r@ =~= nothing_reduced());
        }
        r
    }

    fn emit(&mut self, event: ReducerEvent)
        requires
            old(self).wf(),
        ensures
            final(self).wf(),
            final(self)@ == (Reduction { events: old(self)@.events.push(event@), ..old(self)@ }),
            final(self).out@.len() == old(self).out@.len() + 1 <= usize::MAX,
            final(self).next_block_index == old(self).next_block_index,
            final(self).thinking_index == old(self).thinking_index,
            final(self).text_index == old(self).text_index,
            final(self).tool_slots == old(self).tool_slots,
    {
        self.out.push(event);
        proof {
            assert(events_of(self.out@) =~= events_of(old(self).out@).push(event@));
            assert(self.out.len() == self.out@.len());
        }
    }

    fn stop_thinking(&mut self)
        requires
            old(self).wf(),
        ensures
            final(self).wf(),
            final(self)@ == stop_thinking(old(self)@),
    {
        if let Some(index) = self.thinking_index {
            self.thinking_index = None;
            self.emit(ReducerEvent::ThinkingStop { index });
        }
    }

    fn stop_text(&mut self)
        requires
            old(self).wf(),
        ensures
            final(self).wf(),
            final(self)@ == stop_text(old(self)@),
    {
        if let Some(index) = self.text_index {
            self.text_index = None;
            self.emit(ReducerEvent::TextStop { index });
        }
    }

    fn add_reasoning(&mut self, reasoning: &Option<String>)
        requires
            old(self).wf(),
        ensures
            final(self).wf(),
            final(self)@ == add_reasoning(old(self)@, text::optional_text(*reasoning)),
    {
        if let Some(reasoning) = reasoning {
            if !reasoning.as_str().is_empty() {
                let index: usize = match self.thinking_index {
                    Some(index) => index,
                    None => {
                        let index: usize = self.next_block_index;
                        self.emit(ReducerEvent::ThinkingStart { index });
                        self.thinking_index = Some(index);
                        self.next_block_index = index + 1;
                        index
                    },
                };
                self.emit(ReducerEvent::ThinkingDelta { index, text: reasoning.clone() });
            }
        }
    }

    fn add_content(&mut self, content: &Option<String>)
        requires
            old(self).wf(),
        ensures
            final(self).wf(),
            final(self)@ == add_content(old(self)@, text::optional_text(*content)),
    {
        if let Some(content) = content {
            if !content.as_str().is_empty() {
                self.stop_thinking();
                let index: usize = match self.text_index {
                    Some(index) => index,
                    None => {
                        let index: usize = self.next_block_index;
                        self.emit(ReducerEvent::TextStart { index });
                        self.text_index = Some(index);
                        self.next_block_index = index + 1;
                        index
                    },
                };
                self.emit(ReducerEvent::TextDelta { index, text: content.clone() });
            }
        }
    }

    fn find_block(&self, upstream_index: usize) -> (r: Option<usize>)
        ensures
            optional_index(r) == block_of(self@.slots, upstream_index as nat),
    {
        let ghost all = self@.slots;
        let mut i: usize = 0;
        while i < self.tool_slots.len()
            invariant
                i <= self.tool_slots@.len(),
                all == slots_of(self.tool_slots@),
                block_of(all.take(i as int), upstream_index as nat) is None,
            decreases self.tool_slots@.len() - i,
        {
            proof {
                assert(all.take(i + 1).drop_last() == all.take(i as int));
                assert(all.take(i + 1).last() == all[i as int]);
            }
            if self.tool_slots[i].upstream_index == upstream_index {
                proof {
                    lemma_block_of_prefix(all, i + 1, upstream_index as nat);
                }
                return Some(self.tool_slots[i].block_index);
            }
            i = i + 1;
        }
        proof {
            assert(all.take(i as int) == all);
        }
        None
    }

    fn add_tool_call(&mut self, call: &StreamToolCall)
        requires
            old(self).wf(),
        ensures
            final(self).wf(),
            final(self)@ == add_tool_call(old(self)@, call@),
    {
        let index: usize = match self.find_block(call.index) {
            Some(index) => index,
            None => {
                let (id, name) = match (&call.id, &call.function) {
                    (Some(id), Some(f)) => match &f.name {
                        Some(name) => (id.clone(), name.clone()),
                        None => return ,
                    },
                    _ => return ,
                };
                if id.as_str().is_empty() || name.as_str().is_empty() {
                    return ;
                }
                let index: usize = self.next_block_index;
                self.emit(ReducerEvent::ToolStart { index, id, name });
                let ghost before = self.tool_slots@;
                self.tool_slots.push(ToolSlot { upstream_index: call.index, block_index: index });
                self.next_block_index = index + 1;
                proof {
                    let slot = Slot { upstream: call.index as nat, block: index as nat };
                    assert(slots_of(self.tool_slots@) =~= slots_of(before).push(slot));
                    assert(slots_of(before).push(slot).drop_last() == slots_of(before));
                }
                index
            },
        };
        if let Some(f) = &call.function {
            if let Some(arguments) = &f.arguments {
                if !arguments.as_str().is_empty() {
                    self.emit(
                        ReducerEvent::ToolDelta { index, partial_json: arguments.clone() },
                    );
                }
            }
        }
    }

    fn add_tool_calls(&mut self, calls: &Option<Vec<StreamToolCall>>)
        requires
            old(self).wf(),
        ensures
            final(self).wf(),
            final(self)@ == add_tool_calls(
                old(self)@,
                match *calls {
                    Some(v) => Some(chunk::tool_calls_of(v@)),
                    None => None,
                },
            ),
    {
        let calls = match calls {
            Some(calls) => calls,
            None => return ,
        };
        if calls.len() == 0 {
            return ;
        }
        self.stop_thinking();
        self.stop_text();
        let ghost start = self@;
        let ghost all = chunk::tool_calls_of(calls@);
        let mut i: usize = 0;
        while i < calls.len()
            invariant
                i <= calls@.len(),
                self.wf(),
                all == chunk::tool_calls_of(calls@),
                self@ == add_fragments(start, all.take(i as int)),
            decreases calls@.len() - i,
        {
            proof {
                assert(all.take(i + 1).drop_last() == all.take(i as int));
                assert(all.take(i + 1).last() == calls@[i as int]@);
            }
            self.add_tool_call(&calls[i]);
            i = i + 1;
        }
        proof {
            assert(all.take(i as int) == all);
        }
    }

    fn add_delta(&mut self, delta: &StreamDelta)
        requires
            old(self).wf(),
        ensures
            final(self).wf(),
            final(self)@ == add_delta(old(self)@, delta@),
    {
        self.add_reasoning(&delta.reasoning_content);
        self.add_content(&delta.content);
        self.add_tool_calls(&delta.tool_calls);
    }

    fn add_chunk(&mut self, c: &StreamChunk)
        requires
            old(self).wf(),
        ensures
            final(self).wf(),
            final(self)@ == add_chunk(old(self)@, c@),
    {
        let usage: Option<KimiUsage> = match &c.usage {
            Some(u) => Some(kimi_usage_from_stream(u)),
            None => None,
        };
        if let Some(choices) = &c.choices {
            if choices.len() > 0 {
                let choice = &choices[0];
                proof {
                    assert(chunk::choices_of(choices@)[0] == choice@);
                }
                if let Some(delta) = &choice.delta {
                    self.add_delta(delta);
                }
                if let Some(reason) = &choice.finish_reason {
                    self.finish_reason = Some(reason.clone());
                    if usage.is_some() {
                        self.final_usage = usage;
                    }
                }
                return ;
            }
        }
        if usage.is_some() {
            self.final_usage = usage;
        }
    }

    fn stop_reason(&self) -> (r: StopReason)
        ensures
            r == stop_reason(self@),
    {
        if let Some(reason) = &self.finish_reason {
            if text::same_text(reason.as_str(), "length") {
                return StopReason::MaxTokens;
            }
            if text::same_text(reason.as_str(), "tool_calls") {
                return StopReason::ToolUse;
            }
        }
        if self.tool_slots.len() > 0 {
            StopReason::ToolUse
        } else {
            StopReason::EndTurn
        }
    }

    fn finish(self) -> (r: Vec<ReducerEvent>)
        requires
            self.wf(),
        ensures
            events_of(r@) == finished(self@),
    {
        let mut this = self;
        let stop_reason = this.stop_reason();
        let usage = this.final_usage;
        this.stop_thinking();
        this.stop_text();
        let ghost stopped = this@;
        let ghost slots = stopped.slots;
        let mut i: usize = 0;
        proof {
            assert(tool_stops(slots).take(0) == Seq::<Event>::empty());
            assert(stopped.events + tool_stops(slots).take(0) == stopped.events);
        }
        while i < this.tool_slots.len()
            invariant
                i <= this.tool_slots@.len(),
                this.wf(),
                slots == slots_of(this.tool_slots@),
                this@.events == stopped.events + tool_stops(slots).take(i as int),
            decreases this.tool_slots@.len() - i,
        {
            let index: usize = this.tool_slots[i].block_index;
            let ghost before = this@.events;
            this.emit(ReducerEvent::ToolStop { index });
            proof {
                let stop = Event::ToolStop { index: index as nat };
                assert(tool_stops(slots)[i as int] == stop);
                assert(tool_stops(slots).take(i + 1) == tool_stops(slots).take(i as int).push(stop));
                assert(this@.events =~= stopped.events + tool_stops(slots).take(i + 1));
            }
            i = i + 1;
        }
        proof {
            assert(tool_stops(slots).take(i as int) == tool_stops(slots));
        }
        this.emit(ReducerEvent::Finish { stop_reason, usage });
        this.out
    }
}

proof fn lemma_block_of_prefix(slots: Seq<Slot>, n: int, upstream: nat)
    requires
        0 <= n <= slots.len(),
        block_of(slots.take(n), upstream) is Some,
    ensures
        block_of(slots, upstream) == block_of(slots.take(n), upstream),
    decreases slots.len(),
{
    if n == slots.len() {
        assert(slots.take(n) == slots);
    } else {
        assert(slots.drop_last().take(n) == slots.take(n));
        lemma_block_of_prefix(slots.drop_last(), n, upstream);
    }
}

/// Reduces decoded chunks.
pub fn reduce_chunks(chunks: &Vec<StreamChunk>) -> (r: Result<
    Vec<ReducerEvent>,
    UpstreamStreamError,
>)
    ensures
        reduces_to(chunk::chunks_of(chunks@), r),
{
    let ghost all = chunk::chunks_of(chunks@);
    let mut reducer = Reducer::new();
    let mut i: usize = 0;
    while i < chunks.len()
        invariant
            i <= chunks@.len(),
            reducer.wf(),
            all == chunk::chunks_of(chunks@),
            first_error(all.take(i as int)) is None,
            reducer@ == reduction(all.take(i as int)),
        decreases chunks@.len() - i,
    {
        let c = &chunks[i];
        proof {
            assert(all.take(i + 1).drop_last() == all.take(i as int));
            assert(all.take(i + 1).last() == c@);
        }
        if let Some(err) = &c.error {
            let message = match &err.message {
                Some(message) => message.clone(),
                None => "Upstream error".to_owned(),
            };
            proof {
                lemma_first_error_prefix(all, i + 1);
            }
            return Err(
                UpstreamStreamError {
                    kind: UpstreamErrorKind::Failed,
                    message,
                    retry_after_seconds: None,
                },
            );
        }
        reducer.add_chunk(c);
        i = i + 1;
    }
    proof {
        assert(all.take(i as int) == all);
    }
    Ok(reducer.finish())
}

proof fn lemma_first_error_prefix(chunks: Seq<chunk::Chunk>, n: int)
    requires
        0 <= n <= chunks.len(),
        first_error(chunks.take(n)) is Some,
    ensures
        first_error(chunks) == first_error(chunks.take(n)),
    decreases chunks.len(),
{
    if n == chunks.len() {
        assert(chunks.take(n) == chunks);
    } else {
        assert(chunks.drop_last().take(n) == chunks.take(n));
        lemma_first_error_prefix(chunks.drop_last(), n);
    }
}

fn chunk_of_event(data: &String) -> (r: Option<StreamChunk>)
    ensures
        match r {
            Some(c) => chunk_in(data@) == Some(c@),
            None => chunk_in(data@) is None,
        },
{
    let payload = text::trim(data.as_str());
    if payload.is_empty() || text::same_text(payload, "[DONE]") {
        return None;
    }
    chunk::read_chunk(payload.as_bytes())
}

/// Decodes the chunks in the data of events. Blank data, the end marker and what is no chunk are
/// passed over.
pub fn decode_events(events: &Vec<SseEvent>) -> (chunks: Vec<StreamChunk>)
    ensures
        chunk::chunks_of(chunks@) == chunks_in(sse::texts_of(events@)),
{
    let ghost texts = sse::texts_of(events@);
    let ghost decode = |t: Seq<char>| chunk_in(t);
    let mut chunks: Vec<StreamChunk> = Vec::new();
    let mut i: usize = 0;
    proof {
        assert(texts.take(0) == Seq::<Seq<char>>::empty());
        reveal_with_fuel(Seq::filter_map, 1);
        assert(chunk::chunks_of(chunks@) =~= texts.take(0).filter_map(decode));
    }
    while i < events.len()
        invariant
            i <= events@.len(),
            texts == sse::texts_of(events@),
            decode == (|t: Seq<char>| chunk_in(t)),
            chunk::chunks_of(chunks@) == texts.take(i as int).filter_map(decode),
        decreases events@.len() - i,
    {
        let data = &events[i].data;
        proof {
            assert(texts[i as int] == data@);
            texts.lemma_filter_map_take_succ(decode, i as int);
        }
        let ghost before = chunks@;
        match chunk_of_event(data) {
            Some(c) => {
                chunks.push(c);
                proof {
                    assert(chunk::chunks_of(chunks@) =~= chunk::chunks_of(before).push(c@));
                    assert(chunk::chunks_of(before).push(c@) =~= chunk::chunks_of(before) + seq![c@]);
                }
            },
            None => {
                proof {
                    assert(chunk::chunks_of(before) + Seq::<chunk::Chunk>::empty()
                        =~= chunk::chunks_of(before));
                }
            },
        }
        i = i + 1;
    }
    proof {
        assert(texts.take(i as int) == texts);
    }
    chunks
}

/// Reduces a response body.
pub fn reduce_upstream_bytes(input: &[u8]) -> (r: Result<Vec<ReducerEvent>, UpstreamStreamError>)
    ensures
        reduces_to(chunks_of_body(input@), r),
{
    let events = sse::parse_sse_events(input);
    let chunks = decode_events(&events);
    reduce_chunks(&chunks)
}

} // verus!
