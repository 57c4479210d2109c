//! Accumulation of content-block events into one message.
use vstd::prelude::*;

use crate::json;
use crate::json::{Json, ObjectBuilder};
use crate::reducer;
use crate::reducer::{AnthropicUsage, Event, ReducerEvent, StopReason, UpstreamErrorKind};

verus! {

/// Why a response body gives no message.
#[derive(Debug, Clone)]
pub struct AccumulateError {
    pub message: String,
}

/// A content block and what it has collected.
#[derive(Debug, Clone)]
pub struct AccumulatedBlock {
    pub index: usize,
    pub kind: BlockKind,
}

#[derive(Debug, Clone)]
pub enum BlockKind {
    Thinking { text: String },
    Text { text: String },
    Tool { id: String, name: String, args: String },
}

/// What events amount to.
#[derive(Debug, Clone)]
pub struct Accumulated {
    pub blocks: Vec<AccumulatedBlock>,
    pub stop_reason: Option<StopReason>,
    pub usage: Option<AnthropicUsage>,
}

/// The content of an [`AccumulatedBlock`].
pub struct Block {
    pub index: nat,
    pub kind: Kind,
}

/// The content of a [`BlockKind`].
pub enum Kind {
    Thinking { text: Seq<char> },
    Text { text: Seq<char> },
    Tool { id: Seq<char>, name: Seq<char>, args: Seq<char> },
}

/// The content of an [`Accumulated`].
#[verifier::ext_equal]
pub struct Accumulation {
    pub blocks: Seq<Block>,
    pub stop_reason: Option<StopReason>,
    pub usage: Option<AnthropicUsage>,
}

impl View for BlockKind {
    type V = Kind;

    open spec fn view(&self) -> Kind {
        match *self {
            BlockKind::Thinking { text } => Kind::Thinking { text: text@ },
            BlockKind::Text { text } => Kind::Text { text: text@ },
            BlockKind::Tool { id, name, args } => Kind::Tool { id: id@, name: name@, args: args@ },
        }
    }
}

impl View for AccumulatedBlock {
    type V = Block;

    open spec fn view(&self) -> Block {
        Block { index: self.index as nat, kind: self.kind@ }
    }
}

/// The contents of blocks.
pub open spec fn blocks_of(v: Seq<AccumulatedBlock>) -> Seq<Block> {
    v.map_values(|b: AccumulatedBlock| b@)
}

impl View for Accumulated {
    type V = Accumulation;

    open spec fn view(&self) -> Accumulation {
        Accumulation {
            blocks: blocks_of(self.blocks@),
            stop_reason: self.stop_reason,
            usage: self.usage,
        }
    }
}

/// The position of the last block with the given index.
pub open spec fn last_block(blocks: Seq<Block>, index: nat) -> Option<int>
    decreases blocks.len(),
{
    if blocks.len() == 0 {
        None
    } else if blocks.last().index == index {
        Some(blocks.len() - 1)
    } else {
        last_block(blocks.drop_last(), index)
    }
}

/// The block with more content, if the content is of its type.
pub open spec fn extended(kind: Kind, e: Event) -> Kind {
    match (kind, e) {
        (Kind::Thinking { text }, Event::ThinkingDelta { text: more, .. }) => Kind::Thinking {
            text: text + more,
        },
        (Kind::Text { text }, Event::TextDelta { text: more, .. }) => Kind::Text {
            text: text + more,
        },
        (Kind::Tool { id, name, args }, Event::ToolDelta { partial_json, .. }) => Kind::Tool {
            id,
            name,
            args: args + partial_json,
        },
        _ => kind,
    }
}

/// Content goes to the last block with its index, if that is of its type.
pub open spec fn extend_block(blocks: Seq<Block>, index: nat, e: Event) -> Seq<Block> {
    match last_block(blocks, index) {
        Some(k) => blocks.update(k, Block { index, kind: extended(blocks[k].kind, e) }),
        None => blocks,
    }
}

pub open spec fn no_text() -> Seq<char> {
    Seq::empty()
}

/// One more event.
pub open spec fn add_event(a: Accumulation, e: Event) -> Accumulation {
    match e {
        Event::ThinkingStart { index } => Accumulation {
            blocks: a.blocks.push(Block { index, kind: Kind::Thinking { text: no_text() } }),
            ..a
        },
        Event::TextStart { index } => Accumulation {
            blocks: a.blocks.push(Block { index, kind: Kind::Text { text: no_text() } }),
            ..a
        },
        Event::ToolStart { index, id, name } => Accumulation {
            blocks: a.blocks.push(Block { index, kind: Kind::Tool { id, name, args: no_text() } }),
            ..a
        },
        Event::ThinkingDelta { index, .. } => Accumulation {
            blocks: extend_block(a.blocks, index, e),
            ..a
        },
        Event::TextDelta { index, .. } => Accumulation {
            blocks: extend_block(a.blocks, index, e),
            ..a
        },
        Event::ToolDelta { index, .. } => Accumulation {
            blocks: extend_block(a.blocks, index, e),
            ..a
        },
        Event::Finish { stop_reason, usage } => Accumulation {
            stop_reason: Some(stop_reason),
            usage: Some(reducer::anthropic_usage(usage)),
            ..a
        },
        _ => a,
    }
}

/// What the events amount to.
pub open spec fn accumulation(events: Seq<Event>) -> Accumulation
    decreases events.len(),
{
    if events.len() == 0 {
        Accumulation { blocks: Seq::empty(), stop_reason: None, usage: None }
    } else {
        add_event(accumulation(events.drop_last()), events.last())
    }
}

impl Accumulated {
    fn push_block(&mut self, index: usize, kind: BlockKind)
        ensures
            final(self)@ == (Accumulation {
                blocks: old(self)@.blocks.push(Block { index: index as nat, kind: kind@ }),
                ..old(self)@
            }),
    {
        let block = AccumulatedBlock { index, kind };
        self.blocks.push(block);
        proof {
            assert(blocks_of(self.blocks@) =~= blocks_of(old(self).blocks@).push(block@));
        }
    }

    fn find_last(&self, index: usize) -> (r: Option<usize>)
        ensures
            match r {
                Some(k) => last_block(self@.blocks, index as nat) == Some(k as int) && k
                    < self.blocks@.len() && self.blocks@[k as int].index == index,
                None => last_block(self@.blocks, index as nat) is None,
            },
    {
        let ghost all = self@.blocks;
        let mut i: usize = self.blocks.len();
        proof {
            assert(all.take(i as int) == all);
        }
        while i > 0
            invariant
                i <= self.blocks@.len(),
                all == blocks_of(self.blocks@),
                last_block(all, index as nat) == last_block(all.take(i as int), index as nat),
            decreases i,
        {
            i = i - 1;
            proof {
                assert(all.take(i + 1).drop_last() == all.take(i as int));
                assert(all.take(i + 1).last() == all[i as int]);
            }
            if self.blocks[i].index == index {
                return Some(i);
            }
        }
        None
    }

    fn extend(&mut self, index: usize, event: &ReducerEvent)
        ensures
            final(self)@ == (Accumulation {
                blocks: extend_block(old(self)@.blocks, index as nat, event@),
                ..old(self)@
            }),
    {
        let k = match self.find_last(index) {
            Some(k) => k,
            None => return ,
        };
        let ghost kind = self.blocks@[k as int].kind@;
        match (&mut self.blocks[k].kind, event) {
            (BlockKind::Thinking { text }, ReducerEvent::ThinkingDelta { text: more, .. }) => {
                text.append(more.as_str());
            },
            (BlockKind::Text { text }, ReducerEvent::TextDelta { text: more, .. }) => {
                text.append(more.as_str());
            },
            (BlockKind::Tool { args, .. }, ReducerEvent::ToolDelta { partial_json, .. }) => {
                args.append(partial_json.as_str());
            },
            _ => {},
        }
        proof {
            assert(self.blocks@[k as int].kind@ == extended(kind, event@));
            assert(blocks_of(self.blocks@) =~= extend_block(
                blocks_of(old(self).blocks@),
                index as nat,
                event@,
            ));
        }
    }
}

impl Accumulated {
    fn add(&mut self, event: &ReducerEvent)
        ensures
            final(self)@ == add_event(old(self)@, event@),
    {
        match event {
            ReducerEvent::ThinkingStart { index } => {
                self.push_block(*index, BlockKind::Thinking { text: String::new() });
            },
            ReducerEvent::TextStart { index } => {
                self.push_block(*index, BlockKind::Text { text: String::new() });
            },
            ReducerEvent::ToolStart { index, id, name } => {
                self.push_block(
                    *index,
                    BlockKind::Tool { id: id.clone(), name: name.clone(), args: String::new() },
                );
            },
            ReducerEvent::ThinkingDelta { index, .. } => self.extend(*index, event),
            ReducerEvent::TextDelta { index, .. } => self.extend(*index, event),
            ReducerEvent::ToolDelta { index, .. } => self.extend(*index, event),
            ReducerEvent::Finish { stop_reason, usage } => {
                self.stop_reason = Some(*stop_reason);
                self.usage = Some(reducer::map_usage_to_anthropic(usage));
            },
            _ => {},
        }
    }
}

/// Accumulates events.
pub fn accumulate_events(events: &Vec<ReducerEvent>) -> (r: Accumulated)
    ensures
        r@ == accumulation(reducer::events_of(events@)),
{
    let ghost all = reducer::events_of(events@);
    let mut r = Accumulated { blocks: Vec::new(), stop_reason: None, usage: None };
    let mut i: usize = 0;
    proof {
        assert(all.take(0) == Seq::<Event>::empty());
        assert(r@ =~= accumulation(all.take(0)));
    }
    while i < events.len()
        invariant
            i <= events@.len(),
            all == reducer::events_of(events@),
            r@ == accumulation(all.take(i as int)),
        decreases events@.len() - i,
    {
        proof {
            assert(all.take(i + 1).drop_last() == all.take(i as int));
            assert(all.take(i + 1).last() == events@[i as int]@);
        }
        r.add(&events[i]);
        i = i + 1;
    }
    proof {
        assert(all.take(i as int) == all);
    }
    r
}

pub open spec fn thinking_json(text: Seq<char>, signature: Seq<char>) -> Json {
    Json::Object(
        Map::empty().insert("type"@, Json::Text("thinking"@)).insert(
            "thinking"@,
            Json::Text(text),
        ).insert("signature"@, Json::Text(signature)),
    )
}

pub open spec fn text_json(text: Seq<char>) -> Json {
    Json::Object(
        Map::empty().insert("type"@, Json::Text("text"@)).insert("text"@, Json::Text(text)),
    )
}

/// The input of a tool: the document in its arguments, or the arguments as they are where they
/// hold none.
pub open spec fn tool_input(args: Seq<char>, document: Option<Json>) -> Json {
    match document {
        Some(document) => document,
        None => Json::Text(args),
    }
}

pub open spec fn tool_json(id: Seq<char>, name: Seq<char>, input: Json) -> Json {
    Json::Object(
        Map::empty().insert("type"@, Json::Text("tool_use"@)).insert("id"@, Json::Text(id)).insert(
            "name"@,
            Json::Text(name),
        ).insert("input"@, input),
    )
}

/// Whether a block needs a signature: it holds thinking.
pub open spec fn needs_signature(kind: Kind) -> bool {
    kind matches Kind::Thinking { text } && text.len() > 0
}

/// The content item of a block. Thinking and text without content give none.
pub open spec fn content_item(kind: Kind, signature: Seq<char>) -> Option<Json> {
    match kind {
        Kind::Thinking { text } => if text.len() > 0 {
            Some(thinking_json(text, signature))
        } else {
            None
        },
        Kind::Text { text } => if text.len() > 0 {
            Some(text_json(text))
        } else {
            None
        },
        Kind::Tool { id, name, args } => Some(
            tool_json(id, name, tool_input(args, json::parsed(args))),
        ),
    }
}

/// The content items of the blocks, in their order.
pub open spec fn content(blocks: Seq<Block>, signatures: Seq<Seq<char>>) -> Seq<Json>
    decreases blocks.len(),
{
    if blocks.len() == 0 {
        Seq::empty()
    } else {
        let init = content(blocks.drop_last(), signatures);
        match content_item(blocks.last().kind, signatures[blocks.len() - 1]) {
            Some(item) => init.push(item),
            None => init,
        }
    }
}

pub open spec fn stop_reason_text(reason: StopReason) -> Seq<char> {
    match reason {
        StopReason::EndTurn => "end_turn"@,
        StopReason::ToolUse => "tool_use"@,
        StopReason::MaxTokens => "max_tokens"@,
    }
}

pub open spec fn stop_reason_json(reason: Option<StopReason>) -> Json {
    match reason {
        Some(reason) => Json::Text(stop_reason_text(reason)),
        None => Json::Null,
    }
}

pub open spec fn usage_json(u: AnthropicUsage) -> Json {
    Json::Object(
        Map::empty().insert("input_tokens"@, Json::Unsigned(u.input_tokens)).insert(
            "output_tokens"@,
            Json::Unsigned(u.output_tokens),
        ).insert(
            "cache_creation_input_tokens"@,
            Json::Unsigned(u.cache_creation_input_tokens),
        ).insert("cache_read_input_tokens"@, Json::Unsigned(u.cache_read_input_tokens)),
    )
}

/// The usage of a message, or none spent where nothing was reported.
pub open spec fn reported_usage(u: Option<AnthropicUsage>) -> AnthropicUsage {
    match u {
        Some(u) => u,
        None => reducer::no_usage(),
    }
}

/// The message in the form in which it is sent.
pub open spec fn message_json(
    a: Accumulation,
    message_id: Seq<char>,
    model: Seq<char>,
    signatures: Seq<Seq<char>>,
) -> Json {
    Json::Object(
        Map::empty().insert("id"@, Json::Text(message_id)).insert(
            "type"@,
            Json::Text("message"@),
        ).insert("role"@, Json::Text("assistant"@)).insert("model"@, Json::Text(model)).insert(
            "content"@,
            Json::List(content(a.blocks, signatures)),
        ).insert("stop_reason"@, stop_reason_json(a.stop_reason)).insert(
            "stop_sequence"@,
            Json::Null,
        ).insert("usage"@, usage_json(reported_usage(a.usage))),
    )
}

/// Whether `sign` gave `signature` for the block `index` of the message.
pub open spec fn signed<F: Fn(&str, usize) -> String>(
    sign: F,
    message_id: &str,
    index: nat,
    signature: Seq<char>,
) -> bool {
    exists|s: String|
        #[trigger] call_ensures(sign, (message_id, index as usize), s) && s@ == signature
}

/// Whether `sign` gave the signatures of the blocks that need one.
pub open spec fn all_signed<F: Fn(&str, usize) -> String>(
    sign: F,
    message_id: &str,
    blocks: Seq<Block>,
    signatures: Seq<Seq<char>>,
) -> bool {
    &&& signatures.len() == blocks.len()
    &&& forall|k: int|
        0 <= k < blocks.len() && needs_signature((#[trigger] blocks[k]).kind) ==> signed(
            sign,
            message_id,
            blocks[k].index,
            signatures[k],
        )
}

fn text_of(s: &str) -> (r: serde_json::Value)
    ensures
        json::json_of(r) == Json::Text(s@),
{
    json::text_value(s.to_owned())
}

fn thinking_value(text: &String, signature: String) -> (r: serde_json::Value)
    ensures
        json::json_of(r) == thinking_json(text@, signature@),
{
    let mut object = ObjectBuilder::new();
    proof {
        reveal_strlit("type");
        assert("type"@.len() == 4);
        reveal_strlit("thinking");
        assert("thinking"@.len() == 8);
        reveal_strlit("signature");
        assert("signature"@.len() == 9);
    }
    object.put("type", text_of("thinking"));
    object.put("thinking", text_of(text.as_str()));
    object.put("signature", json::text_value(signature));
    object.build()
}

fn text_block_value(text: &String) -> (r: serde_json::Value)
    ensures
        json::json_of(r) == text_json(text@),
{
    let mut object = ObjectBuilder::new();
    proof {
        reveal_strlit("type");
        assert("type"@.len() == 4);
        reveal_strlit("text");
        assert("text"@.len() == 4);
        assert("type"@[1] != "text"@[1]);
    }
    object.put("type", text_of("text"));
    object.put("text", text_of(text.as_str()));
    object.build()
}

/// The content item of a tool call, given the document in its arguments, if they hold one.
pub fn tool_use_value(
    id: &str,
    name: &str,
    args: &str,
    document: Option<serde_json::Value>,
) -> (r: serde_json::Value)
    ensures
        json::json_of(r) == tool_json(id@, name@, tool_input(args@, json::optional_json(document))),
{
    let input = match document {
        Some(document) => document,
        None => text_of(args),
    };
    let mut object = ObjectBuilder::new();
    proof {
        reveal_strlit("type");
        assert("type"@.len() == 4);
        reveal_strlit("id");
        assert("id"@.len() == 2);
        reveal_strlit("name");
        assert("name"@.len() == 4);
        reveal_strlit("input");
        assert("input"@.len() == 5);
        assert("type"@[0] != "name"@[0]);
    }
    object.put("type", text_of("tool_use"));
    object.put("id", text_of(id));
    object.put("name", text_of(name));
    object.put("input", input);
    object.build()
}

fn tool_value(id: &String, name: &String, args: &String) -> (r: serde_json::Value)
    ensures
        json::json_of(r) == tool_json(id@, name@, tool_input(args@, json::parsed(args@))),
{
    let document = json::parse_value(args.as_str());
    tool_use_value(id.as_str(), name.as_str(), args.as_str(), document)
}

fn stop_reason_value(reason: &Option<StopReason>) -> (r: serde_json::Value)
    ensures
        json::json_of(r) == stop_reason_json(*reason),
{
    match reason {
        Some(StopReason::EndTurn) => text_of("end_turn"),
        Some(StopReason::ToolUse) => text_of("tool_use"),
        Some(StopReason::MaxTokens) => text_of("max_tokens"),
        None => json::null_value(),
    }
}

fn usage_value(u: &AnthropicUsage) -> (r: serde_json::Value)
    ensures
        json::json_of(r) == usage_json(*u),
{
    let mut object = ObjectBuilder::new();
    proof {
        reveal_strlit("input_tokens");
        assert("input_tokens"@.len() == 12);
        reveal_strlit("output_tokens");
        assert("output_tokens"@.len() == 13);
        reveal_strlit("cache_creation_input_tokens");
        assert("cache_creation_input_tokens"@.len() == 27);
        reveal_strlit("cache_read_input_tokens");
        assert("cache_read_input_tokens"@.len() == 23);
    }
    object.put("input_tokens", json::number_value(u.input_tokens));
    object.put("output_tokens", json::number_value(u.output_tokens));
    object.put("cache_creation_input_tokens", json::number_value(u.cache_creation_input_tokens));
    object.put("cache_read_input_tokens", json::number_value(u.cache_read_input_tokens));
    object.build()
}

fn content_value<F: Fn(&str, usize) -> String>(
    blocks: &Vec<AccumulatedBlock>,
    message_id: &str,
    sign: &F,
) -> (r: serde_json::Value)
    requires
        forall|index: usize| #[trigger] call_requires(*sign, (message_id, index)),
    ensures
        exists|signatures: Seq<Seq<char>>| #[trigger]
            all_signed(*sign, message_id, blocks_of(blocks@), signatures) && json::json_of(r)
                == Json::List(content(blocks_of(blocks@), signatures)),
{
    let ghost all = blocks_of(blocks@);
    let mut items: Vec<serde_json::Value> = Vec::new();
    let ghost mut signatures: Seq<Seq<char>> = Seq::empty();
    let mut i: usize = 0;
    proof {
        assert(json::jsons_of(items@) =~= content(all.take(0), signatures));
    }
    while i < blocks.len()
        invariant
            i <= blocks@.len(),
            all == blocks_of(blocks@),
            forall|index: usize| #[trigger] call_requires(*sign, (message_id, index)),
            all_signed(*sign, message_id, all.take(i as int), signatures),
            json::jsons_of(items@) == content(all.take(i as int), signatures),
        decreases blocks@.len() - i,
    {
        let block = &blocks[i];
        let ghost mut signature: Seq<char> = Seq::empty();
        let ghost before = items@;
        let item: Option<serde_json::Value> = match &block.kind {
            BlockKind::Thinking { text } => if text.as_str().is_empty() {
                None
            } else {
                let made = sign(message_id, block.index);
                proof {
                    signature = made@;
                }
                Some(thinking_value(text, made))
            },
            BlockKind::Text { text } => if text.as_str().is_empty() {
                None
            } else {
                Some(text_block_value(text))
            },
            BlockKind::Tool { id, name, args } => Some(tool_value(id, name, args)),
        };
        let ghost more = signatures.push(signature);
        proof {
            assert(all[i as int] == block@);
            assert(all.take(i + 1).drop_last() == all.take(i as int));
            assert(all.take(i + 1).last() == block@);
            assert forall|k: int|
                0 <= k < i + 1 && needs_signature(
                    (#[trigger] all.take(i + 1)[k]).kind,
                ) implies signed(*sign, message_id, all.take(i + 1)[k].index, more[k]) by {
                if k < i {
                    assert(all.take(i as int)[k] == all.take(i + 1)[k]);
                    assert(more[k] == signatures[k]);
                }
            }
            lemma_content_prefix(all.take(i as int), signatures, more);
        }
        match item {
            Some(value) => {
                items.push(value);
                proof {
                    assert(json::jsons_of(items@) =~= json::jsons_of(before).push(
                        json::json_of(value),
                    ));
                }
            },
            None => {},
        }
        proof {
            signatures = more;
        }
        i = i + 1;
    }
    proof {
        assert(all.take(i as int) == all);
    }
    json::list_value(items)
}

proof fn lemma_content_prefix(blocks: Seq<Block>, a: Seq<Seq<char>>, b: Seq<Seq<char>>)
    requires
        blocks.len() <= a.len(),
        a.is_prefix_of(b),
    ensures
        content(blocks, a) == content(blocks, b),
    decreases blocks.len(),
{
    if blocks.len() > 0 {
        lemma_content_prefix(blocks.drop_last(), a, b);
        assert(a[blocks.len() - 1] == b[blocks.len() - 1]);
    }
}

/// The message that the accumulated events make, in the form in which it is sent.
pub fn render_message<F: Fn(&str, usize) -> String>(
    a: &Accumulated,
    message_id: &str,
    model: &str,
    make_thinking_signature: &F,
) -> (r: serde_json::Value)
    requires
        forall|index: usize| #[trigger] call_requires(*make_thinking_signature, (message_id, index)),
    ensures
        exists|signatures: Seq<Seq<char>>| #[trigger]
            all_signed(*make_thinking_signature, message_id, a@.blocks, signatures)
                && json::json_of(r) == message_json(a@, message_id@, model@, signatures),
{
    let items = content_value(&a.blocks, message_id, make_thinking_signature);
    let ghost signatures = choose|signatures: Seq<Seq<char>>| #[trigger]
        all_signed(*make_thinking_signature, message_id, a@.blocks, signatures) && json::json_of(
            items,
        ) == Json::List(content(a@.blocks, signatures));
    let usage = match &a.usage {
        Some(usage) => *usage,
        None => AnthropicUsage::default(),
    };
    let mut object = ObjectBuilder::new();
    proof {
        reveal_strlit("id");
        assert("id"@.len() == 2);
        reveal_strlit("type");
        assert("type"@.len() == 4);
        reveal_strlit("role");
        assert("role"@.len() == 4);
        reveal_strlit("model");
        assert("model"@.len() == 5);
        reveal_strlit("content");
        assert("content"@.len() == 7);
        reveal_strlit("stop_reason");
        assert("stop_reason"@.len() == 11);
        reveal_strlit("stop_sequence");
        assert("stop_sequence"@.len() == 13);
        reveal_strlit("usage");
        assert("usage"@.len() == 5);
        assert("type"@[0] != "role"@[0]);
        assert("model"@[0] != "usage"@[0]);
    }
    object.put("id", text_of(message_id));
    object.put("type", text_of("message"));
    object.put("role", text_of("assistant"));
    object.put("model", text_of(model));
    object.put("content", items);
    object.put("stop_reason", stop_reason_value(&a.stop_reason));
    object.put("stop_sequence", json::null_value());
    object.put("usage", usage_value(&usage));
    let message = object.build();
    proof {
        assert(all_signed(*make_thinking_signature, message_id, a@.blocks, signatures));
        assert(json::json_of(message) == message_json(a@, message_id@, model@, signatures));
    }
    message
}

/// The name of an error kind.
pub open spec fn kind_text(kind: UpstreamErrorKind) -> Seq<char> {
    match kind {
        UpstreamErrorKind::RateLimit => "RateLimit"@,
        UpstreamErrorKind::Failed => "Failed"@,
    }
}

/// The message for an error that the upstream reported.
pub open spec fn upstream_error_text(message: Seq<char>, kind: UpstreamErrorKind) -> Seq<char> {
    "upstream error: "@ + message + " ("@ + kind_text(kind) + ")"@
}

fn describe_error(e: &reducer::UpstreamStreamError) -> (r: String)
    ensures
        r@ == upstream_error_text(e.message@, e.kind),
{
    let mut text = "upstream error: ".to_owned();
    text.append(e.message.as_str());
    text.append(" (");
    text.append(
        match e.kind {
            UpstreamErrorKind::RateLimit => "RateLimit",
            UpstreamErrorKind::Failed => "Failed",
        },
    );
    text.append(")");
    text
}

/// The message in a response body. `make_thinking_signature` gives the signature of a thinking
/// block from the message id and the block's index.
pub fn accumulate_response<F: Fn(&str, usize) -> String>(
    input: &[u8],
    message_id: &str,
    model: &str,
    make_thinking_signature: F,
) -> (r: Result<serde_json::Value, AccumulateError>)
    requires
        forall|index: usize| #[trigger] call_requires(make_thinking_signature, (message_id, index)),
    ensures
        ({
            let chunks = reducer::chunks_of_body(input@);
            let a = accumulation(reducer::finished(reducer::reduction(chunks)));
            match r {
                Ok(value) => {
                    &&& reducer::first_error(chunks) is None
                    &&& exists|signatures: Seq<Seq<char>>| #[trigger]
                        all_signed(make_thinking_signature, message_id, a.blocks, signatures)
                            && json::json_of(value) == message_json(
                            a,
                            message_id@,
                            model@,
                            signatures,
                        )
                },
                Err(e) => reducer::first_error(chunks) matches Some(message) && e.message@
                    == upstream_error_text(message, UpstreamErrorKind::Failed),
            }
        }),
{
    let events = match reducer::reduce_upstream_bytes(input) {
        Ok(events) => events,
        Err(e) => return Err(AccumulateError { message: describe_error(&e) }),
    };
    let accumulated = accumulate_events(&events);
    Ok(render_message(&accumulated, message_id, model, &make_thinking_signature))
}

} // verus!
