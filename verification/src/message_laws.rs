//! What a message holds, and where it comes from.
use vstd::prelude::*;

use crate::accumulate;
use crate::accumulate::{Accumulation, Block, Kind};
use crate::accumulate_laws;
use crate::chunk;
use crate::event_laws;
use crate::json::Json;
use crate::reducer;
use crate::reducer::{AnthropicUsage, Event, StopReason, UpstreamErrorKind};
use crate::reducer_laws as laws;

verus! {

/// Whether a document is an object with exactly the given keys.
pub open spec fn has_keys(j: Json, keys: Set<Seq<char>>) -> bool {
    j matches Json::Object(o) && o.dom() == keys
}

/// The value of a member of an object.
pub open spec fn member(j: Json, key: Seq<char>) -> Json {
    j->Object_0[key]
}

/// A message has its id, its model, its content, its stop reason and its usage under their keys,
/// says that it is a message of the assistant, names no stop sequence, and has no other member.
pub proof fn law_message_has_its_parts(
    a: Accumulation,
    message_id: Seq<char>,
    model: Seq<char>,
    signatures: Seq<Seq<char>>,
)
    ensures
        ({
            let j = accumulate::message_json(a, message_id, model, signatures);
            let keys = set![
                "id"@, "type"@, "role"@, "model"@, "content"@, "stop_reason"@, "stop_sequence"@,
                "usage"@,
            ];
            &&& has_keys(j, keys)
            &&& member(j, "id"@) == Json::Text(message_id)
            &&& member(j, "type"@) == Json::Text("message"@)
            &&& member(j, "role"@) == Json::Text("assistant"@)
            &&& member(j, "model"@) == Json::Text(model)
            &&& member(j, "content"@) == Json::List(accumulate::content(a.blocks, signatures))
            &&& member(j, "stop_sequence"@) == Json::Null
            &&& member(j, "stop_reason"@) == (match a.stop_reason {
                Some(StopReason::EndTurn) => Json::Text("end_turn"@),
                Some(StopReason::ToolUse) => Json::Text("tool_use"@),
                Some(StopReason::MaxTokens) => Json::Text("max_tokens"@),
                None => Json::Null,
            })
            &&& match a.usage {
                Some(u) => shows_usage(
                    member(j, "usage"@),
                    u.input_tokens,
                    u.output_tokens,
                    u.cache_creation_input_tokens,
                    u.cache_read_input_tokens,
                ),
                None => shows_usage(member(j, "usage"@), 0, 0, 0, 0),
            }
        }),
{
    reveal_strlit("id");
    assert("id"@.len() == 2);
    reveal_strlit("type");
    assert("type"@.len() == 4);
    reveal_strlit("role");
    assert("role"@.len() == 4);
    reveal_strlit("model");
    assert("model"@.len() == 5);
    reveal_strlit("content");
    assert("content"@.len() == 7);
    reveal_strlit("stop_reason");
    assert("stop_reason"@.len() == 11);
    reveal_strlit("stop_sequence");
    assert("stop_sequence"@.len() == 13);
    reveal_strlit("usage");
    assert("usage"@.len() == 5);
    assert("type"@[0] != "role"@[0]);
    assert("model"@[0] != "usage"@[0]);
    let j = accumulate::message_json(a, message_id, model, signatures);
    assert(j->Object_0.dom() =~= set![
        "id"@, "type"@, "role"@, "model"@, "content"@, "stop_reason"@, "stop_sequence"@, "usage"@,
    ]);
    lemma_usage(accumulate::reported_usage(a.usage));
}

/// Whether a document is a usage with the given counts under their keys and no other member.
pub open spec fn shows_usage(j: Json, input: u64, output: u64, created: u64, read: u64) -> bool {
    &&& has_keys(
        j,
        set![
            "input_tokens"@, "output_tokens"@, "cache_creation_input_tokens"@,
            "cache_read_input_tokens"@,
        ],
    )
    &&& member(j, "input_tokens"@) == Json::Unsigned(input)
    &&& member(j, "output_tokens"@) == Json::Unsigned(output)
    &&& member(j, "cache_creation_input_tokens"@) == Json::Unsigned(created)
    &&& member(j, "cache_read_input_tokens"@) == Json::Unsigned(read)
}

proof fn lemma_usage(u: AnthropicUsage)
    ensures
        shows_usage(
            accumulate::usage_json(u),
            u.input_tokens,
            u.output_tokens,
            u.cache_creation_input_tokens,
            u.cache_read_input_tokens,
        ),
{
    reveal_strlit("input_tokens");
    assert("input_tokens"@.len() == 12);
    reveal_strlit("output_tokens");
    assert("output_tokens"@.len() == 13);
    reveal_strlit("cache_creation_input_tokens");
    assert("cache_creation_input_tokens"@.len() == 27);
    reveal_strlit("cache_read_input_tokens");
    assert("cache_read_input_tokens"@.len() == 23);
    assert(accumulate::usage_json(u)->Object_0.dom() =~= set![
        "input_tokens"@, "output_tokens"@, "cache_creation_input_tokens"@,
        "cache_read_input_tokens"@,
    ]);
}

/// Whether a content item shows a block: its type, its content and, for thinking, its signature,
/// under their keys and with no other member. The input of a tool call is the document that its
/// arguments hold, or the arguments as they are.
pub open spec fn shows_block(j: Json, kind: Kind, signature: Seq<char>) -> bool {
    match kind {
        Kind::Thinking { text } => {
            &&& has_keys(j, set!["type"@, "thinking"@, "signature"@])
            &&& member(j, "type"@) == Json::Text("thinking"@)
            &&& member(j, "thinking"@) == Json::Text(text)
            &&& member(j, "signature"@) == Json::Text(signature)
        },
        Kind::Text { text } => {
            &&& has_keys(j, set!["type"@, "text"@])
            &&& member(j, "type"@) == Json::Text("text"@)
            &&& member(j, "text"@) == Json::Text(text)
        },
        Kind::Tool { id, name, args } => {
            &&& has_keys(j, set!["type"@, "id"@, "name"@, "input"@])
            &&& member(j, "type"@) == Json::Text("tool_use"@)
            &&& member(j, "id"@) == Json::Text(id)
            &&& member(j, "name"@) == Json::Text(name)
            &&& match crate::json::parsed(args) {
                Some(document) => member(j, "input"@) == document,
                None => member(j, "input"@) == Json::Text(args),
            }
        },
    }
}

proof fn lemma_item(kind: Kind, signature: Seq<char>)
    ensures
        accumulate::content_item(kind, signature) matches Some(j) ==> shows_block(
            j,
            kind,
            signature,
        ),
{
    reveal_strlit("type");
    assert("type"@.len() == 4);
    reveal_strlit("thinking");
    assert("thinking"@.len() == 8);
    reveal_strlit("signature");
    assert("signature"@.len() == 9);
    reveal_strlit("text");
    assert("text"@.len() == 4);
    assert("type"@[1] != "text"@[1]);
    reveal_strlit("id");
    assert("id"@.len() == 2);
    reveal_strlit("name");
    assert("name"@.len() == 4);
    assert("type"@[0] != "name"@[0]);
    reveal_strlit("input");
    assert("input"@.len() == 5);
    if let Some(j) = accumulate::content_item(kind, signature) {
        match kind {
            Kind::Thinking { .. } => assert(j->Object_0.dom() =~= set![
                "type"@, "thinking"@, "signature"@,
            ]),
            Kind::Text { .. } => assert(j->Object_0.dom() =~= set!["type"@, "text"@]),
            Kind::Tool { .. } => assert(j->Object_0.dom() =~= set![
                "type"@, "id"@, "name"@, "input"@,
            ]),
        }
    }
}

/// The content of any blocks leaves out thinking and text that is empty, and shows each of the
/// others, in their order: one more block adds its item and changes none.
pub proof fn law_content_shows_the_blocks(
    blocks: Seq<Block>,
    b: Block,
    signatures: Seq<Seq<char>>,
)
    ensures
        accumulate::content(Seq::<Block>::empty(), signatures) == Seq::<Json>::empty(),
        ({
            let before = accumulate::content(blocks, signatures);
            let after = accumulate::content(blocks.push(b), signatures);
            let empty = match b.kind {
                Kind::Thinking { text } => text.len() == 0,
                Kind::Text { text } => text.len() == 0,
                Kind::Tool { .. } => false,
            };
            &&& empty ==> after == before
            &&& !empty ==> after.len() == before.len() + 1 && after.drop_last() == before
                && shows_block(after.last(), b.kind, signatures[blocks.len() as int])
        }),
{
    let all = blocks.push(b);
    assert(all.drop_last() == blocks);
    let signature = signatures[blocks.len() as int];
    lemma_item(b.kind, signature);
    if let Some(item) = accumulate::content_item(b.kind, signature) {
        assert(accumulate::content(blocks, signatures).push(item).drop_last()
            == accumulate::content(blocks, signatures));
    }
}

/// The content of a message shows every block that the chunks start, in order.
pub proof fn law_message_shows_every_block(
    chunks: Seq<chunk::Chunk>,
    signatures: Seq<Seq<char>>,
)
    ensures
        ({
            let blocks = accumulate::accumulation(
                reducer::finished(reducer::reduction(chunks)),
            ).blocks;
            let items = accumulate::content(blocks, signatures);
            &&& items.len() == blocks.len()
            &&& forall|k: int|
                0 <= k < blocks.len() ==> shows_block(
                    #[trigger] items[k],
                    blocks[k].kind,
                    signatures[k],
                )
        }),
{
    accumulate_laws::law_every_block_is_an_item(chunks, signatures);
    let blocks = accumulate::accumulation(reducer::finished(reducer::reduction(chunks))).blocks;
    let items = accumulate::content(blocks, signatures);
    assert forall|k: int| 0 <= k < blocks.len() implies shows_block(
        #[trigger] items[k],
        blocks[k].kind,
        signatures[k],
    ) by {
        assert(accumulate_laws::has_content(blocks[k].kind));
        lemma_item(blocks[k].kind, signatures[k]);
    }
}

/// A signature of a block is what signing gave for the message and the index of the block, and
/// each block of thinking has one.
pub proof fn law_signatures_are_of_their_blocks<F: Fn(&str, usize) -> String>(
    sign: F,
    message_id: &str,
    blocks: Seq<Block>,
    signatures: Seq<Seq<char>>,
    k: int,
)
    requires
        accumulate::all_signed(sign, message_id, blocks, signatures),
        0 <= k < blocks.len(),
        blocks[k].kind matches Kind::Thinking { text } && text.len() > 0,
    ensures
        signatures.len() == blocks.len(),
        exists|s: String| #[trigger]
            call_ensures(sign, (message_id, blocks[k].index as usize), s) && s@ == signatures[k],
{
    assert(accumulate::signed(sign, message_id, blocks[k].index, signatures[k]));
}

/// The message of an upstream error names the error and its kind.
pub proof fn law_errors_are_described(message: Seq<char>)
    ensures
        accumulate::upstream_error_text(message, UpstreamErrorKind::Failed)
            == "upstream error: "@ + message + " (Failed)"@,
        accumulate::upstream_error_text(message, UpstreamErrorKind::RateLimit)
            == "upstream error: "@ + message + " (RateLimit)"@,
{
    reveal_strlit(" (");
    reveal_strlit(")");
    reveal_strlit("Failed");
    reveal_strlit("RateLimit");
    reveal_strlit(" (Failed)");
    reveal_strlit(" (RateLimit)");
    assert(" ("@ + "Failed"@ + ")"@ =~= " (Failed)"@);
    assert(" ("@ + "RateLimit"@ + ")"@ =~= " (RateLimit)"@);
    assert(accumulate::upstream_error_text(message, UpstreamErrorKind::Failed)
        =~= "upstream error: "@ + message + " (Failed)"@);
    assert(accumulate::upstream_error_text(message, UpstreamErrorKind::RateLimit)
        =~= "upstream error: "@ + message + " (RateLimit)"@);
}

/// Whether `k` is the last block with the index `index`.
pub open spec fn is_last_block(blocks: Seq<Block>, index: nat, k: int) -> bool {
    &&& 0 <= k < blocks.len()
    &&& blocks[k].index == index
    &&& forall|j: int| k < j < blocks.len() ==> (#[trigger] blocks[j]).index != index
}

proof fn lemma_last_block(blocks: Seq<Block>, index: nat)
    ensures
        match accumulate::last_block(blocks, index) {
            Some(k) => is_last_block(blocks, index, k),
            None => forall|j: int| 0 <= j < blocks.len() ==> (#[trigger] blocks[j]).index != index,
        },
    decreases blocks.len(),
{
    if blocks.len() > 0 && blocks.last().index != index {
        let init = blocks.drop_last();
        lemma_last_block(init, index);
        assert(forall|j: int| 0 <= j < init.len() ==> #[trigger] init[j] == blocks[j]);
        assert forall|j: int|
            0 <= j < blocks.len() && (accumulate::last_block(init, index) matches Some(k) ==> k
                < j) implies (#[trigger] blocks[j]).index != index by {
            if j < init.len() {
                assert(init[j] == blocks[j]);
            }
        }
    }
}

/// Any events, in whatever order: a start adds an empty block of its type behind the others;
/// content goes to the last block with its index, if that is of its type, and is added behind what
/// the block holds; a finish sets the stop reason and the usage; and nothing else changes
/// anything.
pub proof fn law_events_accumulate(events: Seq<Event>, e: Event)
    ensures
        ({
            let a = accumulate::accumulation(events);
            let n = accumulate::accumulation(events.push(e));
            &&& n.stop_reason == (if e is Finish {
                Some(e->stop_reason)
            } else {
                a.stop_reason
            })
            &&& !(e is Finish) ==> n.usage == a.usage
            &&& e is Finish ==> n.usage == Some(reducer::anthropic_usage(e->usage))
            &&& match e {
                Event::ThinkingStart { index } => n.blocks == a.blocks.push(
                    Block { index, kind: Kind::Thinking { text: Seq::empty() } },
                ),
                Event::TextStart { index } => n.blocks == a.blocks.push(
                    Block { index, kind: Kind::Text { text: Seq::empty() } },
                ),
                Event::ToolStart { index, id, name } => n.blocks == a.blocks.push(
                    Block { index, kind: Kind::Tool { id, name, args: Seq::empty() } },
                ),
                Event::ThinkingDelta { index, text } => {
                    &&& n.blocks.len() == a.blocks.len()
                    &&& forall|k: int|
                        0 <= k < a.blocks.len() ==> (#[trigger] n.blocks[k]) == (
                        match a.blocks[k].kind {
                            Kind::Thinking { text: t } => if is_last_block(a.blocks, index, k) {
                                Block { index, kind: Kind::Thinking { text: t + text } }
                            } else {
                                a.blocks[k]
                            },
                            _ => a.blocks[k],
                        })
                },
                Event::TextDelta { index, text } => {
                    &&& n.blocks.len() == a.blocks.len()
                    &&& forall|k: int|
                        0 <= k < a.blocks.len() ==> (#[trigger] n.blocks[k]) == (
                        match a.blocks[k].kind {
                            Kind::Text { text: t } => if is_last_block(a.blocks, index, k) {
                                Block { index, kind: Kind::Text { text: t + text } }
                            } else {
                                a.blocks[k]
                            },
                            _ => a.blocks[k],
                        })
                },
                Event::ToolDelta { index, partial_json } => {
                    &&& n.blocks.len() == a.blocks.len()
                    &&& forall|k: int|
                        0 <= k < a.blocks.len() ==> (#[trigger] n.blocks[k]) == (
                        match a.blocks[k].kind {
                            Kind::Tool { id, name, args } => if is_last_block(
                                a.blocks,
                                index,
                                k,
                            ) {
                                Block {
                                    index,
                                    kind: Kind::Tool { id, name, args: args + partial_json },
                                }
                            } else {
                                a.blocks[k]
                            },
                            _ => a.blocks[k],
                        })
                },
                _ => n.blocks == a.blocks,
            }
        }),
        accumulate::accumulation(Seq::<Event>::empty()) == (Accumulation {
            blocks: Seq::empty(),
            stop_reason: None,
            usage: None,
        }),
{
    accumulate_laws::lemma_accumulation_push(events, e);
    let blocks = accumulate::accumulation(events).blocks;
    match e {
        Event::ThinkingDelta { index, .. } => lemma_last_block(blocks, index),
        Event::TextDelta { index, .. } => lemma_last_block(blocks, index),
        Event::ToolDelta { index, .. } => lemma_last_block(blocks, index),
        _ => {},
    }
}

/// A message has the stop reason and the usage of the finish event, whatever came before.
pub proof fn law_message_ends_with_the_finish(chunks: Seq<chunk::Chunk>)
    ensures
        ({
            let events = reducer::finished(reducer::reduction(chunks));
            let a = accumulate::accumulation(events);
            &&& events.len() > 0
            &&& events.last() matches Event::Finish { stop_reason, usage }
            &&& a.stop_reason == Some(stop_reason)
            &&& a.usage == Some(reducer::anthropic_usage(usage))
        }),
{
    let events = reducer::finished(reducer::reduction(chunks));
    law_events_accumulate(events.drop_last(), events.last());
    assert(events.drop_last().push(events.last()) == events);
}

/// The tool blocks among blocks, in their order.
pub open spec fn tool_blocks(blocks: Seq<Block>) -> Seq<Block>
    decreases blocks.len(),
{
    if blocks.len() == 0 {
        Seq::empty()
    } else if blocks.last().kind is Tool {
        tool_blocks(blocks.drop_last()).push(blocks.last())
    } else {
        tool_blocks(blocks.drop_last())
    }
}

/// Blocks of which tool blocks are at the same places, with the same indexes, as in others.
spec fn same_shape(a: Seq<Block>, b: Seq<Block>) -> bool {
    &&& a.len() == b.len()
    &&& forall|k: int|
        0 <= k < a.len() ==> (#[trigger] a[k]).index == b[k].index && (a[k].kind is Tool
            <==> b[k].kind is Tool)
}

proof fn lemma_same_shape(a: Seq<Block>, b: Seq<Block>)
    requires
        same_shape(a, b),
    ensures
        tool_blocks(a).len() == tool_blocks(b).len(),
        forall|k: int|
            0 <= k < tool_blocks(a).len() ==> (#[trigger] tool_blocks(a)[k]).index == tool_blocks(
                b,
            )[k].index,
    decreases a.len(),
{
    if a.len() > 0 {
        let (x, y) = (a.drop_last(), b.drop_last());
        assert forall|k: int| 0 <= k < x.len() implies (#[trigger] x[k]).index == y[k].index && (
        x[k].kind is Tool <==> y[k].kind is Tool) by {
            assert(x[k] == a[k] && y[k] == b[k]);
        }
        lemma_same_shape(x, y);
        assert(a[a.len() - 1].index == b[b.len() - 1].index);
        assert forall|k: int| 0 <= k < tool_blocks(a).len() implies (
        #[trigger] tool_blocks(a)[k]).index == tool_blocks(b)[k].index by {
            if k < tool_blocks(x).len() {
                assert(tool_blocks(x)[k].index == tool_blocks(y)[k].index);
            }
        }
    }
}

proof fn lemma_tool_blocks(events: Seq<Event>)
    ensures
        ({
            let found = tool_blocks(accumulate::accumulation(events).blocks);
            let starts = event_laws::tool_starts(events);
            &&& found.len() == starts.len()
            &&& forall|k: int|
                0 <= k < starts.len() ==> starts[k] is ToolStart && (#[trigger] found[k]).index
                    == starts[k]->ToolStart_index
        }),
    decreases events.len(),
{
    if events.len() > 0 {
        let init = events.drop_last();
        let e = events.last();
        lemma_tool_blocks(init);
        assert(init.push(e) == events);
        law_events_accumulate(init, e);
        let a = accumulate::accumulation(init).blocks;
        let n = accumulate::accumulation(events).blocks;
        if n.len() > a.len() {
            assert(n.drop_last() == a);
        } else {
            assert(same_shape(n, a));
            lemma_same_shape(n, a);
        }
        let starts = event_laws::tool_starts(events);
        assert forall|k: int| 0 <= k < starts.len() implies starts[k] is ToolStart && (
        #[trigger] tool_blocks(n)[k]).index == starts[k]->ToolStart_index by {
            if k < event_laws::tool_starts(init).len() {
                assert(tool_blocks(a)[k].index == event_laws::tool_starts(
                    init,
                )[k]->ToolStart_index);
            }
        }
    }
}

proof fn lemma_tool_block_is_block(blocks: Seq<Block>, k: int)
    requires
        0 <= k < tool_blocks(blocks).len(),
        forall|j: int| 0 <= j < blocks.len() ==> (#[trigger] blocks[j]).index == j,
    ensures
        ({
            let b = tool_blocks(blocks)[k];
            b.index < blocks.len() && blocks[b.index as int] == b
        }),
    decreases blocks.len(),
{
    let init = blocks.drop_last();
    assert forall|j: int| 0 <= j < init.len() implies (#[trigger] init[j]).index == j by {
        assert(init[j] == blocks[j]);
    }
    if k < tool_blocks(init).len() {
        lemma_tool_block_is_block(init, k);
        let b = tool_blocks(init)[k];
        assert(blocks[b.index as int] == init[b.index as int]);
    } else {
        assert(blocks[blocks.len() - 1].index == blocks.len() - 1);
    }
}

/// The tool calls of a message are those that the fragments open, in their order, each with the id
/// and the name of its opening fragment and with the arguments of its own fragments.
pub proof fn law_message_lists_the_tool_calls(chunks: Seq<chunk::Chunk>)
    ensures
        ({
            let calls = laws::fragments(chunks);
            let all = event_laws::openings(calls);
            let found = tool_blocks(
                accumulate::accumulation(reducer::finished(reducer::reduction(chunks))).blocks,
            );
            &&& found.len() == all.len()
            &&& forall|k: int|
                0 <= k < all.len() ==> (#[trigger] found[k]).kind == (Kind::Tool {
                    id: laws::or_empty(all[k].id),
                    name: laws::name_text(all[k]),
                    args: laws::call_text(calls, all[k].index),
                })
        }),
{
    let events = reducer::finished(reducer::reduction(chunks));
    let calls = laws::fragments(chunks);
    let all = event_laws::openings(calls);
    let blocks = accumulate::accumulation(events).blocks;
    let found = tool_blocks(blocks);
    let starts = event_laws::tool_starts(events);
    event_laws::law_tool_starts_are_the_openings(chunks);
    laws::law_events_can_be_followed(chunks);
    accumulate_laws::law_blocks_collect_their_deltas(events);
    lemma_tool_blocks(events);
    assert forall|k: int| 0 <= k < all.len() implies (#[trigger] found[k]).kind == (Kind::Tool {
        id: laws::or_empty(all[k].id),
        name: laws::name_text(all[k]),
        args: laws::call_text(calls, all[k].index),
    }) by {
        let block = starts[k]->ToolStart_index;
        assert(found[k].index == block);
        lemma_tool_block_is_block(blocks, k);
        lemma_tool_start_found(events, k);
        let i = events.index_of(starts[k]);
        assert(events[i] == starts[k]);
        accumulate_laws::lemma_announced_block(events, i);
    }
}

proof fn lemma_tool_start_found(events: Seq<Event>, k: int)
    requires
        0 <= k < event_laws::tool_starts(events).len(),
    ensures
        events.contains(event_laws::tool_starts(events)[k]),
    decreases events.len(),
{
    let init = events.drop_last();
    if k < event_laws::tool_starts(init).len() {
        lemma_tool_start_found(init, k);
        let i = init.index_of(event_laws::tool_starts(init)[k]);
        assert(events[i] == init[i]);
    } else {
        assert(events[events.len() - 1] == events.last());
    }
}

/// A block of a message is of the type with which it was started.
pub proof fn law_blocks_are_of_their_types(events: Seq<Event>, i: int)
    requires
        laws::followed(events) is Some,
        0 <= i < events.len(),
    ensures
        ({
            let blocks = accumulate::accumulation(events).blocks;
            match events[i] {
                Event::ThinkingStart { index } => index < blocks.len()
                    && blocks[index as int].kind is Thinking,
                Event::TextStart { index } => index < blocks.len()
                    && blocks[index as int].kind is Text,
                Event::ToolStart { index, id, name } => index < blocks.len() && (
                blocks[index as int].kind matches Kind::Tool { id: x, name: y, .. } && x == id && y
                    == name),
                _ => true,
            }
        }),
    decreases events.len(),
{
    let init = events.drop_last();
    let e = events.last();
    assert(init.push(e) == events);
    law_events_accumulate(init, e);
    accumulate_laws::law_blocks_collect_their_deltas(init);
    let a = accumulate::accumulation(init).blocks;
    if i < init.len() {
        assert(init[i] == events[i]);
        law_blocks_are_of_their_types(init, i);
    } else {
        let b = laws::followed(init).unwrap();
        assert(a.len() == b.started);
    }
}

/// The content of accumulated events and of their blocks shows each of their fields.
pub proof fn law_accumulated_shows_its_fields(
    a: accumulate::Accumulated,
    b: accumulate::AccumulatedBlock,
)
    ensures
        a@.stop_reason == a.stop_reason,
        a@.usage == a.usage,
        a@.blocks.len() == a.blocks@.len(),
        forall|k: int| 0 <= k < a.blocks@.len() ==> a@.blocks[k] == (#[trigger] a.blocks@[k])@,
        b@.index == b.index,
        match b.kind {
            accumulate::BlockKind::Thinking { text } => b@.kind == (Kind::Thinking {
                text: text@,
            }),
            accumulate::BlockKind::Text { text } => b@.kind == (Kind::Text { text: text@ }),
            accumulate::BlockKind::Tool { id, name, args } => b@.kind == (Kind::Tool {
                id: id@,
                name: name@,
                args: args@,
            }),
        },
{
}

/// The item of a tool call has the id and the name that it is given, and as its input the document
/// that it is given, or the arguments as they are.
pub proof fn law_tool_items_have_their_input(
    id: Seq<char>,
    name: Seq<char>,
    args: Seq<char>,
    document: Option<Json>,
)
    ensures
        ({
            let j = accumulate::tool_json(id, name, accumulate::tool_input(args, document));
            &&& has_keys(j, set!["type"@, "id"@, "name"@, "input"@])
            &&& member(j, "type"@) == Json::Text("tool_use"@)
            &&& member(j, "id"@) == Json::Text(id)
            &&& member(j, "name"@) == Json::Text(name)
            &&& match document {
                Some(d) => member(j, "input"@) == d,
                None => member(j, "input"@) == Json::Text(args),
            }
        }),
{
    reveal_strlit("type");
    assert("type"@.len() == 4);
    reveal_strlit("id");
    assert("id"@.len() == 2);
    reveal_strlit("name");
    assert("name"@.len() == 4);
    assert("type"@[0] != "name"@[0]);
    reveal_strlit("input");
    assert("input"@.len() == 5);
    let j = accumulate::tool_json(id, name, accumulate::tool_input(args, document));
    assert(j->Object_0.dom() =~= set!["type"@, "id"@, "name"@, "input"@]);
}

} // verus!
