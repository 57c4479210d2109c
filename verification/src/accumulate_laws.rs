//! What holds of every message.
use vstd::prelude::*;

use crate::accumulate;
use crate::accumulate::{Accumulation, Block, Kind};
use crate::chunk;
use crate::reducer;
use crate::reducer::{Event, Reduction, Slot};
use crate::reducer_laws as laws;
use crate::reducer_laws::{Board, BlockType};

verus! {

/// The content that an event adds to the block `block`.
pub open spec fn delta_for(e: Event, block: nat) -> Seq<char> {
    match e {
        Event::ThinkingDelta { index, text } => if index == block {
            text
        } else {
            Seq::empty()
        },
        Event::TextDelta { index, text } => if index == block {
            text
        } else {
            Seq::empty()
        },
        Event::ToolDelta { index, partial_json } => if index == block {
            partial_json
        } else {
            Seq::empty()
        },
        _ => Seq::empty(),
    }
}

/// All content that the events add to the block `block`.
pub open spec fn deltas_for(events: Seq<Event>, block: nat) -> Seq<char> {
    laws::joined(events, |e: Event| delta_for(e, block))
}

/// What a block has collected.
pub open spec fn collected(kind: Kind) -> Seq<char> {
    match kind {
        Kind::Thinking { text } => text,
        Kind::Text { text } => text,
        Kind::Tool { args, .. } => args,
    }
}

pub open spec fn type_of(kind: Kind) -> BlockType {
    match kind {
        Kind::Thinking { .. } => BlockType::Thinking,
        Kind::Text { .. } => BlockType::Text,
        Kind::Tool { .. } => BlockType::Tool,
    }
}

/// The content of a block if it is of type `t`.
pub open spec fn content_of_type(b: Block, t: BlockType) -> Seq<char> {
    if type_of(b.kind) == t {
        collected(b.kind)
    } else {
        Seq::empty()
    }
}

/// All thinking in the blocks.
pub open spec fn thinking_in(blocks: Seq<Block>) -> Seq<char> {
    laws::joined(blocks, |b: Block| content_of_type(b, BlockType::Thinking))
}

/// All text in the blocks.
pub open spec fn text_in(blocks: Seq<Block>) -> Seq<char> {
    laws::joined(blocks, |b: Block| content_of_type(b, BlockType::Text))
}

/// Whether a block is the one that a tool start announces.
pub open spec fn announced(b: Block, e: Event) -> bool {
    match (b.kind, e) {
        (Kind::Tool { id, name, .. }, Event::ToolStart { id: i, name: n, .. }) => id == i && name
            == n,
        _ => false,
    }
}

/// The blocks are those that the events started, in their order, each with the content that the
/// events gave it, and an open thinking or text block is the latest of its type.
pub open spec fn mirrors(a: Accumulation, events: Seq<Event>, b: Board) -> bool {
    &&& a.blocks.len() == b.started
    &&& forall|k: int|
        0 <= k < a.blocks.len() ==> (#[trigger] a.blocks[k]).index == k && collected(
            a.blocks[k].kind,
        ) == deltas_for(events, k as nat)
    &&& forall|k: nat| k >= b.started ==> (#[trigger] deltas_for(events, k)).len() == 0
    &&& forall|k: nat| #[trigger]
        b.open.dom().contains(k) ==> k < b.started && type_of(a.blocks[k as int].kind) == b.open[k]
    &&& forall|k: nat, j: int|
        #![trigger b.open.dom().contains(k), a.blocks[j]]
        b.open.dom().contains(k) && !(b.open[k] is Tool) && k < j < a.blocks.len() ==> type_of(
            a.blocks[j].kind,
        ) != b.open[k]
    &&& forall|i: int|
        0 <= i < events.len() ==> ((#[trigger] events[i]) matches Event::ToolStart { index, .. }
            ==> index < b.started && announced(a.blocks[index as int], events[i]))
    &&& thinking_in(a.blocks) == laws::thinking_text(events)
    &&& text_in(a.blocks) == laws::visible_text(events)
}

proof fn lemma_last_block(blocks: Seq<Block>, k: int)
    requires
        0 <= k < blocks.len(),
        forall|j: int| 0 <= j < blocks.len() ==> (#[trigger] blocks[j]).index == j,
    ensures
        accumulate::last_block(blocks, k as nat) == Some(k),
    decreases blocks.len(),
{
    assert(blocks.last() == blocks[blocks.len() - 1]);
    if k < blocks.len() - 1 {
        let init = blocks.drop_last();
        assert forall|j: int| 0 <= j < init.len() implies (#[trigger] init[j]).index == j by {
            assert(init[j] == blocks[j]);
        }
        lemma_last_block(init, k);
    }
}

proof fn lemma_joined_update(
    blocks: Seq<Block>,
    k: int,
    b: Block,
    more: Seq<char>,
    f: spec_fn(Block) -> Seq<char>,
)
    requires
        0 <= k < blocks.len(),
        f(b) == f(blocks[k]) + more,
        more.len() == 0 || forall|j: int| k < j < blocks.len() ==> f(#[trigger] blocks[j]).len() == 0,
    ensures
        laws::joined(blocks.update(k, b), f) == laws::joined(blocks, f) + more,
    decreases blocks.len(),
{
    let init = blocks.drop_last();
    let changed = blocks.update(k, b);
    let last = blocks.last();
    if k == blocks.len() - 1 {
        assert(changed.drop_last() =~= init);
        assert(laws::joined(changed, f) =~= laws::joined(blocks, f) + more);
    } else {
        assert(changed.drop_last() =~= init.update(k, b));
        assert(changed.last() == last);
        assert(forall|j: int| 0 <= j < init.len() ==> #[trigger] init[j] == blocks[j]);
        if more.len() != 0 {
            assert(last == blocks[blocks.len() - 1]);
            assert(f(last).len() == 0);
        }
        lemma_joined_update(init, k, b, more, f);
        assert(laws::joined(changed, f) =~= laws::joined(blocks, f) + more);
    }
}

proof fn lemma_joined_push<T>(items: Seq<T>, x: T, f: spec_fn(T) -> Seq<char>)
    ensures
        laws::joined(items.push(x), f) == laws::joined(items, f) + f(x),
{
    assert(items.push(x).drop_last() == items);
}

proof fn lemma_start(
    a: Accumulation,
    init: Seq<Event>,
    before: Board,
    e: Event,
    index: nat,
    t: BlockType,
    kind: Kind,
)
    requires
        mirrors(a, init, before),
        laws::on_start(before, index, t) is Some,
        type_of(kind) == t,
        collected(kind).len() == 0,
        accumulate::add_event(a, e) == (Accumulation {
            blocks: a.blocks.push(Block { index, kind }),
            ..a
        }),
        laws::thinking_delta(e).len() == 0,
        laws::text_delta(e).len() == 0,
        forall|k: nat| (#[trigger] delta_for(e, k)).len() == 0,
        e matches Event::ToolStart { index: i, .. } ==> i == index && announced(
            Block { index, kind },
            e,
        ),
    ensures
        mirrors(
            accumulate::add_event(a, e),
            init.push(e),
            laws::on_start(before, index, t).unwrap(),
        ),
{
    let events = init.push(e);
    let s = accumulate::add_event(a, e);
    let block = Block { index, kind };
    let b = laws::on_start(before, index, t).unwrap();
    lemma_joined_push(init, e, |x: Event| laws::thinking_delta(x));
    lemma_joined_push(init, e, |x: Event| laws::text_delta(x));
    lemma_joined_push(a.blocks, block, |x: Block| content_of_type(x, BlockType::Thinking));
    lemma_joined_push(a.blocks, block, |x: Block| content_of_type(x, BlockType::Text));
    assert(thinking_in(s.blocks) =~= thinking_in(a.blocks));
    assert(text_in(s.blocks) =~= text_in(a.blocks));
    assert(laws::thinking_text(events) =~= laws::thinking_text(init));
    assert(laws::visible_text(events) =~= laws::visible_text(init));
    assert forall|k: nat| #[trigger] deltas_for(events, k) == deltas_for(init, k) by {
        lemma_joined_push(init, e, |x: Event| delta_for(x, k));
        assert(delta_for(e, k).len() == 0);
        assert(deltas_for(events, k) =~= deltas_for(init, k));
    }
    assert(deltas_for(init, index).len() == 0);
    assert(s.blocks[index as int] == block);
    assert forall|k: int| 0 <= k < s.blocks.len() implies (#[trigger] s.blocks[k]).index == k
        && collected(s.blocks[k].kind) == deltas_for(events, k as nat) by {
        if k < a.blocks.len() {
            assert(s.blocks[k] == a.blocks[k]);
        } else {
            assert(collected(kind) =~= deltas_for(events, k as nat));
        }
    }
    assert forall|k: nat, j: int|
        #![trigger b.open.dom().contains(k), s.blocks[j]]
        b.open.dom().contains(k) && !(b.open[k] is Tool) && k < j < s.blocks.len() implies type_of(
        s.blocks[j].kind,
    ) != b.open[k] by {
        assert(k != index);
        assert(before.open.dom().contains(k));
        if j < a.blocks.len() {
            assert(s.blocks[j] == a.blocks[j]);
        } else if t == before.open[k] {
            assert(laws::is_open(before, t));
        }
    }
    assert forall|i: int| 0 <= i < events.len() implies ((
    #[trigger] events[i]) matches Event::ToolStart { index: at, .. } ==> at < b.started
        && announced(s.blocks[at as int], events[i])) by {
        if i < init.len() {
            assert(events[i] == init[i]);
        }
    }
}

proof fn lemma_delta(
    a: Accumulation,
    init: Seq<Event>,
    b: Board,
    e: Event,
    index: nat,
    t: BlockType,
)
    requires
        mirrors(a, init, b),
        laws::on_delta(b, index, t) is Some,
        accumulate::add_event(a, e) == (Accumulation {
            blocks: accumulate::extend_block(a.blocks, index, e),
            ..a
        }),
        match e {
            Event::ThinkingDelta { index: i, .. } => i == index && t is Thinking,
            Event::TextDelta { index: i, .. } => i == index && t is Text,
            Event::ToolDelta { index: i, .. } => i == index && t is Tool,
            _ => false,
        },
    ensures
        mirrors(accumulate::add_event(a, e), init.push(e), b),
{
    let events = init.push(e);
    let s = accumulate::add_event(a, e);
    assert(b.open.dom().contains(index));
    let old_block = a.blocks[index as int];
    let block = Block { index, kind: accumulate::extended(old_block.kind, e) };
    lemma_last_block(a.blocks, index as int);
    assert(s.blocks == a.blocks.update(index as int, block));
    lemma_joined_push(init, e, |x: Event| laws::thinking_delta(x));
    lemma_joined_push(init, e, |x: Event| laws::text_delta(x));
    let thinking = |x: Block| content_of_type(x, BlockType::Thinking);
    let text = |x: Block| content_of_type(x, BlockType::Text);
    assert(thinking(block) =~= thinking(old_block) + laws::thinking_delta(e));
    assert(text(block) =~= text(old_block) + laws::text_delta(e));
    if t is Thinking {
        assert forall|j: int| index < j < a.blocks.len() implies thinking(
            #[trigger] a.blocks[j],
        ).len() == 0 by {
            assert(b.open.dom().contains(index));
        }
    }
    if t is Text {
        assert forall|j: int| index < j < a.blocks.len() implies text(#[trigger] a.blocks[j]).len()
            == 0 by {
            assert(b.open.dom().contains(index));
        }
    }
    lemma_joined_update(a.blocks, index as int, block, laws::thinking_delta(e), thinking);
    lemma_joined_update(a.blocks, index as int, block, laws::text_delta(e), text);
    assert forall|k: nat| #[trigger]
        deltas_for(events, k) == deltas_for(init, k) + delta_for(e, k) by {
        lemma_joined_push(init, e, |x: Event| delta_for(x, k));
    }
    assert forall|k: nat| k >= b.started implies (#[trigger] deltas_for(events, k)).len() == 0 by {
        assert(deltas_for(init, k).len() == 0);
    }
    assert forall|k: int| 0 <= k < s.blocks.len() implies (#[trigger] s.blocks[k]).index == k
        && collected(s.blocks[k].kind) == deltas_for(events, k as nat) by {
        assert(collected(a.blocks[k].kind) == deltas_for(init, k as nat));
        if k != index {
            assert(s.blocks[k] == a.blocks[k]);
            assert(deltas_for(events, k as nat) =~= deltas_for(init, k as nat));
        } else {
            assert(collected(block.kind) =~= collected(old_block.kind) + delta_for(e, index));
        }
    }
    assert(type_of(block.kind) == type_of(old_block.kind));
    assert forall|k: nat, j: int|
        #![trigger b.open.dom().contains(k), s.blocks[j]]
        b.open.dom().contains(k) && !(b.open[k] is Tool) && k < j < s.blocks.len() implies type_of(
        s.blocks[j].kind,
    ) != b.open[k] by {
        assert(type_of(s.blocks[j].kind) == type_of(a.blocks[j].kind));
    }
    assert forall|i: int| 0 <= i < events.len() implies ((
    #[trigger] events[i]) matches Event::ToolStart { index: at, .. } ==> at < b.started
        && announced(s.blocks[at as int], events[i])) by {
        if i < init.len() {
            assert(events[i] == init[i]);
        }
    }
}

proof fn lemma_other(a: Accumulation, init: Seq<Event>, before: Board, e: Event, b: Board)
    requires
        mirrors(a, init, before),
        accumulate::add_event(a, e).blocks == a.blocks,
        e is ThinkingStop || e is TextStop || e is ToolStop || e is Finish,
        b.started == before.started,
        forall|k: nat| #[trigger]
            b.open.dom().contains(k) ==> before.open.dom().contains(k) && b.open[k]
                == before.open[k],
    ensures
        mirrors(accumulate::add_event(a, e), init.push(e), b),
{
    let events = init.push(e);
    lemma_joined_push(init, e, |x: Event| laws::thinking_delta(x));
    lemma_joined_push(init, e, |x: Event| laws::text_delta(x));
    assert(laws::thinking_text(events) =~= laws::thinking_text(init));
    assert(laws::visible_text(events) =~= laws::visible_text(init));
    assert forall|k: nat| #[trigger] deltas_for(events, k) == deltas_for(init, k) by {
        lemma_joined_push(init, e, |x: Event| delta_for(x, k));
        assert(deltas_for(events, k) =~= deltas_for(init, k));
    }
    assert forall|i: int| 0 <= i < events.len() implies ((
    #[trigger] events[i]) matches Event::ToolStart { index: at, .. } ==> at < b.started
        && announced(a.blocks[at as int], events[i])) by {
        if i < init.len() {
            assert(events[i] == init[i]);
        }
    }
}

proof fn lemma_mirrors(events: Seq<Event>)
    requires
        laws::followed(events) is Some,
    ensures
        mirrors(
            accumulate::accumulation(events),
            events,
            laws::followed(events).unwrap(),
        ),
    decreases events.len(),
{
    if events.len() > 0 {
        let init = events.drop_last();
        let e = events.last();
        lemma_mirrors(init);
        let a = accumulate::accumulation(init);
        let before = laws::followed(init).unwrap();
        let b = laws::followed(events).unwrap();
        assert(events == init.push(e));
        let empty = accumulate::no_text();
        match e {
            Event::ThinkingStart { index } => lemma_start(
                a,
                init,
                before,
                e,
                index,
                BlockType::Thinking,
                Kind::Thinking { text: empty },
            ),
            Event::TextStart { index } => lemma_start(
                a,
                init,
                before,
                e,
                index,
                BlockType::Text,
                Kind::Text { text: empty },
            ),
            Event::ToolStart { index, id, name } => lemma_start(
                a,
                init,
                before,
                e,
                index,
                BlockType::Tool,
                Kind::Tool { id, name, args: empty },
            ),
            Event::ThinkingDelta { index, .. } => lemma_delta(
                a,
                init,
                before,
                e,
                index,
                BlockType::Thinking,
            ),
            Event::TextDelta { index, .. } => lemma_delta(
                a,
                init,
                before,
                e,
                index,
                BlockType::Text,
            ),
            Event::ToolDelta { index, .. } => lemma_delta(
                a,
                init,
                before,
                e,
                index,
                BlockType::Tool,
            ),
            _ => lemma_other(a, init, before, e, b),
        }
    }
}

/// The blocks of events that can be followed are those that the events started, numbered from 0,
/// each with all the content that the events gave it and no other.
pub proof fn law_blocks_collect_their_deltas(events: Seq<Event>)
    requires
        laws::followed(events) is Some,
    ensures
        ({
            let blocks = accumulate::accumulation(events).blocks;
            &&& blocks.len() == laws::followed(events).unwrap().started
            &&& forall|k: int|
                0 <= k < blocks.len() ==> (#[trigger] blocks[k]).index == k && collected(
                    blocks[k].kind,
                ) == deltas_for(events, k as nat)
        }),
{
    lemma_mirrors(events);
}

/// The blocks of a message hold, joined, exactly the reasoning and the text of the chunks.
pub proof fn law_message_keeps_texts(chunks: Seq<chunk::Chunk>)
    ensures
        ({
            let a = accumulate::accumulation(reducer::finished(reducer::reduction(chunks)));
            &&& thinking_in(a.blocks) == laws::joined(
                chunks,
                |c: chunk::Chunk| laws::reasoning_in(c),
            )
            &&& text_in(a.blocks) == laws::joined(chunks, |c: chunk::Chunk| laws::content_in(c))
        }),
{
    laws::law_events_can_be_followed(chunks);
    laws::law_texts_are_kept(chunks);
    lemma_mirrors(reducer::finished(reducer::reduction(chunks)));
}

/// A message pairs every tool call with its own arguments: the call's block has the id and the
/// name of the opening fragment and the arguments of the call's own fragments.
pub proof fn law_message_pairs_tool_calls(chunks: Seq<chunk::Chunk>, upstream: nat)
    requires
        laws::opening(laws::fragments(chunks), upstream) is Some,
    ensures
        ({
            let r = reducer::reduction(chunks);
            let call = laws::opening(laws::fragments(chunks), upstream).unwrap();
            let blocks = accumulate::accumulation(reducer::finished(r)).blocks;
            reducer::block_of(r.slots, upstream) matches Some(block) && block < blocks.len()
                && blocks[block as int] == (Block {
                index: block,
                kind: Kind::Tool {
                    id: laws::or_empty(call.id),
                    name: laws::name_text(call),
                    args: laws::call_text(laws::fragments(chunks), upstream),
                },
            })
        }),
{
    let r = reducer::reduction(chunks);
    let events = reducer::finished(r);
    let call = laws::opening(laws::fragments(chunks), upstream).unwrap();
    laws::law_events_can_be_followed(chunks);
    laws::law_tool_calls_are_kept(chunks, upstream);
    lemma_mirrors(events);
    let block = reducer::block_of(r.slots, upstream).unwrap();
    let i = events.index_of(laws::tool_start(block, call));
    assert(events[i] == laws::tool_start(block, call));
    let blocks = accumulate::accumulation(events).blocks;
    assert(announced(blocks[block as int], events[i]));
    assert(collected(blocks[block as int].kind) == deltas_for(events, block));
    lemma_only_tool_deltas(events, block, i);
}

/// The content of a block that a tool start announced is that of the tool deltas.
proof fn lemma_only_tool_deltas(events: Seq<Event>, block: nat, i: int)
    requires
        laws::followed(events) is Some,
        0 <= i < events.len(),
        events[i] matches Event::ToolStart { index, .. } && index == block,
    ensures
        deltas_for(events, block) == laws::tool_arguments(events, block),
    decreases events.len(),
{
    let init = events.drop_last();
    let e = events.last();
    assert(events == init.push(e));
    lemma_joined_push(init, e, |x: Event| delta_for(x, block));
    lemma_joined_push(init, e, |x: Event| laws::tool_delta(x, block));
    lemma_mirrors(init);
    let before = laws::followed(init).unwrap();
    if i < init.len() {
        assert(init[i] == events[i]);
        lemma_only_tool_deltas(init, block, i);
        assert(delta_for(e, block) =~= laws::tool_delta(e, block));
    } else {
        assert(deltas_for(init, block).len() == 0);
        lemma_no_arguments(init, block);
        assert(deltas_for(init, block) =~= laws::tool_arguments(init, block));
        assert(delta_for(e, block) =~= laws::tool_delta(e, block));
    }
}

proof fn lemma_no_arguments(events: Seq<Event>, block: nat)
    requires
        deltas_for(events, block).len() == 0,
    ensures
        laws::tool_arguments(events, block).len() == 0,
    decreases events.len(),
{
    if events.len() > 0 {
        let init = events.drop_last();
        let e = events.last();
        assert(events == init.push(e));
        lemma_joined_push(init, e, |x: Event| delta_for(x, block));
        lemma_joined_push(init, e, |x: Event| laws::tool_delta(x, block));
        lemma_no_arguments(init, block);
    }
}

/// The block that a tool start announces has the id and the name of the start and holds the
/// arguments that the events give it.
pub proof fn lemma_announced_block(events: Seq<Event>, i: int)
    requires
        laws::followed(events) is Some,
        0 <= i < events.len(),
        events[i] is ToolStart,
    ensures
        ({
            let blocks = accumulate::accumulation(events).blocks;
            let index = events[i]->ToolStart_index;
            index < blocks.len() && blocks[index as int].kind == (Kind::Tool {
                id: events[i]->id,
                name: events[i]->name,
                args: laws::tool_arguments(events, index),
            })
        }),
{
    lemma_mirrors(events);
    let index = events[i]->ToolStart_index;
    let blocks = accumulate::accumulation(events).blocks;
    assert(announced(blocks[index as int], events[i]));
    lemma_only_tool_deltas(events, index, i);
    assert(collected(blocks[index as int].kind) == deltas_for(events, index));
}

/// A message always has a stop reason and a usage: those of the reduction.
pub proof fn law_message_is_finished(chunks: Seq<chunk::Chunk>)
    ensures
        ({
            let r = reducer::reduction(chunks);
            let a = accumulate::accumulation(reducer::finished(r));
            &&& a.stop_reason == Some(reducer::stop_reason(r))
            &&& a.usage == Some(reducer::anthropic_usage(r.usage))
        }),
{
    let r = reducer::reduction(chunks);
    let events = reducer::finished(r);
    assert(events.last() == Event::Finish {
        stop_reason: reducer::stop_reason(r),
        usage: r.usage,
    });
}

/// Whether a block gives a content item: it is a tool call or holds some text.
pub open spec fn has_content(kind: Kind) -> bool {
    kind is Tool || collected(kind).len() > 0
}

spec fn all_filled(events: Seq<Event>) -> bool {
    let blocks = accumulate::accumulation(events).blocks;
    forall|k: int| 0 <= k < blocks.len() ==> has_content((#[trigger] blocks[k]).kind)
}

/// One more event adds to what the events before it amount to.
pub proof fn lemma_accumulation_push(events: Seq<Event>, e: Event)
    ensures
        accumulate::accumulation(events.push(e)) == accumulate::add_event(
            accumulate::accumulation(events),
            e,
        ),
{
    assert(events.push(e).drop_last() == events);
}

/// The last block with an index is one of the blocks and has that index.
pub proof fn lemma_last_block_found(blocks: Seq<Block>, index: nat)
    ensures
        accumulate::last_block(blocks, index) matches Some(k) ==> 0 <= k < blocks.len()
            && blocks[k].index == index,
    decreases blocks.len(),
{
    if blocks.len() > 0 && blocks.last().index != index {
        lemma_last_block_found(blocks.drop_last(), index);
    }
}

proof fn lemma_filled_push(events: Seq<Event>, e: Event)
    requires
        all_filled(events),
        !(e is ThinkingStart) && !(e is TextStart),
    ensures
        all_filled(events.push(e)),
{
    let before = accumulate::accumulation(events).blocks;
    let after = accumulate::accumulation(events.push(e)).blocks;
    lemma_accumulation_push(events, e);
    match e {
        Event::ThinkingDelta { index, .. } => lemma_last_block_found(before, index),
        Event::TextDelta { index, .. } => lemma_last_block_found(before, index),
        Event::ToolDelta { index, .. } => lemma_last_block_found(before, index),
        _ => {},
    }
    assert forall|k: int| 0 <= k < after.len() implies has_content((#[trigger] after[k]).kind) by {
        if k < before.len() {
            assert(has_content(before[k].kind));
        }
    }
}

/// A block that starts with some content has content.
proof fn lemma_filled_start(events: Seq<Event>, start: Event, e: Event)
    requires
        all_filled(events),
        match (start, e) {
            (Event::ThinkingStart { index }, Event::ThinkingDelta { index: i, text }) => i == index
                && text.len() > 0,
            (Event::TextStart { index }, Event::TextDelta { index: i, text }) => i == index
                && text.len() > 0,
            _ => false,
        },
    ensures
        all_filled(events.push(start).push(e)),
{
    let before = accumulate::accumulation(events).blocks;
    let after = accumulate::accumulation(events.push(start).push(e)).blocks;
    lemma_accumulation_push(events, start);
    lemma_accumulation_push(events.push(start), e);
    assert(accumulate::accumulation(events.push(start)).blocks.len() == before.len() + 1);
    assert forall|k: int| 0 <= k < after.len() implies has_content((#[trigger] after[k]).kind) by {
        if k < before.len() {
            assert(after[k] == before[k]);
        }
    }
}

proof fn lemma_filled_fragments(r: Reduction, calls: Seq<chunk::ToolCall>)
    requires
        all_filled(r.events),
    ensures
        all_filled(reducer::add_fragments(r, calls).events),
    decreases calls.len(),
{
    if calls.len() > 0 {
        let call = calls.last();
        lemma_filled_fragments(r, calls.drop_last());
        let s = reducer::add_fragments(r, calls.drop_last());
        let m = reducer::start_tool(s, call);
        if m.events.len() > s.events.len() {
            lemma_filled_push(s.events, m.events.last());
            assert(m.events == s.events.push(m.events.last()));
        }
        let n = reducer::add_tool_call(s, call);
        if n.events.len() > m.events.len() {
            lemma_filled_push(m.events, n.events.last());
            assert(n.events == m.events.push(n.events.last()));
        }
    }
}

proof fn lemma_filled_stops(r: Reduction)
    requires
        all_filled(r.events),
    ensures
        all_filled(reducer::stop_thinking(r).events),
        all_filled(reducer::stop_text(r).events),
{
    if let Some(index) = r.thinking {
        lemma_filled_push(r.events, Event::ThinkingStop { index });
    }
    if let Some(index) = r.text {
        lemma_filled_push(r.events, Event::TextStop { index });
    }
}

proof fn lemma_filled_delta(r: Reduction, d: chunk::Delta)
    requires
        all_filled(r.events),
    ensures
        all_filled(reducer::add_delta(r, d).events),
{
    let a = reducer::add_reasoning(r, d.reasoning_content);
    if let Some(text) = reducer::nonempty(d.reasoning_content) {
        match r.thinking {
            Some(index) => lemma_filled_push(r.events, Event::ThinkingDelta { index, text }),
            None => lemma_filled_start(
                r.events,
                Event::ThinkingStart { index: r.next },
                Event::ThinkingDelta { index: r.next, text },
            ),
        }
    }
    let b = reducer::add_content(a, d.content);
    if let Some(text) = reducer::nonempty(d.content) {
        let q = reducer::stop_thinking(a);
        lemma_filled_stops(a);
        match q.text {
            Some(index) => lemma_filled_push(q.events, Event::TextDelta { index, text }),
            None => lemma_filled_start(
                q.events,
                Event::TextStart { index: q.next },
                Event::TextDelta { index: q.next, text },
            ),
        }
    }
    if let Some(calls) = d.tool_calls {
        let q = reducer::stop_thinking(b);
        lemma_filled_stops(b);
        lemma_filled_stops(q);
        lemma_filled_fragments(reducer::stop_text(q), calls);
    }
}

proof fn lemma_filled(chunks: Seq<chunk::Chunk>)
    ensures
        all_filled(reducer::reduction(chunks).events),
    decreases chunks.len(),
{
    if chunks.len() > 0 {
        lemma_filled(chunks.drop_last());
        if let Some(d) = laws::delta_of(chunks.last()) {
            lemma_filled_delta(reducer::reduction(chunks.drop_last()), d);
        }
    }
}

proof fn lemma_filled_tool_stops(events: Seq<Event>, slots: Seq<Slot>)
    requires
        all_filled(events),
    ensures
        all_filled(events + reducer::tool_stops(slots)),
    decreases slots.len(),
{
    let stops = reducer::tool_stops(slots);
    if slots.len() == 0 {
        assert(events + stops == events);
    } else {
        let init = slots.drop_last();
        lemma_filled_tool_stops(events, init);
        lemma_filled_push(events + reducer::tool_stops(init), stops.last());
        assert((events + reducer::tool_stops(init)).push(stops.last()) == events + stops);
    }
}

proof fn lemma_content_of_filled(blocks: Seq<Block>, signatures: Seq<Seq<char>>)
    requires
        forall|k: int| 0 <= k < blocks.len() ==> has_content((#[trigger] blocks[k]).kind),
    ensures
        accumulate::content(blocks, signatures).len() == blocks.len(),
        forall|k: int|
            0 <= k < blocks.len() ==> accumulate::content_item(
                (#[trigger] blocks[k]).kind,
                signatures[k],
            ) == Some(accumulate::content(blocks, signatures)[k]),
    decreases blocks.len(),
{
    if blocks.len() > 0 {
        let init = blocks.drop_last();
        assert(forall|k: int| 0 <= k < init.len() ==> #[trigger] init[k] == blocks[k]);
        lemma_content_of_filled(init, signatures);
        assert(has_content(blocks[blocks.len() - 1].kind));
        assert forall|k: int| 0 <= k < blocks.len() implies accumulate::content_item(
            (#[trigger] blocks[k]).kind,
            signatures[k],
        ) == Some(accumulate::content(blocks, signatures)[k]) by {
            if k < init.len() {
                assert(init[k] == blocks[k]);
            }
        }
    }
}

/// No thinking and no text in a message is empty, so that its content has one item for each block
/// that the events started, in their order.
pub proof fn law_every_block_is_an_item(chunks: Seq<chunk::Chunk>, signatures: Seq<Seq<char>>)
    ensures
        ({
            let r = reducer::reduction(chunks);
            let blocks = accumulate::accumulation(reducer::finished(r)).blocks;
            let items = accumulate::content(blocks, signatures);
            &&& items.len() == r.next
            &&& blocks.len() == r.next
            &&& forall|k: int|
                0 <= k < blocks.len() ==> has_content((#[trigger] blocks[k]).kind)
                    && accumulate::content_item(blocks[k].kind, signatures[k]) == Some(items[k])
        }),
{
    let r = reducer::reduction(chunks);
    let events = reducer::finished(r);
    lemma_filled(chunks);
    lemma_filled_stops(r);
    lemma_filled_stops(reducer::stop_thinking(r));
    let stopped = reducer::stop_text(reducer::stop_thinking(r)).events;
    lemma_filled_tool_stops(stopped, r.slots);
    lemma_filled_push(stopped + reducer::tool_stops(r.slots), events.last());
    assert((stopped + reducer::tool_stops(r.slots)).push(events.last()) == events);
    laws::law_events_can_be_followed(chunks);
    lemma_mirrors(events);
    lemma_content_of_filled(accumulate::accumulation(events).blocks, signatures);
}

} // verus!
