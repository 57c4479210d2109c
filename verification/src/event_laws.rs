//! Which events come, in which order, and which blocks they belong to.
use vstd::prelude::*;

use crate::chunk;
use crate::reducer;
use crate::reducer::{Event, Reduction, Slot, StopReason};
use crate::reducer_laws as laws;
use crate::reducer_laws::BlockType;

verus! {

/// A piece of content, apart from the block that it belongs to.
pub enum Piece {
    Thinking { text: Seq<char> },
    Text { text: Seq<char> },
    Call { id: Seq<char>, name: Seq<char> },
    Arguments { text: Seq<char> },
}

/// The piece of content in an event.
pub open spec fn piece(e: Event) -> Seq<Piece> {
    match e {
        Event::ThinkingDelta { text, .. } => seq![Piece::Thinking { text }],
        Event::TextDelta { text, .. } => seq![Piece::Text { text }],
        Event::ToolStart { id, name, .. } => seq![Piece::Call { id, name }],
        Event::ToolDelta { partial_json, .. } => seq![Piece::Arguments { text: partial_json }],
        _ => Seq::empty(),
    }
}

/// The pieces of content in events, in their order.
pub open spec fn pieces(events: Seq<Event>) -> Seq<Piece>
    decreases events.len(),
{
    if events.len() == 0 {
        Seq::empty()
    } else {
        pieces(events.drop_last()) + piece(events.last())
    }
}

/// Whether one of the fragments can open the tool call `upstream`.
pub open spec fn opened(calls: Seq<chunk::ToolCall>, upstream: nat) -> bool {
    exists|i: int|
        0 <= i < calls.len() && (#[trigger] calls[i]).index == upstream && laws::opens(calls[i])
}

/// Whether a fragment opens its tool call, behind the fragments `before`.
pub open spec fn is_opening(before: Seq<chunk::ToolCall>, call: chunk::ToolCall) -> bool {
    laws::opens(call) && !opened(before, call.index)
}

/// The pieces in a fragment behind the fragments `before`: the call, if it opens one, and the
/// arguments, if it has some and its call is open.
pub open spec fn fragment_pieces(before: Seq<chunk::ToolCall>, call: chunk::ToolCall) -> Seq<
    Piece,
> {
    let start = if is_opening(before, call) {
        seq![Piece::Call { id: laws::or_empty(call.id), name: laws::name_text(call) }]
    } else {
        Seq::empty()
    };
    let more = if laws::argument_text(call).len() > 0 && (laws::opens(call) || opened(
        before,
        call.index,
    )) {
        seq![Piece::Arguments { text: laws::argument_text(call) }]
    } else {
        Seq::empty()
    };
    start + more
}

pub open spec fn fragments_pieces(
    before: Seq<chunk::ToolCall>,
    calls: Seq<chunk::ToolCall>,
) -> Seq<Piece>
    decreases calls.len(),
{
    if calls.len() == 0 {
        Seq::empty()
    } else {
        fragments_pieces(before, calls.drop_last()) + fragment_pieces(
            before + calls.drop_last(),
            calls.last(),
        )
    }
}

/// The tool-call fragments of a delta.
pub open spec fn calls_of(d: chunk::Delta) -> Seq<chunk::ToolCall> {
    match d.tool_calls {
        Some(calls) => calls,
        None => Seq::empty(),
    }
}

/// The pieces in a delta: its reasoning, its text and its fragments, in this order.
pub open spec fn delta_pieces(before: Seq<chunk::ToolCall>, d: chunk::Delta) -> Seq<Piece> {
    let reasoning = laws::or_empty(d.reasoning_content);
    let content = laws::or_empty(d.content);
    let a = if reasoning.len() > 0 {
        seq![Piece::Thinking { text: reasoning }]
    } else {
        Seq::empty()
    };
    let b = if content.len() > 0 {
        seq![Piece::Text { text: content }]
    } else {
        Seq::empty()
    };
    a + b + fragments_pieces(before, calls_of(d))
}

/// The pieces in chunks: those of the deltas of their first choices, one behind the other.
pub open spec fn chunk_pieces(chunks: Seq<chunk::Chunk>) -> Seq<Piece>
    decreases chunks.len(),
{
    if chunks.len() == 0 {
        Seq::empty()
    } else {
        chunk_pieces(chunks.drop_last()) + (match laws::delta_of(chunks.last()) {
            Some(d) => delta_pieces(laws::fragments(chunks.drop_last()), d),
            None => Seq::empty(),
        })
    }
}

/// The fragments that open tool calls, in their order.
pub open spec fn openings(calls: Seq<chunk::ToolCall>) -> Seq<chunk::ToolCall>
    decreases calls.len(),
{
    if calls.len() == 0 {
        Seq::empty()
    } else if is_opening(calls.drop_last(), calls.last()) {
        openings(calls.drop_last()).push(calls.last())
    } else {
        openings(calls.drop_last())
    }
}

/// The tool starts among events, in their order.
pub open spec fn tool_starts(events: Seq<Event>) -> Seq<Event>
    decreases events.len(),
{
    if events.len() == 0 {
        Seq::empty()
    } else if events.last() is ToolStart {
        tool_starts(events.drop_last()).push(events.last())
    } else {
        tool_starts(events.drop_last())
    }
}

/// The slots and the tool starts are those of the opening fragments.
spec fn told(r: Reduction, calls: Seq<chunk::ToolCall>) -> bool {
    let all = openings(calls);
    &&& r.slots.len() == all.len()
    &&& tool_starts(r.events).len() == all.len()
    &&& forall|k: int|
        0 <= k < all.len() ==> (#[trigger] r.slots[k]).upstream == all[k].index && tool_starts(
            r.events,
        )[k] == laws::tool_start(r.slots[k].block, all[k])
}

proof fn lemma_push(events: Seq<Event>, e: Event)
    ensures
        pieces(events.push(e)) == pieces(events) + piece(e),
        tool_starts(events.push(e)) == (if e is ToolStart {
            tool_starts(events).push(e)
        } else {
            tool_starts(events)
        }),
{
    assert(events.push(e).drop_last() == events);
}

proof fn lemma_openings(calls: Seq<chunk::ToolCall>, upstream: nat)
    ensures
        opened(calls, upstream) <==> exists|k: int|
            0 <= k < openings(calls).len() && (#[trigger] openings(calls)[k]).index == upstream,
    decreases calls.len(),
{
    if calls.len() > 0 {
        let init = calls.drop_last();
        let last = calls.last();
        let all = openings(calls);
        lemma_openings(init, upstream);
        lemma_openings(init, last.index);
        lemma_opened_push(init, last, upstream);
        assert(init.push(last) == calls);
        if opened(init, upstream) {
            let k = choose|k: int|
                0 <= k < openings(init).len() && (#[trigger] openings(init)[k]).index == upstream;
            assert(all[k].index == upstream);
        }
        if is_opening(init, last) {
            assert(all[all.len() - 1] == last);
        }
        if exists|k: int| 0 <= k < all.len() && (#[trigger] all[k]).index == upstream {
            let k = choose|k: int| 0 <= k < all.len() && (#[trigger] all[k]).index == upstream;
            if k < openings(init).len() {
                assert(openings(init)[k].index == upstream);
            }
        }
    }
}

proof fn lemma_opened_push(before: Seq<chunk::ToolCall>, call: chunk::ToolCall, upstream: nat)
    ensures
        opened(before.push(call), upstream) <==> opened(before, upstream) || (call.index == upstream
            && laws::opens(call)),
{
    let more = before.push(call);
    if opened(before, upstream) {
        let i = choose|i: int|
            0 <= i < before.len() && (#[trigger] before[i]).index == upstream && laws::opens(
                before[i],
            );
        assert(more[i] == before[i]);
    }
    if opened(more, upstream) {
        let i = choose|i: int|
            0 <= i < more.len() && (#[trigger] more[i]).index == upstream && laws::opens(more[i]);
        if i < before.len() {
            assert(before[i] == more[i]);
        }
    }
    assert(more[before.len() as int] == call);
}

/// A tool call has a block exactly if it is open.
proof fn lemma_told_blocks(r: Reduction, calls: Seq<chunk::ToolCall>, upstream: nat)
    requires
        told(r, calls),
    ensures
        reducer::block_of(r.slots, upstream) is Some <==> opened(calls, upstream),
{
    lemma_openings(calls, upstream);
    laws::lemma_block_of(r.slots, upstream);
    let all = openings(calls);
    if opened(calls, upstream) {
        let k = choose|k: int| 0 <= k < all.len() && (#[trigger] all[k]).index == upstream;
        assert(r.slots[k].upstream == upstream);
    }
    if let Some(block) = reducer::block_of(r.slots, upstream) {
        let k = choose|k: int|
            0 <= k < r.slots.len() && (#[trigger] r.slots[k]).upstream == upstream
                && r.slots[k].block == block;
        assert(all[k].index == upstream);
    }
}

proof fn lemma_told_push(r: Reduction, s: Reduction, calls: Seq<chunk::ToolCall>, e: Event)
    requires
        told(r, calls),
        s.slots == r.slots,
        s.events == r.events.push(e),
        !(e is ToolStart),
    ensures
        told(s, calls),
        pieces(s.events) == pieces(r.events) + piece(e),
{
    lemma_push(r.events, e);
}

proof fn lemma_told_stops(r: Reduction, calls: Seq<chunk::ToolCall>)
    requires
        told(r, calls),
    ensures
        told(reducer::stop_thinking(r), calls),
        pieces(reducer::stop_thinking(r).events) == pieces(r.events),
        told(reducer::stop_text(r), calls),
        pieces(reducer::stop_text(r).events) == pieces(r.events),
{
    if let Some(index) = r.thinking {
        lemma_told_push(r, reducer::stop_thinking(r), calls, Event::ThinkingStop { index });
        assert(pieces(r.events) + Seq::<Piece>::empty() == pieces(r.events));
    }
    if let Some(index) = r.text {
        lemma_told_push(r, reducer::stop_text(r), calls, Event::TextStop { index });
        assert(pieces(r.events) + Seq::<Piece>::empty() == pieces(r.events));
    }
}

proof fn lemma_told_call(r: Reduction, before: Seq<chunk::ToolCall>, call: chunk::ToolCall)
    requires
        told(r, before),
    ensures
        told(reducer::add_tool_call(r, call), before.push(call)),
        pieces(reducer::add_tool_call(r, call).events) == pieces(r.events) + fragment_pieces(
            before,
            call,
        ),
{
    let m = reducer::start_tool(r, call);
    let s = reducer::add_tool_call(r, call);
    let more = before.push(call);
    let none = Seq::<Piece>::empty();
    assert(more.drop_last() == before);
    lemma_told_blocks(r, before, call.index);
    lemma_opened_push(before, call, call.index);
    if is_opening(before, call) {
        let e = laws::tool_start(r.next, call);
        let slot = Slot { upstream: call.index, block: r.next };
        assert(m.events == r.events.push(e));
        assert(m.slots == r.slots.push(slot));
        lemma_push(r.events, e);
        let all = openings(more);
        assert(all == openings(before).push(call));
        assert forall|k: int| 0 <= k < all.len() implies (#[trigger] m.slots[k]).upstream
            == all[k].index && tool_starts(m.events)[k] == laws::tool_start(
            m.slots[k].block,
            all[k],
        ) by {
            if k < openings(before).len() {
                assert(m.slots[k] == r.slots[k]);
            }
        }
    } else {
        assert(m == r);
        assert(pieces(r.events) + none == pieces(r.events));
    }
    assert(told(m, more));
    lemma_told_blocks(m, more, call.index);
    match (reducer::block_of(m.slots, call.index), reducer::nonempty(
        reducer::call_arguments(call),
    )) {
        (Some(index), Some(partial_json)) => {
            lemma_told_push(m, s, more, Event::ToolDelta { index, partial_json });
        },
        _ => {
            assert(pieces(m.events) + none == pieces(m.events));
        },
    }
    assert(pieces(s.events) =~= pieces(r.events) + fragment_pieces(before, call));
}

proof fn lemma_told_fragments(
    r: Reduction,
    before: Seq<chunk::ToolCall>,
    calls: Seq<chunk::ToolCall>,
)
    requires
        told(r, before),
    ensures
        told(reducer::add_fragments(r, calls), before + calls),
        pieces(reducer::add_fragments(r, calls).events) == pieces(r.events) + fragments_pieces(
            before,
            calls,
        ),
    decreases calls.len(),
{
    if calls.len() == 0 {
        assert(before + calls == before);
        assert(pieces(r.events) + Seq::<Piece>::empty() == pieces(r.events));
    } else {
        let init = calls.drop_last();
        lemma_told_fragments(r, before, init);
        let s = reducer::add_fragments(r, init);
        lemma_told_call(s, before + init, calls.last());
        assert((before + init).push(calls.last()) == before + calls);
        assert(pieces(r.events) + fragments_pieces(before, init) + fragment_pieces(
            before + init,
            calls.last(),
        ) =~= pieces(r.events) + fragments_pieces(before, calls));
    }
}

proof fn lemma_told_delta(r: Reduction, before: Seq<chunk::ToolCall>, d: chunk::Delta)
    requires
        told(r, before),
    ensures
        told(reducer::add_delta(r, d), before + calls_of(d)),
        pieces(reducer::add_delta(r, d).events) == pieces(r.events) + delta_pieces(before, d),
{
    let none = Seq::<Piece>::empty();
    let a = reducer::add_reasoning(r, d.reasoning_content);
    if let Some(text) = reducer::nonempty(d.reasoning_content) {
        let s = reducer::start_thinking(r);
        if r.thinking is None {
            lemma_told_push(r, s, before, Event::ThinkingStart { index: r.next });
            assert(pieces(r.events) + none == pieces(r.events));
        }
        lemma_told_push(
            s,
            a,
            before,
            Event::ThinkingDelta { index: s.thinking.unwrap(), text },
        );
    }
    let b = reducer::add_content(a, d.content);
    if let Some(text) = reducer::nonempty(d.content) {
        let q = reducer::stop_thinking(a);
        lemma_told_stops(a, before);
        let s = reducer::start_text(q);
        if q.text is None {
            lemma_told_push(q, s, before, Event::TextStart { index: q.next });
            assert(pieces(q.events) + none == pieces(q.events));
        }
        lemma_told_push(s, b, before, Event::TextDelta { index: s.text.unwrap(), text });
    }
    let c = reducer::add_delta(r, d);
    if calls_of(d).len() > 0 {
        let q = reducer::stop_thinking(b);
        lemma_told_stops(b, before);
        lemma_told_stops(q, before);
        lemma_told_fragments(reducer::stop_text(q), before, calls_of(d));
    } else {
        assert(before + calls_of(d) == before);
    }
    assert(pieces(c.events) =~= pieces(r.events) + delta_pieces(before, d));
}

proof fn lemma_told(chunks: Seq<chunk::Chunk>)
    ensures
        told(reducer::reduction(chunks), laws::fragments(chunks)),
        pieces(reducer::reduction(chunks).events) == chunk_pieces(chunks),
    decreases chunks.len(),
{
    if chunks.len() > 0 {
        let init = chunks.drop_last();
        let before = laws::fragments(init);
        lemma_told(init);
        match laws::delta_of(chunks.last()) {
            Some(d) => {
                lemma_told_delta(reducer::reduction(init), before, d);
                assert(laws::fragments_in(chunks.last()) == calls_of(d));
            },
            None => {
                assert(before + Seq::<chunk::ToolCall>::empty() == before);
                assert(chunk_pieces(init) + Seq::<Piece>::empty() == chunk_pieces(init));
            },
        }
    }
}

/// Stops and the finish carry no content and start no tool call.
proof fn lemma_told_finished(r: Reduction)
    ensures
        pieces(reducer::finished(r)) == pieces(r.events),
        tool_starts(reducer::finished(r)) == tool_starts(r.events),
{
    let none = Seq::<Piece>::empty();
    let q = reducer::stop_thinking(r);
    if let Some(index) = r.thinking {
        lemma_push(r.events, Event::ThinkingStop { index });
        assert(pieces(r.events) + none == pieces(r.events));
    }
    let s = reducer::stop_text(q);
    if let Some(index) = q.text {
        lemma_push(q.events, Event::TextStop { index });
        assert(pieces(q.events) + none == pieces(q.events));
    }
    lemma_told_tool_stops(s.events, r.slots);
    let before = s.events + reducer::tool_stops(r.slots);
    let e = Event::Finish { stop_reason: reducer::stop_reason(r), usage: r.usage };
    lemma_push(before, e);
    assert(reducer::finished(r) == before.push(e));
    assert(pieces(before) + none == pieces(before));
}

proof fn lemma_told_tool_stops(events: Seq<Event>, slots: Seq<Slot>)
    ensures
        pieces(events + reducer::tool_stops(slots)) == pieces(events),
        tool_starts(events + reducer::tool_stops(slots)) == tool_starts(events),
    decreases slots.len(),
{
    let stops = reducer::tool_stops(slots);
    if slots.len() == 0 {
        assert(events + stops == events);
    } else {
        let init = reducer::tool_stops(slots.drop_last());
        lemma_told_tool_stops(events, slots.drop_last());
        assert(stops.last() == Event::ToolStop { index: slots.last().block });
        assert((events + init).push(stops.last()) == events + stops);
        lemma_push(events + init, stops.last());
        assert(pieces(events + init) + Seq::<Piece>::empty() == pieces(events + init));
    }
}

/// The events carry the content of the chunks piece by piece: every reasoning, every text, every
/// tool call with its id and name and every part of its arguments, each as the upstream sent it,
/// in the order in which the upstream sent them, and nothing else. Which finish reason or usage a
/// chunk has does not matter, and neither do choices other than the first.
pub proof fn law_content_comes_in_order(chunks: Seq<chunk::Chunk>)
    ensures
        pieces(reducer::finished(reducer::reduction(chunks))) == chunk_pieces(chunks),
{
    lemma_told(chunks);
    lemma_told_finished(reducer::reduction(chunks));
}

/// The tool starts are those of the fragments that open tool calls, in their order, each with the
/// id and the name of its fragment, and the block that a tool start announces gets the arguments
/// of its own call.
pub proof fn law_tool_starts_are_the_openings(chunks: Seq<chunk::Chunk>)
    ensures
        ({
            let events = reducer::finished(reducer::reduction(chunks));
            let calls = laws::fragments(chunks);
            let starts = tool_starts(events);
            let all = openings(calls);
            &&& starts.len() == all.len()
            &&& forall|k: int|
                0 <= k < all.len() ==> {
                    &&& (#[trigger] starts[k]) matches Event::ToolStart { index, id, name }
                    &&& id == laws::or_empty(all[k].id)
                    &&& name == laws::name_text(all[k])
                    &&& laws::tool_arguments(events, index) == laws::call_text(calls, all[k].index)
                }
        }),
{
    let r = reducer::reduction(chunks);
    let events = reducer::finished(r);
    let calls = laws::fragments(chunks);
    let all = openings(calls);
    lemma_told(chunks);
    lemma_told_finished(r);
    laws::lemma_reduction(chunks);
    laws::lemma_finished(r);
    assert forall|k: int| 0 <= k < all.len() implies {
        &&& (#[trigger] tool_starts(events)[k]) matches Event::ToolStart { index, id, name }
        &&& id == laws::or_empty(all[k].id)
        &&& name == laws::name_text(all[k])
        &&& laws::tool_arguments(events, index) == laws::call_text(calls, all[k].index)
    } by {
        let slot = r.slots[k];
        assert(tool_starts(events)[k] == laws::tool_start(slot.block, all[k]));
        laws::lemma_block_of(r.slots, slot.upstream);
        let block = reducer::block_of(r.slots, slot.upstream).unwrap();
        let j = choose|j: int|
            0 <= j < r.slots.len() && (#[trigger] r.slots[j]).upstream == slot.upstream
                && r.slots[j].block == block;
        assert(j == k);
    }
}

/// Whether an event starts a thinking block or a text block.
pub open spec fn is_start(e: Event) -> bool {
    e is ThinkingStart || e is TextStart
}

/// Whether an event is content of the block that another one starts.
pub open spec fn fills(start: Event, e: Event) -> bool {
    match (start, e) {
        (Event::ThinkingStart { index }, Event::ThinkingDelta { index: k, .. }) => k == index,
        (Event::TextStart { index }, Event::TextDelta { index: k, .. }) => k == index,
        _ => false,
    }
}

/// Whether each start is followed by content of its block.
pub open spec fn filled_starts(events: Seq<Event>) -> bool {
    forall|i: int|
        0 <= i < events.len() && is_start(#[trigger] events[i]) ==> i + 1 < events.len() && fills(
            events[i],
            events[i + 1],
        )
}

proof fn lemma_filled_push(events: Seq<Event>, e: Event)
    requires
        filled_starts(events),
        !is_start(e),
    ensures
        filled_starts(events.push(e)),
{
    let more = events.push(e);
    assert forall|i: int| 0 <= i < more.len() && is_start(#[trigger] more[i]) implies i + 1
        < more.len() && fills(more[i], more[i + 1]) by {
        if i < events.len() {
            assert(more[i] == events[i]);
            if i + 1 < events.len() {
                assert(more[i + 1] == events[i + 1]);
            }
        }
    }
}

proof fn lemma_filled_start(events: Seq<Event>, start: Event, e: Event)
    requires
        filled_starts(events),
        fills(start, e),
    ensures
        filled_starts(events.push(start).push(e)),
{
    let more = events.push(start).push(e);
    assert forall|i: int| 0 <= i < more.len() && is_start(#[trigger] more[i]) implies i + 1
        < more.len() && fills(more[i], more[i + 1]) by {
        if i < events.len() {
            assert(more[i] == events[i]);
            if i + 1 < events.len() {
                assert(more[i + 1] == events[i + 1]);
            }
        } else if i == events.len() {
            assert(more[i] == start);
            assert(more[i + 1] == e);
        }
    }
}

/// What a chunk with the delta `d` may add to the events, where `thinking` and `text` say whether
/// a thinking block and a text block are open.
pub open spec fn may_add(d: chunk::Delta, thinking: bool, text: bool, e: Event) -> bool {
    let reasons = laws::or_empty(d.reasoning_content).len() > 0;
    let speaks = laws::or_empty(d.content).len() > 0;
    let calls = calls_of(d).len() > 0;
    match e {
        Event::ThinkingStart { .. } => reasons && !thinking,
        Event::ThinkingDelta { .. } => reasons,
        Event::ThinkingStop { .. } => speaks || calls,
        Event::TextStart { .. } => speaks && !text,
        Event::TextDelta { .. } => speaks,
        Event::TextStop { .. } => calls,
        Event::ToolStart { .. } => calls,
        Event::ToolDelta { .. } => calls,
        Event::ToolStop { .. } => false,
        Event::Finish { .. } => false,
    }
}

/// `s` goes on from `r` with events that `d` may add, and its starts are filled.
spec fn goes_on(r: Reduction, s: Reduction, d: chunk::Delta, thinking: bool, text: bool) -> bool {
    &&& r.events.is_prefix_of(s.events)
    &&& filled_starts(s.events)
    &&& forall|i: int|
        r.events.len() <= i < s.events.len() ==> may_add(d, thinking, text, #[trigger] s.events[i])
}

proof fn lemma_goes_on_push(
    r: Reduction,
    s: Reduction,
    n: Reduction,
    d: chunk::Delta,
    thinking: bool,
    text: bool,
    e: Event,
)
    requires
        goes_on(r, s, d, thinking, text),
        n.events == s.events.push(e),
        may_add(d, thinking, text, e),
        !is_start(e),
    ensures
        goes_on(r, n, d, thinking, text),
{
    lemma_filled_push(s.events, e);
    assert forall|i: int| r.events.len() <= i < n.events.len() implies may_add(
        d,
        thinking,
        text,
        #[trigger] n.events[i],
    ) by {
        if i < s.events.len() {
            assert(n.events[i] == s.events[i]);
        }
    }
}

proof fn lemma_goes_on_start(
    r: Reduction,
    s: Reduction,
    n: Reduction,
    d: chunk::Delta,
    thinking: bool,
    text: bool,
    start: Event,
    e: Event,
)
    requires
        goes_on(r, s, d, thinking, text),
        n.events == s.events.push(start).push(e),
        may_add(d, thinking, text, start),
        may_add(d, thinking, text, e),
        fills(start, e),
    ensures
        goes_on(r, n, d, thinking, text),
{
    lemma_filled_start(s.events, start, e);
    assert forall|i: int| r.events.len() <= i < n.events.len() implies may_add(
        d,
        thinking,
        text,
        #[trigger] n.events[i],
    ) by {
        if i < s.events.len() {
            assert(n.events[i] == s.events[i]);
        } else if i == s.events.len() {
            assert(n.events[i] == start);
        } else {
            assert(n.events[i] == e);
        }
    }
}

proof fn lemma_goes_on_fragments(
    r: Reduction,
    s: Reduction,
    d: chunk::Delta,
    thinking: bool,
    text: bool,
    calls: Seq<chunk::ToolCall>,
)
    requires
        goes_on(r, s, d, thinking, text),
        calls_of(d).len() > 0,
    ensures
        goes_on(r, reducer::add_fragments(s, calls), d, thinking, text),
        reducer::add_fragments(s, calls).thinking == s.thinking,
        reducer::add_fragments(s, calls).text == s.text,
    decreases calls.len(),
{
    if calls.len() > 0 {
        let call = calls.last();
        lemma_goes_on_fragments(r, s, d, thinking, text, calls.drop_last());
        let a = reducer::add_fragments(s, calls.drop_last());
        let m = reducer::start_tool(a, call);
        if m.events.len() > a.events.len() {
            lemma_goes_on_push(r, a, m, d, thinking, text, m.events.last());
        }
        let n = reducer::add_tool_call(a, call);
        if n.events.len() > m.events.len() {
            lemma_goes_on_push(r, m, n, d, thinking, text, n.events.last());
        }
    }
}

proof fn lemma_goes_on(r: Reduction, d: chunk::Delta)
    requires
        filled_starts(r.events),
    ensures
        ({
            let s = reducer::add_delta(r, d);
            let reasons = laws::or_empty(d.reasoning_content).len() > 0;
            let speaks = laws::or_empty(d.content).len() > 0;
            let calls = calls_of(d).len() > 0;
            &&& goes_on(r, s, d, r.thinking is Some, r.text is Some)
            &&& s.thinking is Some <==> (reasons || r.thinking is Some) && !speaks && !calls
            &&& s.text is Some <==> (speaks || r.text is Some) && !calls
        }),
{
    let t = r.thinking is Some;
    let x = r.text is Some;
    let a = reducer::add_reasoning(r, d.reasoning_content);
    assert(goes_on(r, r, d, t, x));
    if let Some(text) = reducer::nonempty(d.reasoning_content) {
        match r.thinking {
            Some(index) => lemma_goes_on_push(
                r,
                r,
                a,
                d,
                t,
                x,
                Event::ThinkingDelta { index, text },
            ),
            None => lemma_goes_on_start(
                r,
                r,
                a,
                d,
                t,
                x,
                Event::ThinkingStart { index: r.next },
                Event::ThinkingDelta { index: r.next, text },
            ),
        }
    }
    let b = reducer::add_content(a, d.content);
    if let Some(text) = reducer::nonempty(d.content) {
        let q = reducer::stop_thinking(a);
        if let Some(index) = a.thinking {
            lemma_goes_on_push(r, a, q, d, t, x, Event::ThinkingStop { index });
        }
        match q.text {
            Some(index) => lemma_goes_on_push(r, q, b, d, t, x, Event::TextDelta { index, text }),
            None => lemma_goes_on_start(
                r,
                q,
                b,
                d,
                t,
                x,
                Event::TextStart { index: q.next },
                Event::TextDelta { index: q.next, text },
            ),
        }
    }
    if calls_of(d).len() > 0 {
        let q = reducer::stop_thinking(b);
        if let Some(index) = b.thinking {
            lemma_goes_on_push(r, b, q, d, t, x, Event::ThinkingStop { index });
        }
        let s = reducer::stop_text(q);
        if let Some(index) = q.text {
            lemma_goes_on_push(r, q, s, d, t, x, Event::TextStop { index });
        }
        lemma_goes_on_fragments(r, s, d, t, x, calls_of(d));
    }
}

proof fn lemma_filled(chunks: Seq<chunk::Chunk>)
    ensures
        filled_starts(reducer::reduction(chunks).events),
    decreases chunks.len(),
{
    if chunks.len() > 0 {
        lemma_filled(chunks.drop_last());
        if let Some(d) = laws::delta_of(chunks.last()) {
            lemma_goes_on(reducer::reduction(chunks.drop_last()), d);
        }
    }
}

proof fn lemma_open(r: Reduction)
    requires
        laws::consistent(r),
    ensures
        ({
            let b = laws::followed(r.events).unwrap();
            &&& laws::is_open(b, BlockType::Thinking) <==> r.thinking is Some
            &&& laws::is_open(b, BlockType::Text) <==> r.text is Some
        }),
{
    let b = laws::followed(r.events).unwrap();
    if let Some(i) = r.thinking {
        assert(b.open.dom().contains(i));
    }
    if let Some(i) = r.text {
        assert(b.open.dom().contains(i));
    }
}

/// One more chunk adds events and changes none. It adds none without a delta. Reasoning goes to
/// the thinking block that is open, and starts one only if none is; text goes to the text block in
/// the same way. Only text or tool calls stop the thinking block, and only tool calls stop the text
/// block. Afterwards a thinking block is open exactly if there was one or reasoning came, and
/// neither text nor tool calls did, and a text block exactly if there was one or text came, and no
/// tool calls did.
pub proof fn law_a_chunk_adds_events(chunks: Seq<chunk::Chunk>, c: chunk::Chunk)
    ensures
        ({
            let before = reducer::reduction(chunks).events;
            let after = reducer::reduction(chunks.push(c)).events;
            &&& before.is_prefix_of(after)
            &&& laws::followed(before) matches Some(was)
            &&& laws::followed(after) matches Some(is)
            &&& match laws::delta_of(c) {
                None => after == before,
                Some(d) => {
                    let reasons = laws::or_empty(d.reasoning_content).len() > 0;
                    let speaks = laws::or_empty(d.content).len() > 0;
                    let calls = calls_of(d).len() > 0;
                    let thinking = laws::is_open(was, BlockType::Thinking);
                    let text = laws::is_open(was, BlockType::Text);
                    &&& forall|i: int|
                        before.len() <= i < after.len() ==> may_add(
                            d,
                            thinking,
                            text,
                            #[trigger] after[i],
                        )
                    &&& laws::is_open(is, BlockType::Thinking) <==> (reasons || thinking) && !speaks
                        && !calls
                    &&& laws::is_open(is, BlockType::Text) <==> (speaks || text) && !calls
                },
            }
        }),
{
    let all = chunks.push(c);
    let r = reducer::reduction(chunks);
    let s = reducer::reduction(all);
    assert(all.drop_last() == chunks);
    laws::lemma_reduction(chunks);
    laws::lemma_reduction(all);
    lemma_filled(chunks);
    lemma_open(r);
    lemma_open(s);
    if let Some(d) = laws::delta_of(c) {
        lemma_goes_on(r, d);
    }
}

/// A thinking block and a text block start with content: what follows their start is a delta of
/// the same block.
pub proof fn law_starts_are_filled(chunks: Seq<chunk::Chunk>)
    ensures
        filled_starts(reducer::finished(reducer::reduction(chunks))),
{
    let r = reducer::reduction(chunks);
    lemma_filled(chunks);
    let q = reducer::stop_thinking(r);
    if let Some(index) = r.thinking {
        lemma_filled_push(r.events, Event::ThinkingStop { index });
    }
    let s = reducer::stop_text(q);
    if let Some(index) = q.text {
        lemma_filled_push(q.events, Event::TextStop { index });
    }
    lemma_filled_tool_stops(s.events, r.slots);
    lemma_filled_push(
        s.events + reducer::tool_stops(r.slots),
        Event::Finish { stop_reason: reducer::stop_reason(r), usage: r.usage },
    );
}

proof fn lemma_filled_tool_stops(events: Seq<Event>, slots: Seq<Slot>)
    requires
        filled_starts(events),
    ensures
        filled_starts(events + reducer::tool_stops(slots)),
    decreases slots.len(),
{
    let stops = reducer::tool_stops(slots);
    if slots.len() == 0 {
        assert(events + stops == events);
    } else {
        let init = reducer::tool_stops(slots.drop_last());
        lemma_filled_tool_stops(events, slots.drop_last());
        lemma_filled_push(events + init, stops.last());
        assert((events + init).push(stops.last()) == events + stops);
    }
}

/// Whether the slots fill ascending blocks.
spec fn ascending(slots: Seq<Slot>, next: nat) -> bool {
    &&& forall|i: int, j: int|
        0 <= i < j < slots.len() ==> (#[trigger] slots[i]).block < (#[trigger] slots[j]).block
    &&& forall|i: int| 0 <= i < slots.len() ==> (#[trigger] slots[i]).block < next
}

proof fn lemma_ascending_fragments(r: Reduction, calls: Seq<chunk::ToolCall>)
    requires
        ascending(r.slots, r.next),
    ensures
        ascending(reducer::add_fragments(r, calls).slots, reducer::add_fragments(r, calls).next),
    decreases calls.len(),
{
    if calls.len() > 0 {
        lemma_ascending_fragments(r, calls.drop_last());
    }
}

proof fn lemma_ascending(chunks: Seq<chunk::Chunk>)
    ensures
        ascending(reducer::reduction(chunks).slots, reducer::reduction(chunks).next),
    decreases chunks.len(),
{
    if chunks.len() > 0 {
        let r = reducer::reduction(chunks.drop_last());
        lemma_ascending(chunks.drop_last());
        if let Some(d) = laws::delta_of(chunks.last()) {
            let a = reducer::add_reasoning(r, d.reasoning_content);
            let b = reducer::add_content(a, d.content);
            assert(ascending(b.slots, b.next));
            if calls_of(d).len() > 0 {
                lemma_ascending_fragments(
                    reducer::stop_text(reducer::stop_thinking(b)),
                    calls_of(d),
                );
            }
        }
    }
}

/// Finishing adds to the events of the chunks nothing but stops and the finish. Tool blocks stop
/// last, in the order of their indexes.
pub proof fn law_finishing_stops_the_blocks(chunks: Seq<chunk::Chunk>)
    ensures
        ({
            let before = reducer::reduction(chunks).events;
            let after = reducer::finished(reducer::reduction(chunks));
            &&& before.is_prefix_of(after)
            &&& forall|i: int|
                before.len() <= i < after.len() ==> ((#[trigger] after[i]) is Finish
                    || after[i] is ThinkingStop || after[i] is TextStop || after[i] is ToolStop)
            &&& forall|i: int, j: int|
                before.len() <= i < j < after.len() && (#[trigger] after[i]) is ToolStop ==> (
                #[trigger] after[j]) is Finish || (after[j] is ToolStop && after[i]->ToolStop_index
                    < after[j]->ToolStop_index)
        }),
{
    let r = reducer::reduction(chunks);
    lemma_ascending(chunks);
    let s = reducer::stop_text(reducer::stop_thinking(r));
    let stops = reducer::tool_stops(r.slots);
    let after = reducer::finished(r);
    let n = s.events.len() as int;
    assert(r.events.is_prefix_of(s.events));
    assert forall|i: int| r.events.len() <= i < after.len() implies ((
    #[trigger] after[i]) is Finish || after[i] is ThinkingStop || after[i] is TextStop
        || after[i] is ToolStop) && (after[i] is ToolStop ==> n <= i < n + stops.len() && after[i]
        == (Event::ToolStop { index: r.slots[i - n].block })) && (n <= i < n + stops.len()
        ==> after[i] is ToolStop) && (i == n + stops.len() ==> after[i] is Finish) by {
        if i < n {
            assert(after[i] == s.events[i]);
        } else if i < n + stops.len() {
            assert(after[i] == stops[i - n]);
        }
    }
    assert(after.len() == n + stops.len() + 1);
    assert forall|i: int, j: int|
        r.events.len() <= i < j < after.len() && (#[trigger] after[i]) is ToolStop implies (
    #[trigger] after[j]) is Finish || (after[j] is ToolStop && after[i]->ToolStop_index
        < after[j]->ToolStop_index) by {
        if j < n + stops.len() {
            assert(r.slots[i - n].block < r.slots[j - n].block);
        }
    }
}

/// The stop reason follows the last finish reason that a first choice gives, alone or with a
/// delta: "length" means that the tokens ran out, "tool_calls" means tool use, and with any other
/// reason, or with none, it is tool use exactly if a tool call has started.
pub proof fn law_last_finish_reason_decides(chunks: Seq<chunk::Chunk>, i: int)
    requires
        -1 <= i < chunks.len(),
        i >= 0 ==> laws::reason_of(chunks[i]) is Some,
        forall|j: int| i < j < chunks.len() ==> laws::reason_of(#[trigger] chunks[j]) is None,
    ensures
        ({
            let events = reducer::finished(reducer::reduction(chunks));
            let reason = if i < 0 {
                None
            } else {
                laws::reason_of(chunks[i])
            };
            &&& events.len() > 0
            &&& events.last() matches Event::Finish { stop_reason, .. }
            &&& if reason == Some("length"@) {
                stop_reason == StopReason::MaxTokens
            } else if reason == Some("tool_calls"@) {
                stop_reason == StopReason::ToolUse
            } else if exists|k: int| 0 <= k < events.len() && (#[trigger] events[k]) is ToolStart {
                stop_reason == StopReason::ToolUse
            } else {
                stop_reason == StopReason::EndTurn
            }
        }),
{
    let r = reducer::reduction(chunks);
    let events = reducer::finished(r);
    lemma_last_reason(chunks, i);
    lemma_told(chunks);
    lemma_told_finished(r);
    lemma_tool_starts(events);
    assert(r.slots.len() == tool_starts(events).len());
}

proof fn lemma_last_reason(chunks: Seq<chunk::Chunk>, i: int)
    requires
        -1 <= i < chunks.len(),
        i >= 0 ==> laws::reason_of(chunks[i]) is Some,
        forall|j: int| i < j < chunks.len() ==> laws::reason_of(#[trigger] chunks[j]) is None,
    ensures
        reducer::reduction(chunks).finish_reason == (if i < 0 {
            None
        } else {
            laws::reason_of(chunks[i])
        }),
    decreases chunks.len(),
{
    if chunks.len() > 0 {
        let init = chunks.drop_last();
        assert(forall|j: int| 0 <= j < init.len() ==> #[trigger] init[j] == chunks[j]);
        let r = reducer::reduction(init);
        lemma_delta_keeps_finish(r, chunks.last());
        if i < init.len() {
            assert(laws::reason_of(chunks[chunks.len() - 1]) is None);
            assert forall|j: int| i < j < init.len() implies laws::reason_of(
                #[trigger] init[j],
            ) is None by {
                assert(init[j] == chunks[j]);
            }
            lemma_last_reason(init, i);
        }
    }
}

proof fn lemma_fragments_keep_finish(r: Reduction, calls: Seq<chunk::ToolCall>)
    ensures
        reducer::add_fragments(r, calls).finish_reason == r.finish_reason,
        reducer::add_fragments(r, calls).usage == r.usage,
    decreases calls.len(),
{
    if calls.len() > 0 {
        lemma_fragments_keep_finish(r, calls.drop_last());
    }
}

proof fn lemma_delta_keeps_finish(r: Reduction, c: chunk::Chunk)
    ensures
        laws::delta_of(c) matches Some(d) ==> reducer::add_delta(r, d).finish_reason
            == r.finish_reason && reducer::add_delta(r, d).usage == r.usage,
{
    if let Some(d) = laws::delta_of(c) {
        let a = reducer::add_reasoning(r, d.reasoning_content);
        let b = reducer::add_content(a, d.content);
        lemma_fragments_keep_finish(
            reducer::stop_text(reducer::stop_thinking(b)),
            calls_of(d),
        );
    }
}

proof fn lemma_tool_starts(events: Seq<Event>)
    ensures
        tool_starts(events).len() > 0 <==> exists|k: int|
            0 <= k < events.len() && (#[trigger] events[k]) is ToolStart,
    decreases events.len(),
{
    if events.len() > 0 {
        let init = events.drop_last();
        lemma_tool_starts(init);
        if tool_starts(init).len() > 0 {
            let k = choose|k: int| 0 <= k < init.len() && (#[trigger] init[k]) is ToolStart;
            assert(events[k] is ToolStart);
        }
        if events.last() is ToolStart {
            assert(events[events.len() - 1] is ToolStart);
        }
        if exists|k: int| 0 <= k < events.len() && (#[trigger] events[k]) is ToolStart {
            let k = choose|k: int| 0 <= k < events.len() && (#[trigger] events[k]) is ToolStart;
            if k < init.len() {
                assert(init[k] is ToolStart);
            }
        }
    }
}

/// Whether a chunk reports usage that counts: it has no choice, or its first choice has a finish
/// reason.
pub open spec fn reports_usage(c: chunk::Chunk) -> bool {
    &&& c.usage is Some
    &&& match c.choices {
        Some(choices) => choices.len() > 0 ==> choices[0].finish_reason is Some,
        None => true,
    }
}

/// The usage of a message is the last one that counts, with every count as the upstream reported
/// it. The cached tokens of the prompt details take precedence over those beside them. Without a
/// report there is none.
pub proof fn law_last_usage_counts(chunks: Seq<chunk::Chunk>, i: int)
    requires
        -1 <= i < chunks.len(),
        i >= 0 ==> reports_usage(chunks[i]),
        forall|j: int| i < j < chunks.len() ==> !reports_usage(#[trigger] chunks[j]),
    ensures
        ({
            let events = reducer::finished(reducer::reduction(chunks));
            &&& events.len() > 0
            &&& events.last() matches Event::Finish { usage, .. }
            &&& if i < 0 {
                usage is None
            } else {
                let u = chunks[i].usage.unwrap();
                let cached = match u.prompt_tokens_details {
                    Some(details) => details.cached_tokens,
                    None => None,
                };
                &&& usage matches Some(k)
                &&& k.prompt_tokens == u.prompt_tokens
                &&& k.completion_tokens == u.completion_tokens
                &&& k.total_tokens == u.total_tokens
                &&& cached is Some ==> k.cached_tokens == cached
                &&& cached is None ==> k.cached_tokens == u.cached_tokens
                &&& match u.completion_tokens_details {
                    Some(details) => k.reasoning_tokens == details.reasoning_tokens,
                    None => k.reasoning_tokens is None,
                }
            }
        }),
    decreases chunks.len(),
{
    lemma_last_usage(chunks, i);
}

proof fn lemma_last_usage(chunks: Seq<chunk::Chunk>, i: int)
    requires
        -1 <= i < chunks.len(),
        i >= 0 ==> reports_usage(chunks[i]),
        forall|j: int| i < j < chunks.len() ==> !reports_usage(#[trigger] chunks[j]),
    ensures
        reducer::reduction(chunks).usage == (if i < 0 {
            None
        } else {
            Some(reducer::kimi_usage(chunks[i].usage.unwrap()))
        }),
    decreases chunks.len(),
{
    if chunks.len() > 0 {
        let init = chunks.drop_last();
        assert(forall|j: int| 0 <= j < init.len() ==> #[trigger] init[j] == chunks[j]);
        lemma_delta_keeps_finish(reducer::reduction(init), chunks.last());
        if i < init.len() {
            assert(!reports_usage(chunks[chunks.len() - 1]));
            assert forall|j: int| i < j < init.len() implies !reports_usage(#[trigger] init[j]) by {
                assert(init[j] == chunks[j]);
            }
            lemma_last_usage(init, i);
        }
    }
}

/// A count, or 0 where there is none.
pub open spec fn or_zero(n: Option<u64>) -> int {
    match n {
        Some(n) => n as int,
        None => 0,
    }
}

/// No token is lost: the output is what the upstream counted as completion, whatever the other
/// counts are, and the prompt is split into what was read from the cache and the rest. The cached
/// tokens are never more than the upstream counted, nothing is created in the cache, and input and
/// cached tokens make up the prompt wherever the cached share is within it; beyond that nothing is
/// left to count as input. Without a report every count is 0.
pub proof fn law_no_token_is_lost(u: Option<reducer::KimiUsage>)
    ensures
        ({
            let a = reducer::anthropic_usage(u);
            let (prompt, completion, cached) = match u {
                Some(k) => (
                    or_zero(k.prompt_tokens),
                    or_zero(k.completion_tokens),
                    or_zero(k.cached_tokens),
                ),
                None => (0, 0, 0),
            };
            &&& a.output_tokens == completion
            &&& a.cache_read_input_tokens == cached
            &&& a.cache_creation_input_tokens == 0
            &&& cached <= prompt ==> a.input_tokens + a.cache_read_input_tokens == prompt
            &&& cached <= prompt ==> a.input_tokens + a.cache_read_input_tokens + a.output_tokens
                == prompt + completion
            &&& cached >= prompt ==> a.input_tokens == 0
        }),
{
}

/// More output, or a longer prompt, is reported as exactly that much more, and no other count
/// moves: counts do not influence each other.
pub proof fn law_counts_are_independent(u: reducer::KimiUsage, v: reducer::KimiUsage)
    ensures
        u.completion_tokens == v.completion_tokens ==> reducer::anthropic_usage(
            Some(u),
        ).output_tokens == reducer::anthropic_usage(Some(v)).output_tokens,
        u.cached_tokens == v.cached_tokens ==> reducer::anthropic_usage(
            Some(u),
        ).cache_read_input_tokens == reducer::anthropic_usage(Some(v)).cache_read_input_tokens,
        u.cached_tokens == v.cached_tokens && u.prompt_tokens == v.prompt_tokens
            ==> reducer::anthropic_usage(Some(u)).input_tokens == reducer::anthropic_usage(
            Some(v),
        ).input_tokens,
{
}

/// Reported usage is carried over count by count.
pub proof fn law_reported_counts_are_kept(u: chunk::StreamUsage)
    ensures
        ({
            let k = reducer::kimi_usage(u);
            let cached = match u.prompt_tokens_details {
                Some(details) => details.cached_tokens,
                None => None,
            };
            &&& k.prompt_tokens == u.prompt_tokens
            &&& k.completion_tokens == u.completion_tokens
            &&& k.total_tokens == u.total_tokens
            &&& cached is Some ==> k.cached_tokens == cached
            &&& cached is None ==> k.cached_tokens == u.cached_tokens
            &&& u.completion_tokens_details matches Some(details) ==> k.reasoning_tokens
                == details.reasoning_tokens
            &&& u.completion_tokens_details is None ==> k.reasoning_tokens is None
        }),
{
}

/// What chunks reduce to is a list of events exactly if none of them reports an error, and then
/// each event has the content of its place in the finished message. Otherwise it is the first
/// error that they report, with its message, or a general one where it has none.
pub proof fn law_result_of_a_reduction(
    chunks: Seq<chunk::Chunk>,
    r: Result<Vec<reducer::ReducerEvent>, reducer::UpstreamStreamError>,
)
    requires
        reducer::reduces_to(chunks, r),
    ensures
        r is Ok <==> forall|k: int| 0 <= k < chunks.len() ==> (#[trigger] chunks[k]).error is None,
        r matches Ok(events) ==> {
            let all = reducer::finished(reducer::reduction(chunks));
            &&& events@.len() == all.len()
            &&& forall|i: int| 0 <= i < all.len() ==> (#[trigger] events@[i])@ == all[i]
        },
        r matches Err(e) ==> {
            &&& e.kind == reducer::UpstreamErrorKind::Failed
            &&& e.retry_after_seconds is None
            &&& exists|i: int| #[trigger]
                reports_first(chunks, i) && e.message@ == (match chunks[i].error.unwrap() {
                    Some(message) => message,
                    None => "Upstream error"@,
                })
        },
{
    if forall|k: int| 0 <= k < chunks.len() ==> (#[trigger] chunks[k]).error is None {
        laws::law_no_error_without_report(chunks);
    } else {
        let i = lemma_reports_first(chunks);
        laws::law_first_error_wins(chunks, i);
    }
    if let Ok(events) = r {
        let all = reducer::finished(reducer::reduction(chunks));
        assert forall|i: int| 0 <= i < all.len() implies (#[trigger] events@[i])@ == all[i] by {
            assert(reducer::events_of(events@)[i] == events@[i]@);
        }
    }
}

/// Whether the chunk `i` is the first one that reports an error.
pub open spec fn reports_first(chunks: Seq<chunk::Chunk>, i: int) -> bool {
    &&& 0 <= i < chunks.len()
    &&& chunks[i].error is Some
    &&& forall|k: int| 0 <= k < i ==> (#[trigger] chunks[k]).error is None
}

proof fn lemma_reports_first(chunks: Seq<chunk::Chunk>) -> (i: int)
    requires
        exists|k: int| 0 <= k < chunks.len() && (#[trigger] chunks[k]).error is Some,
    ensures
        reports_first(chunks, i),
    decreases chunks.len(),
{
    let init = chunks.drop_last();
    assert(forall|k: int| 0 <= k < init.len() ==> #[trigger] init[k] == chunks[k]);
    if exists|k: int| 0 <= k < init.len() && (#[trigger] init[k]).error is Some {
        let i = lemma_reports_first(init);
        assert forall|k: int| 0 <= k < i implies (#[trigger] chunks[k]).error is None by {
            assert(init[k] == chunks[k]);
        }
        i
    } else {
        assert forall|k: int| 0 <= k < chunks.len() - 1 implies (
        #[trigger] chunks[k]).error is None by {
            assert(init[k] == chunks[k]);
        }
        chunks.len() - 1
    }
}

/// The content of an event shows each of its fields.
pub proof fn law_events_show_their_fields(e: reducer::ReducerEvent)
    ensures
        match e {
            reducer::ReducerEvent::ThinkingStart { index } => e@ == (Event::ThinkingStart {
                index: index as nat,
            }),
            reducer::ReducerEvent::ThinkingDelta { index, text } => e@ == (Event::ThinkingDelta {
                index: index as nat,
                text: text@,
            }),
            reducer::ReducerEvent::ThinkingStop { index } => e@ == (Event::ThinkingStop {
                index: index as nat,
            }),
            reducer::ReducerEvent::TextStart { index } => e@ == (Event::TextStart {
                index: index as nat,
            }),
            reducer::ReducerEvent::TextDelta { index, text } => e@ == (Event::TextDelta {
                index: index as nat,
                text: text@,
            }),
            reducer::ReducerEvent::TextStop { index } => e@ == (Event::TextStop {
                index: index as nat,
            }),
            reducer::ReducerEvent::ToolStart { index, id, name } => e@ == (Event::ToolStart {
                index: index as nat,
                id: id@,
                name: name@,
            }),
            reducer::ReducerEvent::ToolDelta { index, partial_json } => e@ == (Event::ToolDelta {
                index: index as nat,
                partial_json: partial_json@,
            }),
            reducer::ReducerEvent::ToolStop { index } => e@ == (Event::ToolStop {
                index: index as nat,
            }),
            reducer::ReducerEvent::Finish { stop_reason, usage } => e@ == (Event::Finish {
                stop_reason,
                usage,
            }),
        },
{
}

} // verus!
