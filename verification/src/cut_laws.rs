//! A message does not depend on how the upstream cuts it into chunks.
use vstd::prelude::*;

use crate::accumulate;
use crate::accumulate::{Block, Kind};
use crate::accumulate_laws;
use crate::chunk;
use crate::reducer;
use crate::reducer::{Event, Reduction, Slot};
use crate::reducer_laws as laws;

verus! {

/// Whether two optional texts, one behind the other, make up the text of a third.
pub open spec fn text_cut(
    whole: Option<Seq<char>>,
    first: Option<Seq<char>>,
    second: Option<Seq<char>>,
) -> bool {
    laws::or_empty(whole) == laws::or_empty(first) + laws::or_empty(second)
}

/// Whether a tool-call fragment is cut within its arguments. The first part has the id and the
/// name, and the second part opens no call.
pub open spec fn fragment_cut(
    whole: chunk::ToolCall,
    first: chunk::ToolCall,
    second: chunk::ToolCall,
) -> bool {
    &&& first.index == whole.index
    &&& second.index == whole.index
    &&& first.id == whole.id
    &&& laws::name_text(first) == laws::name_text(whole)
    &&& !laws::opens(second)
    &&& laws::argument_text(whole) == laws::argument_text(first) + laws::argument_text(second)
}

/// Whether a list of fragments is cut within one of them: the last of the first part and the
/// first of the second part are its two parts.
pub open spec fn fragments_cut(
    whole: Seq<chunk::ToolCall>,
    first: Seq<chunk::ToolCall>,
    second: Seq<chunk::ToolCall>,
) -> bool {
    &&& first.len() > 0
    &&& second.len() > 0
    &&& whole.len() == first.len() + second.len() - 1
    &&& whole.take(first.len() - 1) == first.drop_last()
    &&& whole.skip(first.len() as int) == second.drop_first()
    &&& fragment_cut(whole[first.len() - 1], first.last(), second[0])
}

/// Whether a delta is cut in two: within its reasoning, within its text, or within the arguments
/// of one of its tool calls. What comes before the cut is in the first part, and what comes
/// behind it is in the second.
pub open spec fn delta_cut(whole: chunk::Delta, first: chunk::Delta, second: chunk::Delta) -> bool {
    ||| {
        &&& text_cut(whole.reasoning_content, first.reasoning_content, second.reasoning_content)
        &&& first.content is None
        &&& first.tool_calls is None
        &&& second.content == whole.content
        &&& second.tool_calls == whole.tool_calls
    }
    ||| {
        &&& first.reasoning_content == whole.reasoning_content
        &&& second.reasoning_content is None
        &&& text_cut(whole.content, first.content, second.content)
        &&& first.tool_calls is None
        &&& second.tool_calls == whole.tool_calls
    }
    ||| {
        &&& first.reasoning_content == whole.reasoning_content
        &&& first.content == whole.content
        &&& second.reasoning_content is None
        &&& second.content is None
        &&& whole.tool_calls is Some
        &&& first.tool_calls is Some
        &&& second.tool_calls is Some
        &&& fragments_cut(
            whole.tool_calls.unwrap(),
            first.tool_calls.unwrap(),
            second.tool_calls.unwrap(),
        )
    }
}

/// Whether a chunk is cut in two. The finish reason, the usage and the error come with the second
/// part.
pub open spec fn chunk_cut(whole: chunk::Chunk, first: chunk::Chunk, second: chunk::Chunk) -> bool {
    match (laws::delta_of(whole), laws::delta_of(first), laws::delta_of(second)) {
        (Some(d), Some(a), Some(b)) => {
            &&& delta_cut(d, a, b)
            &&& laws::reason_of(first) is None
            &&& laws::reason_of(second) == laws::reason_of(whole)
            &&& second.usage == whole.usage
            &&& first.error is None
            &&& second.error == whole.error
        },
        _ => false,
    }
}

/// Two reductions that differ at most in events that amount to the same.
spec fn alike(r: Reduction, s: Reduction) -> bool {
    &&& s == (Reduction { events: s.events, ..r })
    &&& accumulate::accumulation(r.events) == accumulate::accumulation(s.events)
}

proof fn lemma_alike_push(r: Reduction, s: Reduction, e: Event)
    requires
        alike(r, s),
    ensures
        accumulate::accumulation(r.events.push(e)) == accumulate::accumulation(s.events.push(e)),
{
    accumulate_laws::lemma_accumulation_push(r.events, e);
    accumulate_laws::lemma_accumulation_push(s.events, e);
}

proof fn lemma_alike_stops(r: Reduction, s: Reduction)
    requires
        alike(r, s),
    ensures
        alike(reducer::stop_thinking(r), reducer::stop_thinking(s)),
        alike(reducer::stop_text(r), reducer::stop_text(s)),
{
    if let Some(index) = r.thinking {
        lemma_alike_push(r, s, Event::ThinkingStop { index });
    }
    if let Some(index) = r.text {
        lemma_alike_push(r, s, Event::TextStop { index });
    }
}

proof fn lemma_alike_reasoning(r: Reduction, s: Reduction, reasoning: Option<Seq<char>>)
    requires
        alike(r, s),
    ensures
        alike(reducer::add_reasoning(r, reasoning), reducer::add_reasoning(s, reasoning)),
{
    if let Some(text) = reducer::nonempty(reasoning) {
        if r.thinking is None {
            lemma_alike_push(r, s, Event::ThinkingStart { index: r.next });
        }
        let (a, b) = (reducer::start_thinking(r), reducer::start_thinking(s));
        lemma_alike_push(a, b, Event::ThinkingDelta { index: a.thinking.unwrap(), text });
    }
}

proof fn lemma_alike_content(r: Reduction, s: Reduction, content: Option<Seq<char>>)
    requires
        alike(r, s),
    ensures
        alike(reducer::add_content(r, content), reducer::add_content(s, content)),
{
    if let Some(text) = reducer::nonempty(content) {
        lemma_alike_stops(r, s);
        let (a, b) = (reducer::stop_thinking(r), reducer::stop_thinking(s));
        if a.text is None {
            lemma_alike_push(a, b, Event::TextStart { index: a.next });
        }
        let (a, b) = (reducer::start_text(a), reducer::start_text(b));
        lemma_alike_push(a, b, Event::TextDelta { index: a.text.unwrap(), text });
    }
}

proof fn lemma_alike_fragments(r: Reduction, s: Reduction, calls: Seq<chunk::ToolCall>)
    requires
        alike(r, s),
    ensures
        alike(reducer::add_fragments(r, calls), reducer::add_fragments(s, calls)),
    decreases calls.len(),
{
    if calls.len() > 0 {
        let init = calls.drop_last();
        let call = calls.last();
        lemma_alike_fragments(r, s, init);
        let (a, b) = (reducer::add_fragments(r, init), reducer::add_fragments(s, init));
        let (m, n) = (reducer::start_tool(a, call), reducer::start_tool(b, call));
        lemma_alike_push(a, b, m.events.last());
        assert(alike(m, n));
        lemma_alike_push(m, n, reducer::add_tool_call(a, call).events.last());
    }
}

proof fn lemma_alike_tool_calls(
    r: Reduction,
    s: Reduction,
    calls: Option<Seq<chunk::ToolCall>>,
)
    requires
        alike(r, s),
    ensures
        alike(reducer::add_tool_calls(r, calls), reducer::add_tool_calls(s, calls)),
{
    if let Some(calls) = calls {
        lemma_alike_stops(r, s);
        let (a, b) = (reducer::stop_thinking(r), reducer::stop_thinking(s));
        lemma_alike_stops(a, b);
        lemma_alike_fragments(reducer::stop_text(a), reducer::stop_text(b), calls);
    }
}

proof fn lemma_alike_chunk(r: Reduction, s: Reduction, c: chunk::Chunk)
    requires
        alike(r, s),
    ensures
        alike(reducer::add_chunk(r, c), reducer::add_chunk(s, c)),
{
    if let Some(d) = laws::delta_of(c) {
        lemma_alike_reasoning(r, s, d.reasoning_content);
        let (a, b) = (
            reducer::add_reasoning(r, d.reasoning_content),
            reducer::add_reasoning(s, d.reasoning_content),
        );
        lemma_alike_content(a, b, d.content);
        let (a, b) = (reducer::add_content(a, d.content), reducer::add_content(b, d.content));
        lemma_alike_tool_calls(a, b, d.tool_calls);
    }
}

proof fn lemma_alike_rest(
    one: Seq<chunk::Chunk>,
    two: Seq<chunk::Chunk>,
    after: Seq<chunk::Chunk>,
)
    requires
        alike(reducer::reduction(one), reducer::reduction(two)),
    ensures
        alike(reducer::reduction(one + after), reducer::reduction(two + after)),
    decreases after.len(),
{
    if after.len() == 0 {
        assert(one + after == one);
        assert(two + after == two);
    } else {
        let init = after.drop_last();
        lemma_alike_rest(one, two, init);
        assert((one + after).drop_last() == one + init);
        assert((two + after).drop_last() == two + init);
        lemma_alike_chunk(
            reducer::reduction(one + init),
            reducer::reduction(two + init),
            after.last(),
        );
    }
}

proof fn lemma_alike_tool_stops(one: Seq<Event>, two: Seq<Event>, slots: Seq<Slot>)
    requires
        accumulate::accumulation(one) == accumulate::accumulation(two),
    ensures
        accumulate::accumulation(one + reducer::tool_stops(slots)) == accumulate::accumulation(
            two + reducer::tool_stops(slots),
        ),
    decreases slots.len(),
{
    let stops = reducer::tool_stops(slots);
    if slots.len() == 0 {
        assert(one + stops == one);
        assert(two + stops == two);
    } else {
        let init = reducer::tool_stops(slots.drop_last());
        lemma_alike_tool_stops(one, two, slots.drop_last());
        accumulate_laws::lemma_accumulation_push(one + init, stops.last());
        accumulate_laws::lemma_accumulation_push(two + init, stops.last());
        assert((one + init).push(stops.last()) == one + stops);
        assert((two + init).push(stops.last()) == two + stops);
    }
}

proof fn lemma_alike_finished(r: Reduction, s: Reduction)
    requires
        alike(r, s),
    ensures
        accumulate::accumulation(reducer::finished(r)) == accumulate::accumulation(
            reducer::finished(s),
        ),
{
    lemma_alike_stops(r, s);
    let (a, b) = (reducer::stop_thinking(r), reducer::stop_thinking(s));
    lemma_alike_stops(a, b);
    let (a, b) = (reducer::stop_text(a).events, reducer::stop_text(b).events);
    let stops = reducer::tool_stops(r.slots);
    let finish = Event::Finish { stop_reason: reducer::stop_reason(r), usage: r.usage };
    lemma_alike_tool_stops(a, b, r.slots);
    accumulate_laws::lemma_accumulation_push(a + stops, finish);
    accumulate_laws::lemma_accumulation_push(b + stops, finish);
}

/// The content of an event for the block `index`, cut in two.
spec fn event_cut(whole: Event, first: Event, second: Event) -> bool {
    match (whole, first, second) {
        (
            Event::ThinkingDelta { index, text },
            Event::ThinkingDelta { index: i, text: a },
            Event::ThinkingDelta { index: j, text: b },
        ) => i == index && j == index && text == a + b,
        (
            Event::TextDelta { index, text },
            Event::TextDelta { index: i, text: a },
            Event::TextDelta { index: j, text: b },
        ) => i == index && j == index && text == a + b,
        (
            Event::ToolDelta { index, partial_json },
            Event::ToolDelta { index: i, partial_json: a },
            Event::ToolDelta { index: j, partial_json: b },
        ) => i == index && j == index && partial_json == a + b,
        _ => false,
    }
}

proof fn lemma_last_block_update(blocks: Seq<Block>, k: int, kind: Kind, index: nat)
    requires
        0 <= k < blocks.len(),
    ensures
        accumulate::last_block(
            blocks.update(k, Block { index: blocks[k].index, kind }),
            index,
        ) == accumulate::last_block(blocks, index),
    decreases blocks.len(),
{
    let changed = blocks.update(k, Block { index: blocks[k].index, kind });
    assert(changed.last().index == blocks.last().index);
    if blocks.last().index != index {
        let init = blocks.drop_last();
        if k < init.len() {
            assert(changed.drop_last() =~= init.update(
                k,
                Block { index: init[k].index, kind },
            ));
            lemma_last_block_update(init, k, kind, index);
        } else {
            assert(changed.drop_last() =~= init);
        }
    }
}

proof fn lemma_extend_twice(
    blocks: Seq<Block>,
    index: nat,
    whole: Event,
    first: Event,
    second: Event,
)
    requires
        event_cut(whole, first, second),
    ensures
        accumulate::extend_block(
            accumulate::extend_block(blocks, index, first),
            index,
            second,
        ) == accumulate::extend_block(blocks, index, whole),
{
    accumulate_laws::lemma_last_block_found(blocks, index);
    if let Some(k) = accumulate::last_block(blocks, index) {
        let kind = blocks[k].kind;
        let once = accumulate::extended(kind, first);
        lemma_last_block_update(blocks, k, once, index);
        match (kind, whole, first, second) {
            (
                Kind::Thinking { text },
                Event::ThinkingDelta { text: w, .. },
                Event::ThinkingDelta { text: a, .. },
                Event::ThinkingDelta { text: b, .. },
            ) => assert(text + w =~= text + a + b),
            (
                Kind::Text { text },
                Event::TextDelta { text: w, .. },
                Event::TextDelta { text: a, .. },
                Event::TextDelta { text: b, .. },
            ) => assert(text + w =~= text + a + b),
            (
                Kind::Tool { args, .. },
                Event::ToolDelta { partial_json: w, .. },
                Event::ToolDelta { partial_json: a, .. },
                Event::ToolDelta { partial_json: b, .. },
            ) => assert(args + w =~= args + a + b),
            _ => {},
        }
        assert(accumulate::extended(once, second) == accumulate::extended(kind, whole));
        assert(accumulate::extend_block(
            accumulate::extend_block(blocks, index, first),
            index,
            second,
        ) =~= accumulate::extend_block(blocks, index, whole));
    }
}

proof fn lemma_event_cut(events: Seq<Event>, whole: Event, first: Event, second: Event)
    requires
        event_cut(whole, first, second),
    ensures
        accumulate::accumulation(events.push(whole)) == accumulate::accumulation(
            events.push(first).push(second),
        ),
{
    let blocks = accumulate::accumulation(events).blocks;
    accumulate_laws::lemma_accumulation_push(events, whole);
    accumulate_laws::lemma_accumulation_push(events, first);
    accumulate_laws::lemma_accumulation_push(events.push(first), second);
    match whole {
        Event::ThinkingDelta { index, .. } => lemma_extend_twice(
            blocks,
            index,
            whole,
            first,
            second,
        ),
        Event::TextDelta { index, .. } => lemma_extend_twice(blocks, index, whole, first, second),
        Event::ToolDelta { index, .. } => lemma_extend_twice(blocks, index, whole, first, second),
        _ => {},
    }
}

/// Without content in one of its parts, a cut text is that of the other part.
proof fn lemma_text_cut(
    whole: Option<Seq<char>>,
    first: Option<Seq<char>>,
    second: Option<Seq<char>>,
)
    requires
        text_cut(whole, first, second),
    ensures
        reducer::nonempty(first) is None ==> reducer::nonempty(whole) == reducer::nonempty(second),
        reducer::nonempty(second) is None ==> reducer::nonempty(whole) == reducer::nonempty(first),
        reducer::nonempty(first) is Some && reducer::nonempty(second) is Some
            ==> reducer::nonempty(whole) == Some(first.unwrap() + second.unwrap()),
{
    let (a, b) = (laws::or_empty(first), laws::or_empty(second));
    if a.len() == 0 {
        assert(a + b =~= b);
    }
    if b.len() == 0 {
        assert(a + b =~= a);
    }
    assert(laws::or_empty(whole).len() == a.len() + b.len());
}

proof fn lemma_reasoning_cut(
    r: Reduction,
    whole: Option<Seq<char>>,
    first: Option<Seq<char>>,
    second: Option<Seq<char>>,
)
    requires
        text_cut(whole, first, second),
    ensures
        alike(
            reducer::add_reasoning(r, whole),
            reducer::add_reasoning(reducer::add_reasoning(r, first), second),
        ),
{
    lemma_text_cut(whole, first, second);
    if let (Some(a), Some(b)) = (reducer::nonempty(first), reducer::nonempty(second)) {
        let s = reducer::start_thinking(r);
        let index = s.thinking.unwrap();
        lemma_event_cut(
            s.events,
            Event::ThinkingDelta { index, text: a + b },
            Event::ThinkingDelta { index, text: a },
            Event::ThinkingDelta { index, text: b },
        );
    }
}

proof fn lemma_content_cut(
    r: Reduction,
    whole: Option<Seq<char>>,
    first: Option<Seq<char>>,
    second: Option<Seq<char>>,
)
    requires
        text_cut(whole, first, second),
    ensures
        alike(
            reducer::add_content(r, whole),
            reducer::add_content(reducer::add_content(r, first), second),
        ),
{
    lemma_text_cut(whole, first, second);
    if let (Some(a), Some(b)) = (reducer::nonempty(first), reducer::nonempty(second)) {
        let s = reducer::start_text(reducer::stop_thinking(r));
        let index = s.text.unwrap();
        lemma_event_cut(
            s.events,
            Event::TextDelta { index, text: a + b },
            Event::TextDelta { index, text: a },
            Event::TextDelta { index, text: b },
        );
    }
}

proof fn lemma_tool_call_cut(
    r: Reduction,
    whole: chunk::ToolCall,
    first: chunk::ToolCall,
    second: chunk::ToolCall,
)
    requires
        fragment_cut(whole, first, second),
    ensures
        alike(
            reducer::add_tool_call(r, whole),
            reducer::add_tool_call(reducer::add_tool_call(r, first), second),
        ),
{
    let (w, a, b) = (
        reducer::call_arguments(whole),
        reducer::call_arguments(first),
        reducer::call_arguments(second),
    );
    lemma_text_cut(w, a, b);
    let s = reducer::start_tool(r, whole);
    let once = reducer::add_tool_call(r, first);
    assert(reducer::start_tool(r, first) == s);
    assert(reducer::start_tool(once, second) == once);
    if let (Some(index), Some(a), Some(b)) = (
        reducer::block_of(s.slots, whole.index),
        reducer::nonempty(a),
        reducer::nonempty(b),
    ) {
        lemma_event_cut(
            s.events,
            Event::ToolDelta { index, partial_json: a + b },
            Event::ToolDelta { index, partial_json: a },
            Event::ToolDelta { index, partial_json: b },
        );
    }
}

proof fn lemma_fragments_concat(
    r: Reduction,
    a: Seq<chunk::ToolCall>,
    b: Seq<chunk::ToolCall>,
)
    ensures
        reducer::add_fragments(r, a + b) == reducer::add_fragments(
            reducer::add_fragments(r, a),
            b,
        ),
    decreases b.len(),
{
    if b.len() == 0 {
        assert(a + b == a);
    } else {
        lemma_fragments_concat(r, a, b.drop_last());
        assert((a + b).drop_last() == a + b.drop_last());
    }
}

/// Fragments open neither a thinking block nor a text block.
proof fn lemma_fragments_keep_closed(r: Reduction, calls: Seq<chunk::ToolCall>)
    ensures
        reducer::add_fragments(r, calls).thinking == r.thinking,
        reducer::add_fragments(r, calls).text == r.text,
    decreases calls.len(),
{
    if calls.len() > 0 {
        lemma_fragments_keep_closed(r, calls.drop_last());
    }
}

proof fn lemma_fragments_cut(
    r: Reduction,
    whole: Seq<chunk::ToolCall>,
    first: Seq<chunk::ToolCall>,
    second: Seq<chunk::ToolCall>,
)
    requires
        fragments_cut(whole, first, second),
    ensures
        alike(
            reducer::add_fragments(r, whole),
            reducer::add_fragments(reducer::add_fragments(r, first), second),
        ),
{
    let pre = first.drop_last();
    let post = second.drop_first();
    let f = whole[first.len() - 1];
    let p = reducer::add_fragments(r, pre);
    let one = reducer::add_tool_call(p, f);
    let once = reducer::add_tool_call(p, first.last());
    let two = reducer::add_tool_call(once, second[0]);
    lemma_tool_call_cut(p, f, first.last(), second[0]);
    lemma_alike_fragments(one, two, post);
    assert(whole.take(first.len() as int).drop_last() == pre);
    assert(whole.take(first.len() as int).last() == f);
    assert(whole == whole.take(first.len() as int) + post);
    lemma_fragments_concat(r, whole.take(first.len() as int), post);
    let head = seq![second[0]];
    assert(second == head + post);
    lemma_fragments_concat(once, head, post);
    assert(head.drop_last() == Seq::<chunk::ToolCall>::empty());
    assert(reducer::add_fragments(once, head.drop_last()) == once);
    assert(reducer::add_fragments(once, head) == two);
}

proof fn lemma_delta_cut(
    r: Reduction,
    whole: chunk::Delta,
    first: chunk::Delta,
    second: chunk::Delta,
)
    requires
        delta_cut(whole, first, second),
    ensures
        alike(
            reducer::add_delta(r, whole),
            reducer::add_delta(reducer::add_delta(r, first), second),
        ),
{
    let a = reducer::add_reasoning(r, whole.reasoning_content);
    let b = reducer::add_content(a, whole.content);
    let once = reducer::add_delta(r, first);
    if text_cut(whole.reasoning_content, first.reasoning_content, second.reasoning_content)
        && first.content is None && first.tool_calls is None && second.content == whole.content
        && second.tool_calls == whole.tool_calls {
        lemma_reasoning_cut(
            r,
            whole.reasoning_content,
            first.reasoning_content,
            second.reasoning_content,
        );
        let c = reducer::add_reasoning(once, second.reasoning_content);
        lemma_alike_content(a, c, whole.content);
        lemma_alike_tool_calls(b, reducer::add_content(c, whole.content), whole.tool_calls);
    } else if text_cut(whole.content, first.content, second.content) && first.tool_calls is None {
        lemma_content_cut(a, whole.content, first.content, second.content);
        lemma_alike_tool_calls(
            b,
            reducer::add_content(once, second.content),
            whole.tool_calls,
        );
    } else {
        let (w, x, y) = (
            whole.tool_calls.unwrap(),
            first.tool_calls.unwrap(),
            second.tool_calls.unwrap(),
        );
        let s = reducer::stop_text(reducer::stop_thinking(b));
        lemma_fragments_cut(s, w, x, y);
        lemma_fragments_keep_closed(s, x);
    }
}

proof fn lemma_first_error_concat(
    one: Seq<chunk::Chunk>,
    two: Seq<chunk::Chunk>,
    after: Seq<chunk::Chunk>,
)
    requires
        reducer::first_error(one) == reducer::first_error(two),
    ensures
        reducer::first_error(one + after) == reducer::first_error(two + after),
    decreases after.len(),
{
    if after.len() == 0 {
        assert(one + after == one);
        assert(two + after == two);
    } else {
        lemma_first_error_concat(one, two, after.drop_last());
        assert((one + after).drop_last() == one + after.drop_last());
        assert((two + after).drop_last() == two + after.drop_last());
    }
}

/// A message does not depend on how the upstream cuts reasoning, text or the arguments of a tool
/// call into chunks: a chunk and the two parts of it give the same message or the same error,
/// whatever chunks come before and after.
pub proof fn law_cuts_do_not_matter(
    before: Seq<chunk::Chunk>,
    whole: chunk::Chunk,
    first: chunk::Chunk,
    second: chunk::Chunk,
    after: Seq<chunk::Chunk>,
)
    requires
        chunk_cut(whole, first, second),
    ensures
        ({
            let one = before.push(whole) + after;
            let two = before.push(first).push(second) + after;
            &&& accumulate::accumulation(reducer::finished(reducer::reduction(one)))
                == accumulate::accumulation(reducer::finished(reducer::reduction(two)))
            &&& reducer::first_error(one) == reducer::first_error(two)
        }),
{
    let r = reducer::reduction(before);
    let one = before.push(whole);
    let once = before.push(first);
    let two = once.push(second);
    assert(one.drop_last() == before);
    assert(once.drop_last() == before);
    assert(two.drop_last() == once);
    lemma_delta_cut(
        r,
        laws::delta_of(whole).unwrap(),
        laws::delta_of(first).unwrap(),
        laws::delta_of(second).unwrap(),
    );
    assert(reducer::reduction(once) == reducer::add_delta(r, laws::delta_of(first).unwrap()));
    assert(alike(reducer::reduction(one), reducer::reduction(two)));
    lemma_alike_rest(one, two, after);
    lemma_alike_finished(reducer::reduction(one + after), reducer::reduction(two + after));
    assert(reducer::first_error(once) == reducer::first_error(before));
    lemma_first_error_concat(one, two, after);
}

} // verus!
