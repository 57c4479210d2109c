//! What holds of every reduction.
use vstd::prelude::*;

use crate::chunk;
use crate::reducer;
use crate::reducer::{Event, Reduction, Slot};
use crate::sse;
use crate::text;

verus! {

/// The type of a content block.
pub enum BlockType {
    Thinking,
    Text,
    Tool,
}

/// The state of a client that follows content-block events.
#[verifier::ext_equal]
pub struct Board {
    /// The number of blocks that have started.
    pub started: nat,
    /// The blocks that have started and not stopped.
    pub open: Map<nat, BlockType>,
    /// Whether the message has finished.
    pub done: bool,
}

pub open spec fn new_board() -> Board {
    Board { started: 0, open: Map::empty(), done: false }
}

/// Whether a block of type `t` is open.
pub open spec fn is_open(b: Board, t: BlockType) -> bool {
    exists|i: nat| #[trigger] b.open.dom().contains(i) && b.open[i] == t
}

/// Whether content of type `t` may come: text only while no thinking block is open, and a tool
/// call only while neither a thinking block nor a text block is.
pub open spec fn may_come(b: Board, t: BlockType) -> bool {
    &&& !(t is Thinking) ==> !is_open(b, BlockType::Thinking)
    &&& t is Tool ==> !is_open(b, BlockType::Text)
}

/// A block starts under the next free index. At most one thinking block and at most one text
/// block is open at a time.
pub open spec fn on_start(b: Board, index: nat, t: BlockType) -> Option<Board> {
    if index == b.started && may_come(b, t) && (t is Tool || !is_open(b, t)) {
        Some(Board { started: b.started + 1, open: b.open.insert(index, t), ..b })
    } else {
        None
    }
}

/// Content belongs to an open block of its type.
pub open spec fn on_delta(b: Board, index: nat, t: BlockType) -> Option<Board> {
    if b.open.dom().contains(index) && b.open[index] == t && may_come(b, t) {
        Some(b)
    } else {
        None
    }
}

/// Only an open block stops, as the type that it has.
pub open spec fn on_stop(b: Board, index: nat, t: BlockType) -> Option<Board> {
    if b.open.dom().contains(index) && b.open[index] == t {
        Some(Board { open: b.open.remove(index), ..b })
    } else {
        None
    }
}

/// One more event, if it may come now. The message finishes when no block is open, and nothing
/// comes after that.
pub open spec fn on_event(b: Board, e: Event) -> Option<Board> {
    if b.done {
        None
    } else {
        match e {
            Event::ThinkingStart { index } => on_start(b, index, BlockType::Thinking),
            Event::ThinkingDelta { index, .. } => on_delta(b, index, BlockType::Thinking),
            Event::ThinkingStop { index } => on_stop(b, index, BlockType::Thinking),
            Event::TextStart { index } => on_start(b, index, BlockType::Text),
            Event::TextDelta { index, .. } => on_delta(b, index, BlockType::Text),
            Event::TextStop { index } => on_stop(b, index, BlockType::Text),
            Event::ToolStart { index, .. } => on_start(b, index, BlockType::Tool),
            Event::ToolDelta { index, .. } => on_delta(b, index, BlockType::Tool),
            Event::ToolStop { index } => on_stop(b, index, BlockType::Tool),
            Event::Finish { .. } => if b.open == Map::<nat, BlockType>::empty() {
                Some(Board { done: true, ..b })
            } else {
                None
            },
        }
    }
}

/// The board after the events, if each of them may come when it does.
pub open spec fn followed(events: Seq<Event>) -> Option<Board>
    decreases events.len(),
{
    if events.len() == 0 {
        Some(new_board())
    } else {
        match followed(events.drop_last()) {
            Some(b) => on_event(b, events.last()),
            None => None,
        }
    }
}

/// The texts of the items, joined.
pub open spec fn joined<T>(items: Seq<T>, f: spec_fn(T) -> Seq<char>) -> Seq<char>
    decreases items.len(),
{
    if items.len() == 0 {
        Seq::empty()
    } else {
        joined(items.drop_last(), f) + f(items.last())
    }
}

/// The text in an optional string, or nothing.
pub open spec fn or_empty(s: Option<Seq<char>>) -> Seq<char> {
    match s {
        Some(t) => t,
        None => Seq::empty(),
    }
}

pub open spec fn thinking_delta(e: Event) -> Seq<char> {
    match e {
        Event::ThinkingDelta { text, .. } => text,
        _ => Seq::empty(),
    }
}

pub open spec fn text_delta(e: Event) -> Seq<char> {
    match e {
        Event::TextDelta { text, .. } => text,
        _ => Seq::empty(),
    }
}

pub open spec fn tool_delta(e: Event, block: nat) -> Seq<char> {
    match e {
        Event::ToolDelta { index, partial_json } => if index == block {
            partial_json
        } else {
            Seq::empty()
        },
        _ => Seq::empty(),
    }
}

/// All thinking in the events.
pub open spec fn thinking_text(events: Seq<Event>) -> Seq<char> {
    joined(events, |e: Event| thinking_delta(e))
}

/// All text in the events.
pub open spec fn visible_text(events: Seq<Event>) -> Seq<char> {
    joined(events, |e: Event| text_delta(e))
}

/// The arguments that the events give the tool block `block`.
pub open spec fn tool_arguments(events: Seq<Event>, block: nat) -> Seq<char> {
    joined(events, |e: Event| tool_delta(e, block))
}

/// The delta of a chunk's first choice.
pub open spec fn delta_of(c: chunk::Chunk) -> Option<chunk::Delta> {
    match c.choices {
        Some(choices) => if choices.len() > 0 {
            choices[0].delta
        } else {
            None
        },
        None => None,
    }
}

/// The finish reason of a chunk's first choice.
pub open spec fn reason_of(c: chunk::Chunk) -> Option<Seq<char>> {
    match c.choices {
        Some(choices) => if choices.len() > 0 {
            choices[0].finish_reason
        } else {
            None
        },
        None => None,
    }
}

/// The name in a tool-call fragment, or nothing.
pub open spec fn name_text(call: chunk::ToolCall) -> Seq<char> {
    match call.function {
        Some(f) => or_empty(f.name),
        None => Seq::empty(),
    }
}

/// The arguments in a tool-call fragment, or nothing.
pub open spec fn argument_text(call: chunk::ToolCall) -> Seq<char> {
    match call.function {
        Some(f) => or_empty(f.arguments),
        None => Seq::empty(),
    }
}

/// Whether a fragment can open a tool call: it has an id and a name.
pub open spec fn opens(call: chunk::ToolCall) -> bool {
    or_empty(call.id).len() > 0 && name_text(call).len() > 0
}

pub open spec fn reasoning_in(c: chunk::Chunk) -> Seq<char> {
    match delta_of(c) {
        Some(d) => or_empty(d.reasoning_content),
        None => Seq::empty(),
    }
}

pub open spec fn content_in(c: chunk::Chunk) -> Seq<char> {
    match delta_of(c) {
        Some(d) => or_empty(d.content),
        None => Seq::empty(),
    }
}

pub open spec fn fragments_in(c: chunk::Chunk) -> Seq<chunk::ToolCall> {
    match delta_of(c) {
        Some(d) => match d.tool_calls {
            Some(calls) => calls,
            None => Seq::empty(),
        },
        None => Seq::empty(),
    }
}

/// The tool-call fragments of all chunks.
pub open spec fn fragments(chunks: Seq<chunk::Chunk>) -> Seq<chunk::ToolCall>
    decreases chunks.len(),
{
    if chunks.len() == 0 {
        Seq::empty()
    } else {
        fragments(chunks.drop_last()) + fragments_in(chunks.last())
    }
}

/// The fragment with which the tool call `upstream` starts: the first one that can start it.
pub open spec fn opening(calls: Seq<chunk::ToolCall>, upstream: nat) -> Option<chunk::ToolCall>
    decreases calls.len(),
{
    if calls.len() == 0 {
        None
    } else {
        match opening(calls.drop_last(), upstream) {
            Some(call) => Some(call),
            None => if calls.last().index == upstream && opens(calls.last()) {
                Some(calls.last())
            } else {
                None
            },
        }
    }
}

/// The arguments of the tool call `upstream`: those of its fragments from the opening one on.
pub open spec fn call_text(calls: Seq<chunk::ToolCall>, upstream: nat) -> Seq<char>
    decreases calls.len(),
{
    if opening(calls, upstream) is None || calls.len() == 0 {
        Seq::empty()
    } else if calls.last().index == upstream {
        call_text(calls.drop_last(), upstream) + argument_text(calls.last())
    } else {
        call_text(calls.drop_last(), upstream)
    }
}

/// Whether some slot fills `block`.
pub open spec fn fills(slots: Seq<Slot>, block: nat) -> bool {
    exists|k: int| 0 <= k < slots.len() && (#[trigger] slots[k]).block == block
}

/// The blocks that a reduction has open.
pub open spec fn open_blocks(r: Reduction) -> Map<nat, BlockType> {
    Map::new(
        |i: nat| r.thinking == Some(i) || r.text == Some(i) || fills(r.slots, i),
        |i: nat|
            if r.thinking == Some(i) {
                BlockType::Thinking
            } else if r.text == Some(i) {
                BlockType::Text
            } else {
                BlockType::Tool
            },
    )
}

/// The events lead to the blocks that the reduction has open, and each of these has an index of
/// its own among those given out.
pub open spec fn consistent(r: Reduction) -> bool {
    &&& followed(r.events) == Some(Board { started: r.next, open: open_blocks(r), done: false })
    &&& r.thinking matches Some(i) ==> i < r.next && r.text != Some(i) && !fills(r.slots, i)
    &&& r.text matches Some(i) ==> i < r.next && !fills(r.slots, i)
    &&& forall|k: int| 0 <= k < r.slots.len() ==> (#[trigger] r.slots[k]).block < r.next
    &&& forall|k: int, m: int|
        0 <= k < m < r.slots.len() ==> (#[trigger] r.slots[k]).block != (
        #[trigger] r.slots[m]).block && r.slots[k].upstream != r.slots[m].upstream
    &&& forall|b: nat| b >= r.next ==> (#[trigger] tool_arguments(r.events, b)).len() == 0
}

/// The events of `s` carry the same thinking, text and tool arguments as those of `r`.
spec fn same_texts(r: Reduction, s: Reduction) -> bool {
    &&& thinking_text(s.events) == thinking_text(r.events)
    &&& visible_text(s.events) == visible_text(r.events)
    &&& forall|b: nat| #[trigger] tool_arguments(s.events, b) == tool_arguments(r.events, b)
}

proof fn lemma_push(events: Seq<Event>, e: Event)
    ensures
        followed(events.push(e)) == (match followed(events) {
            Some(b) => on_event(b, e),
            None => None,
        }),
        thinking_text(events.push(e)) == thinking_text(events) + thinking_delta(e),
        visible_text(events.push(e)) == visible_text(events) + text_delta(e),
        forall|b: nat| #[trigger]
            tool_arguments(events.push(e), b) == tool_arguments(events, b) + tool_delta(e, b),
{
    assert(events.push(e).drop_last() == events);
}

proof fn lemma_stop_thinking(r: Reduction)
    requires
        consistent(r),
    ensures
        consistent(reducer::stop_thinking(r)),
        same_texts(r, reducer::stop_thinking(r)),
{
    if let Some(index) = r.thinking {
        let s = reducer::stop_thinking(r);
        lemma_push(r.events, Event::ThinkingStop { index });
        assert(open_blocks(s) =~= open_blocks(r).remove(index));
        lemma_no_text(r, s, Event::ThinkingStop { index });
    }
}

proof fn lemma_no_text(r: Reduction, s: Reduction, e: Event)
    requires
        s.events == r.events.push(e),
        thinking_delta(e).len() == 0,
        text_delta(e).len() == 0,
        forall|b: nat| (#[trigger] tool_delta(e, b)).len() == 0,
    ensures
        same_texts(r, s),
{
    lemma_push(r.events, e);
    assert(thinking_text(s.events) =~= thinking_text(r.events));
    assert(visible_text(s.events) =~= visible_text(r.events));
    assert forall|b: nat| #[trigger]
        tool_arguments(s.events, b) == tool_arguments(r.events, b) by {
        assert(tool_delta(e, b).len() == 0);
        assert(tool_arguments(s.events, b) =~= tool_arguments(r.events, b));
    }
}

proof fn lemma_stop_text(r: Reduction)
    requires
        consistent(r),
    ensures
        consistent(reducer::stop_text(r)),
        same_texts(r, reducer::stop_text(r)),
{
    if let Some(index) = r.text {
        let s = reducer::stop_text(r);
        lemma_push(r.events, Event::TextStop { index });
        assert(open_blocks(s) =~= open_blocks(r).remove(index));
        lemma_no_text(r, s, Event::TextStop { index });
    }
}

proof fn lemma_start_thinking(r: Reduction)
    requires
        consistent(r),
    ensures
        consistent(reducer::start_thinking(r)),
        same_texts(r, reducer::start_thinking(r)),
{
    if r.thinking is None {
        let s = reducer::start_thinking(r);
        let e = Event::ThinkingStart { index: r.next };
        lemma_push(r.events, e);
        assert(open_blocks(s) =~= open_blocks(r).insert(r.next, BlockType::Thinking));
        lemma_no_text(r, s, e);
    }
}

proof fn lemma_start_text(r: Reduction)
    requires
        consistent(r),
        r.thinking is None,
    ensures
        consistent(reducer::start_text(r)),
        same_texts(r, reducer::start_text(r)),
{
    if r.text is None {
        let s = reducer::start_text(r);
        let e = Event::TextStart { index: r.next };
        lemma_push(r.events, e);
        assert(open_blocks(s) =~= open_blocks(r).insert(r.next, BlockType::Text));
        lemma_no_text(r, s, e);
    }
}

proof fn lemma_add_reasoning(r: Reduction, reasoning: Option<Seq<char>>)
    requires
        consistent(r),
    ensures
        ({
            let s = reducer::add_reasoning(r, reasoning);
            &&& consistent(s)
            &&& thinking_text(s.events) == thinking_text(r.events) + or_empty(reasoning)
            &&& visible_text(s.events) == visible_text(r.events)
            &&& forall|b: nat| #[trigger]
                tool_arguments(s.events, b) == tool_arguments(r.events, b)
        }),
{
    match reducer::nonempty(reasoning) {
        Some(text) => {
            let m = reducer::start_thinking(r);
            lemma_start_thinking(r);
            let e = Event::ThinkingDelta { index: m.thinking.unwrap(), text };
            lemma_push(m.events, e);
            let s = reducer::add_reasoning(r, reasoning);
            assert(open_blocks(s) =~= open_blocks(m));
            assert(visible_text(s.events) =~= visible_text(m.events));
            assert forall|b: nat| #[trigger]
                tool_arguments(s.events, b) == tool_arguments(m.events, b) by {
                assert(tool_arguments(s.events, b) =~= tool_arguments(m.events, b));
            }
        },
        None => {
            assert(thinking_text(r.events) + or_empty(reasoning) =~= thinking_text(r.events));
        },
    }
}

proof fn lemma_add_content(r: Reduction, content: Option<Seq<char>>)
    requires
        consistent(r),
    ensures
        ({
            let s = reducer::add_content(r, content);
            &&& consistent(s)
            &&& thinking_text(s.events) == thinking_text(r.events)
            &&& visible_text(s.events) == visible_text(r.events) + or_empty(content)
            &&& forall|b: nat| #[trigger]
                tool_arguments(s.events, b) == tool_arguments(r.events, b)
        }),
{
    match reducer::nonempty(content) {
        Some(text) => {
            let q = reducer::stop_thinking(r);
            let m = reducer::start_text(q);
            lemma_stop_thinking(r);
            lemma_start_text(q);
            let e = Event::TextDelta { index: m.text.unwrap(), text };
            lemma_push(m.events, e);
            let s = reducer::add_content(r, content);
            assert(open_blocks(s) =~= open_blocks(m));
            assert(thinking_text(s.events) =~= thinking_text(m.events));
            assert forall|b: nat| #[trigger]
                tool_arguments(s.events, b) == tool_arguments(m.events, b) by {
                assert(tool_arguments(s.events, b) =~= tool_arguments(m.events, b));
            }
        },
        None => {
            assert(visible_text(r.events) + or_empty(content) =~= visible_text(r.events));
        },
    }
}

/// The event that starts the tool block `block` for the fragment `call`.
pub open spec fn tool_start(block: nat, call: chunk::ToolCall) -> Event {
    Event::ToolStart {
        index: block,
        id: or_empty(call.id),
        name: name_text(call),
    }
}

/// The tool calls of a reduction are those that the fragments open, each with the id and name of
/// its opening fragment and with the arguments of its own fragments.
pub open spec fn tools_match(r: Reduction, calls: Seq<chunk::ToolCall>) -> bool {
    forall|upstream: nat|
        match (#[trigger] reducer::block_of(r.slots, upstream), opening(calls, upstream)) {
            (Some(block), Some(call)) => {
                &&& tool_arguments(r.events, block) == call_text(calls, upstream)
                &&& r.events.contains(tool_start(block, call))
            },
            (None, None) => true,
            _ => false,
        }
}

/// The block of a tool call is that of a slot with its upstream index, if there is one.
pub proof fn lemma_block_of(slots: Seq<Slot>, upstream: nat)
    ensures
        match reducer::block_of(slots, upstream) {
            Some(block) => exists|k: int|
                0 <= k < slots.len() && (#[trigger] slots[k]).upstream == upstream && slots[k].block
                    == block,
            None => forall|k: int|
                0 <= k < slots.len() ==> (#[trigger] slots[k]).upstream != upstream,
        },
    decreases slots.len(),
{
    if slots.len() > 0 {
        let init = slots.drop_last();
        lemma_block_of(init, upstream);
        assert(forall|k: int| 0 <= k < init.len() ==> #[trigger] init[k] == slots[k]);
        assert(slots.last() == slots[slots.len() - 1]);
        match reducer::block_of(init, upstream) {
            Some(block) => {
                let k = choose|k: int|
                    0 <= k < init.len() && (#[trigger] init[k]).upstream == upstream
                        && init[k].block == block;
                assert(slots[k].upstream == upstream && slots[k].block == block);
            },
            None => {
                assert forall|k: int| 0 <= k < slots.len() && slots.last().upstream != upstream
                    implies (#[trigger] slots[k]).upstream != upstream by {
                    if k < init.len() {
                        assert(init[k] == slots[k]);
                    }
                }
            },
        }
    }
}

/// Two tool calls of a consistent reduction fill two blocks.
proof fn lemma_blocks_differ(r: Reduction, a: nat, b: nat)
    requires
        consistent(r),
        a != b,
        reducer::block_of(r.slots, a) is Some,
    ensures
        reducer::block_of(r.slots, a) != reducer::block_of(r.slots, b),
{
    lemma_block_of(r.slots, a);
    lemma_block_of(r.slots, b);
}

proof fn lemma_tools_kept(r: Reduction, s: Reduction, calls: Seq<chunk::ToolCall>)
    requires
        tools_match(r, calls),
        s.slots == r.slots,
        r.events.is_prefix_of(s.events),
        forall|b: nat| #[trigger] tool_arguments(s.events, b) == tool_arguments(r.events, b),
    ensures
        tools_match(s, calls),
{
    assert forall|upstream: nat|
        match (#[trigger] reducer::block_of(s.slots, upstream), opening(calls, upstream)) {
            (Some(block), Some(call)) => {
                &&& tool_arguments(s.events, block) == call_text(calls, upstream)
                &&& s.events.contains(tool_start(block, call))
            },
            (None, None) => true,
            _ => false,
        } by {
        assert(reducer::block_of(r.slots, upstream) == reducer::block_of(s.slots, upstream));
        if let (Some(block), Some(call)) = (
            reducer::block_of(r.slots, upstream),
            opening(calls, upstream),
        ) {
            let i = r.events.index_of(tool_start(block, call));
            assert(s.events[i] == r.events[i]);
        }
    }
}

proof fn lemma_start_tool(r: Reduction, call: chunk::ToolCall)
    requires
        consistent(r),
        r.thinking is None,
        r.text is None,
    ensures
        consistent(reducer::start_tool(r, call)),
        same_texts(r, reducer::start_tool(r, call)),
{
    if reducer::block_of(r.slots, call.index) is None && reducer::can_start(call) {
        let s = reducer::start_tool(r, call);
        let e = tool_start(r.next, call);
        let slot = Slot { upstream: call.index, block: r.next };
        assert(s.events == r.events.push(e));
        lemma_push(r.events, e);
        lemma_block_of(r.slots, call.index);
        assert(s.slots == r.slots.push(slot));
        assert(s.slots[r.slots.len() as int] == slot);
        assert forall|i: nat| #[trigger] fills(s.slots, i) == (fills(r.slots, i) || i == r.next) by {
            if fills(r.slots, i) {
                let k = choose|k: int|
                    0 <= k < r.slots.len() && (#[trigger] r.slots[k]).block == i;
                assert(s.slots[k].block == i);
            }
            if fills(s.slots, i) {
                let k = choose|k: int|
                    0 <= k < s.slots.len() && (#[trigger] s.slots[k]).block == i;
                if k < r.slots.len() {
                    assert(r.slots[k].block == i);
                }
            }
            if i == r.next {
                assert(s.slots[r.slots.len() as int].block == i);
            }
        }
        assert(open_blocks(s) =~= open_blocks(r).insert(r.next, BlockType::Tool));
        lemma_no_text(r, s, e);
    }
}

proof fn lemma_add_tool_call(r: Reduction, calls: Seq<chunk::ToolCall>, call: chunk::ToolCall)
    requires
        consistent(r),
        r.thinking is None,
        r.text is None,
        tools_match(r, calls),
    ensures
        ({
            let s = reducer::add_tool_call(r, call);
            &&& consistent(s)
            &&& tools_match(s, calls.push(call))
            &&& thinking_text(s.events) == thinking_text(r.events)
            &&& visible_text(s.events) == visible_text(r.events)
        }),
{
    let m = reducer::start_tool(r, call);
    let s = reducer::add_tool_call(r, call);
    let more = calls.push(call);
    lemma_start_tool(r, call);
    lemma_block_of(r.slots, call.index);
    assert(more.drop_last() == calls);
    if m.slots.len() > r.slots.len() {
        assert(m.slots.drop_last() == r.slots);
        assert(m.events[r.events.len() as int] == tool_start(r.next, call));
    }
    let arguments = argument_text(call);
    // The delta, if there is one, adds the fragment's arguments to the call's block alone.
    match (reducer::block_of(m.slots, call.index), reducer::nonempty(
        reducer::call_arguments(call),
    )) {
        (Some(index), Some(partial_json)) => {
            let e = Event::ToolDelta { index, partial_json };
            lemma_push(m.events, e);
            lemma_block_of(m.slots, call.index);
            assert(fills(m.slots, index));
            assert(open_blocks(s) =~= open_blocks(m));
            assert(thinking_text(s.events) =~= thinking_text(m.events));
            assert(visible_text(s.events) =~= visible_text(m.events));
            assert forall|b: nat| b != index implies #[trigger] tool_arguments(s.events, b)
                == tool_arguments(m.events, b) by {
                assert(tool_arguments(s.events, b) =~= tool_arguments(m.events, b));
            }
        },
        (Some(index), None) => {
            assert(tool_arguments(m.events, index) + arguments =~= tool_arguments(m.events, index));
        },
        _ => {},
    }
    assert forall|upstream: nat|
        match (#[trigger] reducer::block_of(s.slots, upstream), opening(more, upstream)) {
            (Some(block), Some(opened)) => {
                &&& tool_arguments(s.events, block) == call_text(more, upstream)
                &&& s.events.contains(tool_start(block, opened))
            },
            (None, None) => true,
            _ => false,
        } by {
        assert(s.slots == m.slots);
        let was = reducer::block_of(r.slots, upstream);
        assert(match (was, opening(calls, upstream)) {
            (Some(_), Some(_)) => true,
            (None, None) => true,
            _ => false,
        });
        if let (Some(block), Some(opened)) = (was, opening(calls, upstream)) {
            let i = r.events.index_of(tool_start(block, opened));
            assert(s.events[i] == r.events[i]);
            assert(reducer::block_of(m.slots, upstream) == Some(block));
            assert(tool_arguments(m.events, block) == call_text(calls, upstream));
            if upstream != call.index {
                lemma_blocks_differ(m, upstream, call.index);
            }
        } else if upstream == call.index && reducer::can_start(call) {
            assert(reducer::block_of(m.slots, upstream) == Some(r.next));
            assert(s.events[r.events.len() as int] == tool_start(r.next, call));
            assert(tool_arguments(r.events, r.next).len() == 0);
            assert(call_text(calls, upstream) =~= Seq::<char>::empty());
            assert(tool_arguments(m.events, r.next) =~= call_text(calls, upstream));
        }
    }
}

proof fn lemma_add_fragments(
    r: Reduction,
    before: Seq<chunk::ToolCall>,
    calls: Seq<chunk::ToolCall>,
)
    requires
        consistent(r),
        tools_match(r, before),
        r.thinking is None,
        r.text is None,
    ensures
        ({
            let s = reducer::add_fragments(r, calls);
            &&& consistent(s)
            &&& s.thinking is None
            &&& s.text is None
            &&& tools_match(s, before + calls)
            &&& thinking_text(s.events) == thinking_text(r.events)
            &&& visible_text(s.events) == visible_text(r.events)
        }),
    decreases calls.len(),
{
    if calls.len() == 0 {
        assert(before + calls == before);
    } else {
        let init = calls.drop_last();
        lemma_add_fragments(r, before, init);
        lemma_add_tool_call(reducer::add_fragments(r, init), before + init, calls.last());
        assert((before + init).push(calls.last()) =~= before + calls);
    }
}

proof fn lemma_add_delta(r: Reduction, before: Seq<chunk::ToolCall>, d: chunk::Delta)
    requires
        consistent(r),
        tools_match(r, before),
    ensures
        ({
            let s = reducer::add_delta(r, d);
            let calls = match d.tool_calls {
                Some(calls) => calls,
                None => Seq::empty(),
            };
            &&& consistent(s)
            &&& tools_match(s, before + calls)
            &&& thinking_text(s.events) == thinking_text(r.events) + or_empty(d.reasoning_content)
            &&& visible_text(s.events) == visible_text(r.events) + or_empty(d.content)
        }),
{
    let a = reducer::add_reasoning(r, d.reasoning_content);
    lemma_add_reasoning(r, d.reasoning_content);
    assert(r.events.is_prefix_of(a.events));
    lemma_tools_kept(r, a, before);
    let b = reducer::add_content(a, d.content);
    lemma_add_content(a, d.content);
    assert(a.events.is_prefix_of(b.events));
    lemma_tools_kept(a, b, before);
    let none = Seq::<chunk::ToolCall>::empty();
    assert(before + none == before);
    if let Some(calls) = d.tool_calls {
        if calls.len() > 0 {
            let c = reducer::stop_thinking(b);
            lemma_stop_thinking(b);
            let e = reducer::stop_text(c);
            lemma_stop_text(c);
            assert(b.events.is_prefix_of(e.events));
            lemma_tools_kept(b, e, before);
            lemma_add_fragments(e, before, calls);
        } else {
            assert(calls == none);
        }
    }
}

/// A reduction is consistent, and its texts and tool calls are those of the chunks.
pub proof fn lemma_reduction(chunks: Seq<chunk::Chunk>)
    ensures
        ({
            let r = reducer::reduction(chunks);
            &&& consistent(r)
            &&& tools_match(r, fragments(chunks))
            &&& thinking_text(r.events) == joined(chunks, |c: chunk::Chunk| reasoning_in(c))
            &&& visible_text(r.events) == joined(chunks, |c: chunk::Chunk| content_in(c))
        }),
    decreases chunks.len(),
{
    let s = reducer::reduction(chunks);
    if chunks.len() == 0 {
        assert(open_blocks(s) =~= Map::<nat, BlockType>::empty());
    } else {
        let init = chunks.drop_last();
        let c = chunks.last();
        let r = reducer::reduction(init);
        let before = fragments(init);
        lemma_reduction(init);
        match delta_of(c) {
            Some(d) => {
                lemma_add_delta(r, before, d);
                let m = reducer::add_delta(r, d);
                assert(s.events == m.events && s.slots == m.slots);
                assert(open_blocks(s) =~= open_blocks(m));
                lemma_tools_kept(m, s, before + fragments_in(c));
            },
            None => {
                assert(s.events == r.events && s.slots == r.slots);
                assert(open_blocks(s) =~= open_blocks(r));
                assert(before + fragments_in(c) == before);
                lemma_tools_kept(r, s, before);
                assert(thinking_text(r.events) + reasoning_in(c) =~= thinking_text(r.events));
                assert(visible_text(r.events) + content_in(c) =~= visible_text(r.events));
            },
        }
    }
}

/// Whether a slot from the `n`-th on fills `block`.
spec fn fills_from(slots: Seq<Slot>, n: int, block: nat) -> bool {
    exists|k: int| n <= k < slots.len() && (#[trigger] slots[k]).block == block
}

spec fn blocks_from(slots: Seq<Slot>, n: int) -> Map<nat, BlockType> {
    Map::new(|i: nat| fills_from(slots, n, i), |i: nat| BlockType::Tool)
}

proof fn lemma_tool_stops(r: Reduction, n: int)
    requires
        consistent(r),
        r.thinking is None,
        r.text is None,
        0 <= n <= r.slots.len(),
    ensures
        ({
            let events = r.events + reducer::tool_stops(r.slots).take(n);
            &&& followed(events) == Some(
                Board { started: r.next, open: blocks_from(r.slots, n), done: false },
            )
            &&& thinking_text(events) == thinking_text(r.events)
            &&& visible_text(events) == visible_text(r.events)
            &&& forall|b: nat| #[trigger] tool_arguments(events, b) == tool_arguments(r.events, b)
        }),
    decreases n,
{
    let stops = reducer::tool_stops(r.slots);
    let events = r.events + stops.take(n);
    if n == 0 {
        assert(events =~= r.events);
        assert forall|i: nat| fills(r.slots, i) == #[trigger] fills_from(r.slots, 0, i) by {
            if fills(r.slots, i) {
                let k = choose|k: int|
                    0 <= k < r.slots.len() && (#[trigger] r.slots[k]).block == i;
                assert(r.slots[k].block == i);
            }
            if fills_from(r.slots, 0, i) {
                let k = choose|k: int|
                    0 <= k < r.slots.len() && (#[trigger] r.slots[k]).block == i;
                assert(r.slots[k].block == i);
            }
        }
        assert(open_blocks(r) =~= blocks_from(r.slots, 0));
    } else {
        lemma_tool_stops(r, n - 1);
        let before = r.events + stops.take(n - 1);
        let index = r.slots[n - 1].block;
        let e = Event::ToolStop { index };
        assert(stops[n - 1] == e);
        assert(events =~= before.push(e));
        lemma_push(before, e);
        assert forall|i: nat|
            #[trigger] fills_from(r.slots, n, i) == (fills_from(r.slots, n - 1, i) && i != index) by {
            if fills_from(r.slots, n, i) {
                let k = choose|k: int|
                    n <= k < r.slots.len() && (#[trigger] r.slots[k]).block == i;
                assert(r.slots[k].block == i);
            }
            if fills_from(r.slots, n - 1, i) && i != index {
                let k = choose|k: int|
                    n - 1 <= k < r.slots.len() && (#[trigger] r.slots[k]).block == i;
                assert(r.slots[k].block == i);
            }
        }
        assert(fills_from(r.slots, n - 1, index));
        assert(blocks_from(r.slots, n) =~= blocks_from(r.slots, n - 1).remove(index));
        assert(thinking_text(events) =~= thinking_text(before));
        assert(visible_text(events) =~= visible_text(before));
        assert forall|b: nat| #[trigger]
            tool_arguments(events, b) == tool_arguments(before, b) by {
            assert(tool_arguments(events, b) =~= tool_arguments(before, b));
        }
    }
}

/// Finishing a reduction stops its blocks and adds no text.
pub proof fn lemma_finished(r: Reduction)
    requires
        consistent(r),
    ensures
        ({
            let events = reducer::finished(r);
            &&& followed(events) == Some(
                Board { started: r.next, open: Map::empty(), done: true },
            )
            &&& thinking_text(events) == thinking_text(r.events)
            &&& visible_text(events) == visible_text(r.events)
            &&& forall|b: nat| #[trigger] tool_arguments(events, b) == tool_arguments(r.events, b)
            &&& r.events.is_prefix_of(events)
        }),
{
    let s = reducer::stop_text(reducer::stop_thinking(r));
    lemma_stop_thinking(r);
    lemma_stop_text(reducer::stop_thinking(r));
    let n = s.slots.len() as int;
    let stops = reducer::tool_stops(s.slots);
    lemma_tool_stops(s, n);
    assert(stops.take(n) == stops);
    assert(blocks_from(s.slots, n) =~= Map::<nat, BlockType>::empty());
    let before = s.events + stops;
    let e = Event::Finish { stop_reason: reducer::stop_reason(r), usage: r.usage };
    let events = reducer::finished(r);
    assert(events == before.push(e));
    lemma_push(before, e);
    assert(thinking_text(events) =~= thinking_text(before));
    assert(visible_text(events) =~= visible_text(before));
    assert forall|b: nat| #[trigger] tool_arguments(events, b) == tool_arguments(before, b) by {
        assert(tool_arguments(events, b) =~= tool_arguments(before, b));
    }
    assert(r.events.is_prefix_of(s.events));
}

/// The events of a finished message can be followed: blocks start under consecutive indexes from
/// 0, at most one thinking block and one text block is open at a time, content goes to an open
/// block of its type, every block stops once, and the message finishes with no block open.
pub proof fn law_events_can_be_followed(chunks: Seq<chunk::Chunk>)
    ensures
        followed(reducer::finished(reducer::reduction(chunks))) == Some(
            Board { started: reducer::reduction(chunks).next, open: Map::empty(), done: true },
        ),
{
    lemma_reduction(chunks);
    lemma_finished(reducer::reduction(chunks));
}

proof fn lemma_followed_prefix(events: Seq<Event>, n: int)
    requires
        followed(events) is Some,
        0 <= n <= events.len(),
    ensures
        followed(events.take(n)) is Some,
    decreases events.len(),
{
    if n == events.len() {
        assert(events.take(n) == events);
    } else {
        assert(events.drop_last().take(n) == events.take(n));
        lemma_followed_prefix(events.drop_last(), n);
    }
}

/// A message that can be followed finishes once, with its last event.
pub proof fn law_finish_comes_last(events: Seq<Event>)
    requires
        followed(events) matches Some(b) && b.done,
    ensures
        events.len() > 0,
        forall|i: int|
            0 <= i < events.len() ==> ((#[trigger] events[i]) is Finish <==> i == events.len() - 1),
{
    assert forall|i: int| 0 <= i < events.len() implies ((#[trigger] events[i]) is Finish <==> i
        == events.len() - 1) by {
        lemma_followed_prefix(events, i + 1);
        assert(events.take(i + 1).drop_last() == events.take(i));
        if i + 1 < events.len() {
            lemma_followed_prefix(events, i + 2);
            assert(events.take(i + 2).drop_last() == events.take(i + 1));
        } else {
            assert(events.take(i + 1) == events);
        }
    }
}

/// Content of a message that can be followed goes to a block that has started before and has not
/// stopped.
pub proof fn law_deltas_hit_open_blocks(events: Seq<Event>, i: int)
    requires
        followed(events) is Some,
        0 <= i < events.len(),
    ensures
        followed(events.take(i)) matches Some(b) && match events[i] {
            Event::ThinkingDelta { index, .. } => index < b.started && b.open.contains_pair(
                index,
                BlockType::Thinking,
            ),
            Event::TextDelta { index, .. } => index < b.started && b.open.contains_pair(
                index,
                BlockType::Text,
            ),
            Event::ToolDelta { index, .. } => index < b.started && b.open.contains_pair(
                index,
                BlockType::Tool,
            ),
            _ => true,
        },
{
    lemma_followed_prefix(events, i + 1);
    assert(events.take(i + 1).drop_last() == events.take(i));
    lemma_open_started(events.take(i));
}

proof fn lemma_open_started(events: Seq<Event>)
    ensures
        followed(events) matches Some(b) ==> forall|k: nat| #[trigger]
            b.open.dom().contains(k) ==> k < b.started,
    decreases events.len(),
{
    if events.len() > 0 {
        lemma_open_started(events.drop_last());
    }
}

/// No reasoning and no text is lost, added or reordered: the deltas of the events join to what
/// the chunks carry.
pub proof fn law_texts_are_kept(chunks: Seq<chunk::Chunk>)
    ensures
        thinking_text(reducer::finished(reducer::reduction(chunks))) == joined(
            chunks,
            |c: chunk::Chunk| reasoning_in(c),
        ),
        visible_text(reducer::finished(reducer::reduction(chunks))) == joined(
            chunks,
            |c: chunk::Chunk| content_in(c),
        ),
{
    lemma_reduction(chunks);
    lemma_finished(reducer::reduction(chunks));
}

/// A tool call has a block exactly when some fragment opens it. The block has the id and the
/// name of that fragment, and gets the arguments of the call's own fragments from there on,
/// whatever blocks precede it and however the fragments of other calls are interleaved.
pub proof fn law_tool_calls_are_kept(chunks: Seq<chunk::Chunk>, upstream: nat)
    ensures
        ({
            let r = reducer::reduction(chunks);
            let events = reducer::finished(r);
            match (reducer::block_of(r.slots, upstream), opening(fragments(chunks), upstream)) {
                (Some(block), Some(call)) => {
                    &&& events.contains(tool_start(block, call))
                    &&& tool_arguments(events, block) == call_text(fragments(chunks), upstream)
                },
                (None, None) => true,
                _ => false,
            }
        }),
{
    let r = reducer::reduction(chunks);
    let events = reducer::finished(r);
    lemma_reduction(chunks);
    lemma_finished(r);
    if let (Some(block), Some(call)) = (
        reducer::block_of(r.slots, upstream),
        opening(fragments(chunks), upstream),
    ) {
        let i = r.events.index_of(tool_start(block, call));
        assert(events[i] == r.events[i]);
    }
}

/// Two tool calls of the upstream never share a block.
pub proof fn law_tool_calls_stay_apart(chunks: Seq<chunk::Chunk>, a: nat, b: nat)
    requires
        a != b,
        reducer::block_of(reducer::reduction(chunks).slots, a) is Some,
    ensures
        reducer::block_of(reducer::reduction(chunks).slots, a) != reducer::block_of(
            reducer::reduction(chunks).slots,
            b,
        ),
{
    lemma_reduction(chunks);
    lemma_blocks_differ(reducer::reduction(chunks), a, b);
}

/// A message with a tool call stops for tool use, unless the upstream says that it ran out of
/// tokens.
pub proof fn law_tool_call_means_tool_use(chunks: Seq<chunk::Chunk>, upstream: nat)
    requires
        opening(fragments(chunks), upstream) is Some,
        reducer::reduction(chunks).finish_reason != Some("length"@),
    ensures
        reducer::stop_reason(reducer::reduction(chunks)) == reducer::StopReason::ToolUse,
{
    lemma_reduction(chunks);
    assert(reducer::block_of(reducer::reduction(chunks).slots, upstream) is Some);
    lemma_block_of(reducer::reduction(chunks).slots, upstream);
}

/// Chunks of which one reports an error fail to reduce, with the message of the first one that
/// does.
pub proof fn law_first_error_wins(chunks: Seq<chunk::Chunk>, i: int)
    requires
        0 <= i < chunks.len(),
        chunks[i].error is Some,
        forall|k: int| 0 <= k < i ==> (#[trigger] chunks[k]).error is None,
    ensures
        reducer::first_error(chunks) == Some(
            match chunks[i].error.unwrap() {
                Some(message) => message,
                None => "Upstream error"@,
            },
        ),
    decreases chunks.len(),
{
    let init = chunks.drop_last();
    assert(forall|k: int| 0 <= k < init.len() ==> #[trigger] init[k] == chunks[k]);
    if i < init.len() {
        assert forall|k: int| 0 <= k < i implies (#[trigger] init[k]).error is None by {
            assert(init[k] == chunks[k]);
        }
        law_first_error_wins(init, i);
    } else {
        assert forall|k: int| 0 <= k < init.len() implies (#[trigger] init[k]).error is None by {
            assert(init[k] == chunks[k]);
        }
        law_no_error_without_report(init);
    }
}

/// Chunks of which none reports an error reduce to a message.
pub proof fn law_no_error_without_report(chunks: Seq<chunk::Chunk>)
    requires
        forall|k: int| 0 <= k < chunks.len() ==> (#[trigger] chunks[k]).error is None,
    ensures
        reducer::first_error(chunks) is None,
    decreases chunks.len(),
{
    if chunks.len() > 0 {
        let init = chunks.drop_last();
        assert forall|k: int| 0 <= k < init.len() implies (#[trigger] init[k]).error is None by {
            assert(init[k] == chunks[k]);
        }
        law_no_error_without_report(init);
        assert(chunks[chunks.len() - 1].error is None);
    }
}

/// Data that holds no chunk, such as the end marker, blank data or what is not JSON, changes
/// nothing wherever it comes.
pub proof fn law_other_data_is_ignored(
    before: Seq<Seq<char>>,
    other: Seq<char>,
    after: Seq<Seq<char>>,
)
    requires
        reducer::chunk_in(other) is None,
    ensures
        reducer::chunks_in(before.push(other) + after) == reducer::chunks_in(before + after),
    decreases after.len(),
{
    reveal_with_fuel(Seq::filter_map, 2);
    if after.len() == 0 {
        assert(before.push(other) + after == before.push(other));
        assert(before + after == before);
        assert(before.push(other).drop_last() == before);
    } else {
        law_other_data_is_ignored(before, other, after.drop_last());
        assert((before.push(other) + after).drop_last() == before.push(other) + after.drop_last());
        assert((before + after).drop_last() == before + after.drop_last());
        assert((before.push(other) + after).last() == after.last());
        assert((before + after).last() == after.last());
    }
}

/// The end marker and blank data hold no chunk.
pub proof fn law_end_marker_is_no_chunk(data: Seq<char>)
    requires
        text::trimmed(data) == "[DONE]"@ || text::trimmed(data).len() == 0,
    ensures
        reducer::chunk_in(data) is None,
{
}

proof fn lemma_other_data(before: Seq<Seq<char>>, others: Seq<Seq<char>>, after: Seq<Seq<char>>)
    requires
        forall|i: int| 0 <= i < others.len() ==> reducer::chunk_in(#[trigger] others[i]) is None,
    ensures
        reducer::chunks_in(before + others + after) == reducer::chunks_in(before + after),
    decreases others.len(),
{
    if others.len() == 0 {
        assert(before + others + after == before + after);
    } else {
        let init = others.drop_last();
        assert forall|i: int| 0 <= i < init.len() implies reducer::chunk_in(
            #[trigger] init[i],
        ) is None by {
            assert(init[i] == others[i]);
        }
        assert(others.last() == others[others.len() - 1]);
        lemma_other_data(before, init, after);
        law_other_data_is_ignored(before + init, others.last(), after);
        assert((before + init).push(others.last()) + after == before + others + after);
    }
}

/// Whether `b` consists of complete events of which none holds a chunk.
pub open spec fn without_chunks(b: Seq<u8>) -> bool {
    let payloads = sse::collected(sse::lines_of(b)).0;
    &&& sse::is_complete(b)
    &&& forall|i: int|
        0 <= i < payloads.len() ==> reducer::chunk_in(
            text::utf8_lossy(#[trigger] payloads[i]),
        ) is None
}

/// Events that hold no chunk can be left out of a body: behind complete events, further complete
/// events of which none holds a chunk change nothing of what the body amounts to, whatever comes
/// behind them. At the start of the body they may begin with a byte order mark, and what comes
/// behind them may not, since it would lose its own.
pub proof fn law_events_without_a_chunk_are_skipped(
    before: Seq<u8>,
    events: Seq<u8>,
    after: Seq<u8>,
)
    requires
        sse::is_complete(sse::without_bom(before)),
        if before.len() == 0 {
            without_chunks(sse::without_bom(events)) && sse::without_bom(after) == after
        } else {
            without_chunks(events)
        },
    ensures
        reducer::chunks_of_body(before + events + after) == reducer::chunks_of_body(before + after),
{
    let decode = |p: Seq<u8>| text::utf8_lossy(p);
    let skipped = if before.len() == 0 {
        sse::without_bom(events)
    } else {
        events
    };
    let head = sse::payloads(before);
    let middle = sse::collected(sse::lines_of(skipped)).0;
    let tail = sse::collected(sse::lines_of(after)).0;
    sse::law_complete_events_stand_alone(before, after);
    assert(sse::payloads(before + after) == head + tail);
    if before.len() == 0 {
        assert(before + events + after == events + after);
        sse::law_complete_events_stand_alone(events, after);
        assert(head == Seq::<Seq<u8>>::empty());
        assert(head + middle + tail == middle + tail);
    } else {
        sse::law_complete_events_stand_alone(before, events + after);
        assert(before + (events + after) == before + events + after);
        sse::law_complete_events_compose(events, after);
        assert(head + (middle + tail) == head + middle + tail);
    }
    assert(sse::payloads(before + events + after) == head + middle + tail);
    let others = middle.map_values(decode);
    assert((head + middle + tail).map_values(decode) =~= head.map_values(decode) + others
        + tail.map_values(decode));
    assert((head + tail).map_values(decode) =~= head.map_values(decode) + tail.map_values(decode));
    assert forall|i: int| 0 <= i < others.len() implies reducer::chunk_in(
        #[trigger] others[i],
    ) is None by {
        assert(others[i] == text::utf8_lossy(middle[i]));
        assert(without_chunks(skipped));
    }
    lemma_other_data(head.map_values(decode), others, tail.map_values(decode));
}

/// The thinking block that an event leaves open.
pub open spec fn thinking_at(e: Event) -> Option<nat> {
    match e {
        Event::ThinkingStart { index } => Some(index),
        Event::ThinkingDelta { index, .. } => Some(index),
        _ => None,
    }
}

/// Whether an event carries on or stops the thinking block `index`.
pub open spec fn stays_with(e: Event, index: nat) -> bool {
    match e {
        Event::ThinkingDelta { index: i, .. } => i == index,
        Event::ThinkingStop { index: i } => i == index,
        _ => false,
    }
}

/// Whether an event that leaves a thinking block open is followed by one of that block.
pub open spec fn unbroken(events: Seq<Event>) -> bool {
    forall|i: int|
        0 <= i < events.len() - 1 ==> (thinking_at(#[trigger] events[i]) matches Some(index)
            ==> stays_with(events[i + 1], index))
}

spec fn thinking_last(r: Reduction) -> bool {
    &&& unbroken(r.events)
    &&& r.thinking == (if r.events.len() == 0 {
        None
    } else {
        thinking_at(r.events.last())
    })
}

proof fn lemma_unbroken_push(events: Seq<Event>, e: Event)
    requires
        unbroken(events),
        events.len() > 0 ==> (thinking_at(events.last()) matches Some(index) ==> stays_with(
            e,
            index,
        )),
    ensures
        unbroken(events.push(e)),
{
    let more = events.push(e);
    assert forall|i: int| 0 <= i < more.len() - 1 implies (thinking_at(
        #[trigger] more[i],
    ) matches Some(index) ==> stays_with(more[i + 1], index)) by {
        assert(more[i] == events[i]);
        if i + 1 < events.len() {
            assert(more[i + 1] == events[i + 1]);
        }
    }
}

proof fn lemma_thinking_stops(r: Reduction)
    requires
        thinking_last(r),
    ensures
        thinking_last(reducer::stop_thinking(r)),
        reducer::stop_thinking(r).thinking is None,
{
    if let Some(index) = r.thinking {
        lemma_unbroken_push(r.events, Event::ThinkingStop { index });
    }
}

proof fn lemma_thinking_add_fragments(r: Reduction, calls: Seq<chunk::ToolCall>)
    requires
        thinking_last(r),
        r.thinking is None,
    ensures
        thinking_last(reducer::add_fragments(r, calls)),
        reducer::add_fragments(r, calls).thinking is None,
    decreases calls.len(),
{
    if calls.len() > 0 {
        let call = calls.last();
        lemma_thinking_add_fragments(r, calls.drop_last());
        let s = reducer::add_fragments(r, calls.drop_last());
        let m = reducer::start_tool(s, call);
        if m.events.len() > s.events.len() {
            lemma_unbroken_push(s.events, m.events.last());
            assert(m.events == s.events.push(m.events.last()));
        }
        assert(thinking_last(m));
        let n = reducer::add_tool_call(s, call);
        if n.events.len() > m.events.len() {
            lemma_unbroken_push(m.events, n.events.last());
            assert(n.events == m.events.push(n.events.last()));
        }
    }
}

proof fn lemma_thinking_add_delta(r: Reduction, d: chunk::Delta)
    requires
        thinking_last(r),
    ensures
        thinking_last(reducer::add_delta(r, d)),
{
    let a = reducer::add_reasoning(r, d.reasoning_content);
    if let Some(text) = reducer::nonempty(d.reasoning_content) {
        let s = reducer::start_thinking(r);
        if r.thinking is None {
            lemma_unbroken_push(r.events, Event::ThinkingStart { index: r.next });
        }
        assert(thinking_last(s));
        lemma_unbroken_push(s.events, Event::ThinkingDelta { index: s.thinking.unwrap(), text });
    }
    assert(thinking_last(a));
    let b = reducer::add_content(a, d.content);
    if let Some(text) = reducer::nonempty(d.content) {
        let q = reducer::stop_thinking(a);
        lemma_thinking_stops(a);
        let s = reducer::start_text(q);
        if q.text is None {
            lemma_unbroken_push(q.events, Event::TextStart { index: q.next });
        }
        assert(thinking_last(s));
        lemma_unbroken_push(s.events, Event::TextDelta { index: s.text.unwrap(), text });
    }
    assert(thinking_last(b));
    if let Some(calls) = d.tool_calls {
        if calls.len() > 0 {
            let q = reducer::stop_thinking(b);
            lemma_thinking_stops(b);
            let s = reducer::stop_text(q);
            if let Some(index) = q.text {
                lemma_unbroken_push(q.events, Event::TextStop { index });
            }
            lemma_thinking_add_fragments(s, calls);
        }
    }
}

proof fn lemma_thinking_last(chunks: Seq<chunk::Chunk>)
    ensures
        thinking_last(reducer::reduction(chunks)),
    decreases chunks.len(),
{
    if chunks.len() > 0 {
        let r = reducer::reduction(chunks.drop_last());
        lemma_thinking_last(chunks.drop_last());
        if let Some(d) = delta_of(chunks.last()) {
            lemma_thinking_add_delta(r, d);
        }
    }
}

/// A thinking block holds nothing but its own deltas: what follows its start or one of its deltas
/// is a further delta of the same block or its stop.
pub proof fn law_thinking_is_not_interrupted(chunks: Seq<chunk::Chunk>)
    ensures
        unbroken(reducer::finished(reducer::reduction(chunks))),
{
    let r = reducer::reduction(chunks);
    lemma_thinking_last(chunks);
    lemma_thinking_stops(r);
    let q = reducer::stop_thinking(r);
    let s = reducer::stop_text(q);
    if let Some(index) = q.text {
        lemma_unbroken_push(q.events, Event::TextStop { index });
    }
    assert(thinking_last(s) && s.thinking is None);
    let events = reducer::finished(r);
    let n = s.events.len() as int;
    assert forall|i: int| 0 <= i < events.len() - 1 implies (thinking_at(
        #[trigger] events[i],
    ) matches Some(index) ==> stays_with(events[i + 1], index)) by {
        if i < n {
            assert(events[i] == s.events[i]);
            if i + 1 < n {
                assert(events[i + 1] == s.events[i + 1]);
            } else {
                assert(s.events.last() == s.events[i]);
            }
        }
    }
}

/// Cached tokens are moved, not lost: they are counted as read from the cache and no longer as
/// input, and the two never exceed the prompt where the cached share is within it.
pub proof fn law_cached_tokens_are_moved(u: reducer::KimiUsage)
    requires
        reducer::count(u.cached_tokens) <= reducer::count(u.prompt_tokens),
    ensures
        reducer::anthropic_usage(Some(u)).input_tokens + reducer::anthropic_usage(
            Some(u),
        ).cache_read_input_tokens == reducer::count(u.prompt_tokens),
{
}

} // verus!
