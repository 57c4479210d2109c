//! Which records decode, and to what: a record decodes exactly if each of its fields is absent,
//! `null` or of its type, and then it has the values of its fields.
use vstd::prelude::*;

use crate::chunk;
use crate::json;
use crate::json_laws::{has_field, is_record, lemma_field_is_unique, law_records_hold_their_fields};
use crate::reducer;
use crate::sse;
use crate::text;

verus! {

/// What a field reads as where it takes a string: `Some(None)` if it is absent or `null`, and
/// nothing if it is of another type.
pub open spec fn reads_text(v: Option<Seq<u8>>) -> Option<Option<Seq<char>>> {
    match v {
        Some(b) => json::string_or_null(b),
        None => Some(None),
    }
}

/// What a field reads as where it takes a number.
pub open spec fn reads_number(v: Option<Seq<u8>>) -> Option<Option<u64>> {
    match v {
        Some(b) => json::u64_or_null(b),
        None => Some(None),
    }
}

/// Whether a field is absent or `null`, the only value that starts with an `n`.
pub open spec fn is_absent(v: Option<Seq<u8>>) -> bool {
    v matches Some(b) ==> b.len() > 0 && b[0] == 110
}

pub open spec fn function_names() -> Seq<Seq<char>> {
    seq!["name"@, "arguments"@]
}

/// A function decodes whatever strings its name and its arguments are.
pub proof fn law_functions_decode(s: Seq<u8>, name: Option<Seq<u8>>, arguments: Option<Seq<u8>>)
    requires
        is_record(s, function_names()),
        has_field(s, 0, "name"@, name),
        has_field(s, 1, "arguments"@, arguments),
    ensures
        chunk::decode_function(s) is Some <==> reads_text(name) is Some && reads_text(
            arguments,
        ) is Some,
        chunk::decode_function(s) matches Some(f) ==> reads_text(name) == Some(f.name)
            && reads_text(arguments) == Some(f.arguments),
{
    let names = function_names();
    lemma_field_is_unique(s, names, 0, name);
    lemma_field_is_unique(s, names, 1, arguments);
    law_records_hold_their_fields(s, names);
}

pub open spec fn tool_call_names() -> Seq<Seq<char>> {
    seq!["index"@, "id"@, "type"@, "function"@]
}

/// A tool call decodes if it has an index, which fits a `usize`, and the rest is of its type.
pub proof fn law_tool_calls_decode(
    s: Seq<u8>,
    index: Option<Seq<u8>>,
    id: Option<Seq<u8>>,
    kind: Option<Seq<u8>>,
    function: Option<Seq<u8>>,
)
    requires
        is_record(s, tool_call_names()),
        has_field(s, 0, "index"@, index),
        has_field(s, 1, "id"@, id),
        has_field(s, 2, "type"@, kind),
        has_field(s, 3, "function"@, function),
    ensures
        chunk::decode_tool_call(s) is Some <==> {
            &&& reads_number(index) matches Some(Some(n))
            &&& n <= usize::MAX
            &&& reads_text(id) is Some
            &&& reads_text(kind) is Some
            &&& is_absent(function) || chunk::decode_function(function.unwrap()) is Some
        },
        chunk::decode_tool_call(s) matches Some(c) ==> {
            &&& reads_number(index) matches Some(Some(n))
            &&& c.index == n
            &&& reads_text(id) == Some(c.id)
            &&& is_absent(function) ==> c.function is None
            &&& !is_absent(function) ==> c.function == chunk::decode_function(function.unwrap())
        },
{
    let names = tool_call_names();
    lemma_field_is_unique(s, names, 0, index);
    lemma_field_is_unique(s, names, 1, id);
    lemma_field_is_unique(s, names, 2, kind);
    lemma_field_is_unique(s, names, 3, function);
    law_records_hold_their_fields(s, names);
}

pub open spec fn delta_names() -> Seq<Seq<char>> {
    seq!["role"@, "content"@, "reasoning_content"@, "tool_calls"@]
}

/// A delta decodes to its text, its reasoning and its tool calls. Its role is of no account.
pub proof fn law_deltas_decode(
    s: Seq<u8>,
    role: Option<Seq<u8>>,
    content: Option<Seq<u8>>,
    reasoning: Option<Seq<u8>>,
    calls: Option<Seq<u8>>,
)
    requires
        is_record(s, delta_names()),
        has_field(s, 0, "role"@, role),
        has_field(s, 1, "content"@, content),
        has_field(s, 2, "reasoning_content"@, reasoning),
        has_field(s, 3, "tool_calls"@, calls),
    ensures
        chunk::decode_delta(s) is Some <==> {
            &&& reads_text(role) is Some
            &&& reads_text(content) is Some
            &&& reads_text(reasoning) is Some
            &&& is_absent(calls) || chunk::decode_tool_calls(calls.unwrap()) is Some
        },
        chunk::decode_delta(s) matches Some(d) ==> {
            &&& reads_text(content) == Some(d.content)
            &&& reads_text(reasoning) == Some(d.reasoning_content)
            &&& is_absent(calls) ==> d.tool_calls is None
            &&& !is_absent(calls) ==> d.tool_calls == chunk::decode_tool_calls(calls.unwrap())
        },
{
    let names = delta_names();
    lemma_field_is_unique(s, names, 0, role);
    lemma_field_is_unique(s, names, 1, content);
    lemma_field_is_unique(s, names, 2, reasoning);
    lemma_field_is_unique(s, names, 3, calls);
    law_records_hold_their_fields(s, names);
}

pub open spec fn choice_names() -> Seq<Seq<char>> {
    seq!["delta"@, "finish_reason"@]
}

/// A choice decodes to its delta and its finish reason, each whatever the other is.
pub proof fn law_choices_decode(s: Seq<u8>, delta: Option<Seq<u8>>, reason: Option<Seq<u8>>)
    requires
        is_record(s, choice_names()),
        has_field(s, 0, "delta"@, delta),
        has_field(s, 1, "finish_reason"@, reason),
    ensures
        chunk::decode_choice(s) is Some <==> (is_absent(delta) || chunk::decode_delta(
            delta.unwrap(),
        ) is Some) && reads_text(reason) is Some,
        chunk::decode_choice(s) matches Some(c) ==> {
            &&& is_absent(delta) ==> c.delta is None
            &&& !is_absent(delta) ==> c.delta == chunk::decode_delta(delta.unwrap())
            &&& reads_text(reason) == Some(c.finish_reason)
        },
{
    let names = choice_names();
    lemma_field_is_unique(s, names, 0, delta);
    lemma_field_is_unique(s, names, 1, reason);
    law_records_hold_their_fields(s, names);
}

pub open spec fn prompt_details_names() -> Seq<Seq<char>> {
    seq!["cached_tokens"@]
}

pub open spec fn completion_details_names() -> Seq<Seq<char>> {
    seq!["reasoning_tokens"@]
}

/// The details of a usage decode to their counts.
pub proof fn law_details_decode(s: Seq<u8>, n: Option<Seq<u8>>)
    ensures
        is_record(s, prompt_details_names()) && has_field(s, 0, "cached_tokens"@, n) ==> (
        match chunk::decode_prompt_details(s) {
            Some(d) => reads_number(n) == Some(d.cached_tokens),
            None => reads_number(n) is None,
        }),
        is_record(s, completion_details_names()) && has_field(s, 0, "reasoning_tokens"@, n) ==> (
        match chunk::decode_completion_details(s) {
            Some(d) => reads_number(n) == Some(d.reasoning_tokens),
            None => reads_number(n) is None,
        }),
{
    law_records_hold_their_fields(s, prompt_details_names());
    law_records_hold_their_fields(s, completion_details_names());
    if is_record(s, prompt_details_names()) && has_field(s, 0, "cached_tokens"@, n) {
        lemma_field_is_unique(s, prompt_details_names(), 0, n);
    }
    if is_record(s, completion_details_names()) && has_field(s, 0, "reasoning_tokens"@, n) {
        lemma_field_is_unique(s, completion_details_names(), 0, n);
    }
}

pub open spec fn usage_names() -> Seq<Seq<char>> {
    seq![
        "prompt_tokens"@,
        "completion_tokens"@,
        "total_tokens"@,
        "cached_tokens"@,
        "prompt_tokens_details"@,
        "completion_tokens_details"@,
    ]
}

/// A usage decodes to its counts and its details.
pub proof fn law_usage_decodes(
    s: Seq<u8>,
    prompt: Option<Seq<u8>>,
    completion: Option<Seq<u8>>,
    total: Option<Seq<u8>>,
    cached: Option<Seq<u8>>,
    prompt_details: Option<Seq<u8>>,
    completion_details: Option<Seq<u8>>,
)
    requires
        is_record(s, usage_names()),
        has_field(s, 0, "prompt_tokens"@, prompt),
        has_field(s, 1, "completion_tokens"@, completion),
        has_field(s, 2, "total_tokens"@, total),
        has_field(s, 3, "cached_tokens"@, cached),
        has_field(s, 4, "prompt_tokens_details"@, prompt_details),
        has_field(s, 5, "completion_tokens_details"@, completion_details),
    ensures
        chunk::decode_usage(s) is Some <==> {
            &&& reads_number(prompt) is Some
            &&& reads_number(completion) is Some
            &&& reads_number(total) is Some
            &&& reads_number(cached) is Some
            &&& is_absent(prompt_details) || chunk::decode_prompt_details(
                prompt_details.unwrap(),
            ) is Some
            &&& is_absent(completion_details) || chunk::decode_completion_details(
                completion_details.unwrap(),
            ) is Some
        },
        chunk::decode_usage(s) matches Some(u) ==> {
            &&& reads_number(prompt) == Some(u.prompt_tokens)
            &&& reads_number(completion) == Some(u.completion_tokens)
            &&& reads_number(total) == Some(u.total_tokens)
            &&& reads_number(cached) == Some(u.cached_tokens)
            &&& is_absent(prompt_details) ==> u.prompt_tokens_details is None
            &&& !is_absent(prompt_details) ==> u.prompt_tokens_details
                == chunk::decode_prompt_details(prompt_details.unwrap())
            &&& is_absent(completion_details) ==> u.completion_tokens_details is None
            &&& !is_absent(completion_details) ==> u.completion_tokens_details
                == chunk::decode_completion_details(completion_details.unwrap())
        },
{
    let names = usage_names();
    assert(chunk::usage_names() == names);
    lemma_field_is_unique(s, names, 0, prompt);
    lemma_field_is_unique(s, names, 1, completion);
    lemma_field_is_unique(s, names, 2, total);
    lemma_field_is_unique(s, names, 3, cached);
    lemma_field_is_unique(s, names, 4, prompt_details);
    lemma_field_is_unique(s, names, 5, completion_details);
    law_records_hold_their_fields(s, names);
}

pub open spec fn error_names() -> Seq<Seq<char>> {
    seq!["message"@, "type"@]
}

/// An error decodes to its message.
pub proof fn law_errors_decode(s: Seq<u8>, message: Option<Seq<u8>>, kind: Option<Seq<u8>>)
    requires
        is_record(s, error_names()),
        has_field(s, 0, "message"@, message),
        has_field(s, 1, "type"@, kind),
    ensures
        chunk::decode_error(s) == (if reads_text(kind) is Some {
            reads_text(message)
        } else {
            None
        }),
{
    let names = error_names();
    lemma_field_is_unique(s, names, 0, message);
    lemma_field_is_unique(s, names, 1, kind);
    law_records_hold_their_fields(s, names);
}

pub open spec fn chunk_names() -> Seq<Seq<char>> {
    seq!["choices"@, "usage"@, "error"@]
}

/// A chunk decodes to its choices, its usage and its error.
pub proof fn law_chunks_decode(
    s: Seq<u8>,
    choices: Option<Seq<u8>>,
    usage: Option<Seq<u8>>,
    error: Option<Seq<u8>>,
)
    requires
        is_record(s, chunk_names()),
        has_field(s, 0, "choices"@, choices),
        has_field(s, 1, "usage"@, usage),
        has_field(s, 2, "error"@, error),
    ensures
        chunk::decode_chunk(s) is Some <==> {
            &&& is_absent(choices) || chunk::decode_choices(choices.unwrap()) is Some
            &&& is_absent(usage) || chunk::decode_usage(usage.unwrap()) is Some
            &&& is_absent(error) || chunk::decode_error(error.unwrap()) is Some
        },
        chunk::decode_chunk(s) matches Some(c) ==> {
            &&& is_absent(choices) ==> c.choices is None
            &&& !is_absent(choices) ==> c.choices == chunk::decode_choices(choices.unwrap())
            &&& is_absent(usage) ==> c.usage is None
            &&& !is_absent(usage) ==> c.usage == chunk::decode_usage(usage.unwrap())
            &&& is_absent(error) ==> c.error is None
            &&& !is_absent(error) ==> c.error == chunk::decode_error(error.unwrap())
        },
{
    let names = chunk_names();
    lemma_field_is_unique(s, names, 0, choices);
    lemma_field_is_unique(s, names, 1, usage);
    lemma_field_is_unique(s, names, 2, error);
    law_records_hold_their_fields(s, names);
}

/// A list decodes exactly if each of its elements does, and holds what they decode to.
pub proof fn law_lists_decode(s: Seq<u8>)
    ensures
        match (json::elements(s), chunk::decode_tool_calls(s)) {
            (Some(es), Some(calls)) => calls.len() == es.len() && forall|i: int|
                0 <= i < es.len() ==> chunk::decode_tool_call(#[trigger] es[i]) == Some(calls[i]),
            (Some(es), None) => exists|i: int|
                0 <= i < es.len() && chunk::decode_tool_call(#[trigger] es[i]) is None,
            (None, calls) => calls is None,
        },
        match (json::elements(s), chunk::decode_choices(s)) {
            (Some(es), Some(choices)) => choices.len() == es.len() && forall|i: int|
                0 <= i < es.len() ==> chunk::decode_choice(#[trigger] es[i]) == Some(choices[i]),
            (Some(es), None) => exists|i: int|
                0 <= i < es.len() && chunk::decode_choice(#[trigger] es[i]) is None,
            (None, choices) => choices is None,
        },
{
    if let Some(es) = json::elements(s) {
        let call = |v: Seq<u8>| chunk::decode_tool_call(v);
        if let Some(calls) = chunk::decode_tool_calls(s) {
            assert forall|i: int| 0 <= i < es.len() implies chunk::decode_tool_call(
                #[trigger] es[i],
            ) == Some(calls[i]) by {
                assert(call(es[i]) is Some);
            }
        } else {
            let i = choose|i: int| 0 <= i < es.len() && !(call(#[trigger] es[i]) is Some);
            assert(chunk::decode_tool_call(es[i]) is None);
        }
        let choice = |v: Seq<u8>| chunk::decode_choice(v);
        if let Some(choices) = chunk::decode_choices(s) {
            assert forall|i: int| 0 <= i < es.len() implies chunk::decode_choice(#[trigger] es[i])
                == Some(choices[i]) by {
                assert(choice(es[i]) is Some);
            }
        } else {
            let i = choose|i: int| 0 <= i < es.len() && !(choice(#[trigger] es[i]) is Some);
            assert(chunk::decode_choice(es[i]) is None);
        }
    }
}

/// What is no record, because it is neither an object nor an array, repeats a known field or has
/// too many elements, does not decode.
pub proof fn law_only_records_decode(s: Seq<u8>)
    ensures
        !is_record(s, function_names()) ==> chunk::decode_function(s) is None,
        !is_record(s, tool_call_names()) ==> chunk::decode_tool_call(s) is None,
        !is_record(s, delta_names()) ==> chunk::decode_delta(s) is None,
        !is_record(s, choice_names()) ==> chunk::decode_choice(s) is None,
        !is_record(s, prompt_details_names()) ==> chunk::decode_prompt_details(s) is None,
        !is_record(s, completion_details_names()) ==> chunk::decode_completion_details(s) is None,
        !is_record(s, usage_names()) ==> chunk::decode_usage(s) is None,
        !is_record(s, error_names()) ==> chunk::decode_error(s) is None,
        !is_record(s, chunk_names()) ==> chunk::decode_chunk(s) is None,
{
    assert(chunk::usage_names() == usage_names());
    law_records_hold_their_fields(s, function_names());
    law_records_hold_their_fields(s, tool_call_names());
    law_records_hold_their_fields(s, delta_names());
    law_records_hold_their_fields(s, choice_names());
    law_records_hold_their_fields(s, prompt_details_names());
    law_records_hold_their_fields(s, completion_details_names());
    law_records_hold_their_fields(s, usage_names());
    law_records_hold_their_fields(s, error_names());
    law_records_hold_their_fields(s, chunk_names());
}

/// Every field of a record has a value, if only that it is absent: the laws above leave no record
/// out.
pub proof fn law_fields_have_values(s: Seq<u8>, names: Seq<Seq<char>>, k: int)
    requires
        is_record(s, names),
        0 <= k < names.len(),
    ensures
        exists|v: Option<Seq<u8>>| #[trigger] has_field(s, k, names[k], v),
{
    law_records_hold_their_fields(s, names);
    assert(has_field(s, k, names[k], json::record(s, names).unwrap()[k]));
}

/// Each event of a body is decoded on its own, in order: the data of an event that holds a chunk
/// adds that chunk, and other data adds nothing.
pub proof fn law_events_are_decoded_one_by_one(texts: Seq<Seq<char>>, data: Seq<char>)
    ensures
        reducer::chunks_in(Seq::<Seq<char>>::empty()) == Seq::<chunk::Chunk>::empty(),
        reducer::chunks_in(texts.push(data)) == (match reducer::chunk_in(data) {
            Some(c) => reducer::chunks_in(texts).push(c),
            None => reducer::chunks_in(texts),
        }),
{
    let decode = |t: Seq<char>| reducer::chunk_in(t);
    reveal_with_fuel(Seq::filter_map, 2);
    assert(texts.push(data).drop_last() == texts);
    let all = texts.push(data).filter_map(decode);
    match reducer::chunk_in(data) {
        Some(c) => {
            assert(all =~= texts.filter_map(decode).push(c));
        },
        None => {
            assert(all =~= texts.filter_map(decode));
        },
    }
}

/// The data of an event, with the white space around it taken off, is decoded as it stands, unless
/// nothing is left or it is the end marker.
pub proof fn law_data_is_decoded_as_it_stands(
    before: Seq<char>,
    payload: Seq<char>,
    after: Seq<char>,
)
    requires
        forall|i: int| 0 <= i < before.len() ==> text::is_white_space(#[trigger] before[i]),
        forall|i: int| 0 <= i < after.len() ==> text::is_white_space(#[trigger] after[i]),
        payload.len() > 0 ==> !text::is_white_space(payload[0]) && !text::is_white_space(
            payload.last(),
        ),
    ensures
        reducer::chunk_in(before + payload + after) == (if payload.len() == 0 || payload
            == "[DONE]"@ {
            None
        } else {
            chunk::decode_chunk(vstd::utf8::encode_utf8(payload))
        }),
{
    lemma_trimmed(before, payload, after);
}

proof fn lemma_trimmed(before: Seq<char>, payload: Seq<char>, after: Seq<char>)
    requires
        forall|i: int| 0 <= i < before.len() ==> text::is_white_space(#[trigger] before[i]),
        forall|i: int| 0 <= i < after.len() ==> text::is_white_space(#[trigger] after[i]),
        payload.len() > 0 ==> !text::is_white_space(payload[0]) && !text::is_white_space(
            payload.last(),
        ),
    ensures
        text::trimmed(before + payload + after) == payload,
{
    let rest = payload + after;
    assert(before + payload + after == before + rest);
    if payload.len() > 0 {
        lemma_trimmed_start(before, rest);
        lemma_trimmed_end(payload, after);
    } else {
        let all = before + rest;
        assert forall|i: int| 0 <= i < all.len() implies text::is_white_space(#[trigger] all[i]) by {
            if i >= before.len() {
                assert(all[i] == after[i - before.len()]);
            }
        }
        assert(all + Seq::<char>::empty() == all);
        lemma_trimmed_start(all, Seq::empty());
        assert(payload == Seq::<char>::empty());
    }
}

proof fn lemma_trimmed_start(before: Seq<char>, rest: Seq<char>)
    requires
        forall|i: int| 0 <= i < before.len() ==> text::is_white_space(#[trigger] before[i]),
        rest.len() > 0 ==> !text::is_white_space(rest[0]),
    ensures
        text::trimmed_start(before + rest) == rest,
    decreases before.len(),
{
    if before.len() == 0 {
        assert(before + rest == rest);
    } else {
        let less = before.drop_first();
        assert forall|i: int| 0 <= i < less.len() implies text::is_white_space(
            #[trigger] less[i],
        ) by {
            assert(less[i] == before[i + 1]);
        }
        lemma_trimmed_start(less, rest);
        assert((before + rest)[0] == before[0]);
        assert((before + rest).drop_first() == less + rest);
    }
}

proof fn lemma_trimmed_end(payload: Seq<char>, after: Seq<char>)
    requires
        forall|i: int| 0 <= i < after.len() ==> text::is_white_space(#[trigger] after[i]),
        payload.len() > 0 ==> !text::is_white_space(payload.last()),
    ensures
        text::trimmed_end(payload + after) == payload,
    decreases after.len(),
{
    if after.len() == 0 {
        assert(payload + after == payload);
    } else {
        let less = after.drop_last();
        assert forall|i: int| 0 <= i < less.len() implies text::is_white_space(
            #[trigger] less[i],
        ) by {
            assert(less[i] == after[i]);
        }
        lemma_trimmed_end(payload, less);
        assert((payload + after).last() == after[after.len() - 1]);
        assert((payload + after).drop_last() == payload + less);
    }
}

/// The chunks of a body are those in the data of its events, each decoded from its bytes.
pub proof fn law_chunks_come_from_the_events(body: Seq<u8>)
    ensures
        reducer::chunks_of_body(body) == reducer::chunks_in(
            Seq::new(
                sse::payloads(body).len(),
                |i: int| text::utf8_lossy(sse::payloads(body)[i]),
            ),
        ),
{
    assert(sse::event_texts(body) =~= Seq::new(
        sse::payloads(body).len(),
        |i: int| text::utf8_lossy(sse::payloads(body)[i]),
    ));
}

/// The content of a decoded chunk shows each of its fields, down to the tool-call fragments.
pub proof fn law_chunks_show_their_fields(c: chunk::StreamChunk)
    ensures
        c@.usage == c.usage,
        match c.error {
            Some(e) => c@.error == Some(text::optional_text(e.message)),
            None => c@.error is None,
        },
        match c.choices {
            Some(v) => c@.choices matches Some(choices) && choices.len() == v@.len() && forall|
                i: int,
            |
                0 <= i < v@.len() ==> choices[i] == (#[trigger] v@[i])@,
            None => c@.choices is None,
        },
{
}

/// The content of a choice, a delta and a tool-call fragment shows each of their fields.
pub proof fn law_parts_show_their_fields(
    choice: chunk::StreamChoice,
    delta: chunk::StreamDelta,
    call: chunk::StreamToolCall,
    function: chunk::StreamToolCallFunction,
)
    ensures
        choice@.finish_reason == text::optional_text(choice.finish_reason),
        match choice.delta {
            Some(d) => choice@.delta == Some(d@),
            None => choice@.delta is None,
        },
        delta@.content == text::optional_text(delta.content),
        delta@.reasoning_content == text::optional_text(delta.reasoning_content),
        match delta.tool_calls {
            Some(v) => delta@.tool_calls matches Some(calls) && calls.len() == v@.len() && forall|
                i: int,
            |
                0 <= i < v@.len() ==> calls[i] == (#[trigger] v@[i])@,
            None => delta@.tool_calls is None,
        },
        call@.index == call.index,
        call@.id == text::optional_text(call.id),
        match call.function {
            Some(f) => call@.function == Some(f@),
            None => call@.function is None,
        },
        function@.name == text::optional_text(function.name),
        function@.arguments == text::optional_text(function.arguments),
{
}

/// The text of an optional string is that of the string.
pub proof fn law_optional_text_shows_the_string(s: Option<String>)
    ensures
        match s {
            Some(t) => text::optional_text(s) == Some(t@),
            None => text::optional_text(s) is None,
        },
{
}

/// Chunks, choices and tool calls are shown one by one, in their order, and so are the events of a
/// body and of a reduction.
pub proof fn law_sequences_show_their_items(
    chunks: Seq<chunk::StreamChunk>,
    frames: Seq<sse::SseEvent>,
    lines: Seq<Vec<u8>>,
    events: Seq<reducer::ReducerEvent>,
    body: Seq<u8>,
)
    ensures
        chunk::chunks_of(chunks).len() == chunks.len(),
        forall|i: int|
            0 <= i < chunks.len() ==> chunk::chunks_of(chunks)[i] == (#[trigger] chunks[i])@,
        sse::texts_of(frames).len() == frames.len(),
        forall|i: int|
            0 <= i < frames.len() ==> sse::texts_of(frames)[i] == (#[trigger] frames[i]).data@,
        sse::bytes_of(lines).len() == lines.len(),
        forall|i: int| 0 <= i < lines.len() ==> sse::bytes_of(lines)[i] == (#[trigger] lines[i])@,
        reducer::events_of(events).len() == events.len(),
        forall|i: int|
            0 <= i < events.len() ==> reducer::events_of(events)[i] == (#[trigger] events[i])@,
        sse::event_texts(body).len() == sse::payloads(body).len(),
        forall|i: int|
            0 <= i < sse::payloads(body).len() ==> sse::event_texts(body)[i] == text::utf8_lossy(
                #[trigger] sse::payloads(body)[i],
            ),
{
}

/// White space is what Unicode calls so: among the ASCII characters the tabulator, the line ends
/// and the space, and beyond them the next line, the spaces that do not break, of all widths, the
/// separators of lines and paragraphs, and the marks and spaces of other scripts. Nothing that JSON
/// or a message is made of is among them.
pub proof fn law_white_space_is_that_of_unicode(c: char)
    ensures
        (c as u32) < 0x80 ==> (text::is_white_space(c) <==> c == ' ' || c == '\t' || c == '\n' || c
            == '\r' || c as u32 == 0x0b || c as u32 == 0x0c),
        (c as u32) >= 0x80 ==> (text::is_white_space(c) <==> {
            let n = c as u32;
            ||| n == 0x85 || n == 0xa0 || n == 0x1680
            ||| n >= 0x2000 && n < 0x200b
            ||| n == 0x2028 || n == 0x2029 || n == 0x202f || n == 0x205f || n == 0x3000
        }),
{
}

} // verus!
