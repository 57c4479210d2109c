//! Decoding of one event of a streamed chat completion.
//!
//! A record is decoded field by field: a field that is absent or `null` is `None`, a field of
//! another type than expected fails the whole chunk, and unknown fields are ignored.
use vstd::prelude::*;

use crate::json;
use crate::text;

verus! {

/// One decoded event.
#[derive(Debug, Clone)]
pub struct StreamChunk {
    pub choices: Option<Vec<StreamChoice>>,
    pub usage: Option<StreamUsage>,
    pub error: Option<StreamError>,
}

#[derive(Debug, Clone)]
pub struct StreamChoice {
    pub delta: Option<StreamDelta>,
    pub finish_reason: Option<String>,
}

/// What a choice adds. Its `role` is checked to be a string and carries nothing else.
#[derive(Debug, Clone)]
pub struct StreamDelta {
    pub content: Option<String>,
    pub reasoning_content: Option<String>,
    pub tool_calls: Option<Vec<StreamToolCall>>,
}

/// A fragment of a tool call. Its `type` is checked to be a string and carries nothing else.
#[derive(Debug, Clone)]
pub struct StreamToolCall {
    pub index: usize,
    pub id: Option<String>,
    pub function: Option<StreamToolCallFunction>,
}

#[derive(Debug, Clone)]
pub struct StreamToolCallFunction {
    pub name: Option<String>,
    pub arguments: Option<String>,
}

#[derive(Debug, Clone, Copy)]
pub struct StreamUsage {
    pub prompt_tokens: Option<u64>,
    pub completion_tokens: Option<u64>,
    pub total_tokens: Option<u64>,
    pub cached_tokens: Option<u64>,
    pub prompt_tokens_details: Option<PromptTokensDetails>,
    pub completion_tokens_details: Option<CompletionTokensDetails>,
}

#[derive(Debug, Clone, Copy)]
pub struct PromptTokensDetails {
    pub cached_tokens: Option<u64>,
}

#[derive(Debug, Clone, Copy)]
pub struct CompletionTokensDetails {
    pub reasoning_tokens: Option<u64>,
}

/// An error reported by the upstream. Its `type` is checked to be a string and carries nothing
/// else.
#[derive(Debug, Clone)]
pub struct StreamError {
    pub message: Option<String>,
}

/// The content of a [`StreamChunk`].
pub struct Chunk {
    pub choices: Option<Seq<Choice>>,
    pub usage: Option<StreamUsage>,
    /// The message of an error, where the chunk reports one.
    pub error: Option<Option<Seq<char>>>,
}

/// The content of a [`StreamChoice`].
pub struct Choice {
    pub delta: Option<Delta>,
    pub finish_reason: Option<Seq<char>>,
}

/// The content of a [`StreamDelta`].
pub struct Delta {
    pub content: Option<Seq<char>>,
    pub reasoning_content: Option<Seq<char>>,
    pub tool_calls: Option<Seq<ToolCall>>,
}

/// The content of a [`StreamToolCall`].
pub struct ToolCall {
    pub index: nat,
    pub id: Option<Seq<char>>,
    pub function: Option<Function>,
}

/// The content of a [`StreamToolCallFunction`].
pub struct Function {
    pub name: Option<Seq<char>>,
    pub arguments: Option<Seq<char>>,
}

impl View for StreamToolCallFunction {
    type V = Function;

    open spec fn view(&self) -> Function {
        Function {
            name: text::optional_text(self.name),
            arguments: text::optional_text(self.arguments),
        }
    }
}

impl View for StreamToolCall {
    type V = ToolCall;

    open spec fn view(&self) -> ToolCall {
        ToolCall {
            index: self.index as nat,
            id: text::optional_text(self.id),
            function: match self.function {
                Some(f) => Some(f@),
                None => None,
            },
        }
    }
}

/// The contents of tool calls.
pub open spec fn tool_calls_of(v: Seq<StreamToolCall>) -> Seq<ToolCall> {
    v.map_values(|c: StreamToolCall| c@)
}

impl View for StreamDelta {
    type V = Delta;

    open spec fn view(&self) -> Delta {
        Delta {
            content: text::optional_text(self.content),
            reasoning_content: text::optional_text(self.reasoning_content),
            tool_calls: match self.tool_calls {
                Some(v) => Some(tool_calls_of(v@)),
                None => None,
            },
        }
    }
}

impl View for StreamChoice {
    type V = Choice;

    open spec fn view(&self) -> Choice {
        Choice {
            delta: match self.delta {
                Some(d) => Some(d@),
                None => None,
            },
            finish_reason: text::optional_text(self.finish_reason),
        }
    }
}

/// The contents of choices.
pub open spec fn choices_of(v: Seq<StreamChoice>) -> Seq<Choice> {
    v.map_values(|c: StreamChoice| c@)
}

impl View for StreamChunk {
    type V = Chunk;

    open spec fn view(&self) -> Chunk {
        Chunk {
            choices: match self.choices {
                Some(v) => Some(choices_of(v@)),
                None => None,
            },
            usage: self.usage,
            error: match self.error {
                Some(e) => Some(text::optional_text(e.message)),
                None => None,
            },
        }
    }
}

/// The contents of chunks.
pub open spec fn chunks_of(v: Seq<StreamChunk>) -> Seq<Chunk> {
    v.map_values(|c: StreamChunk| c@)
}

/// The value of a field that is neither absent nor `null`.
pub open spec fn present(field: Option<Seq<u8>>) -> Option<Seq<u8>> {
    match field {
        Some(s) => if json::byte_at(s, 0) == Some(110u8) {
            None
        } else {
            Some(s)
        },
        None => None,
    }
}

/// An optional string field.
pub open spec fn text_field(field: Option<Seq<u8>>) -> Option<Option<Seq<char>>> {
    match field {
        Some(s) => json::string_or_null(s),
        None => Some(None),
    }
}

/// An optional number field.
pub open spec fn number_field(field: Option<Seq<u8>>) -> Option<Option<u64>> {
    match field {
        Some(s) => json::u64_or_null(s),
        None => Some(None),
    }
}

/// An optional field that `decode` reads.
pub open spec fn optional_field<T>(
    field: Option<Seq<u8>>,
    decode: spec_fn(Seq<u8>) -> Option<T>,
) -> Option<Option<T>> {
    match present(field) {
        Some(s) => match decode(s) {
            Some(x) => Some(Some(x)),
            None => None,
        },
        None => Some(None),
    }
}

/// An array of which `decode` reads every element.
pub open spec fn list<T>(s: Seq<u8>, decode: spec_fn(Seq<u8>) -> Option<T>) -> Option<Seq<T>> {
    match json::elements(s) {
        Some(items) => if forall|i: int| 0 <= i < items.len() ==> decode(#[trigger] items[i]) is Some {
            Some(items.map_values(|item: Seq<u8>| decode(item).unwrap()))
        } else {
            None
        },
        None => None,
    }
}

pub open spec fn decode_function(s: Seq<u8>) -> Option<Function> {
    match json::record(s, seq!["name"@, "arguments"@]) {
        Some(f) => match (text_field(f[0]), text_field(f[1])) {
            (Some(name), Some(arguments)) => Some(Function { name, arguments }),
            _ => None,
        },
        None => None,
    }
}

/// A tool call has to have an index, and it has to fit a `usize`.
pub open spec fn decode_tool_call(s: Seq<u8>) -> Option<ToolCall> {
    match json::record(s, seq!["index"@, "id"@, "type"@, "function"@]) {
        Some(f) => match (
            number_field(f[0]),
            text_field(f[1]),
            text_field(f[2]),
            optional_field(f[3], |v: Seq<u8>| decode_function(v)),
        ) {
            (Some(Some(index)), Some(id), Some(_), Some(function)) => if index <= usize::MAX {
                Some(ToolCall { index: index as nat, id, function })
            } else {
                None
            },
            _ => None,
        },
        None => None,
    }
}

pub open spec fn decode_tool_calls(s: Seq<u8>) -> Option<Seq<ToolCall>> {
    list(s, |v: Seq<u8>| decode_tool_call(v))
}

pub open spec fn decode_delta(s: Seq<u8>) -> Option<Delta> {
    match json::record(s, seq!["role"@, "content"@, "reasoning_content"@, "tool_calls"@]) {
        Some(f) => match (
            text_field(f[0]),
            text_field(f[1]),
            text_field(f[2]),
            optional_field(f[3], |v: Seq<u8>| decode_tool_calls(v)),
        ) {
            (Some(_), Some(content), Some(reasoning_content), Some(tool_calls)) => Some(
                Delta { content, reasoning_content, tool_calls },
            ),
            _ => None,
        },
        None => None,
    }
}

pub open spec fn decode_choice(s: Seq<u8>) -> Option<Choice> {
    match json::record(s, seq!["delta"@, "finish_reason"@]) {
        Some(f) => match (optional_field(f[0], |v: Seq<u8>| decode_delta(v)), text_field(f[1])) {
            (Some(delta), Some(finish_reason)) => Some(Choice { delta, finish_reason }),
            _ => None,
        },
        None => None,
    }
}

pub open spec fn decode_choices(s: Seq<u8>) -> Option<Seq<Choice>> {
    list(s, |v: Seq<u8>| decode_choice(v))
}

pub open spec fn decode_prompt_details(s: Seq<u8>) -> Option<PromptTokensDetails> {
    match json::record(s, seq!["cached_tokens"@]) {
        Some(f) => match number_field(f[0]) {
            Some(cached_tokens) => Some(PromptTokensDetails { cached_tokens }),
            None => None,
        },
        None => None,
    }
}

pub open spec fn decode_completion_details(s: Seq<u8>) -> Option<CompletionTokensDetails> {
    match json::record(s, seq!["reasoning_tokens"@]) {
        Some(f) => match number_field(f[0]) {
            Some(reasoning_tokens) => Some(CompletionTokensDetails { reasoning_tokens }),
            None => None,
        },
        None => None,
    }
}

pub open spec fn usage_names() -> Seq<Seq<char>> {
    seq![
        "prompt_tokens"@,
        "completion_tokens"@,
        "total_tokens"@,
        "cached_tokens"@,
        "prompt_tokens_details"@,
        "completion_tokens_details"@,
    ]
}

pub open spec fn decode_usage(s: Seq<u8>) -> Option<StreamUsage> {
    match json::record(s, usage_names()) {
        Some(f) => match (
            number_field(f[0]),
            number_field(f[1]),
            number_field(f[2]),
            number_field(f[3]),
            optional_field(f[4], |v: Seq<u8>| decode_prompt_details(v)),
            optional_field(f[5], |v: Seq<u8>| decode_completion_details(v)),
        ) {
            (Some(p), Some(c), Some(t), Some(k), Some(pd), Some(cd)) => Some(
                StreamUsage {
                    prompt_tokens: p,
                    completion_tokens: c,
                    total_tokens: t,
                    cached_tokens: k,
                    prompt_tokens_details: pd,
                    completion_tokens_details: cd,
                },
            ),
            _ => None,
        },
        None => None,
    }
}

/// The message of an error record.
pub open spec fn decode_error(s: Seq<u8>) -> Option<Option<Seq<char>>> {
    match json::record(s, seq!["message"@, "type"@]) {
        Some(f) => match (text_field(f[0]), text_field(f[1])) {
            (Some(message), Some(_)) => Some(message),
            _ => None,
        },
        None => None,
    }
}

/// The chunk that a JSON text holds, if it holds one.
pub open spec fn decode_chunk(s: Seq<u8>) -> Option<Chunk> {
    match json::record(s, seq!["choices"@, "usage"@, "error"@]) {
        Some(f) => match (
            optional_field(f[0], |v: Seq<u8>| decode_choices(v)),
            optional_field(f[1], |v: Seq<u8>| decode_usage(v)),
            optional_field(f[2], |v: Seq<u8>| decode_error(v)),
        ) {
            (Some(choices), Some(usage), Some(error)) => Some(Chunk { choices, usage, error }),
            _ => None,
        },
        None => None,
    }
}

fn read_present<'a>(field: Option<&'a [u8]>) -> (r: Option<&'a [u8]>)
    ensures
        json::optional_slice(r) == present(json::optional_slice(field)),
{
    match field {
        Some(s) => if s.len() > 0 && s[0] == 110 {
            None
        } else {
            Some(s)
        },
        None => None,
    }
}

fn read_text(field: Option<&[u8]>) -> (r: Option<Option<String>>)
    ensures
        json::text_or_null(r) == text_field(json::optional_slice(field)),
{
    match field {
        Some(s) => json::parse_string(s),
        None => Some(None),
    }
}

fn read_number(field: Option<&[u8]>) -> (r: Option<Option<u64>>)
    ensures
        r == number_field(json::optional_slice(field)),
{
    match field {
        Some(s) => json::parse_u64(s),
        None => Some(None),
    }
}

fn read_function(s: &[u8]) -> (r: Option<StreamToolCallFunction>)
    ensures
        match r {
            Some(f) => decode_function(s@) == Some(f@),
            None => decode_function(s@) is None,
        },
{
    let names = ["name", "arguments"];
    proof {
        assert(json::names_of(names@) =~= seq!["name"@, "arguments"@]);
    }
    let fields = match json::record_fields(s, &names) {
        Some(fields) => fields,
        None => return None,
    };
    match (read_text(fields[0]), read_text(fields[1])) {
        (Some(name), Some(arguments)) => Some(StreamToolCallFunction { name, arguments }),
        _ => None,
    }
}

fn read_optional_function(field: Option<&[u8]>) -> (r: Option<Option<StreamToolCallFunction>>)
    ensures
        match r {
            Some(v) => optional_field(json::optional_slice(field), |s: Seq<u8>| decode_function(s)) == Some(
                match v {
                    Some(x) => Some(x@),
                    None => None,
                },
            ),
            None => optional_field(json::optional_slice(field), |s: Seq<u8>| decode_function(s)) is None,
        },
{
    match read_present(field) {
        Some(s) => match read_function(s) {
            Some(x) => Some(Some(x)),
            None => None,
        },
        None => Some(None),
    }
}

fn read_tool_call(s: &[u8]) -> (r: Option<StreamToolCall>)
    ensures
        match r {
            Some(v) => decode_tool_call(s@) == Some(v@),
            None => decode_tool_call(s@) is None,
        },
{
    let names = ["index", "id", "type", "function"];
    proof {
        assert(json::names_of(names@) =~= seq!["index"@, "id"@, "type"@, "function"@]);
    }
    let fields = match json::record_fields(s, &names) {
        Some(fields) => fields,
        None => return None,
    };
    let function = read_optional_function(fields[3]);
    match (read_number(fields[0]), read_text(fields[1]), read_text(fields[2]), function) {
        (Some(Some(index)), Some(id), Some(_), Some(function)) => if index <= usize::MAX as u64 {
            Some(StreamToolCall { index: index as usize, id, function })
        } else {
            None
        },
        _ => None,
    }
}

fn read_tool_calls(s: &[u8]) -> (r: Option<Vec<StreamToolCall>>)
    ensures
        match r {
            Some(v) => decode_tool_calls(s@) == Some(tool_calls_of(v@)),
            None => decode_tool_calls(s@) is None,
        },
{
    let items = match json::array_elements(s) {
        Some(items) => items,
        None => return None,
    };
    let ghost all = json::slices_of(items@);
    let ghost decode = |v: Seq<u8>| decode_tool_call(v);
    let mut out: Vec<StreamToolCall> = Vec::new();
    let mut i: usize = 0;
    while i < items.len()
        invariant
            i <= items@.len(),
            all == json::slices_of(items@),
            json::elements(s@) == Some(all),
            decode == (|v: Seq<u8>| decode_tool_call(v)),
            out@.len() == i,
            forall|k: int| 0 <= k < i ==> decode(all[k]) == Some((#[trigger] out@[k])@),
        decreases items@.len() - i,
    {
        proof {
            assert(all[i as int] == items@[i as int]@);
        }
        match read_tool_call(items[i]) {
            Some(x) => out.push(x),
            None => {
                proof {
                    assert(decode(all[i as int]) is None);
                }
                return None;
            },
        }
        i = i + 1;
    }
    proof {
        assert forall|k: int| 0 <= k < all.len() implies decode(#[trigger] all[k]) is Some by {
            assert(decode(all[k]) == Some(out@[k]@));
        }
        let expected = all.map_values(|item: Seq<u8>| decode(item).unwrap());
        assert forall|k: int| 0 <= k < all.len() implies expected[k] == #[trigger] tool_calls_of(out@)[k] by {
            assert(decode(all[k]) == Some(out@[k]@));
        }
        assert(tool_calls_of(out@) =~= expected);
    }
    Some(out)
}

fn read_optional_tool_calls(field: Option<&[u8]>) -> (r: Option<Option<Vec<StreamToolCall>>>)
    ensures
        match r {
            Some(v) => optional_field(json::optional_slice(field), |s: Seq<u8>| decode_tool_calls(s)) == Some(
                match v {
                    Some(x) => Some(tool_calls_of(x@)),
                    None => None,
                },
            ),
            None => optional_field(json::optional_slice(field), |s: Seq<u8>| decode_tool_calls(s)) is None,
        },
{
    match read_present(field) {
        Some(s) => match read_tool_calls(s) {
            Some(x) => Some(Some(x)),
            None => None,
        },
        None => Some(None),
    }
}

fn read_delta(s: &[u8]) -> (r: Option<StreamDelta>)
    ensures
        match r {
            Some(v) => decode_delta(s@) == Some(v@),
            None => decode_delta(s@) is None,
        },
{
    let names = ["role", "content", "reasoning_content", "tool_calls"];
    proof {
        assert(json::names_of(names@) =~= seq!["role"@, "content"@, "reasoning_content"@, "tool_calls"@]);
    }
    let fields = match json::record_fields(s, &names) {
        Some(fields) => fields,
        None => return None,
    };
    let tool_calls = read_optional_tool_calls(fields[3]);
    match (read_text(fields[0]), read_text(fields[1]), read_text(fields[2]), tool_calls) {
        (Some(_), Some(content), Some(reasoning_content), Some(tool_calls)) => Some(
            StreamDelta { content, reasoning_content, tool_calls },
        ),
        _ => None,
    }
}

fn read_optional_delta(field: Option<&[u8]>) -> (r: Option<Option<StreamDelta>>)
    ensures
        match r {
            Some(v) => optional_field(json::optional_slice(field), |s: Seq<u8>| decode_delta(s)) == Some(
                match v {
                    Some(x) => Some(x@),
                    None => None,
                },
            ),
            None => optional_field(json::optional_slice(field), |s: Seq<u8>| decode_delta(s)) is None,
        },
{
    match read_present(field) {
        Some(s) => match read_delta(s) {
            Some(x) => Some(Some(x)),
            None => None,
        },
        None => Some(None),
    }
}

fn read_choice(s: &[u8]) -> (r: Option<StreamChoice>)
    ensures
        match r {
            Some(v) => decode_choice(s@) == Some(v@),
            None => decode_choice(s@) is None,
        },
{
    let names = ["delta", "finish_reason"];
    proof {
        assert(json::names_of(names@) =~= seq!["delta"@, "finish_reason"@]);
    }
    let fields = match json::record_fields(s, &names) {
        Some(fields) => fields,
        None => return None,
    };
    match (read_optional_delta(fields[0]), read_text(fields[1])) {
        (Some(delta), Some(finish_reason)) => Some(StreamChoice { delta, finish_reason }),
        _ => None,
    }
}

fn read_choices(s: &[u8]) -> (r: Option<Vec<StreamChoice>>)
    ensures
        match r {
            Some(v) => decode_choices(s@) == Some(choices_of(v@)),
            None => decode_choices(s@) is None,
        },
{
    let items = match json::array_elements(s) {
        Some(items) => items,
        None => return None,
    };
    let ghost all = json::slices_of(items@);
    let ghost decode = |v: Seq<u8>| decode_choice(v);
    let mut out: Vec<StreamChoice> = Vec::new();
    let mut i: usize = 0;
    while i < items.len()
        invariant
            i <= items@.len(),
            all == json::slices_of(items@),
            json::elements(s@) == Some(all),
            decode == (|v: Seq<u8>| decode_choice(v)),
            out@.len() == i,
            forall|k: int| 0 <= k < i ==> decode(all[k]) == Some((#[trigger] out@[k])@),
        decreases items@.len() - i,
    {
        proof {
            assert(all[i as int] == items@[i as int]@);
        }
        match read_choice(items[i]) {
            Some(x) => out.push(x),
            None => {
                proof {
                    assert(decode(all[i as int]) is None);
                }
                return None;
            },
        }
        i = i + 1;
    }
    proof {
        assert forall|k: int| 0 <= k < all.len() implies decode(#[trigger] all[k]) is Some by {
            assert(decode(all[k]) == Some(out@[k]@));
        }
        let expected = all.map_values(|item: Seq<u8>| decode(item).unwrap());
        assert forall|k: int| 0 <= k < all.len() implies expected[k] == #[trigger] choices_of(out@)[k] by {
            assert(decode(all[k]) == Some(out@[k]@));
        }
        assert(choices_of(out@) =~= expected);
    }
    Some(out)
}

fn read_optional_choices(field: Option<&[u8]>) -> (r: Option<Option<Vec<StreamChoice>>>)
    ensures
        match r {
            Some(v) => optional_field(json::optional_slice(field), |s: Seq<u8>| decode_choices(s)) == Some(
                match v {
                    Some(x) => Some(choices_of(x@)),
                    None => None,
                },
            ),
            None => optional_field(json::optional_slice(field), |s: Seq<u8>| decode_choices(s)) is None,
        },
{
    match read_present(field) {
        Some(s) => match read_choices(s) {
            Some(x) => Some(Some(x)),
            None => None,
        },
        None => Some(None),
    }
}

fn read_prompt_details(s: &[u8]) -> (r: Option<PromptTokensDetails>)
    ensures
        match r {
            Some(v) => decode_prompt_details(s@) == Some(v),
            None => decode_prompt_details(s@) is None,
        },
{
    let names = ["cached_tokens"];
    proof {
        assert(json::names_of(names@) =~= seq!["cached_tokens"@]);
    }
    let fields = match json::record_fields(s, &names) {
        Some(fields) => fields,
        None => return None,
    };
    match read_number(fields[0]) {
        Some(cached_tokens) => Some(PromptTokensDetails { cached_tokens }),
        None => None,
    }
}

fn read_optional_prompt_details(field: Option<&[u8]>) -> (r: Option<Option<PromptTokensDetails>>)
    ensures
        match r {
            Some(v) => optional_field(json::optional_slice(field), |s: Seq<u8>| decode_prompt_details(s)) == Some(
                match v {
                    Some(x) => Some(x),
                    None => None,
                },
            ),
            None => optional_field(json::optional_slice(field), |s: Seq<u8>| decode_prompt_details(s)) is None,
        },
{
    match read_present(field) {
        Some(s) => match read_prompt_details(s) {
            Some(x) => Some(Some(x)),
            None => None,
        },
        None => Some(None),
    }
}

fn read_completion_details(s: &[u8]) -> (r: Option<CompletionTokensDetails>)
    ensures
        match r {
            Some(v) => decode_completion_details(s@) == Some(v),
            None => decode_completion_details(s@) is None,
        },
{
    let names = ["reasoning_tokens"];
    proof {
        assert(json::names_of(names@) =~= seq!["reasoning_tokens"@]);
    }
    let fields = match json::record_fields(s, &names) {
        Some(fields) => fields,
        None => return None,
    };
    match read_number(fields[0]) {
        Some(reasoning_tokens) => Some(CompletionTokensDetails { reasoning_tokens }),
        None => None,
    }
}

fn read_optional_completion_details(field: Option<&[u8]>) -> (r: Option<Option<CompletionTokensDetails>>)
    ensures
        match r {
            Some(v) => optional_field(json::optional_slice(field), |s: Seq<u8>| decode_completion_details(s)) == Some(
                match v {
                    Some(x) => Some(x),
                    None => None,
                },
            ),
            None => optional_field(json::optional_slice(field), |s: Seq<u8>| decode_completion_details(s)) is None,
        },
{
    match read_present(field) {
        Some(s) => match read_completion_details(s) {
            Some(x) => Some(Some(x)),
            None => None,
        },
        None => Some(None),
    }
}

fn read_usage(s: &[u8]) -> (r: Option<StreamUsage>)
    ensures
        match r {
            Some(v) => decode_usage(s@) == Some(v),
            None => decode_usage(s@) is None,
        },
{
    let names = ["prompt_tokens", "completion_tokens", "total_tokens", "cached_tokens", "prompt_tokens_details", "completion_tokens_details"];
    proof {
        assert(json::names_of(names@) =~= usage_names());
    }
    let fields = match json::record_fields(s, &names) {
        Some(fields) => fields,
        None => return None,
    };
    let prompt_details = read_optional_prompt_details(fields[4]);
    let completion_details = read_optional_completion_details(fields[5]);
    match (
        read_number(fields[0]),
        read_number(fields[1]),
        read_number(fields[2]),
        read_number(fields[3]),
        prompt_details,
        completion_details,
    ) {
        (Some(p), Some(c), Some(t), Some(k), Some(pd), Some(cd)) => Some(
            StreamUsage {
                prompt_tokens: p,
                completion_tokens: c,
                total_tokens: t,
                cached_tokens: k,
                prompt_tokens_details: pd,
                completion_tokens_details: cd,
            },
        ),
        _ => None,
    }
}

fn read_optional_usage(field: Option<&[u8]>) -> (r: Option<Option<StreamUsage>>)
    ensures
        match r {
            Some(v) => optional_field(json::optional_slice(field), |s: Seq<u8>| decode_usage(s)) == Some(
                match v {
                    Some(x) => Some(x),
                    None => None,
                },
            ),
            None => optional_field(json::optional_slice(field), |s: Seq<u8>| decode_usage(s)) is None,
        },
{
    match read_present(field) {
        Some(s) => match read_usage(s) {
            Some(x) => Some(Some(x)),
            None => None,
        },
        None => Some(None),
    }
}

fn read_error(s: &[u8]) -> (r: Option<StreamError>)
    ensures
        match r {
            Some(v) => decode_error(s@) == Some(text::optional_text(v.message)),
            None => decode_error(s@) is None,
        },
{
    let names = ["message", "type"];
    proof {
        assert(json::names_of(names@) =~= seq!["message"@, "type"@]);
    }
    let fields = match json::record_fields(s, &names) {
        Some(fields) => fields,
        None => return None,
    };
    match (read_text(fields[0]), read_text(fields[1])) {
        (Some(message), Some(_)) => Some(StreamError { message }),
        _ => None,
    }
}

fn read_optional_error(field: Option<&[u8]>) -> (r: Option<Option<StreamError>>)
    ensures
        match r {
            Some(v) => optional_field(json::optional_slice(field), |s: Seq<u8>| decode_error(s)) == Some(
                match v {
                    Some(x) => Some(text::optional_text(x.message)),
                    None => None,
                },
            ),
            None => optional_field(json::optional_slice(field), |s: Seq<u8>| decode_error(s)) is None,
        },
{
    match read_present(field) {
        Some(s) => match read_error(s) {
            Some(x) => Some(Some(x)),
            None => None,
        },
        None => Some(None),
    }
}

/// Decodes a chunk. The text of one has no white space around it.
pub fn read_chunk(s: &[u8]) -> (r: Option<StreamChunk>)
    ensures
        match r {
            Some(v) => decode_chunk(s@) == Some(v@),
            None => decode_chunk(s@) is None,
        },
{
    let names = ["choices", "usage", "error"];
    proof {
        assert(json::names_of(names@) =~= seq!["choices"@, "usage"@, "error"@]);
    }
    let fields = match json::record_fields(s, &names) {
        Some(fields) => fields,
        None => return None,
    };
    let choices = read_optional_choices(fields[0]);
    let usage = read_optional_usage(fields[1]);
    match (choices, usage, read_optional_error(fields[2])) {
        (Some(choices), Some(usage), Some(error)) => Some(StreamChunk { choices, usage, error }),
        _ => None,
    }
}

} // verus!
