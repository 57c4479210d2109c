use provider_proxy::chunk::{CompletionTokensDetails, PromptTokensDetails, StreamUsage};
use provider_proxy::reducer::{
    decode_events, kimi_usage_from_stream, map_usage_to_anthropic, reduce_chunks,
    reduce_upstream_bytes, AnthropicUsage, KimiUsage, ReducerEvent, UpstreamErrorKind,
};
use provider_proxy::sse::parse_sse_events;

fn body(chunks: &[&str]) -> String {
    chunks.iter().map(|c| format!("data: {c}\n\n")).collect()
}

/// The events of a body, one line each.
fn trace(chunks: &[&str]) -> Vec<String> {
    let events = reduce_upstream_bytes(body(chunks).as_bytes()).unwrap();
    events.iter().map(describe).collect()
}

fn describe(e: &ReducerEvent) -> String {
    match e {
        ReducerEvent::ThinkingStart { index } => format!("{index} thinking"),
        ReducerEvent::ThinkingDelta { index, text } => format!("{index} thinks {text}"),
        ReducerEvent::ThinkingStop { index } => format!("{index} thought"),
        ReducerEvent::TextStart { index } => format!("{index} text"),
        ReducerEvent::TextDelta { index, text } => format!("{index} says {text}"),
        ReducerEvent::TextStop { index } => format!("{index} said"),
        ReducerEvent::ToolStart { index, id, name } => format!("{index} tool {id} {name}"),
        ReducerEvent::ToolDelta { index, partial_json } => format!("{index} args {partial_json}"),
        ReducerEvent::ToolStop { index } => format!("{index} called"),
        ReducerEvent::Finish { stop_reason, usage } => {
            format!("{stop_reason:?} {:?}", usage.as_ref().map(|u| u.prompt_tokens))
        }
    }
}

fn delta(s: &str) -> String {
    format!("{{\"choices\":[{{\"delta\":{s}}}]}}")
}

fn thinks(s: &str) -> String {
    delta(&format!("{{\"reasoning_content\":\"{s}\"}}"))
}

fn says(s: &str) -> String {
    delta(&format!("{{\"content\":\"{s}\"}}"))
}

fn calls(s: &str) -> String {
    delta(&format!("{{\"tool_calls\":[{s}]}}"))
}

fn opening(index: u64, id: &str, name: &str) -> String {
    format!("{{\"index\":{index},\"id\":\"{id}\",\"function\":{{\"name\":\"{name}\"}}}}")
}

fn fragment(index: u64, args: &str) -> String {
    format!("{{\"index\":{index},\"function\":{{\"arguments\":\"{args}\"}}}}")
}

#[test]
fn blocks_follow_one_another() {
    let two = format!("{},{}", opening(0, "a", "f"), fragment(0, "x"));
    assert_eq!(
        trace(&[&thinks("t"), &says("s"), &calls(&two)]),
        vec![
            "0 thinking", "0 thinks t", "0 thought", "1 text", "1 says s", "1 said", "2 tool a f",
            "2 args x", "2 called", "ToolUse None",
        ]
    );
}

#[test]
fn thinking_after_text_opens_a_block_beside_it() {
    assert_eq!(
        trace(&[&says("a"), &thinks("t"), &says("b")]),
        vec![
            "0 text", "0 says a", "1 thinking", "1 thinks t", "1 thought", "0 says b", "0 said",
            "EndTurn None",
        ]
    );
}

#[test]
fn text_after_a_tool_call_opens_a_new_block() {
    assert_eq!(
        trace(&[&says("a"), &calls(&opening(0, "c", "f")), &says("b"), &calls(&fragment(0, "x"))]),
        vec![
            "0 text", "0 says a", "0 said", "1 tool c f", "2 text", "2 says b", "2 said", "1 args x",
            "1 called", "ToolUse None",
        ]
    );
}

#[test]
fn one_delta_may_hold_everything() {
    let d = "{\"content\":\"s\",\"reasoning_content\":\"t\",\"tool_calls\":[]}";
    assert_eq!(
        trace(&[&delta(d)]),
        vec!["0 thinking", "0 thinks t", "0 thought", "1 text", "1 says s", "1 said", "EndTurn None"]
    );
}

#[test]
fn empty_texts_open_no_block() {
    assert_eq!(trace(&[&thinks(""), &says(""), &delta("{}")]), vec!["EndTurn None"]);
    let call = calls(&format!("{},{}", opening(0, "c", "f"), fragment(0, "")));
    assert_eq!(trace(&[&call]), vec!["0 tool c f", "0 called", "ToolUse None"]);
}

#[test]
fn fragments_of_an_unopened_call_are_dropped() {
    let unnamed = calls("{\"index\":0,\"id\":\"c\"}");
    let anonymous = calls("{\"index\":0,\"function\":{\"name\":\"f\",\"arguments\":\"x\"}}");
    // They still end the text that comes before them.
    assert_eq!(
        trace(&[&says("a"), &unnamed, &anonymous, &calls(&fragment(0, "y"))]),
        vec!["0 text", "0 says a", "0 said", "EndTurn None"]
    );
    assert_eq!(
        trace(&[&calls(&fragment(3, "x")), &calls(&opening(3, "c", "f")), &calls(&fragment(3, "y"))]),
        vec!["0 tool c f", "0 args y", "0 called", "ToolUse None"]
    );
}

#[test]
fn a_second_opening_of_a_call_only_adds_arguments() {
    let again = "{\"index\":0,\"id\":\"d\",\"function\":{\"name\":\"g\",\"arguments\":\"x\"}}";
    assert_eq!(
        trace(&[&calls(&opening(0, "c", "f")), &calls(again)]),
        vec!["0 tool c f", "0 args x", "0 called", "ToolUse None"]
    );
}

#[test]
fn calls_stay_apart_whatever_their_order() {
    let both = format!("{},{}", fragment(9, "p"), fragment(2, "q"));
    assert_eq!(
        trace(&[&calls(&opening(9, "c", "f")), &calls(&opening(2, "d", "g")), &calls(&both)]),
        vec![
            "0 tool c f", "1 tool d g", "0 args p", "1 args q", "0 called", "1 called",
            "ToolUse None",
        ]
    );
}

#[test]
fn only_the_first_choice_counts() {
    let c = "{\"choices\":[{\"delta\":{\"content\":\"a\"}},{\"delta\":{\"content\":\"b\"}}]}";
    assert_eq!(trace(&[c]), vec!["0 text", "0 says a", "0 said", "EndTurn None"]);
}

#[test]
fn stop_reason_follows_the_last_finish_reason() {
    let finish = |r: &str| format!("{{\"choices\":[{{\"finish_reason\":\"{r}\"}}]}}");
    let tool = calls(&opening(0, "c", "f"));
    assert_eq!(trace(&[&finish("stop")]), vec!["EndTurn None"]);
    assert_eq!(trace(&[&finish("length")]), vec!["MaxTokens None"]);
    assert_eq!(trace(&[&finish("tool_calls")]), vec!["ToolUse None"]);
    assert_eq!(trace(&[&finish("length"), &finish("other")]), vec!["EndTurn None"]);
    assert_eq!(trace(&[&tool, &finish("stop")])[2], "ToolUse None");
    assert_eq!(trace(&[&tool, &finish("length")])[2], "MaxTokens None");
}

#[test]
fn usage_comes_with_a_finish_reason_or_alone() {
    let usage = |n: u64| format!("\"usage\":{{\"prompt_tokens\":{n}}}");
    let alone = format!("{{{}}}", usage(1));
    let empty = format!("{{\"choices\":[],{}}}", usage(2));
    let finished = format!("{{\"choices\":[{{\"finish_reason\":\"stop\"}}],{}}}", usage(3));
    let last = format!("{{\"choices\":[{{\"delta\":{{}},\"finish_reason\":\"stop\"}}],{}}}", usage(4));
    let midway = format!("{{\"choices\":[{{\"delta\":{{}}}}],{}}}", usage(5));
    let bare = format!("{{\"choices\":[{{}}],{}}}", usage(6));
    assert_eq!(trace(&[&alone]), vec!["EndTurn Some(Some(1))"]);
    assert_eq!(trace(&[&empty]), vec!["EndTurn Some(Some(2))"]);
    assert_eq!(trace(&[&finished]), vec!["EndTurn Some(Some(3))"]);
    assert_eq!(trace(&[&last]), vec!["EndTurn Some(Some(4))"]);
    assert_eq!(trace(&[&midway]), vec!["EndTurn None"]);
    assert_eq!(trace(&[&bare]), vec!["EndTurn None"]);
    assert_eq!(trace(&[&finished, &alone, &midway]), vec!["EndTurn Some(Some(1))"]);
}

#[test]
fn the_first_error_ends_the_stream() {
    let b = body(&[&says("a"), "{\"error\":{}}", "{\"error\":{\"message\":\"late\"}}"]);
    let e = reduce_upstream_bytes(b.as_bytes()).unwrap_err();
    assert_eq!(e.kind, UpstreamErrorKind::Failed);
    assert_eq!(e.message, "Upstream error");
    assert_eq!(e.retry_after_seconds, None);
    let b = body(&["{\"error\":{\"message\":\"m\"},\"usage\":{}}"]);
    assert_eq!(reduce_upstream_bytes(b.as_bytes()).unwrap_err().message, "m");
    let b = body(&["{\"error\":null}", "{\"error\":1}"]);
    assert!(reduce_upstream_bytes(b.as_bytes()).is_ok());
}

#[test]
fn data_is_trimmed_of_all_white_space() {
    let padded = format!("\u{3000}\u{a0}{}\u{2003}", says("a"));
    assert_eq!(trace(&[&padded])[1], "0 says a");
    assert_eq!(trace(&["\u{2003}[DONE]\u{85}", "  ", "\u{200b}"]), vec!["EndTurn None"]);
}

#[test]
fn stages_compose() {
    let b = body(&[&says("a"), "[DONE]", "oops", &says("b")]);
    let chunks = decode_events(&parse_sse_events(b.as_bytes()));
    assert_eq!(chunks.len(), 2);
    let events = reduce_chunks(&chunks).unwrap();
    let direct = reduce_upstream_bytes(b.as_bytes()).unwrap();
    let lines: Vec<String> = events.iter().map(describe).collect();
    let expected: Vec<String> = direct.iter().map(describe).collect();
    assert_eq!(lines, expected);
}

#[test]
fn detailed_counts_take_precedence() {
    let mut u = StreamUsage {
        prompt_tokens: Some(10),
        completion_tokens: Some(4),
        total_tokens: Some(14),
        cached_tokens: Some(3),
        prompt_tokens_details: Some(PromptTokensDetails { cached_tokens: Some(6) }),
        completion_tokens_details: Some(CompletionTokensDetails { reasoning_tokens: Some(2) }),
    };
    let k = kimi_usage_from_stream(&u);
    assert_eq!(k.cached_tokens, Some(6));
    assert_eq!(k.reasoning_tokens, Some(2));
    assert_eq!(k.total_tokens, Some(14));
    u.prompt_tokens_details = Some(PromptTokensDetails { cached_tokens: None });
    u.completion_tokens_details = None;
    let k = kimi_usage_from_stream(&u);
    assert_eq!(k.cached_tokens, Some(3));
    assert_eq!(k.reasoning_tokens, None);
}

#[test]
fn usage_never_goes_below_zero() {
    let mut k = KimiUsage::default();
    k.prompt_tokens = Some(5);
    k.cached_tokens = Some(8);
    let a = map_usage_to_anthropic(&Some(k));
    assert_eq!((a.input_tokens, a.cache_read_input_tokens), (0, 8));
    assert_eq!((a.output_tokens, a.cache_creation_input_tokens), (0, 0));
    let none = map_usage_to_anthropic(&None);
    let default = AnthropicUsage::default();
    assert_eq!(none.input_tokens, default.input_tokens);
    assert_eq!(none.cache_read_input_tokens, 0);
}

#[test]
fn events_without_a_chunk_can_be_left_out() {
    let head = body(&[&thinks("t"), &says("a")]);
    let tail = body(&[&says("b"), &calls(&opening(0, "c", "f"))]);
    let expected = trace(&[&thinks("t"), &says("a"), &says("b"), &calls(&opening(0, "c", "f"))]);
    for skipped in [
        "data: [DONE]\n\n", "data: oops\r\n\r\n", ": ping\n\n", "event: x\ndata: 1\ndata: 2\n\n",
        "data:\r\r", "\n",
    ] {
        let b = format!("{head}{skipped}{tail}");
        let events = reduce_upstream_bytes(b.as_bytes()).unwrap();
        let lines: Vec<String> = events.iter().map(describe).collect();
        assert_eq!(lines, expected, "{skipped:?}");
    }
    let b = format!("\u{feff}data: [DONE]\n\n{head}{tail}");
    let events = reduce_upstream_bytes(b.as_bytes()).unwrap();
    assert_eq!(events.len(), expected.len());
}

#[test]
fn thinking_is_not_interrupted() {
    let events = trace(&[&says("a"), &thinks("t"), &thinks("u"), &calls(&fragment(0, "x"))]);
    assert_eq!(
        events,
        vec![
            "0 text", "0 says a", "1 thinking", "1 thinks t", "1 thinks u", "1 thought", "0 said",
            "EndTurn None",
        ]
    );
}
