use provider_proxy::chunk::{read_chunk, StreamChoice, StreamChunk, StreamDelta, StreamToolCall};

fn chunk(s: &str) -> StreamChunk {
    read_chunk(s.as_bytes()).unwrap()
}

fn rejected(s: &str) -> bool {
    read_chunk(s.as_bytes()).is_none()
}

fn choice(s: &str) -> StreamChoice {
    let text = format!("{{\"choices\":[{s}]}}");
    chunk(&text).choices.unwrap().remove(0)
}

fn delta(s: &str) -> StreamDelta {
    choice(&format!("{{\"delta\":{s}}}")).delta.unwrap()
}

fn call(s: &str) -> StreamToolCall {
    delta(&format!("{{\"tool_calls\":[{s}]}}")).tool_calls.unwrap().remove(0)
}

fn delta_rejected(s: &str) -> bool {
    rejected(&format!("{{\"choices\":[{{\"delta\":{s}}}]}}"))
}

#[test]
fn absent_and_null_fields_are_none() {
    for s in ["{}", "{\"choices\":null,\"usage\":null,\"error\":null}", "{ }", "[null,null,null]"] {
        let c = chunk(s);
        assert!(c.choices.is_none());
        assert!(c.usage.is_none());
        assert!(c.error.is_none());
    }
    assert!(choice("{\"delta\":null}").delta.is_none());
    assert!(delta("{\"content\":null}").content.is_none());
    assert!(chunk("{\"choices\":[]}").choices.unwrap().is_empty());
}

#[test]
fn unknown_fields_are_skipped() {
    let c = chunk("{\"id\":\"x\",\"n\":[1,{\"choices\":3}],\"f\":-1.5e3,\"error\":{\"message\":\"m\",\"code\":{}}}");
    assert_eq!(c.error.unwrap().message.as_deref(), Some("m"));
}

#[test]
fn white_space_is_allowed_between_tokens() {
    let c = chunk("{ \"usage\" :\t{ \"prompt_tokens\" : 3 ,\n \"total_tokens\":\r4 } , \"choices\" : [ { } , { } ] }");
    assert_eq!(c.usage.unwrap().prompt_tokens, Some(3));
    assert_eq!(c.usage.unwrap().total_tokens, Some(4));
    assert_eq!(c.choices.unwrap().len(), 2);
}

#[test]
fn a_repeated_field_is_rejected() {
    assert!(rejected("{\"usage\":null,\"usage\":null}"));
    assert!(delta_rejected("{\"content\":\"a\",\"content\":\"b\"}"));
    assert!(delta_rejected("{\"content\":\"a\",\"\\u0063ontent\":\"b\"}"));
    assert_eq!(delta("{\"x\":1,\"x\":2,\"content\":\"a\"}").content.as_deref(), Some("a"));
}

#[test]
fn names_may_be_escaped() {
    assert_eq!(delta("{\"\\u0063ontent\":\"a\"}").content.as_deref(), Some("a"));
}

#[test]
fn text_is_unescaped() {
    let d = delta("{\"content\":\"a\\n\\\"\\u00e9\\ud83d\\ude00\"}");
    assert_eq!(d.content.as_deref(), Some("a\n\"\u{e9}\u{1f600}"));
}

#[test]
fn records_may_be_written_as_lists() {
    let c = chunk("[[[[\"assistant\",\"hi\",null,null],\"stop\"]],[1,2,3,4,null,[5]],null]");
    let choices = c.choices.unwrap();
    let d = choices[0].delta.as_ref().unwrap();
    assert_eq!(d.content.as_deref(), Some("hi"));
    assert_eq!(choices[0].finish_reason.as_deref(), Some("stop"));
    let u = c.usage.unwrap();
    assert_eq!(u.cached_tokens, Some(4));
    assert_eq!(u.completion_tokens_details.unwrap().reasoning_tokens, Some(5));
    // A list holds no more than the fields of the record.
    assert!(rejected("[null,null,null,null]"));
}

#[test]
fn a_wrong_type_rejects_the_chunk() {
    for s in [
        "", "1", "\"a\"", "true", "null", "{\"choices\":{}}", "{\"choices\":[1]}",
        "{\"usage\":1}", "{\"usage\":\"a\"}", "{\"error\":\"a\"}", "{\"error\":{\"message\":1}}",
        "{\"error\":{\"type\":1}}", "{\"usage\":{\"prompt_tokens\":-1}}",
        "{\"usage\":{\"prompt_tokens\":1.5}}", "{\"usage\":{\"prompt_tokens\":\"1\"}}",
        "{\"usage\":{\"prompt_tokens\":18446744073709551616}}",
        "{\"usage\":{\"prompt_tokens_details\":{\"cached_tokens\":true}}}",
    ] {
        assert!(rejected(s), "{s}");
    }
    assert!(delta_rejected("{\"role\":1}"));
    assert!(delta_rejected("{\"content\":[]}"));
    assert!(delta_rejected("{\"tool_calls\":[{\"index\":0,\"type\":7}]}"));
    assert!(delta_rejected("{\"tool_calls\":[{\"index\":0,\"function\":\"f\"}]}"));
    let u = chunk("{\"usage\":{\"prompt_tokens\":18446744073709551615}}").usage.unwrap();
    assert_eq!(u.prompt_tokens, Some(u64::MAX));
}

#[test]
fn broken_json_is_rejected() {
    for s in [
        "{", "}", "{]", "[}", "{\"a\"}", "{\"a\":}", "{\"a\":1,}", "{a:1}", "{\"a\":1 \"b\":2}",
        "{\"a\":01}", "{\"a\":1}}", "{}{}", "{} x", "[null,]", "[,]", "{,}", "{\"a\":nul}",
        "{\"a\":\"\\x\"}", "{\"a\":\"b}", "{\"choices\":[{}}]}", "{\"choices\":[{},]}",
        "{1:2}", "{\"a\":1;}",
    ] {
        assert!(rejected(s), "{s}");
    }
    assert!(read_chunk(b"{\"error\":{\"message\":\"\xff\"}}").is_none());
}

#[test]
fn a_tool_call_needs_its_index() {
    assert!(delta_rejected("{\"tool_calls\":[{\"id\":\"a\"}]}"));
    assert!(delta_rejected("{\"tool_calls\":[{\"index\":null}]}"));
    assert!(delta_rejected("{\"tool_calls\":[{\"index\":-1}]}"));
    assert!(delta_rejected("{\"tool_calls\":[{}]}"));
    let c = call("{\"index\":7,\"id\":\"a\",\"type\":\"function\",\"function\":{\"name\":\"n\",\"arguments\":\"x\"}}");
    assert_eq!(c.index, 7);
    assert_eq!(c.id.as_deref(), Some("a"));
    let f = c.function.unwrap();
    assert_eq!(f.name.as_deref(), Some("n"));
    assert_eq!(f.arguments.as_deref(), Some("x"));
}
