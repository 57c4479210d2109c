use provider_proxy::accumulate::{accumulate_response, tool_use_value};
use serde_json::Value;

fn signature(message_id: &str, index: usize) -> String {
    format!("{message_id}#{index}")
}

fn simple_text_upstream() -> Vec<u8> {
    [
        "data: {\"choices\":[{\"delta\":{\"content\":\"Hello\"}}]}\n\n",
        "data: {\"choices\":[{\"delta\":{\"content\":\" world\"}}]}\n\n",
        "data: {\"choices\":[{\"finish_reason\":\"stop\"}],\"usage\":{\"prompt_tokens\":5,\"completion_tokens\":2}}\n\n",
        "data: [DONE]\n\n",
    ]
    .concat()
    .into_bytes()
}

fn object(key: &str, value: &str) -> Value {
    let mut map = serde_json::Map::new();
    map.insert(key.to_string(), Value::String(value.to_string()));
    Value::Object(map)
}

#[test]
fn accumulate_outputs_anthropic_message() {
    let response = accumulate_response(
        &simple_text_upstream(),
        "msg_test",
        "kimi-for-coding",
        signature,
    )
    .unwrap();
    assert_eq!(response["type"], "message");
    assert_eq!(response["content"][0]["type"], "text");
    assert_eq!(response["content"][0]["text"], "Hello world");
    assert_eq!(response["stop_reason"], "end_turn");
}

#[test]
fn accumulate_with_reasoning_and_tools() {
    let upstream = [
        "data: {\"choices\":[{\"delta\":{\"reasoning_content\":\"thinking\"}}]}\n\n",
        "data: {\"choices\":[{\"delta\":{\"content\":\"result\"}}]}\n\n",
        "data: {\"choices\":[{\"delta\":{\"tool_calls\":[{\"index\":0,\"id\":\"call_1\",\"function\":{\"name\":\"search\",\"arguments\":\"{\\\"q\\\":\\\"rust\\\"}\"}}]}}]}\n\n",
        "data: {\"choices\":[{\"finish_reason\":\"tool_calls\"}],\"usage\":{\"prompt_tokens\":10,\"completion_tokens\":5}}\n\n",
        "data: [DONE]\n\n",
    ]
    .concat();
    let response =
        accumulate_response(upstream.as_bytes(), "msg_1", "kimi-for-coding", signature).unwrap();
    assert_eq!(response["type"], "message");
    let content = response["content"].as_array().unwrap();
    assert!(content.len() >= 3);
    // First block should be thinking
    assert_eq!(content[0]["type"], "thinking");
    // Second block should be text
    assert_eq!(content[1]["type"], "text");
    // Third block should be tool_use
    assert_eq!(content[2]["type"], "tool_use");
}

#[test]
fn accumulate_pairs_tool_names_with_own_args_after_thinking() {
    // Tool-call deltas are keyed by upstream index, which is offset from the content-block index
    // once a thinking block exists.
    let upstream = [
        "data: {\"choices\":[{\"delta\":{\"reasoning_content\":\"plan\"}}]}\n\n",
        "data: {\"choices\":[{\"delta\":{\"tool_calls\":[{\"index\":0,\"id\":\"call_a\",\"function\":{\"name\":\"bash\",\"arguments\":\"{\\\"command\\\"\"}}]}}]}\n\n",
        "data: {\"choices\":[{\"delta\":{\"tool_calls\":[{\"index\":0,\"function\":{\"arguments\":\":\\\"git log\\\"}\"}}]}}]}\n\n",
        "data: {\"choices\":[{\"delta\":{\"tool_calls\":[{\"index\":1,\"id\":\"call_b\",\"function\":{\"name\":\"glob\",\"arguments\":\"{\\\"pattern\\\"\"}}]}}]}\n\n",
        "data: {\"choices\":[{\"delta\":{\"tool_calls\":[{\"index\":1,\"function\":{\"arguments\":\":\\\"*.md\\\"}\"}}]}}]}\n\n",
        "data: {\"choices\":[{\"finish_reason\":\"tool_calls\"}]}\n\n",
        "data: [DONE]\n\n",
    ]
    .concat();
    let response =
        accumulate_response(upstream.as_bytes(), "msg_2", "kimi-for-coding", signature).unwrap();
    let content = response["content"].as_array().unwrap();
    let tools: Vec<&Value> = content
        .iter()
        .filter(|c| c["type"] == "tool_use")
        .collect();
    assert_eq!(tools.len(), 2);
    assert_eq!(tools[0]["name"], "bash");
    assert_eq!(tools[0]["input"], object("command", "git log"));
    assert_eq!(tools[1]["name"], "glob");
    assert_eq!(tools[1]["input"], object("pattern", "*.md"));
}

#[test]
fn accumulate_handles_upstream_error() {
    let upstream = "data: {\"error\":{\"message\":\"upstream failure\"}}\n\n";
    let result = accumulate_response(upstream.as_bytes(), "msg_e", "model", signature);
    assert!(result.is_err());
}

#[test]
fn message_has_every_field() {
    let upstream = [
        "data: {\"choices\":[{\"delta\":{\"reasoning_content\":\"a\"}}]}\n\n",
        "data: {\"choices\":[{\"delta\":{\"content\":\"b\"},\"finish_reason\":\"length\"}],\"usage\":{\"prompt_tokens\":10,\"completion_tokens\":3,\"cached_tokens\":1,\"prompt_tokens_details\":{\"cached_tokens\":4}}}\n\n",
    ]
    .concat();
    let response = accumulate_response(upstream.as_bytes(), "m", "x", signature).unwrap();
    let expected = "{\"content\":[{\"signature\":\"m#0\",\"thinking\":\"a\",\"type\":\"thinking\"},\
        {\"text\":\"b\",\"type\":\"text\"}],\"id\":\"m\",\"model\":\"x\",\"role\":\"assistant\",\
        \"stop_reason\":\"max_tokens\",\"stop_sequence\":null,\"type\":\"message\",\
        \"usage\":{\"cache_creation_input_tokens\":0,\"cache_read_input_tokens\":4,\
        \"input_tokens\":6,\"output_tokens\":3}}";
    assert_eq!(response.to_string(), expected);
}

#[test]
fn empty_body_gives_an_empty_message() {
    let response = accumulate_response(b"", "m", "x", signature).unwrap();
    assert_eq!(response["content"].as_array().unwrap().len(), 0);
    assert_eq!(response["stop_reason"], "end_turn");
    assert_eq!(response["usage"]["input_tokens"], 0);
}

#[test]
fn arguments_that_are_not_json_stay_text() {
    let upstream = "data: {\"choices\":[{\"delta\":{\"tool_calls\":[{\"index\":0,\"id\":\"c\",\"function\":{\"name\":\"n\",\"arguments\":\"{oops\"}}]}}]}\n\n";
    let response = accumulate_response(upstream.as_bytes(), "m", "x", signature).unwrap();
    assert_eq!(response["content"][0]["input"], "{oops");
    assert_eq!(response["content"][0]["id"], "c");
    assert_eq!(response["stop_reason"], "tool_use");
}

#[test]
fn tool_without_arguments_has_empty_text_as_input() {
    let upstream = "data: {\"choices\":[{\"delta\":{\"tool_calls\":[{\"index\":0,\"id\":\"c\",\"function\":{\"name\":\"n\"}}]}}]}\n\n";
    let response = accumulate_response(upstream.as_bytes(), "m", "x", signature).unwrap();
    assert_eq!(response["content"][0]["input"], "");
}

#[test]
fn upstream_error_is_described() {
    let body = b"data: {\"error\":{\"message\":\"quota\"}}\n\n";
    let e = accumulate_response(body, "m", "x", signature).unwrap_err();
    assert_eq!(e.message, "upstream error: quota (Failed)");
    let body = b"data: {\"error\":{}}\n\n";
    let e = accumulate_response(body, "m", "x", signature).unwrap_err();
    assert_eq!(e.message, "upstream error: Upstream error (Failed)");
}

#[test]
fn tool_input_is_the_document_or_the_text() {
    let item = tool_use_value("i", "n", "{}", Some(object("k", "v")));
    assert_eq!(item["type"], "tool_use");
    assert_eq!(item["id"], "i");
    assert_eq!(item["name"], "n");
    assert_eq!(item["input"], object("k", "v"));
    let item = tool_use_value("i", "n", "oops", None);
    assert_eq!(item["input"], "oops");
}

fn message_of(deltas: &[&str]) -> String {
    let body: String = deltas
        .iter()
        .map(|d| format!("data: {{\"choices\":[{{\"delta\":{d}}}]}}\n\n"))
        .collect();
    accumulate_response(body.as_bytes(), "m", "x", signature).unwrap().to_string()
}

#[test]
fn cuts_do_not_matter() {
    let call = "{\"index\":1,\"id\":\"d\",\"function\":{\"name\":\"g\"}}";
    let whole = message_of(&[&format!(
        "{{\"reasoning_content\":\"think\",\"content\":\"hello\",\"tool_calls\":[\
         {{\"index\":0,\"id\":\"c\",\"function\":{{\"name\":\"f\",\"arguments\":\"[1,2]\"}}}},{call}]}}"
    )]);
    let cut = message_of(&[
        "{\"reasoning_content\":\"th\"}",
        "{\"reasoning_content\":\"ink\",\"content\":\"he\"}",
        "{\"content\":\"\"}",
        "{\"content\":\"llo\",\"tool_calls\":[\
         {\"index\":0,\"id\":\"c\",\"function\":{\"name\":\"f\",\"arguments\":\"[1\"}}]}",
        &format!(
            "{{\"tool_calls\":[{{\"index\":0,\"function\":{{\"arguments\":\",2]\"}}}},{call}]}}"
        ),
    ]);
    assert_eq!(whole, cut);
}

#[test]
fn every_block_is_an_item() {
    let body = [
        "data: {\"choices\":[{\"delta\":{\"content\":\"a\"}}]}\n\n",
        "data: {\"choices\":[{\"delta\":{\"reasoning_content\":\"t\"}}]}\n\n",
        "data: {\"choices\":[{\"delta\":{\"content\":\"\"}}]}\n\n",
        "data: {\"choices\":[{\"delta\":{\"content\":\"b\"}}]}\n\n",
    ]
    .concat();
    let response = accumulate_response(body.as_bytes(), "m", "x", signature).unwrap();
    let content = response["content"].as_array().unwrap();
    assert_eq!(content.len(), 2);
    assert_eq!(content[0]["text"], "ab");
    assert_eq!(content[1]["thinking"], "t");
    assert_eq!(content[1]["signature"], "m#1");
}
