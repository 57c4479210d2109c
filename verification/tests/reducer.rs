use provider_proxy::reducer::{
    map_usage_to_anthropic, reduce_upstream_bytes, KimiUsage, ReducerEvent, StopReason,
    UpstreamErrorKind,
};

#[test]
fn reducer_maps_reasoning_text_tool_and_usage() {
    let upstream = [
        "data: {\"choices\":[{\"delta\":{\"reasoning_content\":\"think\"}}]}\n\n",
        "data: {\"choices\":[{\"delta\":{\"content\":\"hi\"}}]}\n\n",
        "data: {\"choices\":[{\"delta\":{\"tool_calls\":[{\"index\":0,\"id\":\"call_1\",\"function\":{\"name\":\"search\",\"arguments\":\"{\\\"q\\\"\"}}]}}}]}\n\n",
        "data: {\"choices\":[{\"delta\":{\"tool_calls\":[{\"index\":0,\"function\":{\"arguments\":\":\\\"rust\\\"}\"}}]}}]}\n\n",
        "data: {\"choices\":[{\"finish_reason\":\"tool_calls\"}],\"usage\":{\"prompt_tokens\":10,\"completion_tokens\":3,\"prompt_tokens_details\":{\"cached_tokens\":4}}}\n\n",
        "data: [DONE]\n\n"
    ]
    .concat();
    let events = reduce_upstream_bytes(upstream.as_bytes()).unwrap();
    assert!(
        events
            .iter()
            .any(|e| matches!(e, ReducerEvent::ThinkingDelta { text, .. } if text == "think"))
    );
    assert!(events.iter().any(|e| matches!(
        e,
        ReducerEvent::Finish {
            stop_reason: StopReason::ToolUse,
            ..
        }
    )));
}

#[test]
fn reducer_handles_simple_text() {
    let upstream = [
        "data: {\"choices\":[{\"delta\":{\"content\":\"hello\"}}]}\n\n",
        "data: {\"choices\":[{\"delta\":{\"content\":\" world\"}}]}\n\n",
        "data: {\"choices\":[{\"finish_reason\":\"stop\"}],\"usage\":{\"prompt_tokens\":5,\"completion_tokens\":2}}\n\n",
        "data: [DONE]\n\n"
    ]
    .concat();
    let events = reduce_upstream_bytes(upstream.as_bytes()).unwrap();
    assert!(
        events
            .iter()
            .any(|e| matches!(e, ReducerEvent::TextStart { .. }))
    );
    let texts: Vec<&str> = events
        .iter()
        .filter_map(|e| match e {
            ReducerEvent::TextDelta { text, .. } => Some(text.as_str()),
            _ => None,
        })
        .collect();
    assert_eq!(texts, vec!["hello", " world"]);
    assert!(events.iter().any(|e| matches!(
        e,
        ReducerEvent::Finish {
            stop_reason: StopReason::EndTurn,
            ..
        }
    )));
}

#[test]
fn reducer_handles_max_tokens() {
    let upstream = [
        "data: {\"choices\":[{\"delta\":{\"content\":\"partial\"}}]}\n\n",
        "data: {\"choices\":[{\"finish_reason\":\"length\"}]}\n\n",
        "data: [DONE]\n\n"
    ]
    .concat();
    let events = reduce_upstream_bytes(upstream.as_bytes()).unwrap();
    assert!(events.iter().any(|e| matches!(
        e,
        ReducerEvent::Finish {
            stop_reason: StopReason::MaxTokens,
            ..
        }
    )));
}

#[test]
fn reducer_ignores_invalid_json() {
    let upstream = [
        "data: {\"choices\":[{\"delta\":{\"content\":\"valid\"}}]}\n\n",
        "data: not json\n\n",
        "data: {\"choices\":[{\"finish_reason\":\"stop\"}]}\n\n"
    ]
    .concat();
    let events = reduce_upstream_bytes(upstream.as_bytes()).unwrap();
    let texts: Vec<&str> = events
        .iter()
        .filter_map(|e| match e {
            ReducerEvent::TextDelta { text, .. } => Some(text.as_str()),
            _ => None,
        })
        .collect();
    assert_eq!(texts, vec!["valid"]);
}

#[test]
fn reducer_returns_error_on_upstream_error() {
    let upstream = "data: {\"error\":{\"message\":\"rate limit exceeded\"}}\n\n";
    let result = reduce_upstream_bytes(upstream.as_bytes());
    assert!(result.is_err());
    assert_eq!(result.unwrap_err().kind, UpstreamErrorKind::Failed);
}

#[test]
fn reducer_keeps_split_tool_args_when_thinking_precedes() {
    // The thinking block consumes content-block index 0, so the tool call's
    // block index (1) no longer equals its upstream index (0). Argument
    // fragments streamed in later chunks must still land on the tool block.
    let upstream = [
        "data: {\"choices\":[{\"delta\":{\"reasoning_content\":\"think\"}}]}\n\n",
        "data: {\"choices\":[{\"delta\":{\"tool_calls\":[{\"index\":0,\"id\":\"call_1\",\"function\":{\"name\":\"bash\",\"arguments\":\"{\\\"command\\\"\"}}]}}]}\n\n",
        "data: {\"choices\":[{\"delta\":{\"tool_calls\":[{\"index\":0,\"function\":{\"arguments\":\":\\\"ls\\\"}\"}}]}}]}\n\n",
        "data: {\"choices\":[{\"finish_reason\":\"tool_calls\"}]}\n\n",
        "data: [DONE]\n\n"
    ]
    .concat();
    let events = reduce_upstream_bytes(upstream.as_bytes()).unwrap();
    let tool_index = events
        .iter()
        .find_map(|e| match e {
            ReducerEvent::ToolStart { index, .. } => Some(*index),
            _ => None,
        })
        .unwrap();
    let args: String = events
        .iter()
        .filter_map(|e| match e {
            ReducerEvent::ToolDelta {
                index,
                partial_json,
            } if *index == tool_index => Some(partial_json.as_str()),
            _ => None,
        })
        .collect();
    assert_eq!(args, "{\"command\":\"ls\"}");
}

#[test]
fn reducer_keeps_parallel_tool_calls_separate_after_thinking() {
    let upstream = [
        "data: {\"choices\":[{\"delta\":{\"reasoning_content\":\"think\"}}]}\n\n",
        "data: {\"choices\":[{\"delta\":{\"tool_calls\":[{\"index\":0,\"id\":\"call_a\",\"function\":{\"name\":\"bash\",\"arguments\":\"{\\\"command\\\"\"}}]}}]}\n\n",
        "data: {\"choices\":[{\"delta\":{\"tool_calls\":[{\"index\":0,\"function\":{\"arguments\":\":\\\"ls\\\"}\"}}]}}]}\n\n",
        "data: {\"choices\":[{\"delta\":{\"tool_calls\":[{\"index\":1,\"id\":\"call_b\",\"function\":{\"name\":\"glob\",\"arguments\":\"{\\\"pattern\\\"\"}}]}}]}\n\n",
        "data: {\"choices\":[{\"delta\":{\"tool_calls\":[{\"index\":1,\"function\":{\"arguments\":\":\\\"*.rs\\\"}\"}}]}}]}\n\n",
        "data: {\"choices\":[{\"finish_reason\":\"tool_calls\"}]}\n\n",
        "data: [DONE]\n\n"
    ]
    .concat();
    let events = reduce_upstream_bytes(upstream.as_bytes()).unwrap();
    let starts: Vec<(usize, &str)> = events
        .iter()
        .filter_map(|e| match e {
            ReducerEvent::ToolStart { index, name, .. } => Some((*index, name.as_str())),
            _ => None,
        })
        .collect();
    assert_eq!(starts.len(), 2);
    let args_for = |target: usize| -> String {
        events
            .iter()
            .filter_map(|e| match e {
                ReducerEvent::ToolDelta {
                    index,
                    partial_json,
                } if *index == target => Some(partial_json.as_str()),
                _ => None,
            })
            .collect()
    };
    let (bash_index, bash_name) = starts[0];
    let (glob_index, glob_name) = starts[1];
    assert_eq!(bash_name, "bash");
    assert_eq!(glob_name, "glob");
    assert_eq!(args_for(bash_index), "{\"command\":\"ls\"}");
    assert_eq!(args_for(glob_index), "{\"pattern\":\"*.rs\"}");
}

#[test]
fn map_usage_subtracts_cached() {
    let usage = KimiUsage {
        prompt_tokens: Some(100),
        completion_tokens: Some(50),
        cached_tokens: Some(20),
        ..Default::default()
    };
    let mapped = map_usage_to_anthropic(&Some(usage));
    assert_eq!(mapped.input_tokens, 80);
    assert_eq!(mapped.output_tokens, 50);
    assert_eq!(mapped.cache_read_input_tokens, 20);
}
