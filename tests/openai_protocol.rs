use llm_engine::json::Json;
use llm_engine::events::StreamEvent;
use llm_engine::openai::OpenAiProtocol;
use llm_engine::stream::ProtocolStreamState;
use llm_engine::text_map::TextMap;
use llm_engine::types::{ContentPart, Message, MessageContent};

fn text(s: &str) -> Json {
    Json::Str(s.to_string())
}

fn obj(members: Vec<(&str, Json)>) -> Json {
    Json::Object(members.into_iter().map(|(k, v)| (k.to_string(), v)).collect())
}

#[test]
fn parse_stream_emits_reasoning_events_from_reasoning_content() {
    let protocol = OpenAiProtocol;
    let mut state = ProtocolStreamState::new();

    let first = r#"{"choices":[{"delta":{"reasoning_content":"Let me think about this..."}}]}"#;
    let second = r#"{"choices":[{"delta":{"reasoning_content":" more reasoning"}}]}"#;
    let done = r#"{"choices":[{"delta":{},"finish_reason":"stop"}]}"#;

    let event = protocol
        .parse_stream_event(None, first, &mut state)
        .expect("parse first")
        .expect("event");
    match event {
        StreamEvent::TextStart => {}
        _ => panic!("Expected TextStart, got {:?}", event),
    }

    assert!(!state.pending_events.is_empty(), "Expected pending events");
    let start_event = state.pending_events.remove(0);
    match start_event {
        StreamEvent::ReasoningStart { .. } => {}
        _ => panic!("Expected ReasoningStart, got {:?}", start_event),
    }

    assert!(!state.pending_events.is_empty(), "Expected pending events");
    let delta_event = state.pending_events.remove(0);
    match delta_event {
        StreamEvent::ReasoningDelta { text, .. } => {
            assert_eq!(text, "Let me think about this...");
        }
        _ => panic!("Expected ReasoningDelta, got {:?}", delta_event),
    }

    let event = protocol
        .parse_stream_event(None, second, &mut state)
        .expect("parse second")
        .expect("event");
    match event {
        StreamEvent::ReasoningDelta { text, .. } => {
            assert_eq!(text, " more reasoning");
        }
        _ => panic!("Expected ReasoningDelta, got {:?}", event),
    }

    let event = protocol
        .parse_stream_event(None, done, &mut state)
        .expect("parse done")
        .expect("event");
    match event {
        StreamEvent::ReasoningEnd { .. } => {}
        _ => panic!("Expected ReasoningEnd, got {:?}", event),
    }
}

#[test]
fn parse_stream_handles_empty_reasoning_content() {
    let protocol = OpenAiProtocol;
    let mut state = ProtocolStreamState::new();

    let data = r#"{"choices":[{"delta":{"reasoning_content":""}}]}"#;
    let result = protocol.parse_stream_event(None, data, &mut state).expect("parse");

    match result {
        Some(StreamEvent::TextStart) => {}
        _ => panic!("Expected TextStart for empty reasoning_content, got {:?}", result),
    }
    assert!(!state.reasoning_started, "Reasoning should not start for empty content");
}

#[test]
fn parse_stream_handles_reasoning_content_with_regular_content() {
    let protocol = OpenAiProtocol;
    let mut state = ProtocolStreamState::new();

    let data = r#"{"choices":[{"delta":{"content":"The answer is","reasoning_content":"Let me analyze"}}]}"#;

    let mut events = Vec::new();
    if let Some(event) = protocol.parse_stream_event(None, data, &mut state).expect("parse") {
        events.push(event);
    }
    while !state.pending_events.is_empty() {
        events.push(state.pending_events.remove(0));
    }

    assert!(events.iter().any(|e| matches!(e, StreamEvent::TextStart)), "Expected TextStart");
    assert!(
        events.iter().any(|e| matches!(e, StreamEvent::ReasoningStart { .. })),
        "Expected ReasoningStart"
    );
    assert!(
        events.iter().any(|e| matches!(e, StreamEvent::ReasoningDelta { text, .. } if text == "Let me analyze")),
        "Expected ReasoningDelta with 'Let me analyze'"
    );
    assert!(
        events.iter().any(|e| matches!(e, StreamEvent::TextDelta { text, .. } if text == "The answer is")),
        "Expected TextDelta with 'The answer is'"
    );
}

fn web_fetch_turn(provider_options: Option<Json>) -> Vec<Message> {
    vec![Message::Assistant {
        content: MessageContent::Parts(vec![ContentPart::ToolCall {
            tool_call_id: "call_1".to_string(),
            tool_name: "webFetch".to_string(),
            input: obj(vec![("url", text("https://example.com"))]),
        }]),
        provider_options,
    }]
}

#[test]
fn includes_reasoning_content_from_provider_options() {
    let protocol = OpenAiProtocol;
    let messages = web_fetch_turn(Some(obj(vec![(
        "openaiCompatible",
        obj(vec![("reasoning_content", text(""))]),
    )])));

    let built = protocol.build_messages(&messages);
    let assistant = built.first().expect("assistant message");
    assert_eq!(assistant.get("reasoning_content"), Some(&text("")));
}

#[test]
fn omits_reasoning_content_when_not_provided() {
    let protocol = OpenAiProtocol;
    let messages = web_fetch_turn(None);

    let built = protocol.build_messages(&messages);
    let assistant = built.first().expect("assistant message");
    assert!(assistant.get("reasoning_content").is_none());
}

#[test]
fn build_request_merges_provider_options_and_extra_body() {
    let protocol = OpenAiProtocol;
    let messages = vec![Message::User {
        content: MessageContent::Text("hi".to_string()),
        provider_options: None,
    }];
    let options = obj(vec![
        ("openai", obj(vec![("reasoningEffort", text("medium"))])),
        ("openrouter", obj(vec![("effort", text("low"))])),
    ]);
    let extra = obj(vec![("extra_param", Json::Bool(true))]);
    let temperature = Json::Float("0.2".to_string());

    let body = protocol
        .build_request(
            "gpt-4o",
            &messages,
            None,
            Some(&temperature),
            Some(120),
            None,
            None,
            Some(&options),
            Some(&extra),
        )
        .expect("build request");

    assert_eq!(body.get("reasoning_effort"), Some(&text("medium")));
    assert_eq!(body.get("reasoning"), Some(&obj(vec![("effort", text("low"))])));
    assert_eq!(body.get("extra_param"), Some(&Json::Bool(true)));
    assert_eq!(body.get("max_tokens"), Some(&Json::PosInt(120)));
}

#[test]
fn parse_stream_emits_tool_call_from_accumulated_arguments() {
    let protocol = OpenAiProtocol;
    let mut state = ProtocolStreamState::new();

    let first = r#"{"choices":[{"delta":{"tool_calls":[{"function":{"arguments":"{\"path\":\"/tmp","name":"readFile"},"id":"call_1","index":0}]}}]}"#;
    let second = r#"{"choices":[{"delta":{"tool_calls":[{"function":{"arguments":"\",\"pattern\":\"**/*.rs\"}"},"index":0}]}}]}"#;
    let done = r#"{"choices":[{"delta":{},"finish_reason":"tool_calls"}]}"#;

    let _ = protocol.parse_stream_event(None, first, &mut state).expect("parse first");
    let _ = protocol.parse_stream_event(None, second, &mut state).expect("parse second");
    state.text_started = true;
    let event = protocol
        .parse_stream_event(None, done, &mut state)
        .expect("parse done")
        .expect("event");

    match event {
        StreamEvent::ToolCall { tool_call_id, tool_name, input } => {
            assert_eq!(tool_call_id, "call_1");
            assert_eq!(tool_name, "readFile");
            assert_eq!(input.get("path"), Some(&text("/tmp")));
            assert_eq!(input.get("pattern"), Some(&text("**/*.rs")));
        }
        _ => panic!("Unexpected event"),
    }
}

fn drain(state: &mut ProtocolStreamState, first: Option<StreamEvent>, events: &mut Vec<StreamEvent>) {
    if let Some(event) = first {
        events.push(event);
    }
    while !state.pending_events.is_empty() {
        events.push(state.pending_events.remove(0));
    }
}

#[test]
fn parse_stream_preserves_tool_call_index_order() {
    let protocol = OpenAiProtocol;
    let mut state = ProtocolStreamState::new();

    let first = r#"{"choices":[{"delta":{"tool_calls":[{"function":{"arguments":"{\"pattern\":\"*.rs\"}","name":"glob"},"id":"call_b","index":1}]}}]}"#;
    let second = r#"{"choices":[{"delta":{"tool_calls":[{"function":{"arguments":"{\"file_path\":\"/tmp\"}","name":"readFile"},"id":"call_a","index":0}]}}]}"#;
    let done = r#"{"choices":[{"delta":{},"finish_reason":"tool_calls"}]}"#;

    let mut events: Vec<StreamEvent> = Vec::new();
    let parsed = protocol.parse_stream_event(None, first, &mut state).expect("parse first");
    drain(&mut state, parsed, &mut events);
    let parsed = protocol.parse_stream_event(None, second, &mut state).expect("parse second");
    drain(&mut state, parsed, &mut events);
    state.text_started = true;
    let parsed = protocol.parse_stream_event(None, done, &mut state).expect("parse done");
    drain(&mut state, parsed, &mut events);

    let tool_calls: Vec<String> = events
        .iter()
        .filter_map(|event| match event {
            StreamEvent::ToolCall { tool_call_id, .. } => Some(tool_call_id.clone()),
            _ => None,
        })
        .collect();

    assert_eq!(tool_calls, vec!["call_a".to_string(), "call_b".to_string()]);
}

#[test]
fn build_headers_prefers_oauth_token() {
    let protocol = OpenAiProtocol;
    let mut extra = TextMap::new();
    extra.insert(String::from("X-Test"), String::from("1"));
    let headers = protocol.build_headers(Some("api"), Some("oauth"), Some(&extra));
    assert_eq!(headers.get("Authorization"), Some(&"Bearer oauth".to_string()));
    assert_eq!(headers.get("X-Test"), Some(&"1".to_string()));
}
