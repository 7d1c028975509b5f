use llm_engine::config::{
    AuthType, CustomProvidersConfiguration, ModelConfig, ModelsConfiguration, ProtocolType,
    ProviderConfig,
};
use llm_engine::events::StreamEvent;
use llm_engine::json::Json;
use llm_engine::model_registry::ModelRegistry;
use llm_engine::openai::OpenAiProtocol;
use llm_engine::registry::ProviderRegistry;
use llm_engine::stream::ProtocolStreamState;
use llm_engine::text_map::TextMap;
use llm_engine::types::{ContentPart, Message, MessageContent, ToolDefinition};

fn text(s: &str) -> Json {
    Json::Str(s.to_string())
}

fn obj(members: Vec<(&str, Json)>) -> Json {
    Json::Object(members.into_iter().map(|(k, v)| (k.to_string(), v)).collect())
}

fn all_events(protocol: &OpenAiProtocol, state: &mut ProtocolStreamState, chunk: &str) -> Vec<StreamEvent> {
    let mut events = Vec::new();
    if let Some(e) = protocol.parse_stream_event(None, chunk, state).expect("chunk parses") {
        events.push(e);
    }
    while !state.pending_events.is_empty() {
        events.push(state.pending_events.remove(0));
    }
    events
}

fn provider(id: &str, auth_type: AuthType) -> ProviderConfig {
    ProviderConfig {
        id: id.to_string(),
        name: id.to_string(),
        protocol: ProtocolType::OpenAiCompatible,
        base_url: "https://example.com".to_string(),
        api_key_name: "KEY".to_string(),
        supports_oauth: false,
        supports_coding_plan: false,
        supports_international: false,
        coding_plan_base_url: None,
        international_base_url: None,
        headers: None,
        extra_body: None,
        auth_type,
    }
}

fn model(name: &str, providers: &[&str]) -> ModelConfig {
    ModelConfig {
        name: name.to_string(),
        image_input: false,
        image_output: false,
        audio_input: false,
        interleaved: false,
        providers: providers.iter().map(|p| p.to_string()).collect(),
        provider_mappings: None,
        pricing: None,
        context_length: None,
    }
}

#[test]
fn read_file_round_trip() {
    let protocol = OpenAiProtocol;
    let messages = vec![Message::Assistant {
        content: MessageContent::Parts(vec![ContentPart::ToolCall {
            tool_call_id: "call_1".to_string(),
            tool_name: "readFile".to_string(),
            input: obj(vec![("path", text("/tmp"))]),
        }]),
        provider_options: None,
    }];
    let body = protocol
        .build_request("gpt-4o", &messages, None, None, None, None, None, None, None)
        .expect("request");
    let built = match body.get("messages") {
        Some(Json::Array(items)) => items,
        _ => panic!("messages missing"),
    };
    let calls = match built[0].get("tool_calls") {
        Some(Json::Array(c)) => c,
        _ => panic!("tool_calls missing"),
    };
    let function = calls[0].get("function").expect("function");
    assert_eq!(function.get("name"), Some(&text("readFile")));
    assert_eq!(function.get("arguments"), Some(&text("{\"path\":\"/tmp\"}")));
    assert_eq!(built[0].get("content"), Some(&Json::Null));

    let mut state = ProtocolStreamState::new();
    let first = r#"{"choices":[{"delta":{"tool_calls":[{"index":0,"id":"call_1","function":{"name":"readFile","arguments":"{\"path\":\"/tmp"}}]}}]}"#;
    let second = r#"{"choices":[{"delta":{"tool_calls":[{"index":0,"id":"call_1","function":{"arguments":"\"}"}}]}}]}"#;
    let mut events = all_events(&protocol, &mut state, first);
    events.extend(all_events(&protocol, &mut state, second));
    events.extend(all_events(&protocol, &mut state, "[DONE]"));
    let calls: Vec<&StreamEvent> = events.iter().filter(|e| matches!(e, StreamEvent::ToolCall { .. })).collect();
    assert_eq!(calls.len(), 1);
    match calls[0] {
        StreamEvent::ToolCall { tool_name, input, .. } => {
            assert_eq!(tool_name, "readFile");
            assert_eq!(input, &obj(vec![("path", text("/tmp"))]));
        }
        _ => unreachable!(),
    }
}

#[test]
fn zero_usage_blocks_emit_nothing() {
    let protocol = OpenAiProtocol;
    let mut state = ProtocolStreamState::new();
    let zero = r#"{"usage":{"prompt_tokens":0,"completion_tokens":0},"choices":[]}"#;
    for _ in 0..3 {
        let events = all_events(&protocol, &mut state, zero);
        assert!(events.is_empty());
    }
    let real = r#"{"usage":{"prompt_tokens":12,"completion_tokens":0,"total_tokens":12},"choices":[]}"#;
    let events = all_events(&protocol, &mut state, real);
    assert_eq!(events.len(), 1);
    match &events[0] {
        StreamEvent::Usage { input_tokens, output_tokens, total_tokens, .. } => {
            assert_eq!(*input_tokens, 12);
            assert_eq!(*output_tokens, 0);
            assert_eq!(*total_tokens, Some(12));
        }
        other => panic!("Expected Usage, got {:?}", other),
    }
}

#[test]
fn text_start_comes_once_and_first() {
    let protocol = OpenAiProtocol;
    let mut state = ProtocolStreamState::new();
    let a = all_events(&protocol, &mut state, r#"{"choices":[{"delta":{"content":"Hel"}}]}"#);
    let b = all_events(&protocol, &mut state, r#"{"choices":[{"delta":{"content":"lo"}}]}"#);
    assert!(matches!(a[0], StreamEvent::TextStart));
    assert!(matches!(&a[1], StreamEvent::TextDelta { text } if text == "Hel"));
    assert_eq!(a.len(), 2);
    assert_eq!(b.len(), 1);
    assert!(matches!(&b[0], StreamEvent::TextDelta { text } if text == "lo"));
}

#[test]
fn reasoning_end_follows_terminator_once() {
    let protocol = OpenAiProtocol;
    let mut state = ProtocolStreamState::new();
    let empty = all_events(&protocol, &mut state, r#"{"choices":[{"delta":{"reasoning_content":""}}]}"#);
    assert_eq!(empty.len(), 1);
    assert!(!state.reasoning_started);
    let opened = all_events(&protocol, &mut state, r#"{"choices":[{"delta":{"reasoning_content":"hmm"}}]}"#);
    let id = match &opened[0] {
        StreamEvent::ReasoningStart { id, .. } => id.clone(),
        other => panic!("Expected ReasoningStart, got {:?}", other),
    };
    assert!(id.starts_with("reasoning_"));
    assert_eq!(id.len(), "reasoning_".len() + 36);
    assert!(matches!(&opened[1], StreamEvent::ReasoningDelta { id: d, text, .. } if d == &id && text == "hmm"));
    let end = all_events(&protocol, &mut state, "  [DONE]\n");
    assert!(matches!(&end[0], StreamEvent::ReasoningEnd { id: d } if d == &id));
    assert_eq!(end.len(), 1);
    let done = all_events(&protocol, &mut state, "[DONE]");
    assert_eq!(done.len(), 1);
    assert!(matches!(&done[0], StreamEvent::Done { finish_reason: None }));
}

#[test]
fn terminator_reports_finish_reason() {
    let protocol = OpenAiProtocol;
    let mut state = ProtocolStreamState::new();
    let _ = all_events(&protocol, &mut state, r#"{"choices":[{"delta":{"content":"x"},"finish_reason":"stop"}]}"#);
    let done = all_events(&protocol, &mut state, "[DONE]");
    assert!(matches!(&done[0], StreamEvent::Done { finish_reason: Some(f) } if f == "stop"));
}

#[test]
fn malformed_chunk_is_an_error_and_keeps_state() {
    let protocol = OpenAiProtocol;
    let mut state = ProtocolStreamState::new();
    let _ = all_events(&protocol, &mut state, r#"{"choices":[{"delta":{"tool_calls":[{"index":0,"id":"c","function":{"name":"f","arguments":"{\"a\":"}}]}}]}"#);
    assert!(protocol.parse_stream_event(None, "{not json", &mut state).is_err());
    assert_eq!(state.tool_calls.len(), 1);
    assert_eq!(state.tool_calls[0].arguments, "{\"a\":");
    let events = all_events(&protocol, &mut state, r#"{"choices":[{"delta":{"tool_calls":[{"index":0,"function":{"arguments":"1}"}}]}}]}"#);
    assert!(events.is_empty());
    let done = all_events(&protocol, &mut state, "[DONE]");
    match &done[0] {
        StreamEvent::ToolCall { tool_call_id, input, .. } => {
            assert_eq!(tool_call_id, "c");
            assert_eq!(input, &obj(vec![("a", Json::PosInt(1))]));
        }
        other => panic!("Expected ToolCall, got {:?}", other),
    }
}

#[test]
fn forced_flush_keeps_unparsable_arguments_as_text() {
    let protocol = OpenAiProtocol;
    let mut state = ProtocolStreamState::new();
    let _ = all_events(&protocol, &mut state, r#"{"choices":[{"delta":{"tool_calls":[{"index":0,"id":"c","function":{"name":"f","arguments":"{\"a\":"}}]}}]}"#);
    let done = all_events(&protocol, &mut state, "[DONE]");
    assert!(matches!(&done[0], StreamEvent::ToolCall { input: Json::Str(s), .. } if s == "{\"a\":"));
    let again = all_events(&protocol, &mut state, "[DONE]");
    assert!(matches!(&again[0], StreamEvent::Done { .. }));
}

#[test]
fn index_only_fragments_join_the_call_of_their_index() {
    let protocol = OpenAiProtocol;
    let mut state = ProtocolStreamState::new();
    let _ = all_events(&protocol, &mut state, r#"{"choices":[{"delta":{"tool_calls":[{"index":0,"id":"a","function":{"name":"x","arguments":"{\"k\""}}]}}]}"#);
    let _ = all_events(&protocol, &mut state, r#"{"choices":[{"delta":{"tool_calls":[{"index":0,"function":{"arguments":":"}}]}}]}"#);
    let _ = all_events(&protocol, &mut state, r#"{"choices":[{"delta":{"tool_calls":[{"index":0,"function":{"arguments":"2}"}}]}}]}"#);
    assert_eq!(state.tool_calls.len(), 1);
    assert_eq!(state.tool_calls[0].arguments, "{\"k\":2}");
    let events = all_events(&protocol, &mut state, r#"{"choices":[{"delta":{},"finish_reason":"tool_calls"}]}"#);
    let n = events.iter().filter(|e| matches!(e, StreamEvent::ToolCall { .. })).count();
    assert_eq!(n, 1);
    let later = all_events(&protocol, &mut state, "[DONE]");
    assert!(later.iter().all(|e| !matches!(e, StreamEvent::ToolCall { .. })));
}

#[test]
fn explicit_provider_needs_no_credential() {
    let registry = ProviderRegistry::new(Vec::new());
    let custom = CustomProvidersConfiguration { version: "1".to_string(), providers: Vec::new() };
    let config = ModelsConfiguration { version: "1".to_string(), models: Vec::new() };
    let (m, p) = ModelRegistry::get_model_provider("gpt-4o@openai", &TextMap::new(), &registry, &custom, &config)
        .expect("explicit");
    assert_eq!((m.as_str(), p.as_str()), ("gpt-4o", "openai"));
    let err = ModelRegistry::get_model_provider("gpt-4o", &TextMap::new(), &registry, &custom, &config);
    assert_eq!(err, Err("No available provider for model gpt-4o".to_string()));
    let two_ats = ModelRegistry::get_model_provider("a@b@c", &TextMap::new(), &registry, &custom, &config);
    assert!(two_ats.is_err());
}

#[test]
fn available_models_have_unique_pairs_sorted_by_name() {
    let registry = ProviderRegistry::new(vec![provider("openai", AuthType::Bearer), provider("local", AuthType::NoAuth)]);
    let mut keys = TextMap::new();
    keys.insert("openai".to_string(), "k".to_string());
    let custom = CustomProvidersConfiguration { version: "1".to_string(), providers: Vec::new() };
    let config = ModelsConfiguration {
        version: "1".to_string(),
        models: vec![
            ("zeta".to_string(), model("Zeta", &["openai", "openai", "local"])),
            ("alpha".to_string(), model("Alpha", &["local", "missing"])),
        ],
    };
    let available = ModelRegistry::compute_available_models(&config, &keys, &registry, &custom);
    let pairs: Vec<(String, String)> = available.iter().map(|m| (m.key.clone(), m.provider.clone())).collect();
    assert_eq!(
        pairs,
        vec![
            ("alpha".to_string(), "local".to_string()),
            ("zeta".to_string(), "openai".to_string()),
            ("zeta".to_string(), "local".to_string()),
        ]
    );
}

#[test]
fn empty_credential_does_not_make_a_provider_available() {
    let registry = ProviderRegistry::new(vec![provider("openai", AuthType::Bearer)]);
    let custom = CustomProvidersConfiguration { version: "1".to_string(), providers: Vec::new() };
    let mut keys = TextMap::new();
    keys.insert("openai".to_string(), String::new());
    assert!(!ModelRegistry::provider_available("openai", &keys, &registry, &custom));
    keys.insert("openai".to_string(), "sk".to_string());
    assert!(ModelRegistry::provider_available("openai", &keys, &registry, &custom));
}

#[test]
fn headers_use_api_key_without_oauth() {
    let protocol = OpenAiProtocol;
    let headers = protocol.build_headers(Some("api"), None, None);
    assert_eq!(headers.get("Authorization"), Some(&"Bearer api".to_string()));
    assert_eq!(headers.get("Content-Type"), Some(&"application/json".to_string()));
    let bare = protocol.build_headers(None, None, None);
    assert_eq!(bare.get("Authorization"), None);
}

#[test]
fn request_lists_tools_and_tool_results() {
    let protocol = OpenAiProtocol;
    let tools = vec![ToolDefinition {
        tool_type: "function".to_string(),
        name: "glob".to_string(),
        description: None,
        parameters: obj(vec![("type", text("object"))]),
        strict: false,
    }];
    let messages = vec![
        Message::System { content: "be brief".to_string(), provider_options: None },
        Message::Tool {
            content: vec![
                ContentPart::ToolResult {
                    tool_call_id: "c1".to_string(),
                    tool_name: "glob".to_string(),
                    output: obj(vec![("type", text("text")), ("value", text("a.rs"))]),
                },
                ContentPart::Text { text: "ignored".to_string() },
                ContentPart::ToolResult {
                    tool_call_id: "c2".to_string(),
                    tool_name: "glob".to_string(),
                    output: obj(vec![("n", Json::PosInt(3))]),
                },
            ],
            provider_options: None,
        },
    ];
    let body = protocol
        .build_request("m", &messages, Some(&tools), None, None, None, Some(-1), None, None)
        .expect("request");
    assert_eq!(body.get("top_k"), Some(&Json::NegInt(-1)));
    assert_eq!(body.get("stream"), Some(&Json::Bool(true)));
    let msgs = match body.get("messages") { Some(Json::Array(m)) => m, _ => panic!() };
    assert_eq!(msgs.len(), 3);
    assert_eq!(msgs[1].get("content"), Some(&text("a.rs")));
    assert_eq!(msgs[2].get("content"), Some(&text("{\"n\":3}")));
    assert_eq!(msgs[2].get("tool_call_id"), Some(&text("c2")));
    let tools = match body.get("tools") { Some(Json::Array(t)) => t, _ => panic!() };
    let f = tools[0].get("function").expect("function");
    assert_eq!(f.get("description"), Some(&Json::Null));
    assert_eq!(f.get("name"), Some(&text("glob")));
}

#[test]
fn assistant_text_is_joined_without_images() {
    let protocol = OpenAiProtocol;
    let content = MessageContent::Parts(vec![
        ContentPart::Text { text: "a".to_string() },
        ContentPart::Reasoning { text: "  ".to_string(), provider_options: None },
        ContentPart::Reasoning { text: "b".to_string(), provider_options: None },
        ContentPart::ToolCall { tool_call_id: "x".to_string(), tool_name: " ".to_string(), input: Json::Null },
    ]);
    let m = protocol.build_assistant_message(&content, None);
    assert_eq!(m.get("content"), Some(&text("ab")));
    assert!(m.get("tool_calls").is_none());
    let with_image = MessageContent::Parts(vec![
        ContentPart::Text { text: "a".to_string() },
        ContentPart::Image { image: "QUJD".to_string() },
    ]);
    let m = protocol.build_assistant_message(&with_image, None);
    let parts = match m.get("content") { Some(Json::Array(p)) => p, _ => panic!() };
    assert_eq!(parts.len(), 2);
    let url = parts[1].get("image_url").and_then(|u| u.get("url"));
    assert_eq!(url, Some(&text("data:image/png;base64,QUJD")));
}

#[test]
fn id_after_index_keeps_one_call() {
    let protocol = OpenAiProtocol;
    let mut state = ProtocolStreamState::new();
    let first = r#"{"choices":[{"delta":{"tool_calls":[{"index":0,"function":{"name":"readFile","arguments":"{\"path\":\"/tmp"}}]}}]}"#;
    let second = r#"{"choices":[{"delta":{"tool_calls":[{"index":0,"id":"X","function":{"arguments":"\"}"}}]}}]}"#;
    let mut events = all_events(&protocol, &mut state, first);
    events.extend(all_events(&protocol, &mut state, second));
    assert_eq!(state.tool_calls.len(), 1);
    assert_eq!(state.tool_call_order, vec!["X".to_string()]);
    events.extend(all_events(&protocol, &mut state, "[DONE]"));
    let calls: Vec<&StreamEvent> = events.iter().filter(|e| matches!(e, StreamEvent::ToolCall { .. })).collect();
    assert_eq!(calls.len(), 1);
    match calls[0] {
        StreamEvent::ToolCall { tool_call_id, tool_name, input } => {
            assert_eq!(tool_call_id, "X");
            assert_eq!(tool_name, "readFile");
            assert_eq!(input, &obj(vec![("path", text("/tmp"))]));
        }
        _ => unreachable!(),
    }
}

#[test]
fn user_turn_drops_tool_calls() {
    let protocol = OpenAiProtocol;
    let content = MessageContent::Parts(vec![
        ContentPart::Text { text: "look".to_string() },
        ContentPart::ToolCall { tool_call_id: "c".to_string(), tool_name: "f".to_string(), input: Json::Null },
    ]);
    match protocol.convert_content(&content) {
        Json::Array(items) => {
            assert_eq!(items.len(), 1);
            assert_eq!(items[0].get("text"), Some(&text("look")));
        }
        other => panic!("expected a list, got {:?}", other),
    }
}

#[test]
fn oauth_tokens_fill_in_missing_api_keys() {
    let mut keys = TextMap::new();
    keys.insert("openai".to_string(), "sk".to_string());
    let mut tokens = TextMap::new();
    tokens.insert("openai".to_string(), "tok-a".to_string());
    tokens.insert("github_copilot".to_string(), "tok-b".to_string());
    let merged = llm_engine::text_map::merge_credentials(&keys, &tokens);
    assert_eq!(merged.get("openai"), Some(&"sk".to_string()));
    assert_eq!(merged.get("github_copilot"), Some(&"tok-b".to_string()));
    assert_eq!(merged.entries.len(), 2);
}

#[test]
fn apply_payload_queues_events() {
    let protocol = OpenAiProtocol;
    let mut state = ProtocolStreamState::new();
    let payload = obj(vec![(
        "choices",
        Json::Array(vec![obj(vec![("delta", obj(vec![("content", text("hi"))]))])]),
    )]);
    protocol.apply_payload(&payload, "reasoning_x", &mut state);
    assert_eq!(state.pending_events.len(), 2);
    assert!(matches!(state.pending_events[0], StreamEvent::TextStart));
}

#[test]
fn terminator_is_recognised_through_unicode_space() {
    let protocol = OpenAiProtocol;
    let mut state = ProtocolStreamState::new();
    let done = all_events(&protocol, &mut state, "\u{3000}[DONE]\u{a0}\t");
    assert!(matches!(&done[0], StreamEvent::Done { finish_reason: None }));
}

#[test]
fn call_without_index_keeps_its_place() {
    let protocol = OpenAiProtocol;
    let mut state = ProtocolStreamState::new();
    let first = r#"{"choices":[{"delta":{"tool_calls":[{"id":"k","function":{"name":"a","arguments":"{}"}}]}}]}"#;
    let second = r#"{"choices":[{"delta":{"tool_calls":[{"index":0,"id":"X","function":{"name":"b","arguments":"{\"n\":1}"}}]}}]}"#;
    let mut events = all_events(&protocol, &mut state, first);
    events.extend(all_events(&protocol, &mut state, second));
    assert_eq!(state.tool_call_order, vec!["k".to_string(), "X".to_string()]);
    events.extend(all_events(&protocol, &mut state, "[DONE]"));
    let ids: Vec<String> = events
        .iter()
        .filter_map(|e| match e {
            StreamEvent::ToolCall { tool_call_id, .. } => Some(tool_call_id.clone()),
            _ => None,
        })
        .collect();
    assert_eq!(ids, vec!["k".to_string(), "X".to_string()]);
}
