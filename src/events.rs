use vstd::prelude::*;
use crate::json::{Json, JsonV};

verus! {

/// A canonical stream event, handed to the caller in arrival order.
#[derive(Debug)]
pub enum StreamEvent {
    TextStart,
    TextDelta { text: String },
    ToolCall { tool_call_id: String, tool_name: String, input: Json },
    ReasoningStart { id: String, provider_metadata: Option<Json> },
    ReasoningDelta { id: String, text: String, provider_metadata: Option<Json> },
    ReasoningEnd { id: String },
    Usage {
        input_tokens: i32,
        output_tokens: i32,
        total_tokens: Option<i32>,
        cached_input_tokens: Option<i32>,
        cache_creation_input_tokens: Option<i32>,
    },
    Done { finish_reason: Option<String> },
    Error { message: String },
    Raw { raw_value: String },
}

/// The mathematical value of a `StreamEvent`.
pub enum EventV {
    TextStart,
    TextDelta { text: Seq<char> },
    ToolCall { id: Seq<char>, name: Seq<char>, input: JsonV },
    ReasoningStart { id: Seq<char>, meta: Option<JsonV> },
    ReasoningDelta { id: Seq<char>, text: Seq<char>, meta: Option<JsonV> },
    ReasoningEnd { id: Seq<char> },
    Usage {
        input: i32,
        output: i32,
        total: Option<i32>,
        cached_input: Option<i32>,
        cache_creation: Option<i32>,
    },
    Done { finish_reason: Option<Seq<char>> },
    Error { message: Seq<char> },
    Raw { raw: Seq<char> },
}

pub open spec fn opt_text(s: Option<String>) -> Option<Seq<char>> {
    match s {
        Some(t) => Some(t@),
        None => None,
    }
}

pub open spec fn opt_json(j: Option<Json>) -> Option<JsonV> {
    match j {
        Some(v) => Some(v@),
        None => None,
    }
}

impl View for StreamEvent {
    type V = EventV;

    open spec fn view(&self) -> EventV {
        match self {
            StreamEvent::TextStart => EventV::TextStart,
            StreamEvent::TextDelta { text } => EventV::TextDelta { text: text@ },
            StreamEvent::ToolCall { tool_call_id, tool_name, input } => EventV::ToolCall {
                id: tool_call_id@,
                name: tool_name@,
                input: input@,
            },
            StreamEvent::ReasoningStart { id, provider_metadata } => EventV::ReasoningStart {
                id: id@,
                meta: opt_json(*provider_metadata),
            },
            StreamEvent::ReasoningDelta { id, text, provider_metadata } => EventV::ReasoningDelta {
                id: id@,
                text: text@,
                meta: opt_json(*provider_metadata),
            },
            StreamEvent::ReasoningEnd { id } => EventV::ReasoningEnd { id: id@ },
            StreamEvent::Usage {
                input_tokens,
                output_tokens,
                total_tokens,
                cached_input_tokens,
                cache_creation_input_tokens,
            } => EventV::Usage {
                input: *input_tokens,
                output: *output_tokens,
                total: *total_tokens,
                cached_input: *cached_input_tokens,
                cache_creation: *cache_creation_input_tokens,
            },
            StreamEvent::Done { finish_reason } => EventV::Done {
                finish_reason: opt_text(*finish_reason),
            },
            StreamEvent::Error { message } => EventV::Error { message: message@ },
            StreamEvent::Raw { raw_value } => EventV::Raw { raw: raw_value@ },
        }
    }
}

/// The views of a list of events.
pub open spec fn events_view(v: Seq<StreamEvent>) -> Seq<EventV> {
    v.map_values(|e: StreamEvent| e@)
}

} // verus!
