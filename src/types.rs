use vstd::prelude::*;
use crate::json::{Json, JsonV};
use crate::events::opt_json;

verus! {

/// One part of a message's content.
#[derive(Debug)]
pub enum ContentPart {
    Text { text: String },
    Image { image: String },
    ToolCall { tool_call_id: String, tool_name: String, input: Json },
    ToolResult { tool_call_id: String, tool_name: String, output: Json },
    Reasoning { text: String, provider_options: Option<Json> },
}

pub enum PartV {
    Text { text: Seq<char> },
    Image { image: Seq<char> },
    ToolCall { id: Seq<char>, name: Seq<char>, input: JsonV },
    ToolResult { id: Seq<char>, name: Seq<char>, output: JsonV },
    Reasoning { text: Seq<char>, options: Option<JsonV> },
}

impl View for ContentPart {
    type V = PartV;

    open spec fn view(&self) -> PartV {
        match self {
            ContentPart::Text { text } => PartV::Text { text: text@ },
            ContentPart::Image { image } => PartV::Image { image: image@ },
            ContentPart::ToolCall { tool_call_id, tool_name, input } => PartV::ToolCall {
                id: tool_call_id@,
                name: tool_name@,
                input: input@,
            },
            ContentPart::ToolResult { tool_call_id, tool_name, output } => PartV::ToolResult {
                id: tool_call_id@,
                name: tool_name@,
                output: output@,
            },
            ContentPart::Reasoning { text, provider_options } => PartV::Reasoning {
                text: text@,
                options: opt_json(*provider_options),
            },
        }
    }
}

pub open spec fn parts_view(v: Seq<ContentPart>) -> Seq<PartV> {
    v.map_values(|p: ContentPart| p@)
}

/// A message's content: plain text or an ordered list of parts.
#[derive(Debug)]
pub enum MessageContent {
    Text(String),
    Parts(Vec<ContentPart>),
}

pub enum ContentV {
    Text(Seq<char>),
    Parts(Seq<PartV>),
}

impl View for MessageContent {
    type V = ContentV;

    open spec fn view(&self) -> ContentV {
        match self {
            MessageContent::Text(t) => ContentV::Text(t@),
            MessageContent::Parts(p) => ContentV::Parts(parts_view(p@)),
        }
    }
}

/// One turn of a conversation. The options are passed through untouched.
#[derive(Debug)]
pub enum Message {
    System { content: String, provider_options: Option<Json> },
    User { content: MessageContent, provider_options: Option<Json> },
    Assistant { content: MessageContent, provider_options: Option<Json> },
    Tool { content: Vec<ContentPart>, provider_options: Option<Json> },
}

pub enum MessageV {
    System { content: Seq<char>, options: Option<JsonV> },
    User { content: ContentV, options: Option<JsonV> },
    Assistant { content: ContentV, options: Option<JsonV> },
    Tool { content: Seq<PartV>, options: Option<JsonV> },
}

impl View for Message {
    type V = MessageV;

    open spec fn view(&self) -> MessageV {
        match self {
            Message::System { content, provider_options } => MessageV::System {
                content: content@,
                options: opt_json(*provider_options),
            },
            Message::User { content, provider_options } => MessageV::User {
                content: content@,
                options: opt_json(*provider_options),
            },
            Message::Assistant { content, provider_options } => MessageV::Assistant {
                content: content@,
                options: opt_json(*provider_options),
            },
            Message::Tool { content, provider_options } => MessageV::Tool {
                content: parts_view(content@),
                options: opt_json(*provider_options),
            },
        }
    }
}

pub open spec fn messages_view(v: Seq<Message>) -> Seq<MessageV> {
    v.map_values(|m: Message| m@)
}

/// A tool that the model may call.
#[derive(Debug)]
pub struct ToolDefinition {
    pub tool_type: String,
    pub name: String,
    pub description: Option<String>,
    pub parameters: Json,
    pub strict: bool,
}

pub struct ToolDefinitionV {
    pub name: Seq<char>,
    pub description: Option<Seq<char>>,
    pub parameters: JsonV,
}

impl View for ToolDefinition {
    type V = ToolDefinitionV;

    open spec fn view(&self) -> ToolDefinitionV {
        ToolDefinitionV {
            name: self.name@,
            description: crate::events::opt_text(self.description),
            parameters: self.parameters@,
        }
    }
}

pub open spec fn tools_view(v: Seq<ToolDefinition>) -> Seq<ToolDefinitionV> {
    v.map_values(|t: ToolDefinition| t@)
}

} // verus!
