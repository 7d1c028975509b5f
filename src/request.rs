use vstd::prelude::*;
use vstd::string::StringExecFns;
use crate::json::{
    Json, JsonV, field, items_view, json_text, json_view, lemma_items_view, members_view,
    lemma_members_view, set_members, with_member, write_json,
};
use crate::openai::{OpenAiProtocol, field_opt};
use crate::text::{blank, is_blank};
use crate::types::{
    ContentPart, ContentV, Message, MessageContent, MessageV, PartV, ToolDefinition,
    ToolDefinitionV, messages_view, parts_view, tools_view,
};

verus! {

broadcast use vstd::seq::group_seq_axioms, vstd::std_specs::vec::group_vec_axioms;

pub open spec fn jstr(s: Seq<char>) -> JsonV {
    JsonV::Str(s)
}

pub open spec fn o1(k1: Seq<char>, v1: JsonV) -> JsonV {
    JsonV::Object(seq![(k1, v1)])
}

pub open spec fn o2(k1: Seq<char>, v1: JsonV, k2: Seq<char>, v2: JsonV) -> JsonV {
    JsonV::Object(seq![(k1, v1), (k2, v2)])
}

pub open spec fn o3(k1: Seq<char>, v1: JsonV, k2: Seq<char>, v2: JsonV, k3: Seq<char>, v3: JsonV) -> JsonV {
    JsonV::Object(seq![(k1, v1), (k2, v2), (k3, v3)])
}

pub open spec fn o4(
    k1: Seq<char>,
    v1: JsonV,
    k2: Seq<char>,
    v2: JsonV,
    k3: Seq<char>,
    v3: JsonV,
    k4: Seq<char>,
    v4: JsonV,
) -> JsonV {
    JsonV::Object(seq![(k1, v1), (k2, v2), (k3, v3), (k4, v4)])
}

fn entry(k: &str, v: Json) -> (r: (String, Json))
    ensures
        r.0@ == k@,
        r.1@ == v@,
{
    (String::from_str(k), v)
}

fn obj1(a: (String, Json)) -> (r: Json)
    ensures
        r@ == o1(a.0@, a.1@),
{
    let ghost ka = (a.0@, a.1@);
    let mut m: Vec<(String, Json)> = Vec::new();
    m.push(a);
    proof {
        lemma_members_view(m@, m@.len());
        assert(members_view(m@, m@.len()) =~= seq![ka]);
    }
    Json::Object(m)
}

fn obj2(a: (String, Json), b: (String, Json)) -> (r: Json)
    ensures
        r@ == o2(a.0@, a.1@, b.0@, b.1@),
{
    let ghost ka = (a.0@, a.1@);
    let ghost kb = (b.0@, b.1@);
    let mut m: Vec<(String, Json)> = Vec::new();
    m.push(a);
    m.push(b);
    proof {
        lemma_members_view(m@, m@.len());
        assert(members_view(m@, m@.len()) =~= seq![ka, kb]);
    }
    Json::Object(m)
}

fn obj3(a: (String, Json), b: (String, Json), c: (String, Json)) -> (r: Json)
    ensures
        r@ == o3(a.0@, a.1@, b.0@, b.1@, c.0@, c.1@),
{
    let ghost ka = (a.0@, a.1@);
    let ghost kb = (b.0@, b.1@);
    let ghost kc = (c.0@, c.1@);
    let mut m: Vec<(String, Json)> = Vec::new();
    m.push(a);
    m.push(b);
    m.push(c);
    proof {
        lemma_members_view(m@, m@.len());
        assert(members_view(m@, m@.len()) =~= seq![ka, kb, kc]);
    }
    Json::Object(m)
}

fn obj4(a: (String, Json), b: (String, Json), c: (String, Json), d: (String, Json)) -> (r: Json)
    ensures
        r@ == o4(a.0@, a.1@, b.0@, b.1@, c.0@, c.1@, d.0@, d.1@),
{
    let ghost ka = (a.0@, a.1@);
    let ghost kb = (b.0@, b.1@);
    let ghost kc = (c.0@, c.1@);
    let ghost kd = (d.0@, d.1@);
    let mut m: Vec<(String, Json)> = Vec::new();
    m.push(a);
    m.push(b);
    m.push(c);
    m.push(d);
    proof {
        lemma_members_view(m@, m@.len());
        assert(members_view(m@, m@.len()) =~= seq![ka, kb, kc, kd]);
    }
    Json::Object(m)
}

fn text_value(s: &str) -> (r: Json)
    ensures
        r@ == jstr(s@),
{
    Json::Str(String::from_str(s))
}

/// Appends an item and keeps the view of the list in step.
fn push_item(out: &mut Vec<Json>, x: Json)
    ensures
        final(out)@.len() == old(out)@.len() + 1,
        items_view(final(out)@, final(out)@.len()) == items_view(old(out)@, old(out)@.len()).push(x@),
{
    let ghost xv = x@;
    let ghost before = old(out)@;
    out.push(x);
    proof {
        lemma_items_view(before, before.len());
        lemma_items_view(out@, out@.len());
        assert(items_view(out@, out@.len()) =~= items_view(before, before.len()).push(xv));
    }
}

pub open spec fn items(v: Vec<Json>) -> Seq<JsonV> {
    items_view(v@, v@.len())
}

pub open spec fn data_url(image: Seq<char>) -> Seq<char> {
    "data:image/png;base64,"@ + image
}

pub open spec fn text_json(t: Seq<char>) -> JsonV {
    o2("type"@, jstr("text"@), "text"@, jstr(t))
}

pub open spec fn image_json(image: Seq<char>) -> JsonV {
    o2("type"@, jstr("image_url"@), "image_url"@, o1("url"@, jstr(data_url(image))))
}

/// A part of a user turn on the wire; tool calls and tool results have no place there,
/// and blank reasoning is dropped.
pub open spec fn user_part_json(p: PartV) -> Option<JsonV> {
    match p {
        PartV::Text { text } => Some(text_json(text)),
        PartV::Image { image } => Some(image_json(image)),
        PartV::ToolCall { .. } => None,
        PartV::ToolResult { .. } => None,
        PartV::Reasoning { text, .. } => if blank(text) { None } else { Some(text_json(text)) },
    }
}

pub open spec fn user_parts_json(ps: Seq<PartV>) -> Seq<JsonV>
    decreases ps.len(),
{
    if ps.len() == 0 {
        Seq::empty()
    } else {
        let r = user_parts_json(ps.drop_last());
        match user_part_json(ps.last()) {
            Some(j) => r.push(j),
            None => r,
        }
    }
}

pub open spec fn content_json(c: ContentV) -> JsonV {
    match c {
        ContentV::Text(t) => jstr(t),
        ContentV::Parts(ps) => JsonV::Array(user_parts_json(ps)),
    }
}

/// The text of a tool result: its `value` member where that is a string, else its JSON
/// text.
pub open spec fn tool_output_text(output: JsonV) -> Seq<char> {
    match field(output, "value"@) {
        Some(JsonV::Str(v)) => v,
        _ => json_text(output),
    }
}

pub open spec fn tool_result_json(p: PartV) -> Option<JsonV> {
    match p {
        PartV::ToolResult { id, output, .. } => Some(
            o3("tool_call_id"@, jstr(id), "role"@, jstr("tool"@), "content"@, jstr(tool_output_text(output))),
        ),
        _ => None,
    }
}

pub open spec fn tool_results_json(ps: Seq<PartV>) -> Seq<JsonV>
    decreases ps.len(),
{
    if ps.len() == 0 {
        Seq::empty()
    } else {
        let r = tool_results_json(ps.drop_last());
        match tool_result_json(ps.last()) {
            Some(j) => r.push(j),
            None => r,
        }
    }
}

proof fn lemma_prefix_step(s: Seq<PartV>, i: int)
    requires
        0 <= i < s.len(),
    ensures
        s.subrange(0, i + 1).drop_last() == s.subrange(0, i),
        s.subrange(0, i + 1).last() == s[i],
{
    assert(s.subrange(0, i + 1).drop_last() =~= s.subrange(0, i));
}

fn part_text(s: &String) -> (r: Json)
    ensures
        r@ == text_json(s@),
{
    obj2(entry("type", text_value("text")), entry("text", Json::Str(s.clone())))
}

fn part_image(image: &String) -> (r: Json)
    ensures
        r@ == image_json(image@),
{
    let mut url = String::from_str("data:image/png;base64,");
    url.append(image.as_str());
    obj2(entry("type", text_value("image_url")), entry("image_url", obj1(entry("url", Json::Str(url)))))
}

impl OpenAiProtocol {
    /// The content of a user turn on the wire.
    pub fn convert_content(&self, content: &MessageContent) -> (r: Json)
        ensures
            r@ == content_json(content@),
    {
        match content {
            MessageContent::Text(t) => Json::Str(t.clone()),
            MessageContent::Parts(parts) => {
                let ghost ps = parts_view(parts@);
                let mut out: Vec<Json> = Vec::new();
                let mut i: usize = 0;
                assert(ps.subrange(0, 0) =~= Seq::<PartV>::empty());
                while i < parts.len()
                    invariant
                        ps == parts_view(parts@),
                        i <= parts@.len(),
                        items(out) == user_parts_json(ps.subrange(0, i as int)),
                    decreases parts@.len() - i,
                {
                    proof { lemma_prefix_step(ps, i as int); }
                    match &parts[i] {
                        ContentPart::Text { text } => push_item(&mut out, part_text(text)),
                        ContentPart::Image { image } => push_item(&mut out, part_image(image)),
                        ContentPart::ToolCall { .. } => {},
                        ContentPart::ToolResult { .. } => {},
                        ContentPart::Reasoning { text, .. } => {
                            if !is_blank(text.as_str()) {
                                push_item(&mut out, part_text(text));
                            }
                        },
                    }
                    i = i + 1;
                }
                assert(ps.subrange(0, i as int) =~= ps);
                Json::Array(out)
            },
        }
    }

    /// The text of a tool result as the vendor receives it.
    pub fn tool_output_to_string(&self, output: &Json) -> (r: String)
        ensures
            r@ == tool_output_text(output@),
    {
        match output.get("value") {
            Some(v) => match v.as_str() {
                Some(s) => s.clone(),
                None => write_json(output),
            },
            None => write_json(output),
        }
    }

    /// The tool-response entries of a tool turn: one per tool result, with its call id.
    pub fn tool_messages(&self, parts: &Vec<ContentPart>) -> (r: Vec<Json>)
        ensures
            items(r) == tool_results_json(parts_view(parts@)),
    {
        let ghost ps = parts_view(parts@);
        let mut out: Vec<Json> = Vec::new();
        let mut i: usize = 0;
        assert(ps.subrange(0, 0) =~= Seq::<PartV>::empty());
        while i < parts.len()
            invariant
                ps == parts_view(parts@),
                i <= parts@.len(),
                items(out) == tool_results_json(ps.subrange(0, i as int)),
            decreases parts@.len() - i,
        {
            proof { lemma_prefix_step(ps, i as int); }
            match &parts[i] {
                ContentPart::ToolResult { tool_call_id, output, .. } => {
                    let text = self.tool_output_to_string(output);
                    let j = obj3(
                        entry("tool_call_id", Json::Str(tool_call_id.clone())),
                        entry("role", text_value("tool")),
                        entry("content", Json::Str(text)),
                    );
                    push_item(&mut out, j);
                },
                _ => {},
            }
            i = i + 1;
        }
        assert(ps.subrange(0, i as int) =~= ps);
        out
    }
}


/// A non-blank text or reasoning part: its text, which joins the assistant's text.
pub open spec fn chunk_of(p: PartV) -> Option<Seq<char>> {
    match p {
        PartV::Text { text } => if blank(text) { None } else { Some(text) },
        PartV::Reasoning { text, .. } => if blank(text) { None } else { Some(text) },
        _ => None,
    }
}

pub open spec fn joined_chunks(ps: Seq<PartV>) -> Seq<char>
    decreases ps.len(),
{
    if ps.len() == 0 {
        Seq::empty()
    } else {
        let r = joined_chunks(ps.drop_last());
        match chunk_of(ps.last()) {
            Some(t) => r + t,
            None => r,
        }
    }
}

pub open spec fn any_chunk(ps: Seq<PartV>) -> bool
    decreases ps.len(),
{
    ps.len() > 0 && (any_chunk(ps.drop_last()) || chunk_of(ps.last()) is Some)
}

pub open spec fn any_image(ps: Seq<PartV>) -> bool
    decreases ps.len(),
{
    ps.len() > 0 && (any_image(ps.drop_last()) || ps.last() is Image)
}

pub open spec fn rich_of(p: PartV) -> Option<JsonV> {
    match p {
        PartV::Image { image } => Some(image_json(image)),
        _ => match chunk_of(p) {
            Some(t) => Some(text_json(t)),
            None => None,
        },
    }
}

pub open spec fn rich_json(ps: Seq<PartV>) -> Seq<JsonV>
    decreases ps.len(),
{
    if ps.len() == 0 {
        Seq::empty()
    } else {
        let r = rich_json(ps.drop_last());
        match rich_of(ps.last()) {
            Some(j) => r.push(j),
            None => r,
        }
    }
}

/// A tool-call part of an assistant turn as an outbound descriptor; one with a blank
/// name cannot be replayed and is dropped.
pub open spec fn call_of(p: PartV) -> Option<JsonV> {
    match p {
        PartV::ToolCall { id, name, input } => if blank(name) {
            None
        } else {
            Some(
                o3(
                    "id"@,
                    jstr(id),
                    "type"@,
                    jstr("function"@),
                    "function"@,
                    o2("name"@, jstr(name), "arguments"@, jstr(json_text(input))),
                ),
            )
        },
        _ => None,
    }
}

pub open spec fn calls_json(ps: Seq<PartV>) -> Seq<JsonV>
    decreases ps.len(),
{
    if ps.len() == 0 {
        Seq::empty()
    } else {
        let r = calls_json(ps.drop_last());
        match call_of(ps.last()) {
            Some(j) => r.push(j),
            None => r,
        }
    }
}

/// The content of an assistant turn: one string of all its text, or the parts as a list
/// when an image is among them, or null when there is nothing to say.
pub open spec fn assistant_content(c: ContentV) -> JsonV {
    match c {
        ContentV::Text(t) => if blank(t) { JsonV::Null } else { jstr(t) },
        ContentV::Parts(ps) => if any_image(ps) {
            JsonV::Array(rich_json(ps))
        } else if any_chunk(ps) {
            jstr(joined_chunks(ps))
        } else {
            JsonV::Null
        },
    }
}

pub open spec fn assistant_json(c: ContentV, opts: Option<JsonV>) -> JsonV {
    let base = seq![("role"@, jstr("assistant"@)), ("content"@, assistant_content(c))];
    let m1 = match c {
        ContentV::Parts(ps) => if calls_json(ps).len() > 0 {
            base.push(("tool_calls"@, JsonV::Array(calls_json(ps))))
        } else {
            base
        },
        ContentV::Text(_) => base,
    };
    JsonV::Object(
        match field_opt(field_opt(opts, "openaiCompatible"@), "reasoning_content"@) {
            Some(v) => m1.push(("reasoning_content"@, v)),
            None => m1,
        },
    )
}

fn push_member(m: &mut Vec<(String, Json)>, e: (String, Json))
    ensures
        members_view(final(m)@, final(m)@.len()) == members_view(old(m)@, old(m)@.len()).push((e.0@, e.1@)),
{
    let ghost ev = (e.0@, e.1@);
    let ghost before = old(m)@;
    m.push(e);
    proof {
        lemma_members_view(before, before.len());
        lemma_members_view(m@, m@.len());
        assert(members_view(m@, m@.len()) =~= members_view(before, before.len()).push(ev));
    }
}

/// The call descriptor of a tool-call part.
fn call_descriptor(tool_call_id: &String, tool_name: &String, input: &Json) -> (r: Json)
    ensures
        r@ == o3(
            "id"@,
            jstr(tool_call_id@),
            "type"@,
            jstr("function"@),
            "function"@,
            o2("name"@, jstr(tool_name@), "arguments"@, jstr(json_text(input@))),
        ),
{
    let f = obj2(entry("name", Json::Str(tool_name.clone())), entry("arguments", Json::Str(write_json(input))));
    obj3(entry("id", Json::Str(tool_call_id.clone())), entry("type", text_value("function")), entry("function", f))
}

impl OpenAiProtocol {
    /// An assistant turn on the wire, with its tool calls and any reasoning content that
    /// the turn's `openaiCompatible` options carry.
    pub fn build_assistant_message(&self, content: &MessageContent, provider_options: Option<&Json>) -> (r: Json)
        ensures
            r@ == assistant_json(
                content@,
                match provider_options { Some(o) => Some(o@), None => None },
            ),
    {
        let mut calls: Vec<Json> = Vec::new();
        let content_value = match content {
            MessageContent::Text(t) => if is_blank(t.as_str()) { Json::Null } else { Json::Str(t.clone()) },
            MessageContent::Parts(parts) => {
                let ghost ps = parts_view(parts@);
                let mut text = String::new();
                let mut any_text = false;
                let mut has_image = false;
                let mut rich: Vec<Json> = Vec::new();
                let mut i: usize = 0;
                assert(ps.subrange(0, 0) =~= Seq::<PartV>::empty());
                while i < parts.len()
                    invariant
                        ps == parts_view(parts@),
                        i <= parts@.len(),
                        text@ == joined_chunks(ps.subrange(0, i as int)),
                        any_text == any_chunk(ps.subrange(0, i as int)),
                        has_image == any_image(ps.subrange(0, i as int)),
                        items(rich) == rich_json(ps.subrange(0, i as int)),
                        items(calls) == calls_json(ps.subrange(0, i as int)),
                    decreases parts@.len() - i,
                {
                    proof { lemma_prefix_step(ps, i as int); }
                    match &parts[i] {
                        ContentPart::Text { text: t } => {
                            if !is_blank(t.as_str()) {
                                text.append(t.as_str());
                                any_text = true;
                                push_item(&mut rich, part_text(t));
                            }
                        },
                        ContentPart::Reasoning { text: t, .. } => {
                            if !is_blank(t.as_str()) {
                                text.append(t.as_str());
                                any_text = true;
                                push_item(&mut rich, part_text(t));
                            }
                        },
                        ContentPart::Image { image } => {
                            has_image = true;
                            push_item(&mut rich, part_image(image));
                        },
                        ContentPart::ToolCall { tool_call_id, tool_name, input } => {
                            if !is_blank(tool_name.as_str()) {
                                push_item(&mut calls, call_descriptor(tool_call_id, tool_name, input));
                            }
                        },
                        ContentPart::ToolResult { .. } => {},
                    }
                    i = i + 1;
                }
                assert(ps.subrange(0, i as int) =~= ps);
                if has_image {
                    Json::Array(rich)
                } else if any_text {
                    Json::Str(text)
                } else {
                    Json::Null
                }
            },
        };
        let mut m: Vec<(String, Json)> = Vec::new();
        push_member(&mut m, entry("role", text_value("assistant")));
        push_member(&mut m, entry("content", content_value));
        if calls.len() > 0 {
            push_member(&mut m, entry("tool_calls", Json::Array(calls)));
        }
        let rc = match provider_options {
            Some(o) => match o.get("openaiCompatible") {
                Some(c) => c.get("reasoning_content"),
                None => None,
            },
            None => None,
        };
        match rc {
            Some(v) => push_member(&mut m, entry("reasoning_content", v.deep_clone())),
            None => {},
        }
        proof {
            lemma_members_view(m@, m@.len());
        }
        assert(members_view(m@, m@.len()) =~= assistant_json(
            content@,
            match provider_options { Some(o) => Some(o@), None => None },
        )->Object_0);
        Json::Object(m)
    }
}


/// The wire entries of one turn: tool turns give one entry per tool result.
pub open spec fn message_json(m: MessageV) -> Seq<JsonV> {
    match m {
        MessageV::System { content, .. } => seq![o2("role"@, jstr("system"@), "content"@, jstr(content))],
        MessageV::User { content, .. } => seq![o2("role"@, jstr("user"@), "content"@, content_json(content))],
        MessageV::Assistant { content, options } => seq![assistant_json(content, options)],
        MessageV::Tool { content, .. } => tool_results_json(content),
    }
}

pub open spec fn messages_json(ms: Seq<MessageV>) -> Seq<JsonV>
    decreases ms.len(),
{
    if ms.len() == 0 {
        Seq::empty()
    } else {
        messages_json(ms.drop_last()) + message_json(ms.last())
    }
}

pub open spec fn tool_json(t: ToolDefinitionV) -> JsonV {
    o2(
        "type"@,
        jstr("function"@),
        "function"@,
        o3(
            "name"@,
            jstr(t.name),
            "description"@,
            match t.description { Some(d) => jstr(d), None => JsonV::Null },
            "parameters"@,
            t.parameters,
        ),
    )
}

pub open spec fn tools_json(ts: Seq<ToolDefinitionV>) -> Seq<JsonV> {
    ts.map_values(|t: ToolDefinitionV| tool_json(t))
}

/// A JSON integer.
pub open spec fn int_json(i: i32) -> JsonV {
    if i >= 0 { JsonV::PosInt(i as u64) } else { JsonV::NegInt(i as i64) }
}

pub open spec fn opt_set(b: JsonV, k: Seq<char>, v: Option<JsonV>) -> JsonV {
    match v {
        Some(x) => with_member(b, k, x),
        None => b,
    }
}

pub open spec fn opt_view(j: Option<&Json>) -> Option<JsonV> {
    match j {
        Some(x) => Some(x@),
        None => None,
    }
}

pub open spec fn base_body(model: Seq<char>, ms: Seq<MessageV>) -> JsonV {
    o4(
        "model"@,
        jstr(model),
        "messages"@,
        JsonV::Array(messages_json(ms)),
        "stream"@,
        JsonV::Bool(true),
        "stream_options"@,
        o1("include_usage"@, JsonV::Bool(true)),
    )
}

/// The request body: the model, the messages and streaming on; then each sampling
/// parameter that is given; then the recognised provider options; then the members of
/// `extra`, which override any member of the same name.
pub open spec fn request_body(
    model: Seq<char>,
    ms: Seq<MessageV>,
    tools: Option<Seq<ToolDefinitionV>>,
    temperature: Option<JsonV>,
    max_tokens: Option<i32>,
    top_p: Option<JsonV>,
    top_k: Option<i32>,
    opts: Option<JsonV>,
    extra: Option<JsonV>,
) -> JsonV {
    let b1 = opt_set(
        base_body(model, ms),
        "tools"@,
        match tools { Some(t) => Some(JsonV::Array(tools_json(t))), None => None },
    );
    let b2 = opt_set(b1, "temperature"@, temperature);
    let b3 = opt_set(b2, "max_tokens"@, match max_tokens { Some(m) => Some(int_json(m)), None => None });
    let b4 = opt_set(b3, "top_p"@, top_p);
    let b5 = opt_set(b4, "top_k"@, match top_k { Some(k) => Some(int_json(k)), None => None });
    let b6 = opt_set(b5, "reasoning_effort"@, field_opt(field_opt(opts, "openai"@), "reasoningEffort"@));
    let b7 = opt_set(
        b6,
        "reasoning"@,
        match field_opt(field_opt(opts, "openrouter"@), "effort"@) {
            Some(e) => Some(o1("effort"@, e)),
            None => None,
        },
    );
    match (b7, extra) {
        (JsonV::Object(m), Some(JsonV::Object(e))) => JsonV::Object(set_members(m, e)),
        _ => b7,
    }
}

fn int_value(i: i32) -> (r: Json)
    ensures
        r@ == int_json(i),
{
    if i >= 0 { Json::PosInt(i as u64) } else { Json::NegInt(i as i64) }
}

fn set_opt(body: &mut Json, k: &str, v: Option<Json>)
    ensures
        final(body)@ == opt_set(old(body)@, k@, match v { Some(x) => Some(x@), None => None }),
{
    match v {
        Some(x) => body.set_field(String::from_str(k), x),
        None => {},
    }
}

impl OpenAiProtocol {
    /// The wire messages of a conversation, in order.
    pub fn build_messages(&self, messages: &Vec<Message>) -> (r: Vec<Json>)
        ensures
            items(r) == messages_json(messages_view(messages@)),
    {
        let ghost ms = messages_view(messages@);
        let mut out: Vec<Json> = Vec::new();
        let mut i: usize = 0;
        assert(ms.subrange(0, 0) =~= Seq::<MessageV>::empty());
        while i < messages.len()
            invariant
                ms == messages_view(messages@),
                i <= messages@.len(),
                items(out) == messages_json(ms.subrange(0, i as int)),
            decreases messages@.len() - i,
        {
            proof {
                assert(ms.subrange(0, i + 1).drop_last() =~= ms.subrange(0, i as int));
            }
            let ghost before = items(out);
            match &messages[i] {
                Message::System { content, .. } => {
                    let j = obj2(entry("role", text_value("system")), entry("content", Json::Str(content.clone())));
                    push_item(&mut out, j);
                    assert(items(out) =~= before + message_json(ms[i as int]));
                },
                Message::User { content, .. } => {
                    let j = obj2(entry("role", text_value("user")), entry("content", self.convert_content(content)));
                    push_item(&mut out, j);
                    assert(items(out) =~= before + message_json(ms[i as int]));
                },
                Message::Assistant { content, provider_options } => {
                    let opts = match provider_options { Some(o) => Some(o), None => None };
                    let j = self.build_assistant_message(content, opts);
                    push_item(&mut out, j);
                    assert(items(out) =~= before + message_json(ms[i as int]));
                },
                Message::Tool { content, .. } => {
                    let entries = self.tool_messages(content);
                    let mut k: usize = 0;
                    proof { lemma_items_view(entries@, entries@.len()); }
                    while k < entries.len()
                        invariant
                            k <= entries@.len(),
                            items(entries).len() == entries@.len(),
                            forall|q: int| 0 <= q < entries@.len() ==> #[trigger] items(entries)[q] == json_view(entries@[q]),
                            items(out) =~= before + items(entries).subrange(0, k as int),
                        decreases entries@.len() - k,
                    {
                        push_item(&mut out, entries[k].deep_clone());
                        assert(items(entries).subrange(0, k + 1) =~= items(entries).subrange(0, k as int).push(items(entries)[k as int]));
                        k = k + 1;
                    }
                    assert(items(entries).subrange(0, k as int) =~= items(entries));
                },
            }
            i = i + 1;
        }
        assert(ms.subrange(0, i as int) =~= ms);
        out
    }

    /// The function declarations for the given tools.
    pub fn build_tools(&self, tools: Option<&Vec<ToolDefinition>>) -> (r: Option<Vec<Json>>)
        ensures
            match tools {
                Some(t) => r matches Some(v) && items(v) == tools_json(tools_view(t@)),
                None => r is None,
            },
    {
        match tools {
            None => None,
            Some(ts) => {
                let ghost tv = tools_view(ts@);
                let mut out: Vec<Json> = Vec::new();
                let mut i: usize = 0;
                while i < ts.len()
                    invariant
                        tv == tools_view(ts@),
                        i <= ts@.len(),
                        items(out) =~= tools_json(tv).subrange(0, i as int),
                    decreases ts@.len() - i,
                {
                    let t = &ts[i];
                    let desc = match &t.description {
                        Some(d) => Json::Str(d.clone()),
                        None => Json::Null,
                    };
                    let f = obj3(
                        entry("name", Json::Str(t.name.clone())),
                        entry("description", desc),
                        entry("parameters", t.parameters.deep_clone()),
                    );
                    push_item(&mut out, obj2(entry("type", text_value("function")), entry("function", f)));
                    i = i + 1;
                }
                Some(out)
            },
        }
    }

    /// Builds the streaming request body. It never fails on what the caller supplies:
    /// unknown option keys are ignored.
    pub fn build_request(
        &self,
        model: &str,
        messages: &Vec<Message>,
        tools: Option<&Vec<ToolDefinition>>,
        temperature: Option<&Json>,
        max_tokens: Option<i32>,
        top_p: Option<&Json>,
        top_k: Option<i32>,
        provider_options: Option<&Json>,
        extra_body: Option<&Json>,
    ) -> (r: Result<Json, String>)
        ensures
            r matches Ok(b) && b@ == request_body(
                model@,
                messages_view(messages@),
                match tools { Some(t) => Some(tools_view(t@)), None => None },
                opt_view(temperature),
                max_tokens,
                opt_view(top_p),
                top_k,
                opt_view(provider_options),
                opt_view(extra_body),
            ),
    {
        let msgs = self.build_messages(messages);
        let mut body = obj4(
            entry("model", text_value(model)),
            entry("messages", Json::Array(msgs)),
            entry("stream", Json::Bool(true)),
            entry("stream_options", obj1(entry("include_usage", Json::Bool(true)))),
        );
        let tools_value = match self.build_tools(tools) {
            Some(t) => Some(Json::Array(t)),
            None => None,
        };
        set_opt(&mut body, "tools", tools_value);
        set_opt(&mut body, "temperature", match temperature { Some(t) => Some(t.deep_clone()), None => None });
        set_opt(&mut body, "max_tokens", match max_tokens { Some(m) => Some(int_value(m)), None => None });
        set_opt(&mut body, "top_p", match top_p { Some(t) => Some(t.deep_clone()), None => None });
        set_opt(&mut body, "top_k", match top_k { Some(k) => Some(int_value(k)), None => None });
        let (effort, openrouter_effort) = match provider_options {
            Some(o) => (
                match o.get("openai") { Some(x) => x.get("reasoningEffort"), None => None },
                match o.get("openrouter") { Some(x) => x.get("effort"), None => None },
            ),
            None => (None, None),
        };
        set_opt(&mut body, "reasoning_effort", match effort { Some(e) => Some(e.deep_clone()), None => None });
        set_opt(
            &mut body,
            "reasoning",
            match openrouter_effort { Some(e) => Some(obj1(entry("effort", e.deep_clone()))), None => None },
        );
        match extra_body {
            Some(e) => body.merge_members(e),
            None => {},
        }
        Ok(body)
    }
}

} // verus!
