use vstd::prelude::*;
use vstd::string::StringExecFns;
use crate::events::{EventV, StreamEvent};
use crate::json::{
    Json, JsonV, field, i64_of, items_of, json_view, lemma_items_view, parse_json,
    parsed_json, str_of, text_eq, u64_of,
};
use crate::stream::{
    ArgsV, FragmentArgs, FragmentV, ProtocolStreamState, StateV, ToolFragment, apply_fragment,
    apply_fragments, emit_all,
};
use crate::text::{trim, trimmed};

verus! {

broadcast use vstd::seq::group_seq_axioms, vstd::std_specs::vec::group_vec_axioms;

/// The OpenAI-compatible chat-completions dialect.
pub struct OpenAiProtocol;

pub open spec fn field_opt(v: Option<JsonV>, k: Seq<char>) -> Option<JsonV> {
    match v {
        Some(x) => field(x, k),
        None => None,
    }
}

pub open spec fn text_or_empty(t: Option<Seq<char>>) -> Seq<char> {
    match t {
        Some(s) => s,
        None => Seq::empty(),
    }
}

/// The fragment that one entry of a delta's `tool_calls` carries.
pub open spec fn fragment_of(e: JsonV) -> FragmentV {
    let function = field(e, "function"@);
    FragmentV {
        index: u64_of(field(e, "index"@)),
        id: text_or_empty(str_of(field(e, "id"@))),
        name: text_or_empty(str_of(field_opt(function, "name"@))),
        args: match field_opt(function, "arguments"@) {
            Some(JsonV::Str(t)) => ArgsV::Text(t),
            Some(v) => ArgsV::Value(v),
            None => ArgsV::Absent,
        },
    }
}

/// The fragments of a delta, in the order of its `tool_calls` array.
pub open spec fn delta_fragments(delta: JsonV) -> Seq<FragmentV> {
    match items_of(field(delta, "tool_calls"@)) {
        Some(items) => items.map_values(|e: JsonV| fragment_of(e)),
        None => Seq::empty(),
    }
}

pub open spec fn push_event(s: StateV, e: EventV) -> StateV {
    StateV { pending: s.pending.push(e), ..s }
}

/// The `Usage` event that a payload reports: only with a positive count or total.
pub open spec fn usage_event(p: JsonV) -> Option<EventV> {
    match field(p, "usage"@) {
        Some(u) => {
            let input = match i64_of(field(u, "prompt_tokens"@)) { Some(x) => x, None => 0 };
            let output = match i64_of(field(u, "completion_tokens"@)) { Some(x) => x, None => 0 };
            let total = i64_of(field(u, "total_tokens"@));
            if input > 0 || output > 0 || (total matches Some(t) && t > 0) {
                Some(EventV::Usage {
                    input: input as i32,
                    output: output as i32,
                    total: match total { Some(t) => Some(t as i32), None => None },
                    cached_input: None,
                    cache_creation: None,
                })
            } else {
                None
            }
        },
        None => None,
    }
}

pub open spec fn after_usage(s: StateV, p: JsonV) -> StateV {
    match usage_event(p) {
        Some(e) => push_event(s, e),
        None => s,
    }
}

/// A non-empty reasoning fragment: opens the channel under `fresh` if it is closed,
/// then queues the fragment under the channel's id.
pub open spec fn after_reasoning(s: StateV, d: JsonV, fresh: Seq<char>) -> StateV {
    match str_of(field(d, "reasoning_content"@)) {
        Some(rc) => if rc.len() > 0 {
            let s1 = if !s.reasoning_started {
                StateV {
                    reasoning_started: true,
                    reasoning_id: Some(fresh),
                    pending: s.pending.push(EventV::ReasoningStart { id: fresh, meta: None }),
                    ..s
                }
            } else {
                s
            };
            match s1.reasoning_id {
                Some(id) => push_event(s1, EventV::ReasoningDelta { id: id, text: rc, meta: None }),
                None => s1,
            }
        } else {
            s
        },
        None => s,
    }
}

/// One delta: `TextStart` first in the stream, then reasoning, text and tool fragments.
pub open spec fn after_delta(s: StateV, d: JsonV, fresh: Seq<char>) -> StateV {
    let s1 = if !s.text_started {
        StateV { text_started: true, pending: s.pending.push(EventV::TextStart), ..s }
    } else {
        s
    };
    let s2 = after_reasoning(s1, d, fresh);
    let s3 = match str_of(field(d, "content"@)) {
        Some(c) => push_event(s2, EventV::TextDelta { text: c }),
        None => s2,
    };
    apply_fragments(s3, delta_fragments(d))
}

pub open spec fn first_choice(p: JsonV) -> Option<JsonV> {
    match items_of(field(p, "choices"@)) {
        Some(c) => if c.len() > 0 { Some(c[0]) } else { None },
        None => None,
    }
}

pub open spec fn after_choice(s: StateV, p: JsonV, fresh: Seq<char>) -> StateV {
    match first_choice(p) {
        Some(ch) => {
            let s1 = match str_of(field(ch, "finish_reason"@)) {
                Some(fr) => StateV { finish_reason: Some(fr), ..s },
                None => s,
            };
            match field(ch, "delta"@) {
                Some(d) => after_delta(s1, d, fresh),
                None => s1,
            }
        },
        None => s,
    }
}

/// Ends an open reasoning channel.
pub open spec fn close_reasoning(s: StateV) -> StateV {
    if s.reasoning_started {
        StateV {
            pending: match s.reasoning_id {
                Some(id) => s.pending.push(EventV::ReasoningEnd { id: id }),
                None => s.pending,
            },
            reasoning_started: false,
            ..s
        }
    } else {
        s
    }
}

/// The state after one JSON payload, before an event is handed out.
pub open spec fn after_payload(s: StateV, p: JsonV, fresh: Seq<char>) -> StateV {
    let s1 = after_choice(after_usage(s, p), p, fresh);
    let s2 = if s1.finish_reason == Some("tool_calls"@) { emit_all(s1, false) } else { s1 };
    if s2.finish_reason is Some { close_reasoning(s2) } else { s2 }
}

/// The state after the stream terminator, before an event is handed out.
pub open spec fn after_terminator(s: StateV) -> StateV {
    close_reasoning(emit_all(s, true))
}

/// Hands out the oldest pending event, if any.
pub open spec fn pop(s: StateV) -> (StateV, Option<EventV>) {
    if s.pending.len() > 0 {
        (StateV { pending: s.pending.drop_first(), ..s }, Some(s.pending[0]))
    } else {
        (s, None)
    }
}

pub open spec fn is_terminator(data: Seq<char>) -> bool {
    trimmed(data) == "[DONE]"@
}

/// One chunk of the stream: the new state and the event handed out, or `None` where the
/// chunk is neither the terminator nor JSON. `fresh` is the id that a reasoning channel
/// opened by this chunk gets.
pub open spec fn parse_spec(s: StateV, data: Seq<char>, fresh: Seq<char>) -> Option<(StateV, Option<EventV>)> {
    if is_terminator(data) {
        let s1 = after_terminator(s);
        if s1.pending.len() > 0 {
            Some(pop(s1))
        } else {
            Some((s1, Some(EventV::Done { finish_reason: s1.finish_reason })))
        }
    } else {
        match parsed_json(data) {
            Some(p) => Some(pop(after_payload(s, p, fresh))),
            None => None,
        }
    }
}

/// The id that a reasoning channel opened by a chunk gets: `reasoning_` and a new UUID,
/// whenever no channel is open.
pub open spec fn fresh_reasoning_id(fresh: Seq<char>, reasoning_open: bool) -> bool {
    !reasoning_open ==> exists|u: Seq<char>| crate::tracing::uuid_shaped(u) && fresh == "reasoning_"@ + u
}

pub open spec fn opt_event(e: Option<StreamEvent>) -> Option<EventV> {
    match e {
        Some(x) => Some(x@),
        None => None,
    }
}


/// Queues one event.
fn queue(state: &mut ProtocolStreamState, e: StreamEvent)
    ensures
        final(state)@ == push_event(old(state)@, e@),
{
    let ghost ev = e@;
    state.pending_events.push(e);
    assert(final(state)@.pending =~= old(state)@.pending.push(ev));
}

/// Reads the fragment of one `tool_calls` entry.
fn fragment_from(e: &Json) -> (r: ToolFragment)
    ensures
        r@ == fragment_of(e@),
{
    let index = match e.get("index") {
        Some(x) => x.as_u64(),
        None => None,
    };
    let id = match e.get("id") {
        Some(x) => match x.as_str() {
            Some(t) => t.clone(),
            None => String::new(),
        },
        None => String::new(),
    };
    let function = e.get("function");
    let name = match function {
        Some(f) => match f.get("name") {
            Some(x) => match x.as_str() {
                Some(t) => t.clone(),
                None => String::new(),
            },
            None => String::new(),
        },
        None => String::new(),
    };
    let args = match function {
        Some(f) => match f.get("arguments") {
            Some(x) => match x.as_str() {
                Some(t) => FragmentArgs::Text(t.clone()),
                None => FragmentArgs::Value(x.deep_clone()),
            },
            None => FragmentArgs::Absent,
        },
        None => FragmentArgs::Absent,
    };
    ToolFragment { index, id, name, args }
}

pub proof fn lemma_apply_fragments_push(s: StateV, fs: Seq<FragmentV>, f: FragmentV)
    ensures
        apply_fragments(s, fs.push(f)) == apply_fragment(apply_fragments(s, fs), f),
{
    assert(fs.push(f).drop_last() =~= fs);
}

/// Merges the tool-call fragments of one delta, in order. A fragment's vendor index
/// orders its call when it is at most `MAX_TOOL_CALL_SLOT`; a call with a larger index is
/// ordered by arrival, as `order_after` states.
pub fn parse_tool_delta(delta: &Json, state: &mut ProtocolStreamState)
    ensures
        final(state)@ == apply_fragments(old(state)@, delta_fragments(delta@)),
        crate::stream::keys_in_order(old(state)@) ==> crate::stream::keys_in_order(final(state)@),
{
    let ghost s0 = state@;
    let tool_calls = match delta.get("tool_calls") {
        Some(t) => t.as_array(),
        None => None,
    };
    match tool_calls {
        Some(items) => {
            proof { lemma_items_view(items@, items@.len()); }
            let ghost fs = delta_fragments(delta@);
            assert(fs.len() == items@.len());
            let mut i: usize = 0;
            assert(fs.subrange(0, 0) =~= Seq::<FragmentV>::empty());
            while i < items.len()
                invariant
                    i <= items@.len(),
                    fs == delta_fragments(delta@),
                    fs.len() == items@.len(),
                    forall|k: int| 0 <= k < items@.len() ==> #[trigger] fs[k] == fragment_of(json_view(items@[k])),
                    state@ == apply_fragments(s0, fs.subrange(0, i as int)),
                    crate::stream::keys_in_order(s0) ==> crate::stream::keys_in_order(state@),
                decreases items@.len() - i,
            {
                let f = fragment_from(&items[i]);
                state.accumulate_fragment(f);
                proof {
                    assert(fs.subrange(0, i + 1) =~= fs.subrange(0, i as int).push(fs[i as int]));
                    lemma_apply_fragments_push(s0, fs.subrange(0, i as int), fs[i as int]);
                }
                i = i + 1;
            }
            assert(fs.subrange(0, i as int) =~= fs);
        },
        None => {},
    }
}

fn push_usage(p: &Json, state: &mut ProtocolStreamState)
    ensures
        final(state)@ == after_usage(old(state)@, p@),
{
    match p.get("usage") {
        Some(u) => {
            let input: i64 = match u.get("prompt_tokens") {
                Some(x) => match x.as_i64() { Some(v) => v, None => 0 },
                None => 0,
            };
            let output: i64 = match u.get("completion_tokens") {
                Some(x) => match x.as_i64() { Some(v) => v, None => 0 },
                None => 0,
            };
            let total: Option<i64> = match u.get("total_tokens") {
                Some(x) => x.as_i64(),
                None => None,
            };
            let meaningful = input > 0 || output > 0 || match total { Some(t) => t > 0, None => false };
            if meaningful {
                queue(state, StreamEvent::Usage {
                    input_tokens: input as i32,
                    output_tokens: output as i32,
                    total_tokens: match total { Some(t) => Some(t as i32), None => None },
                    cached_input_tokens: None,
                    cache_creation_input_tokens: None,
                });
            }
        },
        None => {},
    }
}

fn push_reasoning(d: &Json, fresh: &str, state: &mut ProtocolStreamState)
    ensures
        final(state)@ == after_reasoning(old(state)@, d@, fresh@),
{
    let rc = match d.get("reasoning_content") {
        Some(x) => x.as_str(),
        None => None,
    };
    match rc {
        Some(text) => {
            if !text.as_str().is_empty() {
                if !state.reasoning_started {
                    state.reasoning_started = true;
                    state.reasoning_id = Some(String::from_str(fresh));
                    queue(state, StreamEvent::ReasoningStart {
                        id: String::from_str(fresh),
                        provider_metadata: None,
                    });
                }
                let id = match &state.reasoning_id {
                    Some(id) => Some(id.clone()),
                    None => None,
                };
                match id {
                    Some(id) => {
                        queue(state, StreamEvent::ReasoningDelta {
                            id,
                            text: text.clone(),
                            provider_metadata: None,
                        });
                    },
                    None => {},
                }
            }
        },
        None => {},
    }
}

fn push_delta(d: &Json, fresh: &str, state: &mut ProtocolStreamState)
    ensures
        final(state)@ == after_delta(old(state)@, d@, fresh@),
{
    if !state.text_started {
        state.text_started = true;
        queue(state, StreamEvent::TextStart);
    }
    push_reasoning(d, fresh, state);
    match d.get("content") {
        Some(x) => match x.as_str() {
            Some(c) => {
                queue(state, StreamEvent::TextDelta { text: c.clone() });
            },
            None => {},
        },
        None => {},
    }
    parse_tool_delta(d, state);
}

fn push_choice(p: &Json, fresh: &str, state: &mut ProtocolStreamState)
    ensures
        final(state)@ == after_choice(old(state)@, p@, fresh@),
{
    let choices = match p.get("choices") {
        Some(c) => c.as_array(),
        None => None,
    };
    match choices {
        Some(items) => {
            proof { lemma_items_view(items@, items@.len()); }
            if items.len() > 0 {
                let ch = &items[0];
                match ch.get("finish_reason") {
                    Some(x) => match x.as_str() {
                        Some(fr) => {
                            state.finish_reason = Some(fr.clone());
                        },
                        None => {},
                    },
                    None => {},
                }
                match ch.get("delta") {
                    Some(d) => push_delta(d, fresh, state),
                    None => {},
                }
            }
        },
        None => {},
    }
}

fn end_reasoning(state: &mut ProtocolStreamState)
    ensures
        final(state)@ == close_reasoning(old(state)@),
{
    if state.reasoning_started {
        let id = match &state.reasoning_id {
            Some(id) => Some(id.clone()),
            None => None,
        };
        match id {
            Some(id) => {
                queue(state, StreamEvent::ReasoningEnd { id });
            },
            None => {},
        }
        state.reasoning_started = false;
    }
}

fn pop_event(state: &mut ProtocolStreamState) -> (r: Option<StreamEvent>)
    ensures
        (final(state)@, opt_event(r)) == pop(old(state)@),
{
    if state.pending_events.len() > 0 {
        let e = state.pending_events.remove(0);
        assert(final(state)@.pending =~= old(state)@.pending.drop_first());
        Some(e)
    } else {
        None
    }
}



impl OpenAiProtocol {
    /// The dialect's name.
    pub fn name(&self) -> (r: &'static str)
        ensures
            r@ == "openai"@,
    {
        "openai"
    }

    /// The path of the streaming endpoint, below the provider's base URL.
    pub fn endpoint_path(&self) -> (r: &'static str)
        ensures
            r@ == "chat/completions"@,
    {
        "chat/completions"
    }

    /// Consumes one chunk of the stream and hands out at most one event; the others wait in
    /// `state.pending_events`. A reasoning channel that this chunk opens gets the id
    /// `fresh_reasoning_id`. A chunk that is neither the terminator nor JSON is an error
    /// and leaves the state as it was.
    pub fn parse_stream_event_with_id(
        &self,
        event_type: Option<&str>,
        data: &str,
        state: &mut ProtocolStreamState,
        fresh_reasoning_id: &str,
    ) -> (r: Result<Option<StreamEvent>, String>)
        ensures
            match parse_spec(old(state)@, data@, fresh_reasoning_id@) {
                None => r is Err && final(state)@ == old(state)@,
                Some((s1, e)) => r matches Ok(x) && final(state)@ == s1 && opt_event(x) == e,
            },
    {
        if text_eq(trim(data), "[DONE]") {
            state.emit_tool_calls(true);
            end_reasoning(state);
            let e = pop_event(state);
            return match e {
                Some(e) => Ok(Some(e)),
                None => {
                    let finish_reason = match &state.finish_reason {
                        Some(f) => Some(f.clone()),
                        None => None,
                    };
                    Ok(Some(StreamEvent::Done { finish_reason }))
                },
            };
        }
        let payload = match parse_json(data) {
            Ok(p) => p,
            Err(e) => {
                return Err(e);
            },
        };
        self.apply_payload(&payload, fresh_reasoning_id, state);
        Ok(pop_event(state))
    }

    /// Applies one parsed chunk to the state, queueing its events: usage, text start,
    /// reasoning, text, tool fragments, then the flush and the reasoning end that a finish
    /// reason calls for. A reasoning channel opened here gets the id `fresh_reasoning_id`.
    pub fn apply_payload(&self, payload: &Json, fresh_reasoning_id: &str, state: &mut ProtocolStreamState)
        ensures
            final(state)@ == after_payload(old(state)@, payload@, fresh_reasoning_id@),
    {
        push_usage(payload, state);
        push_choice(payload, fresh_reasoning_id, state);
        let tool_calls_done = match &state.finish_reason {
            Some(f) => text_eq(f.as_str(), "tool_calls"),
            None => false,
        };
        if tool_calls_done {
            state.emit_tool_calls(false);
        }
        if state.finish_reason.is_some() {
            end_reasoning(state);
        }
    }

    /// Consumes one chunk of the stream and hands out at most one event; the others wait in
    /// `state.pending_events`, to be drained before the next chunk. A reasoning channel
    /// opened by this chunk gets a fresh id `reasoning_<uuid>`.
    pub fn parse_stream_event(
        &self,
        event_type: Option<&str>,
        data: &str,
        state: &mut ProtocolStreamState,
    ) -> (r: Result<Option<StreamEvent>, String>)
        ensures
            exists|fresh: Seq<char>|
                #[trigger] fresh_reasoning_id(fresh, old(state)@.reasoning_started) && match parse_spec(old(state)@, data@, fresh) {
                    None => r is Err && final(state)@ == old(state)@,
                    Some((s1, e)) => r matches Ok(x) && final(state)@ == s1 && opt_event(x) == e,
                },
    {
        let mut fresh = String::new();
        let ghost mut u: Seq<char> = Seq::empty();
        if !state.reasoning_started {
            fresh.append("reasoning_");
            let t = crate::tracing::new_uuid_text();
            fresh.append(t.as_str());
            proof {
                u = t@;
                assert(fresh@ =~= "reasoning_"@ + u);
            }
        }
        let r = self.parse_stream_event_with_id(event_type, data, state, fresh.as_str());
        assert(fresh_reasoning_id(fresh@, old(state)@.reasoning_started));
        assert(match parse_spec(old(state)@, data@, fresh@) {
            None => r is Err && final(state)@ == old(state)@,
            Some((s1, e)) => r matches Ok(x) && final(state)@ == s1 && opt_event(x) == e,
        });
        r
    }
}

} // verus!
