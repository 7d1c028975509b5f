use vstd::prelude::*;
use crate::events::EventV;
use crate::json::JsonV;
use crate::openai::{
    after_choice, after_delta, after_payload, after_reasoning, after_terminator, after_usage,
    close_reasoning, first_choice, push_event, usage_event,
};
use crate::json::{field, i64_of, str_of};
use crate::stream::{
    ArgsV, FragmentV, StateV, accum_index, apply_fragment, apply_fragments, emit_all, emit_step,
    emit_upto, eligible, lemma_accum_index_range, lemma_accum_index_same_keys, merged, upsert,
    AccumV, fresh_accum, key_for, MAX_TOOL_CALL_SLOT, claims_placeholder, claimed_accums, with_slots,
};

use crate::model_registry::{
    AvailV, available_models_spec, builtin_cands, custom_cands, dedup, entry_for, has_pair,
    insert_by_name, is_local_runtime, pass_builtin, pass_custom, provider_available_spec,
    sort_by_name, texts,
};
use crate::config::{AuthType, CustomProviderConfig, ModelConfig, ProviderConfig};
use crate::registry::{custom_index, provider_index};
use crate::text_map::header_value;
use crate::text::decimal;
use crate::stream::keys_in_order;

verus! {

broadcast use vstd::seq::group_seq_axioms;

/// The argument text that a fragment contributes.
pub open spec fn frag_text(f: FragmentV) -> Seq<char> {
    match f.args {
        ArgsV::Text(t) => t,
        _ => Seq::empty(),
    }
}

/// The argument texts of `fs`, joined in arrival order.
pub open spec fn joined_args(fs: Seq<FragmentV>) -> Seq<char>
    decreases fs.len(),
{
    if fs.len() == 0 {
        Seq::empty()
    } else {
        joined_args(fs.drop_last()) + frag_text(fs.last())
    }
}

/// The last non-empty name among `fs`, or empty.
pub open spec fn last_name(fs: Seq<FragmentV>) -> Seq<char>
    decreases fs.len(),
{
    if fs.len() == 0 {
        Seq::empty()
    } else if fs.last().name.len() > 0 {
        fs.last().name
    } else {
        last_name(fs.drop_last())
    }
}

/// The fragments of one logical call at index `ix` whose id `k` first arrives with
/// fragment `j`: the fragments before it carry the index alone; the later ones carry the
/// id, or no id and the index. None carries a non-text argument value.
pub open spec fn one_call(fs: Seq<FragmentV>, k: Seq<char>, ix: u64, j: int) -> bool {
    &&& 0 <= j < fs.len()
    &&& k.len() > 0
    &&& k != decimal(ix as nat)
    &&& ix <= MAX_TOOL_CALL_SLOT
    &&& fs[j].id == k
    &&& fs[j].index == Some(ix)
    &&& forall|i: int| 0 <= i < j ==> (#[trigger] fs[i]).id.len() == 0 && fs[i].index == Some(ix)
    &&& forall|i: int| j < i < fs.len() ==> (#[trigger] fs[i]).id == k || (fs[i].id.len() == 0 && fs[i].index == Some(ix))
    &&& forall|i: int| 0 <= i < fs.len() ==> !((#[trigger] fs[i]).args is Value)
}

/// Nothing of the call is known yet: no accumulator under its id or its index's
/// placeholder, no id for its index, and its slot is free.
pub open spec fn fresh_call(s: StateV, k: Seq<char>, ix: u64) -> bool {
    &&& accum_index(s.accums, k) == -1
    &&& accum_index(s.accums, decimal(ix as nat)) == -1
    &&& !s.index_map.contains_key(ix)
    &&& (ix as int) < s.order.len() ==> s.order[ix as int].len() == 0
    &&& accum_index(s.accums, Seq::<char>::empty()) == -1
}

proof fn lemma_with_slots_keeps(o: Seq<Seq<char>>, n: nat, i: int)
    requires
        0 <= i < o.len(),
    ensures
        with_slots(o, n).len() >= o.len(),
        with_slots(o, n)[i] == o[i],
        with_slots(o, n).len() >= n,
{
}

proof fn lemma_one_call_prefix(s: StateV, fs: Seq<FragmentV>, k: Seq<char>, ix: u64, j: int, n: int)
    requires
        one_call(fs, k, ix, j),
        fresh_call(s, k, ix),
        1 <= n <= fs.len(),
    ensures
        ({
            let t = apply_fragments(s, fs.subrange(0, n));
            let a = t.accums.last();
            &&& t.accums.len() == s.accums.len() + 1
            &&& t.accums.drop_last() == s.accums
            &&& a.args == joined_args(fs.subrange(0, n))
            &&& a.name == last_name(fs.subrange(0, n))
            &&& (ix as int) < t.order.len()
            &&& n <= j ==> a.key == decimal(ix as nat) && !t.index_map.contains_key(ix) && t.order[ix as int] == decimal(ix as nat)
            &&& n > j ==> a.key == k && t.index_map.contains_key(ix) && t.index_map[ix] == k && t.order[ix as int] == k
        }),
    decreases n,
{
    let pre = fs.subrange(0, n);
    assert(pre.drop_last() =~= fs.subrange(0, n - 1));
    let f = fs[n - 1];
    assert(pre.last() == f);
    let t0 = apply_fragments(s, fs.subrange(0, n - 1));
    let d = decimal(ix as nat);
    assert(d.len() > 0);
    if n == 1 {
        assert(fs.subrange(0, 0) =~= Seq::<FragmentV>::empty());
        assert(t0 == s);
    } else {
        lemma_one_call_prefix(s, fs, k, ix, j, n - 1);
    }
    let t1 = apply_fragment(t0, f);
    assert(t1 == apply_fragments(s, pre));
    let base = if n == 1 { fresh_accum(key_for(t0, f)) } else { t0.accums.last() };
    if n - 1 < j {
        // An index-only fragment: it goes under the placeholder.
        assert(f.id.len() == 0 && f.index == Some(ix));
        assert(key_for(t0, f) == d);
        assert(!claims_placeholder(t0, f));
        if n == 1 {
            assert(t1.accums.drop_last() =~= s.accums);
        } else {
            assert(t0.accums == s.accums.push(t0.accums.last()));
            assert(accum_index(t0.accums, d) == s.accums.len());
            assert(t1.accums =~= s.accums.push(merged(t0.accums.last(), f)));
        }
        let o = with_slots(t0.order, (ix + 1) as nat);
        assert(o.len() > ix);
        assert(o[ix as int].len() == 0 || o[ix as int] == d);
        assert(t1.accums.drop_last() == s.accums);
        if o[ix as int] != d {
            assert(o[ix as int] =~= Seq::<char>::empty());
            assert(accum_index(t1.accums, Seq::<char>::empty()) == -1);
            assert(t1.order == o.update(ix as int, d));
        }
        assert(t1.order[ix as int] == d);
    } else if n - 1 == j {
        assert(key_for(t0, f) == k);
        if n == 1 {
            assert(!claims_placeholder(t0, f));
            assert(t1.accums.drop_last() =~= s.accums);
            let o = with_slots(t0.order, (ix + 1) as nat);
            assert(o[ix as int].len() == 0);
            assert(o[ix as int] =~= Seq::<char>::empty());
            assert(t1.accums.drop_last() == s.accums);
            assert(accum_index(t1.accums, Seq::<char>::empty()) == -1);
            assert(t1.order == o.update(ix as int, k));
        } else {
            let a0 = t0.accums.last();
            assert(t0.accums == s.accums.push(a0));
            assert(accum_index(t0.accums, d) == s.accums.len());
            assert(accum_index(t0.accums, k) == -1);
            assert(claims_placeholder(t0, f));
            let c = claimed_accums(t0, f);
            let a1 = AccumV { key: k, id: k, ..a0 };
            assert(c =~= s.accums.push(a1));
            assert(c.drop_last() =~= s.accums);
            assert(accum_index(c, k) == s.accums.len());
            assert(t1.accums =~= s.accums.push(merged(a1, f)));
            lemma_with_slots_keeps(t0.order, (ix + 1) as nat, ix as int);
            assert(t1.accums.drop_last() == s.accums);
            assert(accum_index(t1.accums, d) == -1);
            assert(t1.order == with_slots(t0.order, (ix + 1) as nat).update(ix as int, k));
        }
    } else {
        let a0 = t0.accums.last();
        assert(t0.accums == s.accums.push(a0));
        assert(key_for(t0, f) == k);
        assert(accum_index(t0.accums, k) == s.accums.len());
        assert(!claims_placeholder(t0, f));
        assert(t1.accums =~= s.accums.push(merged(a0, f)));
        assert(t0.order.contains(k)) by {
            assert(t0.order[ix as int] == k);
        }
        match f.index {
            Some(i2) => {
                if i2 <= MAX_TOOL_CALL_SLOT {
                    lemma_with_slots_keeps(t0.order, (i2 + 1) as nat, ix as int);
                }
            },
            None => {},
        }
    }
    assert(joined_args(pre) == joined_args(fs.subrange(0, n - 1)) + frag_text(f));
    match f.args {
        ArgsV::Absent => {
            assert(joined_args(pre) =~= joined_args(fs.subrange(0, n - 1)));
        },
        _ => {},
    }
    if n == 1 {
        assert(joined_args(fs.subrange(0, 0)) =~= Seq::<char>::empty());
        assert(last_name(fs.subrange(0, 0)) =~= Seq::<char>::empty());
    }
}

/// However its fragments are split, and whether its id comes with the first fragment,
/// a later one, or each, a call keeps one accumulator: under its id, in its index's slot,
/// with the last name given and the concatenation of all its argument texts in arrival
/// order; no placeholder accumulator is left behind.
pub proof fn law_fragments_concatenate(s: StateV, fs: Seq<FragmentV>, k: Seq<char>, ix: u64, j: int)
    requires
        one_call(fs, k, ix, j),
        fresh_call(s, k, ix),
    ensures
        ({
            let t = apply_fragments(s, fs);
            let p = accum_index(t.accums, k);
            &&& p >= 0
            &&& t.accums[p].args == joined_args(fs)
            &&& t.accums[p].name == last_name(fs)
            &&& accum_index(t.accums, decimal(ix as nat)) == -1
            &&& (ix as int) < t.order.len()
            &&& t.order[ix as int] == k
        }),
{
    lemma_one_call_prefix(s, fs, k, ix, j, fs.len() as int);
    assert(fs.subrange(0, fs.len() as int) =~= fs);
    let t = apply_fragments(s, fs);
    assert(t.accums == s.accums.push(t.accums.last()));
}

/// What one pass of emission adds: the keys already emitted stay first, and each new key
/// is new and emitted once.
pub open spec fn emits_once(s: StateV, t: StateV) -> bool {
    &&& s.emitted.len() <= t.emitted.len()
    &&& t.emitted.subrange(0, s.emitted.len() as int) == s.emitted
    &&& forall|i: int| s.emitted.len() <= i < t.emitted.len() ==> !s.emitted.contains(#[trigger] t.emitted[i])
    &&& forall|i: int, j: int| s.emitted.len() <= i < j < t.emitted.len() ==> (#[trigger] t.emitted[i]) != (#[trigger] t.emitted[j])
    &&& t.pending.len() - s.pending.len() == t.emitted.len() - s.emitted.len()
}

proof fn lemma_emit_upto_once(s: StateV, force: bool, n: nat)
    requires
        n <= s.order.len(),
    ensures
        emits_once(s, emit_upto(s, force, n)),
    decreases n,
{
    if n == 0 {
        assert(s.emitted.subrange(0, s.emitted.len() as int) =~= s.emitted);
    } else {
        lemma_emit_upto_once(s, force, (n - 1) as nat);
        let t0 = emit_upto(s, force, (n - 1) as nat);
        let key = s.order[n - 1];
        let t1 = emit_step(t0, key, force);
        if eligible(t0, key, force) {
            assert(t1.emitted == t0.emitted.push(key));
            assert(t1.emitted.subrange(0, s.emitted.len() as int) =~= t0.emitted.subrange(0, s.emitted.len() as int));
            assert(!t0.emitted.contains(key));
            assert forall|i: int| s.emitted.len() <= i < t1.emitted.len() implies !s.emitted.contains(#[trigger] t1.emitted[i]) by {
                if i == t1.emitted.len() - 1 {
                    if s.emitted.contains(key) {
                        let j = choose|j: int| 0 <= j < s.emitted.len() && s.emitted[j] == key;
                        assert(t0.emitted[j] == key);
                    }
                }
            }
            assert forall|i: int, j: int| s.emitted.len() <= i < j < t1.emitted.len() implies (#[trigger] t1.emitted[i]) != (#[trigger] t1.emitted[j]) by {
                if j == t1.emitted.len() - 1 {
                    assert(t0.emitted[i] == t1.emitted[i]);
                }
            }
        }
    }
}

/// A pass of emission hands out each call at most once: a key already emitted is never
/// emitted again, no key twice in one pass, and one `ToolCall` event is queued per key
/// newly emitted.
pub proof fn law_emission_at_most_once(s: StateV, force: bool)
    ensures
        emits_once(s, emit_all(s, force)),
{
    lemma_emit_upto_once(s, force, s.order.len());
}

/// A fragment with an index (within the slot range) and an id puts its call in the slot
/// of that index when the slot is free, so emission, which walks the slots in order,
/// follows the vendor's index order.
pub proof fn law_index_sets_slot(s: StateV, f: FragmentV, ix: u64)
    requires
        f.index == Some(ix),
        ix <= MAX_TOOL_CALL_SLOT,
        f.id.len() > 0,
        (ix as int) < s.order.len() ==> s.order[ix as int].len() == 0,
        accum_index(s.accums, Seq::<char>::empty()) == -1,
    ensures
        apply_fragment(s, f).order.len() > ix,
        apply_fragment(s, f).order[ix as int] == f.id,
{
    assert(key_for(s, f) == f.id);
    let t = apply_fragment(s, f);
    let o = with_slots(s.order, (ix + 1) as nat);
    assert(o[ix as int] =~= Seq::<char>::empty());
    assert(!claims_placeholder(s, f));
    assert(claimed_accums(s, f) == s.accums);
    crate::stream::lemma_accum_index_range(s.accums, f.id);
    let p = accum_index(s.accums, f.id);
    if p >= 0 {
        let a2 = s.accums.update(p, merged(s.accums[p], f));
        assert forall|i: int| 0 <= i < s.accums.len() implies (#[trigger] s.accums[i]).key == a2[i].key by {}
        lemma_accum_index_same_keys(s.accums, a2, Seq::<char>::empty());
    } else {
        let a2 = s.accums.push(merged(fresh_accum(f.id), f));
        assert(a2.drop_last() =~= s.accums);
        assert(accum_index(a2, Seq::<char>::empty()) == -1);
    }
}

/// An empty reasoning fragment leaves the channel as it was; a non-empty one leaves it
/// open.
pub proof fn law_reasoning_opens_only_on_text(s: StateV, d: JsonV, fresh: Seq<char>)
    ensures
        str_of(field(d, "reasoning_content"@)) == Some(Seq::<char>::empty()) ==> after_reasoning(s, d, fresh) == s,
        (str_of(field(d, "reasoning_content"@)) matches Some(t) && t.len() > 0) ==> after_reasoning(s, d, fresh).reasoning_started,
        !s.reasoning_started && (str_of(field(d, "reasoning_content"@)) matches Some(t) && t.len() > 0)
            ==> after_reasoning(s, d, fresh).pending == s.pending + seq![
                EventV::ReasoningStart { id: fresh, meta: None },
                EventV::ReasoningDelta { id: fresh, text: str_of(field(d, "reasoning_content"@))->Some_0, meta: None },
            ],
{
    if !s.reasoning_started && (str_of(field(d, "reasoning_content"@)) matches Some(t) && t.len() > 0) {
        assert(after_reasoning(s, d, fresh).pending =~= s.pending + seq![
            EventV::ReasoningStart { id: fresh, meta: None },
            EventV::ReasoningDelta { id: fresh, text: str_of(field(d, "reasoning_content"@))->Some_0, meta: None },
        ]);
    }
}

/// Closing the channel queues exactly one `ReasoningEnd` when it is open (under its id)
/// and none when it is closed; a second close queues nothing.
pub proof fn law_reasoning_end_once(s: StateV)
    ensures
        s.reasoning_started && s.reasoning_id is Some ==> close_reasoning(s).pending == s.pending.push(
            EventV::ReasoningEnd { id: s.reasoning_id->Some_0 },
        ),
        !s.reasoning_started ==> close_reasoning(s) == s,
        !close_reasoning(s).reasoning_started,
        close_reasoning(close_reasoning(s)) == close_reasoning(s),
{
}

/// A `Usage` event is produced exactly when a token count or the total is positive; an
/// all-zero usage block produces none and leaves the state alone.
pub proof fn law_usage_only_when_positive(p: JsonV)
    ensures
        usage_event(p) is Some <==> (field(p, "usage"@) matches Some(u) && (
            (i64_of(field(u, "prompt_tokens"@)) matches Some(x) && x > 0)
            || (i64_of(field(u, "completion_tokens"@)) matches Some(x) && x > 0)
            || (i64_of(field(u, "total_tokens"@)) matches Some(x) && x > 0))),
{
}


/// `b` is `a` with events appended, each of which meets `ok`.
pub open spec fn appended(a: Seq<EventV>, b: Seq<EventV>, ok: spec_fn(EventV) -> bool) -> bool {
    &&& a.len() <= b.len()
    &&& b.subrange(0, a.len() as int) == a
    &&& forall|i: int| a.len() <= i < b.len() ==> ok(#[trigger] b[i])
}

pub open spec fn any_event() -> spec_fn(EventV) -> bool {
    |e: EventV| true
}

pub open spec fn not_text_start() -> spec_fn(EventV) -> bool {
    |e: EventV| !(e is TextStart)
}

/// An event that carries content: text, a tool call or the opening of reasoning.
pub open spec fn is_content(e: EventV) -> bool {
    e is TextDelta || e is ToolCall || e is ReasoningStart
}

pub open spec fn no_content() -> spec_fn(EventV) -> bool {
    |e: EventV| !is_content(e) && !(e is TextStart)
}

pub open spec fn only_tool_calls() -> spec_fn(EventV) -> bool {
    |e: EventV| e is ToolCall
}

proof fn lemma_appended_trans(a: Seq<EventV>, b: Seq<EventV>, c: Seq<EventV>, ok: spec_fn(EventV) -> bool)
    requires
        appended(a, b, ok),
        appended(b, c, ok),
    ensures
        appended(a, c, ok),
{
    assert(c.subrange(0, a.len() as int) =~= c.subrange(0, b.len() as int).subrange(0, a.len() as int));
    assert forall|i: int| a.len() <= i < c.len() implies ok(#[trigger] c[i]) by {
        if i < b.len() {
            assert(c[i] == c.subrange(0, b.len() as int)[i]);
        }
    }
}

proof fn lemma_appended_weaken(a: Seq<EventV>, b: Seq<EventV>, ok: spec_fn(EventV) -> bool, ok2: spec_fn(EventV) -> bool)
    requires
        appended(a, b, ok),
        forall|e: EventV| #[trigger] ok(e) ==> ok2(e),
    ensures
        appended(a, b, ok2),
{
}

proof fn lemma_appended_refl(a: Seq<EventV>, ok: spec_fn(EventV) -> bool)
    ensures
        appended(a, a, ok),
{
    assert(a.subrange(0, a.len() as int) =~= a);
}

proof fn lemma_appended_push(a: Seq<EventV>, e: EventV, ok: spec_fn(EventV) -> bool)
    requires
        ok(e),
    ensures
        appended(a, a.push(e), ok),
{
    assert(a.push(e).subrange(0, a.len() as int) =~= a);
}

proof fn lemma_fragments_frame(s: StateV, fs: Seq<FragmentV>)
    ensures
        apply_fragments(s, fs).pending == s.pending,
        apply_fragments(s, fs).text_started == s.text_started,
        apply_fragments(s, fs).reasoning_started == s.reasoning_started,
        apply_fragments(s, fs).reasoning_id == s.reasoning_id,
        apply_fragments(s, fs).finish_reason == s.finish_reason,
    decreases fs.len(),
{
    if fs.len() > 0 {
        lemma_fragments_frame(s, fs.drop_last());
    }
}

proof fn lemma_emit_upto_tool_calls(s: StateV, force: bool, n: nat)
    requires
        n <= s.order.len(),
    ensures
        appended(s.pending, emit_upto(s, force, n).pending, only_tool_calls()),
        s.accums.len() == 0 ==> emit_upto(s, force, n).pending == s.pending,
        emit_upto(s, force, n).text_started == s.text_started,
        emit_upto(s, force, n).reasoning_started == s.reasoning_started,
        emit_upto(s, force, n).reasoning_id == s.reasoning_id,
        emit_upto(s, force, n).finish_reason == s.finish_reason,
        emit_upto(s, force, n).accums == s.accums,
    decreases n,
{
    if n == 0 {
        lemma_appended_refl(s.pending, only_tool_calls());
    } else {
        lemma_emit_upto_tool_calls(s, force, (n - 1) as nat);
        let t0 = emit_upto(s, force, (n - 1) as nat);
        let key = s.order[n - 1];
        if eligible(t0, key, force) {
            let a = t0.accums[accum_index(t0.accums, key)];
            lemma_appended_push(t0.pending, EventV::ToolCall { id: a.id, name: a.name, input: crate::stream::tool_input(a.args) }, only_tool_calls());
            lemma_appended_trans(s.pending, t0.pending, emit_upto(s, force, n).pending, only_tool_calls());
            if s.accums.len() == 0 {
                lemma_accum_index_range(t0.accums, key);
            }
        }
    }
}

/// `TextStart` comes once: not again once the stream has started, and in a fresh stream
/// before any text, tool call or reasoning; the stream has started after a chunk exactly
/// when it had before or the chunk carries a delta.
pub proof fn law_text_start_first(s: StateV, p: JsonV, fresh: Seq<char>)
    ensures
        ({
            let t = after_payload(s, p, fresh);
            &&& s.pending.len() <= t.pending.len()
            &&& t.pending.subrange(0, s.pending.len() as int) == s.pending
            &&& s.text_started ==> forall|i: int| s.pending.len() <= i < t.pending.len() ==> !(#[trigger] t.pending[i] is TextStart)
            &&& (!s.text_started && s.accums.len() == 0) ==> forall|i: int|
                s.pending.len() <= i < t.pending.len() && is_content(#[trigger] t.pending[i]) ==> exists|j: int|
                    s.pending.len() <= j < i && (#[trigger] t.pending[j]) is TextStart
            &&& t.text_started == (s.text_started || (first_choice(p) matches Some(ch) && field(ch, "delta"@) is Some))
            &&& !s.text_started ==> forall|i: int, j: int| s.pending.len() <= i < j < t.pending.len()
                ==> !((#[trigger] t.pending[i]) is TextStart && (#[trigger] t.pending[j]) is TextStart)
            &&& !t.text_started ==> t.accums == s.accums
            &&& (!t.text_started && s.accums.len() == 0) ==> forall|i: int| s.pending.len() <= i < t.pending.len()
                ==> !is_content(#[trigger] t.pending[i]) && !(t.pending[i] is TextStart)
            &&& (!s.text_started && t.text_started) ==> exists|k: int| s.pending.len() <= k < t.pending.len()
                && (#[trigger] t.pending[k]) is TextStart
        }),
{
    let t = after_payload(s, p, fresh);
    let s1 = after_usage(s, p);
    let ok_u = |e: EventV| e is Usage;
    if usage_event(p) is Some {
        lemma_appended_push(s.pending, usage_event(p)->Some_0, ok_u);
    } else {
        lemma_appended_refl(s.pending, ok_u);
    }
    let s2 = after_choice(s1, p, fresh);
    // After the choice: events from the delta, if any.
    let has_delta = first_choice(p) matches Some(ch) && field(ch, "delta"@) is Some;
    let s1f = match first_choice(p) {
        Some(ch) => match str_of(field(ch, "finish_reason"@)) {
            Some(fr) => StateV { finish_reason: Some(fr), ..s1 },
            None => s1,
        },
        None => s1,
    };
    let mut mid = s1.pending;
    if has_delta {
        let ch = first_choice(p)->Some_0;
        let d = field(ch, "delta"@)->Some_0;
        assert(s2 == after_delta(s1f, d, fresh));
        let x1 = if !s1f.text_started {
            StateV { text_started: true, pending: s1f.pending.push(EventV::TextStart), ..s1f }
        } else {
            s1f
        };
        let x2 = after_reasoning(x1, d, fresh);
        let x3 = match str_of(field(d, "content"@)) {
            Some(c) => push_event(x2, EventV::TextDelta { text: c }),
            None => x2,
        };
        lemma_fragments_frame(x3, crate::openai::delta_fragments(d));
        // Reasoning and text events follow; none of them is a TextStart.
        let nts = not_text_start();
        lemma_appended_refl(x1.pending, nts);
        let rc_opt = str_of(field(d, "reasoning_content"@));
        if rc_opt is Some && rc_opt->Some_0.len() > 0 {
            let rc = rc_opt->Some_0;
            let y1 = if !x1.reasoning_started {
                StateV {
                    reasoning_started: true,
                    reasoning_id: Some(fresh),
                    pending: x1.pending.push(EventV::ReasoningStart { id: fresh, meta: None }),
                    ..x1
                }
            } else {
                x1
            };
            if !x1.reasoning_started {
                lemma_appended_push(x1.pending, EventV::ReasoningStart { id: fresh, meta: None }, nts);
            } else {
                lemma_appended_refl(x1.pending, nts);
            }
            if y1.reasoning_id is Some {
                lemma_appended_push(y1.pending, EventV::ReasoningDelta { id: y1.reasoning_id->Some_0, text: rc, meta: None }, nts);
                lemma_appended_trans(x1.pending, y1.pending, x2.pending, nts);
            }
        }
        if str_of(field(d, "content"@)) is Some {
            lemma_appended_push(x2.pending, EventV::TextDelta { text: str_of(field(d, "content"@))->Some_0 }, nts);
            lemma_appended_trans(x1.pending, x2.pending, x3.pending, nts);
        }
        assert(appended(x1.pending, s2.pending, nts));
        mid = x1.pending;
        if s.text_started {
            assert(x1.pending == s1.pending);
            lemma_appended_weaken(s.pending, s1.pending, ok_u, nts);
            lemma_appended_trans(s.pending, s1.pending, s2.pending, nts);
        }
    } else {
        assert(s2.pending == s1.pending);
        assert(s2.accums == s1.accums);
    }
    let s3 = if s2.finish_reason == Some("tool_calls"@) { emit_all(s2, false) } else { s2 };
    lemma_emit_upto_tool_calls(s2, false, s2.order.len());
    if !(s2.finish_reason == Some("tool_calls"@)) {
        lemma_appended_refl(s2.pending, only_tool_calls());
    }
    let t_ok = |e: EventV| e is ReasoningEnd;
    if s3.finish_reason is Some && s3.reasoning_started && s3.reasoning_id is Some {
        lemma_appended_push(s3.pending, EventV::ReasoningEnd { id: s3.reasoning_id->Some_0 }, t_ok);
    } else {
        lemma_appended_refl(s3.pending, t_ok);
    }
    assert(appended(s3.pending, t.pending, t_ok));
    // The prefix is kept.
    let anyf = any_event();
    lemma_appended_weaken(s.pending, s1.pending, ok_u, anyf);
    lemma_appended_weaken(s3.pending, t.pending, t_ok, anyf);
    lemma_appended_weaken(s2.pending, s3.pending, only_tool_calls(), anyf);
    if has_delta {
        lemma_appended_weaken(mid, s2.pending, not_text_start(), anyf);
        if !s1f.text_started {
            lemma_appended_push(s1.pending, EventV::TextStart, anyf);
            lemma_appended_trans(s1.pending, mid, s2.pending, anyf);
        } else {
            assert(mid == s1.pending);
        }
    } else {
        lemma_appended_refl(s1.pending, anyf);
    }
    lemma_appended_trans(s.pending, s1.pending, s2.pending, anyf);
    lemma_appended_trans(s.pending, s2.pending, s3.pending, anyf);
    lemma_appended_trans(s.pending, s3.pending, t.pending, anyf);
    if s.text_started {
        let nts = not_text_start();
        if !has_delta {
            lemma_appended_weaken(s.pending, s1.pending, ok_u, nts);
        }
        lemma_appended_weaken(s2.pending, s3.pending, only_tool_calls(), nts);
        lemma_appended_weaken(s3.pending, t.pending, t_ok, nts);
        lemma_appended_trans(s.pending, s2.pending, s3.pending, nts);
        lemma_appended_trans(s.pending, s3.pending, t.pending, nts);
    }
    if !s.text_started && s.accums.len() == 0 {
        if has_delta {
            let k = s1.pending.len() as int;
            assert(t.pending[k] == EventV::TextStart) by {
                assert(t.pending.subrange(0, s2.pending.len() as int) == s2.pending) by {
                    lemma_appended_trans(s2.pending, s3.pending, t.pending, anyf);
                }
                assert(s2.pending.subrange(0, mid.len() as int) == mid);
                assert(mid[k] == EventV::TextStart);
            }
            assert forall|i: int| s.pending.len() <= i < t.pending.len() && is_content(#[trigger] t.pending[i]) implies exists|j: int|
                s.pending.len() <= j < i && (#[trigger] t.pending[j]) is TextStart by {
                if i < k {
                    assert(t.pending.subrange(0, s1.pending.len() as int) == s1.pending) by {
                        lemma_appended_trans(s1.pending, s2.pending, t.pending, anyf);
                    }
                    assert(t.pending[i] == s1.pending[i]);
                }
                assert(t.pending[k] is TextStart);
            }
        } else {
            let nc = no_content();
            lemma_appended_weaken(s.pending, s1.pending, ok_u, nc);
            assert(s2.accums.len() == 0);
            assert(s3.pending == s2.pending);
            lemma_appended_weaken(s3.pending, t.pending, t_ok, nc);
            lemma_appended_trans(s.pending, s3.pending, t.pending, nc);
        }
    }
    if !has_delta {
        assert(s2.accums == s.accums);
        if !s.text_started && s.accums.len() == 0 {
            let nc = no_content();
            lemma_appended_weaken(s.pending, s1.pending, ok_u, nc);
            assert(s3.pending == s2.pending);
            lemma_appended_weaken(s3.pending, t.pending, t_ok, nc);
            lemma_appended_trans(s.pending, s3.pending, t.pending, nc);
        }
    }
    if !s.text_started {
        let nts = not_text_start();
        lemma_appended_weaken(s2.pending, s3.pending, only_tool_calls(), nts);
        lemma_appended_weaken(s3.pending, t.pending, t_ok, nts);
        lemma_appended_weaken(s.pending, s1.pending, ok_u, nts);
        if has_delta {
            lemma_appended_trans(mid, s2.pending, s3.pending, nts);
            lemma_appended_trans(mid, s3.pending, t.pending, nts);
            let k = s1.pending.len() as int;
            assert(t.pending.subrange(0, s1.pending.len() as int) == s1.pending) by {
                lemma_appended_trans(s2.pending, s3.pending, t.pending, anyf);
                lemma_appended_trans(s1.pending, s2.pending, t.pending, anyf);
            }
            assert(t.pending.subrange(0, mid.len() as int) == mid);
            assert(t.pending[k] == mid[k]);
            assert(t.pending[k] is TextStart);
            assert forall|i: int, j: int| s.pending.len() <= i < j < t.pending.len()
                implies !((#[trigger] t.pending[i]) is TextStart && (#[trigger] t.pending[j]) is TextStart) by {
                if i < k {
                    assert(t.pending[i] == s1.pending[i]);
                } else {
                    assert(j >= mid.len());
                }
            }
        } else {
            lemma_appended_trans(s.pending, s1.pending, s3.pending, nts);
            lemma_appended_trans(s.pending, s3.pending, t.pending, nts);
        }
    }
}


/// No two entries share a (model key, provider id) pair.
pub open spec fn pairs_unique(s: Seq<AvailV>) -> bool {
    forall|i: int, j: int|
        0 <= i < j < s.len() ==> !((#[trigger] s[i]).key == (#[trigger] s[j]).key && s[i].provider == s[j].provider)
}

/// Every entry of `a` is an entry of `b`.
pub open spec fn within(a: Seq<AvailV>, b: Seq<AvailV>) -> bool {
    forall|i: int| 0 <= i < a.len() ==> b.contains(#[trigger] a[i])
}

proof fn lemma_dedup(s: Seq<AvailV>)
    ensures
        pairs_unique(dedup(s)),
        within(dedup(s), s),
        forall|j: int| 0 <= j < s.len() ==> has_pair(dedup(s), (#[trigger] s[j]).key, s[j].provider),
    decreases s.len(),
{
    if s.len() > 0 {
        let d0 = dedup(s.drop_last());
        lemma_dedup(s.drop_last());
        let x = s.last();
        assert forall|i: int| 0 <= i < dedup(s).len() implies s.contains(#[trigger] dedup(s)[i]) by {
            if i < d0.len() {
                assert(dedup(s)[i] == d0[i]);
                let j = choose|j: int| 0 <= j < s.drop_last().len() && s.drop_last()[j] == d0[i];
                assert(s[j] == d0[i]);
            } else {
                assert(s[s.len() - 1] == x);
            }
        }
        assert forall|j: int| 0 <= j < s.len() implies has_pair(dedup(s), (#[trigger] s[j]).key, s[j].provider) by {
            if j < s.len() - 1 {
                assert(s[j] == s.drop_last()[j]);
                let i = choose|i: int| 0 <= i < d0.len() && (#[trigger] d0[i]).key == s[j].key && d0[i].provider == s[j].provider;
                assert(dedup(s)[i] == d0[i]);
            } else if !has_pair(d0, x.key, x.provider) {
                assert(dedup(s)[d0.len() as int] == x);
            } else {
                let i = choose|i: int| 0 <= i < d0.len() && (#[trigger] d0[i]).key == x.key && d0[i].provider == x.provider;
                assert(dedup(s)[i] == d0[i]);
            }
        }
    }
}

proof fn lemma_insert(s: Seq<AvailV>, x: AvailV)
    ensures
        insert_by_name(s, x).len() == s.len() + 1,
        forall|i: int| 0 <= i < insert_by_name(s, x).len() ==> (#[trigger] insert_by_name(s, x)[i] == x || s.contains(insert_by_name(s, x)[i])),
        insert_by_name(s, x).contains(x),
        forall|j: int| 0 <= j < s.len() ==> insert_by_name(s, x).contains(#[trigger] s[j]),
    decreases s.len(),
{
    let r = insert_by_name(s, x);
    if s.len() == 0 {
        assert(r[0] == x);
    } else if crate::model_registry::name_le(s.last().name, x.name) {
        assert(r[s.len() as int] == x);
        assert forall|j: int| 0 <= j < s.len() implies r.contains(#[trigger] s[j]) by {
            assert(r[j] == s[j]);
        }
        assert forall|i: int| 0 <= i < r.len() implies (#[trigger] r[i] == x || s.contains(r[i])) by {
            if i < s.len() {
                assert(r[i] == s[i]);
            }
        }
    } else {
        let r0 = insert_by_name(s.drop_last(), x);
        lemma_insert(s.drop_last(), x);
        let i0 = choose|i: int| 0 <= i < r0.len() && r0[i] == x;
        assert(r[i0] == x);
        assert forall|j: int| 0 <= j < s.len() implies r.contains(#[trigger] s[j]) by {
            if j < s.len() - 1 {
                assert(s[j] == s.drop_last()[j]);
                let i = choose|i: int| 0 <= i < r0.len() && r0[i] == s.drop_last()[j];
                assert(r[i] == r0[i]);
            } else {
                assert(r[r0.len() as int] == s.last());
            }
        }
        assert forall|i: int| 0 <= i < r.len() implies (#[trigger] r[i] == x || s.contains(r[i])) by {
            if i < r0.len() {
                assert(r[i] == r0[i]);
                if r0[i] != x {
                    let j = choose|j: int| 0 <= j < s.drop_last().len() && s.drop_last()[j] == r0[i];
                    assert(s[j] == r0[i]);
                }
            } else {
                assert(r[i] == s[s.len() - 1]);
            }
        }
    }
}

proof fn lemma_insert_unique(s: Seq<AvailV>, x: AvailV)
    requires
        pairs_unique(s),
        !has_pair(s, x.key, x.provider),
    ensures
        pairs_unique(insert_by_name(s, x)),
    decreases s.len(),
{
    let r = insert_by_name(s, x);
    if s.len() == 0 {
    } else if crate::model_registry::name_le(s.last().name, x.name) {
        assert forall|i: int, j: int| 0 <= i < j < r.len() implies !((#[trigger] r[i]).key == (#[trigger] r[j]).key && r[i].provider == r[j].provider) by {
            if j == s.len() {
                assert(r[i] == s[i]);
            } else {
                assert(r[i] == s[i] && r[j] == s[j]);
            }
        }
    } else {
        let s0 = s.drop_last();
        let y = s.last();
        let r0 = insert_by_name(s0, x);
        assert(!has_pair(s0, x.key, x.provider)) by {
            if has_pair(s0, x.key, x.provider) {
                let i = choose|i: int| 0 <= i < s0.len() && (#[trigger] s0[i]).key == x.key && s0[i].provider == x.provider;
                assert(s[i] == s0[i]);
            }
        }
        lemma_insert_unique(s0, x);
        lemma_insert(s0, x);
        assert forall|i: int, j: int| 0 <= i < j < r.len() implies !((#[trigger] r[i]).key == (#[trigger] r[j]).key && r[i].provider == r[j].provider) by {
            if j == r0.len() {
                assert(r[j] == y);
                assert(r[i] == r0[i]);
                if r0[i] == x {
                    assert(s[s.len() - 1] == y);
                } else {
                    let k = choose|k: int| 0 <= k < s0.len() && s0[k] == r0[i];
                    assert(s[k] == s0[k]);
                    assert(s[s.len() - 1] == y);
                }
            } else {
                assert(r[i] == r0[i] && r[j] == r0[j]);
            }
        }
    }
}

proof fn lemma_sort(s: Seq<AvailV>)
    ensures
        sort_by_name(s).len() == s.len(),
        within(sort_by_name(s), s),
        forall|j: int| 0 <= j < s.len() ==> sort_by_name(s).contains(#[trigger] s[j]),
        pairs_unique(s) ==> pairs_unique(sort_by_name(s)),
    decreases s.len(),
{
    if s.len() > 0 {
        let s0 = s.drop_last();
        let x = s.last();
        let q = sort_by_name(s0);
        lemma_sort(s0);
        lemma_insert(q, x);
        let r = sort_by_name(s);
        assert forall|i: int| 0 <= i < r.len() implies s.contains(#[trigger] r[i]) by {
            if r[i] == x {
                assert(s[s.len() - 1] == x);
            } else {
                let k = choose|k: int| 0 <= k < q.len() && q[k] == r[i];
                let m = choose|m: int| 0 <= m < s0.len() && s0[m] == q[k];
                assert(s[m] == s0[m]);
            }
        }
        assert forall|j: int| 0 <= j < s.len() implies r.contains(#[trigger] s[j]) by {
            if j < s.len() - 1 {
                assert(s[j] == s0[j]);
                let k = choose|k: int| 0 <= k < q.len() && q[k] == s0[j];
                assert(q.contains(q[k]));
            }
        }
        if pairs_unique(s) {
            assert(pairs_unique(s0)) by {
                assert forall|i: int, j: int| 0 <= i < j < s0.len() implies !((#[trigger] s0[i]).key == (#[trigger] s0[j]).key && s0[i].provider == s0[j].provider) by {
                    assert(s[i] == s0[i] && s[j] == s0[j]);
                }
            }
            assert(!has_pair(q, x.key, x.provider)) by {
                if has_pair(q, x.key, x.provider) {
                    let i = choose|i: int| 0 <= i < q.len() && (#[trigger] q[i]).key == x.key && q[i].provider == x.provider;
                    let m = choose|m: int| 0 <= m < s0.len() && s0[m] == q[i];
                    assert(s[m] == s0[m]);
                    assert(s[s.len() - 1] == x);
                }
            }
            lemma_insert_unique(q, x);
        }
    }
}

/// The available models never hold two entries for the same (model key, provider id)
/// pair.
pub proof fn law_available_models_unique(
    models: Seq<(String, ModelConfig)>,
    keys: Seq<(Seq<char>, Seq<char>)>,
    reg: Seq<ProviderConfig>,
    custom: Seq<(String, CustomProviderConfig)>,
)
    ensures
        pairs_unique(available_models_spec(models, keys, reg, custom)),
{
    let c = pass_builtin(models, keys, reg, custom) + pass_custom(models, custom);
    lemma_dedup(c);
    lemma_sort(dedup(c));
}


/// Whether an entry's provider may serve it: an available built-in provider, or an
/// enabled custom one.
pub open spec fn servable(e: AvailV, keys: Seq<(Seq<char>, Seq<char>)>, reg: Seq<ProviderConfig>, custom: Seq<(String, CustomProviderConfig)>) -> bool {
    (provider_available_spec(e.provider, keys, reg, custom) && provider_index(reg, e.provider) >= 0)
        || (custom_index(custom, e.provider) >= 0 && custom[custom_index(custom, e.provider)].1.enabled)
}

proof fn lemma_builtin_cands(mk: Seq<char>, mc: ModelConfig, pids: Seq<Seq<char>>, keys: Seq<(Seq<char>, Seq<char>)>, reg: Seq<ProviderConfig>, custom: Seq<(String, CustomProviderConfig)>)
    ensures
        forall|i: int| 0 <= i < builtin_cands(mk, mc, pids, keys, reg, custom).len() ==> servable(#[trigger] builtin_cands(mk, mc, pids, keys, reg, custom)[i], keys, reg, custom),
        forall|j: int| 0 <= j < pids.len() && provider_available_spec(#[trigger] pids[j], keys, reg, custom) && provider_index(reg, pids[j]) >= 0
            ==> builtin_cands(mk, mc, pids, keys, reg, custom).contains(entry_for(mk, mc, pids[j], reg[provider_index(reg, pids[j])].name@)),
    decreases pids.len(),
{
    if pids.len() > 0 {
        lemma_builtin_cands(mk, mc, pids.drop_last(), keys, reg, custom);
        let r0 = builtin_cands(mk, mc, pids.drop_last(), keys, reg, custom);
        let r = builtin_cands(mk, mc, pids, keys, reg, custom);
        assert forall|i: int| 0 <= i < r.len() implies servable(#[trigger] r[i], keys, reg, custom) by {
            if i < r0.len() {
                assert(r[i] == r0[i]);
            }
        }
        assert forall|j: int| 0 <= j < pids.len() && provider_available_spec(#[trigger] pids[j], keys, reg, custom) && provider_index(reg, pids[j]) >= 0
            implies r.contains(entry_for(mk, mc, pids[j], reg[provider_index(reg, pids[j])].name@)) by {
            if j < pids.len() - 1 {
                assert(pids[j] == pids.drop_last()[j]);
                let e = entry_for(mk, mc, pids[j], reg[provider_index(reg, pids[j])].name@);
                let k = choose|k: int| 0 <= k < r0.len() && r0[k] == e;
                assert(r[k] == r0[k]);
            } else {
                assert(r[r0.len() as int] == entry_for(mk, mc, pids[j], reg[provider_index(reg, pids[j])].name@));
            }
        }
    }
}

proof fn lemma_custom_cands(mk: Seq<char>, mc: ModelConfig, pids: Seq<Seq<char>>, keys: Seq<(Seq<char>, Seq<char>)>, reg: Seq<ProviderConfig>, custom: Seq<(String, CustomProviderConfig)>)
    ensures
        forall|i: int| 0 <= i < custom_cands(mk, mc, pids, custom).len() ==> servable(#[trigger] custom_cands(mk, mc, pids, custom)[i], keys, reg, custom),
    decreases pids.len(),
{
    if pids.len() > 0 {
        lemma_custom_cands(mk, mc, pids.drop_last(), keys, reg, custom);
        let r0 = custom_cands(mk, mc, pids.drop_last(), custom);
        let r = custom_cands(mk, mc, pids, custom);
        assert forall|i: int| 0 <= i < r.len() implies servable(#[trigger] r[i], keys, reg, custom) by {
            if i < r0.len() {
                assert(r[i] == r0[i]);
            }
        }
    }
}

proof fn lemma_passes(models: Seq<(String, ModelConfig)>, keys: Seq<(Seq<char>, Seq<char>)>, reg: Seq<ProviderConfig>, custom: Seq<(String, CustomProviderConfig)>)
    ensures
        forall|i: int| 0 <= i < pass_builtin(models, keys, reg, custom).len() ==> servable(#[trigger] pass_builtin(models, keys, reg, custom)[i], keys, reg, custom),
        forall|i: int| 0 <= i < pass_custom(models, custom).len() ==> servable(#[trigger] pass_custom(models, custom)[i], keys, reg, custom),
        forall|m: int, j: int| 0 <= m < models.len() && 0 <= j < models[m].1.providers@.len()
            && provider_available_spec(#[trigger] models[m].1.providers@[j]@, keys, reg, custom)
            && provider_index(reg, models[m].1.providers@[j]@) >= 0
            ==> #[trigger] pass_builtin(models, keys, reg, custom).contains(entry_for(
                models[m].0@, models[m].1, models[m].1.providers@[j]@, reg[provider_index(reg, models[m].1.providers@[j]@)].name@)),
    decreases models.len(),
{
    if models.len() > 0 {
        let l = models.last();
        let m0 = models.drop_last();
        lemma_passes(m0, keys, reg, custom);
        lemma_builtin_cands(l.0@, l.1, texts(l.1.providers@), keys, reg, custom);
        lemma_custom_cands(l.0@, l.1, texts(l.1.providers@), keys, reg, custom);
        let a0 = pass_builtin(m0, keys, reg, custom);
        let b = builtin_cands(l.0@, l.1, texts(l.1.providers@), keys, reg, custom);
        let a = pass_builtin(models, keys, reg, custom);
        assert(a == a0 + b);
        assert forall|i: int| 0 <= i < a.len() implies servable(#[trigger] a[i], keys, reg, custom) by {
            if i < a0.len() { assert(a[i] == a0[i]); } else { assert(a[i] == b[i - a0.len()]); }
        }
        let c0 = pass_custom(m0, custom);
        let cc = custom_cands(l.0@, l.1, texts(l.1.providers@), custom);
        let c = pass_custom(models, custom);
        assert(c == c0 + cc);
        assert forall|i: int| 0 <= i < c.len() implies servable(#[trigger] c[i], keys, reg, custom) by {
            if i < c0.len() { assert(c[i] == c0[i]); } else { assert(c[i] == cc[i - c0.len()]); }
        }
        assert forall|m: int, j: int| 0 <= m < models.len() && 0 <= j < models[m].1.providers@.len()
            && provider_available_spec(#[trigger] models[m].1.providers@[j]@, keys, reg, custom)
            && provider_index(reg, models[m].1.providers@[j]@) >= 0
            implies #[trigger] a.contains(entry_for(
                models[m].0@, models[m].1, models[m].1.providers@[j]@, reg[provider_index(reg, models[m].1.providers@[j]@)].name@)) by {
            let pid = models[m].1.providers@[j]@;
            let e = entry_for(models[m].0@, models[m].1, pid, reg[provider_index(reg, pid)].name@);
            if m < models.len() - 1 {
                assert(models[m] == m0[m]);
                assert(a0.contains(e));
                let k = choose|k: int| 0 <= k < a0.len() && a0[k] == e;
                assert(a[k] == a0[k]);
            } else {
                assert(texts(l.1.providers@)[j] == pid);
                assert(b.contains(e));
                let k = choose|k: int| 0 <= k < b.len() && b[k] == e;
                assert(a[a0.len() + k] == b[k]);
            }
        }
    }
}

/// A local runtime that needs no authentication is available exactly when its credential
/// value is `enabled`.
pub proof fn law_local_runtime_needs_enable(
    id: Seq<char>,
    keys: Seq<(Seq<char>, Seq<char>)>,
    reg: Seq<ProviderConfig>,
    custom: Seq<(String, CustomProviderConfig)>,
)
    requires
        is_local_runtime(id),
        provider_index(reg, id) >= 0,
        reg[provider_index(reg, id)].auth_type == AuthType::NoAuth,
    ensures
        provider_available_spec(id, keys, reg, custom) <==> header_value(keys, id) == Some("enabled"@),
{
}

/// A provider that cannot be used gives no available model; one that can gives every
/// model that lists it.
pub proof fn law_models_follow_availability(
    id: Seq<char>,
    models: Seq<(String, ModelConfig)>,
    keys: Seq<(Seq<char>, Seq<char>)>,
    reg: Seq<ProviderConfig>,
    custom: Seq<(String, CustomProviderConfig)>,
)
    ensures
        !provider_available_spec(id, keys, reg, custom) && !(custom_index(custom, id) >= 0 && custom[custom_index(custom, id)].1.enabled)
            ==> forall|i: int| 0 <= i < available_models_spec(models, keys, reg, custom).len()
                ==> (#[trigger] available_models_spec(models, keys, reg, custom)[i]).provider != id,
        provider_available_spec(id, keys, reg, custom) && provider_index(reg, id) >= 0 ==> forall|m: int, j: int|
            0 <= m < models.len() && 0 <= j < models[m].1.providers@.len() && #[trigger] models[m].1.providers@[j]@ == id
                ==> has_pair(available_models_spec(models, keys, reg, custom), models[m].0@, id),
{
    let c = pass_builtin(models, keys, reg, custom) + pass_custom(models, custom);
    let a = pass_builtin(models, keys, reg, custom);
    let d = dedup(c);
    let r = available_models_spec(models, keys, reg, custom);
    lemma_passes(models, keys, reg, custom);
    lemma_dedup(c);
    lemma_sort(d);
    assert forall|i: int| 0 <= i < c.len() implies servable(#[trigger] c[i], keys, reg, custom) by {
        if i < a.len() { assert(c[i] == a[i]); } else { assert(c[i] == pass_custom(models, custom)[i - a.len()]); }
    }
    if !provider_available_spec(id, keys, reg, custom) && !(custom_index(custom, id) >= 0 && custom[custom_index(custom, id)].1.enabled) {
        assert forall|i: int| 0 <= i < r.len() implies (#[trigger] r[i]).provider != id by {
            let k = choose|k: int| 0 <= k < d.len() && d[k] == r[i];
            let q = choose|q: int| 0 <= q < c.len() && c[q] == d[k];
            assert(servable(c[q], keys, reg, custom));
        }
    }
    if provider_available_spec(id, keys, reg, custom) && provider_index(reg, id) >= 0 {
        assert forall|m: int, j: int|
            0 <= m < models.len() && 0 <= j < models[m].1.providers@.len() && #[trigger] models[m].1.providers@[j]@ == id
                implies has_pair(r, models[m].0@, id) by {
            let e = entry_for(models[m].0@, models[m].1, id, reg[provider_index(reg, id)].name@);
            assert(a.contains(e));
            let k = choose|k: int| 0 <= k < a.len() && a[k] == e;
            assert(c[k] == e);
            let i = choose|i: int| 0 <= i < d.len() && (#[trigger] d[i]).key == c[k].key && d[i].provider == c[k].provider;
            assert(r.contains(d[i]));
            let t = choose|t: int| 0 <= t < r.len() && r[t] == d[i];
            assert(r[t].key == models[m].0@ && r[t].provider == id);
        }
    }
}


/// The `ToolCall` event for the call under `k`.
pub open spec fn tool_event(s: StateV, k: Seq<char>) -> EventV {
    let a = s.accums[accum_index(s.accums, k)];
    EventV::ToolCall { id: a.id, name: a.name, input: crate::stream::tool_input(a.args) }
}

/// Every key of the emission order names a call ready to go out, once.
pub open spec fn all_ready(s: StateV, force: bool) -> bool {
    &&& forall|i: int| 0 <= i < s.order.len() ==> accum_index(s.accums, #[trigger] s.order[i]) >= 0
    &&& forall|i: int| 0 <= i < s.order.len() ==> s.accums[accum_index(s.accums, #[trigger] s.order[i])].name.len() > 0
    &&& forall|i: int| 0 <= i < s.order.len() ==> (force || !crate::text::blank(s.accums[accum_index(s.accums, #[trigger] s.order[i])].args))
    &&& forall|i: int, j: int| 0 <= i < j < s.order.len() ==> (#[trigger] s.order[i]) != (#[trigger] s.order[j])
    &&& forall|i: int| 0 <= i < s.order.len() ==> !s.emitted.contains(#[trigger] s.order[i])
}

proof fn lemma_emit_in_order(s: StateV, force: bool, n: nat)
    requires
        n <= s.order.len(),
        all_ready(s, force),
    ensures
        emit_upto(s, force, n).pending == s.pending + s.order.subrange(0, n as int).map_values(|k: Seq<char>| tool_event(s, k)),
        emit_upto(s, force, n).emitted == s.emitted + s.order.subrange(0, n as int),
    decreases n,
{
    if n == 0 {
        assert(s.order.subrange(0, 0).map_values(|k: Seq<char>| tool_event(s, k)) =~= Seq::<EventV>::empty());
        assert(s.pending + Seq::<EventV>::empty() =~= s.pending);
        assert(s.emitted + s.order.subrange(0, 0) =~= s.emitted);
    } else {
        lemma_emit_in_order(s, force, (n - 1) as nat);
        crate::stream::lemma_emit_upto_frame(s, force, (n - 1) as nat);
        let t0 = emit_upto(s, force, (n - 1) as nat);
        let k = s.order[n - 1];
        assert(!t0.emitted.contains(k)) by {
            if t0.emitted.contains(k) {
                let j = choose|j: int| 0 <= j < t0.emitted.len() && t0.emitted[j] == k;
                if j < s.emitted.len() {
                    assert(s.emitted[j] == k);
                } else {
                    assert(s.order[j - s.emitted.len()] == k);
                }
            }
        }
        assert(eligible(t0, k, force));
        assert(s.order.subrange(0, n as int) =~= s.order.subrange(0, n - 1).push(k));
        assert(s.order.subrange(0, n as int).map_values(|k: Seq<char>| tool_event(s, k))
            =~= s.order.subrange(0, n - 1).map_values(|k: Seq<char>| tool_event(s, k)).push(tool_event(s, k)));
        assert(emit_upto(s, force, n).pending =~= s.pending + s.order.subrange(0, n as int).map_values(|k: Seq<char>| tool_event(s, k)));
        assert(emit_upto(s, force, n).emitted =~= s.emitted + s.order.subrange(0, n as int));
    }
}

/// When every slot holds a distinct call that is ready, one pass hands them out in slot
/// order, which is the vendors' index order.
pub proof fn law_emission_follows_slots(s: StateV, force: bool)
    requires
        all_ready(s, force),
    ensures
        emit_all(s, force).pending == s.pending + s.order.map_values(|k: Seq<char>| tool_event(s, k)),
{
    lemma_emit_in_order(s, force, s.order.len());
    assert(s.order.subrange(0, s.order.len() as int) =~= s.order);
}


/// An open reasoning channel always has an id, so its end can name it.
pub open spec fn reasoning_wf(s: StateV) -> bool {
    s.reasoning_started ==> s.reasoning_id is Some
}

/// Every chunk keeps an open reasoning channel's id, so the `ReasoningEnd` that closes it
/// is always queued.
pub proof fn law_reasoning_channel_has_id(s: StateV, p: JsonV, fresh: Seq<char>)
    requires
        reasoning_wf(s),
    ensures
        reasoning_wf(after_payload(s, p, fresh)),
        reasoning_wf(after_terminator(s)),
{
    let s1 = after_usage(s, p);
    let s2 = after_choice(s1, p, fresh);
    if first_choice(p) is Some {
        let ch = first_choice(p)->Some_0;
        let s1f = match str_of(field(ch, "finish_reason"@)) {
            Some(fr) => StateV { finish_reason: Some(fr), ..s1 },
            None => s1,
        };
        if field(ch, "delta"@) is Some {
            let d = field(ch, "delta"@)->Some_0;
            let x1 = if !s1f.text_started {
                StateV { text_started: true, pending: s1f.pending.push(EventV::TextStart), ..s1f }
            } else {
                s1f
            };
            let x2 = after_reasoning(x1, d, fresh);
            let x3 = match str_of(field(d, "content"@)) {
                Some(c) => push_event(x2, EventV::TextDelta { text: c }),
                None => x2,
            };
            lemma_fragments_frame(x3, crate::openai::delta_fragments(d));
            assert(s2 == after_delta(s1f, d, fresh));
        }
    }
    lemma_emit_upto_tool_calls(s2, false, s2.order.len());
    lemma_emit_upto_tool_calls(s, true, s.order.len());
}


/// Each entry's name sorts no later than the next one's.
pub open spec fn sorted_by_name_le(s: Seq<AvailV>) -> bool {
    forall|i: int| 0 <= i && i + 1 < s.len() ==> crate::model_registry::name_le(#[trigger] s[i].name, s[i + 1].name)
}

proof fn lemma_name_le_total(a: Seq<char>, b: Seq<char>)
    ensures
        crate::model_registry::name_le(a, b) || crate::model_registry::name_le(b, a),
    decreases a.len(),
{
    if a.len() > 0 && b.len() > 0 && a[0] as u32 == b[0] as u32 {
        lemma_name_le_total(a.drop_first(), b.drop_first());
    }
}

proof fn lemma_insert_sorted(s: Seq<AvailV>, x: AvailV)
    requires
        sorted_by_name_le(s),
    ensures
        sorted_by_name_le(insert_by_name(s, x)),
    decreases s.len(),
{
    let r = insert_by_name(s, x);
    if s.len() == 0 {
    } else if crate::model_registry::name_le(s.last().name, x.name) {
        assert forall|i: int| 0 <= i && i + 1 < r.len() implies crate::model_registry::name_le(#[trigger] r[i].name, r[i + 1].name) by {
            if i + 1 < s.len() {
                assert(r[i] == s[i] && r[i + 1] == s[i + 1]);
            } else {
                assert(r[i] == s.last());
            }
        }
    } else {
        let s0 = s.drop_last();
        let y = s.last();
        assert(sorted_by_name_le(s0)) by {
            assert forall|i: int| 0 <= i && i + 1 < s0.len() implies crate::model_registry::name_le(#[trigger] s0[i].name, s0[i + 1].name) by {
                assert(s0[i] == s[i] && s0[i + 1] == s[i + 1]);
            }
        }
        lemma_insert_sorted(s0, x);
        let r0 = insert_by_name(s0, x);
        lemma_insert(s0, x);
        lemma_name_le_total(y.name, x.name);
        // The last entry of `r0` is `x` or the last of `s0`.
        if s0.len() == 0 {
            assert(r0.last() == x);
        } else if crate::model_registry::name_le(s0.last().name, x.name) {
            assert(r0.last() == x);
        } else {
            assert(r0.last() == s0.last());
            assert(s[s.len() - 2] == s0.last());
        }
        assert forall|i: int| 0 <= i && i + 1 < r.len() implies crate::model_registry::name_le(#[trigger] r[i].name, r[i + 1].name) by {
            if i + 1 < r0.len() {
                assert(r[i] == r0[i] && r[i + 1] == r0[i + 1]);
            } else {
                assert(r[i] == r0.last() && r[i + 1] == y);
            }
        }
    }
}

proof fn lemma_sort_sorted(s: Seq<AvailV>)
    ensures
        sorted_by_name_le(sort_by_name(s)),
    decreases s.len(),
{
    if s.len() > 0 {
        lemma_sort_sorted(s.drop_last());
        lemma_insert_sorted(sort_by_name(s.drop_last()), s.last());
    }
}

/// The available models come sorted by display name.
pub proof fn law_available_models_sorted(
    models: Seq<(String, ModelConfig)>,
    keys: Seq<(Seq<char>, Seq<char>)>,
    reg: Seq<ProviderConfig>,
    custom: Seq<(String, CustomProviderConfig)>,
)
    ensures
        sorted_by_name_le(available_models_spec(models, keys, reg, custom)),
{
    lemma_sort_sorted(dedup(pass_builtin(models, keys, reg, custom) + pass_custom(models, custom)));
}


proof fn lemma_fragments_keep_keys_unique(s: StateV, fs: Seq<FragmentV>)
    requires
        crate::stream::accum_keys_unique(s.accums),
    ensures
        crate::stream::accum_keys_unique(apply_fragments(s, fs).accums),
    decreases fs.len(),
{
    if fs.len() > 0 {
        lemma_fragments_keep_keys_unique(s, fs.drop_last());
        crate::stream::lemma_fragment_keeps_keys_unique(apply_fragments(s, fs.drop_last()), fs.last());
    }
}

/// Every chunk, the terminator included, keeps one accumulator per key.
pub proof fn law_chunks_keep_keys_unique(s: StateV, data: Seq<char>, fresh: Seq<char>)
    requires
        crate::stream::accum_keys_unique(s.accums),
    ensures
        crate::openai::parse_spec(s, data, fresh) matches Some((t, _)) ==> crate::stream::accum_keys_unique(t.accums),
{
    lemma_emit_upto_tool_calls(s, true, s.order.len());
    if !crate::openai::is_terminator(data) && crate::json::parsed_json(data) is Some {
        let p = crate::json::parsed_json(data)->Some_0;
        let s1 = after_usage(s, p);
        let s2 = after_choice(s1, p, fresh);
        if first_choice(p) is Some {
            let ch = first_choice(p)->Some_0;
            let s1f = match str_of(field(ch, "finish_reason"@)) {
                Some(fr) => StateV { finish_reason: Some(fr), ..s1 },
                None => s1,
            };
            if field(ch, "delta"@) is Some {
                let d = field(ch, "delta"@)->Some_0;
                let x1 = if !s1f.text_started {
                    StateV { text_started: true, pending: s1f.pending.push(EventV::TextStart), ..s1f }
                } else {
                    s1f
                };
                let x2 = after_reasoning(x1, d, fresh);
                let x3 = match str_of(field(d, "content"@)) {
                    Some(c) => push_event(x2, EventV::TextDelta { text: c }),
                    None => x2,
                };
                lemma_fragments_keep_keys_unique(x3, crate::openai::delta_fragments(d));
                assert(s2 == after_delta(s1f, d, fresh));
            }
        }
        lemma_emit_upto_tool_calls(s2, false, s2.order.len());
    }
}


/// The state after a run of payloads, the `i`-th of which would open a reasoning channel
/// under `ids[i]`. The queue is never drained here: the events a caller collects, in
/// order, are the entries of this queue.
pub open spec fn after_payloads(s: StateV, ps: Seq<JsonV>, ids: Seq<Seq<char>>) -> StateV
    decreases ps.len(),
{
    if ps.len() == 0 {
        s
    } else {
        after_payload(after_payloads(s, ps.drop_last(), ids), ps.last(), ids[ps.len() - 1])
    }
}

/// At most one `TextStart`, and one before every text, tool call or reasoning start.
pub open spec fn text_start_once_first(q: Seq<EventV>) -> bool {
    &&& forall|i: int, j: int| 0 <= i < j < q.len() ==> !((#[trigger] q[i]) is TextStart && (#[trigger] q[j]) is TextStart)
    &&& forall|i: int| 0 <= i < q.len() && is_content(#[trigger] q[i]) ==> exists|j: int| 0 <= j < i && (#[trigger] q[j]) is TextStart
}

pub open spec fn stream_inv(t: StateV) -> bool {
    &&& text_start_once_first(t.pending)
    &&& t.text_started ==> exists|k: int| 0 <= k < t.pending.len() && (#[trigger] t.pending[k]) is TextStart
    &&& !t.text_started ==> t.accums.len() == 0 && forall|i: int| 0 <= i < t.pending.len() ==> !((#[trigger] t.pending[i]) is TextStart)
}

proof fn lemma_stream_inv_step(t: StateV, p: JsonV, fresh: Seq<char>)
    requires
        stream_inv(t),
    ensures
        stream_inv(after_payload(t, p, fresh)),
{
    law_text_start_first(t, p, fresh);
    let u = after_payload(t, p, fresh);
    let n = t.pending.len() as int;
    assert forall|i: int| 0 <= i < n implies u.pending[i] == t.pending[i] by {
        assert(u.pending.subrange(0, n)[i] == u.pending[i]);
    }
    if t.text_started {
        let k = choose|k: int| 0 <= k < t.pending.len() && (#[trigger] t.pending[k]) is TextStart;
        assert(u.pending[k] is TextStart);
        assert forall|i: int| 0 <= i < u.pending.len() && is_content(#[trigger] u.pending[i]) implies exists|j: int| 0 <= j < i && (#[trigger] u.pending[j]) is TextStart by {
            if i < n {
                let j = choose|j: int| 0 <= j < i && (#[trigger] t.pending[j]) is TextStart;
                assert(u.pending[j] is TextStart);
            } else {
                assert(u.pending[k] is TextStart);
            }
        }
        assert forall|i: int, j: int| 0 <= i < j < u.pending.len() implies !((#[trigger] u.pending[i]) is TextStart && (#[trigger] u.pending[j]) is TextStart) by {
            if j < n {
                assert(u.pending[i] == t.pending[i] && u.pending[j] == t.pending[j]);
            }
        }
    } else {
        assert forall|i: int| 0 <= i < n implies !is_content(#[trigger] t.pending[i]) by {
            if is_content(t.pending[i]) {
                let j = choose|j: int| 0 <= j < i && (#[trigger] t.pending[j]) is TextStart;
            }
        }
        assert forall|i: int| 0 <= i < u.pending.len() && is_content(#[trigger] u.pending[i]) implies exists|j: int| 0 <= j < i && (#[trigger] u.pending[j]) is TextStart by {
            if i < n {
                assert(u.pending[i] == t.pending[i]);
            } else {
                let j = choose|j: int| n <= j < i && (#[trigger] u.pending[j]) is TextStart;
            }
        }
        assert forall|i: int, j: int| 0 <= i < j < u.pending.len() implies !((#[trigger] u.pending[i]) is TextStart && (#[trigger] u.pending[j]) is TextStart) by {
            if i < n {
                assert(u.pending[i] == t.pending[i]);
            }
        }
        if u.text_started {
            let k = choose|k: int| n <= k < u.pending.len() && (#[trigger] u.pending[k]) is TextStart;
        } else {
            assert forall|i: int| 0 <= i < u.pending.len() implies !((#[trigger] u.pending[i]) is TextStart) by {
                if i < n {
                    assert(u.pending[i] == t.pending[i]);
                }
            }
        }
    }
}

proof fn lemma_stream_inv_run(s: StateV, ps: Seq<JsonV>, ids: Seq<Seq<char>>)
    requires
        stream_inv(s),
    ensures
        stream_inv(after_payloads(s, ps, ids)),
    decreases ps.len(),
{
    if ps.len() > 0 {
        lemma_stream_inv_run(s, ps.drop_last(), ids);
        lemma_stream_inv_step(after_payloads(s, ps.drop_last(), ids), ps.last(), ids[ps.len() - 1]);
    }
}

/// Over a whole stream, from a fresh state through any run of chunks and the terminator,
/// the events hold at most one `TextStart`, and it comes before the first text, tool
/// call or reasoning start.
pub proof fn law_stream_text_start_once_first(s: StateV, ps: Seq<JsonV>, ids: Seq<Seq<char>>)
    requires
        s.pending.len() == 0,
        !s.text_started,
        s.accums.len() == 0,
    ensures
        text_start_once_first(after_payloads(s, ps, ids).pending),
        text_start_once_first(after_terminator(after_payloads(s, ps, ids)).pending),
{
    lemma_stream_inv_run(s, ps, ids);
    let t = after_payloads(s, ps, ids);
    let e = emit_all(t, true);
    lemma_emit_upto_tool_calls(t, true, t.order.len());
    let u = after_terminator(t);
    let n = t.pending.len() as int;
    let ok = |x: EventV| x is ToolCall || x is ReasoningEnd;
    lemma_appended_weaken(t.pending, e.pending, only_tool_calls(), ok);
    if e.reasoning_started && e.reasoning_id is Some {
        lemma_appended_push(e.pending, EventV::ReasoningEnd { id: e.reasoning_id->Some_0 }, ok);
    } else {
        lemma_appended_refl(e.pending, ok);
    }
    lemma_appended_trans(t.pending, e.pending, u.pending, ok);
    assert forall|i: int| 0 <= i < n implies u.pending[i] == t.pending[i] by {
        assert(u.pending.subrange(0, n)[i] == u.pending[i]);
    }
    if t.text_started {
        let k = choose|k: int| 0 <= k < t.pending.len() && (#[trigger] t.pending[k]) is TextStart;
        assert(u.pending[k] is TextStart);
        assert forall|i: int| 0 <= i < u.pending.len() && is_content(#[trigger] u.pending[i]) implies exists|j: int| 0 <= j < i && (#[trigger] u.pending[j]) is TextStart by {
            if i < n {
                let j = choose|j: int| 0 <= j < i && (#[trigger] t.pending[j]) is TextStart;
                assert(u.pending[j] is TextStart);
            } else {
                assert(u.pending[k] is TextStart);
            }
        }
    } else {
        assert(e.pending == t.pending);
        assert forall|i: int| 0 <= i < u.pending.len() && is_content(#[trigger] u.pending[i]) implies exists|j: int| 0 <= j < i && (#[trigger] u.pending[j]) is TextStart by {
            if i < n {
                assert(u.pending[i] == t.pending[i]);
                let j = choose|j: int| 0 <= j < i && (#[trigger] t.pending[j]) is TextStart;
                assert(u.pending[j] is TextStart);
            }
        }
    }
    assert forall|i: int, j: int| 0 <= i < j < u.pending.len() implies !((#[trigger] u.pending[i]) is TextStart && (#[trigger] u.pending[j]) is TextStart) by {
        if j < n {
            assert(u.pending[i] == t.pending[i] && u.pending[j] == t.pending[j]);
        }
    }
}


/// The reasoning channel left open after the events `q`: the id of the last start not
/// yet ended.
pub open spec fn open_channel(q: Seq<EventV>) -> Option<Seq<char>>
    decreases q.len(),
{
    if q.len() == 0 {
        None
    } else {
        match q.last() {
            EventV::ReasoningStart { id, .. } => Some(id),
            EventV::ReasoningEnd { .. } => None,
            _ => open_channel(q.drop_last()),
        }
    }
}

/// Reasoning events nest: a start only when no channel is open, and every delta and end
/// under the id of the open channel.
pub open spec fn reasoning_nested(q: Seq<EventV>) -> bool
    decreases q.len(),
{
    q.len() == 0 || (reasoning_nested(q.drop_last()) && match q.last() {
        EventV::ReasoningStart { .. } => open_channel(q.drop_last()) is None,
        EventV::ReasoningDelta { id, .. } => open_channel(q.drop_last()) == Some(id),
        EventV::ReasoningEnd { id } => open_channel(q.drop_last()) == Some(id),
        _ => true,
    })
}

pub open spec fn neutral() -> spec_fn(EventV) -> bool {
    |e: EventV| !(e is ReasoningStart || e is ReasoningDelta || e is ReasoningEnd)
}

/// The queue and the state agree on the reasoning channel.
pub open spec fn reasoning_inv(t: StateV) -> bool {
    &&& reasoning_nested(t.pending)
    &&& open_channel(t.pending) == (if t.reasoning_started { t.reasoning_id } else { None })
    &&& t.reasoning_started ==> t.reasoning_id is Some
}

proof fn lemma_push_event(q: Seq<EventV>, e: EventV)
    ensures
        q.push(e).drop_last() == q,
        q.push(e).last() == e,
{
    assert(q.push(e).drop_last() =~= q);
}

proof fn lemma_neutral_appended(q: Seq<EventV>, r: Seq<EventV>)
    requires
        appended(q, r, neutral()),
        reasoning_nested(q),
    ensures
        reasoning_nested(r),
        open_channel(r) == open_channel(q),
    decreases r.len() - q.len(),
{
    if r.len() > q.len() {
        let r0 = r.drop_last();
        assert(r0.subrange(0, q.len() as int) =~= r.subrange(0, q.len() as int));
        assert forall|i: int| q.len() <= i < r0.len() implies (neutral())(#[trigger] r0[i]) by {
            assert(r0[i] == r[i]);
        }
        lemma_neutral_appended(q, r0);
        assert((neutral())(r[r.len() - 1]));
    } else {
        assert(r =~= q) by {
            assert(r == r.subrange(0, q.len() as int));
        }
    }
}

proof fn lemma_close_keeps_inv(t: StateV)
    requires
        reasoning_inv(t),
    ensures
        reasoning_inv(close_reasoning(t)),
        !close_reasoning(t).reasoning_started,
{
    if t.reasoning_started {
        lemma_push_event(t.pending, EventV::ReasoningEnd { id: t.reasoning_id->Some_0 });
    }
}

proof fn lemma_reasoning_inv_step(t: StateV, p: JsonV, fresh: Seq<char>)
    requires
        reasoning_inv(t),
    ensures
        reasoning_inv(after_payload(t, p, fresh)),
{
    let s1 = after_usage(t, p);
    if usage_event(p) is Some {
        lemma_push_event(t.pending, usage_event(p)->Some_0);
    }
    assert(reasoning_inv(s1));
    let s2 = after_choice(s1, p, fresh);
    if first_choice(p) is Some {
        let ch = first_choice(p)->Some_0;
        let s1f = match str_of(field(ch, "finish_reason"@)) {
            Some(fr) => StateV { finish_reason: Some(fr), ..s1 },
            None => s1,
        };
        assert(reasoning_inv(s1f));
        if field(ch, "delta"@) is Some {
            let d = field(ch, "delta"@)->Some_0;
            let x1 = if !s1f.text_started {
                StateV { text_started: true, pending: s1f.pending.push(EventV::TextStart), ..s1f }
            } else {
                s1f
            };
            if !s1f.text_started {
                lemma_push_event(s1f.pending, EventV::TextStart);
            }
            assert(reasoning_inv(x1));
            let x2 = after_reasoning(x1, d, fresh);
            let rc_opt = str_of(field(d, "reasoning_content"@));
            if rc_opt is Some && rc_opt->Some_0.len() > 0 {
                let rc = rc_opt->Some_0;
                let y1 = if !x1.reasoning_started {
                    StateV {
                        reasoning_started: true,
                        reasoning_id: Some(fresh),
                        pending: x1.pending.push(EventV::ReasoningStart { id: fresh, meta: None }),
                        ..x1
                    }
                } else {
                    x1
                };
                if !x1.reasoning_started {
                    lemma_push_event(x1.pending, EventV::ReasoningStart { id: fresh, meta: None });
                }
                assert(reasoning_inv(y1));
                lemma_push_event(y1.pending, EventV::ReasoningDelta { id: y1.reasoning_id->Some_0, text: rc, meta: None });
            }
            assert(reasoning_inv(x2));
            let x3 = match str_of(field(d, "content"@)) {
                Some(c) => push_event(x2, EventV::TextDelta { text: c }),
                None => x2,
            };
            if str_of(field(d, "content"@)) is Some {
                lemma_push_event(x2.pending, EventV::TextDelta { text: str_of(field(d, "content"@))->Some_0 });
            }
            assert(reasoning_inv(x3));
            lemma_fragments_frame(x3, crate::openai::delta_fragments(d));
            assert(s2 == after_delta(s1f, d, fresh));
        }
    }
    assert(reasoning_inv(s2));
    let s3 = if s2.finish_reason == Some("tool_calls"@) { emit_all(s2, false) } else { s2 };
    lemma_emit_upto_tool_calls(s2, false, s2.order.len());
    if s2.finish_reason == Some("tool_calls"@) {
        lemma_appended_weaken(s2.pending, s3.pending, only_tool_calls(), neutral());
        lemma_neutral_appended(s2.pending, s3.pending);
    }
    assert(reasoning_inv(s3));
    if s3.finish_reason is Some {
        lemma_close_keeps_inv(s3);
    }
}

proof fn lemma_reasoning_inv_run(s: StateV, ps: Seq<JsonV>, ids: Seq<Seq<char>>)
    requires
        reasoning_inv(s),
    ensures
        reasoning_inv(after_payloads(s, ps, ids)),
    decreases ps.len(),
{
    if ps.len() > 0 {
        lemma_reasoning_inv_run(s, ps.drop_last(), ids);
        lemma_reasoning_inv_step(after_payloads(s, ps.drop_last(), ids), ps.last(), ids[ps.len() - 1]);
    }
}

/// Over a whole stream, from a fresh state, reasoning events nest: a channel opens only
/// when none is open, every delta and the one end carry the open channel's id, and after
/// the terminator no channel is left open, so every start has exactly one end after all
/// its deltas.
pub proof fn law_stream_reasoning_nested(s: StateV, ps: Seq<JsonV>, ids: Seq<Seq<char>>)
    requires
        s.pending.len() == 0,
        !s.reasoning_started,
    ensures
        reasoning_nested(after_payloads(s, ps, ids).pending),
        reasoning_nested(after_terminator(after_payloads(s, ps, ids)).pending),
        open_channel(after_terminator(after_payloads(s, ps, ids)).pending) is None,
{
    lemma_reasoning_inv_run(s, ps, ids);
    let t = after_payloads(s, ps, ids);
    let e = emit_all(t, true);
    lemma_emit_upto_tool_calls(t, true, t.order.len());
    lemma_appended_weaken(t.pending, e.pending, only_tool_calls(), neutral());
    lemma_neutral_appended(t.pending, e.pending);
    lemma_close_keeps_inv(e);
}


/// `t` is `s` after a pass that emitted the calls in the slots `pos`, in increasing slot
/// order.
pub open spec fn emitted_in_slot_order(s: StateV, t: StateV, pos: Seq<int>) -> bool {
    &&& t.emitted.len() == s.emitted.len() + pos.len()
    &&& t.pending.len() == s.pending.len() + pos.len()
    &&& t.emitted.subrange(0, s.emitted.len() as int) == s.emitted
    &&& t.pending.subrange(0, s.pending.len() as int) == s.pending
    &&& forall|i: int| 0 <= i < pos.len() ==> 0 <= #[trigger] pos[i] < s.order.len()
    &&& forall|i: int, j: int| 0 <= i < j < pos.len() ==> #[trigger] pos[i] < #[trigger] pos[j]
    &&& forall|i: int| 0 <= i < pos.len() ==> t.emitted[s.emitted.len() + i] == s.order[#[trigger] pos[i]]
    &&& forall|i: int| 0 <= i < pos.len() ==> t.pending[s.pending.len() + i] == tool_event(s, s.order[#[trigger] pos[i]])
}

proof fn lemma_emit_slot_order(s: StateV, force: bool, n: nat) -> (pos: Seq<int>)
    requires
        n <= s.order.len(),
    ensures
        emitted_in_slot_order(s, emit_upto(s, force, n), pos),
        forall|i: int| 0 <= i < pos.len() ==> #[trigger] pos[i] < n,
    decreases n,
{
    if n == 0 {
        assert(s.emitted.subrange(0, s.emitted.len() as int) =~= s.emitted);
        assert(s.pending.subrange(0, s.pending.len() as int) =~= s.pending);
        Seq::empty()
    } else {
        let pos0 = lemma_emit_slot_order(s, force, (n - 1) as nat);
        crate::stream::lemma_emit_upto_frame(s, force, (n - 1) as nat);
        let t0 = emit_upto(s, force, (n - 1) as nat);
        let key = s.order[n - 1];
        let t1 = emit_upto(s, force, n);
        if eligible(t0, key, force) {
            let pos = pos0.push(n - 1);
            assert(t1.emitted == t0.emitted.push(key));
            assert(t1.pending == t0.pending.push(tool_event(s, key)));
            assert(t1.emitted.subrange(0, s.emitted.len() as int) =~= t0.emitted.subrange(0, s.emitted.len() as int));
            assert(t1.pending.subrange(0, s.pending.len() as int) =~= t0.pending.subrange(0, s.pending.len() as int));
            assert forall|i: int| 0 <= i < pos.len() implies t1.emitted[s.emitted.len() + i] == s.order[#[trigger] pos[i]] by {
                if i < pos0.len() {
                    assert(pos[i] == pos0[i]);
                }
            }
            assert forall|i: int| 0 <= i < pos.len() implies t1.pending[s.pending.len() + i] == tool_event(s, s.order[#[trigger] pos[i]]) by {
                if i < pos0.len() {
                    assert(pos[i] == pos0[i]);
                }
            }
            assert forall|i: int, j: int| 0 <= i < j < pos.len() implies #[trigger] pos[i] < #[trigger] pos[j] by {
                if j < pos0.len() {
                    assert(pos[i] == pos0[i] && pos[j] == pos0[j]);
                } else {
                    assert(pos[i] == pos0[i]);
                }
            }
            assert forall|i: int| 0 <= i < pos.len() implies 0 <= #[trigger] pos[i] < s.order.len() by {
                if i < pos0.len() {
                    assert(pos[i] == pos0[i]);
                }
            }
            assert forall|i: int| 0 <= i < pos.len() implies #[trigger] pos[i] < n by {
                if i < pos0.len() {
                    assert(pos[i] == pos0[i]);
                }
            }
            pos
        } else {
            pos0
        }
    }
}

/// One pass of emission hands out calls in the order of their slots, that is in the
/// vendors' index order for calls that came with an index (up to `MAX_TOOL_CALL_SLOT`),
/// each with the id, name and input of its accumulator.
pub proof fn law_emission_in_slot_order(s: StateV, force: bool)
    ensures
        exists|pos: Seq<int>| emitted_in_slot_order(s, emit_all(s, force), pos),
{
    let pos = lemma_emit_slot_order(s, force, s.order.len());
    assert(emitted_in_slot_order(s, emit_all(s, force), pos));
}



/// Every fragment keeps every call in the emission order: a call that has an
/// accumulator never loses its place, and the fragment's own call gets one.
pub proof fn law_fragment_keeps_calls_in_order(s: StateV, f: FragmentV)
    requires
        keys_in_order(s),
    ensures
        keys_in_order(apply_fragment(s, f)),
{
    let key = key_for(s, f);
    let t = apply_fragment(s, f);
    if key.len() == 0 {
        return;
    }
    let c = claimed_accums(s, f);
    let claim = claims_placeholder(s, f);
    if claim {
        crate::stream::lemma_accum_index_range(s.accums, decimal(f.index->Some_0 as nat));
    }
    assert(c.len() == s.accums.len());
    let a2 = crate::stream::upsert(c, key, f);
    assert(t.accums == a2);
    crate::stream::lemma_accum_index_range(c, key);
    let o = s.order;
    let o2 = t.order;
    assert(o2 == crate::stream::order_after(o, f, key, a2));
    let slotted = f.index is Some && f.index->Some_0 <= MAX_TOOL_CALL_SLOT;
    // The fragment's own call is ordered.
    if slotted {
        let ix = f.index->Some_0;
        let w = with_slots(o, (ix + 1) as nat);
        assert forall|q: int| 0 <= q < o.len() implies w[q] == o[q] by {}
        if w[ix as int] == key {
            assert(o2[ix as int] == key);
        } else if accum_index(a2, w[ix as int]) == -1 {
            assert(o2[ix as int] == key);
        } else if !w.contains(key) {
            assert(o2[w.len() as int] == key);
        } else {
            let q = choose|q: int| 0 <= q < w.len() && w[q] == key;
            assert(o2[q] == key);
        }
    } else if !o.contains(key) {
        assert(o2[o.len() as int] == key);
    } else {
        let q = choose|q: int| 0 <= q < o.len() && o[q] == key;
        assert(o2[q] == key);
    }
    assert(o2.contains(key));
    // Every other call keeps its place.
    assert forall|i: int| 0 <= i < t.accums.len() implies o2.contains(#[trigger] t.accums[i].key) by {
        let k2 = t.accums[i].key;
        if k2 != key {
            if accum_index(c, key) >= 0 {
                assert(a2.len() == c.len());
            } else {
                assert(a2[c.len() as int].key == key);
            }
            assert(i < s.accums.len());
            if claim {
                let pp = accum_index(s.accums, decimal(f.index->Some_0 as nat));
                assert(i != pp);
            }
            assert(c[i] == s.accums[i]);
            assert(o.contains(s.accums[i].key));
            let q = choose|q: int| 0 <= q < o.len() && o[q] == k2;
            if slotted {
                let ix = f.index->Some_0;
                let w = with_slots(o, (ix + 1) as nat);
                assert(w[q] == k2);
                if q == ix as int && w[ix as int] != key && accum_index(a2, w[ix as int]) == -1 {
                    crate::stream::lemma_accum_index_absent(a2, k2);
                    assert(a2[i].key == k2);
                }
                assert(o2[q] == k2);
            } else {
                assert(o2[q] == k2);
            }
        }
    }
}

proof fn lemma_fragments_keep_calls_in_order(s: StateV, fs: Seq<FragmentV>)
    requires
        keys_in_order(s),
    ensures
        keys_in_order(apply_fragments(s, fs)),
    decreases fs.len(),
{
    if fs.len() > 0 {
        lemma_fragments_keep_calls_in_order(s, fs.drop_last());
        law_fragment_keeps_calls_in_order(apply_fragments(s, fs.drop_last()), fs.last());
    }
}

/// Every chunk, the terminator included, keeps every call in the emission order, so a
/// call is never lost to the flushes.
pub proof fn law_chunks_keep_calls_in_order(s: StateV, data: Seq<char>, fresh: Seq<char>)
    requires
        keys_in_order(s),
    ensures
        crate::openai::parse_spec(s, data, fresh) matches Some((t, _)) ==> keys_in_order(t),
{
    lemma_emit_upto_tool_calls(s, true, s.order.len());
    crate::stream::lemma_emit_upto_frame(s, true, s.order.len());
    if !crate::openai::is_terminator(data) && crate::json::parsed_json(data) is Some {
        let p = crate::json::parsed_json(data)->Some_0;
        let s1 = after_usage(s, p);
        let s2 = after_choice(s1, p, fresh);
        if first_choice(p) is Some {
            let ch = first_choice(p)->Some_0;
            let s1f = match str_of(field(ch, "finish_reason"@)) {
                Some(fr) => StateV { finish_reason: Some(fr), ..s1 },
                None => s1,
            };
            if field(ch, "delta"@) is Some {
                let d = field(ch, "delta"@)->Some_0;
                let x1 = if !s1f.text_started {
                    StateV { text_started: true, pending: s1f.pending.push(EventV::TextStart), ..s1f }
                } else {
                    s1f
                };
                let x2 = after_reasoning(x1, d, fresh);
                let x3 = match str_of(field(d, "content"@)) {
                    Some(c) => push_event(x2, EventV::TextDelta { text: c }),
                    None => x2,
                };
                lemma_fragments_keep_calls_in_order(x3, crate::openai::delta_fragments(d));
                assert(s2 == after_delta(s1f, d, fresh));
            }
        }
        lemma_emit_upto_tool_calls(s2, false, s2.order.len());
        crate::stream::lemma_emit_upto_frame(s2, false, s2.order.len());
    }
}


/// The call under `k` could go out as far as its accumulator goes.
pub open spec fn ready(s: StateV, k: Seq<char>, force: bool) -> bool {
    let p = accum_index(s.accums, k);
    &&& p >= 0
    &&& s.accums[p].name.len() > 0
    &&& (force || !crate::text::blank(s.accums[p].args))
}

proof fn lemma_pass_covers(s: StateV, force: bool, n: nat)
    requires
        n <= s.order.len(),
    ensures
        forall|i: int| 0 <= i < n ==> emit_upto(s, force, n).emitted.contains(#[trigger] s.order[i]) || !ready(s, s.order[i], force),
    decreases n,
{
    if n > 0 {
        lemma_pass_covers(s, force, (n - 1) as nat);
        crate::stream::lemma_emit_upto_frame(s, force, (n - 1) as nat);
        let t0 = emit_upto(s, force, (n - 1) as nat);
        let t1 = emit_upto(s, force, n);
        let k = s.order[n - 1];
        assert forall|x: Seq<char>| t0.emitted.contains(x) implies t1.emitted.contains(x) by {
            let q = choose|q: int| 0 <= q < t0.emitted.len() && t0.emitted[q] == x;
            if eligible(t0, k, force) {
                assert(t1.emitted == t0.emitted.push(k));
                assert(t1.emitted[q] == x);
            }
        }
        if eligible(t0, k, force) {
            assert(t1.emitted == t0.emitted.push(k));
            assert(t1.emitted[t0.emitted.len() as int] == k);
        }
    }
}

proof fn lemma_second_pass_idle(t: StateV, s: StateV, force: bool, m: nat)
    requires
        m <= t.order.len(),
        t.order == s.order,
        t.accums == s.accums,
        forall|i: int| 0 <= i < s.order.len() ==> t.emitted.contains(#[trigger] s.order[i]) || !ready(s, s.order[i], force),
    ensures
        emit_upto(t, force, m) == t,
    decreases m,
{
    if m > 0 {
        lemma_second_pass_idle(t, s, force, (m - 1) as nat);
        assert(!eligible(t, t.order[m - 1], force));
    }
}

/// A pass of emission right after another adds nothing: every call it could hand out
/// has gone out.
pub proof fn law_emission_idempotent(s: StateV, force: bool)
    ensures
        emit_all(emit_all(s, force), force) == emit_all(s, force),
{
    lemma_pass_covers(s, force, s.order.len());
    crate::stream::lemma_emit_upto_frame(s, force, s.order.len());
    let t = emit_all(s, force);
    lemma_second_pass_idle(t, s, force, t.order.len());
}


proof fn lemma_choice_extends(s1: StateV, p: JsonV, fresh: Seq<char>)
    ensures
        appended(s1.pending, after_choice(s1, p, fresh).pending, any_event()),
{
    let anyf = any_event();
    let s2 = after_choice(s1, p, fresh);
    if first_choice(p) is Some {
        let ch = first_choice(p)->Some_0;
        let s1f = match str_of(field(ch, "finish_reason"@)) {
            Some(fr) => StateV { finish_reason: Some(fr), ..s1 },
            None => s1,
        };
        if field(ch, "delta"@) is Some {
            let d = field(ch, "delta"@)->Some_0;
            let x1 = if !s1f.text_started {
                StateV { text_started: true, pending: s1f.pending.push(EventV::TextStart), ..s1f }
            } else {
                s1f
            };
            if !s1f.text_started {
                lemma_appended_push(s1f.pending, EventV::TextStart, anyf);
            } else {
                lemma_appended_refl(s1f.pending, anyf);
            }
            let x2 = after_reasoning(x1, d, fresh);
            let rc_opt = str_of(field(d, "reasoning_content"@));
            if rc_opt is Some && rc_opt->Some_0.len() > 0 {
                let rc = rc_opt->Some_0;
                let y1 = if !x1.reasoning_started {
                    StateV {
                        reasoning_started: true,
                        reasoning_id: Some(fresh),
                        pending: x1.pending.push(EventV::ReasoningStart { id: fresh, meta: None }),
                        ..x1
                    }
                } else {
                    x1
                };
                if !x1.reasoning_started {
                    lemma_appended_push(x1.pending, EventV::ReasoningStart { id: fresh, meta: None }, anyf);
                } else {
                    lemma_appended_refl(x1.pending, anyf);
                }
                if y1.reasoning_id is Some {
                    lemma_appended_push(y1.pending, EventV::ReasoningDelta { id: y1.reasoning_id->Some_0, text: rc, meta: None }, anyf);
                    lemma_appended_trans(x1.pending, y1.pending, x2.pending, anyf);
                }
            } else {
                lemma_appended_refl(x1.pending, anyf);
            }
            lemma_appended_trans(s1f.pending, x1.pending, x2.pending, anyf);
            let x3 = match str_of(field(d, "content"@)) {
                Some(c) => push_event(x2, EventV::TextDelta { text: c }),
                None => x2,
            };
            if str_of(field(d, "content"@)) is Some {
                lemma_appended_push(x2.pending, EventV::TextDelta { text: str_of(field(d, "content"@))->Some_0 }, anyf);
                lemma_appended_trans(s1f.pending, x2.pending, x3.pending, anyf);
            }
            lemma_fragments_frame(x3, crate::openai::delta_fragments(d));
            assert(s2 == after_delta(s1f, d, fresh));
        } else {
            lemma_appended_refl(s1.pending, anyf);
        }
    } else {
        lemma_appended_refl(s1.pending, anyf);
    }
}

/// A chunk's `Usage` event is the first event it yields when nothing was waiting: with a
/// positive count or total, parsing the chunk returns exactly that `Usage` event; with an
/// all-zero block the usage adds nothing to the queue.
pub proof fn law_usage_is_returned(s: StateV, data: Seq<char>, fresh: Seq<char>)
    requires
        s.pending.len() == 0,
        !crate::openai::is_terminator(data),
        crate::json::parsed_json(data) is Some,
    ensures
        ({
            let p = crate::json::parsed_json(data)->Some_0;
            &&& usage_event(p) is Some ==> (crate::openai::parse_spec(s, data, fresh) matches Some((_, e)) && e == usage_event(p))
            &&& usage_event(p) is None ==> after_usage(s, p) == s
        }),
{
    let p = crate::json::parsed_json(data)->Some_0;
    if usage_event(p) is Some {
        let anyf = any_event();
        let s1 = after_usage(s, p);
        assert(s1.pending == seq![usage_event(p)->Some_0]);
        lemma_choice_extends(s1, p, fresh);
        let s2 = after_choice(s1, p, fresh);
        lemma_emit_upto_tool_calls(s2, false, s2.order.len());
        lemma_appended_weaken(s2.pending, emit_all(s2, false).pending, only_tool_calls(), anyf);
        let s3 = if s2.finish_reason == Some("tool_calls"@) { emit_all(s2, false) } else { s2 };
        if !(s2.finish_reason == Some("tool_calls"@)) {
            lemma_appended_refl(s2.pending, anyf);
        }
        let t = after_payload(s, p, fresh);
        if s3.finish_reason is Some && s3.reasoning_started && s3.reasoning_id is Some {
            lemma_appended_push(s3.pending, EventV::ReasoningEnd { id: s3.reasoning_id->Some_0 }, anyf);
        } else {
            lemma_appended_refl(s3.pending, anyf);
        }
        assert(appended(s3.pending, t.pending, anyf));
        lemma_appended_trans(s1.pending, s2.pending, s3.pending, anyf);
        lemma_appended_trans(s1.pending, s3.pending, t.pending, anyf);
        assert(t.pending[0] == t.pending.subrange(0, 1)[0]);
    }
}


/// A fragment with only an index whose id is known joins that call: its text is appended
/// to the call's, no placeholder call is opened, and the emission order stays as it was.
pub proof fn law_index_only_fragment_joins_call(s: StateV, f: FragmentV, ix: u64, t: Seq<char>)
    requires
        f.id.len() == 0,
        f.index == Some(ix),
        f.args == ArgsV::Text(t),
        ix <= MAX_TOOL_CALL_SLOT,
        s.index_map.contains_key(ix),
        (ix as int) < s.order.len(),
        s.order[ix as int] == s.index_map[ix],
        s.index_map[ix].len() > 0,
        accum_index(s.accums, s.index_map[ix]) >= 0,
    ensures
        ({
            let x = s.index_map[ix];
            let u = apply_fragment(s, f);
            let p = accum_index(s.accums, x);
            &&& u.accums.len() == s.accums.len()
            &&& accum_index(u.accums, x) == p
            &&& u.accums[p].args == s.accums[p].args + t
            &&& u.order == s.order
        }),
{
    let x = s.index_map[ix];
    assert(key_for(s, f) == x);
    assert(!claims_placeholder(s, f));
    crate::stream::lemma_accum_index_range(s.accums, x);
    let p = accum_index(s.accums, x);
    let a2 = s.accums.update(p, merged(s.accums[p], f));
    assert forall|i: int| 0 <= i < s.accums.len() implies (#[trigger] s.accums[i]).key == a2[i].key by {}
    lemma_accum_index_same_keys(s.accums, a2, x);
    assert(with_slots(s.order, (ix + 1) as nat) =~= s.order);
    let u = apply_fragment(s, f);
    assert(claimed_accums(s, f) == s.accums);
    assert(u.accums == a2);
    assert(a2[p].args == s.accums[p].args + t);
    assert(u.order == s.order);
}


/// `s` with its queue replaced by `q`.
pub open spec fn with_pending(s: StateV, q: Seq<EventV>) -> StateV {
    StateV { pending: q, ..s }
}

/// `x` is `y` with the events `q` waiting in front of `y`'s queue.
pub open spec fn shifted(x: StateV, y: StateV, q: Seq<EventV>) -> bool {
    x == with_pending(y, q + y.pending)
}

proof fn lemma_shift_push(x: StateV, y: StateV, q: Seq<EventV>, e: EventV)
    requires
        shifted(x, y, q),
    ensures
        shifted(push_event(x, e), push_event(y, e), q),
{
    assert((q + y.pending).push(e) =~= q + y.pending.push(e));
}

proof fn lemma_shift_fragments(x: StateV, y: StateV, q: Seq<EventV>, fs: Seq<FragmentV>)
    requires
        shifted(x, y, q),
    ensures
        shifted(apply_fragments(x, fs), apply_fragments(y, fs), q),
    decreases fs.len(),
{
    if fs.len() > 0 {
        lemma_shift_fragments(x, y, q, fs.drop_last());
        lemma_fragments_frame(x, fs.drop_last());
        lemma_fragments_frame(y, fs.drop_last());
    }
    lemma_fragments_frame(x, fs);
    lemma_fragments_frame(y, fs);
}

proof fn lemma_shift_emit(x: StateV, y: StateV, q: Seq<EventV>, force: bool, n: nat)
    requires
        shifted(x, y, q),
        n <= y.order.len(),
    ensures
        shifted(emit_upto(x, force, n), emit_upto(y, force, n), q),
    decreases n,
{
    if n > 0 {
        lemma_shift_emit(x, y, q, force, (n - 1) as nat);
        crate::stream::lemma_emit_upto_frame(x, force, (n - 1) as nat);
        crate::stream::lemma_emit_upto_frame(y, force, (n - 1) as nat);
        let x0 = emit_upto(x, force, (n - 1) as nat);
        let y0 = emit_upto(y, force, (n - 1) as nat);
        let k = y.order[n - 1];
        if eligible(y0, k, force) {
            let a = y0.accums[accum_index(y0.accums, k)];
            let e = EventV::ToolCall { id: a.id, name: a.name, input: crate::stream::tool_input(a.args) };
            assert((q + y0.pending).push(e) =~= q + y0.pending.push(e));
        }
    }
}

proof fn lemma_shift_close(x: StateV, y: StateV, q: Seq<EventV>)
    requires
        shifted(x, y, q),
    ensures
        shifted(close_reasoning(x), close_reasoning(y), q),
{
    if y.reasoning_started && y.reasoning_id is Some {
        lemma_shift_push(x, y, q, EventV::ReasoningEnd { id: y.reasoning_id->Some_0 });
    }
}

proof fn lemma_shift_payload(x: StateV, y: StateV, q: Seq<EventV>, p: JsonV, fresh: Seq<char>)
    requires
        shifted(x, y, q),
    ensures
        shifted(after_payload(x, p, fresh), after_payload(y, p, fresh), q),
{
    let x1 = after_usage(x, p);
    let y1 = after_usage(y, p);
    if usage_event(p) is Some {
        lemma_shift_push(x, y, q, usage_event(p)->Some_0);
    }
    assert(shifted(x1, y1, q));
    let x2 = after_choice(x1, p, fresh);
    let y2 = after_choice(y1, p, fresh);
    if first_choice(p) is Some {
        let ch = first_choice(p)->Some_0;
        let (xf, yf) = match str_of(field(ch, "finish_reason"@)) {
            Some(fr) => (StateV { finish_reason: Some(fr), ..x1 }, StateV { finish_reason: Some(fr), ..y1 }),
            None => (x1, y1),
        };
        assert(shifted(xf, yf, q));
        if field(ch, "delta"@) is Some {
            let d = field(ch, "delta"@)->Some_0;
            let xa = if !xf.text_started { StateV { text_started: true, pending: xf.pending.push(EventV::TextStart), ..xf } } else { xf };
            let ya = if !yf.text_started { StateV { text_started: true, pending: yf.pending.push(EventV::TextStart), ..yf } } else { yf };
            if !yf.text_started {
                assert((q + yf.pending).push(EventV::TextStart) =~= q + yf.pending.push(EventV::TextStart));
            }
            assert(shifted(xa, ya, q));
            let xb = after_reasoning(xa, d, fresh);
            let yb = after_reasoning(ya, d, fresh);
            let rc_opt = str_of(field(d, "reasoning_content"@));
            if rc_opt is Some && rc_opt->Some_0.len() > 0 {
                let rc = rc_opt->Some_0;
                if !ya.reasoning_started {
                    let e = EventV::ReasoningStart { id: fresh, meta: None };
                    assert((q + ya.pending).push(e) =~= q + ya.pending.push(e));
                    let yr = StateV { reasoning_started: true, reasoning_id: Some(fresh), pending: ya.pending.push(e), ..ya };
                    let xr = StateV { reasoning_started: true, reasoning_id: Some(fresh), pending: xa.pending.push(e), ..xa };
                    assert(shifted(xr, yr, q));
                    lemma_shift_push(xr, yr, q, EventV::ReasoningDelta { id: fresh, text: rc, meta: None });
                } else if ya.reasoning_id is Some {
                    lemma_shift_push(xa, ya, q, EventV::ReasoningDelta { id: ya.reasoning_id->Some_0, text: rc, meta: None });
                }
            }
            assert(shifted(xb, yb, q));
            let xc = match str_of(field(d, "content"@)) { Some(c) => push_event(xb, EventV::TextDelta { text: c }), None => xb };
            let yc = match str_of(field(d, "content"@)) { Some(c) => push_event(yb, EventV::TextDelta { text: c }), None => yb };
            if str_of(field(d, "content"@)) is Some {
                lemma_shift_push(xb, yb, q, EventV::TextDelta { text: str_of(field(d, "content"@))->Some_0 });
            }
            lemma_shift_fragments(xc, yc, q, crate::openai::delta_fragments(d));
            assert(x2 == after_delta(xf, d, fresh));
            assert(y2 == after_delta(yf, d, fresh));
        }
    }
    assert(shifted(x2, y2, q));
    if y2.finish_reason == Some("tool_calls"@) {
        lemma_shift_emit(x2, y2, q, false, y2.order.len());
    }
    let x3 = if x2.finish_reason == Some("tool_calls"@) { emit_all(x2, false) } else { x2 };
    let y3 = if y2.finish_reason == Some("tool_calls"@) { emit_all(y2, false) } else { y2 };
    assert(shifted(x3, y3, q));
    crate::stream::lemma_emit_upto_frame(y2, false, y2.order.len());
    crate::stream::lemma_emit_upto_frame(x2, false, x2.order.len());
    if y3.finish_reason is Some {
        lemma_shift_close(x3, y3, q);
    }
}

/// The events a caller collects when it drains the queue after every chunk, and the state
/// it is left with (its queue empty).
pub open spec fn drained_run(s: StateV, ps: Seq<JsonV>, ids: Seq<Seq<char>>) -> (StateV, Seq<EventV>)
    decreases ps.len(),
{
    if ps.len() == 0 {
        (with_pending(s, Seq::empty()), s.pending)
    } else {
        let (t, c) = drained_run(s, ps.drop_last(), ids);
        let u = after_payload(t, ps.last(), ids[ps.len() - 1]);
        (with_pending(u, Seq::empty()), c + u.pending)
    }
}

proof fn lemma_drained_is_queue(s: StateV, ps: Seq<JsonV>, ids: Seq<Seq<char>>)
    ensures
        shifted(after_payloads(s, ps, ids), drained_run(s, ps, ids).0, drained_run(s, ps, ids).1),
        drained_run(s, ps, ids).0.pending.len() == 0,
    decreases ps.len(),
{
    if ps.len() == 0 {
        assert(s.pending + Seq::<EventV>::empty() =~= s.pending);
    } else {
        lemma_drained_is_queue(s, ps.drop_last(), ids);
        let (t, c) = drained_run(s, ps.drop_last(), ids);
        let a = after_payloads(s, ps.drop_last(), ids);
        assert(t.pending =~= Seq::<EventV>::empty());
        assert(t.pending + Seq::<EventV>::empty() =~= t.pending);
        assert(shifted(a, t, c)) by {
            assert(c + t.pending =~= c);
        }
        lemma_shift_payload(a, t, c, ps.last(), ids[ps.len() - 1]);
        let u = after_payload(t, ps.last(), ids[ps.len() - 1]);
        assert(c + u.pending + Seq::<EventV>::empty() =~= c + u.pending);
    }
}

/// Draining the queue after every chunk collects exactly the events of the undrained
/// queue, so the whole-stream laws hold of what a caller sees: over chunks and then the
/// terminator (whose events are collected in turn, before any `Done`), there is at most
/// one `TextStart`, before every text, tool call and reasoning start, and reasoning
/// events nest with every channel closed at the end.
pub proof fn law_drained_stream(s: StateV, ps: Seq<JsonV>, ids: Seq<Seq<char>>)
    requires
        s.pending.len() == 0,
        !s.text_started,
        s.accums.len() == 0,
        !s.reasoning_started,
    ensures
        ({
            let (t, c) = drained_run(s, ps, ids);
            let all = c + after_terminator(t).pending;
            &&& c == after_payloads(s, ps, ids).pending
            &&& all == after_terminator(after_payloads(s, ps, ids)).pending
            &&& text_start_once_first(all)
            &&& reasoning_nested(all)
            &&& open_channel(all) is None
        }),
{
    lemma_drained_is_queue(s, ps, ids);
    let (t, c) = drained_run(s, ps, ids);
    let a = after_payloads(s, ps, ids);
    assert(c + t.pending =~= c);
    lemma_shift_emit(a, t, c, true, t.order.len());
    crate::stream::lemma_emit_upto_frame(t, true, t.order.len());
    crate::stream::lemma_emit_upto_frame(a, true, a.order.len());
    lemma_shift_close(emit_all(a, true), emit_all(t, true), c);
    law_stream_text_start_once_first(s, ps, ids);
    law_stream_reasoning_nested(s, ps, ids);
}

} // verus!
