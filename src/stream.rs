use vstd::prelude::*;
use std::collections::HashMap;
use vstd::string::StringExecFns;
use crate::events::{EventV, StreamEvent, events_view};
use crate::json::{Json, JsonV, json_text, parse_json, parsed_json, write_json};
use crate::text::{blank, decimal, decimal_text, is_blank};
use crate::json::text_eq;
use crate::keyed::{index_of, lemma_index_of_prefix, lemma_index_of_range, lemma_index_of_same_keys};

verus! {

broadcast use vstd::std_specs::hash::group_hash_axioms, vstd::seq::group_seq_axioms,
    vstd::std_specs::vec::group_vec_axioms;

/// The highest vendor index that gets a slot of its own in the emission order; a
/// fragment with a larger index is ordered as one without an index (appended on arrival),
/// since growing the order list to an arbitrary vendor number cannot be afforded.
pub const MAX_TOOL_CALL_SLOT: u64 = 1023;

/// A tool call being assembled from fragments.
#[derive(Debug)]
pub struct ToolCallAccum {
    pub key: String,
    pub tool_call_id: String,
    pub tool_name: String,
    pub arguments: String,
}

pub struct AccumV {
    pub key: Seq<char>,
    pub id: Seq<char>,
    pub name: Seq<char>,
    pub args: Seq<char>,
}

impl View for ToolCallAccum {
    type V = AccumV;

    open spec fn view(&self) -> AccumV {
        AccumV { key: self.key@, id: self.tool_call_id@, name: self.tool_name@, args: self.arguments@ }
    }
}

/// The arguments that one fragment carries.
#[derive(Debug)]
pub enum FragmentArgs {
    Absent,
    /// A piece of argument text, appended in arrival order.
    Text(String),
    /// A value that is not text; it stands for the whole argument payload.
    Value(Json),
}

/// One tool-call fragment of a delta.
#[derive(Debug)]
pub struct ToolFragment {
    pub index: Option<u64>,
    pub id: String,
    pub name: String,
    pub args: FragmentArgs,
}

pub enum ArgsV {
    Absent,
    Text(Seq<char>),
    Value(JsonV),
}

pub struct FragmentV {
    pub index: Option<u64>,
    pub id: Seq<char>,
    pub name: Seq<char>,
    pub args: ArgsV,
}

impl View for ToolFragment {
    type V = FragmentV;

    open spec fn view(&self) -> FragmentV {
        FragmentV {
            index: self.index,
            id: self.id@,
            name: self.name@,
            args: match self.args {
                FragmentArgs::Absent => ArgsV::Absent,
                FragmentArgs::Text(t) => ArgsV::Text(t@),
                FragmentArgs::Value(v) => ArgsV::Value(v@),
            },
        }
    }
}

/// The state of one stream being parsed.
#[derive(Debug)]
pub struct ProtocolStreamState {
    /// Events produced and not yet handed out, oldest first.
    pub pending_events: Vec<StreamEvent>,
    /// Vendor index to the id seen with it.
    pub tool_call_index_map: HashMap<u64, String>,
    pub tool_calls: Vec<ToolCallAccum>,
    /// Keys in emission order; a slot per vendor index where one is known.
    pub tool_call_order: Vec<String>,
    /// Keys already handed out as `ToolCall` events.
    pub emitted_tool_calls: Vec<String>,
    pub reasoning_started: bool,
    pub reasoning_id: Option<String>,
    pub text_started: bool,
    pub finish_reason: Option<String>,
}

pub struct StateV {
    pub pending: Seq<EventV>,
    pub index_map: Map<u64, Seq<char>>,
    pub accums: Seq<AccumV>,
    pub order: Seq<Seq<char>>,
    pub emitted: Seq<Seq<char>>,
    pub reasoning_started: bool,
    pub reasoning_id: Option<Seq<char>>,
    pub text_started: bool,
    pub finish_reason: Option<Seq<char>>,
}

pub open spec fn texts_view(v: Seq<String>) -> Seq<Seq<char>> {
    v.map_values(|s: String| s@)
}

pub open spec fn accums_view(v: Seq<ToolCallAccum>) -> Seq<AccumV> {
    v.map_values(|a: ToolCallAccum| a@)
}

impl View for ProtocolStreamState {
    type V = StateV;

    open spec fn view(&self) -> StateV {
        StateV {
            pending: events_view(self.pending_events@),
            index_map: self.tool_call_index_map@.map_values(|s: String| s@),
            accums: accums_view(self.tool_calls@),
            order: texts_view(self.tool_call_order@),
            emitted: texts_view(self.emitted_tool_calls@),
            reasoning_started: self.reasoning_started,
            reasoning_id: crate::events::opt_text(self.reasoning_id),
            text_started: self.text_started,
            finish_reason: crate::events::opt_text(self.finish_reason),
        }
    }
}

/// The first position of the accumulator for `k`, or -1.
pub open spec fn accum_key() -> spec_fn(AccumV) -> Seq<char> {
    |x: AccumV| x.key
}

pub open spec fn accum_index(a: Seq<AccumV>, k: Seq<char>) -> int {
    index_of(a, k, accum_key())
}

/// The key under which a fragment accumulates: its own id; else the id seen with its
/// index; else the key already in its slot; else the index's decimal text. Empty when
/// the fragment has neither id nor index.
pub open spec fn key_for(s: StateV, f: FragmentV) -> Seq<char> {
    if f.id.len() > 0 {
        f.id
    } else {
        match f.index {
            Some(ix) => if s.index_map.contains_key(ix) {
                s.index_map[ix]
            } else if (ix as int) < s.order.len() && s.order[ix as int].len() > 0 {
                s.order[ix as int]
            } else {
                decimal(ix as nat)
            },
            None => Seq::empty(),
        }
    }
}

/// An accumulator after one fragment: a name replaces the old one, text is appended.
pub open spec fn merged(base: AccumV, f: FragmentV) -> AccumV {
    AccumV {
        key: base.key,
        id: if f.id.len() > 0 { f.id } else { base.id },
        name: if f.name.len() > 0 { f.name } else { base.name },
        args: match f.args {
            ArgsV::Text(t) => base.args + t,
            ArgsV::Value(v) => if base.args.len() == 0 { json_text(v) } else { base.args },
            ArgsV::Absent => base.args,
        },
    }
}

pub open spec fn fresh_accum(key: Seq<char>) -> AccumV {
    AccumV { key: key, id: key, name: Seq::empty(), args: Seq::empty() }
}

pub open spec fn upsert(a: Seq<AccumV>, key: Seq<char>, f: FragmentV) -> Seq<AccumV> {
    let p = accum_index(a, key);
    if p >= 0 {
        a.update(p, merged(a[p], f))
    } else {
        a.push(merged(fresh_accum(key), f))
    }
}

/// `order` grown with empty slots to at least `n` entries.
pub open spec fn with_slots(order: Seq<Seq<char>>, n: nat) -> Seq<Seq<char>> {
    if order.len() < n {
        order + Seq::new((n - order.len()) as nat, |i: int| Seq::<char>::empty())
    } else {
        order
    }
}

/// `order` with `key` at the end unless it is already there.
pub open spec fn append_absent(order: Seq<Seq<char>>, key: Seq<char>) -> Seq<Seq<char>> {
    if order.contains(key) { order } else { order.push(key) }
}

/// The emission order after a fragment whose call is `key`, with `accs` the accumulators
/// after it. A fragment with an index (up to `MAX_TOOL_CALL_SLOT`) puts its call in the
/// index's slot, grown as needed, when the slot holds no other call; a slot that holds
/// another call keeps it, and the new call goes at the end. Other fragments add their call
/// at the end if it is not yet ordered. No call with an accumulator leaves the order.
pub open spec fn order_after(order: Seq<Seq<char>>, f: FragmentV, key: Seq<char>, accs: Seq<AccumV>) -> Seq<Seq<char>> {
    match f.index {
        Some(ix) => if ix <= MAX_TOOL_CALL_SLOT {
            let o = with_slots(order, (ix + 1) as nat);
            let slot = o[ix as int];
            if slot == key {
                o
            } else if accum_index(accs, slot) == -1 {
                o.update(ix as int, key)
            } else {
                append_absent(o, key)
            }
        } else {
            append_absent(order, key)
        },
        None => append_absent(order, key),
    }
}

/// Whether a fragment with an id takes over the call that index-only fragments opened
/// under its index's placeholder key: the slot still holds the placeholder, and the id has
/// no accumulator of its own.
pub open spec fn claims_placeholder(s: StateV, f: FragmentV) -> bool {
    &&& f.id.len() > 0
    &&& f.index is Some
    &&& f.index->Some_0 <= MAX_TOOL_CALL_SLOT
    &&& (f.index->Some_0 as int) < s.order.len()
    &&& s.order[f.index->Some_0 as int] == decimal(f.index->Some_0 as nat)
    &&& accum_index(s.accums, decimal(f.index->Some_0 as nat)) >= 0
    &&& accum_index(s.accums, f.id) == -1
}

/// The accumulators once a claimed placeholder has moved to the fragment's id, keeping
/// its name and its text.
pub open spec fn claimed_accums(s: StateV, f: FragmentV) -> Seq<AccumV> {
    if claims_placeholder(s, f) {
        let p = accum_index(s.accums, decimal(f.index->Some_0 as nat));
        s.accums.update(p, AccumV { key: f.id, id: f.id, ..s.accums[p] })
    } else {
        s.accums
    }
}

/// The state after one tool-call fragment.
pub open spec fn apply_fragment(s: StateV, f: FragmentV) -> StateV {
    let key = key_for(s, f);
    if key.len() == 0 {
        s
    } else {
        StateV {
            index_map: match f.index {
                Some(ix) => if f.id.len() > 0 { s.index_map.insert(ix, f.id) } else { s.index_map },
                None => s.index_map,
            },
            accums: upsert(claimed_accums(s, f), key, f),
            order: order_after(s.order, f, key, upsert(claimed_accums(s, f), key, f)),
            ..s
        }
    }
}

/// The state after a sequence of fragments, in order.
pub open spec fn apply_fragments(s: StateV, fs: Seq<FragmentV>) -> StateV
    decreases fs.len(),
{
    if fs.len() == 0 {
        s
    } else {
        apply_fragment(apply_fragments(s, fs.drop_last()), fs.last())
    }
}

pub proof fn lemma_accum_index_prefix(a: Seq<AccumV>, k: Seq<char>, j: int)
    requires
        0 <= j <= a.len(),
        accum_index(a.subrange(0, j), k) >= 0,
    ensures
        accum_index(a, k) == accum_index(a.subrange(0, j), k),
{
    lemma_index_of_prefix(a, k, accum_key(), j);
}

pub proof fn lemma_accum_index_range(a: Seq<AccumV>, k: Seq<char>)
    ensures
        -1 <= accum_index(a, k) < a.len(),
        accum_index(a, k) >= 0 ==> a[accum_index(a, k)].key == k,
{
    lemma_index_of_range(a, k, accum_key());
}

/// Every accumulator has a place in the emission order.
pub open spec fn keys_in_order(s: StateV) -> bool {
    forall|i: int| 0 <= i < s.accums.len() ==> s.order.contains(#[trigger] s.accums[i].key)
}

/// No two accumulators share a key.
pub open spec fn accum_keys_unique(a: Seq<AccumV>) -> bool {
    forall|i: int, j: int| 0 <= i < j < a.len() ==> (#[trigger] a[i]).key != (#[trigger] a[j]).key
}

pub proof fn lemma_accum_index_absent(a: Seq<AccumV>, k: Seq<char>)
    ensures
        accum_index(a, k) == -1 ==> forall|i: int| 0 <= i < a.len() ==> (#[trigger] a[i]).key != k,
{
    lemma_index_of_range(a, k, accum_key());
}

/// One fragment keeps the accumulator keys unique.
pub proof fn lemma_fragment_keeps_keys_unique(s: StateV, f: FragmentV)
    requires
        accum_keys_unique(s.accums),
    ensures
        accum_keys_unique(apply_fragment(s, f).accums),
{
    let key = key_for(s, f);
    if key.len() > 0 {
        let c = claimed_accums(s, f);
        if claims_placeholder(s, f) {
            let p = accum_index(s.accums, decimal(f.index->Some_0 as nat));
            lemma_accum_index_range(s.accums, decimal(f.index->Some_0 as nat));
            lemma_accum_index_absent(s.accums, f.id);
            assert forall|i: int, j: int| 0 <= i < j < c.len() implies (#[trigger] c[i]).key != (#[trigger] c[j]).key by {
                if i != p && j != p {
                    assert(c[i] == s.accums[i] && c[j] == s.accums[j]);
                }
            }
        }
        lemma_accum_index_range(c, key);
        lemma_accum_index_absent(c, key);
        let r = upsert(c, key, f);
        let p = accum_index(c, key);
        assert forall|i: int, j: int| 0 <= i < j < r.len() implies (#[trigger] r[i]).key != (#[trigger] r[j]).key by {
            if p >= 0 {
                assert(r[i].key == c[i].key && r[j].key == c[j].key);
            } else if j == c.len() {
                assert(r[i] == c[i]);
            } else {
                assert(r[i] == c[i] && r[j] == c[j]);
            }
        }
    }
}

pub proof fn lemma_accum_index_same_keys(a: Seq<AccumV>, b: Seq<AccumV>, k: Seq<char>)
    requires
        a.len() == b.len(),
        forall|i: int| 0 <= i < a.len() ==> (#[trigger] a[i]).key == b[i].key,
    ensures
        accum_index(a, k) == accum_index(b, k),
{
    lemma_index_of_same_keys(a, b, k, accum_key(), accum_key());
}

/// Position of the accumulator for `key`.
fn find_accum(accs: &Vec<ToolCallAccum>, key: &str) -> (r: Option<usize>)
    ensures
        r matches Some(p) ==> accum_index(accums_view(accs@), key@) == p,
        r is None ==> accum_index(accums_view(accs@), key@) == -1,
{
    let ghost av = accums_view(accs@);
    let mut i: usize = 0;
    assert(av.subrange(0, 0).len() == 0);
    while i < accs.len()
        invariant
            av == accums_view(accs@),
            i <= accs@.len(),
            accum_index(av.subrange(0, i as int), key@) == -1,
        decreases accs@.len() - i,
    {
        let found = text_eq(accs[i].key.as_str(), key);
        proof {
            assert(av.subrange(0, i + 1).drop_last() =~= av.subrange(0, i as int));
        }
        if found {
            proof {
                lemma_accum_index_prefix(av, key@, i + 1);
            }
            return Some(i);
        }
        i = i + 1;
    }
    assert(av.subrange(0, i as int) =~= av);
    None
}

/// Whether `v` holds `k`.
pub fn contains_text(v: &Vec<String>, k: &str) -> (r: bool)
    ensures
        r == texts_view(v@).contains(k@),
{
    let mut i: usize = 0;
    while i < v.len()
        invariant
            i <= v@.len(),
            forall|j: int| 0 <= j < i ==> v@[j]@ != k@,
        decreases v@.len() - i,
    {
        if text_eq(v[i].as_str(), k) {
            assert(texts_view(v@)[i as int] == k@);
            return true;
        }
        i = i + 1;
    }
    assert forall|j: int| 0 <= j < texts_view(v@).len() implies texts_view(v@)[j] != k@ by {
        assert(texts_view(v@)[j] == v@[j]@);
    }
    false
}


fn merge_accum(base: &ToolCallAccum, f: &ToolFragment) -> (r: ToolCallAccum)
    ensures
        r@ == merged(base@, f@),
{
    let id = if f.id.as_str().is_empty() { base.tool_call_id.clone() } else { f.id.clone() };
    let name = if f.name.as_str().is_empty() { base.tool_name.clone() } else { f.name.clone() };
    let arguments = match &f.args {
        FragmentArgs::Text(t) => {
            let mut a = base.arguments.clone();
            a.append(t.as_str());
            a
        },
        FragmentArgs::Value(v) => if base.arguments.as_str().is_empty() {
            write_json(v)
        } else {
            base.arguments.clone()
        },
        FragmentArgs::Absent => base.arguments.clone(),
    };
    ToolCallAccum { key: base.key.clone(), tool_call_id: id, tool_name: name, arguments }
}

fn update_order(order: &mut Vec<String>, f: &ToolFragment, key: &String, accs: &Vec<ToolCallAccum>)
    ensures
        texts_view(final(order)@) == order_after(texts_view(old(order)@), f@, key@, accums_view(accs@)),
{
    let ghost old_v = texts_view(order@);
    match f.index {
        Some(ix) => {
            if ix <= MAX_TOOL_CALL_SLOT {
                let ixu = ix as usize;
                while order.len() <= ixu
                    invariant
                        ixu == ix,
                        ix <= MAX_TOOL_CALL_SLOT,
                        old_v.len() <= order@.len(),
                        order@.len() <= old_v.len() || order@.len() <= ixu + 1,
                        texts_view(order@) =~= old_v + Seq::new(
                            (order@.len() - old_v.len()) as nat,
                            |i: int| Seq::<char>::empty(),
                        ),
                    decreases ixu + 1 - order@.len(),
                {
                    let ghost before = texts_view(order@);
                    let e = String::new();
                    order.push(e);
                    assert(texts_view(order@) =~= before.push(Seq::<char>::empty()));
                }
                let ghost o = with_slots(old_v, (ix + 1) as nat);
                assert(texts_view(order@) =~= o);
                if text_eq(order[ixu].as_str(), key.as_str()) {
                    return ;
                }
                if find_accum(accs, order[ixu].as_str()).is_none() {
                    order[ixu] = key.clone();
                    assert(texts_view(order@) =~= o.update(ix as int, key@));
                    return ;
                }
                if !contains_text(order, key.as_str()) {
                    order.push(key.clone());
                    assert(texts_view(order@) =~= o.push(key@));
                }
                return ;
            }
        },
        None => {},
    }
    if !contains_text(order, key.as_str()) {
        order.push(key.clone());
        assert(texts_view(order@) =~= old_v.push(key@));
    }
}

impl Default for ProtocolStreamState {
    fn default() -> (r: Self)
        ensures
            r@.pending.len() == 0,
            r@.index_map.is_empty(),
            r@.accums.len() == 0,
            r@.order.len() == 0,
            r@.emitted.len() == 0,
            !r@.reasoning_started,
            r@.reasoning_id is None,
            !r@.text_started,
            r@.finish_reason is None,
    {
        ProtocolStreamState::new()
    }
}

impl ProtocolStreamState {
    /// A state for a new stream: nothing seen, nothing pending.
    pub fn new() -> (r: ProtocolStreamState)
        ensures
            r@.pending.len() == 0,
            r@.index_map.is_empty(),
            r@.accums.len() == 0,
            r@.order.len() == 0,
            r@.emitted.len() == 0,
            !r@.reasoning_started,
            r@.reasoning_id is None,
            !r@.text_started,
            r@.finish_reason is None,
    {
        let r = ProtocolStreamState {
            pending_events: Vec::new(),
            tool_call_index_map: HashMap::new(),
            tool_calls: Vec::new(),
            tool_call_order: Vec::new(),
            emitted_tool_calls: Vec::new(),
            reasoning_started: false,
            reasoning_id: None,
            text_started: false,
            finish_reason: None,
        };
        assert(r@.index_map =~= Map::empty());
        r
    }

    /// Moves the call opened under a placeholder key to the id that claims its slot.
    fn claim_placeholder(&mut self, frag: &ToolFragment)
        ensures
            final(self)@ == (StateV { accums: claimed_accums(old(self)@, frag@), ..old(self)@ }),
    {
        let ghost s0 = self@;
        if frag.id.as_str().is_empty() {
            return ;
        }
        let ix = match frag.index {
            Some(ix) => ix,
            None => {
                return ;
            },
        };
        if ix > MAX_TOOL_CALL_SLOT || ix >= self.tool_call_order.len() as u64 {
            return ;
        }
        let placeholder = decimal_text(ix);
        if !text_eq(self.tool_call_order[ix as usize].as_str(), placeholder.as_str()) {
            return ;
        }
        match find_accum(&self.tool_calls, placeholder.as_str()) {
            Some(p) => {
                if find_accum(&self.tool_calls, frag.id.as_str()).is_some() {
                    return ;
                }
                proof { lemma_accum_index_range(s0.accums, placeholder@); }
                let moved = ToolCallAccum {
                    key: frag.id.clone(),
                    tool_call_id: frag.id.clone(),
                    tool_name: self.tool_calls[p].tool_name.clone(),
                    arguments: self.tool_calls[p].arguments.clone(),
                };
                self.tool_calls[p] = moved;
                assert(accums_view(self.tool_calls@) =~= claimed_accums(s0, frag@));
            },
            None => {},
        }
    }

    /// Merges one tool-call fragment into the accumulators: resolves its key, records its
    /// index and id, appends its argument text and keeps its place in the emission order.
    pub fn accumulate_fragment(&mut self, frag: ToolFragment)
        ensures
            final(self)@ == apply_fragment(old(self)@, frag@),
            accum_keys_unique(old(self)@.accums) ==> accum_keys_unique(final(self)@.accums),
            keys_in_order(old(self)@) ==> keys_in_order(final(self)@),
    {
        let ghost s0 = self@;
        proof {
            if keys_in_order(s0) {
                crate::laws::law_fragment_keeps_calls_in_order(s0, frag@);
            }
            if accum_keys_unique(s0.accums) {
                lemma_fragment_keeps_keys_unique(s0, frag@);
            }
        }
        let key: String = if !frag.id.as_str().is_empty() {
            frag.id.clone()
        } else {
            match frag.index {
                Some(ix) => match self.tool_call_index_map.get(&ix) {
                    Some(k) => k.clone(),
                    None => {
                        if ix < self.tool_call_order.len() as u64 && !self.tool_call_order[ix as usize].as_str().is_empty() {
                            self.tool_call_order[ix as usize].clone()
                        } else {
                            decimal_text(ix)
                        }
                    },
                },
                None => String::new(),
            }
        };
        assert(key@ == key_for(s0, frag@));
        if key.as_str().is_empty() {
            return ;
        }
        match frag.index {
            Some(ix) => {
                if !frag.id.as_str().is_empty() {
                    self.tool_call_index_map.insert(ix, frag.id.clone());
                }
            },
            None => {},
        }
        self.claim_placeholder(&frag);
        let ghost accs0 = accums_view(self.tool_calls@);
        assert(accs0 == claimed_accums(s0, frag@));
        match find_accum(&self.tool_calls, key.as_str()) {
            Some(p) => {
                proof { lemma_accum_index_range(accs0, key@); }
                let m = merge_accum(&self.tool_calls[p], &frag);
                self.tool_calls[p] = m;
                assert(accums_view(self.tool_calls@) =~= upsert(accs0, key@, frag@));
            },
            None => {
                let base = ToolCallAccum {
                    key: key.clone(),
                    tool_call_id: key.clone(),
                    tool_name: String::new(),
                    arguments: String::new(),
                };
                let m = merge_accum(&base, &frag);
                self.tool_calls.push(m);
                assert(accums_view(self.tool_calls@) =~= upsert(accs0, key@, frag@));
            },
        }
        update_order(&mut self.tool_call_order, &frag, &key, &self.tool_calls);
        assert(self@.index_map =~= apply_fragment(s0, frag@).index_map);
    }
}


/// The input of an emitted tool call: `{}` for blank argument text, else the parsed
/// text, else the text itself as a JSON string.
pub open spec fn tool_input(args: Seq<char>) -> JsonV {
    if blank(args) {
        JsonV::Object(Seq::empty())
    } else {
        match parsed_json(args) {
            Some(v) => v,
            None => JsonV::Str(args),
        }
    }
}

/// Whether the call under `key` is handed out now: not yet emitted, with a name, and
/// with argument text unless the flush is forced.
pub open spec fn eligible(s: StateV, key: Seq<char>, force: bool) -> bool {
    let p = accum_index(s.accums, key);
    &&& !s.emitted.contains(key)
    &&& p >= 0
    &&& s.accums[p].name.len() > 0
    &&& (force || !blank(s.accums[p].args))
}

pub open spec fn emit_step(s: StateV, key: Seq<char>, force: bool) -> StateV {
    if eligible(s, key, force) {
        let a = s.accums[accum_index(s.accums, key)];
        StateV {
            pending: s.pending.push(EventV::ToolCall { id: a.id, name: a.name, input: tool_input(a.args) }),
            emitted: s.emitted.push(key),
            ..s
        }
    } else {
        s
    }
}

/// The state after trying the first `n` keys of the emission order.
pub open spec fn emit_upto(s: StateV, force: bool, n: nat) -> StateV
    decreases n,
{
    if n == 0 || n > s.order.len() {
        s
    } else {
        emit_step(emit_upto(s, force, (n - 1) as nat), s.order[n - 1], force)
    }
}

/// One pass over the emission order that hands out every eligible call once.
pub open spec fn emit_all(s: StateV, force: bool) -> StateV {
    emit_upto(s, force, s.order.len())
}

pub proof fn lemma_emit_upto_frame(s: StateV, force: bool, n: nat)
    requires
        n <= s.order.len(),
    ensures
        emit_upto(s, force, n).order == s.order,
        emit_upto(s, force, n).accums == s.accums,
        emit_upto(s, force, n).index_map == s.index_map,
        emit_upto(s, force, n).reasoning_started == s.reasoning_started,
        emit_upto(s, force, n).reasoning_id == s.reasoning_id,
        emit_upto(s, force, n).text_started == s.text_started,
        emit_upto(s, force, n).finish_reason == s.finish_reason,
    decreases n,
{
    if n > 0 {
        lemma_emit_upto_frame(s, force, (n - 1) as nat);
    }
}

impl ProtocolStreamState {
    /// Queues a `ToolCall` event for each eligible call, in emission order, and marks it
    /// emitted.
    pub fn emit_tool_calls(&mut self, force: bool)
        ensures
            final(self)@ == emit_all(old(self)@, force),
    {
        let ghost s0 = self@;
        let n = self.tool_call_order.len();
        let mut i: usize = 0;
        while i < n
            invariant
                n == s0.order.len(),
                i <= n,
                self@ == emit_upto(s0, force, i as nat),
            decreases n - i,
        {
            proof {
                lemma_emit_upto_frame(s0, force, i as nat);
            }
            let ghost si = self@;
            assert(si.order == s0.order);
            let key = self.tool_call_order[i].clone();
            assert(key@ == s0.order[i as int]);
            if !contains_text(&self.emitted_tool_calls, key.as_str()) {
                match find_accum(&self.tool_calls, key.as_str()) {
                    Some(p) => {
                        proof { lemma_accum_index_range(si.accums, key@); }
                        let acc = &self.tool_calls[p];
                        if !acc.tool_name.as_str().is_empty() {
                            let empty_args = is_blank(acc.arguments.as_str());
                            if force || !empty_args {
                                let input = if empty_args {
                                    Json::Object(Vec::new())
                                } else {
                                    match parse_json(acc.arguments.as_str()) {
                                        Ok(v) => v,
                                        Err(_) => Json::Str(acc.arguments.clone()),
                                    }
                                };
                                let ev = StreamEvent::ToolCall {
                                    tool_call_id: acc.tool_call_id.clone(),
                                    tool_name: acc.tool_name.clone(),
                                    input,
                                };
                                assert(ev@ == EventV::ToolCall {
                                    id: si.accums[p as int].id,
                                    name: si.accums[p as int].name,
                                    input: tool_input(si.accums[p as int].args),
                                });
                                self.pending_events.push(ev);
                                self.emitted_tool_calls.push(key);
                                assert(self@.pending =~= emit_step(si, s0.order[i as int], force).pending);
                                assert(self@.emitted =~= emit_step(si, s0.order[i as int], force).emitted);
                            }
                        }
                    },
                    None => {},
                }
            }
            assert(self@ == emit_step(si, s0.order[i as int], force));
            i = i + 1;
        }
    }
}

} // verus!
