use vstd::prelude::*;

use crate::keyed::{index_of, lemma_index_of_prefix, lemma_index_of_range};

verus! {

broadcast use vstd::std_specs::vec::group_vec_axioms, vstd::seq::group_seq_axioms;

/// A JSON value as the library holds it: object members keep their order.
#[derive(Debug, PartialEq)]
pub enum Json {
    Null,
    Bool(bool),
    PosInt(u64),
    NegInt(i64),
    /// A number that is not an integer, kept as its text.
    Float(String),
    Str(String),
    Array(Vec<Json>),
    Object(Vec<(String, Json)>),
}

/// The mathematical value of a `Json`.
pub enum JsonV {
    Null,
    Bool(bool),
    PosInt(u64),
    NegInt(i64),
    Float(Seq<char>),
    Str(Seq<char>),
    Array(Seq<JsonV>),
    Object(Seq<(Seq<char>, JsonV)>),
}

pub open spec fn json_view(j: Json) -> JsonV
    decreases j, 0nat,
{
    match j {
        Json::Null => JsonV::Null,
        Json::Bool(b) => JsonV::Bool(b),
        Json::PosInt(u) => JsonV::PosInt(u),
        Json::NegInt(i) => JsonV::NegInt(i),
        Json::Float(t) => JsonV::Float(t@),
        Json::Str(s) => JsonV::Str(s@),
        Json::Array(v) => JsonV::Array(items_view(v@, v@.len())),
        Json::Object(m) => JsonV::Object(members_view(m@, m@.len())),
    }
}

pub open spec fn items_view(s: Seq<Json>, n: nat) -> Seq<JsonV>
    decreases s, n,
{
    if n == 0 || n > s.len() {
        Seq::empty()
    } else {
        items_view(s, (n - 1) as nat).push(json_view(s[n - 1]))
    }
}

pub open spec fn members_view(s: Seq<(String, Json)>, n: nat) -> Seq<(Seq<char>, JsonV)>
    decreases s, n,
{
    if n == 0 || n > s.len() {
        Seq::empty()
    } else {
        members_view(s, (n - 1) as nat).push((s[n - 1].0@, json_view(s[n - 1].1)))
    }
}

impl View for Json {
    type V = JsonV;

    open spec fn view(&self) -> JsonV {
        json_view(*self)
    }
}


pub open spec fn lookup(m: Seq<(Seq<char>, JsonV)>, k: Seq<char>) -> Option<JsonV>
    decreases m.len(),
{
    if m.len() == 0 {
        None
    } else if m[0].0 == k {
        Some(m[0].1)
    } else {
        lookup(m.drop_first(), k)
    }
}

/// The member `k` of an object; `None` for a missing member or a value that is no object.
pub open spec fn field(v: JsonV, k: Seq<char>) -> Option<JsonV> {
    match v {
        JsonV::Object(m) => lookup(m, k),
        _ => None,
    }
}

/// The text of a string value.
pub open spec fn str_of(v: Option<JsonV>) -> Option<Seq<char>> {
    match v {
        Some(JsonV::Str(s)) => Some(s),
        _ => None,
    }
}

/// A number read as `u64`: a non-negative integer.
pub open spec fn u64_of(v: Option<JsonV>) -> Option<u64> {
    match v {
        Some(JsonV::PosInt(u)) => Some(u),
        _ => None,
    }
}

/// A number read as `i64`: an integer that fits.
pub open spec fn i64_of(v: Option<JsonV>) -> Option<i64> {
    match v {
        Some(JsonV::PosInt(u)) => if u <= i64::MAX as u64 { Some(u as i64) } else { None },
        Some(JsonV::NegInt(i)) => Some(i),
        _ => None,
    }
}

/// The items of an array.
pub open spec fn items_of(v: Option<JsonV>) -> Option<Seq<JsonV>> {
    match v {
        Some(JsonV::Array(a)) => Some(a),
        _ => None,
    }
}

pub proof fn lemma_items_view(s: Seq<Json>, n: nat)
    requires
        n <= s.len(),
    ensures
        items_view(s, n).len() == n,
        forall|i: int| 0 <= i < n ==> #[trigger] items_view(s, n)[i] == json_view(s[i]),
    decreases n,
{
    if n > 0 {
        lemma_items_view(s, (n - 1) as nat);
    }
}

pub proof fn lemma_members_view(s: Seq<(String, Json)>, n: nat)
    requires
        n <= s.len(),
    ensures
        members_view(s, n).len() == n,
        forall|i: int|
            0 <= i < n ==> #[trigger] members_view(s, n)[i] == (s[i].0@, json_view(s[i].1)),
    decreases n,
{
    if n > 0 {
        lemma_members_view(s, (n - 1) as nat);
    }
}

pub proof fn lemma_lookup_from(m: Seq<(Seq<char>, JsonV)>, k: Seq<char>, i: int)
    requires
        0 <= i < m.len(),
        m[i].0 != k,
    ensures
        lookup(m.subrange(i, m.len() as int), k) == lookup(m.subrange(i + 1, m.len() as int), k),
{
    let t = m.subrange(i, m.len() as int);
    assert(t.drop_first() =~= m.subrange(i + 1, m.len() as int));
}

/// Compares two texts character by character.
pub fn text_eq(a: &str, b: &str) -> (r: bool)
    ensures
        r == (a@ == b@),
{
    let n = a.unicode_len();
    if n != b.unicode_len() {
        return false;
    }
    let mut i: usize = 0;
    while i < n
        invariant
            n == a@.len(),
            n == b@.len(),
            i <= n,
            a@.subrange(0, i as int) == b@.subrange(0, i as int),
        decreases n - i,
    {
        if a.get_char(i) != b.get_char(i) {
            assert(a@[i as int] != b@[i as int]);
            return false;
        }
        assert(a@.subrange(0, i + 1) =~= a@.subrange(0, i as int).push(a@[i as int]));
        assert(b@.subrange(0, i + 1) =~= b@.subrange(0, i as int).push(b@[i as int]));
        i = i + 1;
    }
    assert(a@ =~= a@.subrange(0, n as int));
    assert(b@ =~= b@.subrange(0, n as int));
    true
}

impl Json {
    /// A copy with the same value.
    pub fn deep_clone(&self) -> (r: Json)
        ensures
            r@ == self@,
        decreases self,
    {
        match self {
            Json::Null => Json::Null,
            Json::Bool(b) => Json::Bool(*b),
            Json::PosInt(u) => Json::PosInt(*u),
            Json::NegInt(i) => Json::NegInt(*i),
            Json::Float(t) => Json::Float(t.clone()),
            Json::Str(s) => Json::Str(s.clone()),
            Json::Array(v) => {
                let mut out: Vec<Json> = Vec::new();
                let mut i: usize = 0;
                while i < v.len()
                    invariant
                        *self == Json::Array(*v),
                        i <= v@.len(),
                        out@.len() == i,
                        forall|k: int| 0 <= k < i ==> json_view(#[trigger] out@[k]) == json_view(v@[k]),
                    decreases v@.len() - i,
                {
                    proof {
                        let ghost j: Json = *self;
                        assert(j is Array);
                        assert(decreases_to!(j => j->Array_0));
                        assert(decreases_to!(j->Array_0 => j->Array_0@));
                        assert(decreases_to!(j->Array_0@ => j->Array_0@[i as int]));
                    }
                    let c = v[i].deep_clone();
                    out.push(c);
                    i = i + 1;
                }
                proof {
                    lemma_items_view(v@, v@.len());
                    lemma_items_view(out@, out@.len());
                    assert(items_view(out@, out@.len()) =~= items_view(v@, v@.len()));
                }
                Json::Array(out)
            },
            Json::Object(m) => {
                let mut out: Vec<(String, Json)> = Vec::new();
                let mut i: usize = 0;
                while i < m.len()
                    invariant
                        *self == Json::Object(*m),
                        i <= m@.len(),
                        out@.len() == i,
                        forall|k: int|
                            0 <= k < i ==> (#[trigger] out@[k]).0@ == m@[k].0@ && json_view(out@[k].1)
                                == json_view(m@[k].1),
                    decreases m@.len() - i,
                {
                    proof {
                        let ghost j: Json = *self;
                        assert(j is Object);
                        assert(decreases_to!(j => j->Object_0));
                        assert(decreases_to!(j->Object_0 => j->Object_0@));
                        assert(decreases_to!(j->Object_0@ => j->Object_0@[i as int]));
                        assert(decreases_to!(j->Object_0@[i as int] => j->Object_0@[i as int].1));
                    }
                    let c = m[i].1.deep_clone();
                    out.push((m[i].0.clone(), c));
                    i = i + 1;
                }
                proof {
                    lemma_members_view(m@, m@.len());
                    lemma_members_view(out@, out@.len());
                    assert(members_view(out@, out@.len()) =~= members_view(m@, m@.len()));
                }
                Json::Object(out)
            },
        }
    }

    /// The member `key` of an object.
    pub fn get(&self, key: &str) -> (r: Option<&Json>)
        ensures
            r is Some <==> field(self@, key@) is Some,
            r matches Some(x) ==> Some(x@) == field(self@, key@),
    {
        match self {
            Json::Object(m) => {
                proof {
                    lemma_members_view(m@, m@.len());
                }
                let ghost mv = members_view(m@, m@.len());
                let mut i: usize = 0;
                assert(mv.subrange(0, mv.len() as int) =~= mv);
                while i < m.len()
                    invariant
                        *self == Json::Object(*m),
                        i <= m@.len(),
                        mv == members_view(m@, m@.len()),
                        mv.len() == m@.len(),
                        forall|k: int| 0 <= k < m@.len() ==> #[trigger] mv[k] == (m@[k].0@, json_view(m@[k].1)),
                        lookup(mv, key@) == lookup(mv.subrange(i as int, mv.len() as int), key@),
                    decreases m@.len() - i,
                {
                    if text_eq(m[i].0.as_str(), key) {
                        let ghost t = mv.subrange(i as int, mv.len() as int);
                        assert(t.len() > 0 && t[0] == mv[i as int] && t[0].0 == key@);
                        assert(lookup(t, key@) == Some(json_view(m@[i as int].1)));
                        return Some(&m[i].1);
                    }
                    proof {
                        lemma_lookup_from(mv, key@, i as int);
                    }
                    i = i + 1;
                }
                assert(mv.subrange(i as int, mv.len() as int).len() == 0);
                None
            },
            _ => None,
        }
    }

    /// The text of a string value.
    pub fn as_str(&self) -> (r: Option<&String>)
        ensures
            r is Some <==> self@ is Str,
            r matches Some(s) ==> self@ == JsonV::Str(s@),
    {
        match self {
            Json::Str(s) => Some(s),
            _ => None,
        }
    }

    /// A non-negative integer.
    pub fn as_u64(&self) -> (r: Option<u64>)
        ensures
            r == u64_of(Some(self@)),
    {
        match self {
            Json::PosInt(u) => Some(*u),
            _ => None,
        }
    }

    /// An integer that fits in `i64`.
    pub fn as_i64(&self) -> (r: Option<i64>)
        ensures
            r == i64_of(Some(self@)),
    {
        match self {
            Json::PosInt(u) => if *u <= i64::MAX as u64 { Some(*u as i64) } else { None },
            Json::NegInt(i) => Some(*i),
            _ => None,
        }
    }

    /// The items of an array.
    pub fn as_array(&self) -> (r: Option<&Vec<Json>>)
        ensures
            r is Some <==> self@ is Array,
            r matches Some(v) ==> self@ == JsonV::Array(items_view(v@, v@.len())),
    {
        match self {
            Json::Array(v) => Some(v),
            _ => None,
        }
    }
}


/// The first position of member `k`, or -1.
pub open spec fn member_key() -> spec_fn((Seq<char>, JsonV)) -> Seq<char> {
    |x: (Seq<char>, JsonV)| x.0
}

pub open spec fn member_index(m: Seq<(Seq<char>, JsonV)>, k: Seq<char>) -> int {
    index_of(m, k, member_key())
}

/// The members after `k` is set to `v`: the first member `k` is replaced, else `k` is
/// added at the end.
pub open spec fn set_member(m: Seq<(Seq<char>, JsonV)>, k: Seq<char>, v: JsonV) -> Seq<(Seq<char>, JsonV)> {
    let p = member_index(m, k);
    if p >= 0 {
        m.update(p, (k, v))
    } else {
        m.push((k, v))
    }
}

/// The members after each member of `extra` is set, in order.
pub open spec fn set_members(m: Seq<(Seq<char>, JsonV)>, extra: Seq<(Seq<char>, JsonV)>) -> Seq<(Seq<char>, JsonV)>
    decreases extra.len(),
{
    if extra.len() == 0 {
        m
    } else {
        let e = extra.last();
        set_member(set_members(m, extra.drop_last()), e.0, e.1)
    }
}

/// An object value with member `k` set to `v`; any other value is left as it is.
pub open spec fn with_member(o: JsonV, k: Seq<char>, v: JsonV) -> JsonV {
    match o {
        JsonV::Object(m) => JsonV::Object(set_member(m, k, v)),
        _ => o,
    }
}

pub proof fn lemma_member_index_prefix(a: Seq<(Seq<char>, JsonV)>, k: Seq<char>, j: int)
    requires
        0 <= j <= a.len(),
        member_index(a.subrange(0, j), k) >= 0,
    ensures
        member_index(a, k) == member_index(a.subrange(0, j), k),
{
    lemma_index_of_prefix(a, k, member_key(), j);
}

pub proof fn lemma_member_index_range(a: Seq<(Seq<char>, JsonV)>, k: Seq<char>)
    ensures
        -1 <= member_index(a, k) < a.len(),
        member_index(a, k) >= 0 ==> a[member_index(a, k)].0 == k,
        member_index(a, k) == -1 ==> forall|i: int| 0 <= i < a.len() ==> (#[trigger] a[i]).0 != k,
{
    lemma_index_of_range(a, k, member_key());
}

/// No member name occurs twice.
pub open spec fn members_unique(m: Seq<(Seq<char>, JsonV)>) -> bool {
    forall|i: int, j: int| 0 <= i < j < m.len() ==> (#[trigger] m[i]).0 != (#[trigger] m[j]).0
}

/// An object has unique member names; other values trivially qualify.
pub open spec fn unique_object(v: JsonV) -> bool {
    match v {
        JsonV::Object(m) => members_unique(m),
        _ => true,
    }
}

pub proof fn lemma_set_member_unique(m: Seq<(Seq<char>, JsonV)>, k: Seq<char>, v: JsonV)
    requires
        members_unique(m),
    ensures
        members_unique(set_member(m, k, v)),
{
    lemma_member_index_range(m, k);
    let r = set_member(m, k, v);
    assert forall|i: int, j: int| 0 <= i < j < r.len() implies (#[trigger] r[i]).0 != (#[trigger] r[j]).0 by {
        if j == m.len() {
            assert(r[i] == m[i]);
        } else {
            assert(r[i].0 == m[i].0 && r[j].0 == m[j].0);
        }
    }
}

/// The first position of member `key`.
fn member_position(m: &Vec<(String, Json)>, key: &str) -> (r: Option<usize>)
    ensures
        r matches Some(p) ==> member_index(members_view(m@, m@.len()), key@) == p,
        r is None ==> member_index(members_view(m@, m@.len()), key@) == -1,
{
    proof { lemma_members_view(m@, m@.len()); }
    let ghost mv = members_view(m@, m@.len());
    let mut i: usize = 0;
    assert(mv.subrange(0, 0).len() == 0);
    while i < m.len()
        invariant
            i <= m@.len(),
            mv == members_view(m@, m@.len()),
            mv.len() == m@.len(),
            forall|k: int| 0 <= k < m@.len() ==> #[trigger] mv[k] == (m@[k].0@, json_view(m@[k].1)),
            member_index(mv.subrange(0, i as int), key@) == -1,
        decreases m@.len() - i,
    {
        let found = text_eq(m[i].0.as_str(), key);
        proof {
            assert(mv.subrange(0, i + 1).drop_last() =~= mv.subrange(0, i as int));
        }
        if found {
            proof {
                lemma_member_index_prefix(mv, key@, i + 1);
            }
            return Some(i);
        }
        i = i + 1;
    }
    assert(mv.subrange(0, i as int) =~= mv);
    None
}

impl Json {
    /// Sets member `key` of an object to `v`, in place of the first member of that name or
    /// at the end. A value that is no object is left as it is.
    pub fn set_field(&mut self, key: String, v: Json)
        ensures
            final(self)@ == with_member(old(self)@, key@, v@),
            unique_object(old(self)@) ==> unique_object(final(self)@),
    {
        proof {
            if old(self)@ is Object && unique_object(old(self)@) {
                lemma_set_member_unique(old(self)@->Object_0, key@, v@);
            }
        }
        match self {
            Json::Object(m) => {
                proof { lemma_members_view(m@, m@.len()); }
                let ghost mv = members_view(m@, m@.len());
                let pos = member_position(m, key.as_str());
                proof { lemma_member_index_range(mv, key@); }
                let ghost kv = (key@, v@);
                match pos {
                    Some(i) => {
                        m[i] = (key, v);
                    },
                    None => {
                        m.push((key, v));
                    },
                }
                proof {
                    lemma_members_view(m@, m@.len());
                    if pos is Some {
                        assert(members_view(m@, m@.len()) =~= mv.update(pos->Some_0 as int, kv));
                    } else {
                        assert(members_view(m@, m@.len()) =~= mv.push(kv));
                    }
                }
            },
            _ => {},
        }
    }

    /// Sets each member of `extra`, in order, when both values are objects; otherwise
    /// leaves `self` as it is.
    pub fn merge_members(&mut self, extra: &Json)
        ensures
            final(self)@ == match (old(self)@, extra@) {
                (JsonV::Object(m), JsonV::Object(e)) => JsonV::Object(set_members(m, e)),
                _ => old(self)@,
            },
            unique_object(old(self)@) ==> unique_object(final(self)@),
    {
        match extra {
            Json::Object(e) => {
                if !(match self { Json::Object(_) => true, _ => false }) {
                    return ;
                }
                proof { lemma_members_view(e@, e@.len()); }
                let ghost ev = members_view(e@, e@.len());
                let ghost m0 = old(self)@->Object_0;
                let mut i: usize = 0;
                assert(ev.subrange(0, 0) =~= Seq::<(Seq<char>, JsonV)>::empty());
                while i < e.len()
                    invariant
                        i <= e@.len(),
                        ev == members_view(e@, e@.len()),
                        ev.len() == e@.len(),
                        forall|k: int| 0 <= k < e@.len() ==> #[trigger] ev[k] == (e@[k].0@, json_view(e@[k].1)),
                        self@ == JsonV::Object(set_members(m0, ev.subrange(0, i as int))),
                        unique_object(old(self)@) ==> unique_object(self@),
                    decreases e@.len() - i,
                {
                    let k = e[i].0.clone();
                    let v = e[i].1.deep_clone();
                    self.set_field(k, v);
                    assert(ev.subrange(0, i + 1).drop_last() =~= ev.subrange(0, i as int));
                    i = i + 1;
                }
                assert(ev.subrange(0, i as int) =~= ev);
            },
            _ => {},
        }
    }
}

#[verifier::external_type_specification]
#[verifier::external_body]
pub struct ExJsonValue(serde_json::Value);

/// The value that serde_json reads from `text`; `None` where `text` is no JSON document.
pub uninterp spec fn parsed_json(text: Seq<char>) -> Option<JsonV>;

/// The compact text that serde_json writes for `v`.
pub uninterp spec fn json_text(v: JsonV) -> Seq<char>;

/// Relies on the variants of serde_json::Value: each becomes the `Json` of the same shape,
/// an integer as `PosInt` or `NegInt` as serde_json's `as_u64` / `as_i64` report it.
#[verifier::external_body]
fn from_value(v: serde_json::Value) -> Json {
    match v {
        serde_json::Value::Null => Json::Null,
        serde_json::Value::Bool(b) => Json::Bool(b),
        serde_json::Value::Number(n) => match (n.as_u64(), n.as_i64()) {
            (Some(u), _) => Json::PosInt(u),
            (None, Some(i)) => Json::NegInt(i),
            (None, None) => Json::Float(n.to_string()),
        },
        serde_json::Value::String(s) => Json::Str(s),
        serde_json::Value::Array(a) => Json::Array(a.into_iter().map(from_value).collect()),
        serde_json::Value::Object(m) => Json::Object(m.into_iter().map(|(k, x)| (k, from_value(x))).collect()),
    }
}

/// Relies on the variants of serde_json::Value: the reverse of `from_value`, a `Float`
/// read back from its text.
#[verifier::external_body]
fn to_value(j: &Json) -> serde_json::Value {
    match j {
        Json::Null => serde_json::Value::Null,
        Json::Bool(b) => serde_json::Value::Bool(*b),
        Json::PosInt(u) => serde_json::Value::from(*u),
        Json::NegInt(i) => serde_json::Value::from(*i),
        Json::Float(t) => serde_json::from_str(t).unwrap_or(serde_json::Value::Null),
        Json::Str(s) => serde_json::Value::String(s.clone()),
        Json::Array(a) => serde_json::Value::Array(a.iter().map(to_value).collect()),
        Json::Object(m) => serde_json::Value::Object(m.iter().map(|(k, x)| (k.clone(), to_value(x))).collect()),
    }
}

/// Relies on serde_json::from_str: reads one JSON document, and fails on any other text
/// with serde_json's message.
#[verifier::external_body]
pub(crate) fn parse_json(text: &str) -> (r: Result<Json, String>)
    ensures
        r is Ok <==> parsed_json(text@) is Some,
        r matches Ok(j) ==> parsed_json(text@) == Some(j@),
{
    serde_json::from_str::<serde_json::Value>(text).map(from_value).map_err(|e| e.to_string())
}

/// Relies on serde_json::Value's `to_string`: the compact JSON text of the value.
#[verifier::external_body]
pub(crate) fn write_json(j: &Json) -> (r: String)
    ensures
        r@ == json_text(j@),
{
    to_value(j).to_string()
}

} // verus!
