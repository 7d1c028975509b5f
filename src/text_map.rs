use vstd::prelude::*;
use vstd::string::StringExecFns;
use crate::json::text_eq;
use crate::openai::OpenAiProtocol;

use crate::keyed::{index_of, lemma_index_of_prefix, lemma_index_of_range};

verus! {

broadcast use vstd::seq::group_seq_axioms, vstd::std_specs::vec::group_vec_axioms;

/// A small map from text to text in insertion order: a later value for a name replaces the earlier one.
#[derive(Debug)]
pub struct TextMap {
    pub entries: Vec<(String, String)>,
}

pub open spec fn pairs_view(v: Seq<(String, String)>) -> Seq<(Seq<char>, Seq<char>)> {
    v.map_values(|p: (String, String)| (p.0@, p.1@))
}

impl View for TextMap {
    type V = Seq<(Seq<char>, Seq<char>)>;

    open spec fn view(&self) -> Seq<(Seq<char>, Seq<char>)> {
        pairs_view(self.entries@)
    }
}

/// The first position of header `k`, or -1.
pub open spec fn header_key() -> spec_fn((Seq<char>, Seq<char>)) -> Seq<char> {
    |x: (Seq<char>, Seq<char>)| x.0
}

pub open spec fn header_index(m: Seq<(Seq<char>, Seq<char>)>, k: Seq<char>) -> int {
    index_of(m, k, header_key())
}

/// The value of header `k`.
pub open spec fn header_value(m: Seq<(Seq<char>, Seq<char>)>, k: Seq<char>) -> Option<Seq<char>> {
    let p = header_index(m, k);
    if p >= 0 { Some(m[p].1) } else { None }
}

pub open spec fn set_header(m: Seq<(Seq<char>, Seq<char>)>, k: Seq<char>, v: Seq<char>) -> Seq<(Seq<char>, Seq<char>)> {
    let p = header_index(m, k);
    if p >= 0 { m.update(p, (k, v)) } else { m.push((k, v)) }
}

pub open spec fn set_headers(m: Seq<(Seq<char>, Seq<char>)>, extra: Seq<(Seq<char>, Seq<char>)>) -> Seq<(Seq<char>, Seq<char>)>
    decreases extra.len(),
{
    if extra.len() == 0 {
        m
    } else {
        set_header(set_headers(m, extra.drop_last()), extra.last().0, extra.last().1)
    }
}

pub proof fn lemma_header_index_prefix(a: Seq<(Seq<char>, Seq<char>)>, k: Seq<char>, j: int)
    requires
        0 <= j <= a.len(),
        header_index(a.subrange(0, j), k) >= 0,
    ensures
        header_index(a, k) == header_index(a.subrange(0, j), k),
{
    lemma_index_of_prefix(a, k, header_key(), j);
}

pub proof fn lemma_header_index_range(a: Seq<(Seq<char>, Seq<char>)>, k: Seq<char>)
    ensures
        -1 <= header_index(a, k) < a.len(),
        header_index(a, k) >= 0 ==> a[header_index(a, k)].0 == k,
        header_index(a, k) == -1 ==> forall|i: int| 0 <= i < a.len() ==> (#[trigger] a[i]).0 != k,
{
    lemma_index_of_range(a, k, header_key());
}

/// No name occurs twice.
pub open spec fn names_unique(m: Seq<(Seq<char>, Seq<char>)>) -> bool {
    forall|i: int, j: int| 0 <= i < j < m.len() ==> (#[trigger] m[i]).0 != (#[trigger] m[j]).0
}

pub proof fn lemma_set_header_unique(m: Seq<(Seq<char>, Seq<char>)>, k: Seq<char>, v: Seq<char>)
    requires
        names_unique(m),
    ensures
        names_unique(set_header(m, k, v)),
{
    lemma_header_index_range(m, k);
    let r = set_header(m, k, v);
    assert forall|i: int, j: int| 0 <= i < j < r.len() implies (#[trigger] r[i]).0 != (#[trigger] r[j]).0 by {
        if j == m.len() {
            assert(r[i] == m[i]);
        } else {
            assert(r[i].0 == m[i].0 && r[j].0 == m[j].0);
        }
    }
}

impl TextMap {
    /// Names are unique.
    pub open spec fn wf(&self) -> bool {
        names_unique(self@)
    }

    pub fn new() -> (r: TextMap)
        ensures
            r@.len() == 0,
            r.wf(),
    {
        TextMap { entries: Vec::new() }
    }

    fn position(&self, name: &str) -> (r: Option<usize>)
        ensures
            r matches Some(p) ==> header_index(self@, name@) == p,
            r is None ==> header_index(self@, name@) == -1,
    {
        let ghost hv = self@;
        let mut i: usize = 0;
        assert(hv.subrange(0, 0).len() == 0);
        while i < self.entries.len()
            invariant
                hv == self@,
                i <= self.entries@.len(),
                header_index(hv.subrange(0, i as int), name@) == -1,
            decreases self.entries@.len() - i,
        {
            let found = text_eq(self.entries[i].0.as_str(), name);
            proof {
                assert(hv.subrange(0, i + 1).drop_last() =~= hv.subrange(0, i as int));
            }
            if found {
                proof {
                    lemma_header_index_prefix(hv, name@, i + 1);
                }
                return Some(i);
            }
            i = i + 1;
        }
        assert(hv.subrange(0, i as int) =~= hv);
        None
    }

    /// The value of header `name`.
    pub fn get(&self, name: &str) -> (r: Option<&String>)
        ensures
            match r {
                Some(v) => header_value(self@, name@) == Some(v@),
                None => header_value(self@, name@) is None,
            },
    {
        proof { lemma_header_index_range(self@, name@); }
        match self.position(name) {
            Some(p) => Some(&self.entries[p].1),
            None => None,
        }
    }

    /// Sets header `name` to `value`.
    pub fn insert(&mut self, name: String, value: String)
        ensures
            final(self)@ == set_header(old(self)@, name@, value@),
            old(self).wf() ==> final(self).wf(),
    {
        let ghost hv = self@;
        proof {
            if names_unique(hv) {
                lemma_set_header_unique(hv, name@, value@);
            }
        }
        proof { lemma_header_index_range(hv, name@); }
        let ghost kv = (name@, value@);
        match self.position(name.as_str()) {
            Some(p) => {
                self.entries.set(p, (name, value));
                assert(self@ =~= hv.update(p as int, kv));
            },
            None => {
                self.entries.push((name, value));
                assert(self@ =~= hv.push(kv));
            },
        }
    }
}

/// The headers of a request: JSON content, a bearer token (the OAuth token where there is
/// one, else the API key), then the extra headers, which override.
pub open spec fn headers_spec(
    api_key: Option<Seq<char>>,
    oauth_token: Option<Seq<char>>,
    extra: Option<Seq<(Seq<char>, Seq<char>)>>,
) -> Seq<(Seq<char>, Seq<char>)> {
    let base = seq![("Content-Type"@, "application/json"@)];
    let token = match oauth_token { Some(t) => Some(t), None => api_key };
    let with_auth = match token {
        Some(t) => set_header(base, "Authorization"@, "Bearer "@ + t),
        None => base,
    };
    match extra {
        Some(e) => set_headers(with_auth, e),
        None => with_auth,
    }
}

impl OpenAiProtocol {
    /// The request headers; the OAuth token takes precedence over the API key.
    pub fn build_headers(
        &self,
        api_key: Option<&str>,
        oauth_token: Option<&str>,
        extra_headers: Option<&TextMap>,
    ) -> (r: TextMap)
        ensures
            r@ == headers_spec(
                match api_key { Some(k) => Some(k@), None => None },
                match oauth_token { Some(t) => Some(t@), None => None },
                match extra_headers { Some(e) => Some(e@), None => None },
            ),
    {
        let mut headers = TextMap::new();
        headers.insert(String::from_str("Content-Type"), String::from_str("application/json"));
        assert(headers@ =~= seq![("Content-Type"@, "application/json"@)]);
        let token = match oauth_token {
            Some(t) => Some(t),
            None => api_key,
        };
        match token {
            Some(t) => {
                let mut v = String::from_str("Bearer ");
                v.append(t);
                headers.insert(String::from_str("Authorization"), v);
            },
            None => {},
        }
        match extra_headers {
            Some(e) => {
                let ghost h0 = headers@;
                let ghost ev = e@;
                let mut i: usize = 0;
                assert(ev.subrange(0, 0) =~= Seq::<(Seq<char>, Seq<char>)>::empty());
                while i < e.entries.len()
                    invariant
                        ev == e@,
                        i <= e.entries@.len(),
                        headers@ == set_headers(h0, ev.subrange(0, i as int)),
                    decreases e.entries@.len() - i,
                {
                    let k = e.entries[i].0.clone();
                    let v = e.entries[i].1.clone();
                    headers.insert(k, v);
                    assert(ev.subrange(0, i + 1).drop_last() =~= ev.subrange(0, i as int));
                    i = i + 1;
                }
                assert(ev.subrange(0, i as int) =~= ev);
            },
            None => {},
        }
        headers
    }
}


/// The credentials: every API key, then each OAuth token for a provider without an API
/// key. An API key wins over a token.
pub open spec fn merged_credentials(keys: Seq<(Seq<char>, Seq<char>)>, tokens: Seq<(Seq<char>, Seq<char>)>) -> Seq<(Seq<char>, Seq<char>)>
    decreases tokens.len(),
{
    if tokens.len() == 0 {
        keys
    } else {
        let m = merged_credentials(keys, tokens.drop_last());
        let t = tokens.last();
        if header_index(m, t.0) >= 0 { m } else { m.push(t) }
    }
}

/// Merges OAuth tokens into the API keys; a provider with an API key keeps it.
pub fn merge_credentials(api_keys: &TextMap, oauth_tokens: &TextMap) -> (r: TextMap)
    ensures
        r@ == merged_credentials(api_keys@, oauth_tokens@),
        api_keys.wf() ==> r.wf(),
{
    let mut out = TextMap::new();
    let mut i: usize = 0;
    while i < api_keys.entries.len()
        invariant
            i <= api_keys.entries@.len(),
            out@ =~= api_keys@.subrange(0, i as int),
        decreases api_keys.entries@.len() - i,
    {
        let k = api_keys.entries[i].0.clone();
        let v = api_keys.entries[i].1.clone();
        let ghost before = out@;
        out.entries.push((k, v));
        assert(out@ =~= before.push(api_keys@[i as int]));
        assert(api_keys@.subrange(0, i + 1) =~= api_keys@.subrange(0, i as int).push(api_keys@[i as int]));
        i = i + 1;
    }
    assert(api_keys@.subrange(0, i as int) =~= api_keys@);
    let ghost tv = oauth_tokens@;
    let mut j: usize = 0;
    assert(tv.subrange(0, 0) =~= Seq::<(Seq<char>, Seq<char>)>::empty());
    while j < oauth_tokens.entries.len()
        invariant
            tv == oauth_tokens@,
            j <= oauth_tokens.entries@.len(),
            out@ == merged_credentials(api_keys@, tv.subrange(0, j as int)),
            api_keys.wf() ==> out.wf(),
        decreases oauth_tokens.entries@.len() - j,
    {
        assert(tv.subrange(0, j + 1).drop_last() =~= tv.subrange(0, j as int));
        let name = &oauth_tokens.entries[j].0;
        if out.get(name.as_str()).is_none() {
            proof { lemma_header_index_range(out@, name@); }
            let ghost before = out@;
            out.entries.push((name.clone(), oauth_tokens.entries[j].1.clone()));
            assert(out@ =~= before.push(tv[j as int]));
            proof {
                if names_unique(before) {
                    assert forall|a: int, b: int| 0 <= a < b < out@.len() implies (#[trigger] out@[a]).0 != (#[trigger] out@[b]).0 by {
                        if b == before.len() {
                            assert(out@[a] == before[a]);
                        } else {
                            assert(out@[a] == before[a] && out@[b] == before[b]);
                        }
                    }
                }
            }
        }
        j = j + 1;
    }
    assert(tv.subrange(0, j as int) =~= tv);
    out
}

} // verus!
