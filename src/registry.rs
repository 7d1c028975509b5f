use vstd::prelude::*;
use crate::config::{CustomProviderConfig, ModelConfig, ProtocolType, ProviderConfig};
use crate::json::text_eq;
use crate::openai::OpenAiProtocol;
pub use crate::keyed::{index_of, lemma_index_of_prefix, lemma_index_of_range, lemma_index_of_same_keys};

verus! {

broadcast use vstd::seq::group_seq_axioms, vstd::std_specs::vec::group_vec_axioms;

pub open spec fn provider_index(ps: Seq<ProviderConfig>, id: Seq<char>) -> int {
    index_of(ps, id, |c: ProviderConfig| c.id@)
}

pub open spec fn custom_index(cs: Seq<(String, CustomProviderConfig)>, id: Seq<char>) -> int {
    index_of(cs, id, |c: (String, CustomProviderConfig)| c.0@)
}

pub open spec fn model_index(ms: Seq<(String, ModelConfig)>, key: Seq<char>) -> int {
    index_of(ms, key, |m: (String, ModelConfig)| m.0@)
}

pub(crate) fn find_provider(ps: &Vec<ProviderConfig>, id: &str) -> (r: Option<usize>)
    ensures
        r matches Some(p) ==> provider_index(ps@, id@) == p && p < ps@.len(),
        r is None ==> provider_index(ps@, id@) == -1,
{
    let ghost key = |c: ProviderConfig| c.id@;
    let mut i: usize = 0;
    assert(ps@.subrange(0, 0).len() == 0);
    while i < ps.len()
        invariant
            i <= ps@.len(),
            key == (|c: ProviderConfig| c.id@),
            index_of(ps@.subrange(0, i as int), id@, key) == -1,
        decreases ps@.len() - i,
    {
        let found = text_eq(ps[i].id.as_str(), id);
        proof {
            assert(ps@.subrange(0, i + 1).drop_last() =~= ps@.subrange(0, i as int));
        }
        if found {
            proof {
                lemma_index_of_prefix(ps@, id@, key, i + 1);
            }
            return Some(i);
        }
        i = i + 1;
    }
    assert(ps@.subrange(0, i as int) =~= ps@);
    None
}

pub(crate) fn find_custom_at(cs: &Vec<(String, CustomProviderConfig)>, id: &str) -> (r: Option<usize>)
    ensures
        r matches Some(p) ==> custom_index(cs@, id@) == p && p < cs@.len(),
        r is None ==> custom_index(cs@, id@) == -1,
{
    let ghost key = |c: (String, CustomProviderConfig)| c.0@;
    let mut i: usize = 0;
    assert(cs@.subrange(0, 0).len() == 0);
    while i < cs.len()
        invariant
            i <= cs@.len(),
            key == (|c: (String, CustomProviderConfig)| c.0@),
            index_of(cs@.subrange(0, i as int), id@, key) == -1,
        decreases cs@.len() - i,
    {
        let found = text_eq(cs[i].0.as_str(), id);
        proof {
            assert(cs@.subrange(0, i + 1).drop_last() =~= cs@.subrange(0, i as int));
        }
        if found {
            proof {
                lemma_index_of_prefix(cs@, id@, key, i + 1);
            }
            return Some(i);
        }
        i = i + 1;
    }
    assert(cs@.subrange(0, i as int) =~= cs@);
    None
}

pub(crate) fn find_model_at(ms: &Vec<(String, ModelConfig)>, k: &str) -> (r: Option<usize>)
    ensures
        r matches Some(p) ==> model_index(ms@, k@) == p && p < ms@.len(),
        r is None ==> model_index(ms@, k@) == -1,
{
    let ghost key = |m: (String, ModelConfig)| m.0@;
    let mut i: usize = 0;
    assert(ms@.subrange(0, 0).len() == 0);
    while i < ms.len()
        invariant
            i <= ms@.len(),
            key == (|m: (String, ModelConfig)| m.0@),
            index_of(ms@.subrange(0, i as int), k@, key) == -1,
        decreases ms@.len() - i,
    {
        let found = text_eq(ms[i].0.as_str(), k);
        proof {
            assert(ms@.subrange(0, i + 1).drop_last() =~= ms@.subrange(0, i as int));
        }
        if found {
            proof {
                lemma_index_of_prefix(ms@, k@, key, i + 1);
            }
            return Some(i);
        }
        i = i + 1;
    }
    assert(ms@.subrange(0, i as int) =~= ms@);
    None
}

/// The catalogue of built-in providers, in registration order, ids unique.
pub struct ProviderRegistry {
    pub providers: Vec<ProviderConfig>,
}

pub open spec fn ids_unique(ps: Seq<ProviderConfig>) -> bool {
    forall|i: int, j: int| 0 <= i < j < ps.len() ==> (#[trigger] ps[i]).id@ != (#[trigger] ps[j]).id@
}

impl ProviderRegistry {
    pub open spec fn wf(&self) -> bool {
        ids_unique(self.providers@)
    }

    /// A registry of the given providers; a later one with the id of an earlier one
    /// replaces it in place.
    pub fn new(builtin_providers: Vec<ProviderConfig>) -> (r: ProviderRegistry)
        ensures
            r.wf(),
            forall|k: int| 0 <= k < builtin_providers@.len() ==> provider_index(r.providers@, builtin_providers@[k].id@) >= 0,
    {
        let mut r = ProviderRegistry { providers: Vec::new() };
        let mut rest = builtin_providers;
        let ghost all = rest@;
        let ghost n = all.len();
        assert(all.subrange(0, 0).len() == 0);
        while rest.len() > 0
            invariant
                r.wf(),
                rest@.len() <= n,
                n == all.len(),
                rest@ == all.subrange(n - rest@.len(), n as int),
                forall|k: int| 0 <= k < n - rest@.len() ==> provider_index(r.providers@, #[trigger] all[k].id@) >= 0,
            decreases rest@.len(),
        {
            let ghost done = n - rest@.len();
            let p = rest.remove(0);
            assert(p == all[done]);
            r.register_provider(p);
            assert(rest@ =~= all.subrange(n - rest@.len(), n as int));
        }
        r
    }

    /// Inserts a provider, replacing one with the same id.
    pub fn register_provider(&mut self, config: ProviderConfig)
        ensures
            old(self).wf() ==> final(self).wf(),
            provider_index(final(self).providers@, config.id@) >= 0,
            final(self).providers@[provider_index(final(self).providers@, config.id@)] == config,
            forall|k: Seq<char>| k != config.id@ ==> #[trigger] provider_index(final(self).providers@, k) == provider_index(old(self).providers@, k),
            forall|k: Seq<char>| k != config.id@ && #[trigger] provider_index(old(self).providers@, k) >= 0
                ==> final(self).providers@[provider_index(final(self).providers@, k)] == old(self).providers@[provider_index(old(self).providers@, k)],
    {
        let ghost ps = self.providers@;
        let ghost key = |c: ProviderConfig| c.id@;
        let ghost id = config.id@;
        proof { lemma_index_of_range(ps, id, key); }
        match find_provider(&self.providers, config.id.as_str()) {
            Some(p) => {
                self.providers.set(p, config);
                proof {
                    assert forall|k: Seq<char>| k != id implies #[trigger] provider_index(self.providers@, k) == provider_index(ps, k) by {
                        lemma_index_of_same_keys(ps, self.providers@, k, key, key);
                    }
                    lemma_index_of_same_keys(ps, self.providers@, id, key, key);
                    assert forall|k: Seq<char>| k != id && #[trigger] provider_index(ps, k) >= 0
                        implies self.providers@[provider_index(self.providers@, k)] == ps[provider_index(ps, k)] by {
                        lemma_index_of_same_keys(ps, self.providers@, k, key, key);
                        lemma_index_of_range(ps, k, key);
                    }
                }
            },
            None => {
                self.providers.push(config);
                proof {
                    assert(self.providers@.drop_last() =~= ps);
                    assert forall|k: Seq<char>| k != id && #[trigger] provider_index(ps, k) >= 0
                        implies self.providers@[provider_index(self.providers@, k)] == ps[provider_index(ps, k)] by {
                        lemma_index_of_range(ps, k, key);
                    }
                }
            },
        }
    }

    /// The provider with id `id`.
    pub fn provider(&self, id: &str) -> (r: Option<&ProviderConfig>)
        ensures
            match r {
                Some(c) => provider_index(self.providers@, id@) >= 0 && *c == self.providers@[provider_index(self.providers@, id@)],
                None => provider_index(self.providers@, id@) == -1,
            },
    {
        match find_provider(&self.providers, id) {
            Some(p) => Some(&self.providers[p]),
            None => None,
        }
    }

    /// The providers in registration order.
    pub fn providers(&self) -> (r: &Vec<ProviderConfig>)
        ensures
            r@ == self.providers@,
    {
        &self.providers
    }

    /// The protocol engine of a dialect; only the OpenAI-compatible one is built in.
    pub fn protocol(&self, protocol: ProtocolType) -> (r: Option<OpenAiProtocol>)
        ensures
            r is Some <==> protocol == ProtocolType::OpenAiCompatible,
    {
        match protocol {
            ProtocolType::OpenAiCompatible => Some(OpenAiProtocol),
            ProtocolType::Claude => None,
        }
    }
}

} // verus!
