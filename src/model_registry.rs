use vstd::prelude::*;
use vstd::string::{StrSliceExecFns, StringExecFns};
use crate::config::{
    AuthType, AvailableModel, CustomProviderConfig, CustomProvidersConfiguration, ModelConfig,
    ModelsConfiguration, ProviderConfig,
};
use crate::json::text_eq;
use crate::registry::{
    ProviderRegistry, custom_index, find_custom_at, find_model_at, model_index, provider_index,
};
use crate::text_map::{TextMap, header_value};

verus! {

broadcast use vstd::seq::group_seq_axioms, vstd::std_specs::vec::group_vec_axioms;

/// Resolution of model keys to providers.
pub struct ModelRegistry;

/// Providers that need no authentication but are used only when switched on with the
/// credential value `enabled`: local runtimes.
pub open spec fn is_local_runtime(id: Seq<char>) -> bool {
    id == "ollama"@ || id == "lmstudio"@
}

/// Whether provider `id` can be used: a built-in provider without authentication is
/// (a local runtime only when enabled); one with authentication is when a non-empty
/// credential is stored for it; failing that, an enabled custom provider of that id is.
pub open spec fn provider_available_spec(
    id: Seq<char>,
    keys: Seq<(Seq<char>, Seq<char>)>,
    reg: Seq<ProviderConfig>,
    custom: Seq<(String, CustomProviderConfig)>,
) -> bool {
    let p = provider_index(reg, id);
    let c = custom_index(custom, id);
    if p >= 0 && reg[p].auth_type == AuthType::NoAuth {
        if is_local_runtime(id) { header_value(keys, id) == Some("enabled"@) } else { true }
    } else if p >= 0 && (header_value(keys, id) matches Some(v) && v.len() > 0) {
        true
    } else {
        c >= 0 && custom[c].1.enabled
    }
}

/// The first of `ids` that is available.
pub open spec fn first_available(
    ids: Seq<Seq<char>>,
    keys: Seq<(Seq<char>, Seq<char>)>,
    reg: Seq<ProviderConfig>,
    custom: Seq<(String, CustomProviderConfig)>,
) -> Option<Seq<char>>
    decreases ids.len(),
{
    if ids.len() == 0 {
        None
    } else if provider_available_spec(ids[0], keys, reg, custom) {
        Some(ids[0])
    } else {
        first_available(ids.drop_first(), keys, reg, custom)
    }
}

/// The key of the first enabled custom provider.
pub open spec fn first_enabled(custom: Seq<(String, CustomProviderConfig)>) -> Option<Seq<char>>
    decreases custom.len(),
{
    if custom.len() == 0 {
        None
    } else if custom[0].1.enabled {
        Some(custom[0].0@)
    } else {
        first_enabled(custom.drop_first())
    }
}

pub open spec fn texts(v: Seq<String>) -> Seq<Seq<char>> {
    v.map_values(|s: String| s@)
}

pub open spec fn provider_ids(v: Seq<ProviderConfig>) -> Seq<Seq<char>> {
    v.map_values(|p: ProviderConfig| p.id@)
}

/// Number of `@` in `s`.
pub open spec fn at_count(s: Seq<char>) -> nat
    decreases s.len(),
{
    if s.len() == 0 {
        0
    } else {
        at_count(s.drop_last()) + if s.last() == '@' { 1nat } else { 0nat }
    }
}

/// An identifier of the form `model@provider`: exactly one `@`, at position `p`.
pub open spec fn explicit_split(s: Seq<char>, p: int) -> bool {
    0 <= p < s.len() && s[p] == '@' && at_count(s) == 1
}

/// The provider that serves a model key without an explicit provider: the first
/// available of the model's declared providers for a catalogued model; else the first
/// available registered provider, then the first enabled custom provider.
pub open spec fn resolve_spec(
    key: Seq<char>,
    keys: Seq<(Seq<char>, Seq<char>)>,
    reg: Seq<ProviderConfig>,
    custom: Seq<(String, CustomProviderConfig)>,
    models: Seq<(String, ModelConfig)>,
) -> Option<Seq<char>> {
    let m = model_index(models, key);
    if m >= 0 {
        first_available(texts(models[m].1.providers@), keys, reg, custom)
    } else {
        match first_available(provider_ids(reg), keys, reg, custom) {
            Some(p) => Some(p),
            None => first_enabled(custom),
        }
    }
}

pub open spec fn mapped_name(key: Seq<char>, provider: Seq<char>, models: Seq<(String, ModelConfig)>) -> Seq<char> {
    let m = model_index(models, key);
    if m >= 0 {
        match models[m].1.provider_mappings {
            Some(map) => match header_value(map@, provider) {
                Some(v) => v,
                None => key,
            },
            None => key,
        }
    } else {
        key
    }
}

fn ids_of_texts(v: &Vec<String>) -> (r: Vec<String>)
    ensures
        texts(r@) == texts(v@),
{
    let mut out: Vec<String> = Vec::new();
    let mut i: usize = 0;
    while i < v.len()
        invariant
            i <= v@.len(),
            texts(out@) =~= texts(v@).subrange(0, i as int),
        decreases v@.len() - i,
    {
        let ghost before = out@;
        let x = v[i].clone();
        out.push(x);
        assert(texts(out@) =~= texts(before).push(v@[i as int]@));
        assert(texts(v@).subrange(0, i + 1) =~= texts(v@).subrange(0, i as int).push(v@[i as int]@));
        i = i + 1;
    }
    assert(texts(v@).subrange(0, i as int) =~= texts(v@));
    out
}

fn ids_of_providers(v: &Vec<ProviderConfig>) -> (r: Vec<String>)
    ensures
        texts(r@) == provider_ids(v@),
{
    let mut out: Vec<String> = Vec::new();
    let mut i: usize = 0;
    while i < v.len()
        invariant
            i <= v@.len(),
            texts(out@) =~= provider_ids(v@).subrange(0, i as int),
        decreases v@.len() - i,
    {
        let ghost before = out@;
        let x = v[i].id.clone();
        out.push(x);
        assert(texts(out@) =~= texts(before).push(v@[i as int].id@));
        assert(provider_ids(v@).subrange(0, i + 1) =~= provider_ids(v@).subrange(0, i as int).push(v@[i as int].id@));
        i = i + 1;
    }
    assert(provider_ids(v@).subrange(0, i as int) =~= provider_ids(v@));
    out
}

impl ModelRegistry {
    /// Whether provider `provider_id` can be used with the stored credentials.
    pub fn provider_available(
        provider_id: &str,
        api_keys: &TextMap,
        registry: &ProviderRegistry,
        custom_providers: &CustomProvidersConfiguration,
    ) -> (r: bool)
        ensures
            r == provider_available_spec(provider_id@, api_keys@, registry.providers@, custom_providers.providers@),
    {
        let c = find_custom_at(&custom_providers.providers, provider_id);
        let custom_ok = match c {
            Some(i) => custom_providers.providers[i].1.enabled,
            None => false,
        };
        match registry.provider(provider_id) {
            Some(provider) => {
                if provider.auth_type == AuthType::NoAuth {
                    if text_eq(provider_id, "ollama") || text_eq(provider_id, "lmstudio") {
                        return match api_keys.get(provider_id) {
                            Some(v) => text_eq(v.as_str(), "enabled"),
                            None => false,
                        };
                    }
                    return true;
                }
                let has_key = match api_keys.get(provider_id) {
                    Some(v) => !v.as_str().is_empty(),
                    None => false,
                };
                if has_key {
                    return true;
                }
                custom_ok
            },
            None => custom_ok,
        }
    }

    fn first_available_of(
        ids: &Vec<String>,
        api_keys: &TextMap,
        registry: &ProviderRegistry,
        custom_providers: &CustomProvidersConfiguration,
    ) -> (r: Option<String>)
        ensures
            match r {
                Some(p) => first_available(texts(ids@), api_keys@, registry.providers@, custom_providers.providers@) == Some(p@),
                None => first_available(texts(ids@), api_keys@, registry.providers@, custom_providers.providers@) is None,
            },
    {
        let ghost t = texts(ids@);
        let mut i: usize = 0;
        assert(t.subrange(0, t.len() as int) =~= t);
        while i < ids.len()
            invariant
                t == texts(ids@),
                i <= ids@.len(),
                first_available(t, api_keys@, registry.providers@, custom_providers.providers@)
                    == first_available(t.subrange(i as int, t.len() as int), api_keys@, registry.providers@, custom_providers.providers@),
            decreases ids@.len() - i,
        {
            let ghost rest = t.subrange(i as int, t.len() as int);
            assert(rest[0] == ids@[i as int]@);
            if Self::provider_available(ids[i].as_str(), api_keys, registry, custom_providers) {
                return Some(ids[i].clone());
            }
            assert(rest.drop_first() =~= t.subrange(i + 1, t.len() as int));
            i = i + 1;
        }
        None
    }

    /// The provider's own name for a model: its mapping where the catalogue gives one,
    /// else the model key itself.
    pub fn resolve_provider_model_name(
        model_key: &str,
        provider_id: &str,
        config: &ModelsConfiguration,
    ) -> (r: String)
        ensures
            r@ == mapped_name(model_key@, provider_id@, config.models@),
    {
        match find_model_at(&config.models, model_key) {
            Some(m) => match &config.models[m].1.provider_mappings {
                Some(map) => match map.get(provider_id) {
                    Some(v) => v.clone(),
                    None => String::from_str(model_key),
                },
                None => String::from_str(model_key),
            },
            None => String::from_str(model_key),
        }
    }

    /// The (model, provider) pair that serves `model_identifier`. `model@provider` is
    /// taken as it stands; otherwise the provider comes from the catalogue and the
    /// credentials, and the error names the model when none is available.
    pub fn get_model_provider(
        model_identifier: &str,
        api_keys: &TextMap,
        registry: &ProviderRegistry,
        custom_providers: &CustomProvidersConfiguration,
        config: &ModelsConfiguration,
    ) -> (r: Result<(String, String), String>)
        ensures
            (exists|p: int| explicit_split(model_identifier@, p)) ==> forall|p: int|
                explicit_split(model_identifier@, p) ==> (r matches Ok((m, v)) && m@ == model_identifier@.subrange(0, p)
                    && v@ == model_identifier@.subrange(p + 1, model_identifier@.len() as int)),
            !(exists|p: int| explicit_split(model_identifier@, p)) ==> match resolve_spec(
                model_identifier@,
                api_keys@,
                registry.providers@,
                custom_providers.providers@,
                config.models@,
            ) {
                Some(pid) => r matches Ok((m, v)) && m@ == model_identifier@ && v@ == pid,
                None => r matches Err(e) && e@ == "No available provider for model "@ + model_identifier@,
            },
    {
        let n = model_identifier.unicode_len();
        let mut count: usize = 0;
        let mut pos: usize = 0;
        let mut i: usize = 0;
        assert(model_identifier@.subrange(0, 0).len() == 0);
        while i < n
            invariant
                n == model_identifier@.len(),
                i <= n,
                count <= i,
                count == at_count(model_identifier@.subrange(0, i as int)),
                count >= 1 ==> pos < i && model_identifier@[pos as int] == '@'
                    && at_count(model_identifier@.subrange(0, pos as int)) == 0,
            decreases n - i,
        {
            let c = model_identifier.get_char(i);
            assert(model_identifier@.subrange(0, i + 1).drop_last() =~= model_identifier@.subrange(0, i as int));
            if c == '@' {
                if count == 0 {
                    pos = i;
                }
                count = count + 1;
            }
            i = i + 1;
        }
        assert(model_identifier@.subrange(0, n as int) =~= model_identifier@);
        proof {
            lemma_at_positions(model_identifier@);
        }
        if count == 1 {
            assert(explicit_split(model_identifier@, pos as int));
            let model = model_identifier.substring_char(0, pos);
            let provider = model_identifier.substring_char(pos + 1, n);
            return Ok((String::from_str(model), String::from_str(provider)));
        }
        let found = match find_model_at(&config.models, model_identifier) {
            Some(m) => {
                let ids = ids_of_texts(&config.models[m].1.providers);
                Self::first_available_of(&ids, api_keys, registry, custom_providers)
            },
            None => {
                let ids = ids_of_providers(&registry.providers);
                match Self::first_available_of(&ids, api_keys, registry, custom_providers) {
                    Some(p) => Some(p),
                    None => first_enabled_custom(custom_providers),
                }
            },
        };
        match found {
            Some(p) => Ok((String::from_str(model_identifier), p)),
            None => {
                let mut e = String::from_str("No available provider for model ");
                e.append(model_identifier);
                Err(e)
            },
        }
    }
}

/// At most one position splits `s`, and a string with exactly one `@` has one.
pub proof fn lemma_at_positions(s: Seq<char>)
    ensures
        forall|p: int, q: int| explicit_split(s, p) && explicit_split(s, q) ==> p == q,
{
    assert forall|p: int, q: int| explicit_split(s, p) && explicit_split(s, q) implies p == q by {
        if p < q {
            lemma_two_ats(s, p, q);
        } else if q < p {
            lemma_two_ats(s, q, p);
        }
    }
}

proof fn lemma_two_ats(s: Seq<char>, p: int, q: int)
    requires
        0 <= p < q < s.len(),
        s[p] == '@',
        s[q] == '@',
    ensures
        at_count(s) >= 2,
    decreases s.len(),
{
    if q == s.len() - 1 {
        lemma_one_at(s.drop_last(), p);
    } else {
        lemma_two_ats(s.drop_last(), p, q);
    }
}

proof fn lemma_one_at(s: Seq<char>, p: int)
    requires
        0 <= p < s.len(),
        s[p] == '@',
    ensures
        at_count(s) >= 1,
    decreases s.len(),
{
    if p < s.len() - 1 {
        lemma_one_at(s.drop_last(), p);
    }
}

fn first_enabled_custom(custom_providers: &CustomProvidersConfiguration) -> (r: Option<String>)
    ensures
        match r {
            Some(p) => first_enabled(custom_providers.providers@) == Some(p@),
            None => first_enabled(custom_providers.providers@) is None,
        },
{
    let ghost cs = custom_providers.providers@;
    let mut i: usize = 0;
    assert(cs.subrange(0, cs.len() as int) =~= cs);
    while i < custom_providers.providers.len()
        invariant
            cs == custom_providers.providers@,
            i <= cs.len(),
            first_enabled(cs) == first_enabled(cs.subrange(i as int, cs.len() as int)),
        decreases cs.len() - i,
    {
        let ghost rest = cs.subrange(i as int, cs.len() as int);
        assert(rest[0] == cs[i as int]);
        if custom_providers.providers[i].1.enabled {
            return Some(custom_providers.providers[i].0.clone());
        }
        assert(rest.drop_first() =~= cs.subrange(i + 1, cs.len() as int));
        i = i + 1;
    }
    None
}


pub struct AvailV {
    pub key: Seq<char>,
    pub name: Seq<char>,
    pub provider: Seq<char>,
    pub provider_name: Seq<char>,
    pub image_input: bool,
    pub image_output: bool,
    pub audio_input: bool,
    pub input_pricing: Option<Seq<char>>,
}

impl View for AvailableModel {
    type V = AvailV;

    open spec fn view(&self) -> AvailV {
        AvailV {
            key: self.key@,
            name: self.name@,
            provider: self.provider@,
            provider_name: self.provider_name@,
            image_input: self.image_input,
            image_output: self.image_output,
            audio_input: self.audio_input,
            input_pricing: crate::events::opt_text(self.input_pricing),
        }
    }
}

pub open spec fn avails(v: Seq<AvailableModel>) -> Seq<AvailV> {
    v.map_values(|m: AvailableModel| m@)
}

pub open spec fn entry_for(mk: Seq<char>, mc: ModelConfig, pid: Seq<char>, pname: Seq<char>) -> AvailV {
    AvailV {
        key: mk,
        name: mc.name@,
        provider: pid,
        provider_name: pname,
        image_input: mc.image_input,
        image_output: mc.image_output,
        audio_input: mc.audio_input,
        input_pricing: match mc.pricing { Some(p) => Some(p.input@), None => None },
    }
}

/// A model's pairs with the available built-in providers among `pids`.
pub open spec fn builtin_cands(
    mk: Seq<char>,
    mc: ModelConfig,
    pids: Seq<Seq<char>>,
    keys: Seq<(Seq<char>, Seq<char>)>,
    reg: Seq<ProviderConfig>,
    custom: Seq<(String, CustomProviderConfig)>,
) -> Seq<AvailV>
    decreases pids.len(),
{
    if pids.len() == 0 {
        Seq::empty()
    } else {
        let r = builtin_cands(mk, mc, pids.drop_last(), keys, reg, custom);
        let pid = pids.last();
        let p = provider_index(reg, pid);
        if provider_available_spec(pid, keys, reg, custom) && p >= 0 {
            r.push(entry_for(mk, mc, pid, reg[p].name@))
        } else {
            r
        }
    }
}

/// A model's pairs with the enabled custom providers among `pids`.
pub open spec fn custom_cands(
    mk: Seq<char>,
    mc: ModelConfig,
    pids: Seq<Seq<char>>,
    custom: Seq<(String, CustomProviderConfig)>,
) -> Seq<AvailV>
    decreases pids.len(),
{
    if pids.len() == 0 {
        Seq::empty()
    } else {
        let r = custom_cands(mk, mc, pids.drop_last(), custom);
        let pid = pids.last();
        let c = custom_index(custom, pid);
        if c >= 0 && custom[c].1.enabled {
            r.push(entry_for(mk, mc, pid, custom[c].1.name@))
        } else {
            r
        }
    }
}

pub open spec fn pass_builtin(
    models: Seq<(String, ModelConfig)>,
    keys: Seq<(Seq<char>, Seq<char>)>,
    reg: Seq<ProviderConfig>,
    custom: Seq<(String, CustomProviderConfig)>,
) -> Seq<AvailV>
    decreases models.len(),
{
    if models.len() == 0 {
        Seq::empty()
    } else {
        let m = models.last();
        pass_builtin(models.drop_last(), keys, reg, custom) + builtin_cands(m.0@, m.1, texts(m.1.providers@), keys, reg, custom)
    }
}

pub open spec fn pass_custom(models: Seq<(String, ModelConfig)>, custom: Seq<(String, CustomProviderConfig)>) -> Seq<AvailV>
    decreases models.len(),
{
    if models.len() == 0 {
        Seq::empty()
    } else {
        let m = models.last();
        pass_custom(models.drop_last(), custom) + custom_cands(m.0@, m.1, texts(m.1.providers@), custom)
    }
}

pub open spec fn has_pair(d: Seq<AvailV>, key: Seq<char>, provider: Seq<char>) -> bool {
    exists|i: int| 0 <= i < d.len() && (#[trigger] d[i]).key == key && d[i].provider == provider
}

/// `s` without the entries whose (model key, provider) pair came earlier.
pub open spec fn dedup(s: Seq<AvailV>) -> Seq<AvailV>
    decreases s.len(),
{
    if s.len() == 0 {
        Seq::empty()
    } else {
        let d = dedup(s.drop_last());
        if has_pair(d, s.last().key, s.last().provider) { d } else { d.push(s.last()) }
    }
}

/// `a` sorts no later than `b`: code-point order, a prefix first.
pub open spec fn name_le(a: Seq<char>, b: Seq<char>) -> bool
    decreases a.len(),
{
    if a.len() == 0 {
        true
    } else if b.len() == 0 {
        false
    } else if (a[0] as u32) < (b[0] as u32) {
        true
    } else if (a[0] as u32) > (b[0] as u32) {
        false
    } else {
        name_le(a.drop_first(), b.drop_first())
    }
}

/// `x` placed after every entry of the sorted `s` whose name sorts no later than its own.
pub open spec fn insert_by_name(s: Seq<AvailV>, x: AvailV) -> Seq<AvailV>
    decreases s.len(),
{
    if s.len() == 0 {
        seq![x]
    } else if name_le(s.last().name, x.name) {
        s.push(x)
    } else {
        insert_by_name(s.drop_last(), x).push(s.last())
    }
}

/// A stable sort by name.
pub open spec fn sort_by_name(s: Seq<AvailV>) -> Seq<AvailV>
    decreases s.len(),
{
    if s.len() == 0 {
        Seq::empty()
    } else {
        insert_by_name(sort_by_name(s.drop_last()), s.last())
    }
}

/// The available models: every (model, provider) pair of the catalogue whose built-in
/// provider is available, then those whose custom provider is enabled, first seen kept,
/// sorted by display name.
pub open spec fn available_models_spec(
    models: Seq<(String, ModelConfig)>,
    keys: Seq<(Seq<char>, Seq<char>)>,
    reg: Seq<ProviderConfig>,
    custom: Seq<(String, CustomProviderConfig)>,
) -> Seq<AvailV> {
    sort_by_name(dedup(pass_builtin(models, keys, reg, custom) + pass_custom(models, custom)))
}

fn name_le_exec(a: &str, b: &str) -> (r: bool)
    ensures
        r == name_le(a@, b@),
{
    let n = a.unicode_len();
    let m = b.unicode_len();
    let mut i: usize = 0;
    assert(a@.subrange(0, n as int) =~= a@);
    assert(b@.subrange(0, m as int) =~= b@);
    while i < n && i < m
        invariant
            n == a@.len(),
            m == b@.len(),
            i <= n,
            i <= m,
            name_le(a@, b@) == name_le(a@.subrange(i as int, n as int), b@.subrange(i as int, m as int)),
        decreases n - i,
    {
        let c = a.get_char(i);
        let d = b.get_char(i);
        let ghost sa = a@.subrange(i as int, n as int);
        let ghost sb = b@.subrange(i as int, m as int);
        assert(sa[0] == c && sb[0] == d);
        if (c as u32) < (d as u32) {
            return true;
        }
        if (c as u32) > (d as u32) {
            return false;
        }
        assert(sa.drop_first() =~= a@.subrange(i + 1, n as int));
        assert(sb.drop_first() =~= b@.subrange(i + 1, m as int));
        i = i + 1;
    }
    i == n
}

fn clone_model(m: &AvailableModel) -> (r: AvailableModel)
    ensures
        r@ == m@,
{
    AvailableModel {
        key: m.key.clone(),
        name: m.name.clone(),
        provider: m.provider.clone(),
        provider_name: m.provider_name.clone(),
        image_input: m.image_input,
        image_output: m.image_output,
        audio_input: m.audio_input,
        input_pricing: match &m.input_pricing { Some(p) => Some(p.clone()), None => None },
    }
}

fn new_entry(mk: &String, mc: &ModelConfig, pid: &String, pname: &String) -> (r: AvailableModel)
    ensures
        r@ == entry_for(mk@, *mc, pid@, pname@),
{
    AvailableModel {
        key: mk.clone(),
        name: mc.name.clone(),
        provider: pid.clone(),
        provider_name: pname.clone(),
        image_input: mc.image_input,
        image_output: mc.image_output,
        audio_input: mc.audio_input,
        input_pricing: match &mc.pricing { Some(p) => Some(p.input.clone()), None => None },
    }
}

fn push_model(out: &mut Vec<AvailableModel>, x: AvailableModel)
    ensures
        avails(final(out)@) == avails(old(out)@).push(x@),
{
    let ghost before = old(out)@;
    let ghost xv = x@;
    out.push(x);
    assert(avails(out@) =~= avails(before).push(xv));
}

fn contains_pair(d: &Vec<AvailableModel>, key: &String, provider: &String) -> (r: bool)
    ensures
        r == has_pair(avails(d@), key@, provider@),
{
    let mut i: usize = 0;
    while i < d.len()
        invariant
            i <= d@.len(),
            forall|j: int| 0 <= j < i ==> !((#[trigger] avails(d@)[j]).key == key@ && avails(d@)[j].provider == provider@),
        decreases d@.len() - i,
    {
        if text_eq(d[i].key.as_str(), key.as_str()) && text_eq(d[i].provider.as_str(), provider.as_str()) {
            assert(avails(d@)[i as int].key == key@);
            return true;
        }
        assert(avails(d@)[i as int] == d@[i as int]@);
        i = i + 1;
    }
    false
}

fn insert_model(s: Vec<AvailableModel>, x: AvailableModel) -> (r: Vec<AvailableModel>)
    ensures
        avails(r@) == insert_by_name(avails(s@), x@),
    decreases s@.len(),
{
    let mut s = s;
    let ghost sv = avails(s@);
    if s.len() == 0 {
        push_model(&mut s, x);
        return s;
    }
    let last = s.pop().unwrap();
    assert(avails(s@) =~= sv.drop_last());
    if name_le_exec(last.name.as_str(), x.name.as_str()) {
        push_model(&mut s, last);
        push_model(&mut s, x);
        s
    } else {
        let mut r = insert_model(s, x);
        push_model(&mut r, last);
        r
    }
}

impl ModelRegistry {
    /// The available (model, provider) pairs for the stored credentials: see
    /// `available_models_spec`.
    pub fn compute_available_models(
        config: &ModelsConfiguration,
        api_keys: &TextMap,
        registry: &ProviderRegistry,
        custom_providers: &CustomProvidersConfiguration,
    ) -> (r: Vec<AvailableModel>)
        ensures
            avails(r@) == available_models_spec(config.models@, api_keys@, registry.providers@, custom_providers.providers@),
    {
        let ghost ms = config.models@;
        let ghost keys = api_keys@;
        let ghost reg = registry.providers@;
        let ghost custom = custom_providers.providers@;
        let mut cands: Vec<AvailableModel> = Vec::new();
        let mut i: usize = 0;
        assert(ms.subrange(0, 0) =~= Seq::<(String, ModelConfig)>::empty());
        while i < config.models.len()
            invariant
                ms == config.models@,
                keys == api_keys@,
                reg == registry.providers@,
                custom == custom_providers.providers@,
                i <= ms.len(),
                avails(cands@) == pass_builtin(ms.subrange(0, i as int), keys, reg, custom),
            decreases ms.len() - i,
        {
            let mk = &config.models[i].0;
            let mc = &config.models[i].1;
            let ghost base = avails(cands@);
            let ghost pids = texts(mc.providers@);
            let mut j: usize = 0;
            assert(pids.subrange(0, 0) =~= Seq::<Seq<char>>::empty());
            assert(base =~= base + builtin_cands(mk@, *mc, pids.subrange(0, 0), keys, reg, custom));
            while j < mc.providers.len()
                invariant
                    ms == config.models@,
                    keys == api_keys@,
                    reg == registry.providers@,
                    custom == custom_providers.providers@,
                    *mc == ms[i as int].1,
                    pids == texts(mc.providers@),
                    j <= mc.providers@.len(),
                    avails(cands@) == base + builtin_cands(mk@, *mc, pids.subrange(0, j as int), keys, reg, custom),
                decreases mc.providers@.len() - j,
            {
                let pid = &mc.providers[j];
                assert(pids.subrange(0, j + 1).drop_last() =~= pids.subrange(0, j as int));
                let ghost before = avails(cands@);
                if Self::provider_available(pid.as_str(), api_keys, registry, custom_providers) {
                    match registry.provider(pid.as_str()) {
                        Some(provider) => {
                            push_model(&mut cands, new_entry(mk, mc, pid, &provider.name));
                            assert(avails(cands@) =~= base + builtin_cands(mk@, *mc, pids.subrange(0, j + 1), keys, reg, custom));
                        },
                        None => {},
                    }
                }
                j = j + 1;
            }
            assert(pids.subrange(0, j as int) =~= pids);
            assert(ms.subrange(0, i + 1).drop_last() =~= ms.subrange(0, i as int));
            i = i + 1;
        }
        assert(ms.subrange(0, i as int) =~= ms);
        let ghost first = avails(cands@);
        let mut i: usize = 0;
        while i < config.models.len()
            invariant
                ms == config.models@,
                custom == custom_providers.providers@,
                i <= ms.len(),
                avails(cands@) == first + pass_custom(ms.subrange(0, i as int), custom),
            decreases ms.len() - i,
        {
            let mk = &config.models[i].0;
            let mc = &config.models[i].1;
            let ghost base = avails(cands@);
            let ghost pids = texts(mc.providers@);
            let mut j: usize = 0;
            assert(base =~= base + custom_cands(mk@, *mc, pids.subrange(0, 0), custom));
            while j < mc.providers.len()
                invariant
                    ms == config.models@,
                    custom == custom_providers.providers@,
                    *mc == ms[i as int].1,
                    pids == texts(mc.providers@),
                    j <= mc.providers@.len(),
                    avails(cands@) == base + custom_cands(mk@, *mc, pids.subrange(0, j as int), custom),
                decreases mc.providers@.len() - j,
            {
                let pid = &mc.providers[j];
                assert(pids.subrange(0, j + 1).drop_last() =~= pids.subrange(0, j as int));
                match find_custom_at(&custom_providers.providers, pid.as_str()) {
                    Some(c) => {
                        if custom_providers.providers[c].1.enabled {
                            push_model(&mut cands, new_entry(mk, mc, pid, &custom_providers.providers[c].1.name));
                            assert(avails(cands@) =~= base + custom_cands(mk@, *mc, pids.subrange(0, j + 1), custom));
                        }
                    },
                    None => {},
                }
                j = j + 1;
            }
            assert(pids.subrange(0, j as int) =~= pids);
            assert(ms.subrange(0, i + 1).drop_last() =~= ms.subrange(0, i as int));
            assert(pass_custom(ms.subrange(0, i + 1), custom) =~= pass_custom(ms.subrange(0, i as int), custom) + custom_cands(mk@, *mc, pids, custom));
            i = i + 1;
        }
        assert(ms.subrange(0, i as int) =~= ms);
        let ghost all = avails(cands@);
        let mut unique: Vec<AvailableModel> = Vec::new();
        let mut k: usize = 0;
        while k < cands.len()
            invariant
                all == avails(cands@),
                k <= cands@.len(),
                avails(unique@) == dedup(all.subrange(0, k as int)),
            decreases cands@.len() - k,
        {
            assert(all.subrange(0, k + 1).drop_last() =~= all.subrange(0, k as int));
            assert(all[k as int] == cands@[k as int]@);
            if !contains_pair(&unique, &cands[k].key, &cands[k].provider) {
                push_model(&mut unique, clone_model(&cands[k]));
            }
            k = k + 1;
        }
        assert(all.subrange(0, k as int) =~= all);
        let ghost uv = avails(unique@);
        let mut sorted: Vec<AvailableModel> = Vec::new();
        let mut k: usize = 0;
        while k < unique.len()
            invariant
                uv == avails(unique@),
                k <= unique@.len(),
                avails(sorted@) == sort_by_name(uv.subrange(0, k as int)),
            decreases unique@.len() - k,
        {
            assert(uv.subrange(0, k + 1).drop_last() =~= uv.subrange(0, k as int));
            sorted = insert_model(sorted, clone_model(&unique[k]));
            k = k + 1;
        }
        assert(uv.subrange(0, k as int) =~= uv);
        sorted
    }
}

} // verus!
