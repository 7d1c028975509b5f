use vstd::prelude::*;
use crate::json::Json;
use crate::text_map::TextMap;

verus! {

/// The wire dialect a provider speaks.
#[derive(Debug, Clone, Copy, PartialEq, Eq, Structural)]
pub enum ProtocolType {
    OpenAiCompatible,
    Claude,
}

/// How a provider authenticates.
#[derive(Debug, Clone, Copy, PartialEq, Eq, Structural)]
pub enum AuthType {
    NoAuth,
    Bearer,
    ApiKey,
    OAuthBearer,
    TalkCodyJwt,
}

/// A built-in provider.
#[derive(Debug)]
pub struct ProviderConfig {
    pub id: String,
    pub name: String,
    pub protocol: ProtocolType,
    pub base_url: String,
    pub api_key_name: String,
    pub supports_oauth: bool,
    pub supports_coding_plan: bool,
    pub supports_international: bool,
    pub coding_plan_base_url: Option<String>,
    pub international_base_url: Option<String>,
    pub headers: Option<TextMap>,
    pub extra_body: Option<Json>,
    pub auth_type: AuthType,
}

/// What a model is, and which providers serve it.
#[derive(Debug)]
pub struct ModelConfig {
    pub name: String,
    pub image_input: bool,
    pub image_output: bool,
    pub audio_input: bool,
    pub interleaved: bool,
    /// Providers in order of preference.
    pub providers: Vec<String>,
    /// Provider id to the provider's own name for the model.
    pub provider_mappings: Option<TextMap>,
    pub pricing: Option<ModelPricing>,
    pub context_length: Option<u32>,
}

#[derive(Debug)]
pub struct ModelPricing {
    pub input: String,
    pub output: String,
    pub cached_input: Option<String>,
    pub cache_creation: Option<String>,
}

/// The model catalogue: model key to its configuration, keys unique.
#[derive(Debug)]
pub struct ModelsConfiguration {
    pub version: String,
    pub models: Vec<(String, ModelConfig)>,
}

impl ModelsConfiguration {
    /// Model keys are unique.
    pub open spec fn wf(&self) -> bool {
        forall|i: int, j: int| 0 <= i < j < self.models@.len() ==> (#[trigger] self.models@[i]).0@ != (#[trigger] self.models@[j]).0@
    }
}

/// One (model, provider) pair that can be used now.
#[derive(Debug)]
pub struct AvailableModel {
    pub key: String,
    pub name: String,
    pub provider: String,
    pub provider_name: String,
    pub image_input: bool,
    pub image_output: bool,
    pub audio_input: bool,
    pub input_pricing: Option<String>,
}

/// A provider that the user configured.
#[derive(Debug)]
pub struct CustomProviderConfig {
    pub id: String,
    pub name: String,
    pub provider_type: CustomProviderType,
    pub base_url: String,
    pub api_key: String,
    pub enabled: bool,
    pub description: Option<String>,
}

#[derive(Debug, Clone, Copy, PartialEq, Eq, Structural)]
pub enum CustomProviderType {
    OpenAiCompatible,
    Anthropic,
}

/// The user's providers: id to configuration, ids unique.
#[derive(Debug)]
pub struct CustomProvidersConfiguration {
    pub version: String,
    pub providers: Vec<(String, CustomProviderConfig)>,
}

impl CustomProvidersConfiguration {
    /// Provider ids are unique.
    pub open spec fn wf(&self) -> bool {
        forall|i: int, j: int| 0 <= i < j < self.providers@.len() ==> (#[trigger] self.providers@[i]).0@ != (#[trigger] self.providers@[j]).0@
    }
}

/// Tracing context that a request may carry.
#[derive(Debug)]
pub struct TraceContext {
    pub trace_id: Option<String>,
    pub parent_span_id: Option<String>,
    pub span_name: Option<String>,
    pub metadata: Option<TextMap>,
}

/// The answer to a request that starts a stream.
#[derive(Debug)]
pub struct StreamResponse {
    pub request_id: u32,
}

} // verus!
