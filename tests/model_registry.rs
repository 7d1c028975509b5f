use llm_engine::config::{
    AuthType, CustomProviderConfig, CustomProviderType, CustomProvidersConfiguration, ModelConfig,
    ModelPricing, ModelsConfiguration, ProtocolType, ProviderConfig,
};
use llm_engine::model_registry::ModelRegistry;
use llm_engine::registry::ProviderRegistry;
use llm_engine::text_map::TextMap;

fn provider_config(id: &str, auth_type: AuthType) -> ProviderConfig {
    ProviderConfig {
        id: id.to_string(),
        name: id.to_string(),
        protocol: ProtocolType::OpenAiCompatible,
        base_url: "https://example.com".to_string(),
        api_key_name: "TEST_API_KEY".to_string(),
        supports_oauth: false,
        supports_coding_plan: false,
        supports_international: false,
        coding_plan_base_url: None,
        international_base_url: None,
        headers: None,
        extra_body: None,
        auth_type,
    }
}

fn text_map(pairs: &[(&str, &str)]) -> TextMap {
    let mut m = TextMap::new();
    for (k, v) in pairs {
        m.insert(k.to_string(), v.to_string());
    }
    m
}

fn build_models_config() -> ModelsConfiguration {
    ModelsConfiguration {
        version: "1".to_string(),
        models: vec![(
            "gpt-4o".to_string(),
            ModelConfig {
                name: "GPT-4o".to_string(),
                image_input: false,
                image_output: false,
                audio_input: false,
                interleaved: false,
                providers: vec!["openai".to_string(), "ollama".to_string(), "custom".to_string()],
                provider_mappings: Some(text_map(&[("ollama", "llama3")])),
                pricing: Some(ModelPricing {
                    input: "1".to_string(),
                    output: "2".to_string(),
                    cached_input: None,
                    cache_creation: None,
                }),
                context_length: None,
            },
        )],
    }
}

fn no_custom_providers() -> CustomProvidersConfiguration {
    CustomProvidersConfiguration { version: "1".to_string(), providers: Vec::new() }
}

#[test]
fn resolve_provider_model_name_uses_mapping() {
    let config = build_models_config();
    let name = ModelRegistry::resolve_provider_model_name("gpt-4o", "ollama", &config);
    assert_eq!(name, "llama3");
}

#[test]
fn resolve_provider_model_name_falls_back_to_key() {
    let config = build_models_config();
    let name = ModelRegistry::resolve_provider_model_name("gpt-4o", "openai", &config);
    assert_eq!(name, "gpt-4o");
}

#[test]
fn get_model_provider_accepts_explicit_provider() {
    let registry = ProviderRegistry::new(vec![provider_config("openai", AuthType::Bearer)]);
    let api_keys = TextMap::new();
    let custom_providers = no_custom_providers();

    let config = build_models_config();
    let (model, provider) =
        ModelRegistry::get_model_provider("gpt-4o@openai", &api_keys, &registry, &custom_providers, &config)
            .expect("resolve provider");
    assert_eq!(model, "gpt-4o");
    assert_eq!(provider, "openai");
}

#[test]
fn compute_available_models_includes_enabled_custom_provider() {
    let config = build_models_config();
    let registry = ProviderRegistry::new(vec![provider_config("openai", AuthType::Bearer)]);
    let api_keys = text_map(&[("openai", "key")]);
    let custom_provider = CustomProviderConfig {
        id: "custom".to_string(),
        name: "Custom".to_string(),
        provider_type: CustomProviderType::OpenAiCompatible,
        base_url: "https://custom".to_string(),
        api_key: "key".to_string(),
        enabled: true,
        description: None,
    };
    let custom_providers = CustomProvidersConfiguration {
        version: "1".to_string(),
        providers: vec![(custom_provider.id.clone(), custom_provider)],
    };

    let available =
        ModelRegistry::compute_available_models(&config, &api_keys, &registry, &custom_providers);
    assert!(available.iter().any(|model| model.provider == "openai"));
    assert!(available.iter().any(|model| model.provider == "custom"));
}

#[test]
fn provider_available_requires_enable_flag_for_ollama() {
    let config = build_models_config();
    let registry = ProviderRegistry::new(vec![provider_config("ollama", AuthType::NoAuth)]);
    let api_keys = TextMap::new();
    let custom_providers = no_custom_providers();

    let available =
        ModelRegistry::compute_available_models(&config, &api_keys, &registry, &custom_providers);
    assert!(available.is_empty());

    let api_keys = text_map(&[("ollama", "enabled")]);
    let available =
        ModelRegistry::compute_available_models(&config, &api_keys, &registry, &custom_providers);
    assert!(!available.is_empty());
}

#[test]
fn get_model_provider_prefers_model_config_providers_over_registry_order() {
    let mut config = build_models_config();
    config.models[0].1.providers = vec!["openai".to_string()];

    let registry = ProviderRegistry::new(vec![
        provider_config("deepseek", AuthType::Bearer),
        provider_config("openai", AuthType::Bearer),
    ]);
    let api_keys = text_map(&[("deepseek", "key"), ("openai", "key")]);
    let custom_providers = no_custom_providers();

    let (model, provider) =
        ModelRegistry::get_model_provider("gpt-4o", &api_keys, &registry, &custom_providers, &config)
            .expect("resolve provider");

    assert_eq!(model, "gpt-4o");
    assert_eq!(provider, "openai");
}

#[test]
fn register_provider_updates_lookup() {
    let mut registry = ProviderRegistry::new(Vec::new());
    registry.register_provider(provider_config("openai", AuthType::Bearer));
    let provider = registry.provider("openai").expect("provider exists");
    assert_eq!(provider.name, "openai");
}
