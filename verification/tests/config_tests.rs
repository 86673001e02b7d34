use ripple_reader::config::{
    eq_ignore_ascii_case, parse_unsigned, prompt_variant, settings_from_env, ConfigError,
};
use ripple_reader::env::EnvMap;

fn env(pairs: &[(&str, &str)]) -> EnvMap {
    let mut m = EnvMap::new();
    for (k, v) in pairs {
        m.insert(k.to_string(), v.to_string());
    }
    m
}

const BASE: &[(&str, &str)] = &[
    ("LLM_MAX_WORKERS", "4"),
    ("PDF_MAX_WORKERS", "2"),
    ("ARXIV_MAX_RESULTS", "100"),
    ("ARXIV_PAGE_SIZE", "50"),
    ("DATABASE_URL", "postgres://db"),
    ("INSIGHT_MAX_WORKERS", "3"),
];

fn prompts() -> (Option<String>, Option<String>, Option<String>, Option<String>) {
    (Some("sum".into()), Some("tr".into()), Some("ins".into()), None)
}

#[test]
fn unsigned_numbers() {
    assert_eq!(parse_unsigned("42", u64::MAX), Some(42));
    assert_eq!(parse_unsigned("+7", u64::MAX), Some(7));
    assert_eq!(parse_unsigned("007", u64::MAX), Some(7));
    assert_eq!(parse_unsigned("", u64::MAX), None);
    assert_eq!(parse_unsigned("+", u64::MAX), None);
    assert_eq!(parse_unsigned("-1", u64::MAX), None);
    assert_eq!(parse_unsigned(" 1", u64::MAX), None);
    assert_eq!(parse_unsigned("4294967296", u32::MAX as u64), None);
    assert_eq!(parse_unsigned("4294967295", u32::MAX as u64), Some(4294967295));
    assert_eq!(parse_unsigned("18446744073709551616", u64::MAX), None);
}

#[test]
fn ascii_case_insensitive_words() {
    assert!(eq_ignore_ascii_case("TRUE", "true"));
    assert!(eq_ignore_ascii_case("True", "true"));
    assert!(!eq_ignore_ascii_case("truth", "true"));
    assert!(!eq_ignore_ascii_case("yes", "true"));
}

#[test]
fn prompt_variants() {
    assert_eq!(prompt_variant("insight.md"), Some("default".to_string()));
    assert_eq!(prompt_variant("insight_short.md"), Some("short".to_string()));
    assert_eq!(prompt_variant("insight_insight_x.md.md"), Some("x".to_string()));
    assert_eq!(prompt_variant("review.md"), None);
    assert_eq!(prompt_variant("insight_x.txt"), None);
}

#[test]
fn defaults_and_required_values() {
    let (s, t, i, r) = prompts();
    let cfg = settings_from_env(&env(BASE), s, t, i, r).unwrap();
    assert_eq!(cfg.llm_max_workers, 4);
    assert_eq!(cfg.llm_max_retries, 48);
    assert_eq!(cfg.arxiv_fetch_cron, "0 30 14 * * *");
    assert_eq!(cfg.arxiv_cache_ttl_hours, 48);
    assert_eq!(cfg.insight_review_max_attempts, 1);
    assert!(cfg.auto_review_insight);
    assert_eq!(cfg.mineru_base_url, "https://mineru.net");
    assert!(!cfg.mineru_no_cache);
    assert_eq!(cfg.web_password, None);
    assert_eq!(cfg.review_prompt, "");
    assert!(cfg.insight_providers.is_empty());
    assert_eq!(cfg.summarizer, None);
}

#[test]
fn first_missing_value_is_reported() {
    let (s, t, i, r) = prompts();
    assert_eq!(
        settings_from_env(&env(&BASE[1..]), s, t, i, r).unwrap_err(),
        ConfigError::Missing("LLM_MAX_WORKERS".to_string())
    );
    let mut pairs = BASE.to_vec();
    pairs[1] = ("PDF_MAX_WORKERS", "two");
    let (s, t, i, r) = prompts();
    assert_eq!(
        settings_from_env(&env(&pairs), s, t, i, r).unwrap_err(),
        ConfigError::NotInteger { key: "PDF_MAX_WORKERS".to_string(), value: "two".to_string() }
    );
    let mut pairs = BASE.to_vec();
    pairs[4] = ("DATABASE_URL", "   ");
    let (s, t, i, r) = prompts();
    assert_eq!(
        settings_from_env(&env(&pairs), s, t, i, r).unwrap_err(),
        ConfigError::Empty("DATABASE_URL".to_string())
    );
    assert_eq!(
        settings_from_env(&env(BASE), Some("s".into()), None, None, None).unwrap_err(),
        ConfigError::PromptFile("prompts/translate.md".to_string())
    );
}

#[test]
fn options_and_lists() {
    let mut pairs = BASE.to_vec();
    pairs.extend_from_slice(&[
        ("ARXIV_CATEGORIES", "cs.AI, cs.LG,"),
        ("ARXIV_FETCH_CRON", "  0 0 * * * *  "),
        ("LLM_MAX_RETRIES", "oops"),
        ("AUTO_REVIEW_INSIGHT", "FALSE"),
        ("MINERU_NO_CACHE", "1"),
        ("WEB_PASSWORD", ""),
        ("MINERU_API_KEY", "key"),
    ]);
    let (s, t, i, _) = prompts();
    let cfg = settings_from_env(&env(&pairs), s, t, i, Some("rev".into())).unwrap();
    assert_eq!(cfg.arxiv_categories, vec!["cs.AI".to_string(), "cs.LG".to_string()]);
    assert_eq!(cfg.arxiv_fetch_cron, "0 0 * * * *");
    assert_eq!(cfg.llm_max_retries, 48);
    assert!(!cfg.auto_review_insight);
    assert!(cfg.mineru_no_cache);
    assert_eq!(cfg.web_password, None);
    assert_eq!(cfg.mineru_api_key, Some("key".to_string()));
    assert_eq!(cfg.review_prompt, "rev");
}

#[test]
fn providers_and_summarizer() {
    let mut pairs = BASE.to_vec();
    pairs.extend_from_slice(&[
        ("INSIGHT_PROVIDER_1_NAME", "a"),
        ("INSIGHT_PROVIDER_1_BASE_URL", "https://a"),
        ("INSIGHT_PROVIDER_1_MODEL", "ma"),
        ("INSIGHT_PROVIDER_1_ENABLED", "False"),
        ("INSIGHT_PROVIDER_2_NAME", "  "),
        ("INSIGHT_PROVIDER_4_NAME", "b"),
        ("INSIGHT_PROVIDER_4_BASE_URL", "https://b"),
        ("INSIGHT_PROVIDER_4_MODEL", "mb"),
        ("INSIGHT_PROVIDER_4_MAX_TOKENS", "2048"),
        ("INSIGHT_PROVIDER_4_API_KEY", "single"),
        ("INSIGHT_PROVIDER_4_REASONING_EFFORT", "high"),
    ]);
    let (s, t, i, r) = prompts();
    let cfg = settings_from_env(&env(&pairs), s, t, i, r).unwrap();
    assert_eq!(cfg.insight_providers.len(), 2);
    let (slot, p) = &cfg.insight_providers[1];
    assert_eq!(*slot, 4);
    assert_eq!(p.max_tokens, 2048);
    assert_eq!(p.api_keys, vec!["single".to_string()]);
    assert_eq!(p.reasoning_effort, Some("high".to_string()));
    assert_eq!(p.output_config_effort, Some("high".to_string()));
    assert!(p.enabled);
    assert!(!cfg.insight_providers[0].1.enabled);
    assert_eq!(cfg.insight_providers[0].1.max_tokens, 0);
    // no digest provider: the first enabled one summarizes
    assert_eq!(cfg.summarizer, Some(1));
}

#[test]
fn provider_without_model_is_an_error() {
    let mut pairs = BASE.to_vec();
    pairs.extend_from_slice(&[("INSIGHT_PROVIDER_3_NAME", "c"), ("INSIGHT_PROVIDER_3_BASE_URL", "https://c")]);
    let (s, t, i, r) = prompts();
    assert_eq!(settings_from_env(&env(&pairs), s, t, i, r).unwrap_err(), ConfigError::ProviderModel(3));
    let mut pairs = BASE.to_vec();
    pairs.push(("INSIGHT_PROVIDER_5_NAME", "c"));
    let (s, t, i, r) = prompts();
    assert_eq!(settings_from_env(&env(&pairs), s, t, i, r).unwrap_err(), ConfigError::ProviderBaseUrl(5));
}

#[test]
fn digest_provider_is_the_summarizer() {
    let mut pairs = BASE.to_vec();
    pairs.extend_from_slice(&[
        ("INSIGHT_PROVIDER_1_NAME", "a"),
        ("INSIGHT_PROVIDER_1_BASE_URL", "https://a"),
        ("INSIGHT_PROVIDER_1_MODEL", "ma"),
        ("INSIGHT_PROVIDER_2_NAME", "b"),
        ("INSIGHT_PROVIDER_2_BASE_URL", "https://b"),
        ("INSIGHT_PROVIDER_2_MODEL", "mb"),
        ("INSIGHT_PROVIDER_2_IS_DIGEST", "TRUE"),
    ]);
    let (s, t, i, r) = prompts();
    let cfg = settings_from_env(&env(&pairs), s, t, i, r).unwrap();
    assert_eq!(cfg.summarizer, Some(1));
    assert!(cfg.insight_providers[1].1.is_digest);
}
