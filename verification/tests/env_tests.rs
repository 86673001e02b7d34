use ripple_reader::env::{
    delete_provider, env_path, parse_env_content, provider_env_keys, quote_env_value,
    read_providers, remove_env_keys_content, reorder_providers, update_env_content,
    write_provider, EnvError, EnvMap, ProviderConfig,
};

fn provider(name: &str, base_url: &str, keys: &[&str], model: &str) -> ProviderConfig {
    ProviderConfig {
        name: name.to_string(),
        provider_type: String::new(),
        base_url: base_url.to_string(),
        api_keys: keys.iter().map(|k| k.to_string()).collect(),
        model: model.to_string(),
        max_tokens: String::new(),
        reasoning_effort: String::new(),
        user_agent: String::new(),
        temperature: String::new(),
        top_p: String::new(),
        is_digest: String::new(),
        is_comment: String::new(),
        enabled: String::new(),
    }
}

const TWO_PROVIDERS: &str = "# providers\n\
INSIGHT_PROVIDER_1_NAME=first\n\
INSIGHT_PROVIDER_1_BASE_URL=https://a.example\n\
INSIGHT_PROVIDER_1_API_KEY_1=k1\n\
INSIGHT_PROVIDER_1_API_KEY_2=k2\n\
INSIGHT_PROVIDER_1_MODEL=m1\n\
INSIGHT_PROVIDER_3_NAME=third\n\
INSIGHT_PROVIDER_3_API_KEY=single\n\
INSIGHT_PROVIDER_3_MODEL=m3\n";

#[test]
fn parse_skips_comments_and_unquotes() {
    let env = parse_env_content("# comment\n\nA = 1 \nB=\"two words\"\nC='x'\nnot a pair\nA=3\n");
    assert_eq!(env.len(), 3);
    assert_eq!(env.get("A"), Some("3".to_string()));
    assert_eq!(env.get("B"), Some("two words".to_string()));
    assert_eq!(env.get("C"), Some("x".to_string()));
    assert_eq!(env.get("D"), None);
    assert!(env.contains_key("B"));
}

#[test]
fn env_map_insert_replaces() {
    let mut m = EnvMap::new();
    m.insert("K".to_string(), "1".to_string());
    m.insert("L".to_string(), "2".to_string());
    m.insert("K".to_string(), "3".to_string());
    assert_eq!(m.len(), 2);
    assert_eq!(m.get("K"), Some("3".to_string()));
    assert_eq!(m.entry(0), ("K".to_string(), "3".to_string()));
}

#[test]
fn values_are_quoted_only_when_needed() {
    assert_eq!(quote_env_value(""), "");
    assert_eq!(quote_env_value("https://x.y/z-1_2"), "https://x.y/z-1_2");
    assert_eq!(quote_env_value("two words"), "\"two words\"");
    assert_eq!(quote_env_value("a\"b\\c"), "\"a\\\"b\\\\c\"");
}

#[test]
fn update_rewrites_in_place_and_appends_new_keys() {
    let mut updates = EnvMap::new();
    updates.insert("B".to_string(), "x y".to_string());
    updates.insert("C".to_string(), "3".to_string());
    let out = update_env_content("A=1\n# keep\nB=2\n", &updates);
    assert_eq!(out, "A=1\n# keep\nB=\"x y\"\nC=3\n");
}

#[test]
fn update_of_empty_text() {
    let updates = EnvMap::new();
    assert_eq!(update_env_content("", &updates), "\n");
}

#[test]
fn remove_keeps_other_lines() {
    let out = remove_env_keys_content("A=1\nB=2\n#x\n\nC=3\n", &vec!["B".to_string(), "C".to_string()]);
    assert_eq!(out, "A=1\n#x\n\n");
}

#[test]
fn read_after_update_gives_the_new_value() {
    let mut updates = EnvMap::new();
    updates.insert("NEW".to_string(), "v a l".to_string());
    updates.insert("A".to_string(), "9".to_string());
    let text = update_env_content("A=1\nB=2\n", &updates);
    let env = parse_env_content(&text);
    assert_eq!(env.get("NEW"), Some("v a l".to_string()));
    assert_eq!(env.get("A"), Some("9".to_string()));
    assert_eq!(env.get("B"), Some("2".to_string()));
}

#[test]
fn read_after_remove_gives_nothing() {
    let text = remove_env_keys_content("A=1\nB=2\n", &vec!["A".to_string()]);
    let env = parse_env_content(&text);
    assert_eq!(env.get("A"), None);
    assert_eq!(env.get("B"), Some("2".to_string()));
}

#[test]
fn providers_are_read_by_slot() {
    let ps = read_providers(TWO_PROVIDERS);
    assert_eq!(ps.len(), 2);
    assert_eq!(ps[0].0, 1);
    assert_eq!(ps[0].1.name, "first");
    assert_eq!(ps[0].1.api_keys, vec!["k1".to_string(), "k2".to_string()]);
    assert_eq!(ps[1].0, 3);
    assert_eq!(ps[1].1.api_keys, vec!["single".to_string()]);
    assert_eq!(ps[1].1.base_url, "");
}

#[test]
fn provider_env_map_lists_its_keys() {
    let p = provider("n", "u", &["k"], "m");
    let m = p.to_env_map(2);
    assert_eq!(m.get("INSIGHT_PROVIDER_2_NAME"), Some("n".to_string()));
    assert_eq!(m.get("INSIGHT_PROVIDER_2_API_KEY"), Some(String::new()));
    assert_eq!(m.get("INSIGHT_PROVIDER_2_API_KEY_1"), Some("k".to_string()));
    assert_eq!(m.get("INSIGHT_PROVIDER_2_TEMPERATURE"), Some(String::new()));
    assert_eq!(m.get("INSIGHT_PROVIDER_2_TYPE"), None);
    assert_eq!(m.len(), 8);
}

#[test]
fn new_provider_takes_the_first_free_slot() {
    let p = provider("second", "https://b.example", &["kb"], "mb");
    let (text, slot) = write_provider(TWO_PROVIDERS, None, &p).unwrap();
    assert_eq!(slot, 2);
    let ps = read_providers(&text);
    assert_eq!(ps.len(), 3);
    assert_eq!(ps[1].0, 2);
    assert_eq!(ps[1].1.name, "second");
    assert_eq!(ps[1].1.base_url, "https://b.example");
    assert_eq!(ps[1].1.api_keys, vec!["kb".to_string()]);
    assert_eq!(ps[1].1.model, "mb");
}

#[test]
fn updating_a_provider_drops_stale_keys() {
    let p = provider("first", "https://a.example", &["only"], "m1");
    let (text, slot) = write_provider(TWO_PROVIDERS, Some(1), &p).unwrap();
    assert_eq!(slot, 1);
    let ps = read_providers(&text);
    assert_eq!(ps[0].1.api_keys, vec!["only".to_string()]);
}

#[test]
fn no_free_slot_is_an_error() {
    let mut text = String::new();
    for i in 1..=10 {
        text.push_str(&format!("INSIGHT_PROVIDER_{}_NAME=p{}\n", i, i));
    }
    let p = provider("x", "u", &[], "m");
    assert!(matches!(write_provider(&text, None, &p), Err(EnvError::NoFreeSlot)));
}

#[test]
fn deleting_a_provider_frees_its_slot() {
    let text = delete_provider(TWO_PROVIDERS, 1);
    let ps = read_providers(&text);
    assert_eq!(ps.len(), 1);
    assert_eq!(ps[0].0, 3);
    assert!(text.starts_with("# providers\n"));
}

#[test]
fn provider_keys_present_in_the_file() {
    let env = parse_env_content(TWO_PROVIDERS);
    let keys = provider_env_keys(&env, 3);
    assert_eq!(
        keys,
        vec![
            "INSIGHT_PROVIDER_3_NAME".to_string(),
            "INSIGHT_PROVIDER_3_API_KEY".to_string(),
            "INSIGHT_PROVIDER_3_MODEL".to_string(),
        ]
    );
}

#[test]
fn reorder_moves_providers_to_new_slots() {
    let text = reorder_providers(TWO_PROVIDERS, &vec![3, 1]).unwrap();
    let ps = read_providers(&text);
    assert_eq!(ps.len(), 2);
    assert_eq!((ps[0].0, ps[0].1.name.as_str()), (1, "third"));
    assert_eq!((ps[1].0, ps[1].1.name.as_str()), (2, "first"));
    assert_eq!(ps[1].1.api_keys, vec!["k1".to_string(), "k2".to_string()]);
}

#[test]
fn reorder_checks_the_order() {
    assert_eq!(
        reorder_providers(TWO_PROVIDERS, &vec![1]),
        Err(EnvError::OrderLengthMismatch { given: 1, count: 2 })
    );
    assert_eq!(reorder_providers(TWO_PROVIDERS, &vec![1, 5]), Err(EnvError::InvalidIndex(5)));
}

#[test]
fn env_file_choice() {
    assert_eq!(env_path(true), ".env");
    assert_eq!(env_path(false), ".env.example");
}

#[test]
fn writing_a_provider_keeps_the_other_slots() {
    let before = read_providers(TWO_PROVIDERS);
    let p = provider("second \"quoted\"", "https://b.example", &["x", "y"], "mb");
    let (text, slot) = write_provider(TWO_PROVIDERS, Some(3), &p).unwrap();
    assert_eq!(slot, 3);
    let after = read_providers(&text);
    assert_eq!(after[0].0, 1);
    assert_eq!(after[0].1.name, before[0].1.name);
    assert_eq!(after[0].1.base_url, before[0].1.base_url);
    assert_eq!(after[0].1.api_keys, before[0].1.api_keys);
    assert_eq!(after[0].1.model, before[0].1.model);
    assert_eq!(after.len(), 2);
}

#[test]
fn single_quoted_values_read_back() {
    let p = provider("'quoted name'", "'https://q.example'", &["'k1'"], "m");
    let (text, slot) = write_provider(TWO_PROVIDERS, None, &p).unwrap();
    assert_eq!(slot, 2);
    let ps = read_providers(&text);
    let got = &ps.iter().find(|e| e.0 == 2).unwrap().1;
    assert_eq!(got.name, "'quoted name'");
    assert_eq!(got.base_url, "'https://q.example'");
    assert_eq!(got.api_keys, vec!["'k1'".to_string()]);
}

#[test]
fn reorder_three_providers_reads_back_in_new_order() {
    let text = "INSIGHT_PROVIDER_1_NAME=A\nINSIGHT_PROVIDER_1_BASE_URL=a\nINSIGHT_PROVIDER_2_NAME=B\nINSIGHT_PROVIDER_2_BASE_URL=b\nINSIGHT_PROVIDER_3_NAME=C\nINSIGHT_PROVIDER_3_BASE_URL=c\n";
    let out = reorder_providers(text, &vec![3, 1, 2]).unwrap();
    let ps = read_providers(&out);
    let names: Vec<(usize, String)> = ps.iter().map(|(i, p)| (*i, p.name.clone())).collect();
    assert_eq!(names, vec![(1, "C".to_string()), (2, "A".to_string()), (3, "B".to_string())]);
}

#[test]
fn deleting_a_provider_keeps_the_other_lines_in_order() {
    let text = "# settings\nOTHER=1\nINSIGHT_PROVIDER_1_NAME=A\n\nINSIGHT_PROVIDER_2_NAME=B\nINSIGHT_PROVIDER_1_MODEL=m\nLAST=2\n";
    let out = delete_provider(text, 1);
    let lines: Vec<&str> = out.lines().collect();
    assert_eq!(lines, vec!["# settings", "OTHER=1", "", "INSIGHT_PROVIDER_2_NAME=B", "LAST=2"]);
}

#[test]
fn reordering_keeps_the_other_lines_first() {
    let text = "# settings\nOTHER=1\nINSIGHT_PROVIDER_1_NAME=A\n\nINSIGHT_PROVIDER_2_NAME=B\nLAST=2\n";
    let out = reorder_providers(text, &vec![2, 1]).unwrap();
    let lines: Vec<&str> = out.lines().collect();
    assert_eq!(&lines[..4], &["# settings", "OTHER=1", "", "LAST=2"]);
    let ps = read_providers(&out);
    let names: Vec<(usize, String)> = ps.iter().map(|(i, p)| (*i, p.name.clone())).collect();
    assert_eq!(names, vec![(1, "B".to_string()), (2, "A".to_string())]);
}

#[test]
fn lone_quote_and_padded_values_read_back() {
    let p = provider("  padded name ", "'", &["\tkey ", "'"], " m");
    let (text, slot) = write_provider(TWO_PROVIDERS, None, &p).unwrap();
    assert_eq!(slot, 2);
    let ps = read_providers(&text);
    let got = &ps.iter().find(|e| e.0 == 2).unwrap().1;
    assert_eq!(got.name, "  padded name ");
    assert_eq!(got.base_url, "'");
    assert_eq!(got.api_keys, vec!["\tkey ".to_string(), "'".to_string()]);
    assert_eq!(got.model, " m");
}

#[test]
fn updated_lone_quote_and_padded_values_read_back() {
    let mut updates = EnvMap::new();
    updates.insert("Q".to_string(), "'".to_string());
    updates.insert("P".to_string(), "  spaced  ".to_string());
    updates.insert("A".to_string(), "\tx".to_string());
    let text = update_env_content("A=1\nB=2\n", &updates);
    assert_eq!(text, "A=\"\tx\"\nB=2\nQ=\"'\"\nP=\"  spaced  \"\n");
    let env = parse_env_content(&text);
    assert_eq!(env.get("Q"), Some("'".to_string()));
    assert_eq!(env.get("P"), Some("  spaced  ".to_string()));
    assert_eq!(env.get("A"), Some("\tx".to_string()));
    assert_eq!(env.get("B"), Some("2".to_string()));
}

#[test]
fn numbered_keys_above_one_hundred() {
    let text = "INSIGHT_PROVIDER_1_NAME=A\nINSIGHT_PROVIDER_1_API_KEY_150=stale\nINSIGHT_PROVIDER_1_API_KEY_2=old\n";
    let keys: Vec<String> = (1..=101).map(|k| format!("k{}", k)).collect();
    let key_refs: Vec<&str> = keys.iter().map(|k| k.as_str()).collect();
    let p = provider("A", "u", &key_refs, "m");
    let (out, slot) = write_provider(text, Some(1), &p).unwrap();
    assert_eq!(slot, 1);
    let env = parse_env_content(&out);
    assert_eq!(env.get("INSIGHT_PROVIDER_1_API_KEY_101"), Some("k101".to_string()));
    assert_eq!(env.get("INSIGHT_PROVIDER_1_API_KEY_2"), Some("k2".to_string()));
    assert_eq!(env.get("INSIGHT_PROVIDER_1_API_KEY_150"), Some("stale".to_string()));
}

#[test]
fn only_the_first_hundred_api_keys_read_back() {
    let keys: Vec<String> = (1..=103).map(|k| format!("k{}", k)).collect();
    let key_refs: Vec<&str> = keys.iter().map(|k| k.as_str()).collect();
    let p = provider("A", "u", &key_refs, "m");
    let (out, slot) = write_provider("", None, &p).unwrap();
    assert_eq!(slot, 1);
    let ps = read_providers(&out);
    assert_eq!(ps.len(), 1);
    assert_eq!(ps[0].1.api_keys, keys[..100].to_vec());
}
