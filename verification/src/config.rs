//! The application settings read from the environment: required and
//! optional values, numbers, flags, the insight providers and the choice
//! of the summarizer.
//!
//! The environment is handed in as key/value entries; reading the process
//! environment and the prompt files, and the floating-point sampling
//! parameters of the providers, are left to the caller.
use vstd::prelude::*;
use crate::chars::string_views;
use crate::chars::{
    chars_eq, chars_start_with, slice_chars, spec_is_ascii_digit, starts_with, string_from_chars,
    to_chars, trim, trim_chars, is_ascii_digit,
};
use crate::names::{csv_items, split_csv};
use crate::env::{
    lookup, providers_from_env, providers_upto, provider_list_view, EnvMap, ProviderConfig, ProviderSpec,
};

verus! {

// ---------------------------------------------------------------------------
// Numbers.
// ---------------------------------------------------------------------------

/// The value of a run of ASCII digits.
pub open spec fn digits_value(d: Seq<char>) -> nat
    decreases d.len(),
{
    if d.len() == 0 {
        0
    } else {
        digits_value(d.drop_last()) * 10 + ((d.last() as int) - ('0' as int)) as nat
    }
}

pub open spec fn all_digits(d: Seq<char>) -> bool {
    forall|i: int| 0 <= i < d.len() ==> spec_is_ascii_digit(#[trigger] d[i])
}

/// The number an unsigned integer text denotes: an optional `+` and at
/// least one ASCII digit, as `str::parse` reads unsigned integers.
pub open spec fn decimal_value(s: Seq<char>) -> Option<nat> {
    let d = if s.len() > 0 && s[0] == '+' { s.skip(1) } else { s };
    if d.len() > 0 && all_digits(d) {
        Some(digits_value(d))
    } else {
        None
    }
}

/// The number `s` denotes when it is at most `max`.
pub open spec fn parsed_at_most(s: Seq<char>, max: nat) -> Option<nat> {
    match decimal_value(s) {
        Some(v) => if v <= max { Some(v) } else { None },
        None => None,
    }
}

proof fn lemma_digits_value_monotone(d: Seq<char>, k: int)
    requires
        0 <= k <= d.len(),
        all_digits(d),
    ensures
        digits_value(d.take(k)) <= digits_value(d),
    decreases d.len() - k,
{
    if k < d.len() {
        lemma_digits_value_monotone(d, k + 1);
        assert(d.take(k + 1).drop_last() =~= d.take(k));
        assert(spec_is_ascii_digit(d[k]));
    } else {
        assert(d.take(k) =~= d);
    }
}

/// Reads an unsigned integer no greater than `max`.
pub fn parse_unsigned(s: &str, max: u64) -> (r: Option<u64>)
    ensures
        match r {
            Some(v) => parsed_at_most(s@, max as nat) == Some(v as nat),
            None => parsed_at_most(s@, max as nat) is None,
        },
{
    let v = to_chars(s);
    let start: usize = if v.len() > 0 && v[0] == '+' { 1 } else { 0 };
    let d = slice_chars(&v, start, v.len());
    assert(d@ =~= (if s@.len() > 0 && s@[0] == '+' { s@.skip(1) } else { s@ }));
    if d.len() == 0 {
        return None;
    }
    let mut acc: u64 = 0;
    let mut i: usize = 0;
    while i < d.len()
        invariant
            d@ == (if s@.len() > 0 && s@[0] == '+' { s@.skip(1) } else { s@ }),
            d.len() > 0,
            i <= d.len(),
            acc as nat == digits_value(d@.take(i as int)),
            acc <= max,
            all_digits(d@.take(i as int)),
        decreases d.len() - i,
    {
        let c = d[i];
        assert(d@.take(i + 1).drop_last() =~= d@.take(i as int));
        if !is_ascii_digit(c) {
            assert(!all_digits(d@)) by {
                assert(!spec_is_ascii_digit(d@[i as int]));
            }
            return None;
        }
        let digit = (c as u64) - ('0' as u64);
        assert(all_digits(d@.take(i + 1))) by {
            assert forall|j: int| 0 <= j < i + 1 implies spec_is_ascii_digit(#[trigger] d@.take(i + 1)[j]) by {
                if j < i {
                    assert(d@.take(i + 1)[j] == d@.take(i as int)[j]);
                }
            }
        }
        if (acc as u128) * 10 + (digit as u128) > (max as u128) {
            proof {
                if all_digits(d@) {
                    lemma_digits_value_monotone(d@, i + 1);
                }
            }
            return None;
        }
        acc = acc * 10 + digit;
        i += 1;
    }
    assert(d@.take(d.len() as int) =~= d@);
    Some(acc)
}

// ---------------------------------------------------------------------------
// Text helpers.
// ---------------------------------------------------------------------------

/// `s` equals the lower-case ASCII word `lit` when ASCII upper-case letters
/// of `s` are read as lower-case (`str::eq_ignore_ascii_case` against a
/// lower-case word).
pub open spec fn ci_eq(s: Seq<char>, lit: Seq<char>) -> bool {
    s.len() == lit.len() && forall|i: int|
        0 <= i < s.len() ==> (#[trigger] s[i] == lit[i] || ('A' <= s[i] <= 'Z' && (s[i] as u32) + 32 == (lit[i] as u32)))
}

pub fn eq_ignore_ascii_case(s: &str, lit: &str) -> (r: bool)
    ensures
        r == ci_eq(s@, lit@),
{
    let a = to_chars(s);
    let b = to_chars(lit);
    if a.len() != b.len() {
        return false;
    }
    let mut i: usize = 0;
    while i < a.len()
        invariant
            a@ == s@,
            b@ == lit@,
            a.len() == b.len(),
            i <= a.len(),
            forall|j: int| 0 <= j < i ==> (#[trigger] a@[j] == b@[j] || ('A' <= a@[j] <= 'Z' && (a@[j] as u32) + 32 == (b@[j] as u32))),
        decreases a.len() - i,
    {
        let c = a[i];
        let l = b[i];
        if !(c == l || ('A' <= c && c <= 'Z' && (c as u32) + 32 == (l as u32))) {
            return false;
        }
        i += 1;
    }
    true
}

/// Whether `s` ends with `p`.
pub open spec fn ends_with(s: Seq<char>, p: Seq<char>) -> bool {
    s.len() >= p.len() && s.skip(s.len() - p.len()) == p
}

/// `s` without any number of leading copies of `p` (`str::trim_start_matches`).
pub open spec fn strip_prefixes(s: Seq<char>, p: Seq<char>) -> Seq<char>
    decreases s.len(),
{
    if p.len() > 0 && starts_with(s, p) {
        strip_prefixes(s.skip(p.len() as int), p)
    } else {
        s
    }
}

/// `s` without any number of trailing copies of `p` (`str::trim_end_matches`).
pub open spec fn strip_suffixes(s: Seq<char>, p: Seq<char>) -> Seq<char>
    decreases s.len(),
{
    if p.len() > 0 && ends_with(s, p) {
        strip_suffixes(s.take(s.len() - p.len()), p)
    } else {
        s
    }
}

pub(crate) fn chars_end_with(s: &Vec<char>, p: &Vec<char>) -> (r: bool)
    ensures
        r == ends_with(s@, p@),
{
    if s.len() < p.len() {
        return false;
    }
    let tail = slice_chars(s, s.len() - p.len(), s.len());
    assert(tail@ =~= s@.skip(s.len() - p.len()));
    chars_eq(&tail, p)
}

fn strip_prefixes_exec(s: &Vec<char>, p: &Vec<char>) -> (r: Vec<char>)
    ensures
        r@ == strip_prefixes(s@, p@),
{
    let mut cur = slice_chars(s, 0, s.len());
    assert(cur@ =~= s@);
    if p.len() == 0 {
        return cur;
    }
    while chars_start_with(&cur, p)
        invariant
            p.len() > 0,
            strip_prefixes(cur@, p@) == strip_prefixes(s@, p@),
        decreases cur.len(),
    {
        let next = slice_chars(&cur, p.len(), cur.len());
        assert(next@ =~= cur@.skip(p.len() as int));
        cur = next;
    }
    cur
}

fn strip_suffixes_exec(s: &Vec<char>, p: &Vec<char>) -> (r: Vec<char>)
    ensures
        r@ == strip_suffixes(s@, p@),
{
    let mut cur = slice_chars(s, 0, s.len());
    assert(cur@ =~= s@);
    if p.len() == 0 {
        return cur;
    }
    while chars_end_with(&cur, p)
        invariant
            p.len() > 0,
            strip_suffixes(cur@, p@) == strip_suffixes(s@, p@),
        decreases cur.len(),
    {
        let next = slice_chars(&cur, 0, cur.len() - p.len());
        assert(next@ =~= cur@.take(cur.len() - p.len()));
        cur = next;
    }
    cur
}

/// The prompt variant a file of the prompts directory holds: `default` for
/// `insight.md`, `<v>` for `insight_<v>.md`, none for other files.
pub open spec fn prompt_variant_of(name: Seq<char>) -> Option<Seq<char>> {
    if name == "insight.md"@ {
        Some("default"@)
    } else if starts_with(name, "insight_"@) && ends_with(name, ".md"@) {
        Some(strip_suffixes(strip_prefixes(name, "insight_"@), ".md"@))
    } else {
        None
    }
}

pub fn prompt_variant(name: &str) -> (r: Option<String>)
    ensures
        match r {
            Some(v) => prompt_variant_of(name@) == Some(v@),
            None => prompt_variant_of(name@) is None,
        },
{
    let v = to_chars(name);
    let prefix = to_chars("insight_");
    let suffix = to_chars(".md");
    if chars_eq(&v, &to_chars("insight.md")) {
        Some("default".to_owned())
    } else if chars_start_with(&v, &prefix) && chars_end_with(&v, &suffix) {
        let a = strip_prefixes_exec(&v, &prefix);
        let b = strip_suffixes_exec(&a, &suffix);
        Some(string_from_chars(&b))
    } else {
        None
    }
}

// ---------------------------------------------------------------------------
// Errors.
// ---------------------------------------------------------------------------

/// Why the settings could not be read.
#[derive(Debug, Clone, PartialEq, Eq)]
pub enum ConfigError {
    /// A required variable is not set.
    Missing(String),
    /// A required variable is blank.
    Empty(String),
    /// A required number is not an unsigned integer.
    NotInteger { key: String, value: String },
    /// A required prompt file could not be read.
    PromptFile(String),
    /// Provider slot `i` has no base URL.
    ProviderBaseUrl(usize),
    /// Provider slot `i` has no model.
    ProviderModel(usize),
}

pub enum ConfigErrorView {
    Missing(Seq<char>),
    Empty(Seq<char>),
    NotInteger { key: Seq<char>, value: Seq<char> },
    PromptFile(Seq<char>),
    ProviderBaseUrl(nat),
    ProviderModel(nat),
}

impl View for ConfigError {
    type V = ConfigErrorView;

    open spec fn view(&self) -> ConfigErrorView {
        match self {
            ConfigError::Missing(k) => ConfigErrorView::Missing(k@),
            ConfigError::Empty(k) => ConfigErrorView::Empty(k@),
            ConfigError::NotInteger { key, value } => ConfigErrorView::NotInteger { key: key@, value: value@ },
            ConfigError::PromptFile(f) => ConfigErrorView::PromptFile(f@),
            ConfigError::ProviderBaseUrl(i) => ConfigErrorView::ProviderBaseUrl(*i as nat),
            ConfigError::ProviderModel(i) => ConfigErrorView::ProviderModel(*i as nat),
        }
    }
}

pub open spec fn err_of<T>(r: Result<T, ConfigErrorView>) -> Option<ConfigErrorView> {
    match r {
        Ok(_) => None,
        Err(e) => Some(e),
    }
}

// ---------------------------------------------------------------------------
// Single values.
// ---------------------------------------------------------------------------

pub type Entries = Seq<(Seq<char>, Seq<char>)>;

/// A required unsigned number.
pub open spec fn required_usize(e: Entries, key: Seq<char>) -> Result<nat, ConfigErrorView> {
    match lookup(e, key) {
        None => Err(ConfigErrorView::Missing(key)),
        Some(v) => match parsed_at_most(v, usize::MAX as nat) {
            Some(n) => Ok(n),
            None => Err(ConfigErrorView::NotInteger { key, value: v }),
        },
    }
}

/// A required value that is not blank.
pub open spec fn required_text(e: Entries, key: Seq<char>) -> Result<Seq<char>, ConfigErrorView> {
    match lookup(e, key) {
        None => Err(ConfigErrorView::Missing(key)),
        Some(v) => if trim(v).len() == 0 { Err(ConfigErrorView::Empty(key)) } else { Ok(v) },
    }
}

/// An unsigned number, or `default` when unset or not a number.
pub open spec fn usize_or(e: Entries, key: Seq<char>, default: nat) -> nat {
    match lookup(e, key) {
        Some(v) => match parsed_at_most(v, usize::MAX as nat) {
            Some(n) => n,
            None => default,
        },
        None => default,
    }
}

/// A value that is set and not empty.
pub open spec fn nonempty_value(e: Entries, key: Seq<char>) -> Option<Seq<char>> {
    match lookup(e, key) {
        Some(v) => if v.len() > 0 { Some(v) } else { None },
        None => None,
    }
}

pub open spec fn opt_view(o: Option<String>) -> Option<Seq<char>> {
    match o {
        Some(s) => Some(s@),
        None => None,
    }
}

fn key_string(key: &str) -> (r: String)
    ensures
        r@ == key@,
{
    key.to_owned()
}

fn get_required_usize(env: &EnvMap, key: &str) -> (r: Result<usize, ConfigError>)
    ensures
        match r {
            Ok(n) => required_usize(env@, key@) == Ok::<nat, ConfigErrorView>(n as nat),
            Err(err) => required_usize(env@, key@) == Err::<nat, ConfigErrorView>(err@),
        },
{
    match env.get(key) {
        None => Err(ConfigError::Missing(key_string(key))),
        Some(v) => match parse_unsigned(v.as_str(), usize::MAX as u64) {
            Some(n) => Ok(n as usize),
            None => Err(ConfigError::NotInteger { key: key_string(key), value: v }),
        },
    }
}

fn get_required_text(env: &EnvMap, key: &str) -> (r: Result<String, ConfigError>)
    ensures
        match r {
            Ok(v) => required_text(env@, key@) == Ok::<Seq<char>, ConfigErrorView>(v@),
            Err(err) => required_text(env@, key@) == Err::<Seq<char>, ConfigErrorView>(err@),
        },
{
    match env.get(key) {
        None => Err(ConfigError::Missing(key_string(key))),
        Some(v) => {
            let t = trim_chars(&to_chars(v.as_str()));
            if t.len() == 0 {
                Err(ConfigError::Empty(key_string(key)))
            } else {
                Ok(v)
            }
        },
    }
}

fn get_usize_or(env: &EnvMap, key: &str, default: usize) -> (r: usize)
    ensures
        r as nat == usize_or(env@, key@, default as nat),
{
    match env.get(key) {
        Some(v) => match parse_unsigned(v.as_str(), usize::MAX as u64) {
            Some(n) => n as usize,
            None => default,
        },
        None => default,
    }
}

fn get_nonempty(env: &EnvMap, key: &str) -> (r: Option<String>)
    ensures
        opt_view(r) == nonempty_value(env@, key@),
{
    match env.get(key) {
        Some(v) => if v.as_str().is_empty() { None } else { Some(v) },
        None => None,
    }
}

// ---------------------------------------------------------------------------
// Providers.
// ---------------------------------------------------------------------------

/// An insight provider as the settings hold it. Its sampling temperature
/// and nucleus cutoff are read by the caller from the slot's variables.
#[derive(Debug, Clone)]
pub struct InsightSettings {
    pub name: String,
    pub provider_type: String,
    pub base_url: String,
    pub api_keys: Vec<String>,
    pub model: String,
    pub max_tokens: u32,
    pub reasoning_effort: Option<String>,
    pub output_config_effort: Option<String>,
    pub is_digest: bool,
    pub is_comment: bool,
    pub enabled: bool,
}

/// The error of provider slot `i`, if its base URL or model is missing.
pub open spec fn provider_error(i: nat, p: ProviderSpec) -> Option<ConfigErrorView> {
    if p.base_url.len() == 0 {
        Some(ConfigErrorView::ProviderBaseUrl(i))
    } else if p.model.len() == 0 {
        Some(ConfigErrorView::ProviderModel(i))
    } else {
        None
    }
}

pub open spec fn nonempty_text(s: Seq<char>) -> Option<Seq<char>> {
    if s.len() > 0 { Some(s) } else { None }
}

/// The settings of a provider, read from its variables.
pub open spec fn insight_matches(p: ProviderSpec, s: InsightSettings) -> bool {
    &&& s.name@ == p.name
    &&& s.provider_type@ == p.provider_type
    &&& s.base_url@ == p.base_url
    &&& string_views(s.api_keys@) == p.api_keys
    &&& s.model@ == p.model
    &&& s.max_tokens as nat == (match parsed_at_most(p.max_tokens, u32::MAX as nat) {
        Some(v) => v,
        None => 0,
    })
    &&& opt_view(s.reasoning_effort) == nonempty_text(p.reasoning_effort)
    &&& opt_view(s.output_config_effort) == nonempty_text(p.reasoning_effort)
    &&& s.is_digest == ci_eq(p.is_digest, "true"@)
    &&& s.is_comment == ci_eq(p.is_comment, "true"@)
    &&& s.enabled == !ci_eq(p.enabled, "false"@)
}

fn nonempty_string(s: &String) -> (r: Option<String>)
    ensures
        opt_view(r) == nonempty_text(s@),
{
    if s.as_str().is_empty() { None } else { Some(s.clone()) }
}

fn insight_settings(i: usize, p: &ProviderConfig) -> (r: Result<InsightSettings, ConfigError>)
    ensures
        match r {
            Ok(s) => provider_error(i as nat, p@) is None && insight_matches(p@, s),
            Err(err) => provider_error(i as nat, p@) == Some(err@),
        },
{
    if p.base_url.as_str().is_empty() {
        return Err(ConfigError::ProviderBaseUrl(i));
    }
    if p.model.as_str().is_empty() {
        return Err(ConfigError::ProviderModel(i));
    }
    let max_tokens: u32 = match parse_unsigned(p.max_tokens.as_str(), u32::MAX as u64) {
        Some(v) => v as u32,
        None => 0,
    };
    let mut keys: Vec<String> = Vec::new();
    for k in 0..p.api_keys.len()
        invariant
            keys.len() == k,
            string_views(keys@) == string_views(p.api_keys@).take(k as int),
    {
        let key = p.api_keys[k].clone();
        assert(key@ == string_views(p.api_keys@)[k as int]);
        keys.push(key);
        assert(string_views(keys@) =~= string_views(p.api_keys@).take(k + 1));
    }
    assert(string_views(p.api_keys@).take(p.api_keys.len() as int) =~= string_views(p.api_keys@));
    Ok(InsightSettings {
        name: p.name.clone(),
        provider_type: p.provider_type.clone(),
        base_url: p.base_url.clone(),
        api_keys: keys,
        model: p.model.clone(),
        max_tokens,
        reasoning_effort: nonempty_string(&p.reasoning_effort),
        output_config_effort: nonempty_string(&p.reasoning_effort),
        is_digest: eq_ignore_ascii_case(p.is_digest.as_str(), "true"),
        is_comment: eq_ignore_ascii_case(p.is_comment.as_str(), "true"),
        enabled: !eq_ignore_ascii_case(p.enabled.as_str(), "false"),
    })
}

/// The first provider error, in slot order.
pub open spec fn first_provider_error(ps: Seq<(nat, ProviderSpec)>) -> Option<ConfigErrorView>
    decreases ps.len(),
{
    if ps.len() == 0 {
        None
    } else {
        match provider_error(ps[0].0, ps[0].1) {
            Some(e) => Some(e),
            None => first_provider_error(ps.skip(1)),
        }
    }
}

/// `r` is the position of the summarizer among `ps`: the first provider
/// marked as digest provider, or else the first enabled one, or none.
pub open spec fn is_summarizer(ps: Seq<(usize, InsightSettings)>, r: Option<usize>) -> bool {
    match r {
        Some(i) => i < ps.len() && (
            (ps[i as int].1.is_digest && forall|j: int| 0 <= j < i ==> !(#[trigger] ps[j]).1.is_digest)
            || ((forall|j: int| 0 <= j < ps.len() ==> !(#[trigger] ps[j]).1.is_digest)
                && ps[i as int].1.enabled && forall|j: int| 0 <= j < i ==> !(#[trigger] ps[j]).1.enabled)),
        None => forall|j: int| 0 <= j < ps.len() ==> !(#[trigger] ps[j]).1.is_digest && !ps[j].1.enabled,
    }
}

/// The provider that writes summaries: the first one marked as digest
/// provider, or else the first enabled one.
pub fn select_summarizer(ps: &Vec<(usize, InsightSettings)>) -> (r: Option<usize>)
    ensures
        is_summarizer(ps@, r),
{
    let mut i: usize = 0;
    while i < ps.len()
        invariant
            i <= ps.len(),
            forall|j: int| 0 <= j < i ==> !(#[trigger] ps@[j]).1.is_digest,
        decreases ps.len() - i,
    {
        if ps[i].1.is_digest {
            return Some(i);
        }
        i += 1;
    }
    let mut k: usize = 0;
    while k < ps.len()
        invariant
            k <= ps.len(),
            forall|j: int| 0 <= j < ps.len() ==> !(#[trigger] ps@[j]).1.is_digest,
            forall|j: int| 0 <= j < k ==> !(#[trigger] ps@[j]).1.enabled,
        decreases ps.len() - k,
    {
        if ps[k].1.enabled {
            return Some(k);
        }
        k += 1;
    }
    None
}

// ---------------------------------------------------------------------------
// All settings.
// ---------------------------------------------------------------------------

/// The application settings.
#[derive(Debug, Clone)]
pub struct Settings {
    pub llm_max_workers: usize,
    pub llm_max_retries: usize,
    pub pdf_max_workers: usize,
    pub arxiv_query: String,
    pub arxiv_max_results: usize,
    pub arxiv_page_size: usize,
    pub arxiv_categories: Vec<String>,
    pub arxiv_keywords: Vec<String>,
    pub arxiv_fetch_cron: String,
    pub arxiv_cache_ttl_hours: usize,
    pub summarize_prompt: String,
    pub translate_prompt: String,
    pub database_url: String,
    pub web_password: Option<String>,
    /// The providers with the slot each was read from.
    pub insight_providers: Vec<(usize, InsightSettings)>,
    /// Position in `insight_providers` of the summarizer.
    pub summarizer: Option<usize>,
    pub insight_max_workers: usize,
    pub insight_prompt: String,
    pub review_prompt: String,
    pub insight_review_max_attempts: usize,
    pub auto_review_insight: bool,
    pub mineru_api_key: Option<String>,
    pub mineru_base_url: String,
    pub mineru_no_cache: bool,
}

/// The first error, in the order the settings are read.
pub open spec fn first_error(errs: Seq<Option<ConfigErrorView>>) -> Option<ConfigErrorView>
    decreases errs.len(),
{
    if errs.len() == 0 {
        None
    } else {
        match errs[0] {
            Some(e) => Some(e),
            None => first_error(errs.skip(1)),
        }
    }
}

pub open spec fn file_error(content: Option<Seq<char>>, file: Seq<char>) -> Option<ConfigErrorView> {
    match content {
        Some(_) => None,
        None => Some(ConfigErrorView::PromptFile(file)),
    }
}

/// Why the settings cannot be read from the entries `e` and the prompt
/// files (`None` where a file could not be read), if they cannot.
pub open spec fn settings_error(
    e: Entries,
    summarize: Option<Seq<char>>,
    translate: Option<Seq<char>>,
    insight: Option<Seq<char>>,
) -> Option<ConfigErrorView> {
    first_error(
        seq![
            err_of(required_usize(e, "LLM_MAX_WORKERS"@)),
            err_of(required_usize(e, "PDF_MAX_WORKERS"@)),
            err_of(required_usize(e, "ARXIV_MAX_RESULTS"@)),
            err_of(required_usize(e, "ARXIV_PAGE_SIZE"@)),
            file_error(summarize, "prompts/summarize.md"@),
            file_error(translate, "prompts/translate.md"@),
            err_of(required_text(e, "DATABASE_URL"@)),
            err_of(required_usize(e, "INSIGHT_MAX_WORKERS"@)),
            file_error(insight, "prompts/insight.md"@),
            first_provider_error(providers_upto(e, 10)),
        ],
    )
}

pub open spec fn text_or(e: Entries, key: Seq<char>, default: Seq<char>) -> Seq<char> {
    match lookup(e, key) {
        Some(v) => v,
        None => default,
    }
}

pub open spec fn providers_match(ps: Seq<(nat, ProviderSpec)>, got: Seq<(usize, InsightSettings)>) -> bool {
    &&& got.len() == ps.len()
    &&& forall|k: int| 0 <= k < ps.len() ==> (#[trigger] got[k]).0 as nat == ps[k].0 && insight_matches(ps[k].1, got[k].1)
}

/// The settings read from the entries `e` and the prompt files.
pub open spec fn settings_match(
    e: Entries,
    summarize: Seq<char>,
    translate: Seq<char>,
    insight: Seq<char>,
    review: Option<Seq<char>>,
    s: Settings,
) -> bool {
    &&& Ok::<nat, ConfigErrorView>(s.llm_max_workers as nat) == required_usize(e, "LLM_MAX_WORKERS"@)
    &&& s.llm_max_retries as nat == usize_or(e, "LLM_MAX_RETRIES"@, 48)
    &&& Ok::<nat, ConfigErrorView>(s.pdf_max_workers as nat) == required_usize(e, "PDF_MAX_WORKERS"@)
    &&& s.arxiv_query@ == text_or(e, "ARXIV_QUERY"@, Seq::empty())
    &&& Ok::<nat, ConfigErrorView>(s.arxiv_max_results as nat) == required_usize(e, "ARXIV_MAX_RESULTS"@)
    &&& Ok::<nat, ConfigErrorView>(s.arxiv_page_size as nat) == required_usize(e, "ARXIV_PAGE_SIZE"@)
    &&& string_views(s.arxiv_categories@) == csv_items(text_or(e, "ARXIV_CATEGORIES"@, Seq::empty()))
    &&& string_views(s.arxiv_keywords@) == csv_items(text_or(e, "ARXIV_KEYWORDS"@, Seq::empty()))
    &&& s.arxiv_fetch_cron@ == (match lookup(e, "ARXIV_FETCH_CRON"@) {
        Some(v) => trim(v),
        None => "0 30 14 * * *"@,
    })
    &&& s.arxiv_cache_ttl_hours as nat == usize_or(e, "ARXIV_CACHE_TTL_HOURS"@, 48)
    &&& s.summarize_prompt@ == summarize
    &&& s.translate_prompt@ == translate
    &&& Ok::<Seq<char>, ConfigErrorView>(s.database_url@) == required_text(e, "DATABASE_URL"@)
    &&& opt_view(s.web_password) == nonempty_value(e, "WEB_PASSWORD"@)
    &&& providers_match(providers_upto(e, 10), s.insight_providers@)
    &&& is_summarizer(s.insight_providers@, s.summarizer)
    &&& Ok::<nat, ConfigErrorView>(s.insight_max_workers as nat) == required_usize(e, "INSIGHT_MAX_WORKERS"@)
    &&& s.insight_prompt@ == insight
    &&& s.review_prompt@ == (match review {
        Some(r) => r,
        None => Seq::empty(),
    })
    &&& s.insight_review_max_attempts as nat == usize_or(e, "INSIGHT_REVIEW_MAX_ATTEMPTS"@, 1)
    &&& s.auto_review_insight == (match lookup(e, "AUTO_REVIEW_INSIGHT"@) {
        Some(v) => v == "1"@ || ci_eq(v, "true"@),
        None => true,
    })
    &&& opt_view(s.mineru_api_key) == nonempty_value(e, "MINERU_API_KEY"@)
    &&& s.mineru_base_url@ == text_or(e, "MINERU_BASE_URL"@, "https://mineru.net"@)
    &&& s.mineru_no_cache == (match lookup(e, "MINERU_NO_CACHE"@) {
        Some(v) => ci_eq(v, "true"@) || v == "1"@,
        None => false,
    })
}

fn get_text_or(env: &EnvMap, key: &str, default: &str) -> (r: String)
    ensures
        r@ == text_or(env@, key@, default@),
{
    match env.get(key) {
        Some(v) => v,
        None => default.to_owned(),
    }
}

fn str_is(s: &String, lit: &str) -> (r: bool)
    ensures
        r == (s@ == lit@),
{
    chars_eq(&to_chars(s.as_str()), &to_chars(lit))
}

/// Reads the settings from the environment entries `env` and the prompt
/// files (`None` where a file could not be read), stopping at the first
/// problem in the order the settings are read.
pub fn settings_from_env(
    env: &EnvMap,
    summarize_prompt: Option<String>,
    translate_prompt: Option<String>,
    insight_prompt: Option<String>,
    review_prompt: Option<String>,
) -> (r: Result<Settings, ConfigError>)
    ensures
        match r {
            Err(err) => settings_error(env@, opt_view(summarize_prompt), opt_view(translate_prompt), opt_view(insight_prompt)) == Some(err@),
            Ok(s) => settings_error(env@, opt_view(summarize_prompt), opt_view(translate_prompt), opt_view(insight_prompt)) is None
                && settings_match(env@, summarize_prompt.unwrap()@, translate_prompt.unwrap()@, insight_prompt.unwrap()@, opt_view(review_prompt), s),
        },
{
    let ghost e = env@;
    let ghost sv = opt_view(summarize_prompt);
    let ghost tv = opt_view(translate_prompt);
    let ghost iv = opt_view(insight_prompt);
    let ghost se = settings_error(e, sv, tv, iv);
    let ghost errs = seq![
        err_of(required_usize(e, "LLM_MAX_WORKERS"@)),
        err_of(required_usize(e, "PDF_MAX_WORKERS"@)),
        err_of(required_usize(e, "ARXIV_MAX_RESULTS"@)),
        err_of(required_usize(e, "ARXIV_PAGE_SIZE"@)),
        file_error(opt_view(summarize_prompt), "prompts/summarize.md"@),
        file_error(opt_view(translate_prompt), "prompts/translate.md"@),
        err_of(required_text(e, "DATABASE_URL"@)),
        err_of(required_usize(e, "INSIGHT_MAX_WORKERS"@)),
        file_error(opt_view(insight_prompt), "prompts/insight.md"@),
        first_provider_error(providers_upto(e, 10)),
    ];
    proof {
        reveal_with_fuel(first_error, 11);
        assert(errs.skip(1).skip(1).skip(1).skip(1).skip(1).skip(1).skip(1).skip(1).skip(1).skip(1) =~= Seq::<Option<ConfigErrorView>>::empty());
        assert(errs.skip(1) =~= seq![errs[1], errs[2], errs[3], errs[4], errs[5], errs[6], errs[7], errs[8], errs[9]]);
        assert(errs.skip(1).skip(1) =~= seq![errs[2], errs[3], errs[4], errs[5], errs[6], errs[7], errs[8], errs[9]]);
        assert(errs.skip(1).skip(1).skip(1) =~= seq![errs[3], errs[4], errs[5], errs[6], errs[7], errs[8], errs[9]]);
        assert(errs.skip(1).skip(1).skip(1).skip(1) =~= seq![errs[4], errs[5], errs[6], errs[7], errs[8], errs[9]]);
        assert(errs.skip(1).skip(1).skip(1).skip(1).skip(1) =~= seq![errs[5], errs[6], errs[7], errs[8], errs[9]]);
        assert(errs.skip(1).skip(1).skip(1).skip(1).skip(1).skip(1) =~= seq![errs[6], errs[7], errs[8], errs[9]]);
        assert(errs.skip(1).skip(1).skip(1).skip(1).skip(1).skip(1).skip(1) =~= seq![errs[7], errs[8], errs[9]]);
        assert(errs.skip(1).skip(1).skip(1).skip(1).skip(1).skip(1).skip(1).skip(1) =~= seq![errs[8], errs[9]]);
        assert(errs.skip(1).skip(1).skip(1).skip(1).skip(1).skip(1).skip(1).skip(1).skip(1) =~= seq![errs[9]]);
    }
    let llm_max_workers = match get_required_usize(env, "LLM_MAX_WORKERS") {
        Ok(n) => n,
        Err(err) => return Err(err),
    };
    let llm_max_retries = get_usize_or(env, "LLM_MAX_RETRIES", 48);
    let pdf_max_workers = match get_required_usize(env, "PDF_MAX_WORKERS") {
        Ok(n) => n,
        Err(err) => return Err(err),
    };
    proof {
        reveal_strlit("");
        assert(""@ =~= Seq::<char>::empty());
    }
    let arxiv_query = get_text_or(env, "ARXIV_QUERY", "");
    let arxiv_max_results = match get_required_usize(env, "ARXIV_MAX_RESULTS") {
        Ok(n) => n,
        Err(err) => return Err(err),
    };
    let arxiv_page_size = match get_required_usize(env, "ARXIV_PAGE_SIZE") {
        Ok(n) => n,
        Err(err) => return Err(err),
    };
    let arxiv_categories = split_csv(get_text_or(env, "ARXIV_CATEGORIES", "").as_str());
    let arxiv_keywords = split_csv(get_text_or(env, "ARXIV_KEYWORDS", "").as_str());
    let arxiv_fetch_cron = match env.get("ARXIV_FETCH_CRON") {
        Some(v) => string_from_chars(&trim_chars(&to_chars(v.as_str()))),
        None => "0 30 14 * * *".to_owned(),
    };
    let arxiv_cache_ttl_hours = get_usize_or(env, "ARXIV_CACHE_TTL_HOURS", 48);
    if summarize_prompt.is_none() {
        return Err(ConfigError::PromptFile("prompts/summarize.md".to_owned()));
    }
    if translate_prompt.is_none() {
        return Err(ConfigError::PromptFile("prompts/translate.md".to_owned()));
    }
    let database_url = match get_required_text(env, "DATABASE_URL") {
        Ok(v) => v,
        Err(err) => return Err(err),
    };
    let web_password = get_nonempty(env, "WEB_PASSWORD");
    let insight_max_workers = match get_required_usize(env, "INSIGHT_MAX_WORKERS") {
        Ok(n) => n,
        Err(err) => return Err(err),
    };
    if insight_prompt.is_none() {
        return Err(ConfigError::PromptFile("prompts/insight.md".to_owned()));
    }
    let insight_review_max_attempts = get_usize_or(env, "INSIGHT_REVIEW_MAX_ATTEMPTS", 1);
    let auto_review_insight = match env.get("AUTO_REVIEW_INSIGHT") {
        Some(v) => str_is(&v, "1") || eq_ignore_ascii_case(v.as_str(), "true"),
        None => true,
    };
    let raw = providers_from_env(env);
    let ghost ps = providers_upto(e, 10);
    assert(se == first_provider_error(ps));
    assert(ps.skip(0) =~= ps);
    let mut insight_providers: Vec<(usize, InsightSettings)> = Vec::new();
    for k in 0..raw.len()
        invariant
            provider_list_view(raw@) == ps,
            se == first_provider_error(ps),
            se == settings_error(env@, opt_view(summarize_prompt), opt_view(translate_prompt), opt_view(insight_prompt)),
            insight_providers.len() == k,
            forall|q: int| 0 <= q < k ==> provider_error(ps[q].0, ps[q].1) is None,
            forall|q: int| 0 <= q < k ==> (#[trigger] insight_providers@[q]).0 as nat == ps[q].0 && insight_matches(ps[q].1, insight_providers@[q].1),
            first_provider_error(ps) == first_provider_error(ps.skip(k as int)),
    {
        assert(ps[k as int] == (raw@[k as int].0 as nat, raw@[k as int].1@));
        let ghost rest = ps.skip(k as int);
        assert(rest.skip(1) =~= ps.skip(k + 1));
        let slot = raw[k].0;
        match insight_settings(slot, &raw[k].1) {
            Ok(p) => {
                insight_providers.push((slot, p));
            },
            Err(err) => {
                return Err(err);
            },
        }
    }
    assert(ps.skip(raw.len() as int) =~= Seq::<(nat, ProviderSpec)>::empty());
    let mineru_api_key = get_nonempty(env, "MINERU_API_KEY");
    let mineru_base_url = get_text_or(env, "MINERU_BASE_URL", "https://mineru.net");
    let mineru_no_cache = match env.get("MINERU_NO_CACHE") {
        Some(v) => eq_ignore_ascii_case(v.as_str(), "true") || str_is(&v, "1"),
        None => false,
    };
    let summarizer = select_summarizer(&insight_providers);
    let review_prompt = match review_prompt {
        Some(p) => p,
        None => String::new(),
    };
    let summarize_prompt = summarize_prompt.unwrap();
    let translate_prompt = translate_prompt.unwrap();
    let insight_prompt = insight_prompt.unwrap();
    Ok(Settings {
        llm_max_workers,
        llm_max_retries,
        pdf_max_workers,
        arxiv_query,
        arxiv_max_results,
        arxiv_page_size,
        arxiv_categories,
        arxiv_keywords,
        arxiv_fetch_cron,
        arxiv_cache_ttl_hours,
        summarize_prompt,
        translate_prompt,
        database_url,
        web_password,
        insight_providers,
        summarizer,
        insight_max_workers,
        insight_prompt,
        review_prompt,
        insight_review_max_attempts,
        auto_review_insight,
        mineru_api_key,
        mineru_base_url,
        mineru_no_cache,
    })
}


/// The code points of `s`, with those of ASCII upper-case letters moved to
/// the lower-case letters.
pub open spec fn lowered_codes(s: Seq<char>) -> Seq<int> {
    s.map_values(|c: char| if 'A' <= c && c <= 'Z' { (c as u32) + 32 } else { (c as u32) as int })
}

/// The code points of `s`.
pub open spec fn codes(s: Seq<char>) -> Seq<int> {
    s.map_values(|c: char| (c as u32) as int)
}

proof fn lemma_ci_eq_lowered(x: Seq<char>, lit: Seq<char>)
    requires
        forall|i: int| 0 <= i < lit.len() ==> !('A' <= #[trigger] lit[i] && lit[i] <= 'Z'),
    ensures
        ci_eq(x, lit) <==> lowered_codes(x) == codes(lit),
{
    let l = lowered_codes(x);
    let c = codes(lit);
    if ci_eq(x, lit) {
        assert(x.len() == lit.len());
        assert(forall|j: int| 0 <= j < x.len() ==> (#[trigger] x[j] == lit[j] || ('A' <= x[j] <= 'Z' && (x[j] as u32) + 32
            == (lit[j] as u32))));
        assert forall|i: int| 0 <= i < l.len() implies l[i] == c[i] by {
            let xi = x[i];
            assert(xi == lit[i] || ('A' <= xi <= 'Z' && (xi as u32) + 32 == (lit[i] as u32)));
            assert(l[i] == if 'A' <= xi && xi <= 'Z' { (xi as u32) + 32 } else { (xi as u32) as int });
            assert(c[i] == (lit[i] as u32) as int);
        }
        assert(l =~= c);
    }
    if l == c {
        assert(l.len() == c.len());
        assert forall|i: int| 0 <= i < x.len() implies (#[trigger] x[i] == lit[i] || ('A' <= x[i] <= 'Z' && (x[i] as u32) + 32
            == (lit[i] as u32))) by {
            let xi = x[i];
            assert(l[i] == c[i]);
            assert(l[i] == if 'A' <= xi && xi <= 'Z' { (xi as u32) + 32 } else { (xi as u32) as int });
            assert(c[i] == (lit[i] as u32) as int);
            if !('A' <= xi && xi <= 'Z') {
                let u = xi as u32;
                assert(u == (lit[i] as u32));
                vstd::utf8::char_u32_cast(xi, u);
                vstd::utf8::char_u32_cast(lit[i], u);
                assert(xi == lit[i]);
            }
        }
        assert(ci_eq(x, lit));
    }
}

/// The flags of each insight provider follow its variables, with ASCII
/// case ignored: it writes comments exactly when `IS_COMMENT` is `true`,
/// it is a digest provider exactly when `IS_DIGEST` is `true` (an unset or
/// any other value gives `false` for both), and it is enabled unless
/// `ENABLED` is `false`.
pub proof fn provider_flags_follow_variables(
    e: Entries,
    summarize: Seq<char>,
    translate: Seq<char>,
    insight: Seq<char>,
    review: Option<Seq<char>>,
    s: Settings,
)
    requires
        settings_match(e, summarize, translate, insight, review, s),
    ensures
        forall|k: int|
            0 <= k < s.insight_providers@.len() ==> {
                let slot = (#[trigger] s.insight_providers@[k]).0 as nat;
                let p = s.insight_providers@[k].1;
                &&& p.is_comment == (lowered_codes(crate::env::get_or_empty(e, crate::env::provider_key(slot, "IS_COMMENT"@))) == codes("true"@))
                &&& p.is_digest == (lowered_codes(crate::env::get_or_empty(e, crate::env::provider_key(slot, "IS_DIGEST"@))) == codes("true"@))
                &&& p.enabled == (lowered_codes(crate::env::get_or_empty(e, crate::env::provider_key(slot, "ENABLED"@))) != codes("false"@))
            },
{
    reveal_strlit("true");
    reveal_strlit("false");
    let ps = providers_upto(e, 10);
    crate::provider_laws::lemma_providers_upto_facts(e, 10);
    assert forall|k: int| 0 <= k < s.insight_providers@.len() implies {
        let slot = (#[trigger] s.insight_providers@[k]).0 as nat;
        let p = s.insight_providers@[k].1;
        &&& p.is_comment == (lowered_codes(crate::env::get_or_empty(e, crate::env::provider_key(slot, "IS_COMMENT"@)))
            == codes("true"@))
        &&& p.is_digest == (lowered_codes(crate::env::get_or_empty(e, crate::env::provider_key(slot, "IS_DIGEST"@))) == codes("true"@))
        &&& p.enabled == (lowered_codes(crate::env::get_or_empty(e, crate::env::provider_key(slot, "ENABLED"@))) != codes("false"@))
    } by {
        let slot = s.insight_providers@[k].0 as nat;
        assert(slot == ps[k].0);
        assert(insight_matches(ps[k].1, s.insight_providers@[k].1));
        assert(ps[k].1 == crate::env::provider_from_env(e, ps[k].0));
        let q = crate::env::provider_from_env(e, slot);
        lemma_ci_eq_lowered(q.is_comment, "true"@);
        lemma_ci_eq_lowered(q.is_digest, "true"@);
        lemma_ci_eq_lowered(q.enabled, "false"@);
    }
}


proof fn lemma_first_error_none(errs: Seq<Option<ConfigErrorView>>, j: int)
    requires
        first_error(errs) is None,
        0 <= j < errs.len(),
    ensures
        errs[j] is None,
    decreases errs.len(),
{
    if j > 0 {
        assert(errs.skip(1)[j - 1] == errs[j]);
        lemma_first_error_none(errs.skip(1), j - 1);
    }
}

proof fn lemma_no_provider_error(ps: Seq<(nat, ProviderSpec)>, k: int)
    requires
        first_provider_error(ps) is None,
        0 <= k < ps.len(),
    ensures
        provider_error(ps[k].0, ps[k].1) is None,
    decreases ps.len(),
{
    if k > 0 {
        assert(ps.skip(1)[k - 1] == ps[k]);
        lemma_no_provider_error(ps.skip(1), k - 1);
    }
}

/// The insight providers are the slots 1 to 10 whose name is set and not
/// blank, each once, in increasing slot order; each takes its name, base
/// URL, model and API keys from its slot's variables, and its base URL and
/// model are set.
pub proof fn providers_follow_slots(
    e: Entries,
    summarize: Seq<char>,
    translate: Seq<char>,
    insight: Seq<char>,
    review: Option<Seq<char>>,
    s: Settings,
)
    requires
        settings_error(e, Some(summarize), Some(translate), Some(insight)) is None,
        settings_match(e, summarize, translate, insight, review, s),
    ensures
        forall|k: int|
            0 <= k < s.insight_providers@.len() ==> {
                let slot = (#[trigger] s.insight_providers@[k]).0 as nat;
                let p = s.insight_providers@[k].1;
                &&& 1 <= slot <= 10
                &&& crate::env::slot_in_use(e, slot)
                &&& p.name@ == crate::env::get_or_empty(e, crate::env::provider_key(slot, "NAME"@))
                &&& p.base_url@ == crate::env::get_or_empty(e, crate::env::provider_key(slot, "BASE_URL"@))
                &&& p.model@ == crate::env::get_or_empty(e, crate::env::provider_key(slot, "MODEL"@))
                &&& p.base_url@.len() > 0
                &&& p.model@.len() > 0
                &&& string_views(p.api_keys@) == crate::env::provider_api_keys(e, slot)
            },
        forall|k: int, m: int|
            0 <= k < m < s.insight_providers@.len() ==> (#[trigger] s.insight_providers@[k]).0 < (
            #[trigger] s.insight_providers@[m]).0,
        forall|i: nat|
            1 <= i <= 10 && crate::env::slot_in_use(e, i) ==> exists|k: int|
                0 <= k < s.insight_providers@.len() && #[trigger] s.insight_providers@[k].0 == i,
{
    let ps = providers_upto(e, 10);
    crate::provider_laws::lemma_providers_upto_facts(e, 10);
    let errs = seq![
        err_of(required_usize(e, "LLM_MAX_WORKERS"@)),
        err_of(required_usize(e, "PDF_MAX_WORKERS"@)),
        err_of(required_usize(e, "ARXIV_MAX_RESULTS"@)),
        err_of(required_usize(e, "ARXIV_PAGE_SIZE"@)),
        file_error(Some(summarize), "prompts/summarize.md"@),
        file_error(Some(translate), "prompts/translate.md"@),
        err_of(required_text(e, "DATABASE_URL"@)),
        err_of(required_usize(e, "INSIGHT_MAX_WORKERS"@)),
        file_error(Some(insight), "prompts/insight.md"@),
        first_provider_error(ps),
    ];
    lemma_first_error_none(errs, 9);
    assert forall|k: int| 0 <= k < s.insight_providers@.len() implies {
        let slot = (#[trigger] s.insight_providers@[k]).0 as nat;
        let p = s.insight_providers@[k].1;
        &&& 1 <= slot <= 10
        &&& crate::env::slot_in_use(e, slot)
        &&& p.name@ == crate::env::get_or_empty(e, crate::env::provider_key(slot, "NAME"@))
        &&& p.base_url@ == crate::env::get_or_empty(e, crate::env::provider_key(slot, "BASE_URL"@))
        &&& p.model@ == crate::env::get_or_empty(e, crate::env::provider_key(slot, "MODEL"@))
        &&& p.base_url@.len() > 0
        &&& p.model@.len() > 0
        &&& string_views(p.api_keys@) == crate::env::provider_api_keys(e, slot)
    } by {
        assert(s.insight_providers@[k].0 as nat == ps[k].0);
        assert(insight_matches(ps[k].1, s.insight_providers@[k].1));
        assert(ps[k].1 == crate::env::provider_from_env(e, ps[k].0));
        lemma_no_provider_error(ps, k);
    }
    assert forall|k: int, m: int| 0 <= k < m < s.insight_providers@.len() implies (#[trigger] s.insight_providers@[k]).0
        < (#[trigger] s.insight_providers@[m]).0 by {
        crate::provider_laws::providers_listed_by_slot(e, 10, k);
        assert(ps[m].0 == s.insight_providers@[m].0 as nat);
    }
    assert forall|i: nat| 1 <= i <= 10 && crate::env::slot_in_use(e, i) implies exists|k: int|
        0 <= k < s.insight_providers@.len() && #[trigger] s.insight_providers@[k].0 == i by {
        crate::provider_laws::providers_list_every_used_slot(e, 10, i);
        let k = choose|k: int| 0 <= k < ps.len() && #[trigger] ps[k].0 == i;
        assert(s.insight_providers@[k].0 as nat == ps[k].0);
    }
}


/// The summarizer is a digest provider when there is one, the first of
/// them; without one it is the first enabled provider; with neither there
/// is none.
pub proof fn summarizer_prefers_digest_providers(
    e: Entries,
    summarize: Seq<char>,
    translate: Seq<char>,
    insight: Seq<char>,
    review: Option<Seq<char>>,
    s: Settings,
)
    requires
        settings_match(e, summarize, translate, insight, review, s),
    ensures
        ({
            let ps = s.insight_providers@;
            &&& s.summarizer matches Some(i) ==> i < ps.len() && (ps[i as int].1.is_digest || ps[i as int].1.enabled)
            &&& s.summarizer matches Some(i) ==> (ps[i as int].1.is_digest ==> forall|j: int|
                0 <= j < i ==> !(#[trigger] ps[j]).1.is_digest)
            &&& s.summarizer matches Some(i) ==> (!ps[i as int].1.is_digest ==> (forall|j: int|
                0 <= j < ps.len() ==> !(#[trigger] ps[j]).1.is_digest) && forall|j: int|
                0 <= j < i ==> !(#[trigger] ps[j]).1.enabled)
            &&& (exists|j: int| 0 <= j < ps.len() && (#[trigger] ps[j]).1.is_digest) ==> (s.summarizer matches Some(i)
                && ps[i as int].1.is_digest)
            &&& s.summarizer is None ==> forall|j: int| 0 <= j < ps.len() ==> !(#[trigger] ps[j]).1.is_digest && !ps[j].1.enabled
        }),
{
}

} // verus!
