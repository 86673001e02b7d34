//! What reading `.env` text gives back after a provider was written into a
//! slot.
use vstd::prelude::*;
use crate::chars::{
    decimal, digit_char, trim,
};
use crate::env::{
    api_key_suffix, env_insert, field_suffix, get_or_empty, insert_api_keys, insert_nonempty,
    keys_unique, lemma_lookup_insert, lookup, numbered_api_keys, parse_env, parsable_text,
    present_keys, provider_api_keys, provider_entries, provider_from_env, provider_key, providers_upto,
    provider_key_candidates, slot_in_use, updated_text, without_provider, written_provider, free_slot_from, split_line, strip_cr, text_lines,
    ProviderSpec,
};
use crate::env_laws::{
    assigns_one_of, clean_key, clean_updates, clean_value, lemma_assigned_key_present,
    lemma_other_lines_first, lemma_present_keys_contains, lemma_update_keeps_prefix, read_after_remove,
    read_after_update, writable_value,
};

verus! {

// ---------------------------------------------------------------------------
// Key names.
// ---------------------------------------------------------------------------

proof fn lemma_prefix_cancel(a: Seq<char>, x: Seq<char>, y: Seq<char>)
    requires
        a + x == a + y,
    ensures
        x == y,
{
    assert(x =~= (a + x).skip(a.len() as int));
    assert(y =~= (a + y).skip(a.len() as int));
}

pub open spec fn is_digit_char(c: char) -> bool {
    '0' <= c <= '9'
}

proof fn lemma_decimal_digits(n: nat)
    ensures
        decimal(n).len() >= 1,
        n >= 10 ==> decimal(n).len() >= 2,
        forall|k: int| 0 <= k < decimal(n).len() ==> is_digit_char(#[trigger] decimal(n)[k]),
    decreases n,
{
    if n >= 10 {
        lemma_decimal_digits(n / 10);
        let d = decimal(n / 10);
        assert forall|k: int| 0 <= k < decimal(n).len() implies is_digit_char(#[trigger] decimal(n)[k]) by {
            if k < d.len() {
                assert(decimal(n)[k] == d[k]);
            }
        }
    }
}

proof fn lemma_decimal_injective(a: nat, b: nat)
    requires
        decimal(a) == decimal(b),
    ensures
        a == b,
    decreases a,
{
    lemma_decimal_digits(a);
    lemma_decimal_digits(b);
    if a >= 10 && b >= 10 {
        assert(decimal(a / 10) =~= decimal(a).drop_last());
        assert(decimal(b / 10) =~= decimal(b).drop_last());
        lemma_decimal_injective(a / 10, b / 10);
        assert(decimal(a).last() == digit_char(a % 10));
        assert(decimal(b).last() == digit_char(b % 10));
    } else if a < 10 && b < 10 {
        assert(decimal(a)[0] == digit_char(a));
        assert(decimal(b)[0] == digit_char(b));
    }
}

/// The name part before the suffix: `INSIGHT_PROVIDER_<i>_`.
pub open spec fn slot_prefix(i: nat) -> Seq<char> {
    "INSIGHT_PROVIDER_"@ + decimal(i) + seq!['_']
}

proof fn lemma_key_suffix_cancel(i: nat, s1: Seq<char>, s2: Seq<char>)
    requires
        provider_key(i, s1) == provider_key(i, s2),
    ensures
        s1 == s2,
{
    assert(provider_key(i, s1) == slot_prefix(i) + s1);
    assert(provider_key(i, s2) == slot_prefix(i) + s2);
    lemma_prefix_cancel(slot_prefix(i), s1, s2);
}

/// Characters a key name is made of: capitals, digits and underscores.
pub open spec fn name_char(c: char) -> bool {
    ('A' <= c <= 'Z') || is_digit_char(c) || c == '_'
}

pub open spec fn name_chars(s: Seq<char>) -> bool {
    forall|k: int| 0 <= k < s.len() ==> name_char(#[trigger] s[k])
}

proof fn lemma_field_suffix_facts(j: nat)
    requires
        j < 13,
    ensures
        name_chars(field_suffix(j)),
        field_suffix(j).len() > 0,
        field_suffix(j).last() != '_',
{
    reveal_strlit("NAME");
    reveal_strlit("TYPE");
    reveal_strlit("BASE_URL");
    reveal_strlit("API_KEY");
    reveal_strlit("MODEL");
    reveal_strlit("MAX_TOKENS");
    reveal_strlit("REASONING_EFFORT");
    reveal_strlit("TEMPERATURE");
    reveal_strlit("TOP_P");
    reveal_strlit("USER_AGENT");
    reveal_strlit("IS_DIGEST");
    reveal_strlit("IS_COMMENT");
    reveal_strlit("ENABLED");
}

proof fn lemma_api_suffix_facts(k: nat)
    ensures
        name_chars(api_key_suffix(k)),
        api_key_suffix(k).len() >= 9,
        is_digit_char(api_key_suffix(k).last()),
        forall|j: nat| j < 13 ==> api_key_suffix(k) != field_suffix(j),
{
    reveal_strlit("API_KEY_");
    lemma_decimal_digits(k);
    let s = api_key_suffix(k);
    assert forall|m: int| 0 <= m < s.len() implies name_char(#[trigger] s[m]) by {
        if m >= 8 {
            assert(s[m] == decimal(k)[m - 8]);
        }
    }
    assert(s.last() == decimal(k).last());
    assert forall|j: nat| j < 13 implies api_key_suffix(k) != field_suffix(j) by {
        lemma_field_suffix_facts(j);
        if s == field_suffix(j) {
            assert(!is_digit_char(field_suffix(j).last())) by {
                reveal_strlit("NAME");
                reveal_strlit("TYPE");
                reveal_strlit("BASE_URL");
                reveal_strlit("API_KEY");
                reveal_strlit("MODEL");
                reveal_strlit("MAX_TOKENS");
                reveal_strlit("REASONING_EFFORT");
                reveal_strlit("TEMPERATURE");
                reveal_strlit("TOP_P");
                reveal_strlit("USER_AGENT");
                reveal_strlit("IS_DIGEST");
                reveal_strlit("IS_COMMENT");
                reveal_strlit("ENABLED");
            }
        }
    }
}

proof fn lemma_field_suffixes_distinct(a: nat, b: nat)
    requires
        a < 13,
        b < 13,
        a != b,
    ensures
        field_suffix(a) != field_suffix(b),
{
    reveal_strlit("NAME");
    reveal_strlit("TYPE");
    reveal_strlit("BASE_URL");
    reveal_strlit("API_KEY");
    reveal_strlit("MODEL");
    reveal_strlit("MAX_TOKENS");
    reveal_strlit("REASONING_EFFORT");
    reveal_strlit("TEMPERATURE");
    reveal_strlit("TOP_P");
    reveal_strlit("USER_AGENT");
    reveal_strlit("IS_DIGEST");
    reveal_strlit("IS_COMMENT");
    reveal_strlit("ENABLED");
    if field_suffix(a) == field_suffix(b) {
        assert(field_suffix(a).len() == field_suffix(b).len());
        assert(field_suffix(a)[0] == field_suffix(b)[0]);
        assert(field_suffix(a).last() == field_suffix(b).last());
    }
}

proof fn lemma_api_suffixes_distinct(a: nat, b: nat)
    requires
        a != b,
    ensures
        api_key_suffix(a) != api_key_suffix(b),
{
    if api_key_suffix(a) == api_key_suffix(b) {
        lemma_prefix_cancel("API_KEY_"@, decimal(a), decimal(b));
        lemma_decimal_injective(a, b);
    }
}

/// A key made of a slot prefix and a name suffix can be written and read
/// back as itself.
proof fn lemma_key_clean(i: nat, s: Seq<char>)
    requires
        name_chars(s),
        s.len() > 0,
    ensures
        clean_key(provider_key(i, s)),
{
    reveal_strlit("INSIGHT_PROVIDER_");
    lemma_decimal_digits(i);
    let k = provider_key(i, s);
    let p = "INSIGHT_PROVIDER_"@;
    let d = decimal(i);
    assert(k == p + d + seq!['_'] + s);
    assert forall|m: int| 0 <= m < k.len() implies k[m] != '=' && k[m] != '\n' by {
        if m < p.len() {
            assert(k[m] == p[m]);
        } else if m < p.len() + d.len() {
            assert(k[m] == d[m - p.len()]);
        } else if m == p.len() + d.len() {
        } else {
            assert(k[m] == s[m - p.len() - d.len() - 1]);
        }
    }
    assert(k[0] == 'I');
    assert(k.last() == s.last());
    assert(name_char(s.last())) by {
        assert(s.last() == s[s.len() - 1]);
    }
}

// ---------------------------------------------------------------------------
// The entries written for a provider.
// ---------------------------------------------------------------------------

pub type Entries = Seq<(Seq<char>, Seq<char>)>;

/// Every entry has a clean key and a writable value.
pub open spec fn entries_clean(e: Entries) -> bool {
    forall|m: int| #![trigger e[m]] 0 <= m < e.len() ==> clean_key(e[m].0) && writable_value(e[m].1)
}

proof fn lemma_insert_nonempty(s: Entries, k: Seq<char>, v: Seq<char>, q: Seq<char>)
    requires
        keys_unique(s),
    ensures
        keys_unique(insert_nonempty(s, k, v)),
        lookup(insert_nonempty(s, k, v), q) == if q == k && v.len() > 0 { Some(v) } else { lookup(s, q) },
{
    if v.len() > 0 {
        lemma_lookup_insert(s, k, v, q);
    }
}

proof fn lemma_insert_clean(s: Entries, k: Seq<char>, v: Seq<char>)
    requires
        entries_clean(s),
        clean_key(k),
        writable_value(v),
    ensures
        entries_clean(env_insert(s, k, v)),
        entries_clean(insert_nonempty(s, k, v)),
{
    crate::env::lemma_index_of_key(s, k);
    let t = env_insert(s, k, v);
    assert forall|m: int| 0 <= m < t.len() implies clean_key(#[trigger] t[m].0) && writable_value(t[m].1) by {
        match crate::env::index_of_key(s, k) {
            Some(idx) => {
                if m != idx {
                    assert(t[m] == s[m]);
                }
            },
            None => {
                if m < s.len() {
                    assert(t[m] == s[m]);
                }
            },
        }
    }
}

/// The numbered API keys of slot `i` are the only keys they write.
proof fn lemma_api_keys_lookup(e: Entries, i: nat, keys: Seq<Seq<char>>, q: Seq<char>)
    requires
        keys_unique(e),
    ensures
        keys_unique(insert_api_keys(e, i, keys)),
        (forall|k: nat| 1 <= k ==> q != #[trigger] provider_key(i, api_key_suffix(k))) ==> lookup(insert_api_keys(e, i, keys), q)
            == lookup(e, q),
        forall|k: nat|
            #![trigger provider_key(i, api_key_suffix(k))]
            1 <= k && q == provider_key(i, api_key_suffix(k)) ==> lookup(insert_api_keys(e, i, keys), q) == if k <= keys.len()
                && keys[k - 1].len() > 0 {
                Some(keys[k - 1])
            } else {
                lookup(e, q)
            },
    decreases keys.len(),
{
    if keys.len() > 0 {
        let d = keys.drop_last();
        lemma_api_keys_lookup(e, i, d, q);
        let n = keys.len();
        let kn = provider_key(i, api_key_suffix(n));
        lemma_insert_nonempty(insert_api_keys(e, i, d), kn, keys.last(), q);
        assert forall|k: nat|
            #![trigger provider_key(i, api_key_suffix(k))]
            1 <= k && q == provider_key(i, api_key_suffix(k)) implies lookup(insert_api_keys(e, i, keys), q) == if k
                <= keys.len() && keys[k - 1].len() > 0 {
                Some(keys[k - 1])
            } else {
                lookup(e, q)
            } by {
            if k != n {
                if q == kn {
                    lemma_key_suffix_cancel(i, api_key_suffix(k), api_key_suffix(n));
                    lemma_api_suffixes_distinct(k, n);
                }
                if k < n {
                    assert(d[k - 1] == keys[k - 1]);
                }
            } else {
                assert(keys.last() == keys[k - 1]);
            }
        }
    }
}

proof fn lemma_api_keys_clean(e: Entries, i: nat, keys: Seq<Seq<char>>)
    requires
        entries_clean(e),
        forall|m: int| 0 <= m < keys.len() ==> writable_value(#[trigger] keys[m]),
    ensures
        entries_clean(insert_api_keys(e, i, keys)),
    decreases keys.len(),
{
    if keys.len() > 0 {
        let d = keys.drop_last();
        assert forall|m: int| 0 <= m < d.len() implies writable_value(#[trigger] d[m]) by {
            assert(d[m] == keys[m]);
        }
        lemma_api_keys_clean(e, i, d);
        lemma_api_suffix_facts(keys.len());
        lemma_key_clean(i, api_key_suffix(keys.len()));
        assert(keys.last() == keys[keys.len() - 1]);
        lemma_insert_clean(insert_api_keys(e, i, d), provider_key(i, api_key_suffix(keys.len())), keys.last());
    }
}

pub open spec fn if_set(v: Seq<char>) -> Option<Seq<char>> {
    if v.len() > 0 { Some(v) } else { None }
}

/// What the entries of a provider hold for its field number `j`.
pub open spec fn field_entry(p: ProviderSpec, j: nat) -> Option<Seq<char>> {
    if j == 0 { if_set(p.name) }
    else if j == 1 { if_set(p.provider_type) }
    else if j == 2 { if_set(p.base_url) }
    else if j == 3 { Some(Seq::empty()) }
    else if j == 4 { if_set(p.model) }
    else if j == 5 { if_set(p.max_tokens) }
    else if j == 6 { Some(p.reasoning_effort) }
    else if j == 7 { Some(p.temperature) }
    else if j == 8 { Some(p.top_p) }
    else if j == 9 { if_set(p.user_agent) }
    else if j == 10 { if_set(p.is_digest) }
    else if j == 11 { if_set(p.is_comment) }
    else { if_set(p.enabled) }
}

/// Every field value and API key reads back as itself.
pub open spec fn provider_clean(p: ProviderSpec) -> bool {
    &&& clean_value(p.name)
    &&& clean_value(p.provider_type)
    &&& clean_value(p.base_url)
    &&& clean_value(p.model)
    &&& clean_value(p.max_tokens)
    &&& clean_value(p.reasoning_effort)
    &&& clean_value(p.user_agent)
    &&& clean_value(p.temperature)
    &&& clean_value(p.top_p)
    &&& clean_value(p.is_digest)
    &&& clean_value(p.is_comment)
    &&& clean_value(p.enabled)
    &&& forall|m: int| 0 <= m < p.api_keys.len() ==> clean_value(#[trigger] p.api_keys[m])
}

proof fn lemma_field_keys(i: nat, j: nat)
    requires
        j < 13,
    ensures
        forall|j2: nat| j2 < 13 ==> (provider_key(i, field_suffix(j)) == #[trigger] provider_key(i, field_suffix(j2)) <==> j == j2),
        forall|k: nat| 1 <= k ==> provider_key(i, field_suffix(j)) != #[trigger] provider_key(i, api_key_suffix(k)),
{
    assert forall|j2: nat| j2 < 13 implies (provider_key(i, field_suffix(j)) == #[trigger] provider_key(i, field_suffix(j2)) <==> j == j2) by {
        if j != j2 && provider_key(i, field_suffix(j)) == provider_key(i, field_suffix(j2)) {
            lemma_key_suffix_cancel(i, field_suffix(j), field_suffix(j2));
            lemma_field_suffixes_distinct(j, j2);
        }
    }
    assert forall|k: nat| 1 <= k implies provider_key(i, field_suffix(j)) != #[trigger] provider_key(i, api_key_suffix(k)) by {
        if provider_key(i, field_suffix(j)) == provider_key(i, api_key_suffix(k)) {
            lemma_key_suffix_cancel(i, field_suffix(j), api_key_suffix(k));
            lemma_api_suffix_facts(k);
        }
    }
}

/// The provider entries step by step, each key written with its field
/// number.
pub open spec fn entry_steps(p: ProviderSpec, i: nat) -> Seq<Entries> {
    let e0 = Seq::<(Seq<char>, Seq<char>)>::empty();
    let e1 = insert_nonempty(e0, provider_key(i, field_suffix(0)), p.name);
    let e2 = insert_nonempty(e1, provider_key(i, field_suffix(1)), p.provider_type);
    let e3 = insert_nonempty(e2, provider_key(i, field_suffix(2)), p.base_url);
    let e4 = env_insert(e3, provider_key(i, field_suffix(3)), Seq::empty());
    let e5 = insert_api_keys(e4, i, p.api_keys);
    let e6 = insert_nonempty(e5, provider_key(i, field_suffix(4)), p.model);
    let e7 = insert_nonempty(e6, provider_key(i, field_suffix(5)), p.max_tokens);
    let e8 = env_insert(e7, provider_key(i, field_suffix(6)), p.reasoning_effort);
    let e9 = env_insert(e8, provider_key(i, field_suffix(7)), p.temperature);
    let e10 = env_insert(e9, provider_key(i, field_suffix(8)), p.top_p);
    let e11 = insert_nonempty(e10, provider_key(i, field_suffix(9)), p.user_agent);
    let e12 = insert_nonempty(e11, provider_key(i, field_suffix(10)), p.is_digest);
    let e13 = insert_nonempty(e12, provider_key(i, field_suffix(11)), p.is_comment);
    let e14 = insert_nonempty(e13, provider_key(i, field_suffix(12)), p.enabled);
    seq![e0, e1, e2, e3, e4, e5, e6, e7, e8, e9, e10, e11, e12, e13, e14]
}

proof fn lemma_steps_are_entries(p: ProviderSpec, i: nat)
    ensures
        entry_steps(p, i)[14] == provider_entries(p, i),
{
}

proof fn lemma_entries_lookup(p: ProviderSpec, i: nat, q: Seq<char>)
    ensures
        keys_unique(provider_entries(p, i)),
        forall|j: nat| j < 13 && q == #[trigger] provider_key(i, field_suffix(j)) ==> lookup(provider_entries(p, i), q) == field_entry(p, j),
        forall|k: nat|
            1 <= k && q == #[trigger] provider_key(i, api_key_suffix(k)) ==> lookup(provider_entries(p, i), q) == if k <= p.api_keys.len()
                && p.api_keys[k - 1].len() > 0 {
                Some(p.api_keys[k - 1])
            } else {
                None::<Seq<char>>
            },
{
    let st = entry_steps(p, i);
    lemma_steps_are_entries(p, i);
    let e0 = st[0];
    assert(keys_unique(e0));
    lemma_insert_nonempty(st[0], provider_key(i, field_suffix(0)), p.name, q);
    lemma_insert_nonempty(st[1], provider_key(i, field_suffix(1)), p.provider_type, q);
    lemma_insert_nonempty(st[2], provider_key(i, field_suffix(2)), p.base_url, q);
    lemma_lookup_insert(st[3], provider_key(i, field_suffix(3)), Seq::empty(), q);
    lemma_api_keys_lookup(st[4], i, p.api_keys, q);
    lemma_insert_nonempty(st[5], provider_key(i, field_suffix(4)), p.model, q);
    lemma_insert_nonempty(st[6], provider_key(i, field_suffix(5)), p.max_tokens, q);
    lemma_lookup_insert(st[7], provider_key(i, field_suffix(6)), p.reasoning_effort, q);
    lemma_lookup_insert(st[8], provider_key(i, field_suffix(7)), p.temperature, q);
    lemma_lookup_insert(st[9], provider_key(i, field_suffix(8)), p.top_p, q);
    lemma_insert_nonempty(st[10], provider_key(i, field_suffix(9)), p.user_agent, q);
    lemma_insert_nonempty(st[11], provider_key(i, field_suffix(10)), p.is_digest, q);
    lemma_insert_nonempty(st[12], provider_key(i, field_suffix(11)), p.is_comment, q);
    lemma_insert_nonempty(st[13], provider_key(i, field_suffix(12)), p.enabled, q);
    assert forall|j: nat| j < 13 && q == #[trigger] provider_key(i, field_suffix(j)) implies lookup(provider_entries(p, i), q)
        == field_entry(p, j) by {
        lemma_field_keys(i, j);
        assert(lookup(e0, q) is None);
    }
    assert forall|k: nat|
        1 <= k && q == #[trigger] provider_key(i, api_key_suffix(k)) implies lookup(provider_entries(p, i), q) == if k
            <= p.api_keys.len() && p.api_keys[k - 1].len() > 0 {
            Some(p.api_keys[k - 1])
        } else {
            None::<Seq<char>>
        } by {
        lemma_field_keys(i, 0);
        lemma_field_keys(i, 1);
        lemma_field_keys(i, 2);
        lemma_field_keys(i, 3);
        lemma_field_keys(i, 4);
        lemma_field_keys(i, 5);
        lemma_field_keys(i, 6);
        lemma_field_keys(i, 7);
        lemma_field_keys(i, 8);
        lemma_field_keys(i, 9);
        lemma_field_keys(i, 10);
        lemma_field_keys(i, 11);
        lemma_field_keys(i, 12);
        assert(lookup(e0, q) is None);
    }
}

/// Every field value and API key can be written as one line.
pub open spec fn provider_writable(p: ProviderSpec) -> bool {
    &&& writable_value(p.name)
    &&& writable_value(p.provider_type)
    &&& writable_value(p.base_url)
    &&& writable_value(p.model)
    &&& writable_value(p.max_tokens)
    &&& writable_value(p.reasoning_effort)
    &&& writable_value(p.user_agent)
    &&& writable_value(p.temperature)
    &&& writable_value(p.top_p)
    &&& writable_value(p.is_digest)
    &&& writable_value(p.is_comment)
    &&& writable_value(p.enabled)
    &&& forall|m: int| 0 <= m < p.api_keys.len() ==> writable_value(#[trigger] p.api_keys[m])
}

proof fn lemma_clean_is_writable(p: ProviderSpec)
    requires
        provider_clean(p),
    ensures
        provider_writable(p),
{
    assert forall|m: int| 0 <= m < p.api_keys.len() implies writable_value(#[trigger] p.api_keys[m]) by {
        assert(clean_value(p.api_keys[m]));
    }
}

proof fn lemma_entries_clean(p: ProviderSpec, i: nat)
    requires
        provider_writable(p),
    ensures
        clean_updates(provider_entries(p, i)),
{
    let st = entry_steps(p, i);
    lemma_steps_are_entries(p, i);
    lemma_entries_lookup(p, i, Seq::empty());
    assert forall|j: nat| j < 13 implies clean_key(#[trigger] provider_key(i, field_suffix(j))) by {
        lemma_field_suffix_facts(j);
        lemma_key_clean(i, field_suffix(j));
    }
    assert(clean_key(provider_key(i, field_suffix(0))));
    assert(entries_clean(st[0]));
    assert(clean_value(Seq::<char>::empty()));
    lemma_insert_clean(st[0], provider_key(i, field_suffix(0)), p.name);
    lemma_insert_clean(st[1], provider_key(i, field_suffix(1)), p.provider_type);
    lemma_insert_clean(st[2], provider_key(i, field_suffix(2)), p.base_url);
    lemma_insert_clean(st[3], provider_key(i, field_suffix(3)), Seq::empty());
    lemma_api_keys_clean(st[4], i, p.api_keys);
    lemma_insert_clean(st[5], provider_key(i, field_suffix(4)), p.model);
    lemma_insert_clean(st[6], provider_key(i, field_suffix(5)), p.max_tokens);
    lemma_insert_clean(st[7], provider_key(i, field_suffix(6)), p.reasoning_effort);
    lemma_insert_clean(st[8], provider_key(i, field_suffix(7)), p.temperature);
    lemma_insert_clean(st[9], provider_key(i, field_suffix(8)), p.top_p);
    lemma_insert_clean(st[10], provider_key(i, field_suffix(9)), p.user_agent);
    lemma_insert_clean(st[11], provider_key(i, field_suffix(10)), p.is_digest);
    lemma_insert_clean(st[12], provider_key(i, field_suffix(11)), p.is_comment);
    lemma_insert_clean(st[13], provider_key(i, field_suffix(12)), p.enabled);
    let e = provider_entries(p, i);
    assert(entries_clean(e));
    assert forall|m: int| #![trigger e[m]] 0 <= m < e.len() implies clean_key(e[m].0) && writable_value(e[m].1) by {
    }
}

/// After the keys of slot `i` are removed, none of its key names has a value.
proof fn lemma_slot_cleared(s: Seq<char>, i: nat, m: int)
    requires
        parsable_text(s),
        0 <= m < provider_key_candidates(i).len(),
    ensures
        parsable_text(without_provider(s, i)),
        lookup(parse_env(without_provider(s, i)), provider_key_candidates(i)[m]) is None,
{
    let env = parse_env(s);
    let cands = provider_key_candidates(i);
    let keys = present_keys(env, cands);
    let q = cands[m];
    if keys.len() > 0 {
        read_after_remove(s, keys, q);
        if lookup(env, q) is Some {
            lemma_present_keys_contains(env, cands, m);
        }
    } else {
        if lookup(env, q) is Some {
            lemma_present_keys_contains(env, cands, m);
            let w = choose|w: int| 0 <= w < keys.len() && keys[w] == q;
        }
    }
}

/// The non-empty keys, in order.
pub open spec fn nonempty_keys(ks: Seq<Seq<char>>) -> Seq<Seq<char>>
    decreases ks.len(),
{
    if ks.len() == 0 {
        Seq::empty()
    } else {
        let r = nonempty_keys(ks.drop_last());
        if ks.last().len() > 0 {
            r.push(ks.last())
        } else {
            r
        }
    }
}

/// What reading gives back of a written provider: its fields, and its API
/// keys without the empty ones.
/// The first 100 API keys: the reader looks at `API_KEY_1` to
/// `API_KEY_100` only.
pub open spec fn first_hundred(ks: Seq<Seq<char>>) -> Seq<Seq<char>> {
    if ks.len() <= 100 {
        ks
    } else {
        ks.take(100)
    }
}

pub open spec fn read_back(p: ProviderSpec) -> ProviderSpec {
    ProviderSpec {
        name: p.name,
        provider_type: p.provider_type,
        base_url: p.base_url,
        api_keys: nonempty_keys(first_hundred(p.api_keys)),
        model: p.model,
        max_tokens: p.max_tokens,
        reasoning_effort: p.reasoning_effort,
        user_agent: p.user_agent,
        temperature: p.temperature,
        top_p: p.top_p,
        is_digest: p.is_digest,
        is_comment: p.is_comment,
        enabled: p.enabled,
    }
}

proof fn lemma_numbered_read(env: Entries, i: nat, keys: Seq<Seq<char>>, u: nat)
    requires
        u <= 100,
        keys.len() <= 100,
        forall|k: nat|
            1 <= k <= 100 ==> lookup(env, #[trigger] provider_key(i, api_key_suffix(k))) == if k <= keys.len() && keys[k - 1].len()
                > 0 {
                Some(keys[k - 1])
            } else {
                None::<Seq<char>>
            },
    ensures
        numbered_api_keys(env, i, u) == nonempty_keys(keys.take(if u <= keys.len() { u as int } else { keys.len() as int })),
    decreases u,
{
    if u > 0 {
        lemma_numbered_read(env, i, keys, (u - 1) as nat);
        let v = get_or_empty(env, provider_key(i, api_key_suffix(u)));
        assert(lookup(env, provider_key(i, api_key_suffix(u))) == if u <= keys.len() && keys[u - 1].len() > 0 {
            Some(keys[u - 1])
        } else {
            None::<Seq<char>>
        });
        if u <= keys.len() {
            let t = keys.take(u as int);
            assert(t.drop_last() =~= keys.take(u - 1));
            assert(t.last() == keys[u - 1]);
        } else {
            assert(keys.take(keys.len() as int) =~= keys.take(keys.len() as int));
        }
    }
}

/// A slot whose keys hold what the entries of `p` hold reads back as `p`.
proof fn lemma_slot_reads(env: Entries, i: nat, p: ProviderSpec)
    requires
        forall|m: int|
            0 <= m < provider_key_candidates(i).len() ==> #[trigger] lookup(env, provider_key_candidates(i)[m]) == lookup(
                provider_entries(p, i),
                provider_key_candidates(i)[m],
            ),
        trim(p.name).len() > 0,
    ensures
        slot_in_use(env, i),
        provider_from_env(env, i) == read_back(p),
{
    let cands = provider_key_candidates(i);
    assert forall|j: nat| j < 13 implies lookup(env, #[trigger] provider_key(i, field_suffix(j))) == field_entry(p, j) by {
        assert(cands[j as int] == provider_key(i, field_suffix(j)));
        assert(lookup(env, cands[j as int]) == lookup(provider_entries(p, i), cands[j as int]));
        lemma_entries_lookup(p, i, provider_key(i, field_suffix(j)));
    }
    assert forall|k: nat|
        1 <= k <= 100 implies lookup(env, #[trigger] provider_key(i, api_key_suffix(k))) == if k <= p.api_keys.len()
            && p.api_keys[k - 1].len() > 0 {
            Some(p.api_keys[k - 1])
        } else {
            None::<Seq<char>>
        } by {
        assert(cands[12 + k as int] == provider_key(i, api_key_suffix(k)));
        assert(lookup(env, cands[12 + k as int]) == lookup(provider_entries(p, i), cands[12 + k as int]));
        lemma_entries_lookup(p, i, provider_key(i, api_key_suffix(k)));
    }
    let kk = first_hundred(p.api_keys);
    assert forall|k: nat|
        1 <= k <= 100 implies lookup(env, #[trigger] provider_key(i, api_key_suffix(k))) == if k <= kk.len()
            && kk[k - 1].len() > 0 {
            Some(kk[k - 1])
        } else {
            None::<Seq<char>>
        } by {
        if k <= p.api_keys.len() {
            assert(kk[k - 1] == p.api_keys[k - 1]);
        }
    }
    lemma_numbered_read(env, i, kk, 100);
    assert(kk.take(kk.len() as int) =~= kk);
    assert(field_entry(p, 0) == Some(p.name)) by {
        if p.name.len() == 0 {
            assert(p.name =~= Seq::<char>::empty());
        }
    }
    assert(numbered_api_keys(env, i, 100) == nonempty_keys(kk)) by {
        if kk.len() == 100 {
            assert(kk.take(100) =~= kk);
        }
    }
    assert(lookup(env, provider_key(i, field_suffix(0))) == field_entry(p, 0));
    assert(lookup(env, provider_key(i, field_suffix(1))) == field_entry(p, 1));
    assert(lookup(env, provider_key(i, field_suffix(2))) == field_entry(p, 2));
    assert(lookup(env, provider_key(i, field_suffix(3))) == field_entry(p, 3));
    assert(lookup(env, provider_key(i, field_suffix(4))) == field_entry(p, 4));
    assert(lookup(env, provider_key(i, field_suffix(5))) == field_entry(p, 5));
    assert(lookup(env, provider_key(i, field_suffix(6))) == field_entry(p, 6));
    assert(lookup(env, provider_key(i, field_suffix(7))) == field_entry(p, 7));
    assert(lookup(env, provider_key(i, field_suffix(8))) == field_entry(p, 8));
    assert(lookup(env, provider_key(i, field_suffix(9))) == field_entry(p, 9));
    assert(lookup(env, provider_key(i, field_suffix(10))) == field_entry(p, 10));
    assert(lookup(env, provider_key(i, field_suffix(11))) == field_entry(p, 11));
    assert(lookup(env, provider_key(i, field_suffix(12))) == field_entry(p, 12));
    assert(provider_api_keys(env, i) == nonempty_keys(kk)) by {
        if nonempty_keys(kk).len() == 0 {
            assert(nonempty_keys(kk) =~= Seq::<Seq<char>>::empty());
        }
    }
    assert(get_or_empty(env, provider_key(i, "TYPE"@)) == p.provider_type) by {
        if p.provider_type.len() == 0 {
            assert(p.provider_type =~= Seq::<char>::empty());
        }
    }
    assert(get_or_empty(env, provider_key(i, "BASE_URL"@)) == p.base_url) by {
        if p.base_url.len() == 0 {
            assert(p.base_url =~= Seq::<char>::empty());
        }
    }
    assert(get_or_empty(env, provider_key(i, "MODEL"@)) == p.model) by {
        if p.model.len() == 0 {
            assert(p.model =~= Seq::<char>::empty());
        }
    }
    assert(get_or_empty(env, provider_key(i, "MAX_TOKENS"@)) == p.max_tokens) by {
        if p.max_tokens.len() == 0 {
            assert(p.max_tokens =~= Seq::<char>::empty());
        }
    }
    assert(get_or_empty(env, provider_key(i, "USER_AGENT"@)) == p.user_agent) by {
        if p.user_agent.len() == 0 {
            assert(p.user_agent =~= Seq::<char>::empty());
        }
    }
    assert(get_or_empty(env, provider_key(i, "IS_DIGEST"@)) == p.is_digest) by {
        if p.is_digest.len() == 0 {
            assert(p.is_digest =~= Seq::<char>::empty());
        }
    }
    assert(get_or_empty(env, provider_key(i, "IS_COMMENT"@)) == p.is_comment) by {
        if p.is_comment.len() == 0 {
            assert(p.is_comment =~= Seq::<char>::empty());
        }
    }
    assert(get_or_empty(env, provider_key(i, "ENABLED"@)) == p.enabled) by {
        if p.enabled.len() == 0 {
            assert(p.enabled =~= Seq::<char>::empty());
        }
    }
    assert(provider_from_env(env, i) =~= read_back(p));
}



/// A provider written into a slot reads back from the new text: the slot is
/// in use and holds the provider's fields and the non-empty ones of its
/// first 100 API keys, in order, provided every value reads back as itself.
pub proof fn written_provider_reads_back(s: Seq<char>, index: Option<usize>, p: ProviderSpec)
    requires
        parsable_text(s),
        written_provider(s, index, p) is Some,
        trim(p.name).len() > 0,
        provider_clean(p),
    ensures
        match written_provider(s, index, p) {
            Some((t, i)) => parsable_text(t) && slot_in_use(parse_env(t), i) && provider_from_env(parse_env(t), i) == read_back(p),
            None => false,
        },
{
    let (t, i) = match written_provider(s, index, p) {
        Some(w) => w,
        None => (Seq::empty(), 0),
    };
    let s1 = without_provider(s, i);
    let e = provider_entries(p, i);
    assert(t == updated_text(s1, e));
    let cands = provider_key_candidates(i);
    lemma_slot_cleared(s, i, 0);
    lemma_clean_is_writable(p);
    lemma_entries_clean(p, i);
    let env_t = parse_env(t);
    // every key of the slot reads back as the entries hold it
    assert forall|m: int| 0 <= m < cands.len() implies #[trigger] lookup(env_t, cands[m]) == lookup(e, cands[m]) by {
        let q = cands[m];
        lemma_slot_cleared(s, i, m);
        lemma_entries_lookup(p, i, q);
        if m < 13 {
            assert(q == provider_key(i, field_suffix(m as nat)));
            let j = m as nat;
            if j == 0 || j == 1 || j == 2 || j == 4 || j == 5 || j == 9 || j == 10 || j == 11 || j == 12 {
            }
        } else {
            let k = (m - 12) as nat;
            assert(q == provider_key(i, api_key_suffix(k)));
            if k <= p.api_keys.len() && p.api_keys[k - 1].len() > 0 {
                assert(clean_value(p.api_keys[k - 1]));
            }
        }
        read_after_update(s1, e, q);
    }
    assert(cands[0] == provider_key(i, field_suffix(0)));
    lemma_entries_lookup(p, i, cands[0]);
    read_after_update(s1, e, cands[0]);
    lemma_slot_reads(env_t, i, p);
}

// ---------------------------------------------------------------------------
// Reordering.
// ---------------------------------------------------------------------------

/// Whether `q` names one of the keys of slot `i`.
pub open spec fn slot_key(i: nat, q: Seq<char>) -> bool {
    (exists|j: nat| j < 13 && q == #[trigger] provider_key(i, field_suffix(j)))
        || (exists|k: nat| 1 <= k && q == #[trigger] provider_key(i, api_key_suffix(k)))
}

proof fn lemma_entries_other(p: ProviderSpec, i: nat, q: Seq<char>)
    requires
        !slot_key(i, q),
    ensures
        lookup(provider_entries(p, i), q) is None,
{
    let st = entry_steps(p, i);
    lemma_steps_are_entries(p, i);
    assert(forall|j: nat| j < 13 ==> q != #[trigger] provider_key(i, field_suffix(j)));
    assert(forall|k: nat| 1 <= k ==> q != #[trigger] provider_key(i, api_key_suffix(k)));
    lemma_insert_nonempty(st[0], provider_key(i, field_suffix(0)), p.name, q);
    lemma_insert_nonempty(st[1], provider_key(i, field_suffix(1)), p.provider_type, q);
    lemma_insert_nonempty(st[2], provider_key(i, field_suffix(2)), p.base_url, q);
    lemma_lookup_insert(st[3], provider_key(i, field_suffix(3)), Seq::empty(), q);
    lemma_api_keys_lookup(st[4], i, p.api_keys, q);
    lemma_insert_nonempty(st[5], provider_key(i, field_suffix(4)), p.model, q);
    lemma_insert_nonempty(st[6], provider_key(i, field_suffix(5)), p.max_tokens, q);
    lemma_lookup_insert(st[7], provider_key(i, field_suffix(6)), p.reasoning_effort, q);
    lemma_lookup_insert(st[8], provider_key(i, field_suffix(7)), p.temperature, q);
    lemma_lookup_insert(st[9], provider_key(i, field_suffix(8)), p.top_p, q);
    lemma_insert_nonempty(st[10], provider_key(i, field_suffix(9)), p.user_agent, q);
    lemma_insert_nonempty(st[11], provider_key(i, field_suffix(10)), p.is_digest, q);
    lemma_insert_nonempty(st[12], provider_key(i, field_suffix(11)), p.is_comment, q);
    lemma_insert_nonempty(st[13], provider_key(i, field_suffix(12)), p.enabled, q);
    assert(lookup(st[0], q) is None);
}

proof fn lemma_suffix_starts_with_letter(s: Seq<char>)
    requires
        (exists|j: nat| j < 13 && s == field_suffix(j)) || (exists|k: nat| s == api_key_suffix(k)),
    ensures
        s.len() > 0,
        !is_digit_char(s[0]),
{
    reveal_strlit("NAME");
    reveal_strlit("TYPE");
    reveal_strlit("BASE_URL");
    reveal_strlit("API_KEY");
    reveal_strlit("MODEL");
    reveal_strlit("MAX_TOKENS");
    reveal_strlit("REASONING_EFFORT");
    reveal_strlit("TEMPERATURE");
    reveal_strlit("TOP_P");
    reveal_strlit("USER_AGENT");
    reveal_strlit("IS_DIGEST");
    reveal_strlit("IS_COMMENT");
    reveal_strlit("ENABLED");
    reveal_strlit("API_KEY_");
    if exists|k: nat| s == api_key_suffix(k) {
        let k = choose|k: nat| s == api_key_suffix(k);
        assert(s[0] == 'A');
    } else {
        let j = choose|j: nat| j < 13 && s == field_suffix(j);
    }
}

/// Keys of different slots differ.
proof fn lemma_slots_distinct(i: nat, j: nat, s1: Seq<char>, s2: Seq<char>)
    requires
        i != j,
        s1.len() > 0,
        s2.len() > 0,
        !is_digit_char(s1[0]),
        !is_digit_char(s2[0]),
    ensures
        provider_key(i, s1) != provider_key(j, s2),
{
    if provider_key(i, s1) == provider_key(j, s2) {
        let pre = "INSIGHT_PROVIDER_"@;
        let di = decimal(i);
        let dj = decimal(j);
        let r1 = di + seq!['_'] + s1;
        let r2 = dj + seq!['_'] + s2;
        assert(provider_key(i, s1) =~= pre + r1);
        assert(provider_key(j, s2) =~= pre + r2);
        lemma_prefix_cancel(pre, r1, r2);
        lemma_decimal_digits(i);
        lemma_decimal_digits(j);
        if di.len() < dj.len() {
            assert(r1[di.len() as int] == '_');
            assert(r2[di.len() as int] == dj[di.len() as int]);
        } else if dj.len() < di.len() {
            assert(r2[dj.len() as int] == '_');
            assert(r1[dj.len() as int] == di[dj.len() as int]);
        } else {
            assert(r1.take(di.len() as int) =~= di);
            assert(r2.take(dj.len() as int) =~= dj);
            lemma_decimal_injective(i, j);
        }
    }
}

/// The keys of slot `j` are no keys of another slot `i`.
proof fn lemma_other_slot_key(i: nat, j: nat, m: int)
    requires
        i != j,
        0 <= m < provider_key_candidates(j).len(),
    ensures
        !slot_key(i, provider_key_candidates(j)[m]),
{
    let q = provider_key_candidates(j)[m];
    let sq = if m < 13 { field_suffix(m as nat) } else { api_key_suffix((m - 12) as nat) };
    assert(q == provider_key(j, sq));
    lemma_suffix_starts_with_letter(sq);
    assert forall|a: nat| a < 13 implies q != #[trigger] provider_key(i, field_suffix(a)) by {
        lemma_suffix_starts_with_letter(field_suffix(a));
        lemma_slots_distinct(j, i, sq, field_suffix(a));
    }
    assert forall|k: nat| 1 <= k implies q != #[trigger] provider_key(i, api_key_suffix(k)) by {
        lemma_suffix_starts_with_letter(api_key_suffix(k));
        lemma_slots_distinct(j, i, sq, api_key_suffix(k));
    }
}

proof fn lemma_entry_values_clean(p: ProviderSpec, i: nat, q: Seq<char>)
    requires
        provider_clean(p),
    ensures
        lookup(provider_entries(p, i), q) matches Some(v) ==> clean_value(v),
{
    lemma_entries_lookup(p, i, q);
    if exists|j: nat| j < 13 && q == #[trigger] provider_key(i, field_suffix(j)) {
        let j = choose|j: nat| j < 13 && q == #[trigger] provider_key(i, field_suffix(j));
        assert(clean_value(Seq::<char>::empty()));
    } else if exists|k: nat| 1 <= k && q == #[trigger] provider_key(i, api_key_suffix(k)) {
        let k = choose|k: nat| 1 <= k && q == #[trigger] provider_key(i, api_key_suffix(k));
        if k <= p.api_keys.len() && p.api_keys[k - 1].len() > 0 {
            assert(clean_value(p.api_keys[k - 1]));
        }
    } else {
        lemma_entries_other(p, i, q);
    }
}

/// Whether no key of slots 1 to 10 has a value.
pub open spec fn slots_empty(env: Entries) -> bool {
    forall|j: nat, m: int|
        1 <= j <= 10 && 0 <= m < provider_key_candidates(j).len() ==> #[trigger] lookup(env, provider_key_candidates(j)[m]) is None
}

/// What the keys of slot `j` hold after `qs` were written into slots 1, 2, ...
pub open spec fn written_value(qs: Seq<ProviderSpec>, j: nat, q: Seq<char>) -> Option<Seq<char>> {
    if 1 <= j <= qs.len() {
        lookup(provider_entries(qs[j - 1], j), q)
    } else {
        None
    }
}

proof fn lemma_write_in_order(c: Seq<char>, qs: Seq<ProviderSpec>)
    requires
        parsable_text(c),
        slots_empty(parse_env(c)),
        forall|n: int| 0 <= n < qs.len() ==> provider_clean(#[trigger] qs[n]),
    ensures
        parsable_text(crate::env::write_in_order(c, qs)),
        forall|j: nat, m: int|
            1 <= j <= 10 && 0 <= m < provider_key_candidates(j).len() ==> #[trigger] lookup(
                parse_env(crate::env::write_in_order(c, qs)),
                provider_key_candidates(j)[m],
            ) == written_value(qs, j, provider_key_candidates(j)[m]),
    decreases qs.len(),
{
    if qs.len() == 0 {
    } else {
        let d = qs.drop_last();
        assert forall|n: int| 0 <= n < d.len() implies provider_clean(#[trigger] d[n]) by {
            assert(d[n] == qs[n]);
        }
        lemma_write_in_order(c, d);
        let w = crate::env::write_in_order(c, d);
        let n = qs.len();
        let p = qs.last();
        assert(p == qs[n - 1]);
        let e = provider_entries(p, n);
        lemma_clean_is_writable(p);
        lemma_entries_clean(p, n);
        assert(crate::env::write_in_order(c, qs) == updated_text(w, e));
        lemma_entry_values_clean(p, n, Seq::empty());
        read_after_update(w, e, Seq::empty());
        assert forall|j: nat, m: int|
            1 <= j <= 10 && 0 <= m < provider_key_candidates(j).len() implies #[trigger] lookup(
                parse_env(crate::env::write_in_order(c, qs)),
                provider_key_candidates(j)[m],
            ) == written_value(qs, j, provider_key_candidates(j)[m]) by {
            let q = provider_key_candidates(j)[m];
            lemma_entry_values_clean(p, n, q);
            read_after_update(w, e, q);
            if j != n {
                lemma_other_slot_key(n, j, m);
                lemma_entries_other(p, n, q);
                if 1 <= j <= d.len() {
                    assert(d[j - 1] == qs[j - 1]);
                }
            } else {
                assert(lookup(parse_env(w), q) == written_value(d, j, q));
            }
        }
    }
}

/// Every provider key of slots `1..=upto` that `env` holds is among the keys
/// that reordering removes.
proof fn lemma_all_keys_contains(env: Entries, upto: nat, j: nat, m: int)
    requires
        1 <= j <= upto,
        0 <= m < provider_key_candidates(j).len(),
        lookup(env, provider_key_candidates(j)[m]) is Some,
    ensures
        crate::env::all_provider_keys(env, upto).contains(provider_key_candidates(j)[m]),
    decreases upto,
{
    let prev = crate::env::all_provider_keys(env, (upto - 1) as nat);
    let here = present_keys(env, provider_key_candidates(upto));
    assert(crate::env::all_provider_keys(env, upto) == prev + here);
    let q = provider_key_candidates(j)[m];
    if j == upto {
        lemma_present_keys_contains(env, provider_key_candidates(j), m);
        let w = choose|w: int| 0 <= w < here.len() && here[w] == q;
        assert((prev + here)[prev.len() + w] == q);
    } else {
        lemma_all_keys_contains(env, (upto - 1) as nat, j, m);
        let w = choose|w: int| 0 <= w < prev.len() && prev[w] == q;
        assert((prev + here)[w] == q);
    }
}

proof fn lemma_numbered_len(env: Entries, i: nat, u: nat)
    ensures
        numbered_api_keys(env, i, u).len() <= u,
    decreases u,
{
    if u > 0 {
        lemma_numbered_len(env, i, (u - 1) as nat);
    }
}

/// The providers read from entries are providers of slots in use, read from
/// those slots, in increasing slot order.
pub proof fn lemma_providers_upto_facts(env: Entries, u: nat)
    ensures
        providers_upto(env, u).len() <= u,
        forall|x: int|
            0 <= x < providers_upto(env, u).len() ==> {
                let e = #[trigger] providers_upto(env, u)[x];
                &&& 1 <= e.0 <= u
                &&& slot_in_use(env, e.0)
                &&& e.1 == provider_from_env(env, e.0)
            },
    decreases u,
{
    if u > 0 {
        lemma_providers_upto_facts(env, (u - 1) as nat);
        let r = providers_upto(env, (u - 1) as nat);
        if slot_in_use(env, u) {
            assert forall|x: int| 0 <= x < r.len() implies #[trigger] r.push((u, provider_from_env(env, u)))[x] == r[x] by {
            }
        }
    }
}

/// A provider read from a slot in use has a name that is not blank and at
/// most 100 API keys.
proof fn lemma_read_provider_facts(env: Entries, i: nat)
    requires
        slot_in_use(env, i),
    ensures
        trim(provider_from_env(env, i).name).len() > 0,
        provider_from_env(env, i).api_keys.len() <= 100,
{
    lemma_numbered_len(env, i, 100);
}

proof fn lemma_reordered_from(remaining: Seq<(nat, ProviderSpec)>, order: Seq<usize>)
    ensures
        crate::env::reordered(remaining, order).len() <= remaining.len(),
        forall|n: int|
            0 <= n < crate::env::reordered(remaining, order).len() ==> exists|x: int|
                0 <= x < remaining.len() && #[trigger] crate::env::reordered(remaining, order)[n] == remaining[x].1,
    decreases order.len(),
{
    if order.len() > 0 {
        crate::env::lemma_slot_position(remaining, order[0] as nat);
        match crate::env::slot_position(remaining, order[0] as nat) {
            Some(pos) => {
                let rest = remaining.remove(pos as int);
                lemma_reordered_from(rest, order.skip(1));
                let tail = crate::env::reordered(rest, order.skip(1));
                let all = crate::env::reordered(remaining, order);
                assert(all == seq![remaining[pos as int].1] + tail);
                assert forall|n: int| 0 <= n < all.len() implies exists|x: int|
                    0 <= x < remaining.len() && #[trigger] all[n] == remaining[x].1 by {
                    if n == 0 {
                        assert(all[0] == remaining[pos as int].1);
                    } else {
                        assert(all[n] == tail[n - 1]);
                        let x = choose|x: int| 0 <= x < rest.len() && tail[n - 1] == rest[x].1;
                        if x < pos {
                            assert(rest[x] == remaining[x]);
                        } else {
                            assert(rest[x] == remaining[x + 1]);
                        }
                    }
                }
            },
            None => {
                lemma_reordered_from(remaining, order.skip(1));
            },
        }
    }
}

/// The providers of slots `1..` holding `qs` in turn, as read back.
pub open spec fn slot_list(qs: Seq<ProviderSpec>) -> Seq<(nat, ProviderSpec)> {
    Seq::new(qs.len(), |n: int| ((n + 1) as nat, read_back(qs[n])))
}

proof fn lemma_read_list(env: Entries, qs: Seq<ProviderSpec>, u: nat)
    requires
        u <= 10,
        qs.len() <= 10,
        forall|n: int| 0 <= n < qs.len() ==> trim((#[trigger] qs[n]).name).len() > 0 && qs[n].api_keys.len() <= 100,
        forall|j: nat, m: int|
            1 <= j <= 10 && 0 <= m < provider_key_candidates(j).len() ==> #[trigger] lookup(env, provider_key_candidates(j)[m])
                == written_value(qs, j, provider_key_candidates(j)[m]),
    ensures
        providers_upto(env, u) == slot_list(qs).take(if u <= qs.len() { u as int } else { qs.len() as int }),
    decreases u,
{
    if u > 0 {
        lemma_read_list(env, qs, (u - 1) as nat);
        let prev = providers_upto(env, (u - 1) as nat);
        if u <= qs.len() {
            let p = qs[u - 1];
            assert forall|m: int|
                0 <= m < provider_key_candidates(u).len() implies #[trigger] lookup(env, provider_key_candidates(u)[m]) == lookup(
                provider_entries(p, u),
                provider_key_candidates(u)[m],
            ) by {
                assert(lookup(env, provider_key_candidates(u)[m]) == written_value(qs, u, provider_key_candidates(u)[m]));
            }
            lemma_slot_reads(env, u, p);
            assert(slot_list(qs).take(u as int) =~= slot_list(qs).take(u - 1).push((u, read_back(p))));
        } else {
            assert(provider_key_candidates(u)[0] == provider_key(u, field_suffix(0)));
            assert(lookup(env, provider_key_candidates(u)[0]) is None);
            if u - 1 >= qs.len() {
            }
        }
    } else {
        assert(slot_list(qs).take(0) =~= Seq::<(nat, ProviderSpec)>::empty());
    }
}

/// Reordering providers: the text read back holds, in slots 1, 2, ..., the
/// providers named by the order, each as it was read before, and no other
/// slot holds one; provided every value of the providers reads back as
/// itself.
pub proof fn reordered_providers_read_back(s: Seq<char>, order: Seq<usize>)
    requires
        parsable_text(s),
        crate::env::reordered_text(s, order) is Ok,
        forall|x: int|
            0 <= x < providers_upto(parse_env(s), 10).len() ==> provider_clean(#[trigger] providers_upto(parse_env(s), 10)[x].1),
    ensures
        match crate::env::reordered_text(s, order) {
            Ok(t) => parsable_text(t) && providers_upto(parse_env(t), 10) == slot_list(
                crate::env::reordered(providers_upto(parse_env(s), 10), order),
            ),
            Err(_) => false,
        },
{
    let env = parse_env(s);
    let ps = providers_upto(env, 10);
    let keys = crate::env::all_provider_keys(env, 10);
    let c = if keys.len() > 0 { crate::env::removed_text(s, keys) } else { s };
    let qs = crate::env::reordered(ps, order);
    assert(crate::env::reordered_text(s, order) == Ok::<Seq<char>, crate::env::EnvError>(crate::env::write_in_order(c, qs)));
    // no provider key is left after clearing
    if keys.len() > 0 {
        read_after_remove(s, keys, Seq::empty());
    }
    assert forall|j: nat, m: int|
        1 <= j <= 10 && 0 <= m < provider_key_candidates(j).len() implies #[trigger] lookup(parse_env(c), provider_key_candidates(j)[m]) is None by {
        let q = provider_key_candidates(j)[m];
        if lookup(env, q) is Some {
            lemma_all_keys_contains(env, 10, j, m);
        }
        if keys.len() > 0 {
            read_after_remove(s, keys, q);
        }
    }
    lemma_providers_upto_facts(env, 10);
    lemma_reordered_from(ps, order);
    assert forall|n: int| 0 <= n < qs.len() implies provider_clean(#[trigger] qs[n]) && trim(qs[n].name).len() > 0
        && qs[n].api_keys.len() <= 100 by {
        let x = choose|x: int| 0 <= x < ps.len() && qs[n] == ps[x].1;
        assert(provider_clean(ps[x].1));
        lemma_read_provider_facts(env, ps[x].0);
    }
    lemma_write_in_order(c, qs);
    let t = crate::env::write_in_order(c, qs);
    lemma_read_list(parse_env(t), qs, 10);
    assert(slot_list(qs).take(qs.len() as int) =~= slot_list(qs));
}

// ---------------------------------------------------------------------------
// Other slots.
// ---------------------------------------------------------------------------

proof fn lemma_present_keys_subset(env: Entries, cands: Seq<Seq<char>>, q: Seq<char>)
    requires
        present_keys(env, cands).contains(q),
    ensures
        cands.contains(q),
    decreases cands.len(),
{
    let d = cands.drop_last();
    let r = present_keys(env, d);
    if r.contains(q) {
        lemma_present_keys_subset(env, d, q);
        let k = choose|k: int| 0 <= k < d.len() && d[k] == q;
        assert(cands[k] == q);
    } else {
        assert(cands[cands.len() - 1] == q);
    }
}

/// A key of one slot is no key of another slot's candidates.
proof fn lemma_candidate_of_slot(i: nat, m: int)
    requires
        0 <= m < provider_key_candidates(i).len(),
    ensures
        slot_key(i, provider_key_candidates(i)[m]),
{
    let q = provider_key_candidates(i)[m];
    if m < 13 {
        assert(q == provider_key(i, field_suffix(m as nat)));
    } else {
        assert(q == provider_key(i, api_key_suffix((m - 12) as nat)));
    }
}

/// Removing the keys of slot `i` keeps the keys of every other slot.
proof fn lemma_slot_removal_keeps(s: Seq<char>, i: nat, j: nat, m: int)
    requires
        parsable_text(s),
        i != j,
        0 <= m < provider_key_candidates(j).len(),
    ensures
        parsable_text(without_provider(s, i)),
        lookup(parse_env(without_provider(s, i)), provider_key_candidates(j)[m]) == lookup(
            parse_env(s),
            provider_key_candidates(j)[m],
        ),
{
    let env = parse_env(s);
    let keys = present_keys(env, provider_key_candidates(i));
    let q = provider_key_candidates(j)[m];
    lemma_slot_cleared(s, i, 0);
    if keys.len() > 0 {
        read_after_remove(s, keys, q);
        if keys.contains(q) {
            lemma_present_keys_subset(env, provider_key_candidates(i), q);
            let k = choose|k: int| 0 <= k < provider_key_candidates(i).len() && provider_key_candidates(i)[k] == q;
            lemma_candidate_of_slot(i, k);
            lemma_other_slot_key(i, j, m);
        }
    }
}

proof fn lemma_numbered_same(e1: Entries, e2: Entries, i: nat, u: nat)
    requires
        u <= 100,
        forall|k: nat|
            1 <= k <= 100 ==> lookup(e1, #[trigger] provider_key(i, api_key_suffix(k))) == lookup(
                e2,
                provider_key(i, api_key_suffix(k)),
            ),
    ensures
        numbered_api_keys(e1, i, u) == numbered_api_keys(e2, i, u),
    decreases u,
{
    if u > 0 {
        lemma_numbered_same(e1, e2, i, (u - 1) as nat);
        assert(lookup(e1, provider_key(i, api_key_suffix(u))) == lookup(e2, provider_key(i, api_key_suffix(u))));
    }
}

/// Two environments that agree on the keys of slot `j` read the same
/// provider from it.
proof fn lemma_same_slot(e1: Entries, e2: Entries, j: nat)
    requires
        forall|m: int|
            0 <= m < provider_key_candidates(j).len() ==> #[trigger] lookup(e1, provider_key_candidates(j)[m])
                == lookup(e2, provider_key_candidates(j)[m]),
    ensures
        provider_from_env(e1, j) == provider_from_env(e2, j),
        slot_in_use(e1, j) == slot_in_use(e2, j),
{
    let c = provider_key_candidates(j);
    assert forall|k: nat| 1 <= k <= 100 implies lookup(e1, #[trigger] provider_key(j, api_key_suffix(k))) == lookup(
        e2,
        provider_key(j, api_key_suffix(k)),
    ) by {
        assert(c[(12 + k) as int] == provider_key(j, api_key_suffix(k)));
    }
    lemma_numbered_same(e1, e2, j, 100);
    assert(c[0] == provider_key(j, "NAME"@));
    assert(c[1] == provider_key(j, "TYPE"@));
    assert(c[2] == provider_key(j, "BASE_URL"@));
    assert(c[3] == provider_key(j, "API_KEY"@));
    assert(c[4] == provider_key(j, "MODEL"@));
    assert(c[5] == provider_key(j, "MAX_TOKENS"@));
    assert(c[6] == provider_key(j, "REASONING_EFFORT"@));
    assert(c[7] == provider_key(j, "TEMPERATURE"@));
    assert(c[8] == provider_key(j, "TOP_P"@));
    assert(c[9] == provider_key(j, "USER_AGENT"@));
    assert(c[10] == provider_key(j, "IS_DIGEST"@));
    assert(c[11] == provider_key(j, "IS_COMMENT"@));
    assert(c[12] == provider_key(j, "ENABLED"@));
}

/// Writing a provider into a slot leaves every other slot as it was: the
/// same provider (or none) reads back from it, provided every value of the
/// written provider can be written as one line.
pub proof fn writing_a_provider_keeps_other_slots(s: Seq<char>, index: Option<usize>, p: ProviderSpec, j: nat)
    requires
        parsable_text(s),
        provider_writable(p),
    ensures
        match written_provider(s, index, p) {
            Some((t, i)) => j != i ==> parsable_text(t) && provider_from_env(parse_env(t), j) == provider_from_env(
                parse_env(s),
                j,
            ) && slot_in_use(parse_env(t), j) == slot_in_use(parse_env(s), j),
            None => true,
        },
{
    match written_provider(s, index, p) {
        Some((t, i)) => {
            if j != i {
                let s1 = without_provider(s, i);
                let e = provider_entries(p, i);
                lemma_entries_clean(p, i);
                lemma_slot_cleared(s, i, 0);
                let q0 = provider_key_candidates(j)[0];
                lemma_other_slot_key(i, j, 0);
                lemma_entries_other(p, i, q0);
                read_after_update(s1, e, q0);
                assert forall|m: int| 0 <= m < provider_key_candidates(j).len() implies #[trigger] lookup(
                    parse_env(t),
                    provider_key_candidates(j)[m],
                ) == lookup(parse_env(s), provider_key_candidates(j)[m]) by {
                    let q = provider_key_candidates(j)[m];
                    lemma_other_slot_key(i, j, m);
                    lemma_entries_other(p, i, q);
                    read_after_update(s1, e, q);
                    lemma_slot_removal_keeps(s, i, j, m);
                }
                lemma_same_slot(parse_env(t), parse_env(s), j);
            }
        },
        None => {},
    }
}

// ---------------------------------------------------------------------------
// Slots as key maps.
// ---------------------------------------------------------------------------

/// The key map of a provider in slot `i`: each field key holds its field
/// (the API key, reasoning effort, temperature and top-p keys always, with
/// `API_KEY` empty; the others only when set), `API_KEY_<k>` holds the `k`-th
/// API key when it is not empty, and no other key has an entry.
pub proof fn provider_map_keys(p: ProviderSpec, i: nat, q: Seq<char>)
    ensures
        forall|j: nat| j < 13 && q == #[trigger] provider_key(i, field_suffix(j)) ==> lookup(provider_entries(p, i), q)
            == field_entry(p, j),
        forall|k: nat|
            1 <= k && q == #[trigger] provider_key(i, api_key_suffix(k)) ==> lookup(provider_entries(p, i), q) == if k
                <= p.api_keys.len() && p.api_keys[k - 1].len() > 0 {
                Some(p.api_keys[k - 1])
            } else {
                None::<Seq<char>>
            },
        !slot_key(i, q) ==> lookup(provider_entries(p, i), q) is None,
{
    lemma_entries_lookup(p, i, q);
    if !slot_key(i, q) {
        lemma_entries_other(p, i, q);
    }
}

/// The slots listed by the providers read from an environment: slots from
/// 1 to `upto` in increasing order, a slot listed exactly when it holds a
/// provider, each with the provider read from it.
pub proof fn providers_listed_by_slot(env: Entries, upto: nat, k: int)
    requires
        0 <= k < providers_upto(env, upto).len(),
    ensures
        1 <= providers_upto(env, upto)[k].0 <= upto,
        slot_in_use(env, providers_upto(env, upto)[k].0),
        providers_upto(env, upto)[k].1 == provider_from_env(env, providers_upto(env, upto)[k].0),
        forall|m: int| k < m < providers_upto(env, upto).len() ==> providers_upto(env, upto)[k].0 < #[trigger] providers_upto(
            env,
            upto,
        )[m].0,
    decreases upto,
{
    let r = providers_upto(env, (upto - 1) as nat);
    if slot_in_use(env, upto) && k == r.len() {
    } else {
        providers_listed_by_slot(env, (upto - 1) as nat, k);
        assert forall|m: int| k < m < providers_upto(env, upto).len() implies providers_upto(env, upto)[k].0
            < #[trigger] providers_upto(env, upto)[m].0 by {
            if m < r.len() {
                assert(providers_upto(env, upto)[m] == r[m]);
            } else {
                assert(providers_upto(env, upto)[m].0 == upto);
            }
        }
    }
}

/// Every slot from 1 to `upto` that holds a provider is listed.
pub proof fn providers_list_every_used_slot(env: Entries, upto: nat, i: nat)
    requires
        1 <= i <= upto,
        slot_in_use(env, i),
    ensures
        exists|k: int| 0 <= k < providers_upto(env, upto).len() && #[trigger] providers_upto(env, upto)[k].0 == i,
    decreases upto,
{
    let r = providers_upto(env, (upto - 1) as nat);
    if i == upto {
        assert(providers_upto(env, upto)[r.len() as int].0 == i);
    } else {
        providers_list_every_used_slot(env, (upto - 1) as nat, i);
        let k = choose|k: int| 0 <= k < r.len() && #[trigger] r[k].0 == i;
        assert(providers_upto(env, upto)[k] == r[k]);
    }
}

/// A new provider goes into the first slot from 1 to 10 that holds none;
/// when all ten hold one there is no slot.
pub proof fn new_provider_takes_first_free_slot(env: Entries, i: nat)
    requires
        1 <= i <= 10,
    ensures
        free_slot_from(env, i) matches Some(f) ==> i <= f <= 10 && !slot_in_use(env, f) && forall|j: nat|
            i <= j < f ==> #[trigger] slot_in_use(env, j),
        free_slot_from(env, i) is None ==> forall|j: nat| i <= j <= 10 ==> #[trigger] slot_in_use(env, j),
    decreases 11 - i,
{
    if slot_in_use(env, i) && i < 10 {
        new_provider_takes_first_free_slot(env, i + 1);
        assert forall|j: nat| i <= j < 11 && free_slot_from(env, i) is None implies #[trigger] slot_in_use(env, j) by {
            if j > i {
            }
        }
        if free_slot_from(env, i) is Some {
            let f = free_slot_from(env, i)->0;
            assert forall|j: nat| i <= j < f implies #[trigger] slot_in_use(env, j) by {
                if j > i {
                }
            }
        }
    } else if slot_in_use(env, i) {
        assert(free_slot_from(env, i + 1) is None);
    }
}

/// Removing the keys of slot `i` keeps every key that is no key of it.
proof fn lemma_removal_keeps(s: Seq<char>, i: nat, q: Seq<char>)
    requires
        parsable_text(s),
        !provider_key_candidates(i).contains(q),
    ensures
        lookup(parse_env(without_provider(s, i)), q) == lookup(parse_env(s), q),
{
    let env = parse_env(s);
    let keys = present_keys(env, provider_key_candidates(i));
    if keys.len() > 0 {
        read_after_remove(s, keys, q);
        if keys.contains(q) {
            lemma_present_keys_subset(env, provider_key_candidates(i), q);
        }
    }
}

/// Deleting a provider removes exactly the keys of its slot: they have no
/// value afterwards and every other key keeps its value.
pub proof fn deleting_a_provider_removes_only_its_keys(s: Seq<char>, i: nat, q: Seq<char>)
    requires
        parsable_text(s),
    ensures
        parsable_text(without_provider(s, i)),
        lookup(parse_env(without_provider(s, i)), q) == if provider_key_candidates(i).contains(q) {
            None
        } else {
            lookup(parse_env(s), q)
        },
{
    lemma_slot_cleared(s, i, 0);
    if provider_key_candidates(i).contains(q) {
        let m = choose|m: int| 0 <= m < provider_key_candidates(i).len() && provider_key_candidates(i)[m] == q;
        lemma_slot_cleared(s, i, m);
    } else {
        lemma_removal_keeps(s, i, q);
    }
}

/// Writing a provider changes only its slot: a key that names no key of the
/// slot keeps its value, provided every value can be written as one line;
/// when the values also read back as themselves, each of the slot's keys
/// holds what the provider's key map holds, so stale keys are gone. A key
/// outside the 113 keys that a write clears first (a numbered API key above
/// 100) holds the provider's value when its key map has one, and keeps its
/// old value otherwise.
pub proof fn writing_a_provider_changes_only_its_slot(s: Seq<char>, index: Option<usize>, p: ProviderSpec, q: Seq<char>)
    requires
        parsable_text(s),
        provider_writable(p),
    ensures
        match written_provider(s, index, p) {
            Some((t, i)) => {
                &&& parsable_text(t)
                &&& !slot_key(i, q) ==> lookup(parse_env(t), q) == lookup(parse_env(s), q)
                &&& (provider_clean(p) && provider_key_candidates(i).contains(q)) ==> lookup(parse_env(t), q)
                    == lookup(provider_entries(p, i), q)
                &&& (provider_clean(p) && !provider_key_candidates(i).contains(q)) ==> lookup(parse_env(t), q)
                    == match lookup(provider_entries(p, i), q) {
                    Some(v) => Some(v),
                    None => lookup(parse_env(s), q),
                }
            },
            None => true,
        },
{
    match written_provider(s, index, p) {
        Some((t, i)) => {
            let s1 = without_provider(s, i);
            let e = provider_entries(p, i);
            lemma_entries_clean(p, i);
            lemma_slot_cleared(s, i, 0);
            lemma_entries_other(p, i, Seq::empty());
            assert(!slot_key(i, Seq::empty())) by {
                assert forall|j: nat| j < 13 implies Seq::<char>::empty() != #[trigger] provider_key(i, field_suffix(j)) by {
                    assert(provider_key(i, field_suffix(j)).len() > 0);
                }
                assert forall|k: nat| 1 <= k implies Seq::<char>::empty() != #[trigger] provider_key(i, api_key_suffix(k)) by {
                    assert(provider_key(i, api_key_suffix(k)).len() > 0);
                }
            }
            read_after_update(s1, e, Seq::empty());
            if !slot_key(i, q) {
                lemma_entries_other(p, i, q);
                read_after_update(s1, e, q);
                if provider_key_candidates(i).contains(q) {
                    let m = choose|m: int| 0 <= m < provider_key_candidates(i).len() && provider_key_candidates(i)[m] == q;
                    lemma_candidate_of_slot(i, m);
                }
                lemma_removal_keeps(s, i, q);
            }
            if provider_clean(p) && provider_key_candidates(i).contains(q) {
                let m = choose|m: int| 0 <= m < provider_key_candidates(i).len() && provider_key_candidates(i)[m] == q;
                lemma_slot_cleared(s, i, m);
                lemma_entry_values_clean(p, i, q);
                read_after_update(s1, e, q);
            }
            if provider_clean(p) && !provider_key_candidates(i).contains(q) {
                lemma_entry_values_clean(p, i, q);
                read_after_update(s1, e, q);
                lemma_removal_keeps(s, i, q);
            }
        },
        None => {},
    }
}

/// Writing providers into slots `1, 2, ...` keeps every key that names no
/// key of those slots.
proof fn lemma_write_in_order_keeps(c: Seq<char>, qs: Seq<ProviderSpec>, q: Seq<char>)
    requires
        parsable_text(c),
        forall|n: int| 0 <= n < qs.len() ==> provider_writable(#[trigger] qs[n]),
        forall|j: nat| 1 <= j <= qs.len() ==> !#[trigger] slot_key(j, q),
    ensures
        parsable_text(crate::env::write_in_order(c, qs)),
        lookup(parse_env(crate::env::write_in_order(c, qs)), q) == lookup(parse_env(c), q),
    decreases qs.len(),
{
    if qs.len() > 0 {
        let d = qs.drop_last();
        assert forall|n: int| 0 <= n < d.len() implies provider_writable(#[trigger] d[n]) by {
            assert(d[n] == qs[n]);
        }
        lemma_write_in_order_keeps(c, d, q);
        let w = crate::env::write_in_order(c, d);
        let n = qs.len();
        let p = qs.last();
        assert(p == qs[n - 1]);
        let e = provider_entries(p, n);
        lemma_entries_clean(p, n);
        assert(crate::env::write_in_order(c, qs) == updated_text(w, e));
        assert(!slot_key(n, q));
        lemma_entries_other(p, n, q);
        read_after_update(w, e, q);
    }
}

/// A key removed by a reorder is a key of one of the slots 1 to `upto`.
proof fn lemma_all_keys_slot(env: Entries, upto: nat, q: Seq<char>)
    requires
        crate::env::all_provider_keys(env, upto).contains(q),
    ensures
        exists|j: nat| 1 <= j <= upto && #[trigger] slot_key(j, q),
    decreases upto,
{
    let r = crate::env::all_provider_keys(env, (upto - 1) as nat);
    let pk = present_keys(env, provider_key_candidates(upto));
    let all = crate::env::all_provider_keys(env, upto);
    assert(all == r + pk);
    let k = choose|k: int| 0 <= k < all.len() && all[k] == q;
    if k < r.len() {
        assert(r[k] == q);
        lemma_all_keys_slot(env, (upto - 1) as nat, q);
        let j = choose|j: nat| 1 <= j <= upto - 1 && #[trigger] slot_key(j, q);
        assert(slot_key(j, q));
    } else {
        assert(pk[k - r.len()] == q);
        lemma_present_keys_subset(env, provider_key_candidates(upto), q);
        let m = choose|m: int| 0 <= m < provider_key_candidates(upto).len() && provider_key_candidates(upto)[m] == q;
        lemma_candidate_of_slot(upto, m);
    }
}

/// Reordering keeps every key that is no provider key of slots 1 to 10,
/// provided the providers' values can be written as one line.
pub proof fn reordering_keeps_other_keys(s: Seq<char>, order: Seq<usize>, q: Seq<char>)
    requires
        parsable_text(s),
        crate::env::reordered_text(s, order) is Ok,
        forall|x: int|
            0 <= x < providers_upto(parse_env(s), 10).len() ==> provider_writable(
                #[trigger] providers_upto(parse_env(s), 10)[x].1,
            ),
        forall|j: nat| 1 <= j <= 10 ==> !#[trigger] slot_key(j, q),
    ensures
        match crate::env::reordered_text(s, order) {
            Ok(t) => lookup(parse_env(t), q) == lookup(parse_env(s), q),
            Err(_) => false,
        },
{
    let env = parse_env(s);
    let ps = providers_upto(env, 10);
    let keys = crate::env::all_provider_keys(env, 10);
    let c = if keys.len() > 0 { crate::env::removed_text(s, keys) } else { s };
    let qs = crate::env::reordered(ps, order);
    assert(crate::env::reordered_text(s, order) == Ok::<Seq<char>, crate::env::EnvError>(crate::env::write_in_order(c, qs)));
    if keys.len() > 0 {
        read_after_remove(s, keys, q);
        if keys.contains(q) {
            lemma_all_keys_slot(env, 10, q);
        }
    }
    lemma_providers_upto_facts(env, 10);
    lemma_reordered_from(ps, order);
    assert forall|n: int| 0 <= n < qs.len() implies provider_writable(#[trigger] qs[n]) by {
        let x = choose|x: int| 0 <= x < ps.len() && qs[n] == ps[x].1;
        assert(provider_writable(ps[x].1));
    }
    assert(qs.len() <= 10) by {
        lemma_providers_upto_facts(env, 10);
    }
    lemma_write_in_order_keeps(c, qs, q);
}


/// A key that the text holds but that no reorder removes is written by no
/// provider with at most 100 API keys into slots 1 to 10.
proof fn lemma_kept_key_not_written(env: Entries, key: Seq<char>, p: ProviderSpec, j: nat)
    requires
        lookup(env, key) is Some,
        !crate::env::all_provider_keys(env, 10).contains(key),
        p.api_keys.len() <= 100,
        1 <= j <= 10,
    ensures
        lookup(provider_entries(p, j), key) is None,
{
    if lookup(provider_entries(p, j), key) is Some {
        if !slot_key(j, key) {
            lemma_entries_other(p, j, key);
        }
        let cands = provider_key_candidates(j);
        if exists|f: nat| f < 13 && key == #[trigger] provider_key(j, field_suffix(f)) {
            let f = choose|f: nat| f < 13 && key == #[trigger] provider_key(j, field_suffix(f));
            assert(cands[f as int] == key);
            lemma_all_keys_contains(env, 10, j, f as int);
        } else {
            let a = choose|a: nat| 1 <= a && key == #[trigger] provider_key(j, api_key_suffix(a));
            lemma_entries_lookup(p, j, key);
            assert(a <= p.api_keys.len());
            assert(cands[12 + a as int] == key);
            lemma_all_keys_contains(env, 10, j, 12 + a as int);
        }
    }
}

proof fn lemma_write_in_order_prefix(c: Seq<char>, qs: Seq<ProviderSpec>, k: Seq<Seq<char>>)
    requires
        forall|n: int| 0 <= n < qs.len() ==> provider_writable(#[trigger] qs[n]),
        k.len() <= text_lines(c).len(),
        text_lines(c).take(k.len() as int) == k,
        forall|m: int| 0 <= m < k.len() ==> strip_cr(#[trigger] k[m]) == k[m],
        forall|m: int, n: int|
            #![trigger k[m], qs[n]]
            0 <= m < k.len() && 0 <= n < qs.len() ==> (split_line(k[m]) matches Some((key, _v)) ==> lookup(
                provider_entries(qs[n], (n + 1) as nat),
                key,
            ) is None),
    ensures
        k.len() <= text_lines(crate::env::write_in_order(c, qs)).len(),
        text_lines(crate::env::write_in_order(c, qs)).take(k.len() as int) == k,
    decreases qs.len(),
{
    if qs.len() > 0 {
        let d = qs.drop_last();
        assert forall|n: int| 0 <= n < d.len() implies provider_writable(#[trigger] d[n]) by {
            assert(d[n] == qs[n]);
        }
        assert forall|m: int, n: int|
            #![trigger k[m], d[n]]
            0 <= m < k.len() && 0 <= n < d.len() implies (split_line(k[m]) matches Some((key, _v)) ==> lookup(
                provider_entries(d[n], (n + 1) as nat),
                key,
            ) is None) by {
            assert(d[n] == qs[n]);
        }
        lemma_write_in_order_prefix(c, d, k);
        let w = crate::env::write_in_order(c, d);
        let n = qs.len();
        let p = qs.last();
        assert(p == qs[n - 1]);
        let e = provider_entries(p, n);
        lemma_entries_clean(p, n);
        assert(crate::env::write_in_order(c, qs) == updated_text(w, e));
        assert forall|m: int| 0 <= m < k.len() implies (split_line(#[trigger] k[m]) matches Some((key, _v))
            ==> lookup(e, key) is None) by {
            assert(qs[n - 1] == p);
        }
        lemma_update_keeps_prefix(w, e, k);
    }
}

/// A reorder keeps every line that assigns no provider key the text holds
/// (comments, blank lines, other keys): those lines come first in the new
/// text, with their text and in their order.
pub proof fn reordering_keeps_other_lines(s: Seq<char>, order: Seq<usize>)
    requires
        parsable_text(s),
        crate::env::reordered_text(s, order) is Ok,
        forall|x: int|
            0 <= x < providers_upto(parse_env(s), 10).len() ==> provider_writable(
                #[trigger] providers_upto(parse_env(s), 10)[x].1,
            ),
        forall|m: int| 0 <= m < text_lines(s).len() ==> strip_cr(#[trigger] text_lines(s)[m]) == text_lines(s)[m],
    ensures
        match crate::env::reordered_text(s, order) {
            Ok(t) => {
                let others = text_lines(s).filter(
                    |l: Seq<char>| !assigns_one_of(l, crate::env::all_provider_keys(parse_env(s), 10)),
                );
                &&& others.len() <= text_lines(t).len()
                &&& text_lines(t).take(others.len() as int) == others
            },
            Err(_) => false,
        },
{
    let env = parse_env(s);
    let ps = providers_upto(env, 10);
    let keys = crate::env::all_provider_keys(env, 10);
    let c = if keys.len() > 0 { crate::env::removed_text(s, keys) } else { s };
    let qs = crate::env::reordered(ps, order);
    assert(crate::env::reordered_text(s, order) == Ok::<Seq<char>, crate::env::EnvError>(crate::env::write_in_order(c, qs)));
    let ls = text_lines(s);
    let pred = |l: Seq<char>| !assigns_one_of(l, keys);
    let f = ls.filter(pred);
    lemma_other_lines_first(s, keys);
    lemma_providers_upto_facts(env, 10);
    lemma_reordered_from(ps, order);
    assert forall|n: int| 0 <= n < qs.len() implies provider_writable(#[trigger] qs[n]) && qs[n].api_keys.len() <= 100 by {
        let x = choose|x: int| 0 <= x < ps.len() && qs[n] == ps[x].1;
        assert(provider_writable(ps[x].1));
        lemma_read_provider_facts(env, ps[x].0);
    }
    assert forall|m: int| 0 <= m < f.len() implies strip_cr(#[trigger] f[m]) == f[m] && !assigns_one_of(f[m], keys)
        && (split_line(f[m]) matches Some((key, _v)) ==> lookup(env, key) is Some) by {
        ls.lemma_filter_pred(pred, m);
        ls.lemma_filter_contains_rev(pred, f[m]);
        let j = choose|j: int| 0 <= j < ls.len() && ls[j] == f[m];
        if let Some((key, _v)) = split_line(f[m]) {
            lemma_assigned_key_present(s, j, key);
        }
    }
    assert forall|m: int, n: int|
        #![trigger f[m], qs[n]]
        0 <= m < f.len() && 0 <= n < qs.len() implies (split_line(f[m]) matches Some((key, _v)) ==> lookup(
            provider_entries(qs[n], (n + 1) as nat),
            key,
        ) is None) by {
        if let Some((key, _v)) = split_line(f[m]) {
            assert(!keys.contains(key));
            lemma_kept_key_not_written(env, key, qs[n], (n + 1) as nat);
        }
    }
    lemma_write_in_order_prefix(c, qs, f);
}


spec fn names_slot(remaining: Seq<(nat, ProviderSpec)>, o: usize) -> bool {
    exists|x: int| 0 <= x < remaining.len() && #[trigger] remaining[x].0 == o as nat
}

proof fn lemma_first_invalid_none(order: Seq<usize>, ps: Seq<(nat, ProviderSpec)>)
    requires
        crate::env::first_invalid(order, ps) is None,
    ensures
        forall|j: int| 0 <= j < order.len() ==> crate::env::slot_position(ps, #[trigger] order[j] as nat) is Some,
    decreases order.len(),
{
    if order.len() > 0 {
        lemma_first_invalid_none(order.skip(1), ps);
        assert forall|j: int| 0 <= j < order.len() implies crate::env::slot_position(ps, #[trigger] order[j] as nat)
            is Some by {
            if j > 0 {
                assert(order[j] == order.skip(1)[j - 1]);
            }
        }
    }
}

/// An order naming each provider once takes, at position `k`, the provider
/// whose slot is `order[k]`.
proof fn lemma_reordered_distinct(remaining: Seq<(nat, ProviderSpec)>, order: Seq<usize>)
    requires
        forall|j: int| 0 <= j < order.len() ==> names_slot(remaining, #[trigger] order[j]),
        forall|i: int, j: int| 0 <= i < j < order.len() ==> #[trigger] order[i] != #[trigger] order[j],
    ensures
        crate::env::reordered(remaining, order).len() == order.len(),
        forall|k: int|
            0 <= k < order.len() ==> exists|x: int|
                0 <= x < remaining.len() && remaining[x].0 == order[k] as nat && #[trigger] crate::env::reordered(remaining, order)[k]
                    == remaining[x].1,
    decreases order.len(),
{
    if order.len() > 0 {
        crate::env::lemma_slot_position(remaining, order[0] as nat);
        let x0 = choose|x: int| 0 <= x < remaining.len() && #[trigger] remaining[x].0 == order[0] as nat;
        let p = crate::env::slot_position(remaining, order[0] as nat)->0 as int;
        let rem = remaining.remove(p);
        let rest = order.skip(1);
        assert(names_slot(remaining, order[0]));
        assert forall|j: int| 0 <= j < rest.len() implies names_slot(rem, #[trigger] rest[j]) by {
            assert(rest[j] == order[j + 1]);
            assert(names_slot(remaining, order[j + 1]));
            assert(order[0] != order[j + 1]);
            let x = choose|x: int| 0 <= x < remaining.len() && #[trigger] remaining[x].0 == order[j + 1] as nat;
            assert(x != p);
            if x < p {
                assert(rem[x] == remaining[x]);
            } else {
                assert(rem[x - 1] == remaining[x]);
            }
        }
        assert forall|i: int, j: int| 0 <= i < j < rest.len() implies #[trigger] rest[i] != #[trigger] rest[j] by {
            assert(rest[i] == order[i + 1] && rest[j] == order[j + 1]);
        }
        lemma_reordered_distinct(rem, rest);
        let r = crate::env::reordered(remaining, order);
        let rr = crate::env::reordered(rem, rest);
        assert(r == seq![remaining[p].1] + rr);
        assert forall|k: int| 0 <= k < order.len() implies exists|x: int|
            0 <= x < remaining.len() && remaining[x].0 == order[k] as nat && #[trigger] r[k] == remaining[x].1 by {
            if k == 0 {
                assert(r[0] == remaining[p].1);
            } else {
                assert(r[k] == rr[k - 1]);
                assert(rest[k - 1] == order[k]);
                let y = choose|y: int| 0 <= y < rem.len() && rem[y].0 == rest[k - 1] as nat && rr[k - 1] == rem[y].1;
                if y < p {
                    assert(rem[y] == remaining[y]);
                } else {
                    assert(rem[y] == remaining[y + 1]);
                }
            }
        }
    }
}

proof fn lemma_numbered_nonempty(env: Entries, i: nat, u: nat)
    ensures
        forall|m: int| 0 <= m < numbered_api_keys(env, i, u).len() ==> (#[trigger] numbered_api_keys(env, i, u)[m]).len() > 0,
    decreases u,
{
    if u > 0 {
        lemma_numbered_nonempty(env, i, (u - 1) as nat);
        let r = numbered_api_keys(env, i, (u - 1) as nat);
        assert forall|m: int| 0 <= m < numbered_api_keys(env, i, u).len() implies (#[trigger] numbered_api_keys(env, i, u)[m]).len() > 0 by {
            if m < r.len() {
                assert(numbered_api_keys(env, i, u)[m] == r[m]);
            }
        }
    }
}

proof fn lemma_nonempty_keys_identity(ks: Seq<Seq<char>>)
    requires
        forall|m: int| 0 <= m < ks.len() ==> (#[trigger] ks[m]).len() > 0,
    ensures
        nonempty_keys(ks) == ks,
    decreases ks.len(),
{
    if ks.len() > 0 {
        lemma_nonempty_keys_identity(ks.drop_last());
        assert(ks.last() == ks[ks.len() - 1]);
        assert(ks.drop_last().push(ks.last()) =~= ks);
    }
}

/// A provider read from `.env` text reads back as itself.
proof fn lemma_read_back_of_read(env: Entries, i: nat)
    ensures
        read_back(provider_from_env(env, i)) == provider_from_env(env, i),
{
    lemma_numbered_nonempty(env, i, 100);
    lemma_numbered_len(env, i, 100);
    let ks = provider_api_keys(env, i);
    lemma_nonempty_keys_identity(ks);
}

/// A reorder by an order that names each provider once puts, in slot
/// `k + 1`, the provider that slot `order[k]` held, and nothing else.
pub proof fn reordering_moves_slot_order_k_to_k(s: Seq<char>, order: Seq<usize>)
    requires
        parsable_text(s),
        crate::env::reordered_text(s, order) is Ok,
        forall|i: int, j: int| 0 <= i < j < order.len() ==> #[trigger] order[i] != #[trigger] order[j],
        forall|x: int|
            0 <= x < providers_upto(parse_env(s), 10).len() ==> provider_clean(#[trigger] providers_upto(parse_env(s), 10)[x].1),
    ensures
        match crate::env::reordered_text(s, order) {
            Ok(t) => {
                &&& providers_upto(parse_env(t), 10).len() == order.len()
                &&& forall|k: int|
                    0 <= k < order.len() ==> #[trigger] providers_upto(parse_env(t), 10)[k] == ((k + 1) as nat, provider_from_env(
                        parse_env(s),
                        order[k] as nat,
                    ))
            },
            Err(_) => false,
        },
{
    let env = parse_env(s);
    let ps = providers_upto(env, 10);
    reordered_providers_read_back(s, order);
    lemma_first_invalid_none(order, ps);
    assert forall|j: int| 0 <= j < order.len() implies names_slot(ps, #[trigger] order[j]) by {
        crate::env::lemma_slot_position(ps, order[j] as nat);
        let x = crate::env::slot_position(ps, order[j] as nat)->0 as int;
        assert(ps[x].0 == order[j] as nat);
    }
    lemma_reordered_distinct(ps, order);
    lemma_providers_upto_facts(env, 10);
    let qs = crate::env::reordered(ps, order);
    match crate::env::reordered_text(s, order) {
        Ok(t) => {
            assert forall|k: int| 0 <= k < order.len() implies #[trigger] providers_upto(parse_env(t), 10)[k] == ((k + 1) as nat,
                provider_from_env(env, order[k] as nat)) by {
                let x = choose|x: int| 0 <= x < ps.len() && ps[x].0 == order[k] as nat && #[trigger] qs[k] == ps[x].1;
                assert(ps[x].1 == provider_from_env(env, ps[x].0));
                lemma_read_back_of_read(env, order[k] as nat);
                assert(slot_list(qs)[k] == ((k + 1) as nat, read_back(qs[k])));
            }
        },
        Err(_) => {},
    }
}

} // verus!
