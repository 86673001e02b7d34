//! Reading and rewriting `.env` text: `KEY=value` lines are parsed, and
//! values are updated or removed in place while comments, blank lines and
//! the order of untouched keys are kept.
//!
//! The functions here work on the file's text; reading and writing the file
//! itself is left to the caller.
use vstd::prelude::*;
use crate::chars::{string_views, spec_is_ascii_alphanumeric,
    extend_chars, is_alphanumeric, slice_chars, string_from_chars, to_chars, trim, trim_chars, unicode_alphanumeric, decimal, usize_to_decimal,
};

verus! {

// ---------------------------------------------------------------------------
// Lines.
// ---------------------------------------------------------------------------

/// `l` without one trailing carriage return.
pub open spec fn strip_cr(l: Seq<char>) -> Seq<char> {
    if l.len() > 0 && l.last() == '\r' {
        l.drop_last()
    } else {
        l
    }
}

/// The lines of `s` as `str::lines` yields them, where `cur` is the part of
/// the current line read so far: lines end at `'\n'` (a `'\r'` right before
/// it is dropped) and a final line without `'\n'` is kept when not empty.
pub open spec fn lines_from(s: Seq<char>, cur: Seq<char>) -> Seq<Seq<char>>
    decreases s.len(),
{
    if s.len() == 0 {
        if cur.len() > 0 {
            seq![cur]
        } else {
            Seq::empty()
        }
    } else if s[0] == '\n' {
        seq![strip_cr(cur)] + lines_from(s.skip(1), Seq::empty())
    } else {
        lines_from(s.skip(1), cur.push(s[0]))
    }
}

pub open spec fn text_lines(s: Seq<char>) -> Seq<Seq<char>> {
    lines_from(s, Seq::empty())
}

pub open spec fn views(v: Seq<Vec<char>>) -> Seq<Seq<char>> {
    v.map_values(|l: Vec<char>| l@)
}

/// Splits text into lines as `str::lines` does.
pub fn split_lines(v: &Vec<char>) -> (r: Vec<Vec<char>>)
    ensures
        views(r@) == text_lines(v@),
{
    let mut r: Vec<Vec<char>> = Vec::new();
    let mut cur: Vec<char> = Vec::new();
    assert(v@.skip(0) =~= v@);
    assert(views(r@) =~= Seq::<Seq<char>>::empty());
    for i in 0..v.len()
        invariant
            views(r@) + lines_from(v@.skip(i as int), cur@) == text_lines(v@),
    {
        let ghost rest = v@.skip(i as int);
        assert(rest.skip(1) =~= v@.skip(i + 1));
        if v[i] == '\n' {
            let mut line = cur;
            if line.len() > 0 && line[line.len() - 1] == '\r' {
                line.pop();
            }
            assert(line@ == strip_cr(cur@));
            let ghost before = views(r@);
            r.push(line);
            assert(views(r@) =~= before + seq![strip_cr(cur@)]);
            cur = Vec::new();
            assert(views(r@) + lines_from(v@.skip(i + 1), cur@) =~= text_lines(v@));
        } else {
            cur.push(v[i]);
        }
    }
    if cur.len() > 0 {
        let ghost before = views(r@);
        let ghost c = cur@;
        r.push(cur);
        assert(views(r@) =~= before + seq![c]);
    }
    assert(v@.skip(v.len() as int) =~= Seq::<char>::empty());
    assert(views(r@) =~= text_lines(v@));
    r
}

/// The lines, each followed by `'\n'`.
pub open spec fn unlines(ls: Seq<Seq<char>>) -> Seq<char>
    decreases ls.len(),
{
    if ls.len() == 0 {
        Seq::empty()
    } else {
        unlines(ls.drop_last()) + ls.last().push('\n')
    }
}

/// What `lines.join("\n") + "\n"` writes.
pub open spec fn written(ls: Seq<Seq<char>>) -> Seq<char> {
    if ls.len() == 0 {
        seq!['\n']
    } else {
        unlines(ls)
    }
}

fn write_lines(ls: &Vec<Vec<char>>) -> (r: Vec<char>)
    ensures
        r@ == written(views(ls@)),
{
    let mut r: Vec<char> = Vec::new();
    if ls.len() == 0 {
        r.push('\n');
        assert(r@ =~= seq!['\n']);
        return r;
    }
    for i in 0..ls.len()
        invariant
            r@ == unlines(views(ls@).take(i as int)),
    {
        let ghost before = r@;
        extend_chars(&mut r, &ls[i]);
        r.push('\n');
        assert(views(ls@).take(i + 1).drop_last() =~= views(ls@).take(i as int));
        assert(r@ =~= unlines(views(ls@).take(i + 1)));
    }
    assert(views(ls@).take(ls.len() as int) =~= views(ls@));
    r
}

// ---------------------------------------------------------------------------
// One `KEY=value` line.
// ---------------------------------------------------------------------------

/// Index of the first `c` in `s`.
pub open spec fn find_char(s: Seq<char>, c: char) -> Option<nat>
    decreases s.len(),
{
    if s.len() == 0 {
        None
    } else if s[0] == c {
        Some(0)
    } else {
        match find_char(s.skip(1), c) {
            Some(i) => Some(i + 1),
            None => None,
        }
    }
}

pub proof fn lemma_find_char(s: Seq<char>, c: char)
    ensures
        match find_char(s, c) {
            Some(i) => i < s.len() && s[i as int] == c && forall|j: int| 0 <= j < i ==> s[j] != c,
            None => forall|j: int| 0 <= j < s.len() ==> s[j] != c,
        },
    decreases s.len(),
{
    if s.len() > 0 && s[0] != c {
        lemma_find_char(s.skip(1), c);
        match find_char(s.skip(1), c) {
            Some(i) => {
                assert(s[i + 1 as int] == s.skip(1)[i as int]);
                assert forall|j: int| 0 <= j < i + 1 implies s[j] != c by {
                    if j > 0 {
                        assert(s[j] == s.skip(1)[j - 1]);
                    }
                }
            },
            None => {
                assert forall|j: int| 0 <= j < s.len() implies s[j] != c by {
                    if j > 0 {
                        assert(s[j] == s.skip(1)[j - 1]);
                    }
                }
            },
        }
    }
}

fn find_char_exec(s: &Vec<char>, c: char) -> (r: Option<usize>)
    ensures
        r matches Some(i) ==> find_char(s@, c) == Some(i as nat),
        r is None ==> find_char(s@, c) is None,
{
    let mut i: usize = 0;
    while i < s.len()
        invariant
            i <= s.len(),
            forall|j: int| 0 <= j < i ==> s@[j] != c,
        decreases s.len() - i,
    {
        if s[i] == c {
            proof {
                lemma_find_char(s@, c);
                match find_char(s@, c) {
                    Some(k) => {
                        if k < i {
                            assert(s@[k as int] == c);
                        }
                        if k > i {
                            assert(s@[i as int] != c);
                        }
                    },
                    None => {
                        assert(s@[i as int] != c);
                    },
                }
            }
            return Some(i);
        }
        i += 1;
    }
    proof {
        lemma_find_char(s@, c);
        if let Some(k) = find_char(s@, c) {
            assert(s@[k as int] == c);
        }
    }
    None
}

/// The key and the raw (trimmed, still quoted) value of a `KEY=value`
/// line; `None` for blank lines, `#` comments and lines without `=`.
pub open spec fn split_line(line: Seq<char>) -> Option<(Seq<char>, Seq<char>)> {
    let t = trim(line);
    if t.len() == 0 || t[0] == '#' {
        None
    } else {
        match find_char(t, '=') {
            Some(i) => Some((trim(t.take(i as int)), trim(t.skip(i + 1 as int)))),
            None => None,
        }
    }
}

/// A value wrapped in matching double or single quotes loses them.
pub open spec fn unquote(v: Seq<char>) -> Seq<char> {
    if v.len() > 0 && ((v[0] == '"' && v.last() == '"') || (v[0] == '\'' && v.last() == '\'')) {
        v.subrange(1, v.len() - 1)
    } else {
        v
    }
}

/// A line whose value is one lone quote character, which the value
/// unquoting cannot take apart (it would slice `value[1..0]`).
pub open spec fn line_breaks_unquote(line: Seq<char>) -> bool {
    match split_line(line) {
        Some((_k, v)) => v.len() == 1 && (v[0] == '"' || v[0] == '\''),
        None => false,
    }
}

/// The `(key, value)` pair a line defines, if any.
pub open spec fn parse_line(line: Seq<char>) -> Option<(Seq<char>, Seq<char>)> {
    match split_line(line) {
        Some((k, v)) => Some((k, unquote(v))),
        None => None,
    }
}

/// Exec form of [`split_line`].
fn split_line_exec(line: &Vec<char>) -> (r: Option<(Vec<char>, Vec<char>)>)
    ensures
        r matches Some((k, v)) ==> split_line(line@) == Some((k@, v@)),
        r is None ==> split_line(line@) is None,
{
    let t = trim_chars(line);
    if t.len() == 0 || t[0] == '#' {
        return None;
    }
    match find_char_exec(&t, '=') {
        Some(i) => {
            proof {
                lemma_find_char(t@, '=');
            }
            let k0 = slice_chars(&t, 0, i);
            let v0 = slice_chars(&t, i + 1, t.len());
            assert(k0@ =~= t@.take(i as int));
            assert(v0@ =~= t@.skip(i + 1));
            Some((trim_chars(&k0), trim_chars(&v0)))
        },
        None => None,
    }
}

fn unquote_exec(v: Vec<char>) -> (r: Vec<char>)
    requires
        !(v.len() == 1 && (v@[0] == '"' || v@[0] == '\'')),
    ensures
        r@ == unquote(v@),
{
    let n = v.len();
    if n > 0 && ((v[0] == '"' && v[n - 1] == '"') || (v[0] == '\'' && v[n - 1] == '\'')) {
        slice_chars(&v, 1, n - 1)
    } else {
        v
    }
}

fn parse_line_exec(line: &Vec<char>) -> (r: Option<(Vec<char>, Vec<char>)>)
    requires
        !line_breaks_unquote(line@),
    ensures
        r matches Some((k, v)) ==> parse_line(line@) == Some((k@, v@)),
        r is None ==> parse_line(line@) is None,
{
    match split_line_exec(line) {
        Some((k, v)) => Some((k, unquote_exec(v))),
        None => None,
    }
}

// ---------------------------------------------------------------------------
// Key/value collections.
// ---------------------------------------------------------------------------

/// Index of the first entry with key `k`.
pub open spec fn index_of_key(s: Seq<(Seq<char>, Seq<char>)>, k: Seq<char>) -> Option<nat>
    decreases s.len(),
{
    if s.len() == 0 {
        None
    } else if s[0].0 == k {
        Some(0)
    } else {
        match index_of_key(s.skip(1), k) {
            Some(i) => Some(i + 1),
            None => None,
        }
    }
}

pub proof fn lemma_index_of_key(s: Seq<(Seq<char>, Seq<char>)>, k: Seq<char>)
    ensures
        match index_of_key(s, k) {
            Some(i) => i < s.len() && s[i as int].0 == k && forall|j: int| 0 <= j < i ==> s[j].0 != k,
            None => forall|j: int| 0 <= j < s.len() ==> s[j].0 != k,
        },
    decreases s.len(),
{
    if s.len() > 0 && s[0].0 != k {
        lemma_index_of_key(s.skip(1), k);
        match index_of_key(s.skip(1), k) {
            Some(i) => {
                assert(s[i + 1 as int] == s.skip(1)[i as int]);
                assert forall|j: int| 0 <= j < i + 1 implies s[j].0 != k by {
                    if j > 0 {
                        assert(s[j] == s.skip(1)[j - 1]);
                    }
                }
            },
            None => {
                assert forall|j: int| 0 <= j < s.len() implies s[j].0 != k by {
                    if j > 0 {
                        assert(s[j] == s.skip(1)[j - 1]);
                    }
                }
            },
        }
    }
}

/// The value stored under `k`.
pub open spec fn lookup(s: Seq<(Seq<char>, Seq<char>)>, k: Seq<char>) -> Option<Seq<char>> {
    match index_of_key(s, k) {
        Some(i) => Some(s[i as int].1),
        None => None,
    }
}

/// Inserting `(k, v)`: an existing entry for `k` takes the new value in
/// place, otherwise the pair is appended (`HashMap::insert` semantics with
/// the order of first insertion kept).
pub open spec fn env_insert(s: Seq<(Seq<char>, Seq<char>)>, k: Seq<char>, v: Seq<char>) -> Seq<(Seq<char>, Seq<char>)> {
    match index_of_key(s, k) {
        Some(i) => s.update(i as int, (k, v)),
        None => s.push((k, v)),
    }
}

pub open spec fn keys_unique(s: Seq<(Seq<char>, Seq<char>)>) -> bool {
    forall|i: int, j: int| 0 <= i < j < s.len() ==> #[trigger] s[i].0 != #[trigger] s[j].0
}

pub proof fn lemma_lookup_insert(s: Seq<(Seq<char>, Seq<char>)>, k: Seq<char>, v: Seq<char>, q: Seq<char>)
    requires
        keys_unique(s),
    ensures
        keys_unique(env_insert(s, k, v)),
        lookup(env_insert(s, k, v), q) == if q == k { Some(v) } else { lookup(s, q) },
{
    lemma_index_of_key(s, k);
    lemma_index_of_key(s, q);
    let t = env_insert(s, k, v);
    lemma_index_of_key(t, q);
    match index_of_key(s, k) {
        Some(i) => {
            assert forall|a: int, b: int| 0 <= a < b < t.len() implies #[trigger] t[a].0 != #[trigger] t[b].0 by {
                if a == i {
                    assert(s[b].0 != s[a].0);
                } else if b == i {
                    assert(s[b].0 != s[a].0);
                } else {
                    assert(t[a] == s[a] && t[b] == s[b]);
                }
            }
            match index_of_key(t, q) {
                Some(j) => {
                    if q == k {
                        if j != i {
                            assert(t[j as int] == s[j as int]);
                            if j < i {
                                assert(s[j as int].0 != k);
                            } else {
                                assert(t[i as int].0 == k);
                            }
                        }
                    } else {
                        assert(t[j as int] == s[j as int]);
                        match index_of_key(s, q) {
                            Some(m) => {
                                if m < j {
                                    assert(t[m as int] == s[m as int]);
                                }
                                if j < m {
                                    assert(s[j as int].0 == q);
                                }
                            },
                            None => {
                                assert(s[j as int].0 == q);
                            },
                        }
                    }
                },
                None => {
                    if q == k {
                        assert(t[i as int].0 == k);
                    } else {
                        if let Some(m) = index_of_key(s, q) {
                            assert(t[m as int] == s[m as int]);
                        }
                    }
                },
            }
        },
        None => {
            assert forall|a: int, b: int| 0 <= a < b < t.len() implies #[trigger] t[a].0 != #[trigger] t[b].0 by {
                if b == s.len() {
                    assert(t[a] == s[a]);
                } else {
                    assert(t[a] == s[a] && t[b] == s[b]);
                }
            }
            match index_of_key(t, q) {
                Some(j) => {
                    if j < s.len() {
                        assert(t[j as int] == s[j as int]);
                        if let Some(m) = index_of_key(s, q) {
                            if m < j {
                                assert(t[m as int] == s[m as int]);
                            }
                        }
                    } else {
                        if let Some(m) = index_of_key(s, q) {
                            assert(t[m as int] == s[m as int]);
                        }
                    }
                },
                None => {
                    if q == k {
                        assert(t[s.len() as int].0 == k);
                    } else if let Some(m) = index_of_key(s, q) {
                        assert(t[m as int] == s[m as int]);
                    }
                },
            }
        },
    }
}

/// An ordered collection of `.env` keys and values with distinct keys.
#[derive(Debug, Clone)]
pub struct EnvMap {
    entries: Vec<(String, String)>,
}

impl View for EnvMap {
    type V = Seq<(Seq<char>, Seq<char>)>;

    closed spec fn view(&self) -> Seq<(Seq<char>, Seq<char>)> {
        self.entries@.map_values(|e: (String, String)| (e.0@, e.1@))
    }
}

impl EnvMap {
    pub open spec fn wf(&self) -> bool {
        keys_unique(self@)
    }

    /// An empty collection.
    pub fn new() -> (r: EnvMap)
        ensures
            r@ == Seq::<(Seq<char>, Seq<char>)>::empty(),
            r.wf(),
    {
        let r = EnvMap { entries: Vec::new() };
        assert(r@ =~= Seq::<(Seq<char>, Seq<char>)>::empty());
        r
    }

    /// Number of entries.
    pub fn len(&self) -> (r: usize)
        ensures
            r == self@.len(),
    {
        self.entries.len()
    }

    fn find(&self, key: &String) -> (r: Option<usize>)
        ensures
            r matches Some(i) ==> index_of_key(self@, key@) == Some(i as nat) && i < self.entries.len(),
            r is None ==> index_of_key(self@, key@) is None,
            self@.len() == self.entries.len(),
    {
        let mut i: usize = 0;
        while i < self.entries.len()
            invariant
                i <= self.entries.len(),
                forall|j: int| 0 <= j < i ==> self@[j].0 != key@,
            decreases self.entries.len() - i,
        {
            if self.entries[i].0 == *key {
                proof {
                    lemma_index_of_key(self@, key@);
                    assert(self@[i as int].0 == key@);
                    match index_of_key(self@, key@) {
                        Some(m) => {
                            if m < i {
                                assert(self@[m as int].0 == key@);
                            }
                        },
                        None => {},
                    }
                }
                return Some(i);
            }
            i += 1;
        }
        proof {
            lemma_index_of_key(self@, key@);
            if let Some(m) = index_of_key(self@, key@) {
                assert(self@[m as int].0 == key@);
            }
        }
        None
    }

    /// Inserts or replaces the value for `key`.
    pub fn insert(&mut self, key: String, value: String)
        requires
            old(self).wf(),
        ensures
            final(self)@ == env_insert(old(self)@, key@, value@),
            final(self).wf(),
    {
        proof {
            lemma_lookup_insert(self@, key@, value@, key@);
        }
        match self.find(&key) {
            Some(i) => {
                let ghost kv = key@;
                let ghost vv = value@;
                self.entries.set(i, (key, value));
                assert(self@ =~= old(self)@.update(i as int, (kv, vv)));
            },
            None => {
                let ghost kv = key@;
                let ghost vv = value@;
                self.entries.push((key, value));
                assert(self@ =~= old(self)@.push((kv, vv)));
            },
        }
    }

    /// The value stored under `key`.
    pub fn get(&self, key: &str) -> (r: Option<String>)
        ensures
            r matches Some(v) ==> lookup(self@, key@) == Some(v@),
            r is None ==> lookup(self@, key@) is None,
    {
        let k = key.to_owned();
        match self.find(&k) {
            Some(i) => {
                assert(self@[i as int].1 == self.entries@[i as int].1@);
                Some(self.entries[i].1.clone())
            },
            None => None,
        }
    }

    /// Whether `key` has an entry.
    pub fn contains_key(&self, key: &str) -> (r: bool)
        ensures
            r == (lookup(self@, key@) is Some),
    {
        self.get(key).is_some()
    }

    /// The key and value of entry `i`.
    pub fn entry(&self, i: usize) -> (r: (String, String))
        requires
            i < self@.len(),
        ensures
            r.0@ == self@[i as int].0,
            r.1@ == self@[i as int].1,
    {
        let (k, v) = &self.entries[i];
        (k.clone(), v.clone())
    }
}

// ---------------------------------------------------------------------------
// Parsing a whole file.
// ---------------------------------------------------------------------------

/// The entries a sequence of lines defines, later lines overriding earlier ones.
pub open spec fn entries_of_lines(ls: Seq<Seq<char>>) -> Seq<(Seq<char>, Seq<char>)>
    decreases ls.len(),
{
    if ls.len() == 0 {
        Seq::empty()
    } else {
        let e = entries_of_lines(ls.drop_last());
        match parse_line(ls.last()) {
            Some((k, v)) => env_insert(e, k, v),
            None => e,
        }
    }
}

/// Text whose every line can be parsed (no value is one lone quote).
pub open spec fn parsable_text(s: Seq<char>) -> bool {
    forall|i: int| 0 <= i < text_lines(s).len() ==> !line_breaks_unquote(#[trigger] text_lines(s)[i])
}

/// The `KEY=value` pairs of `.env` text.
pub open spec fn parse_env(s: Seq<char>) -> Seq<(Seq<char>, Seq<char>)> {
    entries_of_lines(text_lines(s))
}

pub proof fn lemma_entries_unique(ls: Seq<Seq<char>>)
    ensures
        keys_unique(entries_of_lines(ls)),
    decreases ls.len(),
{
    if ls.len() > 0 {
        lemma_entries_unique(ls.drop_last());
        if let Some((k, v)) = parse_line(ls.last()) {
            lemma_lookup_insert(entries_of_lines(ls.drop_last()), k, v, k);
        }
    }
}

/// Whether every line of `.env` text can be parsed: no value is one lone
/// quote character.
pub fn env_text_parsable(content: &str) -> (r: bool)
    ensures
        r == parsable_text(content@),
{
    let v = to_chars(content);
    let lines = split_lines(&v);
    let mut i: usize = 0;
    while i < lines.len()
        invariant
            views(lines@) == text_lines(content@),
            i <= lines.len(),
            forall|j: int| 0 <= j < i ==> !line_breaks_unquote(#[trigger] text_lines(content@)[j]),
        decreases lines.len() - i,
    {
        assert(views(lines@)[i as int] == lines@[i as int]@);
        match split_line_exec(&lines[i]) {
            Some((_k, val)) => {
                if val.len() == 1 && (val[0] == '"' || val[0] == '\'') {
                    return false;
                }
            },
            None => {},
        }
        i += 1;
    }
    true
}

/// Parses `.env` text into its `KEY=value` pairs. Blank lines and `#`
/// comments are skipped, keys and values are trimmed, a value in matching
/// quotes loses them, and a later line for a key overrides an earlier one.
pub fn parse_env_content(content: &str) -> (r: EnvMap)
    requires
        parsable_text(content@),
    ensures
        r@ == parse_env(content@),
        r.wf(),
{
    let v = to_chars(content);
    let lines = split_lines(&v);
    let mut map = EnvMap::new();
    for i in 0..lines.len()
        invariant
            views(lines@) == text_lines(content@),
            parsable_text(content@),
            map@ == entries_of_lines(views(lines@).take(i as int)),
            map.wf(),
    {
        assert(views(lines@)[i as int] == lines@[i as int]@);
        assert(!line_breaks_unquote(text_lines(content@)[i as int]));
        assert(views(lines@).take(i + 1).drop_last() =~= views(lines@).take(i as int));
        assert(views(lines@).take(i + 1).last() == lines@[i as int]@);
        match parse_line_exec(&lines[i]) {
            Some((k, val)) => {
                map.insert(string_from_chars(&k), string_from_chars(&val));
            },
            None => {},
        }
    }
    assert(views(lines@).take(lines.len() as int) =~= views(lines@));
    map
}

} // verus!

verus! {

// ---------------------------------------------------------------------------
// Quoting values.
// ---------------------------------------------------------------------------

/// Characters that never need quoting in a value.
/// (`char::is_alphanumeric`, which on ASCII holds for exactly the letters
/// and digits.)
pub open spec fn plain_value_char(c: char) -> bool {
    (if (c as u32) < 128 {
        spec_is_ascii_alphanumeric(c)
    } else {
        unicode_alphanumeric(c)
    }) || c == '_' || c == '-' || c == '.' || c == '/' || c == ':'
}

/// `\` and `"` escaped with a backslash.
pub open spec fn escape_value(v: Seq<char>) -> Seq<char>
    decreases v.len(),
{
    if v.len() == 0 {
        v
    } else {
        let c = v[0];
        (if c == '\\' {
            seq!['\\', '\\']
        } else if c == '"' {
            seq!['\\', '"']
        } else {
            seq![c]
        }) + escape_value(v.skip(1))
    }
}

/// How a value is written: as is when empty or made of plain characters,
/// otherwise in double quotes with `\` and `"` escaped.
pub open spec fn quoted_value(v: Seq<char>) -> Seq<char> {
    if v.len() == 0 || (forall|i: int| 0 <= i < v.len() ==> plain_value_char(#[trigger] v[i])) {
        v
    } else {
        seq!['"'] + escape_value(v) + seq!['"']
    }
}

/// How a value is written, given which of its characters are alphanumeric
/// (`alnum`): as is when empty or when every character is alphanumeric or
/// one of `_ - . / :`, otherwise in double quotes with `\` and `"` escaped.
pub open spec fn quoted_by_flags(v: Seq<char>, alnum: Seq<bool>) -> Seq<char> {
    if v.len() == 0 || (forall|i: int| 0 <= i < v.len() ==> #[trigger] alnum[i] || v[i] == '_' || v[i] == '-' || v[i]
        == '.' || v[i] == '/' || v[i] == ':') {
        v
    } else {
        seq!['"'] + escape_value(v) + seq!['"']
    }
}

fn quote_value_chars(v: &Vec<char>) -> (r: Vec<char>)
    ensures
        r@ == quoted_value(v@),
{
    let mut alnum: Vec<bool> = Vec::new();
    for i in 0..v.len()
        invariant
            alnum.len() == i,
            forall|j: int| 0 <= j < i ==> #[trigger] alnum@[j] == (if (v@[j] as u32) < 128 {
                spec_is_ascii_alphanumeric(v@[j])
            } else {
                unicode_alphanumeric(v@[j])
            }),
    {
        alnum.push(is_alphanumeric(v[i]));
    }
    assert(quoted_by_flags(v@, alnum@) == quoted_value(v@)) by {
        let fl = forall|i: int| 0 <= i < v.len() ==> #[trigger] alnum@[i] || v@[i] == '_' || v@[i] == '-' || v@[i] == '.'
            || v@[i] == '/' || v@[i] == ':';
        let pl = forall|i: int| 0 <= i < v.len() ==> plain_value_char(#[trigger] v@[i]);
        if fl {
            assert forall|i: int| 0 <= i < v.len() implies plain_value_char(#[trigger] v@[i]) by {
                assert(alnum@[i] || v@[i] == '_' || v@[i] == '-' || v@[i] == '.' || v@[i] == '/' || v@[i] == ':');
            }
        }
        if pl {
            assert forall|i: int| 0 <= i < v.len() implies #[trigger] alnum@[i] || v@[i] == '_' || v@[i] == '-' || v@[i]
                == '.' || v@[i] == '/' || v@[i] == ':' by {
                assert(plain_value_char(v@[i]));
            }
        }
        assert(fl == pl);
    }
    quote_with_flags(v, &alnum)
}

/// Writes a value as [`quoted_by_flags`] does, given which of its
/// characters are alphanumeric.
pub fn quote_with_flags(v: &Vec<char>, alnum: &Vec<bool>) -> (r: Vec<char>)
    requires
        alnum.len() == v.len(),
    ensures
        r@ == quoted_by_flags(v@, alnum@),
{
    if v.len() == 0 {
        return Vec::new();
    }
    let mut plain = true;
    for i in 0..v.len()
        invariant
            alnum.len() == v.len(),
            plain == forall|j: int| 0 <= j < i ==> #[trigger] alnum@[j] || v@[j] == '_' || v@[j] == '-' || v@[j] == '.'
                || v@[j] == '/' || v@[j] == ':',
    {
        let c = v[i];
        if !(alnum[i] || c == '_' || c == '-' || c == '.' || c == '/' || c == ':') {
            plain = false;
        }
    }
    if plain {
        return slice_chars(v, 0, v.len());
    }
    let mut out: Vec<char> = Vec::new();
    out.push('"');
    assert(v@.skip(0) =~= v@);
    for i in 0..v.len()
        invariant
            out@ + escape_value(v@.skip(i as int)) == seq!['"'] + escape_value(v@),
    {
        let ghost rest = v@.skip(i as int);
        assert(rest.skip(1) =~= v@.skip(i + 1));
        let c = v[i];
        if c == '\\' {
            out.push('\\');
            out.push('\\');
        } else if c == '"' {
            out.push('\\');
            out.push('"');
        } else {
            out.push(c);
        }
        assert(out@ + escape_value(v@.skip(i + 1)) =~= seq!['"'] + escape_value(v@));
    }
    assert(v@.skip(v.len() as int) =~= Seq::<char>::empty());
    assert(out@ + Seq::<char>::empty() =~= out@);
    out.push('"');
    out
}

/// Quotes a value for `.env` when it holds characters that would break
/// parsing.
pub fn quote_env_value(value: &str) -> (r: String)
    ensures
        r@ == quoted_value(value@),
{
    let v = to_chars(value);
    string_from_chars(&quote_value_chars(&v))
}

// ---------------------------------------------------------------------------
// Updating and removing keys.
// ---------------------------------------------------------------------------

/// The `KEY=value` line written for an entry.
pub open spec fn assignment(k: Seq<char>, v: Seq<char>) -> Seq<char> {
    k + seq!['='] + quoted_value(v)
}

/// A line after an update: a `KEY=...` line whose key has a new value is
/// rewritten, every other line is kept as it is.
pub open spec fn updated_line(line: Seq<char>, updates: Seq<(Seq<char>, Seq<char>)>) -> Seq<char> {
    match split_line(line) {
        Some((k, _v)) => match lookup(updates, k) {
            Some(v) => assignment(k, v),
            None => line,
        },
        None => line,
    }
}

/// The key a line assigns, if any.
pub open spec fn line_key(line: Seq<char>) -> Option<Seq<char>> {
    match split_line(line) {
        Some((k, _v)) => Some(k),
        None => None,
    }
}

/// Whether some line assigns `k`.
pub open spec fn lines_assign(ls: Seq<Seq<char>>, k: Seq<char>) -> bool {
    exists|i: int| 0 <= i < ls.len() && #[trigger] line_key(ls[i]) == Some(k)
}

/// The lines appended for updates whose key no line assigns, in order.
pub open spec fn appended_lines(ls: Seq<Seq<char>>, updates: Seq<(Seq<char>, Seq<char>)>) -> Seq<Seq<char>>
    decreases updates.len(),
{
    if updates.len() == 0 {
        Seq::empty()
    } else {
        let rest = appended_lines(ls, updates.drop_last());
        let (k, v) = updates.last();
        if lines_assign(ls, k) {
            rest
        } else {
            rest.push(assignment(k, v))
        }
    }
}

/// Every line after an update.
pub open spec fn updated_lines(ls: Seq<Seq<char>>, updates: Seq<(Seq<char>, Seq<char>)>) -> Seq<Seq<char>> {
    ls.map_values(|l: Seq<char>| updated_line(l, updates))
}

/// The text after `updates` are applied: lines are rewritten in place and
/// new keys are appended at the end; the result ends with a newline.
pub open spec fn updated_text(s: Seq<char>, updates: Seq<(Seq<char>, Seq<char>)>) -> Seq<char> {
    let ls = text_lines(s);
    written(updated_lines(ls, updates) + appended_lines(ls, updates))
}

fn assignment_chars(k: &Vec<char>, v: &Vec<char>) -> (r: Vec<char>)
    ensures
        r@ == assignment(k@, v@),
{
    let mut r = slice_chars(k, 0, k.len());
    assert(r@ =~= k@);
    r.push('=');
    let q = quote_value_chars(v);
    extend_chars(&mut r, &q);
    r
}

/// Rewrites `.env` text with new values for the keys in `updates`.
/// Comments, blank lines and the order of other keys are kept; keys that no
/// line assigns are appended at the end.
pub fn update_env_content(content: &str, updates: &EnvMap) -> (r: String)
    requires
        updates.wf(),
    ensures
        r@ == updated_text(content@, updates@),
{
    let v = to_chars(content);
    let lines = split_lines(&v);
    let ghost ls = views(lines@);
    let mut out_lines: Vec<Vec<char>> = Vec::new();
    let mut line_keys: Vec<Option<Vec<char>>> = Vec::new();
    for i in 0..lines.len()
        invariant
            ls == views(lines@),
            views(out_lines@) == ls.take(i as int).map_values(|l: Seq<char>| updated_line(l, updates@)),
            line_keys.len() == i,
            forall|j: int|
                0 <= j < i ==> match #[trigger] line_keys@[j] {
                    Some(k) => line_key(ls[j]) == Some(k@),
                    None => line_key(ls[j]) is None,
                },
    {
        assert(ls[i as int] == lines@[i as int]@);
        let ghost before = views(out_lines@);
        match split_line_exec(&lines[i]) {
            Some((k, _val)) => {
                let ks = string_from_chars(&k);
                match updates.get(ks.as_str()) {
                    Some(nv) => {
                        let nvc = to_chars(nv.as_str());
                        out_lines.push(assignment_chars(&k, &nvc));
                    },
                    None => {
                        out_lines.push(slice_chars(&lines[i], 0, lines[i].len()));
                        assert(lines@[i as int]@.subrange(0, lines@[i as int]@.len() as int) =~= lines@[i as int]@);
                    },
                }
                line_keys.push(Some(k));
            },
            None => {
                out_lines.push(slice_chars(&lines[i], 0, lines[i].len()));
                assert(lines@[i as int]@.subrange(0, lines@[i as int]@.len() as int) =~= lines@[i as int]@);
                line_keys.push(None);
            },
        }
        assert(views(out_lines@) =~= before.push(updated_line(ls[i as int], updates@)));
        assert(ls.take(i + 1) =~= ls.take(i as int).push(ls[i as int]));
        assert(views(out_lines@) =~= ls.take(i + 1).map_values(|l: Seq<char>| updated_line(l, updates@)));
    }
    assert(ls.take(lines.len() as int) =~= ls);
    let ghost rewritten = views(out_lines@);
    let n = updates.len();
    for e in 0..n
        invariant
            n == updates@.len(),
            ls == views(lines@),
            line_keys.len() == ls.len(),
            forall|j: int|
                0 <= j < ls.len() ==> match #[trigger] line_keys@[j] {
                    Some(k) => line_key(ls[j]) == Some(k@),
                    None => line_key(ls[j]) is None,
                },
            views(out_lines@) == rewritten + appended_lines(ls, updates@.take(e as int)),
    {
        let (k, val) = updates.entry(e);
        let kc = to_chars(k.as_str());
        let mut found = false;
        for j in 0..line_keys.len()
            invariant
                line_keys.len() == ls.len(),
                forall|m: int|
                    0 <= m < ls.len() ==> match #[trigger] line_keys@[m] {
                        Some(k) => line_key(ls[m]) == Some(k@),
                        None => line_key(ls[m]) is None,
                    },
                found == exists|m: int| 0 <= m < j && #[trigger] line_key(ls[m]) == Some(kc@),
        {
            match &line_keys[j] {
                Some(lk) => {
                    if crate::chars::chars_eq(lk, &kc) {
                        found = true;
                    }
                },
                None => {},
            }
        }
        let ghost before = views(out_lines@);
        assert(updates@.take(e + 1).drop_last() =~= updates@.take(e as int));
        assert(updates@.take(e + 1).last() == updates@[e as int]);
        if !found {
            let vc = to_chars(val.as_str());
            out_lines.push(assignment_chars(&kc, &vc));
            assert(views(out_lines@) =~= before.push(assignment(kc@, vc@)));
        }
        assert(views(out_lines@) =~= rewritten + appended_lines(ls, updates@.take(e + 1)));
    }
    assert(updates@.take(n as int) =~= updates@);
    let r = write_lines(&out_lines);
    string_from_chars(&r)
}

/// The lines kept when `keys` are removed.
pub open spec fn kept_lines(ls: Seq<Seq<char>>, keys: Seq<Seq<char>>) -> Seq<Seq<char>>
    decreases ls.len(),
{
    if ls.len() == 0 {
        ls
    } else {
        let rest = kept_lines(ls.drop_last(), keys);
        match split_line(ls.last()) {
            Some((k, _v)) => if keys.contains(k) {
                rest
            } else {
                rest.push(ls.last())
            },
            None => rest.push(ls.last()),
        }
    }
}

/// The text with every line that assigns one of `keys` left out.
pub open spec fn removed_text(s: Seq<char>, keys: Seq<Seq<char>>) -> Seq<char> {
    written(kept_lines(text_lines(s), keys))
}

/// Removes the lines that assign any of `keys`; comments, blank lines and
/// the order of the remaining keys are kept.
pub fn remove_env_keys_content(content: &str, keys: &Vec<String>) -> (r: String)
    ensures
        r@ == removed_text(content@, keys@.map_values(|k: String| k@)),
{
    let ghost kv = keys@.map_values(|k: String| k@);
    let v = to_chars(content);
    let lines = split_lines(&v);
    let ghost ls = views(lines@);
    let mut out_lines: Vec<Vec<char>> = Vec::new();
    for i in 0..lines.len()
        invariant
            ls == views(lines@),
            kv == keys@.map_values(|k: String| k@),
            views(out_lines@) == kept_lines(ls.take(i as int), kv),
    {
        assert(ls[i as int] == lines@[i as int]@);
        assert(ls.take(i + 1).drop_last() =~= ls.take(i as int));
        assert(ls.take(i + 1).last() == ls[i as int]);
        let ghost before = views(out_lines@);
        let mut keep = true;
        match split_line_exec(&lines[i]) {
            Some((k, _val)) => {
                let ks = string_from_chars(&k);
                let mut hit = false;
                for j in 0..keys.len()
                    invariant
                        kv == keys@.map_values(|k: String| k@),
                        hit == exists|m: int| 0 <= m < j && kv[m] == ks@,
                {
                    assert(kv[j as int] == keys@[j as int]@);
                    if keys[j] == ks {
                        hit = true;
                    }
                }
                proof {
                    if kv.contains(ks@) {
                        let m = choose|m: int| 0 <= m < kv.len() && kv[m] == ks@;
                        assert(0 <= m < keys.len());
                    }
                }
                keep = !hit;
            },
            None => {},
        }
        if keep {
            out_lines.push(slice_chars(&lines[i], 0, lines[i].len()));
            assert(lines@[i as int]@.subrange(0, lines@[i as int]@.len() as int) =~= lines@[i as int]@);
            assert(views(out_lines@) =~= before.push(ls[i as int]));
        } else {
            assert(views(out_lines@) =~= before);
        }
    }
    assert(ls.take(lines.len() as int) =~= ls);
    let r = write_lines(&out_lines);
    string_from_chars(&r)
}

} // verus!

verus! {

// ---------------------------------------------------------------------------
// Insight providers stored as `INSIGHT_PROVIDER_<n>_<FIELD>` keys.
// ---------------------------------------------------------------------------

/// The abstract content of a [`ProviderConfig`].
pub struct ProviderSpec {
    pub name: Seq<char>,
    pub provider_type: Seq<char>,
    pub base_url: Seq<char>,
    pub api_keys: Seq<Seq<char>>,
    pub model: Seq<char>,
    pub max_tokens: Seq<char>,
    pub reasoning_effort: Seq<char>,
    pub user_agent: Seq<char>,
    pub temperature: Seq<char>,
    pub top_p: Seq<char>,
    pub is_digest: Seq<char>,
    pub is_comment: Seq<char>,
    pub enabled: Seq<char>,
}

/// Provider configuration fields, as they appear in the admin form.
/// An empty `temperature` or `top_p` means "unset".
#[derive(Debug, Clone)]
pub struct ProviderConfig {
    pub name: String,
    pub provider_type: String,
    pub base_url: String,
    pub api_keys: Vec<String>,
    pub model: String,
    pub max_tokens: String,
    pub reasoning_effort: String,
    pub user_agent: String,
    pub temperature: String,
    pub top_p: String,
    pub is_digest: String,
    pub is_comment: String,
    pub enabled: String,
}

impl View for ProviderConfig {
    type V = ProviderSpec;

    open spec fn view(&self) -> ProviderSpec {
        ProviderSpec {
            name: self.name@,
            provider_type: self.provider_type@,
            base_url: self.base_url@,
            api_keys: string_views(self.api_keys@),
            model: self.model@,
            max_tokens: self.max_tokens@,
            reasoning_effort: self.reasoning_effort@,
            user_agent: self.user_agent@,
            temperature: self.temperature@,
            top_p: self.top_p@,
            is_digest: self.is_digest@,
            is_comment: self.is_comment@,
            enabled: self.enabled@,
        }
    }
}

/// `INSIGHT_PROVIDER_<index>_<suffix>`.
pub open spec fn provider_key(index: nat, suffix: Seq<char>) -> Seq<char> {
    "INSIGHT_PROVIDER_"@ + decimal(index) + seq!['_'] + suffix
}

/// `API_KEY_<k>`.
pub open spec fn api_key_suffix(k: nat) -> Seq<char> {
    "API_KEY_"@ + decimal(k)
}

/// The field suffixes of a provider, in the order they are listed.
pub open spec fn field_suffix(j: nat) -> Seq<char> {
    if j == 0 { "NAME"@ }
    else if j == 1 { "TYPE"@ }
    else if j == 2 { "BASE_URL"@ }
    else if j == 3 { "API_KEY"@ }
    else if j == 4 { "MODEL"@ }
    else if j == 5 { "MAX_TOKENS"@ }
    else if j == 6 { "REASONING_EFFORT"@ }
    else if j == 7 { "TEMPERATURE"@ }
    else if j == 8 { "TOP_P"@ }
    else if j == 9 { "USER_AGENT"@ }
    else if j == 10 { "IS_DIGEST"@ }
    else if j == 11 { "IS_COMMENT"@ }
    else { "ENABLED"@ }
}

fn field_suffix_exec(j: usize) -> (r: &'static str)
    requires
        j < 13,
    ensures
        r@ == field_suffix(j as nat),
{
    if j == 0 { "NAME" }
    else if j == 1 { "TYPE" }
    else if j == 2 { "BASE_URL" }
    else if j == 3 { "API_KEY" }
    else if j == 4 { "MODEL" }
    else if j == 5 { "MAX_TOKENS" }
    else if j == 6 { "REASONING_EFFORT" }
    else if j == 7 { "TEMPERATURE" }
    else if j == 8 { "TOP_P" }
    else if j == 9 { "USER_AGENT" }
    else if j == 10 { "IS_DIGEST" }
    else if j == 11 { "IS_COMMENT" }
    else { "ENABLED" }
}

fn provider_key_exec(index: usize, suffix: &str) -> (r: String)
    ensures
        r@ == provider_key(index as nat, suffix@),
{
    let mut v = to_chars("INSIGHT_PROVIDER_");
    let d = usize_to_decimal(index);
    extend_chars(&mut v, &d);
    v.push('_');
    let s = to_chars(suffix);
    extend_chars(&mut v, &s);
    string_from_chars(&v)
}

fn api_key_name_exec(index: usize, k: usize) -> (r: String)
    ensures
        r@ == provider_key(index as nat, api_key_suffix(k as nat)),
{
    let mut s = to_chars("API_KEY_");
    let d = usize_to_decimal(k);
    extend_chars(&mut s, &d);
    let suffix = string_from_chars(&s);
    provider_key_exec(index, suffix.as_str())
}

pub open spec fn insert_nonempty(e: Seq<(Seq<char>, Seq<char>)>, k: Seq<char>, v: Seq<char>) -> Seq<(Seq<char>, Seq<char>)> {
    if v.len() > 0 {
        env_insert(e, k, v)
    } else {
        e
    }
}

/// The numbered API keys: key number `j + 1` for each non-empty `keys[j]`.
pub open spec fn insert_api_keys(e: Seq<(Seq<char>, Seq<char>)>, index: nat, keys: Seq<Seq<char>>) -> Seq<(Seq<char>, Seq<char>)>
    decreases keys.len(),
{
    if keys.len() == 0 {
        e
    } else {
        insert_nonempty(
            insert_api_keys(e, index, keys.drop_last()),
            provider_key(index, api_key_suffix(keys.len())),
            keys.last(),
        )
    }
}

/// The entries written for a provider in slot `i`. Optional fields are
/// written only when set; the singular `API_KEY` is always written empty,
/// and `REASONING_EFFORT`, `TEMPERATURE` and `TOP_P` are always written, so
/// that clearing them removes any earlier value.
pub open spec fn provider_entries(p: ProviderSpec, i: nat) -> Seq<(Seq<char>, Seq<char>)> {
    let e = Seq::empty();
    let e = insert_nonempty(e, provider_key(i, "NAME"@), p.name);
    let e = insert_nonempty(e, provider_key(i, "TYPE"@), p.provider_type);
    let e = insert_nonempty(e, provider_key(i, "BASE_URL"@), p.base_url);
    let e = env_insert(e, provider_key(i, "API_KEY"@), Seq::empty());
    let e = insert_api_keys(e, i, p.api_keys);
    let e = insert_nonempty(e, provider_key(i, "MODEL"@), p.model);
    let e = insert_nonempty(e, provider_key(i, "MAX_TOKENS"@), p.max_tokens);
    let e = env_insert(e, provider_key(i, "REASONING_EFFORT"@), p.reasoning_effort);
    let e = env_insert(e, provider_key(i, "TEMPERATURE"@), p.temperature);
    let e = env_insert(e, provider_key(i, "TOP_P"@), p.top_p);
    let e = insert_nonempty(e, provider_key(i, "USER_AGENT"@), p.user_agent);
    let e = insert_nonempty(e, provider_key(i, "IS_DIGEST"@), p.is_digest);
    let e = insert_nonempty(e, provider_key(i, "IS_COMMENT"@), p.is_comment);
    insert_nonempty(e, provider_key(i, "ENABLED"@), p.enabled)
}

fn insert_if_set(map: &mut EnvMap, key: String, value: &String)
    requires
        old(map).wf(),
    ensures
        final(map).wf(),
        final(map)@ == insert_nonempty(old(map)@, key@, value@),
{
    if value.as_str().is_empty() {
        return;
    }
    map.insert(key, value.clone());
}

impl ProviderConfig {
    /// All env key-value pairs for this provider in slot `index`.
    pub fn to_env_map(&self, index: usize) -> (r: EnvMap)
        ensures
            r@ == provider_entries(self@, index as nat),
            r.wf(),
    {
        let mut map = EnvMap::new();
        insert_if_set(&mut map, provider_key_exec(index, "NAME"), &self.name);
        insert_if_set(&mut map, provider_key_exec(index, "TYPE"), &self.provider_type);
        insert_if_set(&mut map, provider_key_exec(index, "BASE_URL"), &self.base_url);
        map.insert(provider_key_exec(index, "API_KEY"), String::new());
        let ghost base = map@;
        let n = self.api_keys.len();
        for ki in 0..n
            invariant
                n == self.api_keys.len(),
                map.wf(),
                map@ == insert_api_keys(base, index as nat, string_views(self.api_keys@).take(ki as int)),
        {
            assert(string_views(self.api_keys@).take(ki + 1).drop_last() =~= string_views(self.api_keys@).take(ki as int));
            assert(string_views(self.api_keys@).take(ki + 1).last() == self.api_keys@[ki as int]@);
            insert_if_set(&mut map, api_key_name_exec(index, ki + 1), &self.api_keys[ki]);
        }
        assert(string_views(self.api_keys@).take(n as int) =~= string_views(self.api_keys@));
        insert_if_set(&mut map, provider_key_exec(index, "MODEL"), &self.model);
        insert_if_set(&mut map, provider_key_exec(index, "MAX_TOKENS"), &self.max_tokens);
        map.insert(provider_key_exec(index, "REASONING_EFFORT"), self.reasoning_effort.clone());
        map.insert(provider_key_exec(index, "TEMPERATURE"), self.temperature.clone());
        map.insert(provider_key_exec(index, "TOP_P"), self.top_p.clone());
        insert_if_set(&mut map, provider_key_exec(index, "USER_AGENT"), &self.user_agent);
        insert_if_set(&mut map, provider_key_exec(index, "IS_DIGEST"), &self.is_digest);
        insert_if_set(&mut map, provider_key_exec(index, "IS_COMMENT"), &self.is_comment);
        insert_if_set(&mut map, provider_key_exec(index, "ENABLED"), &self.enabled);
        map
    }
}

} // verus!

verus! {

pub open spec fn get_or_empty(env: Seq<(Seq<char>, Seq<char>)>, k: Seq<char>) -> Seq<char> {
    match lookup(env, k) {
        Some(v) => v,
        None => Seq::empty(),
    }
}

/// The non-empty values of `API_KEY_1` to `API_KEY_<upto>` of slot `i`, in order.
pub open spec fn numbered_api_keys(env: Seq<(Seq<char>, Seq<char>)>, i: nat, upto: nat) -> Seq<Seq<char>>
    decreases upto,
{
    if upto == 0 {
        Seq::empty()
    } else {
        let r = numbered_api_keys(env, i, (upto - 1) as nat);
        let v = get_or_empty(env, provider_key(i, api_key_suffix(upto)));
        if v.len() > 0 {
            r.push(v)
        } else {
            r
        }
    }
}

/// The API keys of slot `i`: the numbered keys `API_KEY_1..=100`, or the
/// singular `API_KEY` when no numbered key is set.
pub open spec fn provider_api_keys(env: Seq<(Seq<char>, Seq<char>)>, i: nat) -> Seq<Seq<char>> {
    let n = numbered_api_keys(env, i, 100);
    if n.len() > 0 {
        n
    } else {
        let single = get_or_empty(env, provider_key(i, "API_KEY"@));
        if single.len() > 0 {
            seq![single]
        } else {
            Seq::empty()
        }
    }
}

pub open spec fn provider_from_env(env: Seq<(Seq<char>, Seq<char>)>, i: nat) -> ProviderSpec {
    ProviderSpec {
        name: get_or_empty(env, provider_key(i, "NAME"@)),
        provider_type: get_or_empty(env, provider_key(i, "TYPE"@)),
        base_url: get_or_empty(env, provider_key(i, "BASE_URL"@)),
        api_keys: provider_api_keys(env, i),
        model: get_or_empty(env, provider_key(i, "MODEL"@)),
        max_tokens: get_or_empty(env, provider_key(i, "MAX_TOKENS"@)),
        reasoning_effort: get_or_empty(env, provider_key(i, "REASONING_EFFORT"@)),
        user_agent: get_or_empty(env, provider_key(i, "USER_AGENT"@)),
        temperature: get_or_empty(env, provider_key(i, "TEMPERATURE"@)),
        top_p: get_or_empty(env, provider_key(i, "TOP_P"@)),
        is_digest: get_or_empty(env, provider_key(i, "IS_DIGEST"@)),
        is_comment: get_or_empty(env, provider_key(i, "IS_COMMENT"@)),
        enabled: get_or_empty(env, provider_key(i, "ENABLED"@)),
    }
}

/// Slot `i` holds a provider when its `NAME` is set and not blank.
pub open spec fn slot_in_use(env: Seq<(Seq<char>, Seq<char>)>, i: nat) -> bool {
    match lookup(env, provider_key(i, "NAME"@)) {
        Some(n) => trim(n).len() > 0,
        None => false,
    }
}

/// The providers of slots `1..=upto`, in slot order.
pub open spec fn providers_upto(env: Seq<(Seq<char>, Seq<char>)>, upto: nat) -> Seq<(nat, ProviderSpec)>
    decreases upto,
{
    if upto == 0 {
        Seq::empty()
    } else {
        let r = providers_upto(env, (upto - 1) as nat);
        if slot_in_use(env, upto) {
            r.push((upto, provider_from_env(env, upto)))
        } else {
            r
        }
    }
}

pub open spec fn provider_list_view(v: Seq<(usize, ProviderConfig)>) -> Seq<(nat, ProviderSpec)> {
    v.map_values(|e: (usize, ProviderConfig)| (e.0 as nat, e.1@))
}

fn get_or_empty_exec(env: &EnvMap, key: &String) -> (r: String)
    ensures
        r@ == get_or_empty(env@, key@),
{
    match env.get(key.as_str()) {
        Some(v) => v,
        None => String::new(),
    }
}

fn trimmed_is_empty(s: &String) -> (r: bool)
    ensures
        r == (trim(s@).len() == 0),
{
    let v = to_chars(s.as_str());
    trim_chars(&v).len() == 0
}

/// All provider configurations held in parsed `.env` entries (slots 1 to 10).
pub fn providers_from_env(env: &EnvMap) -> (r: Vec<(usize, ProviderConfig)>)
    ensures
        provider_list_view(r@) == providers_upto(env@, 10),
{
    let mut r: Vec<(usize, ProviderConfig)> = Vec::new();
    for i in 1..11usize
        invariant
            provider_list_view(r@) == providers_upto(env@, (i - 1) as nat),
    {
        let ghost before = provider_list_view(r@);
        let name_key = provider_key_exec(i, "NAME");
        match env.get(name_key.as_str()) {
            Some(name) => {
                if !trimmed_is_empty(&name) {
                    let mut api_keys: Vec<String> = Vec::new();
                    for ki in 1..101usize
                        invariant
                            string_views(api_keys@) == numbered_api_keys(env@, i as nat, (ki - 1) as nat),
                    {
                        let key = get_or_empty_exec(env, &api_key_name_exec(i, ki));
                        if !key.as_str().is_empty() {
                            let ghost b = string_views(api_keys@);
                            api_keys.push(key);
                            assert(string_views(api_keys@) =~= b.push(key@));
                        }
                    }
                    if api_keys.len() == 0 {
                        let single = get_or_empty_exec(env, &provider_key_exec(i, "API_KEY"));
                        if !single.as_str().is_empty() {
                            api_keys.push(single);
                            assert(string_views(api_keys@) =~= seq![single@]);
                        } else {
                            assert(string_views(api_keys@) =~= Seq::<Seq<char>>::empty());
                        }
                    }
                    let p = ProviderConfig {
                        name: name,
                        provider_type: get_or_empty_exec(env, &provider_key_exec(i, "TYPE")),
                        base_url: get_or_empty_exec(env, &provider_key_exec(i, "BASE_URL")),
                        api_keys: api_keys,
                        model: get_or_empty_exec(env, &provider_key_exec(i, "MODEL")),
                        max_tokens: get_or_empty_exec(env, &provider_key_exec(i, "MAX_TOKENS")),
                        reasoning_effort: get_or_empty_exec(env, &provider_key_exec(i, "REASONING_EFFORT")),
                        user_agent: get_or_empty_exec(env, &provider_key_exec(i, "USER_AGENT")),
                        temperature: get_or_empty_exec(env, &provider_key_exec(i, "TEMPERATURE")),
                        top_p: get_or_empty_exec(env, &provider_key_exec(i, "TOP_P")),
                        is_digest: get_or_empty_exec(env, &provider_key_exec(i, "IS_DIGEST")),
                        is_comment: get_or_empty_exec(env, &provider_key_exec(i, "IS_COMMENT")),
                        enabled: get_or_empty_exec(env, &provider_key_exec(i, "ENABLED")),
                    };
                    assert(p@ == provider_from_env(env@, i as nat));
                    r.push((i, p));
                    assert(provider_list_view(r@) =~= before.push((i as nat, provider_from_env(env@, i as nat))));
                }
            },
            None => {},
        }
    }
    r
}

/// All provider configurations of `.env` text.
pub fn read_providers(content: &str) -> (r: Vec<(usize, ProviderConfig)>)
    requires
        parsable_text(content@),
    ensures
        provider_list_view(r@) == providers_upto(parse_env(content@), 10),
{
    let env = parse_env_content(content);
    providers_from_env(&env)
}

/// The first slot from `i` to 10 that holds no provider.
pub open spec fn free_slot_from(env: Seq<(Seq<char>, Seq<char>)>, i: nat) -> Option<nat>
    decreases 11 - i,
{
    if i > 10 {
        None
    } else if !slot_in_use(env, i) {
        Some(i)
    } else {
        free_slot_from(env, i + 1)
    }
}

/// The first empty provider slot (1 to 10), if any.
pub fn first_free_slot(env: &EnvMap) -> (r: Option<usize>)
    ensures
        r matches Some(i) ==> free_slot_from(env@, 1) == Some(i as nat),
        r is None ==> free_slot_from(env@, 1) is None,
{
    let mut i: usize = 1;
    while i <= 10
        invariant
            1 <= i <= 11,
            free_slot_from(env@, 1) == free_slot_from(env@, i as nat),
        decreases 11 - i,
    {
        let key = provider_key_exec(i, "NAME");
        let free = match env.get(key.as_str()) {
            Some(n) => trimmed_is_empty(&n),
            None => true,
        };
        if free {
            return Some(i);
        }
        i += 1;
    }
    None
}

/// The keys a provider slot may use: its thirteen field keys, then
/// `API_KEY_1` to `API_KEY_100`.
pub open spec fn provider_key_candidates(i: nat) -> Seq<Seq<char>> {
    Seq::new(13, |j: int| provider_key(i, field_suffix(j as nat))) + Seq::new(
        100,
        |k: int| provider_key(i, api_key_suffix((k + 1) as nat)),
    )
}

/// The keys of `cands` that have an entry, in order.
pub open spec fn present_keys(env: Seq<(Seq<char>, Seq<char>)>, cands: Seq<Seq<char>>) -> Seq<Seq<char>>
    decreases cands.len(),
{
    if cands.len() == 0 {
        Seq::empty()
    } else {
        let r = present_keys(env, cands.drop_last());
        if lookup(env, cands.last()) is Some {
            r.push(cands.last())
        } else {
            r
        }
    }
}

fn push_if_present(env: &EnvMap, out: &mut Vec<String>, key: String)
    ensures
        string_views(final(out)@) == if lookup(env@, key@) is Some {
            string_views(old(out)@).push(key@)
        } else {
            string_views(old(out)@)
        },
{
    if env.contains_key(key.as_str()) {
        let ghost b = string_views(out@);
        let ghost kv = key@;
        out.push(key);
        assert(string_views(out@) =~= b.push(kv));
    }
}

/// Appends the keys of slot `index` that have an entry.
fn collect_provider_keys(env: &EnvMap, index: usize, out: &mut Vec<String>)
    ensures
        string_views(final(out)@) == string_views(old(out)@) + present_keys(env@, provider_key_candidates(index as nat)),
{
    let ghost cands = provider_key_candidates(index as nat);
    let ghost start = string_views(out@);
    assert(cands.take(0) =~= Seq::<Seq<char>>::empty());
    assert(start + present_keys(env@, Seq::<Seq<char>>::empty()) =~= start);
    for j in 0..13usize
        invariant
            cands == provider_key_candidates(index as nat),
            string_views(out@) == start + present_keys(env@, cands.take(j as int)),
    {
        let key = provider_key_exec(index, field_suffix_exec(j));
        assert(cands.take(j + 1).drop_last() =~= cands.take(j as int));
        assert(cands.take(j + 1).last() == cands[j as int]);
        push_if_present(env, out, key);
        assert(string_views(out@) =~= start + present_keys(env@, cands.take(j + 1)));
    }
    for ki in 1..101usize
        invariant
            cands == provider_key_candidates(index as nat),
            string_views(out@) == start + present_keys(env@, cands.take(12 + ki as int)),
    {
        let key = api_key_name_exec(index, ki);
        assert(cands.take(13 + ki).drop_last() =~= cands.take(12 + ki as int));
        assert(cands.take(13 + ki).last() == cands[12 + ki as int]);
        push_if_present(env, out, key);
        assert(string_views(out@) =~= start + present_keys(env@, cands.take(13 + ki as int)));
    }
    assert(cands.take(113) =~= cands);
}

/// The keys of slot `index` that the entries hold.
pub fn provider_env_keys(env: &EnvMap, index: usize) -> (r: Vec<String>)
    ensures
        string_views(r@) == present_keys(env@, provider_key_candidates(index as nat)),
{
    let mut out: Vec<String> = Vec::new();
    collect_provider_keys(env, index, &mut out);
    assert(string_views(out@) =~= Seq::<Seq<char>>::empty() + present_keys(env@, provider_key_candidates(index as nat)));
    out
}

/// The text with every key of slot `i` removed (unchanged when it holds none).
pub open spec fn without_provider(s: Seq<char>, i: nat) -> Seq<char> {
    let keys = present_keys(parse_env(s), provider_key_candidates(i));
    if keys.len() > 0 {
        removed_text(s, keys)
    } else {
        s
    }
}

/// Removes all keys of provider slot `index` from `.env` text.
pub fn remove_provider_keys(content: &str, index: usize) -> (r: String)
    requires
        parsable_text(content@),
    ensures
        r@ == without_provider(content@, index as nat),
{
    let env = parse_env_content(content);
    let keys = provider_env_keys(&env, index);
    if keys.len() > 0 {
        assert(keys@.map_values(|k: String| k@) == string_views(keys@));
        remove_env_keys_content(content, &keys)
    } else {
        content.to_owned()
    }
}

/// Deletes a provider (removes all its keys).
pub fn delete_provider(content: &str, index: usize) -> (r: String)
    requires
        parsable_text(content@),
    ensures
        r@ == without_provider(content@, index as nat),
{
    remove_provider_keys(content, index)
}

/// Errors of the provider editing operations.
#[derive(Debug, Clone, PartialEq, Eq)]
pub enum EnvError {
    /// All ten provider slots are taken.
    NoFreeSlot,
    /// The new order does not list as many providers as there are.
    OrderLengthMismatch { given: usize, count: usize },
    /// The new order names a slot that holds no provider.
    InvalidIndex(usize),
}

/// The result of writing a provider: the slot used and the new text.
pub open spec fn written_provider(s: Seq<char>, index: Option<usize>, p: ProviderSpec) -> Option<(Seq<char>, nat)> {
    let slot = match index {
        Some(i) => Some(i as nat),
        None => free_slot_from(parse_env(s), 1),
    };
    match slot {
        Some(i) => Some((updated_text(without_provider(s, i), provider_entries(p, i)), i)),
        None => None,
    }
}

/// Adds or updates a provider. A new provider (`index` is `None`) takes the
/// first empty slot from 1 to 10. All keys the slot held before are removed
/// first, so that no stale numbered API key survives, and the provider's
/// keys are then written. Returns the new text and the slot.
pub fn write_provider(content: &str, index: Option<usize>, provider: &ProviderConfig) -> (r: Result<(String, usize), EnvError>)
    requires
        parsable_text(content@),
    ensures
        match r {
            Ok((t, i)) => written_provider(content@, index, provider@) == Some((t@, i as nat)),
            Err(e) => written_provider(content@, index, provider@) is None && e is NoFreeSlot,
        },
{
    let idx = match index {
        Some(i) => i,
        None => {
            let env = parse_env_content(content);
            match first_free_slot(&env) {
                Some(i) => i,
                None => {
                    return Err(EnvError::NoFreeSlot);
                },
            }
        },
    };
    let cleared = remove_provider_keys(content, idx);
    let updates = provider.to_env_map(idx);
    let t = update_env_content(cleared.as_str(), &updates);
    Ok((t, idx))
}

} // verus!

verus! {

/// Position of the first provider of slot `o` in `ps`.
pub open spec fn slot_position(ps: Seq<(nat, ProviderSpec)>, o: nat) -> Option<nat>
    decreases ps.len(),
{
    if ps.len() == 0 {
        None
    } else if ps[0].0 == o {
        Some(0)
    } else {
        match slot_position(ps.skip(1), o) {
            Some(i) => Some(i + 1),
            None => None,
        }
    }
}

pub proof fn lemma_slot_position(ps: Seq<(nat, ProviderSpec)>, o: nat)
    ensures
        match slot_position(ps, o) {
            Some(i) => i < ps.len() && ps[i as int].0 == o && forall|j: int| 0 <= j < i ==> ps[j].0 != o,
            None => forall|j: int| 0 <= j < ps.len() ==> ps[j].0 != o,
        },
    decreases ps.len(),
{
    if ps.len() > 0 && ps[0].0 != o {
        lemma_slot_position(ps.skip(1), o);
        match slot_position(ps.skip(1), o) {
            Some(i) => {
                assert(ps[i + 1 as int] == ps.skip(1)[i as int]);
                assert forall|j: int| 0 <= j < i + 1 implies ps[j].0 != o by {
                    if j > 0 {
                        assert(ps[j] == ps.skip(1)[j - 1]);
                    }
                }
            },
            None => {
                assert forall|j: int| 0 <= j < ps.len() implies ps[j].0 != o by {
                    if j > 0 {
                        assert(ps[j] == ps.skip(1)[j - 1]);
                    }
                }
            },
        }
    }
}

/// The providers in the order `order` names their slots; each named
/// provider is taken out of `remaining` once (a slot named twice is used once).
pub open spec fn reordered(remaining: Seq<(nat, ProviderSpec)>, order: Seq<usize>) -> Seq<ProviderSpec>
    decreases order.len(),
{
    if order.len() == 0 {
        Seq::empty()
    } else {
        match slot_position(remaining, order[0] as nat) {
            Some(p) => seq![remaining[p as int].1] + reordered(remaining.remove(p as int), order.skip(1)),
            None => reordered(remaining, order.skip(1)),
        }
    }
}

/// The first entry of `order` that names no provider of `ps`.
pub open spec fn first_invalid(order: Seq<usize>, ps: Seq<(nat, ProviderSpec)>) -> Option<usize>
    decreases order.len(),
{
    if order.len() == 0 {
        None
    } else if slot_position(ps, order[0] as nat) is None {
        Some(order[0])
    } else {
        first_invalid(order.skip(1), ps)
    }
}

/// Every provider key of slots `1..=upto` that the entries hold.
pub open spec fn all_provider_keys(env: Seq<(Seq<char>, Seq<char>)>, upto: nat) -> Seq<Seq<char>>
    decreases upto,
{
    if upto == 0 {
        Seq::empty()
    } else {
        all_provider_keys(env, (upto - 1) as nat) + present_keys(env, provider_key_candidates(upto))
    }
}

/// The text after writing `ps` into slots `1, 2, ...` in turn.
pub open spec fn write_in_order(s: Seq<char>, ps: Seq<ProviderSpec>) -> Seq<char>
    decreases ps.len(),
{
    if ps.len() == 0 {
        s
    } else {
        updated_text(write_in_order(s, ps.drop_last()), provider_entries(ps.last(), ps.len()))
    }
}

/// The result of reordering the providers of `s` by `order`.
pub open spec fn reordered_text(s: Seq<char>, order: Seq<usize>) -> Result<Seq<char>, EnvError> {
    let env = parse_env(s);
    let ps = providers_upto(env, 10);
    if order.len() != ps.len() {
        Err(EnvError::OrderLengthMismatch { given: order.len() as usize, count: ps.len() as usize })
    } else {
        match first_invalid(order, ps) {
            Some(x) => Err(EnvError::InvalidIndex(x)),
            None => {
                let keys = all_provider_keys(env, 10);
                let cleared = if keys.len() > 0 {
                    removed_text(s, keys)
                } else {
                    s
                };
                Ok(write_in_order(cleared, reordered(ps, order)))
            },
        }
    }
}

fn position_of_slot(ps: &Vec<(usize, ProviderConfig)>, o: usize) -> (r: Option<usize>)
    ensures
        r matches Some(i) ==> slot_position(provider_list_view(ps@), o as nat) == Some(i as nat) && i < ps.len(),
        r is None ==> slot_position(provider_list_view(ps@), o as nat) is None,
{
    let ghost pv = provider_list_view(ps@);
    proof {
        lemma_slot_position(pv, o as nat);
    }
    for i in 0..ps.len()
        invariant
            pv == provider_list_view(ps@),
            pv.len() == ps.len(),
            forall|j: int| 0 <= j < i ==> pv[j].0 != o,
            match slot_position(pv, o as nat) {
                Some(k) => k < pv.len() && pv[k as int].0 == o && forall|j: int| 0 <= j < k ==> pv[j].0 != o,
                None => forall|j: int| 0 <= j < pv.len() ==> pv[j].0 != o,
            },
    {
        assert(pv[i as int].0 == ps@[i as int].0);
        if ps[i].0 == o {
            proof {
                if let Some(k) = slot_position(pv, o as nat) {
                    if k > i {
                        assert(pv[i as int].0 == o);
                    }
                }
            }
            return Some(i);
        }
    }
    None
}

/// Reorders providers: `order` lists the current slots in the desired new
/// order (e.g. `[3, 1, 2]` puts the provider of slot 3 first). All provider
/// keys are removed, then the providers are written into slots `1, 2, ...`.
pub fn reorder_providers(content: &str, order: &Vec<usize>) -> (r: Result<String, EnvError>)
    requires
        parsable_text(content@),
    ensures
        match r {
            Ok(t) => reordered_text(content@, order@) == Ok::<Seq<char>, EnvError>(t@),
            Err(e) => reordered_text(content@, order@) == Err::<Seq<char>, EnvError>(e),
        },
{
    let env = parse_env_content(content);
    let mut providers = providers_from_env(&env);
    let ghost ps0 = provider_list_view(providers@);
    proof {
        assert(ps0 == providers_upto(parse_env(content@), 10));
    }
    assert(ps0.len() == providers.len());
    if order.len() != providers.len() {
        return Err(EnvError::OrderLengthMismatch { given: order.len(), count: providers.len() });
    }
    // Every named slot must hold a provider.
    assert(order@.skip(0) =~= order@);
    for k in 0..order.len()
        invariant
            ps0 == provider_list_view(providers@),
            ps0 == providers_upto(parse_env(content@), 10),
            order@.len() == ps0.len(),
            first_invalid(order@, ps0) == first_invalid(order@.skip(k as int), ps0),
    {
        assert(order@.skip(k as int).skip(1) =~= order@.skip(k + 1));
        assert(order@.skip(k as int)[0] == order@[k as int]);
        if position_of_slot(&providers, order[k]).is_none() {
            assert(first_invalid(order@.skip(k as int), ps0) == Some(order@[k as int]));
            assert(first_invalid(order@, ps0) == Some(order@[k as int]));
            assert(order@.len() == ps0.len());
            assert(reordered_text(content@, order@) == Err::<Seq<char>, EnvError>(EnvError::InvalidIndex(order@[k as int])));
            return Err(EnvError::InvalidIndex(order[k]));
        }
    }
    assert(order@.skip(order.len() as int) =~= Seq::<usize>::empty());
    // Build the ordered list.
    let mut ordered: Vec<ProviderConfig> = Vec::new();
    for k in 0..order.len()
        invariant
            ordered@.map_values(|p: ProviderConfig| p@) + reordered(provider_list_view(providers@), order@.skip(k as int))
                == reordered(ps0, order@),
    {
        let ghost rem = provider_list_view(providers@);
        assert(order@.skip(k as int).skip(1) =~= order@.skip(k + 1));
        assert(order@.skip(k as int)[0] == order@[k as int]);
        let ghost before = ordered@.map_values(|p: ProviderConfig| p@);
        match position_of_slot(&providers, order[k]) {
            Some(pos) => {
                let (_, p) = providers.remove(pos);
                assert(provider_list_view(providers@) =~= rem.remove(pos as int));
                let ghost pv = p@;
                ordered.push(p);
                assert(ordered@.map_values(|p: ProviderConfig| p@) =~= before.push(pv));
                assert(seq![pv] + reordered(rem.remove(pos as int), order@.skip(k + 1)) == reordered(rem, order@.skip(k as int)));
                assert(before.push(pv) + reordered(provider_list_view(providers@), order@.skip(k + 1)) =~= before + (seq![pv] + reordered(rem.remove(pos as int), order@.skip(k + 1))));
            },
            None => {},
        }
    }
    assert(order@.skip(order.len() as int) =~= Seq::<usize>::empty());
    assert(ordered@.map_values(|p: ProviderConfig| p@) + Seq::<ProviderSpec>::empty() =~= ordered@.map_values(|p: ProviderConfig| p@));
    // Step 1: remove every provider key.
    let mut keys: Vec<String> = Vec::new();
    for i in 1..11usize
        invariant
            string_views(keys@) == all_provider_keys(env@, (i - 1) as nat),
    {
        collect_provider_keys(&env, i, &mut keys);
    }
    let mut text = if keys.len() > 0 {
        assert(keys@.map_values(|k: String| k@) == string_views(keys@));
        remove_env_keys_content(content, &keys)
    } else {
        content.to_owned()
    };
    let ghost cleared = text@;
    let ghost ov = ordered@.map_values(|p: ProviderConfig| p@);
    // Step 2: write the providers in their new order.
    for j in 0..ordered.len()
        invariant
            ov == ordered@.map_values(|p: ProviderConfig| p@),
            text@ == write_in_order(cleared, ov.take(j as int)),
    {
        let updates = ordered[j].to_env_map(j + 1);
        assert(ov.take(j + 1).drop_last() =~= ov.take(j as int));
        assert(ov.take(j + 1).last() == ordered@[j as int]@);
        text = update_env_content(text.as_str(), &updates);
    }
    assert(ov.take(ordered.len() as int) =~= ov);
    Ok(text)
}

/// The `.env` path to use: `.env` when it exists, otherwise `.env.example`.
pub fn env_path(dotenv_exists: bool) -> (r: String)
    ensures
        r@ == if dotenv_exists { ".env"@ } else { ".env.example"@ },
{
    if dotenv_exists {
        ".env".to_owned()
    } else {
        ".env.example".to_owned()
    }
}

} // verus!
