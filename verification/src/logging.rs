//! Per-paper log bookkeeping for MinerU processing: which papers have an
//! open log, and the lines written to it.
use vstd::prelude::*;
use crate::chars::{extend_chars, string_from_chars, to_chars};

verus! {

/// Index of the first entry for `id`.
pub open spec fn index_of_id<F>(s: Seq<(Seq<char>, F)>, id: Seq<char>) -> Option<nat>
    decreases s.len(),
{
    if s.len() == 0 {
        None
    } else if s[0].0 == id {
        Some(0)
    } else {
        match index_of_id(s.skip(1), id) {
            Some(i) => Some(i + 1),
            None => None,
        }
    }
}

proof fn lemma_index_of_id<F>(s: Seq<(Seq<char>, F)>, id: Seq<char>)
    ensures
        match index_of_id(s, id) {
            Some(i) => i < s.len() && s[i as int].0 == id && forall|j: int| 0 <= j < i ==> s[j].0 != id,
            None => forall|j: int| 0 <= j < s.len() ==> s[j].0 != id,
        },
    decreases s.len(),
{
    if s.len() > 0 && s[0].0 != id {
        lemma_index_of_id(s.skip(1), id);
        match index_of_id(s.skip(1), id) {
            Some(i) => {
                assert(s[i + 1 as int] == s.skip(1)[i as int]);
                assert forall|j: int| 0 <= j < i + 1 implies s[j].0 != id by {
                    if j > 0 {
                        assert(s[j] == s.skip(1)[j - 1]);
                    }
                }
            },
            None => {
                assert forall|j: int| 0 <= j < s.len() implies s[j].0 != id by {
                    if j > 0 {
                        assert(s[j] == s.skip(1)[j - 1]);
                    }
                }
            },
        }
    }
}

proof fn lemma_same_keys<F>(a: Seq<(Seq<char>, F)>, b: Seq<(Seq<char>, F)>, id: Seq<char>)
    requires
        a.len() == b.len(),
        forall|j: int| 0 <= j < a.len() ==> #[trigger] a[j].0 == b[j].0,
    ensures
        index_of_id(a, id) == index_of_id(b, id),
{
    lemma_index_of_id(a, id);
    lemma_index_of_id(b, id);
    if let Some(x) = index_of_id(a, id) {
        assert(a[x as int].0 == b[x as int].0);
    }
    if let Some(y) = index_of_id(b, id) {
        assert(a[y as int].0 == b[y as int].0);
    }
}

proof fn lemma_push_index<F>(s: Seq<(Seq<char>, F)>, e: (Seq<char>, F), id: Seq<char>)
    ensures
        index_of_id(s.push(e), id) == (match index_of_id(s, id) {
            Some(k) => Some(k),
            None => if e.0 == id { Some(s.len()) } else { None },
        }),
{
    let t = s.push(e);
    lemma_index_of_id(s, id);
    lemma_index_of_id(t, id);
    assert(t[s.len() as int] == e);
    if let Some(k) = index_of_id(s, id) {
        assert(t[k as int] == s[k as int]);
    }
    if let Some(x) = index_of_id(t, id) {
        if x < s.len() {
            assert(t[x as int] == s[x as int]);
        }
    }
}

proof fn lemma_remove_index<F>(s: Seq<(Seq<char>, F)>, i: int, id: Seq<char>)
    requires
        0 <= i < s.len(),
        s[i].0 != id,
    ensures
        index_of_id(s.remove(i), id) == (match index_of_id(s, id) {
            Some(m) => Some(if m < i { m } else { (m - 1) as nat }),
            None => None,
        }),
{
    let t = s.remove(i);
    lemma_index_of_id(s, id);
    lemma_index_of_id(t, id);
    if let Some(m) = index_of_id(s, id) {
        if m < i {
            assert(t[m as int] == s[m as int]);
        } else {
            assert(t[m - 1] == s[m as int]);
        }
    }
    if let Some(x) = index_of_id(t, id) {
        if x < i {
            assert(t[x as int] == s[x as int]);
        } else {
            assert(t[x as int] == s[x + 1 as int]);
        }
    }
}

proof fn lemma_remove_unique<F>(s: Seq<(Seq<char>, F)>, i: int)
    requires
        0 <= i < s.len(),
        forall|a: int, b: int| 0 <= a < b < s.len() ==> #[trigger] s[a].0 != #[trigger] s[b].0,
    ensures
        index_of_id(s.remove(i), s[i].0) is None,
{
    let t = s.remove(i);
    lemma_index_of_id(t, s[i].0);
    if let Some(x) = index_of_id(t, s[i].0) {
        if x < i {
            assert(t[x as int] == s[x as int]);
        } else {
            assert(t[x as int] == s[x + 1 as int]);
        }
    }
}

/// The open logs: one handle per paper id.
pub struct LogRegistry<F> {
    logs: Vec<(String, F)>,
}

impl<F> View for LogRegistry<F> {
    type V = Seq<(Seq<char>, F)>;

    closed spec fn view(&self) -> Seq<(Seq<char>, F)> {
        self.logs@.map_values(|e: (String, F)| (e.0@, e.1))
    }
}

/// The log recorded for each id: the first entry with that id.
pub open spec fn log_map<F>(s: Seq<(Seq<char>, F)>) -> Map<Seq<char>, F> {
    Map::new(
        |id: Seq<char>| index_of_id(s, id) is Some,
        |id: Seq<char>| s[index_of_id(s, id).unwrap() as int].1,
    )
}

impl<F> LogRegistry<F> {
    pub open spec fn wf(&self) -> bool {
        forall|i: int, j: int| 0 <= i < j < self@.len() ==> #[trigger] self@[i].0 != #[trigger] self@[j].0
    }

    /// No open logs.
    pub fn new() -> (r: Self)
        ensures
            r@.len() == 0,
            r.wf(),
    {
        LogRegistry { logs: Vec::new() }
    }

    fn find(&self, id: &str) -> (r: Option<usize>)
        ensures
            r matches Some(i) ==> index_of_id(self@, id@) == Some(i as nat) && i < self.logs.len(),
            r is None ==> index_of_id(self@, id@) is None,
            self@.len() == self.logs.len(),
    {
        let key = id.to_owned();
        let mut i: usize = 0;
        while i < self.logs.len()
            invariant
                i <= self.logs.len(),
                key@ == id@,
                forall|j: int| 0 <= j < i ==> self@[j].0 != id@,
            decreases self.logs.len() - i,
        {
            if self.logs[i].0 == key {
                proof {
                    lemma_index_of_id(self@, id@);
                    assert(self@[i as int].0 == id@);
                    if let Some(m) = index_of_id(self@, id@) {
                        if m < i {
                            assert(self@[m as int].0 == id@);
                        }
                    }
                }
                return Some(i);
            }
            i += 1;
        }
        proof {
            lemma_index_of_id(self@, id@);
            if let Some(m) = index_of_id(self@, id@) {
                assert(self@[m as int].0 == id@);
            }
        }
        None
    }

    /// Records the log of `paper_id`, replacing an earlier one.
    pub fn open(&mut self, paper_id: &str, log: F)
        requires
            old(self).wf(),
        ensures
            final(self).wf(),
            log_map(final(self)@) == log_map(old(self)@).insert(paper_id@, log),
    {
        let ghost before = self@;
        proof {
            lemma_index_of_id(before, paper_id@);
        }
        match self.find(paper_id) {
            Some(i) => {
                self.logs.set(i, (paper_id.to_owned(), log));
                assert(self@ =~= before.update(i as int, (paper_id@, log)));
                proof {
                    let after = self@;
                    let expected = log_map(before).insert(paper_id@, log);
                    assert forall|j: int| 0 <= j < after.len() implies #[trigger] after[j].0 == before[j].0 by {
                        if j == i {
                            assert(before[j].0 == paper_id@);
                        }
                    }
                    assert forall|id: Seq<char>| #[trigger] log_map(after).contains_key(id) == expected.contains_key(id)
                        && (log_map(after).contains_key(id) ==> log_map(after)[id] == expected[id]) by {
                        lemma_same_keys(after, before, id);
                        lemma_index_of_id(after, id);
                        if let Some(k) = index_of_id(after, id) {
                            if id == paper_id@ {
                                assert(k == i);
                            } else {
                                assert(after[k as int] == before[k as int]);
                            }
                        }
                    }
                    assert(log_map(after) =~= expected);
                }
            },
            None => {
                self.logs.push((paper_id.to_owned(), log));
                assert(self@ =~= before.push((paper_id@, log)));
                proof {
                    let after = self@;
                    let expected = log_map(before).insert(paper_id@, log);
                    assert forall|id: Seq<char>| #[trigger] log_map(after).contains_key(id) == expected.contains_key(id)
                        && (log_map(after).contains_key(id) ==> log_map(after)[id] == expected[id]) by {
                        lemma_push_index(before, (paper_id@, log), id);
                        lemma_index_of_id(before, id);
                        if let Some(k) = index_of_id(before, id) {
                            assert(after[k as int] == before[k as int]);
                        }
                    }
                    assert(log_map(after) =~= expected);
                    assert forall|a: int, b: int| 0 <= a < b < after.len() implies #[trigger] after[a].0 != #[trigger] after[b].0 by {
                        if b == before.len() {
                            assert(before[a].0 != paper_id@);
                        }
                    }
                }
            },
        }
    }

    /// Forgets the log of `paper_id`, if any.
    pub fn close(&mut self, paper_id: &str)
        requires
            old(self).wf(),
        ensures
            final(self).wf(),
            log_map(final(self)@) == log_map(old(self)@).remove(paper_id@),
    {
        let ghost before = self@;
        match self.find(paper_id) {
            Some(i) => {
                self.logs.remove(i);
                assert(self@ =~= before.remove(i as int));
                proof {
                    let after = self@;
                    let expected = log_map(before).remove(paper_id@);
                    lemma_index_of_id(before, paper_id@);
                    lemma_remove_unique(before, i as int);
                    assert forall|id: Seq<char>| #[trigger] log_map(after).contains_key(id) == expected.contains_key(id)
                        && (log_map(after).contains_key(id) ==> log_map(after)[id] == expected[id]) by {
                        if id != paper_id@ {
                            lemma_remove_index(before, i as int, id);
                            lemma_index_of_id(before, id);
                            if let Some(m) = index_of_id(before, id) {
                                if m < i {
                                    assert(after[m as int] == before[m as int]);
                                } else {
                                    assert(after[m - 1] == before[m as int]);
                                }
                            }
                        }
                    }
                    assert(log_map(after) =~= expected);
                    assert forall|a: int, b: int| 0 <= a < b < after.len() implies #[trigger] after[a].0 != #[trigger] after[b].0 by {
                        let a2 = if a < i { a } else { a + 1 };
                        let b2 = if b < i { b } else { b + 1 };
                        assert(after[a] == before[a2]);
                        assert(after[b] == before[b2]);
                    }
                }
            },
            None => {
                proof {
                    assert(log_map(self@) =~= log_map(before).remove(paper_id@));
                }
            },
        }
    }

    /// The log recorded for `paper_id`.
    pub fn get(&self, paper_id: &str) -> (r: Option<&F>)
        ensures
            match r {
                Some(f) => log_map(self@).contains_key(paper_id@) && *f == log_map(self@)[paper_id@],
                None => !log_map(self@).contains_key(paper_id@),
            },
    {
        match self.find(paper_id) {
            Some(i) => Some(&self.logs[i].1),
            None => None,
        }
    }
}

/// Forgets the MinerU log of a paper.
pub fn close_mineru_log<F>(logs: &mut LogRegistry<F>, paper_id: &str)
    requires
        old(logs).wf(),
    ensures
        final(logs).wf(),
        log_map(final(logs)@) == log_map(old(logs)@).remove(paper_id@),
{
    logs.close(paper_id);
}

/// The MinerU log file of a paper: `figures/<id>/mineru.log`.
pub fn mineru_log_path(paper_id: &str) -> (r: String)
    ensures
        r@ == "figures/"@ + paper_id@ + "/mineru.log"@,
{
    let mut v = to_chars("figures/");
    extend_chars(&mut v, &to_chars(paper_id));
    extend_chars(&mut v, &to_chars("/mineru.log"));
    string_from_chars(&v)
}

fn tagged(tag: &str, msg: &str) -> (r: String)
    ensures
        r@ == tag@ + msg@,
{
    let mut v = to_chars(tag);
    extend_chars(&mut v, &to_chars(msg));
    string_from_chars(&v)
}

/// The log line of an informational message: `[INFO] <msg>`.
pub fn pp_info(msg: &str) -> (r: String)
    ensures
        r@ == "[INFO] "@ + msg@,
{
    tagged("[INFO] ", msg)
}

/// The log line of a warning: `[WARN] <msg>`.
pub fn pp_warn(msg: &str) -> (r: String)
    ensures
        r@ == "[WARN] "@ + msg@,
{
    tagged("[WARN] ", msg)
}

/// The log line of a debug message: `[DEBUG] <msg>`.
pub fn pp_debug(msg: &str) -> (r: String)
    ensures
        r@ == "[DEBUG] "@ + msg@,
{
    tagged("[DEBUG] ", msg)
}

} // verus!
