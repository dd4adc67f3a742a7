use vstd::prelude::*;
use crate::records::{FlagType, Solve, SubmissionResult, Task};
use crate::strings::{lower_of, same_text, to_lower, trim, trimmed, views};

verus! {

/// A submitted text as it is compared with accepted answers: trimmed, then
/// lowercased.
pub open spec fn normalized(text: Seq<char>) -> Seq<char> {
    lower_of(trimmed(text))
}

/// The index of the first task that accepts `answer`, if any.
pub open spec fn first_match(tasks: Seq<Task>, answer: Seq<char>) -> Option<int>
    decreases tasks.len(),
{
    if tasks.len() == 0 {
        None
    } else {
        match first_match(tasks.drop_last(), answer) {
            Some(i) => Some(i),
            None => if tasks.last().flag.answers().contains(answer) {
                Some(tasks.len() - 1)
            } else {
                None
            },
        }
    }
}

/// Whether no key occurs twice.
pub open spec fn no_duplicates(s: Seq<Seq<char>>) -> bool {
    forall|i: int, j: int| 0 <= i < j < s.len() ==> s[i] != s[j]
}

/// A ledger after `key` is credited: unchanged if it holds the key already.
pub open spec fn credited(ledger: Seq<Seq<char>>, key: Seq<char>) -> Seq<Seq<char>> {
    if ledger.contains(key) {
        ledger
    } else {
        ledger.push(key)
    }
}

/// A ledger after `key` is credited `n` times in a row.
pub open spec fn credited_times(ledger: Seq<Seq<char>>, key: Seq<char>, n: nat) -> Seq<
    Seq<char>,
>
    decreases n,
{
    if n == 0 {
        ledger
    } else {
        credited(credited_times(ledger, key, (n - 1) as nat), key)
    }
}

/// How many times `key` occurs.
pub open spec fn occurrences(s: Seq<Seq<char>>, key: Seq<char>) -> nat
    decreases s.len(),
{
    if s.len() == 0 {
        0
    } else {
        occurrences(s.drop_last(), key) + if s.last() == key {
            1nat
        } else {
            0nat
        }
    }
}

/// How many entries stand ahead of entry `p` once the entries are ordered by
/// descending score, entries of equal score keeping their order: those with a
/// higher score, and those before it with an equal score. Only the first `k`
/// entries are counted.
pub open spec fn ahead_within(scores: Seq<u64>, p: int, k: int) -> nat
    decreases k,
{
    if k <= 0 {
        0
    } else {
        ahead_within(scores, p, k - 1) + if scores[k - 1] > scores[p] || (k - 1 < p
            && scores[k - 1] == scores[p]) {
            1nat
        } else {
            0nat
        }
    }
}

pub open spec fn ahead(scores: Seq<u64>, p: int) -> nat {
    ahead_within(scores, p, scores.len() as int)
}

/// The index of the entry with key `key`, if any.
pub open spec fn index_of_key(keys: Seq<Seq<char>>, key: Seq<char>) -> Option<int> {
    if keys.contains(key) {
        Some(choose|i: int| 0 <= i < keys.len() && keys[i] == key)
    } else {
        None
    }
}

/// A participant's (rank, score) over all ledgers, given as (key, score)
/// entries with distinct keys.
pub open spec fn standing_of(keys: Seq<Seq<char>>, scores: Seq<u64>, key: Seq<char>, hidden: bool) -> (u64, u64) {
    match index_of_key(keys, key) {
        Some(p) => if hidden {
            (u64::MAX, scores[p])
        } else {
            ((ahead(scores, p) + 1) as u64, scores[p])
        },
        None => if hidden {
            (u64::MAX, 0)
        } else {
            ((keys.len() + 1) as u64, 0)
        },
    }
}

pub open spec fn entry_keys(entries: Seq<(String, u64)>) -> Seq<Seq<char>> {
    entries.map_values(|e: (String, u64)| e.0@)
}

pub open spec fn entry_scores(entries: Seq<(String, u64)>) -> Seq<u64> {
    entries.map_values(|e: (String, u64)| e.1)
}

/// A submitted text made ready for comparison.
pub fn normalize_answer(text: &str) -> (r: String)
    ensures
        r@ == normalized(text@),
{
    let t = trim(text);
    to_lower(t.as_str())
}

/// Whether `key` is one of the strings of `v`.
pub fn holds_text(v: &Vec<String>, key: &str) -> (r: bool)
    ensures
        r == views(v@).contains(key@),
{
    let mut i: usize = 0;
    while i < v.len()
        invariant
            i <= v@.len(),
            forall|k: int| 0 <= k < i ==> v@[k]@ != key@,
        decreases v@.len() - i,
    {
        if same_text(v[i].as_str(), key) {
            assert(views(v@)[i as int] == key@);
            return true;
        }
        i = i + 1;
    }
    assert forall|k: int| 0 <= k < views(v@).len() implies views(v@)[k] != key@ by {
        assert(views(v@)[k] == v@[k]@);
    }
    false
}

impl FlagType {
    /// Whether `answer` is one of the accepted answers.
    pub fn accepts(&self, answer: &str) -> (r: bool)
        ensures
            r == self.answers().contains(answer@),
    {
        match self {
            FlagType::Single(s) => {
                let r = same_text(s.as_str(), answer);
                assert(r ==> seq![s@][0] == answer@);
                r
            },
            FlagType::Multi(vs) => holds_text(vs, answer),
        }
    }
}

/// The first task, in directory order, that accepts `answer`.
pub fn find_match(tasks: &Vec<Task>, answer: &str) -> (r: Option<usize>)
    ensures
        match first_match(tasks@, answer@) {
            Some(i) => r == Some(i as usize),
            None => r.is_none(),
        },
{
    let mut i: usize = 0;
    while i < tasks.len()
        invariant
            i <= tasks@.len(),
            first_match(tasks@.subrange(0, i as int), answer@).is_none(),
        decreases tasks@.len() - i,
    {
        assert(tasks@.subrange(0, i + 1).drop_last() =~= tasks@.subrange(0, i as int));
        if tasks[i].flag.accepts(answer) {
            proof {
                lemma_first_match_prefix(tasks@, answer@, i + 1);
            }
            return Some(i);
        }
        i = i + 1;
    }
    assert(tasks@.subrange(0, tasks@.len() as int) =~= tasks@);
    None
}

proof fn lemma_first_match_prefix(tasks: Seq<Task>, answer: Seq<char>, k: int)
    requires
        0 <= k <= tasks.len(),
        first_match(tasks.subrange(0, k), answer).is_some(),
    ensures
        first_match(tasks, answer) == first_match(tasks.subrange(0, k), answer),
    decreases tasks.len() - k,
{
    if k < tasks.len() {
        assert(tasks.subrange(0, k + 1).drop_last() =~= tasks.subrange(0, k));
        lemma_first_match_prefix(tasks, answer, k + 1);
    } else {
        assert(tasks.subrange(0, k) =~= tasks);
    }
}

/// The task that a submitted text solves, if any: the text is normalized and
/// compared with every task's accepted answers, hidden tasks included.
pub fn match_submission(tasks: &Vec<Task>, text: &str) -> (r: Option<usize>)
    ensures
        match first_match(tasks@, normalized(text@)) {
            Some(i) => r == Some(i as usize),
            None => r.is_none(),
        },
{
    let answer = normalize_answer(text);
    find_match(tasks, answer.as_str())
}

impl Solve {
    pub open spec fn keys(&self) -> Seq<Seq<char>> {
        views(self.solves@)
    }

    /// No task is credited twice.
    pub open spec fn wf(&self) -> bool {
        no_duplicates(self.keys())
    }

    /// The ledger of a participant with no solve yet.
    pub fn new() -> (r: Solve)
        ensures
            r.keys() == Seq::<Seq<char>>::empty(),
            r.wf(),
    {
        let r = Solve { solves: Vec::new() };
        assert(r.keys() =~= Seq::<Seq<char>>::empty());
        r
    }

    /// Whether the task with key `task_key` is credited.
    pub fn is_solved(&self, task_key: &str) -> (r: bool)
        ensures
            r == self.keys().contains(task_key@),
    {
        holds_text(&self.solves, task_key)
    }

    /// The score: how many tasks are credited.
    pub fn score(&self) -> (r: u64)
        ensures
            r == self.solves@.len(),
    {
        self.solves.len() as u64
    }

    /// Credits the task with key `task_key` unless it is credited already.
    pub fn set_solved(&mut self, task_key: &str) -> (r: bool)
        ensures
            r == !old(self).keys().contains(task_key@),
            final(self).keys() == credited(old(self).keys(), task_key@),
            old(self).wf() ==> final(self).wf(),
    {
        if self.is_solved(task_key) {
            false
        } else {
            let ghost before = self.solves@;
            let k = String::from_str(task_key);
            self.solves.push(k);
            assert(self.keys() =~= views(before).push(task_key@));
            true
        }
    }

    /// The decision of a correct submission for the task with key `task_key`
    /// and name `task_name`, made against the ledger as it stands: credited once,
    /// reported as already solved after that.
    pub fn record_submission(&mut self, task_key: &str, task_name: &str) -> (r: SubmissionResult)
        ensures
            final(self).keys() == credited(old(self).keys(), task_key@),
            old(self).wf() ==> final(self).wf(),
            old(self).keys().contains(task_key@) ==> r is AlreadySolved,
            !old(self).keys().contains(task_key@) ==> (r matches SubmissionResult::Solved(n)
                && n@ == task_name@),
    {
        if self.set_solved(task_key) {
            SubmissionResult::Solved(String::from_str(task_name))
        } else {
            SubmissionResult::AlreadySolved
        }
    }
}

proof fn lemma_occurrences_push(s: Seq<Seq<char>>, key: Seq<char>, x: Seq<char>)
    ensures
        occurrences(s.push(x), key) == occurrences(s, key) + if x == key {
            1nat
        } else {
            0nat
        },
{
    assert(s.push(x).drop_last() =~= s);
}

proof fn lemma_occurrences_absent(s: Seq<Seq<char>>, key: Seq<char>)
    requires
        !s.contains(key),
    ensures
        occurrences(s, key) == 0,
    decreases s.len(),
{
    if s.len() > 0 {
        assert(!s.drop_last().contains(key)) by {
            if s.drop_last().contains(key) {
                let i = choose|i: int| 0 <= i < s.drop_last().len() && s.drop_last()[i] == key;
                assert(s[i] == key);
            }
        }
        lemma_occurrences_absent(s.drop_last(), key);
    }
}

proof fn lemma_occurrences_once(s: Seq<Seq<char>>, key: Seq<char>)
    requires
        no_duplicates(s),
        s.contains(key),
    ensures
        occurrences(s, key) == 1,
    decreases s.len(),
{
    let d = s.drop_last();
    assert(no_duplicates(d));
    if s.last() == key {
        assert(!d.contains(key)) by {
            if d.contains(key) {
                let i = choose|i: int| 0 <= i < d.len() && d[i] == key;
                assert(s[i] == s[s.len() - 1]);
            }
        }
        lemma_occurrences_absent(d, key);
    } else {
        let i = choose|i: int| 0 <= i < s.len() && s[i] == key;
        assert(d[i] == key);
        lemma_occurrences_once(d, key);
    }
}

/// However many times in a row a correct answer for one task is recorded in a
/// ledger with no duplicates, the ledger ends up holding that task exactly once,
/// as after the first time.
pub proof fn lemma_credit_exactly_once(ledger: Seq<Seq<char>>, key: Seq<char>, n: nat)
    requires
        no_duplicates(ledger),
        n >= 1,
    ensures
        credited_times(ledger, key, n) == credited(ledger, key),
        occurrences(credited_times(ledger, key, n), key) == 1,
        no_duplicates(credited_times(ledger, key, n)),
    decreases n,
{
    assert(credited_times(ledger, key, 0) == ledger);
    if n > 1 {
        lemma_credit_exactly_once(ledger, key, (n - 1) as nat);
        assert(credited(ledger, key).contains(key)) by {
            if !ledger.contains(key) {
                assert(ledger.push(key)[ledger.len() as int] == key);
            }
        }
    }
    let c = credited(ledger, key);
    assert(c.contains(key)) by {
        if !ledger.contains(key) {
            assert(ledger.push(key)[ledger.len() as int] == key);
        }
    }
    assert(no_duplicates(c)) by {
        if !ledger.contains(key) {
            assert forall|i: int, j: int| 0 <= i < j < c.len() implies c[i] != c[j] by {
                if j == ledger.len() {
                    assert(ledger[i] == c[i]);
                }
            }
        }
    }
    lemma_occurrences_once(c, key);
    if n > 1 {
        assert(credited(c, key) == c);
    }
    assert(credited_times(ledger, key, n) == credited(credited_times(ledger, key, (n - 1) as nat), key));
}

/// Counts the entries ahead of entry `p`.
fn count_ahead(entries: &Vec<(String, u64)>, p: usize) -> (r: usize)
    requires
        p < entries@.len(),
    ensures
        r == ahead(entry_scores(entries@), p as int),
        r <= entries@.len(),
{
    let ghost scores = entry_scores(entries@);
    let sp = entries[p].1;
    let mut cnt: usize = 0;
    let mut k: usize = 0;
    while k < entries.len()
        invariant
            p < entries@.len(),
            scores == entry_scores(entries@),
            sp == scores[p as int],
            k <= entries@.len(),
            cnt == ahead_within(scores, p as int, k as int),
            cnt <= k,
        decreases entries@.len() - k,
    {
        let s = entries[k].1;
        assert(s == scores[k as int]);
        if s > sp || (k < p && s == sp) {
            cnt = cnt + 1;
        }
        k = k + 1;
    }
    cnt
}

/// A participant's (rank, score), from the (ledger key, score) entries of all
/// participants. The rank is 1 plus the number of entries ahead in descending
/// score order, ties kept in the entries' order; a participant with no entry
/// ranks after all with score 0; `hidden` (the test group and administrators)
/// gives the rank `u64::MAX` with the score still shown.
pub fn get_score(entries: &Vec<(String, u64)>, user_key: &str, hidden: bool) -> (r: (u64, u64))
    requires
        no_duplicates(entry_keys(entries@)),
        entries@.len() < u64::MAX,
    ensures
        r == standing_of(entry_keys(entries@), entry_scores(entries@), user_key@, hidden),
{
    let ghost keys = entry_keys(entries@);
    let mut i: usize = 0;
    while i < entries.len()
        invariant
            keys == entry_keys(entries@),
            no_duplicates(keys),
            entries@.len() < u64::MAX,
            i <= entries@.len(),
            forall|k: int| 0 <= k < i ==> keys[k] != user_key@,
        decreases entries@.len() - i,
    {
        assert(keys[i as int] == entries@[i as int].0@);
        if same_text(entries[i].0.as_str(), user_key) {
            assert(keys.contains(user_key@));
            let ghost q = choose|q: int| 0 <= q < keys.len() && keys[q] == user_key@;
            assert(q == i);
            let score = entries[i].1;
            if hidden {
                return (u64::MAX, score);
            }
            let ahead = count_ahead(entries, i);
            return ((ahead as u64) + 1, score);
        }
        i = i + 1;
    }
    assert(!keys.contains(user_key@));
    if hidden {
        (u64::MAX, 0)
    } else {
        ((entries.len() as u64) + 1, 0)
    }
}

proof fn lemma_ahead_none_higher(scores: Seq<u64>, p: int, k: int)
    requires
        0 <= p < scores.len(),
        0 <= k <= scores.len(),
        ahead_within(scores, p, k) == 0,
    ensures
        forall|j: int| 0 <= j < k ==> scores[j] <= scores[p],
    decreases k,
{
    if k > 0 {
        lemma_ahead_none_higher(scores, p, k - 1);
    }
}

proof fn lemma_ahead_of_top(scores: Seq<u64>, p: int, k: int)
    requires
        0 <= p < scores.len(),
        0 <= k <= scores.len(),
        forall|j: int| 0 <= j < scores.len() ==> scores[j] <= scores[p],
        forall|j: int| 0 <= j < p ==> scores[j] < scores[p],
    ensures
        ahead_within(scores, p, k) == 0,
    decreases k,
{
    if k > 0 {
        lemma_ahead_of_top(scores, p, k - 1);
    }
}

/// Rank 1 goes to the highest score: a participant ranked first has a score
/// no lower than anyone's, and the first entry with the highest score is
/// ranked first.
pub proof fn lemma_rank_one_is_top(keys: Seq<Seq<char>>, scores: Seq<u64>, p: int)
    requires
        keys.len() == scores.len(),
        keys.len() < u64::MAX,
        no_duplicates(keys),
        0 <= p < keys.len(),
    ensures
        standing_of(keys, scores, keys[p], false).0 == 1 ==> forall|j: int|
            0 <= j < scores.len() ==> scores[j] <= scores[p],
        ((forall|j: int| 0 <= j < scores.len() ==> scores[j] <= scores[p]) && (forall|j: int|
            0 <= j < p ==> scores[j] < scores[p])) ==> standing_of(keys, scores, keys[p], false).0
            == 1,
        standing_of(keys, scores, keys[p], false).1 == scores[p],
{
    assert(keys.contains(keys[p]));
    let q = choose|q: int| 0 <= q < keys.len() && keys[q] == keys[p];
    assert(q == p);
    lemma_ahead_bound(scores, p, scores.len() as int);
    if ahead(scores, p) == 0 {
        lemma_ahead_none_higher(scores, p, scores.len() as int);
    }
    if (forall|j: int| 0 <= j < scores.len() ==> scores[j] <= scores[p]) && (forall|j: int|
        0 <= j < p ==> scores[j] < scores[p]) {
        lemma_ahead_of_top(scores, p, scores.len() as int);
    }
}

proof fn lemma_ahead_bound(scores: Seq<u64>, p: int, k: int)
    requires
        0 <= k,
    ensures
        ahead_within(scores, p, k) <= k,
    decreases k,
{
    if k > 0 {
        lemma_ahead_bound(scores, p, k - 1);
    }
}

/// How many of the first `k` entries score higher than entry `p`.
pub open spec fn higher_within(scores: Seq<u64>, p: int, k: int) -> nat
    decreases k,
{
    if k <= 0 {
        0
    } else {
        higher_within(scores, p, k - 1) + if scores[k - 1] > scores[p] {
            1nat
        } else {
            0nat
        }
    }
}

/// How many of the first `k` entries score at least as high as entry `p`,
/// entry `p` itself included.
pub open spec fn at_least_within(scores: Seq<u64>, p: int, k: int) -> nat
    decreases k,
{
    if k <= 0 {
        0
    } else {
        at_least_within(scores, p, k - 1) + if scores[k - 1] >= scores[p] {
            1nat
        } else {
            0nat
        }
    }
}

proof fn lemma_ahead_between(scores: Seq<u64>, p: int, k: int)
    requires
        0 <= p < scores.len(),
        0 <= k <= scores.len(),
    ensures
        higher_within(scores, p, k) <= ahead_within(scores, p, k),
        ahead_within(scores, p, k) + (if p < k {
            1nat
        } else {
            0nat
        }) <= at_least_within(scores, p, k),
    decreases k,
{
    if k > 0 {
        lemma_ahead_between(scores, p, k - 1);
    }
}

/// A ranked participant's rank lies between 1 plus the number of higher
/// scores and the number of scores at least as high as theirs, their own
/// included; where ties fall in between is not fixed.
pub proof fn lemma_rank_bounds(keys: Seq<Seq<char>>, scores: Seq<u64>, p: int)
    requires
        keys.len() == scores.len(),
        keys.len() < u64::MAX,
        no_duplicates(keys),
        0 <= p < keys.len(),
    ensures
        1 + higher_within(scores, p, scores.len() as int) <= standing_of(
            keys,
            scores,
            keys[p],
            false,
        ).0,
        standing_of(keys, scores, keys[p], false).0 <= at_least_within(
            scores,
            p,
            scores.len() as int,
        ),
        standing_of(keys, scores, keys[p], false).1 == scores[p],
{
    assert(keys.contains(keys[p]));
    let q = choose|q: int| 0 <= q < keys.len() && keys[q] == keys[p];
    assert(q == p);
    lemma_ahead_between(scores, p, scores.len() as int);
    lemma_ahead_bound(scores, p, scores.len() as int);
}

} // verus!
