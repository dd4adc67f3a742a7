use vstd::prelude::*;
use vstd::string::*;
use crate::coordination::no_duplicates;
use crate::records::{FlagType, Task, Vas3kUser};
use crate::strings::{
    decimal, decimal_string, has_prefix, lemma_split_nonempty, join, join_with, lower_of, parse_i64, parse_u64,
    signed_value, split, split_on, starts_with, to_lower, trim, trimmed, unsigned_value, views,
};

verus! {

/// The lines of a text: the pieces between newlines, without the empty piece
/// after a final newline.
pub open spec fn raw_lines(text: Seq<char>) -> Seq<Seq<char>> {
    let p = split_on(text, '\n');
    if p.last().len() == 0 {
        p.drop_last()
    } else {
        p
    }
}

pub open spec fn trim_all(s: Seq<Seq<char>>) -> Seq<Seq<char>> {
    s.map_values(|l: Seq<char>| trimmed(l))
}

pub open spec fn normalize_all(s: Seq<Seq<char>>) -> Seq<Seq<char>> {
    s.map_values(|l: Seq<char>| lower_of(trimmed(l)))
}

/// The trimmed lines of a task text.
pub open spec fn task_lines(text: Seq<char>) -> Seq<Seq<char>> {
    trim_all(raw_lines(text))
}

/// The accepted answers of a flag line: its comma-separated pieces,
/// trimmed and lowercased.
pub open spec fn flag_answers(line: Seq<char>) -> Seq<Seq<char>> {
    normalize_all(split_on(line, ','))
}

pub open spec fn hidden_mark() -> Seq<char> {
    "hidden:"@
}

/// The message of a task text with fewer than three lines.
pub open spec fn too_few_lines() -> Seq<char> {
    "Должно быть 3 или больше строки: имя, флаг, описание."@
}

/// Whether `task` is what the task text `text` describes: the first line is
/// the name, marked hidden by a leading `hidden:`; the second the flag, one
/// answer or several separated by commas; the rest the hint.
pub open spec fn describes(text: Seq<char>, task: Task) -> bool {
    let lines = task_lines(text);
    let first = lines[0];
    let hidden = has_prefix(first, hidden_mark());
    let name = if hidden {
        first.subrange(hidden_mark().len() as int, first.len() as int)
    } else {
        first
    };
    let answers = flag_answers(lines[1]);
    &&& task.name@ == trimmed(name)
    &&& task.hidden == hidden
    &&& task.hint@ == trimmed(join_with(lines.subrange(2, lines.len() as int), "\n"@))
    &&& task.id@ == Seq::<char>::empty()
    &&& task.flag.answers() == answers
    &&& (answers.len() == 1 <==> task.flag is Single)
}

/// The trimmed lines of `text`.
fn trimmed_lines(text: &str) -> (r: Vec<String>)
    ensures
        views(r@) == task_lines(text@),
{
    let raw = split(text, '\n');
    let ghost rv = views(raw@);
    proof {
        lemma_split_nonempty(text@, '\n');
    }
    let last = raw.len() - 1;
    let count = if raw[last].unicode_len() == 0 {
        last
    } else {
        raw.len()
    };
    assert(rv.last() == raw@[last as int]@);
    let ghost lines = raw_lines(text@);
    assert(lines =~= rv.subrange(0, count as int));
    let mut out: Vec<String> = Vec::new();
    let mut i: usize = 0;
    while i < count
        invariant
            count <= raw@.len(),
            rv == views(raw@),
            lines == rv.subrange(0, count as int),
            i <= count,
            views(out@) =~= trim_all(lines.subrange(0, i as int)),
        decreases count - i,
    {
        let t = trim(raw[i].as_str());
        let ghost prev = out@;
        let ghost tv = t@;
        out.push(t);
        assert(views(out@) =~= views(prev).push(tv));
        assert(lines[i as int] == raw@[i as int]@);
        assert(trim_all(lines.subrange(0, i + 1)) =~= trim_all(lines.subrange(0, i as int)).push(
            trimmed(lines[i as int]),
        ));
        i = i + 1;
    }
    assert(lines.subrange(0, count as int) =~= lines);
    out
}

/// The answers of a flag line, trimmed and lowercased.
fn parse_flag(line: &str) -> (r: Vec<String>)
    ensures
        views(r@) == flag_answers(line@),
{
    let parts = split(line, ',');
    let ghost pv = views(parts@);
    let mut out: Vec<String> = Vec::new();
    let mut i: usize = 0;
    while i < parts.len()
        invariant
            pv == views(parts@),
            pv == split_on(line@, ','),
            i <= parts@.len(),
            views(out@) =~= normalize_all(pv.subrange(0, i as int)),
        decreases parts@.len() - i,
    {
        let t = trim(parts[i].as_str());
        let l = to_lower(t.as_str());
        let ghost prev = out@;
        let ghost lv = l@;
        out.push(l);
        assert(views(out@) =~= views(prev).push(lv));
        assert(pv[i as int] == parts@[i as int]@);
        assert(normalize_all(pv.subrange(0, i + 1)) =~= normalize_all(pv.subrange(0, i as int)).push(
            lower_of(trimmed(pv[i as int])),
        ));
        i = i + 1;
    }
    assert(pv.subrange(0, parts@.len() as int) =~= pv);
    out
}

/// Reads a task from an administrator's text of three or more lines: name
/// (`hidden:` first for a hidden task), flag (answers separated by commas),
/// hint (the remaining lines). The id is left empty.
pub fn string_to_task(text: &str) -> (r: Result<Task, String>)
    ensures
        task_lines(text@).len() < 3 <==> r is Err,
        r is Err ==> r->Err_0@ == too_few_lines(),
        r is Ok ==> describes(text@, r->Ok_0),
{
    let lines = trimmed_lines(text);
    if lines.len() < 3 {
        return Err(String::from_str("Должно быть 3 или больше строки: имя, флаг, описание."));
    }
    let ghost lv = views(lines@);
    let answers = parse_flag(lines[1].as_str());
    let flag = if answers.len() == 1 {
        let a = answers[0].clone();
        assert(seq![a@] =~= views(answers@));
        FlagType::Single(a)
    } else {
        FlagType::Multi(answers)
    };
    let first = lines[0].as_str();
    proof {
        reveal_strlit("hidden:");
    }
    let hidden = starts_with(first, "hidden:");
    let name = if hidden {
        trim(first.substring_char(7, first.unicode_len()))
    } else {
        trim(first)
    };
    let mut rest: Vec<String> = Vec::new();
    let mut i: usize = 2;
    while i < lines.len()
        invariant
            lv == views(lines@),
            2 <= i <= lines@.len(),
            views(rest@) =~= lv.subrange(2, i as int),
        decreases lines@.len() - i,
    {
        let ghost prev = rest@;
        let l = lines[i].clone();
        let ghost llv = l@;
        rest.push(l);
        assert(views(rest@) =~= views(prev).push(llv));
        assert(lv.subrange(2, i + 1) =~= lv.subrange(2, i as int).push(lv[i as int]));
        i = i + 1;
    }
    let hint = trim(join(&rest, "\n").as_str());
    Ok(Task { name, flag, hint, id: String::new(), hidden })
}

/// The part of a storage key after its last `:`.
pub open spec fn key_suffix(key: Seq<char>) -> Seq<char> {
    split_on(key, ':').last()
}

/// The part of `key` after its last `:`, the whole key if it has none.
pub fn key_tail(key: &str) -> (r: String)
    ensures
        r@ == key_suffix(key@),
{
    proof {
        lemma_split_nonempty(key@, ':');
    }
    let mut parts = split(key, ':');
    let ghost pv = views(parts@);
    let last = parts.pop();
    match last {
        Some(s) => s,
        None => String::new(),
    }
}

impl Task {
    /// Takes the task's id from its storage key.
    pub fn fill_id(&mut self, key: &str)
        ensures
            final(self).id@ == key_suffix(key@),
            final(self).name == old(self).name,
            final(self).hint == old(self).hint,
            final(self).hidden == old(self).hidden,
            final(self).flag == old(self).flag,
    {
        self.id = key_tail(key);
    }
}

impl Vas3kUser {
    /// Takes the participant's id from a profile's storage key, where it is
    /// a number; else leaves it as it was.
    pub fn fill_id(&mut self, key: &str)
        ensures
            match signed_value(key_suffix(key@)) {
                Some(v) => if i64::MIN <= v <= i64::MAX {
                    final(self).telegram_id == v
                } else {
                    final(self).telegram_id == old(self).telegram_id
                },
                None => final(self).telegram_id == old(self).telegram_id,
            },
            final(self).id == old(self).id,
            final(self).slug == old(self).slug,
            final(self).full_name == old(self).full_name,
            final(self).avatar == old(self).avatar,
            final(self).bio == old(self).bio,
            final(self).upvotes == old(self).upvotes,
            final(self).created_at == old(self).created_at,
            final(self).membership_started_at == old(self).membership_started_at,
            final(self).membership_expires_at == old(self).membership_expires_at,
            final(self).moderation_status == old(self).moderation_status,
            final(self).payment_status == old(self).payment_status,
            final(self).company == old(self).company,
            final(self).position == old(self).position,
            final(self).city == old(self).city,
            final(self).country == old(self).country,
            final(self).is_active_member == old(self).is_active_member,
    {
        let tail = key_tail(key);
        if let Some(v) = parse_i64(tail.as_str()) {
            self.telegram_id = v;
        }
    }
}

/// The participant id in a profile's storage key; 0 where it is no number.
pub fn user_id_of_key(key: &str) -> (r: u64)
    ensures
        match unsigned_value(key_suffix(key@)) {
            Some(v) => if v <= u64::MAX {
                r == v
            } else {
                r == 0
            },
            None => r == 0,
        },
{
    let tail = key_tail(key);
    match parse_u64(tail.as_str()) {
        Some(v) => v,
        None => 0,
    }
}

/// The key of a record of namespace `space` for participant `user_id`.
pub open spec fn user_record_key(space: Seq<char>, user_id: u64) -> Seq<char> {
    space + ":"@ + decimal(user_id as nat)
}

fn numbered_key(space: &str, user_id: u64) -> (r: String)
    ensures
        r@ == user_record_key(space@, user_id),
{
    String::from_str(space).concat(":").concat(decimal_string(user_id).as_str())
}

/// The key of a participant's session state.
pub fn state_key(user_id: u64) -> (r: String)
    ensures
        r@ == user_record_key("user_state"@, user_id),
{
    numbered_key("user_state", user_id)
}

/// The key of a participant's ledger.
pub fn solve_key(user_id: u64) -> (r: String)
    ensures
        r@ == user_record_key("solve"@, user_id),
{
    numbered_key("solve", user_id)
}

/// The key of a participant's profile.
pub fn user_key(user_id: u64) -> (r: String)
    ensures
        r@ == user_record_key("user"@, user_id),
{
    numbered_key("user", user_id)
}

/// The key of a participant's pending contact buffer.
pub fn contact_key(user_id: u64) -> (r: String)
    ensures
        r@ == user_record_key("contact"@, user_id),
{
    numbered_key("contact", user_id)
}

/// The key of the task with id `id`.
pub fn task_key(id: &str) -> (r: String)
    ensures
        r@ == "task:"@ + id@,
{
    String::from_str("task:").concat(id)
}

/// The ledger key that goes with a profile key: `user:` becomes `solve:`.
pub fn solve_key_of_user_key(key: &str) -> (r: Option<String>)
    ensures
        has_prefix(key@, "user:"@) ==> r is Some && r->Some_0@ == "solve:"@ + key@.subrange(
            5,
            key@.len() as int,
        ),
        !has_prefix(key@, "user:"@) ==> r is None,
{
    proof {
        reveal_strlit("user:");
    }
    if starts_with(key, "user:") {
        Some(String::from_str("solve:").concat(key.substring_char(5, key.unicode_len())))
    } else {
        None
    }
}

/// A stored session state as the conversation sees it: an empty one is idle.
pub fn session_state(stored: Option<String>) -> (r: Option<String>)
    ensures
        match stored {
            Some(s) => if s@.len() == 0 {
                r is None
            } else {
                r == Some(s)
            },
            None => r is None,
        },
{
    match stored {
        Some(s) => {
            if s.unicode_len() == 0 {
                None
            } else {
                Some(s)
            }
        },
        None => None,
    }
}

/// A contact buffer after `text` is appended: on a new line where it held
/// something.
pub fn append_to_contact(stored: Option<String>, text: &str) -> (r: String)
    ensures
        match stored {
            Some(s) => r@ == s@ + "\n"@ + text@,
            None => r@ == text@,
        },
{
    match stored {
        Some(s) => s.concat("\n").concat(text),
        None => String::from_str(text),
    }
}

/// What a flush of a contact buffer hands over: its text, or nothing.
pub fn retrieve_contact(stored: Option<String>) -> (r: String)
    ensures
        match stored {
            Some(s) => r == s,
            None => r@ == Seq::<char>::empty(),
        },
{
    match stored {
        Some(s) => s,
        None => String::new(),
    }
}

/// A lowercase hexadecimal digit.
pub open spec fn is_lower_hex(c: char) -> bool {
    ('0' <= c && c <= '9') || ('a' <= c && c <= 'f')
}

/// The shape of a UUID written out: 36 characters, lowercase hexadecimal
/// digits in groups of 8, 4, 4, 4 and 12 joined by `-`.
pub open spec fn is_hyphenated_uuid(s: Seq<char>) -> bool {
    &&& s.len() == 36
    &&& forall|i: int|
        0 <= i < 36 ==> if i == 8 || i == 13 || i == 18 || i == 23 {
            #[trigger] s[i] == '-'
        } else {
            is_lower_hex(s[i])
        }
}

/// Relies on uuid::Uuid::new_v4, a random version-4 UUID, and on its
/// Display impl, which writes the hyphenated lowercase form. It takes no
/// input; it panics only where the platform yields no random bytes.
#[verifier::external_body]
fn random_uuid() -> (r: String)
    ensures
        is_hyphenated_uuid(r@),
{
    uuid::Uuid::new_v4().to_string()
}

/// The id of a task drawn as a UUID: its first group, eight lowercase
/// hexadecimal digits.
pub fn task_id_of(u: &str) -> (r: String)
    requires
        is_hyphenated_uuid(u@),
    ensures
        r@ == u@.subrange(0, 8),
        r@.len() == 8,
        forall|i: int| 0 <= i < 8 ==> is_lower_hex(#[trigger] r@[i]),
{
    let r = String::from_str(u.substring_char(0, 8));
    assert forall|i: int| 0 <= i < 8 implies is_lower_hex(#[trigger] r@[i]) by {
        assert(r@[i] == u@[i]);
    }
    r
}

/// A fresh task id candidate: the first group of a random UUID. The caller
/// checks it against the directory.
pub fn new_task_id() -> (r: String)
    ensures
        r@.len() == 8,
        forall|i: int| 0 <= i < 8 ==> is_lower_hex(#[trigger] r@[i]),
{
    let u = random_uuid();
    task_id_of(u.as_str())
}

/// Task keys allocated one after another, each checked free against the
/// directory and the keys allocated before it (creation runs in the critical
/// section), are all distinct and none was taken before.
pub proof fn lemma_allocated_keys_unique(existing: Seq<Seq<char>>, allocated: Seq<Seq<char>>)
    requires
        no_duplicates(existing),
        forall|i: int|
            0 <= i < allocated.len() ==> !(existing + allocated.subrange(0, i)).contains(
                #[trigger] allocated[i],
            ),
    ensures
        no_duplicates(existing + allocated),
        forall|i: int, j: int|
            0 <= i < existing.len() && 0 <= j < allocated.len() ==> existing[i] != allocated[j],
{
    let all = existing + allocated;
    assert forall|i: int, j: int| 0 <= i < j < all.len() implies all[i] != all[j] by {
        if j >= existing.len() {
            let jj = j - existing.len();
            let before = existing + allocated.subrange(0, jj);
            assert(before[i] == all[i]);
            assert(all[j] == allocated[jj]);
            assert(!before.contains(allocated[jj]));
        }
    }
    assert forall|i: int, j: int|
        0 <= i < existing.len() && 0 <= j < allocated.len() implies existing[i] != allocated[j] by {
        let before = existing + allocated.subrange(0, j);
        assert(before[i] == existing[i]);
        assert(!before.contains(allocated[j]));
    }
}

} // verus!
