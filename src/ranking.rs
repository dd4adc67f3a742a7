use vstd::prelude::*;
use vstd::seq_lib::group_to_multiset_ensures;
use crate::catalog::task_key;
use crate::records::{Solve, Task, Vas3kUser};

verus! {

broadcast use group_to_multiset_ensures;

/// Lexicographic order of strings by code point, which is the order of
/// their UTF-8 bytes.
pub open spec fn name_lt(a: Seq<char>, b: Seq<char>) -> bool
    decreases a.len(),
{
    if a.len() == 0 {
        b.len() > 0
    } else if b.len() == 0 {
        false
    } else if a[0] != b[0] {
        (a[0] as u32) < (b[0] as u32)
    } else {
        name_lt(a.drop_first(), b.drop_first())
    }
}

proof fn lemma_name_lt_asym(a: Seq<char>, b: Seq<char>)
    requires
        name_lt(a, b),
    ensures
        !name_lt(b, a),
    decreases a.len(),
{
    if a.len() > 0 && b.len() > 0 && a[0] == b[0] {
        lemma_name_lt_asym(a.drop_first(), b.drop_first());
    }
}

/// Whether `a` comes before `b` by name.
pub fn name_less(a: &str, b: &str) -> (r: bool)
    ensures
        r == name_lt(a@, b@),
{
    let n = a.unicode_len();
    let m = b.unicode_len();
    let mut i: usize = 0;
    assert(a@.subrange(0, n as int) =~= a@);
    assert(b@.subrange(0, m as int) =~= b@);
    while i < n && i < m
        invariant
            n == a@.len(),
            m == b@.len(),
            i <= n,
            i <= m,
            name_lt(a@, b@) == name_lt(a@.subrange(i as int, n as int), b@.subrange(i as int, m as int)),
        decreases n - i,
    {
        let ca = a.get_char(i);
        let cb = b.get_char(i);
        if ca != cb {
            return (ca as u32) < (cb as u32);
        }
        assert(a@.subrange(i as int, n as int).drop_first() =~= a@.subrange(i + 1, n as int));
        assert(b@.subrange(i as int, m as int).drop_first() =~= b@.subrange(i + 1, m as int));
        i = i + 1;
    }
    i < m
}

/// Whether a task is shown: not hidden and, unless `everyone` asks for the
/// whole open catalog, its key `task:<id>` not in the ledger `solved`.
pub open spec fn shows_task(t: Task, solved: Seq<Seq<char>>, everyone: bool) -> bool {
    !t.hidden && (everyone || !solved.contains("task:"@ + t.id@))
}

/// The tasks that a participant is shown, in directory order.
pub open spec fn open_tasks_of(tasks: Seq<Task>, solved: Seq<Seq<char>>, everyone: bool) -> Seq<
    Task,
>
    decreases tasks.len(),
{
    if tasks.len() == 0 {
        Seq::<Task>::empty()
    } else {
        let rest = open_tasks_of(tasks.drop_last(), solved, everyone);
        if shows_task(tasks.last(), solved, everyone) {
            rest.push(tasks.last())
        } else {
            rest
        }
    }
}

/// Each task's name is no earlier than the one before it.
pub open spec fn sorted_by_name(tasks: Seq<Task>) -> bool {
    forall|k: int| 0 <= k < tasks.len() - 1 ==> !name_lt(#[trigger] tasks[k + 1].name@, tasks[k].name@)
}

/// The tasks to show, from the directory's tasks (ids filled): those not
/// hidden and, unless `user_id` is 0 (the whole catalog), not in the
/// participant's ledger; sorted by name.
pub fn list_tasks(tasks: Vec<Task>, ledger: &Solve, user_id: u64) -> (r: Vec<Task>)
    ensures
        r@.to_multiset() == open_tasks_of(tasks@, ledger.keys(), user_id == 0).to_multiset(),
        sorted_by_name(r@),
        forall|k: int| 0 <= k < r@.len() ==> shows_task(#[trigger] r@[k], ledger.keys(), user_id == 0),
{
    let ghost src = tasks@;
    let ghost everyone = user_id == 0;
    let n = tasks.len();
    let mut tasks = tasks;
    let mut out: Vec<Task> = Vec::new();
    let mut i: usize = 0;
    assert(src.subrange(0, 0) =~= Seq::<Task>::empty());
    while i < n
        invariant
            n == src.len(),
            everyone == (user_id == 0),
            i <= n,
            tasks@ == src.subrange(i as int, n as int),
            out@.to_multiset() == open_tasks_of(src.subrange(0, i as int), ledger.keys(), everyone).to_multiset(),
            sorted_by_name(out@),
            forall|k: int| 0 <= k < out@.len() ==> shows_task(#[trigger] out@[k], ledger.keys(), everyone),
        decreases n - i,
    {
        let ghost e = src[i as int];
        assert(tasks@[0] == e);
        let task = tasks.remove(0);
        assert(task == e);
        assert(tasks@ =~= src.subrange(i + 1, n as int));
        assert(src.subrange(0, i + 1).drop_last() =~= src.subrange(0, i as int));
        assert(src.subrange(0, i + 1).last() == e);
        let ghost prev_open = open_tasks_of(src.subrange(0, i as int), ledger.keys(), everyone);
        assert(open_tasks_of(src.subrange(0, i + 1), ledger.keys(), everyone) == if shows_task(
            e,
            ledger.keys(),
            everyone,
        ) {
            prev_open.push(e)
        } else {
            prev_open
        });
        let key = task_key(task.id.as_str());
        let solved = user_id != 0 && ledger.is_solved(key.as_str());
        if !task.hidden && !solved {
            let mut pos: usize = out.len();
            let mut more = pos > 0 && name_less(task.name.as_str(), out[pos - 1].name.as_str());
            while more
                invariant
                    pos <= out@.len(),
                    sorted_by_name(out@),
                    more ==> pos > 0 && name_lt(task.name@, out@[pos - 1].name@),
                    !more ==> pos == 0 || !name_lt(task.name@, out@[pos - 1].name@),
                    forall|k: int| pos <= k < out@.len() ==> name_lt(task.name@, #[trigger] out@[k].name@),
                decreases pos,
            {
                pos = pos - 1;
                more = pos > 0 && name_less(task.name.as_str(), out[pos - 1].name.as_str());
            }
            let ghost before = out@;
            let ghost t = task;
            out.insert(pos, task);
            assert(out@ == before.insert(pos as int, t));
            assert(shows_task(t, ledger.keys(), everyone));
            assert forall|k: int| 0 <= k < out@.len() implies shows_task(
                #[trigger] out@[k],
                ledger.keys(),
                everyone,
            ) by {
                if k < pos {
                    assert(out@[k] == before[k]);
                } else if k > pos {
                    assert(out@[k] == before[k - 1]);
                }
            }
            assert forall|k: int| 0 <= k < out@.len() - 1 implies !name_lt(
                #[trigger] out@[k + 1].name@,
                out@[k].name@,
            ) by {
                if k + 1 < pos {
                    assert(out@[k] == before[k] && out@[k + 1] == before[k + 1]);
                    assert(!name_lt(before[k + 1].name@, before[k].name@));
                } else if k + 1 == pos {
                    assert(out@[k] == before[k] && out@[k + 1] == t);
                } else if k == pos {
                    assert(out@[k] == t && out@[k + 1] == before[k]);
                    assert(name_lt(t.name@, before[k].name@));
                    lemma_name_lt_asym(t.name@, before[k].name@);
                } else {
                    assert(out@[k] == before[k - 1] && out@[k + 1] == before[k]);
                    assert(!name_lt(before[(k - 1) + 1].name@, before[k - 1].name@));
                }
            }
        }
        i = i + 1;
    }
    assert(src.subrange(0, n as int) =~= src);
    out
}

/// Whether `id` is in `group`.
pub fn in_group(group: &Vec<i64>, id: i64) -> (r: bool)
    ensures
        r == group@.contains(id),
{
    let mut i: usize = 0;
    while i < group.len()
        invariant
            i <= group@.len(),
            forall|k: int| 0 <= k < i ==> group@[k] != id,
        decreases group@.len() - i,
    {
        if group[i] == id {
            return true;
        }
        i = i + 1;
    }
    false
}

/// A scoreboard row as shown: a participant of the test group or an
/// administrator shows 0, with the ledger left as it is.
pub open spec fn shown_row(row: (Vas3kUser, u64), test_group: Seq<i64>, admin_group: Seq<i64>) -> (
    Vas3kUser,
    u64,
) {
    if test_group.contains(row.0.telegram_id) || admin_group.contains(row.0.telegram_id) {
        (row.0, 0u64)
    } else {
        row
    }
}

pub open spec fn shown_rows(
    rows: Seq<(Vas3kUser, u64)>,
    test_group: Seq<i64>,
    admin_group: Seq<i64>,
) -> Seq<(Vas3kUser, u64)>
    decreases rows.len(),
{
    if rows.len() == 0 {
        Seq::<(Vas3kUser, u64)>::empty()
    } else {
        shown_rows(rows.drop_last(), test_group, admin_group).push(
            shown_row(rows.last(), test_group, admin_group),
        )
    }
}

/// Each row's score is no higher than the one before it.
pub open spec fn sorted_by_score(rows: Seq<(Vas3kUser, u64)>) -> bool {
    forall|k: int| 0 <= k < rows.len() - 1 ==> #[trigger] rows[k + 1].1 <= rows[k].1
}

/// The scoreboard: every (profile, score) row, the scores of the test group
/// and of administrators shown as 0,
/// by descending score.
pub fn get_scoreboard(
    rows: Vec<(Vas3kUser, u64)>,
    test_group: &Vec<i64>,
    admin_group: &Vec<i64>,
) -> (r: Vec<(Vas3kUser, u64)>)
    ensures
        r@.to_multiset() == shown_rows(rows@, test_group@, admin_group@).to_multiset(),
        sorted_by_score(r@),
{
    let ghost src = rows@;
    let n = rows.len();
    let mut rows = rows;
    let mut out: Vec<(Vas3kUser, u64)> = Vec::new();
    let mut i: usize = 0;
    assert(src.subrange(0, 0) =~= Seq::<(Vas3kUser, u64)>::empty());
    while i < n
        invariant
            n == src.len(),
            i <= n,
            rows@ == src.subrange(i as int, n as int),
            out@.to_multiset() == shown_rows(src.subrange(0, i as int), test_group@, admin_group@).to_multiset(),
            sorted_by_score(out@),
        decreases n - i,
    {
        assert(rows@[0] == src[i as int]);
        let ghost e = src[i as int];
        let (user, score) = rows.remove(0);
        assert(user == e.0 && score == e.1);
        assert(src.subrange(0, i + 1).last() == e);
        assert(rows@ =~= src.subrange(i + 1, n as int));
        assert(src.subrange(0, i + 1).drop_last() =~= src.subrange(0, i as int));
        let shown = if in_group(test_group, user.telegram_id) || in_group(admin_group, user.telegram_id) {
            0
        } else {
            score
        };
        let row = (user, shown);
        let mut pos: usize = out.len();
        let mut more = pos > 0 && out[pos - 1].1 < shown;
        while more
            invariant
                pos <= out@.len(),
                sorted_by_score(out@),
                more ==> pos > 0 && out@[pos - 1].1 < shown,
                !more ==> pos == 0 || out@[pos - 1].1 >= shown,
                forall|k: int| pos <= k < out@.len() ==> #[trigger] out@[k].1 < shown,
            decreases pos,
        {
            pos = pos - 1;
            more = pos > 0 && out[pos - 1].1 < shown;
        }
        let ghost before = out@;
        let ghost rv = row;
        out.insert(pos, row);
        assert(out@ == before.insert(pos as int, rv));
        assert forall|k: int| 0 <= k < out@.len() - 1 implies #[trigger] out@[k + 1].1 <= out@[k].1 by {
            if k + 1 < pos {
                assert(out@[k] == before[k] && out@[k + 1] == before[k + 1]);
                assert(before[k + 1].1 <= before[k].1);
            } else if k + 1 == pos {
                assert(out@[k] == before[k] && out@[k + 1] == rv);
            } else if k == pos {
                assert(out@[k] == rv && out@[k + 1] == before[k]);
                assert(before[k].1 < shown);
            } else {
                assert(out@[k] == before[k - 1] && out@[k + 1] == before[k]);
                assert(before[(k - 1) + 1].1 <= before[k - 1].1);
            }
        }
        i = i + 1;
    }
    assert(src.subrange(0, n as int) =~= src);
    out
}

} // verus!
