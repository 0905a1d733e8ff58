//! Task edits on a note's text: adding a task, checking or unchecking the
//! task on a given line, removing it; and choosing which tasks to list.

use vstd::prelude::*;
use crate::kernel::error::Error;
use crate::kernel::note::{str_views, Note, Task};
use crate::kernel::text::{
    absent_from, borderless, chars_of, contains, contains_exec, copy_chars, lemma_replace_absent,
    lemma_replace_round_trip, occurs_at, no_char, lemma_lines_no_newline, lemma_lines_of_join,
    lemma_replace_keeps, lemma_replace_contains, ends_with, ends_with_exec, join, join_exec,
    lemma_views_push, lines, lines_exec, push_all, replace_all, replace_all_exec, string_of, trim,
    trim_exec, views,
};

verus! {

/// `- [ ]`.
pub open spec fn open_box() -> Seq<char> {
    seq!['-', ' ', '[', ' ', ']']
}

/// `- [x]`.
pub open spec fn done_box() -> Seq<char> {
    seq!['-', ' ', '[', 'x', ']']
}

/// `- [X]`.
pub open spec fn done_box_upper() -> Seq<char> {
    seq!['-', ' ', '[', 'X', ']']
}

fn open_box_exec() -> (r: Vec<char>)
    ensures
        r@ == open_box(),
{
    let v = vec!['-', ' ', '[', ' ', ']'];
    assert(v@ =~= open_box());
    v
}

fn done_box_exec() -> (r: Vec<char>)
    ensures
        r@ == done_box(),
{
    let v = vec!['-', ' ', '[', 'x', ']'];
    assert(v@ =~= done_box());
    v
}

fn done_box_upper_exec() -> (r: Vec<char>)
    ensures
        r@ == done_box_upper(),
{
    let v = vec!['-', ' ', '[', 'X', ']'];
    assert(v@ =~= done_box_upper());
    v
}

/// The content with a new open task `- [ ] text` appended on a line of its
/// own (a newline is added first when the content does not end with one).
pub open spec fn with_task(content: Seq<char>, text: Seq<char>) -> Seq<char> {
    let base = if ends_with(content, seq!['\n']) {
        content
    } else {
        content.push('\n')
    };
    base + open_box() + seq![' '] + text + seq!['\n']
}

/// Appends the task `- [ ] text` to `content`.
pub fn add_task(content: &str, text: &str) -> (r: String)
    ensures
        r@ == with_task(content@, text@),
{
    let mut c = chars_of(content);
    let nl = vec!['\n'];
    if !ends_with_exec(&c, &nl) {
        c.push('\n');
    }
    push_all(&mut c, &open_box_exec());
    c.push(' ');
    push_all(&mut c, &chars_of(text));
    c.push('\n');
    proof {
        assert(nl@ =~= seq!['\n']);
    }
    assert(c@ =~= with_task(content@, text@));
    string_of(&c)
}

/// A line holding a checkbox: `- [ ]`, `- [x]` or `- [X]`.
pub open spec fn is_task_line(l: Seq<char>) -> bool {
    contains(l, open_box()) || contains(l, done_box()) || contains(l, done_box_upper())
}

/// A task line checked (`done`) or unchecked: every `- [ ]` becomes
/// `- [x]`, or every `- [x]` and then every `- [X]` becomes `- [ ]`.
pub open spec fn toggled_line(l: Seq<char>, done: bool) -> Seq<char> {
    if done {
        replace_all(l, open_box(), done_box())
    } else {
        replace_all(replace_all(l, done_box(), open_box()), done_box_upper(), open_box())
    }
}

/// Which error a line number gives, if any: outside the note's lines
/// (numbered from 1), or not a task line.
pub open spec fn task_line_error(ls: Seq<Seq<char>>, line: usize) -> Option<Error> {
    if line == 0 || line > ls.len() {
        Some(Error::InvalidLineNumber(line))
    } else if !is_task_line(ls[line - 1]) {
        Some(Error::NotATask(line))
    } else {
        None
    }
}

/// The error is the one [`task_line_error`] names.
pub open spec fn same_error(e: Error, spec: Option<Error>) -> bool {
    match spec {
        Some(Error::InvalidLineNumber(n)) => e matches Error::InvalidLineNumber(m) && m == n,
        Some(Error::NotATask(n)) => e matches Error::NotATask(m) && m == n,
        _ => false,
    }
}

/// The content after toggling the task on `line`: the lines, with that one
/// toggled, joined by `\n`.
pub open spec fn toggled(content: Seq<char>, line: usize, done: bool) -> Seq<char> {
    let ls = lines(content);
    join(ls.update(line - 1, toggled_line(ls[line - 1], done)), seq!['\n'])
}

/// The content after removing the task on `line`: the other lines joined
/// by `\n`.
pub open spec fn removed(content: Seq<char>, line: usize) -> Seq<char> {
    let ls = lines(content);
    join(ls.remove(line - 1), seq!['\n'])
}

fn check_task_line(ls: &Vec<Vec<char>>, line: usize) -> (r: Result<(), Error>)
    ensures
        match task_line_error(views(ls@), line) {
            Some(e) => r matches Err(x) && same_error(x, Some(e)),
            None => r is Ok,
        },
{
    if line == 0 || line > ls.len() {
        return Err(Error::InvalidLineNumber(line));
    }
    let cur = &ls[line - 1];
    assert(views(ls@)[line - 1] == cur@);
    if !contains_exec(cur, &open_box_exec()) && !contains_exec(cur, &done_box_exec())
        && !contains_exec(cur, &done_box_upper_exec()) {
        return Err(Error::NotATask(line));
    }
    Ok(())
}

/// Checks (`done`) or unchecks the task on line `line` (counted from 1).
pub fn toggle_task(content: &str, line: usize, done: bool) -> (r: Result<String, Error>)
    ensures
        match task_line_error(lines(content@), line) {
            Some(e) => r matches Err(x) && same_error(x, Some(e)),
            None => r matches Ok(s) && s@ == toggled(content@, line, done),
        },
{
    let c = chars_of(content);
    let mut ls = lines_exec(&c);
    match check_task_line(&ls, line) {
        Err(e) => return Err(e),
        Ok(()) => {},
    }
    let idx = line - 1;
    let cur = copy_chars(&ls[idx]);
    let new_line = if done {
        replace_all_exec(&cur, &open_box_exec(), &done_box_exec())
    } else {
        let t = replace_all_exec(&cur, &done_box_exec(), &open_box_exec());
        replace_all_exec(&t, &done_box_upper_exec(), &open_box_exec())
    };
    let ghost old_ls = views(ls@);
    ls.set(idx, new_line);
    assert(views(ls@) =~= old_ls.update(idx as int, toggled_line(old_ls[idx as int], done)));
    let nl = vec!['\n'];
    assert(nl@ =~= seq!['\n']);
    Ok(string_of(&join_exec(&ls, &nl)))
}

/// Removes the task on line `line` (counted from 1); gives the new content
/// and the removed line, trimmed.
pub fn remove_task(content: &str, line: usize) -> (r: Result<(String, String), Error>)
    ensures
        match task_line_error(lines(content@), line) {
            Some(e) => r matches Err(x) && same_error(x, Some(e)),
            None => r matches Ok(p) && p.0@ == removed(content@, line)
                && p.1@ == trim(lines(content@)[line - 1]),
        },
{
    let c = chars_of(content);
    let mut ls = lines_exec(&c);
    match check_task_line(&ls, line) {
        Err(e) => return Err(e),
        Ok(()) => {},
    }
    let idx = line - 1;
    let ghost old_ls = views(ls@);
    let gone = ls.remove(idx);
    assert(views(ls@) =~= old_ls.remove(idx as int));
    let nl = vec!['\n'];
    assert(nl@ =~= seq!['\n']);
    Ok((string_of(&join_exec(&ls, &nl)), string_of(&trim_exec(&gone))))
}

/// The listing filter: with `pending` only open tasks, else with `done`
/// only finished ones; then, with a tag, only tasks carrying it.
pub open spec fn task_shown(t: Task, pending: bool, done: bool, tag: Option<Seq<char>>) -> bool {
    &&& (pending ==> !t.done)
    &&& (!pending && done ==> t.done)
    &&& (tag matches Some(g) ==> str_views(t.tags@).contains(g))
}

/// The tasks of `ts` that the filter keeps, in order.
pub open spec fn shown_tasks(ts: Seq<Task>, pending: bool, done: bool, tag: Option<Seq<char>>) -> Seq<Task> {
    ts.filter(|t: Task| task_shown(t, pending, done, tag))
}

/// The listing filter keeps exactly the tasks that pass it, in order: with
/// `pending` every task kept is open, with `done` alone every task kept is
/// finished, with a tag every task kept carries it; and each task that meets
/// these conditions is kept. With no tag, `pending` lists the open tasks,
/// `done` alone the finished ones, and neither flag lists every task.
pub proof fn law_task_filter(ts: Seq<Task>, pending: bool, done: bool, tag: Option<Seq<char>>)
    ensures
        forall|i: int|
            0 <= i < shown_tasks(ts, pending, done, tag).len() ==> {
                let t = #[trigger] shown_tasks(ts, pending, done, tag)[i];
                &&& ts.contains(t)
                &&& (pending ==> !t.done)
                &&& (!pending && done ==> t.done)
                &&& (tag matches Some(g) ==> str_views(t.tags@).contains(g))
            },
        forall|j: int|
            0 <= j < ts.len() && (pending ==> !ts[j].done) && (!pending && done ==> ts[j].done) && (
            tag matches Some(g) ==> str_views(ts[j].tags@).contains(g)) ==> shown_tasks(
                ts,
                pending,
                done,
                tag,
            ).contains(#[trigger] ts[j]),
        tag is None && pending ==> shown_tasks(ts, pending, done, tag) == ts.filter(|t: Task| !t.done),
        tag is None && !pending && done ==> shown_tasks(ts, pending, done, tag) == ts.filter(
            |t: Task| t.done,
        ),
        tag is None && !pending && !done ==> shown_tasks(ts, pending, done, tag) == ts,
{
    let f = |t: Task| task_shown(t, pending, done, tag);
    ts.filter_lemma(f);
    assert forall|i: int| 0 <= i < ts.filter(f).len() implies ts.contains(#[trigger] ts.filter(f)[i]) by {
        ts.lemma_filter_contains_rev(f, ts.filter(f)[i]);
    }
    if tag is None && pending {
        assert(f =~= (|t: Task| !t.done));
    }
    if tag is None && !pending && done {
        assert(f =~= (|t: Task| t.done));
    }
    if tag is None && !pending && !done {
        lemma_filter_all(ts, f);
    }
}

proof fn lemma_filter_all(ts: Seq<Task>, f: spec_fn(Task) -> bool)
    requires
        forall|t: Task| #[trigger] f(t),
    ensures
        ts.filter(f) == ts,
    decreases ts.len(),
{
    reveal_with_fuel(Seq::filter, 1);
    if ts.len() > 0 {
        lemma_filter_all(ts.drop_last(), f);
        assert(ts.drop_last().push(ts.last()) =~= ts);
    }
}

/// The tasks of `tasks` that the listing filter keeps.
pub fn filter_tasks<'a>(tasks: &'a [Task], pending: bool, done: bool, tag: Option<&str>) -> (r: Vec<&'a Task>)
    ensures
        r@.map_values(|t: &Task| *t) == shown_tasks(
            tasks@,
            pending,
            done,
            match tag {
                Some(g) => Some(g@),
                None => None,
            },
        ),
{
    let ghost tg: Option<Seq<char>> = match tag {
        Some(g) => Some(g@),
        None => None,
    };
    let mut out: Vec<&Task> = Vec::new();
    let mut i: usize = 0;
    while i < tasks.len()
        invariant
            i <= tasks.len(),
            tg == (match tag {
                Some(g) => Some(g@),
                None => None::<Seq<char>>,
            }),
            out@.map_values(|t: &Task| *t) == shown_tasks(tasks@.subrange(0, i as int), pending, done, tg),
        decreases tasks.len() - i,
    {
        proof {
            reveal_with_fuel(Seq::filter, 1);
            assert(tasks@.subrange(0, i + 1).drop_last() =~= tasks@.subrange(0, i as int));
        }
        let t = &tasks[i];
        let mut keep = true;
        if pending {
            keep = !t.done;
        } else if done {
            keep = t.done;
        }
        match tag {
            Some(g) => {
                if keep {
                    keep = crate::kernel::note::contains_string(&t.tags, g);
                }
            },
            None => {},
        }
        assert(keep == task_shown(*t, pending, done, tg));
        if keep {
            out.push(t);
        }
        assert(out@.map_values(|t: &Task| *t) =~= shown_tasks(tasks@.subrange(0, i + 1), pending, done, tg));
        i = i + 1;
    }
    assert(tasks@.subrange(0, tasks.len() as int) =~= tasks@);
    out
}

/// For each note, in order, its name and the tasks the filter keeps,
/// leaving out notes where none is kept.
pub open spec fn task_groups_spec(notes: Seq<Note>, pending: bool, done: bool, tag: Option<Seq<char>>) -> Seq<(Seq<char>, Seq<Task>)>
    decreases notes.len(),
{
    if notes.len() == 0 {
        Seq::empty()
    } else {
        let prev = task_groups_spec(notes.drop_last(), pending, done, tag);
        let ts = shown_tasks(notes.last().tasks@, pending, done, tag);
        if ts.len() == 0 {
            prev
        } else {
            prev.push((notes.last().name@, ts))
        }
    }
}

/// The view of a list of task groups.
pub open spec fn group_views(g: Seq<(String, Vec<&Task>)>) -> Seq<(Seq<char>, Seq<Task>)> {
    g.map_values(|e: (String, Vec<&Task>)| (e.0@, e.1@.map_values(|t: &Task| *t)))
}

/// The tasks of every note that the listing filter keeps, grouped by note.
pub fn task_groups<'a>(notes: &'a [Note], pending: bool, done: bool, tag: Option<&str>) -> (r: Vec<(String, Vec<&'a Task>)>)
    ensures
        group_views(r@) == task_groups_spec(
            notes@,
            pending,
            done,
            match tag {
                Some(g) => Some(g@),
                None => None,
            },
        ),
{
    let ghost tg: Option<Seq<char>> = match tag {
        Some(g) => Some(g@),
        None => None,
    };
    let mut out: Vec<(String, Vec<&Task>)> = Vec::new();
    let mut i: usize = 0;
    while i < notes.len()
        invariant
            i <= notes.len(),
            tg == (match tag {
                Some(g) => Some(g@),
                None => None::<Seq<char>>,
            }),
            group_views(out@) == task_groups_spec(notes@.subrange(0, i as int), pending, done, tg),
        decreases notes.len() - i,
    {
        proof {
            assert(notes@.subrange(0, i + 1).drop_last() =~= notes@.subrange(0, i as int));
        }
        let ts = filter_tasks(notes[i].tasks.as_slice(), pending, done, tag);
        if ts.len() > 0 {
            out.push((notes[i].name.clone(), ts));
        }
        assert(group_views(out@) =~= task_groups_spec(notes@.subrange(0, i + 1), pending, done, tg));
        i = i + 1;
    }
    assert(notes@.subrange(0, notes.len() as int) =~= notes@);
    out
}


proof fn lemma_boxes_borderless()
    ensures
        borderless(open_box()),
        borderless(done_box()),
{
    assert forall|d: int| 0 < d < open_box().len() implies #[trigger] open_box().subrange(d, open_box().len() as int)
        != open_box().subrange(0, open_box().len() - d) by {
        assert(open_box().subrange(d, 5)[0] != open_box().subrange(0, 5 - d)[0]);
    }
    assert forall|d: int| 0 < d < done_box().len() implies #[trigger] done_box().subrange(d, done_box().len() as int)
        != done_box().subrange(0, done_box().len() - d) by {
        assert(done_box().subrange(d, 5)[0] != done_box().subrange(0, 5 - d)[0]);
    }
}

proof fn lemma_absent(l: Seq<char>, p: Seq<char>)
    requires
        !contains(l, p),
    ensures
        absent_from(l, p, 0),
{
    assert forall|k: int| 0 <= k implies !#[trigger] occurs_at(l, p, k) by {
        if occurs_at(l, p, k) {
            assert(contains(l, p));
        }
    }
}

/// Checking a task and then unchecking it gives the line back, where the
/// line held no checked box (`- [x]` or `- [X]`).
pub proof fn law_done_then_undone(l: Seq<char>)
    requires
        !contains(l, done_box()),
        !contains(l, done_box_upper()),
    ensures
        toggled_line(toggled_line(l, true), false) == l,
{
    lemma_boxes_borderless();
    lemma_absent(l, done_box());
    lemma_replace_round_trip(l, open_box(), done_box(), 0);
    assert(l.subrange(0, l.len() as int) =~= l);
    lemma_replace_absent(l, done_box_upper(), open_box());
}

/// Checking the task on line `n` of a note's text and then unchecking it
/// succeeds both times and gives back the text's lines joined with `\n`
/// (the text itself when it does not end with a newline), where no line
/// holds `\r`, the last line is not empty, and the task's line held no
/// checked box (`- [x]` or `- [X]`).
pub proof fn law_done_then_undone_text(c: Seq<char>, n: usize)
    requires
        task_line_error(lines(c), n) is None,
        !contains(lines(c)[n - 1], done_box()),
        !contains(lines(c)[n - 1], done_box_upper()),
        forall|i: int| 0 <= i < lines(c).len() ==> no_char(#[trigger] lines(c)[i], '\r'),
        lines(c).len() > 0 ==> lines(c).last().len() > 0,
    ensures
        task_line_error(lines(toggled(c, n, true)), n) is None,
        toggled(toggled(c, n, true), n, false) == join(lines(c), seq!['\n']),
{
    let ls = lines(c);
    let l = ls[n - 1];
    lemma_lines_no_newline(c, 0);
    assert(contains(l, open_box()));
    let t = toggled_line(l, true);
    assert(no_char(done_box(), '\n')) by {
        assert forall|x: int| 0 <= x < done_box().len() implies done_box()[x] != '\n' by {}
    }
    assert(no_char(done_box(), '\r')) by {
        assert forall|x: int| 0 <= x < done_box().len() implies done_box()[x] != '\r' by {}
    }
    assert(no_char(l, '\n'));
    lemma_replace_keeps(l, open_box(), done_box(), 0, '\n');
    lemma_replace_keeps(l, open_box(), done_box(), 0, '\r');
    lemma_replace_contains(l, open_box(), done_box());
    let l1 = ls.update(n - 1, t);
    assert forall|i: int| 0 <= i < l1.len() implies no_char(#[trigger] l1[i], '\n') && no_char(l1[i], '\r') by {
        if i != n - 1 {
            assert(l1[i] == ls[i]);
        }
    }
    lemma_lines_of_join(l1);
    assert(lines(toggled(c, n, true)) == l1);
    assert(is_task_line(t));
    law_done_then_undone(l);
    assert(l1.update(n - 1, toggled_line(t, false)) =~= ls);
}

} // verus!
