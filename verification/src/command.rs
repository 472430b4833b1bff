//! The command dispatcher: one command per invocation, applied to the
//! loaded collection, reporting an outcome for the front end to print.

use crate::codec::{dec_rep, push_dec};
use crate::model::{
    first_pos, indices_unique, next_index, spec_done, spec_remove, Task, TaskView, TodoError,
    TodoList,
};
use vstd::prelude::*;

verus! {

/// One invocation's command.
pub enum Command {
    Add { title: String },
    List,
    Done { index: u32 },
    Remove { index: u32 },
    Clear,
}

/// What the dispatcher reports back on success.
pub enum Outcome {
    Added { title: String, index: u32 },
    Listed { lines: Vec<String> },
    Done { title: String },
    Removed { index: u32, count: usize },
    Cleared,
}

pub open spec fn glyph(done: bool) -> Seq<char> {
    if done {
        "✅"@
    } else {
        "❌"@
    }
}

/// Everything of a listed line up to the displayed time:
/// `{index}. [{glyph}] {title} - `.
pub open spec fn line_prefix(index: u32, done: bool, title: Seq<char>) -> Seq<char> {
    dec_rep(index as int) + ". ["@ + glyph(done) + "] "@ + title + " - "@
}

/// One listed line: `{index}. [{glyph}] {title} - {when}`.
pub open spec fn line_spec(index: u32, done: bool, title: Seq<char>, when: Seq<char>) -> Seq<
    char,
> {
    line_prefix(index, done, title) + when
}

/// Renders one line of the listing from already-prepared parts.
pub fn render_line(index: u32, done: bool, title: &str, when: &str) -> (r: String)
    ensures
        r@ == line_spec(index, done, title@, when@),
{
    let mut out = String::new();
    push_dec(&mut out, index);
    out.append(". [");
    if done {
        out.append("✅");
    } else {
        out.append("❌");
    }
    out.append("] ");
    out.append(title);
    out.append(" - ");
    out.append(when);
    proof {
        assert(out@ =~= line_spec(index, done, title@, when@));
    }
    out
}

/// Relies on chrono: DateTime::parse_from_rfc3339 read back, converted
/// into the local zone and formatted `%H:%M, %d.%m.%Y`. The result
/// depends on the machine's time zone, so nothing is promised of it;
/// a string chrono cannot parse yields None.
#[verifier::external_body]
fn local_display(ts: &str) -> Option<String> {
    match chrono::DateTime::parse_from_rfc3339(ts) {
        Ok(dt) => {
            let local: chrono::DateTime<chrono::Local> = dt.into();
            Some(local.format("%H:%M, %d.%m.%Y").to_string())
        },
        Err(_) => None,
    }
}

/// Renders one task's listing line; the timestamp is shown in local
/// time where chrono can read it, and verbatim otherwise.
pub fn render_task_line(index: u32, done: bool, title: &str, created_at: &str) -> (r: String)
    ensures
        line_prefix(index, done, title@).is_prefix_of(r@),
{
    match local_display(created_at) {
        Some(when) => {
            let r = render_line(index, done, title, when.as_str());
            proof {
                assert(line_prefix(index, done, title@) =~= r@.subrange(
                    0,
                    line_prefix(index, done, title@).len() as int,
                ));
            }
            r
        },
        None => {
            let r = render_line(index, done, title, created_at);
            proof {
                assert(line_prefix(index, done, title@) =~= r@.subrange(
                    0,
                    line_prefix(index, done, title@).len() as int,
                ));
            }
            r
        },
    }
}

/// The listing is faithful: one line per task, in order, each rendering
/// that task's index, status and title (the time part is display-only).
pub open spec fn listed_ok(lines: Seq<String>, ts: Seq<TaskView>) -> bool {
    &&& lines.len() == ts.len()
    &&& forall|k: int|
        0 <= k < lines.len() ==> line_prefix(
            ts[k].index,
            ts[k].is_complete,
            ts[k].title,
        ).is_prefix_of((#[trigger] lines[k])@)
}

/// Applies one command to the collection. `Add`, `List` and `Clear`
/// always succeed; `Done` and `Remove` succeed exactly when a task
/// carries the named index, and leave the collection unchanged
/// otherwise.
pub fn apply(list: &mut TodoList, cmd: Command) -> (r: Result<Outcome, TodoError>)
    requires
        cmd is Add ==> next_index(old(list)@) <= u32::MAX,
    ensures
        match cmd {
            Command::Add { title } => {
                &&& r is Ok
                &&& final(list)@.len() == old(list)@.len() + 1
                &&& final(list)@.drop_last() == old(list)@
                &&& final(list)@.last().index == next_index(old(list)@)
                &&& final(list)@.last().title == title@
                &&& !final(list)@.last().is_complete
                &&& (indices_unique(old(list)@) ==> indices_unique(final(list)@))
                &&& match r {
                    Ok(o) => match o {
                        Outcome::Added { title: t2, index: ix } => t2@ == title@ && ix
                            == next_index(old(list)@),
                        _ => false,
                    },
                    Err(_) => false,
                }
            },
            Command::List => {
                &&& r is Ok
                &&& final(list)@ == old(list)@
                &&& match r {
                    Ok(o) => match o {
                        Outcome::Listed { lines } => listed_ok(lines@, old(list)@),
                        _ => false,
                    },
                    Err(_) => false,
                }
            },
            Command::Done { index } => {
                &&& (r is Ok) <==> exists|i: int|
                    0 <= i < old(list)@.len() && #[trigger] old(list)@[i].index == index
                &&& match r {
                    Ok(o) => {
                        &&& final(list)@ == spec_done(old(list)@, index)
                        &&& match o {
                            Outcome::Done { title } => title@ == old(list)@[first_pos(
                                old(list)@,
                                index,
                            )].title,
                            _ => false,
                        }
                    },
                    Err(e) => {
                        &&& e == (TodoError::NotFound { index })
                        &&& final(list)@ == old(list)@
                    },
                }
            },
            Command::Remove { index } => {
                &&& (r is Ok) <==> exists|i: int|
                    0 <= i < old(list)@.len() && #[trigger] old(list)@[i].index == index
                &&& match r {
                    Ok(o) => {
                        &&& final(list)@ == spec_remove(old(list)@, index)
                        &&& match o {
                            Outcome::Removed { index: ix, count } => ix == index && count
                                == final(list)@.len(),
                            _ => false,
                        }
                    },
                    Err(e) => {
                        &&& e == (TodoError::NotFound { index })
                        &&& final(list)@ == old(list)@
                    },
                }
            },
            Command::Clear => {
                &&& r is Ok
                &&& final(list)@ == Seq::<TaskView>::empty()
                &&& match r {
                    Ok(o) => o is Cleared,
                    Err(_) => false,
                }
            },
        },
{
    match cmd {
        Command::Add { title } => {
            let title2 = title.clone();
            let ix = list.add(title);
            Ok(Outcome::Added { title: title2, index: ix })
        },
        Command::List => {
            let tasks = list.tasks();
            let ghost tv = list@;
            let mut lines: Vec<String> = Vec::new();
            let mut i: usize = 0;
            while i < tasks.len()
                invariant
                    tv == tasks@.map_values(|t: Task| t@),
                    tv.len() == tasks@.len(),
                    i <= tv.len(),
                    lines@.len() == i,
                    forall|k: int|
                        0 <= k < i ==> line_prefix(
                            tv[k].index,
                            tv[k].is_complete,
                            tv[k].title,
                        ).is_prefix_of((#[trigger] lines@[k])@),
                decreases tasks@.len() - i,
            {
                let t = &tasks[i];
                let line = render_task_line(
                    t.index,
                    t.is_complete,
                    t.title.as_str(),
                    t.created_at.as_str(),
                );
                proof {
                    assert((tasks@[i as int])@ == tv[i as int]);
                    assert(line_prefix(
                        tv[i as int].index,
                        tv[i as int].is_complete,
                        tv[i as int].title,
                    ).is_prefix_of(line@));
                }
                lines.push(line);
                i = i + 1;
            }
            proof {
                assert(tv == old(list)@);
                assert(listed_ok(lines@, old(list)@));
            }
            Ok(Outcome::Listed { lines })
        },
        Command::Done { index } => {
            match list.mark_done(index) {
                Ok(title) => Ok(Outcome::Done { title }),
                Err(e) => Err(e),
            }
        },
        Command::Remove { index } => {
            match list.remove(index) {
                Ok(count) => Ok(Outcome::Removed { index, count }),
                Err(e) => Err(e),
            }
        },
        Command::Clear => {
            list.clear();
            Ok(Outcome::Cleared)
        },
    }
}

} // verus!
