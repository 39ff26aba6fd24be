//! The human-readable listing: one line per task, in stored order, showing
//! the 1-based position, a completion marker, and the description.

use vstd::prelude::*;
use vstd::string::StrSliceExecFns;

use crate::tasks::Task;
use crate::tasks::TaskView;
use crate::tasks::add_spec;
use crate::tasks::views;
use crate::text::chars_to_string;

verus! {

/// The decimal digit characters.
pub open spec fn digit_char(d: int) -> char
    recommends
        0 <= d < 10,
{
    if d == 0 {
        '0'
    } else if d == 1 {
        '1'
    } else if d == 2 {
        '2'
    } else if d == 3 {
        '3'
    } else if d == 4 {
        '4'
    } else if d == 5 {
        '5'
    } else if d == 6 {
        '6'
    } else if d == 7 {
        '7'
    } else if d == 8 {
        '8'
    } else {
        '9'
    }
}

/// The usual decimal rendering of `n`, most significant digit first, with
/// no leading zeros (a lone `0` for zero).
pub open spec fn dec_rep(n: nat) -> Seq<char>
    decreases n,
{
    if n < 10 {
        seq![digit_char(n as int)]
    } else {
        dec_rep(n / 10).push(digit_char((n % 10) as int))
    }
}

/// The completion marker: `[x]` for a complete task, `[ ]` otherwise.
pub open spec fn marker(done: bool) -> Seq<char> {
    if done {
        seq!['[', 'x', ']']
    } else {
        seq!['[', ' ', ']']
    }
}

/// The listing line for the task at 1-based position `pos`:
/// `<pos>: <marker> <description>`.
pub open spec fn line_of(pos: nat, t: TaskView) -> Seq<char> {
    dec_rep(pos) + seq![':', ' '] + marker(t.done) + seq![' '] + t.description
}

/// The listing of a whole task list: the line of each task, in stored
/// order, with 1-based positions. Empty for an empty list.
pub open spec fn lines_of(ts: Seq<TaskView>) -> Seq<Seq<char>> {
    Seq::new(ts.len(), |i: int| line_of((i + 1) as nat, ts[i]))
}

fn digit(d: usize) -> (c: char)
    requires
        d < 10,
    ensures
        c == digit_char(d as int),
{
    if d == 0 {
        '0'
    } else if d == 1 {
        '1'
    } else if d == 2 {
        '2'
    } else if d == 3 {
        '3'
    } else if d == 4 {
        '4'
    } else if d == 5 {
        '5'
    } else if d == 6 {
        '6'
    } else if d == 7 {
        '7'
    } else if d == 8 {
        '8'
    } else {
        '9'
    }
}

/// Appends the decimal rendering of `n` to `out`.
fn push_decimal(out: &mut Vec<char>, n: usize)
    ensures
        final(out)@ == old(out)@ + dec_rep(n as nat),
    decreases n,
{
    if n < 10 {
        out.push(digit(n));
        proof {
            assert(out@ =~= old(out)@ + dec_rep(n as nat));
        }
    } else {
        push_decimal(out, n / 10);
        out.push(digit(n % 10));
        proof {
            assert(out@ =~= old(out)@ + dec_rep(n as nat));
        }
    }
}

/// The decimal rendering of `n` as a `String`.
pub fn to_decimal(n: usize) -> (s: String)
    ensures
        s@ == dec_rep(n as nat),
{
    let mut out: Vec<char> = Vec::new();
    push_decimal(&mut out, n);
    chars_to_string(&out)
}

/// One listing line for each task, in stored order: position, marker,
/// description. An empty list yields no lines.
pub fn list_tasks(tasks: &Vec<Task>) -> (lines: Vec<String>)
    ensures
        lines@.len() == views(tasks@).len(),
        forall|i: int|
            0 <= i < views(tasks@).len() ==> lines@[i]@ == lines_of(views(tasks@))[i],
{
    let mut lines: Vec<String> = Vec::new();
    let mut i: usize = 0;
    while i < tasks.len()
        invariant
            i <= tasks@.len(),
            lines@.len() == i,
            forall|j: int| 0 <= j < i ==> lines@[j]@ == lines_of(views(tasks@))[j],
        decreases tasks@.len() - i,
    {
        let mut lv: Vec<char> = Vec::new();
        push_decimal(&mut lv, i + 1);
        lv.push(':');
        lv.push(' ');
        if tasks[i].done {
            lv.push('[');
            lv.push('x');
            lv.push(']');
        } else {
            lv.push('[');
            lv.push(' ');
            lv.push(']');
        }
        lv.push(' ');
        proof {
            assert(lv@ =~= dec_rep((i + 1) as nat) + seq![':', ' '] + marker(tasks@[i as int]@.done)
                + seq![' ']);
        }
        let d = &tasks[i].description;
        let n = d.as_str().unicode_len();
        let mut k: usize = 0;
        while k < n
            invariant
                n == tasks@[i as int]@.description.len(),
                0 <= i < tasks@.len(),
                k <= n,
                d == &tasks@[i as int].description,
                lv@ == dec_rep((i + 1) as nat) + seq![':', ' '] + marker(tasks@[i as int]@.done)
                    + seq![' '] + tasks@[i as int]@.description.take(k as int),
            decreases n - k,
        {
            let c = d.as_str().get_char(k);
            lv.push(c);
            proof {
                let desc = tasks@[i as int]@.description;
                assert(desc.take(k as int + 1) =~= desc.take(k as int).push(desc[k as int]));
                assert(lv@ =~= dec_rep((i + 1) as nat) + seq![':', ' '] + marker(
                    tasks@[i as int]@.done,
                ) + seq![' '] + desc.take(k as int + 1));
            }
            k = k + 1;
        }
        proof {
            let desc = tasks@[i as int]@.description;
            assert(desc.take(desc.len() as int) =~= desc);
            assert(lv@ =~= line_of((i + 1) as nat, tasks@[i as int]@));
        }
        let line = chars_to_string(&lv);
        lines.push(line);
        i = i + 1;
    }
    lines
}

/// An empty task list produces no listing lines.
pub proof fn lemma_empty_list_has_no_lines()
    ensures
        lines_of(Seq::<TaskView>::empty()).len() == 0,
{
}

/// The task list produced by adding the given descriptions, in order, to an
/// empty list.
pub open spec fn add_all(descs: Seq<Seq<char>>) -> Seq<TaskView>
    decreases descs.len(),
{
    if descs.len() == 0 {
        Seq::empty()
    } else {
        add_spec(add_all(descs.drop_last()), descs.last())
    }
}

/// After adding descriptions to an empty list, in order, the list holds
/// exactly those descriptions in that order, all incomplete, and the listing
/// shows them at 1-based positions matching their order of addition.
pub proof fn lemma_list_after_adds(descs: Seq<Seq<char>>)
    ensures
        add_all(descs).len() == descs.len(),
        forall|i: int|
            0 <= i < descs.len() ==> add_all(descs)[i] == (TaskView {
                description: descs[i],
                done: false,
            }),
        forall|i: int|
            0 <= i < descs.len() ==> lines_of(add_all(descs))[i] == dec_rep((i + 1) as nat)
                + seq![':', ' '] + marker(false) + seq![' '] + descs[i],
    decreases descs.len(),
{
    if descs.len() > 0 {
        lemma_list_after_adds(descs.drop_last());
    }
}

} // verus!
