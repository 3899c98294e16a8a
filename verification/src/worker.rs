//! The worker-task registry's active-tasks bookkeeping: the text format
//! of the task list (one tag per line, finished tasks with an end time
//! and a status), the classification of task-log lines, and the
//! reconciliation that rebuilds the list — active tasks first, history
//! capped and sorted.

use vstd::prelude::*;

use crate::strutil::{chars_to_string, push_chars, str_to_chars};
use crate::textenc::{all_hex_chars, hex_padded_upper, hex_seq_value, parse_hex_range};
use crate::upid::{parse_upid_spec, upid_text, UpidView, UPID};

verus! {

#[derive(Clone, Copy, Debug, PartialEq, Eq, Structural)]
pub enum WorkerError {
    /// A status line with two fields: neither running nor finished form.
    WrongComponentCount,
    /// The tag on a status line does not parse.
    InvalidUpid,
    /// The end time on a status line is not plain hexadecimal.
    InvalidEndtime,
}

/// First position of `c` in `s`, or the length when absent.
pub open spec fn first_index_of(s: Seq<char>, c: char) -> int
    decreases s.len(),
{
    if s.len() == 0 {
        0
    } else if s[0] == c {
        0
    } else {
        1 + first_index_of(s.drop_first(), c)
    }
}

pub proof fn lemma_first_index_of_bounds(s: Seq<char>, c: char)
    ensures
        0 <= first_index_of(s, c) <= s.len(),
    decreases s.len(),
{
    if s.len() > 0 && s[0] != c {
        lemma_first_index_of_bounds(s.drop_first(), c);
    }
}

pub proof fn lemma_first_index_of(s: Seq<char>, c: char, i: int)
    requires
        0 <= i <= s.len(),
        forall|m: int| 0 <= m < i ==> (#[trigger] s[m]) != c,
        i == s.len() || s[i] == c,
    ensures
        first_index_of(s, c) == i,
    decreases i,
{
    if s.len() > 0 {
        if i == 0 {
        } else {
            assert(s[0] != c);
            assert(forall|m: int|
                0 <= m < i - 1 ==> (#[trigger] s.drop_first()[m]) != c);
            if i < s.len() {
                assert(s.drop_first()[i - 1] == s[i]);
            }
            lemma_first_index_of(s.drop_first(), c, i - 1);
        }
    }
}

/// Find the first space of a character vector.
fn find_space(chars: &Vec<char>) -> (r: usize)
    ensures
        r == first_index_of(chars@, ' '),
        r <= chars@.len(),
        r < chars@.len() ==> chars@[r as int] == ' ',
        forall|m: int| 0 <= m < r ==> (#[trigger] chars@[m]) != ' ',
{
    let mut i: usize = 0;
    while i < chars.len()
        invariant
            i <= chars@.len(),
            forall|m: int| 0 <= m < i ==> (#[trigger] chars@[m]) != ' ',
        decreases chars@.len() - i,
    {
        if chars[i] == ' ' {
            proof {
                lemma_first_index_of(chars@, ' ', i as int);
            }
            return i;
        }
        i += 1;
    }
    proof {
        lemma_first_index_of(chars@, ' ', chars@.len() as int);
    }
    chars.len()
}

/// The parsed content of an active-tasks line: the tag, and for a
/// finished task its end time and status. A line of exactly two fields
/// fits neither form.
pub open spec fn parse_status_line_spec(s: Seq<char>) -> Option<
    (UpidView, Option<(int, Seq<char>)>),
> {
    let i = first_index_of(s, ' ');
    if i == s.len() {
        match parse_upid_spec(s) {
            Some(v) => Some((v, None::<(int, Seq<char>)>)),
            None => None,
        }
    } else {
        let rest = s.skip(i + 1);
        let j = first_index_of(rest, ' ');
        if j == rest.len() {
            None
        } else {
            let end_part = rest.take(j);
            match parse_upid_spec(s.take(i)) {
                Some(v) => {
                    if end_part.len() >= 1 && all_hex_chars(end_part) && hex_seq_value(
                        end_part,
                    ) <= i64::MAX {
                        Some((v, Some((hex_seq_value(end_part), rest.skip(j + 1)))))
                    } else {
                        None
                    }
                },
                None => None,
            }
        }
    }
}

/// Parse one line of the active-tasks file.
pub fn parse_worker_status_line(line: &str) -> (r: Result<
    (String, UPID, Option<(i64, String)>),
    WorkerError,
>)
    ensures
        r is Ok <==> parse_status_line_spec(line@) is Some,
        r matches Ok((upid_str, upid, state)) ==> {
            let parsed = parse_status_line_spec(line@)->Some_0;
            &&& upid@ == parsed.0
            &&& upid@.valid()
            &&& upid_str@ == line@.take(first_index_of(line@, ' '))
            &&& match (state, parsed.1) {
                (Some((endtime, status)), Some(p)) => endtime == p.0 && status@ == p.1,
                (None, None) => true,
                _ => false,
            }
        },
{
    let chars = str_to_chars(line);
    let i = find_space(&chars);
    if i == chars.len() {
        proof {
            assert(line@.take(first_index_of(line@, ' ')) =~= line@);
        }
        match UPID::parse(line) {
            Ok(upid) => {
                let upid_str = chars_to_string(&chars);
                return Ok((upid_str, upid, None));
            },
            Err(_) => {
                return Err(WorkerError::InvalidUpid);
            },
        }
    }
    let mut head: Vec<char> = Vec::new();
    let mut k: usize = 0;
    while k < i
        invariant
            k <= i <= chars@.len(),
            head@ == chars@.take(k as int),
        decreases i - k,
    {
        head.push(chars[k]);
        assert(chars@.take(k + 1) =~= chars@.take(k as int).push(chars@[k as int]));
        k += 1;
    }
    let mut rest: Vec<char> = Vec::new();
    let mut k: usize = i + 1;
    while k < chars.len()
        invariant
            i + 1 <= k <= chars@.len(),
            rest@ == chars@.subrange(i + 1, k as int),
        decreases chars@.len() - k,
    {
        rest.push(chars[k]);
        assert(chars@.subrange(i + 1, k + 1) =~= chars@.subrange(i + 1, k as int).push(
            chars@[k as int],
        ));
        k += 1;
    }
    proof {
        assert(rest@ =~= line@.skip(i + 1));
    }
    let j = find_space(&rest);
    if j == rest.len() {
        return Err(WorkerError::WrongComponentCount);
    }
    let head_str = chars_to_string(&head);
    let upid = match UPID::parse(head_str.as_str()) {
        Ok(upid) => upid,
        Err(_) => {
            return Err(WorkerError::InvalidUpid);
        },
    };
    let endtime64 = match parse_hex_range(&rest, 0, j) {
        Some(v) => v,
        None => {
            proof {
                if all_hex_chars(rest@.take(j as int)) && rest@.take(j as int).len() >= 1 {
                    crate::textenc::lemma_hex_value_nonneg(rest@.take(j as int));
                }
                assert(rest@.subrange(0, j as int) =~= rest@.take(j as int));
            }
            return Err(WorkerError::InvalidEndtime);
        },
    };
    proof {
        assert(rest@.subrange(0, j as int) =~= rest@.take(j as int));
    }
    if endtime64 > i64::MAX as u64 {
        return Err(WorkerError::InvalidEndtime);
    }
    let mut status: Vec<char> = Vec::new();
    let mut k: usize = j + 1;
    while k < rest.len()
        invariant
            j + 1 <= k <= rest@.len(),
            status@ == rest@.subrange(j + 1, k as int),
        decreases rest@.len() - k,
    {
        status.push(rest[k]);
        assert(rest@.subrange(j + 1, k + 1) =~= rest@.subrange(j + 1, k as int).push(
            rest@[k as int],
        ));
        k += 1;
    }
    proof {
        assert(status@ =~= rest@.skip(j + 1));
    }
    let status_str = chars_to_string(&status);
    Ok((head_str, upid, Some((endtime64 as i64, status_str))))
}

/// Whether `pat` occurs in `s` at position `i`.
pub open spec fn match_at(s: Seq<char>, pat: Seq<char>, i: int) -> bool {
    0 <= i && i + pat.len() <= s.len() && s.subrange(i, i + pat.len()) == pat
}

/// First occurrence of `pat` in `s` at or after `k`, or -1.
pub open spec fn find_sub_from(s: Seq<char>, pat: Seq<char>, k: int) -> int
    decreases s.len() - k,
{
    if k < 0 || k + pat.len() > s.len() || pat.len() == 0 {
        -1
    } else if s.subrange(k, k + pat.len()) == pat {
        k
    } else {
        find_sub_from(s, pat, k + 1)
    }
}

proof fn lemma_find_sub_found(s: Seq<char>, pat: Seq<char>, k: int, i: int)
    requires
        0 <= k <= i,
        pat.len() > 0,
        match_at(s, pat, i),
        forall|j: int| k <= j < i ==> !match_at(s, pat, j),
    ensures
        find_sub_from(s, pat, k) == i,
    decreases i - k,
{
    if k < i {
        assert(!match_at(s, pat, k));
        lemma_find_sub_found(s, pat, k + 1, i);
    }
}

proof fn lemma_find_sub_none(s: Seq<char>, pat: Seq<char>, k: int)
    requires
        k >= 0,
        pat.len() > 0,
        forall|j: int| k <= j ==> !match_at(s, pat, j),
    ensures
        find_sub_from(s, pat, k) == -1,
    decreases s.len() - k,
{
    if k + pat.len() <= s.len() {
        assert(!match_at(s, pat, k));
        lemma_find_sub_none(s, pat, k + 1);
    }
}

/// The verdict a task-log line carries: after the first `: TASK `
/// separator, either `OK` or a full `ERROR: `-prefixed status; any
/// other line carries none.
pub open spec fn task_log_verdict(s: Seq<char>) -> Option<Seq<char>> {
    let i = find_sub_from(s, ": TASK "@, 0);
    if i < 0 {
        None
    } else {
        let rest = s.skip(i + 7);
        if rest == "OK"@ {
            Some(rest)
        } else if rest.len() >= 7 && rest.take(7) == "ERROR: "@ {
            Some(rest)
        } else {
            None
        }
    }
}

/// Whether the separator occurs at position `i`.
fn separator_at(chars: &Vec<char>, i: usize) -> (r: bool)
    requires
        i + 7 <= chars@.len(),
    ensures
        r == match_at(chars@, ": TASK "@, i as int),
{
    proof {
        reveal_strlit(": TASK ");
    }
    let n = chars.len();
    assert(i + 7 <= n);
    let r = chars[i] == ':' && chars[i + 1] == ' ' && chars[i + 2] == 'T' && chars[i + 3] == 'A'
        && chars[i + 4] == 'S' && chars[i + 5] == 'K' && chars[i + 6] == ' ';
    proof {
        if r {
            assert(chars@.subrange(i as int, i + 7) =~= ": TASK "@);
        } else {
            assert(chars@.subrange(i as int, i + 7) != ": TASK "@) by {
                if chars@.subrange(i as int, i + 7) == ": TASK "@ {
                    assert(chars@[i as int] == ": TASK "@[0]);
                    assert(chars@[i + 1] == ": TASK "@[1]);
                    assert(chars@[i + 2] == ": TASK "@[2]);
                    assert(chars@[i + 3] == ": TASK "@[3]);
                    assert(chars@[i + 4] == ": TASK "@[4]);
                    assert(chars@[i + 5] == ": TASK "@[5]);
                    assert(chars@[i + 6] == ": TASK "@[6]);
                }
            }
        }
    }
    r
}

/// Classify one task-log line: the status it reports, if any. A scan
/// of a whole log keeps the last reported status.
#[verifier::loop_isolation(false)]
pub fn task_status_from_log_line(line: &str) -> (r: Option<String>)
    ensures
        match r {
            Some(status) => task_log_verdict(line@) == Some(status@),
            None => task_log_verdict(line@) is None,
        },
{
    proof {
        reveal_strlit(": TASK ");
        reveal_strlit("OK");
        reveal_strlit("ERROR: ");
    }
    let chars = str_to_chars(line);
    let n = chars.len();
    if n < 7 {
        proof {
            assert(forall|j: int| 0 <= j ==> !match_at(chars@, ": TASK "@, j));
            lemma_find_sub_none(chars@, ": TASK "@, 0);
        }
        return None;
    }
    let mut i: usize = 0;
    while i <= n - 7
        invariant
            i <= n,
            forall|j: int| 0 <= j < i ==> !match_at(chars@, ": TASK "@, j),
        decreases n - i,
    {
        if separator_at(&chars, i) {
            proof {
                lemma_find_sub_found(chars@, ": TASK "@, 0, i as int);
            }
            // collect the rest of the line after the separator
            let mut rest: Vec<char> = Vec::new();
            let mut k: usize = i + 7;
            while k < n
                invariant
                    i + 7 <= k <= n,
                    n == chars@.len(),
                    rest@ == chars@.subrange(i + 7, k as int),
                decreases n - k,
            {
                rest.push(chars[k]);
                assert(chars@.subrange(i + 7, k + 1) =~= chars@.subrange(i + 7, k as int).push(
                    chars@[k as int],
                ));
                k += 1;
            }
            proof {
                assert(rest@ =~= chars@.skip(i + 7));
            }
            let ok = str_to_chars("OK");
            if crate::strutil::chars_equal(&rest, &ok) {
                return Some(chars_to_string(&rest));
            }
            if rest.len() >= 7 {
                let mut is_error = true;
                let error_prefix = str_to_chars("ERROR: ");
                let mut m: usize = 0;
                while m < 7
                    invariant
                        m <= 7,
                        rest@.len() >= 7,
                        error_prefix@ == "ERROR: "@,
                        "ERROR: "@.len() == 7,
                        is_error <==> (forall|q: int|
                            0 <= q < m ==> rest@[q] == #[trigger] "ERROR: "@[q]),
                    decreases 7 - m,
                {
                    if rest[m] != error_prefix[m] {
                        is_error = false;
                    }
                    m += 1;
                }
                if is_error {
                    proof {
                        assert(rest@.take(7) =~= "ERROR: "@);
                    }
                    return Some(chars_to_string(&rest));
                }
                proof {
                    assert(rest@.take(7) != "ERROR: "@) by {
                        let q = choose|q: int|
                            0 <= q < 7 && rest@[q] != #[trigger] "ERROR: "@[q];
                        assert(rest@.take(7)[q] == rest@[q]);
                    }
                }
                return None;
            }
            return None;
        }
        i += 1;
    }
    proof {
        assert(i > n - 7);
        assert forall|j: int| 0 <= j implies !match_at(chars@, ": TASK "@, j) by {
            if j >= i {
                assert(j + 7 > chars@.len());
            }
        }
        lemma_find_sub_none(chars@, ": TASK "@, 0);
    }
    None
}

/// The final status a whole task log reports: the last verdict line
/// wins; a log without any is `unknown`.
pub open spec fn log_status(lines: Seq<Seq<char>>) -> Seq<char>
    decreases lines.len(),
{
    if lines.len() == 0 {
        "unknown"@
    } else {
        match task_log_verdict(lines.last()) {
            Some(v) => v,
            None => log_status(lines.drop_last()),
        }
    }
}

/// The status a task's whole log reports, scanning its lines in order
/// and keeping the last verdict.
pub fn task_log_status(lines: &Vec<String>) -> (r: String)
    ensures
        r@ == log_status(lines.deep_view()),
{
    let mut status = "unknown".to_owned();
    proof {
        assert(lines.deep_view().take(0) =~= Seq::<Seq<char>>::empty());
    }
    let mut i: usize = 0;
    while i < lines.len()
        invariant
            i <= lines@.len(),
            lines.deep_view().len() == lines@.len(),
            forall|k: int|
                0 <= k < lines@.len() ==> #[trigger] lines.deep_view()[k] == lines@[k]@,
            status@ == log_status(lines.deep_view().take(i as int)),
        decreases lines@.len() - i,
    {
        proof {
            let t = lines.deep_view().take(i + 1);
            assert(t.drop_last() =~= lines.deep_view().take(i as int));
            assert(t.last() == lines@[i as int]@);
        }
        match task_status_from_log_line(lines[i].as_str()) {
            Some(v) => {
                status = v;
            },
            None => (),
        }
        i += 1;
    }
    proof {
        assert(lines.deep_view().take(lines@.len() as int) =~= lines.deep_view());
    }
    status
}

/// The text of one active-tasks line, newline included: the tag alone
/// for a running task, tag, end time and status for a finished one.
pub open spec fn status_line_text(upid: UpidView, state: Option<(int, Seq<char>)>) -> Seq<
    char,
> {
    match state {
        Some((endtime, status)) => upid_text(upid) + " "@ + hex_padded_upper(
            8,
            endtime as nat,
        ) + " "@ + status + "\n"@,
        None => upid_text(upid) + "\n"@,
    }
}

/// One row of the task list: a worker task and, when finished, its end
/// time and status.
pub struct TaskListInfo {
    pub upid: UPID,
    pub state: Option<(i64, String)>,
}

/// Render one task-list row as its line in the active-tasks file.
pub fn render_status_line(info: &TaskListInfo) -> (r: String)
    requires
        info.upid@.valid(),
        match info.state {
            Some((endtime, _)) => endtime >= 0,
            None => true,
        },
    ensures
        r@ == status_line_text(
            info.upid@,
            match info.state {
                Some((endtime, status)) => Some((endtime as int, status@)),
                None => None,
            },
        ),
{
    let tag = info.upid.to_text();
    let mut out: Vec<char> = Vec::new();
    push_chars(&mut out, tag.as_str());
    match &info.state {
        Some((endtime, status)) => {
            push_chars(&mut out, " ");
            crate::textenc::push_hex_padded_upper(&mut out, 8, *endtime as u64);
            push_chars(&mut out, " ");
            push_chars(&mut out, status.as_str());
            push_chars(&mut out, "\n");
        },
        None => {
            push_chars(&mut out, "\n");
        },
    }
    proof {
        assert(out@ =~= status_line_text(
            info.upid@,
            match info.state {
                Some((endtime, status)) => Some((endtime as int, status@)),
                None => None,
            },
        ));
    }
    chars_to_string(&out)
}

/// Order of the rebuilt task list: every active (running) task before
/// every finished one, active tasks by start time, finished tasks by
/// end time.
pub open spec fn task_le(a: TaskListInfo, b: TaskListInfo) -> bool {
    match (a.state, b.state) {
        (Some(s1), Some(s2)) => s1.0 <= s2.0,
        (Some(_), None) => false,
        (None, Some(_)) => true,
        (None, None) => a.upid.starttime <= b.upid.starttime,
    }
}

proof fn lemma_task_le_total(a: TaskListInfo, b: TaskListInfo)
    ensures
        task_le(a, b) || task_le(b, a),
{
}

proof fn lemma_task_le_trans(a: TaskListInfo, b: TaskListInfo, c: TaskListInfo)
    requires
        task_le(a, b),
        task_le(b, c),
    ensures
        task_le(a, c),
{
}

fn task_le_exec(a: &TaskListInfo, b: &TaskListInfo) -> (r: bool)
    ensures
        r == task_le(*a, *b),
{
    match (&a.state, &b.state) {
        (Some(s1), Some(s2)) => s1.0 <= s2.0,
        (Some(_), None) => false,
        (None, Some(_)) => true,
        (None, None) => a.upid.starttime <= b.upid.starttime,
    }
}

pub open spec fn tasks_sorted(s: Seq<TaskListInfo>) -> bool {
    forall|i: int, j: int| 0 <= i < j < s.len() ==> task_le(#[trigger] s[i], #[trigger] s[j])
}

/// Sort the task list by insertion, keeping exactly the same rows.
fn sort_tasks(v: &mut Vec<TaskListInfo>)
    ensures
        tasks_sorted(final(v)@),
        final(v)@.to_multiset() == old(v)@.to_multiset(),
        final(v)@.len() == old(v)@.len(),
{
    proof {
        broadcast use vstd::seq_lib::group_to_multiset_ensures;

    }
    if v.len() <= 1 {
        return ;
    }
    let mut i: usize = 1;
    while i < v.len()
        invariant
            1 <= i <= v@.len(),
            v@.to_multiset() == old(v)@.to_multiset(),
            v@.len() == old(v)@.len(),
            tasks_sorted(v@.take(i as int)),
        decreases v@.len() - i,
    {
        let ghost pre = v@;
        let item = v.remove(i);
        let mut p: usize = 0;
        while p < i && task_le_exec(&v[p], &item)
            invariant
                p <= i,
                i < pre.len(),
                v@ == pre.remove(i as int),
                item == pre[i as int],
                forall|m: int| 0 <= m < p ==> task_le(#[trigger] v@[m], item),
            decreases i - p,
        {
            p += 1;
        }
        proof {
            if p < i {
                lemma_task_le_total(v@[p as int], item);
            }
        }
        v.insert(p, item);
        proof {
            broadcast use vstd::seq_lib::group_to_multiset_ensures;

            assert(v@.to_multiset() =~= pre.to_multiset());
            let cur = v@;
            assert forall|a: int, b: int|
                0 <= a < b < i + 1 implies task_le(#[trigger] cur[a], #[trigger] cur[b]) by {
                assert(forall|m: int|
                    0 <= m < i ==> pre.remove(i as int)[m] == #[trigger] pre[m]);
                if b < p {
                    assert(task_le(pre[a], pre[b]));
                } else if b == p {
                    assert(task_le(cur[a], item));
                } else {
                    // b > p: cur[b] is a shifted element of the sorted prefix
                    assert(cur[b] == pre[b - 1]);
                    if a < p {
                        assert(task_le(pre[a], pre[b - 1]));
                    } else if a == p {
                        if p < i {
                            assert(task_le(item, pre[p as int]));
                            if b - 1 > p {
                                assert(task_le(pre[p as int], pre[b - 1]));
                                lemma_task_le_trans(item, pre[p as int], pre[b - 1]);
                            }
                        }
                    } else {
                        assert(task_le(pre[a - 1], pre[b - 1]));
                    }
                }
            }
            assert(tasks_sorted(cur.take(i + 1)));
        }
        i += 1;
    }
    proof {
        assert(v@.take(v@.len() as int) =~= v@);
    }
}

/// Whether some row carries this tag text.
pub open spec fn has_task(s: Seq<TaskListInfo>, tag: Seq<char>) -> bool {
    exists|k: int| 0 <= k < s.len() && upid_text((#[trigger] s[k]).upid@) == tag
}

/// Whether some row carries this tag text and is itself a row of the
/// given pool.
pub open spec fn keeps_task_from(
    s: Seq<TaskListInfo>,
    source: Seq<TaskListInfo>,
    tag: Seq<char>,
) -> bool {
    exists|k: int|
        0 <= k < s.len() && upid_text((#[trigger] s[k]).upid@) == tag
            && source.to_multiset().contains(s[k])
}

/// No two rows carry the same tag text.
pub open spec fn tags_unique(s: Seq<TaskListInfo>) -> bool {
    forall|k1: int, k2: int|
        0 <= k1 < k2 < s.len() ==> upid_text((#[trigger] s[k1]).upid@) != upid_text(
            (#[trigger] s[k2]).upid@,
        )
}

fn contains_task(v: &Vec<TaskListInfo>, tag: &String) -> (r: bool)
    requires
        forall|k: int| 0 <= k < v@.len() ==> (#[trigger] v@[k]).upid@.valid(),
    ensures
        r == has_task(v@, tag@),
{
    let mut k: usize = 0;
    while k < v.len()
        invariant
            k <= v@.len(),
            forall|m: int| 0 <= m < v@.len() ==> (#[trigger] v@[m]).upid@.valid(),
            forall|m: int| 0 <= m < k ==> upid_text((#[trigger] v@[m]).upid@) != tag@,
        decreases v@.len() - k,
    {
        let text = v[k].upid.to_text();
        if crate::strutil::chars_equal(&str_to_chars(text.as_str()), &str_to_chars(tag.as_str()))
             {
            return true;
        }
        k += 1;
    }
    false
}

/// Rebuild the task list: all active tasks, then finished tasks as
/// long as the list holds no more than a thousand rows, without
/// repeating a tag — the whole sorted with active tasks first by start
/// time and finished ones after by end time.
pub fn assemble_task_list(active: Vec<TaskListInfo>, finish: Vec<TaskListInfo>) -> (r: Vec<
    TaskListInfo,
>)
    requires
        forall|k: int| 0 <= k < active@.len() ==> (#[trigger] active@[k]).upid@.valid(),
        forall|k: int| 0 <= k < finish@.len() ==> (#[trigger] finish@[k]).upid@.valid(),
    ensures
        tasks_sorted(r@),
        tags_unique(r@),
        r@.len() <= active@.len() + finish@.len(),
        // beyond a thousand rows plus one, the list can only be active rows
        r@.len() <= 1001 || r@.len() <= active@.len(),
        // every row comes from the inputs
        forall|k: int|
            0 <= k < r@.len() ==> active@.to_multiset().contains(#[trigger] r@[k])
                || finish@.to_multiset().contains(r@[k]),
        // every active task's tag is kept, and by one of the active rows
        forall|k: int|
            0 <= k < active@.len() ==> keeps_task_from(
                r@,
                active@,
                upid_text((#[trigger] active@[k]).upid@),
            ),
        // history is kept while the list stays within a thousand rows
        r@.len() <= 1000 ==> forall|k: int|
            0 <= k < finish@.len() ==> has_task(r@, upid_text((#[trigger] finish@[k]).upid@)),
{
    proof {
        broadcast use vstd::seq_lib::group_to_multiset_ensures;

    }
    let ghost orig_active = active@;
    let ghost orig_finish = finish@;
    let mut active = active;
    let mut finish = finish;
    let na = active.len();
    let nf = finish.len();
    let mut out: Vec<TaskListInfo> = Vec::new();
    let mut done: usize = 0;
    while active.len() > 0
        invariant
            na == orig_active.len(),
            nf == orig_finish.len(),
            done + active@.len() == orig_active.len(),
            active@ =~= orig_active.skip(done as int),
            out@.len() <= done,
            forall|k: int|
                0 <= k < orig_active.len() ==> (#[trigger] orig_active[k]).upid@.valid(),
            forall|k: int| 0 <= k < out@.len() ==> (#[trigger] out@[k]).upid@.valid(),
            forall|k: int|
                0 <= k < out@.len() ==> orig_active.to_multiset().contains(#[trigger] out@[k]),
            forall|k: int|
                0 <= k < done ==> keeps_task_from(
                    out@,
                    orig_active,
                    upid_text((#[trigger] orig_active[k]).upid@),
                ),
            tags_unique(out@),
        decreases active@.len(),
    {
        proof {
            broadcast use vstd::seq_lib::group_to_multiset_ensures;

            assert(active@[0] == orig_active[done as int]);
        }
        let row = active.remove(0);
        proof {
            assert(orig_active.contains(row)) by {
                assert(orig_active[done as int] == row);
            }
        }
        let tag = row.upid.to_text();
        if !contains_task(&out, &tag) {
            let ghost before = out@;
            out.push(row);
            proof {
                assert(forall|k: int|
                    0 <= k < before.len() ==> out@[k] == #[trigger] before[k]);
                assert(upid_text(out@[out@.len() - 1].upid@) == tag@);
                assert(orig_active.to_multiset().contains(out@[out@.len() - 1]));
                assert forall|k1: int, k2: int|
                    0 <= k1 < k2 < out@.len() implies upid_text(
                    (#[trigger] out@[k1]).upid@,
                ) != upid_text((#[trigger] out@[k2]).upid@) by {
                    if k2 < out@.len() - 1 {
                        assert(upid_text(before[k1].upid@) != upid_text(before[k2].upid@));
                    } else {
                        assert(!has_task(before, tag@));
                        assert(out@[k1] == before[k1]);
                        if upid_text(before[k1].upid@) == tag@ {
                            assert(has_task(before, tag@));
                        }
                    }
                }
            }
        }
        proof {
            assert(active@ =~= orig_active.skip(done + 1));
            assert forall|k: int|
                0 <= k < done + 1 implies keeps_task_from(
                out@,
                orig_active,
                upid_text((#[trigger] orig_active[k]).upid@),
            ) by {
                if k == done {
                    if has_task(out@, tag@) {
                        let w = choose|w: int|
                            0 <= w < out@.len() && upid_text((#[trigger] out@[w]).upid@)
                                == tag@;
                        assert(orig_active.to_multiset().contains(out@[w]));
                    }
                }
            }
        }
        done += 1;
    }
    let ghost active_part = out@;
    let mut done_f: usize = 0;
    while finish.len() > 0 && out.len() <= 1000
        invariant
            na == orig_active.len(),
            nf == orig_finish.len(),
            done_f + finish@.len() == orig_finish.len(),
            finish@ =~= orig_finish.skip(done_f as int),
            out@.len() <= orig_active.len() + done_f,
            out@.len() <= 1001 || out@.len() <= orig_active.len(),
            forall|k: int|
                0 <= k < orig_finish.len() ==> (#[trigger] orig_finish[k]).upid@.valid(),
            forall|k: int| 0 <= k < out@.len() ==> (#[trigger] out@[k]).upid@.valid(),
            forall|k: int|
                0 <= k < out@.len() ==> orig_active.to_multiset().contains(#[trigger] out@[k])
                    || orig_finish.to_multiset().contains(out@[k]),
            forall|k: int|
                0 <= k < orig_active.len() ==> keeps_task_from(
                    out@,
                    orig_active,
                    upid_text((#[trigger] orig_active[k]).upid@),
                ),
            out@.len() <= 1000 ==> forall|k: int|
                0 <= k < done_f ==> has_task(
                    out@,
                    upid_text((#[trigger] orig_finish[k]).upid@),
                ),
            tags_unique(out@),
        decreases finish@.len(),
    {
        proof {
            broadcast use vstd::seq_lib::group_to_multiset_ensures;

            assert(finish@[0] == orig_finish[done_f as int]);
        }
        let row = finish.remove(0);
        proof {
            assert(orig_finish.contains(row)) by {
                assert(orig_finish[done_f as int] == row);
            }
        }
        let tag = row.upid.to_text();
        if !contains_task(&out, &tag) {
            let ghost before = out@;
            out.push(row);
            proof {
                assert(forall|k: int|
                    0 <= k < before.len() ==> out@[k] == #[trigger] before[k]);
                assert(upid_text(out@[out@.len() - 1].upid@) == tag@);
                assert forall|k1: int, k2: int|
                    0 <= k1 < k2 < out@.len() implies upid_text(
                    (#[trigger] out@[k1]).upid@,
                ) != upid_text((#[trigger] out@[k2]).upid@) by {
                    if k2 < out@.len() - 1 {
                        assert(upid_text(before[k1].upid@) != upid_text(before[k2].upid@));
                    } else {
                        assert(!has_task(before, tag@));
                        assert(out@[k1] == before[k1]);
                        if upid_text(before[k1].upid@) == tag@ {
                            assert(has_task(before, tag@));
                        }
                    }
                }
                assert forall|k: int|
                    0 <= k < orig_active.len() implies keeps_task_from(
                    out@,
                    orig_active,
                    upid_text((#[trigger] orig_active[k]).upid@),
                ) by {
                    let w = choose|w: int|
                        0 <= w < before.len() && upid_text((#[trigger] before[w]).upid@)
                            == upid_text(orig_active[k].upid@) && orig_active.to_multiset().contains(
                            before[w],
                        );
                    assert(upid_text(out@[w].upid@) == upid_text(orig_active[k].upid@));
                    assert(orig_active.to_multiset().contains(out@[w]));
                }
            }
        }
        proof {
            assert(finish@ =~= orig_finish.skip(done_f + 1));
            if out@.len() <= 1000 {
                assert forall|k: int|
                    0 <= k < done_f + 1 implies has_task(
                    out@,
                    upid_text((#[trigger] orig_finish[k]).upid@),
                ) by {}
            }
        }
        done_f += 1;
    }
    let ghost merged = out@;
    sort_tasks(&mut out);
    proof {
        broadcast use vstd::seq_lib::group_to_multiset_ensures;

        assert forall|k: int|
            0 <= k < out@.len() implies orig_active.to_multiset().contains(#[trigger] out@[k])
            || orig_finish.to_multiset().contains(out@[k]) by {
            assert(out@.contains(out@[k]));
            assert(out@.to_multiset().count(out@[k]) > 0);
            assert(merged.to_multiset().count(out@[k]) > 0);
            assert(merged.contains(out@[k]));
            let w = choose|w: int| 0 <= w < merged.len() && merged[w] == out@[k];
        }
        assert forall|k: int|
            0 <= k < orig_active.len() implies keeps_task_from(
            out@,
            orig_active,
            upid_text((#[trigger] orig_active[k]).upid@),
        ) by {
            let w = choose|w: int|
                0 <= w < merged.len() && upid_text((#[trigger] merged[w]).upid@) == upid_text(
                    orig_active[k].upid@,
                ) && orig_active.to_multiset().contains(merged[w]);
            assert(merged.contains(merged[w]));
            assert(merged.to_multiset().count(merged[w]) > 0);
            assert(out@.to_multiset().count(merged[w]) > 0);
            assert(out@.contains(merged[w]));
            let u = choose|u: int| 0 <= u < out@.len() && out@[u] == merged[w];
            assert(upid_text(out@[u].upid@) == upid_text(orig_active[k].upid@));
            assert(orig_active.to_multiset().contains(out@[u]));
        }
        if out@.len() <= 1000 {
            assert(merged.len() <= 1000);
            assert(finish@.len() == 0 || merged.len() > 1000);
            assert forall|k: int|
                0 <= k < orig_finish.len() implies has_task(
                out@,
                upid_text((#[trigger] orig_finish[k]).upid@),
            ) by {
                assert(has_task(merged, upid_text(orig_finish[k].upid@)));
                let w = choose|w: int|
                    0 <= w < merged.len() && upid_text((#[trigger] merged[w]).upid@)
                        == upid_text(orig_finish[k].upid@);
                assert(merged.contains(merged[w]));
                assert(merged.to_multiset().count(merged[w]) > 0);
                assert(out@.to_multiset().count(merged[w]) > 0);
                assert(out@.contains(merged[w]));
                let u = choose|u: int| 0 <= u < out@.len() && out@[u] == merged[w];
                assert(upid_text(out@[u].upid@) == upid_text(orig_finish[k].upid@));
            }
        }
        // a permutation of tag-distinct rows stays tag-distinct
        assert(merged.no_duplicates()) by {
            assert forall|k1: int, k2: int|
                0 <= k1 < merged.len() && 0 <= k2 < merged.len() && k1
                    != k2 implies #[trigger] merged[k1] != #[trigger] merged[k2] by {
                if k1 < k2 {
                    assert(upid_text(merged[k1].upid@) != upid_text(merged[k2].upid@));
                } else {
                    assert(upid_text(merged[k2].upid@) != upid_text(merged[k1].upid@));
                }
            }
        }
        merged.lemma_multiset_has_no_duplicates();
        assert(forall|x: TaskListInfo|
            out@.to_multiset().contains(x) ==> #[trigger] out@.to_multiset().count(x) == 1);
        out@.lemma_multiset_has_no_duplicates_conv();
        assert forall|k1: int, k2: int|
            0 <= k1 < k2 < out@.len() implies upid_text((#[trigger] out@[k1]).upid@)
            != upid_text((#[trigger] out@[k2]).upid@) by {
            assert(out@.contains(out@[k1]));
            assert(out@.to_multiset().count(out@[k1]) > 0);
            assert(merged.to_multiset().count(out@[k1]) > 0);
            assert(merged.contains(out@[k1]));
            assert(out@.contains(out@[k2]));
            assert(out@.to_multiset().count(out@[k2]) > 0);
            assert(merged.to_multiset().count(out@[k2]) > 0);
            assert(merged.contains(out@[k2]));
            if upid_text(out@[k1].upid@) == upid_text(out@[k2].upid@) {
                assert(out@[k1] != out@[k2]);
                let w1 = choose|w: int| 0 <= w < merged.len() && merged[w] == out@[k1];
                let w2 = choose|w: int| 0 <= w < merged.len() && merged[w] == out@[k2];
                assert(w1 != w2);
                assert(upid_text(merged[w1].upid@) != upid_text(merged[w2].upid@));
            }
        }
    }
    out
}

/// Render the whole task list as the active-tasks file content.
pub open spec fn task_list_text(s: Seq<TaskListInfo>) -> Seq<char>
    decreases s.len(),
{
    if s.len() == 0 {
        Seq::empty()
    } else {
        task_list_text(s.drop_last()) + status_line_text(
            s.last().upid@,
            match s.last().state {
                Some((endtime, status)) => Some((endtime as int, status@)),
                None => None,
            },
        )
    }
}

/// The file content for a task list: one line per row.
pub fn render_task_list(list: &Vec<TaskListInfo>) -> (r: String)
    requires
        forall|k: int| 0 <= k < list@.len() ==> (#[trigger] list@[k]).upid@.valid(),
        forall|k: int|
            0 <= k < list@.len() ==> match (#[trigger] list@[k]).state {
                Some((endtime, _)) => endtime >= 0,
                None => true,
            },
    ensures
        r@ == task_list_text(list@),
{
    let mut out: Vec<char> = Vec::new();
    let mut i: usize = 0;
    while i < list.len()
        invariant
            i <= list@.len(),
            forall|k: int| 0 <= k < list@.len() ==> (#[trigger] list@[k]).upid@.valid(),
            forall|k: int|
                0 <= k < list@.len() ==> match (#[trigger] list@[k]).state {
                    Some((endtime, _)) => endtime >= 0,
                    None => true,
                },
            out@ == task_list_text(list@.take(i as int)),
        decreases list@.len() - i,
    {
        let line = render_status_line(&list[i]);
        push_chars(&mut out, line.as_str());
        proof {
            let t = list@.take(i + 1);
            assert(t.drop_last() =~= list@.take(i as int));
            assert(t.last() == list@[i as int]);
        }
        i += 1;
    }
    assert(list@.take(list@.len() as int) =~= list@);
    chars_to_string(&out)
}

} // verus!
