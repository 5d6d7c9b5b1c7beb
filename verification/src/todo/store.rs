//! The whole task file: one task line per line, blank lines skipped, and a
//! line that is not a task reported with its (1-based) line number.
use vstd::prelude::*;
use vstd::utf8::*;
use vstd::string::*;
use crate::decimal::{decimal, is_digit, lemma_decimal};
use crate::text::{
    find_byte,
    find_byte_exec,
    is_whitespace,
    lemma_encode_utf8_concat,
    lemma_find_byte,
    lemma_find_byte_is,
    lemma_last_not_cr_encode,
    lemma_no_newline_encode,
    split_around,
    str_trim,
    trim,
    trim_end,
    trim_start,
    split_lines,
    strip_cr,
    lemma_split_lines_step,
};
use crate::todo::commands::tasks_view;
use crate::todo::error::{TodoError, TodoErrorV};
use crate::todo::task::{Task, TaskV, decode_task, lemma_task_round_trip, task_text};

verus! {

broadcast use group_utf8_lib;

/// Tasks read from lines, the first of which is line `k + 1`: blank lines are
/// skipped; the first line that is not a task gives its number and the reason.
pub open spec fn parse_lines(ls: Seq<Seq<u8>>, k: nat) -> Result<Seq<TaskV>, (nat, Seq<char>)>
    decreases ls.len(),
{
    if ls.len() == 0 {
        Ok(Seq::empty())
    } else if trim(decode_utf8(ls[0])).len() == 0 {
        parse_lines(ls.drop_first(), k + 1)
    } else {
        match decode_task(ls[0]) {
            Err(m) => Err((k + 1, m)),
            Ok(t) => match parse_lines(ls.drop_first(), k + 1) {
                Ok(ts) => Ok(seq![t] + ts),
                Err(e) => Err(e),
            },
        }
    }
}

/// Tasks already read, followed by what reading the rest gave.
pub open spec fn prepend_tasks(ts: Seq<TaskV>, r: Result<Seq<TaskV>, (nat, Seq<char>)>) -> Result<
    Seq<TaskV>,
    (nat, Seq<char>),
> {
    match r {
        Ok(us) => Ok(ts + us),
        Err(e) => Err(e),
    }
}

/// The text of a task file: each task's line followed by `\n`.
pub open spec fn store_text(ts: Seq<TaskV>) -> Seq<char>
    decreases ts.len(),
{
    if ts.len() == 0 {
        Seq::empty()
    } else {
        task_text(ts[0]) + "\n"@ + store_text(ts.drop_first())
    }
}

/// Reads the tasks of a task file. Blank lines are skipped; the first line
/// that is not a task gives `Parse` with its 1-based number and the reason.
pub fn tasks_from_text(contents: &str) -> (r: Result<Vec<Task>, TodoError>)
    ensures
        match parse_lines(split_lines(contents.spec_bytes()), 0) {
            Ok(ts) => r matches Ok(v) && tasks_view(v@) == ts,
            Err((line, m)) => r matches Err(e) && e@ == (TodoErrorV::Parse { line, reason: m }),
        },
{
    let ghost whole = parse_lines(split_lines(contents.spec_bytes()), 0);
    let mut tasks: Vec<Task> = Vec::new();
    let mut rest: &str = contents;
    let mut k: usize = 0;
    let total = contents.as_bytes().len();
    while rest.as_bytes().len() > 0
        invariant
            total == contents.spec_bytes().len(),
            k <= contents.spec_bytes().len() - rest.spec_bytes().len(),
            rest.spec_bytes().len() <= contents.spec_bytes().len(),
            whole == parse_lines(split_lines(contents.spec_bytes()), 0),
            whole == prepend_tasks(tasks_view(tasks@), parse_lines(split_lines(rest.spec_bytes()), k as nat)),
        decreases rest.spec_bytes().len(),
    {
        let bytes = rest.as_bytes();
        let ghost rb = rest.spec_bytes();
        let (line, next) = match find_byte_exec(bytes, 10u8, 0) {
            Some(p) => {
                proof {
                    lemma_split_lines_step(rb, p as int);
                    lemma_find_byte(rb, 10u8, 0);
                }
                let (a, b) = split_around(rest, p);
                proof {
                    assert(a.spec_bytes() =~= rb.take(p as int));
                    assert(b.spec_bytes() =~= rb.skip(p + 1));
                }
                let ab = a.as_bytes();
                if ab.len() > 0 && ab[ab.len() - 1] == 13u8 {
                    let (l, _) = split_around(a, ab.len() - 1);
                    proof {
                        assert(l.spec_bytes() =~= a.spec_bytes().drop_last());
                    }
                    (l, b)
                } else {
                    (a, b)
                }
            },
            None => {
                let (a, b) = rest.split_at(bytes.len());
                proof {
                    assert(a.spec_bytes() =~= rb);
                    assert(b.spec_bytes() =~= Seq::<u8>::empty());
                    assert(split_lines(rb) == seq![rb]);
                    assert(split_lines(b.spec_bytes()) == Seq::<Seq<u8>>::empty());
                    assert(seq![rb] + Seq::<Seq<u8>>::empty() =~= seq![rb]);
                }
                (a, b)
            },
        };
        let ghost lv = line.spec_bytes();
        assert(split_lines(rb) == seq![lv] + split_lines(next.spec_bytes()));
        let ghost ls = seq![lv] + split_lines(next.spec_bytes());
        assert(ls[0] == lv);
        assert(ls.drop_first() =~= split_lines(next.spec_bytes()));
        proof {
            encode_utf8_decode_utf8(line@);
        }
        let blank = str_trim(line).as_bytes().len() == 0;
        assert(blank == (trim(decode_utf8(lv)).len() == 0));
        if !blank {
            match Task::decode(line) {
                Err(reason) => {
                    return Err(TodoError::Parse { line: k + 1, reason });
                },
                Ok(t) => {
                    let ghost before = tasks_view(tasks@);
                    tasks.push(t);
                    proof {
                        assert(tasks_view(tasks@) =~= before + seq![t@]);
                        let after = parse_lines(split_lines(next.spec_bytes()), (k + 1) as nat);
                        match after {
                            Ok(us) => {
                                assert(before + (seq![t@] + us) =~= (before + seq![t@]) + us);
                            },
                            Err(_) => {},
                        }
                    }
                },
            }
        }
        rest = next;
        k = k + 1;
    }
    proof {
        assert(rest.spec_bytes().len() == 0);
        assert(split_lines(rest.spec_bytes()) == Seq::<Seq<u8>>::empty());
        assert(tasks_view(tasks@) + Seq::<TaskV>::empty() =~= tasks_view(tasks@));
    }
    Ok(tasks)
}

/// The text of a task file holding these tasks: each task's line and `\n`.
pub fn tasks_to_text(tasks: &[Task]) -> (r: String)
    ensures
        r@ == store_text(tasks_view(tasks@)),
{
    let ghost ts = tasks_view(tasks@);
    let mut out = String::new();
    let mut j: usize = tasks.len();
    while j > 0
        invariant
            j <= tasks@.len(),
            ts == tasks_view(tasks@),
            out@ == store_text(ts.skip(j as int)),
        decreases j,
    {
        j -= 1;
        let line = tasks[j].to_string();
        let mut piece = line;
        piece.append("\n");
        piece.append(out.as_str());
        proof {
            assert(ts.skip(j as int).drop_first() =~= ts.skip(j + 1));
            assert(ts.skip(j as int)[0] == ts[j as int]);
        }
        out = piece;
    }
    assert(ts.skip(0) =~= ts);
    out
}

/// A task whose line survives the file format: its title holds no `\n` and
/// does not end with `\r`.
pub open spec fn storable(t: TaskV) -> bool {
    &&& forall|i: int| 0 <= i < t.title.len() ==> #[trigger] t.title[i] != '\n'
    &&& (t.title.len() > 0 ==> t.title.last() != '\r')
}

proof fn lemma_task_line_bytes(t: TaskV)
    requires
        storable(t),
    ensures
        forall|j: int|
            0 <= j < encode_utf8(task_text(t)).len() ==> #[trigger] encode_utf8(task_text(t))[j]
                != 10,
        encode_utf8(task_text(t)).len() > 0,
        encode_utf8(task_text(t)).last() != 13,
        trim(decode_utf8(encode_utf8(task_text(t)))).len() > 0,
{
    let x = task_text(t);
    reveal_strlit("|");
    reveal_strlit("pending");
    reveal_strlit("done");
    reveal_strlit("true");
    reveal_strlit("false");
    lemma_decimal(t.id as nat);
    let d = crate::decimal::decimal_chars(t.id as nat);
    assert(x.len() > 0);
    assert(x[0] == d[0]);
    assert(is_digit(decimal(t.id as nat)[0]));
    assert forall|i: int| 0 <= i < x.len() implies #[trigger] x[i] != '\n' by {
        if i >= x.len() - t.title.len() {
            assert(x[i] == t.title[i - (x.len() - t.title.len())]);
        } else if i < d.len() {
            assert(is_digit(decimal(t.id as nat)[i]));
        }
    }
    lemma_no_newline_encode(x);
    if t.title.len() > 0 {
        assert(x.last() == t.title.last());
    } else {
        assert(x.last() == '|');
    }
    lemma_last_not_cr_encode(x);
    encode_utf8_decode_utf8(x);
    assert(!is_whitespace(x[0]));
    assert(trim_start(x) == x);
    assert(trim_end(x).len() > 0) by {
        lemma_trim_end_keeps_first(x);
    }
}

proof fn lemma_trim_end_keeps_first(x: Seq<char>)
    requires
        x.len() > 0,
        !is_whitespace(x[0]),
    ensures
        trim_end(x).len() > 0,
    decreases x.len(),
{
    if is_whitespace(x.last()) {
        assert(x.len() > 1);
        assert(x.drop_last()[0] == x[0]);
        lemma_trim_end_keeps_first(x.drop_last());
    }
}

/// Writing tasks to a file's text and reading them back gives the same tasks,
/// whenever every title is free of `\n` and does not end with `\r`.
pub proof fn lemma_store_round_trip(ts: Seq<TaskV>, k: nat)
    requires
        forall|i: int| 0 <= i < ts.len() ==> storable(#[trigger] ts[i]),
    ensures
        parse_lines(split_lines(encode_utf8(store_text(ts))), k) == Ok::<
            Seq<TaskV>,
            (nat, Seq<char>),
        >(ts),
    decreases ts.len(),
{
    if ts.len() == 0 {
        assert(ts =~= Seq::<TaskV>::empty());
        assert(encode_utf8(store_text(ts)) =~= Seq::<u8>::empty());
        return;
    }
    let t = ts[0];
    let rest = ts.drop_first();
    assert forall|i: int| 0 <= i < rest.len() implies storable(#[trigger] rest[i]) by {
        assert(rest[i] == ts[i + 1]);
    }
    lemma_store_round_trip(rest, k + 1);
    assert(storable(t));
    lemma_task_line_bytes(t);
    lemma_task_round_trip(t);
    let l = encode_utf8(task_text(t));
    let tail = encode_utf8(store_text(rest));
    reveal_strlit("\n");
    lemma_encode_utf8_concat(task_text(t) + "\n"@, store_text(rest));
    lemma_encode_utf8_concat(task_text(t), "\n"@);
    assert(encode_utf8("\n"@) =~= seq![10u8]) by {
        assert("\n"@ =~= seq!['\n']);
        assert(crate::text::ascii_chars(seq![10u8]) =~= seq!['\n']);
        assert(crate::text::ascii_bytes(seq![10u8]));
        crate::text::lemma_ascii_utf8(seq![10u8]);
    }
    let b = encode_utf8(store_text(ts));
    assert(store_text(ts) == task_text(t) + "\n"@ + store_text(rest));
    assert(b =~= l + seq![10u8] + tail);
    lemma_find_byte_is(b, 10, 0, l.len() as int);
    lemma_split_lines_step(b, l.len() as int);
    assert(b.take(l.len() as int) =~= l);
    assert(b.skip(l.len() as int + 1) =~= tail);
    assert(strip_cr(l) == l);
    let ls = split_lines(b);
    assert(ls[0] == l);
    assert(ls.drop_first() =~= split_lines(tail));
    assert(seq![t] + rest =~= ts);
}

} // verus!
