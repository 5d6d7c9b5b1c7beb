//! What the task list promises across its operations: a listing shows
//! exactly the tasks that are not deleted, and deleting is a soft delete.
use vstd::prelude::*;
use vstd::utf8::encode_utf8;
use crate::text::split_lines;
use crate::todo::commands::{UpdateOpV, apply_op, find_task, live_tasks};
use crate::todo::store::{lemma_store_round_trip, parse_lines, storable, store_text};
use crate::todo::task::{Status, TaskV};

verus! {

/// A listing holds the tasks that are not deleted, each once, in their
/// order: no deleted task is listed, and every task that is not deleted is.
pub proof fn lemma_listing_is_live_tasks(ts: Seq<TaskV>)
    ensures
        live_tasks(ts) == ts.filter(|t: TaskV| !t.deleted),
        forall|i: int| 0 <= i < live_tasks(ts).len() ==> !(#[trigger] live_tasks(ts)[i]).deleted,
        forall|i: int| 0 <= i < ts.len() && !ts[i].deleted ==> live_tasks(ts).contains(ts[i]),
    decreases ts.len(),
{
    reveal(Seq::filter);
    if ts.len() > 0 {
        lemma_listing_is_live_tasks(ts.drop_last());
        assert(ts.drop_last().filter(|t: TaskV| !t.deleted) == live_tasks(ts.drop_last()));
        assert forall|i: int| 0 <= i < ts.len() && !ts[i].deleted implies live_tasks(
            ts,
        ).contains(ts[i]) by {
            if i < ts.len() - 1 {
                assert(ts.drop_last()[i] == ts[i]);
                let j = choose|j: int|
                    0 <= j < live_tasks(ts.drop_last()).len() && live_tasks(ts.drop_last())[j]
                        == ts[i];
                assert(live_tasks(ts)[j] == ts[i]);
            } else {
                assert(live_tasks(ts).last() == ts[i]);
            }
        }
    }
}

/// Deleting is a soft delete: the task keeps its place, id, title and
/// status, and only its `deleted` flag is set; so it is still written to the
/// task file and read back from it (when every title fits the format), while
/// no listing shows it.
pub proof fn lemma_soft_delete(ts: Seq<TaskV>, id: u32)
    requires
        find_task(ts, id, 0) is Some,
    ensures
        ({
            let k = find_task(ts, id, 0)->Some_0;
            let after = ts.update(k, apply_op(ts[k], UpdateOpV::Delete));
            &&& 0 <= k < ts.len()
            &&& after.len() == ts.len()
            &&& after[k] == TaskV { deleted: true, ..ts[k] }
            &&& !live_tasks(after).contains(after[k])
            &&& (forall|i: int| 0 <= i < after.len() ==> storable(#[trigger] after[i]))
                ==> parse_lines(split_lines(encode_utf8(store_text(after))), 0) == Ok::<
                Seq<TaskV>,
                (nat, Seq<char>),
            >(after)
        }),
{
    let k = find_task(ts, id, 0)->Some_0;
    lemma_find_task_in_range(ts, id, 0);
    let after = ts.update(k, apply_op(ts[k], UpdateOpV::Delete));
    lemma_listing_is_live_tasks(after);
    if live_tasks(after).contains(after[k]) {
        let j = choose|j: int| 0 <= j < live_tasks(after).len() && live_tasks(after)[j] == after[k];
        assert(!live_tasks(after)[j].deleted);
    }
    if forall|i: int| 0 <= i < after.len() ==> storable(#[trigger] after[i]) {
        lemma_store_round_trip(after, 0);
    }
}

proof fn lemma_find_task_in_range(ts: Seq<TaskV>, id: u32, i: int)
    ensures
        find_task(ts, id, i) matches Some(k) ==> i <= k < ts.len() && ts[k].id == id,
    decreases ts.len() - i,
{
    if 0 <= i < ts.len() && ts[i].id != id {
        lemma_find_task_in_range(ts, id, i + 1);
    }
}

/// Each change touches one field of the task and keeps its id: renaming
/// sets only the title, completing and moving back to pending set only the
/// status, deleting sets only the `deleted` flag.
pub proof fn lemma_change_touches_one_field(t: TaskV, op: UpdateOpV)
    ensures
        apply_op(t, op).id == t.id,
        op matches UpdateOpV::Rename(x) ==> apply_op(t, op).title == x && apply_op(t, op).status
            == t.status && apply_op(t, op).deleted == t.deleted,
        op is Complete ==> apply_op(t, op).status == Status::Done && apply_op(t, op).title
            == t.title && apply_op(t, op).deleted == t.deleted,
        op is Pend ==> apply_op(t, op).status == Status::Pending && apply_op(t, op).title
            == t.title && apply_op(t, op).deleted == t.deleted,
        op is Delete ==> apply_op(t, op).deleted && apply_op(t, op).title == t.title && apply_op(
            t,
            op,
        ).status == t.status,
{
}

/// An update changes only the task it names, and only in the one field
/// its change is about; every task keeps its id and its place.
pub proof fn lemma_update_changes_one_task(ts: Seq<TaskV>, id: u32, op: UpdateOpV)
    requires
        find_task(ts, id, 0) is Some,
    ensures
        ({
            let k = find_task(ts, id, 0)->Some_0;
            let after = ts.update(k, apply_op(ts[k], op));
            &&& 0 <= k < ts.len()
            &&& ts[k].id == id
            &&& after.len() == ts.len()
            &&& forall|i: int| 0 <= i < ts.len() ==> (#[trigger] after[i]).id == ts[i].id
            &&& forall|i: int| 0 <= i < ts.len() && i != k ==> #[trigger] after[i] == ts[i]
            &&& (op matches UpdateOpV::Rename(x) ==> after[k] == TaskV { title: x, ..ts[k] })
        }),
{
    lemma_find_task_in_range(ts, id, 0);
    let k = find_task(ts, id, 0)->Some_0;
    lemma_change_touches_one_field(ts[k], op);
}

} // verus!
