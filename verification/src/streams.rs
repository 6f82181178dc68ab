//! What holds of a book along a whole stream of operations: it stays
//! valid (so it is never crossed), and ids are handed out one by one in
//! call order, never twice.

use vstd::prelude::*;

use crate::book::{law_cancel_keeps_valid, law_submit_keeps_valid};
use crate::model::{not_crossed, BookView};
use crate::naive::{book_run, book_step, Op, Reply};

verus! {

/// Whether `op` submits an order and so takes an id.
pub open spec fn submits(op: Op) -> bool {
    op is Limit || op is Ioc
}

/// How many of `ops` submit an order.
pub open spec fn submissions(ops: Seq<Op>) -> nat
    decreases ops.len(),
{
    if ops.len() == 0 {
        0
    } else {
        submissions(ops.drop_last()) + if submits(ops.last()) {
            1nat
        } else {
            0nat
        }
    }
}

/// The empty book a fresh `Book` starts as.
pub open spec fn fresh_book() -> BookView {
    BookView { bids: Seq::empty(), asks: Seq::empty(), next_id: 1, events: Seq::empty() }
}

/// Counting submissions from the front gives the same count.
proof fn lemma_submissions_front(ops: Seq<Op>)
    requires
        ops.len() > 0,
    ensures
        submissions(ops) == (if submits(ops[0]) {
            1nat
        } else {
            0nat
        }) + submissions(ops.drop_first()),
    decreases ops.len(),
{
    if ops.len() > 1 {
        lemma_submissions_front(ops.drop_last());
        assert(ops.drop_last().drop_first() =~= ops.drop_first().drop_last());
        assert(ops.drop_last()[0] == ops[0]);
        assert(ops.drop_first().last() == ops.last());
        assert(submissions(ops.drop_first()) == submissions(ops.drop_first().drop_last()) + if submits(
            ops.last(),
        ) {
            1nat
        } else {
            0nat
        });
        assert(submissions(ops) == submissions(ops.drop_last()) + if submits(ops.last()) {
            1nat
        } else {
            0nat
        });
    } else {
        assert(ops.drop_first().len() == 0);
        assert(ops.drop_last().len() == 0);
        assert(submissions(ops.drop_first()) == 0);
        assert(submissions(ops.drop_last()) == 0);
        assert(ops.last() == ops[0]);
    }
}

/// Counting the submissions of a longer prefix never gives fewer, and an
/// order submitted in between adds one.
proof fn lemma_submissions_grow(ops: Seq<Op>, i: int, j: int)
    requires
        0 <= i < j <= ops.len(),
    ensures
        submissions(ops.take(j)) >= submissions(ops.take(i)) + if submits(ops[i]) {
            1nat
        } else {
            0nat
        },
    decreases j - i,
{
    assert(ops.take(j).drop_last() =~= ops.take(j - 1));
    assert(ops.take(j).last() == ops[j - 1]);
    if j - 1 > i {
        lemma_submissions_grow(ops, i, j - 1);
    }
}

/// A stream gives one reply per operation.
proof fn lemma_run_replies_len(b: BookView, ops: Seq<Op>)
    ensures
        book_run(b, ops).2.len() == ops.len(),
    decreases ops.len(),
{
    if ops.len() > 0 {
        lemma_run_replies_len(book_step(b, ops[0]).0, ops.drop_first());
    }
}

/// One operation on a valid book leaves it valid, takes one id when it
/// submits an order and none otherwise.
proof fn lemma_step_keeps_valid(b: BookView, op: Op)
    requires
        b.valid(),
        b.next_id + 1 < u64::MAX,
    ensures
        book_step(b, op).0.valid(),
        book_step(b, op).0.next_id == b.next_id + if submits(op) {
            1int
        } else {
            0int
        },
{
    match op {
        Op::Limit { side, price, qty, owner } => law_submit_keeps_valid(b, side, price, qty, owner, true),
        Op::Ioc { side, limit, qty, owner } => law_submit_keeps_valid(b, side, limit, qty, owner, false),
        Op::Cancel { id } => law_cancel_keeps_valid(b, id),
        Op::Purge => {},
    }
}

/// Every stream of operations keeps a valid book valid, and therefore
/// never crossed; the next id afterwards is the one before plus the number
/// of orders submitted. Cancels and purges take no id.
pub proof fn law_streams_keep_valid(b: BookView, ops: Seq<Op>)
    requires
        b.valid(),
        b.next_id + ops.len() < u64::MAX,
    ensures
        book_run(b, ops).0.valid(),
        not_crossed(book_run(b, ops).0.bids, book_run(b, ops).0.asks),
        book_run(b, ops).0.next_id == b.next_id + submissions(ops),
    decreases ops.len(),
{
    if ops.len() == 0 {
        assert(submissions(ops) == 0);
    } else {
        let st = book_step(b, ops[0]);
        lemma_step_keeps_valid(b, ops[0]);
        lemma_submissions_front(ops);
        law_streams_keep_valid(st.0, ops.drop_first());
    }
}

/// Ids are handed out in call order: the order submitted by the `i`-th
/// operation of a stream, when it is a limit order, gets the book's next
/// id plus the number of orders submitted before it.
pub proof fn law_ids_in_call_order(b: BookView, ops: Seq<Op>, i: int)
    requires
        b.valid(),
        b.next_id + ops.len() < u64::MAX,
        0 <= i < ops.len(),
        ops[i] is Limit,
    ensures
        book_run(b, ops).2[i] == Reply::Placed((b.next_id + submissions(ops.take(i))) as u64),
    decreases ops.len(),
{
    let st = book_step(b, ops[0]);
    let rest = book_run(st.0, ops.drop_first());
    assert(book_run(b, ops).2 == seq![st.2] + rest.2);
    lemma_submissions_at_most_len(ops.take(i));
    if i == 0 {
        assert(ops.take(0).len() == 0);
        assert(submissions(ops.take(0)) == 0);
    } else {
        lemma_step_keeps_valid(b, ops[0]);
        law_ids_in_call_order(st.0, ops.drop_first(), i - 1);
        lemma_run_replies_len(st.0, ops.drop_first());
        lemma_submissions_at_most_len(ops.drop_first().take(i - 1));
        assert((seq![st.2] + rest.2)[i] == rest.2[i - 1]);
        lemma_submissions_front(ops.take(i));
        assert(ops.take(i).drop_first() =~= ops.drop_first().take(i - 1));
        assert(ops.take(i)[0] == ops[0]);
    }
}

/// No id is handed out twice: of two limit orders in a stream, the later
/// one gets a strictly larger id.
pub proof fn law_placed_ids_never_repeat(b: BookView, ops: Seq<Op>, i: int, j: int)
    requires
        b.valid(),
        b.next_id + ops.len() < u64::MAX,
        0 <= i < j < ops.len(),
        ops[i] is Limit,
        ops[j] is Limit,
    ensures
        book_run(b, ops).2[i]->Placed_0 < book_run(b, ops).2[j]->Placed_0,
{
    law_ids_in_call_order(b, ops, i);
    law_ids_in_call_order(b, ops, j);
    lemma_submissions_grow(ops, i, j);
    let ti = ops.take(i);
    let tj = ops.take(j);
    assert(submissions(tj) <= tj.len()) by {
        lemma_submissions_at_most_len(tj);
    }
}

proof fn lemma_submissions_at_most_len(ops: Seq<Op>)
    ensures
        submissions(ops) <= ops.len(),
    decreases ops.len(),
{
    if ops.len() > 0 {
        lemma_submissions_at_most_len(ops.drop_last());
    }
}

/// A book built from nothing by any stream of operations is valid and
/// never crossed, and the `k`-th order submitted got id `k` (counting from
/// one): ids run 1, 2, 3, ... in call order.
pub proof fn law_fresh_streams(ops: Seq<Op>)
    requires
        ops.len() + 1 < u64::MAX,
    ensures
        book_run(fresh_book(), ops).0.valid(),
        not_crossed(book_run(fresh_book(), ops).0.bids, book_run(fresh_book(), ops).0.asks),
        book_run(fresh_book(), ops).0.next_id == 1 + submissions(ops),
        forall|i: int|
            0 <= i < ops.len() && ops[i] is Limit ==> #[trigger] book_run(fresh_book(), ops).2[i]
                == Reply::Placed((1 + submissions(ops.take(i))) as u64),
{
    law_streams_keep_valid(fresh_book(), ops);
    assert forall|i: int| 0 <= i < ops.len() && ops[i] is Limit implies #[trigger] book_run(fresh_book(), ops).2[i]
        == Reply::Placed((1 + submissions(ops.take(i))) as u64) by {
        law_ids_in_call_order(fresh_book(), ops, i);
    }
}

} // verus!
