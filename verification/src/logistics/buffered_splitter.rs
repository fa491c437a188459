use crate::logistics::belt_connection::{
    BeltInputConnection, BeltOutputConnection, Connection, ConnectionView,
};
use crate::logistics::round_robin::{
    amounts, deal, dealt, dealt_singly, first_ready_from, lemma_dealt, lemma_dealt_exhausts,
    lemma_dealt_singly, lemma_fair_shares, lemma_first_ready, lemma_sum_zero, ready_count, sum,
    wrap,
};
use crate::types::ItemType;
use vstd::prelude::*;

verus! {

/// The input connections of a splitter as plain values.
pub open spec fn input_states(conns: Seq<BeltInputConnection>) -> Seq<ConnectionView> {
    Seq::new(conns.len(), |i: int| conns[i].state())
}

/// The output connections of a splitter as plain values.
pub open spec fn output_states(conns: Seq<BeltOutputConnection>) -> Seq<ConnectionView> {
    Seq::new(conns.len(), |i: int| conns[i].state())
}

/// The sizes of the stacks that the output connections emit.
pub open spec fn output_sizes(conns: Seq<BeltOutputConnection>) -> Seq<u16> {
    Seq::new(conns.len(), |i: int| conns[i].stack_size())
}

/// Every input connection is valid.
pub open spec fn inputs_wf(conns: Seq<BeltInputConnection>) -> bool {
    forall|i: int| 0 <= i < conns.len() ==> (#[trigger] conns[i]).wf()
}

/// Every output connection is valid.
pub open spec fn outputs_wf(conns: Seq<BeltOutputConnection>) -> bool {
    forall|i: int| 0 <= i < conns.len() ==> (#[trigger] conns[i]).wf()
}

/// Every buffer keeps its caps.
pub open spec fn all_capped(conns: Seq<ConnectionView>) -> bool {
    forall|i: int| 0 <= i < conns.len() ==> (#[trigger] conns[i]).wf()
}

/// Items held in all the buffers.
pub open spec fn held_total(conns: Seq<ConnectionView>) -> nat
    decreases conns.len(),
{
    if conns.len() == 0 {
        0
    } else {
        held_total(conns.drop_last()) + conns.last().item_count
    }
}

/// How many items of `item_type` each buffer can take.
pub open spec fn capacities(conns: Seq<ConnectionView>, item_type: ItemType) -> Seq<nat> {
    Seq::new(conns.len(), |i: int| conns[i].capacity_for(item_type))
}

/// How many items of `item_type` each buffer holds.
pub open spec fn holdings(conns: Seq<ConnectionView>, item_type: ItemType) -> Seq<nat> {
    Seq::new(
        conns.len(),
        |i: int|
            if conns[i].item_type == Some(item_type) {
                conns[i].item_count
            } else {
                0
            },
    )
}

/// The buffers after each got items of `item_type`: as many as the
/// difference between what it could take `before` and `after`.
pub open spec fn received(
    conns: Seq<ConnectionView>,
    item_type: ItemType,
    before: Seq<nat>,
    after: Seq<nat>,
) -> Seq<ConnectionView> {
    Seq::new(conns.len(), |i: int| conns[i].put(item_type, (before[i] - after[i]) as nat))
}

/// The buffers after each gave up items: as many as the difference between
/// what it held `before` and `after`.
pub open spec fn surrendered(conns: Seq<ConnectionView>, before: Seq<nat>, after: Seq<nat>) -> Seq<
    ConnectionView,
> {
    Seq::new(conns.len(), |i: int| conns[i].take((before[i] - after[i]) as nat))
}

/// How a fill in order ends: the buffers and the items that none took.
pub struct Filled {
    pub conns: Seq<ConnectionView>,
    pub unsent: nat,
}

/// `n` items of `item_type` put into the buffers in their order, from the
/// buffer `i` on: each takes as many as it can of what the ones before it
/// left.
pub open spec fn filled_from(conns: Seq<ConnectionView>, item_type: ItemType, n: nat, i: int) -> Filled
    decreases conns.len() - i,
{
    if i >= conns.len() || i < 0 {
        Filled { conns, unsent: n }
    } else {
        let amount = vstd::math::min(n as int, conns[i].capacity_for(item_type) as int) as nat;
        filled_from(
            conns.update(i, conns[i].put(item_type, amount)),
            item_type,
            (n - amount) as nat,
            i + 1,
        )
    }
}

/// How a distribution ends: the outputs, the round-robin cursor, and the
/// items that no output took.
pub struct Distributed {
    pub priority: Seq<ConnectionView>,
    pub rr: Seq<ConnectionView>,
    pub rr_index: int,
    pub unsent: nat,
}

/// `n` items of `item_type` distributed: the priority outputs are filled
/// in their order, and what they leave goes to the round-robin outputs one
/// item at a time, from the cursor on.
pub open spec fn distributed(
    priority: Seq<ConnectionView>,
    rr: Seq<ConnectionView>,
    rr_index: int,
    item_type: ItemType,
    n: nat,
) -> Distributed {
    let first = filled_from(priority, item_type, n, 0);
    let caps = capacities(rr, item_type);
    let d = dealt(caps, rr_index, first.unsent);
    Distributed {
        priority: first.conns,
        rr: received(rr, item_type, caps, d.caps),
        rr_index: d.cursor,
        unsent: d.unsent,
    }
}

/// The items held after one buffer was replaced.
pub proof fn lemma_held_update(conns: Seq<ConnectionView>, i: int, c: ConnectionView)
    requires
        0 <= i < conns.len(),
    ensures
        held_total(conns.update(i, c)) + conns[i].item_count == held_total(conns) + c.item_count,
    decreases conns.len(),
{
    let after = conns.update(i, c);
    if i == conns.len() - 1 {
        assert(after.drop_last() =~= conns.drop_last());
    } else {
        assert(after.drop_last() =~= conns.drop_last().update(i, c));
        lemma_held_update(conns.drop_last(), i, c);
    }
}

/// A fill in order keeps the buffers' caps and loses no item.
pub proof fn lemma_filled(conns: Seq<ConnectionView>, item_type: ItemType, n: nat, i: int)
    requires
        all_capped(conns),
        0 <= i <= conns.len(),
    ensures
        all_capped(filled_from(conns, item_type, n, i).conns),
        filled_from(conns, item_type, n, i).conns.len() == conns.len(),
        filled_from(conns, item_type, n, i).unsent <= n,
        held_total(filled_from(conns, item_type, n, i).conns) + filled_from(
            conns,
            item_type,
            n,
            i,
        ).unsent == held_total(conns) + n,
    decreases conns.len() - i,
{
    if i < conns.len() {
        let amount = vstd::math::min(n as int, conns[i].capacity_for(item_type) as int) as nat;
        let next = conns.update(i, conns[i].put(item_type, amount));
        assert(conns[i].wf());
        assert forall|j: int| 0 <= j < next.len() implies (#[trigger] next[j]).wf() by {
            if j != i {
                assert(conns[j].wf());
            }
        }
        lemma_held_update(conns, i, conns[i].put(item_type, amount));
        lemma_filled(next, item_type, (n - amount) as nat, i + 1);
    }
}

/// Buffers that each got no more than it could take keep their caps, and
/// hold what they held and what they got.
pub proof fn lemma_received(
    conns: Seq<ConnectionView>,
    item_type: ItemType,
    before: Seq<nat>,
    after: Seq<nat>,
)
    requires
        all_capped(conns),
        before == capacities(conns, item_type),
        after.len() == before.len(),
        forall|i: int| 0 <= i < before.len() ==> #[trigger] after[i] <= before[i],
    ensures
        all_capped(received(conns, item_type, before, after)),
        held_total(received(conns, item_type, before, after)) + sum(after) == held_total(conns)
            + sum(before),
    decreases conns.len(),
{
    let got = received(conns, item_type, before, after);
    assert forall|i: int| 0 <= i < got.len() implies (#[trigger] got[i]).wf() by {
        assert(conns[i].wf());
        assert(after[i] <= before[i]);
    }
    if conns.len() > 0 {
        let n = conns.len() - 1;
        assert(all_capped(conns.drop_last())) by {
            assert forall|i: int| 0 <= i < n implies (#[trigger] conns.drop_last()[i]).wf() by {
                assert(conns[i].wf());
            }
        }
        assert(capacities(conns.drop_last(), item_type) =~= before.drop_last());
        assert forall|i: int| 0 <= i < n implies #[trigger] after.drop_last()[i]
            <= before.drop_last()[i] by {
            assert(after[i] <= before[i]);
        }
        lemma_received(conns.drop_last(), item_type, before.drop_last(), after.drop_last());
        assert(received(conns.drop_last(), item_type, before.drop_last(), after.drop_last())
            =~= got.drop_last());
        assert(after[n] <= before[n]);
    }
}

/// Buffers that each gave up no more than it held keep their caps, and
/// hold what they held less what they gave up.
pub proof fn lemma_surrendered(
    conns: Seq<ConnectionView>,
    item_type: ItemType,
    before: Seq<nat>,
    after: Seq<nat>,
)
    requires
        all_capped(conns),
        before == holdings(conns, item_type),
        after.len() == before.len(),
        forall|i: int| 0 <= i < before.len() ==> #[trigger] after[i] <= before[i],
    ensures
        all_capped(surrendered(conns, before, after)),
        held_total(surrendered(conns, before, after)) + sum(before) == held_total(conns) + sum(
            after,
        ),
    decreases conns.len(),
{
    let got = surrendered(conns, before, after);
    assert forall|i: int| 0 <= i < got.len() implies (#[trigger] got[i]).wf() by {
        assert(conns[i].wf());
        assert(after[i] <= before[i]);
    }
    if conns.len() > 0 {
        let n = conns.len() - 1;
        assert(all_capped(conns.drop_last())) by {
            assert forall|i: int| 0 <= i < n implies (#[trigger] conns.drop_last()[i]).wf() by {
                assert(conns[i].wf());
            }
        }
        assert(holdings(conns.drop_last(), item_type) =~= before.drop_last());
        assert forall|i: int| 0 <= i < n implies #[trigger] after.drop_last()[i]
            <= before.drop_last()[i] by {
            assert(after[i] <= before[i]);
        }
        lemma_surrendered(conns.drop_last(), item_type, before.drop_last(), after.drop_last());
        assert(surrendered(conns.drop_last(), before.drop_last(), after.drop_last())
            =~= got.drop_last());
        assert(after[n] <= before[n]);
        assert(conns[n].wf());
    }
}

/// A distribution keeps the outputs' caps and loses no item: what the
/// outputs hold more than before is what was sent.
pub proof fn lemma_distributed(
    priority: Seq<ConnectionView>,
    rr: Seq<ConnectionView>,
    rr_index: int,
    item_type: ItemType,
    n: nat,
)
    requires
        all_capped(priority),
        all_capped(rr),
        0 <= rr_index < rr.len() || (rr.len() == 0 && rr_index == 0),
    ensures
        all_capped(distributed(priority, rr, rr_index, item_type, n).priority),
        all_capped(distributed(priority, rr, rr_index, item_type, n).rr),
        distributed(priority, rr, rr_index, item_type, n).priority.len() == priority.len(),
        distributed(priority, rr, rr_index, item_type, n).rr.len() == rr.len(),
        distributed(priority, rr, rr_index, item_type, n).unsent <= n,
        0 <= distributed(priority, rr, rr_index, item_type, n).rr_index < rr.len() || (rr.len()
            == 0 && distributed(priority, rr, rr_index, item_type, n).rr_index == 0),
        held_total(distributed(priority, rr, rr_index, item_type, n).priority) + held_total(
            distributed(priority, rr, rr_index, item_type, n).rr,
        ) + distributed(priority, rr, rr_index, item_type, n).unsent == held_total(priority)
            + held_total(rr) + n,
{
    lemma_filled(priority, item_type, n, 0);
    let first = filled_from(priority, item_type, n, 0);
    let caps = capacities(rr, item_type);
    if rr.len() > 0 {
        lemma_dealt(caps, rr_index, first.unsent);
    }
    let d = dealt(caps, rr_index, first.unsent);
    lemma_received(rr, item_type, caps, d.caps);
}

/// With nothing to take, a fill in order leaves the buffers as they are.
pub proof fn lemma_filled_nothing(conns: Seq<ConnectionView>, item_type: ItemType, i: int)
    requires
        0 <= i <= conns.len(),
    ensures
        filled_from(conns, item_type, 0, i) == (Filled { conns, unsent: 0 }),
    decreases conns.len() - i,
{
    if i < conns.len() {
        assert(conns.update(i, conns[i].put(item_type, 0)) =~= conns);
        lemma_filled_nothing(conns, item_type, i + 1);
    }
}

/// With nothing to distribute, a distribution leaves the outputs and the
/// cursor as they are.
pub proof fn lemma_distributed_nothing(
    priority: Seq<ConnectionView>,
    rr: Seq<ConnectionView>,
    rr_index: int,
    item_type: ItemType,
)
    ensures
        distributed(priority, rr, rr_index, item_type, 0) == (Distributed {
            priority,
            rr,
            rr_index,
            unsent: 0,
        }),
{
    lemma_filled_nothing(priority, item_type, 0);
    let caps = capacities(rr, item_type);
    assert(received(rr, item_type, caps, caps) =~= rr);
}

/// The first buffer from `i` on that can take an item of `item_type`.
pub open spec fn first_taker(conns: Seq<ConnectionView>, item_type: ItemType, i: int) -> Option<int>
    decreases conns.len() - i,
{
    if i >= conns.len() || i < 0 {
        None
    } else if conns[i].capacity_for(item_type) > 0 {
        Some(i)
    } else {
        first_taker(conns, item_type, i + 1)
    }
}

/// `n` items of `item_type` distributed one at a time. Each item goes to
/// the first priority output that can take it. Where none can, it goes to
/// the first round-robin output at or behind the cursor that can take it,
/// going round, and the cursor then goes behind that output. Where no
/// output can take it, it and the items behind it are not sent.
pub open spec fn distributed_singly(
    priority: Seq<ConnectionView>,
    rr: Seq<ConnectionView>,
    rr_index: int,
    item_type: ItemType,
    n: nat,
) -> Distributed
    decreases n,
{
    if n == 0 {
        Distributed { priority, rr, rr_index, unsent: 0 }
    } else {
        match first_taker(priority, item_type, 0) {
            Some(j) => distributed_singly(
                priority.update(j, priority[j].put(item_type, 1)),
                rr,
                rr_index,
                item_type,
                (n - 1) as nat,
            ),
            None => match first_ready_from(capacities(rr, item_type), rr_index, 0) {
                Some(j) => distributed_singly(
                    priority,
                    rr.update(j, rr[j].put(item_type, 1)),
                    wrap(j + 1, rr.len() as int),
                    item_type,
                    (n - 1) as nat,
                ),
                None => Distributed { priority, rr, rr_index, unsent: n },
            },
        }
    }
}

proof fn lemma_first_taker(conns: Seq<ConnectionView>, item_type: ItemType, i: int)
    requires
        0 <= i,
    ensures
        match first_taker(conns, item_type, i) {
            Some(j) => i <= j < conns.len() && conns[j].capacity_for(item_type) > 0 && forall|
                k: int,
            |
                i <= k < j ==> (#[trigger] conns[k]).capacity_for(item_type) == 0,
            None => forall|k: int|
                i <= k < conns.len() ==> (#[trigger] conns[k]).capacity_for(item_type) == 0,
        },
    decreases conns.len() - i,
{
    if i < conns.len() && conns[i].capacity_for(item_type) == 0 {
        lemma_first_taker(conns, item_type, i + 1);
    }
}

/// A fill in order of buffers that can take nothing leaves them as they are.
proof fn lemma_filled_no_room(conns: Seq<ConnectionView>, item_type: ItemType, n: nat, i: int)
    requires
        0 <= i <= conns.len(),
        forall|k: int| i <= k < conns.len() ==> (#[trigger] conns[k]).capacity_for(item_type) == 0,
    ensures
        filled_from(conns, item_type, n, i) == (Filled { conns, unsent: n }),
    decreases conns.len() - i,
{
    if i < conns.len() {
        assert(conns[i].capacity_for(item_type) == 0);
        assert(conns.update(i, conns[i].put(item_type, 0)) =~= conns);
        lemma_filled_no_room(conns, item_type, n, i + 1);
    }
}

/// A fill in order puts its first item into the first buffer that can take
/// one.
proof fn lemma_filled_first(conns: Seq<ConnectionView>, item_type: ItemType, n: nat, i: int, j: int)
    requires
        all_capped(conns),
        0 <= i <= j < conns.len(),
        n >= 1,
        conns[j].capacity_for(item_type) > 0,
        forall|k: int| i <= k < j ==> (#[trigger] conns[k]).capacity_for(item_type) == 0,
    ensures
        filled_from(conns, item_type, n, i) == filled_from(
            conns.update(j, conns[j].put(item_type, 1)),
            item_type,
            (n - 1) as nat,
            i,
        ),
    decreases j - i,
{
    let one = conns[j].put(item_type, 1);
    let next = conns.update(j, one);
    assert(conns[j].wf());
    if i < j {
        assert(conns[i].capacity_for(item_type) == 0);
        assert(conns.update(i, conns[i].put(item_type, 0)) =~= conns);
        assert(next.update(i, next[i].put(item_type, 0)) =~= next);
        lemma_filled_first(conns, item_type, n, i + 1, j);
    } else {
        let amount = vstd::math::min(n as int, conns[j].capacity_for(item_type) as int) as nat;
        let less = vstd::math::min((n - 1) as int, one.capacity_for(item_type) as int) as nat;
        assert(less == amount - 1);
        assert(one.put(item_type, less) == conns[j].put(item_type, amount));
        assert(next.update(j, one.put(item_type, less)) =~= conns.update(
            j,
            conns[j].put(item_type, amount),
        ));
    }
}

/// Distributing at once is distributing one at a time: what `distributed`
/// says is what comes of sending each item, one after the other, to the
/// first priority output that can take it or, where none can, to the next
/// round-robin output that can.
pub proof fn lemma_distributed_singly(
    priority: Seq<ConnectionView>,
    rr: Seq<ConnectionView>,
    rr_index: int,
    item_type: ItemType,
    n: nat,
)
    requires
        all_capped(priority),
        all_capped(rr),
        cursor_ok(rr_index, rr.len()),
    ensures
        distributed(priority, rr, rr_index, item_type, n) == distributed_singly(
            priority,
            rr,
            rr_index,
            item_type,
            n,
        ),
    decreases n,
{
    let caps = capacities(rr, item_type);
    if n == 0 {
        lemma_distributed_nothing(priority, rr, rr_index, item_type);
    } else {
        lemma_first_taker(priority, item_type, 0);
        match first_taker(priority, item_type, 0) {
            Some(j) => {
                let next = priority.update(j, priority[j].put(item_type, 1));
                lemma_filled_first(priority, item_type, n, 0, j);
                assert(priority[j].wf());
                assert forall|k: int| 0 <= k < next.len() implies (#[trigger] next[k]).wf() by {
                    if k != j {
                        assert(priority[k].wf());
                    }
                }
                lemma_distributed_singly(next, rr, rr_index, item_type, (n - 1) as nat);
            },
            None => {
                lemma_filled_no_room(priority, item_type, n, 0);
                lemma_filled_no_room(priority, item_type, (n - 1) as nat, 0);
                if rr.len() == 0 {
                    assert(received(rr, item_type, caps, caps) =~= rr);
                } else {
                    lemma_dealt_singly(caps, rr_index, n);
                    lemma_first_ready(caps, rr_index, 0);
                    match first_ready_from(caps, rr_index, 0) {
                        Some(j) => {
                            let one = rr[j].put(item_type, 1);
                            let next = rr.update(j, one);
                            let less = caps.update(j, (caps[j] - 1) as nat);
                            let cursor = wrap(j + 1, rr.len() as int);
                            assert(rr[j].wf());
                            assert forall|k: int| 0 <= k < next.len() implies (
                            #[trigger] next[k]).wf() by {
                                if k != j {
                                    assert(rr[k].wf());
                                }
                            }
                            assert(capacities(next, item_type) =~= less);
                            lemma_dealt_singly(less, cursor, (n - 1) as nat);
                            lemma_dealt(less, cursor, (n - 1) as nat);
                            let d = dealt(less, cursor, (n - 1) as nat);
                            assert(d == dealt(caps, rr_index, n));
                            assert(d.caps[j] <= less[j]);
                            assert(received(next, item_type, less, d.caps) =~= received(
                                rr,
                                item_type,
                                caps,
                                d.caps,
                            ));
                            lemma_distributed_singly(
                                priority,
                                next,
                                cursor,
                                item_type,
                                (n - 1) as nat,
                            );
                        },
                        None => {
                            assert(received(rr, item_type, caps, caps) =~= rr);
                        },
                    }
                }
            },
        }
    }
}

/// Round-robin outputs get fair shares. Where the priority outputs can
/// take nothing of the type and every round-robin output that can take it
/// has room for its share, all items are sent, and each of these outputs
/// gets the number of items divided by the number of these outputs, or one
/// more: no two of them get numbers that differ by more than one.
pub proof fn lemma_fair_distribution(
    priority: Seq<ConnectionView>,
    rr: Seq<ConnectionView>,
    rr_index: int,
    item_type: ItemType,
    n: nat,
)
    requires
        all_capped(rr),
        0 <= rr_index < rr.len(),
        forall|i: int|
            0 <= i < priority.len() ==> (#[trigger] priority[i]).capacity_for(item_type) == 0,
        ready_count(capacities(rr, item_type)) >= 1,
        forall|i: int|
            0 <= i < rr.len() && (#[trigger] rr[i]).capacity_for(item_type) > 0
                ==> rr[i].capacity_for(item_type) * ready_count(capacities(rr, item_type)) >= n,
    ensures
        distributed(priority, rr, rr_index, item_type, n).unsent == 0,
        distributed(priority, rr, rr_index, item_type, n).priority == priority,
        distributed(priority, rr, rr_index, item_type, n).rr.len() == rr.len(),
        forall|i: int|
            0 <= i < rr.len() ==> {
                let given = (#[trigger] distributed(
                    priority,
                    rr,
                    rr_index,
                    item_type,
                    n,
                ).rr[i]).item_count - rr[i].item_count;
                let share = n / ready_count(capacities(rr, item_type));
                if rr[i].capacity_for(item_type) > 0 {
                    share <= given <= share + 1
                } else {
                    given == 0
                }
            },
{
    let caps = capacities(rr, item_type);
    lemma_filled_no_room(priority, item_type, n, 0);
    assert forall|i: int| 0 <= i < caps.len() && caps[i] > 0 implies caps[i] * ready_count(caps)
        >= n by {
        assert(rr[i].capacity_for(item_type) > 0);
    }
    lemma_fair_shares(caps, rr_index, n);
    let d = dealt(caps, rr_index, n);
    assert forall|i: int| 0 <= i < rr.len() implies ({
        let given = (#[trigger] distributed(priority, rr, rr_index, item_type, n).rr[i]).item_count
            - rr[i].item_count;
        let share = n / ready_count(caps);
        if rr[i].capacity_for(item_type) > 0 {
            share <= given <= share + 1
        } else {
            given == 0
        }
    }) by {
        assert(rr[i].wf());
        let got = caps[i] - d.caps[i];
        assert(if caps[i] > 0 {
            n / ready_count(caps) <= got <= n / ready_count(caps) + 1
        } else {
            got == 0
        });
    }
}

/// Valid output connections are buffers that keep their caps.
pub proof fn lemma_outputs_capped(conns: Seq<BeltOutputConnection>)
    requires
        outputs_wf(conns),
    ensures
        all_capped(output_states(conns)),
{
    assert forall|i: int| 0 <= i < conns.len() implies (#[trigger] output_states(conns)[i]).wf() by {
        assert(conns[i].wf());
        conns[i].lemma_caps();
    }
}

/// Valid input connections are buffers that keep their caps.
pub proof fn lemma_inputs_capped(conns: Seq<BeltInputConnection>)
    requires
        inputs_wf(conns),
    ensures
        all_capped(input_states(conns)),
{
    assert forall|i: int| 0 <= i < conns.len() implies (#[trigger] input_states(conns)[i]).wf() by {
        assert(conns[i].wf());
        conns[i].lemma_caps();
    }
}

/// Finds how many items of `item_type` each output can take.
fn capacities_of(conns: &Vec<BeltOutputConnection>, item_type: ItemType) -> (caps: Vec<u16>)
    requires
        outputs_wf(conns@),
    ensures
        caps@.len() == conns@.len(),
        amounts(caps@) == capacities(output_states(conns@), item_type),
{
    let mut caps: Vec<u16> = Vec::new();
    let mut i: usize = 0;
    while i < conns.len()
        invariant
            i <= conns@.len(),
            outputs_wf(conns@),
            caps@.len() == i,
            forall|j: int|
                0 <= j < i ==> #[trigger] caps@[j] == conns@[j].state().capacity_for(item_type),
        decreases conns@.len() - i,
    {
        proof {
            assert(conns@[i as int].wf());
            conns@[i as int].lemma_caps();
        }
        let amount: u16 = if conns[i].can_take_item_type(item_type) {
            conns[i].max_acceptable_item_count()
        } else {
            0
        };
        caps.push(amount);
        i += 1;
    }
    assert(amounts(caps@) =~= capacities(output_states(conns@), item_type));
    caps
}

/// Finds how many items of `item_type` each input holds.
fn holdings_of(conns: &Vec<BeltInputConnection>, item_type: ItemType) -> (held: Vec<u16>)
    requires
        inputs_wf(conns@),
    ensures
        held@.len() == conns@.len(),
        amounts(held@) == holdings(input_states(conns@), item_type),
{
    let mut held: Vec<u16> = Vec::new();
    let mut i: usize = 0;
    while i < conns.len()
        invariant
            i <= conns@.len(),
            held@.len() == i,
            forall|j: int|
                0 <= j < i ==> #[trigger] held@[j] == (if conns@[j].state().item_type == Some(
                    item_type,
                ) {
                    conns@[j].state().item_count
                } else {
                    0
                }),
        decreases conns@.len() - i,
    {
        let amount: u16 = match conns[i].current_item_type() {
            Some(t) => if t == item_type {
                conns[i].buffered_item_count()
            } else {
                0
            },
            None => 0,
        };
        held.push(amount);
        i += 1;
    }
    assert(amounts(held@) =~= holdings(input_states(conns@), item_type));
    held
}

/// Adds up the amounts.
fn total_of(amounts_held: &Vec<u16>) -> (total: u64)
    requires
        amounts_held@.len() <= u32::MAX,
    ensures
        total == sum(amounts(amounts_held@)),
{
    let ghost a = amounts(amounts_held@);
    let mut total: u64 = 0;
    let mut i: usize = 0;
    while i < amounts_held.len()
        invariant
            i <= amounts_held@.len(),
            amounts_held@.len() <= u32::MAX,
            a == amounts(amounts_held@),
            total == sum(a.subrange(0, i as int)),
            total <= i * 0xffff,
        decreases amounts_held@.len() - i,
    {
        proof {
            let next = a.subrange(0, i + 1);
            assert(next.drop_last() =~= a.subrange(0, i as int));
            assert(next.last() == amounts_held@[i as int]);
        }
        total += amounts_held[i] as u64;
        i += 1;
    }
    assert(a.subrange(0, i as int) =~= a);
    total
}

/// Gives each output the items of `item_type` that it was dealt: as many
/// as it can take less `after` than `before`.
fn give(
    conns: &mut Vec<BeltOutputConnection>,
    item_type: ItemType,
    before: &Vec<u16>,
    after: &Vec<u16>,
)
    requires
        outputs_wf(old(conns)@),
        before@.len() == old(conns)@.len(),
        after@.len() == old(conns)@.len(),
        amounts(before@) == capacities(output_states(old(conns)@), item_type),
        forall|i: int| 0 <= i < before@.len() ==> #[trigger] after@[i] <= before@[i],
    ensures
        outputs_wf(final(conns)@),
        final(conns)@.len() == old(conns)@.len(),
        output_sizes(final(conns)@) == output_sizes(old(conns)@),
        output_states(final(conns)@) == received(
            output_states(old(conns)@),
            item_type,
            amounts(before@),
            amounts(after@),
        ),
{
    let mut i: usize = 0;
    while i < conns.len()
        invariant
            i <= conns@.len(),
            conns@.len() == old(conns)@.len(),
            before@.len() == conns@.len(),
            after@.len() == conns@.len(),
            amounts(before@) == capacities(output_states(old(conns)@), item_type),
            forall|j: int| 0 <= j < before@.len() ==> #[trigger] after@[j] <= before@[j],
            outputs_wf(conns@),
            forall|j: int|
                0 <= j < i ==> (#[trigger] conns@[j]).state() == old(conns)@[j].state().put(
                    item_type,
                    (before@[j] - after@[j]) as nat,
                ) && conns@[j].stack_size() == old(conns)@[j].stack_size(),
            forall|j: int| i <= j < conns@.len() ==> #[trigger] conns@[j] == old(conns)@[j],
        decreases conns@.len() - i,
    {
        proof {
            assert(after@[i as int] <= before@[i as int]);
            assert(amounts(before@)[i as int] == before@[i as int]);
            assert(conns@[i as int].wf());
        }
        let amount: u16 = before[i] - after[i];
        let ghost was = conns@;
        let leftover = conns[i].inc_item_count(item_type, amount);
        proof {
            assert forall|j: int| 0 <= j < conns@.len() implies (#[trigger] conns@[j]).wf() by {
                if j != i {
                    assert(conns@[j] == was[j]);
                    assert(was[j].wf());
                }
            }
        }
        i += 1;
    }
    assert(output_states(conns@) =~= received(
        output_states(old(conns)@),
        item_type,
        amounts(before@),
        amounts(after@),
    ));
    assert(output_sizes(conns@) =~= output_sizes(old(conns)@));
}

/// Takes from each input the items that were dealt out of it: as many as
/// it holds less `after` than `before`.
fn take_back(
    conns: &mut Vec<BeltInputConnection>,
    item_type: ItemType,
    before: &Vec<u16>,
    after: &Vec<u16>,
)
    requires
        inputs_wf(old(conns)@),
        before@.len() == old(conns)@.len(),
        after@.len() == old(conns)@.len(),
        amounts(before@) == holdings(input_states(old(conns)@), item_type),
        forall|i: int| 0 <= i < before@.len() ==> #[trigger] after@[i] <= before@[i],
    ensures
        inputs_wf(final(conns)@),
        final(conns)@.len() == old(conns)@.len(),
        input_states(final(conns)@) == surrendered(
            input_states(old(conns)@),
            amounts(before@),
            amounts(after@),
        ),
{
    let mut i: usize = 0;
    while i < conns.len()
        invariant
            i <= conns@.len(),
            conns@.len() == old(conns)@.len(),
            before@.len() == conns@.len(),
            after@.len() == conns@.len(),
            amounts(before@) == holdings(input_states(old(conns)@), item_type),
            forall|j: int| 0 <= j < before@.len() ==> #[trigger] after@[j] <= before@[j],
            inputs_wf(conns@),
            forall|j: int|
                0 <= j < i ==> (#[trigger] conns@[j]).state() == old(conns)@[j].state().take(
                    (before@[j] - after@[j]) as nat,
                ),
            forall|j: int| i <= j < conns@.len() ==> #[trigger] conns@[j] == old(conns)@[j],
        decreases conns@.len() - i,
    {
        proof {
            assert(after@[i as int] <= before@[i as int]);
            assert(amounts(before@)[i as int] == before@[i as int]);
            assert(conns@[i as int].wf());
            conns@[i as int].lemma_caps();
        }
        let amount: u16 = before[i] - after[i];
        let ghost was = conns@;
        let leftover = conns[i].dec_item_count(amount);
        proof {
            assert forall|j: int| 0 <= j < conns@.len() implies (#[trigger] conns@[j]).wf() by {
                if j != i {
                    assert(conns@[j] == was[j]);
                    assert(was[j].wf());
                }
            }
        }
        i += 1;
    }
    assert(input_states(conns@) =~= surrendered(
        input_states(old(conns)@),
        amounts(before@),
        amounts(after@),
    ));
}

/// Puts `remaining_item_count` items of `item_type` into the priority
/// outputs in their order.
fn fill_priority(
    remaining_item_count: u64,
    item_type: ItemType,
    priority_outputs: &mut Vec<BeltOutputConnection>,
) -> (unsent: u64)
    requires
        outputs_wf(old(priority_outputs)@),
    ensures
        outputs_wf(final(priority_outputs)@),
        final(priority_outputs)@.len() == old(priority_outputs)@.len(),
        output_sizes(final(priority_outputs)@) == output_sizes(old(priority_outputs)@),
        filled_from(
            output_states(old(priority_outputs)@),
            item_type,
            remaining_item_count as nat,
            0,
        ) == (Filled { conns: output_states(final(priority_outputs)@), unsent: unsent as nat }),
{
    let ghost target = filled_from(
        output_states(priority_outputs@),
        item_type,
        remaining_item_count as nat,
        0,
    );
    let mut remaining: u64 = remaining_item_count;
    let mut i: usize = 0;
    while i < priority_outputs.len()
        invariant
            i <= priority_outputs@.len(),
            priority_outputs@.len() == old(priority_outputs)@.len(),
            outputs_wf(priority_outputs@),
            output_sizes(priority_outputs@) == output_sizes(old(priority_outputs)@),
            target == filled_from(
                output_states(old(priority_outputs)@),
                item_type,
                remaining_item_count as nat,
                0,
            ),
            filled_from(output_states(priority_outputs@), item_type, remaining as nat, i as int)
                == target,
        decreases priority_outputs@.len() - i,
    {
        if remaining == 0 {
            proof {
                lemma_filled_nothing(output_states(priority_outputs@), item_type, i as int);
            }
            return 0;
        }
        let ghost was = priority_outputs@;
        proof {
            assert(was[i as int].wf());
            was[i as int].lemma_caps();
        }
        let offered: u16 = if remaining > 0xffff {
            0xffff
        } else {
            remaining as u16
        };
        let leftover = priority_outputs[i].inc_item_count(item_type, offered);
        remaining -= (offered - leftover) as u64;
        proof {
            assert forall|j: int| 0 <= j < priority_outputs@.len() implies (
            #[trigger] priority_outputs@[j]).wf() by {
                if j != i {
                    assert(priority_outputs@[j] == was[j]);
                    assert(was[j].wf());
                }
            }
            assert(output_states(priority_outputs@) =~= output_states(was).update(
                i as int,
                priority_outputs@[i as int].state(),
            ));
            assert(output_sizes(priority_outputs@) =~= output_sizes(was));
        }
        i += 1;
    }
    remaining
}

/// Distributes `remaining_item_count` items of `item_type` to the outputs
/// and returns the number of items that none of them took. The priority
/// outputs are filled in their order. What they leave goes to the
/// round-robin outputs in round-robin order from `rr_index` on, whole laps
/// at once, with the result of handing out one item at a time.
pub fn distribute_items(
    remaining_item_count: u64,
    item_type: ItemType,
    priority_outputs: &mut Vec<BeltOutputConnection>,
    rr_outputs: &mut Vec<BeltOutputConnection>,
    rr_index: &mut usize,
) -> (unsent: u64)
    requires
        outputs_wf(old(priority_outputs)@),
        outputs_wf(old(rr_outputs)@),
        *old(rr_index) < old(rr_outputs)@.len() || (old(rr_outputs)@.len() == 0 && *old(rr_index)
            == 0),
    ensures
        outputs_wf(final(priority_outputs)@),
        outputs_wf(final(rr_outputs)@),
        output_sizes(final(priority_outputs)@) == output_sizes(old(priority_outputs)@),
        output_sizes(final(rr_outputs)@) == output_sizes(old(rr_outputs)@),
        distributed(
            output_states(old(priority_outputs)@),
            output_states(old(rr_outputs)@),
            *old(rr_index) as int,
            item_type,
            remaining_item_count as nat,
        ) == (Distributed {
            priority: output_states(final(priority_outputs)@),
            rr: output_states(final(rr_outputs)@),
            rr_index: *final(rr_index) as int,
            unsent: unsent as nat,
        }),
        distributed(
            output_states(old(priority_outputs)@),
            output_states(old(rr_outputs)@),
            *old(rr_index) as int,
            item_type,
            remaining_item_count as nat,
        ) == distributed_singly(
            output_states(old(priority_outputs)@),
            output_states(old(rr_outputs)@),
            *old(rr_index) as int,
            item_type,
            remaining_item_count as nat,
        ),
{
    proof {
        lemma_outputs_capped(priority_outputs@);
        lemma_outputs_capped(rr_outputs@);
        lemma_distributed_singly(
            output_states(priority_outputs@),
            output_states(rr_outputs@),
            *rr_index as int,
            item_type,
            remaining_item_count as nat,
        );
    }
    let remaining: u64 = fill_priority(remaining_item_count, item_type, priority_outputs);
    let ghost caps = capacities(output_states(rr_outputs@), item_type);
    if remaining == 0 || rr_outputs.len() == 0 {
        proof {
            assert(received(output_states(rr_outputs@), item_type, caps, caps) =~= output_states(
                rr_outputs@,
            ));
        }
        return remaining;
    }
    let before: Vec<u16> = capacities_of(rr_outputs, item_type);
    let mut after: Vec<u16> = capacities_of(rr_outputs, item_type);
    proof {
        lemma_dealt(caps, *rr_index as int, remaining as nat);
    }
    let unsent = deal(&mut after, rr_index, remaining);
    proof {
        assert forall|i: int| 0 <= i < before@.len() implies #[trigger] after@[i] <= before@[i] by {
            assert(amounts(after@)[i] <= amounts(before@)[i]);
        }
    }
    give(rr_outputs, item_type, &before, &after);
    unsent
}

/// How a move of one item type ends: the inputs, the outputs and the two
/// round-robin cursors.
pub struct Moved {
    pub inputs: Seq<ConnectionView>,
    pub input_rr_index: int,
    pub priority: Seq<ConnectionView>,
    pub rr: Seq<ConnectionView>,
    pub output_rr_index: int,
}

/// All items of `item_type` that the inputs hold are offered to the
/// outputs together, and what the outputs took is taken out of the inputs
/// one item at a time in round-robin order from the input cursor on.
pub open spec fn moved(
    inputs: Seq<ConnectionView>,
    input_rr_index: int,
    priority: Seq<ConnectionView>,
    rr: Seq<ConnectionView>,
    output_rr_index: int,
    item_type: ItemType,
) -> Moved {
    let held = holdings(inputs, item_type);
    let dist = distributed(priority, rr, output_rr_index, item_type, sum(held));
    let d = dealt(held, input_rr_index, (sum(held) - dist.unsent) as nat);
    Moved {
        inputs: surrendered(inputs, held, d.caps),
        input_rr_index: d.cursor,
        priority: dist.priority,
        rr: dist.rr,
        output_rr_index: dist.rr_index,
    }
}

/// A cursor stands on one of `len` places, or at zero where there is none.
pub open spec fn cursor_ok(index: int, len: nat) -> bool {
    0 <= index < len || (len == 0 && index == 0)
}

/// A move keeps all caps and cursors and loses no item.
pub proof fn lemma_moved(
    inputs: Seq<ConnectionView>,
    input_rr_index: int,
    priority: Seq<ConnectionView>,
    rr: Seq<ConnectionView>,
    output_rr_index: int,
    item_type: ItemType,
)
    requires
        all_capped(inputs),
        all_capped(priority),
        all_capped(rr),
        cursor_ok(input_rr_index, inputs.len()),
        cursor_ok(output_rr_index, rr.len()),
    ensures
        ({
            let m = moved(inputs, input_rr_index, priority, rr, output_rr_index, item_type);
            &&& all_capped(m.inputs)
            &&& all_capped(m.priority)
            &&& all_capped(m.rr)
            &&& m.inputs.len() == inputs.len()
            &&& m.priority.len() == priority.len()
            &&& m.rr.len() == rr.len()
            &&& cursor_ok(m.input_rr_index, inputs.len())
            &&& cursor_ok(m.output_rr_index, rr.len())
            &&& held_total(m.inputs) + held_total(m.priority) + held_total(m.rr) == held_total(
                inputs,
            ) + held_total(priority) + held_total(rr)
        }),
{
    let held = holdings(inputs, item_type);
    lemma_distributed(priority, rr, output_rr_index, item_type, sum(held));
    let dist = distributed(priority, rr, output_rr_index, item_type, sum(held));
    let taken = (sum(held) - dist.unsent) as nat;
    let d = dealt(held, input_rr_index, taken);
    if inputs.len() > 0 {
        lemma_dealt(held, input_rr_index, taken);
        if d.unsent > 0 {
            lemma_dealt_exhausts(held, input_rr_index, taken);
        }
    } else {
        assert(sum(held) == 0);
    }
    lemma_surrendered(inputs, item_type, held, d.caps);
}

/// Where no input holds `item_type`, a move of it changes nothing.
pub proof fn lemma_moved_absent(
    inputs: Seq<ConnectionView>,
    input_rr_index: int,
    priority: Seq<ConnectionView>,
    rr: Seq<ConnectionView>,
    output_rr_index: int,
    item_type: ItemType,
)
    requires
        forall|i: int| 0 <= i < inputs.len() ==> (#[trigger] inputs[i]).item_type != Some(item_type),
    ensures
        moved(inputs, input_rr_index, priority, rr, output_rr_index, item_type) == (Moved {
            inputs,
            input_rr_index,
            priority,
            rr,
            output_rr_index,
        }),
{
    let held = holdings(inputs, item_type);
    assert forall|i: int| 0 <= i < held.len() implies #[trigger] held[i] == 0 by {
        assert(inputs[i].item_type != Some(item_type));
    }
    lemma_sum_zero(held);
    lemma_distributed_nothing(priority, rr, output_rr_index, item_type);
    assert(surrendered(inputs, held, held) =~= inputs);
}

/// Moves all items of `item_type` that the inputs hold to the outputs, as
/// far as the outputs take them: see `moved`.
pub fn drain_connections(
    item_type: ItemType,
    rr_inputs: &mut Vec<BeltInputConnection>,
    input_rr_index: &mut usize,
    priority_outputs: &mut Vec<BeltOutputConnection>,
    rr_outputs: &mut Vec<BeltOutputConnection>,
    output_rr_index: &mut usize,
) -> (r: Option<()>)
    requires
        inputs_wf(old(rr_inputs)@),
        outputs_wf(old(priority_outputs)@),
        outputs_wf(old(rr_outputs)@),
        old(rr_inputs)@.len() <= u32::MAX,
        cursor_ok(*old(input_rr_index) as int, old(rr_inputs)@.len()),
        cursor_ok(*old(output_rr_index) as int, old(rr_outputs)@.len()),
    ensures
        r is None,
        inputs_wf(final(rr_inputs)@),
        outputs_wf(final(priority_outputs)@),
        outputs_wf(final(rr_outputs)@),
        output_sizes(final(priority_outputs)@) == output_sizes(old(priority_outputs)@),
        output_sizes(final(rr_outputs)@) == output_sizes(old(rr_outputs)@),
        moved(
            input_states(old(rr_inputs)@),
            *old(input_rr_index) as int,
            output_states(old(priority_outputs)@),
            output_states(old(rr_outputs)@),
            *old(output_rr_index) as int,
            item_type,
        ) == (Moved {
            inputs: input_states(final(rr_inputs)@),
            input_rr_index: *final(input_rr_index) as int,
            priority: output_states(final(priority_outputs)@),
            rr: output_states(final(rr_outputs)@),
            output_rr_index: *final(output_rr_index) as int,
        }),
{
    let ghost held = holdings(input_states(rr_inputs@), item_type);
    if rr_inputs.len() == 0 {
        proof {
            lemma_moved_absent(
                input_states(rr_inputs@),
                *input_rr_index as int,
                output_states(priority_outputs@),
                output_states(rr_outputs@),
                *output_rr_index as int,
                item_type,
            );
        }
        return None;
    }
    let before: Vec<u16> = holdings_of(rr_inputs, item_type);
    let item_count: u64 = total_of(&before);
    proof {
        lemma_inputs_capped(rr_inputs@);
        lemma_outputs_capped(priority_outputs@);
        lemma_outputs_capped(rr_outputs@);
        lemma_distributed(
            output_states(priority_outputs@),
            output_states(rr_outputs@),
            *output_rr_index as int,
            item_type,
            item_count as nat,
        );
    }
    let remaining_item_count: u64 = distribute_items(
        item_count,
        item_type,
        priority_outputs,
        rr_outputs,
        output_rr_index,
    );
    let consumed_item_count: u64 = item_count - remaining_item_count;
    let mut after: Vec<u16> = holdings_of(rr_inputs, item_type);
    proof {
        lemma_dealt(held, *input_rr_index as int, consumed_item_count as nat);
    }
    let _ = deal(&mut after, input_rr_index, consumed_item_count);
    proof {
        assert forall|i: int| 0 <= i < before@.len() implies #[trigger] after@[i] <= before@[i] by {
            assert(amounts(after@)[i] <= amounts(before@)[i]);
        }
    }
    take_back(rr_inputs, item_type, &before, &after);
    None
}

/// How the priming of the round-robin outputs ends.
pub struct Primed {
    pub inputs: Seq<ConnectionView>,
    pub outputs: Seq<ConnectionView>,
    pub output_rr_index: int,
}

/// Each input is visited once, from the one at the input cursor on, going
/// round, beginning with the `i`-th visited. An input that holds items
/// hands one item to the next output from the output cursor on that can
/// take its type; the output cursor goes behind that output.
pub open spec fn primed_from(
    inputs: Seq<ConnectionView>,
    outputs: Seq<ConnectionView>,
    input_rr_index: int,
    output_rr_index: int,
    i: int,
) -> Primed
    decreases inputs.len() - i,
{
    if i >= inputs.len() || i < 0 || !(0 <= input_rr_index < inputs.len()) {
        Primed { inputs, outputs, output_rr_index }
    } else {
        let j = wrap(input_rr_index + i, inputs.len() as int);
        match inputs[j].item_type {
            None => primed_from(inputs, outputs, input_rr_index, output_rr_index, i + 1),
            Some(item_type) => {
                let caps = capacities(outputs, item_type);
                let d = dealt(caps, output_rr_index, 1);
                if d.unsent == 0 {
                    primed_from(
                        inputs.update(j, inputs[j].take(1)),
                        received(outputs, item_type, caps, d.caps),
                        input_rr_index,
                        d.cursor,
                        i + 1,
                    )
                } else {
                    primed_from(inputs, outputs, input_rr_index, output_rr_index, i + 1)
                }
            },
        }
    }
}

/// The priming keeps all caps and the output cursor and loses no item.
pub proof fn lemma_primed(
    inputs: Seq<ConnectionView>,
    outputs: Seq<ConnectionView>,
    input_rr_index: int,
    output_rr_index: int,
    i: int,
)
    requires
        all_capped(inputs),
        all_capped(outputs),
        cursor_ok(input_rr_index, inputs.len()),
        cursor_ok(output_rr_index, outputs.len()),
        0 <= i <= inputs.len(),
    ensures
        ({
            let p = primed_from(inputs, outputs, input_rr_index, output_rr_index, i);
            &&& all_capped(p.inputs)
            &&& all_capped(p.outputs)
            &&& p.inputs.len() == inputs.len()
            &&& p.outputs.len() == outputs.len()
            &&& cursor_ok(p.output_rr_index, outputs.len())
            &&& held_total(p.inputs) + held_total(p.outputs) == held_total(inputs) + held_total(
                outputs,
            )
        }),
    decreases inputs.len() - i,
{
    if i < inputs.len() {
        let j = wrap(input_rr_index + i, inputs.len() as int);
        match inputs[j].item_type {
            None => {
                lemma_primed(inputs, outputs, input_rr_index, output_rr_index, i + 1);
            },
            Some(item_type) => {
                let caps = capacities(outputs, item_type);
                let d = dealt(caps, output_rr_index, 1);
                if outputs.len() > 0 {
                    lemma_dealt(caps, output_rr_index, 1);
                }
                if d.unsent == 0 {
                    let next_in = inputs.update(j, inputs[j].take(1));
                    let next_out = received(outputs, item_type, caps, d.caps);
                    lemma_received(outputs, item_type, caps, d.caps);
                    assert(inputs[j].wf());
                    assert forall|k: int| 0 <= k < next_in.len() implies (#[trigger] next_in[k]).wf() by {
                        if k != j {
                            assert(inputs[k].wf());
                        }
                    }
                    lemma_held_update(inputs, j, inputs[j].take(1));
                    lemma_primed(next_in, next_out, input_rr_index, d.cursor, i + 1);
                } else {
                    lemma_primed(inputs, outputs, input_rr_index, output_rr_index, i + 1);
                }
            },
        }
    }
}

/// Primes the round-robin outputs: each input that holds items hands one
/// item to the next output that can take its type, so that every output
/// that can be served has a type: see `primed_from`.
pub fn rr_loop_once(
    rr_inputs: &mut Vec<BeltInputConnection>,
    rr_outputs: &mut Vec<BeltOutputConnection>,
    input_rr_index: &mut usize,
    output_rr_index: &mut usize,
)
    requires
        inputs_wf(old(rr_inputs)@),
        outputs_wf(old(rr_outputs)@),
        cursor_ok(*old(input_rr_index) as int, old(rr_inputs)@.len()),
        cursor_ok(*old(output_rr_index) as int, old(rr_outputs)@.len()),
    ensures
        inputs_wf(final(rr_inputs)@),
        outputs_wf(final(rr_outputs)@),
        output_sizes(final(rr_outputs)@) == output_sizes(old(rr_outputs)@),
        *final(input_rr_index) == *old(input_rr_index),
        primed_from(
            input_states(old(rr_inputs)@),
            output_states(old(rr_outputs)@),
            *old(input_rr_index) as int,
            *old(output_rr_index) as int,
            0,
        ) == (Primed {
            inputs: input_states(final(rr_inputs)@),
            outputs: output_states(final(rr_outputs)@),
            output_rr_index: *final(output_rr_index) as int,
        }),
{
    let len: usize = rr_inputs.len();
    if len == 0 {
        return ;
    }
    let start: usize = *input_rr_index;
    let ghost target = primed_from(
        input_states(rr_inputs@),
        output_states(rr_outputs@),
        start as int,
        *output_rr_index as int,
        0,
    );
    let mut i: usize = 0;
    while i < len
        invariant
            i <= len,
            len == rr_inputs@.len(),
            start < len,
            start == *old(input_rr_index),
            *input_rr_index == start,
            inputs_wf(rr_inputs@),
            outputs_wf(rr_outputs@),
            output_sizes(rr_outputs@) == output_sizes(old(rr_outputs)@),
            cursor_ok(*output_rr_index as int, rr_outputs@.len()),
            primed_from(
                input_states(rr_inputs@),
                output_states(rr_outputs@),
                start as int,
                *output_rr_index as int,
                i as int,
            ) == target,
        decreases len - i,
    {
        let input_index: usize = if i < len - start {
            start + i
        } else {
            i - (len - start)
        };
        let ghost ins = input_states(rr_inputs@);
        let ghost outs = output_states(rr_outputs@);
        proof {
            assert(input_index == wrap(start + i, len as int));
            assert(ins[input_index as int] == rr_inputs@[input_index as int].state());
            assert(rr_inputs@[input_index as int].wf());
        }
        match rr_inputs[input_index].current_item_type() {
            None => {},
            Some(item_type) => {
                if rr_outputs.len() > 0 {
                    let ghost caps = capacities(outs, item_type);
                    let before: Vec<u16> = capacities_of(rr_outputs, item_type);
                    let mut after: Vec<u16> = capacities_of(rr_outputs, item_type);
                    let ghost cursor = *output_rr_index as int;
                    proof {
                        lemma_dealt(caps, cursor, 1);
                        let lap = crate::logistics::round_robin::lap_from(caps, cursor, 0, 1);
                        crate::logistics::round_robin::lemma_lap_any(caps, cursor, 0, 1);
                        assert(dealt(lap.caps, wrap(lap.last->0 + 1, caps.len() as int), 0).unsent
                            == 0);
                    }
                    let unsent = deal(&mut after, output_rr_index, 1);
                    if unsent == 0 {
                        proof {
                            assert forall|k: int| 0 <= k < before@.len() implies #[trigger] after@[k]
                                <= before@[k] by {
                                assert(amounts(after@)[k] <= amounts(before@)[k]);
                            }
                        }
                        give(rr_outputs, item_type, &before, &after);
                        let ghost was = rr_inputs@;
                        let _ = rr_inputs[input_index].dec_item_count(1);
                        proof {
                            rr_inputs@[input_index as int].lemma_caps();
                            was[input_index as int].lemma_caps();
                            assert forall|k: int| 0 <= k < rr_inputs@.len() implies (
                            #[trigger] rr_inputs@[k]).wf() by {
                                if k != input_index {
                                    assert(rr_inputs@[k] == was[k]);
                                    assert(was[k].wf());
                                }
                            }
                            assert(input_states(rr_inputs@) =~= ins.update(
                                input_index as int,
                                ins[input_index as int].take(1),
                            ));
                        }
                    }
                } else {
                    proof {
                        let caps = capacities(outs, item_type);
                        assert(dealt(caps, *output_rr_index as int, 1).unsent == 1);
                    }
                }
            },
        }
        i += 1;
    }
}

/// A buffered splitter as plain values: its four ordered sets of buffers
/// and its two round-robin cursors.
pub struct SplitterView {
    pub priority_inputs: Seq<ConnectionView>,
    pub rr_inputs: Seq<ConnectionView>,
    pub input_rr_index: int,
    pub priority_outputs: Seq<ConnectionView>,
    pub rr_outputs: Seq<ConnectionView>,
    pub output_rr_index: int,
}

impl SplitterView {
    /// Every buffer keeps its caps, and each cursor stands on a buffer of
    /// its set, or at zero where the set is empty.
    pub open spec fn wf(self) -> bool {
        &&& all_capped(self.priority_inputs)
        &&& all_capped(self.rr_inputs)
        &&& all_capped(self.priority_outputs)
        &&& all_capped(self.rr_outputs)
        &&& cursor_ok(self.input_rr_index, self.rr_inputs.len())
        &&& cursor_ok(self.output_rr_index, self.rr_outputs.len())
    }

    /// Items in all buffers of the splitter.
    pub open spec fn all_items(self) -> nat {
        held_total(self.priority_inputs) + held_total(self.rr_inputs) + held_total(
            self.priority_outputs,
        ) + held_total(self.rr_outputs)
    }

    /// The same sets of buffers, whatever they hold.
    pub open spec fn same_shape(self, other: SplitterView) -> bool {
        &&& self.priority_inputs.len() == other.priority_inputs.len()
        &&& self.rr_inputs.len() == other.rr_inputs.len()
        &&& self.priority_outputs.len() == other.priority_outputs.len()
        &&& self.rr_outputs.len() == other.rr_outputs.len()
    }

    /// The priority input `i` distributes all it holds to the outputs and
    /// keeps what none of them took.
    pub open spec fn priority_drained(self, i: int) -> SplitterView {
        match self.priority_inputs[i].item_type {
            None => self,
            Some(item_type) => {
                let dist = distributed(
                    self.priority_outputs,
                    self.rr_outputs,
                    self.output_rr_index,
                    item_type,
                    self.priority_inputs[i].item_count,
                );
                SplitterView {
                    priority_inputs: self.priority_inputs.update(
                        i,
                        self.priority_inputs[i].take(
                            (self.priority_inputs[i].item_count - dist.unsent) as nat,
                        ),
                    ),
                    priority_outputs: dist.priority,
                    rr_outputs: dist.rr,
                    output_rr_index: dist.rr_index,
                    ..self
                }
            },
        }
    }

    /// The first stage, from the priority input `i` on: the priority
    /// inputs distribute what they hold, one after the other.
    pub open spec fn stage1_from(self, i: int) -> SplitterView
        decreases self.priority_inputs.len() - i,
    {
        if i >= self.priority_inputs.len() || i < 0 {
            self
        } else if self.priority_drained(i).priority_inputs.len() != self.priority_inputs.len() {
            self
        } else {
            self.priority_drained(i).stage1_from(i + 1)
        }
    }

    /// The round-robin inputs move their items of `item_type` to the
    /// priority outputs.
    pub open spec fn moved_to_priority(self, item_type: ItemType) -> SplitterView {
        let m = moved(
            self.rr_inputs,
            self.input_rr_index,
            self.priority_outputs,
            Seq::empty(),
            0,
            item_type,
        );
        SplitterView {
            rr_inputs: m.inputs,
            input_rr_index: m.input_rr_index,
            priority_outputs: m.priority,
            ..self
        }
    }

    /// The second stage, from the item type `lo` on: type by type in
    /// rising order, the round-robin inputs move their items to the
    /// priority outputs.
    pub open spec fn stage2_from(self, lo: int) -> SplitterView
        decreases 0x10000 - lo,
    {
        if lo >= 0x10000 || lo < 0 {
            self
        } else {
            self.moved_to_priority(lo as u16).stage2_from(lo + 1)
        }
    }

    /// The third stage: the round-robin outputs are primed.
    pub open spec fn primed(self) -> SplitterView {
        let p = primed_from(
            self.rr_inputs,
            self.rr_outputs,
            self.input_rr_index,
            self.output_rr_index,
            0,
        );
        SplitterView {
            rr_inputs: p.inputs,
            rr_outputs: p.outputs,
            output_rr_index: p.output_rr_index,
            ..self
        }
    }

    /// The round-robin inputs move their items of `item_type` to the
    /// round-robin outputs.
    pub open spec fn moved_to_rr(self, item_type: ItemType) -> SplitterView {
        let m = moved(
            self.rr_inputs,
            self.input_rr_index,
            Seq::empty(),
            self.rr_outputs,
            self.output_rr_index,
            item_type,
        );
        SplitterView {
            rr_inputs: m.inputs,
            input_rr_index: m.input_rr_index,
            rr_outputs: m.rr,
            output_rr_index: m.output_rr_index,
            ..self
        }
    }

    /// The fourth stage, from the item type `lo` on: type by type in
    /// rising order, the round-robin inputs move their items to the
    /// round-robin outputs.
    pub open spec fn stage4_from(self, lo: int) -> SplitterView
        decreases 0x10000 - lo,
    {
        if lo >= 0x10000 || lo < 0 {
            self
        } else {
            self.moved_to_rr(lo as u16).stage4_from(lo + 1)
        }
    }

    /// The splitter after one tick: its four stages, one after the other.
    pub open spec fn ran(self) -> SplitterView {
        self.stage1_from(0).stage2_from(0).primed().stage4_from(0)
    }
}

/// Some input holds items of `item_type`.
pub open spec fn type_held(inputs: Seq<ConnectionView>, item_type: ItemType) -> bool {
    exists|i: int| 0 <= i < inputs.len() && (#[trigger] inputs[i]).item_type == Some(item_type)
}

/// No input holds an item type from `lo` up to `hi`.
pub open spec fn no_type_between(inputs: Seq<ConnectionView>, lo: int, hi: int) -> bool {
    forall|i: int|
        0 <= i < inputs.len() ==> ((#[trigger] inputs[i]).item_type matches Some(t) ==> !(lo <= t
            < hi))
}

/// The second stage passes over item types that no input holds.
pub proof fn lemma_stage2_skip(v: SplitterView, lo: int, hi: int)
    requires
        0 <= lo <= hi <= 0x10000,
        no_type_between(v.rr_inputs, lo, hi),
    ensures
        v.stage2_from(lo) == v.stage2_from(hi),
    decreases hi - lo,
{
    if lo < hi {
        assert forall|i: int| 0 <= i < v.rr_inputs.len() implies (
        #[trigger] v.rr_inputs[i]).item_type != Some(lo as u16) by {}
        lemma_moved_absent(
            v.rr_inputs,
            v.input_rr_index,
            v.priority_outputs,
            Seq::empty(),
            0,
            lo as u16,
        );
        assert(v.moved_to_priority(lo as u16) == v);
        lemma_stage2_skip(v, lo + 1, hi);
    }
}

/// The fourth stage passes over item types that no input holds.
pub proof fn lemma_stage4_skip(v: SplitterView, lo: int, hi: int)
    requires
        0 <= lo <= hi <= 0x10000,
        no_type_between(v.rr_inputs, lo, hi),
    ensures
        v.stage4_from(lo) == v.stage4_from(hi),
    decreases hi - lo,
{
    if lo < hi {
        assert forall|i: int| 0 <= i < v.rr_inputs.len() implies (
        #[trigger] v.rr_inputs[i]).item_type != Some(lo as u16) by {}
        lemma_moved_absent(
            v.rr_inputs,
            v.input_rr_index,
            Seq::empty(),
            v.rr_outputs,
            v.output_rr_index,
            lo as u16,
        );
        assert(v.moved_to_rr(lo as u16) == v);
        lemma_stage4_skip(v, lo + 1, hi);
    }
}

/// A priority input that distributes what it holds keeps all caps and
/// loses no item.
pub proof fn lemma_priority_drained(v: SplitterView, i: int)
    requires
        v.wf(),
        0 <= i < v.priority_inputs.len(),
    ensures
        v.priority_drained(i).wf(),
        v.priority_drained(i).same_shape(v),
        v.priority_drained(i).all_items() == v.all_items(),
{
    let input = v.priority_inputs[i];
    assert(input.wf());
    if let Some(item_type) = input.item_type {
        lemma_distributed(
            v.priority_outputs,
            v.rr_outputs,
            v.output_rr_index,
            item_type,
            input.item_count,
        );
        let dist = distributed(
            v.priority_outputs,
            v.rr_outputs,
            v.output_rr_index,
            item_type,
            input.item_count,
        );
        let after = input.take((input.item_count - dist.unsent) as nat);
        lemma_held_update(v.priority_inputs, i, after);
        let next = v.priority_inputs.update(i, after);
        assert forall|k: int| 0 <= k < next.len() implies (#[trigger] next[k]).wf() by {
            if k != i {
                assert(v.priority_inputs[k].wf());
            }
        }
    }
}

/// A move to the priority outputs keeps all caps and loses no item.
pub proof fn lemma_moved_to_priority(v: SplitterView, item_type: ItemType)
    requires
        v.wf(),
    ensures
        v.moved_to_priority(item_type).wf(),
        v.moved_to_priority(item_type).same_shape(v),
        v.moved_to_priority(item_type).all_items() == v.all_items(),
{
    let none = Seq::<ConnectionView>::empty();
    lemma_moved(v.rr_inputs, v.input_rr_index, v.priority_outputs, none, 0, item_type);
    let m = moved(v.rr_inputs, v.input_rr_index, v.priority_outputs, none, 0, item_type);
    assert(held_total(none) == 0);
    assert(m.rr =~= none);
}

/// A move to the round-robin outputs keeps all caps and loses no item.
pub proof fn lemma_moved_to_rr(v: SplitterView, item_type: ItemType)
    requires
        v.wf(),
    ensures
        v.moved_to_rr(item_type).wf(),
        v.moved_to_rr(item_type).same_shape(v),
        v.moved_to_rr(item_type).all_items() == v.all_items(),
{
    let none = Seq::<ConnectionView>::empty();
    lemma_moved(v.rr_inputs, v.input_rr_index, none, v.rr_outputs, v.output_rr_index, item_type);
    let m = moved(v.rr_inputs, v.input_rr_index, none, v.rr_outputs, v.output_rr_index, item_type);
    assert(held_total(none) == 0);
    assert(m.priority =~= none);
}

/// The priming keeps all caps and loses no item.
pub proof fn lemma_splitter_primed(v: SplitterView)
    requires
        v.wf(),
    ensures
        v.primed().wf(),
        v.primed().same_shape(v),
        v.primed().all_items() == v.all_items(),
{
    lemma_primed(v.rr_inputs, v.rr_outputs, v.input_rr_index, v.output_rr_index, 0);
}

/// A splitter that distributes between two prioritized sets of input
/// buffers and two prioritized sets of output buffers, and keeps two
/// round-robin cursors from tick to tick.
#[derive(Debug)]
pub struct BufferedSplitter {
    priority_inputs: Vec<BeltInputConnection>,
    rr_inputs: Vec<BeltInputConnection>,
    input_rr_index: usize,
    priority_outputs: Vec<BeltOutputConnection>,
    rr_outputs: Vec<BeltOutputConnection>,
    output_rr_index: usize,
}

impl View for BufferedSplitter {
    type V = SplitterView;

    closed spec fn view(&self) -> SplitterView {
        SplitterView {
            priority_inputs: input_states(self.priority_inputs@),
            rr_inputs: input_states(self.rr_inputs@),
            input_rr_index: self.input_rr_index as int,
            priority_outputs: output_states(self.priority_outputs@),
            rr_outputs: output_states(self.rr_outputs@),
            output_rr_index: self.output_rr_index as int,
        }
    }
}

/// Finds the least item type from `lo` on that an input holds: a type that
/// some input holds, with no input holding a type between `lo` and it.
/// Where no input holds a type from `lo` on, there is none.
fn next_type(conns: &Vec<BeltInputConnection>, lo: u16) -> (r: Option<u16>)
    ensures
        match r {
            Some(t) => lo <= t && type_held(input_states(conns@), t) && no_type_between(
                input_states(conns@),
                lo as int,
                t as int,
            ),
            None => no_type_between(input_states(conns@), lo as int, 0x10000),
        },
{
    let mut least: Option<u16> = None;
    let ghost mut holder: int = 0;
    let mut i: usize = 0;
    while i < conns.len()
        invariant
            i <= conns@.len(),
            least matches Some(t) ==> lo <= t && 0 <= holder < i && conns@[holder].state().item_type
                == Some(t),
            forall|j: int|
                0 <= j < i ==> ((#[trigger] conns@[j]).state().item_type matches Some(x) ==> !(lo
                    <= x < (match least {
                    Some(t) => t as int,
                    None => 0x10000,
                }))),
        decreases conns@.len() - i,
    {
        match conns[i].current_item_type() {
            Some(x) => {
                if x >= lo {
                    let smaller: bool = match least {
                        Some(t) => x < t,
                        None => true,
                    };
                    if smaller {
                        least = Some(x);
                        proof {
                            holder = i as int;
                        }
                    }
                }
            },
            None => {},
        }
        i += 1;
    }
    proof {
        let ins = input_states(conns@);
        let hi = match least {
            Some(t) => t as int,
            None => 0x10000,
        };
        assert forall|j: int| 0 <= j < ins.len() implies ((#[trigger] ins[j]).item_type matches Some(
            t,
        ) ==> !(lo <= t < hi)) by {
            assert(ins[j] == conns@[j].state());
        }
        if least is Some {
            assert(ins[holder].item_type == Some(least->0));
        }
    }
    least
}

impl BufferedSplitter {
    /// The connections are valid, each cursor stands on a connection of
    /// its set, and the round-robin inputs are few enough to count what
    /// they hold.
    pub closed spec fn wf(&self) -> bool {
        &&& inputs_wf(self.priority_inputs@)
        &&& inputs_wf(self.rr_inputs@)
        &&& outputs_wf(self.priority_outputs@)
        &&& outputs_wf(self.rr_outputs@)
        &&& cursor_ok(self.input_rr_index as int, self.rr_inputs@.len())
        &&& cursor_ok(self.output_rr_index as int, self.rr_outputs@.len())
        &&& self.rr_inputs@.len() <= u32::MAX
    }

    /// The sizes of the stacks that the priority outputs emit.
    pub closed spec fn priority_output_sizes(&self) -> Seq<u16> {
        output_sizes(self.priority_outputs@)
    }

    /// The sizes of the stacks that the round-robin outputs emit.
    pub closed spec fn rr_output_sizes(&self) -> Seq<u16> {
        output_sizes(self.rr_outputs@)
    }

    /// A valid splitter has buffers that keep their caps and cursors that
    /// stand on a buffer.
    pub proof fn lemma_wf(&self)
        requires
            self.wf(),
        ensures
            self@.wf(),
    {
        lemma_inputs_capped(self.priority_inputs@);
        lemma_inputs_capped(self.rr_inputs@);
        lemma_outputs_capped(self.priority_outputs@);
        lemma_outputs_capped(self.rr_outputs@);
    }

    /// A splitter over the given connections, with both cursors at the
    /// first connection of their set.
    pub fn new(
        priority_inputs: Vec<BeltInputConnection>,
        rr_inputs: Vec<BeltInputConnection>,
        priority_outputs: Vec<BeltOutputConnection>,
        rr_outputs: Vec<BeltOutputConnection>,
    ) -> (splitter: Self)
        ensures
            splitter@ == (SplitterView {
                priority_inputs: input_states(priority_inputs@),
                rr_inputs: input_states(rr_inputs@),
                input_rr_index: 0,
                priority_outputs: output_states(priority_outputs@),
                rr_outputs: output_states(rr_outputs@),
                output_rr_index: 0,
            }),
            splitter.priority_output_sizes() == output_sizes(priority_outputs@),
            splitter.rr_output_sizes() == output_sizes(rr_outputs@),
            inputs_wf(priority_inputs@) && inputs_wf(rr_inputs@) && outputs_wf(priority_outputs@)
                && outputs_wf(rr_outputs@) && rr_inputs@.len() <= u32::MAX ==> splitter.wf(),
    {
        Self {
            priority_inputs,
            rr_inputs,
            input_rr_index: 0,
            priority_outputs,
            rr_outputs,
            output_rr_index: 0,
        }
    }

    /// The priority inputs, in their order.
    pub fn priority_inputs(&self) -> (r: &Vec<BeltInputConnection>)
        ensures
            input_states(r@) == self@.priority_inputs,
    {
        &self.priority_inputs
    }

    /// The round-robin inputs, in their order.
    pub fn rr_inputs(&self) -> (r: &Vec<BeltInputConnection>)
        ensures
            input_states(r@) == self@.rr_inputs,
    {
        &self.rr_inputs
    }

    /// The priority outputs, in their order.
    pub fn priority_outputs(&self) -> (r: &Vec<BeltOutputConnection>)
        ensures
            output_states(r@) == self@.priority_outputs,
    {
        &self.priority_outputs
    }

    /// The round-robin outputs, in their order.
    pub fn rr_outputs(&self) -> (r: &Vec<BeltOutputConnection>)
        ensures
            output_states(r@) == self@.rr_outputs,
    {
        &self.rr_outputs
    }

    /// The cursor over the round-robin inputs.
    pub fn input_rr_index(&self) -> (r: usize)
        ensures
            r == self@.input_rr_index,
    {
        self.input_rr_index
    }

    /// The cursor over the round-robin outputs.
    pub fn output_rr_index(&self) -> (r: usize)
        ensures
            r == self@.output_rr_index,
    {
        self.output_rr_index
    }

    /// The first stage: the priority inputs distribute what they hold.
    fn drain_priority_inputs(&mut self)
        requires
            old(self).wf(),
        ensures
            final(self).wf(),
            final(self)@ == old(self)@.stage1_from(0),
            final(self)@.same_shape(old(self)@),
            final(self)@.all_items() == old(self)@.all_items(),
            final(self).priority_output_sizes() == old(self).priority_output_sizes(),
            final(self).rr_output_sizes() == old(self).rr_output_sizes(),
    {
        let ghost target = self@.stage1_from(0);
        let mut i: usize = 0;
        while i < self.priority_inputs.len()
            invariant
                i <= self.priority_inputs@.len(),
                self.wf(),
                self@.stage1_from(i as int) == target,
                self@.all_items() == old(self)@.all_items(),
                self@.same_shape(old(self)@),
                self.priority_output_sizes() == old(self).priority_output_sizes(),
                self.rr_output_sizes() == old(self).rr_output_sizes(),
            decreases self.priority_inputs@.len() - i,
        {
            let ghost before = self@;
            proof {
                self.lemma_wf();
                lemma_priority_drained(before, i as int);
                assert(before.priority_inputs[i as int] == self.priority_inputs@[i as int].state());
                assert(self.priority_inputs@[i as int].wf());
            }
            match self.priority_inputs[i].current_item_type() {
                None => {},
                Some(item_type) => {
                    let held: u16 = self.priority_inputs[i].buffered_item_count();
                    proof {
                        lemma_distributed(
                            before.priority_outputs,
                            before.rr_outputs,
                            before.output_rr_index,
                            item_type,
                            held as nat,
                        );
                    }
                    let unsent: u64 = distribute_items(
                        held as u64,
                        item_type,
                        &mut self.priority_outputs,
                        &mut self.rr_outputs,
                        &mut self.output_rr_index,
                    );
                    let ghost was = self.priority_inputs@;
                    let consumed: u16 = (held as u64 - unsent) as u16;
                    let _ = self.priority_inputs[i].dec_item_count(consumed);
                    proof {
                        was[i as int].lemma_caps();
                        assert forall|k: int|
                            0 <= k < self.priority_inputs@.len() implies (
                        #[trigger] self.priority_inputs@[k]).wf() by {
                            if k != i {
                                assert(self.priority_inputs@[k] == was[k]);
                                assert(was[k].wf());
                            }
                        }
                        assert(input_states(self.priority_inputs@) =~= input_states(was).update(
                            i as int,
                            self.priority_inputs@[i as int].state(),
                        ));
                        assert(self@ == before.priority_drained(i as int));
                    }
                },
            }
            i += 1;
        }
    }

    /// The second stage: type by type, the round-robin inputs move their
    /// items to the priority outputs.
    fn drain_rr_inputs_to_priority(&mut self)
        requires
            old(self).wf(),
        ensures
            final(self).wf(),
            final(self)@ == old(self)@.stage2_from(0),
            final(self)@.same_shape(old(self)@),
            final(self)@.all_items() == old(self)@.all_items(),
            final(self).priority_output_sizes() == old(self).priority_output_sizes(),
            final(self).rr_output_sizes() == old(self).rr_output_sizes(),
    {
        let ghost target = self@.stage2_from(0);
        let mut lo: u32 = 0;
        while lo < 0x10000
            invariant
                lo <= 0x10000,
                self.wf(),
                self@.stage2_from(lo as int) == target,
                self@.all_items() == old(self)@.all_items(),
                self@.same_shape(old(self)@),
                self.priority_output_sizes() == old(self).priority_output_sizes(),
                self.rr_output_sizes() == old(self).rr_output_sizes(),
            decreases 0x10000 - lo,
        {
            let ghost before = self@;
            match next_type(&self.rr_inputs, lo as u16) {
                None => {
                    proof {
                        lemma_stage2_skip(before, lo as int, 0x10000);
                    }
                    lo = 0x10000;
                },
                Some(item_type) => {
                    proof {
                        self.lemma_wf();
                        lemma_stage2_skip(before, lo as int, item_type as int);
                        lemma_moved_to_priority(before, item_type);
                    }
                    let mut none: Vec<BeltOutputConnection> = Vec::new();
                    let mut temp: usize = 0;
                    proof {
                        assert(output_states(none@) =~= Seq::<ConnectionView>::empty());
                    }
                    let _ = drain_connections(
                        item_type,
                        &mut self.rr_inputs,
                        &mut self.input_rr_index,
                        &mut self.priority_outputs,
                        &mut none,
                        &mut temp,
                    );
                    proof {
                        assert(self@ == before.moved_to_priority(item_type));
                    }
                    lo = item_type as u32 + 1;
                },
            }
        }
    }

    /// The fourth stage: type by type, the round-robin inputs move their
    /// items to the round-robin outputs.
    fn drain_rr_inputs_to_rr(&mut self)
        requires
            old(self).wf(),
        ensures
            final(self).wf(),
            final(self)@ == old(self)@.stage4_from(0),
            final(self)@.same_shape(old(self)@),
            final(self)@.all_items() == old(self)@.all_items(),
            final(self).priority_output_sizes() == old(self).priority_output_sizes(),
            final(self).rr_output_sizes() == old(self).rr_output_sizes(),
    {
        let ghost target = self@.stage4_from(0);
        let mut lo: u32 = 0;
        while lo < 0x10000
            invariant
                lo <= 0x10000,
                self.wf(),
                self@.stage4_from(lo as int) == target,
                self@.all_items() == old(self)@.all_items(),
                self@.same_shape(old(self)@),
                self.priority_output_sizes() == old(self).priority_output_sizes(),
                self.rr_output_sizes() == old(self).rr_output_sizes(),
            decreases 0x10000 - lo,
        {
            let ghost before = self@;
            match next_type(&self.rr_inputs, lo as u16) {
                None => {
                    proof {
                        lemma_stage4_skip(before, lo as int, 0x10000);
                    }
                    lo = 0x10000;
                },
                Some(item_type) => {
                    proof {
                        self.lemma_wf();
                        lemma_stage4_skip(before, lo as int, item_type as int);
                        lemma_moved_to_rr(before, item_type);
                    }
                    let mut none: Vec<BeltOutputConnection> = Vec::new();
                    proof {
                        assert(output_states(none@) =~= Seq::<ConnectionView>::empty());
                    }
                    let _ = drain_connections(
                        item_type,
                        &mut self.rr_inputs,
                        &mut self.input_rr_index,
                        &mut none,
                        &mut self.rr_outputs,
                        &mut self.output_rr_index,
                    );
                    proof {
                        assert(self@ == before.moved_to_rr(item_type));
                    }
                    lo = item_type as u32 + 1;
                },
            }
        }
    }

    /// One tick of the splitter, in four stages. The priority inputs
    /// distribute what they hold, filling the priority outputs first. The
    /// round-robin inputs then move their items to the priority outputs,
    /// type by type. Each round-robin input that still holds items hands one
    /// to a round-robin output, which gives that output a type. Last the
    /// round-robin inputs move their items to the round-robin outputs, type
    /// by type. No item is lost or made, and no buffer takes more than its
    /// limit.
    pub fn run(&mut self)
        requires
            old(self).wf(),
        ensures
            final(self).wf(),
            final(self)@.wf(),
            final(self)@ == old(self)@.ran(),
            final(self)@.same_shape(old(self)@),
            final(self)@.all_items() == old(self)@.all_items(),
            final(self).priority_output_sizes() == old(self).priority_output_sizes(),
            final(self).rr_output_sizes() == old(self).rr_output_sizes(),
    {
        self.drain_priority_inputs();
        self.drain_rr_inputs_to_priority();
        let ghost before = self@;
        proof {
            self.lemma_wf();
            lemma_splitter_primed(before);
        }
        rr_loop_once(
            &mut self.rr_inputs,
            &mut self.rr_outputs,
            &mut self.input_rr_index,
            &mut self.output_rr_index,
        );
        proof {
            assert(self@ == before.primed());
        }
        self.drain_rr_inputs_to_rr();
        proof {
            self.lemma_wf();
        }
    }
}

} // verus!
