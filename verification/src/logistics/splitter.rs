use crate::logistics::belt::Belt;
use crate::logistics::lane::{item_total, lemma_lifted, lemma_placed, Lane};
use crate::logistics::round_robin::{pos_of, wrap};
use crate::logistics::stack::Stack;
use crate::types::ITEM_WIDTH;
use vstd::prelude::*;

verus! {

/// The lanes of the belts.
pub open spec fn lanes_of(belts: Seq<Belt>) -> Seq<Lane> {
    Seq::new(belts.len(), |i: int| belts[i]@.lane())
}

/// Every belt is well-formed.
pub open spec fn belts_wf(belts: Seq<Belt>) -> bool {
    forall|i: int| 0 <= i < belts.len() ==> #[trigger] belts[i].wf()
}

/// The same belts, whatever is on them.
pub open spec fn same_belts(a: Seq<Belt>, b: Seq<Belt>) -> bool {
    &&& a.len() == b.len()
    &&& forall|i: int| 0 <= i < a.len() ==> #[trigger] a[i]@.same_frame(b[i]@)
}

/// Items on all the lanes.
pub open spec fn lanes_items(lanes: Seq<Lane>) -> nat
    decreases lanes.len(),
{
    if lanes.len() == 0 {
        0
    } else {
        lanes_items(lanes.drop_last()) + item_total(lanes.last().slots)
    }
}

/// Every lane is well-formed.
pub open spec fn lanes_wf(lanes: Seq<Lane>) -> bool {
    forall|i: int| 0 <= i < lanes.len() ==> #[trigger] lanes[i].wf()
}

/// A slot is free at the lane's tail.
pub open spec fn has_room(lane: Lane) -> bool {
    lane.back >= ITEM_WIDTH
}

/// The single stack that can be lifted off the lane's head.
pub open spec fn head_stack(lane: Lane) -> Option<Stack> {
    if lane.front == 0 && lane.slots.len() > 0 {
        Some(lane.slots[0].stack_of(1))
    } else {
        None
    }
}

/// One stack of the kind of `stack`.
pub open spec fn single(stack: Stack) -> Stack {
    Stack { multiplicity: 1, ..stack }
}

/// The first lane from `from` on with a free slot at its tail.
pub open spec fn first_room(lanes: Seq<Lane>, from: int) -> Option<int>
    decreases lanes.len() - from,
{
    if from >= lanes.len() || from < 0 {
        None
    } else if has_room(lanes[from]) {
        Some(from)
    } else {
        first_room(lanes, from + 1)
    }
}

/// The first lane with a free slot at its tail among those that come `p`
/// places or more behind `cursor`, going round once.
pub open spec fn first_room_round(lanes: Seq<Lane>, cursor: int, p: int) -> Option<int>
    decreases lanes.len() - p,
{
    if p >= lanes.len() || p < 0 {
        None
    } else if has_room(lanes[wrap(cursor + p, lanes.len() as int)]) {
        Some(wrap(cursor + p, lanes.len() as int))
    } else {
        first_room_round(lanes, cursor, p + 1)
    }
}

/// Where a stack may go: to the priority outputs and, failing that, to the
/// round-robin outputs; to the priority outputs only; or to the round-robin
/// outputs only.
#[derive(Debug, Clone, Copy, PartialEq, Eq, Structural)]
pub enum Route {
    Any,
    Priority,
    RoundRobin,
}

/// The output lanes of a splitter with its output cursor.
pub struct Outputs {
    pub priority: Seq<Lane>,
    pub rr: Seq<Lane>,
    pub rr_index: int,
}

/// A stack can be placed on some output that the route allows.
pub open spec fn routable(out: Outputs, route: Route) -> bool {
    (route != Route::RoundRobin && first_room(out.priority, 0) is Some) || (route
        != Route::Priority && first_room_round(out.rr, out.rr_index, 0) is Some)
}

/// The outputs after a single stack was routed: it goes on the first
/// priority output with room or, failing that, on the first round-robin
/// output with room from the cursor on, and the cursor then goes behind that
/// output. Without room the outputs stay as they are.
pub open spec fn routed(out: Outputs, stack: Stack, route: Route) -> Outputs {
    let p = first_room(out.priority, 0);
    let r = first_room_round(out.rr, out.rr_index, 0);
    if route != Route::RoundRobin && p is Some {
        Outputs { priority: out.priority.update(p->0, out.priority[p->0].placed(stack)), ..out }
    } else if route != Route::Priority && r is Some {
        Outputs {
            rr: out.rr.update(r->0, out.rr[r->0].placed(stack)),
            rr_index: wrap(r->0 + 1, out.rr.len() as int),
            ..out
        }
    } else {
        out
    }
}

/// Input lanes and outputs in the course of a sweep.
pub struct Swept {
    pub inputs: Seq<Lane>,
    pub outputs: Outputs,
}

/// The input `i` offers the stack at its head: where an output takes it,
/// it is lifted off the input.
pub open spec fn offered(s: Swept, i: int, route: Route) -> Swept {
    match head_stack(s.inputs[i]) {
        Some(stack) => {
            if routable(s.outputs, route) {
                Swept {
                    inputs: s.inputs.update(i, s.inputs[i].lifted()),
                    outputs: routed(s.outputs, stack, route),
                }
            } else {
                s
            }
        },
        None => s,
    }
}

/// One sweep over the inputs, from the `k`-th visited on: the inputs offer
/// their head stacks one after the other, beginning with the input `start`
/// and going round.
pub open spec fn swept_from(s: Swept, route: Route, start: int, k: int) -> Swept
    decreases s.inputs.len() - k,
{
    if k >= s.inputs.len() || k < 0 || !(0 <= start < s.inputs.len()) {
        s
    } else if offered(s, wrap(start + k, s.inputs.len() as int), route).inputs.len()
        != s.inputs.len() {
        s
    } else {
        swept_from(
            offered(s, wrap(start + k, s.inputs.len() as int), route),
            route,
            start,
            k + 1,
        )
    }
}

/// A cursor brought onto one of `len` places.
pub open spec fn normalized(index: int, len: int) -> int {
    if len == 0 {
        0
    } else {
        index % len
    }
}

/// How all lanes and the two cursors stand after one tick of the splitter.
pub struct Sorted {
    pub priority_inputs: Seq<Lane>,
    pub rr_inputs: Seq<Lane>,
    pub priority_outputs: Seq<Lane>,
    pub rr_outputs: Seq<Lane>,
    pub input_rr_index: int,
    pub output_rr_index: int,
}

/// One tick of the splitter: the priority inputs offer their head stacks
/// to all outputs, the round-robin inputs theirs to the priority outputs,
/// and the round-robin inputs, from the input cursor on, theirs to the
/// round-robin outputs.
pub open spec fn sorted(
    priority_inputs: Seq<Lane>,
    rr_inputs: Seq<Lane>,
    priority_outputs: Seq<Lane>,
    rr_outputs: Seq<Lane>,
    input_rr_index: int,
    output_rr_index: int,
) -> Sorted {
    let first = swept_from(
        Swept {
            inputs: priority_inputs,
            outputs: Outputs {
                priority: priority_outputs,
                rr: rr_outputs,
                rr_index: normalized(output_rr_index, rr_outputs.len() as int),
            },
        },
        Route::Any,
        0,
        0,
    );
    let second = swept_from(
        Swept { inputs: rr_inputs, outputs: first.outputs },
        Route::Priority,
        0,
        0,
    );
    let third = swept_from(
        second,
        Route::RoundRobin,
        normalized(input_rr_index, rr_inputs.len() as int),
        0,
    );
    Sorted {
        priority_inputs: first.inputs,
        rr_inputs: third.inputs,
        priority_outputs: third.outputs.priority,
        rr_outputs: third.outputs.rr,
        input_rr_index: normalized(input_rr_index, rr_inputs.len() as int),
        output_rr_index: third.outputs.rr_index,
    }
}

/// No input can hand a stack to an output: it has none at its head, or no
/// output has room.
pub open spec fn settled(s: Swept, route: Route) -> bool {
    forall|i: int|
        0 <= i < s.inputs.len() ==> (#[trigger] head_stack(s.inputs[i])) is None || !routable(
            s.outputs,
            route,
        )
}

/// A sweep over settled inputs changes nothing.
pub proof fn lemma_settled(s: Swept, route: Route, start: int, k: int)
    requires
        settled(s, route),
        0 <= k,
    ensures
        swept_from(s, route, start, k) == s,
    decreases s.inputs.len() - k,
{
    if k < s.inputs.len() && 0 <= start < s.inputs.len() {
        let i = wrap(start + k, s.inputs.len() as int);
        assert(head_stack(s.inputs[i]) is None || !routable(s.outputs, route));
        lemma_settled(s, route, start, k + 1);
    }
}

/// The items on the lanes after one lane was replaced.
pub proof fn lemma_lanes_items_update(lanes: Seq<Lane>, i: int, lane: Lane)
    requires
        0 <= i < lanes.len(),
    ensures
        lanes_items(lanes.update(i, lane)) + item_total(lanes[i].slots) == lanes_items(lanes)
            + item_total(lane.slots),
    decreases lanes.len(),
{
    let after = lanes.update(i, lane);
    if i == lanes.len() - 1 {
        assert(after.drop_last() =~= lanes.drop_last());
    } else {
        assert(after.drop_last() =~= lanes.drop_last().update(i, lane));
        lemma_lanes_items_update(lanes.drop_last(), i, lane);
    }
}

/// The first lane with room is a lane with room, and none before it has
/// room.
pub proof fn lemma_first_room(lanes: Seq<Lane>, from: int)
    requires
        0 <= from,
    ensures
        first_room(lanes, from) matches Some(i) ==> from <= i < lanes.len() && has_room(lanes[i]),
    decreases lanes.len() - from,
{
    if from < lanes.len() && !has_room(lanes[from]) {
        lemma_first_room(lanes, from + 1);
    }
}

/// The first lane with room, going round, is a lane with room.
pub proof fn lemma_first_room_round(lanes: Seq<Lane>, cursor: int, p: int)
    requires
        0 <= cursor < lanes.len(),
        0 <= p,
    ensures
        first_room_round(lanes, cursor, p) matches Some(i) ==> 0 <= i < lanes.len() && has_room(
            lanes[i],
        ),
    decreases lanes.len() - p,
{
    if p < lanes.len() && !has_room(lanes[wrap(cursor + p, lanes.len() as int)]) {
        lemma_first_room_round(lanes, cursor, p + 1);
    }
}

/// Routing a single stack keeps the output lanes well-formed and the
/// cursor on a lane, and adds the stack's items where it finds room.
pub proof fn lemma_routed(out: Outputs, stack: Stack, route: Route)
    requires
        lanes_wf(out.priority),
        lanes_wf(out.rr),
        0 <= out.rr_index < out.rr.len() || (out.rr.len() == 0 && out.rr_index == 0),
        stack.multiplicity == 1,
    ensures
        lanes_wf(routed(out, stack, route).priority),
        lanes_wf(routed(out, stack, route).rr),
        routed(out, stack, route).priority.len() == out.priority.len(),
        routed(out, stack, route).rr.len() == out.rr.len(),
        0 <= routed(out, stack, route).rr_index < out.rr.len() || (out.rr.len() == 0 && routed(
            out,
            stack,
            route,
        ).rr_index == 0),
        lanes_items(routed(out, stack, route).priority) + lanes_items(
            routed(out, stack, route).rr,
        ) == lanes_items(out.priority) + lanes_items(out.rr) + if routable(out, route) {
            stack.item_count as nat
        } else {
            0
        },
{
    let p = first_room(out.priority, 0);
    let r = first_room_round(out.rr, out.rr_index, 0);
    lemma_first_room(out.priority, 0);
    if out.rr.len() > 0 {
        lemma_first_room_round(out.rr, out.rr_index, 0);
    }
    if route != Route::RoundRobin && p is Some {
        let i = p->0;
        assert(out.priority[i].wf());
        lemma_placed(out.priority[i], stack);
        lemma_lanes_items_update(out.priority, i, out.priority[i].placed(stack));
        let after = out.priority.update(i, out.priority[i].placed(stack));
        assert forall|j: int| 0 <= j < after.len() implies #[trigger] after[j].wf() by {
            if j != i {
                assert(out.priority[j].wf());
            }
        }
    } else if route != Route::Priority && r is Some {
        let i = r->0;
        assert(out.rr[i].wf());
        lemma_placed(out.rr[i], stack);
        lemma_lanes_items_update(out.rr, i, out.rr[i].placed(stack));
        let after = out.rr.update(i, out.rr[i].placed(stack));
        assert forall|j: int| 0 <= j < after.len() implies #[trigger] after[j].wf() by {
            if j != i {
                assert(out.rr[j].wf());
            }
        }
    }
}

/// Where a lane has room, the first lane with room is found.
pub proof fn lemma_first_room_exists(lanes: Seq<Lane>, from: int, j: int)
    requires
        0 <= from <= j < lanes.len(),
        has_room(lanes[j]),
    ensures
        first_room(lanes, from) is Some,
    decreases lanes.len() - from,
{
    if from < j && !has_room(lanes[from]) {
        lemma_first_room_exists(lanes, from + 1, j);
    }
}

/// Where a lane has room, going round from anywhere finds a lane with room.
pub proof fn lemma_first_room_round_exists(lanes: Seq<Lane>, cursor: int, p: int, j: int)
    requires
        0 <= cursor < lanes.len(),
        0 <= j < lanes.len(),
        has_room(lanes[j]),
        0 <= p <= pos_of(j, cursor, lanes.len() as int),
    ensures
        first_room_round(lanes, cursor, p) is Some,
    decreases lanes.len() - p,
{
    if p < pos_of(j, cursor, lanes.len() as int) {
        lemma_first_room_round_exists(lanes, cursor, p + 1, j);
    } else {
        assert(wrap(cursor + p, lanes.len() as int) == j);
    }
}

/// The output cursor stands on a round-robin output, or at zero where
/// there is none.
pub open spec fn outputs_ok(out: Outputs) -> bool {
    0 <= out.rr_index < out.rr.len() || (out.rr.len() == 0 && out.rr_index == 0)
}

/// The outputs `later` are the outputs `earlier` with no more room than
/// those had.
pub open spec fn no_more_room(later: Outputs, earlier: Outputs) -> bool {
    &&& later.priority.len() == earlier.priority.len()
    &&& later.rr.len() == earlier.rr.len()
    &&& forall|j: int|
        0 <= j < later.priority.len() && has_room(#[trigger] later.priority[j]) ==> has_room(
            earlier.priority[j],
        )
    &&& forall|j: int|
        0 <= j < later.rr.len() && has_room(#[trigger] later.rr[j]) ==> has_room(earlier.rr[j])
}

/// The inputs `later` are the inputs `earlier`, but for those that have no
/// stack at their head any more.
pub open spec fn heads_gone(later: Seq<Lane>, earlier: Seq<Lane>) -> bool {
    &&& later.len() == earlier.len()
    &&& forall|i: int|
        0 <= i < later.len() ==> #[trigger] later[i] == earlier[i] || head_stack(later[i]) is None
}

/// What could not be routed when the outputs had more room cannot be routed
/// now.
pub proof fn lemma_routable_earlier(later: Outputs, earlier: Outputs, route: Route)
    requires
        no_more_room(later, earlier),
        outputs_ok(later),
        outputs_ok(earlier),
        routable(later, route),
    ensures
        routable(earlier, route),
{
    lemma_first_room(later.priority, 0);
    if later.rr.len() > 0 {
        lemma_first_room_round(later.rr, later.rr_index, 0);
    }
    if route != Route::RoundRobin && first_room(later.priority, 0) is Some {
        let j = first_room(later.priority, 0)->0;
        assert(has_room(later.priority[j]));
        lemma_first_room_exists(earlier.priority, 0, j);
    } else {
        let j = first_room_round(later.rr, later.rr_index, 0)->0;
        assert(has_room(later.rr[j]));
        lemma_first_room_round_exists(earlier.rr, earlier.rr_index, 0, j);
    }
}

/// Inputs that were settled stay settled while heads only go and room only
/// gets less.
pub proof fn lemma_stays_settled(earlier: Swept, later: Swept, route: Route)
    requires
        settled(earlier, route),
        heads_gone(later.inputs, earlier.inputs),
        no_more_room(later.outputs, earlier.outputs),
        outputs_ok(later.outputs),
        outputs_ok(earlier.outputs),
    ensures
        settled(later, route),
{
    assert forall|i: int| 0 <= i < later.inputs.len() implies (#[trigger] head_stack(
        later.inputs[i],
    )) is None || !routable(later.outputs, route) by {
        assert(later.inputs[i] == earlier.inputs[i] || head_stack(later.inputs[i]) is None);
        assert(head_stack(earlier.inputs[i]) is None || !routable(earlier.outputs, route));
        if routable(later.outputs, route) {
            lemma_routable_earlier(later.outputs, earlier.outputs, route);
        }
    }
}

/// What a sweep leaves: the same sets of lanes, inputs that are as they were
/// or have no stack at their head, outputs with no more room than before,
/// and no input among those visited that could still hand a stack to an
/// output.
pub proof fn lemma_swept(s: Swept, route: Route, start: int, k: int)
    requires
        0 <= start < s.inputs.len(),
        0 <= k <= s.inputs.len(),
        outputs_ok(s.outputs),
    ensures
        heads_gone(swept_from(s, route, start, k).inputs, s.inputs),
        no_more_room(swept_from(s, route, start, k).outputs, s.outputs),
        outputs_ok(swept_from(s, route, start, k).outputs),
        forall|q: int|
            k <= q < s.inputs.len() ==> (#[trigger] head_stack(
                swept_from(s, route, start, k).inputs[wrap(start + q, s.inputs.len() as int)],
            )) is None || !routable(swept_from(s, route, start, k).outputs, route),
    decreases s.inputs.len() - k,
{
    let len = s.inputs.len() as int;
    if k < len {
        let i = wrap(start + k, len);
        let next = offered(s, i, route);
        lemma_first_room(s.outputs.priority, 0);
        if s.outputs.rr.len() > 0 {
            lemma_first_room_round(s.outputs.rr, s.outputs.rr_index, 0);
        }
        assert(heads_gone(next.inputs, s.inputs));
        assert(no_more_room(next.outputs, s.outputs));
        assert(outputs_ok(next.outputs));
        lemma_swept(next, route, start, k + 1);
        let after = swept_from(s, route, start, k);
        assert(after == swept_from(next, route, start, k + 1));
        assert forall|j: int| 0 <= j < after.inputs.len() implies #[trigger] after.inputs[j]
            == s.inputs[j] || head_stack(after.inputs[j]) is None by {
            assert(after.inputs[j] == next.inputs[j] || head_stack(after.inputs[j]) is None);
            assert(next.inputs[j] == s.inputs[j] || head_stack(next.inputs[j]) is None);
        }
        assert forall|j: int|
            0 <= j < after.outputs.priority.len() && has_room(
                #[trigger] after.outputs.priority[j],
            ) implies has_room(s.outputs.priority[j]) by {
            assert(has_room(next.outputs.priority[j]));
        }
        assert forall|j: int|
            0 <= j < after.outputs.rr.len() && has_room(
                #[trigger] after.outputs.rr[j],
            ) implies has_room(s.outputs.rr[j]) by {
            assert(has_room(next.outputs.rr[j]));
        }
        assert forall|q: int| k <= q < len implies (#[trigger] head_stack(
            after.inputs[wrap(start + q, len)],
        )) is None || !routable(after.outputs, route) by {
            if q == k {
                assert(after.inputs[i] == next.inputs[i] || head_stack(after.inputs[i]) is None);
                if head_stack(after.inputs[i]) is Some {
                    assert(next == s);
                    if routable(after.outputs, route) {
                        lemma_routable_earlier(after.outputs, next.outputs, route);
                    }
                }
            }
        }
    }
}

/// After a sweep no input can hand a stack to an output.
pub proof fn lemma_swept_settled(s: Swept, route: Route, start: int)
    requires
        0 <= start < s.inputs.len() || (s.inputs.len() == 0 && start == 0),
        outputs_ok(s.outputs),
    ensures
        settled(swept_from(s, route, start, 0), route),
        heads_gone(swept_from(s, route, start, 0).inputs, s.inputs),
        no_more_room(swept_from(s, route, start, 0).outputs, s.outputs),
        outputs_ok(swept_from(s, route, start, 0).outputs),
{
    let len = s.inputs.len() as int;
    if len > 0 {
        lemma_swept(s, route, start, 0);
        let after = swept_from(s, route, start, 0);
        assert forall|i: int| 0 <= i < after.inputs.len() implies (#[trigger] head_stack(
            after.inputs[i],
        )) is None || !routable(after.outputs, route) by {
            let q = pos_of(i, start, len);
            assert(wrap(start + q, len) == i);
            assert(head_stack(after.inputs[wrap(start + q, len)]) is None || !routable(
                after.outputs,
                route,
            ));
        }
    }
}

/// After a tick of the splitter no input belt can hand the stack at its
/// head to any output belt: the sweeps went on until one moved nothing.
pub proof fn lemma_sorted_settled(
    priority_inputs: Seq<Lane>,
    rr_inputs: Seq<Lane>,
    priority_outputs: Seq<Lane>,
    rr_outputs: Seq<Lane>,
    input_rr_index: int,
    output_rr_index: int,
)
    requires
        0 <= input_rr_index,
        0 <= output_rr_index,
    ensures
        ({
            let r = sorted(
                priority_inputs,
                rr_inputs,
                priority_outputs,
                rr_outputs,
                input_rr_index,
                output_rr_index,
            );
            let out = Outputs {
                priority: r.priority_outputs,
                rr: r.rr_outputs,
                rr_index: r.output_rr_index,
            };
            &&& settled(Swept { inputs: r.priority_inputs, outputs: out }, Route::Any)
            &&& settled(Swept { inputs: r.rr_inputs, outputs: out }, Route::Any)
        }),
{
    let start_out = normalized(output_rr_index, rr_outputs.len() as int);
    let start_in = normalized(input_rr_index, rr_inputs.len() as int);
    if rr_outputs.len() > 0 {
        vstd::arithmetic::div_mod::lemma_mod_bound(output_rr_index, rr_outputs.len() as int);
    }
    if rr_inputs.len() > 0 {
        vstd::arithmetic::div_mod::lemma_mod_bound(input_rr_index, rr_inputs.len() as int);
    }
    let begin = Swept {
        inputs: priority_inputs,
        outputs: Outputs { priority: priority_outputs, rr: rr_outputs, rr_index: start_out },
    };
    let first = swept_from(begin, Route::Any, 0, 0);
    lemma_swept_settled(begin, Route::Any, 0);
    let middle = Swept { inputs: rr_inputs, outputs: first.outputs };
    let second = swept_from(middle, Route::Priority, 0, 0);
    lemma_swept_settled(middle, Route::Priority, 0);
    let third = swept_from(second, Route::RoundRobin, start_in, 0);
    lemma_swept_settled(second, Route::RoundRobin, start_in);
    assert(no_more_room(third.outputs, first.outputs)) by {
        assert forall|j: int|
            0 <= j < third.outputs.priority.len() && has_room(
                #[trigger] third.outputs.priority[j],
            ) implies has_room(first.outputs.priority[j]) by {
            assert(has_room(second.outputs.priority[j]));
        }
        assert forall|j: int|
            0 <= j < third.outputs.rr.len() && has_room(
                #[trigger] third.outputs.rr[j],
            ) implies has_room(first.outputs.rr[j]) by {
            assert(has_room(second.outputs.rr[j]));
        }
    }
    lemma_stays_settled(first, Swept { inputs: first.inputs, outputs: third.outputs }, Route::Any);
    lemma_stays_settled(
        second,
        Swept { inputs: third.inputs, outputs: third.outputs },
        Route::Priority,
    );
}

/// Belts that were changed in place twice are still the same belts.
pub proof fn lemma_same_belts(a: Seq<Belt>, b: Seq<Belt>, c: Seq<Belt>)
    requires
        same_belts(a, b),
        same_belts(b, c),
    ensures
        same_belts(a, c),
{
    assert forall|i: int| 0 <= i < a.len() implies #[trigger] a[i]@.same_frame(c[i]@) by {
        assert(a[i]@.same_frame(b[i]@));
        assert(b[i]@.same_frame(c[i]@));
    }
}

/// Belts are the same belts as themselves.
pub proof fn lemma_same_belts_refl(a: Seq<Belt>)
    ensures
        same_belts(a, a),
{
    assert forall|i: int| 0 <= i < a.len() implies #[trigger] a[i]@.same_frame(a[i]@) by {}
}

/// A splitter that works on the ends of belts directly: it lifts stacks
/// off the heads of its input belts and puts them at the tails of its
/// output belts. It keeps two round-robin cursors from tick to tick.
#[derive(Debug)]
pub struct Splitter {
    input_rr_index: usize,
    output_rr_index: usize,
}

impl Default for Splitter {
    fn default() -> (splitter: Self)
        ensures
            splitter.input_index() == 0,
            splitter.output_index() == 0,
    {
        Splitter::new()
    }
}

impl Splitter {
    /// The cursor over the round-robin inputs.
    pub closed spec fn input_index(&self) -> int {
        self.input_rr_index as int
    }

    /// The cursor over the round-robin outputs.
    pub closed spec fn output_index(&self) -> int {
        self.output_rr_index as int
    }

    /// A splitter with both cursors at the first belt of their set.
    pub fn new() -> (splitter: Self)
        ensures
            splitter.input_index() == 0,
            splitter.output_index() == 0,
    {
        Self { input_rr_index: 0, output_rr_index: 0 }
    }

    /// Puts a single stack like `stack` on the first priority output with
    /// room.
    fn try_assign_priority(stack: &Stack, priority_outputs: &mut [Belt]) -> (ok: bool)
        requires
            belts_wf(old(priority_outputs)@),
        ensures
            belts_wf(final(priority_outputs)@),
            same_belts(final(priority_outputs)@, old(priority_outputs)@),
            ok == first_room(lanes_of(old(priority_outputs)@), 0) is Some,
            ok ==> lanes_of(final(priority_outputs)@) == lanes_of(old(priority_outputs)@).update(
                first_room(lanes_of(old(priority_outputs)@), 0)->0,
                lanes_of(old(priority_outputs)@)[first_room(
                    lanes_of(old(priority_outputs)@),
                    0,
                )->0].placed(single(*stack)),
            ),
            !ok ==> lanes_of(final(priority_outputs)@) == lanes_of(old(priority_outputs)@),
    {
        let ghost lanes = lanes_of(priority_outputs@);
        proof {
            lemma_same_belts_refl(priority_outputs@);
        }
        let mut i: usize = 0;
        while i < priority_outputs.len()
            invariant
                i <= priority_outputs@.len(),
                priority_outputs@.len() == old(priority_outputs)@.len(),
                same_belts(priority_outputs@, old(priority_outputs)@),
                belts_wf(priority_outputs@),
                lanes == lanes_of(old(priority_outputs)@),
                lanes == lanes_of(priority_outputs@),
                first_room(lanes, 0) == first_room(lanes, i as int),
            decreases priority_outputs@.len() - i,
        {
            let ghost was = priority_outputs@;
            proof {
                assert(was[i as int].wf());
                assert(lanes[i as int] == was[i as int]@.lane());
            }
            let unit = Stack::new(stack.item_type, stack.item_count);
            assert(unit == single(*stack));
            let placed = priority_outputs[i].add_item(unit);
            proof {
                assert forall|j: int|
                    0 <= j < priority_outputs@.len() implies #[trigger] priority_outputs@[j].wf() by {
                    if j != i {
                        assert(priority_outputs@[j] == was[j]);
                        assert(was[j].wf());
                    }
                }
                assert forall|j: int|
                    0 <= j < priority_outputs@.len() implies #[trigger] priority_outputs@[j]@.same_frame(
                was[j]@) by {
                    if j != i {
                        assert(priority_outputs@[j] == was[j]);
                    }
                }
                lemma_same_belts(priority_outputs@, was, old(priority_outputs)@);
            }
            if placed {
                proof {
                    assert forall|j: int| 0 <= j < lanes.len() implies #[trigger] lanes_of(
                        priority_outputs@,
                    )[j] == lanes.update(i as int, lanes[i as int].placed(single(*stack)))[j] by {
                        if j != i {
                            assert(priority_outputs@[j] == was[j]);
                            assert(lanes[j] == was[j]@.lane());
                        }
                    }
                    assert(lanes_of(priority_outputs@) =~= lanes.update(
                        i as int,
                        lanes[i as int].placed(single(*stack)),
                    ));
                }
                return true;
            }
            proof {
                assert forall|j: int| 0 <= j < lanes.len() implies #[trigger] lanes_of(
                    priority_outputs@,
                )[j] == lanes[j] by {
                    if j != i {
                        assert(priority_outputs@[j] == was[j]);
                    }
                    assert(lanes[j] == was[j]@.lane());
                }
                assert(lanes_of(priority_outputs@) =~= lanes);
            }
            i += 1;
        }
        false
    }

    /// Puts a single stack like `stack` on the first round-robin output
    /// with room, from the output cursor on, and moves the cursor behind
    /// that output.
    fn try_assign_rr(&mut self, stack: &Stack, rr_outputs: &mut [Belt]) -> (ok: bool)
        requires
            belts_wf(old(rr_outputs)@),
            old(self).output_index() < old(rr_outputs)@.len() || (old(rr_outputs)@.len() == 0
                && old(self).output_index() == 0),
        ensures
            belts_wf(final(rr_outputs)@),
            same_belts(final(rr_outputs)@, old(rr_outputs)@),
            final(self).input_index() == old(self).input_index(),
            ok == first_room_round(lanes_of(old(rr_outputs)@), old(self).output_index(), 0) is Some,
            ok ==> {
                let i = first_room_round(
                    lanes_of(old(rr_outputs)@),
                    old(self).output_index(),
                    0,
                )->0;
                &&& lanes_of(final(rr_outputs)@) == lanes_of(old(rr_outputs)@).update(
                    i,
                    lanes_of(old(rr_outputs)@)[i].placed(single(*stack)),
                )
                &&& final(self).output_index() == wrap(i + 1, old(rr_outputs)@.len() as int)
            },
            !ok ==> lanes_of(final(rr_outputs)@) == lanes_of(old(rr_outputs)@) && final(self).output_index() == old(self).output_index(),
    {
        let len: usize = rr_outputs.len();
        if len == 0 {
            return false;
        }
        let start: usize = self.output_rr_index;
        let ghost lanes = lanes_of(rr_outputs@);
        proof {
            lemma_same_belts_refl(rr_outputs@);
        }
        let mut offset: usize = 0;
        while offset < len
            invariant
                offset <= len,
                len == rr_outputs@.len(),
                len == old(rr_outputs)@.len(),
                start < len,
                start == old(self).output_rr_index,
                self.output_rr_index == start,
                self.input_rr_index == old(self).input_rr_index,
                same_belts(rr_outputs@, old(rr_outputs)@),
                belts_wf(rr_outputs@),
                lanes == lanes_of(old(rr_outputs)@),
                lanes == lanes_of(rr_outputs@),
                first_room_round(lanes, start as int, 0) == first_room_round(
                    lanes,
                    start as int,
                    offset as int,
                ),
            decreases len - offset,
        {
            let idx: usize = if offset < len - start {
                start + offset
            } else {
                offset - (len - start)
            };
            let ghost was = rr_outputs@;
            proof {
                assert(idx == wrap(start + offset, len as int));
                assert(was[idx as int].wf());
                assert(lanes[idx as int] == was[idx as int]@.lane());
            }
            let unit = Stack::new(stack.item_type, stack.item_count);
            assert(unit == single(*stack));
            let placed = rr_outputs[idx].add_item(unit);
            proof {
                assert forall|j: int| 0 <= j < rr_outputs@.len() implies #[trigger] rr_outputs@[j].wf() by {
                    if j != idx {
                        assert(rr_outputs@[j] == was[j]);
                        assert(was[j].wf());
                    }
                }
                assert forall|j: int|
                    0 <= j < rr_outputs@.len() implies #[trigger] rr_outputs@[j]@.same_frame(
                was[j]@) by {
                    if j != idx {
                        assert(rr_outputs@[j] == was[j]);
                    }
                }
                lemma_same_belts(rr_outputs@, was, old(rr_outputs)@);
            }
            if placed {
                self.output_rr_index = if idx + 1 == len {
                    0
                } else {
                    idx + 1
                };
                proof {
                    assert forall|j: int| 0 <= j < lanes.len() implies #[trigger] lanes_of(
                        rr_outputs@,
                    )[j] == lanes.update(idx as int, lanes[idx as int].placed(single(*stack)))[j] by {
                        if j != idx {
                            assert(rr_outputs@[j] == was[j]);
                            assert(lanes[j] == was[j]@.lane());
                        }
                    }
                    assert(lanes_of(rr_outputs@) =~= lanes.update(
                        idx as int,
                        lanes[idx as int].placed(single(*stack)),
                    ));
                }
                return true;
            }
            proof {
                assert forall|j: int| 0 <= j < lanes.len() implies #[trigger] lanes_of(
                    rr_outputs@,
                )[j] == lanes[j] by {
                    if j != idx {
                        assert(rr_outputs@[j] == was[j]);
                    }
                    assert(lanes[j] == was[j]@.lane());
                }
                assert(lanes_of(rr_outputs@) =~= lanes);
            }
            offset += 1;
        }
        false
    }

    /// Puts a single stack like `stack` on the first priority output with
    /// room or, failing that, on a round-robin output.
    fn try_assign_full(
        &mut self,
        stack: &Stack,
        priority_outputs: &mut [Belt],
        rr_outputs: &mut [Belt],
    ) -> (ok: bool)
        requires
            belts_wf(old(priority_outputs)@),
            belts_wf(old(rr_outputs)@),
            old(self).output_index() < old(rr_outputs)@.len() || (old(rr_outputs)@.len() == 0
                && old(self).output_index() == 0),
        ensures
            belts_wf(final(priority_outputs)@),
            belts_wf(final(rr_outputs)@),
            same_belts(final(priority_outputs)@, old(priority_outputs)@),
            same_belts(final(rr_outputs)@, old(rr_outputs)@),
            final(self).input_index() == old(self).input_index(),
            ({
                let out = Outputs {
                    priority: lanes_of(old(priority_outputs)@),
                    rr: lanes_of(old(rr_outputs)@),
                    rr_index: old(self).output_index(),
                };
                &&& ok == routable(out, Route::Any)
                &&& routed(out, single(*stack), Route::Any) == (Outputs {
                    priority: lanes_of(final(priority_outputs)@),
                    rr: lanes_of(final(rr_outputs)@),
                    rr_index: final(self).output_index(),
                })
            }),
    {
        proof {
            lemma_same_belts_refl(rr_outputs@);
        }
        if Self::try_assign_priority(stack, priority_outputs) {
            return true;
        }
        self.try_assign_rr(stack, rr_outputs)
    }

    /// Puts a single stack like `stack` on an output that the route allows.
    fn try_assign(
        &mut self,
        stack: &Stack,
        route: Route,
        priority_outputs: &mut [Belt],
        rr_outputs: &mut [Belt],
    ) -> (ok: bool)
        requires
            belts_wf(old(priority_outputs)@),
            belts_wf(old(rr_outputs)@),
            old(self).output_index() < old(rr_outputs)@.len() || (old(rr_outputs)@.len() == 0
                && old(self).output_index() == 0),
        ensures
            belts_wf(final(priority_outputs)@),
            belts_wf(final(rr_outputs)@),
            same_belts(final(priority_outputs)@, old(priority_outputs)@),
            same_belts(final(rr_outputs)@, old(rr_outputs)@),
            final(self).input_index() == old(self).input_index(),
            ({
                let out = Outputs {
                    priority: lanes_of(old(priority_outputs)@),
                    rr: lanes_of(old(rr_outputs)@),
                    rr_index: old(self).output_index(),
                };
                &&& ok == routable(out, route)
                &&& routed(out, single(*stack), route) == (Outputs {
                    priority: lanes_of(final(priority_outputs)@),
                    rr: lanes_of(final(rr_outputs)@),
                    rr_index: final(self).output_index(),
                })
            }),
    {
        match route {
            Route::Any => self.try_assign_full(stack, priority_outputs, rr_outputs),
            Route::Priority => Self::try_assign_priority(stack, priority_outputs),
            Route::RoundRobin => self.try_assign_rr(stack, rr_outputs),
        }
    }

    /// Lets one input belt offer the stack at its head to the outputs that
    /// the route allows, as long as it has one there and an output takes it.
    fn offer_head(
        &mut self,
        belt: &mut Belt,
        route: Route,
        priority_outputs: &mut [Belt],
        rr_outputs: &mut [Belt],
    ) -> (moved: bool)
        requires
            old(belt).wf(),
            belts_wf(old(priority_outputs)@),
            belts_wf(old(rr_outputs)@),
            old(self).output_index() < old(rr_outputs)@.len() || (old(rr_outputs)@.len() == 0
                && old(self).output_index() == 0),
        ensures
            final(belt).wf(),
            final(belt)@.same_frame(old(belt)@),
            belts_wf(final(priority_outputs)@),
            belts_wf(final(rr_outputs)@),
            same_belts(final(priority_outputs)@, old(priority_outputs)@),
            same_belts(final(rr_outputs)@, old(rr_outputs)@),
            final(self).input_index() == old(self).input_index(),
            final(self).output_index() < old(rr_outputs)@.len() || (old(rr_outputs)@.len() == 0
                && final(self).output_index() == 0),
            ({
                let out = Outputs {
                    priority: lanes_of(old(priority_outputs)@),
                    rr: lanes_of(old(rr_outputs)@),
                    rr_index: old(self).output_index(),
                };
                let lane = old(belt)@.lane();
                let after = Outputs {
                    priority: lanes_of(final(priority_outputs)@),
                    rr: lanes_of(final(rr_outputs)@),
                    rr_index: final(self).output_index(),
                };
                &&& moved == (head_stack(lane) is Some && routable(out, route))
                &&& moved ==> final(belt)@.lane() == lane.lifted() && after == routed(
                    out,
                    head_stack(lane)->0,
                    route,
                )
                &&& !moved ==> final(belt)@.lane() == lane && after == out
                &&& moved ==> head_stack(final(belt)@.lane()) is None
            }),
    {
        let mut moved: bool = false;
        let ghost out = Outputs {
            priority: lanes_of(old(priority_outputs)@),
            rr: lanes_of(old(rr_outputs)@),
            rr_index: old(self).output_index(),
        };
        let ghost lane = old(belt)@.lane();
        loop
            invariant
                belt.wf(),
                belt@.same_frame(old(belt)@),
                belts_wf(priority_outputs@),
                belts_wf(rr_outputs@),
                same_belts(priority_outputs@, old(priority_outputs)@),
                same_belts(rr_outputs@, old(rr_outputs)@),
                self.input_rr_index == old(self).input_rr_index,
                self.output_index() < old(rr_outputs)@.len() || (old(rr_outputs)@.len() == 0
                    && self.output_index() == 0),
                out == (Outputs {
                    priority: lanes_of(old(priority_outputs)@),
                    rr: lanes_of(old(rr_outputs)@),
                    rr_index: old(self).output_index(),
                }),
                lane == old(belt)@.lane(),
                !moved ==> belt@ == old(belt)@ && lanes_of(priority_outputs@) == out.priority
                    && lanes_of(rr_outputs@) == out.rr && self.output_index() == out.rr_index,
                moved ==> head_stack(lane) is Some && routable(out, route) && belt@.lane()
                    == lane.lifted() && head_stack(belt@.lane()) is None && routed(
                    out,
                    head_stack(lane)->0,
                    route,
                ) == (Outputs {
                    priority: lanes_of(priority_outputs@),
                    rr: lanes_of(rr_outputs@),
                    rr_index: self.output_index(),
                }),
            ensures
                moved == (head_stack(lane) is Some && routable(out, route)),
                moved ==> belt@.lane() == lane.lifted() && head_stack(belt@.lane()) is None
                    && routed(out, head_stack(lane)->0, route) == (Outputs {
                    priority: lanes_of(priority_outputs@),
                    rr: lanes_of(rr_outputs@),
                    rr_index: self.output_index(),
                }),
                !moved ==> belt@.lane() == lane && out == (Outputs {
                    priority: lanes_of(priority_outputs@),
                    rr: lanes_of(rr_outputs@),
                    rr_index: self.output_index(),
                }),
            decreases
                    (if moved {
                        0int
                    } else {
                        1int
                    }),
        {
            let stack = match belt.peek_front_stack() {
                Some(stack) => stack,
                None => {
                    break ;
                },
            };
            proof {
                assert forall|j: int| 0 <= j < priority_outputs@.len() implies #[trigger] lanes_of(
                    priority_outputs@,
                )[j].wf() by {
                    assert(priority_outputs@[j].wf());
                }
                assert forall|j: int| 0 <= j < rr_outputs@.len() implies #[trigger] lanes_of(
                    rr_outputs@,
                )[j].wf() by {
                    assert(rr_outputs@[j].wf());
                }
                lemma_routed(out, stack, route);
            }
            let ghost was_priority = priority_outputs@;
            let ghost was_rr = rr_outputs@;
            let assigned = self.try_assign(&stack, route, priority_outputs, rr_outputs);
            proof {
                lemma_same_belts(priority_outputs@, was_priority, old(priority_outputs)@);
                lemma_same_belts(rr_outputs@, was_rr, old(rr_outputs)@);
            }
            if !assigned {
                break ;
            }
            let _ = belt.remove_item();
            moved = true;
        }
        moved
    }

    /// One sweep over the input belts: each offers the stack at its head,
    /// one after the other, beginning with the belt `start` and going round.
    /// Returns whether a stack was moved. After the sweep no input can hand
    /// a stack to an output.
    fn sweep(
        &mut self,
        inputs: &mut [Belt],
        route: Route,
        start: usize,
        priority_outputs: &mut [Belt],
        rr_outputs: &mut [Belt],
    ) -> (progress: bool)
        requires
            belts_wf(old(inputs)@),
            belts_wf(old(priority_outputs)@),
            belts_wf(old(rr_outputs)@),
            start < old(inputs)@.len() || (old(inputs)@.len() == 0 && start == 0),
            old(self).output_index() < old(rr_outputs)@.len() || (old(rr_outputs)@.len() == 0
                && old(self).output_index() == 0),
        ensures
            belts_wf(final(inputs)@),
            belts_wf(final(priority_outputs)@),
            belts_wf(final(rr_outputs)@),
            same_belts(final(inputs)@, old(inputs)@),
            same_belts(final(priority_outputs)@, old(priority_outputs)@),
            same_belts(final(rr_outputs)@, old(rr_outputs)@),
            final(self).input_index() == old(self).input_index(),
            final(self).output_index() < old(rr_outputs)@.len() || (old(rr_outputs)@.len() == 0
                && final(self).output_index() == 0),
            ({
                let before = Swept {
                    inputs: lanes_of(old(inputs)@),
                    outputs: Outputs {
                        priority: lanes_of(old(priority_outputs)@),
                        rr: lanes_of(old(rr_outputs)@),
                        rr_index: old(self).output_index(),
                    },
                };
                let after = Swept {
                    inputs: lanes_of(final(inputs)@),
                    outputs: Outputs {
                        priority: lanes_of(final(priority_outputs)@),
                        rr: lanes_of(final(rr_outputs)@),
                        rr_index: final(self).output_index(),
                    },
                };
                &&& after == swept_from(before, route, start as int, 0)
                &&& settled(after, route)
                &&& progress ==> !settled(before, route)
                &&& !progress ==> after == before
                &&& lanes_items(after.inputs) + lanes_items(after.outputs.priority) + lanes_items(
                    after.outputs.rr,
                ) == lanes_items(before.inputs) + lanes_items(before.outputs.priority)
                    + lanes_items(before.outputs.rr)
            }),
    {
        let len: usize = inputs.len();
        let ghost before = Swept {
            inputs: lanes_of(inputs@),
            outputs: Outputs {
                priority: lanes_of(priority_outputs@),
                rr: lanes_of(rr_outputs@),
                rr_index: self.output_index(),
            },
        };
        let ghost target = swept_from(before, route, start as int, 0);
        let mut progress: bool = false;
        let mut k: usize = 0;
        while k < len
            invariant
                k <= len,
                len == inputs@.len(),
                len == old(inputs)@.len(),
                start < len || (len == 0 && start == 0),
                belts_wf(inputs@),
                belts_wf(priority_outputs@),
                belts_wf(rr_outputs@),
                same_belts(inputs@, old(inputs)@),
                same_belts(priority_outputs@, old(priority_outputs)@),
                same_belts(rr_outputs@, old(rr_outputs)@),
                self.input_rr_index == old(self).input_rr_index,
                self.output_index() < old(rr_outputs)@.len() || (old(rr_outputs)@.len() == 0
                    && self.output_index() == 0),
                before == (Swept {
                    inputs: lanes_of(old(inputs)@),
                    outputs: Outputs {
                        priority: lanes_of(old(priority_outputs)@),
                        rr: lanes_of(old(rr_outputs)@),
                        rr_index: old(self).output_index(),
                    },
                }),
                target == swept_from(before, route, start as int, 0),
                ({
                    let cur = Swept {
                        inputs: lanes_of(inputs@),
                        outputs: Outputs {
                            priority: lanes_of(priority_outputs@),
                            rr: lanes_of(rr_outputs@),
                            rr_index: self.output_index(),
                        },
                    };
                    &&& swept_from(cur, route, start as int, k as int) == target
                    &&& forall|j: int|
                        0 <= j < k ==> (#[trigger] head_stack(
                            cur.inputs[wrap(start + j, len as int)],
                        )) is None || !routable(cur.outputs, route)
                    &&& progress ==> !settled(before, route)
                    &&& !progress ==> cur == before
                    &&& lanes_items(cur.inputs) + lanes_items(cur.outputs.priority) + lanes_items(
                        cur.outputs.rr,
                    ) == lanes_items(before.inputs) + lanes_items(before.outputs.priority)
                        + lanes_items(before.outputs.rr)
                }),
            decreases len - k,
        {
            let idx: usize = if k < len - start {
                start + k
            } else {
                k - (len - start)
            };
            let ghost was = inputs@;
            let ghost cur = Swept {
                inputs: lanes_of(inputs@),
                outputs: Outputs {
                    priority: lanes_of(priority_outputs@),
                    rr: lanes_of(rr_outputs@),
                    rr_index: self.output_index(),
                },
            };
            proof {
                assert(idx == wrap(start + k, len as int));
                assert(was[idx as int].wf());
                assert(cur.inputs[idx as int] == was[idx as int]@.lane());
                assert forall|j: int| 0 <= j < priority_outputs@.len() implies #[trigger] lanes_of(
                    priority_outputs@,
                )[j].wf() by {
                    assert(priority_outputs@[j].wf());
                }
                assert forall|j: int| 0 <= j < rr_outputs@.len() implies #[trigger] lanes_of(
                    rr_outputs@,
                )[j].wf() by {
                    assert(rr_outputs@[j].wf());
                }
                if head_stack(cur.inputs[idx as int]) is Some {
                    lemma_routed(cur.outputs, head_stack(cur.inputs[idx as int])->0, route);
                    lemma_lifted(cur.inputs[idx as int]);
                    lemma_lanes_items_update(
                        cur.inputs,
                        idx as int,
                        cur.inputs[idx as int].lifted(),
                    );
                }
            }
            let ghost was_priority = priority_outputs@;
            let ghost was_rr = rr_outputs@;
            let moved = self.offer_head(&mut inputs[idx], route, priority_outputs, rr_outputs);
            proof {
                assert forall|j: int| 0 <= j < inputs@.len() implies #[trigger] inputs@[j].wf() by {
                    if j != idx {
                        assert(inputs@[j] == was[j]);
                        assert(was[j].wf());
                    }
                }
                assert forall|j: int| 0 <= j < inputs@.len() implies #[trigger] inputs@[j]@.same_frame(
                old(inputs)@[j]@) by {
                    assert(was[j]@.same_frame(old(inputs)@[j]@));
                    if j != idx {
                        assert(inputs@[j] == was[j]);
                    }
                }
                lemma_same_belts(priority_outputs@, was_priority, old(priority_outputs)@);
                lemma_same_belts(rr_outputs@, was_rr, old(rr_outputs)@);
                let next = Swept {
                    inputs: lanes_of(inputs@),
                    outputs: Outputs {
                        priority: lanes_of(priority_outputs@),
                        rr: lanes_of(rr_outputs@),
                        rr_index: self.output_index(),
                    },
                };
                if moved {
                    assert(next.inputs =~= cur.inputs.update(
                        idx as int,
                        cur.inputs[idx as int].lifted(),
                    ));
                    if !progress {
                        assert(head_stack(before.inputs[idx as int]) is Some);
                    }
                } else {
                    assert(next.inputs =~= cur.inputs);
                }
                assert(next == offered(cur, idx as int, route));
                assert forall|j: int| 0 <= j < k + 1 implies (#[trigger] head_stack(
                    next.inputs[wrap(start + j, len as int)],
                )) is None || !routable(next.outputs, route) by {
                    if j < k {
                        assert(head_stack(cur.inputs[wrap(start + j, len as int)]) is None
                            || !routable(cur.outputs, route));
                    }
                }
            }
            if moved {
                progress = true;
            }
            k += 1;
        }
        proof {
            let after = Swept {
                inputs: lanes_of(inputs@),
                outputs: Outputs {
                    priority: lanes_of(priority_outputs@),
                    rr: lanes_of(rr_outputs@),
                    rr_index: self.output_index(),
                },
            };
            assert forall|i: int| 0 <= i < after.inputs.len() implies (#[trigger] head_stack(
                after.inputs[i],
            )) is None || !routable(after.outputs, route) by {
                let j = pos_of(i, start as int, len as int);
                assert(wrap(start + j, len as int) == i);
                assert(head_stack(after.inputs[wrap(start + j, len as int)]) is None || !routable(
                    after.outputs,
                    route,
                ));
            }
        }
        progress
    }

    /// Sweeps over the input belts until a whole sweep moves no stack.
    fn sweep_until_settled(
        &mut self,
        inputs: &mut [Belt],
        route: Route,
        start: usize,
        priority_outputs: &mut [Belt],
        rr_outputs: &mut [Belt],
    )
        requires
            belts_wf(old(inputs)@),
            belts_wf(old(priority_outputs)@),
            belts_wf(old(rr_outputs)@),
            start < old(inputs)@.len() || (old(inputs)@.len() == 0 && start == 0),
            old(self).output_index() < old(rr_outputs)@.len() || (old(rr_outputs)@.len() == 0
                && old(self).output_index() == 0),
        ensures
            belts_wf(final(inputs)@),
            belts_wf(final(priority_outputs)@),
            belts_wf(final(rr_outputs)@),
            same_belts(final(inputs)@, old(inputs)@),
            same_belts(final(priority_outputs)@, old(priority_outputs)@),
            same_belts(final(rr_outputs)@, old(rr_outputs)@),
            final(self).input_index() == old(self).input_index(),
            final(self).output_index() < old(rr_outputs)@.len() || (old(rr_outputs)@.len() == 0
                && final(self).output_index() == 0),
            ({
                let before = Swept {
                    inputs: lanes_of(old(inputs)@),
                    outputs: Outputs {
                        priority: lanes_of(old(priority_outputs)@),
                        rr: lanes_of(old(rr_outputs)@),
                        rr_index: old(self).output_index(),
                    },
                };
                let after = Swept {
                    inputs: lanes_of(final(inputs)@),
                    outputs: Outputs {
                        priority: lanes_of(final(priority_outputs)@),
                        rr: lanes_of(final(rr_outputs)@),
                        rr_index: final(self).output_index(),
                    },
                };
                &&& after == swept_from(before, route, start as int, 0)
                &&& lanes_items(after.inputs) + lanes_items(after.outputs.priority) + lanes_items(
                    after.outputs.rr,
                ) == lanes_items(before.inputs) + lanes_items(before.outputs.priority)
                    + lanes_items(before.outputs.rr)
            }),
    {
        let ghost before = Swept {
            inputs: lanes_of(inputs@),
            outputs: Outputs {
                priority: lanes_of(priority_outputs@),
                rr: lanes_of(rr_outputs@),
                rr_index: self.output_index(),
            },
        };
        let ghost target = swept_from(before, route, start as int, 0);
        let ghost mut swept_once: bool = false;
        let mut progress: bool = true;
        while progress
            invariant
                belts_wf(inputs@),
                belts_wf(priority_outputs@),
                belts_wf(rr_outputs@),
                same_belts(inputs@, old(inputs)@),
                same_belts(priority_outputs@, old(priority_outputs)@),
                same_belts(rr_outputs@, old(rr_outputs)@),
                start < inputs@.len() || (inputs@.len() == 0 && start == 0),
                self.input_rr_index == old(self).input_rr_index,
                self.output_index() < old(rr_outputs)@.len() || (old(rr_outputs)@.len() == 0
                    && self.output_index() == 0),
                before == (Swept {
                    inputs: lanes_of(old(inputs)@),
                    outputs: Outputs {
                        priority: lanes_of(old(priority_outputs)@),
                        rr: lanes_of(old(rr_outputs)@),
                        rr_index: old(self).output_index(),
                    },
                }),
                target == swept_from(before, route, start as int, 0),
                !swept_once ==> progress,
                ({
                    let cur = Swept {
                        inputs: lanes_of(inputs@),
                        outputs: Outputs {
                            priority: lanes_of(priority_outputs@),
                            rr: lanes_of(rr_outputs@),
                            rr_index: self.output_index(),
                        },
                    };
                    &&& !swept_once ==> cur == before
                    &&& swept_once ==> cur == target && settled(cur, route)
                    &&& lanes_items(cur.inputs) + lanes_items(cur.outputs.priority) + lanes_items(
                        cur.outputs.rr,
                    ) == lanes_items(before.inputs) + lanes_items(before.outputs.priority)
                        + lanes_items(before.outputs.rr)
                }),
            decreases
                    (if swept_once {
                        0int
                    } else {
                        2int
                    }) + (if progress {
                        1int
                    } else {
                        0int
                    }),
        {
            let ghost was = inputs@;
            let ghost was_priority = priority_outputs@;
            let ghost was_rr = rr_outputs@;
            let ghost cur = Swept {
                inputs: lanes_of(inputs@),
                outputs: Outputs {
                    priority: lanes_of(priority_outputs@),
                    rr: lanes_of(rr_outputs@),
                    rr_index: self.output_index(),
                },
            };
            progress = self.sweep(inputs, route, start, priority_outputs, rr_outputs);
            proof {
                lemma_same_belts(inputs@, was, old(inputs)@);
                lemma_same_belts(priority_outputs@, was_priority, old(priority_outputs)@);
                lemma_same_belts(rr_outputs@, was_rr, old(rr_outputs)@);
                if swept_once {
                    lemma_settled(cur, route, start as int, 0);
                }
                swept_once = true;
            }
        }
    }

    /// The priority inputs offer their head stacks to the priority outputs
    /// and, failing those, to the round-robin outputs.
    fn drain_priority_inputs(
        &mut self,
        priority_inputs: &mut [Belt],
        priority_outputs: &mut [Belt],
        rr_outputs: &mut [Belt],
    )
        requires
            belts_wf(old(priority_inputs)@),
            belts_wf(old(priority_outputs)@),
            belts_wf(old(rr_outputs)@),
            old(self).output_index() < old(rr_outputs)@.len() || (old(rr_outputs)@.len() == 0
                && old(self).output_index() == 0),
        ensures
            belts_wf(final(priority_inputs)@),
            belts_wf(final(priority_outputs)@),
            belts_wf(final(rr_outputs)@),
            same_belts(final(priority_inputs)@, old(priority_inputs)@),
            same_belts(final(priority_outputs)@, old(priority_outputs)@),
            same_belts(final(rr_outputs)@, old(rr_outputs)@),
            final(self).input_index() == old(self).input_index(),
            final(self).output_index() < old(rr_outputs)@.len() || (old(rr_outputs)@.len() == 0
                && final(self).output_index() == 0),
            ({
                let before = Swept {
                    inputs: lanes_of(old(priority_inputs)@),
                    outputs: Outputs {
                        priority: lanes_of(old(priority_outputs)@),
                        rr: lanes_of(old(rr_outputs)@),
                        rr_index: old(self).output_index(),
                    },
                };
                let after = Swept {
                    inputs: lanes_of(final(priority_inputs)@),
                    outputs: Outputs {
                        priority: lanes_of(final(priority_outputs)@),
                        rr: lanes_of(final(rr_outputs)@),
                        rr_index: final(self).output_index(),
                    },
                };
                &&& after == swept_from(before, Route::Any, 0, 0)
                &&& lanes_items(after.inputs) + lanes_items(after.outputs.priority) + lanes_items(
                    after.outputs.rr,
                ) == lanes_items(before.inputs) + lanes_items(before.outputs.priority)
                    + lanes_items(before.outputs.rr)
            }),
    {
        let _ = self.sweep(priority_inputs, Route::Any, 0, priority_outputs, rr_outputs);
    }

    /// The round-robin inputs offer their head stacks to the priority
    /// outputs, sweep after sweep, until a sweep moves nothing.
    fn drain_rr_inputs_to_priority(
        &mut self,
        rr_inputs: &mut [Belt],
        priority_outputs: &mut [Belt],
        rr_outputs: &mut [Belt],
    )
        requires
            belts_wf(old(rr_inputs)@),
            belts_wf(old(priority_outputs)@),
            belts_wf(old(rr_outputs)@),
            old(self).output_index() < old(rr_outputs)@.len() || (old(rr_outputs)@.len() == 0
                && old(self).output_index() == 0),
        ensures
            belts_wf(final(rr_inputs)@),
            belts_wf(final(priority_outputs)@),
            belts_wf(final(rr_outputs)@),
            same_belts(final(rr_inputs)@, old(rr_inputs)@),
            same_belts(final(priority_outputs)@, old(priority_outputs)@),
            same_belts(final(rr_outputs)@, old(rr_outputs)@),
            final(self).input_index() == old(self).input_index(),
            final(self).output_index() < old(rr_outputs)@.len() || (old(rr_outputs)@.len() == 0
                && final(self).output_index() == 0),
            ({
                let before = Swept {
                    inputs: lanes_of(old(rr_inputs)@),
                    outputs: Outputs {
                        priority: lanes_of(old(priority_outputs)@),
                        rr: lanes_of(old(rr_outputs)@),
                        rr_index: old(self).output_index(),
                    },
                };
                let after = Swept {
                    inputs: lanes_of(final(rr_inputs)@),
                    outputs: Outputs {
                        priority: lanes_of(final(priority_outputs)@),
                        rr: lanes_of(final(rr_outputs)@),
                        rr_index: final(self).output_index(),
                    },
                };
                &&& after == swept_from(before, Route::Priority, 0, 0)
                &&& lanes_items(after.inputs) + lanes_items(after.outputs.priority) + lanes_items(
                    after.outputs.rr,
                ) == lanes_items(before.inputs) + lanes_items(before.outputs.priority)
                    + lanes_items(before.outputs.rr)
            }),
    {
        if priority_outputs.len() == 0 {
            proof {
                let before = Swept {
                    inputs: lanes_of(rr_inputs@),
                    outputs: Outputs {
                        priority: lanes_of(priority_outputs@),
                        rr: lanes_of(rr_outputs@),
                        rr_index: self.output_index(),
                    },
                };
                assert(!routable(before.outputs, Route::Priority));
                lemma_settled(before, Route::Priority, 0, 0);
                lemma_same_belts_refl(rr_inputs@);
                lemma_same_belts_refl(rr_outputs@);
            }
            return ;
        }
        self.sweep_until_settled(rr_inputs, Route::Priority, 0, priority_outputs, rr_outputs);
    }

    /// The round-robin inputs offer their head stacks to the round-robin
    /// outputs, from the input cursor on, sweep after sweep, until a sweep
    /// moves nothing.
    fn drain_rr_inputs_to_rr(
        &mut self,
        rr_inputs: &mut [Belt],
        priority_outputs: &mut [Belt],
        rr_outputs: &mut [Belt],
    )
        requires
            belts_wf(old(rr_inputs)@),
            belts_wf(old(priority_outputs)@),
            belts_wf(old(rr_outputs)@),
            old(self).input_index() < old(rr_inputs)@.len() || (old(rr_inputs)@.len() == 0 && old(self).input_index() == 0),
            old(self).output_index() < old(rr_outputs)@.len() || (old(rr_outputs)@.len() == 0
                && old(self).output_index() == 0),
        ensures
            belts_wf(final(rr_inputs)@),
            belts_wf(final(priority_outputs)@),
            belts_wf(final(rr_outputs)@),
            same_belts(final(rr_inputs)@, old(rr_inputs)@),
            same_belts(final(priority_outputs)@, old(priority_outputs)@),
            same_belts(final(rr_outputs)@, old(rr_outputs)@),
            final(self).input_index() == old(self).input_index(),
            final(self).output_index() < old(rr_outputs)@.len() || (old(rr_outputs)@.len() == 0
                && final(self).output_index() == 0),
            ({
                let before = Swept {
                    inputs: lanes_of(old(rr_inputs)@),
                    outputs: Outputs {
                        priority: lanes_of(old(priority_outputs)@),
                        rr: lanes_of(old(rr_outputs)@),
                        rr_index: old(self).output_index(),
                    },
                };
                let after = Swept {
                    inputs: lanes_of(final(rr_inputs)@),
                    outputs: Outputs {
                        priority: lanes_of(final(priority_outputs)@),
                        rr: lanes_of(final(rr_outputs)@),
                        rr_index: final(self).output_index(),
                    },
                };
                &&& after == swept_from(before, Route::RoundRobin, old(self).input_index(), 0)
                &&& lanes_items(after.inputs) + lanes_items(after.outputs.priority) + lanes_items(
                    after.outputs.rr,
                ) == lanes_items(before.inputs) + lanes_items(before.outputs.priority)
                    + lanes_items(before.outputs.rr)
            }),
    {
        if rr_inputs.len() == 0 || rr_outputs.len() == 0 {
            proof {
                let before = Swept {
                    inputs: lanes_of(rr_inputs@),
                    outputs: Outputs {
                        priority: lanes_of(priority_outputs@),
                        rr: lanes_of(rr_outputs@),
                        rr_index: self.output_index(),
                    },
                };
                if rr_outputs@.len() == 0 {
                    assert(!routable(before.outputs, Route::RoundRobin));
                }
                lemma_settled(before, Route::RoundRobin, self.input_index(), 0);
                lemma_same_belts_refl(rr_inputs@);
                lemma_same_belts_refl(priority_outputs@);
                lemma_same_belts_refl(rr_outputs@);
            }
            return ;
        }
        let start: usize = self.input_rr_index;
        self.sweep_until_settled(rr_inputs, Route::RoundRobin, start, priority_outputs, rr_outputs);
    }

    /// One tick of the splitter. Only the ends of the belts are touched:
    /// single stacks are lifted off the heads of the input belts and put at
    /// the tails of the output belts. The priority inputs are served first
    /// and fill the priority outputs before the round-robin outputs; the
    /// round-robin inputs then fill the priority outputs, and last the
    /// round-robin outputs. No item is lost or made.
    pub fn run(
        &mut self,
        priority_inputs: &mut [Belt],
        rr_inputs: &mut [Belt],
        priority_outputs: &mut [Belt],
        rr_outputs: &mut [Belt],
    )
        requires
            belts_wf(old(priority_inputs)@),
            belts_wf(old(rr_inputs)@),
            belts_wf(old(priority_outputs)@),
            belts_wf(old(rr_outputs)@),
        ensures
            belts_wf(final(priority_inputs)@),
            belts_wf(final(rr_inputs)@),
            belts_wf(final(priority_outputs)@),
            belts_wf(final(rr_outputs)@),
            same_belts(final(priority_inputs)@, old(priority_inputs)@),
            same_belts(final(rr_inputs)@, old(rr_inputs)@),
            same_belts(final(priority_outputs)@, old(priority_outputs)@),
            same_belts(final(rr_outputs)@, old(rr_outputs)@),
            sorted(
                lanes_of(old(priority_inputs)@),
                lanes_of(old(rr_inputs)@),
                lanes_of(old(priority_outputs)@),
                lanes_of(old(rr_outputs)@),
                old(self).input_index(),
                old(self).output_index(),
            ) == (Sorted {
                priority_inputs: lanes_of(final(priority_inputs)@),
                rr_inputs: lanes_of(final(rr_inputs)@),
                priority_outputs: lanes_of(final(priority_outputs)@),
                rr_outputs: lanes_of(final(rr_outputs)@),
                input_rr_index: final(self).input_index(),
                output_rr_index: final(self).output_index(),
            }),
            lanes_items(lanes_of(final(priority_inputs)@)) + lanes_items(
                lanes_of(final(rr_inputs)@),
            ) + lanes_items(lanes_of(final(priority_outputs)@)) + lanes_items(
                lanes_of(final(rr_outputs)@),
            ) == lanes_items(lanes_of(old(priority_inputs)@)) + lanes_items(
                lanes_of(old(rr_inputs)@),
            ) + lanes_items(lanes_of(old(priority_outputs)@)) + lanes_items(
                lanes_of(old(rr_outputs)@),
            ),
            ({
                let out = Outputs {
                    priority: lanes_of(final(priority_outputs)@),
                    rr: lanes_of(final(rr_outputs)@),
                    rr_index: final(self).output_index(),
                };
                &&& settled(
                    Swept { inputs: lanes_of(final(priority_inputs)@), outputs: out },
                    Route::Any,
                )
                &&& settled(Swept { inputs: lanes_of(final(rr_inputs)@), outputs: out }, Route::Any)
            }),
    {
        proof {
            lemma_sorted_settled(
                lanes_of(priority_inputs@),
                lanes_of(rr_inputs@),
                lanes_of(priority_outputs@),
                lanes_of(rr_outputs@),
                self.input_index(),
                self.output_index(),
            );
        }
        if rr_inputs.len() == 0 {
            self.input_rr_index = 0;
        } else if self.input_rr_index >= rr_inputs.len() {
            self.input_rr_index %= rr_inputs.len();
        }
        if rr_outputs.len() == 0 {
            self.output_rr_index = 0;
        } else if self.output_rr_index >= rr_outputs.len() {
            self.output_rr_index %= rr_outputs.len();
        }
        proof {
            if rr_inputs@.len() > 0 && old(self).input_rr_index < rr_inputs@.len() {
                vstd::arithmetic::div_mod::lemma_small_mod(
                    old(self).input_rr_index as nat,
                    rr_inputs@.len(),
                );
            }
            if rr_outputs@.len() > 0 && old(self).output_rr_index < rr_outputs@.len() {
                vstd::arithmetic::div_mod::lemma_small_mod(
                    old(self).output_rr_index as nat,
                    rr_outputs@.len(),
                );
            }
        }
        self.drain_priority_inputs(priority_inputs, priority_outputs, rr_outputs);
        let ghost mid_priority = priority_outputs@;
        let ghost mid_rr = rr_outputs@;
        self.drain_rr_inputs_to_priority(rr_inputs, priority_outputs, rr_outputs);
        let ghost late_inputs = rr_inputs@;
        let ghost late_priority = priority_outputs@;
        let ghost late_rr = rr_outputs@;
        self.drain_rr_inputs_to_rr(rr_inputs, priority_outputs, rr_outputs);
        proof {
            lemma_same_belts(rr_inputs@, late_inputs, old(rr_inputs)@);
            lemma_same_belts(late_priority, mid_priority, old(priority_outputs)@);
            lemma_same_belts(priority_outputs@, late_priority, old(priority_outputs)@);
            lemma_same_belts(late_rr, mid_rr, old(rr_outputs)@);
            lemma_same_belts(rr_outputs@, late_rr, old(rr_outputs)@);
        }
    }
}

} // verus!
