use crate::logistics::belt_connection::{batch_of, ConnectionView, OutputBatch};
use crate::logistics::stack::Stack;
use crate::types::{ItemType, ITEM_WIDTH};
use vstd::prelude::*;

verus! {

/// One record on a lane: `copies` identical stacks lying edge to edge, and
/// the free distance from the last of them to the next record. The last
/// record of a lane has no distance.
pub struct Slot {
    pub item_type: ItemType,
    pub item_count: u16,
    pub copies: nat,
    pub gap: Option<nat>,
}

impl Slot {
    /// The free distance behind the record, none counting as zero.
    pub open spec fn gap_len(self) -> nat {
        match self.gap {
            Some(g) => g,
            None => 0,
        }
    }

    /// Length of lane that the record takes up, the distance behind it
    /// included.
    pub open spec fn extent(self) -> nat {
        self.copies * (ITEM_WIDTH as nat) + self.gap_len()
    }

    /// Items that the record carries.
    pub open spec fn items(self) -> nat {
        (self.item_count as nat) * self.copies
    }

    /// Stack equality: same type and same size.
    pub open spec fn same_kind(self, other: Slot) -> bool {
        self.item_type == other.item_type && self.item_count == other.item_count
    }

    /// The record's stacks are directly followed by the next record's.
    pub open spec fn touches_next(self) -> bool {
        self.gap == Some(0nat)
    }

    /// `n` of the record's stacks as one stack record.
    pub open spec fn stack_of(self, n: nat) -> Stack {
        Stack { item_type: self.item_type, item_count: self.item_count, multiplicity: n as u32 }
    }

    /// The record with another number of stacks.
    pub open spec fn with_copies(self, copies: nat) -> Slot {
        Slot { copies, ..self }
    }

    /// The record with another distance behind it.
    pub open spec fn with_gap(self, gap: Option<nat>) -> Slot {
        Slot { gap, ..self }
    }
}

/// The record that a stack makes when it is placed on a lane.
pub open spec fn slot_of(stack: Stack, gap: Option<nat>) -> Slot {
    Slot {
        item_type: stack.item_type,
        item_count: stack.item_count,
        copies: stack.multiplicity as nat,
        gap,
    }
}

/// Sum of the extents of all records.
pub open spec fn span(slots: Seq<Slot>) -> nat
    decreases slots.len(),
{
    if slots.len() == 0 {
        0
    } else {
        span(slots.drop_last()) + slots.last().extent()
    }
}

/// Number of stacks on the lane.
pub open spec fn stack_total(slots: Seq<Slot>) -> nat
    decreases slots.len(),
{
    if slots.len() == 0 {
        0
    } else {
        stack_total(slots.drop_last()) + slots.last().copies
    }
}

/// Number of items on the lane.
pub open spec fn item_total(slots: Seq<Slot>) -> nat
    decreases slots.len(),
{
    if slots.len() == 0 {
        0
    } else {
        item_total(slots.drop_last()) + slots.last().items()
    }
}

/// The three sums of a lane split where the lane is cut in two.
pub proof fn lemma_totals_concat(a: Seq<Slot>, b: Seq<Slot>)
    ensures
        span(a + b) == span(a) + span(b),
        stack_total(a + b) == stack_total(a) + stack_total(b),
        item_total(a + b) == item_total(a) + item_total(b),
    decreases b.len(),
{
    if b.len() == 0 {
        assert(a + b =~= a);
    } else {
        assert((a + b).drop_last() =~= a + b.drop_last());
        assert((a + b).last() == b.last());
        lemma_totals_concat(a, b.drop_last());
    }
}

/// The three sums of a lane with a single record.
pub proof fn lemma_totals_single(s: Slot)
    ensures
        span(seq![s]) == s.extent(),
        stack_total(seq![s]) == s.copies,
        item_total(seq![s]) == s.items(),
{
    assert(seq![s].drop_last() =~= Seq::<Slot>::empty());
    assert(seq![s].last() == s);
    assert(span(seq![s].drop_last()) == 0);
    assert(stack_total(seq![s].drop_last()) == 0);
    assert(item_total(seq![s].drop_last()) == 0);
}

/// A lane cut around one of its records.
pub proof fn lemma_split_at(slots: Seq<Slot>, i: int)
    requires
        0 <= i < slots.len(),
    ensures
        slots =~= slots.subrange(0, i) + seq![slots[i]] + slots.subrange(i + 1, slots.len() as int),
        span(slots) == span(slots.subrange(0, i)) + slots[i].extent() + span(
            slots.subrange(i + 1, slots.len() as int),
        ),
        stack_total(slots) == stack_total(slots.subrange(0, i)) + slots[i].copies + stack_total(
            slots.subrange(i + 1, slots.len() as int),
        ),
        item_total(slots) == item_total(slots.subrange(0, i)) + slots[i].items() + item_total(
            slots.subrange(i + 1, slots.len() as int),
        ),
{
    let a = slots.subrange(0, i);
    let b = slots.subrange(i + 1, slots.len() as int);
    assert(slots =~= a + seq![slots[i]] + b);
    lemma_totals_single(slots[i]);
    lemma_totals_concat(a, seq![slots[i]]);
    lemma_totals_concat(a + seq![slots[i]], b);
}

/// A lane of stacks: its length, the free space before the first record and
/// behind the last one, and the records from head to tail.
pub struct Lane {
    pub length: nat,
    pub front: nat,
    pub back: nat,
    pub slots: Seq<Slot>,
}

/// Every record stands for at least one stack, every record but the last
/// has a distance to the next one, and the last has none.
pub open spec fn chained(slots: Seq<Slot>) -> bool {
    forall|i: int|
        0 <= i < slots.len() ==> {
            &&& (#[trigger] slots[i]).copies >= 1
            &&& (slots[i].gap is None <==> i == slots.len() - 1)
        }
}

/// Record `i` and the next one are not stack-equal records that touch.
pub open spec fn apart(slots: Seq<Slot>, i: int) -> bool {
    !(slots[i].touches_next() && slots[i].same_kind(slots[i + 1]))
}

/// No two neighbours are stack-equal and touch: such records are one record.
pub open spec fn fused(slots: Seq<Slot>) -> bool {
    forall|i: int| 0 <= i < slots.len() - 1 ==> #[trigger] apart(slots, i)
}

impl Lane {
    /// The space on the lane adds up: an empty lane has its whole length
    /// free at either end, and on any other the free ends and the records
    /// fill the length exactly.
    pub open spec fn balanced(self) -> bool {
        if self.slots.len() == 0 {
            self.front == self.length && self.back == self.length
        } else {
            self.front + span(self.slots) + self.back == self.length
        }
    }

    /// The records are chained and the space adds up.
    pub open spec fn wf(self) -> bool {
        chained(self.slots) && self.balanced()
    }

    /// The lane after its records moved `d` toward the head, `d` being no
    /// more than the free space there.
    pub open spec fn shifted(self, d: nat) -> Lane {
        Lane { front: (self.front - d) as nat, back: self.back + d, ..self }
    }

    /// The lane after `n` stacks of the head record left it while the lane
    /// moved by their width. The record goes with its last stack, and the
    /// distance behind it becomes the free space at the head.
    pub open spec fn pulled(self, n: nat) -> Lane {
        let head = self.slots[0];
        if n < head.copies {
            Lane {
                back: self.back + n * (ITEM_WIDTH as nat),
                slots: self.slots.update(0, head.with_copies((head.copies - n) as nat)),
                ..self
            }
        } else if self.slots.len() == 1 {
            Lane { front: self.length, back: self.length, slots: Seq::empty(), ..self }
        } else {
            Lane {
                front: head.gap_len(),
                back: self.back + n * (ITEM_WIDTH as nat),
                slots: self.slots.subrange(1, self.slots.len() as int),
                ..self
            }
        }
    }

    /// The lane after one stack was lifted off the head record while the
    /// lane stood still: the vacated slot is free space at the head.
    pub open spec fn lifted(self) -> Lane {
        let head = self.slots[0];
        if head.copies > 1 {
            Lane {
                front: ITEM_WIDTH as nat,
                slots: self.slots.update(0, head.with_copies((head.copies - 1) as nat)),
                ..self
            }
        } else if self.slots.len() == 1 {
            Lane { front: self.length, back: self.length, slots: Seq::empty(), ..self }
        } else {
            Lane {
                front: (ITEM_WIDTH as nat) + head.gap_len(),
                slots: self.slots.subrange(1, self.slots.len() as int),
                ..self
            }
        }
    }

    /// A stack can be placed at the tail: it is a single stack and a slot
    /// is free there.
    pub open spec fn can_place(self, stack: Stack) -> bool {
        stack.multiplicity == 1 && self.back >= ITEM_WIDTH
    }

    /// The lane after a stack was placed at its very end. A stack that
    /// comes to lie against an equal one joins its record.
    pub open spec fn placed(self, stack: Stack) -> Lane {
        if self.slots.len() == 0 {
            Lane {
                front: (self.front - ITEM_WIDTH) as nat,
                back: 0,
                slots: seq![slot_of(stack, None)],
                ..self
            }
        } else {
            let tail = self.slots.last();
            let spacing = (self.back - ITEM_WIDTH) as nat;
            if spacing == 0 && tail.same_kind(slot_of(stack, None)) {
                Lane {
                    back: 0,
                    slots: self.slots.update(
                        self.slots.len() - 1,
                        tail.with_copies(tail.copies + 1),
                    ),
                    ..self
                }
            } else {
                Lane {
                    back: 0,
                    slots: self.slots.update(
                        self.slots.len() - 1,
                        tail.with_gap(Some(spacing)),
                    ).push(slot_of(stack, None)),
                    ..self
                }
            }
        }
    }

    /// The lane after it moved by `d` with nothing leaving it: the free
    /// space at the head closes first, then the distances between the
    /// groups, from the head on. Distance left when all is packed is lost.
    pub open spec fn advanced(self, d: nat) -> Lane {
        if d == 0 || self.slots.len() == 0 {
            self
        } else if d <= self.front {
            self.shifted(d)
        } else {
            self.shifted(self.front).compacted((d - self.front) as nat)
        }
    }

    /// A lane whose head record is at the head, after it moved by `d`: the
    /// head group stays, and the groups behind close up to it one by one.
    pub open spec fn compacted(self, d: nat) -> Lane
        decreases d,
    {
        if d == 0 || self.slots.len() == 0 {
            self
        } else {
            let t = first_tail(self.slots, 0);
            match self.slots[t].gap {
                None => self,
                Some(g) => {
                    if g == 0 || t + 1 >= self.slots.len() {
                        self
                    } else if g > d {
                        Lane {
                            back: self.back + d,
                            slots: self.slots.update(
                                t,
                                self.slots[t].with_gap(Some((g - d) as nat)),
                            ),
                            ..self
                        }
                    } else {
                        Lane {
                            back: self.back + g,
                            slots: joined(self.slots, t),
                            ..self
                        }.compacted((d - g) as nat)
                    }
                },
            }
        }
    }

    /// The lane after a stack from a connection was put behind its last
    /// record, touching it, or at the head of an empty lane. The free space
    /// at the tail is not touched here.
    pub open spec fn appended(self, stack: Stack) -> Lane {
        if self.slots.len() == 0 {
            Lane { front: 0, slots: seq![slot_of(stack, None)], ..self }
        } else {
            Lane {
                slots: self.slots.update(
                    self.slots.len() - 1,
                    self.slots.last().with_gap(Some(0nat)),
                ).push(slot_of(stack, None)),
                ..self
            }
        }
    }

    /// The lane after a batch was put at its tail: the full stacks, then
    /// the smaller one, each in a slot of the free space there.
    pub open spec fn with_batch(self, batch: OutputBatch) -> Lane {
        let a = match batch.full_stack {
            Some(s) => self.appended(s),
            None => self,
        };
        let b = match batch.partial_stack {
            Some(s) => a.appended(s),
            None => a,
        };
        Lane { back: (self.back - batch.slots() * (ITEM_WIDTH as nat)) as nat, ..b }
    }

    /// The lane and the connection at its tail after the connection filled
    /// the free slots there, as far as it had stacks to give.
    pub open spec fn fed(self, conn: ConnectionView, stack_size: u16) -> (Lane, ConnectionView) {
        let free = self.back / (ITEM_WIDTH as nat);
        match conn.item_type {
            Some(item_type) => {
                if free == 0 {
                    (self, conn)
                } else {
                    let batch = batch_of(item_type, conn.item_count, stack_size, free as u32);
                    (self.with_batch(batch), conn.take(batch.total_items()))
                }
            },
            None => (self, conn),
        }
    }

    /// The lane and the connection at its head after the lane moved by `d`
    /// and the connection took the stacks that reached the head, as long as
    /// it had room: see `Drained`.
    pub open spec fn drained(self, conn: ConnectionView, d: nat) -> Drained
        decreases
            self.slots.len(),
            (if self.slots.len() > 0 {
                self.slots[0].copies
            } else {
                0
            }),
            self.front,
    {
        if self.slots.len() == 0 {
            Drained { lane: self, conn, rest: d, blocked: false, remainder: 0 }
        } else if self.front > 0 {
            if d < self.front {
                Drained { lane: self.shifted(d), conn, rest: 0, blocked: false, remainder: 0 }
            } else {
                self.shifted(self.front).drained(conn, (d - self.front) as nat)
            }
        } else {
            let head = self.slots[0];
            let by_distance = if d == 0 {
                head.copies
            } else {
                d / (ITEM_WIDTH as nat)
            };
            if by_distance == 0 {
                Drained {
                    lane: Lane { front: d, back: self.back + d, ..self },
                    conn,
                    rest: 0,
                    blocked: false,
                    remainder: d,
                }
            } else {
                let fit = conn.max_stacks(head.stack_of(1));
                let n = vstd::math::min(
                    vstd::math::min(by_distance as int, head.copies as int),
                    fit as int,
                ) as nat;
                if n == 0 {
                    Drained { lane: self, conn, rest: d, blocked: true, remainder: 0 }
                } else {
                    let lane2 = self.pulled(n);
                    let conn2 = conn.put(head.item_type, (head.item_count as nat) * n);
                    let d2 = if d == 0 {
                        0
                    } else {
                        (d - n * (ITEM_WIDTH as nat)) as nat
                    };
                    if d2 == 0 {
                        Drained { lane: lane2, conn: conn2, rest: 0, blocked: false, remainder: 0 }
                    } else {
                        lane2.drained(conn2, d2)
                    }
                }
            }
        }
    }

    /// The lane after it moved by `d` while whole stacks were taken off its
    /// head, with the stacks taken: see `Hauled`. `total` counts the stacks
    /// taken before.
    pub open spec fn hauled(
        self,
        d: nat,
        filter: Option<Seq<ItemType>>,
        limit: Option<u32>,
        total: nat,
    ) -> Hauled
        decreases self.slots.len(), self.front,
    {
        if d == 0 || self.slots.len() == 0 {
            Hauled { lane: self, removed: Seq::empty(), remainder: 0 }
        } else if self.front > 0 {
            if d < self.front {
                Hauled { lane: self.shifted(d), removed: Seq::empty(), remainder: 0 }
            } else {
                self.shifted(self.front).hauled((d - self.front) as nat, filter, limit, total)
            }
        } else {
            let head = self.slots[0];
            let by_distance = d / (ITEM_WIDTH as nat);
            if filter matches Some(f) && !f.contains(head.item_type) {
                Hauled { lane: self, removed: Seq::empty(), remainder: 0 }
            } else if by_distance == 0 {
                Hauled {
                    lane: Lane { front: d, back: self.back + d, ..self },
                    removed: Seq::empty(),
                    remainder: d,
                }
            } else {
                let n = vstd::math::min(by_distance as int, head.copies as int) as nat;
                let d2 = (d - n * (ITEM_WIDTH as nat)) as nat;
                let lane2 = self.pulled(n);
                let out = head.stack_of(n);
                if n < head.copies {
                    Hauled {
                        lane: Lane { front: d2, back: lane2.back + d2, ..lane2 },
                        removed: seq![out],
                        remainder: d2,
                    }
                } else if limit matches Some(l) && total + n >= l {
                    Hauled { lane: lane2, removed: seq![out], remainder: 0 }
                } else {
                    let rest = lane2.hauled(d2, filter, limit, total + n);
                    Hauled { removed: seq![out] + rest.removed, ..rest }
                }
            }
        }
    }
}

/// Index of the first record at or after `i` that does not touch the next
/// one: the end of the group that `i` is in.
pub open spec fn first_tail(slots: Seq<Slot>, i: int) -> int
    decreases slots.len() - i,
{
    if i >= slots.len() - 1 || !slots[i].touches_next() {
        i
    } else {
        first_tail(slots, i + 1)
    }
}

/// The records after the distance behind record `t` closed: equal
/// neighbours become one record, others touch.
pub open spec fn joined(slots: Seq<Slot>, t: int) -> Seq<Slot> {
    if slots[t].same_kind(slots[t + 1]) {
        slots.update(
            t,
            Slot { copies: slots[t].copies + slots[t + 1].copies, gap: slots[t + 1].gap, ..slots[t] },
        ).remove(t + 1)
    } else {
        slots.update(t, slots[t].with_gap(Some(0nat)))
    }
}

/// How a lane and the connection at its head stand after a move.
/// `rest` is the distance that was not used because the connection took no
/// more or the lane ran empty; `blocked` says that the connection refused
/// the stack at the head; `remainder` is the distance, shorter than a slot,
/// that was left before a stack at the head and became free space at both
/// ends.
pub struct Drained {
    pub lane: Lane,
    pub conn: ConnectionView,
    pub rest: nat,
    pub blocked: bool,
    pub remainder: nat,
}

/// How a lane stands after stacks were taken off its head over a distance,
/// and the stacks taken, first to last. `remainder` is the distance, shorter
/// than a slot, that was left before a stack at the head and became free
/// space at both ends.
pub struct Hauled {
    pub lane: Lane,
    pub removed: Seq<Stack>,
    pub remainder: nat,
}

/// A lane's stacks never take up more than its records' extents.
pub proof fn lemma_stacks_within_span(slots: Seq<Slot>)
    ensures
        stack_total(slots) * (ITEM_WIDTH as nat) <= span(slots),
    decreases slots.len(),
{
    if slots.len() > 0 {
        lemma_stacks_within_span(slots.drop_last());
        let a = stack_total(slots.drop_last());
        let c = slots.last().copies;
        assert((a + c) * (ITEM_WIDTH as nat) == a * (ITEM_WIDTH as nat) + c * (ITEM_WIDTH as nat))
            by (nonlinear_arith);
    }
}

/// A lane holds at least as many stacks as records.
pub proof fn lemma_len_within_stacks(slots: Seq<Slot>)
    requires
        chained(slots),
    ensures
        slots.len() <= stack_total(slots),
    decreases slots.len(),
{
    if slots.len() > 0 {
        let front = slots.drop_last();
        assert forall|i: int| 0 <= i < front.len() implies (#[trigger] front[i]).copies >= 1 by {
            assert(front[i] == slots[i]);
        }
        lemma_len_at_most_stacks(front);
    }
}

/// Records of one stack or more are no more than the stacks.
proof fn lemma_len_at_most_stacks(slots: Seq<Slot>)
    requires
        forall|i: int| 0 <= i < slots.len() ==> (#[trigger] slots[i]).copies >= 1,
    ensures
        slots.len() <= stack_total(slots),
    decreases slots.len(),
{
    if slots.len() > 0 {
        let front = slots.drop_last();
        assert forall|i: int| 0 <= i < front.len() implies (#[trigger] front[i]).copies >= 1 by {
            assert(front[i] == slots[i]);
        }
        lemma_len_at_most_stacks(front);
    }
}

/// What a balanced lane bounds: the free ends, every record's stacks and
/// distance, the number of stacks and the number of records all fit in the
/// lane's length.
pub proof fn lemma_bounds(lane: Lane)
    requires
        lane.wf(),
    ensures
        lane.front <= lane.length,
        lane.back <= lane.length,
        span(lane.slots) <= lane.length,
        stack_total(lane.slots) * (ITEM_WIDTH as nat) <= lane.length,
        lane.slots.len() <= stack_total(lane.slots),
        forall|i: int|
            0 <= i < lane.slots.len() ==> (#[trigger] lane.slots[i]).extent() <= span(lane.slots),
{
    lemma_stacks_within_span(lane.slots);
    lemma_len_within_stacks(lane.slots);
    assert forall|i: int| 0 <= i < lane.slots.len() implies (#[trigger] lane.slots[i]).extent()
        <= span(lane.slots) by {
        lemma_split_at(lane.slots, i);
    }
}

/// Placing a stack keeps a lane well-formed, adds the stack's items and one
/// stack, and keeps a lane without equal touching neighbours so.
pub proof fn lemma_placed(lane: Lane, stack: Stack)
    requires
        lane.wf(),
        lane.can_place(stack),
    ensures
        lane.placed(stack).wf(),
        item_total(lane.placed(stack).slots) == item_total(lane.slots) + stack.item_count,
        stack_total(lane.placed(stack).slots) == stack_total(lane.slots) + 1,
        fused(lane.slots) ==> fused(lane.placed(stack).slots),
{
    let after = lane.placed(stack);
    let new = slot_of(stack, None);
    let w = ITEM_WIDTH as nat;
    assert(new.extent() == w);
    assert(new.items() == stack.item_count);
    if lane.slots.len() == 0 {
        lemma_totals_single(new);
        assert(fused(after.slots));
    } else {
        let n = lane.slots.len() as int;
        let tail = lane.slots.last();
        let spacing = (lane.back - ITEM_WIDTH) as nat;
        lemma_split_at(lane.slots, n - 1);
        let pre = lane.slots.subrange(0, n - 1);
        assert(lane.slots.subrange(n, n) =~= Seq::<Slot>::empty());
        if spacing == 0 && tail.same_kind(new) {
            let grown = tail.with_copies(tail.copies + 1);
            assert(after.slots =~= pre + seq![grown]);
            lemma_totals_concat(pre, seq![grown]);
            lemma_totals_single(grown);
            assert(grown.extent() == tail.extent() + w) by (nonlinear_arith)
                requires
                    grown.copies == tail.copies + 1,
                    grown.gap == tail.gap,
                    grown.extent() == grown.copies * w + grown.gap_len(),
                    tail.extent() == tail.copies * w + tail.gap_len(),
            ;
            assert(grown.items() == tail.items() + stack.item_count) by (nonlinear_arith)
                requires
                    grown.copies == tail.copies + 1,
                    grown.item_count == tail.item_count,
                    tail.item_count == stack.item_count,
                    grown.items() == (grown.item_count as nat) * grown.copies,
                    tail.items() == (tail.item_count as nat) * tail.copies,
            ;
            assert(chained(after.slots));
            if fused(lane.slots) {
                assert forall|i: int| 0 <= i < after.slots.len() - 1 implies #[trigger] apart(
                    after.slots,
                    i,
                ) by {
                    assert(apart(lane.slots, i));
                }
            }
        } else {
            let spaced = tail.with_gap(Some(spacing));
            assert(after.slots =~= pre + seq![spaced] + seq![new]);
            lemma_totals_concat(pre, seq![spaced]);
            lemma_totals_concat(pre + seq![spaced], seq![new]);
            lemma_totals_single(spaced);
            lemma_totals_single(new);
            assert(chained(after.slots));
            if fused(lane.slots) {
                assert forall|i: int| 0 <= i < after.slots.len() - 1 implies #[trigger] apart(
                    after.slots,
                    i,
                ) by {
                    if i < n - 1 {
                        assert(apart(lane.slots, i));
                    }
                }
            }
        }
    }
}

/// The sums of a lane in which the records from `i` up to `j` were replaced
/// by others.
pub proof fn lemma_replaced(slots: Seq<Slot>, i: int, j: int, mid: Seq<Slot>)
    requires
        0 <= i <= j <= slots.len(),
    ensures
        span(slots.subrange(0, i) + mid + slots.subrange(j, slots.len() as int)) + span(
            slots.subrange(i, j),
        ) == span(slots) + span(mid),
        stack_total(slots.subrange(0, i) + mid + slots.subrange(j, slots.len() as int))
            + stack_total(slots.subrange(i, j)) == stack_total(slots) + stack_total(mid),
        item_total(slots.subrange(0, i) + mid + slots.subrange(j, slots.len() as int))
            + item_total(slots.subrange(i, j)) == item_total(slots) + item_total(mid),
{
    let a = slots.subrange(0, i);
    let b = slots.subrange(i, j);
    let c = slots.subrange(j, slots.len() as int);
    assert(slots =~= a + b + c);
    lemma_totals_concat(a, b);
    lemma_totals_concat(a + b, c);
    lemma_totals_concat(a, mid);
    lemma_totals_concat(a + mid, c);
}

/// One slot's width, spelled out.
pub proof fn lemma_extent(s: Slot)
    ensures
        s.extent() == s.copies * 128 + s.gap_len(),
        ITEM_WIDTH == 128,
{
}

/// The sums of two records side by side.
pub proof fn lemma_totals_pair(a: Slot, b: Slot)
    ensures
        span(seq![a, b]) == a.extent() + b.extent(),
        stack_total(seq![a, b]) == a.copies + b.copies,
        item_total(seq![a, b]) == a.items() + b.items(),
{
    assert(seq![a, b] =~= seq![a] + seq![b]);
    lemma_totals_concat(seq![a], seq![b]);
    lemma_totals_single(a);
    lemma_totals_single(b);
}

/// Stacks leaving at the head keep the lane well-formed and take their
/// items with them.
pub proof fn lemma_pulled(lane: Lane, n: nat)
    requires
        lane.wf(),
        lane.front == 0,
        lane.slots.len() > 0,
        1 <= n <= lane.slots[0].copies,
    ensures
        lane.pulled(n).wf(),
        item_total(lane.pulled(n).slots) + (lane.slots[0].item_count as nat) * n == item_total(
            lane.slots,
        ),
        stack_total(lane.pulled(n).slots) + n == stack_total(lane.slots),
        fused(lane.slots) ==> fused(lane.pulled(n).slots),
        lane.pulled(n).slots.len() > 0 ==> lane.pulled(n).back == lane.back + n * 128,
{
    let after = lane.pulled(n);
    let head = lane.slots[0];
    let len = lane.slots.len() as int;
    let rest = lane.slots.subrange(1, len);
    lemma_extent(head);
    assert(lane.slots.subrange(0, 0) =~= Seq::<Slot>::empty());
    assert(lane.slots.subrange(0, 1) =~= seq![head]);
    lemma_totals_single(head);
    if n < head.copies {
        let less = head.with_copies((head.copies - n) as nat);
        lemma_extent(less);
        lemma_replaced(lane.slots, 0, 1, seq![less]);
        lemma_totals_single(less);
        assert(after.slots =~= lane.slots.subrange(0, 0) + seq![less] + rest);
        assert(less.items() + (head.item_count as nat) * n == head.items()) by (nonlinear_arith)
            requires
                less.items() == (head.item_count as nat) * ((head.copies - n) as nat),
                head.items() == (head.item_count as nat) * head.copies,
                n < head.copies,
        ;
        assert(chained(after.slots));
        if fused(lane.slots) {
            assert forall|i: int| 0 <= i < after.slots.len() - 1 implies #[trigger] apart(
                after.slots,
                i,
            ) by {
                assert(apart(lane.slots, i));
            }
        }
    } else {
        lemma_replaced(lane.slots, 0, 1, Seq::<Slot>::empty());
        assert(lane.slots.subrange(0, 0) + Seq::<Slot>::empty() + rest =~= rest);
        if len > 1 {
            assert(after.slots == rest);
            assert forall|i: int| 0 <= i < rest.len() implies {
                &&& (#[trigger] rest[i]).copies >= 1
                &&& (rest[i].gap is None <==> i == rest.len() - 1)
            } by {
                assert(rest[i] == lane.slots[i + 1]);
            }
            if fused(lane.slots) {
                assert forall|i: int| 0 <= i < rest.len() - 1 implies #[trigger] apart(rest, i) by {
                    assert(apart(lane.slots, i + 1));
                }
            }
        } else {
            assert(rest =~= Seq::<Slot>::empty());
        }
    }
}

/// A stack lifted off the head keeps the lane well-formed and takes its
/// items with it.
pub proof fn lemma_lifted(lane: Lane)
    requires
        lane.wf(),
        lane.front == 0,
        lane.slots.len() > 0,
    ensures
        lane.lifted().wf(),
        item_total(lane.lifted().slots) + lane.slots[0].item_count == item_total(lane.slots),
        stack_total(lane.lifted().slots) + 1 == stack_total(lane.slots),
        fused(lane.slots) ==> fused(lane.lifted().slots),
{
    lemma_pulled(lane, 1);
    let moved = lane.pulled(1);
    let after = lane.lifted();
    assert(after.slots == moved.slots);
    lemma_extent(lane.slots[0]);
    assert((lane.slots[0].item_count as nat) * 1 == lane.slots[0].item_count);
}

/// The distance behind record `t` made shorter.
pub proof fn lemma_gap_shrunk(slots: Seq<Slot>, t: int, by: nat)
    requires
        chained(slots),
        0 <= t < slots.len(),
        slots[t].gap matches Some(g) && by < g,
    ensures
        chained(slots.update(t, slots[t].with_gap(Some((slots[t].gap->0 - by) as nat)))),
        span(slots.update(t, slots[t].with_gap(Some((slots[t].gap->0 - by) as nat)))) + by == span(
            slots,
        ),
        stack_total(slots.update(t, slots[t].with_gap(Some((slots[t].gap->0 - by) as nat))))
            == stack_total(slots),
        item_total(slots.update(t, slots[t].with_gap(Some((slots[t].gap->0 - by) as nat))))
            == item_total(slots),
        fused(slots) ==> fused(
            slots.update(t, slots[t].with_gap(Some((slots[t].gap->0 - by) as nat))),
        ),
{
    let less = slots[t].with_gap(Some((slots[t].gap->0 - by) as nat));
    let after = slots.update(t, less);
    lemma_replaced(slots, t, t + 1, seq![less]);
    assert(slots.subrange(t, t + 1) =~= seq![slots[t]]);
    assert(after =~= slots.subrange(0, t) + seq![less] + slots.subrange(
        t + 1,
        slots.len() as int,
    ));
    lemma_totals_single(less);
    lemma_totals_single(slots[t]);
    if fused(slots) {
        assert forall|i: int| 0 <= i < after.len() - 1 implies #[trigger] apart(after, i) by {
            assert(apart(slots, i));
        }
    }
}

/// The distance behind record `t` closed: the lane is shorter by that
/// distance and carries what it carried.
pub proof fn lemma_joined(slots: Seq<Slot>, t: int)
    requires
        chained(slots),
        0 <= t,
        t + 1 < slots.len(),
    ensures
        chained(joined(slots, t)),
        span(joined(slots, t)) + slots[t].gap_len() == span(slots),
        stack_total(joined(slots, t)) == stack_total(slots),
        item_total(joined(slots, t)) == item_total(slots),
        fused(slots) ==> fused(joined(slots, t)),
{
    let a = slots[t];
    let b = slots[t + 1];
    let after = joined(slots, t);
    lemma_extent(a);
    lemma_extent(b);
    if a.same_kind(b) {
        let one = Slot { copies: a.copies + b.copies, gap: b.gap, ..a };
        lemma_extent(one);
        lemma_replaced(slots, t, t + 2, seq![one]);
        assert(slots.subrange(t, t + 2) =~= seq![a, b]);
        assert(after =~= slots.subrange(0, t) + seq![one] + slots.subrange(
            t + 2,
            slots.len() as int,
        ));
        lemma_totals_single(one);
        lemma_totals_pair(a, b);
        assert(one.items() == a.items() + b.items()) by (nonlinear_arith)
            requires
                one.items() == (a.item_count as nat) * (a.copies + b.copies),
                a.items() == (a.item_count as nat) * a.copies,
                b.items() == (b.item_count as nat) * b.copies,
                a.item_count == b.item_count,
        ;
        assert forall|i: int| 0 <= i < after.len() implies {
            &&& (#[trigger] after[i]).copies >= 1
            &&& (after[i].gap is None <==> i == after.len() - 1)
        } by {
            if i < t {
                assert(after[i] == slots[i]);
            } else if i > t {
                assert(after[i] == slots[i + 1]);
            }
        }
        if fused(slots) {
            assert forall|i: int| 0 <= i < after.len() - 1 implies #[trigger] apart(after, i) by {
                if i < t {
                    assert(apart(slots, i));
                } else {
                    assert(apart(slots, i + 1));
                }
            }
        }
    } else {
        let near = a.with_gap(Some(0nat));
        lemma_extent(near);
        lemma_replaced(slots, t, t + 1, seq![near]);
        assert(slots.subrange(t, t + 1) =~= seq![a]);
        assert(after =~= slots.subrange(0, t) + seq![near] + slots.subrange(
            t + 1,
            slots.len() as int,
        ));
        lemma_totals_single(near);
        lemma_totals_single(a);
        if fused(slots) {
            assert forall|i: int| 0 <= i < after.len() - 1 implies #[trigger] apart(after, i) by {
                assert(apart(slots, i));
            }
        }
    }
}

/// Two neighbours never take up more than the lane's records do.
pub proof fn lemma_pair_within_span(slots: Seq<Slot>, t: int)
    requires
        0 <= t,
        t + 1 < slots.len(),
    ensures
        slots[t].extent() + slots[t + 1].extent() <= span(slots),
        slots[t].copies + slots[t + 1].copies <= stack_total(slots),
{
    lemma_replaced(slots, t, t + 2, Seq::<Slot>::empty());
    assert(slots.subrange(t, t + 2) =~= seq![slots[t], slots[t + 1]]);
    lemma_totals_pair(slots[t], slots[t + 1]);
}

/// Items in a sequence of stack records.
pub open spec fn items_in(stacks: Seq<Stack>) -> nat
    decreases stacks.len(),
{
    if stacks.len() == 0 {
        0
    } else {
        items_in(stacks.drop_last()) + stacks.last().total_items()
    }
}

/// The items in two runs of stack records, one behind the other.
pub proof fn lemma_items_in_concat(a: Seq<Stack>, b: Seq<Stack>)
    ensures
        items_in(a + b) == items_in(a) + items_in(b),
    decreases b.len(),
{
    if b.len() == 0 {
        assert(a + b =~= a);
    } else {
        assert((a + b).drop_last() =~= a + b.drop_last());
        assert((a + b).last() == b.last());
        lemma_items_in_concat(a, b.drop_last());
    }
}

/// The items in one stack record.
pub proof fn lemma_items_in_single(s: Stack)
    ensures
        items_in(seq![s]) == s.total_items(),
{
    assert(seq![s].drop_last() =~= Seq::<Stack>::empty());
    assert(items_in(seq![s].drop_last()) == 0);
}

/// A batch as a connection emits it: its full stacks are at least one, its
/// smaller stack is a single stack, and the two differ in size.
pub open spec fn batch_ok(batch: OutputBatch) -> bool {
    &&& (batch.full_stack matches Some(s) ==> s.multiplicity >= 1)
    &&& (batch.partial_stack matches Some(s) ==> s.multiplicity == 1)
    &&& (batch.full_stack matches Some(a) ==> (batch.partial_stack matches Some(b)
        ==> a.item_count != b.item_count))
}

/// The first stack record of a batch.
pub open spec fn batch_first(batch: OutputBatch) -> Option<Stack> {
    match batch.full_stack {
        Some(s) => Some(s),
        None => batch.partial_stack,
    }
}

/// The batch would come to lie against an equal stack at the lane's tail.
pub open spec fn clashes(lane: Lane, batch: OutputBatch) -> bool {
    lane.slots.len() > 0 && (batch_first(batch) matches Some(s) && lane.slots.last().same_kind(
        slot_of(s, None),
    ))
}

/// What a connection emits is a batch as `batch_ok` says.
pub proof fn lemma_batch_of(item_type: ItemType, item_count: nat, stack_size: u16, max_stacks: u32)
    requires
        stack_size > 0,
        item_count <= u16::MAX,
    ensures
        batch_ok(batch_of(item_type, item_count, stack_size, max_stacks)),
        batch_of(item_type, item_count, stack_size, max_stacks).slots() <= max_stacks,
{
    let size = stack_size as nat;
    let q = item_count / size;
    let rem = item_count % size;
    assert(item_count == size * q + rem && rem < size && q <= item_count) by (nonlinear_arith)
        requires
            size > 0,
            q == item_count / size,
            rem == item_count % size,
    ;
    let full = vstd::math::min(q as int, max_stacks as int);
    let rest = item_count - full * stack_size;
    if full == q {
        assert(rest == rem) by (nonlinear_arith)
            requires
                item_count == size * q + rem,
                rest == item_count - full * size,
                full == q,
        ;
    }
}

/// A stack appended from a connection keeps the records chained and adds
/// what it carries.
pub proof fn lemma_appended(lane: Lane, stack: Stack)
    requires
        chained(lane.slots),
        stack.multiplicity >= 1,
    ensures
        chained(lane.appended(stack).slots),
        lane.appended(stack).slots.len() == lane.slots.len() + 1,
        lane.appended(stack).slots.last() == slot_of(stack, None),
        lane.appended(stack).back == lane.back,
        lane.appended(stack).length == lane.length,
        lane.slots.len() > 0 ==> lane.appended(stack).front == lane.front,
        lane.slots.len() == 0 ==> lane.appended(stack).front == 0,
        span(lane.appended(stack).slots) == span(lane.slots) + stack.multiplicity * 128,
        stack_total(lane.appended(stack).slots) == stack_total(lane.slots) + stack.multiplicity,
        item_total(lane.appended(stack).slots) == item_total(lane.slots) + stack.total_items(),
        fused(lane.slots) && !(lane.slots.len() > 0 && lane.slots.last().same_kind(
            slot_of(stack, None),
        )) ==> fused(lane.appended(stack).slots),
        lane.slots.len() > 0 ==> lane.appended(stack).slots[lane.slots.len() - 1]
            == lane.slots.last().with_gap(Some(0nat)),
        forall|i: int|
            0 <= i < lane.slots.len() - 1 ==> #[trigger] lane.appended(stack).slots[i]
                == lane.slots[i],
{
    let new = slot_of(stack, None);
    let after = lane.appended(stack).slots;
    lemma_extent(new);
    lemma_totals_single(new);
    if lane.slots.len() == 0 {
        assert(fused(after));
    } else {
        let n = lane.slots.len() as int;
        let tail = lane.slots.last();
        let near = tail.with_gap(Some(0nat));
        lemma_extent(tail);
        lemma_extent(near);
        lemma_replaced(lane.slots, n - 1, n, seq![near, new]);
        assert(lane.slots.subrange(n - 1, n) =~= seq![tail]);
        assert(lane.slots.subrange(n, n) =~= Seq::<Slot>::empty());
        assert(after =~= lane.slots.subrange(0, n - 1) + seq![near, new] + lane.slots.subrange(
            n,
            n,
        ));
        lemma_totals_single(tail);
        lemma_totals_pair(near, new);
        if fused(lane.slots) && !tail.same_kind(new) {
            assert forall|i: int| 0 <= i < after.len() - 1 implies #[trigger] apart(after, i) by {
                if i < n - 1 {
                    assert(apart(lane.slots, i));
                }
            }
        }
    }
}

/// A batch put at the tail keeps the records chained and the space adding
/// up, and adds what it carries.
pub proof fn lemma_with_batch(lane: Lane, batch: OutputBatch)
    requires
        chained(lane.slots),
        batch_ok(batch),
        1 <= batch.slots(),
        batch.slots() * 128 <= lane.back,
    ensures
        chained(lane.with_batch(batch).slots),
        lane.with_batch(batch).slots.len() > 0,
        lane.with_batch(batch).slots.len() <= lane.slots.len() + 2,
        lane.balanced() ==> lane.with_batch(batch).balanced(),
        lane.slots.len() > 0 && lane.with_batch(batch).balanced() ==> lane.balanced(),
        stack_total(lane.with_batch(batch).slots) == stack_total(lane.slots) + batch.slots(),
        item_total(lane.with_batch(batch).slots) == item_total(lane.slots) + batch.total_items(),
        fused(lane.slots) && !clashes(lane, batch) ==> fused(lane.with_batch(batch).slots),
        clashes(lane, batch) ==> !fused(lane.with_batch(batch).slots),
{
    let a = match batch.full_stack {
        Some(s) => lane.appended(s),
        None => lane,
    };
    if let Some(s) = batch.full_stack {
        lemma_appended(lane, s);
    }
    if let Some(s) = batch.partial_stack {
        lemma_appended(a, s);
        assert(s.total_items() == (s.item_count as nat) * 1);
    }
    if clashes(lane, batch) {
        let n = lane.slots.len() as int;
        let after = lane.with_batch(batch).slots;
        let first = batch_first(batch)->0;
        assert(after[n - 1] == lane.slots.last().with_gap(Some(0nat)));
        assert(after[n] == slot_of(first, None) || after[n] == slot_of(first, None).with_gap(
            Some(0nat),
        ));
        assert(!apart(after, n - 1));
    }
}

} // verus!
