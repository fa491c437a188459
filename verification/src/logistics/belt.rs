use crate::logistics::belt_connection::{
    batch_of, lemma_max_stacks_accepted, BeltInputConnection, BeltOutputConnection, Connection,
    ConnectionView, OutputBatch,
};
use crate::logistics::grouping::{
    group_ok, grouped, lemma_group_of_head, lemma_group_of_tail, lemma_grouped_concat,
    lemma_grouped_split, lemma_head_group_end, lemma_regrouped, lemma_single_group_grouped,
    regrouped, single_group, slots_of, BeltItem,
};
use crate::logistics::lane::{
    batch_ok, chained, clashes, fused, item_total, items_in, joined, lemma_appended,
    lemma_batch_of, lemma_bounds, lemma_extent, lemma_gap_shrunk, lemma_items_in_concat,
    lemma_items_in_single, lemma_joined, lemma_lifted, lemma_pair_within_span, lemma_placed,
    lemma_pulled, lemma_totals_concat, lemma_with_batch, span, stack_total, Lane, Slot,
};
use crate::logistics::stack::Stack;
use crate::types::{ItemType, ITEM_WIDTH};
use std::collections::VecDeque;
use vstd::prelude::*;

verus! {

/// A conveyor lane of a fixed length that carries stacks from its tail to
/// its head, with an optional connection buffer at either end.
#[derive(Debug)]
pub struct Belt {
    length: u32,
    speed: u32,
    items: VecDeque<BeltItem>,
    empty_space_front: u32,
    empty_space_back: u32,
    input_connection: Option<BeltOutputConnection>,
    output_connection: Option<BeltInputConnection>,
}

/// A belt as plain values.
pub struct BeltView {
    pub length: u32,
    pub speed: u32,
    pub front: u32,
    pub back: u32,
    pub entries: Seq<BeltItem>,
    pub input: Option<BeltOutputConnection>,
    pub output: Option<BeltInputConnection>,
}

impl BeltView {
    /// The lane that the belt's records describe.
    pub open spec fn lane(self) -> Lane {
        Lane {
            length: self.length as nat,
            front: self.front as nat,
            back: self.back as nat,
            slots: slots_of(self.entries),
        }
    }

    /// The connections at the belt's ends are valid.
    pub open spec fn ends_ok(self) -> bool {
        &&& (self.input matches Some(c) ==> c.wf())
        &&& (self.output matches Some(c) ==> c.wf())
    }

    /// All that holds of a belt whatever was done to it: its connections
    /// are valid, its records are chained, and each knows its group.
    pub open spec fn sound(self) -> bool {
        &&& self.ends_ok()
        &&& chained(self.lane().slots)
        &&& grouped(self.entries)
    }

    /// The belt is sound and the space on it adds up.
    pub open spec fn wf(self) -> bool {
        self.sound() && self.lane().balanced()
    }

    /// The same belt, whatever is on it: length, speed and connections.
    pub open spec fn same_frame(self, other: BeltView) -> bool {
        &&& self.length == other.length
        &&& self.speed == other.speed
        &&& self.input == other.input
        &&& self.output == other.output
    }

    /// Items in the connection at the belt's tail.
    pub open spec fn input_items(self) -> nat {
        match self.input {
            Some(c) => c.state().item_count,
            None => 0,
        }
    }

    /// Items in the connection at the belt's head.
    pub open spec fn output_items(self) -> nat {
        match self.output {
            Some(c) => c.state().item_count,
            None => 0,
        }
    }

    /// The connection at the head as plain values.
    pub open spec fn output_state(self) -> Option<ConnectionView> {
        match self.output {
            Some(c) => Some(c.state()),
            None => None,
        }
    }

    /// The connection at the tail as plain values.
    pub open spec fn input_state(self) -> Option<ConnectionView> {
        match self.input {
            Some(c) => Some(c.state()),
            None => None,
        }
    }

    /// The size of the stacks that the connection at the tail emits.
    pub open spec fn input_stack_size(self) -> Option<u16> {
        match self.input {
            Some(c) => Some(c.stack_size()),
            None => None,
        }
    }

    /// The lane as it stands when the connection at the tail is asked for
    /// stacks, after the belt moved by `distance`.
    pub open spec fn before_refill(self, distance: nat) -> Lane {
        match self.output {
            Some(c) => {
                let d = self.lane().drained(c.state(), distance);
                d.lane.advanced(d.rest)
            },
            None => self.lane().advanced(distance),
        }
    }

    /// The belt and its connections after the belt moved by `distance`:
    /// first the connection at the head takes what reaches it, then the
    /// records close up over the distance that is left, then the connection
    /// at the tail fills the free slots there.
    pub open spec fn ran(self, distance: nat) -> Ran {
        let packed = self.before_refill(distance);
        Ran {
            lane: match self.input {
                Some(c) => packed.fed(c.state(), c.stack_size()).0,
                None => packed,
            },
            output: match self.output {
                Some(c) => Some(self.lane().drained(c.state(), distance).conn),
                None => None,
            },
            input: match self.input {
                Some(c) => Some(packed.fed(c.state(), c.stack_size()).1),
                None => None,
            },
            remainder: match self.output {
                Some(c) => self.lane().drained(c.state(), distance).remainder,
                None => 0,
            },
        }
    }

    /// The stacks that the connection at the tail emits after a move by
    /// `distance` come to lie against an equal stack.
    pub open spec fn refill_clashes(self, distance: nat) -> bool {
        let packed = self.before_refill(distance);
        let free = packed.back / (ITEM_WIDTH as nat);
        self.input matches Some(c) && (c.state().item_type matches Some(item_type) && free > 0
            && clashes(
            packed,
            batch_of(item_type, c.state().item_count, c.stack_size(), free as u32),
        ))
    }

    /// Items on the belt and in the connections at its ends.
    pub open spec fn all_items(self) -> nat {
        item_total(self.lane().slots) + self.input_items() + self.output_items()
    }
}

/// How a belt and its connections stand after a move. `remainder` is the
/// distance, shorter than a slot, that was left before a stack at the head
/// and became free space at both ends; the space on the belt adds up only
/// where it is zero.
pub struct Ran {
    pub lane: Lane,
    pub output: Option<ConnectionView>,
    pub input: Option<ConnectionView>,
    pub remainder: nat,
}

/// A filter of item types as the sequence of types it lists.
pub open spec fn types_of(filter: Option<&[ItemType]>) -> Option<Seq<ItemType>> {
    match filter {
        Some(f) => Some(f@),
        None => None,
    }
}

fn lists_type(types: &[ItemType], item_type: ItemType) -> (found: bool)
    ensures
        found == types@.contains(item_type),
{
    let mut i: usize = 0;
    while i < types.len()
        invariant
            i <= types.len(),
            forall|j: int| 0 <= j < i ==> types@[j] != item_type,
        decreases types.len() - i,
    {
        if types[i] == item_type {
            assert(types@[i as int] == item_type);
            return true;
        }
        i += 1;
    }
    false
}

impl View for Belt {
    type V = BeltView;

    closed spec fn view(&self) -> BeltView {
        BeltView {
            length: self.length,
            speed: self.speed,
            front: self.empty_space_front,
            back: self.empty_space_back,
            entries: self.items@,
            input: self.input_connection,
            output: self.output_connection,
        }
    }
}

/// Overwrites one record of the deque in place, through `VecDeque`'s
/// `IndexMut`, for which Verus has no specification. What is taken on trust
/// here is what the standard library documents of indexing: the record at
/// `index`, which lies within the deque, becomes `item`, and every other
/// record stays where it is.
#[verifier::external_body]
fn set_entry(items: &mut VecDeque<BeltItem>, index: usize, item: BeltItem)
    requires
        index < old(items)@.len(),
    ensures
        final(items)@ == old(items)@.update(index as int, item),
{
    items[index] = item;
}

impl Belt {
    /// The belt is sound and the space on it adds up.
    pub open spec fn wf(&self) -> bool {
        self@.wf()
    }

    /// An empty belt: its whole length is free at either end.
    pub fn new(length: u32, speed: u32) -> (belt: Self)
        ensures
            belt.wf(),
            belt@ == (BeltView {
                length,
                speed,
                front: length,
                back: length,
                entries: Seq::empty(),
                input: None,
                output: None,
            }),
            fused(belt@.lane().slots),
    {
        let belt = Self {
            length,
            speed,
            items: VecDeque::new(),
            empty_space_front: length,
            empty_space_back: length,
            input_connection: None,
            output_connection: None,
        };
        assert(slots_of(belt@.entries) =~= Seq::empty());
        belt
    }

    /// The length of the belt.
    pub fn length(&self) -> (r: u32)
        ensures
            r == self@.length,
    {
        self.length
    }

    /// The distance that the belt moves in one tick.
    pub fn speed(&self) -> (r: u32)
        ensures
            r == self@.speed,
    {
        self.speed
    }

    /// Free space before the first record.
    pub fn empty_space_front(&self) -> (r: u32)
        ensures
            r == self@.front,
    {
        self.empty_space_front
    }

    /// Free space behind the last record.
    pub fn empty_space_back(&self) -> (r: u32)
        ensures
            r == self@.back,
    {
        self.empty_space_back
    }

    /// The records on the belt, head first.
    pub fn items(&self) -> (r: &VecDeque<BeltItem>)
        ensures
            r@ == self@.entries,
    {
        &self.items
    }

    /// No stack is on the belt.
    pub fn is_empty(&self) -> (r: bool)
        ensures
            r == (self@.entries.len() == 0),
    {
        self.items.len() == 0
    }

    /// Rewrites the records from `start` to `end` as one group that ends
    /// with the distance `last_gap`.
    fn regroup(&mut self, start: usize, end: usize, last_gap: Option<u32>)
        requires
            start <= end < old(self).items@.len(),
            old(self).items@.len() <= u32::MAX,
        ensures
            final(self)@ == (BeltView {
                entries: old(self)@.entries.subrange(0, start as int) + regrouped(
                    old(self)@.entries.subrange(start as int, end + 1),
                    last_gap,
                ) + old(self)@.entries.subrange(end + 1, old(self)@.entries.len() as int),
                ..old(self)@
            }),
    {
        let ghost before = self.items@;
        let ghost block = regrouped(before.subrange(start as int, end + 1), last_gap);
        let size: u32 = (end - start + 1) as u32;
        let mut idx: usize = start;
        while idx <= end
            invariant
                start <= idx <= end + 1,
                end < before.len() <= u32::MAX,
                size == end - start + 1,
                block == regrouped(before.subrange(start as int, end + 1), last_gap),
                self.items@.len() == before.len(),
                forall|j: int| 0 <= j < start ==> self.items@[j] == before[j],
                forall|j: int| start <= j < idx ==> self.items@[j] == block[j - start],
                forall|j: int| idx <= j < before.len() ==> self.items@[j] == before[j],
                self.length == old(self).length,
                self.speed == old(self).speed,
                self.empty_space_front == old(self).empty_space_front,
                self.empty_space_back == old(self).empty_space_back,
                self.input_connection == old(self).input_connection,
                self.output_connection == old(self).output_connection,
            decreases end + 1 - idx,
        {
            let item = &self.items[idx];
            let rewritten = BeltItem {
                stack: Stack {
                    item_type: item.stack.item_type,
                    item_count: item.stack.item_count,
                    multiplicity: item.stack.multiplicity,
                },
                next_item_dist: if idx < end {
                    Some(0)
                } else {
                    last_gap
                },
                is_group_head: idx == start,
                is_group_tail: idx == end,
                group_size: size,
            };
            set_entry(&mut self.items, idx, rewritten);
            idx += 1;
        }
        assert(self.items@ =~= before.subrange(0, start as int) + block + before.subrange(
            end + 1,
            before.len() as int,
        ));
    }

    /// Puts a single stack at the very end of the belt, which does not
    /// move. The stack is refused if it stands for several stacks or if no
    /// slot is free at the tail.
    pub fn add_item(&mut self, stack: Stack) -> (ok: bool)
        requires
            old(self).wf(),
        ensures
            final(self).wf(),
            final(self)@.same_frame(old(self)@),
            ok == old(self)@.lane().can_place(stack),
            final(self)@.lane() == if ok {
                old(self)@.lane().placed(stack)
            } else {
                old(self)@.lane()
            },
            !ok ==> final(self)@ == old(self)@,
            final(self)@.all_items() == old(self)@.all_items() + if ok {
                stack.item_count as nat
            } else {
                0
            },
            fused(old(self)@.lane().slots) ==> fused(final(self)@.lane().slots),
    {
        if stack.multiplicity != 1 {
            return false;
        }
        if self.empty_space_back < ITEM_WIDTH {
            return false;
        }
        let ghost before = self@;
        proof {
            lemma_bounds(before.lane());
            lemma_placed(before.lane(), stack);
        }
        let count: usize = self.items.len();
        if count == 0 {
            self.empty_space_front -= ITEM_WIDTH;
            self.empty_space_back = 0;
            self.items.push_back(
                BeltItem {
                    stack,
                    next_item_dist: None,
                    is_group_head: true,
                    is_group_tail: true,
                    group_size: 1,
                },
            );
            proof {
                assert(single_group(self.items@));
                lemma_single_group_grouped(self.items@);
                assert(slots_of(self.items@) =~= before.lane().placed(stack).slots);
            }
            return true;
        }
        let spacing: u32 = self.empty_space_back - ITEM_WIDTH;
        let tail = &self.items[count - 1];
        let tail_stack = Stack {
            item_type: tail.stack.item_type,
            item_count: tail.stack.item_count,
            multiplicity: tail.stack.multiplicity,
        };
        let tail_head: bool = tail.is_group_head;
        let tail_size: u32 = tail.group_size;
        proof {
            assert(before.lane().slots[count - 1] == before.entries[count - 1].slot());
            assert(before.lane().slots[count - 1].extent() <= before.length);
            lemma_group_of_tail(before.entries, count - 1);
        }
        if spacing == 0 && tail_stack == stack {
            let grown = BeltItem {
                stack: Stack { multiplicity: tail_stack.multiplicity + 1, ..tail_stack },
                next_item_dist: None,
                is_group_head: tail_head,
                is_group_tail: true,
                group_size: tail_size,
            };
            set_entry(&mut self.items, count - 1, grown);
            self.empty_space_back = 0;
            proof {
                assert(slots_of(self.items@) =~= before.lane().placed(stack).slots);
                let head = count - tail_size;
                lemma_grouped_split(before.entries, head);
                assert(self.items@.subrange(0, head) =~= before.entries.subrange(0, head));
                let block = self.items@.subrange(head, count as int);
                let was = before.entries.subrange(head, count as int);
                assert forall|j: int| 0 <= j < block.len() implies {
                    &&& (#[trigger] block[j]).group_size == block.len()
                    &&& (block[j].is_group_head <==> j == 0)
                    &&& (block[j].is_group_tail <==> j == block.len() - 1)
                    &&& (block[j].is_group_tail <==> block[j].next_item_dist != Some(0u32))
                } by {
                    if j < block.len() - 1 {
                        assert(block[j] == was[j]);
                    } else {
                        assert(was[j] == before.entries[count - 1]);
                    }
                }
                lemma_single_group_grouped(block);
                lemma_grouped_concat(self.items@.subrange(0, head), block);
                assert(self.items@ =~= self.items@.subrange(0, head) + block);
            }
            return true;
        }
        if spacing == 0 {
            // The new record touches the tail and makes its group longer.
            self.items.push_back(
                BeltItem {
                    stack,
                    next_item_dist: None,
                    is_group_head: false,
                    is_group_tail: true,
                    group_size: tail_size,
                },
            );
            let ghost pushed = self.items@;
            self.regroup(count - tail_size as usize, count, None);
            proof {
                let head = count - tail_size;
                let block = regrouped(pushed.subrange(head, count + 1), None);
                lemma_regrouped(pushed.subrange(head, count + 1), None);
                lemma_single_group_grouped(block);
                lemma_grouped_split(before.entries, head);
                assert(pushed.subrange(0, head) =~= before.entries.subrange(0, head));
                assert(pushed.subrange(count + 1, count + 1) =~= Seq::<BeltItem>::empty());
                lemma_grouped_concat(pushed.subrange(0, head), block);
                assert(self.items@ =~= pushed.subrange(0, head) + block);
                let was = before.entries.subrange(head, count as int);
                assert forall|j: int| 0 <= j < count + 1 implies #[trigger] slots_of(
                    self.items@,
                )[j] == before.lane().placed(stack).slots[j] by {
                    if head <= j < count {
                        assert(was[j - head] == before.entries[j]);
                    }
                }
                assert(slots_of(self.items@) =~= before.lane().placed(stack).slots);
            }
        } else {
            let spaced = BeltItem {
                stack: tail_stack,
                next_item_dist: Some(spacing),
                is_group_head: tail_head,
                is_group_tail: true,
                group_size: tail_size,
            };
            set_entry(&mut self.items, count - 1, spaced);
            let ghost spread = self.items@;
            self.items.push_back(
                BeltItem {
                    stack,
                    next_item_dist: None,
                    is_group_head: true,
                    is_group_tail: true,
                    group_size: 1,
                },
            );
            proof {
                assert(slots_of(self.items@) =~= before.lane().placed(stack).slots);
                let head = count - tail_size;
                lemma_grouped_split(before.entries, head);
                assert(spread.subrange(0, head) =~= before.entries.subrange(0, head));
                let block = spread.subrange(head, count as int);
                let was = before.entries.subrange(head, count as int);
                assert forall|j: int| 0 <= j < block.len() implies {
                    &&& (#[trigger] block[j]).group_size == block.len()
                    &&& (block[j].is_group_head <==> j == 0)
                    &&& (block[j].is_group_tail <==> j == block.len() - 1)
                    &&& (block[j].is_group_tail <==> block[j].next_item_dist != Some(0u32))
                } by {
                    if j < block.len() - 1 {
                        assert(block[j] == was[j]);
                    } else {
                        assert(was[j] == before.entries[count - 1]);
                    }
                }
                lemma_single_group_grouped(block);
                lemma_grouped_concat(spread.subrange(0, head), block);
                assert(spread =~= spread.subrange(0, head) + block);
                let last = self.items@.subrange(count as int, count + 1);
                assert(single_group(last));
                lemma_single_group_grouped(last);
                lemma_grouped_concat(spread, last);
                assert(self.items@ =~= spread + last);
            }
        }
        self.empty_space_back = 0;
        true
    }

    /// Takes the head record off the deque. What is left of its group gets
    /// the next record as its head and is one record shorter.
    fn pop_front_entry(&mut self) -> (item: BeltItem)
        requires
            0 < old(self)@.entries.len() <= u32::MAX,
            grouped(old(self)@.entries),
        ensures
            item == old(self)@.entries[0],
            final(self)@ == (BeltView { entries: final(self)@.entries, ..old(self)@ }),
            grouped(final(self)@.entries),
            slots_of(final(self)@.entries) == slots_of(old(self)@.entries).subrange(
                1,
                old(self)@.entries.len() as int,
            ),
    {
        let ghost before = self.items@;
        let ghost n = before.len() as int;
        let item = self.items.pop_front().unwrap();
        let ghost cur = self.items@;
        proof {
            assert(group_ok(before, 0));
            lemma_group_of_head(before, 0);
            assert(cur =~= before.subrange(1, n));
        }
        if item.group_size > 1 {
            let last: usize = (item.group_size - 2) as usize;
            let last_gap = self.items[last].next_item_dist;
            self.regroup(0, last, last_gap);
            proof {
                let g = item.group_size as int;
                let group = before.subrange(0, g);
                assert(cur[g - 2] == before[g - 1]);
                assert(group_ok(before, g - 1));
                let block = regrouped(cur.subrange(0, g - 1), last_gap);
                lemma_regrouped(cur.subrange(0, g - 1), last_gap);
                lemma_single_group_grouped(block);
                lemma_grouped_split(before, g);
                assert(cur.subrange(g - 1, n - 1) =~= before.subrange(g, n));
                assert(cur.subrange(0, 0) + block =~= block);
                lemma_grouped_concat(block, cur.subrange(g - 1, n - 1));
                assert forall|j: int| 0 <= j < n - 1 implies #[trigger] slots_of(self.items@)[j]
                    == slots_of(before)[j + 1] by {
                    if j < g - 1 {
                        assert(group[j + 1] == before[j + 1]);
                        assert(self.items@[j] == block[j]);
                    }
                }
                assert(slots_of(self.items@) =~= slots_of(before).subrange(1, n));
            }
        } else {
            proof {
                lemma_grouped_split(before, 1);
                assert(slots_of(self.items@) =~= slots_of(before).subrange(1, n));
            }
        }
        item
    }

    /// Lifts one stack off the head of the belt, which does not move.
    /// Nothing is lifted while free space lies before the first record.
    pub fn remove_item(&mut self) -> (r: Option<Stack>)
        requires
            old(self).wf(),
        ensures
            final(self).wf(),
            final(self)@.same_frame(old(self)@),
            r is Some <==> old(self)@.front == 0 && old(self)@.entries.len() > 0,
            match r {
                Some(stack) => {
                    &&& stack == old(self)@.lane().slots[0].stack_of(1)
                    &&& final(self)@.lane() == old(self)@.lane().lifted()
                    &&& final(self)@.all_items() + stack.item_count == old(self)@.all_items()
                },
                None => final(self)@ == old(self)@,
            },
            fused(old(self)@.lane().slots) ==> fused(final(self)@.lane().slots),
    {
        if self.empty_space_front > 0 {
            return None;
        }
        if self.items.len() == 0 {
            return None;
        }
        let ghost before = self@;
        proof {
            lemma_bounds(before.lane());
            lemma_lifted(before.lane());
            assert(before.lane().slots[0] == before.entries[0].slot());
            lemma_extent(before.lane().slots[0]);
            assert(before.lane().slots[0].extent() <= before.length);
        }
        let front_item = &self.items[0];
        let stack = Stack {
            item_type: front_item.stack.item_type,
            item_count: front_item.stack.item_count,
            multiplicity: 1,
        };
        if front_item.stack.multiplicity > 1 {
            let less = front_item.with_multiplicity(front_item.stack.multiplicity - 1);
            set_entry(&mut self.items, 0, less);
            self.empty_space_front = ITEM_WIDTH;
            proof {
                assert(slots_of(self.items@) =~= before.lane().lifted().slots);
                assert forall|i: int| 0 <= i < self.items@.len() implies #[trigger] group_ok(
                    self.items@,
                    i,
                ) by {
                    assert(group_ok(before.entries, i));
                    if before.entries[i].is_group_head {
                        let g = before.entries[i].group_size as int;
                        assert forall|j: int| i <= j < i + g implies (
                        #[trigger] self.items@[j]).group_size == g && (
                        self.items@[j].is_group_tail <==> j == i + g - 1) by {
                            assert(before.entries[j].group_size == g);
                        }
                    }
                }
            }
        } else {
            let item = self.pop_front_entry();
            match item.next_item_dist {
                Some(offset) => {
                    self.empty_space_front = offset + ITEM_WIDTH;
                },
                None => {
                    self.empty_space_front = self.length;
                    self.empty_space_back = self.length;
                },
            }
            proof {
                assert(slots_of(self.items@) =~= before.lane().lifted().slots);
            }
        }
        Some(stack)
    }

    /// The stack that `remove_item` would lift off, if any.
    pub fn peek_front_stack(&self) -> (r: Option<Stack>)
        ensures
            r is Some <==> self@.front == 0 && self@.entries.len() > 0,
            r matches Some(stack) ==> stack == self@.lane().slots[0].stack_of(1),
    {
        if self.empty_space_front > 0 || self.items.len() == 0 {
            return None;
        }
        let front_item = &self.items[0];
        Some(
            Stack {
                item_type: front_item.stack.item_type,
                item_count: front_item.stack.item_count,
                multiplicity: 1,
            },
        )
    }

    /// Number of stacks on the belt.
    pub fn item_count(&self) -> (total: usize)
        requires
            self.wf(),
        ensures
            total == stack_total(self@.lane().slots),
    {
        let ghost slots = self@.lane().slots;
        proof {
            lemma_bounds(self@.lane());
            assert(ITEM_WIDTH == 128);
        }
        let mut total: usize = 0;
        let mut i: usize = 0;
        while i < self.items.len()
            invariant
                i <= self.items@.len(),
                slots == slots_of(self.items@),
                total == stack_total(slots.subrange(0, i as int)),
                stack_total(slots) * 128 <= u32::MAX,
            decreases self.items@.len() - i,
        {
            proof {
                let next = slots.subrange(0, i + 1);
                assert(next.drop_last() =~= slots.subrange(0, i as int));
                assert(next.last() == self.items@[i as int].slot());
                lemma_totals_concat(next, slots.subrange(i + 1, slots.len() as int));
                assert(next + slots.subrange(i + 1, slots.len() as int) =~= slots);
            }
            total += self.items[i].stack.multiplicity as usize;
            i += 1;
        }
        assert(slots.subrange(0, i as int) =~= slots);
        total
    }

    /// Makes the group behind the head group part of it where the two meet
    /// with unequal stacks: the records stay, and the head group's last
    /// record now touches the next one.
    fn link_groups(&mut self, tail_index: usize)
        requires
            0 < old(self)@.entries.len() <= u32::MAX,
            grouped(old(self)@.entries),
            tail_index == old(self)@.entries[0].group_size - 1,
            tail_index + 1 < old(self)@.entries.len(),
            !old(self)@.lane().slots[tail_index as int].same_kind(
                old(self)@.lane().slots[tail_index + 1],
            ),
        ensures
            final(self)@ == (BeltView { entries: final(self)@.entries, ..old(self)@ }),
            grouped(final(self)@.entries),
            slots_of(final(self)@.entries) == joined(old(self)@.lane().slots, tail_index as int),
    {
        let ghost before = self@;
        let ghost slots = before.lane().slots;
        let ghost t = tail_index as int;
        let next_start: usize = tail_index + 1;
        proof {
            assert(group_ok(before.entries, 0));
            lemma_group_of_head(before.entries, 0);
            lemma_group_of_head(before.entries, t + 1);
        }
        let next_group_size: u32 = self.items[next_start].group_size;
        let next_group_tail: usize = next_start + (next_group_size as usize - 1);
        let tail_next_dist = self.items[next_group_tail].next_item_dist;
        let ghost whole = before.entries.subrange(0, next_group_tail + 1);
        let ghost head_group = before.entries.subrange(0, t + 1);
        let ghost next_group = before.entries.subrange(t + 1, next_group_tail + 1);
        let ghost behind = before.entries.subrange(
            next_group_tail + 1,
            before.entries.len() as int,
        );
        proof {
            assert(group_ok(before.entries, next_group_tail as int));
            lemma_grouped_split(before.entries, next_group_tail + 1);
        }
        self.regroup(0, next_group_tail, tail_next_dist);
        proof {
            let block = regrouped(whole, tail_next_dist);
            lemma_regrouped(whole, tail_next_dist);
            lemma_single_group_grouped(block);
            assert(before.entries.subrange(0, 0) + block =~= block);
            lemma_grouped_concat(block, behind);
            assert forall|j: int| 0 <= j < self.items@.len() implies #[trigger] slots_of(
                self.items@,
            )[j] == joined(slots, t)[j] by {
                if j <= next_group_tail {
                    assert(self.items@[j] == block[j]);
                    if j <= t {
                        assert(head_group[j] == before.entries[j]);
                    } else {
                        assert(next_group[j - t - 1] == before.entries[j]);
                    }
                }
            }
            assert(slots_of(self.items@) =~= joined(slots, t));
        }
    }

    /// Makes the group behind the head group part of it where the two meet
    /// with equal stacks: the two records that meet become one.
    fn fuse_groups(&mut self, tail_index: usize)
        requires
            0 < old(self)@.entries.len() <= u32::MAX,
            grouped(old(self)@.entries),
            tail_index == old(self)@.entries[0].group_size - 1,
            tail_index + 1 < old(self)@.entries.len(),
            old(self)@.lane().slots[tail_index as int].same_kind(
                old(self)@.lane().slots[tail_index + 1],
            ),
            old(self)@.entries[tail_index as int].stack.multiplicity
                + old(self)@.entries[tail_index + 1].stack.multiplicity <= u32::MAX,
        ensures
            final(self)@ == (BeltView { entries: final(self)@.entries, ..old(self)@ }),
            grouped(final(self)@.entries),
            slots_of(final(self)@.entries) == joined(old(self)@.lane().slots, tail_index as int),
    {
        let ghost before = self@;
        let ghost slots = before.lane().slots;
        let ghost t = tail_index as int;
        let next_start: usize = tail_index + 1;
        proof {
            assert(group_ok(before.entries, 0));
            lemma_group_of_head(before.entries, 0);
            lemma_group_of_head(before.entries, t + 1);
        }
        let next_group_size: u32 = self.items[next_start].group_size;
        let next_group_tail: usize = next_start + (next_group_size as usize - 1);
        let tail_next_dist = self.items[next_group_tail].next_item_dist;
        let ghost head_group = before.entries.subrange(0, t + 1);
        let ghost next_group = before.entries.subrange(t + 1, next_group_tail + 1);
        let ghost behind = before.entries.subrange(
            next_group_tail + 1,
            before.entries.len() as int,
        );
        proof {
            assert(group_ok(before.entries, next_group_tail as int));
            lemma_grouped_split(before.entries, next_group_tail + 1);
        }
        let addition: u32 = self.items[next_start].stack.multiplicity;
        let more = self.items[tail_index].with_multiplicity(
            self.items[tail_index].stack.multiplicity + addition,
        );
        set_entry(&mut self.items, tail_index, more);
        let _ = self.items.remove(next_start);
        let ghost cut = self.items@;
        let new_tail: usize = next_group_tail - 1;
        self.regroup(0, new_tail, tail_next_dist);
        proof {
            let block = regrouped(cut.subrange(0, new_tail + 1), tail_next_dist);
            lemma_regrouped(cut.subrange(0, new_tail + 1), tail_next_dist);
            lemma_single_group_grouped(block);
            assert(cut.subrange(new_tail + 1, cut.len() as int) =~= behind);
            assert(cut.subrange(0, 0) + block =~= block);
            lemma_grouped_concat(block, behind);
            assert forall|j: int| 0 <= j < self.items@.len() implies #[trigger] slots_of(
                self.items@,
            )[j] == joined(slots, t)[j] by {
                if j <= new_tail {
                    assert(self.items@[j] == block[j]);
                    if j < t {
                        assert(head_group[j] == before.entries[j]);
                    } else if j > t {
                        assert(next_group[j - t] == before.entries[j + 1]);
                    } else {
                        assert(next_group[0] == before.entries[t + 1]);
                    }
                }
            }
            assert(slots_of(self.items@) =~= joined(slots, t));
        }
    }

    /// Closes the distance `gap` behind the head group, whose last record
    /// is at `tail_index`: the next group joins the head group, and where
    /// equal stacks meet they become one record.
    fn close_gap(&mut self, tail_index: usize, gap: u32)
        requires
            old(self).wf(),
            old(self)@.front == 0,
            old(self)@.entries.len() > 0,
            tail_index == old(self)@.entries[0].group_size - 1,
            tail_index < old(self)@.entries.len(),
            old(self)@.entries[tail_index as int].next_item_dist == Some(gap),
        ensures
            final(self).wf(),
            final(self)@.same_frame(old(self)@),
            final(self)@.entries.len() > 0,
            final(self)@.lane() == (Lane {
                back: old(self)@.lane().back + (gap as nat),
                slots: joined(old(self)@.lane().slots, tail_index as int),
                ..old(self)@.lane()
            }),
            item_total(final(self)@.lane().slots) == item_total(old(self)@.lane().slots),
            stack_total(final(self)@.lane().slots) == stack_total(old(self)@.lane().slots),
            fused(old(self)@.lane().slots) ==> fused(final(self)@.lane().slots),
    {
        let ghost before = self@;
        let ghost slots = before.lane().slots;
        let ghost t = tail_index as int;
        proof {
            lemma_bounds(before.lane());
            assert(slots[t] == before.entries[t].slot());
            assert(slots[t + 1] == before.entries[t + 1].slot());
            lemma_extent(slots[t]);
            lemma_extent(slots[t + 1]);
            lemma_pair_within_span(slots, t);
            lemma_joined(slots, t);
        }
        self.empty_space_back += gap;
        let should_merge = self.items[tail_index].stack == self.items[tail_index + 1].stack;
        if should_merge {
            self.fuse_groups(tail_index);
        } else {
            self.link_groups(tail_index);
        }
    }

    /// Shortens the distance behind the record at `tail_index` by `by`,
    /// which is less than that distance.
    fn shrink_gap(&mut self, tail_index: usize, gap: u32, by: u32)
        requires
            old(self).wf(),
            old(self)@.entries.len() > 0,
            tail_index < old(self)@.entries.len(),
            old(self)@.entries[tail_index as int].next_item_dist == Some(gap),
            by < gap,
        ensures
            final(self).wf(),
            final(self)@.same_frame(old(self)@),
            final(self)@.entries.len() > 0,
            final(self)@.lane() == (Lane {
                back: old(self)@.lane().back + (by as nat),
                slots: old(self)@.lane().slots.update(
                    tail_index as int,
                    old(self)@.lane().slots[tail_index as int].with_gap(Some((gap - by) as nat)),
                ),
                ..old(self)@.lane()
            }),
            item_total(final(self)@.lane().slots) == item_total(old(self)@.lane().slots),
            stack_total(final(self)@.lane().slots) == stack_total(old(self)@.lane().slots),
            fused(old(self)@.lane().slots) ==> fused(final(self)@.lane().slots),
    {
        let ghost before = self@;
        let ghost slots = before.lane().slots;
        let ghost t = tail_index as int;
        proof {
            lemma_bounds(before.lane());
            assert(slots[t] == before.entries[t].slot());
            lemma_gap_shrunk(slots, t, by as nat);
        }
        let nearer = self.items[tail_index].with_dist(Some(gap - by));
        set_entry(&mut self.items, tail_index, nearer);
        self.empty_space_back += by;
        proof {
            assert(slots_of(self.items@) =~= slots.update(
                t,
                slots[t].with_gap(Some((gap - by) as nat)),
            ));
            assert forall|i: int| 0 <= i < self.items@.len() implies #[trigger] group_ok(
                self.items@,
                i,
            ) by {
                assert(group_ok(before.entries, i));
                if before.entries[i].is_group_head {
                    let g = before.entries[i].group_size as int;
                    assert forall|j: int| i <= j < i + g implies (
                    #[trigger] self.items@[j]).group_size == g && (self.items@[j].is_group_tail
                        <==> j == i + g - 1) by {
                        assert(before.entries[j].group_size == g);
                    }
                }
            }
        }
    }

    /// Moves the belt by `distance` with nothing leaving or entering it:
    /// the records close up toward the head, and equal stacks that meet
    /// become one record.
    fn advance_without_connections(&mut self, distance: u32)
        requires
            old(self).wf(),
        ensures
            final(self).wf(),
            final(self)@.same_frame(old(self)@),
            final(self)@.lane() == old(self)@.lane().advanced(distance as nat),
            item_total(final(self)@.lane().slots) == item_total(old(self)@.lane().slots),
            stack_total(final(self)@.lane().slots) == stack_total(old(self)@.lane().slots),
            fused(old(self)@.lane().slots) ==> fused(final(self)@.lane().slots),
    {
        if distance == 0 || self.items.len() == 0 {
            return ;
        }
        proof {
            lemma_bounds(self@.lane());
        }
        if distance <= self.empty_space_front {
            self.empty_space_front -= distance;
            self.empty_space_back += distance;
            return ;
        }
        let mut distance_to_move: u32 = distance - self.empty_space_front;
        self.empty_space_back += self.empty_space_front;
        self.empty_space_front = 0;
        let ghost target = old(self)@.lane().advanced(distance as nat);
        while distance_to_move > 0
            invariant
                self.wf(),
                self@.same_frame(old(self)@),
                self@.front == 0,
                self@.entries.len() > 0,
                self@.lane().compacted(distance_to_move as nat) == target,
                item_total(self@.lane().slots) == item_total(old(self)@.lane().slots),
                stack_total(self@.lane().slots) == stack_total(old(self)@.lane().slots),
                fused(old(self)@.lane().slots) ==> fused(self@.lane().slots),
            decreases distance_to_move,
        {
            let ghost before = self@;
            proof {
                assert(group_ok(before.entries, 0));
                lemma_head_group_end(before.entries);
                assert(before.lane().slots[before.entries[0].group_size - 1]
                    == before.entries[before.entries[0].group_size - 1].slot());
                assert(group_ok(before.entries, before.entries[0].group_size - 1));
            }
            let tail_index: usize = (self.items[0].group_size - 1) as usize;
            match self.items[tail_index].next_item_dist {
                None => {
                    distance_to_move = 0;
                },
                Some(gap) => {
                    if gap > distance_to_move {
                        self.shrink_gap(tail_index, gap, distance_to_move);
                        distance_to_move = 0;
                    } else {
                        self.close_gap(tail_index, gap);
                        distance_to_move -= gap;
                    }
                },
            }
        }
    }

    /// Takes `n` stacks off the head record while the belt moves by their
    /// width. The record goes with its last stack.
    fn pull_front(&mut self, n: u32)
        requires
            old(self).wf(),
            old(self)@.front == 0,
            old(self)@.entries.len() > 0,
            1 <= n <= old(self)@.entries[0].stack.multiplicity,
        ensures
            final(self).wf(),
            final(self)@.same_frame(old(self)@),
            final(self)@.lane() == old(self)@.lane().pulled(n as nat),
            item_total(final(self)@.lane().slots) + (
            old(self)@.entries[0].stack.item_count as nat) * (n as nat) == item_total(
                old(self)@.lane().slots,
            ),
            stack_total(final(self)@.lane().slots) + n == stack_total(old(self)@.lane().slots),
            fused(old(self)@.lane().slots) ==> fused(final(self)@.lane().slots),
    {
        let ghost before = self@;
        proof {
            lemma_bounds(before.lane());
            assert(before.lane().slots[0] == before.entries[0].slot());
            lemma_extent(before.lane().slots[0]);
            lemma_pulled(before.lane(), n as nat);
        }
        let multiplicity: u32 = self.items[0].stack.multiplicity;
        if n < multiplicity {
            let less = self.items[0].with_multiplicity(multiplicity - n);
            set_entry(&mut self.items, 0, less);
            self.empty_space_back += n * ITEM_WIDTH;
            proof {
                assert(slots_of(self.items@) =~= before.lane().pulled(n as nat).slots);
                assert forall|i: int| 0 <= i < self.items@.len() implies #[trigger] group_ok(
                    self.items@,
                    i,
                ) by {
                    assert(group_ok(before.entries, i));
                    if before.entries[i].is_group_head {
                        let g = before.entries[i].group_size as int;
                        assert forall|j: int| i <= j < i + g implies (
                        #[trigger] self.items@[j]).group_size == g && (self.items@[j].is_group_tail
                            <==> j == i + g - 1) by {
                            assert(before.entries[j].group_size == g);
                        }
                    }
                }
            }
        } else {
            let item = self.pop_front_entry();
            match item.next_item_dist {
                Some(offset) => {
                    self.empty_space_front = offset;
                    self.empty_space_back += n * ITEM_WIDTH;
                },
                None => {
                    self.empty_space_front = self.length;
                    self.empty_space_back = self.length;
                },
            }
            proof {
                assert(slots_of(self.items@) =~= before.lane().pulled(n as nat).slots);
            }
        }
    }

    /// Moves the belt by `distance` while the connection at its head takes
    /// the stacks that reach the head. Returns the distance that was not
    /// used, and whether the connection refused the stack at the head.
    fn drain_to_output(&mut self, distance: u32, connection: &mut BeltInputConnection) -> (r: (
        u32,
        bool,
    ))
        requires
            old(self).wf(),
            old(connection).wf(),
        ensures
            final(self)@.sound(),
            final(connection).wf(),
            final(self)@.same_frame(old(self)@),
            ({
                let d = old(self)@.lane().drained(old(connection).state(), distance as nat);
                &&& final(self)@.lane() == d.lane
                &&& final(connection).state() == d.conn
                &&& r.0 == d.rest
                &&& r.1 == d.blocked
                &&& (d.remainder == 0 <==> final(self)@.lane().balanced())
                &&& (d.rest > 0 ==> d.remainder == 0)
                &&& (d.remainder > 0 ==> d.lane.slots.len() > 0)
            }),
            stack_total(final(self)@.lane().slots) <= stack_total(old(self)@.lane().slots),
            item_total(final(self)@.lane().slots) + final(connection).state().item_count
                == item_total(old(self)@.lane().slots) + old(connection).state().item_count,
            fused(old(self)@.lane().slots) ==> fused(final(self)@.lane().slots),
    {
        let ghost target = old(self)@.lane().drained(old(connection).state(), distance as nat);
        let ghost carried = item_total(old(self)@.lane().slots) + old(
            connection,
        ).state().item_count;
        let mut distance_to_move: u32 = distance;
        let mut rest: u32 = 0;
        let mut blocked: bool = false;
        loop
            invariant_except_break
                rest == 0,
                !blocked,
                self.wf(),
                connection.wf(),
                self@.lane().drained(connection.state(), distance_to_move as nat) == target,
                item_total(self@.lane().slots) + connection.state().item_count == carried,
                fused(old(self)@.lane().slots) ==> fused(self@.lane().slots),
            invariant
                self@.same_frame(old(self)@),
                stack_total(self@.lane().slots) <= stack_total(old(self)@.lane().slots),
            ensures
                self@.sound(),
                connection.wf(),
                self@.lane() == target.lane,
                connection.state() == target.conn,
                rest == target.rest,
                blocked == target.blocked,
                target.remainder == 0 <==> self@.lane().balanced(),
                target.rest > 0 ==> target.remainder == 0,
                target.remainder > 0 ==> target.lane.slots.len() > 0,
                item_total(self@.lane().slots) + connection.state().item_count == carried,
                fused(old(self)@.lane().slots) ==> fused(self@.lane().slots),
            decreases
                    self@.entries.len(),
                    (if self@.entries.len() > 0 {
                        self@.entries[0].stack.multiplicity
                    } else {
                        0
                    }),
                    self@.front,
        {
            proof {
                lemma_bounds(self@.lane());
            }
            if self.items.len() == 0 {
                rest = distance_to_move;
                break ;
            }
            let ghost before = self@;
            proof {
                assert(before.lane().slots[0] == before.entries[0].slot());
                lemma_extent(before.lane().slots[0]);
            }
            if self.empty_space_front > 0 {
                if distance_to_move < self.empty_space_front {
                    self.empty_space_front -= distance_to_move;
                    self.empty_space_back += distance_to_move;
                    break ;
                }
                distance_to_move -= self.empty_space_front;
                self.empty_space_back += self.empty_space_front;
                self.empty_space_front = 0;
            } else {
                let multiplicity: u32 = self.items[0].stack.multiplicity;
                let unit = Stack {
                    item_type: self.items[0].stack.item_type,
                    item_count: self.items[0].stack.item_count,
                    multiplicity: 1,
                };
                let allow_immediate: bool = distance_to_move == 0;
                let max_by_distance: u32 = if allow_immediate {
                    multiplicity
                } else {
                    distance_to_move / ITEM_WIDTH
                };
                if max_by_distance == 0 {
                    self.empty_space_front = distance_to_move;
                    self.empty_space_back += distance_to_move;
                    break ;
                }
                let max_by_connection: u32 = connection.max_acceptable_stacks(&unit);
                if max_by_connection == 0 {
                    rest = distance_to_move;
                    blocked = true;
                    break ;
                }
                let by_belt: u32 = if max_by_distance < multiplicity {
                    max_by_distance
                } else {
                    multiplicity
                };
                let removable: u32 = if by_belt < max_by_connection {
                    by_belt
                } else {
                    max_by_connection
                };
                let batch = Stack {
                    item_type: unit.item_type,
                    item_count: unit.item_count,
                    multiplicity: removable,
                };
                proof {
                    connection.lemma_caps();
                    lemma_max_stacks_accepted(connection.state(), unit, removable as nat);
                    assert(before.lane().slots[0].stack_of(1) == unit);
                }
                let accepted = connection.accept_stack(&batch);
                assert(accepted);
                self.pull_front(removable);
                if allow_immediate {
                    break ;
                }
                distance_to_move -= removable * ITEM_WIDTH;
                if distance_to_move == 0 {
                    break ;
                }
            }
        }
        (rest, blocked)
    }

    /// Moves the belt by `ticks` times its speed and takes whole stacks off
    /// its head as they arrive, as far as the distance goes. It stops at
    /// the first stack whose type the filter does not list, and once the
    /// number of stacks taken has reached the limit. Distance shorter than
    /// a slot that is left before a stack at the head becomes free space at
    /// both ends, and the space on the belt then no longer adds up.
    #[verifier::rlimit(40)]
    pub fn remove_while_run(
        &mut self,
        ticks: u32,
        items_filter: Option<&[ItemType]>,
        total_items_limit: Option<u32>,
    ) -> (removed: Vec<Stack>)
        requires
            old(self).wf(),
            ticks * old(self)@.speed <= u32::MAX,
        ensures
            final(self)@.sound(),
            final(self)@.same_frame(old(self)@),
            ({
                let h = old(self)@.lane().hauled(
                    (ticks * old(self)@.speed) as nat,
                    types_of(items_filter),
                    total_items_limit,
                    0,
                );
                &&& final(self)@.lane() == h.lane
                &&& removed@ == h.removed
                &&& (h.remainder == 0 <==> final(self).wf())
            }),
            item_total(final(self)@.lane().slots) + items_in(removed@) == item_total(
                old(self)@.lane().slots,
            ),
            fused(old(self)@.lane().slots) ==> fused(final(self)@.lane().slots),
    {
        let ghost filter = types_of(items_filter);
        let ghost target = old(self)@.lane().hauled(
            (ticks * old(self)@.speed) as nat,
            filter,
            total_items_limit,
            0,
        );
        let ghost carried = item_total(old(self)@.lane().slots);
        let ghost stacks = stack_total(old(self)@.lane().slots);
        let mut distance_to_move: u32 = ticks * self.speed;
        let mut removed_items: Vec<Stack> = Vec::new();
        let mut total_removed: u32 = 0;
        proof {
            lemma_bounds(self@.lane());
            assert(removed_items@ + target.removed =~= target.removed);
        }
        loop
            invariant_except_break
                self.wf(),
                ({
                    let h = self@.lane().hauled(
                        distance_to_move as nat,
                        filter,
                        total_items_limit,
                        total_removed as nat,
                    );
                    &&& removed_items@ + h.removed == target.removed
                    &&& h.lane == target.lane
                    &&& h.remainder == target.remainder
                }),
                item_total(self@.lane().slots) + items_in(removed_items@) == carried,
                stack_total(self@.lane().slots) + total_removed == stacks,
                fused(old(self)@.lane().slots) ==> fused(self@.lane().slots),
            invariant
                self@.same_frame(old(self)@),
                filter == types_of(items_filter),
                stacks * 128 <= u32::MAX,
            ensures
                self@.sound(),
                self@.lane() == target.lane,
                removed_items@ == target.removed,
                target.remainder == 0 <==> self@.lane().balanced(),
                item_total(self@.lane().slots) + items_in(removed_items@) == carried,
                fused(old(self)@.lane().slots) ==> fused(self@.lane().slots),
            decreases self@.entries.len(), self@.front,
        {
            proof {
                lemma_bounds(self@.lane());
                assert(removed_items@ + Seq::<Stack>::empty() =~= removed_items@);
            }
            if distance_to_move == 0 || self.items.len() == 0 {
                break ;
            }
            let ghost before = self@;
            proof {
                assert(before.lane().slots[0] == before.entries[0].slot());
                lemma_extent(before.lane().slots[0]);
            }
            if self.empty_space_front > 0 {
                if distance_to_move < self.empty_space_front {
                    self.empty_space_front -= distance_to_move;
                    self.empty_space_back += distance_to_move;
                    break ;
                }
                distance_to_move -= self.empty_space_front;
                self.empty_space_back += self.empty_space_front;
                self.empty_space_front = 0;
            } else {
                let item_type: ItemType = self.items[0].stack.item_type;
                let item_count: u16 = self.items[0].stack.item_count;
                let multiplicity: u32 = self.items[0].stack.multiplicity;
                let listed: bool = match items_filter {
                    Some(f) => lists_type(f, item_type),
                    None => true,
                };
                if !listed {
                    break ;
                }
                let max_by_distance: u32 = distance_to_move / ITEM_WIDTH;
                if max_by_distance == 0 {
                    self.empty_space_front = distance_to_move;
                    self.empty_space_back += distance_to_move;
                    break ;
                }
                let removable: u32 = if max_by_distance < multiplicity {
                    max_by_distance
                } else {
                    multiplicity
                };
                let stack = Stack { item_type, item_count, multiplicity: removable };
                let ghost taken = removed_items@;
                proof {
                    let out = before.lane().slots[0].stack_of(removable as nat);
                    assert(out == stack);
                    let next = before.lane().pulled(removable as nat).hauled(
                        (distance_to_move - removable * 128) as nat,
                        filter,
                        total_items_limit,
                        (total_removed + removable) as nat,
                    );
                    assert(taken.push(stack) + next.removed =~= taken + (seq![stack]
                        + next.removed));
                    assert(taken.push(stack) + Seq::<Stack>::empty() =~= taken + seq![stack]);
                    assert(taken.push(stack) =~= taken + seq![stack]);
                    lemma_items_in_concat(taken, seq![stack]);
                    lemma_items_in_single(stack);
                }
                removed_items.push(stack);
                self.pull_front(removable);
                distance_to_move -= removable * ITEM_WIDTH;
                if removable < multiplicity {
                    if distance_to_move > 0 {
                        self.empty_space_front = distance_to_move;
                        self.empty_space_back += distance_to_move;
                    }
                    break ;
                }
                total_removed += removable;
                if let Some(limit) = total_items_limit {
                    if total_removed >= limit {
                        break ;
                    }
                }
            }
        }
        removed_items
    }

    /// Puts a stack record from a connection behind the last record,
    /// touching it, or at the head of an empty belt. The free space at the
    /// tail is left to the caller.
    fn append_stack_from_connection(&mut self, stack: Stack)
        requires
            old(self)@.sound(),
            old(self)@.entries.len() < 0x4000_0000,
            stack.multiplicity >= 1,
        ensures
            final(self)@.sound(),
            final(self)@.same_frame(old(self)@),
            final(self)@.lane() == old(self)@.lane().appended(stack),
            final(self)@.entries.len() == old(self)@.entries.len() + 1,
    {
        let ghost before = self@;
        proof {
            lemma_appended(before.lane(), stack);
        }
        let count: usize = self.items.len();
        if count == 0 {
            self.empty_space_front = 0;
            self.items.push_back(
                BeltItem {
                    stack,
                    next_item_dist: None,
                    is_group_head: true,
                    is_group_tail: true,
                    group_size: 1,
                },
            );
            proof {
                assert(single_group(self.items@));
                lemma_single_group_grouped(self.items@);
                assert(slots_of(self.items@) =~= before.lane().appended(stack).slots);
            }
            return ;
        }
        let tail_group_size: u32 = self.items[count - 1].group_size;
        proof {
            lemma_group_of_tail(before.entries, count - 1);
        }
        self.items.push_back(
            BeltItem {
                stack,
                next_item_dist: None,
                is_group_head: false,
                is_group_tail: true,
                group_size: tail_group_size,
            },
        );
        let ghost pushed = self.items@;
        self.regroup(count - tail_group_size as usize, count, None);
        proof {
            let head = count - tail_group_size;
            let block = regrouped(pushed.subrange(head, count + 1), None);
            lemma_regrouped(pushed.subrange(head, count + 1), None);
            lemma_single_group_grouped(block);
            lemma_grouped_split(before.entries, head);
            assert(pushed.subrange(0, head) =~= before.entries.subrange(0, head));
            assert(pushed.subrange(count + 1, count + 1) =~= Seq::<BeltItem>::empty());
            lemma_grouped_concat(pushed.subrange(0, head), block);
            assert(self.items@ =~= pushed.subrange(0, head) + block);
            let was = before.entries.subrange(head, count as int);
            assert forall|j: int| 0 <= j < count + 1 implies #[trigger] slots_of(self.items@)[j]
                == before.lane().appended(stack).slots[j] by {
                if head <= j < count {
                    assert(was[j - head] == before.entries[j]);
                }
            }
            assert(slots_of(self.items@) =~= before.lane().appended(stack).slots);
        }
    }

    /// Puts a batch from a connection at the tail: the full stacks first,
    /// then the smaller one.
    fn append_output_batch(&mut self, batch: OutputBatch)
        requires
            old(self)@.sound(),
            old(self)@.entries.len() < 0x2000_0000,
            batch_ok(batch),
        ensures
            final(self)@.sound(),
            final(self)@.same_frame(old(self)@),
            final(self)@.lane() == (Lane {
                back: old(self)@.lane().back,
                ..old(self)@.lane().with_batch(batch)
            }),
    {
        proof {
            if batch.full_stack is Some {
                lemma_appended(self@.lane(), batch.full_stack->0);
            }
        }
        if let Some(full_stack) = batch.full_stack {
            self.append_stack_from_connection(full_stack);
        }
        proof {
            if batch.partial_stack is Some {
                lemma_appended(self@.lane(), batch.partial_stack->0);
            }
        }
        if let Some(partial_stack) = batch.partial_stack {
            self.append_stack_from_connection(partial_stack);
        }
    }

    /// Lets the connection at the tail fill the free slots there.
    fn apply_input_connection(&mut self)
        requires
            old(self)@.sound(),
            old(self)@.entries.len() < 0x2000_0000,
        ensures
            final(self)@.sound(),
            final(self)@.length == old(self)@.length,
            final(self)@.speed == old(self)@.speed,
            final(self)@.output == old(self)@.output,
            match old(self)@.input {
                Some(c) => {
                    &&& final(self)@.input matches Some(c2) && c2.stack_size() == c.stack_size() && (
                    final(self)@.lane(), c2.state()) == old(self)@.lane().fed(
                        c.state(),
                        c.stack_size(),
                    )
                },
                None => final(self)@ == old(self)@,
            },
            old(self)@.lane().balanced() ==> final(self)@.lane().balanced(),
            old(self)@.entries.len() > 0 && final(self)@.lane().balanced()
                ==> old(self)@.lane().balanced(),
            item_total(final(self)@.lane().slots) + final(self)@.input_items() == item_total(
                old(self)@.lane().slots,
            ) + old(self)@.input_items(),
            fused(old(self)@.lane().slots) ==> (fused(final(self)@.lane().slots) <==> !({
                let free = old(self)@.lane().back / (ITEM_WIDTH as nat);
                old(self)@.input matches Some(c) && (c.state().item_type matches Some(item_type)
                    && free > 0 && clashes(
                    old(self)@.lane(),
                    batch_of(item_type, c.state().item_count, c.stack_size(), free as u32),
                ))
            })),
    {
        let ghost before = self@;
        let total_space: u32 = self.empty_space_back;
        let available_slots: u32 = total_space / ITEM_WIDTH;
        let taken = self.input_connection.take();
        match taken {
            None => {},
            Some(mut connection) => {
                if available_slots > 0 {
                    proof {
                        connection.lemma_caps();
                        connection.lemma_stack_size();
                        if connection.state().item_type is Some {
                            lemma_batch_of(
                                connection.state().item_type->0,
                                connection.state().item_count,
                                connection.stack_size(),
                                available_slots,
                            );
                        }
                    }
                    match connection.take_output_batch(available_slots) {
                        Some(batch) => {
                            proof {
                                lemma_with_batch(before.lane(), batch);
                            }
                            let used_slots: u32 = batch.num_stacks();
                            self.append_output_batch(batch);
                            self.empty_space_back = total_space - used_slots * ITEM_WIDTH;
                        },
                        None => {},
                    }
                }
                self.input_connection = Some(connection);
            },
        }
    }

    /// Moves the belt by `ticks` times its speed. The connection at the
    /// head first takes the stacks that reach it; over the distance that is
    /// left the records close up toward the head, and equal stacks that
    /// meet become one record; then the connection at the tail fills the
    /// free slots there. No item is lost or made. Where distance shorter
    /// than a slot is left before a stack that the connection at the head
    /// would take, it becomes free space at both ends, and the space on the
    /// belt then no longer adds up.
    pub fn run(&mut self, ticks: u32) -> (r: Option<()>)
        requires
            old(self).wf(),
            ticks * old(self)@.speed <= u32::MAX,
        ensures
            r is None,
            final(self)@.sound(),
            final(self)@.length == old(self)@.length,
            final(self)@.speed == old(self)@.speed,
            final(self)@.input_stack_size() == old(self)@.input_stack_size(),
            ({
                let ran = old(self)@.ran((ticks * old(self)@.speed) as nat);
                &&& final(self)@.lane() == ran.lane
                &&& final(self)@.output_state() == ran.output
                &&& final(self)@.input_state() == ran.input
                &&& (ran.remainder == 0 <==> final(self).wf())
            }),
            final(self)@.all_items() == old(self)@.all_items(),
            fused(old(self)@.lane().slots) ==> (fused(final(self)@.lane().slots)
                <==> !old(self)@.refill_clashes((ticks * old(self)@.speed) as nat)),
            old(self)@.entries.len() == 0 && old(self)@.input is None && old(self)@.output is None
                ==> final(self)@ == old(self)@,
    {
        proof {
            lemma_bounds(self@.lane());
            assert(ITEM_WIDTH == 128);
        }
        let total_distance: u32 = ticks * self.speed;
        let mut distance_remaining: u32 = total_distance;
        let taken = self.output_connection.take();
        match taken {
            None => {},
            Some(mut connection) => {
                let (rest, _blocked) = self.drain_to_output(total_distance, &mut connection);
                distance_remaining = rest;
                self.output_connection = Some(connection);
            },
        }
        if distance_remaining > 0 {
            self.advance_without_connections(distance_remaining);
        }
        proof {
            lemma_len_bound(self@.lane(), old(self)@.lane());
            if old(self)@.entries.len() == 0 && old(self)@.output is None {
                assert(self@.entries =~= old(self)@.entries);
            }
        }
        self.apply_input_connection();
        None
    }

    /// Checks that the records are chained and that the space on the
    /// belt adds up.
    fn check_space(&self) -> (ok: bool)
        requires
            self@.entries.len() > 0,
        ensures
            ok == (chained(self@.lane().slots) && self@.lane().balanced()),
    {
        let ghost slots = self@.lane().slots;
        let count: usize = self.items.len();
        if self.empty_space_front > self.length {
            return false;
        }
        let mut total: u64 = self.empty_space_front as u64;
        let mut i: usize = 0;
        while i < count
            invariant
                i <= count,
                count == self.items@.len(),
                slots == slots_of(self.items@),
                total == self.empty_space_front + span(slots.subrange(0, i as int)),
                total <= self.length,
                forall|j: int|
                    0 <= j < i ==> (#[trigger] slots[j]).copies >= 1 && (slots[j].gap is None <==> j
                        == count - 1),
            decreases count - i,
        {
            let item = &self.items[i];
            proof {
                assert(slots[i as int] == self.items@[i as int].slot());
                lemma_extent(slots[i as int]);
                let next = slots.subrange(0, i + 1);
                assert(next.drop_last() =~= slots.subrange(0, i as int));
                assert(next.last() == slots[i as int]);
                lemma_totals_concat(next, slots.subrange(i + 1, count as int));
                assert(next + slots.subrange(i + 1, count as int) =~= slots);
            }
            if item.stack.multiplicity == 0 {
                return false;
            }
            let gap: u32 = match item.next_item_dist {
                Some(distance) => {
                    if i + 1 == count {
                        return false;
                    }
                    distance
                },
                None => {
                    if i + 1 != count {
                        return false;
                    }
                    0
                },
            };
            total += item.stack.multiplicity as u64 * ITEM_WIDTH as u64 + gap as u64;
            if total > self.length as u64 {
                return false;
            }
            i += 1;
        }
        proof {
            assert(slots.subrange(0, count as int) =~= slots);
        }
        total + self.empty_space_back as u64 == self.length as u64
    }

    /// Checks that every record knows its group.
    fn check_groups(&self) -> (ok: bool)
        requires
            0 < self@.entries.len() <= u32::MAX,
        ensures
            ok == grouped(self@.entries),
    {
        let ghost e = self@.entries;
        let count: usize = self.items.len();
        let mut head: usize = 0;
        proof {
            assert(e.subrange(0, 0) =~= Seq::<BeltItem>::empty());
        }
        while head < count
            invariant
                head <= count,
                count == self.items@.len(),
                count <= u32::MAX,
                e == self.items@,
                grouped(e.subrange(0, head as int)),
            decreases count - head,
        {
            let size: usize = self.items[head].group_size as usize;
            let ghost h = head as int;
            let ghost done = e.subrange(0, h);
            proof {
                if grouped(e) {
                    assert(group_ok(e, h));
                    if h > 0 {
                        assert(done.last() == e[h - 1]);
                    }
                    lemma_group_of_head(e, h);
                }
            }
            if size == 0 || size > count - head {
                return false;
            }
            let mut member: usize = head;
            while member < head + size
                invariant
                    head <= member <= head + size,
                    1 <= size <= count - head,
                    count == self.items@.len(),
                    count <= u32::MAX,
                    e == self.items@,
                    h == head,
                    size == e[h].group_size,
                    forall|j: int|
                        h <= j < member ==> {
                            &&& (#[trigger] e[j]).group_size == size
                            &&& (e[j].is_group_head <==> j == h)
                            &&& (e[j].is_group_tail <==> j == h + size - 1)
                            &&& (e[j].is_group_tail <==> e[j].next_item_dist != Some(0u32))
                        },
                    grouped(e) ==> single_group(e.subrange(h, h + size)),
                decreases head + size - member,
            {
                let item = &self.items[member];
                let touches: bool = match item.next_item_dist {
                    Some(distance) => distance == 0,
                    None => false,
                };
                let fits: bool = item.group_size as usize == size && item.is_group_head == (member
                    == head) && item.is_group_tail == (member == head + size - 1)
                    && item.is_group_tail == !touches;
                if !fits {
                    proof {
                        if grouped(e) {
                            let block = e.subrange(h, h + size);
                            assert(block[member - h] == e[member as int]);
                        }
                    }
                    return false;
                }
                member += 1;
            }
            proof {
                let block = e.subrange(h, h + size);
                assert forall|j: int| 0 <= j < block.len() implies {
                    &&& (#[trigger] block[j]).group_size == block.len()
                    &&& (block[j].is_group_head <==> j == 0)
                    &&& (block[j].is_group_tail <==> j == block.len() - 1)
                    &&& (block[j].is_group_tail <==> block[j].next_item_dist != Some(0u32))
                } by {
                    assert(block[j] == e[j + h]);
                }
                lemma_single_group_grouped(block);
                lemma_grouped_concat(done, block);
                assert(done + block =~= e.subrange(0, h + size));
            }
            head += size;
        }
        proof {
            assert(e.subrange(0, count as int) =~= e);
        }
        true
    }

    /// Checks the belt against all that holds of a well-formed belt: the
    /// records are chained, the space adds up, and every record knows its
    /// group.
    pub fn sanity_check(&self) -> (ok: bool)
        requires
            self@.ends_ok(),
        ensures
            ok == self.wf(),
    {
        if self.items.len() == 0 {
            proof {
                assert(slots_of(self.items@) =~= Seq::<Slot>::empty());
            }
            return self.empty_space_front == self.length && self.empty_space_back == self.length;
        }
        if !self.check_space() {
            return false;
        }
        proof {
            lemma_bounds(self@.lane());
            assert(ITEM_WIDTH == 128);
        }
        self.check_groups()
    }

    /// Attaches a connection at the tail, or detaches the one that is
    /// there. The type of the connection makes it one that feeds a belt.
    pub fn set_input_connection(&mut self, connection: Option<BeltOutputConnection>)
        requires
            old(self).wf(),
            connection matches Some(c) ==> c.wf(),
        ensures
            final(self).wf(),
            final(self)@ == (BeltView { input: connection, ..old(self)@ }),
    {
        self.input_connection = connection;
    }

    /// Attaches a connection at the head, or detaches the one that is
    /// there. The type of the connection makes it one that a belt feeds.
    pub fn set_output_connection(&mut self, connection: Option<BeltInputConnection>)
        requires
            old(self).wf(),
            connection matches Some(c) ==> c.wf(),
        ensures
            final(self).wf(),
            final(self)@ == (BeltView { output: connection, ..old(self)@ }),
    {
        self.output_connection = connection;
    }

    /// The connection at the tail.
    pub fn input_connection(&self) -> (r: Option<&BeltOutputConnection>)
        ensures
            match r {
                Some(c) => self@.input == Some(*c),
                None => self@.input is None,
            },
    {
        self.input_connection.as_ref()
    }

    /// The connection at the head.
    pub fn output_connection(&self) -> (r: Option<&BeltInputConnection>)
        ensures
            match r {
                Some(c) => self@.output == Some(*c),
                None => self@.output is None,
            },
    {
        self.output_connection.as_ref()
    }

    /// The connection at the tail, to fill or change it in place. The belt
    /// afterwards is the same belt with the connection as it was left.
    pub fn input_connection_mut(&mut self) -> (r: Option<&mut BeltOutputConnection>)
        ensures
            match r {
                Some(c) => old(self)@.input == Some(*c) && final(self)@ == (BeltView {
                    input: Some(*final(c)),
                    ..old(self)@
                }),
                None => old(self)@.input is None && final(self)@ == old(self)@,
            },
    {
        self.input_connection.as_mut()
    }

    /// The connection at the head, to drain or change it in place. The belt
    /// afterwards is the same belt with the connection as it was left.
    pub fn output_connection_mut(&mut self) -> (r: Option<&mut BeltInputConnection>)
        ensures
            match r {
                Some(c) => old(self)@.output == Some(*c) && final(self)@ == (BeltView {
                    output: Some(*final(c)),
                    ..old(self)@
                }),
                None => old(self)@.output is None && final(self)@ == old(self)@,
            },
    {
        self.output_connection.as_mut()
    }
}

/// A lane that holds no more stacks than a balanced one holds fewer than a
/// quarter of the records that an index can count.
proof fn lemma_len_bound(now: Lane, before: Lane)
    requires
        before.wf(),
        before.length <= u32::MAX,
        chained(now.slots),
        stack_total(now.slots) <= stack_total(before.slots),
    ensures
        now.slots.len() < 0x2000_0000,
{
    lemma_bounds(before);
    crate::logistics::lane::lemma_len_within_stacks(now.slots);
    assert(ITEM_WIDTH == 128);
}

} // verus!
