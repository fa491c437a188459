use crate::logistics::stack::Stack;
use crate::types::ItemType;
use vstd::prelude::*;

verus! {

/// The end of a belt that a connection buffer terminates, seen from the belt:
/// an `Input` connection feeds the belt's tail, an `Output` connection absorbs
/// what leaves the belt's head.
#[derive(Debug, Clone, Copy, PartialEq, Eq, Structural)]
pub enum BeltConnectionKind {
    Input,
    Output,
}

/// A connection buffer as plain values: its limit, its filter, and the one
/// item type it currently holds with the number of items of that type.
pub struct ConnectionView {
    pub item_limit: u16,
    pub item_filter: Option<Seq<ItemType>>,
    pub item_type: Option<ItemType>,
    pub item_count: nat,
}

impl ConnectionView {
    /// The caps of a buffer: it never holds more than its limit, it has a
    /// type exactly while it holds items, and that type passes the filter.
    pub open spec fn wf(self) -> bool {
        &&& self.item_count <= self.item_limit
        &&& (self.item_type is None <==> self.item_count == 0)
        &&& (self.item_type matches Some(t) ==> self.allows(t))
    }

    /// The filter lets `item_type` through. No filter lets everything through.
    pub open spec fn allows(self, item_type: ItemType) -> bool {
        match self.item_filter {
            Some(f) => f.contains(item_type),
            None => true,
        }
    }

    /// Items that still fit.
    pub open spec fn room(self) -> nat {
        (self.item_limit - self.item_count) as nat
    }

    /// The buffer is empty or already holds `item_type`.
    pub open spec fn type_fits(self, item_type: ItemType) -> bool {
        self.item_type is None || self.item_type == Some(item_type)
    }

    /// Items of `item_type` can be added, as far as the type goes.
    pub open spec fn accepts_type(self, item_type: ItemType) -> bool {
        self.allows(item_type) && self.type_fits(item_type)
    }

    /// The buffer can take one more item of `item_type`, or is empty and
    /// lets the type through.
    pub open spec fn can_take_type(self, item_type: ItemType) -> bool {
        self.allows(item_type) && (self.item_type is None || (self.item_type == Some(item_type)
            && self.item_count < self.item_limit))
    }

    /// Items of `item_type` that an additive fill can place: the room, where
    /// the type is accepted, and nothing where it is not.
    pub open spec fn capacity_for(self, item_type: ItemType) -> nat {
        if self.accepts_type(item_type) {
            self.room()
        } else {
            0
        }
    }

    /// `count` items of `item_type` can be added as a whole. Nothing at all
    /// is acceptable whenever the filter lets the type through.
    pub open spec fn can_accept(self, item_type: ItemType, count: nat) -> bool {
        self.allows(item_type) && (count == 0 || (self.type_fits(item_type) && self.item_count
            + count <= self.item_limit))
    }

    /// The buffer after `count` items of `item_type` were added.
    pub open spec fn put(self, item_type: ItemType, count: nat) -> ConnectionView {
        if count == 0 {
            self
        } else {
            ConnectionView { item_type: Some(item_type), item_count: self.item_count + count, ..self }
        }
    }

    /// The buffer after `count` items were removed; removing the last item
    /// frees the type.
    pub open spec fn take(self, count: nat) -> ConnectionView {
        if count == 0 {
            self
        } else if count >= self.item_count {
            ConnectionView { item_type: None, item_count: 0, ..self }
        } else {
            ConnectionView { item_count: (self.item_count - count) as nat, ..self }
        }
    }

    /// How many copies of a single stack fit. A record that stands for
    /// several stacks is not counted, an empty stack fits without bound.
    pub open spec fn max_stacks(self, stack: Stack) -> nat {
        if stack.multiplicity != 1 || !self.allows(stack.item_type) {
            0
        } else if stack.item_count == 0 {
            u32::MAX as nat
        } else if !self.type_fits(stack.item_type) {
            0
        } else {
            self.room() / (stack.item_count as nat)
        }
    }

    /// The buffer with another filter.
    pub open spec fn with_filter(self, filter: Option<Seq<ItemType>>) -> ConnectionView {
        ConnectionView { item_filter: filter, ..self }
    }
}

/// A filter as the sequence of types it lists.
pub open spec fn filter_view(filter: Option<Vec<ItemType>>) -> Option<Seq<ItemType>> {
    match filter {
        Some(v) => Some(v@),
        None => None,
    }
}

/// As many copies of `stack` as `max_stacks` counts, or fewer, are accepted
/// as one record.
pub proof fn lemma_max_stacks_accepted(c: ConnectionView, stack: Stack, copies: nat)
    requires
        c.wf(),
        1 <= copies <= c.max_stacks(stack),
    ensures
        c.can_accept(stack.item_type, (stack.item_count as nat) * copies),
{
    if stack.item_count > 0 {
        let size = stack.item_count as nat;
        let q = c.room() / size;
        assert(size * q <= c.room()) by (nonlinear_arith)
            requires
                size > 0,
                q == c.room() / size,
        ;
        assert(size * copies <= size * q) by (nonlinear_arith)
            requires
                copies <= q,
        ;
    } else {
        assert((stack.item_count as nat) * copies == 0) by (nonlinear_arith)
            requires
                stack.item_count == 0,
        ;
    }
}

#[derive(Debug, Clone)]
struct ConnectionState {
    item_limit: u16,
    item_filter: Option<Vec<ItemType>>,
    buffer: Option<Stack>,
}

impl View for ConnectionState {
    type V = ConnectionView;

    closed spec fn view(&self) -> ConnectionView {
        ConnectionView {
            item_limit: self.item_limit,
            item_filter: filter_view(self.item_filter),
            item_type: match self.buffer {
                Some(s) => Some(s.item_type),
                None => None,
            },
            item_count: match self.buffer {
                Some(s) => s.item_count as nat,
                None => 0,
            },
        }
    }
}

fn lists_type(types: &Vec<ItemType>, item_type: ItemType) -> (found: bool)
    ensures
        found == types@.contains(item_type),
{
    let mut i: usize = 0;
    while i < types.len()
        invariant
            i <= types.len(),
            forall|j: int| 0 <= j < i ==> types@[j] != item_type,
        decreases types.len() - i,
    {
        if types[i] == item_type {
            assert(types@[i as int] == item_type);
            return true;
        }
        i += 1;
    }
    false
}

fn filter_allows(filter: &Option<Vec<ItemType>>, item_type: ItemType) -> (ok: bool)
    ensures
        ok == match filter_view(*filter) {
            Some(f) => f.contains(item_type),
            None => true,
        },
{
    match filter {
        None => true,
        Some(types) => lists_type(types, item_type),
    }
}

/// The items that a record carries, computed without overflow.
fn items_of(stack: &Stack) -> (n: u64)
    ensures
        n == stack.total_items(),
        n <= 0xffff * 0xffff_ffff,
{
    assert((stack.item_count as nat) * (stack.multiplicity as nat) <= 0xffff * 0xffff_ffff)
        by (nonlinear_arith)
        requires
            stack.item_count <= 0xffff,
            stack.multiplicity <= 0xffff_ffff,
    ;
    stack.item_count as u64 * stack.multiplicity as u64
}

impl ConnectionState {
    closed spec fn inv(&self) -> bool {
        &&& self@.wf()
        &&& (self.buffer matches Some(s) ==> s.multiplicity == 1)
    }

    fn new(item_limit: u16, item_filter: Option<Vec<ItemType>>) -> (s: Self)
        ensures
            s.inv(),
            s@ == (ConnectionView {
                item_limit,
                item_filter: filter_view(item_filter),
                item_type: None,
                item_count: 0,
            }),
    {
        Self { item_limit, item_filter, buffer: None }
    }

    fn item_filter(&self) -> (r: Option<&[ItemType]>)
        ensures
            match r {
                Some(s) => self@.item_filter == Some(s@),
                None => self@.item_filter is None,
            },
    {
        match &self.item_filter {
            Some(v) => Some(v.as_slice()),
            None => None,
        }
    }

    fn set_item_filter(&mut self, filter: Option<Vec<ItemType>>)
        requires
            old(self).inv(),
            old(self)@.with_filter(filter_view(filter)).wf(),
        ensures
            final(self).inv(),
            final(self)@ == old(self)@.with_filter(filter_view(filter)),
    {
        self.item_filter = filter;
    }

    fn buffered_item_count(&self) -> (r: u16)
        ensures
            r == self@.item_count,
    {
        match &self.buffer {
            Some(s) => s.item_count,
            None => 0,
        }
    }

    fn is_empty(&self) -> (r: bool)
        ensures
            r == (self@.item_type is None),
    {
        self.buffer.is_none()
    }

    fn current_item_type(&self) -> (r: Option<ItemType>)
        ensures
            r == self@.item_type,
    {
        match &self.buffer {
            Some(s) => Some(s.item_type),
            None => None,
        }
    }

    fn can_take_item_type(&self, item_type: ItemType) -> (r: bool)
        ensures
            r == self@.can_take_type(item_type),
    {
        if !filter_allows(&self.item_filter, item_type) {
            return false;
        }
        match &self.buffer {
            Some(s) => s.item_type == item_type && s.item_count < self.item_limit,
            None => true,
        }
    }

    fn can_take_item_count(&self, item_count: u16) -> (r: bool)
        ensures
            r == (self@.item_count + item_count <= self@.item_limit),
    {
        let held: u32 = self.buffered_item_count() as u32;
        held + item_count as u32 <= self.item_limit as u32
    }

    fn can_accept_stack(&self, stack: &Stack) -> (r: bool)
        ensures
            r == self@.can_accept(stack.item_type, stack.total_items()),
    {
        if !filter_allows(&self.item_filter, stack.item_type) {
            return false;
        }
        let stack_items: u64 = items_of(stack);
        if stack_items == 0 {
            return true;
        }
        match &self.buffer {
            None => stack_items <= self.item_limit as u64,
            Some(existing) => {
                existing.item_type == stack.item_type && existing.item_count as u64 + stack_items
                    <= self.item_limit as u64
            },
        }
    }

    fn accept_stack(&mut self, stack: &Stack) -> (ok: bool)
        requires
            old(self).inv(),
        ensures
            final(self).inv(),
            ok == old(self)@.can_accept(stack.item_type, stack.total_items()),
            final(self)@ == if ok {
                old(self)@.put(stack.item_type, stack.total_items())
            } else {
                old(self)@
            },
    {
        if !self.can_accept_stack(stack) {
            return false;
        }
        let stack_items: u64 = items_of(stack);
        if stack_items > 0 {
            let held: u16 = self.buffered_item_count();
            self.buffer = Some(
                Stack {
                    item_type: stack.item_type,
                    item_count: held + stack_items as u16,
                    multiplicity: 1,
                },
            );
        }
        true
    }

    fn inc_item_count(&mut self, item_type: ItemType, item_count: u16) -> (leftover: u16)
        requires
            old(self).inv(),
        ensures
            final(self).inv(),
            leftover == item_count - vstd::math::min(
                item_count as int,
                old(self)@.capacity_for(item_type) as int,
            ),
            final(self)@ == old(self)@.put(item_type, (item_count - leftover) as nat),
    {
        if !filter_allows(&self.item_filter, item_type) {
            return item_count;
        }
        let held: u16 = match &self.buffer {
            Some(s) => {
                if s.item_type != item_type {
                    return item_count;
                }
                s.item_count
            },
            None => 0,
        };
        let allowed: u16 = self.item_limit - held;
        let amount_to_add: u16 = if item_count < allowed {
            item_count
        } else {
            allowed
        };
        if amount_to_add > 0 {
            self.buffer = Some(Stack { item_type, item_count: held + amount_to_add, multiplicity: 1 });
        }
        item_count - amount_to_add
    }

    fn dec_item_count(&mut self, item_count: u16) -> (leftover: u16)
        requires
            old(self).inv(),
        ensures
            final(self).inv(),
            leftover == item_count - vstd::math::min(
                item_count as int,
                old(self)@.item_count as int,
            ),
            final(self)@ == old(self)@.take((item_count - leftover) as nat),
    {
        let (item_type, held): (ItemType, u16) = match &self.buffer {
            Some(s) => (s.item_type, s.item_count),
            None => {
                return item_count;
            },
        };
        let amount_to_remove: u16 = if item_count < held {
            item_count
        } else {
            held
        };
        if amount_to_remove == held {
            self.buffer = None;
        } else {
            self.buffer = Some(Stack { item_type, item_count: held - amount_to_remove, multiplicity: 1 });
        }
        item_count - amount_to_remove
    }

    fn max_acceptable_item_count(&self) -> (r: u16)
        requires
            self.inv(),
        ensures
            r == self@.room(),
    {
        self.item_limit - self.buffered_item_count()
    }

    fn max_acceptable_stacks(&self, stack: &Stack) -> (r: u32)
        requires
            self.inv(),
        ensures
            r == self@.max_stacks(*stack),
    {
        if stack.multiplicity != 1 {
            return 0;
        }
        if !filter_allows(&self.item_filter, stack.item_type) {
            return 0;
        }
        let per_stack_items: u32 = stack.item_count as u32;
        if per_stack_items == 0 {
            return u32::MAX;
        }
        let held: u32 = match &self.buffer {
            None => 0,
            Some(existing) => {
                if existing.item_type != stack.item_type {
                    return 0;
                }
                existing.item_count as u32
            },
        };
        let remaining: u32 = self.item_limit as u32 - held;
        remaining / per_stack_items
    }
}

/// What every connection buffer offers, whichever end of a belt it is at.
pub trait Connection {
    /// The buffer as plain values.
    spec fn state(&self) -> ConnectionView;

    /// The buffer is in a valid state.
    spec fn wf(&self) -> bool;

    /// A valid buffer keeps its caps: no more items than its limit, and a
    /// held type that passes the filter.
    proof fn lemma_caps(&self)
        requires
            self.wf(),
        ensures
            self.state().wf(),
    ;

    /// The end of a belt that the buffer is for.
    spec fn kind_of(&self) -> BeltConnectionKind;

    fn kind(&self) -> (k: BeltConnectionKind)
        ensures
            k == self.kind_of(),
    ;

    fn item_limit(&self) -> (r: u16)
        ensures
            r == self.state().item_limit,
    ;

    fn item_filter(&self) -> (r: Option<&[ItemType]>)
        ensures
            match r {
                Some(s) => self.state().item_filter == Some(s@),
                None => self.state().item_filter is None,
            },
    ;

    /// Replaces the filter. The new filter has to let the held type through.
    fn set_item_filter(&mut self, filter: Option<Vec<ItemType>>)
        requires
            old(self).wf(),
            old(self).state().with_filter(filter_view(filter)).wf(),
        ensures
            final(self).wf(),
            final(self).state() == old(self).state().with_filter(filter_view(filter)),
    ;

    fn buffered_item_count(&self) -> (r: u16)
        ensures
            r == self.state().item_count,
    ;

    fn is_empty(&self) -> (r: bool)
        ensures
            r == (self.state().item_type is None),
    ;

    fn current_item_type(&self) -> (r: Option<ItemType>)
        ensures
            r == self.state().item_type,
    ;

    fn can_take_item_type(&self, item_type: ItemType) -> (r: bool)
        ensures
            r == self.state().can_take_type(item_type),
    ;

    fn can_take_item_count(&self, item_count: u16) -> (r: bool)
        ensures
            r == (self.state().item_count + item_count <= self.state().item_limit),
    ;

    fn can_accept_stack(&self, stack: &Stack) -> (r: bool)
        ensures
            r == self.state().can_accept(stack.item_type, stack.total_items()),
    ;

    /// Takes the whole record or nothing of it.
    fn accept_stack(&mut self, stack: &Stack) -> (ok: bool)
        requires
            old(self).wf(),
        ensures
            final(self).wf(),
            ok == old(self).state().can_accept(stack.item_type, stack.total_items()),
            final(self).state() == if ok {
                old(self).state().put(stack.item_type, stack.total_items())
            } else {
                old(self).state()
            },
    ;

    /// Adds as many of `item_count` items as fit and returns the rest.
    fn inc_item_count(&mut self, item_type: ItemType, item_count: u16) -> (leftover: u16)
        requires
            old(self).wf(),
        ensures
            final(self).wf(),
            leftover == item_count - vstd::math::min(
                item_count as int,
                old(self).state().capacity_for(item_type) as int,
            ),
            final(self).state() == old(self).state().put(item_type, (item_count - leftover) as nat),
    ;

    /// Removes as many of `item_count` items as are held and returns the rest.
    fn dec_item_count(&mut self, item_count: u16) -> (leftover: u16)
        requires
            old(self).wf(),
        ensures
            final(self).wf(),
            leftover == item_count - vstd::math::min(
                item_count as int,
                old(self).state().item_count as int,
            ),
            final(self).state() == old(self).state().take((item_count - leftover) as nat),
    ;

    fn max_acceptable_item_count(&self) -> (r: u16)
        requires
            self.wf(),
        ensures
            r == self.state().room(),
    ;

    fn max_acceptable_stacks(&self, stack: &Stack) -> (r: u32)
        requires
            self.wf(),
        ensures
            r == self.state().max_stacks(*stack),
    ;
}

/// The buffer at a belt's head: it absorbs the stacks that leave the belt and
/// is an input of the machine behind it.
#[derive(Debug, Clone)]
pub struct BeltInputConnection {
    state: ConnectionState,
}

impl BeltInputConnection {
/// An empty buffer that holds up to `item_limit` items of the types that
/// `item_filter` lists, or of any type where there is no filter.
    pub fn new(item_limit: u16, item_filter: Option<Vec<ItemType>>) -> (c: Self)
        ensures
            c.wf(),
            c.state() == (ConnectionView {
                item_limit,
                item_filter: filter_view(item_filter),
                item_type: None,
                item_count: 0,
            }),
    {
        Self { state: ConnectionState::new(item_limit, item_filter) }
    }
}

impl Connection for BeltInputConnection {
    closed spec fn state(&self) -> ConnectionView {
        self.state@
    }

    closed spec fn wf(&self) -> bool {
        self.state.inv()
    }

    proof fn lemma_caps(&self) {
    }

    open spec fn kind_of(&self) -> BeltConnectionKind {
        BeltConnectionKind::Output
    }

    fn kind(&self) -> (k: BeltConnectionKind) {
        BeltConnectionKind::Output
    }

    fn item_limit(&self) -> (r: u16) {
        self.state.item_limit
    }

    fn item_filter(&self) -> (r: Option<&[ItemType]>) {
        self.state.item_filter()
    }

    fn set_item_filter(&mut self, filter: Option<Vec<ItemType>>) {
        self.state.set_item_filter(filter);
    }

    fn buffered_item_count(&self) -> (r: u16) {
        self.state.buffered_item_count()
    }

    fn is_empty(&self) -> (r: bool) {
        self.state.is_empty()
    }

    fn current_item_type(&self) -> (r: Option<ItemType>) {
        self.state.current_item_type()
    }

    fn can_take_item_type(&self, item_type: ItemType) -> (r: bool) {
        self.state.can_take_item_type(item_type)
    }

    fn can_take_item_count(&self, item_count: u16) -> (r: bool) {
        self.state.can_take_item_count(item_count)
    }

    fn can_accept_stack(&self, stack: &Stack) -> (r: bool) {
        self.state.can_accept_stack(stack)
    }

    fn accept_stack(&mut self, stack: &Stack) -> (ok: bool) {
        self.state.accept_stack(stack)
    }

    fn inc_item_count(&mut self, item_type: ItemType, item_count: u16) -> (leftover: u16) {
        self.state.inc_item_count(item_type, item_count)
    }

    fn dec_item_count(&mut self, item_count: u16) -> (leftover: u16) {
        self.state.dec_item_count(item_count)
    }

    fn max_acceptable_item_count(&self) -> (r: u16) {
        self.state.max_acceptable_item_count()
    }

    fn max_acceptable_stacks(&self, stack: &Stack) -> (r: u32) {
        self.state.max_acceptable_stacks(stack)
    }
}

/// What an output connection hands to a belt at once: a record of full
/// stacks, then at most one smaller stack with what was left.
#[derive(Debug, Clone)]
pub struct OutputBatch {
    pub full_stack: Option<Stack>,
    pub partial_stack: Option<Stack>,
}

impl OutputBatch {
    /// Belt slots the batch takes up.
    pub open spec fn slots(&self) -> nat {
        (match self.full_stack {
            Some(full) => full.multiplicity as nat,
            None => 0,
        }) + (if self.partial_stack is Some {
            1nat
        } else {
            0nat
        })
    }

    /// Items the batch carries.
    pub open spec fn total_items(&self) -> nat {
        (match self.full_stack {
            Some(full) => full.total_items(),
            None => 0,
        }) + (match self.partial_stack {
            Some(partial) => partial.total_items(),
            None => 0,
        })
    }

    /// The belt slots that the batch takes up: one for each full stack and one
    /// for the smaller stack.
    pub fn num_stacks(&self) -> (used: u32)
        requires
            self.slots() <= u32::MAX,
        ensures
            used == self.slots(),
    {
        let mut used: u32 = 0;
        if let Some(full) = &self.full_stack {
            used += full.multiplicity;
        }
        if self.partial_stack.is_some() {
            used += 1;
        }
        used
    }
}

/// The batch that a buffer holding `item_count` items of `item_type` emits
/// into `max_stacks` free slots in stacks of `stack_size`: as many full
/// stacks as the items and the slots allow, then the rest, smaller than a
/// full stack, if a slot is left for it.
pub open spec fn batch_of(
    item_type: ItemType,
    item_count: nat,
    stack_size: u16,
    max_stacks: u32,
) -> OutputBatch {
    let full = vstd::math::min((item_count / (stack_size as nat)) as int, max_stacks as int);
    let rest = item_count - full * stack_size;
    OutputBatch {
        full_stack: if full > 0 {
            Some(Stack { item_type, item_count: stack_size, multiplicity: full as u32 })
        } else {
            None
        },
        partial_stack: if full < max_stacks && rest > 0 {
            Some(Stack { item_type, item_count: rest as u16, multiplicity: 1 })
        } else {
            None
        },
    }
}

/// The buffer at a belt's tail: it feeds the belt in stacks of a fixed size
/// and is an output of the machine before it.
#[derive(Debug, Clone)]
pub struct BeltOutputConnection {
    state: ConnectionState,
    output_stack_size: u16,
}

impl BeltOutputConnection {
    /// The size of the stacks that the connection emits.
    pub closed spec fn stack_size(&self) -> u16 {
        self.output_stack_size
    }

    /// The next stack to emit: a full stack, or all that is held where that
    /// is less.
    pub open spec fn next_output(&self) -> Option<Stack> {
        match self.state().item_type {
            Some(item_type) => Some(
                Stack {
                    item_type,
                    item_count: vstd::math::min(
                        self.state().item_count as int,
                        self.stack_size() as int,
                    ) as u16,
                    multiplicity: 1,
                },
            ),
            None => None,
        }
    }

    /// States that a valid connection emits stacks of at least one item.
    pub proof fn lemma_stack_size(&self)
        requires
            self.wf(),
        ensures
            self.stack_size() > 0,
    {
    }

/// An empty buffer that holds up to `item_limit` items and emits them in
/// stacks of `output_stack_size`, which is at least one.
    pub fn new(item_limit: u16, output_stack_size: u16, item_filter: Option<Vec<ItemType>>) -> (c:
        Self)
        requires
            output_stack_size > 0,
        ensures
            c.wf(),
            c.stack_size() == output_stack_size,
            c.state() == (ConnectionView {
                item_limit,
                item_filter: filter_view(item_filter),
                item_type: None,
                item_count: 0,
            }),
    {
        Self { state: ConnectionState::new(item_limit, item_filter), output_stack_size }
    }

    /// The size of the stacks that the connection emits.
    pub fn output_stack_size(&self) -> (r: u16)
        ensures
            r == self.stack_size(),
    {
        self.output_stack_size
    }

    /// Emits up to `max_stacks` stacks at once. Nothing comes out of an
    /// empty buffer or into no slot.
    pub fn take_output_batch(&mut self, max_stacks: u32) -> (r: Option<OutputBatch>)
        requires
            old(self).wf(),
        ensures
            final(self).wf(),
            final(self).stack_size() == old(self).stack_size(),
            r is Some <==> max_stacks > 0 && old(self).state().item_type is Some,
            match r {
                Some(batch) => {
                    &&& batch == batch_of(
                        old(self).state().item_type->0,
                        old(self).state().item_count,
                        old(self).stack_size(),
                        max_stacks,
                    )
                    &&& 1 <= batch.slots() <= max_stacks
                    &&& batch.total_items() <= old(self).state().item_count
                    &&& final(self).state() == old(self).state().take(batch.total_items())
                },
                None => final(self).state() == old(self).state(),
            },
    {
        if max_stacks == 0 {
            return None;
        }
        let (item_type, held): (ItemType, u16) = match &self.state.buffer {
            Some(s) => (s.item_type, s.item_count),
            None => {
                return None;
            },
        };
        let output_size: u32 = self.output_stack_size as u32;
        let items_available: u32 = held as u32;
        let possible_full: u32 = items_available / output_size;
        let full_stack_count: u32 = if possible_full < max_stacks {
            possible_full
        } else {
            max_stacks
        };
        assert(full_stack_count * output_size <= items_available) by (nonlinear_arith)
            requires
                full_stack_count <= possible_full,
                possible_full == items_available / output_size,
                output_size > 0,
        ;
        let rest: u32 = items_available - full_stack_count * output_size;
        let slots_remaining: u32 = max_stacks - full_stack_count;
        let partial_stack_items: u16 = if slots_remaining > 0 && rest > 0 {
            rest as u16
        } else {
            0
        };
        proof {
            if full_stack_count == possible_full {
                assert(rest < output_size) by (nonlinear_arith)
                    requires
                        rest == items_available - possible_full * output_size,
                        possible_full == items_available / output_size,
                        output_size > 0,
                ;
            }
            if full_stack_count == 0 {
                assert(full_stack_count * output_size == 0) by (nonlinear_arith)
                    requires
                        full_stack_count == 0,
                ;
            }
        }
        let consumed_items: u32 = full_stack_count * output_size + partial_stack_items as u32;
        let full_stack = if full_stack_count > 0 {
            Some(
                Stack {
                    item_type,
                    item_count: self.output_stack_size,
                    multiplicity: full_stack_count,
                },
            )
        } else {
            None
        };
        let partial_stack = if partial_stack_items > 0 {
            Some(Stack { item_type, item_count: partial_stack_items, multiplicity: 1 })
        } else {
            None
        };
        let remaining: u32 = items_available - consumed_items;
        if remaining == 0 {
            self.state.buffer = None;
        } else {
            self.state.buffer = Some(
                Stack { item_type, item_count: remaining as u16, multiplicity: 1 },
            );
        }
        let batch = OutputBatch { full_stack, partial_stack };
        proof {
            assert((self.output_stack_size as nat) * (full_stack_count as nat) == full_stack_count
                * output_size) by (nonlinear_arith)
                requires
                    output_size == self.output_stack_size,
            ;
            assert((partial_stack_items as nat) * 1 == partial_stack_items as nat);
            assert(batch.total_items() == consumed_items);
        }
        Some(batch)
    }

    /// The stack that `take_next_output` would emit.
    pub fn peek_next_output(&self) -> (r: Option<Stack>)
        requires
            self.wf(),
        ensures
            r == self.next_output(),
    {
        match &self.state.buffer {
            Some(s) => {
                let count: u16 = if s.item_count < self.output_stack_size {
                    s.item_count
                } else {
                    self.output_stack_size
                };
                Some(Stack { item_type: s.item_type, item_count: count, multiplicity: 1 })
            },
            None => None,
        }
    }

    /// Emits the next stack and removes its items from the buffer.
    pub fn take_next_output(&mut self) -> (r: Option<Stack>)
        requires
            old(self).wf(),
        ensures
            final(self).wf(),
            final(self).stack_size() == old(self).stack_size(),
            r == old(self).next_output(),
            final(self).state() == match r {
                Some(emitted) => old(self).state().take(emitted.item_count as nat),
                None => old(self).state(),
            },
    {
        let (item_type, held): (ItemType, u16) = match &self.state.buffer {
            Some(s) => (s.item_type, s.item_count),
            None => {
                return None;
            },
        };
        let count: u16 = if held < self.output_stack_size {
            held
        } else {
            self.output_stack_size
        };
        if held - count > 0 {
            self.state.buffer = Some(Stack { item_type, item_count: held - count, multiplicity: 1 });
        } else {
            self.state.buffer = None;
        }
        Some(Stack { item_type, item_count: count, multiplicity: 1 })
    }
}

impl Connection for BeltOutputConnection {
    closed spec fn state(&self) -> ConnectionView {
        self.state@
    }

    closed spec fn wf(&self) -> bool {
        self.state.inv() && self.output_stack_size > 0
    }

    proof fn lemma_caps(&self) {
    }

    open spec fn kind_of(&self) -> BeltConnectionKind {
        BeltConnectionKind::Input
    }

    fn kind(&self) -> (k: BeltConnectionKind) {
        BeltConnectionKind::Input
    }

    fn item_limit(&self) -> (r: u16) {
        self.state.item_limit
    }

    fn item_filter(&self) -> (r: Option<&[ItemType]>) {
        self.state.item_filter()
    }

    fn set_item_filter(&mut self, filter: Option<Vec<ItemType>>)
        ensures
            final(self).stack_size() == old(self).stack_size(),
    {
        self.state.set_item_filter(filter);
    }

    fn buffered_item_count(&self) -> (r: u16) {
        self.state.buffered_item_count()
    }

    fn is_empty(&self) -> (r: bool) {
        self.state.is_empty()
    }

    fn current_item_type(&self) -> (r: Option<ItemType>) {
        self.state.current_item_type()
    }

    fn can_take_item_type(&self, item_type: ItemType) -> (r: bool) {
        self.state.can_take_item_type(item_type)
    }

    fn can_take_item_count(&self, item_count: u16) -> (r: bool) {
        self.state.can_take_item_count(item_count)
    }

    fn can_accept_stack(&self, stack: &Stack) -> (r: bool) {
        self.state.can_accept_stack(stack)
    }

    fn accept_stack(&mut self, stack: &Stack) -> (ok: bool)
        ensures
            final(self).stack_size() == old(self).stack_size(),
    {
        self.state.accept_stack(stack)
    }

    fn inc_item_count(&mut self, item_type: ItemType, item_count: u16) -> (leftover: u16)
        ensures
            final(self).stack_size() == old(self).stack_size(),
    {
        self.state.inc_item_count(item_type, item_count)
    }

    fn dec_item_count(&mut self, item_count: u16) -> (leftover: u16)
        ensures
            final(self).stack_size() == old(self).stack_size(),
    {
        self.state.dec_item_count(item_count)
    }

    fn max_acceptable_item_count(&self) -> (r: u16) {
        self.state.max_acceptable_item_count()
    }

    fn max_acceptable_stacks(&self, stack: &Stack) -> (r: u32) {
        self.state.max_acceptable_stacks(stack)
    }
}

} // verus!
