use vstd::prelude::*;
use vstd::std_specs::cmp::PartialEqSpecImpl;

verus! {

/// A bundle of like items. A record may stand for several identical stacks
/// lying next to each other; `multiplicity` counts them.
#[derive(Debug)]
pub struct Stack {
    pub item_type: u16,
    pub item_count: u16,
    pub multiplicity: u32,
}

impl Stack {
    /// Items carried by this record: the size of one stack times the number
    /// of stacks it stands for.
    pub open spec fn total_items(&self) -> nat {
        (self.item_count as nat) * (self.multiplicity as nat)
    }

    /// A single stack of `item_count` items of `item_type`.
    pub fn new(item_type: u16, item_count: u16) -> (s: Self)
        ensures
            s == (Stack { item_type, item_count, multiplicity: 1 }),
    {
        Self { item_type, item_count, multiplicity: 1 }
    }

    /// The stack holds no items.
    pub fn is_empty(&self) -> (b: bool)
        ensures
            b == (self.item_count == 0),
    {
        self.item_count == 0
    }

    /// Takes `count` items off the stack as a single stack of their own, where
    /// `count` is less than the stack holds. The multiplicity stays with the
    /// stack.
    pub fn split(&mut self, count: u16) -> (r: Option<Stack>)
        ensures
            count >= old(self).item_count ==> r is None && *final(self) == *old(self),
            count < old(self).item_count ==> r == Some(
                Stack { item_type: old(self).item_type, item_count: count, multiplicity: 1 },
            ) && *final(self) == (Stack {
                item_count: (old(self).item_count - count) as u16,
                ..*old(self)
            }),
    {
        if count >= self.item_count {
            return None;
        }
        self.item_count -= count;
        Some(Stack { item_type: self.item_type, item_count: count, multiplicity: 1 })
    }
}

impl Clone for Stack {
    fn clone(&self) -> (s: Self)
        ensures
            s == *self,
    {
        Stack {
            item_type: self.item_type,
            item_count: self.item_count,
            multiplicity: self.multiplicity,
        }
    }
}

/// Two records are stack-equal when they agree on type and size; the
/// multiplicity is not compared.
impl PartialEq for Stack {
    fn eq(&self, other: &Self) -> (b: bool) {
        self.item_type == other.item_type && self.item_count == other.item_count
    }
}

impl Eq for Stack {}

impl PartialEqSpecImpl for Stack {
    open spec fn obeys_eq_spec() -> bool {
        true
    }

    open spec fn eq_spec(&self, other: &Self) -> bool {
        self.item_type == other.item_type && self.item_count == other.item_count
    }
}

} // verus!
