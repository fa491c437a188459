use crate::logistics::lane::{first_tail, slot_of, Slot};
use crate::logistics::stack::Stack;
use vstd::prelude::*;

verus! {

/// One record of a belt: a stack record, the free distance to the next
/// record, and what the record knows of its group. A group is a run of
/// records that touch; its first record is its head, its last its tail, and
/// every record of it holds the number of records in it.
#[derive(Debug, Clone)]
pub struct BeltItem {
    pub stack: Stack,
    pub next_item_dist: Option<u32>,
    pub is_group_head: bool,
    pub is_group_tail: bool,
    pub group_size: u32,
}

impl BeltItem {
    /// The record without what it knows of its group.
    pub open spec fn slot(&self) -> Slot {
        slot_of(
            self.stack,
            match self.next_item_dist {
                Some(g) => Some(g as nat),
                None => None,
            },
        )
    }
}

impl BeltItem {
    /// The same record standing for `multiplicity` stacks.
    pub(crate) fn with_multiplicity(&self, multiplicity: u32) -> (r: BeltItem)
        ensures
            r == (BeltItem { stack: Stack { multiplicity, ..self.stack }, ..*self }),
    {
        BeltItem {
            stack: Stack {
                item_type: self.stack.item_type,
                item_count: self.stack.item_count,
                multiplicity,
            },
            next_item_dist: self.next_item_dist,
            is_group_head: self.is_group_head,
            is_group_tail: self.is_group_tail,
            group_size: self.group_size,
        }
    }

    /// The same record with another distance to the next one.
    pub(crate) fn with_dist(&self, dist: Option<u32>) -> (r: BeltItem)
        ensures
            r == (BeltItem { next_item_dist: dist, ..*self }),
    {
        BeltItem {
            stack: self.stack.clone(),
            next_item_dist: dist,
            is_group_head: self.is_group_head,
            is_group_tail: self.is_group_tail,
            group_size: self.group_size,
        }
    }
}

/// The records of a belt without what they know of their groups.
pub open spec fn slots_of(entries: Seq<BeltItem>) -> Seq<Slot> {
    Seq::new(entries.len(), |i: int| entries[i].slot())
}

/// The records from `h` on, as many as `h` says its group has, agree on
/// that number, and only the last of them is a tail.
pub open spec fn group_from(e: Seq<BeltItem>, h: int) -> bool {
    let g = e[h].group_size as int;
    &&& h + g <= e.len()
    &&& forall|j: int|
        h <= j < h + g ==> (#[trigger] e[j]).group_size == g && (e[j].is_group_tail <==> j == h + g
            - 1)
}

/// What record `i` knows of its group is true of the distances between the
/// records: it is a tail exactly if it does not touch the next record, a
/// head exactly if it is the first or follows a tail; a head starts a group
/// of the size it holds, and a tail ends one.
pub open spec fn group_ok(e: Seq<BeltItem>, i: int) -> bool {
    &&& e[i].group_size >= 1
    &&& (e[i].is_group_tail <==> e[i].next_item_dist != Some(0u32))
    &&& (e[i].is_group_head <==> (i == 0 || e[i - 1].is_group_tail))
    &&& (e[i].is_group_head ==> group_from(e, i))
    &&& (e[i].is_group_tail ==> {
        let h = i + 1 - e[i].group_size;
        h >= 0 && e[h].is_group_head && e[h].group_size == e[i].group_size
    })
}

/// Every record knows its group: each group has one head, one tail and the
/// size that all its records hold, and the last record ends a group.
pub open spec fn grouped(e: Seq<BeltItem>) -> bool {
    &&& (e.len() > 0 ==> e.last().is_group_tail)
    &&& forall|i: int| 0 <= i < e.len() ==> #[trigger] group_ok(e, i)
}

/// The records are one group.
pub open spec fn single_group(e: Seq<BeltItem>) -> bool {
    &&& 1 <= e.len() <= u32::MAX
    &&& forall|j: int|
        0 <= j < e.len() ==> {
            &&& (#[trigger] e[j]).group_size == e.len()
            &&& (e[j].is_group_head <==> j == 0)
            &&& (e[j].is_group_tail <==> j == e.len() - 1)
            &&& (e[j].is_group_tail <==> e[j].next_item_dist != Some(0u32))
        }
}

/// The records rewritten as one group that ends with the distance
/// `last_gap`; the stacks stay.
pub open spec fn regrouped(e: Seq<BeltItem>, last_gap: Option<u32>) -> Seq<BeltItem> {
    Seq::new(
        e.len(),
        |j: int|
            BeltItem {
                stack: e[j].stack,
                next_item_dist: if j < e.len() - 1 {
                    Some(0u32)
                } else {
                    last_gap
                },
                is_group_head: j == 0,
                is_group_tail: j == e.len() - 1,
                group_size: e.len() as u32,
            },
    )
}

/// Records rewritten as one group are one group.
pub proof fn lemma_regrouped(e: Seq<BeltItem>, last_gap: Option<u32>)
    requires
        1 <= e.len() <= u32::MAX,
        last_gap != Some(0u32),
    ensures
        single_group(regrouped(e, last_gap)),
        regrouped(e, last_gap).len() == e.len(),
{
}

/// In one group every record knows its group.
pub proof fn lemma_single_group_grouped(e: Seq<BeltItem>)
    requires
        single_group(e),
    ensures
        grouped(e),
{
    assert(group_from(e, 0));
    assert forall|i: int| 0 <= i < e.len() implies #[trigger] group_ok(e, i) by {
        if i > 0 {
            assert(!e[i - 1].is_group_tail);
        }
        assert(e[0].is_group_head);
    }
}

/// Two runs of whole groups, one behind the other, are a run of whole groups.
pub proof fn lemma_grouped_concat(a: Seq<BeltItem>, b: Seq<BeltItem>)
    requires
        grouped(a),
        grouped(b),
    ensures
        grouped(a + b),
{
    let e = a + b;
    let n = a.len() as int;
    assert forall|i: int| 0 <= i < e.len() implies #[trigger] group_ok(e, i) by {
        if i < n {
            assert(group_ok(a, i));
            assert(e[i] == a[i]);
            if i > 0 {
                assert(e[i - 1] == a[i - 1]);
            }
            if a[i].is_group_head {
                let g = a[i].group_size as int;
                assert forall|j: int| i <= j < i + g implies (#[trigger] e[j]).group_size == g && (
                e[j].is_group_tail <==> j == i + g - 1) by {
                    assert(e[j] == a[j]);
                }
            }
            if a[i].is_group_tail {
                let h = i + 1 - a[i].group_size;
                assert(e[h] == a[h]);
            }
        } else {
            let k = i - n;
            assert(group_ok(b, k));
            assert(e[i] == b[k]);
            if k > 0 {
                assert(e[i - 1] == b[k - 1]);
            } else if n > 0 {
                assert(e[i - 1] == a.last());
            }
            if b[k].is_group_head {
                let g = b[k].group_size as int;
                assert forall|j: int| i <= j < i + g implies (#[trigger] e[j]).group_size == g && (
                e[j].is_group_tail <==> j == i + g - 1) by {
                    assert(e[j] == b[j - n]);
                }
            }
            if b[k].is_group_tail {
                let h = k + 1 - b[k].group_size;
                assert(e[h + n] == b[h]);
            }
        }
    }
    if b.len() > 0 {
        assert(e.last() == b.last());
    } else if n > 0 {
        assert(e.last() == a.last());
    }
}

/// A run of whole groups cut before one of its heads gives two runs of
/// whole groups.
pub proof fn lemma_grouped_split(e: Seq<BeltItem>, k: int)
    requires
        grouped(e),
        0 <= k <= e.len(),
        k < e.len() ==> e[k].is_group_head,
    ensures
        grouped(e.subrange(0, k)),
        grouped(e.subrange(k, e.len() as int)),
{
    let a = e.subrange(0, k);
    let b = e.subrange(k, e.len() as int);
    if 0 < k < e.len() {
        assert(group_ok(e, k));
    }
    assert(k > 0 ==> e[k - 1].is_group_tail);
    assert forall|i: int| 0 <= i < a.len() implies #[trigger] group_ok(a, i) by {
        assert(group_ok(e, i));
        assert(a[i] == e[i]);
        if i > 0 {
            assert(a[i - 1] == e[i - 1]);
        }
        if e[i].is_group_head {
            let g = e[i].group_size as int;
            if i + g > k {
                assert(!e[k - 1].is_group_tail);
            }
            assert forall|j: int| i <= j < i + g implies (#[trigger] a[j]).group_size == g && (
            a[j].is_group_tail <==> j == i + g - 1) by {
                assert(a[j] == e[j]);
            }
        }
        if e[i].is_group_tail {
            let h = i + 1 - e[i].group_size;
            assert(a[h] == e[h]);
        }
    }
    if k > 0 {
        assert(a.last() == e[k - 1]);
    }
    assert forall|i: int| 0 <= i < b.len() implies #[trigger] group_ok(b, i) by {
        assert(group_ok(e, i + k));
        assert(b[i] == e[i + k]);
        if i > 0 {
            assert(b[i - 1] == e[i + k - 1]);
        }
        if e[i + k].is_group_head {
            let g = e[i + k].group_size as int;
            assert forall|j: int| i <= j < i + g implies (#[trigger] b[j]).group_size == g && (
            b[j].is_group_tail <==> j == i + g - 1) by {
                assert(b[j] == e[j + k]);
            }
        }
        if e[i + k].is_group_tail {
            let h = i + k + 1 - e[i + k].group_size;
            assert(group_ok(e, h));
            if h < k {
                assert(!e[k - 1].is_group_tail);
            }
            assert(b[h - k] == e[h]);
        }
    }
    if b.len() > 0 {
        assert(b.last() == e.last());
    }
}

/// The group of a head, taken out of a run of whole groups, is one group,
/// and what follows it starts with a head.
pub proof fn lemma_group_of_head(e: Seq<BeltItem>, h: int)
    requires
        grouped(e),
        0 <= h < e.len(),
        e[h].is_group_head,
        e.len() <= u32::MAX,
    ensures
        h + e[h].group_size <= e.len(),
        single_group(e.subrange(h, h + e[h].group_size)),
        e[h + e[h].group_size - 1].is_group_tail,
        h + e[h].group_size < e.len() ==> e[h + e[h].group_size].is_group_head,
{
    assert(group_ok(e, h));
    let g = e[h].group_size as int;
    let b = e.subrange(h, h + g);
    assert forall|j: int| 0 <= j < b.len() implies {
        &&& (#[trigger] b[j]).group_size == b.len()
        &&& (b[j].is_group_head <==> j == 0)
        &&& (b[j].is_group_tail <==> j == b.len() - 1)
        &&& (b[j].is_group_tail <==> b[j].next_item_dist != Some(0u32))
    } by {
        assert(b[j] == e[j + h]);
        assert(group_ok(e, j + h));
        if j > 0 {
            assert(!e[j + h - 1].is_group_tail);
        }
    }
    if h + g < e.len() {
        assert(group_ok(e, h + g));
        assert(e[h + g - 1].is_group_tail);
    }
}

/// The group of a tail starts as many records before its end as the tail
/// says the group has.
pub proof fn lemma_group_of_tail(e: Seq<BeltItem>, t: int)
    requires
        grouped(e),
        0 <= t < e.len(),
        e[t].is_group_tail,
        e.len() <= u32::MAX,
    ensures
        0 <= t + 1 - e[t].group_size,
        e[t + 1 - e[t].group_size].is_group_head,
        single_group(e.subrange(t + 1 - e[t].group_size, t + 1)),
{
    assert(group_ok(e, t));
    let h = t + 1 - e[t].group_size;
    lemma_group_of_head(e, h);
}

/// In a run of whole groups the head group ends where the records stop
/// touching.
pub proof fn lemma_head_group_end(e: Seq<BeltItem>)
    requires
        grouped(e),
        e.len() > 0,
    ensures
        first_tail(slots_of(e), 0) == e[0].group_size - 1,
        e[0].group_size <= e.len(),
{
    assert(group_ok(e, 0));
    lemma_first_tail_at(e, 0, e[0].group_size - 1);
}

/// The group of record `i` ends at the first tail at or behind it.
proof fn lemma_first_tail_at(e: Seq<BeltItem>, i: int, t: int)
    requires
        grouped(e),
        0 <= i <= t < e.len(),
        e[t].is_group_tail,
        forall|j: int| i <= j < t ==> !(#[trigger] e[j]).is_group_tail,
    ensures
        first_tail(slots_of(e), i) == t,
    decreases t - i,
{
    let s = slots_of(e);
    assert(s[i] == e[i].slot());
    assert(group_ok(e, i));
    if i < t {
        assert(!e[i].is_group_tail);
        assert(s[i].touches_next());
        lemma_first_tail_at(e, i + 1, t);
    } else {
        assert(!s[i].touches_next());
    }
}

/// The head of the group that record `i` is in: the nearest head at or
/// before it.
pub open spec fn group_start(e: Seq<BeltItem>, i: int) -> int
    decreases i,
{
    if i <= 0 || e[i].is_group_head {
        i
    } else {
        group_start(e, i - 1)
    }
}

/// The group law. Where every record knows its group, each record lies in
/// a group that begins with a head and has as many records as that head
/// holds. All records of the group hold that size; the first of them and no
/// other is a head, the last of them and no other is a tail; inside the
/// group every record touches the next, and the last record does not touch
/// what follows.
pub proof fn lemma_group_law(e: Seq<BeltItem>, i: int)
    requires
        grouped(e),
        0 <= i < e.len(),
    ensures
        ({
            let h = group_start(e, i);
            let g = e[h].group_size as int;
            &&& 0 <= h <= i < h + g <= e.len()
            &&& forall|j: int|
                h <= j < h + g ==> {
                    &&& (#[trigger] e[j]).group_size == g
                    &&& (e[j].is_group_head <==> j == h)
                    &&& (e[j].is_group_tail <==> j == h + g - 1)
                    &&& (e[j].next_item_dist == Some(0u32) <==> j < h + g - 1)
                }
        }),
    decreases i,
{
    assert(group_ok(e, i));
    if i == 0 || e[i].is_group_head {
        let h = i;
        let g = e[h].group_size as int;
        assert(group_ok(e, 0));
        assert forall|j: int| h <= j < h + g implies {
            &&& (#[trigger] e[j]).group_size == g
            &&& (e[j].is_group_head <==> j == h)
            &&& (e[j].is_group_tail <==> j == h + g - 1)
            &&& (e[j].next_item_dist == Some(0u32) <==> j < h + g - 1)
        } by {
            assert(group_ok(e, j));
            if j > h {
                assert(!e[j - 1].is_group_tail);
            }
        }
    } else {
        lemma_group_law(e, i - 1);
        let h = group_start(e, i - 1);
        let g = e[h].group_size as int;
        assert(!e[i - 1].is_group_tail);
        assert(e[i - 1].is_group_tail <==> i - 1 == h + g - 1);
    }
}

} // verus!
