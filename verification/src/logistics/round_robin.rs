use vstd::prelude::*;

verus! {

/// An index counted round a sequence of `len` places: one lap and no more.
pub open spec fn wrap(i: int, len: int) -> int {
    if i >= len {
        i - len
    } else {
        i
    }
}

/// How many places behind `start` the place `i` comes, going round.
pub open spec fn pos_of(i: int, start: int, len: int) -> int {
    if i >= start {
        i - start
    } else {
        i + len - start
    }
}

/// Sum of the amounts.
pub open spec fn sum(caps: Seq<nat>) -> nat
    decreases caps.len(),
{
    if caps.len() == 0 {
        0
    } else {
        sum(caps.drop_last()) + caps.last()
    }
}

/// Number of places from `lo` up to `hi` that can take an item.
pub open spec fn count_range(caps: Seq<nat>, lo: int, hi: int) -> nat
    decreases hi - lo,
{
    if lo >= hi {
        0
    } else {
        (if caps[lo] > 0 {
            1nat
        } else {
            0nat
        }) + count_range(caps, lo + 1, hi)
    }
}

/// Number of places that can take an item.
pub open spec fn ready_count(caps: Seq<nat>) -> nat {
    count_range(caps, 0, caps.len() as int)
}

/// Number of places that can take an item among those that come `p` places
/// or more behind `start`, going round once.
pub open spec fn ready_after(caps: Seq<nat>, start: int, p: int) -> nat
    decreases caps.len() - p,
{
    if p >= caps.len() || p < 0 {
        0
    } else {
        (if caps[wrap(start + p, caps.len() as int)] > 0 {
            1nat
        } else {
            0nat
        }) + ready_after(caps, start, p + 1)
    }
}

/// The last place that can take an item among those that come `p` places or
/// more behind `start`, going round once.
pub open spec fn last_ready_from(caps: Seq<nat>, start: int, p: int) -> Option<int>
    decreases caps.len() - p,
{
    if p >= caps.len() || p < 0 {
        None
    } else {
        let rest = last_ready_from(caps, start, p + 1);
        if rest is Some {
            rest
        } else if caps[wrap(start + p, caps.len() as int)] > 0 {
            Some(wrap(start + p, caps.len() as int))
        } else {
            None
        }
    }
}

/// The amounts after every place that can take an item took `q`.
pub open spec fn lowered(caps: Seq<nat>, q: nat) -> Seq<nat> {
    Seq::new(
        caps.len(),
        |i: int|
            if caps[i] > 0 {
                (caps[i] - q) as nat
            } else {
                0
            },
    )
}

/// The amounts after every place that can take an item and comes `p` places
/// or more behind `start` took one.
pub open spec fn lowered_after(caps: Seq<nat>, start: int, p: int) -> Seq<nat> {
    Seq::new(
        caps.len(),
        |i: int|
            if caps[i] > 0 && pos_of(i, start, caps.len() as int) >= p {
                (caps[i] - 1) as nat
            } else {
                caps[i]
            },
    )
}

/// How one lap ends: what the places can still take, the items that are
/// left, and the last place that got an item.
pub struct Lap {
    pub caps: Seq<nat>,
    pub left: nat,
    pub last: Option<int>,
}

/// One lap of handing out `n` items one at a time. The lap goes round the
/// places once, beginning `p` places behind `start`; each place that can
/// still take an item gets one, until the items run out.
pub open spec fn lap_from(caps: Seq<nat>, start: int, p: int, n: nat) -> Lap
    decreases caps.len() - p,
{
    if p >= caps.len() || p < 0 || n == 0 || !(0 <= start < caps.len()) {
        Lap { caps, left: n, last: None }
    } else {
        let idx = wrap(start + p, caps.len() as int);
        if caps[idx] > 0 {
            let rest = lap_from(
                caps.update(idx, (caps[idx] - 1) as nat),
                start,
                p + 1,
                (n - 1) as nat,
            );
            Lap {
                last: if rest.last is Some {
                    rest.last
                } else {
                    Some(idx)
                },
                ..rest
            }
        } else {
            lap_from(caps, start, p + 1, n)
        }
    }
}

/// How handing out ends: what the places can still take, where the next
/// item would go first, and the items that no place could take.
pub struct Dealt {
    pub caps: Seq<nat>,
    pub cursor: int,
    pub unsent: nat,
}

/// `n` items handed out one at a time in round-robin order. `caps` says
/// how many items each place can take. The first item goes to the first
/// place at or behind `cursor` that can take one, each further item to the
/// next such place behind the one that got the item before, going round and
/// round; the cursor ends behind the place that got the last item.
pub open spec fn dealt(caps: Seq<nat>, cursor: int, n: nat) -> Dealt
    decreases n,
{
    let lap = lap_from(caps, cursor, 0, n);
    if n == 0 || lap.last is None || lap.left >= n {
        Dealt { caps, cursor, unsent: n }
    } else {
        dealt(lap.caps, wrap(lap.last->0 + 1, caps.len() as int), lap.left)
    }
}

/// The sum after one amount was replaced.
pub proof fn lemma_sum_update(caps: Seq<nat>, i: int, v: nat)
    requires
        0 <= i < caps.len(),
    ensures
        sum(caps.update(i, v)) + caps[i] == sum(caps) + v,
    decreases caps.len(),
{
    let after = caps.update(i, v);
    if i == caps.len() - 1 {
        assert(after.drop_last() =~= caps.drop_last());
    } else {
        assert(after.drop_last() =~= caps.drop_last().update(i, v));
        lemma_sum_update(caps.drop_last(), i, v);
    }
}

/// The places that can take an item, counted in two parts.
pub proof fn lemma_count_split(caps: Seq<nat>, lo: int, mid: int, hi: int)
    requires
        lo <= mid <= hi,
    ensures
        count_range(caps, lo, hi) == count_range(caps, lo, mid) + count_range(caps, mid, hi),
    decreases mid - lo,
{
    if lo < mid {
        lemma_count_split(caps, lo + 1, mid, hi);
    }
}

/// Places that can take an item are as many in any two sequences in which
/// the same places can take one.
pub proof fn lemma_count_same(a: Seq<nat>, b: Seq<nat>, lo: int, hi: int)
    requires
        0 <= lo,
        hi <= a.len(),
        a.len() == b.len(),
        forall|i: int| lo <= i < hi ==> (#[trigger] a[i] > 0 <==> b[i] > 0),
    ensures
        count_range(a, lo, hi) == count_range(b, lo, hi),
    decreases hi - lo,
{
    if lo < hi {
        assert(a[lo] > 0 <==> b[lo] > 0);
        lemma_count_same(a, b, lo + 1, hi);
    }
}

/// Going round once from any place passes all places that can take an item.
pub proof fn lemma_ready_after_total(caps: Seq<nat>, start: int)
    requires
        0 <= start < caps.len(),
    ensures
        ready_after(caps, start, 0) == ready_count(caps),
{
    lemma_ready_after_range(caps, start, 0);
    lemma_count_split(caps, 0, start, caps.len() as int);
}

/// Going round counts the places from `start` to the end, then those before
/// `start`.
proof fn lemma_ready_after_range(caps: Seq<nat>, start: int, p: int)
    requires
        0 <= start < caps.len(),
        0 <= p <= caps.len(),
    ensures
        p <= caps.len() - start ==> ready_after(caps, start, p) == count_range(
            caps,
            start + p,
            caps.len() as int,
        ) + count_range(caps, 0, start),
        p >= caps.len() - start ==> ready_after(caps, start, p) == count_range(
            caps,
            p - (caps.len() - start),
            start,
        ),
    decreases caps.len() - p,
{
    if p < caps.len() {
        lemma_ready_after_range(caps, start, p + 1);
    }
}

/// What is said of the places from `p` behind `start` on holds alike of two
/// sequences that agree there.
pub proof fn lemma_frame(a: Seq<nat>, b: Seq<nat>, start: int, p: int)
    requires
        0 <= start < a.len(),
        a.len() == b.len(),
        0 <= p <= a.len(),
        forall|i: int| 0 <= i < a.len() && pos_of(i, start, a.len() as int) >= p ==> a[i] == b[i],
    ensures
        ready_after(a, start, p) == ready_after(b, start, p),
        last_ready_from(a, start, p) == last_ready_from(b, start, p),
    decreases a.len() - p,
{
    if p < a.len() {
        let idx = wrap(start + p, a.len() as int);
        assert(pos_of(idx, start, a.len() as int) == p);
        assert(a[idx] == b[idx]);
        lemma_frame(a, b, start, p + 1);
    }
}

/// Where no place can take an item, none is the last that can.
pub proof fn lemma_none_ready(caps: Seq<nat>, start: int, p: int)
    requires
        0 <= start < caps.len(),
        0 <= p <= caps.len(),
        ready_after(caps, start, p) == 0,
    ensures
        last_ready_from(caps, start, p) is None,
        forall|i: int|
            0 <= i < caps.len() && pos_of(i, start, caps.len() as int) >= p ==> caps[i] == 0,
    decreases caps.len() - p,
{
    if p < caps.len() {
        lemma_none_ready(caps, start, p + 1);
        let idx = wrap(start + p, caps.len() as int);
        assert forall|i: int|
            0 <= i < caps.len() && pos_of(i, start, caps.len() as int) >= p implies caps[i]
            == 0 by {
            if pos_of(i, start, caps.len() as int) == p {
                assert(i == idx);
            }
        }
    }
}

/// A lap with an item for every place that can take one: each such place
/// takes one, and the lap ends at the last of them.
pub proof fn lemma_lap(caps: Seq<nat>, start: int, p: int, n: nat)
    requires
        0 <= start < caps.len(),
        0 <= p <= caps.len(),
        n >= ready_after(caps, start, p),
    ensures
        lap_from(caps, start, p, n) == (Lap {
            caps: lowered_after(caps, start, p),
            left: (n - ready_after(caps, start, p)) as nat,
            last: last_ready_from(caps, start, p),
        }),
    decreases caps.len() - p,
{
    let len = caps.len() as int;
    if p >= len {
        assert(lowered_after(caps, start, p) =~= caps);
    } else if n == 0 {
        lemma_none_ready(caps, start, p);
        assert(lowered_after(caps, start, p) =~= caps);
    } else {
        let idx = wrap(start + p, len);
        assert(pos_of(idx, start, len) == p);
        if caps[idx] > 0 {
            let next = caps.update(idx, (caps[idx] - 1) as nat);
            lemma_frame(caps, next, start, p + 1);
            lemma_lap(next, start, p + 1, (n - 1) as nat);
            assert(lowered_after(next, start, p + 1) =~= lowered_after(caps, start, p));
        } else {
            lemma_lap(caps, start, p + 1, n);
            assert(lowered_after(caps, start, p + 1) =~= lowered_after(caps, start, p));
        }
    }
}

/// What holds of any lap: no place takes more than one item or more than it
/// can take, the items taken are the items handed out, and the lap hands
/// out an item exactly if a place got one.
pub proof fn lemma_lap_any(caps: Seq<nat>, start: int, p: int, n: nat)
    requires
        0 <= start < caps.len(),
        0 <= p <= caps.len(),
    ensures
        lap_from(caps, start, p, n).caps.len() == caps.len(),
        forall|i: int|
            0 <= i < caps.len() ==> #[trigger] lap_from(caps, start, p, n).caps[i] <= caps[i]
                <= lap_from(caps, start, p, n).caps[i] + 1,
        lap_from(caps, start, p, n).left <= n,
        sum(lap_from(caps, start, p, n).caps) + n == sum(caps) + lap_from(caps, start, p, n).left,
        lap_from(caps, start, p, n).last is None ==> lap_from(caps, start, p, n).caps == caps
            && lap_from(caps, start, p, n).left == n,
        lap_from(caps, start, p, n).last matches Some(l) ==> 0 <= l < caps.len() && lap_from(
            caps,
            start,
            p,
            n,
        ).left < n,
        n > 0 && ready_after(caps, start, p) > 0 ==> lap_from(caps, start, p, n).last is Some,
    decreases caps.len() - p,
{
    let len = caps.len() as int;
    if p < len && n > 0 {
        let idx = wrap(start + p, len);
        if caps[idx] > 0 {
            let next = caps.update(idx, (caps[idx] - 1) as nat);
            lemma_lap_any(next, start, p + 1, (n - 1) as nat);
            lemma_sum_update(caps, idx, (caps[idx] - 1) as nat);
            let rest = lap_from(next, start, p + 1, (n - 1) as nat);
            assert forall|i: int| 0 <= i < caps.len() implies #[trigger] lap_from(
                caps,
                start,
                p,
                n,
            ).caps[i] <= caps[i] <= lap_from(caps, start, p, n).caps[i] + 1 by {
                assert(rest.caps[i] <= next[i] <= rest.caps[i] + 1);
                if i == idx && rest.caps[i] < next[i] {
                    // The place that just took an item takes no second one
                    // in the same lap: it lies before what is left of it.
                    lemma_lap_keeps_before(next, start, p + 1, (n - 1) as nat, idx);
                }
            }
        } else {
            lemma_lap_any(caps, start, p + 1, n);
        }
    }
}

/// A lap leaves the places that it has passed as they are.
pub proof fn lemma_lap_keeps_before(caps: Seq<nat>, start: int, p: int, n: nat, i: int)
    requires
        0 <= start < caps.len(),
        0 <= p <= caps.len(),
        0 <= i < caps.len(),
        pos_of(i, start, caps.len() as int) < p,
    ensures
        lap_from(caps, start, p, n).caps.len() == caps.len(),
        lap_from(caps, start, p, n).caps[i] == caps[i],
    decreases caps.len() - p,
{
    let len = caps.len() as int;
    if p < len && n > 0 {
        let idx = wrap(start + p, len);
        assert(pos_of(idx, start, len) == p);
        if caps[idx] > 0 {
            let next = caps.update(idx, (caps[idx] - 1) as nat);
            lemma_lap_keeps_before(next, start, p + 1, (n - 1) as nat, i);
        } else {
            lemma_lap_keeps_before(caps, start, p + 1, n, i);
        }
    }
}

/// Where the place just before `start` can take an item, it is the last
/// that can, going round from `start`.
pub proof fn lemma_last_at_end(caps: Seq<nat>, start: int, p: int)
    requires
        0 <= start < caps.len(),
        0 <= p < caps.len(),
        caps[wrap(start + caps.len() - 1, caps.len() as int)] > 0,
    ensures
        last_ready_from(caps, start, p) == Some(wrap(start + caps.len() - 1, caps.len() as int)),
    decreases caps.len() - p,
{
    if p < caps.len() - 1 {
        lemma_last_at_end(caps, start, p + 1);
    } else {
        assert(last_ready_from(caps, start, p + 1) is None);
    }
}

/// Whole laps at once. Where `n` items are enough for `q` laps in which
/// every place that can take an item takes one, handing them out one at a
/// time comes to the same as giving each such place `q` items, putting the
/// cursor behind the last of these places, and handing out the rest.
pub proof fn lemma_laps(caps: Seq<nat>, cursor: int, n: nat, q: nat)
    requires
        0 <= cursor < caps.len(),
        q >= 1,
        ready_count(caps) >= 1,
        n >= q * ready_count(caps),
        forall|i: int| 0 <= i < caps.len() && caps[i] > 0 ==> caps[i] >= q,
    ensures
        last_ready_from(caps, cursor, 0) is Some,
        0 <= last_ready_from(caps, cursor, 0)->0 < caps.len(),
        dealt(caps, cursor, n) == dealt(
            lowered(caps, q),
            wrap(last_ready_from(caps, cursor, 0)->0 + 1, caps.len() as int),
            (n - q * ready_count(caps)) as nat,
        ),
    decreases q,
{
    let len = caps.len() as int;
    let k = ready_count(caps);
    lemma_ready_after_total(caps, cursor);
    assert(q * k >= k) by (nonlinear_arith)
        requires
            q >= 1,
            k >= 0,
    ;
    lemma_lap(caps, cursor, 0, n);
    lemma_lap_any(caps, cursor, 0, n);
    let lap = lap_from(caps, cursor, 0, n);
    let last = lap.last->0;
    let next = wrap(last + 1, len);
    assert(lowered_after(caps, cursor, 0) =~= lowered(caps, 1));
    assert(dealt(caps, cursor, n) == dealt(lowered(caps, 1), next, (n - k) as nat));
    lemma_last_found(caps, cursor, 0);
    if q > 1 {
        let once = lowered(caps, 1);
        assert forall|i: int| 0 <= i < len implies (#[trigger] caps[i] > 0 <==> once[i] > 0) by {}
        lemma_count_same(caps, once, 0, len);
        assert(q * k == (q - 1) * k + k) by (nonlinear_arith);
        assert forall|i: int| 0 <= i < once.len() && once[i] > 0 implies once[i] >= q - 1 by {
            assert(caps[i] >= q);
        }
        lemma_laps(once, next, (n - k) as nat, (q - 1) as nat);
        assert(lowered(once, (q - 1) as nat) =~= lowered(caps, q));
        // The laps that follow end where the first one ended.
        assert(wrap(next + len - 1, len) == last);
        assert(caps[last] >= q);
        assert(once[last] > 0);
        lemma_last_at_end(once, next, 0);
        assert(last_ready_from(once, next, 0) == Some(last));
        assert(((n - k) as nat - (q - 1) * k) as nat == (n - q * k) as nat);
    } else {
        assert(q * k == k) by (nonlinear_arith)
            requires
                q == 1,
        ;
    }
}

/// The last place that can take an item is a place that can take one.
pub proof fn lemma_last_found(caps: Seq<nat>, start: int, p: int)
    requires
        0 <= start < caps.len(),
        0 <= p <= caps.len(),
    ensures
        last_ready_from(caps, start, p) matches Some(l) ==> 0 <= l < caps.len() && caps[l] > 0,
    decreases caps.len() - p,
{
    if p < caps.len() {
        lemma_last_found(caps, start, p + 1);
    }
}

/// What holds however many items are handed out: no place takes more than
/// it can, the items taken and the items left are the items handed out, and
/// the cursor stays on a place.
pub proof fn lemma_dealt(caps: Seq<nat>, cursor: int, n: nat)
    requires
        0 <= cursor < caps.len(),
    ensures
        dealt(caps, cursor, n).caps.len() == caps.len(),
        forall|i: int| 0 <= i < caps.len() ==> #[trigger] dealt(caps, cursor, n).caps[i] <= caps[i],
        dealt(caps, cursor, n).unsent <= n,
        sum(dealt(caps, cursor, n).caps) + n == sum(caps) + dealt(caps, cursor, n).unsent,
        0 <= dealt(caps, cursor, n).cursor < caps.len(),
    decreases n,
{
    let lap = lap_from(caps, cursor, 0, n);
    lemma_lap_any(caps, cursor, 0, n);
    if !(n == 0 || lap.last is None || lap.left >= n) {
        let next = wrap(lap.last->0 + 1, caps.len() as int);
        lemma_dealt(lap.caps, next, lap.left);
        assert forall|i: int| 0 <= i < caps.len() implies #[trigger] dealt(caps, cursor, n).caps[i]
            <= caps[i] by {
            assert(dealt(lap.caps, next, lap.left).caps[i] <= lap.caps[i]);
            assert(lap.caps[i] <= caps[i]);
        }
    }
}

/// Items are left over only when no place can take any more.
pub proof fn lemma_dealt_exhausts(caps: Seq<nat>, cursor: int, n: nat)
    requires
        0 <= cursor < caps.len(),
        dealt(caps, cursor, n).unsent > 0,
    ensures
        dealt(caps, cursor, n).caps.len() == caps.len(),
        forall|i: int| 0 <= i < caps.len() ==> #[trigger] dealt(caps, cursor, n).caps[i] == 0,
        sum(caps) < n,
    decreases n,
{
    let lap = lap_from(caps, cursor, 0, n);
    lemma_lap_any(caps, cursor, 0, n);
    lemma_dealt(caps, cursor, n);
    if n == 0 || lap.last is None || lap.left >= n {
        lemma_none_ready(caps, cursor, 0);
        assert forall|i: int| 0 <= i < caps.len() implies caps[i] == 0 by {
            assert(pos_of(i, cursor, caps.len() as int) >= 0);
        }
    } else {
        let next = wrap(lap.last->0 + 1, caps.len() as int);
        lemma_dealt_exhausts(lap.caps, next, lap.left);
    }
    lemma_sum_zero(dealt(caps, cursor, n).caps);
}

/// Amounts that are all zero add up to zero.
pub proof fn lemma_sum_zero(caps: Seq<nat>)
    requires
        forall|i: int| 0 <= i < caps.len() ==> #[trigger] caps[i] == 0,
    ensures
        sum(caps) == 0,
    decreases caps.len(),
{
    if caps.len() > 0 {
        assert forall|i: int| 0 <= i < caps.drop_last().len() implies #[trigger] caps.drop_last()[i]
            == 0 by {
            assert(caps[i] == 0);
        }
        lemma_sum_zero(caps.drop_last());
        assert(caps.last() == caps[caps.len() - 1]);
    }
}

/// A lap that has no more items than places that can take one hands out
/// all of them.
pub proof fn lemma_lap_short(caps: Seq<nat>, start: int, p: int, n: nat)
    requires
        0 <= start < caps.len(),
        0 <= p <= caps.len(),
        n <= ready_after(caps, start, p),
    ensures
        lap_from(caps, start, p, n).left == 0,
    decreases caps.len() - p,
{
    let len = caps.len() as int;
    if p < len && n > 0 {
        let idx = wrap(start + p, len);
        assert(pos_of(idx, start, len) == p);
        if caps[idx] > 0 {
            let next = caps.update(idx, (caps[idx] - 1) as nat);
            lemma_frame(caps, next, start, p + 1);
            lemma_lap_short(next, start, p + 1, (n - 1) as nat);
        } else {
            lemma_lap_short(caps, start, p + 1, n);
        }
    }
}

/// The first place that can take an item among those that come `p` places or
/// more behind `cursor`, going round once.
pub open spec fn first_ready_from(caps: Seq<nat>, cursor: int, p: int) -> Option<int>
    decreases caps.len() - p,
{
    if p >= caps.len() || p < 0 {
        None
    } else if caps[wrap(cursor + p, caps.len() as int)] > 0 {
        Some(wrap(cursor + p, caps.len() as int))
    } else {
        first_ready_from(caps, cursor, p + 1)
    }
}

/// `n` items handed out one by one. Each item goes to the first place at or
/// behind the cursor that can take one, going round, and the cursor then
/// goes behind that place. Handing out ends when the items have run out or
/// no place can take one.
pub open spec fn dealt_singly(caps: Seq<nat>, cursor: int, n: nat) -> Dealt
    decreases n,
{
    if n == 0 || !(0 <= cursor < caps.len()) {
        Dealt { caps, cursor, unsent: n }
    } else {
        match first_ready_from(caps, cursor, 0) {
            None => Dealt { caps, cursor, unsent: n },
            Some(j) => {
                if 0 <= j < caps.len() {
                    dealt_singly(
                        caps.update(j, (caps[j] - 1) as nat),
                        wrap(j + 1, caps.len() as int),
                        (n - 1) as nat,
                    )
                } else {
                    Dealt { caps, cursor, unsent: n }
                }
            },
        }
    }
}

/// The first place that can take an item is a place that can take one, and
/// where no place can there is none.
pub proof fn lemma_first_ready(caps: Seq<nat>, cursor: int, p: int)
    requires
        0 <= cursor < caps.len(),
        0 <= p,
    ensures
        first_ready_from(caps, cursor, p) matches Some(j) ==> 0 <= j < caps.len() && caps[j] > 0,
        ready_after(caps, cursor, p) == 0 ==> first_ready_from(caps, cursor, p) is None,
    decreases caps.len() - p,
{
    if p < caps.len() {
        lemma_first_ready(caps, cursor, p + 1);
    }
}

/// Where a place can take an item, going round from anywhere finds a place
/// that can.
proof fn lemma_first_ready_exists(caps: Seq<nat>, cursor: int, q: int, j: int)
    requires
        0 <= cursor < caps.len(),
        0 <= j < caps.len(),
        caps[j] > 0,
        0 <= q <= pos_of(j, cursor, caps.len() as int),
    ensures
        first_ready_from(caps, cursor, q) is Some,
    decreases caps.len() - q,
{
    if q < pos_of(j, cursor, caps.len() as int) {
        lemma_first_ready_exists(caps, cursor, q + 1, j);
    } else {
        assert(wrap(cursor + q, caps.len() as int) == j);
    }
}

/// The place where a lap ends could take an item when the lap began.
proof fn lemma_lap_last_ready(caps: Seq<nat>, start: int, p: int, n: nat)
    requires
        0 <= start < caps.len(),
        0 <= p <= caps.len(),
    ensures
        lap_from(caps, start, p, n).last matches Some(l) ==> 0 <= l < caps.len() && caps[l] > 0,
    decreases caps.len() - p,
{
    let len = caps.len() as int;
    if p < len && n > 0 {
        let idx = wrap(start + p, len);
        if caps[idx] > 0 {
            let next = caps.update(idx, (caps[idx] - 1) as nat);
            lemma_lap_last_ready(next, start, p + 1, (n - 1) as nat);
            lemma_lap_keeps_before(next, start, p + 1, (n - 1) as nat, idx);
            let rest = lap_from(next, start, p + 1, (n - 1) as nat);
            if rest.last is Some && rest.last->0 == idx {
                assert(next[idx] > 0);
            }
        } else {
            lemma_lap_last_ready(caps, start, p + 1, n);
        }
    }
}

/// Going round from a place that can take nothing finds what going round
/// from the next place finds.
proof fn lemma_first_ready_shift(caps: Seq<nat>, cursor: int, q: int)
    requires
        0 <= cursor < caps.len(),
        caps[cursor] == 0,
        0 <= q < caps.len(),
    ensures
        first_ready_from(caps, cursor, q + 1) == first_ready_from(
            caps,
            wrap(cursor + 1, caps.len() as int),
            q,
        ),
    decreases caps.len() - q,
{
    let len = caps.len() as int;
    let next = wrap(cursor + 1, len);
    assert(wrap(next + q, len) == wrap(cursor + q + 1, len) || q == len - 1);
    if q < len - 1 {
        lemma_first_ready_shift(caps, cursor, q + 1);
    } else {
        assert(wrap(next + q, len) == cursor);
        assert(first_ready_from(caps, next, q + 1) is None);
    }
}

/// What is left of a lap hands out its items as handing them out one by one
/// does.
proof fn lemma_lap_singly(caps: Seq<nat>, start: int, p: int, n: nat)
    requires
        0 <= start < caps.len(),
        0 <= p <= caps.len(),
    ensures
        lap_from(caps, start, p, n).last matches Some(l) ==> dealt_singly(
            caps,
            wrap(start + p, caps.len() as int),
            n,
        ) == dealt_singly(
            lap_from(caps, start, p, n).caps,
            wrap(l + 1, caps.len() as int),
            lap_from(caps, start, p, n).left,
        ),
    decreases caps.len() - p,
{
    let len = caps.len() as int;
    if p < len && n > 0 {
        let idx = wrap(start + p, len);
        assert(wrap(idx + 1, len) == wrap(start + p + 1, len));
        if caps[idx] > 0 {
            let next = caps.update(idx, (caps[idx] - 1) as nat);
            assert(first_ready_from(caps, idx, 0) == Some(idx));
            assert(dealt_singly(caps, idx, n) == dealt_singly(
                next,
                wrap(idx + 1, len),
                (n - 1) as nat,
            ));
            lemma_lap_singly(next, start, p + 1, (n - 1) as nat);
            lemma_lap_any(next, start, p + 1, (n - 1) as nat);
        } else {
            lemma_lap_singly(caps, start, p + 1, n);
            let rest = lap_from(caps, start, p + 1, n);
            if p + 1 < len && rest.last is Some {
                lemma_lap_last_ready(caps, start, p + 1, n);
                lemma_first_ready_shift(caps, idx, 0);
                lemma_first_ready_exists(caps, wrap(idx + 1, len), 0, rest.last->0);
                lemma_first_ready(caps, wrap(idx + 1, len), 0);
                assert(first_ready_from(caps, idx, 0) == first_ready_from(caps, idx, 1));
                assert(first_ready_from(caps, idx, 0) == first_ready_from(
                    caps,
                    wrap(idx + 1, len),
                    0,
                ));
                assert(dealt_singly(caps, idx, n) == dealt_singly(caps, wrap(idx + 1, len), n));
            }
        }
    }
}

/// Handing out lap by lap is handing out one by one: what `dealt` says is
/// what comes of giving each item, one after the other, to the first place
/// at or behind the cursor that can take one.
pub proof fn lemma_dealt_singly(caps: Seq<nat>, cursor: int, n: nat)
    requires
        0 <= cursor < caps.len(),
    ensures
        dealt(caps, cursor, n) == dealt_singly(caps, cursor, n),
    decreases n,
{
    let lap = lap_from(caps, cursor, 0, n);
    lemma_lap_any(caps, cursor, 0, n);
    lemma_lap_singly(caps, cursor, 0, n);
    if n > 0 {
        if lap.last is None {
            lemma_first_ready(caps, cursor, 0);
        } else {
            lemma_dealt_singly(lap.caps, wrap(lap.last->0 + 1, caps.len() as int), lap.left);
        }
    }
}

/// Round-robin shares are fair. Where every place that can take an item
/// can take its share of `n` items, all `n` are handed out, and any two
/// such places get the same number of items or numbers that differ by one:
/// each gets `n` divided by the number of these places, or one more.
pub proof fn lemma_fair_shares(caps: Seq<nat>, cursor: int, n: nat)
    requires
        0 <= cursor < caps.len(),
        ready_count(caps) >= 1,
        forall|i: int| 0 <= i < caps.len() && caps[i] > 0 ==> caps[i] * ready_count(caps) >= n,
    ensures
        dealt(caps, cursor, n).unsent == 0,
        dealt(caps, cursor, n).caps.len() == caps.len(),
        forall|i: int|
            0 <= i < caps.len() ==> {
                let given = caps[i] - #[trigger] dealt(caps, cursor, n).caps[i];
                if caps[i] > 0 {
                    n / ready_count(caps) <= given <= n / ready_count(caps) + 1
                } else {
                    given == 0
                }
            },
{
    let len = caps.len() as int;
    let k = ready_count(caps);
    let q = n / k;
    let r = n % k;
    assert(n == q * k + r && r < k) by (nonlinear_arith)
        requires
            k >= 1,
            q == n / k,
            r == n % k,
    ;
    assert forall|i: int| 0 <= i < len && caps[i] > 0 implies caps[i] >= q && (r > 0 ==> caps[i]
        > q) by {
        let c = caps[i];
        assert(c * k >= n);
        assert(c >= q && (r > 0 ==> c > q)) by (nonlinear_arith)
            requires
                c * k >= q * k + r,
                k >= 1,
                r >= 0,
        ;
    }
    let base = if q >= 1 {
        lowered(caps, q)
    } else {
        caps
    };
    let from = if q >= 1 {
        wrap(last_ready_from(caps, cursor, 0)->0 + 1, len)
    } else {
        cursor
    };
    if q >= 1 {
        lemma_laps(caps, cursor, n, q);
        assert((n - q * k) as nat == r);
    } else {
        assert(q * k == 0) by (nonlinear_arith)
            requires
                q == 0,
        ;
    }
    assert(dealt(caps, cursor, n) == dealt(base, from, r));
    assert(base.len() == len);
    assert forall|i: int| 0 <= i < len implies (if caps[i] > 0 {
        #[trigger] base[i] == caps[i] - q
    } else {
        base[i] == 0
    }) by {}
    if r > 0 {
        assert forall|i: int| 0 <= i < len implies (#[trigger] caps[i] > 0 <==> base[i] > 0) by {
            if caps[i] > 0 {
                assert(caps[i] > q);
            }
        }
        lemma_count_same(caps, base, 0, len);
        lemma_ready_after_total(base, from);
        lemma_lap_short(base, from, 0, r);
        lemma_lap_any(base, from, 0, r);
        let lap = lap_from(base, from, 0, r);
        assert(dealt(base, from, r) == dealt(lap.caps, wrap(lap.last->0 + 1, len), 0));
        assert forall|i: int| 0 <= i < len implies ({
            let given = caps[i] - #[trigger] dealt(caps, cursor, n).caps[i];
            if caps[i] > 0 {
                q <= given <= q + 1
            } else {
                given == 0
            }
        }) by {
            assert(lap.caps[i] <= base[i] <= lap.caps[i] + 1);
        }
    }
}

/// The amounts of a vector as numbers without a bound.
pub open spec fn amounts(caps: Seq<u16>) -> Seq<nat> {
    Seq::new(caps.len(), |i: int| caps[i] as nat)
}

/// Counts the places that can take an item and finds the least amount that
/// one of them can take.
fn survey(caps: &Vec<u16>) -> (r: (usize, u16))
    ensures
        r.0 == ready_count(amounts(caps@)),
        r.0 <= caps@.len(),
        forall|i: int| 0 <= i < caps@.len() && caps@[i] > 0 ==> caps@[i] >= r.1,
        r.0 > 0 ==> r.1 > 0,
{
    let ghost a = amounts(caps@);
    let mut ready: usize = 0;
    let mut least: u16 = 0;
    let mut i: usize = 0;
    while i < caps.len()
        invariant
            i <= caps@.len(),
            a == amounts(caps@),
            ready == count_range(a, 0, i as int),
            ready <= i,
            forall|j: int| 0 <= j < i && caps@[j] > 0 ==> caps@[j] >= least,
            ready > 0 ==> least > 0,
            least == 0 ==> forall|j: int| 0 <= j < i ==> caps@[j] == 0,
        decreases caps@.len() - i,
    {
        proof {
            lemma_count_split(a, 0, i as int, i + 1);
            assert(count_range(a, i + 1, i + 1) == 0);
            assert(a[i as int] == caps@[i as int]);
        }
        let amount: u16 = caps[i];
        if amount > 0 {
            ready += 1;
            if least == 0 || amount < least {
                least = amount;
            }
        }
        i += 1;
    }
    (ready, least)
}

/// Finds the last place that can take an item, going round once from
/// `cursor`.
fn find_last_ready(caps: &Vec<u16>, cursor: usize) -> (last: Option<usize>)
    requires
        cursor < caps@.len(),
    ensures
        match last {
            Some(l) => last_ready_from(amounts(caps@), cursor as int, 0) == Some(l as int),
            None => last_ready_from(amounts(caps@), cursor as int, 0) is None,
        },
{
    let ghost a = amounts(caps@);
    let len: usize = caps.len();
    let mut last: Option<usize> = None;
    let mut p: usize = 0;
    while p < len
        invariant
            p <= len,
            len == caps@.len(),
            cursor < len,
            a == amounts(caps@),
            last matches Some(l) ==> l < len,
            last_ready_from(a, cursor as int, 0) == (if last_ready_from(a, cursor as int, p as int)
                is Some {
                last_ready_from(a, cursor as int, p as int)
            } else {
                match last {
                    Some(l) => Some(l as int),
                    None => None,
                }
            }),
        decreases len - p,
    {
        let idx: usize = if p < len - cursor {
            cursor + p
        } else {
            p - (len - cursor)
        };
        proof {
            assert(idx == wrap(cursor + p, len as int));
            assert(a[idx as int] == caps@[idx as int]);
        }
        if caps[idx] > 0 {
            last = Some(idx);
        }
        p += 1;
    }
    last
}

/// Takes `q` from every amount that is not zero.
fn lower_all(caps: &mut Vec<u16>, q: u16)
    requires
        forall|i: int| 0 <= i < old(caps)@.len() && old(caps)@[i] > 0 ==> old(caps)@[i] >= q,
    ensures
        final(caps)@.len() == old(caps)@.len(),
        amounts(final(caps)@) == lowered(amounts(old(caps)@), q as nat),
{
    let mut i: usize = 0;
    while i < caps.len()
        invariant
            i <= caps@.len(),
            caps@.len() == old(caps)@.len(),
            forall|j: int| 0 <= j < i ==> caps@[j] == (if old(caps)@[j] > 0 {
                (old(caps)@[j] - q) as u16
            } else {
                0u16
            }),
            forall|j: int| i <= j < caps@.len() ==> caps@[j] == old(caps)@[j],
            forall|j: int| 0 <= j < old(caps)@.len() && old(caps)@[j] > 0 ==> old(caps)@[j] >= q,
        decreases caps@.len() - i,
    {
        let amount: u16 = caps[i];
        if amount > 0 {
            caps[i] = amount - q;
        }
        i += 1;
    }
    assert(amounts(caps@) =~= lowered(amounts(old(caps)@), q as nat));
}

/// Hands out `count` items in one lap from `cursor`, one to each place that
/// can take one. Returns the items that are left and the last place that
/// got one.
fn one_lap(caps: &mut Vec<u16>, cursor: usize, count: u64) -> (r: (u64, Option<usize>))
    requires
        cursor < old(caps)@.len(),
    ensures
        final(caps)@.len() == old(caps)@.len(),
        lap_from(amounts(old(caps)@), cursor as int, 0, count as nat) == (Lap {
            caps: amounts(final(caps)@),
            left: r.0 as nat,
            last: match r.1 {
                Some(l) => Some(l as int),
                None => None,
            },
        }),
{
    let ghost target = lap_from(amounts(caps@), cursor as int, 0, count as nat);
    let len: usize = caps.len();
    let mut remaining: u64 = count;
    let mut last: Option<usize> = None;
    let mut p: usize = 0;
    while p < len && remaining > 0
        invariant
            p <= len,
            len == caps@.len(),
            cursor < len,
            ({
                let cur = lap_from(amounts(caps@), cursor as int, p as int, remaining as nat);
                &&& cur.caps == target.caps
                &&& cur.left == target.left
                &&& target.last == (if cur.last is Some {
                    cur.last
                } else {
                    match last {
                        Some(l) => Some(l as int),
                        None => None,
                    }
                })
            }),
        decreases len - p,
    {
        let idx: usize = if p < len - cursor {
            cursor + p
        } else {
            p - (len - cursor)
        };
        let ghost before = amounts(caps@);
        proof {
            assert(idx == wrap(cursor + p, len as int));
            assert(before[idx as int] == caps@[idx as int]);
        }
        let amount: u16 = caps[idx];
        if amount > 0 {
            caps[idx] = amount - 1;
            remaining -= 1;
            last = Some(idx);
            proof {
                assert(amounts(caps@) =~= before.update(idx as int, (before[idx as int] - 1) as nat));
            }
        }
        p += 1;
    }
    (remaining, last)
}

/// Hands out `count` items in round-robin order from `cursor` and returns
/// the items that no place could take. `caps` says how many items each place
/// can take and is lowered by what the place got. Whole laps are handed out
/// at once: the result is that of handing out one item at a time.
pub fn deal(caps: &mut Vec<u16>, cursor: &mut usize, count: u64) -> (unsent: u64)
    requires
        *old(cursor) < old(caps)@.len() || (old(caps)@.len() == 0 && *old(cursor) == 0),
    ensures
        final(caps)@.len() == old(caps)@.len(),
        ({
            let d = dealt(amounts(old(caps)@), *old(cursor) as int, count as nat);
            &&& amounts(final(caps)@) == d.caps
            &&& *final(cursor) == d.cursor
            &&& unsent == d.unsent
        }),
        dealt(amounts(old(caps)@), *old(cursor) as int, count as nat) == dealt_singly(
            amounts(old(caps)@),
            *old(cursor) as int,
            count as nat,
        ),
{
    let len: usize = caps.len();
    if len == 0 {
        return count;
    }
    proof {
        lemma_dealt_singly(amounts(caps@), *cursor as int, count as nat);
    }
    let ghost target = dealt(amounts(caps@), *cursor as int, count as nat);
    let mut remaining: u64 = count;
    while remaining > 0
        invariant
            len == caps@.len(),
            len == old(caps)@.len(),
            len > 0,
            *cursor < len,
            target == dealt(amounts(old(caps)@), *old(cursor) as int, count as nat),
            target == dealt_singly(amounts(old(caps)@), *old(cursor) as int, count as nat),
            dealt(amounts(caps@), *cursor as int, remaining as nat) == target,
        decreases remaining,
    {
        let ghost a = amounts(caps@);
        let ghost c = *cursor as int;
        let (ready, least) = survey(caps);
        proof {
            lemma_ready_after_total(a, c);
            lemma_lap_any(a, c, 0, remaining as nat);
        }
        if ready == 0 {
            proof {
                lemma_lap(a, c, 0, remaining as nat);
                lemma_none_ready(a, c, 0);
            }
            return remaining;
        }
        let laps: u64 = remaining / (ready as u64);
        if laps >= 1 {
            let q: u16 = if laps >= least as u64 {
                least
            } else {
                laps as u16
            };
            proof {
                assert(q * ready <= remaining) by (nonlinear_arith)
                    requires
                        q <= laps,
                        laps == remaining / (ready as u64),
                        ready > 0,
                ;
                assert(q * ready >= 1) by (nonlinear_arith)
                    requires
                        q >= 1,
                        ready >= 1,
                ;
                assert forall|i: int| 0 <= i < a.len() && a[i] > 0 implies a[i] >= q by {
                    assert(caps@[i] >= least);
                }
                lemma_laps(a, c, remaining as nat, q as nat);
            }
            let last = find_last_ready(caps, *cursor);
            lower_all(caps, q);
            let l: usize = last.unwrap();
            *cursor = if l + 1 == len {
                0
            } else {
                l + 1
            };
            remaining -= q as u64 * ready as u64;
        } else {
            let (left, last) = one_lap(caps, *cursor, remaining);
            match last {
                Some(l) => {
                    *cursor = if l + 1 == len {
                        0
                    } else {
                        l + 1
                    };
                    remaining = left;
                },
                None => {
                    return remaining;
                },
            }
        }
    }
    remaining
}

} // verus!
