use vstd::prelude::*;

use crate::Position;

verus! {

/// Time gap above which a leg is cut when one end is close to the ground.
pub const LOW_GAP_MS: i64 = 300_000;

/// Time gap above which a leg is cut regardless of altitude.
pub const BLACKOUT_GAP_MS: i64 = 36_000_000;

/// Altitude in feet below which a long gap counts as a landing.
pub const LOW_ALTITUDE_FT: i64 = 10_000;

/// A transition lost the signal in a way that indicates a landing in
/// between: one end is flying and either the gap exceeds five minutes with
/// one end below 10 000 ft, or the gap exceeds ten hours.
pub open spec fn spec_grounded_heuristic(prev: Position, cur: Position) -> bool {
    let is_flying = prev.spec_flying() || cur.spec_flying();
    let gap = cur.datetime_ms - prev.datetime_ms;
    let lost_close_to_ground = gap > LOW_GAP_MS && (cur.spec_altitude() < LOW_ALTITUDE_FT
        || prev.spec_altitude() < LOW_ALTITUDE_FT);
    let lost_somewhere = gap > BLACKOUT_GAP_MS;
    is_flying && (lost_close_to_ground || lost_somewhere)
}

/// The transition `(prev, cur)` ends a leg.
pub open spec fn spec_landed(prev: Position, cur: Position) -> bool {
    (prev.spec_flying() && !cur.spec_flying()) || spec_grounded_heuristic(prev, cur)
}

/// The transition `(prev, cur)` contributes nothing to a leg.
pub open spec fn spec_is_grounded(prev: Position, cur: Position) -> bool {
    (!prev.spec_flying() && !cur.spec_flying()) || spec_grounded_heuristic(prev, cur)
}

fn grounded_heuristic(prev: &Position, cur: &Position) -> (r: bool)
    ensures
        r == spec_grounded_heuristic(*prev, *cur),
{
    let is_flying = prev.flying() || cur.flying();
    if !is_flying {
        return false;
    }
    let gap: i128 = cur.datetime_ms as i128 - prev.datetime_ms as i128;
    let lost_close_to_ground = gap > LOW_GAP_MS as i128 && (cur.altitude() < LOW_ALTITUDE_FT
        || prev.altitude() < LOW_ALTITUDE_FT);
    let lost_somewhere = gap > BLACKOUT_GAP_MS as i128;
    is_flying && (lost_close_to_ground || lost_somewhere)
}

fn landed(prev: &Position, cur: &Position) -> (r: bool)
    ensures
        r == spec_landed(*prev, *cur),
{
    (prev.flying() && cur.grounded()) || grounded_heuristic(prev, cur)
}

fn is_grounded(prev: &Position, cur: &Position) -> (r: bool)
    ensures
        r == spec_is_grounded(*prev, *cur),
{
    (prev.grounded() && cur.grounded()) || grounded_heuristic(prev, cur)
}

/// The state machine over the remaining input `rest`, with `prev` the last
/// position seen and `acc` the positions of the leg under construction:
/// the sequences of positions of the legs still to be emitted.
pub open spec fn machine(
    prev: Position,
    rest: Seq<Position>,
    acc: Seq<Position>,
) -> Seq<Seq<Position>>
    decreases rest.len(),
{
    if rest.len() == 0 {
        if acc.len() == 0 {
            Seq::empty()
        } else {
            seq![acc]
        }
    } else {
        let cur = rest[0];
        let acc1 = if !spec_is_grounded(prev, cur) {
            (if acc.len() == 0 {
                seq![prev]
            } else {
                acc
            }).push(cur)
        } else {
            acc
        };
        if spec_landed(prev, cur) && acc1.len() > 0 {
            seq![acc1] + machine(cur, rest.skip(1), Seq::empty())
        } else {
            machine(cur, rest.skip(1), acc1)
        }
    }
}

/// The position sequences of the legs that the state machine identifies in
/// `ps`, before any filtering.
pub open spec fn legs_of(ps: Seq<Position>) -> Seq<Seq<Position>> {
    if ps.len() == 0 {
        Seq::empty()
    } else {
        machine(ps[0], ps.skip(1), Seq::empty())
    }
}

/// Every leg that the state machine emits holds at least one position.
pub proof fn lemma_machine_nonempty(prev: Position, rest: Seq<Position>, acc: Seq<Position>)
    ensures
        forall|i: int|
            0 <= i < machine(prev, rest, acc).len() ==> #[trigger] machine(
                prev,
                rest,
                acc,
            )[i].len() > 0,
    decreases rest.len(),
{
    if rest.len() == 0 {
        if acc.len() > 0 {
            assert(machine(prev, rest, acc) == seq![acc]);
            assert(machine(prev, rest, acc)[0].len() > 0);
        }
    } else {
        let cur = rest[0];
        let acc1 = if !spec_is_grounded(prev, cur) {
            (if acc.len() == 0 {
                seq![prev]
            } else {
                acc
            }).push(cur)
        } else {
            acc
        };
        if spec_landed(prev, cur) && acc1.len() > 0 {
            assert(machine(prev, rest, acc) == seq![acc1] + machine(
                cur,
                rest.skip(1),
                Seq::empty(),
            ));
            lemma_machine_nonempty(cur, rest.skip(1), Seq::empty());
            assert forall|i: int|
                0 <= i < machine(prev, rest, acc).len() implies #[trigger] machine(
                prev,
                rest,
                acc,
            )[i].len() > 0 by {
                if i == 0 {
                    assert(machine(prev, rest, acc)[0] == acc1);
                } else {
                    assert(machine(prev, rest, acc)[i] == machine(
                        cur,
                        rest.skip(1),
                        Seq::empty(),
                    )[i - 1]);
                }
            }
        } else {
            lemma_machine_nonempty(cur, rest.skip(1), acc1);
            assert(machine(prev, rest, acc) == machine(cur, rest.skip(1), acc1));
        }
    }
}

/// Every leg that the state machine identifies in `ps` is non-empty.
pub proof fn lemma_legs_of_nonempty(ps: Seq<Position>)
    ensures
        forall|i: int|
            0 <= i < legs_of(ps).len() ==> #[trigger] legs_of(ps)[i].len() > 0,
{
    if ps.len() > 0 {
        lemma_machine_nonempty(ps[0], ps.skip(1), Seq::empty());
    }
}

/// A leg: one non-stop flight, given by its positions in stream order.
#[derive(Debug, Clone, PartialEq)]
pub struct Leg {
    positions: Vec<Position>,
}

impl Leg {
    /// The positions of the leg, as a sequence.
    pub closed spec fn pos_seq(self) -> Seq<Position> {
        self.positions@
    }

    pub fn new(positions: Vec<Position>) -> (r: Leg)
        ensures
            r.pos_seq() == positions@,
    {
        Leg { positions }
    }

    /// Positions of the leg.
    pub fn positions(&self) -> (r: &[Position])
        ensures
            r@ == self.pos_seq(),
    {
        self.positions.as_slice()
    }

    /// Leg duration in milliseconds.
    pub fn duration(&self) -> (r: i64)
        requires
            self.pos_seq().len() > 0,
            self.pos_seq()[0].wf(),
            self.pos_seq().last().wf(),
        ensures
            r == self.pos_seq().last().datetime_ms - self.pos_seq()[0].datetime_ms,
    {
        self.to().datetime_ms - self.from().datetime_ms
    }

    pub fn from(&self) -> (r: &Position)
        requires
            self.pos_seq().len() > 0,
        ensures
            *r == self.pos_seq()[0],
    {
        &self.positions[0]
    }

    pub fn to(&self) -> (r: &Position)
        requires
            self.pos_seq().len() > 0,
        ensures
            *r == self.pos_seq().last(),
    {
        &self.positions[self.positions.len() - 1]
    }
}

/// The position sequences of a list of legs, in order.
pub open spec fn legs_views(s: Seq<Leg>) -> Seq<Seq<Position>> {
    s.map_values(|l: Leg| l.pos_seq())
}

/// Walks a position stream and yields the legs that the landing rules
/// identify, in stream order.
pub struct Legs {
    legs: Vec<Leg>,
}

impl Legs {
    /// The legs not yet yielded.
    pub closed spec fn remaining(self) -> Seq<Seq<Position>> {
        legs_views(self.legs@)
    }

    pub fn new(positions: Vec<Position>) -> (r: Legs)
        ensures
            r.remaining() == legs_of(positions@),
    {
        broadcast use vstd::seq_lib::group_seq_properties;

        let ghost all = positions@;
        let mut legs: Vec<Leg> = Vec::new();
        if positions.len() == 0 {
            proof {
                assert(legs_views(legs@) =~= legs_of(all));
            }
            return Legs { legs };
        }
        let mut prev: Position = positions[0];
        let mut sequence: Vec<Position> = Vec::new();
        let mut i: usize = 1;
        while i < positions.len()
            invariant
                all == positions@,
                1 <= i <= all.len(),
                all.len() > 0,
                prev == all[i as int - 1],
                legs_of(all) =~= legs_views(legs@) + machine(prev, all.skip(i as int), sequence@),
            decreases all.len() - i,
        {
            let ghost rest = all.skip(i as int);
            let ghost acc0 = sequence@;
            let cur = positions[i];
            proof {
                assert(rest[0] == cur);
                assert(rest.skip(1) =~= all.skip(i as int + 1));
            }
            if !is_grounded(&prev, &cur) {
                if sequence.len() == 0 {
                    sequence.push(prev);
                }
                sequence.push(cur);
                proof {
                    assert(sequence@ =~= (if acc0.len() == 0 {
                        seq![prev]
                    } else {
                        acc0
                    }).push(cur));
                }
            }
            if landed(&prev, &cur) {
                if sequence.len() > 0 {
                    let full = Leg { positions: sequence };
                    sequence = Vec::new();
                    legs.push(full);
                    proof {
                        assert(legs_views(legs@) =~= legs_views(legs@.drop_last()).push(
                            legs@.last().pos_seq(),
                        ));
                    }
                }
            }
            prev = cur;
            i = i + 1;
        }
        proof {
            assert(all.skip(all.len() as int) =~= Seq::<Position>::empty());
        }
        if sequence.len() > 0 {
            let full = Leg { positions: sequence };
            legs.push(full);
            proof {
                assert(legs_views(legs@) =~= legs_views(legs@.drop_last()).push(
                    legs@.last().pos_seq(),
                ));
            }
        }
        proof {
            assert(legs_views(legs@) =~= legs_of(all));
        }
        Legs { legs }
    }

    /// The identified legs, in order.
    pub fn into_legs(self) -> (r: Vec<Leg>)
        ensures
            legs_views(r@) == self.remaining(),
    {
        self.legs
    }

    /// Yields the next leg, or `None` when all have been yielded.
    pub fn next(&mut self) -> (r: Option<Leg>)
        ensures
            match r {
                Some(l) => {
                    &&& old(self).remaining().len() > 0
                    &&& l.pos_seq() == old(self).remaining()[0]
                    &&& final(self).remaining() =~= old(self).remaining().skip(1)
                },
                None => {
                    &&& old(self).remaining().len() == 0
                    &&& final(self).remaining() == old(self).remaining()
                },
            },
    {
        if self.legs.len() > 0 {
            let l = self.legs.remove(0);
            proof {
                assert(legs_views(self.legs@) =~= legs_views(old(self).legs@).skip(1));
            }
            Some(l)
        } else {
            None
        }
    }
}

/// A leg survives the post-filter: its duration is at least five minutes
/// and the great-circle distance `d` between its ends is at least three
/// kilometres.
pub open spec fn spec_keep(l: Seq<Position>, d: u64) -> bool {
    &&& l.len() > 0
    &&& l.last().datetime_ms - l[0].datetime_ms >= LOW_GAP_MS
    &&& d >= 3000
}

/// The legs of `views` that the post-filter keeps, given for each leg the
/// great-circle distance in metres between its first and last position.
pub open spec fn spec_filter_legs(views: Seq<Seq<Position>>, ds: Seq<u64>) -> Seq<Seq<Position>>
    decreases views.len(),
{
    if views.len() == 0 {
        Seq::empty()
    } else {
        let init = spec_filter_legs(views.drop_last(), ds.drop_last());
        if spec_keep(views.last(), ds.last()) {
            init.push(views.last())
        } else {
            init
        }
    }
}

/// Applies the post-filter to the identified legs: a leg is kept exactly
/// when its duration is at least five minutes and the given great-circle
/// distance between its ends is at least three kilometres. `distances[i]` is the
/// distance in metres for `raw[i]`; evaluating the haversine formula is
/// floating-point work and is left to the caller.
pub fn filter_legs(raw: &Vec<Leg>, distances: &Vec<u64>) -> (r: Vec<Leg>)
    requires
        distances@.len() == raw@.len(),
    ensures
        legs_views(r@) == spec_filter_legs(legs_views(raw@), distances@),
        forall|i: int|
            0 <= i < r@.len() ==> (#[trigger] r@[i].pos_seq()).len() > 0
                && r@[i].pos_seq().last().datetime_ms - r@[i].pos_seq()[0].datetime_ms
                >= LOW_GAP_MS,
{
    broadcast use vstd::seq_lib::group_seq_properties;

    let ghost all_views = legs_views(raw@);
    let mut r: Vec<Leg> = Vec::new();
    let mut i: usize = 0;
    proof {
        assert(all_views.take(0) =~= Seq::<Seq<Position>>::empty());
        assert(distances@.take(0) =~= Seq::<u64>::empty());
        assert(legs_views(r@) =~= Seq::<Seq<Position>>::empty());
    }
    while i < raw.len()
        invariant
            distances@.len() == raw@.len(),
            all_views == legs_views(raw@),
            i <= raw@.len(),
            legs_views(r@) =~= spec_filter_legs(all_views.take(i as int), distances@.take(i as int)),
            forall|j: int|
                0 <= j < r@.len() ==> (#[trigger] r@[j].pos_seq()).len() > 0
                    && r@[j].pos_seq().last().datetime_ms - r@[j].pos_seq()[0].datetime_ms
                    >= LOW_GAP_MS,
        decreases raw@.len() - i,
    {
        let l = &raw[i];
        proof {
            assert(l.pos_seq() == all_views[i as int]);
            assert(all_views.take(i as int + 1).drop_last() =~= all_views.take(i as int));
            assert(distances@.take(i as int + 1).drop_last() =~= distances@.take(i as int));
            assert(all_views.take(i as int + 1).last() == all_views[i as int]);
            assert(distances@.take(i as int + 1).last() == distances@[i as int]);
        }
        let n = l.positions.len();
        let mut kept = false;
        if n > 0 {
            let first = l.positions[0];
            let last = l.positions[n - 1];
            let long_enough = last.datetime_ms as i128 - first.datetime_ms as i128
                >= LOW_GAP_MS as i128;
            let far_enough = distances[i] >= 3000;
            kept = long_enough && far_enough;
        }
        proof {
            assert(kept == spec_keep(all_views[i as int], distances@[i as int]));
        }
        if kept {
            r.push(l.clone_leg());
            proof {
                assert(legs_views(r@) =~= legs_views(r@.drop_last()).push(r@.last().pos_seq()));
            }
        }
        i = i + 1;
    }
    proof {
        assert(all_views.take(raw@.len() as int) =~= all_views);
        assert(distances@.take(raw@.len() as int) =~= distances@);
    }
    r
}

impl Leg {
    /// A copy of the leg with the same positions.
    pub fn clone_leg(&self) -> (r: Leg)
        ensures
            r.pos_seq() == self.pos_seq(),
    {
        let mut positions: Vec<Position> = Vec::new();
        let mut i: usize = 0;
        while i < self.positions.len()
            invariant
                i <= self.positions@.len(),
                positions@ =~= self.positions@.take(i as int),
            decreases self.positions@.len() - i,
        {
            positions.push(self.positions[i]);
            proof {
                assert(self.positions@.take(i as int + 1) =~= self.positions@.take(
                    i as int,
                ).push(self.positions@[i as int]));
            }
            i = i + 1;
        }
        proof {
            assert(self.positions@.take(self.positions@.len() as int) =~= self.positions@);
        }
        Leg { positions }
    }
}

/// `a` occurs inside `b` in order: `b` holds the elements of `a`, in the
/// order of `a`, with anything in between.
pub open spec fn is_subseq(a: Seq<Position>, b: Seq<Position>) -> bool
    decreases a.len() + b.len(),
{
    if a.len() == 0 {
        true
    } else if b.len() == 0 {
        false
    } else {
        (a[0] == b[0] && is_subseq(a.skip(1), b.skip(1))) || is_subseq(a, b.skip(1))
    }
}

proof fn lemma_subseq_refl(a: Seq<Position>)
    ensures
        is_subseq(a, a),
    decreases a.len(),
{
    if a.len() > 0 {
        lemma_subseq_refl(a.skip(1));
    }
}

proof fn lemma_subseq_append_right(a: Seq<Position>, b: Seq<Position>, c: Seq<Position>)
    requires
        is_subseq(a, b),
    ensures
        is_subseq(a, b + c),
    decreases b.len(),
{
    if a.len() == 0 {
    } else if b.len() == 0 {
    } else {
        assert((b + c)[0] == b[0]);
        assert((b + c).skip(1) =~= b.skip(1) + c);
        if a[0] == b[0] && is_subseq(a.skip(1), b.skip(1)) {
            lemma_subseq_append_right(a.skip(1), b.skip(1), c);
        } else {
            lemma_subseq_append_right(a, b.skip(1), c);
        }
    }
}

proof fn lemma_subseq_prepend_left(a: Seq<Position>, b: Seq<Position>, c: Seq<Position>)
    requires
        is_subseq(a, b),
    ensures
        is_subseq(a, c + b),
    decreases c.len(),
{
    if a.len() == 0 {
    } else if c.len() == 0 {
        assert(c + b =~= b);
    } else {
        lemma_subseq_prepend_left(a, b, c.skip(1));
        assert((c + b).skip(1) =~= c.skip(1) + b);
        assert((c + b).len() > 0);
    }
}

proof fn lemma_subseq_concat(
    a1: Seq<Position>,
    b1: Seq<Position>,
    a2: Seq<Position>,
    b2: Seq<Position>,
)
    requires
        is_subseq(a1, b1),
        is_subseq(a2, b2),
    ensures
        is_subseq(a1 + a2, b1 + b2),
    decreases b1.len(),
{
    if a1.len() == 0 {
        assert(a1 + a2 =~= a2);
        lemma_subseq_prepend_left(a2, b2, b1);
    } else {
        assert(b1.len() > 0);
        assert((b1 + b2)[0] == b1[0]);
        assert((b1 + b2).skip(1) =~= b1.skip(1) + b2);
        if a1[0] == b1[0] && is_subseq(a1.skip(1), b1.skip(1)) {
            lemma_subseq_concat(a1.skip(1), b1.skip(1), a2, b2);
            assert((a1 + a2)[0] == (b1 + b2)[0]);
            assert((a1 + a2).skip(1) =~= a1.skip(1) + a2);
        } else {
            lemma_subseq_concat(a1, b1.skip(1), a2, b2);
        }
    }
}

proof fn lemma_subseq_trans(a: Seq<Position>, b: Seq<Position>, c: Seq<Position>)
    requires
        is_subseq(a, b),
        is_subseq(b, c),
    ensures
        is_subseq(a, c),
    decreases c.len(),
{
    if a.len() == 0 {
    } else {
        assert(b.len() > 0);
        assert(c.len() > 0);
        if b[0] == c[0] && is_subseq(b.skip(1), c.skip(1)) {
            if a[0] == b[0] && is_subseq(a.skip(1), b.skip(1)) {
                lemma_subseq_trans(a.skip(1), b.skip(1), c.skip(1));
            } else {
                assert(is_subseq(a, b.skip(1)));
                lemma_subseq_trans(a, b.skip(1), c.skip(1));
            }
        } else {
            assert(is_subseq(b, c.skip(1)));
            lemma_subseq_trans(a, b, c.skip(1));
        }
    }
}

/// Every leg the state machine emits draws its positions, in order, from
/// the leg under construction, the previous position where a leg can still
/// be seeded, and the remaining input: no position is invented.
proof fn lemma_machine_subseq(prev: Position, rest: Seq<Position>, acc: Seq<Position>)
    ensures
        forall|i: int|
            0 <= i < machine(prev, rest, acc).len() ==> is_subseq(
                #[trigger] machine(prev, rest, acc)[i],
                acc + (if acc.len() == 0 {
                    seq![prev]
                } else {
                    Seq::empty()
                }) + rest,
            ),
    decreases rest.len(),
{
    let seed: Seq<Position> = if acc.len() == 0 {
        seq![prev]
    } else {
        Seq::empty()
    };
    let target = acc + seed + rest;
    if rest.len() == 0 {
        if acc.len() > 0 {
            assert(machine(prev, rest, acc) == seq![acc]);
            lemma_subseq_refl(acc);
            lemma_subseq_append_right(acc, acc, seed + rest);
            assert(acc + (seed + rest) =~= target);
            assert(is_subseq(machine(prev, rest, acc)[0], target));
        }
    } else {
        let cur = rest[0];
        let rest1 = rest.skip(1);
        let acc1 = if !spec_is_grounded(prev, cur) {
            (if acc.len() == 0 {
                seq![prev]
            } else {
                acc
            }).push(cur)
        } else {
            acc
        };
        assert(rest =~= seq![cur] + rest1);
        lemma_subseq_refl(seq![cur] + rest1);
        lemma_subseq_refl(rest1);
        if spec_landed(prev, cur) && acc1.len() > 0 {
            assert(machine(prev, rest, acc) == seq![acc1] + machine(cur, rest1, Seq::empty()));
            lemma_machine_subseq(cur, rest1, Seq::empty());
            // the emitted leg sits inside the target
            if !spec_is_grounded(prev, cur) {
                if acc.len() == 0 {
                    assert(acc1 =~= (seq![prev] + seq![cur]));
                    lemma_subseq_refl(seq![prev] + seq![cur]);
                    lemma_subseq_append_right(
                        seq![prev] + seq![cur],
                        seq![prev] + seq![cur],
                        rest1,
                    );
                    assert(target =~= (seq![prev] + seq![cur]) + rest1);
                } else {
                    assert(acc1 =~= acc + seq![cur]);
                    lemma_subseq_refl(acc + seq![cur]);
                    lemma_subseq_append_right(acc + seq![cur], acc + seq![cur], rest1);
                    assert(target =~= (acc + seq![cur]) + rest1);
                }
            } else {
                lemma_subseq_refl(acc);
                lemma_subseq_append_right(acc, acc, seed + rest);
                assert(acc + (seed + rest) =~= target);
            }
            assert(is_subseq(acc1, target));
            assert forall|i: int|
                0 <= i < machine(prev, rest, acc).len() implies is_subseq(
                #[trigger] machine(prev, rest, acc)[i],
                target,
            ) by {
                if i == 0 {
                    assert(machine(prev, rest, acc)[0] == acc1);
                } else {
                    let m1 = machine(cur, rest1, Seq::empty());
                    assert(machine(prev, rest, acc)[i] == m1[i - 1]);
                    assert(is_subseq(m1[i - 1], Seq::empty() + seq![cur] + rest1));
                    assert(Seq::empty() + seq![cur] + rest1 =~= seq![cur] + rest1);
                    lemma_subseq_prepend_left(m1[i - 1], seq![cur] + rest1, acc + seed);
                    assert((acc + seed) + (seq![cur] + rest1) =~= target);
                }
            }
        } else {
            assert(machine(prev, rest, acc) == machine(cur, rest1, acc1));
            lemma_machine_subseq(cur, rest1, acc1);
            let seed1: Seq<Position> = if acc1.len() == 0 {
                seq![cur]
            } else {
                Seq::empty()
            };
            assert forall|i: int|
                0 <= i < machine(prev, rest, acc).len() implies is_subseq(
                #[trigger] machine(prev, rest, acc)[i],
                target,
            ) by {
                let x = machine(cur, rest1, acc1)[i];
                assert(is_subseq(x, acc1 + seed1 + rest1));
                if !spec_is_grounded(prev, cur) {
                    if acc.len() == 0 {
                        assert(acc1 + seed1 + rest1 =~= target);
                    } else {
                        assert(acc1 + seed1 + rest1 =~= target);
                    }
                } else {
                    if acc.len() == 0 {
                        // both grounded: the legs draw from the rest alone
                        assert(acc1 + seed1 + rest1 =~= seq![cur] + rest1);
                        lemma_subseq_prepend_left(x, seq![cur] + rest1, acc + seed);
                        assert((acc + seed) + (seq![cur] + rest1) =~= target);
                    } else {
                        assert(acc1 + seed1 + rest1 =~= acc + rest1);
                        lemma_subseq_refl(acc);
                        lemma_subseq_prepend_left(rest1, rest1, seq![cur]);
                        assert(is_subseq(rest1, seq![cur] + rest1));
                        lemma_subseq_concat(acc, acc + seed, rest1, seq![cur] + rest1);
                        assert((acc + seed) + (seq![cur] + rest1) =~= target);
                        lemma_subseq_trans(x, acc + rest1, target);
                    }
                }
            }
        }
    }
}

/// No position is invented: every leg that the state machine identifies in
/// a position stream draws its positions, in stream order, from that
/// stream. A landing position can both end one leg and open the next, so
/// each leg is a subsequence of the stream on its own.
pub proof fn lemma_leg_positions_subsequence(ps: Seq<Position>)
    ensures
        forall|i: int|
            0 <= i < legs_of(ps).len() ==> is_subseq(#[trigger] legs_of(ps)[i], ps),
{
    if ps.len() > 0 {
        lemma_machine_subseq(ps[0], ps.skip(1), Seq::empty());
        assert forall|i: int|
            0 <= i < legs_of(ps).len() implies is_subseq(#[trigger] legs_of(ps)[i], ps) by {
            assert(is_subseq(
                legs_of(ps)[i],
                Seq::empty() + seq![ps[0]] + ps.skip(1),
            ));
            assert(Seq::empty() + seq![ps[0]] + ps.skip(1) =~= ps);
        }
    }
}

} // verus!
