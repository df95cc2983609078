use vstd::prelude::*;

use crate::logscale::{
    brightness_at, brightness_level, lemma_brightness_level_full, lemma_brightness_level_mono,
    lemma_brightness_level_zero, lemma_brightness_rec_char,
};

verus! {

// The stepper walks a ladder of brightness levels: level `s` of the ladder is
// `brightness_level(max, num_steps, s)` for `s` in `[0, num_steps]`, and `0`
// is a floor below the ladder.  `step_up` moves to the least level strictly
// above the current brightness, `step_down` to the greatest level strictly
// below it, so the levels visited going up from `0` and going down from `max`
// are the same set.

/// `v` is a stop of the stepping sequence: the floor `0`, or a brightness on
/// the logarithmic ladder.
pub open spec fn is_level(max: int, num_steps: int, v: int) -> bool {
    v == 0 || exists|s: int| 0 <= s <= num_steps && #[trigger] brightness_level(
        max,
        num_steps,
        s,
    ) == v
}

/// The least step index at or after `s` whose brightness exceeds `c`
/// (`num_steps` if none does).
pub open spec fn up_idx(max: int, num_steps: int, c: int, s: int) -> int
    decreases num_steps - s,
    when 0 <= s <= num_steps
{
    if s >= num_steps || brightness_level(max, num_steps, s) > c {
        s
    } else {
        up_idx(max, num_steps, c, s + 1)
    }
}

/// The greatest step index at or before `s` whose brightness is below `c`
/// (`0` if none is).
pub open spec fn down_idx(max: int, num_steps: int, c: int, s: int) -> int
    decreases s,
    when 0 <= s
{
    if brightness_level(max, num_steps, s) < c || s <= 0 {
        s
    } else {
        down_idx(max, num_steps, c, s - 1)
    }
}

/// The brightness one step up from `c`: the least level strictly above `c`,
/// saturating at `max`.
pub open spec fn step_up_spec(max: int, num_steps: int, c: int) -> int {
    if c >= max {
        max
    } else {
        brightness_level(max, num_steps, up_idx(max, num_steps, c, 0))
    }
}

/// The brightness one step down from `c`: the greatest level strictly below
/// `c`, with the floor `0` below brightness `1`.
pub open spec fn step_down_spec(max: int, num_steps: int, c: int) -> int {
    if c <= 1 {
        0
    } else {
        brightness_level(max, num_steps, down_idx(max, num_steps, c, num_steps))
    }
}

/// Every level lies in `[0, max]`.
pub proof fn lemma_level_bounds(max: int, num_steps: int, v: int)
    requires
        1 <= max < 0x10000000000000000,
        1 <= num_steps,
        is_level(max, num_steps, v),
    ensures
        0 <= v <= max,
        v != 0 ==> 1 <= v,
{
    if v != 0 {
        let s = choose|s: int| 0 <= s <= num_steps && #[trigger] brightness_level(
            max,
            num_steps,
            s,
        ) == v;
        lemma_brightness_rec_char(max, num_steps, s, max);
    }
}

/// What the upward index search finds: the least index whose brightness
/// strictly exceeds `c`, provided `c < max`.
pub proof fn lemma_up_idx_char(max: int, num_steps: int, c: int, s: int)
    requires
        1 <= max < 0x10000000000000000,
        1 <= num_steps,
        0 <= c < max,
        0 <= s <= num_steps,
    ensures
        s <= up_idx(max, num_steps, c, s) <= num_steps,
        brightness_level(max, num_steps, up_idx(max, num_steps, c, s)) > c,
        forall|t: int|
            s <= t < up_idx(max, num_steps, c, s) ==> #[trigger] brightness_level(
                max,
                num_steps,
                t,
            ) <= c,
    decreases num_steps - s,
{
    lemma_brightness_level_full(max, num_steps);
    if !(s >= num_steps || brightness_level(max, num_steps, s) > c) {
        lemma_up_idx_char(max, num_steps, c, s + 1);
    }
}

/// What the downward index search finds: the greatest index whose brightness
/// is strictly below `c`, provided `c > 1`.
pub proof fn lemma_down_idx_char(max: int, num_steps: int, c: int, s: int)
    requires
        1 <= max < 0x10000000000000000,
        1 <= num_steps,
        c > 1,
        0 <= s <= num_steps,
    ensures
        0 <= down_idx(max, num_steps, c, s) <= s,
        brightness_level(max, num_steps, down_idx(max, num_steps, c, s)) < c,
        forall|t: int|
            down_idx(max, num_steps, c, s) < t <= s ==> #[trigger] brightness_level(
                max,
                num_steps,
                t,
            ) >= c,
    decreases s,
{
    lemma_brightness_level_zero(max, num_steps);
    if !(brightness_level(max, num_steps, s) < c || s <= 0) {
        lemma_down_idx_char(max, num_steps, c, s - 1);
    }
}

/// `step_up_spec` is the least level strictly above `c`, and saturates at
/// `max`.
pub proof fn lemma_step_up_char(max: int, num_steps: int, c: int)
    requires
        1 <= max < 0x10000000000000000,
        1 <= num_steps,
        0 <= c <= max,
    ensures
        is_level(max, num_steps, step_up_spec(max, num_steps, c)),
        step_up_spec(max, num_steps, c) <= max,
        c < max ==> c < step_up_spec(max, num_steps, c),
        c == max ==> step_up_spec(max, num_steps, c) == max,
        c == 0 ==> step_up_spec(max, num_steps, c) == 1,
        forall|l: int|
            is_level(max, num_steps, l) && l > c ==> step_up_spec(max, num_steps, c) <= l,
{
    lemma_brightness_level_full(max, num_steps);
    lemma_brightness_level_zero(max, num_steps);
    if c < max {
        let u = up_idx(max, num_steps, c, 0);
        lemma_up_idx_char(max, num_steps, c, 0);
        lemma_brightness_rec_char(max, num_steps, u, max);
        let r = brightness_level(max, num_steps, u);
        assert(is_level(max, num_steps, r));
        if c == 0 {
            assert(brightness_level(max, num_steps, 0) > 0);
            assert(u == 0);
        }
        assert forall|l: int| is_level(max, num_steps, l) && l > c implies r <= l by {
            let t = choose|t: int| 0 <= t <= num_steps && #[trigger] brightness_level(
                max,
                num_steps,
                t,
            ) == l;
            if t < u {
                assert(brightness_level(max, num_steps, t) <= c);
            } else {
                lemma_brightness_level_mono(max, num_steps, u, t);
            }
        }
    } else {
        assert(brightness_level(max, num_steps, num_steps) == max);
        assert(is_level(max, num_steps, max));
        assert forall|l: int| is_level(max, num_steps, l) && l > c implies max <= l by {
            lemma_level_bounds(max, num_steps, l);
        }
    }
}

/// `step_down_spec` is the greatest level strictly below `c`, with the floor
/// `0` reached from brightness `1` and below.
pub proof fn lemma_step_down_char(max: int, num_steps: int, c: int)
    requires
        1 <= max < 0x10000000000000000,
        1 <= num_steps,
        0 <= c <= max,
    ensures
        is_level(max, num_steps, step_down_spec(max, num_steps, c)),
        0 <= step_down_spec(max, num_steps, c) <= c,
        c >= 1 ==> step_down_spec(max, num_steps, c) < c,
        c <= 1 ==> step_down_spec(max, num_steps, c) == 0,
        forall|l: int|
            is_level(max, num_steps, l) && l < c ==> l <= step_down_spec(max, num_steps, c),
{
    lemma_brightness_level_zero(max, num_steps);
    if c <= 1 {
        assert(is_level(max, num_steps, 0));
        assert forall|l: int| is_level(max, num_steps, l) && l < c implies l <= 0 by {
            lemma_level_bounds(max, num_steps, l);
        }
    } else {
        let d = down_idx(max, num_steps, c, num_steps);
        lemma_down_idx_char(max, num_steps, c, num_steps);
        lemma_brightness_rec_char(max, num_steps, d, max);
        let r = brightness_level(max, num_steps, d);
        assert(is_level(max, num_steps, r));
        assert forall|l: int| is_level(max, num_steps, l) && l < c implies l <= r by {
            if l != 0 {
                let t = choose|t: int| 0 <= t <= num_steps && #[trigger] brightness_level(
                    max,
                    num_steps,
                    t,
                ) == l;
                if t > d {
                    assert(brightness_level(max, num_steps, t) >= c);
                } else {
                    lemma_brightness_level_mono(max, num_steps, t, d);
                }
            }
        }
    }
}

/// The brightness values visited by stepping up from `c` until `max`,
/// including both ends.
pub open spec fn up_levels(max: int, num_steps: int, c: int) -> Set<int>
    decreases max - c,
    when 0 <= c <= max
{
    if c >= max {
        set![max]
    } else if c < step_up_spec(max, num_steps, c) && step_up_spec(max, num_steps, c) <= max {
        up_levels(max, num_steps, step_up_spec(max, num_steps, c)).insert(c)
    } else {
        set![c]
    }
}

/// The brightness values visited by stepping down from `c` until the floor
/// `0`, including both ends.
pub open spec fn down_levels(max: int, num_steps: int, c: int) -> Set<int>
    decreases c,
    when 0 <= c
{
    if c <= 0 {
        set![0]
    } else if 0 <= step_down_spec(max, num_steps, c) < c {
        down_levels(max, num_steps, step_down_spec(max, num_steps, c)).insert(c)
    } else {
        set![c]
    }
}

/// Stepping up from a level visits exactly the levels at or above it.
pub proof fn lemma_up_levels_exact(max: int, num_steps: int, c: int)
    requires
        1 <= max < 0x10000000000000000,
        1 <= num_steps,
        0 <= c <= max,
        is_level(max, num_steps, c),
    ensures
        up_levels(max, num_steps, c) =~= Set::new(
            |v: int| is_level(max, num_steps, v) && c <= v,
        ),
    decreases max - c,
{
    lemma_step_up_char(max, num_steps, c);
    lemma_brightness_level_full(max, num_steps);
    if c >= max {
        assert(is_level(max, num_steps, max));
        assert forall|v: int| is_level(max, num_steps, v) && c <= v implies v == max by {
            lemma_level_bounds(max, num_steps, v);
        }
    } else {
        let u = step_up_spec(max, num_steps, c);
        lemma_up_levels_exact(max, num_steps, u);
        assert forall|v: int|
            up_levels(max, num_steps, c).contains(v) implies is_level(max, num_steps, v) && c
            <= v by {
            if v != c {
                assert(up_levels(max, num_steps, u).contains(v));
            }
        }
        assert forall|v: int| is_level(max, num_steps, v) && c <= v implies up_levels(
            max,
            num_steps,
            c,
        ).contains(v) by {
            if v != c {
                assert(v > c);
                assert(u <= v);
                assert(up_levels(max, num_steps, u).contains(v));
            }
        }
    }
}

/// Stepping down from a level visits exactly the levels at or below it.
pub proof fn lemma_down_levels_exact(max: int, num_steps: int, c: int)
    requires
        1 <= max < 0x10000000000000000,
        1 <= num_steps,
        0 <= c <= max,
        is_level(max, num_steps, c),
    ensures
        down_levels(max, num_steps, c) =~= Set::new(
            |v: int| is_level(max, num_steps, v) && v <= c,
        ),
    decreases c,
{
    lemma_step_down_char(max, num_steps, c);
    if c <= 0 {
        assert(is_level(max, num_steps, 0));
        assert forall|v: int| is_level(max, num_steps, v) && v <= c implies v == 0 by {
            lemma_level_bounds(max, num_steps, v);
        }
    } else {
        let d = step_down_spec(max, num_steps, c);
        lemma_level_bounds(max, num_steps, d);
        lemma_down_levels_exact(max, num_steps, d);
        assert forall|v: int|
            down_levels(max, num_steps, c).contains(v) implies is_level(max, num_steps, v) && v
            <= c by {
            if v != c {
                assert(down_levels(max, num_steps, d).contains(v));
            }
        }
        assert forall|v: int| is_level(max, num_steps, v) && v <= c implies down_levels(
            max,
            num_steps,
            c,
        ).contains(v) by {
            if v != c {
                assert(v < c);
                assert(v <= d);
                assert(down_levels(max, num_steps, d).contains(v));
            }
        }
    }
}

/// Reversibility: the levels visited stepping up from the floor `0` to `max`
/// are exactly the levels visited stepping down from `max` to the floor, and
/// for `max > 1` they include at least the two distinct values `0` and `max`.
pub proof fn lemma_step_reversibility(max: int, num_steps: int)
    requires
        1 < max < 0x10000000000000000,
        1 <= num_steps,
    ensures
        up_levels(max, num_steps, 0) =~= down_levels(max, num_steps, max),
        up_levels(max, num_steps, 0).contains(0),
        up_levels(max, num_steps, 0).contains(max),
{
    lemma_brightness_level_full(max, num_steps);
    assert(is_level(max, num_steps, 0));
    assert(is_level(max, num_steps, max));
    lemma_up_levels_exact(max, num_steps, 0);
    lemma_down_levels_exact(max, num_steps, max);
    assert forall|v: int|
        up_levels(max, num_steps, 0).contains(v) implies down_levels(
        max,
        num_steps,
        max,
    ).contains(v) by {
        lemma_level_bounds(max, num_steps, v);
    }
    assert forall|v: int|
        down_levels(max, num_steps, max).contains(v) implies up_levels(
        max,
        num_steps,
        0,
    ).contains(v) by {
        lemma_level_bounds(max, num_steps, v);
    }
}

/// The subject of a stepping operation: something with a current value, a
/// maximum, and a configured number of steps, which can be copied at a
/// different current value.
pub trait Bounded: Sized {
    /// The current brightness, as contracts see it.
    spec fn sp_current(&self) -> u64;

    /// The maximum brightness, as contracts see it.
    spec fn sp_max(&self) -> u64;

    /// The configured number of steps, as contracts see it.
    spec fn sp_num_steps(&self) -> u64;

    fn current(&self) -> (r: u64)
        ensures
            r == self.sp_current(),
    ;

    fn max(&self) -> (r: u64)
        ensures
            r == self.sp_max(),
    ;

    fn num_steps(&self) -> (r: u64)
        ensures
            r == self.sp_num_steps(),
    ;

    fn with_current(&self, current: u64) -> (r: Self)
        ensures
            r.sp_current() == current,
            r.sp_max() == self.sp_max(),
            r.sp_num_steps() == self.sp_num_steps(),
    ;
}

/// A `Bounded` entity is well formed when its maximum is at least one, its
/// current value does not exceed the maximum, and at least one step is
/// configured.
pub open spec fn bounded_wf<B: Bounded>(b: &B) -> bool {
    &&& b.sp_max() >= 1
    &&& b.sp_current() <= b.sp_max()
    &&& b.sp_num_steps() >= 1
}

/// Stepping along the logarithmic ladder: one level up or one level down.
pub trait Stepper: Bounded {
    /// The least level strictly above the current brightness; `max` when
    /// already there.
    fn step_up(&self) -> (r: u64)
        requires
            bounded_wf(self),
        ensures
            r == step_up_spec(
                self.sp_max() as int,
                self.sp_num_steps() as int,
                self.sp_current() as int,
            ),
            is_level(self.sp_max() as int, self.sp_num_steps() as int, r as int),
            r <= self.sp_max(),
            self.sp_current() < self.sp_max() ==> r > self.sp_current(),
            self.sp_current() == self.sp_max() ==> r == self.sp_max(),
            self.sp_current() == 0 ==> r == 1,
            forall|l: int|
                is_level(self.sp_max() as int, self.sp_num_steps() as int, l) && l
                    > self.sp_current() ==> r <= l,
    ;

    /// The greatest level strictly below the current brightness; `0` from
    /// brightness `1` and below.
    fn step_down(&self) -> (r: u64)
        requires
            bounded_wf(self),
        ensures
            r == step_down_spec(
                self.sp_max() as int,
                self.sp_num_steps() as int,
                self.sp_current() as int,
            ),
            is_level(self.sp_max() as int, self.sp_num_steps() as int, r as int),
            r <= self.sp_current(),
            self.sp_current() >= 1 ==> r < self.sp_current(),
            self.sp_current() <= 1 ==> r == 0,
            forall|l: int|
                is_level(self.sp_max() as int, self.sp_num_steps() as int, l) && l
                    < self.sp_current() ==> l <= r,
    ;
}

impl<B: Bounded> Stepper for B {
    #[verifier::loop_isolation(false)]
    fn step_up(&self) -> (r: u64) {
        let c = self.current();
        let m = self.max();
        let n = self.num_steps();
        proof {
            lemma_step_up_char(m as int, n as int, c as int);
        }
        if c >= m {
            return m;
        }
        proof {
            lemma_brightness_level_full(m as int, n as int);
            lemma_up_idx_char(m as int, n as int, c as int, 0);
        }
        // The least step index whose brightness exceeds the current value.
        let mut lo: u64 = 0;
        let mut hi: u64 = n;
        while lo < hi
            invariant
                0 <= lo <= hi <= n,
                brightness_level(m as int, n as int, hi as int) > c,
                forall|t: int|
                    0 <= t < lo ==> #[trigger] brightness_level(m as int, n as int, t) <= c,
            decreases hi - lo,
        {
            let mid = lo + (hi - lo) / 2;
            if brightness_at(m, n, mid) > c {
                hi = mid;
            } else {
                proof {
                    assert forall|t: int| 0 <= t < mid + 1 implies #[trigger] brightness_level(
                        m as int,
                        n as int,
                        t,
                    ) <= c by {
                        if lo <= t {
                            lemma_brightness_level_mono(m as int, n as int, t, mid as int);
                        }
                    }
                }
                lo = mid + 1;
            }
        }
        proof {
            let u = up_idx(m as int, n as int, c as int, 0);
            if u < lo {
                assert(brightness_level(m as int, n as int, u) <= c);
            }
            if lo < u {
                assert(brightness_level(m as int, n as int, lo as int) <= c);
            }
            assert(u == lo);
        }
        brightness_at(m, n, lo)
    }

    #[verifier::loop_isolation(false)]
    fn step_down(&self) -> (r: u64) {
        let c = self.current();
        let m = self.max();
        let n = self.num_steps();
        proof {
            lemma_step_down_char(m as int, n as int, c as int);
        }
        if c <= 1 {
            return 0;
        }
        proof {
            lemma_brightness_level_zero(m as int, n as int);
            lemma_down_idx_char(m as int, n as int, c as int, n as int);
        }
        // The greatest step index whose brightness is below the current value.
        let mut lo: u64 = 0;
        let mut hi: u64 = n;
        while lo < hi
            invariant
                0 <= lo <= hi <= n,
                brightness_level(m as int, n as int, lo as int) < c,
                forall|t: int|
                    hi < t <= n ==> #[trigger] brightness_level(m as int, n as int, t) >= c,
            decreases hi - lo,
        {
            let mid = lo + (hi - lo) / 2 + 1;
            if brightness_at(m, n, mid) < c {
                lo = mid;
            } else {
                proof {
                    assert forall|t: int| mid - 1 < t <= n implies #[trigger] brightness_level(
                        m as int,
                        n as int,
                        t,
                    ) >= c by {
                        if t <= hi {
                            lemma_brightness_level_mono(m as int, n as int, mid as int, t);
                        }
                    }
                }
                hi = mid - 1;
            }
        }
        proof {
            let d = down_idx(m as int, n as int, c as int, n as int);
            if d < lo {
                assert(brightness_level(m as int, n as int, lo as int) >= c);
            }
            if lo < d {
                assert(brightness_level(m as int, n as int, d) >= c);
            }
            assert(d == lo);
        }
        brightness_at(m, n, lo)
    }
}

} // verus!
