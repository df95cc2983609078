use vstd::prelude::*;

use crate::stepper::Bounded;

verus! {

// The device side of the library: reading a brightness attribute file's
// bytes, choosing among candidate devices, and the controller value that the
// stepper works on.  All file and process I/O stays with the caller; this
// module only computes.

/// ASCII whitespace, as trimmed from the ends of an attribute file.
pub open spec fn is_space(b: u8) -> bool {
    b == 32 || b == 9 || b == 10 || b == 13 || b == 11 || b == 12
}

/// An ASCII decimal digit.
pub open spec fn is_digit(b: u8) -> bool {
    48 <= b <= 57
}

pub open spec fn all_digits(s: Seq<u8>) -> bool {
    forall|i: int| 0 <= i < s.len() ==> is_digit(#[trigger] s[i])
}

/// The value of a string of decimal digits.
pub open spec fn digits_val(s: Seq<u8>) -> int
    decreases s.len(),
{
    if s.len() == 0 {
        0
    } else {
        digits_val(s.drop_last()) * 10 + (s.last() - 48)
    }
}

/// `s` with whitespace removed from both ends.
pub open spec fn trimmed(s: Seq<u8>) -> Seq<u8>
    decreases s.len(),
{
    if s.len() == 0 {
        s
    } else if is_space(s.first()) {
        trimmed(s.drop_first())
    } else if is_space(s.last()) {
        trimmed(s.drop_last())
    } else {
        s
    }
}

/// What an attribute file's bytes mean: the trimmed content read as a
/// decimal integer, absent when empty, not all digits, or too large.
pub open spec fn parse_attr_spec(s: Seq<u8>) -> Option<u64> {
    let t = trimmed(s);
    if t.len() > 0 && all_digits(t) && digits_val(t) <= u64::MAX {
        Some(digits_val(t) as u64)
    } else {
        None
    }
}

/// Trimming removes exactly the whitespace prefix and suffix.
proof fn lemma_trimmed_is_subrange(s: Seq<u8>, start: int, end: int)
    requires
        0 <= start <= end <= s.len(),
        forall|i: int| 0 <= i < start ==> is_space(#[trigger] s[i]),
        forall|i: int| end <= i < s.len() ==> is_space(#[trigger] s[i]),
        start < end ==> !is_space(s[start]) && !is_space(s[end - 1]),
    ensures
        trimmed(s) =~= s.subrange(start, end),
    decreases s.len(),
{
    if s.len() == 0 {
    } else if is_space(s.first()) {
        let d = s.drop_first();
        assert(d =~= s.subrange(1, s.len() as int));
        if start == end {
            lemma_trimmed_is_subrange(
                d,
                if start > 0 { start - 1 } else { 0 },
                if end > 0 { end - 1 } else { 0 },
            );
        } else {
            assert(start >= 1);
            lemma_trimmed_is_subrange(d, start - 1, end - 1);
            assert(d.subrange(start - 1, end - 1) =~= s.subrange(start, end));
        }
    } else if is_space(s.last()) {
        let d = s.drop_last();
        assert(d =~= s.subrange(0, s.len() - 1));
        assert(end < s.len());
        lemma_trimmed_is_subrange(d, start, end);
        assert(d.subrange(start, end) =~= s.subrange(start, end));
    } else {
        assert(start == 0 && end == s.len());
        assert(s.subrange(0, s.len() as int) =~= s);
    }
}

/// The value of a digit string is nonnegative.
proof fn lemma_digits_val_nonneg(s: Seq<u8>)
    requires
        all_digits(s),
    ensures
        digits_val(s) >= 0,
    decreases s.len(),
{
    if s.len() > 0 {
        lemma_digits_val_nonneg(s.drop_last());
    }
}

/// Extending a digit string on the right cannot shrink its value.
proof fn lemma_digits_val_prefix_le(s: Seq<u8>, i: int)
    requires
        all_digits(s),
        0 <= i <= s.len(),
    ensures
        digits_val(s.subrange(0, i)) <= digits_val(s),
    decreases s.len() - i,
{
    if i < s.len() {
        lemma_digits_val_prefix_le(s, i + 1);
        let p = s.subrange(0, i + 1);
        assert(p.drop_last() =~= s.subrange(0, i));
        assert(all_digits(s.subrange(0, i)));
        lemma_digits_val_nonneg(s.subrange(0, i));
        assert(digits_val(p) == digits_val(s.subrange(0, i)) * 10 + (s[i] - 48));
        assert(digits_val(s.subrange(0, i)) * 10 >= digits_val(s.subrange(0, i)))
            by (nonlinear_arith)
            requires
                digits_val(s.subrange(0, i)) >= 0,
        ;
    } else {
        assert(s.subrange(0, i) =~= s);
    }
}

/// Whitespace test, executable.
fn space_byte(b: u8) -> (r: bool)
    ensures
        r == is_space(b),
{
    b == 32 || b == 9 || b == 10 || b == 13 || b == 11 || b == 12
}

/// Reads an attribute file's bytes as a decimal integer: whitespace may pad
/// either end; anything else, an empty number, or one that does not fit a
/// `u64` is absent, never an error.
#[verifier::loop_isolation(false)]
pub fn parse_attr(buf: &[u8]) -> (r: Option<u64>)
    ensures
        r == parse_attr_spec(buf@),
{
    let len = buf.len();
    let mut start: usize = 0;
    while start < len && space_byte(buf[start])
        invariant
            0 <= start <= len,
            forall|i: int| 0 <= i < start ==> is_space(#[trigger] buf@[i]),
        decreases len - start,
    {
        start = start + 1;
    }
    let mut end: usize = len;
    while end > start && space_byte(buf[end - 1])
        invariant
            start <= end <= len,
            forall|i: int| end <= i < len ==> is_space(#[trigger] buf@[i]),
        decreases end,
    {
        end = end - 1;
    }
    proof {
        lemma_trimmed_is_subrange(buf@, start as int, end as int);
    }
    let ghost t = trimmed(buf@);
    if start == end {
        return None;
    }
    let mut val: u64 = 0;
    let mut i = start;
    while i < end
        invariant
            start <= i <= end,
            forall|j: int| start <= j < i ==> is_digit(#[trigger] buf@[j]),
            val == digits_val(buf@.subrange(start as int, i as int)),
        decreases end - i,
    {
        let b = buf[i];
        if b < 48 || b > 57 {
            proof {
                assert(t[i - start] == buf@[i as int]);
                assert(!all_digits(t));
            }
            return None;
        }
        let d = b - 48;
        let ghost prefix = buf@.subrange(start as int, i as int);
        let ghost prefix1 = buf@.subrange(start as int, i + 1);
        proof {
            assert(prefix1.drop_last() =~= prefix);
            assert(digits_val(prefix1) == val * 10 + d);
        }
        if val > (u64::MAX - (d as u64)) / 10 {
            proof {
                assert(10 * val + d > u64::MAX);
                if all_digits(t) {
                    assert(prefix1 =~= t.subrange(0, i + 1 - start));
                    lemma_digits_val_prefix_le(t, i + 1 - start);
                    assert(digits_val(t) > u64::MAX);
                }
            }
            return None;
        }
        val = val * 10 + (d as u64);
        i = i + 1;
    }
    proof {
        assert(buf@.subrange(start as int, end as int) =~= t);
        assert(all_digits(t));
    }
    Some(val)
}

/// The parsed maximum of a candidate device, zero when absent.  A missing or
/// malformed attribute file never aborts a scan; it only rules the candidate
/// out.
pub open spec fn candidate_val(c: Option<u64>) -> int {
    match c {
        Some(v) => v as int,
        None => 0,
    }
}

/// Chooses among candidate devices by their maximum-brightness attribute:
/// the first candidate with the largest positive maximum wins; a maximum of
/// zero, like an unreadable one, never wins.  Absent a winner there is no
/// controller.
#[verifier::loop_isolation(false)]
pub fn select_controller(candidates: &Vec<Option<u64>>) -> (r: Option<(usize, u64)>)
    ensures
        match r {
            Some((i, m)) => {
                &&& i < candidates@.len()
                &&& candidates@[i as int] == Some(m)
                &&& m >= 1
                &&& forall|j: int| 0 <= j < candidates@.len() ==> candidate_val(candidates@[j]) <= m
                &&& forall|j: int| 0 <= j < i ==> candidate_val(candidates@[j]) < m
            },
            None => forall|j: int|
                0 <= j < candidates@.len() ==> candidate_val(candidates@[j]) == 0,
        },
{
    let mut best: u64 = 0;
    let mut best_i: usize = 0;
    let mut found = false;
    let mut i: usize = 0;
    while i < candidates.len()
        invariant
            0 <= i <= candidates@.len(),
            found ==> best >= 1 && best_i < i && candidates@[best_i as int] == Some(best),
            !found ==> best == 0,
            forall|j: int| 0 <= j < i ==> candidate_val(candidates@[j]) <= best,
            forall|j: int| 0 <= j < best_i ==> candidate_val(candidates@[j]) < best,
        decreases candidates@.len() - i,
    {
        if let Some(v) = candidates[i] {
            if v > best {
                best = v;
                best_i = i;
                found = true;
            }
        }
        i = i + 1;
    }
    if found {
        Some((best_i, best))
    } else {
        None
    }
}

/// The index just past the last `/` among the first `i` characters of `s`
/// (`0` when there is none).
pub open spec fn after_last_slash(s: Seq<char>, i: int) -> int
    decreases i,
    when 0 <= i
{
    if i <= 0 {
        0
    } else if s[i - 1] == '/' {
        i
    } else {
        after_last_slash(s, i - 1)
    }
}

/// `after_last_slash` marks the end of the directory part: everything from
/// it on is slash-free, and a `/` stands right before it unless there is
/// none at all.
pub proof fn lemma_after_last_slash_char(s: Seq<char>, i: int)
    requires
        0 <= i <= s.len(),
    ensures
        0 <= after_last_slash(s, i) <= i,
        after_last_slash(s, i) > 0 ==> s[after_last_slash(s, i) - 1] == '/',
        forall|j: int| after_last_slash(s, i) <= j < i ==> s[j] != '/',
    decreases i,
{
    if i > 0 && s[i - 1] != '/' {
        lemma_after_last_slash_char(s, i - 1);
    }
}

/// A backlight device: its path, its two brightness attributes, and the
/// configured step count.  The stepper sees it through `Bounded`.
pub struct Controller {
    path: String,
    max_brightness: u64,
    brightness: u64,
    num_steps: u64,
}

impl Bounded for Controller {
    closed spec fn sp_current(&self) -> u64 {
        self.brightness
    }

    closed spec fn sp_max(&self) -> u64 {
        self.max_brightness
    }

    closed spec fn sp_num_steps(&self) -> u64 {
        self.num_steps
    }

    fn current(&self) -> u64 {
        self.brightness
    }

    fn max(&self) -> u64 {
        self.max_brightness
    }

    fn num_steps(&self) -> u64 {
        self.num_steps
    }

    fn with_current(&self, current: u64) -> (r: Self)
        ensures
            r.sp_path() == self.sp_path(),
    {
        Controller {
            path: self.path.clone(),
            max_brightness: self.max_brightness,
            brightness: current,
            num_steps: self.num_steps,
        }
    }
}

impl Controller {
    /// The path the controller was found under.
    pub closed spec fn sp_path(&self) -> Seq<char> {
        self.path@
    }

    /// A controller over a device read: `current <= max`, `max >= 1` and
    /// `num_steps >= 1`, as the stepping invariants demand.
    pub fn new(path: String, max_brightness: u64, brightness: u64, num_steps: u64) -> (r:
        Controller)
        requires
            1 <= max_brightness,
            brightness <= max_brightness,
            1 <= num_steps,
        ensures
            r.sp_current() == brightness,
            r.sp_max() == max_brightness,
            r.sp_num_steps() == num_steps,
            r.sp_path() == path@,
    {
        Controller { path, max_brightness, brightness, num_steps }
    }

    /// The path the controller was found under, for the caller's write back
    /// to the device.
    pub fn path(&self) -> (r: &str)
        ensures
            r@ == self.sp_path(),
    {
        self.path.as_str()
    }

    /// The device's name: the path component after the last `/`, absent when
    /// the path ends in `/` or is empty.
    #[verifier::loop_isolation(false)]
    pub fn name(&self) -> (r: Option<&str>)
        ensures
            match r {
                Some(t) => {
                    &&& after_last_slash(self.sp_path(), self.sp_path().len() as int)
                        < self.sp_path().len()
                    &&& t@ == self.sp_path().subrange(
                        after_last_slash(self.sp_path(), self.sp_path().len() as int),
                        self.sp_path().len() as int,
                    )
                },
                None => after_last_slash(self.sp_path(), self.sp_path().len() as int)
                    == self.sp_path().len(),
            },
    {
        let path: &str = self.path.as_str();
        let len = path.unicode_len();
        let mut start: usize = 0;
        let mut i: usize = 0;
        while i < len
            invariant
                0 <= i <= len,
                len == self.sp_path().len(),
                path@ == self.sp_path(),
                start == after_last_slash(path@, i as int),
                start <= i,
            decreases len - i,
        {
            if path.get_char(i) == '/' {
                start = i + 1;
            }
            i = i + 1;
        }
        if start < len {
            Some(path.substring_char(start, len))
        } else {
            None
        }
    }

    /// The new brightness as a whole percentage of the maximum, rounded
    /// down, for a desktop notification.
    pub fn percent(&self, new_b: u64) -> (r: u64)
        requires
            self.sp_max() >= 1,
            new_b <= self.sp_max(),
        ensures
            r == (new_b * 100) as int / self.sp_max() as int,
            r <= 100,
    {
        let p: u128 = ((new_b as u128) * 100) / (self.max_brightness as u128);
        proof {
            assert((new_b * 100) as int / self.sp_max() as int <= 100) by (nonlinear_arith)
                requires
                    1 <= self.sp_max() as int,
                    0 <= new_b <= self.sp_max(),
            ;
        }
        p as u64
    }
}

} // verus!
