use std::collections::HashSet;

use loglux::controller::Controller;
use loglux::stepper::{Bounded, Stepper};

fn make(current: u64, max: u64, num_steps: u64) -> Controller {
    Controller::new(String::from("/sys/class/backlight/dev"), max, current, num_steps)
}

fn cases() -> Vec<(u64, u64, u64)> {
    // (current, max, num_steps) over the same ranges the original sampled:
    // current below 2^12 - 1, max above current by up to 2^12, num_steps in
    // [1, 2^13).
    let currents = [0u64, 1, 2, 3, 7, 50, 100, 1000, 4094];
    let deltas = [1u64, 2, 3, 64, 4096];
    let steps = [1u64, 2, 3, 75, 500, 8191];
    let mut out = Vec::new();
    for &c in &currents {
        for &d in &deltas {
            for &n in &steps {
                out.push((c, c + d, n));
            }
        }
    }
    out
}

#[test]
fn test_step_up_higher() {
    for (current, max, num_steps) in cases() {
        let sut = make(current, max, num_steps);
        assert!(
            sut.step_up() > sut.current(),
            "step_up({current}, max={max}, n={num_steps}) did not rise"
        );
    }
}

#[test]
fn test_step_down_lower() {
    for (current, max, num_steps) in cases() {
        let sut = make(current, max, num_steps);
        assert!(
            sut.step_down() <= sut.current(),
            "step_down({current}, max={max}, n={num_steps}) rose"
        );
    }
}

#[test]
fn test_step_invariantly() {
    for (_, max, num_steps) in cases() {
        let mut sut = make(0, max, num_steps);

        let mut up_set = HashSet::new();
        up_set.insert(0);
        while sut.current() < sut.max() {
            sut = sut.with_current(sut.step_up());
            up_set.insert(sut.current());
        }

        let mut down_set = HashSet::new();
        down_set.insert(sut.max());
        while sut.current() > 0 {
            sut = sut.with_current(sut.step_down());
            down_set.insert(sut.current());
        }

        assert!(up_set.len() >= 2, "fewer than two levels for max={max}, n={num_steps}");
        assert!(up_set == down_set, "up/down level sets differ for max={max}, n={num_steps}");
    }
}

#[test]
fn test_step_up_saturates_at_max() {
    for (current, max, num_steps) in cases() {
        let sut = make(current, max, num_steps);
        assert!(sut.step_up() <= max);
        let at_max = make(max, max, num_steps);
        assert_eq!(at_max.step_up(), max);
    }
}

#[test]
fn test_step_boundaries() {
    // step_up from 0 is exactly 1; step_down at or below 1 is exactly 0.
    for &(max, n) in &[(1u64, 1u64), (1, 75), (5, 3), (100, 75), (8192, 8192)] {
        assert_eq!(make(0, max, n).step_up(), 1);
        assert_eq!(make(0, max, n).step_down(), 0);
        if max >= 1 {
            assert_eq!(make(1, max, n).step_down(), 0);
        }
    }
}

#[test]
fn test_midscale_scenario() {
    // max=100, num_steps=75, current=50: up lands in (50, 100], down in [0, 50).
    let sut = make(50, 100, 75);
    let up = sut.step_up();
    assert!(50 < up && up <= 100, "up from 50 gave {up}");
    let down = sut.step_down();
    assert!(down < 50, "down from 50 gave {down}");
}

#[test]
fn test_tiny_device_scenario() {
    // max=1: the only step up from 0 is 1.
    let sut = make(0, 1, 75);
    assert_eq!(sut.step_up(), 1);
}

#[test]
fn test_logarithmic_spacing_scenario() {
    // max=1000000, num_steps=75, current=1: the next level is a small
    // integer, not a linear-scale jump.
    let sut = make(1, 1_000_000, 75);
    let up = sut.step_up();
    assert!(up > 1, "up from 1 gave {up}");
    assert!(up <= 10, "up from 1 jumped to {up}; spacing is not logarithmic");
}

#[test]
fn test_brightness_at_endpoints() {
    // The ladder runs from 1 at step 0 to max at step num_steps.
    for &(max, n) in &[(1u64, 1u64), (2, 1), (100, 75), (1024, 10), (8192, 8192)] {
        assert_eq!(loglux::logscale::brightness_at(max, n, 0), 1);
        assert_eq!(loglux::logscale::brightness_at(max, n, n), max);
    }
}

#[test]
fn test_brightness_at_exact_powers() {
    // For max an exact power of two the fixed-point logarithm is exact:
    // max=16, num_steps=4 gives the ladder 1, 2, 4, 8, 16.
    for s in 0..=4u64 {
        assert_eq!(loglux::logscale::brightness_at(16, 4, s), 1u64 << s);
    }
}
