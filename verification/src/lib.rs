//! Discrete logarithmic brightness stepping.
//!
//! A backlight's usable range `[0, max]` is covered by `num_steps` levels
//! placed on an exponential curve from `1` to `max`, because perceived
//! brightness is logarithmic and linear steps feel wrong at the low end.
//! The heart of the crate is the stepper: `step_up` moves to the least level
//! strictly above the current brightness and `step_down` to the greatest
//! level strictly below it, with `0` as a floor below level `1`.  Everything
//! is integer arithmetic — a fixed-point base-two logarithm — and carries
//! proofs: stepping up always rises until it saturates at `max`, stepping
//! down always falls until the floor, and the levels visited going up from
//! `0` are exactly the levels visited going down from `max`.
//!
//! Around the stepper sit the pure parts of driving a device: reading a
//! brightness attribute's bytes, choosing among candidate devices, and the
//! percentage shown in a notification.  All file, process and socket I/O
//! stays with the binary around the library.

pub mod cli;
pub mod concat;
pub mod controller;
pub mod error;
pub mod logscale;
pub mod stepper;
