//! The logic of a light sampler: a bounded rolling history of samples that
//! can be resized while it is in use, the count of dips in that history,
//! the reading of the dial that sets its length, and the reply of the echo
//! responder. Every function is verified; reading the sensors, locking and
//! timing are left to the program around this library.

pub mod circular_buffer;
pub mod dialer;
pub mod light_sampling;
pub mod udp_echo;
