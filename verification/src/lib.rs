//! A tick-driven simulation of an elevator bank serving a multi-floor building.
//!
//! Every quantity is an integer, and nothing is rounded but once, where a
//! result is read. The chances and the arrival rate that go in are counted in
//! millionths (see [`chance::ONE`]); energies and tips are whole units of the
//! caller's choosing; the energy and wait accounts hold exact sums and counts;
//! and the chances, scores and averages that come out are counted in units of
//! [`chance::FINE`]. Randomness is drawn from an explicitly supplied
//! `rand::rngs::StdRng`.

pub mod random;
pub mod chance;
pub mod person;
pub mod people;
pub mod floor;
pub mod nearest;
pub mod elevator;
pub mod floors;
pub mod elevators;
pub mod building;
pub mod dispatch;
pub mod controller;
pub mod quiet;
