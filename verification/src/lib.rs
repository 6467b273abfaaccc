//! Remaps touch surfaces and keyboards onto a single synthetic gamepad-like
//! device, and supervises the remapping across device hotplug events.
//!
//! The crate is organised around two subsystems:
//!
//! - the remapping engines ([`pad`], [`keys`]): per-device translation of raw
//!   key/touch input into synthetic axis and button frames, built on exact
//!   fixed-point arithmetic ([`fixed`]);
//! - the hotplug orchestrator ([`classify`], [`group`], [`reconcile`]):
//!   classification of discovered device nodes, partition into fixed-size
//!   groups, and the debounced reconcile loop that keeps one engine instance
//!   running per group.
//!
//! All I/O (device files, filesystem watching, process management) lives
//! outside this crate; the functions here compute decisions and frames from
//! plain values.

pub mod classify;
pub mod config;
pub mod events;
pub mod fixed;
pub mod group;
pub mod keys;
pub mod pad;
pub mod reconcile;
