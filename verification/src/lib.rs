//! Verified core of the DSH desktop shell.
//!
//! The shell shows the web chat of DSH in a window of its own. It finds DSH
//! or offers to get it, starts it or attaches to it, watches over what it has
//! started, and tells the user when a session is finished. This crate holds
//! what the shell computes and decides; windows, processes, sockets and files
//! are reached from outside and hand in plain values.
//!
//! - [`launch`], [`lifecycle`] and [`console`]: the launch chain, one trial of
//!   a candidate, startup, supervision, and what DSH prints.
//! - [`settings`], [`yaml`], [`env`], [`logs`] and [`npm`]: the shell's
//!   settings, the repair of DSH's own, the environment report, the log and
//!   its archives, registries and versions.
//! - [`monitor`]: the watch on DSH's event stream.
//! - [`token`], [`scan`] and [`worker`]: the recovery of a launch token.
//! - [`process`]: process trees and listeners.
//! - [`json`] and [`text`]: the values that all of this works on.
//!
//! Functions named `law_` state what holds of several of these together.

pub mod console;
pub mod env;
pub mod json;
pub mod launch;
pub mod lifecycle;
pub mod logs;
pub mod monitor;
pub mod npm;
pub mod process;
pub mod scan;
pub mod settings;
pub mod text;
pub mod token;
pub mod worker;
pub mod yaml;
