//! Encrypted profiles of environment variables.
//!
//! A profile is a named set of `NAME=VALUE` pairs.  It is kept encrypted under
//! a passphrase, can be changed in memory and written back, and can be applied
//! to an environment and taken out of it again without losing what was there
//! before.
//!
//! - [`cipher`]: the key derived from a passphrase, and authenticated
//!   encryption under it.
//! - [`envs`]: the variables of a profile and their byte form.
//! - [`container`]: the encrypted container, its byte layout, and the codec
//!   between variables and containers.
//! - [`store`]: the named containers, replaced atomically.
//! - [`profile`]: a decrypted profile and its changes.
//! - [`lifecycle`] and [`snapshot`]: loading a profile into an environment and
//!   unloading it again.
//! - [`command`]: the commands of the command line as a machine of steps.
//! - [`table`], [`text`], [`wire`]: the association list, the texts and the
//!   byte fields that the rest is built on.

pub mod cipher;
pub mod command;
pub mod container;
pub mod envs;
pub mod error;
pub mod lifecycle;
pub mod profile;
pub mod snapshot;
pub mod store;
pub mod table;
pub mod text;
pub mod wire;
