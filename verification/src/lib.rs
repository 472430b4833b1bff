//! A verified single-user task list: an in-memory model of the task
//! collection, the text format it is persisted in, and the command
//! dispatcher that a command-line front end drives.

pub mod codec;
pub mod command;
pub mod model;
