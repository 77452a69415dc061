//! Repository initialisation: locating an existing repository, building the
//! layout of a new one, writing its configuration text and deciding, node by
//! node, what has to be written to the directory.

pub mod commands;
pub mod modules;
