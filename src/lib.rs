//! Index-and-search core of an application launcher: directory resolution,
//! catalog building, the catalog cache codec, incremental ranked search and
//! the selection state machine.

pub mod text;
pub mod executable;
pub mod executables;
pub mod search;
pub mod cache;
pub mod order;
pub mod catalog;
pub mod dirs;
pub mod window_options;
pub mod launch;
