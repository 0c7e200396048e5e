//! Building Valve Pak (VPK version 1) archives: the directory tree, the
//! packing of file data into archive chunks, and the decisions around them.

pub mod encode;
pub mod order;
pub mod entry;
pub mod tree;
pub mod listing;
pub mod layout;
pub mod pack;
pub mod mode;
pub mod icon;
pub mod laws;
