//! What the menus of the program decide without asking anyone: how a
//! practice set is named in the list of sets, and what may be stored as a
//! word or a definition.

pub mod edit;
pub mod learn;
