//! Persistent simulation islands for sleeping and waking.

pub mod commands;
pub mod fitting;
pub mod island;
pub mod laws;
pub mod list;
pub mod manager;
pub mod member_laws;
pub mod node;
pub mod search;
pub mod sleep_laws;
pub mod sleeping;
