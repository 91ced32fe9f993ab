//! Display-layout memory: reconciles output-management events into head records,
//! remembers layouts per set of connected heads, and decides when to save, update
//! or reapply a remembered layout.

pub mod complete;
pub mod config;
pub mod daemon;
pub mod keyed;
pub mod layout;
pub mod partial;
