//! Relations between entities whose two sides are kept mirrored: when one entity
//! names another as related, the other names it back.

pub mod container;
pub mod message;
pub mod query;
pub mod related;
pub mod world;
pub mod laws;
