//! An entity/component store with per-component-type locking and a
//! filter pipeline that intersects component storages.
pub mod entity;
pub mod storage;
pub mod set;
pub mod query;
pub mod world;
