//! Retained-mode core of a UI toolkit: an entity-component store with
//! parent-child relations, a declarative query layer with runtime borrow
//! checking, a deferred command buffer, an ordered system schedule with
//! flush points, a constraint-based layout solver, depth-first transform
//! propagation, and a handle-based asset cache with secondary maps.

pub mod app;
pub mod cache;
pub mod commands;
pub mod layout;
pub mod math;
pub mod query;
pub mod schedule;
pub mod store;
pub mod systems;
pub mod transform;

pub use app::App;
pub use app::Canvas;
pub use app::Frame;
pub use app::Widget;
pub use math::Rect;
pub use math::Vec2;
