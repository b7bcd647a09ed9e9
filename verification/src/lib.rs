//! A publish/subscribe event bus with dot-separated glob subscriptions.
pub mod bus;
pub mod event;
pub mod glob;
pub mod runs;

pub use bus::EventBus;
pub use event::{Event, EventBusStats, EventId, EventPriority, Subscription};
pub use glob::matches_glob;
