pub mod heartbeat;
pub mod price_tick;

pub use heartbeat::Heartbeat;
pub use price_tick::PriceTick;
