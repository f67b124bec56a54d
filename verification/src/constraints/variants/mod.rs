pub mod anti_knight;
pub mod classic;
pub mod killer;
pub mod little_killer;
pub mod thermometer;

pub use anti_knight::AntiKnightConstraint;
pub use classic::ClassicConstraint;
pub use killer::KillerConstraint;
pub use little_killer::LittleKillerConstraint;
pub use thermometer::ThermometerConstraint;
