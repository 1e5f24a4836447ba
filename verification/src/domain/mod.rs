pub mod arrangement;
pub mod canonical;
pub mod expected;
pub mod midi;
pub mod result;
pub mod time;
