//! A valley crossed by blizzards that move in straight lines and wrap round.

pub mod basin;
pub mod rewind;
pub mod valley;
