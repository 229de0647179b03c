pub mod clock;
pub mod controller;
pub mod flood;
pub mod grid;
pub mod layout;
pub mod leaderboard;
pub mod look;
pub mod model;
pub mod placement;
pub mod text;
