pub mod comms;
pub mod game;
pub mod ui;
pub mod wire;
