pub mod board;
pub mod bot_board;
pub mod chance;
pub mod clock;
pub mod filestate;
pub mod game;
pub mod listing;
pub mod mct_bot;
pub mod notation;
pub mod player;
pub mod text;
pub mod tree;
