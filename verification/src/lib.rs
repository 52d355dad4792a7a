pub mod breakout;
pub mod charades;
pub mod gamekit;
pub mod keys;
pub mod mines;
pub mod pipes;
pub mod reversi;
pub mod rng;
pub mod sirtet;
pub mod solitaire;
pub mod sudoku;
pub mod twentyfortyeight;
