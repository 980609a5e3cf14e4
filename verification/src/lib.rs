//! The verified core of a DeepMind editor and librarian.

pub mod app;
pub mod program;
pub mod patch;
pub mod text;
pub mod shelf;
pub mod catalogue;
pub mod matrix;
pub mod bay;
pub mod sequencer;
pub mod name;
pub mod panel;
pub mod window;
pub mod preview;
pub mod publish;
pub mod sounds;
pub mod desk;
