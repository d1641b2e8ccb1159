//! Visual terminal toolkit: text and Braille art from pixel buffers,
//! delta-encoded video frames and their playback decisions, the rules of a
//! snake game, and the reading of menu answers and video descriptions.
pub mod ramp;
pub mod rng;
pub mod keys;
pub mod snake;
pub mod decimal;
pub mod braille;
pub mod frames;
pub mod player;
pub mod text;
pub mod probe;
pub mod choices;
pub mod art;
pub mod ui;
pub mod picture;
