//! A character-grid game runtime: a screen buffer with a rasteriser, an input
//! edge detector, a frame scheduler and an audio mixer, each with a proved
//! contract.

pub mod audio;
pub mod blit;
pub mod circle;
pub mod color;
pub mod engine;
pub mod input;
pub mod key;
pub mod line;
pub mod model;
pub mod mouse;
pub mod oneshot;
pub mod pixel;
pub mod polygon;
pub mod scheduler;
pub mod screen;
pub mod sprite;
pub mod text;
pub mod triangle;
pub mod wav;

pub use sprite::{Sprite, SpriteError};
pub use audio::{AudioAction, AudioCommand, AudioMixer, PlayingNote};
pub use engine::{ConsoleError, ConsoleGameEngine, DisplayLimits};
pub use input::{InputEvent, KeyState};
pub use scheduler::{Action, FrameScheduler, Phase};
pub use screen::Cell;
