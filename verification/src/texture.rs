//! The colours of the square textures the game draws with.
use vstd::prelude::*;

verus! {

/// Side of a square texture, in pixels.
pub const TEXTURE_SIZE: u32 = 32;

/// Side of a field cell on screen, in pixels.
pub const TETRIS_HEIGHT: usize = 40;

/// A texture colour: green, blue or red.
#[derive(Clone, Copy, Debug, PartialEq, Eq, Structural)]
pub enum TextureColor {
    Groen,
    Blauw,
    Rood,
}

impl TextureColor {
    /// The red, green and blue components a square of this colour is filled with.
    pub fn rgb(&self) -> (c: (u8, u8, u8))
        ensures
            c == match *self {
                TextureColor::Groen => (0u8, 255u8, 0u8),
                TextureColor::Blauw => (0u8, 0u8, 225u8),
                TextureColor::Rood => (255u8, 0u8, 0u8),
            },
    {
        match self {
            TextureColor::Groen => (0, 255, 0),
            TextureColor::Blauw => (0, 0, 225),
            TextureColor::Rood => (255, 0, 0),
        }
    }
}

} // verus!
