pub mod answers;
pub mod apidoc;
pub mod assets;
pub mod audio;
pub mod blit;
pub mod broker;
pub mod buf;
pub mod carts;
pub mod cli;
pub mod codec;
pub mod console;
pub mod decoding;
pub mod draw;
pub mod error_screen;
pub mod fault;
pub mod filing;
pub mod font;
pub mod grids;
pub mod input;
pub mod ipc;
pub mod keeping;
pub mod layouts;
pub mod manifest;
pub mod math;
pub mod meter;
pub mod net;
pub mod palette;
pub mod panels;
pub mod pen;
pub mod pixels;
pub mod raster;
pub mod remote;
pub mod resources;
pub mod sandbox;
pub mod save;
pub mod settings;
pub mod shared;
pub mod shapes;
pub mod shell;
pub mod snapshot;
pub mod spelling;
pub mod text;
pub mod wire;
pub mod wording;
pub mod worker;

pub use fault::Fault;
pub use input::FrameInput;
pub use meter::{Category, FrameProfile, Meter};
pub use palette::{Palette, PaletteError, Rgb, PALETTE_SIZE, SYSTEM_COLOURS};
