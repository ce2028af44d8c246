//! Repairs alpha bleeding: colour is carried from the opaque pixels of an
//! image into its fully transparent pixels, layer by layer, so that later
//! resampling blends visible edges against sensible colour.

pub mod bitmap;
pub mod bleed;
pub mod cli;
pub mod frontier;
pub mod grid;
pub mod laws;
pub mod propagate;
pub mod wave;

pub use crate::bitmap::{Bitmap, Grid, Rgba8};
pub use crate::bleed::{fix_alpha, set_alpha, FixError};
pub use crate::cli::{has_no_separator, save_stem_of, Cli};
pub use crate::grid::neighbors;
pub use crate::wave::PixelState;
