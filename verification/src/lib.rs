//! Codec for a rotating-mirror volumetric display.
//!
//! A spinning assembly of tilted mirrors reflects the image of a few flat
//! LED panels into a volume.  The codec maps a sparse list of coloured
//! voxels to the scan lines that each panel has to show at each rotation
//! angle, and maps scan lines back to the panel pixels they light.
//!
//! All geometry that needs real numbers is computed by the caller; this
//! crate holds the discrete part: the lookup table from voxel to panel
//! pixel, the rules by which it is filled, and the encoder built on it.

pub mod align;
pub mod codec;
pub mod decode;
pub mod encode;
pub mod geometry;
pub mod image;
pub mod keys;
pub mod laws;
pub mod line;
pub mod lut;
pub mod pyramid;
pub mod scan;

pub use crate::align::parse_addr_map;
pub use crate::codec::{BuildAction, BuildEvent, Codec};
pub use crate::encode::{AngleMap, EncodeError, PixelSurface};
pub use crate::geometry::{H_PIXELS, TOTAL_ANGLES, W_PIXELS};
pub use crate::image::{AngleImage, IMG_HEIGHT, IMG_WIDTH, RGBH};
pub use crate::line::{AddrMap, PixelColor, ScreenLine};
pub use crate::lut::{BuildError, LookupTable, LutEntry};
pub use crate::pyramid::gen_pyramid_surface;
