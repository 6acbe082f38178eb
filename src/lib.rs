//! Image transfer between a small color display and a storage server:
//! the nine-color palette, the run-length row codec with its wire framing,
//! the 16-bit bitmap container, and the request header.

pub mod palette;
pub mod row_codec;
pub mod wire;
pub mod protocol;
pub mod bitmap;
pub mod session;

pub use palette::{code_2_color, color_2_code};
pub use row_codec::{compress, uncompress};
