//! Grayscale mathematical morphology: erosion, dilation, opening, closing,
//! and opening/closing by reconstruction, over an 8-bit single-channel image.

pub mod buffer;
pub mod element;
pub mod laws;
pub mod morph;
pub mod recon;
