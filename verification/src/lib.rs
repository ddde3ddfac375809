//! Image-processing core of the handwritten font template scanner: page layout
//! arithmetic, binarization, morphology, connected-component quality
//! filtering, adoption rules, the integer geometry of glyph vectorization
//! (contour tracing and the area its loops enclose, Douglas-Peucker,
//! run-length rectangles and how they cover the ink), ink blobs for marker
//! detection, photo decoding, QR codes and page labels, page corrections,
//! and the raster shapes and check marks a template page is drawn with.

pub mod grid;
pub mod layout;
pub mod components;
pub mod quality;
pub mod morphology;
pub mod binarize;
pub mod filters;
pub mod clahe;
pub mod cell;
pub mod vectorizer;
pub mod contour;
pub mod simplify;
pub mod unionfind;
pub mod blobs;
pub mod marker;
pub mod qrread;
pub mod qrinfo;
pub mod pagefix;
pub mod raster;
pub mod marks;
pub mod area;
pub mod runcover;
pub mod qrgen;
pub mod imagein;
