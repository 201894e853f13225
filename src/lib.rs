//! Page selection, work partitioning and result bookkeeping for a
//! multi-process PDF-to-JPEG renderer.
pub mod error;
pub mod page_range;
pub mod render_worker;
pub mod render;
pub mod range_laws;
pub mod jpeg;
