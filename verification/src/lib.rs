//! Content-aware image resizing by seam carving, with the w2 algorithm of
//! Huang, H., Fu, T., Rosin, P.L. et al., "Real-time content-aware image
//! resizing", Sci. China Ser. F-Inf. Sci. 52, 172–182 (2009).
//!
//! [`find_vertical_seams`] finds one seam per column of the top row;
//! [`remove_vertical_seams`] removes the lowest-energy ones in a single pass;
//! [`shrink_width`] does both.

pub mod image;
pub mod energy;
pub mod seams;
pub mod carve;
pub mod draw;

pub use crate::image::{ColorLayout, Image};
pub use crate::energy::{compute_intensity, compute_energy, compute_bottom_up_min_cumulative_energy};
pub use crate::seams::{VerticalSeam, VerticalSeams, find_vertical_seams, find_vertical_seam, m_fits_u32, dp_fits_u64};
pub use crate::carve::{remove_vertical_seams, remove_vertical_seam, shrink_width};
pub use crate::draw::{draw_vertical_seams, draw_vertical_seams_by_energy};
