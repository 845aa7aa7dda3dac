//! Bookkeeping core of a small 3D scene viewer.
//!
//! The crate tracks meshes that are fetched in the background, owns the GPU
//! resources of the loaded ones, decides which of them may be destroyed, and
//! resolves every scene object to the mesh it is drawn with. Fetching,
//! uploading and drawing happen outside; this crate only decides, and every
//! decision carries a proved contract.

pub mod ids;
pub mod mode;
pub mod state;
mod keyed;
pub mod view;
pub mod validity;
pub mod registry;
pub mod drain;
pub mod scene;
pub mod reclaim;
pub mod listing;
pub mod frame;
pub mod mesh;
pub mod laws;
