//! The engine behind the distract overlay: its event journal, its window
//! placement, voxel meshing, sprite packing and the importer's formats.

pub mod text;
pub mod journal;
pub mod placement;
pub mod subscription;
pub mod raster;
pub mod voxel;
pub mod importer;
pub mod scaffold;
pub mod sheet;
pub mod asset_decode;
pub mod sidecar;
pub mod compositor;
pub mod rng;
pub mod manifest;
pub mod canvas;
pub mod sorting;
pub mod atlas;
pub mod background;
pub mod meshbook;
pub mod parity;
pub mod export;
pub mod state_machine;
pub mod asset_cache;
pub mod redraw;
