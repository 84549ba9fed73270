//! Decoding of smoke-grenade voxel journals.
//!
//! A smoke grenade is networked as an append-only journal of frames. This crate
//! turns that byte blob into smoke geometry:
//!
//! * the occupancy: which voxels of a 32 x 32 x 32 grid the smoke fills, after
//!   the last frame ([`decode`]), frame by frame ([`Occupancy`]) or as changes
//!   between frames ([`delta_frames`]);
//! * the seed footprint: a coarse sampling of the smoke's ground footprint,
//!   carried by the first frame ([`decode_seed`]).
//!
//! Each function's contract says exactly what it returns; the `law_` proof
//! functions state what holds of several of them together.

pub mod bytes;
pub mod column;
pub mod delta;
pub mod frame;
pub mod listing;
pub mod morton;
pub mod occupancy;
pub mod record;
pub mod seed;
pub mod smoke;
pub mod world;

pub use column::{pack_voxel, unpack_voxel};
pub use delta::{delta_frames, DeltaView, VoxelDelta};
pub use frame::{split_frames, Frame, FrameKind, FrameView};
pub use morton::morton_decode3;
pub use occupancy::{Occupancy, WORDS};
pub use record::{decode_extended, OccupancyRecord};
pub use seed::{decode_seed, SeedPoint};
pub use smoke::{decode, DecodedSmoke, SmokeRecord};
pub use world::{voxel_offset, CENTRE, EDGE, GRID};
