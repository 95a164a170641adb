//! Readers for the archive, texture and model formats of the first Monster Hunter game.

pub mod apx;
pub mod bytes;
pub mod cast;
pub mod glb;
pub mod links;
pub mod listing;
pub mod melt;
pub mod mesh;
pub mod model;
pub mod plan;
pub mod amo;
pub mod amoold;
pub mod strips;
pub mod text;

pub use crate::melt::{meltw, MeltError};

pub use crate::links::{
    amo_ahi_expand, get_link_file_address, get_link_file_num, get_link_file_size,
    get_link_file_slice, load_texlist, read_afs_file, read_all_links, try_load_texlist, ArchiveError,
    Link,
};
pub use crate::cast::{cast_data, cast_data_n, cast_data_vec, CastError};
