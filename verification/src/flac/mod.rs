pub mod bits;
pub mod error;
pub mod header;
pub mod subframe;
pub mod frame;
pub mod metadata;
pub mod application_id;
pub mod name_channel_mask;
