pub mod text;
pub mod media;
pub mod sorting;
pub mod archive;
pub mod directory;
pub mod upscale;
pub mod settings;
pub mod zip_entries;
