pub mod annexb;
pub mod audio;
