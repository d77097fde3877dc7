pub mod mapped_file;
pub mod prism;
