pub mod algobra;
pub mod calculus;
pub mod filesystem;
pub mod spelling;
pub mod syllabifier;
pub mod utilities;
