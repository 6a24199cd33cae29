pub mod chunk;
pub mod hash;
pub mod leaf;
pub mod link;
pub mod roundtrip;
pub mod tree;
pub mod vm;
