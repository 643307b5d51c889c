pub mod text;
pub mod lexer;
pub mod spec_lang;
pub mod registry;
pub mod resolve;
pub mod cardinality;
pub mod enumerate;
pub mod solve;
pub mod semantics;
pub mod sorting;
pub mod rotations;
pub mod partition;
pub mod emit;
pub mod drivers;
pub mod avb_emit;
pub mod codegen;
pub mod abi;
pub mod batteries;
pub mod demo;
pub mod bench_registry;
pub mod benchmark;
pub mod avbs;
