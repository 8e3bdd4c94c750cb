//! Distance-to-mate endgame tablebases: canonical position indexing with
//! symmetry reduction, table generation by retrograde analysis, block
//! compressed storage and probing, with every function proved against its
//! contract.
#![allow(unused_imports)]

pub mod attack;
pub mod chess;
pub mod codec;
pub mod codes;
pub mod combination;
pub mod decode;
pub mod dtm;
pub mod free;
pub mod gaviota;
pub mod generator;
pub mod graph;
pub mod index;
pub mod kings;
pub mod kkx;
pub mod locate;
pub mod material;
pub mod meaning;
pub mod movegen;
pub mod orient;
pub mod position;
pub mod probe;
pub mod registry;
pub mod serial;
pub mod solver;
pub mod store;
pub mod symmetry;
pub mod unique;
pub mod unmove;
