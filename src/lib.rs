//! Succinct bit vectors with rank and select support.
//!
//! A [`BitMap`] stores bits packed into 64-bit words and answers linear,
//! hint-driven rank and select queries. [`Rank9`] and [`Rank10`] add counter
//! tables for constant-time rank; [`Select9`] and [`Rank10Sel`] add a
//! position inventory on top of them for fast select; [`SelectAdapt`] and
//! [`SelectAdaptConst`] answer select alone with a two-level sampling index.
//! Every structure is described by the sequence of bits it indexes, and its
//! queries are proved against [`rank_of`] and [`is_selected`]; the module
//! [`laws`] states how rank and select relate.

pub mod word;
pub mod model;
pub mod traits;
pub mod bitmap;
pub mod rank9;
pub mod rank10;
pub mod rank10sel;
pub mod laws;
pub mod persist;
pub mod select_adapt;
pub mod select9;

pub use bitmap::BitMap;
pub use model::{complement, is_selected, is_zero_selected, rank_of};
pub use rank10::Rank10;
pub use rank9::Rank9;
pub use rank10sel::Rank10Sel;
pub use select9::Select9;
pub use select_adapt::{SelectAdapt, SelectAdaptConst};
pub use traits::{
    BitCount, BitLength, Rank, RankHinted, RankZero, Select, SelectHinted, SelectZero,
    SelectZeroHinted,
};
