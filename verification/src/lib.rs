//! Inner pairing product arguments over BLS12-381: the recursive halving
//! argument, its succinct variant with a structured reference string, and
//! polynomial commitments built on them.

pub mod algebra;
pub mod applications;
pub mod dh_commitments;
pub mod element;
pub mod field;
pub mod gipa;
pub mod groups;
pub mod inner_products;
pub mod polynomial;
pub mod tipa;
pub mod transcript;
