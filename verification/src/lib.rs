pub mod counts;
pub mod dataset;
pub mod impurity;
pub mod split;
pub mod tree;
