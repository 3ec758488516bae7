pub mod arith;
pub mod basis;
pub mod congruence;
pub mod kraitchik;
pub mod relation;
pub mod search;
pub mod trial;
