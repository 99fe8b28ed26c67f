pub mod analysis;
pub mod bits;
pub mod closure;
pub mod complete;
pub mod derive;
pub mod context;
pub mod dfa;
pub mod format;
pub mod driver;
pub mod grammar;
pub mod line;
pub mod order;
pub mod parser;
pub mod run;
pub mod symbols;
pub mod tree;
