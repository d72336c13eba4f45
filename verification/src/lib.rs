pub mod util;
pub mod grid;
pub mod rng;
pub mod dissector;
pub mod paths;
pub mod algs;
pub mod pf;
