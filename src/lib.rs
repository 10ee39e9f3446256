//! Number theory for integers modulo `m`: Miller-Rabin primality, Pollard's
//! rho factorisation and discrete logarithms, with the sieves, modular
//! arithmetic, geometry, matrices, hashing, generators and search helpers
//! around them.

pub mod modarith;
pub mod primality;
pub mod factor;
pub mod dlp;
pub mod eratosthenes;
pub mod primenumber;
pub mod dpfactorial;
pub mod geometry;
pub mod complex;
pub mod matrix;
pub mod rng;
pub mod vectools;
pub mod rollinghash;
pub mod raq_bit;
pub mod graph_search;
pub mod mex;
