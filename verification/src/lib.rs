//! A baby-step giant-step solver for the discrete logarithm problem: given a
//! generator `g`, a target `h` and a modulus `p`, find `x` with
//! `g^x mod p == h`. The solver comes in a sequential and a parallel variant,
//! both pinned by contract to the same mathematical result.
pub mod modmath;
pub mod solver;
pub mod table;
pub mod uint;

pub use solver::BSGS;
pub use solver::Parallel;



