pub mod arith;
pub mod number_theory;
pub mod ntt;
pub mod params;
