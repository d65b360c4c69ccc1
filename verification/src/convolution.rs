pub mod dirichlet;
pub mod gcd;
pub mod lcm;
