pub mod arithmetic;
pub mod divisibility;
pub mod factorial;
pub mod factorization;
pub mod fermat;
pub mod fp;
pub mod gcd;
pub mod lpf;
pub mod mersenne;
pub mod prime;
pub mod primes;
pub mod root;
