pub mod algebra;
pub mod convolution;
pub mod divide_and_conquer;
pub mod fps;
pub mod graph;
pub mod grid;
pub mod linear;
pub mod monge;
pub mod num;
pub mod periodic_function;
pub mod poly;
pub mod sequence;
pub mod set_power_series;
pub mod set_function;
pub mod symmetric;
