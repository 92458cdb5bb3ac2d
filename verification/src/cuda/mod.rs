pub mod kernels;
