//! A sorting engine for arrays of `f32`.
//!
//! An array is sorted directly on one thread if it is tiny ([`sort`]), by a parallel radix
//! sort otherwise ([`radix`]), or, if calibration found that to be faster on the machine
//! ([`autotune`]), by cutting it into buckets ([`partition`]), sorting the buckets on the GPU
//! ([`gpu`], [`kernels`], [`bitonic`]) and writing them back one after the other. Numbers
//! travel through the library as their bit patterns ([`float32`]). The library decides and
//! computes; the program around it moves bytes to and from the network and the GPU
//! ([`server`], [`conversation`]).
pub mod allocator;
pub mod autotune;
pub mod bitonic;
pub mod buckets;
pub mod conversation;
pub mod float32;
pub mod frames;
pub mod gpu;
pub mod kernels;
pub mod parallel;
pub mod partition;
pub mod permutation;
pub mod radix;
pub mod ratio;
pub mod server;
pub mod sort;
pub mod text;
pub mod threadpool;
