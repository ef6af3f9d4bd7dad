//! Planning and integer kernels for running a convolutional network split
//! over several small processors: which processor computes which output,
//! which inputs each processor needs, and the quantized arithmetic each one
//! performs on its share.

pub mod layer;
pub mod maxpool2d;
pub mod partition;
pub mod ordering;
pub mod weights;
pub mod input_mapping;
pub mod util;
pub mod mapping_analysis;
pub mod input_routing;
pub mod weight_distribution;
pub mod conv_schedule;
pub mod quant_compute;
