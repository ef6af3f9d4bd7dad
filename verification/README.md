# algo

Planning and integer kernels for running a convolutional network split over
several small processors, verified with Verus.

- `src/partition.rs`: which processor computes which output (`find_which_cpu`).
- `src/input_mapping.rs`: which processors need each input cell (`get_input_mapping`).
- `src/input_routing.rs`: sending input values to those processors (`distribute_input`).
- `src/weight_distribution.rs`: dealing a layer's weights (`distribute_weight`).
- `src/mapping_analysis.rs`: per-sender phase lists of a mapping (`analyse_mapping`, `mark_end`).
- `src/weights.rs`: input counts, page sizes and sorting of weight units.
- `src/conv_schedule.rs`: the input and weight indices of every multiply-accumulate
  of a convolution share.
- `src/quant_compute.rs`: the quantized computation of a share.
- `src/layer.rs`, `src/maxpool2d.rs`: the layer types and traits.

`app/lib.rs` holds what works in single precision (the float kernels, the
quantization of weights and activations) and the serde form of the max pooling
layer; it calls the verified planning code.
