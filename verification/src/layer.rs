use vstd::prelude::*;

verus! {

/// Shape of a grouped 2-d convolution as seen by the distribution code.
///
/// `k` is the kernel (width, height), `s` the stride (x, y), `o` the output
/// shape (channels, rows, columns), `i` the input shape (channels, rows,
/// columns), `i_pg` and `o_pg` the input and output channels per group.
#[derive(Clone, Copy, Debug, PartialEq, Eq)]
pub struct ConvMapping {
    pub k: (i32, i32),
    pub s: (i32, i32),
    pub o: (i32, i32, i32),
    pub i: (i32, i32, i32),
    pub i_pg: i32,
    pub o_pg: i32,
}

/// Shape of a fully connected layer: `c_in` inputs, `c_out` outputs.
#[derive(Clone, Copy, Debug, PartialEq, Eq)]
pub struct LinearMapping {
    pub c_in: i32,
    pub c_out: i32,
}

/// A clipped linear unit layer carries no shape of its own.
#[derive(Clone, Copy, Debug, PartialEq, Eq)]
pub struct ReLU6Info {}

/// A batch normalisation layer is kept on the coordinator; it carries no
/// shape the distribution code reads.
#[derive(Clone, Copy, Debug, PartialEq, Eq)]
pub struct BatchNorm2dInfo {}

/// What kind of layer a weight unit or a layer belongs to, with its shape.
#[derive(Clone, Copy, Debug, PartialEq, Eq)]
pub enum InfoWrapper {
    Convolution(ConvMapping),
    Linear(LinearMapping),
    ReLU6(ReLU6Info),
    BatchNorm2d(BatchNorm2dInfo),
    /// Kernel (width, height), stride and dilation of a max pooling layer.
    MaxPool2d((i32, i32), i32, i32),
}

/// The integer view of a network layer that the distribution code needs.
///
/// `spec_input` says which input positions (channel, row, column) an output
/// position depends on; a verified implementation states it and the other
/// spec functions and proves its methods against them.  The defaults stand
/// for an unknown value, for implementations written outside verification.
pub trait Layer {
    open spec fn spec_name(&self) -> Seq<char> {
        arbitrary()
    }

    open spec fn spec_input(&self, position: Seq<i32>) -> Seq<Seq<i32>> {
        arbitrary()
    }

    open spec fn spec_output_shape(&self) -> Seq<i32> {
        arbitrary()
    }

    open spec fn spec_info(&self) -> InfoWrapper {
        arbitrary()
    }

    open spec fn spec_info_no_padding(&self) -> InfoWrapper {
        arbitrary()
    }

    fn identify(&self) -> (r: &str)
        ensures
            r@ == self.spec_name(),
    ;

    fn get_input(&self, position: Vec<i32>) -> (r: Vec<Vec<i32>>)
        ensures
            r.deep_view() == self.spec_input(position@),
    ;

    fn get_output_shape(&self) -> (r: Vec<i32>)
        ensures
            r@ == self.spec_output_shape(),
    ;

    fn get_info(&self) -> (r: InfoWrapper)
        ensures
            r == self.spec_info(),
    ;

    fn get_info_no_padding(&self) -> (r: InfoWrapper)
        ensures
            r == self.spec_info_no_padding(),
    ;
}

/// The weights of a layer, as numbers of type `T`.
///
/// `spec_bias`, `spec_weights_from_input` and `spec_weights` name what the
/// methods return; the distribution code only moves these values around.
pub trait LayerWeights<T> {
    open spec fn spec_bias(&self, p: i32) -> T {
        arbitrary()
    }

    open spec fn spec_weights_from_input(&self, input: Seq<Seq<i32>>, c: i32) -> Seq<T> {
        arbitrary()
    }

    open spec fn spec_weights(&self) -> Seq<T> {
        arbitrary()
    }

    /// The bias of output channel `p`.
    fn get_bias(&self, p: i32) -> (r: T)
        ensures
            r == self.spec_bias(p),
    ;

    /// The weights of output channel `c`, in the order of the input
    /// positions `input` that one of its outputs reads.
    fn get_weights_from_input(&self, input: Vec<Vec<i32>>, c: i32) -> (r: Vec<T>)
        ensures
            r@ == self.spec_weights_from_input(input.deep_view(), c),
    ;

    /// All weights of the layer, flattened.
    fn get_weights(&self) -> (r: Vec<T>)
        ensures
            r@ == self.spec_weights(),
    ;
}

/// The weights of one output kernel (or a slice of one) that a processor
/// receives, together with where its outputs start.
///
/// `T` is the number type of the weights and bias; the distribution code
/// never reads them, only the position fields.
pub struct WeightUnit<T> {
    pub data: Vec<T>,
    pub bias: T,
    pub which_kernel: u16,
    pub count: i32,
    pub start_pos_in: Vec<i32>,
    pub info: InfoWrapper,
}

/// A weight unit after quantization: 8-bit weights, a 32-bit bias, the zero
/// points of input, weights and output, and the rescaling factor `m` and
/// output scale `s_out` of type `S`, which the integer code hands unread to
/// the caller's rescaling.
pub struct QuantizedWeightUnit<S> {
    pub data: Vec<u8>,
    pub bias: i32,
    pub which_kernel: u16,
    pub count: i32,
    pub start_pos_in: Vec<i32>,
    pub info: InfoWrapper,
    pub zero_points: (u8, u8, u8),
    pub m: S,
    pub s_out: S,
}

/// For one sending processor: the phases of its output stream.  Phase `n`
/// sends `count[n]` values to the processors listed in `map[n]`;
/// `padding_pos[n]` lists the offsets within the phase that are padding
/// zeros, and `end_pos` marks (phase, receiver, offset) where a receiver's
/// last input is sent.
#[derive(Debug)]
pub struct Mapping {
    pub count: Vec<u16>,
    pub map: Vec<Vec<u8>>,
    pub padding_pos: Vec<Vec<u16>>,
    pub end_pos: Vec<(u16, u8, u16)>,
}

} // verus!
