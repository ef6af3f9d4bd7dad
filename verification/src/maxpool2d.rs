use vstd::prelude::*;

use crate::layer::{InfoWrapper, Layer};

verus! {

/// A max pooling layer: stride `s`, kernel `k`, dilation `d`.
#[derive(Clone, Copy, Debug)]
pub struct MaxPool2d {
    pub s: i32,
    pub k: i32,
    pub d: i32,
}

impl Layer for MaxPool2d {
    open spec fn spec_name(&self) -> Seq<char> {
        "MaxPool2d"@
    }

    open spec fn spec_input(&self, position: Seq<i32>) -> Seq<Seq<i32>> {
        seq![position]
    }

    open spec fn spec_output_shape(&self) -> Seq<i32> {
        Seq::empty()
    }

    open spec fn spec_info(&self) -> InfoWrapper {
        InfoWrapper::MaxPool2d((self.k, 1), self.s, self.d)
    }

    open spec fn spec_info_no_padding(&self) -> InfoWrapper {
        InfoWrapper::MaxPool2d((self.k, 1), self.s, self.d)
    }

    fn identify(&self) -> (r: &str) {
        "MaxPool2d"
    }

    fn get_input(&self, position: Vec<i32>) -> (r: Vec<Vec<i32>>) {
        let mut r: Vec<Vec<i32>> = Vec::new();
        let ghost pos = position@;
        r.push(position);
        proof {
            assert(r@[0].deep_view() =~= pos);
            assert(r.deep_view() =~= seq![pos]);
        }
        r
    }

    fn get_output_shape(&self) -> (r: Vec<i32>) {
        let r: Vec<i32> = Vec::new();
        proof {
            assert(r@ =~= Seq::<i32>::empty());
        }
        r
    }

    fn get_info(&self) -> (r: InfoWrapper) {
        InfoWrapper::MaxPool2d((self.k, 1), self.s, self.d)
    }

    fn get_info_no_padding(&self) -> (r: InfoWrapper) {
        InfoWrapper::MaxPool2d((self.k, 1), self.s, self.d)
    }
}

} // verus!
