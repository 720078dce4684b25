//! Four numbers that are computed on together.

use super::arith::{product, sum};
use super::repr::F32;
use vstd::prelude::*;

verus! {

/// Four numbers. Every operation works on each lane by itself.
#[derive(Clone, Copy)]
pub struct F32x4 {
    lanes: [F32; 4],
}

impl View for F32x4 {
    type V = Seq<F32>;

    closed spec fn view(&self) -> Seq<F32> {
        self.lanes@
    }
}

impl F32x4 {
    /// The same number in every lane.
    pub fn splat(x: F32) -> (v: F32x4)
        ensures
            v@ == seq![x, x, x, x],
    {
        let v = F32x4 { lanes: [x, x, x, x] };
        assert(v@ =~= seq![x, x, x, x]);
        v
    }

    /// The lanes from an array.
    pub fn from_array(lanes: [F32; 4]) -> (v: F32x4)
        ensures
            v@ == lanes@,
    {
        F32x4 { lanes }
    }

    /// The lanes as an array.
    pub fn to_array(self) -> (lanes: [F32; 4])
        ensures
            lanes@ == self@,
    {
        self.lanes
    }

    /// The sum, lane by lane.
    pub fn plus(self, other: F32x4) -> (v: F32x4)
        ensures
            v@ == Seq::new(4, |c: int| sum(self@[c], other@[c])),
    {
        let v = F32x4 {
            lanes: [
                self.lanes[0].plus(other.lanes[0]),
                self.lanes[1].plus(other.lanes[1]),
                self.lanes[2].plus(other.lanes[2]),
                self.lanes[3].plus(other.lanes[3]),
            ],
        };
        assert(v@ =~= Seq::new(4, |c: int| sum(self@[c], other@[c])));
        v
    }

    /// The product, lane by lane.
    pub fn times(self, other: F32x4) -> (v: F32x4)
        ensures
            v@ == Seq::new(4, |c: int| product(self@[c], other@[c])),
    {
        let v = F32x4 {
            lanes: [
                self.lanes[0].times(other.lanes[0]),
                self.lanes[1].times(other.lanes[1]),
                self.lanes[2].times(other.lanes[2]),
                self.lanes[3].times(other.lanes[3]),
            ],
        };
        assert(v@ =~= Seq::new(4, |c: int| product(self@[c], other@[c])));
        v
    }
}

} // verus!
