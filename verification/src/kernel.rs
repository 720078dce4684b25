//! The weights of the Gaussian blur.

use crate::float::arith::{negated, product, quotient, root};
use crate::float::convert::{ceiling_i32, of_int};
use crate::float::numbers::{
    one, pi, three, two, ONE_BITS, PI_BITS, THREE_BITS, TWO_BITS, ZERO_BITS,
};
use crate::float::repr::F32;
use crate::sampling::running_sum;
use vstd::prelude::*;

verus! {

/// The radius of a kernel that is given none: three times sigma, rounded up.
pub open spec fn default_radius(sigma: F32) -> int {
    ceiling_i32(product(three(), sigma))
}

/// The radius of a kernel.
pub open spec fn effective_radius(sigma: F32, radius: Option<i32>) -> int {
    match radius {
        Some(r) => r as int,
        None => default_radius(sigma),
    }
}

/// Whether a kernel with this radius has a size that fits into a 32-bit integer.
pub open spec fn valid_radius(radius: int) -> bool {
    0 <= radius && 2 * radius + 1 <= i32::MAX
}

/// The distance of a weight from the middle of the kernel.
pub open spec fn distance(radius: int, i: int) -> F32 {
    of_int(i - radius)
}

/// The exponent of the Gaussian function at a weight: `-x * x / (2 * sigma * sigma)`.
pub open spec fn gaussian_exponent(radius: int, sigma: F32, i: int) -> F32 {
    let x = distance(radius, i);
    quotient(product(negated(x), x), product(product(two(), sigma), sigma))
}

/// The values of the Gaussian function, from the exponentials of their exponents: each
/// over `sqrt(2 * pi) * sigma`.
pub open spec fn gaussian_values(sigma: F32, exponentials: Seq<F32>) -> Seq<F32> {
    Seq::new(
        exponentials.len(),
        |i: int| quotient(exponentials[i], product(root(product(two(), pi())), sigma)),
    )
}

/// Numbers, each multiplied by the inverse of their sum.
pub open spec fn scaled_to_one(values: Seq<F32>) -> Seq<F32> {
    Seq::new(
        values.len(),
        |i: int| product(values[i], quotient(one(), running_sum(values, values.len()))),
    )
}

/// The weights of a kernel, from the exponentials of the exponents.
pub open spec fn gaussian_weights(sigma: F32, exponentials: Seq<F32>) -> Seq<F32> {
    scaled_to_one(gaussian_values(sigma, exponentials))
}

/// Whether `exponentials` are results of `exp` on the exponents of a kernel.
pub open spec fn are_exponentials<E: Fn(F32) -> F32>(
    exp: E,
    radius: int,
    sigma: F32,
    exponentials: Seq<F32>,
) -> bool {
    &&& exponentials.len() == 2 * radius + 1
    &&& forall|i: int|
        0 <= i < exponentials.len() ==> call_ensures(
            exp,
            (gaussian_exponent(radius, sigma, i),),
            #[trigger] exponentials[i],
        )
}

/// Whether `weights` are those of the kernel with this radius and sigma, where `exp`
/// gives the exponentials.
pub open spec fn is_gaussian<E: Fn(F32) -> F32>(
    exp: E,
    radius: int,
    sigma: F32,
    weights: Seq<F32>,
) -> bool {
    exists|exponentials: Seq<F32>| #[trigger]
        are_exponentials(exp, radius, sigma, exponentials) && weights == gaussian_weights(
            sigma,
            exponentials,
        )
}

/// The radius of a kernel: the given one, or three times sigma rounded up.
pub fn choose_radius(sigma: F32, radius: Option<i32>) -> (r: i32)
    ensures
        r == effective_radius(sigma, radius),
{
    match radius {
        Some(r) => r,
        None => F32::from_bits(THREE_BITS).times(sigma).ceil_to_i32(),
    }
}

/// The exponents of the Gaussian function at the weights of a kernel.
pub fn gaussian_exponents(radius: i32, sigma: F32) -> (r: Vec<F32>)
    requires
        valid_radius(radius as int),
    ensures
        r@ == Seq::new(
            (2 * radius + 1) as nat,
            |i: int| gaussian_exponent(radius as int, sigma, i),
        ),
{
    let size: usize = (radius * 2 + 1) as usize;
    let sigma2 = F32::from_bits(TWO_BITS).times(sigma).times(sigma);
    let mut r: Vec<F32> = Vec::new();
    for i in 0..size
        invariant
            valid_radius(radius as int),
            size == 2 * radius + 1,
            sigma2 == product(product(two(), sigma), sigma),
            r@.len() == i,
            forall|j: int| 0 <= j < i ==> r@[j] == gaussian_exponent(radius as int, sigma, j),
    {
        let x = F32::from_i32(i as i32 - radius);
        r.push(x.negate().times(x).over(sigma2));
    }
    r
}

/// The weights of a kernel, from the exponentials of its exponents.
pub fn weights_from_exponentials(sigma: F32, exponentials: &Vec<F32>) -> (r: Vec<F32>)
    ensures
        r@ == gaussian_weights(sigma, exponentials@),
{
    let divisor = F32::from_bits(TWO_BITS).times(F32::from_bits(PI_BITS)).sqrt().times(sigma);
    let ghost values = gaussian_values(sigma, exponentials@);
    let mut raw: Vec<F32> = Vec::new();
    let mut total = F32::from_bits(ZERO_BITS);
    for i in 0..exponentials.len()
        invariant
            values == gaussian_values(sigma, exponentials@),
            divisor == product(root(product(two(), pi())), sigma),
            raw@.len() == i,
            forall|j: int| 0 <= j < i ==> raw@[j] == values[j],
            total == running_sum(values, i as nat),
    {
        let value = exponentials[i].over(divisor);
        raw.push(value);
        total = total.plus(value);
    }
    let inverse = F32::from_bits(ONE_BITS).over(total);
    let mut r: Vec<F32> = Vec::new();
    for i in 0..raw.len()
        invariant
            raw@ == values,
            inverse == quotient(one(), running_sum(values, values.len())),
            r@.len() == i,
            forall|j: int| 0 <= j < i ==> r@[j] == scaled_to_one(values)[j],
    {
        r.push(raw[i].times(inverse));
    }
    assert(r@ =~= gaussian_weights(sigma, exponentials@));
    r
}

/// Generate the weights of a Gaussian kernel
pub fn generate_gaussian_kernel<E: Fn(F32) -> F32>(
    radius: i32,
    sigma: F32,
    exp: &E,
) -> (r: Vec<F32>)
    requires
        valid_radius(radius as int),
        forall|x: F32| call_requires(*exp, (x,)),
    ensures
        is_gaussian(*exp, radius as int, sigma, r@),
        r@.len() == 2 * radius + 1,
{
    let exponents = gaussian_exponents(radius, sigma);
    let mut exponentials: Vec<F32> = Vec::new();
    for i in 0..exponents.len()
        invariant
            exponents@ == Seq::new(
                (2 * radius + 1) as nat,
                |i: int| gaussian_exponent(radius as int, sigma, i),
            ),
            valid_radius(radius as int),
            forall|x: F32| call_requires(*exp, (x,)),
            exponentials@.len() == i,
            forall|j: int|
                0 <= j < i ==> call_ensures(
                    *exp,
                    (gaussian_exponent(radius as int, sigma, j),),
                    #[trigger] exponentials@[j],
                ),
    {
        exponentials.push(exp(exponents[i]));
    }
    let r = weights_from_exponentials(sigma, &exponentials);
    assert(are_exponentials(*exp, radius as int, sigma, exponentials@));
    r
}

/// Gaussian kernel generator
pub struct GaussianKernel {
    radius: i32,
    sigma: F32,
    kernel: Vec<F32>,
}

impl GaussianKernel {
    #[verifier::type_invariant]
    spec fn has_all_weights(self) -> bool {
        &&& valid_radius(self.radius as int)
        &&& self.kernel@.len() == 2 * self.radius + 1
    }

    /// How far the kernel reaches to either side.
    pub closed spec fn spec_radius(self) -> int {
        self.radius as int
    }

    /// The width of the Gaussian function.
    pub closed spec fn spec_sigma(self) -> F32 {
        self.sigma
    }

    /// The weights, from the leftmost to the rightmost.
    pub closed spec fn weights(self) -> Seq<F32> {
        self.kernel@
    }

    /// Create a new Gaussian kernel, whose radius is three times sigma where none is
    /// given. The exponentials of the Gaussian function are left to `exp`.
    pub fn new<E: Fn(F32) -> F32>(sigma: F32, radius: Option<i32>, exp: &E) -> (k: GaussianKernel)
        requires
            valid_radius(effective_radius(sigma, radius)),
            forall|x: F32| call_requires(*exp, (x,)),
        ensures
            k.spec_radius() == effective_radius(sigma, radius),
            k.spec_sigma() == sigma,
            is_gaussian(*exp, k.spec_radius(), sigma, k.weights()),
    {
        let radius = choose_radius(sigma, radius);
        let kernel = generate_gaussian_kernel(radius, sigma, exp);
        GaussianKernel { radius, sigma, kernel }
    }

    /// Get kernel radius
    pub fn radius(&self) -> (r: i32)
        ensures
            r == self.spec_radius(),
            valid_radius(r as int),
    {
        proof {
            use_type_invariant(self);
        }
        self.radius
    }

    /// Get sigma value
    pub fn sigma(&self) -> (r: F32)
        ensures
            r == self.spec_sigma(),
    {
        self.sigma
    }

    /// Get kernel weights
    pub fn kernel(&self) -> (r: &[F32])
        ensures
            r@ == self.weights(),
            r@.len() == 2 * self.spec_radius() + 1,
    {
        proof {
            use_type_invariant(self);
        }
        self.kernel.as_slice()
    }
}

} // verus!
