//! Hypercomplex number systems over a generic component type: complex
//! numbers (`i * i == -1`), dual numbers (`e * e == 0`, so a product keeps
//! the product rule) and quaternions (`i*i == j*j == k*k == i*j*k == -1`).
//!
//! Every operation goes through the component type's own operators and is
//! specified by what those operators promise. The products and quotients
//! combine several operations, so they are stated for component types whose
//! operators follow their specification (`obeys_*_spec`), such as the
//! integers.
use vstd::prelude::*;
use core::ops::{Add, Div, Mul, Neg, Sub};
use vstd::std_specs::ops::{AddSpec, DivSpec, MulSpec, NegSpec, SubSpec};

verus! {

/// A complex number `re + im i`.
#[derive(Clone, Copy, Debug, Default, Hash)]
pub struct Complex<T> {
    pub re: T,
    pub im: T,
}

impl<T> Complex<T> {
    /// The value with the given components.
    pub fn new(re: T, im: T) -> (v: Self)
        ensures
            v.re == re,
            v.im == im,
    {
        Complex { re, im }
    }
}

impl<T: Mul<Output = T> + Copy> Complex<T> {
    /// Multiplies every component by `factor`.
    pub fn scale(self, factor: T) -> (out: Self)
        requires
            self.re.mul_req(factor),
            self.im.mul_req(factor),
        ensures
            T::obeys_mul_spec() ==> out.re == self.re.mul_spec(factor),
            T::obeys_mul_spec() ==> out.im == self.im.mul_spec(factor),
    {
        Complex { re: self.re * factor, im: self.im * factor }
    }
}

/// Component-wise sum.
impl<T: Add<Output = T>> Add for Complex<T> {
    type Output = Complex<T>;

    fn add(self, rhs: Self) -> (out: Self::Output) {
        Complex { re: self.re + rhs.re, im: self.im + rhs.im }
    }
}

impl<T: Add<Output = T>> vstd::std_specs::ops::AddSpecImpl for Complex<T> {
    open spec fn obeys_add_spec() -> bool {
        T::obeys_add_spec()
    }

    open spec fn add_req(self, rhs: Self) -> bool {
        self.re.add_req(rhs.re) && self.im.add_req(rhs.im)
    }

    open spec fn add_spec(self, rhs: Self) -> Self {
        Complex { re: self.re.add_spec(rhs.re), im: self.im.add_spec(rhs.im) }
    }
}

/// Component-wise difference.
impl<T: Sub<Output = T>> Sub for Complex<T> {
    type Output = Complex<T>;

    fn sub(self, rhs: Self) -> (out: Self::Output) {
        Complex { re: self.re - rhs.re, im: self.im - rhs.im }
    }
}

impl<T: Sub<Output = T>> vstd::std_specs::ops::SubSpecImpl for Complex<T> {
    open spec fn obeys_sub_spec() -> bool {
        T::obeys_sub_spec()
    }

    open spec fn sub_req(self, rhs: Self) -> bool {
        self.re.sub_req(rhs.re) && self.im.sub_req(rhs.im)
    }

    open spec fn sub_spec(self, rhs: Self) -> Self {
        Complex { re: self.re.sub_spec(rhs.re), im: self.im.sub_spec(rhs.im) }
    }
}

/// Every component negated.
impl<T: Neg<Output = T>> Neg for Complex<T> {
    type Output = Complex<T>;

    fn neg(self) -> (out: Self::Output) {
        Complex { re: self.re.neg(), im: self.im.neg() }
    }
}

impl<T: Neg<Output = T>> Complex<T> {
    /// The number mirrored across the real axis: `re - im i`.
    pub open spec fn conjugated(self) -> Self {
        Complex { re: self.re, im: self.im.neg_spec() }
    }
}

impl<T: Neg<Output = T>> vstd::std_specs::ops::NegSpecImpl for Complex<T> {
    open spec fn obeys_neg_spec() -> bool {
        T::obeys_neg_spec()
    }

    open spec fn neg_req(self) -> bool {
        self.re.neg_req() && self.im.neg_req()
    }

    open spec fn neg_spec(self) -> Self {
        Complex { re: self.re.neg_spec(), im: self.im.neg_spec() }
    }
}

impl<T: Add<Output = T> + Mul<Output = T> + Neg<Output = T> + Copy> Complex<T> {
    /// Mirrors the number across the real axis.
    pub fn conjugate(self) -> (out: Self)
        requires
            self.im.neg_req(),
        ensures
            out.re == self.re,
            T::obeys_neg_spec() ==> out.im == self.im.neg_spec(),
            T::obeys_neg_spec() ==> out == self.conjugated(),
    {
        Complex { re: self.re, im: self.im.neg() }
    }

    /// Squared distance from the origin, `re * re + im * im`.
    pub fn norm_squared(self) -> (square: T)
        requires
            T::obeys_mul_spec(),
            T::obeys_add_spec(),
            self.re.mul_req(self.re),
            self.im.mul_req(self.im),
            self.re.mul_spec(self.re).add_req(self.im.mul_spec(self.im)),
        ensures
            square == self.norm_squared_spec(),
    {
        self.re * self.re + self.im * self.im
    }
}

impl<T: Add<Output = T> + Mul<Output = T>> Complex<T> {
    /// The squared distance from the origin as the operators define it.
    pub open spec fn norm_squared_spec(self) -> T {
        self.re.mul_spec(self.re).add_spec(self.im.mul_spec(self.im))
    }
}

/// `(a + bi)(c + di) == (ac - bd) + (ad + bc)i`.
impl<T: Add<Output = T> + Sub<Output = T> + Mul<Output = T> + Copy> Mul for Complex<T> {
    type Output = Complex<T>;

    fn mul(self, rhs: Self) -> (out: Self::Output) {
        Complex {
            re: self.re * rhs.re - self.im * rhs.im,
            im: self.re * rhs.im + self.im * rhs.re,
        }
    }
}

impl<T: Add<Output = T> + Sub<Output = T> + Mul<Output = T> + Copy> vstd::std_specs::ops::MulSpecImpl for Complex<T> {
    open spec fn obeys_mul_spec() -> bool {
        T::obeys_mul_spec() && T::obeys_add_spec() && T::obeys_sub_spec()
    }

    open spec fn mul_req(self, rhs: Self) -> bool {
        &&& T::obeys_mul_spec() && T::obeys_add_spec() && T::obeys_sub_spec()
        &&& self.re.mul_req(rhs.re) && self.im.mul_req(rhs.im)
        &&& self.re.mul_req(rhs.im) && self.im.mul_req(rhs.re)
        &&& self.re.mul_spec(rhs.re).sub_req(self.im.mul_spec(rhs.im))
        &&& self.re.mul_spec(rhs.im).add_req(self.im.mul_spec(rhs.re))
    }

    open spec fn mul_spec(self, rhs: Self) -> Self {
        Complex {
            re: self.re.mul_spec(rhs.re).sub_spec(self.im.mul_spec(rhs.im)),
            im: self.re.mul_spec(rhs.im).add_spec(self.im.mul_spec(rhs.re)),
        }
    }
}

/// Multiplies above and below by the conjugate of the divisor:
/// `((ac + bd) + (bc - ad)i) / (c*c + d*d)`.
impl<T: Add<Output = T> + Sub<Output = T> + Mul<Output = T> + Div<Output = T> + Copy> Div for Complex<T> {
    type Output = Complex<T>;

    fn div(self, rhs: Self) -> (out: Self::Output) {
        let denominator = rhs.re * rhs.re + rhs.im * rhs.im;
        Complex {
            re: (self.re * rhs.re + self.im * rhs.im) / denominator,
            im: (self.im * rhs.re - self.re * rhs.im) / denominator,
        }
    }
}

impl<T: Add<Output = T> + Sub<Output = T> + Mul<Output = T> + Div<Output = T> + Copy> vstd::std_specs::ops::DivSpecImpl for Complex<T> {
    open spec fn obeys_div_spec() -> bool {
        T::obeys_mul_spec() && T::obeys_add_spec() && T::obeys_sub_spec() && T::obeys_div_spec()
    }

    open spec fn div_req(self, rhs: Self) -> bool {
        let denominator = rhs.re.mul_spec(rhs.re).add_spec(rhs.im.mul_spec(rhs.im));
        &&& T::obeys_mul_spec() && T::obeys_add_spec() && T::obeys_sub_spec() && T::obeys_div_spec()
        &&& rhs.re.mul_req(rhs.re) && rhs.im.mul_req(rhs.im)
        &&& rhs.re.mul_spec(rhs.re).add_req(rhs.im.mul_spec(rhs.im))
        &&& self.re.mul_req(rhs.re) && self.im.mul_req(rhs.im)
        &&& self.im.mul_req(rhs.re) && self.re.mul_req(rhs.im)
        &&& self.re.mul_spec(rhs.re).add_req(self.im.mul_spec(rhs.im))
        &&& self.im.mul_spec(rhs.re).sub_req(self.re.mul_spec(rhs.im))
        &&& self.re.mul_spec(rhs.re).add_spec(self.im.mul_spec(rhs.im)).div_req(denominator)
        &&& self.im.mul_spec(rhs.re).sub_spec(self.re.mul_spec(rhs.im)).div_req(denominator)
    }

    open spec fn div_spec(self, rhs: Self) -> Self {
        let denominator = rhs.re.mul_spec(rhs.re).add_spec(rhs.im.mul_spec(rhs.im));
        Complex {
            re: self.re.mul_spec(rhs.re).add_spec(self.im.mul_spec(rhs.im)).div_spec(denominator),
            im: self.im.mul_spec(rhs.re).sub_spec(self.re.mul_spec(rhs.im)).div_spec(denominator),
        }
    }
}

/// A value paired with its derivative, `real + dual e` with `e * e == 0`.
#[derive(Clone, Copy, Debug, Default, Hash)]
pub struct Dual<T> {
    pub real: T,
    pub dual: T,
}

impl<T> Dual<T> {
    /// The value with the given components.
    pub fn new(real_part: T, dual_part: T) -> (v: Self)
        ensures
            v.real == real_part,
            v.dual == dual_part,
    {
        Dual { real: real_part, dual: dual_part }
    }
}

impl<T: Mul<Output = T> + Copy> Dual<T> {
    /// Multiplies every component by `factor`.
    pub fn scale(self, factor: T) -> (out: Self)
        requires
            self.real.mul_req(factor),
            self.dual.mul_req(factor),
        ensures
            T::obeys_mul_spec() ==> out.real == self.real.mul_spec(factor),
            T::obeys_mul_spec() ==> out.dual == self.dual.mul_spec(factor),
    {
        Dual { real: self.real * factor, dual: self.dual * factor }
    }
}

/// Component-wise sum.
impl<T: Add<Output = T>> Add for Dual<T> {
    type Output = Dual<T>;

    fn add(self, rhs: Self) -> (out: Self::Output) {
        Dual { real: self.real + rhs.real, dual: self.dual + rhs.dual }
    }
}

impl<T: Add<Output = T>> vstd::std_specs::ops::AddSpecImpl for Dual<T> {
    open spec fn obeys_add_spec() -> bool {
        T::obeys_add_spec()
    }

    open spec fn add_req(self, rhs: Self) -> bool {
        self.real.add_req(rhs.real) && self.dual.add_req(rhs.dual)
    }

    open spec fn add_spec(self, rhs: Self) -> Self {
        Dual { real: self.real.add_spec(rhs.real), dual: self.dual.add_spec(rhs.dual) }
    }
}

/// Component-wise difference.
impl<T: Sub<Output = T>> Sub for Dual<T> {
    type Output = Dual<T>;

    fn sub(self, rhs: Self) -> (out: Self::Output) {
        Dual { real: self.real - rhs.real, dual: self.dual - rhs.dual }
    }
}

impl<T: Sub<Output = T>> vstd::std_specs::ops::SubSpecImpl for Dual<T> {
    open spec fn obeys_sub_spec() -> bool {
        T::obeys_sub_spec()
    }

    open spec fn sub_req(self, rhs: Self) -> bool {
        self.real.sub_req(rhs.real) && self.dual.sub_req(rhs.dual)
    }

    open spec fn sub_spec(self, rhs: Self) -> Self {
        Dual { real: self.real.sub_spec(rhs.real), dual: self.dual.sub_spec(rhs.dual) }
    }
}

/// Every component negated.
impl<T: Neg<Output = T>> Neg for Dual<T> {
    type Output = Dual<T>;

    fn neg(self) -> (out: Self::Output) {
        Dual { real: self.real.neg(), dual: self.dual.neg() }
    }
}

impl<T: Neg<Output = T>> Dual<T> {
    /// The number with its dual part negated: `real - dual e`.
    pub open spec fn conjugated(self) -> Self {
        Dual { real: self.real, dual: self.dual.neg_spec() }
    }
}

impl<T: Neg<Output = T>> vstd::std_specs::ops::NegSpecImpl for Dual<T> {
    open spec fn obeys_neg_spec() -> bool {
        T::obeys_neg_spec()
    }

    open spec fn neg_req(self) -> bool {
        self.real.neg_req() && self.dual.neg_req()
    }

    open spec fn neg_spec(self) -> Self {
        Dual { real: self.real.neg_spec(), dual: self.dual.neg_spec() }
    }
}

impl<T: Neg<Output = T> + Copy> Dual<T> {
    /// Negates the dual part.
    pub fn conjugate(self) -> (out: Self)
        requires
            self.dual.neg_req(),
        ensures
            out.real == self.real,
            T::obeys_neg_spec() ==> out.dual == self.dual.neg_spec(),
            T::obeys_neg_spec() ==> out == self.conjugated(),
    {
        Dual { real: self.real, dual: self.dual.neg() }
    }
}

/// The product rule: `(a + a'e)(b + b'e) == ab + (ab' + a'b)e`.
impl<T: Add<Output = T> + Mul<Output = T> + Copy> Mul for Dual<T> {
    type Output = Dual<T>;

    fn mul(self, rhs: Self) -> (out: Self::Output) {
        Dual {
            real: self.real * rhs.real,
            dual: self.real * rhs.dual + self.dual * rhs.real,
        }
    }
}

impl<T: Add<Output = T> + Mul<Output = T> + Copy> vstd::std_specs::ops::MulSpecImpl for Dual<T> {
    open spec fn obeys_mul_spec() -> bool {
        T::obeys_mul_spec() && T::obeys_add_spec()
    }

    open spec fn mul_req(self, rhs: Self) -> bool {
        &&& T::obeys_mul_spec() && T::obeys_add_spec()
        &&& self.real.mul_req(rhs.real) && self.real.mul_req(rhs.dual) && self.dual.mul_req(rhs.real)
        &&& self.real.mul_spec(rhs.dual).add_req(self.dual.mul_spec(rhs.real))
    }

    open spec fn mul_spec(self, rhs: Self) -> Self {
        Dual {
            real: self.real.mul_spec(rhs.real),
            dual: self.real.mul_spec(rhs.dual).add_spec(self.dual.mul_spec(rhs.real)),
        }
    }
}

/// The quotient rule: `a / b + ((a'b - ab') / (b * b))e`.
impl<T: Sub<Output = T> + Mul<Output = T> + Div<Output = T> + Copy> Div for Dual<T> {
    type Output = Dual<T>;

    fn div(self, rhs: Self) -> (out: Self::Output) {
        Dual {
            real: self.real / rhs.real,
            dual: (self.dual * rhs.real - self.real * rhs.dual) / (rhs.real * rhs.real),
        }
    }
}

impl<T: Sub<Output = T> + Mul<Output = T> + Div<Output = T> + Copy> vstd::std_specs::ops::DivSpecImpl for Dual<T> {
    open spec fn obeys_div_spec() -> bool {
        T::obeys_mul_spec() && T::obeys_sub_spec() && T::obeys_div_spec()
    }

    open spec fn div_req(self, rhs: Self) -> bool {
        &&& T::obeys_mul_spec() && T::obeys_sub_spec() && T::obeys_div_spec()
        &&& self.real.div_req(rhs.real)
        &&& self.dual.mul_req(rhs.real) && self.real.mul_req(rhs.dual) && rhs.real.mul_req(rhs.real)
        &&& self.dual.mul_spec(rhs.real).sub_req(self.real.mul_spec(rhs.dual))
        &&& self.dual.mul_spec(rhs.real).sub_spec(self.real.mul_spec(rhs.dual)).div_req(rhs.real.mul_spec(rhs.real))
    }

    open spec fn div_spec(self, rhs: Self) -> Self {
        Dual {
            real: self.real.div_spec(rhs.real),
            dual: self.dual.mul_spec(rhs.real).sub_spec(self.real.mul_spec(rhs.dual)).div_spec(rhs.real.mul_spec(rhs.real)),
        }
    }
}

/// A quaternion, scalar part first, then the three imaginary parts.
#[derive(Clone, Copy, Debug, Default, Hash)]
pub struct Quaternion<T> {
    pub w: T,
    pub x: T,
    pub y: T,
    pub z: T,
}

impl<T> Quaternion<T> {
    /// The value with the given components.
    pub fn new(w: T, x: T, y: T, z: T) -> (v: Self)
        ensures
            v.w == w,
            v.x == x,
            v.y == y,
            v.z == z,
    {
        Quaternion { w, x, y, z }
    }
}

impl<T: Mul<Output = T> + Copy> Quaternion<T> {
    /// Multiplies every component by `factor`.
    pub fn scale(self, factor: T) -> (out: Self)
        requires
            self.w.mul_req(factor),
            self.x.mul_req(factor),
            self.y.mul_req(factor),
            self.z.mul_req(factor),
        ensures
            T::obeys_mul_spec() ==> out.w == self.w.mul_spec(factor),
            T::obeys_mul_spec() ==> out.x == self.x.mul_spec(factor),
            T::obeys_mul_spec() ==> out.y == self.y.mul_spec(factor),
            T::obeys_mul_spec() ==> out.z == self.z.mul_spec(factor),
    {
        Quaternion { w: self.w * factor, x: self.x * factor, y: self.y * factor, z: self.z * factor }
    }
}

/// Component-wise sum.
impl<T: Add<Output = T>> Add for Quaternion<T> {
    type Output = Quaternion<T>;

    fn add(self, rhs: Self) -> (out: Self::Output) {
        Quaternion { w: self.w + rhs.w, x: self.x + rhs.x, y: self.y + rhs.y, z: self.z + rhs.z }
    }
}

impl<T: Add<Output = T>> vstd::std_specs::ops::AddSpecImpl for Quaternion<T> {
    open spec fn obeys_add_spec() -> bool {
        T::obeys_add_spec()
    }

    open spec fn add_req(self, rhs: Self) -> bool {
        self.w.add_req(rhs.w) && self.x.add_req(rhs.x) && self.y.add_req(rhs.y) && self.z.add_req(rhs.z)
    }

    open spec fn add_spec(self, rhs: Self) -> Self {
        Quaternion { w: self.w.add_spec(rhs.w), x: self.x.add_spec(rhs.x), y: self.y.add_spec(rhs.y), z: self.z.add_spec(rhs.z) }
    }
}

/// Component-wise difference.
impl<T: Sub<Output = T>> Sub for Quaternion<T> {
    type Output = Quaternion<T>;

    fn sub(self, rhs: Self) -> (out: Self::Output) {
        Quaternion { w: self.w - rhs.w, x: self.x - rhs.x, y: self.y - rhs.y, z: self.z - rhs.z }
    }
}

impl<T: Sub<Output = T>> vstd::std_specs::ops::SubSpecImpl for Quaternion<T> {
    open spec fn obeys_sub_spec() -> bool {
        T::obeys_sub_spec()
    }

    open spec fn sub_req(self, rhs: Self) -> bool {
        self.w.sub_req(rhs.w) && self.x.sub_req(rhs.x) && self.y.sub_req(rhs.y) && self.z.sub_req(rhs.z)
    }

    open spec fn sub_spec(self, rhs: Self) -> Self {
        Quaternion { w: self.w.sub_spec(rhs.w), x: self.x.sub_spec(rhs.x), y: self.y.sub_spec(rhs.y), z: self.z.sub_spec(rhs.z) }
    }
}

/// Every component negated.
impl<T: Neg<Output = T>> Neg for Quaternion<T> {
    type Output = Quaternion<T>;

    fn neg(self) -> (out: Self::Output) {
        Quaternion { w: self.w.neg(), x: self.x.neg(), y: self.y.neg(), z: self.z.neg() }
    }
}

impl<T: Neg<Output = T>> vstd::std_specs::ops::NegSpecImpl for Quaternion<T> {
    open spec fn obeys_neg_spec() -> bool {
        T::obeys_neg_spec()
    }

    open spec fn neg_req(self) -> bool {
        self.w.neg_req() && self.x.neg_req() && self.y.neg_req() && self.z.neg_req()
    }

    open spec fn neg_spec(self) -> Self {
        Quaternion { w: self.w.neg_spec(), x: self.x.neg_spec(), y: self.y.neg_spec(), z: self.z.neg_spec() }
    }
}

/// The conjugate of a quaternion as the operators define it.
pub open spec fn quaternion_conjugate<T: Neg<Output = T>>(q: Quaternion<T>) -> Quaternion<T> {
    Quaternion { w: q.w, x: q.x.neg_spec(), y: q.y.neg_spec(), z: q.z.neg_spec() }
}

/// The Hamilton product as the operators define it, each sum taken left to
/// right.
pub open spec fn hamilton<T: Add<Output = T> + Sub<Output = T> + Mul<Output = T>>(a: Quaternion<T>, b: Quaternion<T>) -> Quaternion<T> {
    Quaternion {
        w: a.w.mul_spec(b.w).sub_spec(a.x.mul_spec(b.x)).sub_spec(a.y.mul_spec(b.y)).sub_spec(a.z.mul_spec(b.z)),
        x: a.w.mul_spec(b.x).add_spec(a.x.mul_spec(b.w)).add_spec(a.y.mul_spec(b.z)).sub_spec(a.z.mul_spec(b.y)),
        y: a.w.mul_spec(b.y).sub_spec(a.x.mul_spec(b.z)).add_spec(a.y.mul_spec(b.w)).add_spec(a.z.mul_spec(b.x)),
        z: a.w.mul_spec(b.z).add_spec(a.x.mul_spec(b.y)).sub_spec(a.y.mul_spec(b.x)).add_spec(a.z.mul_spec(b.w)),
    }
}

/// Whether every step of the Hamilton product is within what the
/// component type's operators accept.
pub open spec fn hamilton_req<T: Add<Output = T> + Sub<Output = T> + Mul<Output = T>>(a: Quaternion<T>, b: Quaternion<T>) -> bool {
    &&& a.w.mul_req(b.w) && a.x.mul_req(b.x) && a.y.mul_req(b.y) && a.z.mul_req(b.z)
    &&& a.w.mul_req(b.x) && a.x.mul_req(b.w) && a.y.mul_req(b.z) && a.z.mul_req(b.y)
    &&& a.w.mul_req(b.y) && a.x.mul_req(b.z) && a.y.mul_req(b.w) && a.z.mul_req(b.x)
    &&& a.w.mul_req(b.z) && a.x.mul_req(b.y) && a.y.mul_req(b.x) && a.z.mul_req(b.w)
    &&& a.w.mul_spec(b.w).sub_req(a.x.mul_spec(b.x))
    &&& a.w.mul_spec(b.w).sub_spec(a.x.mul_spec(b.x)).sub_req(a.y.mul_spec(b.y))
    &&& a.w.mul_spec(b.w).sub_spec(a.x.mul_spec(b.x)).sub_spec(a.y.mul_spec(b.y)).sub_req(a.z.mul_spec(b.z))
    &&& a.w.mul_spec(b.x).add_req(a.x.mul_spec(b.w))
    &&& a.w.mul_spec(b.x).add_spec(a.x.mul_spec(b.w)).add_req(a.y.mul_spec(b.z))
    &&& a.w.mul_spec(b.x).add_spec(a.x.mul_spec(b.w)).add_spec(a.y.mul_spec(b.z)).sub_req(a.z.mul_spec(b.y))
    &&& a.w.mul_spec(b.y).sub_req(a.x.mul_spec(b.z))
    &&& a.w.mul_spec(b.y).sub_spec(a.x.mul_spec(b.z)).add_req(a.y.mul_spec(b.w))
    &&& a.w.mul_spec(b.y).sub_spec(a.x.mul_spec(b.z)).add_spec(a.y.mul_spec(b.w)).add_req(a.z.mul_spec(b.x))
    &&& a.w.mul_spec(b.z).add_req(a.x.mul_spec(b.y))
    &&& a.w.mul_spec(b.z).add_spec(a.x.mul_spec(b.y)).sub_req(a.y.mul_spec(b.x))
    &&& a.w.mul_spec(b.z).add_spec(a.x.mul_spec(b.y)).sub_spec(a.y.mul_spec(b.x)).add_req(a.z.mul_spec(b.w))
}

/// The squared norm as the operators define it, summed left to right.
pub open spec fn quaternion_norm_squared<T: Add<Output = T> + Mul<Output = T>>(q: Quaternion<T>) -> T {
    q.w.mul_spec(q.w).add_spec(q.x.mul_spec(q.x)).add_spec(q.y.mul_spec(q.y)).add_spec(q.z.mul_spec(q.z))
}

/// Whether every step of the squared norm is within what the component
/// type's operators accept.
pub open spec fn norm_squared_req<T: Add<Output = T> + Mul<Output = T>>(q: Quaternion<T>) -> bool {
    &&& q.w.mul_req(q.w) && q.x.mul_req(q.x) && q.y.mul_req(q.y) && q.z.mul_req(q.z)
    &&& q.w.mul_spec(q.w).add_req(q.x.mul_spec(q.x))
    &&& q.w.mul_spec(q.w).add_spec(q.x.mul_spec(q.x)).add_req(q.y.mul_spec(q.y))
    &&& q.w.mul_spec(q.w).add_spec(q.x.mul_spec(q.x)).add_spec(q.y.mul_spec(q.y)).add_req(q.z.mul_spec(q.z))
}

impl<T: Add<Output = T> + Mul<Output = T> + Neg<Output = T> + Copy> Quaternion<T> {
    /// Negates the imaginary parts; for a unit quaternion, the inverse
    /// rotation.
    pub fn conjugate(self) -> (out: Self)
        requires
            self.x.neg_req() && self.y.neg_req() && self.z.neg_req(),
        ensures
            out.w == self.w,
            T::obeys_neg_spec() ==> out == quaternion_conjugate(self),
    {
        Quaternion { w: self.w, x: self.x.neg(), y: self.y.neg(), z: self.z.neg() }
    }

    /// `w*w + x*x + y*y + z*z`.
    pub fn norm_squared(self) -> (square: T)
        requires
            T::obeys_mul_spec(),
            T::obeys_add_spec(),
            norm_squared_req(self),
        ensures
            square == quaternion_norm_squared(self),
    {
        self.w * self.w + self.x * self.x + self.y * self.y + self.z * self.z
    }
}

/// The Hamilton product; not commutative.
impl<T: Add<Output = T> + Sub<Output = T> + Mul<Output = T> + Copy> Mul for Quaternion<T> {
    type Output = Quaternion<T>;

    fn mul(self, rhs: Self) -> (out: Self::Output) {
        Quaternion {
            w: self.w * rhs.w - self.x * rhs.x - self.y * rhs.y - self.z * rhs.z,
            x: self.w * rhs.x + self.x * rhs.w + self.y * rhs.z - self.z * rhs.y,
            y: self.w * rhs.y - self.x * rhs.z + self.y * rhs.w + self.z * rhs.x,
            z: self.w * rhs.z + self.x * rhs.y - self.y * rhs.x + self.z * rhs.w,
        }
    }
}

impl<T: Add<Output = T> + Sub<Output = T> + Mul<Output = T> + Copy> vstd::std_specs::ops::MulSpecImpl for Quaternion<T> {
    open spec fn obeys_mul_spec() -> bool {
        T::obeys_mul_spec() && T::obeys_add_spec() && T::obeys_sub_spec()
    }

    open spec fn mul_req(self, rhs: Self) -> bool {
        T::obeys_mul_spec() && T::obeys_add_spec() && T::obeys_sub_spec() && hamilton_req(self, rhs)
    }

    open spec fn mul_spec(self, rhs: Self) -> Self {
        hamilton(self, rhs)
    }
}

/// Right division, `self * rhs.conjugate()` divided by `rhs`'s squared norm.
impl<T: Add<Output = T> + Sub<Output = T> + Mul<Output = T> + Div<Output = T> + Neg<Output = T> + Copy> Div for Quaternion<T> {
    type Output = Quaternion<T>;

    fn div(self, rhs: Self) -> (out: Self::Output) {
        let denominator = rhs.norm_squared();
        let product = self * rhs.conjugate();
        Quaternion {
            w: product.w / denominator,
            x: product.x / denominator,
            y: product.y / denominator,
            z: product.z / denominator,
        }
    }
}

impl<T: Add<Output = T> + Sub<Output = T> + Mul<Output = T> + Div<Output = T> + Neg<Output = T> + Copy> vstd::std_specs::ops::DivSpecImpl for Quaternion<T> {
    open spec fn obeys_div_spec() -> bool {
        T::obeys_mul_spec() && T::obeys_add_spec() && T::obeys_sub_spec() && T::obeys_div_spec() && T::obeys_neg_spec()
    }

    open spec fn div_req(self, rhs: Self) -> bool {
        let denominator = quaternion_norm_squared(rhs);
        let product = hamilton(self, quaternion_conjugate(rhs));
        &&& T::obeys_mul_spec() && T::obeys_add_spec() && T::obeys_sub_spec() && T::obeys_div_spec() && T::obeys_neg_spec()
        &&& rhs.x.neg_req() && rhs.y.neg_req() && rhs.z.neg_req()
        &&& norm_squared_req(rhs)
        &&& hamilton_req(self, quaternion_conjugate(rhs))
        &&& product.w.div_req(denominator) && product.x.div_req(denominator)
        &&& product.y.div_req(denominator) && product.z.div_req(denominator)
    }

    open spec fn div_spec(self, rhs: Self) -> Self {
        let denominator = quaternion_norm_squared(rhs);
        let product = hamilton(self, quaternion_conjugate(rhs));
        Quaternion {
            w: product.w.div_spec(denominator),
            x: product.x.div_spec(denominator),
            y: product.y.div_spec(denominator),
            z: product.z.div_spec(denominator),
        }
    }
}

/// Conjugating twice gives the number back (i8 components; the minimum
/// value has no negation).
pub proof fn lemma_complex_conjugate_twice_i8(z: Complex<i8>)
    requires
        z.im != i8::MIN,
    ensures
        z.conjugated().conjugated() == z,
{
}

/// Conjugating twice gives the number back (i8 parts; the minimum value
/// has no negation).
pub proof fn lemma_dual_conjugate_twice_i8(d: Dual<i8>)
    requires
        d.dual != i8::MIN,
    ensures
        d.conjugated().conjugated() == d,
{
}

/// Conjugating twice gives the number back (i16 components; the minimum
/// value has no negation).
pub proof fn lemma_complex_conjugate_twice_i16(z: Complex<i16>)
    requires
        z.im != i16::MIN,
    ensures
        z.conjugated().conjugated() == z,
{
}

/// Conjugating twice gives the number back (i16 parts; the minimum value
/// has no negation).
pub proof fn lemma_dual_conjugate_twice_i16(d: Dual<i16>)
    requires
        d.dual != i16::MIN,
    ensures
        d.conjugated().conjugated() == d,
{
}

/// Conjugating twice gives the number back (i32 components; the minimum
/// value has no negation).
pub proof fn lemma_complex_conjugate_twice_i32(z: Complex<i32>)
    requires
        z.im != i32::MIN,
    ensures
        z.conjugated().conjugated() == z,
{
}

/// Conjugating twice gives the number back (i32 parts; the minimum value
/// has no negation).
pub proof fn lemma_dual_conjugate_twice_i32(d: Dual<i32>)
    requires
        d.dual != i32::MIN,
    ensures
        d.conjugated().conjugated() == d,
{
}

/// Conjugating twice gives the number back (i64 components; the minimum
/// value has no negation).
pub proof fn lemma_complex_conjugate_twice_i64(z: Complex<i64>)
    requires
        z.im != i64::MIN,
    ensures
        z.conjugated().conjugated() == z,
{
}

/// Conjugating twice gives the number back (i64 parts; the minimum value
/// has no negation).
pub proof fn lemma_dual_conjugate_twice_i64(d: Dual<i64>)
    requires
        d.dual != i64::MIN,
    ensures
        d.conjugated().conjugated() == d,
{
}

/// Conjugating twice gives the number back (i128 components; the minimum
/// value has no negation).
pub proof fn lemma_complex_conjugate_twice_i128(z: Complex<i128>)
    requires
        z.im != i128::MIN,
    ensures
        z.conjugated().conjugated() == z,
{
}

/// Conjugating twice gives the number back (i128 parts; the minimum value
/// has no negation).
pub proof fn lemma_dual_conjugate_twice_i128(d: Dual<i128>)
    requires
        d.dual != i128::MIN,
    ensures
        d.conjugated().conjugated() == d,
{
}

/// Conjugating twice gives the number back (isize components; the minimum
/// value has no negation).
pub proof fn lemma_complex_conjugate_twice_isize(z: Complex<isize>)
    requires
        z.im != isize::MIN,
    ensures
        z.conjugated().conjugated() == z,
{
}

/// Conjugating twice gives the number back (isize parts; the minimum value
/// has no negation).
pub proof fn lemma_dual_conjugate_twice_isize(d: Dual<isize>)
    requires
        d.dual != isize::MIN,
    ensures
        d.conjugated().conjugated() == d,
{
}


/// Complex arithmetic over 64-bit integers, whenever no step overflows, is
/// the textbook one: `(a + bi)(c + di) == (ac - bd) + (ad + bc)i`, sums and
/// differences act on each part, the squared norm is `a*a + b*b`, and a
/// number times its conjugate is its squared norm.
pub proof fn lemma_complex_arithmetic_i64(p: Complex<i64>, q: Complex<i64>)
    ensures
        p.mul_req(q) ==> p.mul_spec(q).re == p.re * q.re - p.im * q.im && p.mul_spec(q).im == p.re * q.im + p.im * q.re,
        p.add_req(q) ==> p.add_spec(q).re == p.re + q.re && p.add_spec(q).im == p.im + q.im,
        p.sub_req(q) ==> p.sub_spec(q).re == p.re - q.re && p.sub_spec(q).im == p.im - q.im,
        p.neg_req() ==> p.neg_spec().re == -p.re && p.neg_spec().im == -p.im,
        p.im != i64::MIN ==> p.conjugated().re == p.re && p.conjugated().im == -p.im,
        p.re.mul_req(p.re) && p.im.mul_req(p.im) && p.re.mul_spec(p.re).add_req(p.im.mul_spec(p.im))
            ==> p.norm_squared_spec() == p.re * p.re + p.im * p.im,
        p.im != i64::MIN && p.mul_req(p.conjugated())
            ==> p.mul_spec(p.conjugated()).re == p.re * p.re + p.im * p.im && p.mul_spec(p.conjugated()).im == 0,
{
    let (a, b) = (p.re as int, p.im as int);
    assert(a * -b + b * a == 0) by (nonlinear_arith);
    assert(a * a - b * -b == a * a + b * b) by (nonlinear_arith);
}

/// Dual-number arithmetic over 64-bit integers, whenever no step overflows:
/// `(a + a'e)(b + b'e) == ab + (ab' + a'b)e`, and sums and differences act
/// on each part.
pub proof fn lemma_dual_arithmetic_i64(p: Dual<i64>, q: Dual<i64>)
    ensures
        p.mul_req(q) ==> p.mul_spec(q).real == p.real * q.real && p.mul_spec(q).dual == p.real * q.dual + p.dual * q.real,
        p.add_req(q) ==> p.add_spec(q).real == p.real + q.real && p.add_spec(q).dual == p.dual + q.dual,
        p.sub_req(q) ==> p.sub_spec(q).real == p.real - q.real && p.sub_spec(q).dual == p.dual - q.dual,
        p.neg_req() ==> p.neg_spec().real == -p.real && p.neg_spec().dual == -p.dual,
{
}

/// The Hamilton product over 64-bit integers, whenever no step overflows,
/// is the textbook one:
/// `w = aw bw - ax bx - ay by - az bz`, `x = aw bx + ax bw + ay bz - az by`,
/// `y = aw by - ax bz + ay bw + az bx`, `z = aw bz + ax by - ay bx + az bw`.
pub proof fn lemma_quaternion_product_i64(a: Quaternion<i64>, b: Quaternion<i64>)
    requires
        a.mul_req(b),
    ensures
        a.mul_spec(b).w == a.w * b.w - a.x * b.x - a.y * b.y - a.z * b.z,
        a.mul_spec(b).x == a.w * b.x + a.x * b.w + a.y * b.z - a.z * b.y,
        a.mul_spec(b).y == a.w * b.y - a.x * b.z + a.y * b.w + a.z * b.x,
        a.mul_spec(b).z == a.w * b.z + a.x * b.y - a.y * b.x + a.z * b.w,
{
}

/// The unit quaternions multiply as Hamilton wrote them:
/// `i*i == j*j == k*k == -1`, `i*j == k`, `j*k == i`, `k*i == j`, and the
/// reversed products are negated.
pub proof fn lemma_quaternion_units()
    ensures
        ({
            let one = Quaternion { w: 1i64, x: 0i64, y: 0i64, z: 0i64 };
            let minus_one = Quaternion { w: -1i64, x: 0i64, y: 0i64, z: 0i64 };
            let i = Quaternion { w: 0i64, x: 1i64, y: 0i64, z: 0i64 };
            let j = Quaternion { w: 0i64, x: 0i64, y: 1i64, z: 0i64 };
            let k = Quaternion { w: 0i64, x: 0i64, y: 0i64, z: 1i64 };
            let minus_i = Quaternion { w: 0i64, x: -1i64, y: 0i64, z: 0i64 };
            let minus_j = Quaternion { w: 0i64, x: 0i64, y: -1i64, z: 0i64 };
            let minus_k = Quaternion { w: 0i64, x: 0i64, y: 0i64, z: -1i64 };
            &&& i.mul_spec(i) == minus_one && j.mul_spec(j) == minus_one && k.mul_spec(k) == minus_one
            &&& i.mul_spec(j) == k && j.mul_spec(k) == i && k.mul_spec(i) == j
            &&& j.mul_spec(i) == minus_k && k.mul_spec(j) == minus_i && i.mul_spec(k) == minus_j
            &&& one.mul_spec(i) == i && i.mul_spec(one) == i
        }),
{
}

/// Quaternion arithmetic over 64-bit integers, whenever no step overflows:
/// the conjugate negates the imaginary parts, the squared norm is the sum of
/// the squares, a quaternion times its conjugate is its squared norm, and
/// sums, differences and negation act on each part.
pub proof fn lemma_quaternion_arithmetic_i64(a: Quaternion<i64>, b: Quaternion<i64>)
    ensures
        a.x != i64::MIN && a.y != i64::MIN && a.z != i64::MIN ==> quaternion_conjugate(a).w == a.w
            && quaternion_conjugate(a).x == -a.x && quaternion_conjugate(a).y == -a.y && quaternion_conjugate(a).z == -a.z,
        norm_squared_req(a) ==> quaternion_norm_squared(a) == a.w * a.w + a.x * a.x + a.y * a.y + a.z * a.z,
        a.x != i64::MIN && a.y != i64::MIN && a.z != i64::MIN && a.mul_req(quaternion_conjugate(a))
            ==> a.mul_spec(quaternion_conjugate(a)).w == a.w * a.w + a.x * a.x + a.y * a.y + a.z * a.z
                && a.mul_spec(quaternion_conjugate(a)).x == 0 && a.mul_spec(quaternion_conjugate(a)).y == 0
                && a.mul_spec(quaternion_conjugate(a)).z == 0,
        a.add_req(b) ==> a.add_spec(b).w == a.w + b.w && a.add_spec(b).x == a.x + b.x
            && a.add_spec(b).y == a.y + b.y && a.add_spec(b).z == a.z + b.z,
        a.sub_req(b) ==> a.sub_spec(b).w == a.w - b.w && a.sub_spec(b).x == a.x - b.x
            && a.sub_spec(b).y == a.y - b.y && a.sub_spec(b).z == a.z - b.z,
        a.neg_req() ==> a.neg_spec().w == -a.w && a.neg_spec().x == -a.x && a.neg_spec().y == -a.y && a.neg_spec().z == -a.z,
{
    let (w, x, y, z) = (a.w as int, a.x as int, a.y as int, a.z as int);
    assert(w * -x + x * w + y * -z - z * -y == 0) by (nonlinear_arith);
    assert(w * -y - x * -z + y * w + z * -x == 0) by (nonlinear_arith);
    assert(w * -z + x * -y - y * -x + z * w == 0) by (nonlinear_arith);
    assert(w * w - x * -x - y * -y - z * -z == w * w + x * x + y * y + z * z) by (nonlinear_arith);
}


/// Dividing an exact multiple gives the factor back.
proof fn lemma_exact_div_i64(v: i64, n: i64, q: int)
    requires
        n != 0,
        v.div_req(n),
        v as int == q * n as int,
    ensures
        v.div_spec(n) as int == q,
{
    let (vi, ni) = (v as int, n as int);
    assert(vi / ni == q) by (nonlinear_arith)
        requires
            ni != 0,
            vi == q * ni;
    assert((-vi) / ni == -q) by (nonlinear_arith)
        requires
            ni != 0,
            vi == q * ni;
    assert(-0x8000_0000_0000_0000int <= q <= 0x7fff_ffff_ffff_ffffint) by (nonlinear_arith)
        requires
            ni != 0,
            vi == q * ni,
            -0x8000_0000_0000_0000int <= vi <= 0x7fff_ffff_ffff_ffffint,
            -0x8000_0000_0000_0000int <= ni <= 0x7fff_ffff_ffff_ffffint,
            !(vi == -0x8000_0000_0000_0000int && ni == -1);
}

/// Complex division over 64-bit integers undoes multiplication: whenever
/// no step overflows, `(q * b) / b == q`.
pub proof fn lemma_complex_exact_division_i64(q: Complex<i64>, b: Complex<i64>)
    requires
        q.mul_req(b),
        q.mul_spec(b).div_req(b),
    ensures
        q.mul_spec(b).div_spec(b) == q,
{
    let p = q.mul_spec(b);
    let (qr, qi, br, bi) = (q.re as int, q.im as int, b.re as int, b.im as int);
    let n = br * br + bi * bi;
    assert((qr * br - qi * bi) * br + (qr * bi + qi * br) * bi == qr * n) by (nonlinear_arith)
        requires
            n == br * br + bi * bi;
    assert((qr * bi + qi * br) * br - (qr * br - qi * bi) * bi == qi * n) by (nonlinear_arith)
        requires
            n == br * br + bi * bi;
    let d = b.re.mul_spec(b.re).add_spec(b.im.mul_spec(b.im));
    assert(d as int == n);
    lemma_exact_div_i64(p.re.mul_spec(b.re).add_spec(p.im.mul_spec(b.im)), d, qr);
    lemma_exact_div_i64(p.im.mul_spec(b.re).sub_spec(p.re.mul_spec(b.im)), d, qi);
}

/// Dual-number division over 64-bit integers undoes multiplication:
/// whenever no step overflows, `(q * b) / b == q`.
pub proof fn lemma_dual_exact_division_i64(q: Dual<i64>, b: Dual<i64>)
    requires
        q.mul_req(b),
        q.mul_spec(b).div_req(b),
    ensures
        q.mul_spec(b).div_spec(b) == q,
{
    let p = q.mul_spec(b);
    let (qr, qd, br, bd) = (q.real as int, q.dual as int, b.real as int, b.dual as int);
    assert((qr * bd + qd * br) * br - (qr * br) * bd == qd * (br * br)) by (nonlinear_arith);
    lemma_exact_div_i64(p.real, b.real, qr);
    lemma_exact_div_i64(p.dual.mul_spec(b.real).sub_spec(p.real.mul_spec(b.dual)), b.real.mul_spec(b.real), qd);
}



/// A product distributes over a sum of four on the left.
proof fn lemma_distribute4(a: int, b: int, c: int, d: int, x: int)
    by (nonlinear_arith)
    ensures
        (a + b + c + d) * x == a * x + b * x + c * x + d * x,
{
}

/// A product distributes over a sum of four on the right.
proof fn lemma_distribute4_left(x: int, a: int, b: int, c: int, d: int)
    by (nonlinear_arith)
    ensures
        x * (a + b + c + d) == x * a + x * b + x * c + x * d,
{
}

/// A negated factor negates the product.
proof fn lemma_negate_left(a: int, x: int)
    by (nonlinear_arith)
    ensures
        (-a) * x == -(a * x),
{
}

/// The last two factors of a product of three can trade places.
proof fn lemma_swap_last(a: int, b: int, c: int)
    by (nonlinear_arith)
    ensures
        (a * b) * c == (a * c) * b,
{
}

/// A product of three can be grouped either way.
proof fn lemma_regroup(a: int, b: int, c: int)
    by (nonlinear_arith)
    ensures
        a * (b * c) == (a * b) * c,
{
}

/// `(q b) conj(b) == q |b|^2` over the integers, with the conjugate's signs
/// folded in: each component of `q` times the squared norm of `b`.
proof fn lemma_quaternion_norm_factor(qw: int, qx: int, qy: int, qz: int, bw: int, bx: int, by: int, bz: int)
    ensures
        (qw * bw + -(qx * bx) + -(qy * by) + -(qz * bz)) * bw + (qw * bx + qx * bw + qy * bz + -(qz * by)) * bx + (qw * by + -(qx * bz) + qy * bw + qz * bx) * by + (qw * bz + qx * by + -(qy * bx) + qz * bw) * bz == qw * (bw * bw + bx * bx + by * by + bz * bz),
        -((qw * bw + -(qx * bx) + -(qy * by) + -(qz * bz)) * bx) + (qw * bx + qx * bw + qy * bz + -(qz * by)) * bw + -((qw * by + -(qx * bz) + qy * bw + qz * bx) * bz) + (qw * bz + qx * by + -(qy * bx) + qz * bw) * by == qx * (bw * bw + bx * bx + by * by + bz * bz),
        -((qw * bw + -(qx * bx) + -(qy * by) + -(qz * bz)) * by) + (qw * bx + qx * bw + qy * bz + -(qz * by)) * bz + (qw * by + -(qx * bz) + qy * bw + qz * bx) * bw + -((qw * bz + qx * by + -(qy * bx) + qz * bw) * bx) == qy * (bw * bw + bx * bx + by * by + bz * bz),
        -((qw * bw + -(qx * bx) + -(qy * by) + -(qz * bz)) * bz) + -((qw * bx + qx * bw + qy * bz + -(qz * by)) * by) + (qw * by + -(qx * bz) + qy * bw + qz * bx) * bx + (qw * bz + qx * by + -(qy * bx) + qz * bw) * bw == qz * (bw * bw + bx * bx + by * by + bz * bz),
{
    lemma_distribute4(qw * bw, -(qx * bx), -(qy * by), -(qz * bz), bw);
    lemma_negate_left(qx * bx, bw);
    lemma_swap_last(qx, bx, bw);
    lemma_negate_left(qy * by, bw);
    lemma_swap_last(qy, by, bw);
    lemma_negate_left(qz * bz, bw);
    lemma_swap_last(qz, bz, bw);
    lemma_distribute4(qw * bw, -(qx * bx), -(qy * by), -(qz * bz), bx);
    lemma_negate_left(qx * bx, bx);
    lemma_negate_left(qy * by, bx);
    lemma_swap_last(qy, by, bx);
    lemma_negate_left(qz * bz, bx);
    lemma_swap_last(qz, bz, bx);
    lemma_distribute4(qw * bw, -(qx * bx), -(qy * by), -(qz * bz), by);
    lemma_negate_left(qx * bx, by);
    lemma_negate_left(qy * by, by);
    lemma_negate_left(qz * bz, by);
    lemma_swap_last(qz, bz, by);
    lemma_distribute4(qw * bw, -(qx * bx), -(qy * by), -(qz * bz), bz);
    lemma_negate_left(qx * bx, bz);
    lemma_negate_left(qy * by, bz);
    lemma_negate_left(qz * bz, bz);
    lemma_distribute4(qw * bx, qx * bw, qy * bz, -(qz * by), bw);
    lemma_swap_last(qw, bx, bw);
    lemma_swap_last(qy, bz, bw);
    lemma_negate_left(qz * by, bw);
    lemma_swap_last(qz, by, bw);
    lemma_distribute4(qw * bx, qx * bw, qy * bz, -(qz * by), bx);
    lemma_swap_last(qy, bz, bx);
    lemma_negate_left(qz * by, bx);
    lemma_swap_last(qz, by, bx);
    lemma_distribute4(qw * bx, qx * bw, qy * bz, -(qz * by), by);
    lemma_swap_last(qy, bz, by);
    lemma_negate_left(qz * by, by);
    lemma_distribute4(qw * bx, qx * bw, qy * bz, -(qz * by), bz);
    lemma_negate_left(qz * by, bz);
    lemma_distribute4(qw * by, -(qx * bz), qy * bw, qz * bx, bw);
    lemma_swap_last(qw, by, bw);
    lemma_negate_left(qx * bz, bw);
    lemma_swap_last(qx, bz, bw);
    lemma_swap_last(qz, bx, bw);
    lemma_distribute4(qw * by, -(qx * bz), qy * bw, qz * bx, bx);
    lemma_swap_last(qw, by, bx);
    lemma_negate_left(qx * bz, bx);
    lemma_swap_last(qx, bz, bx);
    lemma_distribute4(qw * by, -(qx * bz), qy * bw, qz * bx, by);
    lemma_negate_left(qx * bz, by);
    lemma_swap_last(qx, bz, by);
    lemma_distribute4(qw * by, -(qx * bz), qy * bw, qz * bx, bz);
    lemma_negate_left(qx * bz, bz);
    lemma_distribute4(qw * bz, qx * by, -(qy * bx), qz * bw, bw);
    lemma_swap_last(qw, bz, bw);
    lemma_swap_last(qx, by, bw);
    lemma_negate_left(qy * bx, bw);
    lemma_swap_last(qy, bx, bw);
    lemma_distribute4(qw * bz, qx * by, -(qy * bx), qz * bw, bx);
    lemma_swap_last(qw, bz, bx);
    lemma_swap_last(qx, by, bx);
    lemma_negate_left(qy * bx, bx);
    lemma_distribute4(qw * bz, qx * by, -(qy * bx), qz * bw, by);
    lemma_swap_last(qw, bz, by);
    lemma_negate_left(qy * bx, by);
    lemma_distribute4(qw * bz, qx * by, -(qy * bx), qz * bw, bz);
    lemma_negate_left(qy * bx, bz);
    lemma_distribute4_left(qw, bw * bw, bx * bx, by * by, bz * bz);
    lemma_regroup(qw, bw, bw);
    lemma_regroup(qw, bx, bx);
    lemma_regroup(qw, by, by);
    lemma_regroup(qw, bz, bz);
    lemma_distribute4_left(qx, bw * bw, bx * bx, by * by, bz * bz);
    lemma_regroup(qx, bw, bw);
    lemma_regroup(qx, bx, bx);
    lemma_regroup(qx, by, by);
    lemma_regroup(qx, bz, bz);
    lemma_distribute4_left(qy, bw * bw, bx * bx, by * by, bz * bz);
    lemma_regroup(qy, bw, bw);
    lemma_regroup(qy, bx, bx);
    lemma_regroup(qy, by, by);
    lemma_regroup(qy, bz, bz);
    lemma_distribute4_left(qz, bw * bw, bx * bx, by * by, bz * bz);
    lemma_regroup(qz, bw, bw);
    lemma_regroup(qz, bx, bx);
    lemma_regroup(qz, by, by);
    lemma_regroup(qz, bz, bz);
}

/// Quaternion division over 64-bit integers undoes multiplication on the
/// right: whenever no step overflows, `(q * b) / b == q`.
pub proof fn lemma_quaternion_exact_division_i64(q: Quaternion<i64>, b: Quaternion<i64>)
    requires
        q.mul_req(b),
        q.mul_spec(b).div_req(b),
    ensures
        q.mul_spec(b).div_spec(b) == q,
{
    let p = q.mul_spec(b);
    let c = quaternion_conjugate(b);
    let r = hamilton(p, c);
    let d = quaternion_norm_squared(b);
    let (qw, qx, qy, qz) = (q.w as int, q.x as int, q.y as int, q.z as int);
    let (bw, bx, by, bz) = (b.w as int, b.x as int, b.y as int, b.z as int);
    let (pw, px, py, pz) = (p.w as int, p.x as int, p.y as int, p.z as int);
    let (cw, cx, cy, cz) = (c.w as int, c.x as int, c.y as int, c.z as int);
    assert(pw == qw * bw + -(qx * bx) + -(qy * by) + -(qz * bz));
    assert(px == qw * bx + qx * bw + qy * bz + -(qz * by));
    assert(py == qw * by + -(qx * bz) + qy * bw + qz * bx);
    assert(pz == qw * bz + qx * by + -(qy * bx) + qz * bw);
    assert(cw == bw && cx == -bx && cy == -by && cz == -bz);
    assert(r.w as int == pw * cw - px * cx - py * cy - pz * cz && r.x as int == pw * cx + px * cw + py * cz - pz * cy
        && r.y as int == pw * cy - px * cz + py * cw + pz * cx && r.z as int == pw * cz + px * cy - py * cx + pz * cw);
    lemma_times_negated(pw, bx);
    lemma_times_negated(pw, by);
    lemma_times_negated(pw, bz);
    lemma_times_negated(px, bx);
    lemma_times_negated(px, by);
    lemma_times_negated(px, bz);
    lemma_times_negated(py, bx);
    lemma_times_negated(py, by);
    lemma_times_negated(py, bz);
    lemma_times_negated(pz, bx);
    lemma_times_negated(pz, by);
    lemma_times_negated(pz, bz);
    lemma_quaternion_norm_factor(qw, qx, qy, qz, bw, bx, by, bz);
    let n = bw * bw + bx * bx + by * by + bz * bz;
    assert(d as int == n);
    assert(r.w as int == qw * n && r.x as int == qx * n && r.y as int == qy * n && r.z as int == qz * n);
    lemma_exact_div_i64(r.w, d, qw);
    lemma_exact_div_i64(r.x, d, qx);
    lemma_exact_div_i64(r.y, d, qy);
    lemma_exact_div_i64(r.z, d, qz);
}

/// Multiplying by a negation negates the product.
proof fn lemma_times_negated(a: int, b: int)
    by (nonlinear_arith)
    ensures
        a * (-b) == -(a * b),
{
}

} // verus!
