//! Fixed-width vectors generic over their component type, so the same
//! vector carries voxel coordinates (`i128`) or any other component the
//! world needs. Arithmetic goes component by component through the
//! component type's own operators, and each operation is specified by what
//! those operators promise.
use vstd::prelude::*;
use core::ops::{Add, Div, Mul, Neg, Shl, Shr, Sub};
use vstd::std_specs::ops::{AddSpec, DivSpec, MulSpec, NegSpec, ShlSpec, ShrSpec, SubSpec};
use vstd::std_specs::cmp::PartialOrdSpec;

verus! {

/// A vector of two components.
#[derive(Clone, Copy, Debug, Default, Hash)]
pub struct Vector2<T> {
    pub x: T,
    pub y: T,
}

impl<T> Vector2<T> {
    /// The vector with the given components.
    pub fn new(x: T, y: T) -> (v: Self)
        ensures
            v.x == x,
            v.y == y,
    {
        Vector2 { x, y }
    }

    /// The components in axis order.
    pub fn to_array(self) -> (components: [T; 2])
        ensures
            components@ == seq![self.x, self.y],
    {
        let Vector2 { x, y } = self;
        [x, y]
    }
}

impl<T: Copy> Vector2<T> {
    /// The same value in every component.
    pub fn splat(value: T) -> (v: Self)
        ensures
            v.x == value,
            v.y == value,
    {
        Vector2 { x: value, y: value }
    }
}

/// The components in axis order.
impl<T> From<(T, T)> for Vector2<T> {
    fn from(components: (T, T)) -> (v: Self) {
        let (x, y) = components;
        Vector2 { x, y }
    }
}

impl<T> vstd::std_specs::convert::FromSpecImpl<(T, T)> for Vector2<T> {
    open spec fn obeys_from_spec() -> bool {
        true
    }

    open spec fn from_spec(components: (T, T)) -> Self {
        Vector2 { x: components.0, y: components.1 }
    }
}

/// Component-wise sum.
impl<T: Add<Output = T>> Add for Vector2<T> {
    type Output = Vector2<T>;

    fn add(self, rhs: Self) -> (out: Self::Output) {
        Vector2 { x: self.x + rhs.x, y: self.y + rhs.y }
    }
}

impl<T: Add<Output = T>> vstd::std_specs::ops::AddSpecImpl for Vector2<T> {
    open spec fn obeys_add_spec() -> bool {
        T::obeys_add_spec()
    }

    open spec fn add_req(self, rhs: Self) -> bool {
        self.x.add_req(rhs.x) && self.y.add_req(rhs.y)
    }

    open spec fn add_spec(self, rhs: Self) -> Self {
        Vector2 { x: self.x.add_spec(rhs.x), y: self.y.add_spec(rhs.y) }
    }
}

/// Component-wise difference.
impl<T: Sub<Output = T>> Sub for Vector2<T> {
    type Output = Vector2<T>;

    fn sub(self, rhs: Self) -> (out: Self::Output) {
        Vector2 { x: self.x - rhs.x, y: self.y - rhs.y }
    }
}

impl<T: Sub<Output = T>> vstd::std_specs::ops::SubSpecImpl for Vector2<T> {
    open spec fn obeys_sub_spec() -> bool {
        T::obeys_sub_spec()
    }

    open spec fn sub_req(self, rhs: Self) -> bool {
        self.x.sub_req(rhs.x) && self.y.sub_req(rhs.y)
    }

    open spec fn sub_spec(self, rhs: Self) -> Self {
        Vector2 { x: self.x.sub_spec(rhs.x), y: self.y.sub_spec(rhs.y) }
    }
}

/// Every component's product with `scalar`.
impl<T: Mul<Output = T> + Copy> Mul<T> for Vector2<T> {
    type Output = Vector2<T>;

    fn mul(self, scalar: T) -> (out: Self::Output) {
        Vector2 { x: self.x * scalar, y: self.y * scalar }
    }
}

impl<T: Mul<Output = T> + Copy> vstd::std_specs::ops::MulSpecImpl<T> for Vector2<T> {
    open spec fn obeys_mul_spec() -> bool {
        T::obeys_mul_spec()
    }

    open spec fn mul_req(self, scalar: T) -> bool {
        self.x.mul_req(scalar) && self.y.mul_req(scalar)
    }

    open spec fn mul_spec(self, scalar: T) -> Self {
        Vector2 { x: self.x.mul_spec(scalar), y: self.y.mul_spec(scalar) }
    }
}

/// Every component's quotient with `scalar`.
impl<T: Div<Output = T> + Copy> Div<T> for Vector2<T> {
    type Output = Vector2<T>;

    fn div(self, scalar: T) -> (out: Self::Output) {
        Vector2 { x: self.x / scalar, y: self.y / scalar }
    }
}

impl<T: Div<Output = T> + Copy> vstd::std_specs::ops::DivSpecImpl<T> for Vector2<T> {
    open spec fn obeys_div_spec() -> bool {
        T::obeys_div_spec()
    }

    open spec fn div_req(self, scalar: T) -> bool {
        self.x.div_req(scalar) && self.y.div_req(scalar)
    }

    open spec fn div_spec(self, scalar: T) -> Self {
        Vector2 { x: self.x.div_spec(scalar), y: self.y.div_spec(scalar) }
    }
}

/// Every component shifted left by `shift` bits.
impl<T: Shl<u32, Output = T>> Shl<u32> for Vector2<T> {
    type Output = Vector2<T>;

    fn shl(self, shift: u32) -> (out: Self::Output) {
        Vector2 { x: self.x.shl(shift), y: self.y.shl(shift) }
    }
}

impl<T: Shl<u32, Output = T>> vstd::std_specs::ops::ShlSpecImpl<u32> for Vector2<T> {
    open spec fn obeys_shl_spec() -> bool {
        T::obeys_shl_spec()
    }

    open spec fn shl_req(self, shift: u32) -> bool {
        self.x.shl_req(shift) && self.y.shl_req(shift)
    }

    open spec fn shl_spec(self, shift: u32) -> Self {
        Vector2 { x: self.x.shl_spec(shift), y: self.y.shl_spec(shift) }
    }
}

/// Every component shifted right by `shift` bits.
impl<T: Shr<u32, Output = T>> Shr<u32> for Vector2<T> {
    type Output = Vector2<T>;

    fn shr(self, shift: u32) -> (out: Self::Output) {
        Vector2 { x: self.x.shr(shift), y: self.y.shr(shift) }
    }
}

impl<T: Shr<u32, Output = T>> vstd::std_specs::ops::ShrSpecImpl<u32> for Vector2<T> {
    open spec fn obeys_shr_spec() -> bool {
        T::obeys_shr_spec()
    }

    open spec fn shr_req(self, shift: u32) -> bool {
        self.x.shr_req(shift) && self.y.shr_req(shift)
    }

    open spec fn shr_spec(self, shift: u32) -> Self {
        Vector2 { x: self.x.shr_spec(shift), y: self.y.shr_spec(shift) }
    }
}

/// Every component negated.
impl<T: Neg<Output = T>> Neg for Vector2<T> {
    type Output = Vector2<T>;

    fn neg(self) -> (out: Self::Output) {
        Vector2 { x: self.x.neg(), y: self.y.neg() }
    }
}

impl<T: Neg<Output = T>> vstd::std_specs::ops::NegSpecImpl for Vector2<T> {
    open spec fn obeys_neg_spec() -> bool {
        T::obeys_neg_spec()
    }

    open spec fn neg_req(self) -> bool {
        self.x.neg_req() && self.y.neg_req()
    }

    open spec fn neg_spec(self) -> Self {
        Vector2 { x: self.x.neg_spec(), y: self.y.neg_spec() }
    }
}

impl<T: Add<Output = T> + Mul<Output = T> + Copy> Vector2<T> {
    /// Whether every product and partial sum of the dot product with `rhs`
    /// is within what the component type's operators accept.
    pub open spec fn dot_req(self, rhs: Self) -> bool {
        &&& 
self.x.mul_req(rhs.x)        &&& self.y.mul_req(rhs.y)        &&& self.x.mul_spec(rhs.x).add_req(self.y.mul_spec(rhs.y))
    }

    /// The dot product with `rhs` as the component type's operators define
    /// it, summed from the last axis back to the first.
    pub open spec fn dot_spec(self, rhs: Self) -> T {
        self.x.mul_spec(rhs.x).add_spec(self.y.mul_spec(rhs.y))
    }

    /// The dot product.
    pub fn dot(self, rhs: Self) -> (product: T)
        requires
            T::obeys_mul_spec(),
            T::obeys_add_spec(),
            self.dot_req(rhs),
        ensures
            product == self.dot_spec(rhs),
    {
        self.x * rhs.x + (self.y * rhs.y)
    }

    /// Squared length, the dot product with itself.
    pub fn norm_squared(self) -> (square: T)
        requires
            T::obeys_mul_spec(),
            T::obeys_add_spec(),
            self.dot_req(self),
        ensures
            square == self.dot_spec(self),
    {
        self.dot(self)
    }
}

/// A vector of three components.
#[derive(Clone, Copy, Debug, Default, Hash)]
pub struct Vector3<T> {
    pub x: T,
    pub y: T,
    pub z: T,
}

impl<T> Vector3<T> {
    /// The vector with the given components.
    pub fn new(x: T, y: T, z: T) -> (v: Self)
        ensures
            v.x == x,
            v.y == y,
            v.z == z,
    {
        Vector3 { x, y, z }
    }

    /// The components in axis order.
    pub fn to_array(self) -> (components: [T; 3])
        ensures
            components@ == seq![self.x, self.y, self.z],
    {
        let Vector3 { x, y, z } = self;
        [x, y, z]
    }
}

impl<T: Copy> Vector3<T> {
    /// The same value in every component.
    pub fn splat(value: T) -> (v: Self)
        ensures
            v.x == value,
            v.y == value,
            v.z == value,
    {
        Vector3 { x: value, y: value, z: value }
    }
}

/// The components in axis order.
impl<T> From<(T, T, T)> for Vector3<T> {
    fn from(components: (T, T, T)) -> (v: Self) {
        let (x, y, z) = components;
        Vector3 { x, y, z }
    }
}

impl<T> vstd::std_specs::convert::FromSpecImpl<(T, T, T)> for Vector3<T> {
    open spec fn obeys_from_spec() -> bool {
        true
    }

    open spec fn from_spec(components: (T, T, T)) -> Self {
        Vector3 { x: components.0, y: components.1, z: components.2 }
    }
}

/// Component-wise sum.
impl<T: Add<Output = T>> Add for Vector3<T> {
    type Output = Vector3<T>;

    fn add(self, rhs: Self) -> (out: Self::Output) {
        Vector3 { x: self.x + rhs.x, y: self.y + rhs.y, z: self.z + rhs.z }
    }
}

impl<T: Add<Output = T>> vstd::std_specs::ops::AddSpecImpl for Vector3<T> {
    open spec fn obeys_add_spec() -> bool {
        T::obeys_add_spec()
    }

    open spec fn add_req(self, rhs: Self) -> bool {
        self.x.add_req(rhs.x) && self.y.add_req(rhs.y) && self.z.add_req(rhs.z)
    }

    open spec fn add_spec(self, rhs: Self) -> Self {
        Vector3 { x: self.x.add_spec(rhs.x), y: self.y.add_spec(rhs.y), z: self.z.add_spec(rhs.z) }
    }
}

/// Component-wise difference.
impl<T: Sub<Output = T>> Sub for Vector3<T> {
    type Output = Vector3<T>;

    fn sub(self, rhs: Self) -> (out: Self::Output) {
        Vector3 { x: self.x - rhs.x, y: self.y - rhs.y, z: self.z - rhs.z }
    }
}

impl<T: Sub<Output = T>> vstd::std_specs::ops::SubSpecImpl for Vector3<T> {
    open spec fn obeys_sub_spec() -> bool {
        T::obeys_sub_spec()
    }

    open spec fn sub_req(self, rhs: Self) -> bool {
        self.x.sub_req(rhs.x) && self.y.sub_req(rhs.y) && self.z.sub_req(rhs.z)
    }

    open spec fn sub_spec(self, rhs: Self) -> Self {
        Vector3 { x: self.x.sub_spec(rhs.x), y: self.y.sub_spec(rhs.y), z: self.z.sub_spec(rhs.z) }
    }
}

/// Every component's product with `scalar`.
impl<T: Mul<Output = T> + Copy> Mul<T> for Vector3<T> {
    type Output = Vector3<T>;

    fn mul(self, scalar: T) -> (out: Self::Output) {
        Vector3 { x: self.x * scalar, y: self.y * scalar, z: self.z * scalar }
    }
}

impl<T: Mul<Output = T> + Copy> vstd::std_specs::ops::MulSpecImpl<T> for Vector3<T> {
    open spec fn obeys_mul_spec() -> bool {
        T::obeys_mul_spec()
    }

    open spec fn mul_req(self, scalar: T) -> bool {
        self.x.mul_req(scalar) && self.y.mul_req(scalar) && self.z.mul_req(scalar)
    }

    open spec fn mul_spec(self, scalar: T) -> Self {
        Vector3 { x: self.x.mul_spec(scalar), y: self.y.mul_spec(scalar), z: self.z.mul_spec(scalar) }
    }
}

/// Every component's quotient with `scalar`.
impl<T: Div<Output = T> + Copy> Div<T> for Vector3<T> {
    type Output = Vector3<T>;

    fn div(self, scalar: T) -> (out: Self::Output) {
        Vector3 { x: self.x / scalar, y: self.y / scalar, z: self.z / scalar }
    }
}

impl<T: Div<Output = T> + Copy> vstd::std_specs::ops::DivSpecImpl<T> for Vector3<T> {
    open spec fn obeys_div_spec() -> bool {
        T::obeys_div_spec()
    }

    open spec fn div_req(self, scalar: T) -> bool {
        self.x.div_req(scalar) && self.y.div_req(scalar) && self.z.div_req(scalar)
    }

    open spec fn div_spec(self, scalar: T) -> Self {
        Vector3 { x: self.x.div_spec(scalar), y: self.y.div_spec(scalar), z: self.z.div_spec(scalar) }
    }
}

/// Every component shifted left by `shift` bits.
impl<T: Shl<u32, Output = T>> Shl<u32> for Vector3<T> {
    type Output = Vector3<T>;

    fn shl(self, shift: u32) -> (out: Self::Output) {
        Vector3 { x: self.x.shl(shift), y: self.y.shl(shift), z: self.z.shl(shift) }
    }
}

impl<T: Shl<u32, Output = T>> vstd::std_specs::ops::ShlSpecImpl<u32> for Vector3<T> {
    open spec fn obeys_shl_spec() -> bool {
        T::obeys_shl_spec()
    }

    open spec fn shl_req(self, shift: u32) -> bool {
        self.x.shl_req(shift) && self.y.shl_req(shift) && self.z.shl_req(shift)
    }

    open spec fn shl_spec(self, shift: u32) -> Self {
        Vector3 { x: self.x.shl_spec(shift), y: self.y.shl_spec(shift), z: self.z.shl_spec(shift) }
    }
}

/// Every component shifted right by `shift` bits.
impl<T: Shr<u32, Output = T>> Shr<u32> for Vector3<T> {
    type Output = Vector3<T>;

    fn shr(self, shift: u32) -> (out: Self::Output) {
        Vector3 { x: self.x.shr(shift), y: self.y.shr(shift), z: self.z.shr(shift) }
    }
}

impl<T: Shr<u32, Output = T>> vstd::std_specs::ops::ShrSpecImpl<u32> for Vector3<T> {
    open spec fn obeys_shr_spec() -> bool {
        T::obeys_shr_spec()
    }

    open spec fn shr_req(self, shift: u32) -> bool {
        self.x.shr_req(shift) && self.y.shr_req(shift) && self.z.shr_req(shift)
    }

    open spec fn shr_spec(self, shift: u32) -> Self {
        Vector3 { x: self.x.shr_spec(shift), y: self.y.shr_spec(shift), z: self.z.shr_spec(shift) }
    }
}

/// Every component negated.
impl<T: Neg<Output = T>> Neg for Vector3<T> {
    type Output = Vector3<T>;

    fn neg(self) -> (out: Self::Output) {
        Vector3 { x: self.x.neg(), y: self.y.neg(), z: self.z.neg() }
    }
}

impl<T: Neg<Output = T>> vstd::std_specs::ops::NegSpecImpl for Vector3<T> {
    open spec fn obeys_neg_spec() -> bool {
        T::obeys_neg_spec()
    }

    open spec fn neg_req(self) -> bool {
        self.x.neg_req() && self.y.neg_req() && self.z.neg_req()
    }

    open spec fn neg_spec(self) -> Self {
        Vector3 { x: self.x.neg_spec(), y: self.y.neg_spec(), z: self.z.neg_spec() }
    }
}

impl<T: Add<Output = T> + Mul<Output = T> + Copy> Vector3<T> {
    /// Whether every product and partial sum of the dot product with `rhs`
    /// is within what the component type's operators accept.
    pub open spec fn dot_req(self, rhs: Self) -> bool {
        &&& 
self.x.mul_req(rhs.x)        &&& self.y.mul_req(rhs.y)        &&& self.z.mul_req(rhs.z)        &&& self.x.mul_spec(rhs.x).add_req(self.y.mul_spec(rhs.y).add_spec(self.z.mul_spec(rhs.z)))        &&& self.y.mul_spec(rhs.y).add_req(self.z.mul_spec(rhs.z))
    }

    /// The dot product with `rhs` as the component type's operators define
    /// it, summed from the last axis back to the first.
    pub open spec fn dot_spec(self, rhs: Self) -> T {
        self.x.mul_spec(rhs.x).add_spec(self.y.mul_spec(rhs.y).add_spec(self.z.mul_spec(rhs.z)))
    }

    /// The dot product.
    pub fn dot(self, rhs: Self) -> (product: T)
        requires
            T::obeys_mul_spec(),
            T::obeys_add_spec(),
            self.dot_req(rhs),
        ensures
            product == self.dot_spec(rhs),
    {
        self.x * rhs.x + (self.y * rhs.y + (self.z * rhs.z))
    }

    /// Squared length, the dot product with itself.
    pub fn norm_squared(self) -> (square: T)
        requires
            T::obeys_mul_spec(),
            T::obeys_add_spec(),
            self.dot_req(self),
        ensures
            square == self.dot_spec(self),
    {
        self.dot(self)
    }
}

/// A vector of four components.
#[derive(Clone, Copy, Debug, Default, Hash)]
pub struct Vector4<T> {
    pub x: T,
    pub y: T,
    pub z: T,
    pub w: T,
}

impl<T> Vector4<T> {
    /// The vector with the given components.
    pub fn new(x: T, y: T, z: T, w: T) -> (v: Self)
        ensures
            v.x == x,
            v.y == y,
            v.z == z,
            v.w == w,
    {
        Vector4 { x, y, z, w }
    }

    /// The components in axis order.
    pub fn to_array(self) -> (components: [T; 4])
        ensures
            components@ == seq![self.x, self.y, self.z, self.w],
    {
        let Vector4 { x, y, z, w } = self;
        [x, y, z, w]
    }
}

impl<T: Copy> Vector4<T> {
    /// The same value in every component.
    pub fn splat(value: T) -> (v: Self)
        ensures
            v.x == value,
            v.y == value,
            v.z == value,
            v.w == value,
    {
        Vector4 { x: value, y: value, z: value, w: value }
    }
}

/// The components in axis order.
impl<T> From<(T, T, T, T)> for Vector4<T> {
    fn from(components: (T, T, T, T)) -> (v: Self) {
        let (x, y, z, w) = components;
        Vector4 { x, y, z, w }
    }
}

impl<T> vstd::std_specs::convert::FromSpecImpl<(T, T, T, T)> for Vector4<T> {
    open spec fn obeys_from_spec() -> bool {
        true
    }

    open spec fn from_spec(components: (T, T, T, T)) -> Self {
        Vector4 { x: components.0, y: components.1, z: components.2, w: components.3 }
    }
}

/// Component-wise sum.
impl<T: Add<Output = T>> Add for Vector4<T> {
    type Output = Vector4<T>;

    fn add(self, rhs: Self) -> (out: Self::Output) {
        Vector4 { x: self.x + rhs.x, y: self.y + rhs.y, z: self.z + rhs.z, w: self.w + rhs.w }
    }
}

impl<T: Add<Output = T>> vstd::std_specs::ops::AddSpecImpl for Vector4<T> {
    open spec fn obeys_add_spec() -> bool {
        T::obeys_add_spec()
    }

    open spec fn add_req(self, rhs: Self) -> bool {
        self.x.add_req(rhs.x) && self.y.add_req(rhs.y) && self.z.add_req(rhs.z) && self.w.add_req(rhs.w)
    }

    open spec fn add_spec(self, rhs: Self) -> Self {
        Vector4 { x: self.x.add_spec(rhs.x), y: self.y.add_spec(rhs.y), z: self.z.add_spec(rhs.z), w: self.w.add_spec(rhs.w) }
    }
}

/// Component-wise difference.
impl<T: Sub<Output = T>> Sub for Vector4<T> {
    type Output = Vector4<T>;

    fn sub(self, rhs: Self) -> (out: Self::Output) {
        Vector4 { x: self.x - rhs.x, y: self.y - rhs.y, z: self.z - rhs.z, w: self.w - rhs.w }
    }
}

impl<T: Sub<Output = T>> vstd::std_specs::ops::SubSpecImpl for Vector4<T> {
    open spec fn obeys_sub_spec() -> bool {
        T::obeys_sub_spec()
    }

    open spec fn sub_req(self, rhs: Self) -> bool {
        self.x.sub_req(rhs.x) && self.y.sub_req(rhs.y) && self.z.sub_req(rhs.z) && self.w.sub_req(rhs.w)
    }

    open spec fn sub_spec(self, rhs: Self) -> Self {
        Vector4 { x: self.x.sub_spec(rhs.x), y: self.y.sub_spec(rhs.y), z: self.z.sub_spec(rhs.z), w: self.w.sub_spec(rhs.w) }
    }
}

/// Every component's product with `scalar`.
impl<T: Mul<Output = T> + Copy> Mul<T> for Vector4<T> {
    type Output = Vector4<T>;

    fn mul(self, scalar: T) -> (out: Self::Output) {
        Vector4 { x: self.x * scalar, y: self.y * scalar, z: self.z * scalar, w: self.w * scalar }
    }
}

impl<T: Mul<Output = T> + Copy> vstd::std_specs::ops::MulSpecImpl<T> for Vector4<T> {
    open spec fn obeys_mul_spec() -> bool {
        T::obeys_mul_spec()
    }

    open spec fn mul_req(self, scalar: T) -> bool {
        self.x.mul_req(scalar) && self.y.mul_req(scalar) && self.z.mul_req(scalar) && self.w.mul_req(scalar)
    }

    open spec fn mul_spec(self, scalar: T) -> Self {
        Vector4 { x: self.x.mul_spec(scalar), y: self.y.mul_spec(scalar), z: self.z.mul_spec(scalar), w: self.w.mul_spec(scalar) }
    }
}

/// Every component's quotient with `scalar`.
impl<T: Div<Output = T> + Copy> Div<T> for Vector4<T> {
    type Output = Vector4<T>;

    fn div(self, scalar: T) -> (out: Self::Output) {
        Vector4 { x: self.x / scalar, y: self.y / scalar, z: self.z / scalar, w: self.w / scalar }
    }
}

impl<T: Div<Output = T> + Copy> vstd::std_specs::ops::DivSpecImpl<T> for Vector4<T> {
    open spec fn obeys_div_spec() -> bool {
        T::obeys_div_spec()
    }

    open spec fn div_req(self, scalar: T) -> bool {
        self.x.div_req(scalar) && self.y.div_req(scalar) && self.z.div_req(scalar) && self.w.div_req(scalar)
    }

    open spec fn div_spec(self, scalar: T) -> Self {
        Vector4 { x: self.x.div_spec(scalar), y: self.y.div_spec(scalar), z: self.z.div_spec(scalar), w: self.w.div_spec(scalar) }
    }
}

/// Every component shifted left by `shift` bits.
impl<T: Shl<u32, Output = T>> Shl<u32> for Vector4<T> {
    type Output = Vector4<T>;

    fn shl(self, shift: u32) -> (out: Self::Output) {
        Vector4 { x: self.x.shl(shift), y: self.y.shl(shift), z: self.z.shl(shift), w: self.w.shl(shift) }
    }
}

impl<T: Shl<u32, Output = T>> vstd::std_specs::ops::ShlSpecImpl<u32> for Vector4<T> {
    open spec fn obeys_shl_spec() -> bool {
        T::obeys_shl_spec()
    }

    open spec fn shl_req(self, shift: u32) -> bool {
        self.x.shl_req(shift) && self.y.shl_req(shift) && self.z.shl_req(shift) && self.w.shl_req(shift)
    }

    open spec fn shl_spec(self, shift: u32) -> Self {
        Vector4 { x: self.x.shl_spec(shift), y: self.y.shl_spec(shift), z: self.z.shl_spec(shift), w: self.w.shl_spec(shift) }
    }
}

/// Every component shifted right by `shift` bits.
impl<T: Shr<u32, Output = T>> Shr<u32> for Vector4<T> {
    type Output = Vector4<T>;

    fn shr(self, shift: u32) -> (out: Self::Output) {
        Vector4 { x: self.x.shr(shift), y: self.y.shr(shift), z: self.z.shr(shift), w: self.w.shr(shift) }
    }
}

impl<T: Shr<u32, Output = T>> vstd::std_specs::ops::ShrSpecImpl<u32> for Vector4<T> {
    open spec fn obeys_shr_spec() -> bool {
        T::obeys_shr_spec()
    }

    open spec fn shr_req(self, shift: u32) -> bool {
        self.x.shr_req(shift) && self.y.shr_req(shift) && self.z.shr_req(shift) && self.w.shr_req(shift)
    }

    open spec fn shr_spec(self, shift: u32) -> Self {
        Vector4 { x: self.x.shr_spec(shift), y: self.y.shr_spec(shift), z: self.z.shr_spec(shift), w: self.w.shr_spec(shift) }
    }
}

/// Every component negated.
impl<T: Neg<Output = T>> Neg for Vector4<T> {
    type Output = Vector4<T>;

    fn neg(self) -> (out: Self::Output) {
        Vector4 { x: self.x.neg(), y: self.y.neg(), z: self.z.neg(), w: self.w.neg() }
    }
}

impl<T: Neg<Output = T>> vstd::std_specs::ops::NegSpecImpl for Vector4<T> {
    open spec fn obeys_neg_spec() -> bool {
        T::obeys_neg_spec()
    }

    open spec fn neg_req(self) -> bool {
        self.x.neg_req() && self.y.neg_req() && self.z.neg_req() && self.w.neg_req()
    }

    open spec fn neg_spec(self) -> Self {
        Vector4 { x: self.x.neg_spec(), y: self.y.neg_spec(), z: self.z.neg_spec(), w: self.w.neg_spec() }
    }
}

impl<T: Add<Output = T> + Mul<Output = T> + Copy> Vector4<T> {
    /// Whether every product and partial sum of the dot product with `rhs`
    /// is within what the component type's operators accept.
    pub open spec fn dot_req(self, rhs: Self) -> bool {
        &&& 
self.x.mul_req(rhs.x)        &&& self.y.mul_req(rhs.y)        &&& self.z.mul_req(rhs.z)        &&& self.w.mul_req(rhs.w)        &&& self.x.mul_spec(rhs.x).add_req(self.y.mul_spec(rhs.y).add_spec(self.z.mul_spec(rhs.z).add_spec(self.w.mul_spec(rhs.w))))        &&& self.y.mul_spec(rhs.y).add_req(self.z.mul_spec(rhs.z).add_spec(self.w.mul_spec(rhs.w)))        &&& self.z.mul_spec(rhs.z).add_req(self.w.mul_spec(rhs.w))
    }

    /// The dot product with `rhs` as the component type's operators define
    /// it, summed from the last axis back to the first.
    pub open spec fn dot_spec(self, rhs: Self) -> T {
        self.x.mul_spec(rhs.x).add_spec(self.y.mul_spec(rhs.y).add_spec(self.z.mul_spec(rhs.z).add_spec(self.w.mul_spec(rhs.w))))
    }

    /// The dot product.
    pub fn dot(self, rhs: Self) -> (product: T)
        requires
            T::obeys_mul_spec(),
            T::obeys_add_spec(),
            self.dot_req(rhs),
        ensures
            product == self.dot_spec(rhs),
    {
        self.x * rhs.x + (self.y * rhs.y + (self.z * rhs.z + (self.w * rhs.w)))
    }

    /// Squared length, the dot product with itself.
    pub fn norm_squared(self) -> (square: T)
        requires
            T::obeys_mul_spec(),
            T::obeys_add_spec(),
            self.dot_req(self),
        ensures
            square == self.dot_spec(self),
    {
        self.dot(self)
    }
}

impl<T: Sub<Output = T> + Mul<Output = T> + Copy> Vector3<T> {
    /// Whether every product and difference of the cross product with `rhs`
    /// is within what the component type's operators accept.
    pub open spec fn cross_req(self, rhs: Self) -> bool {
        &&& self.y.mul_req(rhs.z) && self.z.mul_req(rhs.y)
        &&& self.z.mul_req(rhs.x) && self.x.mul_req(rhs.z)
        &&& self.x.mul_req(rhs.y) && self.y.mul_req(rhs.x)
        &&& self.y.mul_spec(rhs.z).sub_req(self.z.mul_spec(rhs.y))
        &&& self.z.mul_spec(rhs.x).sub_req(self.x.mul_spec(rhs.z))
        &&& self.x.mul_spec(rhs.y).sub_req(self.y.mul_spec(rhs.x))
    }

    /// The cross product with `rhs` as the component type's operators
    /// define it.
    pub open spec fn cross_spec(self, rhs: Self) -> Self {
        Vector3 {
            x: self.y.mul_spec(rhs.z).sub_spec(self.z.mul_spec(rhs.y)),
            y: self.z.mul_spec(rhs.x).sub_spec(self.x.mul_spec(rhs.z)),
            z: self.x.mul_spec(rhs.y).sub_spec(self.y.mul_spec(rhs.x)),
        }
    }

    /// The cross product.
    pub fn cross(self, rhs: Self) -> (out: Self)
        requires
            T::obeys_mul_spec(),
            T::obeys_sub_spec(),
            self.cross_req(rhs),
        ensures
            out == self.cross_spec(rhs),
    {
        Vector3 {
            x: self.y * rhs.z - self.z * rhs.y,
            y: self.z * rhs.x - self.x * rhs.z,
            z: self.x * rhs.y - self.y * rhs.x,
        }
    }
}

/// The leading components; the trailing ones are dropped.
impl<T> From<Vector3<T>> for Vector2<T> {
    fn from(value: Vector3<T>) -> (v: Self) {
        Vector2 { x: value.x, y: value.y }
    }
}

impl<T> vstd::std_specs::convert::FromSpecImpl<Vector3<T>> for Vector2<T> {
    open spec fn obeys_from_spec() -> bool {
        true
    }

    open spec fn from_spec(value: Vector3<T>) -> Self {
        Vector2 { x: value.x, y: value.y }
    }
}

/// The leading components; the trailing ones are dropped.
impl<T> From<Vector4<T>> for Vector3<T> {
    fn from(value: Vector4<T>) -> (v: Self) {
        Vector3 { x: value.x, y: value.y, z: value.z }
    }
}

impl<T> vstd::std_specs::convert::FromSpecImpl<Vector4<T>> for Vector3<T> {
    open spec fn obeys_from_spec() -> bool {
        true
    }

    open spec fn from_spec(value: Vector4<T>) -> Self {
        Vector3 { x: value.x, y: value.y, z: value.z }
    }
}

/// The leading components; the trailing ones are dropped.
impl<T> From<Vector4<T>> for Vector2<T> {
    fn from(value: Vector4<T>) -> (v: Self) {
        Vector2 { x: value.x, y: value.y }
    }
}

impl<T> vstd::std_specs::convert::FromSpecImpl<Vector4<T>> for Vector2<T> {
    open spec fn obeys_from_spec() -> bool {
        true
    }

    open spec fn from_spec(value: Vector4<T>) -> Self {
        Vector2 { x: value.x, y: value.y }
    }
}

/// The same components with the added ones at `T::default()`, which is zero
/// for every numeric type.
impl<T: Default> From<Vector2<T>> for Vector3<T> {
    fn from(value: Vector2<T>) -> (v: Self)
        ensures
            v.x == value.x,
            v.y == value.y,
    {
        Vector3::new(value.x, value.y, T::default())
    }
}

/// What the added components are is up to `T::default()`, which has no
/// specification for a generic `T`, so only the kept components are stated
/// (in the `ensures` of `from`).
impl<T: Default> vstd::std_specs::convert::FromSpecImpl<Vector2<T>> for Vector3<T> {
    open spec fn obeys_from_spec() -> bool {
        false
    }

    open spec fn from_spec(value: Vector2<T>) -> Self {
        Vector3 { x: value.x, y: value.y, z: vstd::pervasive::arbitrary() }
    }
}

/// The same components with the added ones at `T::default()`, which is zero
/// for every numeric type.
impl<T: Default> From<Vector2<T>> for Vector4<T> {
    fn from(value: Vector2<T>) -> (v: Self)
        ensures
            v.x == value.x,
            v.y == value.y,
    {
        Vector4::new(value.x, value.y, T::default(), T::default())
    }
}

/// What the added components are is up to `T::default()`, which has no
/// specification for a generic `T`, so only the kept components are stated
/// (in the `ensures` of `from`).
impl<T: Default> vstd::std_specs::convert::FromSpecImpl<Vector2<T>> for Vector4<T> {
    open spec fn obeys_from_spec() -> bool {
        false
    }

    open spec fn from_spec(value: Vector2<T>) -> Self {
        Vector4 { x: value.x, y: value.y, z: vstd::pervasive::arbitrary(), w: vstd::pervasive::arbitrary() }
    }
}

/// The same components with the added ones at `T::default()`, which is zero
/// for every numeric type.
impl<T: Default> From<Vector3<T>> for Vector4<T> {
    fn from(value: Vector3<T>) -> (v: Self)
        ensures
            v.x == value.x,
            v.y == value.y,
            v.z == value.z,
    {
        Vector4::new(value.x, value.y, value.z, T::default())
    }
}

/// What the added components are is up to `T::default()`, which has no
/// specification for a generic `T`, so only the kept components are stated
/// (in the `ensures` of `from`).
impl<T: Default> vstd::std_specs::convert::FromSpecImpl<Vector3<T>> for Vector4<T> {
    open spec fn obeys_from_spec() -> bool {
        false
    }

    open spec fn from_spec(value: Vector3<T>) -> Self {
        Vector4 { x: value.x, y: value.y, z: value.z, w: vstd::pervasive::arbitrary() }
    }
}

/// Whether `a` compares below `b`.
pub open spec fn below<T: PartialOrd>(a: T, b: T) -> bool {
    a.partial_cmp_spec(&b) == Some(core::cmp::Ordering::Less)
}

/// Whether `a` compares above `b`.
pub open spec fn above<T: PartialOrd>(a: T, b: T) -> bool {
    a.partial_cmp_spec(&b) == Some(core::cmp::Ordering::Greater)
}

/// Whether `a` compares above or equal to `b`.
pub open spec fn at_least<T: PartialOrd>(a: T, b: T) -> bool {
    a.partial_cmp_spec(&b) matches Some(core::cmp::Ordering::Greater | core::cmp::Ordering::Equal)
}

/// The smaller of `left` and `right`: `right` only when it compares below.
pub open spec fn lesser<T: PartialOrd>(left: T, right: T) -> T {
    if below(right, left) { right } else { left }
}

/// The larger of `left` and `right`: `right` only when it compares above.
pub open spec fn greater<T: PartialOrd>(left: T, right: T) -> T {
    if above(right, left) { right } else { left }
}

impl<T> Vector2<T> {
    /// Applies `f` to every component, in axis order.
    pub fn map<U>(self, mut f: impl FnMut(T) -> U) -> (out: Vector2<U>)
        requires
            forall|v: T| #[trigger] f.requires((v,)),
        ensures
            f.ensures((self.x,), out.x),
            f.ensures((self.y,), out.y),
    {
        let x = f(self.x);
        let y = f(self.y);
        Vector2 { x, y }
    }

    /// Applies `f` to matching components of two vectors, in axis order.
    pub fn zip_map<U, V>(self, rhs: Vector2<U>, mut f: impl FnMut(T, U) -> V) -> (out: Vector2<V>)
        requires
            forall|a: T, b: U| #[trigger] f.requires((a, b)),
        ensures
            f.ensures((self.x, rhs.x), out.x),
            f.ensures((self.y, rhs.y), out.y),
    {
        let x = f(self.x, rhs.x);
        let y = f(self.y, rhs.y);
        Vector2 { x, y }
    }
}

impl<T: PartialOrd + Copy> Vector2<T> {
    /// The corner where each axis takes the smaller of the two values.
    pub fn component_min(self, other: Self) -> (out: Self)
        ensures
            T::obeys_partial_cmp_spec() ==> out.x == lesser(self.x, other.x),
            T::obeys_partial_cmp_spec() ==> out.y == lesser(self.y, other.y),
    {
        Vector2 { x: if other.x < self.x { other.x } else { self.x }, y: if other.y < self.y { other.y } else { self.y } }
    }

    /// The corner where each axis takes the larger of the two values.
    pub fn component_max(self, other: Self) -> (out: Self)
        ensures
            T::obeys_partial_cmp_spec() ==> out.x == greater(self.x, other.x),
            T::obeys_partial_cmp_spec() ==> out.y == greater(self.y, other.y),
    {
        Vector2 { x: if other.x > self.x { other.x } else { self.x }, y: if other.y > self.y { other.y } else { self.y } }
    }

    /// The smallest component, comparing in axis order.
    pub fn min_component(self) -> (m: T)
        ensures
            T::obeys_partial_cmp_spec() ==> m == lesser(self.x, self.y),
    {
        let mut m = self.x;
        if self.y < m { m = self.y; }
        m
    }

    /// The largest component, comparing in axis order.
    pub fn max_component(self) -> (m: T)
        ensures
            T::obeys_partial_cmp_spec() ==> m == greater(self.x, self.y),
    {
        let mut m = self.x;
        if self.y > m { m = self.y; }
        m
    }

    /// Confines every component to the box between `low` and `high`.
    pub fn clamp(self, low: Self, high: Self) -> (out: Self)
        ensures
            T::obeys_partial_cmp_spec() ==> out.x == lesser(greater(self.x, low.x), high.x),
            T::obeys_partial_cmp_spec() ==> out.y == lesser(greater(self.y, low.y), high.y),
    {
        self.component_max(low).component_min(high)
    }

    /// Whether every component lies from `low` up to but not including
    /// `high`.
    pub fn is_within(self, low: Self, high: Self) -> (inside: bool)
        ensures
            T::obeys_partial_cmp_spec() ==> inside == (at_least(self.x, low.x) && below(self.x, high.x) && at_least(self.y, low.y) && below(self.y, high.y)),
    {
        self.x >= low.x && self.x < high.x && self.y >= low.y && self.y < high.y
    }
}

impl<T> Vector3<T> {
    /// Applies `f` to every component, in axis order.
    pub fn map<U>(self, mut f: impl FnMut(T) -> U) -> (out: Vector3<U>)
        requires
            forall|v: T| #[trigger] f.requires((v,)),
        ensures
            f.ensures((self.x,), out.x),
            f.ensures((self.y,), out.y),
            f.ensures((self.z,), out.z),
    {
        let x = f(self.x);
        let y = f(self.y);
        let z = f(self.z);
        Vector3 { x, y, z }
    }

    /// Applies `f` to matching components of two vectors, in axis order.
    pub fn zip_map<U, V>(self, rhs: Vector3<U>, mut f: impl FnMut(T, U) -> V) -> (out: Vector3<V>)
        requires
            forall|a: T, b: U| #[trigger] f.requires((a, b)),
        ensures
            f.ensures((self.x, rhs.x), out.x),
            f.ensures((self.y, rhs.y), out.y),
            f.ensures((self.z, rhs.z), out.z),
    {
        let x = f(self.x, rhs.x);
        let y = f(self.y, rhs.y);
        let z = f(self.z, rhs.z);
        Vector3 { x, y, z }
    }
}

impl<T: PartialOrd + Copy> Vector3<T> {
    /// The corner where each axis takes the smaller of the two values.
    pub fn component_min(self, other: Self) -> (out: Self)
        ensures
            T::obeys_partial_cmp_spec() ==> out.x == lesser(self.x, other.x),
            T::obeys_partial_cmp_spec() ==> out.y == lesser(self.y, other.y),
            T::obeys_partial_cmp_spec() ==> out.z == lesser(self.z, other.z),
    {
        Vector3 { x: if other.x < self.x { other.x } else { self.x }, y: if other.y < self.y { other.y } else { self.y }, z: if other.z < self.z { other.z } else { self.z } }
    }

    /// The corner where each axis takes the larger of the two values.
    pub fn component_max(self, other: Self) -> (out: Self)
        ensures
            T::obeys_partial_cmp_spec() ==> out.x == greater(self.x, other.x),
            T::obeys_partial_cmp_spec() ==> out.y == greater(self.y, other.y),
            T::obeys_partial_cmp_spec() ==> out.z == greater(self.z, other.z),
    {
        Vector3 { x: if other.x > self.x { other.x } else { self.x }, y: if other.y > self.y { other.y } else { self.y }, z: if other.z > self.z { other.z } else { self.z } }
    }

    /// The smallest component, comparing in axis order.
    pub fn min_component(self) -> (m: T)
        ensures
            T::obeys_partial_cmp_spec() ==> m == lesser(lesser(self.x, self.y), self.z),
    {
        let mut m = self.x;
        if self.y < m { m = self.y; }
        if self.z < m { m = self.z; }
        m
    }

    /// The largest component, comparing in axis order.
    pub fn max_component(self) -> (m: T)
        ensures
            T::obeys_partial_cmp_spec() ==> m == greater(greater(self.x, self.y), self.z),
    {
        let mut m = self.x;
        if self.y > m { m = self.y; }
        if self.z > m { m = self.z; }
        m
    }

    /// Confines every component to the box between `low` and `high`.
    pub fn clamp(self, low: Self, high: Self) -> (out: Self)
        ensures
            T::obeys_partial_cmp_spec() ==> out.x == lesser(greater(self.x, low.x), high.x),
            T::obeys_partial_cmp_spec() ==> out.y == lesser(greater(self.y, low.y), high.y),
            T::obeys_partial_cmp_spec() ==> out.z == lesser(greater(self.z, low.z), high.z),
    {
        self.component_max(low).component_min(high)
    }

    /// Whether every component lies from `low` up to but not including
    /// `high`.
    pub fn is_within(self, low: Self, high: Self) -> (inside: bool)
        ensures
            T::obeys_partial_cmp_spec() ==> inside == (at_least(self.x, low.x) && below(self.x, high.x) && at_least(self.y, low.y) && below(self.y, high.y) && at_least(self.z, low.z) && below(self.z, high.z)),
    {
        self.x >= low.x && self.x < high.x && self.y >= low.y && self.y < high.y && self.z >= low.z && self.z < high.z
    }
}

impl<T> Vector4<T> {
    /// Applies `f` to every component, in axis order.
    pub fn map<U>(self, mut f: impl FnMut(T) -> U) -> (out: Vector4<U>)
        requires
            forall|v: T| #[trigger] f.requires((v,)),
        ensures
            f.ensures((self.x,), out.x),
            f.ensures((self.y,), out.y),
            f.ensures((self.z,), out.z),
            f.ensures((self.w,), out.w),
    {
        let x = f(self.x);
        let y = f(self.y);
        let z = f(self.z);
        let w = f(self.w);
        Vector4 { x, y, z, w }
    }

    /// Applies `f` to matching components of two vectors, in axis order.
    pub fn zip_map<U, V>(self, rhs: Vector4<U>, mut f: impl FnMut(T, U) -> V) -> (out: Vector4<V>)
        requires
            forall|a: T, b: U| #[trigger] f.requires((a, b)),
        ensures
            f.ensures((self.x, rhs.x), out.x),
            f.ensures((self.y, rhs.y), out.y),
            f.ensures((self.z, rhs.z), out.z),
            f.ensures((self.w, rhs.w), out.w),
    {
        let x = f(self.x, rhs.x);
        let y = f(self.y, rhs.y);
        let z = f(self.z, rhs.z);
        let w = f(self.w, rhs.w);
        Vector4 { x, y, z, w }
    }
}

impl<T: PartialOrd + Copy> Vector4<T> {
    /// The corner where each axis takes the smaller of the two values.
    pub fn component_min(self, other: Self) -> (out: Self)
        ensures
            T::obeys_partial_cmp_spec() ==> out.x == lesser(self.x, other.x),
            T::obeys_partial_cmp_spec() ==> out.y == lesser(self.y, other.y),
            T::obeys_partial_cmp_spec() ==> out.z == lesser(self.z, other.z),
            T::obeys_partial_cmp_spec() ==> out.w == lesser(self.w, other.w),
    {
        Vector4 { x: if other.x < self.x { other.x } else { self.x }, y: if other.y < self.y { other.y } else { self.y }, z: if other.z < self.z { other.z } else { self.z }, w: if other.w < self.w { other.w } else { self.w } }
    }

    /// The corner where each axis takes the larger of the two values.
    pub fn component_max(self, other: Self) -> (out: Self)
        ensures
            T::obeys_partial_cmp_spec() ==> out.x == greater(self.x, other.x),
            T::obeys_partial_cmp_spec() ==> out.y == greater(self.y, other.y),
            T::obeys_partial_cmp_spec() ==> out.z == greater(self.z, other.z),
            T::obeys_partial_cmp_spec() ==> out.w == greater(self.w, other.w),
    {
        Vector4 { x: if other.x > self.x { other.x } else { self.x }, y: if other.y > self.y { other.y } else { self.y }, z: if other.z > self.z { other.z } else { self.z }, w: if other.w > self.w { other.w } else { self.w } }
    }

    /// The smallest component, comparing in axis order.
    pub fn min_component(self) -> (m: T)
        ensures
            T::obeys_partial_cmp_spec() ==> m == lesser(lesser(lesser(self.x, self.y), self.z), self.w),
    {
        let mut m = self.x;
        if self.y < m { m = self.y; }
        if self.z < m { m = self.z; }
        if self.w < m { m = self.w; }
        m
    }

    /// The largest component, comparing in axis order.
    pub fn max_component(self) -> (m: T)
        ensures
            T::obeys_partial_cmp_spec() ==> m == greater(greater(greater(self.x, self.y), self.z), self.w),
    {
        let mut m = self.x;
        if self.y > m { m = self.y; }
        if self.z > m { m = self.z; }
        if self.w > m { m = self.w; }
        m
    }

    /// Confines every component to the box between `low` and `high`.
    pub fn clamp(self, low: Self, high: Self) -> (out: Self)
        ensures
            T::obeys_partial_cmp_spec() ==> out.x == lesser(greater(self.x, low.x), high.x),
            T::obeys_partial_cmp_spec() ==> out.y == lesser(greater(self.y, low.y), high.y),
            T::obeys_partial_cmp_spec() ==> out.z == lesser(greater(self.z, low.z), high.z),
            T::obeys_partial_cmp_spec() ==> out.w == lesser(greater(self.w, low.w), high.w),
    {
        self.component_max(low).component_min(high)
    }

    /// Whether every component lies from `low` up to but not including
    /// `high`.
    pub fn is_within(self, low: Self, high: Self) -> (inside: bool)
        ensures
            T::obeys_partial_cmp_spec() ==> inside == (at_least(self.x, low.x) && below(self.x, high.x) && at_least(self.y, low.y) && below(self.y, high.y) && at_least(self.z, low.z) && below(self.z, high.z) && at_least(self.w, low.w) && below(self.w, high.w)),
    {
        self.x >= low.x && self.x < high.x && self.y >= low.y && self.y < high.y && self.z >= low.z && self.z < high.z && self.w >= low.w && self.w < high.w
    }
}

impl<T> Vector2<T> {
    /// Whether `predicate` holds for every component, asking in axis order
    /// and stopping at the first that fails.
    pub fn all(self, mut predicate: impl FnMut(T) -> bool) -> (every: bool)
        requires
            forall|v: T| #[trigger] predicate.requires((v,)),
        ensures
            every ==> (predicate.ensures((self.x,), true) && predicate.ensures((self.y,), true)),
            !every ==> ((predicate.ensures((self.x,), false)) || (predicate.ensures((self.x,), true) && predicate.ensures((self.y,), false))),
    {
        let Vector2 { x, y } = self;
        predicate(x) && predicate(y)
    }

    /// Whether `predicate` holds for some component, asking in axis order
    /// and stopping at the first that holds.
    pub fn any(self, mut predicate: impl FnMut(T) -> bool) -> (some: bool)
        requires
            forall|v: T| #[trigger] predicate.requires((v,)),
        ensures
            !some ==> (predicate.ensures((self.x,), false) && predicate.ensures((self.y,), false)),
            some ==> ((predicate.ensures((self.x,), true)) || (predicate.ensures((self.x,), false) && predicate.ensures((self.y,), true))),
    {
        let Vector2 { x, y } = self;
        predicate(x) || predicate(y)
    }

    /// Folds the components in axis order, starting from `initial`.
    pub fn fold<A>(self, initial: A, mut f: impl FnMut(A, T) -> A) -> (out: A)
        requires
            forall|a: A, v: T| #[trigger] f.requires((a, v)),
        ensures
            exists|a1: A| f.ensures((initial, self.x), a1) && f.ensures((a1, self.y), out),
    {
        let Vector2 { x, y } = self;
        let accumulator = initial;
        let accumulator = f(accumulator, x);
        let accumulator = f(accumulator, y);
        accumulator
    }
}

impl<T> Vector3<T> {
    /// Whether `predicate` holds for every component, asking in axis order
    /// and stopping at the first that fails.
    pub fn all(self, mut predicate: impl FnMut(T) -> bool) -> (every: bool)
        requires
            forall|v: T| #[trigger] predicate.requires((v,)),
        ensures
            every ==> (predicate.ensures((self.x,), true) && predicate.ensures((self.y,), true) && predicate.ensures((self.z,), true)),
            !every ==> ((predicate.ensures((self.x,), false)) || (predicate.ensures((self.x,), true) && predicate.ensures((self.y,), false)) || (predicate.ensures((self.x,), true) && predicate.ensures((self.y,), true) && predicate.ensures((self.z,), false))),
    {
        let Vector3 { x, y, z } = self;
        predicate(x) && predicate(y) && predicate(z)
    }

    /// Whether `predicate` holds for some component, asking in axis order
    /// and stopping at the first that holds.
    pub fn any(self, mut predicate: impl FnMut(T) -> bool) -> (some: bool)
        requires
            forall|v: T| #[trigger] predicate.requires((v,)),
        ensures
            !some ==> (predicate.ensures((self.x,), false) && predicate.ensures((self.y,), false) && predicate.ensures((self.z,), false)),
            some ==> ((predicate.ensures((self.x,), true)) || (predicate.ensures((self.x,), false) && predicate.ensures((self.y,), true)) || (predicate.ensures((self.x,), false) && predicate.ensures((self.y,), false) && predicate.ensures((self.z,), true))),
    {
        let Vector3 { x, y, z } = self;
        predicate(x) || predicate(y) || predicate(z)
    }

    /// Folds the components in axis order, starting from `initial`.
    pub fn fold<A>(self, initial: A, mut f: impl FnMut(A, T) -> A) -> (out: A)
        requires
            forall|a: A, v: T| #[trigger] f.requires((a, v)),
        ensures
            exists|a1: A, a2: A| f.ensures((initial, self.x), a1) && f.ensures((a1, self.y), a2) && f.ensures((a2, self.z), out),
    {
        let Vector3 { x, y, z } = self;
        let accumulator = initial;
        let accumulator = f(accumulator, x);
        let accumulator = f(accumulator, y);
        let accumulator = f(accumulator, z);
        accumulator
    }
}

impl<T> Vector4<T> {
    /// Whether `predicate` holds for every component, asking in axis order
    /// and stopping at the first that fails.
    pub fn all(self, mut predicate: impl FnMut(T) -> bool) -> (every: bool)
        requires
            forall|v: T| #[trigger] predicate.requires((v,)),
        ensures
            every ==> (predicate.ensures((self.x,), true) && predicate.ensures((self.y,), true) && predicate.ensures((self.z,), true) && predicate.ensures((self.w,), true)),
            !every ==> ((predicate.ensures((self.x,), false)) || (predicate.ensures((self.x,), true) && predicate.ensures((self.y,), false)) || (predicate.ensures((self.x,), true) && predicate.ensures((self.y,), true) && predicate.ensures((self.z,), false)) || (predicate.ensures((self.x,), true) && predicate.ensures((self.y,), true) && predicate.ensures((self.z,), true) && predicate.ensures((self.w,), false))),
    {
        let Vector4 { x, y, z, w } = self;
        predicate(x) && predicate(y) && predicate(z) && predicate(w)
    }

    /// Whether `predicate` holds for some component, asking in axis order
    /// and stopping at the first that holds.
    pub fn any(self, mut predicate: impl FnMut(T) -> bool) -> (some: bool)
        requires
            forall|v: T| #[trigger] predicate.requires((v,)),
        ensures
            !some ==> (predicate.ensures((self.x,), false) && predicate.ensures((self.y,), false) && predicate.ensures((self.z,), false) && predicate.ensures((self.w,), false)),
            some ==> ((predicate.ensures((self.x,), true)) || (predicate.ensures((self.x,), false) && predicate.ensures((self.y,), true)) || (predicate.ensures((self.x,), false) && predicate.ensures((self.y,), false) && predicate.ensures((self.z,), true)) || (predicate.ensures((self.x,), false) && predicate.ensures((self.y,), false) && predicate.ensures((self.z,), false) && predicate.ensures((self.w,), true))),
    {
        let Vector4 { x, y, z, w } = self;
        predicate(x) || predicate(y) || predicate(z) || predicate(w)
    }

    /// Folds the components in axis order, starting from `initial`.
    pub fn fold<A>(self, initial: A, mut f: impl FnMut(A, T) -> A) -> (out: A)
        requires
            forall|a: A, v: T| #[trigger] f.requires((a, v)),
        ensures
            exists|a1: A, a2: A, a3: A| f.ensures((initial, self.x), a1) && f.ensures((a1, self.y), a2) && f.ensures((a2, self.z), a3) && f.ensures((a3, self.w), out),
    {
        let Vector4 { x, y, z, w } = self;
        let accumulator = initial;
        let accumulator = f(accumulator, x);
        let accumulator = f(accumulator, y);
        let accumulator = f(accumulator, z);
        let accumulator = f(accumulator, w);
        accumulator
    }
}


/// Vector arithmetic over 64-bit integers, whenever no step overflows,
/// matches the textbook formulas: sums, differences, negation and scaling
/// act on each component, and the dot product is the sum of the products
/// of matching components.
pub proof fn lemma_vector2_arithmetic_i64(a: Vector2<i64>, b: Vector2<i64>, k: i64)
    ensures
        a.add_req(b) ==> a.add_spec(b).x == a.x + b.x && a.add_spec(b).y == a.y + b.y,
        a.sub_req(b) ==> a.sub_spec(b).x == a.x - b.x && a.sub_spec(b).y == a.y - b.y,
        a.neg_req() ==> a.neg_spec().x == -a.x && a.neg_spec().y == -a.y,
        a.mul_req(k) ==> a.mul_spec(k).x == a.x * k && a.mul_spec(k).y == a.y * k,
        a.dot_req(b) ==> a.dot_spec(b) == a.x * b.x + a.y * b.y,
{
}

/// See `lemma_vector2_arithmetic_i64`; three components.
pub proof fn lemma_vector3_arithmetic_i64(a: Vector3<i64>, b: Vector3<i64>, k: i64)
    ensures
        a.add_req(b) ==> a.add_spec(b).x == a.x + b.x && a.add_spec(b).y == a.y + b.y && a.add_spec(b).z == a.z + b.z,
        a.sub_req(b) ==> a.sub_spec(b).x == a.x - b.x && a.sub_spec(b).y == a.y - b.y && a.sub_spec(b).z == a.z - b.z,
        a.neg_req() ==> a.neg_spec().x == -a.x && a.neg_spec().y == -a.y && a.neg_spec().z == -a.z,
        a.mul_req(k) ==> a.mul_spec(k).x == a.x * k && a.mul_spec(k).y == a.y * k && a.mul_spec(k).z == a.z * k,
        a.dot_req(b) ==> a.dot_spec(b) == a.x * b.x + a.y * b.y + a.z * b.z,
{
}

/// See `lemma_vector2_arithmetic_i64`; four components.
pub proof fn lemma_vector4_arithmetic_i64(a: Vector4<i64>, b: Vector4<i64>, k: i64)
    ensures
        a.add_req(b) ==> a.add_spec(b).x == a.x + b.x && a.add_spec(b).y == a.y + b.y && a.add_spec(b).z == a.z + b.z && a.add_spec(b).w == a.w + b.w,
        a.sub_req(b) ==> a.sub_spec(b).x == a.x - b.x && a.sub_spec(b).y == a.y - b.y && a.sub_spec(b).z == a.z - b.z && a.sub_spec(b).w == a.w - b.w,
        a.neg_req() ==> a.neg_spec().x == -a.x && a.neg_spec().y == -a.y && a.neg_spec().z == -a.z && a.neg_spec().w == -a.w,
        a.mul_req(k) ==> a.mul_spec(k).x == a.x * k && a.mul_spec(k).y == a.y * k && a.mul_spec(k).z == a.z * k && a.mul_spec(k).w == a.w * k,
        a.dot_req(b) ==> a.dot_spec(b) == a.x * b.x + a.y * b.y + a.z * b.z + a.w * b.w,
{
}

/// The cross product over 64-bit integers, whenever no step overflows, is
/// the textbook one, and it is orthogonal to both factors.
pub proof fn lemma_cross_i64(a: Vector3<i64>, b: Vector3<i64>)
    requires
        a.cross_req(b),
    ensures
        a.cross_spec(b).x == a.y * b.z - a.z * b.y,
        a.cross_spec(b).y == a.z * b.x - a.x * b.z,
        a.cross_spec(b).z == a.x * b.y - a.y * b.x,
        a.cross_spec(b).dot_req(a) ==> a.cross_spec(b).dot_spec(a) == 0,
        a.cross_spec(b).dot_req(b) ==> a.cross_spec(b).dot_spec(b) == 0,
{
    let c = a.cross_spec(b);
    let (ax, ay, az, bx, by, bz) = (a.x as int, a.y as int, a.z as int, b.x as int, b.y as int, b.z as int);
    assert((ay * bz - az * by) * ax + (az * bx - ax * bz) * ay + (ax * by - ay * bx) * az == 0) by (nonlinear_arith);
    assert((ay * bz - az * by) * bx + (az * bx - ax * bz) * by + (ax * by - ay * bx) * bz == 0) by (nonlinear_arith);
}


/// On 64-bit integers the comparisons are the usual order: `below` is `<`,
/// `above` is `>`, `at_least` is `>=`, `lesser` and `greater` are the
/// minimum and the maximum, and clamping into `low..=high` lands in that
/// range and keeps a value already in it.
pub proof fn lemma_order_i64(a: i64, b: i64, low: i64, high: i64)
    ensures
        below(a, b) == (a < b),
        above(a, b) == (a > b),
        at_least(a, b) == (a >= b),
        lesser(a, b) <= a && lesser(a, b) <= b && (lesser(a, b) == a || lesser(a, b) == b),
        greater(a, b) >= a && greater(a, b) >= b && (greater(a, b) == a || greater(a, b) == b),
        low <= high ==> low <= lesser(greater(a, low), high) <= high,
        low <= a <= high ==> lesser(greater(a, low), high) == a,
{
}

} // verus!
