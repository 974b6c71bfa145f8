//! The transform components and the affine arithmetic they rely on.
//!
//! Transform values are `glam` types, opaque to the verifier. What the
//! propagation logic needs of them is stated over their components read as
//! bit patterns, and transforms are compared by those bits, which is exact.
//! Float arithmetic fixes every bit of a result that holds no NaN; of a NaN it
//! fixes only that there is one, so the contracts below say no more than that.
use vstd::prelude::*;

verus! {

#[verifier::external_type_specification]
#[verifier::external_body]
pub struct ExVec3(glam::Vec3);

#[verifier::external_type_specification]
#[verifier::external_body]
pub struct ExQuat(glam::Quat);

#[verifier::external_type_specification]
#[verifier::external_body]
pub struct ExAffine3A(glam::Affine3A);

/// The twelve components of an affine transform, column by column, as bit patterns.
pub uninterp spec fn affine_bits(a: glam::Affine3A) -> Seq<u32>;

/// The components of the affine transform that scales, rotates, then translates.
pub uninterp spec fn srt_affine_bits(
    scale: glam::Vec3,
    rotation: glam::Quat,
    translation: glam::Vec3,
) -> Seq<u32>;

/// The components of the product of two affine transforms, given the components of each.
pub uninterp spec fn affine_product_bits(a: Seq<u32>, b: Seq<u32>) -> Seq<u32>;

/// The bit pattern of a NaN: all exponent bits set and a non-zero fraction.
pub open spec fn is_nan_bits(b: u32) -> bool {
    (b & 0x7f80_0000u32) == 0x7f80_0000u32 && (b & 0x007f_ffffu32) != 0u32
}

/// Some component is a NaN.
pub open spec fn has_nan(s: Seq<u32>) -> bool {
    exists|i: int| 0 <= i < s.len() && #[trigger] is_nan_bits(s[i])
}

/// The components `w` of a computed result agree with the value `v` that the
/// computation is named by: where `v` holds a NaN, so does `w` (whose NaN sign
/// and payload may differ); otherwise they are the same bits.
pub open spec fn agrees(w: Seq<u32>, v: Seq<u32>) -> bool {
    if has_nan(v) {
        has_nan(w)
    } else {
        w == v
    }
}

/// Relies on `glam::Affine3A::to_cols_array`: the twelve components, column by
/// column, each read as its bit pattern.
#[verifier::external_body]
pub(crate) fn affine_to_bits(a: &glam::Affine3A) -> (r: [u32; 12])
    ensures
        r@ == affine_bits(*a),
{
    a.to_cols_array().map(|c| c.to_bits())
}

/// Relies on `glam::Affine3A::from_scale_rotation_translation`, a fixed sequence
/// of float products and sums of its arguments: whether a component comes out
/// NaN, and every component's bits where none does, depend on the arguments
/// alone; only the sign and payload of a NaN may vary.
#[verifier::external_body]
pub(crate) fn affine_from_srt(
    scale: glam::Vec3,
    rotation: glam::Quat,
    translation: glam::Vec3,
) -> (r: glam::Affine3A)
    ensures
        agrees(affine_bits(r), srt_affine_bits(scale, rotation, translation)),
{
    glam::Affine3A::from_scale_rotation_translation(scale, rotation, translation)
}

/// Relies on `impl Mul for glam::Affine3A`: each component of the product is a
/// sum of products of components of the two factors. Whether a component comes
/// out NaN, and every component's bits where none does, depend on the factors'
/// components alone; a NaN among a factor's components reaches the product.
#[verifier::external_body]
pub(crate) fn affine_mul(a: &glam::Affine3A, b: &glam::Affine3A) -> (r: glam::Affine3A)
    ensures
        agrees(affine_bits(r), affine_product_bits(affine_bits(*a), affine_bits(*b))),
        has_nan(affine_bits(*a)) || has_nan(affine_bits(*b)) ==> has_nan(affine_bits(r)),
{
    *a * *b
}

/// Whether some component of a bit-pattern array is a NaN.
pub(crate) fn bits_have_nan(a: &[u32; 12]) -> (r: bool)
    ensures
        r == has_nan(a@),
{
    let mut i: usize = 0;
    while i < 12
        invariant
            0 <= i <= 12,
            a@.len() == 12,
            forall|j: int| 0 <= j < i ==> !#[trigger] is_nan_bits(a@[j]),
        decreases 12 - i,
    {
        let b = a[i];
        if (b & 0x7f80_0000u32) == 0x7f80_0000u32 && (b & 0x007f_ffffu32) != 0u32 {
            assert(is_nan_bits(a@[i as int]));
            return true;
        }
        i = i + 1;
    }
    false
}

/// Whether two bit-pattern arrays are equal.
pub(crate) fn same_bits(a: &[u32; 12], b: &[u32; 12]) -> (r: bool)
    ensures
        r == (a@ == b@),
{
    let mut i: usize = 0;
    while i < 12
        invariant
            0 <= i <= 12,
            a@.len() == 12,
            b@.len() == 12,
            forall|j: int| 0 <= j < i ==> a@[j] == b@[j],
        decreases 12 - i,
    {
        if a[i] != b[i] {
            return false;
        }
        i = i + 1;
    }
    assert(a@ =~= b@);
    true
}

/// The transform of an entity relative to its parent (or to the world, for a root).
#[derive(Clone, Copy, Debug)]
pub struct TransformComponent {
    pub position: glam::Vec3,
    pub rotation: glam::Quat,
    pub scale: glam::Vec3,
}

impl TransformComponent {
    /// The components of the affine transform that this transform stands for.
    pub open spec fn bits(self) -> Seq<u32> {
        srt_affine_bits(self.scale, self.rotation, self.position)
    }

    /// The affine transform that scales, rotates, then translates by this transform.
    pub fn to_affine(&self) -> (r: glam::Affine3A)
        ensures
            agrees(affine_bits(r), self.bits()),
    {
        affine_from_srt(self.scale, self.rotation, self.position)
    }
}

/// The transform of an entity in world space. Only transform propagation writes it.
#[derive(Clone, Copy, Debug)]
pub struct GlobalTransformComponent {
    global_transform: glam::Affine3A,
}

impl GlobalTransformComponent {
    pub closed spec fn affine(self) -> glam::Affine3A {
        self.global_transform
    }

    pub(crate) fn from_affine(a: glam::Affine3A) -> (r: Self)
        ensures
            r.affine() == a,
    {
        GlobalTransformComponent { global_transform: a }
    }

    /// The world-space affine transform.
    pub fn global_transform(&self) -> (r: glam::Affine3A)
        ensures
            r == self.affine(),
    {
        self.global_transform
    }
}

} // verus!
