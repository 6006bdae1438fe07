//! Pose and matrix values carried as exact machine words.
//!
//! The engine's logic never inspects the numeric content of a pose: it only
//! copies poses, composes them and packs them into instance records. Each
//! value is therefore held as the bit pattern of its IEEE-754 components, a
//! plain-word form with exact equality, and the arithmetic itself is done by
//! glam behind trusted wrappers. Each wrapper's result is a pure function of
//! its arguments, named by an uninterpreted spec function so that contracts
//! up the stack can speak about it exactly.

use vstd::prelude::*;

verus! {

/// A local pose: translation (words 0..3), rotation quaternion `xyzw`
/// (words 3..7) and scale (words 7..10), each component an `f32` bit
/// pattern.
#[derive(Clone, Copy)]
pub struct Transform {
    pub w: [u32; 10],
}

impl View for Transform {
    type V = Seq<u32>;

    open spec fn view(&self) -> Seq<u32> {
        self.w@
    }
}

impl Transform {
    /// Assemble a pose from translation, rotation and scale component words.
    pub fn new(translation: [u32; 3], rotation: [u32; 4], scale: [u32; 3]) -> (r: Transform)
        ensures
            r@ == translation@ + rotation@ + scale@,
    {
        let r = Transform {
            w: [
                translation[0],
                translation[1],
                translation[2],
                rotation[0],
                rotation[1],
                rotation[2],
                rotation[3],
                scale[0],
                scale[1],
                scale[2],
            ],
        };
        proof {
            assert(r@ =~= translation@ + rotation@ + scale@);
        }
        r
    }
}

/// A world-space affine map in column order, as produced by
/// `glam::Affine3A::to_cols_array`: three basis columns then the
/// translation column (words 9..12), each component an `f32` bit pattern.
#[derive(Clone, Copy)]
pub struct Affine {
    pub w: [u32; 12],
}

impl View for Affine {
    type V = Seq<u32>;

    open spec fn view(&self) -> Seq<u32> {
        self.w@
    }
}

/// The translation column of an affine map's words.
pub open spec fn translation_of(a: Seq<u32>) -> Seq<u32> {
    seq![a[9], a[10], a[11]]
}

impl Affine {
    pub fn from_words(w: [u32; 12]) -> (r: Affine)
        ensures
            r@ == w@,
    {
        Affine { w }
    }

    /// The translation column of the map.
    pub fn translation(&self) -> (r: [u32; 3])
        ensures
            r@ == translation_of(self@),
    {
        let r = [self.w[9], self.w[10], self.w[11]];
        proof {
            assert(r@ =~= translation_of(self@));
        }
        r
    }
}

/// A packed homogeneous 4x4 matrix in column order, 16 `f32` bit patterns.
#[derive(Clone, Copy)]
pub struct Mat4Words {
    pub w: [u32; 16],
}

impl View for Mat4Words {
    type V = Seq<u32>;

    open spec fn view(&self) -> Seq<u32> {
        self.w@
    }
}

/// A packed 3x3 normal matrix in column order, 9 `f32` bit patterns.
#[derive(Clone, Copy)]
pub struct Mat3Words {
    pub w: [u32; 9],
}

impl View for Mat3Words {
    type V = Seq<u32>;

    open spec fn view(&self) -> Seq<u32> {
        self.w@
    }
}

/// The affine form of a local pose, as computed by
/// `glam::Affine3A::from_scale_rotation_translation`.
pub uninterp spec fn affine_of(t: Seq<u32>) -> Seq<u32>;

/// The composition `a * b` of two affine maps, as computed by glam.
pub uninterp spec fn compose_of(a: Seq<u32>, b: Seq<u32>) -> Seq<u32>;

/// The homogeneous 4x4 matrix form of an affine map.
pub uninterp spec fn matrix_of(a: Seq<u32>) -> Seq<u32>;

/// The 3x3 normal matrix derived from the rotation component of an affine
/// map (scale and translation discarded).
pub uninterp spec fn normal_of(a: Seq<u32>) -> Seq<u32>;

/// The affine map that makes a panel at `eye` face `center`, with `+Y` up.
pub uninterp spec fn look_at_of(eye: Seq<u32>, center: Seq<u32>) -> Seq<u32>;

/// Relies on `glam::Affine3A::from_scale_rotation_translation`: the result
/// depends on the pose components alone. `bytemuck::cast` moves the
/// components between their bit-pattern form and glam's own, one for one.
#[verifier::external_body]
pub fn to_affine(t: &Transform) -> (r: Affine)
    ensures
        r@ == affine_of(t@),
{
    let a = glam::Affine3A::from_scale_rotation_translation(
        glam::Vec3::from_array(bytemuck::cast([t.w[7], t.w[8], t.w[9]])),
        glam::Quat::from_array(bytemuck::cast([t.w[3], t.w[4], t.w[5], t.w[6]])),
        glam::Vec3::from_array(bytemuck::cast([t.w[0], t.w[1], t.w[2]])),
    );
    Affine { w: bytemuck::cast(a.to_cols_array()) }
}

/// Relies on `glam::Affine3A`'s `Mul` impl: the composition depends on the
/// two maps alone.
#[verifier::external_body]
pub fn compose(a: &Affine, b: &Affine) -> (r: Affine)
    ensures
        r@ == compose_of(a@, b@),
{
    let ga = glam::Affine3A::from_cols_array(&bytemuck::cast(a.w));
    let gb = glam::Affine3A::from_cols_array(&bytemuck::cast(b.w));
    Affine { w: bytemuck::cast((ga * gb).to_cols_array()) }
}

/// Relies on `glam`'s `From<Affine3A> for Mat4`: the matrix form depends on
/// the map alone.
#[verifier::external_body]
pub fn to_matrix(a: &Affine) -> (r: Mat4Words)
    ensures
        r@ == matrix_of(a@),
{
    let ga = glam::Affine3A::from_cols_array(&bytemuck::cast(a.w));
    Mat4Words { w: bytemuck::cast(glam::Mat4::from(ga).to_cols_array()) }
}

/// Relies on `glam::Affine3A::to_scale_rotation_translation` and
/// `glam::Mat3::from_quat`: the normal matrix depends on the map alone.
#[verifier::external_body]
pub fn normal_matrix(a: &Affine) -> (r: Mat3Words)
    ensures
        r@ == normal_of(a@),
{
    let ga = glam::Affine3A::from_cols_array(&bytemuck::cast(a.w));
    let rotation = ga.to_scale_rotation_translation().1;
    Mat3Words { w: bytemuck::cast(glam::Mat3::from_quat(rotation).to_cols_array()) }
}

/// Relies on `glam::camera::lh::view::look_at_affine3a` with `+Y` up: the
/// facing map depends on the two points alone.
#[verifier::external_body]
pub fn look_at(eye: &[u32; 3], center: &[u32; 3]) -> (r: Affine)
    ensures
        r@ == look_at_of(eye@, center@),
{
    let a = glam::camera::lh::view::look_at_affine3a(
        glam::Vec3::from_array(bytemuck::cast(*eye)),
        glam::Vec3::from_array(bytemuck::cast(*center)),
        glam::Vec3::Y,
    );
    Affine { w: bytemuck::cast(a.to_cols_array()) }
}

} // verus!
