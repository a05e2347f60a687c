//! Spatial data as the scene graph carries it.
//!
//! The graph stores, copies and hands on positions, rotations and matrices but
//! never computes with them. Every real number here is therefore held as the
//! 32 bits of its IEEE-754 single-precision encoding, and is moved bit for bit.

use vstd::prelude::*;

verus! {

/// The encoding of the real number zero.
pub const ZERO: u32 = 0;

/// The encoding of the real number one.
pub const ONE: u32 = 0x3F80_0000;

/// Three encoded reals.
#[derive(Clone, Copy, Debug, PartialEq, Eq, Structural)]
pub struct Vector3 {
    pub x: u32,
    pub y: u32,
    pub z: u32,
}

/// Four encoded reals: the vector part `i, j, k` and the scalar part `w` of a
/// rotation.
#[derive(Clone, Copy, Debug, PartialEq, Eq, Structural)]
pub struct Quaternion {
    pub i: u32,
    pub j: u32,
    pub k: u32,
    pub w: u32,
}

/// A node's placement in the space of its parent.
#[derive(Clone, Copy, Debug, PartialEq, Eq, Structural)]
pub struct Transform {
    pub position: Vector3,
    pub rotation: Quaternion,
    pub scale: Vector3,
}

/// A four-by-four matrix of encoded reals, column after column: cell
/// `4 * c + r` is row `r` of column `c`.
#[derive(Clone, Copy, Debug, PartialEq, Eq)]
pub struct Matrix4 {
    pub cells: [u32; 16],
}

impl Transform {
    /// The placement that moves, turns and scales nothing.
    pub open spec fn spec_identity() -> Transform {
        Transform {
            position: Vector3 { x: ZERO, y: ZERO, z: ZERO },
            rotation: Quaternion { i: ZERO, j: ZERO, k: ZERO, w: ONE },
            scale: Vector3 { x: ONE, y: ONE, z: ONE },
        }
    }

    /// The placement that moves, turns and scales nothing.
    #[verifier::when_used_as_spec(spec_identity)]
    pub fn identity() -> (t: Transform)
        ensures
            t == Transform::spec_identity(),
    {
        Transform {
            position: Vector3 { x: ZERO, y: ZERO, z: ZERO },
            rotation: Quaternion { i: ZERO, j: ZERO, k: ZERO, w: ONE },
            scale: Vector3 { x: ONE, y: ONE, z: ONE },
        }
    }
}

impl Matrix4 {
    /// The identity matrix: one on the diagonal, zero elsewhere.
    pub open spec fn spec_identity() -> Matrix4 {
        Matrix4 {
            cells: [
                ONE, ZERO, ZERO, ZERO,
                ZERO, ONE, ZERO, ZERO,
                ZERO, ZERO, ONE, ZERO,
                ZERO, ZERO, ZERO, ONE,
            ],
        }
    }

    /// The identity matrix.
    #[verifier::when_used_as_spec(spec_identity)]
    pub fn identity() -> (m: Matrix4)
        ensures
            m == Matrix4::spec_identity(),
    {
        Matrix4 {
            cells: [
                ONE, ZERO, ZERO, ZERO,
                ZERO, ONE, ZERO, ZERO,
                ZERO, ZERO, ONE, ZERO,
                ZERO, ZERO, ZERO, ONE,
            ],
        }
    }

    /// The first column's upper three cells: the "side" axis of the basis.
    pub fn side(&self) -> (v: Vector3)
        ensures
            v == (Vector3 { x: self.cells@[0], y: self.cells@[1], z: self.cells@[2] }),
    {
        basis_side(self)
    }

    /// The second column's upper three cells: the "up" axis of the basis.
    pub fn up(&self) -> (v: Vector3)
        ensures
            v == (Vector3 { x: self.cells@[4], y: self.cells@[5], z: self.cells@[6] }),
    {
        basis_up(self)
    }

    /// The third column's upper three cells: the "look" axis of the basis.
    pub fn look(&self) -> (v: Vector3)
        ensures
            v == (Vector3 { x: self.cells@[8], y: self.cells@[9], z: self.cells@[10] }),
    {
        basis_look(self)
    }

    /// The fourth column's upper three cells: the translation.
    pub fn position(&self) -> (v: Vector3)
        ensures
            v == (Vector3 { x: self.cells@[12], y: self.cells@[13], z: self.cells@[14] }),
    {
        basis_position(self)
    }
}

/// Calls `rg3d_core::math::Matrix4Ext::side` on the matrix with these cells.
/// Trusted: the result holds cells 0, 1 and 2, in this order.
#[verifier::external_body]
fn basis_side(m: &Matrix4) -> (v: Vector3)
    ensures
        v == (Vector3 { x: m.cells@[0], y: m.cells@[1], z: m.cells@[2] }),
{
    let matrix = rg3d_core::algebra::Matrix4::from_column_slice(&m.cells);
    let axis = rg3d_core::math::Matrix4Ext::side(&matrix);
    Vector3 { x: axis.x, y: axis.y, z: axis.z }
}

/// Calls `rg3d_core::math::Matrix4Ext::up` on the matrix with these cells.
/// Trusted: the result holds cells 4, 5 and 6, in this order.
#[verifier::external_body]
fn basis_up(m: &Matrix4) -> (v: Vector3)
    ensures
        v == (Vector3 { x: m.cells@[4], y: m.cells@[5], z: m.cells@[6] }),
{
    let matrix = rg3d_core::algebra::Matrix4::from_column_slice(&m.cells);
    let axis = rg3d_core::math::Matrix4Ext::up(&matrix);
    Vector3 { x: axis.x, y: axis.y, z: axis.z }
}

/// Calls `rg3d_core::math::Matrix4Ext::look` on the matrix with these cells.
/// Trusted: the result holds cells 8, 9 and 10, in this order.
#[verifier::external_body]
fn basis_look(m: &Matrix4) -> (v: Vector3)
    ensures
        v == (Vector3 { x: m.cells@[8], y: m.cells@[9], z: m.cells@[10] }),
{
    let matrix = rg3d_core::algebra::Matrix4::from_column_slice(&m.cells);
    let axis = rg3d_core::math::Matrix4Ext::look(&matrix);
    Vector3 { x: axis.x, y: axis.y, z: axis.z }
}

/// Calls `rg3d_core::math::Matrix4Ext::position` on the matrix with these
/// cells. Trusted: the result holds cells 12, 13 and 14, in this order.
#[verifier::external_body]
fn basis_position(m: &Matrix4) -> (v: Vector3)
    ensures
        v == (Vector3 { x: m.cells@[12], y: m.cells@[13], z: m.cells@[14] }),
{
    let matrix = rg3d_core::algebra::Matrix4::from_column_slice(&m.cells);
    let axis = rg3d_core::math::Matrix4Ext::position(&matrix);
    Vector3 { x: axis.x, y: axis.y, z: axis.z }
}

} // verus!
