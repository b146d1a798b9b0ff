//! Built-in shader types and the literals that name them.

use vstd::prelude::*;
use vstd::string::*;

verus! {

/// A shader value type.
#[derive(Clone, Copy, Debug, PartialEq, Eq, Structural, Hash)]
pub enum Ty {
    Void,
    Bool,
    Int,
    Float,
    Bvec2,
    Bvec3,
    Bvec4,
    Ivec2,
    Ivec3,
    Ivec4,
    Vec2,
    Vec3,
    Vec4,
    Mat2,
    Mat3,
    Mat4,
    Texture2D,
}

/// The name of a built-in type as it is written in shader source.
#[derive(Clone, Copy, Debug, PartialEq, Eq, Structural, Hash, PartialOrd, Ord)]
pub enum TyLit {
    Bool,
    Int,
    Float,
    Bvec2,
    Bvec3,
    Bvec4,
    Ivec2,
    Ivec3,
    Ivec4,
    Vec2,
    Vec3,
    Vec4,
    Mat2,
    Mat3,
    Mat4,
    Texture2D,
}

impl TyLit {
    /// The type that this literal names.
    pub open spec fn ty(self) -> Ty {
        match self {
            TyLit::Bool => Ty::Bool,
            TyLit::Int => Ty::Int,
            TyLit::Float => Ty::Float,
            TyLit::Bvec2 => Ty::Bvec2,
            TyLit::Bvec3 => Ty::Bvec3,
            TyLit::Bvec4 => Ty::Bvec4,
            TyLit::Ivec2 => Ty::Ivec2,
            TyLit::Ivec3 => Ty::Ivec3,
            TyLit::Ivec4 => Ty::Ivec4,
            TyLit::Vec2 => Ty::Vec2,
            TyLit::Vec3 => Ty::Vec3,
            TyLit::Vec4 => Ty::Vec4,
            TyLit::Mat2 => Ty::Mat2,
            TyLit::Mat3 => Ty::Mat3,
            TyLit::Mat4 => Ty::Mat4,
            TyLit::Texture2D => Ty::Texture2D,
        }
    }

    /// The literal as it is written in shader source.
    pub open spec fn spelling(self) -> Seq<char> {
        match self {
            TyLit::Bool => "bool"@,
            TyLit::Int => "int"@,
            TyLit::Float => "float"@,
            TyLit::Bvec2 => "bvec2"@,
            TyLit::Bvec3 => "bvec3"@,
            TyLit::Bvec4 => "bvec4"@,
            TyLit::Ivec2 => "ivec2"@,
            TyLit::Ivec3 => "ivec3"@,
            TyLit::Ivec4 => "ivec4"@,
            TyLit::Vec2 => "vec2"@,
            TyLit::Vec3 => "vec3"@,
            TyLit::Vec4 => "vec4"@,
            TyLit::Mat2 => "mat2"@,
            TyLit::Mat3 => "mat3"@,
            TyLit::Mat4 => "mat4"@,
            TyLit::Texture2D => "texture2D"@,
        }
    }

    /// The literal as it is written in shader source.
    pub fn as_str(self) -> (text: &'static str)
        ensures
            text@ == self.spelling(),
    {
        match self {
            TyLit::Bool => "bool",
            TyLit::Int => "int",
            TyLit::Float => "float",
            TyLit::Bvec2 => "bvec2",
            TyLit::Bvec3 => "bvec3",
            TyLit::Bvec4 => "bvec4",
            TyLit::Ivec2 => "ivec2",
            TyLit::Ivec3 => "ivec3",
            TyLit::Ivec4 => "ivec4",
            TyLit::Vec2 => "vec2",
            TyLit::Vec3 => "vec3",
            TyLit::Vec4 => "vec4",
            TyLit::Mat2 => "mat2",
            TyLit::Mat3 => "mat3",
            TyLit::Mat4 => "mat4",
            TyLit::Texture2D => "texture2D",
        }
    }

    /// The literal as a string of its own.
    pub fn to_string(self) -> (text: String)
        ensures
            text@ == self.spelling(),
    {
        String::from_str(self.as_str())
    }

    /// The type that the literal names.
    pub fn to_ty(self) -> (ty: Ty)
        ensures
            ty == self.ty(),
    {
        match self {
            TyLit::Bool => Ty::Bool,
            TyLit::Int => Ty::Int,
            TyLit::Float => Ty::Float,
            TyLit::Bvec2 => Ty::Bvec2,
            TyLit::Bvec3 => Ty::Bvec3,
            TyLit::Bvec4 => Ty::Bvec4,
            TyLit::Ivec2 => Ty::Ivec2,
            TyLit::Ivec3 => Ty::Ivec3,
            TyLit::Ivec4 => Ty::Ivec4,
            TyLit::Vec2 => Ty::Vec2,
            TyLit::Vec3 => Ty::Vec3,
            TyLit::Vec4 => Ty::Vec4,
            TyLit::Mat2 => Ty::Mat2,
            TyLit::Mat3 => Ty::Mat3,
            TyLit::Mat4 => Ty::Mat4,
            TyLit::Texture2D => Ty::Texture2D,
        }
    }
}

} // verus!
