//! Multi-dimensional PostgreSQL arrays: an n-dimensional array type stored in
//! row-major order, its conversions to and from nested vectors, and the
//! binary wire format that PostgreSQL uses for array values.

pub mod shape;
pub mod ndarray;
pub mod text;
pub mod wire;
pub mod nested;
pub mod laws;

pub use ndarray::NdArray;
pub use nested::{Vec2, Vec3, Vec4, Vec5, Vec6};
pub use text::{non_rectangular_error, shape_mismatch_error, wrong_dim_error};
pub use wire::{
    array_to_sql, array_type_metadata, try_decode_vec, vec_from_sql, vec_to_sql, ArrayDecodeError,
    ArrayEncodeError, DecodeStop, NestedFromSqlError, PgTypeOids,
};
