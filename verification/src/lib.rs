//! A small linear-algebra kernel: vectors and matrices over a generic scalar
//! field, with the classical reduction algorithms - row echelon form,
//! reduced row echelon form, determinant, rank, and matrix inverse by
//! Gauss-Jordan elimination - each carrying a proved contract, together with
//! proofs of the laws the reductions obey.

pub mod error;
pub mod numeric;
pub mod field;
pub mod nt;
pub mod fp;
pub mod vector;
pub mod matrix;
pub mod row_echelon_form;
pub mod determinant;
pub mod rank;
pub mod inverse;
pub mod cross_product;
pub mod linear_combinations;
pub mod matrix_multiplication;
pub mod trace;
pub mod transpose;
pub mod echelon_props;
pub mod inverse_props;
pub mod product_props;
