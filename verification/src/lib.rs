//! RaptorQ (RFC 6330) building blocks: GF(256) arithmetic, symbol storage,
//! binary and octet matrices, and the intermediate-symbol solver.

pub mod octet;
pub mod octets;
pub mod symbol_slab;
pub mod sparse_spec;
pub mod sparse_vec;
pub mod octet_matrix;
pub mod gf2;
pub mod operation_vector;
pub mod linear_system;
pub mod pi_solver;
pub mod matrix;
pub mod sparse_matrix;
pub mod util;
pub mod row_buckets;
pub mod binary_solve;
pub mod bucketed_solve;
pub mod prefix_solve;
pub mod hybrid_rows;
pub mod hybrid_solve;
pub mod constraint_matrix;
