pub mod address_bound;
pub mod address_iterator;
pub mod addressable;
pub mod delimited;
pub mod matrix;
pub mod matrix_address;
pub mod mixed_radix;
pub mod tensor;
