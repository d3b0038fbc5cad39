pub mod linalg;
pub mod operators;
pub mod shape;
pub mod tensor;
