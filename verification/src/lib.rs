pub mod text;
pub mod word;
pub mod ukkonen;
pub mod suffix_array;
pub mod naive;
