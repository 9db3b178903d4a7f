pub mod list1;
pub mod list2;
pub mod sequence;
pub mod text;
