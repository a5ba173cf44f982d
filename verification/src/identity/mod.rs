pub mod consistency;
pub mod equality;
pub mod inference;
