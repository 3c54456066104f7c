pub mod selector;
pub mod ucb1;
