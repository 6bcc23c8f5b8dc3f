pub mod canonical;
pub mod date;
pub mod fetch;
pub mod grouping;
pub mod item;
pub mod naming;
