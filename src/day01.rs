pub mod ex1;
pub mod list_distance;
