pub mod ex6;
