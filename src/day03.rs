pub mod ex3;
