pub mod ex4;
