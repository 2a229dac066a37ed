pub mod ex2;
