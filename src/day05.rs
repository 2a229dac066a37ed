pub mod ex5;
