pub mod ex8;
