pub mod ex7;
