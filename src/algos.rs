pub mod naive;
