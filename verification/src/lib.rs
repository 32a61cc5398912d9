pub mod gatypes;
pub mod problem;
pub mod random;
pub mod order;
pub mod dominance;
pub mod genetic_operators;
pub mod genetic_algorithms_v2;
pub mod nsga3;
pub mod islands;
pub mod gpu_evaluator;
