pub mod combinations;
pub mod dimacs;
pub mod num_comp;
pub mod sat;
