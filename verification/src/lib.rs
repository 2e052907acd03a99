pub mod cli;
pub mod csp;
pub mod explicit;
pub mod jolka;
pub mod jolka_parser;
pub mod solvers;
pub mod sudoku;
pub mod sudoku_parser;
