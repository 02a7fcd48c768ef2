pub mod ansi;
pub mod arith;
pub mod bars;
pub mod duration;
pub mod durations;
pub mod experiment;
pub mod experiment_map;
pub mod experiment_name;
pub mod frag;
pub mod linear_map;
pub mod measure;
pub mod measure_key;
pub mod measure_map;
pub mod mem_usage;
pub mod number;
pub mod numbers;
pub mod opts;
pub mod orchestrator;
pub mod quote_args;
pub mod render;
pub mod shell;
pub mod sorted;
pub mod stats;
pub mod student;
pub mod test;
pub mod test_name;
pub mod text;
