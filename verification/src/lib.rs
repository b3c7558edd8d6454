//! Reconstructs Luau source from functions in bytecode: reads the code words of a function as
//! statements, recovers their structure, tidies them and prints them.

// Strings, sets and maps of strings.
pub mod text;
pub mod names;
pub mod maps;
pub mod idents;

// The syntax tree and its printer.
pub mod ast;
pub mod numbers;
pub mod render;

// Questions about trees, and rewriting to a fixed point.
pub mod weight;
pub mod query;
pub mod naming;
pub mod conditions;
pub mod jumps;
pub mod paths;
pub mod routing;
pub mod flow;
pub mod rules;
pub mod meaning;

// Passes that replace jumps by structure.
pub mod skips;
pub mod loop_exits;
pub mod labeled_bodies;
pub mod orphans;
pub mod joins;
pub mod back_loops;
pub mod gates;
pub mod function_ends;
pub mod sweeps;
pub mod and_or;

// Passes on values and variables, and what they keep.
pub mod markers;
pub mod simplify;
pub mod liveness;
pub mod inline;
pub mod dead_stores;
pub mod locals;
pub mod tables;
pub mod split;
pub mod effects;
pub mod order;
pub mod inlining;
pub mod splitting;
pub mod selection;
pub mod removal;
pub mod logic;
pub mod landing;
pub mod leaving;
pub mod repeating;
pub mod entering;

// From code words to statements.
pub mod bytecode;
pub mod machine;
pub mod step;
pub mod structure;
pub mod entry;
pub mod vm;
pub mod straight;
pub mod control;
pub mod loops;

// Function literals.
pub mod closures;
pub mod upvalues;
pub mod captures;

// The whole way of a function, what it keeps, and what is said of it.
pub mod pipeline;
pub mod protected;
pub mod report;
