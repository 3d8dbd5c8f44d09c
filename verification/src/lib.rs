// A small stack language: a lexer, a parser and an interpreter with a value
// stack, a stack of counted loops and an environment of words and variables.
//
// `text`           characters, and numbers written in decimal and hexadecimal
// `lexer`          tokens, and the text that they are read from
// `parser`         trees, and the tokens that they are read from
// `stack_machine`  values, the operations on the stack, the faults of a run
// `context`        scopes that bind names to words and values
// `interpreter`    what evaluating a tree leads to
// `stacky`         the three together, from a text to what it writes
// `opcode`         operation codes
// `invariants`     what holds of every evaluation
// `laws`           what holds of the programs `a b op .`, of words and loops
// `printing`       that what is written is read back
// `examples`       the specifications worked out on given programs

pub mod text;
pub mod opcode;
pub mod lexer;
pub mod parser;
pub mod stack_machine;
pub mod context;
pub mod interpreter;
pub mod stacky;
pub mod invariants;
pub mod laws;
pub mod printing;
pub mod examples;
