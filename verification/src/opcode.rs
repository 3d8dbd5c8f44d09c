use vstd::prelude::*;

verus! {

/// The operation codes of the instruction set.
#[allow(non_camel_case_types)]
#[derive(Debug, Clone, Copy, PartialEq, Eq)]
pub enum Opcode {
    NUMBER,
    ADD,
    SUB,
    PRINT,
    MUL,
    DIV,
    DUP,
    SWAP,
    DROP,
    EMIT,
    WORD,
    EQ,
    LT,
    GT,
    COLON,
    SEMICOLON,
    DEBUG_STACK,
    DEBUG_DICT,
    EOF,
    IF,
    ELSE,
    THEN,
    IF_WORD,
    PUTS,
    STRING,
    AND,
    OR,
    INVERT,
    MOD,
    DO,
    LOOP,
    CR,
}

} // verus!
