//! A fixed-width two's-complement arithmetic engine built from single-bit
//! logic gates: a `Bit` type with AND/OR/XOR/NOT, and a 32-bit `Byte` word
//! type whose arithmetic (addition, subtraction, multiplication, division,
//! exponentiation, logarithm, shifts, comparisons, decimal conversion) is
//! built entirely from repeated gate application.

pub mod bit;
pub mod byte;
pub mod model;
