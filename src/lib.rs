// An interpreter for a small expression language: a scanner turns source text
// into tokens, a single-pass precedence-climbing compiler turns the tokens into
// bytecode, and a stack machine runs the bytecode.
//
// Numbers are IEEE-754 binary64 values carried as their bit patterns. The
// library moves them, checks their kind and decides what to do with them; the
// floating-point work itself (reading a literal's value, arithmetic,
// comparison, display) is left to the embedding program: `compile` takes the
// literals' values, and the machine stops with a `NumericTask` and is resumed
// with its answer.
pub mod chunk;
pub mod compiler;
pub mod depth;
pub mod scanner;
pub mod value;
pub mod vm;
