//! Values and constants of the host virtual machine that the compiler reads.
use vstd::prelude::*;

verus! {

/// A tagged value of the virtual machine.
pub type VALUE = u64;

/// A method id.
pub type ID = u64;

/// Class flag under which the redefinition of basic operators is tracked.
pub type RedefinitionFlag = u32;

/// A basic operator.
pub type ruby_basic_operators = u32;

pub const INTEGER_REDEFINED_OP_FLAG: RedefinitionFlag = 1;
pub const FLOAT_REDEFINED_OP_FLAG: RedefinitionFlag = 2;
pub const STRING_REDEFINED_OP_FLAG: RedefinitionFlag = 4;
pub const ARRAY_REDEFINED_OP_FLAG: RedefinitionFlag = 8;
pub const HASH_REDEFINED_OP_FLAG: RedefinitionFlag = 16;

pub const BOP_PLUS: ruby_basic_operators = 0;
pub const BOP_MINUS: ruby_basic_operators = 1;
pub const BOP_MULT: ruby_basic_operators = 2;
pub const BOP_DIV: ruby_basic_operators = 3;
pub const BOP_MOD: ruby_basic_operators = 4;
pub const BOP_EQ: ruby_basic_operators = 5;
pub const BOP_LT: ruby_basic_operators = 7;

/// Header shared by every heap object.
#[derive(Clone, Copy, PartialEq, Eq, Structural, Debug)]
pub struct RBasic {
    pub flags: VALUE,
    pub klass: VALUE,
}

} // verus!
