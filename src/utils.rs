use vstd::prelude::*;

verus! {

/// Lossless conversion of an unsigned integer to `usize`, available for the
/// widths that `usize` holds on the supported 64-bit targets.
pub trait IntoUsize: Sized {
    spec fn spec_value(self) -> int;

    /// Convert to usize; the numeric value is kept. On the supported
    /// targets `usize` is 64 bits wide, so the bound always holds there.
    fn as_usize(self) -> (r: usize)
        requires
            self.spec_value() <= usize::MAX,
        ensures
            r as int == self.spec_value(),
    ;
}

impl IntoUsize for u64 {
    open spec fn spec_value(self) -> int {
        self as int
    }

    fn as_usize(self) -> (r: usize) {
        self as usize
    }
}

impl IntoUsize for u32 {
    open spec fn spec_value(self) -> int {
        self as int
    }

    fn as_usize(self) -> (r: usize) {
        self as usize
    }
}

impl IntoUsize for u16 {
    open spec fn spec_value(self) -> int {
        self as int
    }

    fn as_usize(self) -> (r: usize) {
        self as usize
    }
}

impl IntoUsize for u8 {
    open spec fn spec_value(self) -> int {
        self as int
    }

    fn as_usize(self) -> (r: usize) {
        self as usize
    }
}

} // verus!
