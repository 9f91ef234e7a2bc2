//! Abstract type contexts: the key under which compiled block versions are
//! specialized.
use vstd::prelude::*;

verus! {

/// Abstract type of a value tracked by the code generator. The lattice has
/// `Unknown` at the top, the two "kind only" types `UnknownImm` and
/// `UnknownHeap` below it, and the exact types at the bottom.
#[derive(Clone, Copy, PartialEq, Eq, Structural, Debug)]
pub enum Type {
    Unknown,
    UnknownImm,
    UnknownHeap,
    Nil,
    True,
    False,
    Fixnum,
    Array,
    Hash,
    Str,
}

/// Immediate (not heap allocated) types.
pub open spec fn is_imm(t: Type) -> bool {
    t == Type::UnknownImm || t == Type::Nil || t == Type::True || t == Type::False || t
        == Type::Fixnum
}

/// Heap allocated types.
pub open spec fn is_heap(t: Type) -> bool {
    t == Type::UnknownHeap || t == Type::Array || t == Type::Hash || t == Type::Str
}

/// `a` is equal to `b` or describes a superset of the values `b` describes.
pub open spec fn type_generalizes(a: Type, b: Type) -> bool {
    a == b || a == Type::Unknown || (a == Type::UnknownImm && is_imm(b)) || (a
        == Type::UnknownHeap && is_heap(b))
}

impl Type {
    /// Whether a version compiled for `self` may serve a value of type `other`.
    pub fn generalizes(self, other: Type) -> (r: bool)
        ensures
            r == type_generalizes(self, other),
    {
        match self {
            Type::Unknown => true,
            Type::UnknownImm => match other {
                Type::UnknownImm | Type::Nil | Type::True | Type::False | Type::Fixnum => true,
                _ => false,
            },
            Type::UnknownHeap => match other {
                Type::UnknownHeap | Type::Array | Type::Hash | Type::Str => true,
                _ => false,
            },
            _ => self == other,
        }
    }
}

/// Mathematical model of a context.
pub struct CtxModel {
    pub self_type: Type,
    pub temps: Seq<Type>,
}

/// Every slot of `a` generalizes the slot of `b` at the same place.
pub open spec fn slots_generalize(a: Seq<Type>, b: Seq<Type>) -> bool {
    a.len() == b.len() && forall|i: int| 0 <= i < a.len() ==> type_generalizes(#[trigger] a[i], b[i])
}

/// A version compiled under `a` may serve a request under `b`.
pub open spec fn ctx_generalizes(a: CtxModel, b: CtxModel) -> bool {
    type_generalizes(a.self_type, b.self_type) && slots_generalize(a.temps, b.temps)
}

/// Number of places where two slot sequences of equal length differ.
pub open spec fn slots_diff(a: Seq<Type>, b: Seq<Type>) -> nat
    decreases a.len(),
{
    if a.len() == 0 || b.len() == 0 {
        0
    } else {
        slots_diff(a.drop_last(), b.drop_last()) + (if a.last() == b.last() {
            0nat
        } else {
            1nat
        })
    }
}

/// Distance between two contexts: the number of tracked values whose types
/// differ. Among the versions that can serve a request the closest is used.
pub open spec fn ctx_diff(a: CtxModel, b: CtxModel) -> nat {
    (if a.self_type == b.self_type {
        0nat
    } else {
        1nat
    }) + slots_diff(a.temps, b.temps)
}

/// The context of the same shape that knows nothing about any value.
pub open spec fn ctx_generic(c: CtxModel) -> CtxModel {
    CtxModel { self_type: Type::Unknown, temps: Seq::new(c.temps.len(), |i: int| Type::Unknown) }
}

/// Sequences of equal length with no differing place are equal.
pub proof fn lemma_slots_diff_zero(a: Seq<Type>, b: Seq<Type>)
    requires
        a.len() == b.len(),
        slots_diff(a, b) == 0,
    ensures
        a == b,
    decreases a.len(),
{
    if a.len() > 0 {
        lemma_slots_diff_zero(a.drop_last(), b.drop_last());
        assert(a == a.drop_last().push(a.last()));
        assert(b == b.drop_last().push(b.last()));
    } else {
        assert(a =~= b);
    }
}

/// Contexts of the same shape at distance zero are equal.
pub proof fn lemma_ctx_diff_zero(a: CtxModel, b: CtxModel)
    requires
        a.temps.len() == b.temps.len(),
        ctx_diff(a, b) == 0,
    ensures
        a == b,
{
    lemma_slots_diff_zero(a.temps, b.temps);
}

/// A context is at distance zero from itself.
pub proof fn lemma_ctx_diff_self(a: CtxModel)
    ensures
        ctx_diff(a, a) == 0,
{
    lemma_slots_diff_self(a.temps);
}

proof fn lemma_slots_diff_self(a: Seq<Type>)
    ensures
        slots_diff(a, a) == 0,
    decreases a.len(),
{
    if a.len() > 0 {
        lemma_slots_diff_self(a.drop_last());
    }
}

/// Abstract state of the values a block operates on: the type of `self` and
/// the types of the temporaries on the interpreter stack, bottom first.
#[derive(Debug)]
pub struct Context {
    pub self_type: Type,
    pub temps: Vec<Type>,
}

impl View for Context {
    type V = CtxModel;

    open spec fn view(&self) -> CtxModel {
        CtxModel { self_type: self.self_type, temps: self.temps@ }
    }
}

impl Context {
    /// Entry context of a block about which nothing is known.
    pub fn new() -> (r: Context)
        ensures
            r@.self_type == Type::Unknown,
            r@.temps.len() == 0,
    {
        Context { self_type: Type::Unknown, temps: Vec::new() }
    }

    /// Context with the given types.
    pub fn from_types(self_type: Type, temps: Vec<Type>) -> (r: Context)
        ensures
            r@ == (CtxModel { self_type, temps: temps@ }),
    {
        Context { self_type, temps }
    }

    pub fn get_self_type(&self) -> (r: Type)
        ensures
            r == self@.self_type,
    {
        self.self_type
    }

    pub fn stack_size(&self) -> (r: usize)
        ensures
            r == self@.temps.len(),
    {
        self.temps.len()
    }

    /// Type of the stack slot `i`, counted from the bottom.
    pub fn get_temp(&self, i: usize) -> (r: Type)
        requires
            i < self@.temps.len(),
        ensures
            r == self@.temps[i as int],
    {
        self.temps[i]
    }

    /// An independent copy.
    pub fn duplicate(&self) -> (r: Context)
        ensures
            r@ == self@,
    {
        let mut temps: Vec<Type> = Vec::new();
        let mut i: usize = 0;
        while i < self.temps.len()
            invariant
                i <= self.temps@.len(),
                temps@ == self.temps@.subrange(0, i as int),
            decreases self.temps@.len() - i,
        {
            temps.push(self.temps[i]);
            i = i + 1;
            assert(temps@ =~= self.temps@.subrange(0, i as int));
        }
        assert(temps@ =~= self.temps@);
        Context { self_type: self.self_type, temps }
    }

    /// The context of the same shape in which every type is unknown: the most
    /// general context that can serve a request under `self`.
    pub fn generic(&self) -> (r: Context)
        ensures
            r@ == ctx_generic(self@),
    {
        let mut temps: Vec<Type> = Vec::new();
        let mut i: usize = 0;
        while i < self.temps.len()
            invariant
                i <= self.temps@.len(),
                temps@.len() == i,
                forall|j: int| 0 <= j < i ==> temps@[j] == Type::Unknown,
            decreases self.temps@.len() - i,
        {
            temps.push(Type::Unknown);
            i = i + 1;
        }
        assert(temps@ =~= ctx_generic(self@).temps);
        Context { self_type: Type::Unknown, temps }
    }

    /// Record a value of type `t` pushed onto the stack.
    pub fn stack_push(&mut self, t: Type)
        ensures
            final(self)@ == (CtxModel { self_type: old(self)@.self_type, temps: old(self)@.temps.push(t) }),
    {
        self.temps.push(t);
    }

    /// Record that the top `n` values were popped.
    pub fn stack_pop(&mut self, n: usize)
        requires
            n <= old(self)@.temps.len(),
        ensures
            final(self)@ == (CtxModel {
                self_type: old(self)@.self_type,
                temps: old(self)@.temps.subrange(0, old(self)@.temps.len() - n),
            }),
    {
        let mut k: usize = 0;
        while k < n
            invariant
                k <= n,
                n <= old(self)@.temps.len(),
                self.self_type == old(self)@.self_type,
                self.temps@ == old(self)@.temps.subrange(0, old(self)@.temps.len() - k),
            decreases n - k,
        {
            self.temps.pop();
            k = k + 1;
            assert(self.temps@ =~= old(self)@.temps.subrange(0, old(self)@.temps.len() - k));
        }
    }

    /// Narrow the type of stack slot `i` after a check showed it has type
    /// `t`. A `t` that is not more specific than what is known is ignored.
    pub fn upgrade_temp(&mut self, i: usize, t: Type)
        requires
            i < old(self)@.temps.len(),
        ensures
            final(self)@.self_type == old(self)@.self_type,
            final(self)@.temps == (if type_generalizes(old(self)@.temps[i as int], t) {
                old(self)@.temps.update(i as int, t)
            } else {
                old(self)@.temps
            }),
    {
        if self.temps[i].generalizes(t) {
            self.temps.set(i, t);
        }
    }

    /// Forget what is known about stack slot `i`, after an operation whose
    /// effect on it cannot be tracked.
    pub fn clear_temp(&mut self, i: usize)
        requires
            i < old(self)@.temps.len(),
        ensures
            final(self)@ == (CtxModel {
                self_type: old(self)@.self_type,
                temps: old(self)@.temps.update(i as int, Type::Unknown),
            }),
    {
        self.temps.set(i, Type::Unknown);
    }

    /// Narrow the type of `self`; ignored if `t` is not more specific.
    pub fn upgrade_self_type(&mut self, t: Type)
        ensures
            final(self)@.temps == old(self)@.temps,
            final(self)@.self_type == (if type_generalizes(old(self)@.self_type, t) {
                t
            } else {
                old(self)@.self_type
            }),
    {
        if self.self_type.generalizes(t) {
            self.self_type = t;
        }
    }

    /// Whether a version compiled under `self` may serve a request under
    /// `other`.
    pub fn generalizes(&self, other: &Context) -> (r: bool)
        ensures
            r == ctx_generalizes(self@, other@),
    {
        if !self.self_type.generalizes(other.self_type) {
            return false;
        }
        if self.temps.len() != other.temps.len() {
            return false;
        }
        let mut i: usize = 0;
        while i < self.temps.len()
            invariant
                i <= self.temps@.len(),
                self.temps@.len() == other.temps@.len(),
                forall|j: int| 0 <= j < i ==> type_generalizes(self.temps@[j], other.temps@[j]),
            decreases self.temps@.len() - i,
        {
            if !self.temps[i].generalizes(other.temps[i]) {
                return false;
            }
            i = i + 1;
        }
        true
    }

    /// Distance to a context of the same shape.
    pub fn diff(&self, other: &Context) -> (r: usize)
        requires
            self@.temps.len() == other@.temps.len(),
            self@.temps.len() < usize::MAX,
        ensures
            r == ctx_diff(self@, other@),
    {
        let mut d: usize = if self.self_type == other.self_type {
            0
        } else {
            1
        };
        let mut i: usize = 0;
        while i < self.temps.len()
            invariant
                i <= self.temps@.len(),
                self.temps@.len() == other.temps@.len(),
                d == (if self.self_type == other.self_type {
                    0nat
                } else {
                    1nat
                }) + slots_diff(self.temps@.subrange(0, i as int), other.temps@.subrange(0, i as int)),
                d <= i + 1,
                self.temps@.len() < usize::MAX,
            decreases self.temps@.len() - i,
        {
            let ghost a = self.temps@.subrange(0, i + 1);
            let ghost b = other.temps@.subrange(0, i + 1);
            assert(a.drop_last() =~= self.temps@.subrange(0, i as int));
            assert(b.drop_last() =~= other.temps@.subrange(0, i as int));
            if self.temps[i] != other.temps[i] {
                d = d + 1;
            }
            i = i + 1;
        }
        assert(self.temps@.subrange(0, i as int) =~= self.temps@);
        assert(other.temps@.subrange(0, i as int) =~= other.temps@);
        d
    }

    /// Whether the two contexts are equal.
    pub fn same_as(&self, other: &Context) -> (r: bool)
        ensures
            r == (self@ == other@),
    {
        if self.self_type != other.self_type || self.temps.len() != other.temps.len() {
            return false;
        }
        let mut i: usize = 0;
        while i < self.temps.len()
            invariant
                i <= self.temps@.len(),
                self.temps@.len() == other.temps@.len(),
                self.self_type == other.self_type,
                forall|j: int| 0 <= j < i ==> self.temps@[j] == other.temps@[j],
            decreases self.temps@.len() - i,
        {
            if self.temps[i] != other.temps[i] {
                return false;
            }
            i = i + 1;
        }
        assert(self.temps@ =~= other.temps@);
        true
    }
}

} // verus!
