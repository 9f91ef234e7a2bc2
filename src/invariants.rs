//! Tracking of the assumptions that compiled blocks make about the state of
//! the virtual machine, and invalidation of those blocks when an assumption
//! stops holding.
use vstd::prelude::*;
use crate::block::{Block, JitState, EXIT_LEN, only_exit_added};
use crate::cruby::{RedefinitionFlag, ruby_basic_operators, VALUE, ID};
use crate::stats::Counter;

verus! {

/// Identity of a runtime fact that blocks may depend on. Its two parts are,
/// by map: class flag and operator; method entry and zero; class and method
/// id.
#[derive(Clone, Copy, PartialEq, Eq, Structural, Debug)]
pub struct DepKey {
    pub a: u64,
    pub b: u64,
}

/// A block depending on a fact.
#[derive(Clone, Copy, PartialEq, Eq, Structural, Debug)]
pub struct Dep {
    pub key: DepKey,
    pub block: usize,
}

/// The blocks recorded for `k` in `s`, in order of recording.
pub open spec fn deps_blocks(s: Seq<Dep>, k: DepKey) -> Seq<usize>
    decreases s.len(),
{
    if s.len() == 0 {
        Seq::empty()
    } else {
        let r = deps_blocks(s.drop_last(), k);
        if s.last().key == k {
            r.push(s.last().block)
        } else {
            r
        }
    }
}

/// Records of a fact other than `k`.
pub open spec fn key_other(k: DepKey) -> spec_fn(Dep) -> bool {
    |d: Dep| d.key != k
}

/// Records of a block other than `b`.
pub open spec fn block_other(b: usize) -> spec_fn(Dep) -> bool {
    |d: Dep| d.block != b
}

/// Whether some block is recorded for `k`.
pub open spec fn key_present(s: Seq<Dep>, k: DepKey) -> bool {
    exists|i: int| 0 <= i < s.len() && (#[trigger] s[i]).key == k
}

/// A block is recorded for `k` exactly when a record pairs them.
pub proof fn lemma_deps_blocks_contains(s: Seq<Dep>, k: DepKey, blk: usize)
    ensures
        deps_blocks(s, k).contains(blk) <==> exists|i: int|
            0 <= i < s.len() && #[trigger] s[i] == (Dep { key: k, block: blk }),
    decreases s.len(),
{
    if s.len() > 0 {
        let t = s.drop_last();
        let d = Dep { key: k, block: blk };
        lemma_deps_blocks_contains(t, k, blk);
        let rt = deps_blocks(t, k);
        let rs = deps_blocks(s, k);
        if rs.contains(blk) {
            if rt.contains(blk) {
                let i = choose|i: int| 0 <= i < t.len() && #[trigger] t[i] == d;
                assert(s[i] == t[i]);
            } else {
                assert(s.last().key == k);
                let j = choose|j: int| 0 <= j < rs.len() && rs[j] == blk;
                assert(j == rt.len());
                assert(s[s.len() - 1] == d);
            }
        }
        if exists|i: int| 0 <= i < s.len() && #[trigger] s[i] == d {
            let i = choose|i: int| 0 <= i < s.len() && #[trigger] s[i] == d;
            if i < s.len() - 1 {
                assert(t[i] == s[i]);
                assert(rt.contains(blk));
                let j = choose|j: int| 0 <= j < rt.len() && rt[j] == blk;
                if s.last().key == k {
                    assert(rs[j] == blk);
                }
            } else {
                assert(rs == rt.push(blk));
                assert(rs[rs.len() - 1] == blk);
            }
        }
    }
}

/// No block is recorded for `k` exactly when `k` is absent.
pub proof fn lemma_deps_blocks_empty(s: Seq<Dep>, k: DepKey)
    ensures
        (deps_blocks(s, k).len() == 0) <==> !key_present(s, k),
    decreases s.len(),
{
    if s.len() > 0 {
        let t = s.drop_last();
        lemma_deps_blocks_empty(t, k);
        if key_present(t, k) {
            let i = choose|i: int| 0 <= i < t.len() && (#[trigger] t[i]).key == k;
            assert(s[i] == t[i]);
        }
        if key_present(s, k) && s.last().key != k {
            let i = choose|i: int| 0 <= i < s.len() && (#[trigger] s[i]).key == k;
            assert(t[i] == s[i]);
        }
    }
}

/// What a filter keeps was in the sequence and passes the filter.
pub proof fn lemma_filter_sub(s: Seq<Dep>, f: spec_fn(Dep) -> bool)
    ensures
        forall|i: int|
            0 <= i < s.filter(f).len() ==> s.contains(#[trigger] s.filter(f)[i]) && f(
                s.filter(f)[i],
            ),
    decreases s.len(),
{
    reveal(Seq::filter);
    if s.len() > 0 {
        let t = s.drop_last();
        lemma_filter_sub(t, f);
        assert forall|i: int| 0 <= i < s.filter(f).len() implies s.contains(
            #[trigger] s.filter(f)[i],
        ) && f(s.filter(f)[i]) by {
            if i < t.filter(f).len() {
                let x = t.filter(f)[i];
                assert(s.filter(f)[i] == x);
                let j = choose|j: int| 0 <= j < t.len() && t[j] == x;
                assert(s[j] == x);
            } else {
                assert(s.filter(f)[i] == s[s.len() - 1]);
            }
        }
    }
}

/// A multi-map from facts to the blocks that depend on them, stored as the
/// list of its (fact, block) records. A fact with no dependent block has no
/// record, so forgetting the last dependent removes the fact.
#[derive(Debug)]
pub struct DepMap {
    pub deps: Vec<Dep>,
}

impl DepMap {
    pub fn new() -> (r: DepMap)
        ensures
            r.deps@ == Seq::<Dep>::empty(),
    {
        DepMap { deps: Vec::new() }
    }

    /// Record that `block` depends on `key`.
    pub fn add(&mut self, key: DepKey, block: usize)
        ensures
            final(self).deps@ == old(self).deps@.push(Dep { key, block }),
    {
        self.deps.push(Dep { key, block });
    }

    /// Whether `block` is recorded as depending on `key`.
    pub fn contains_record(&self, key: DepKey, block: usize) -> (r: bool)
        ensures
            r == self.deps@.contains(Dep { key, block }),
    {
        let mut i: usize = 0;
        while i < self.deps.len()
            invariant
                i <= self.deps@.len(),
                forall|j: int| 0 <= j < i ==> self.deps@[j] != (Dep { key, block }),
            decreases self.deps@.len() - i,
        {
            if self.deps[i].key == key && self.deps[i].block == block {
                assert(self.deps@[i as int] == Dep { key, block });
                return true;
            }
            i = i + 1;
        }
        false
    }

    /// Whether some block depends on `key`.
    pub fn contains_key(&self, key: DepKey) -> (r: bool)
        ensures
            r == key_present(self.deps@, key),
    {
        let mut i: usize = 0;
        while i < self.deps.len()
            invariant
                i <= self.deps@.len(),
                forall|j: int| 0 <= j < i ==> (#[trigger] self.deps@[j]).key != key,
            decreases self.deps@.len() - i,
        {
            if self.deps[i].key == key {
                return true;
            }
            i = i + 1;
        }
        false
    }

    /// The blocks that depend on `key`, in order of recording.
    pub fn blocks_for(&self, key: DepKey) -> (r: Vec<usize>)
        ensures
            r@ == deps_blocks(self.deps@, key),
    {
        let mut out: Vec<usize> = Vec::new();
        let mut i: usize = 0;
        while i < self.deps.len()
            invariant
                i <= self.deps@.len(),
                out@ == deps_blocks(self.deps@.subrange(0, i as int), key),
            decreases self.deps@.len() - i,
        {
            let ghost p = self.deps@.subrange(0, i + 1);
            assert(p.drop_last() =~= self.deps@.subrange(0, i as int));
            if self.deps[i].key == key {
                out.push(self.deps[i].block);
            }
            i = i + 1;
        }
        assert(self.deps@.subrange(0, i as int) =~= self.deps@);
        out
    }

    /// Remove every record of `key` and return the blocks they named.
    pub fn take(&mut self, key: DepKey) -> (r: Vec<usize>)
        ensures
            r@ == deps_blocks(old(self).deps@, key),
            final(self).deps@ == old(self).deps@.filter(key_other(key)),
    {
        let mut out: Vec<usize> = Vec::new();
        let mut kept: Vec<Dep> = Vec::new();
        let mut i: usize = 0;
        proof {
            reveal(Seq::filter);
        }
        while i < self.deps.len()
            invariant
                i <= self.deps@.len(),
                out@ == deps_blocks(self.deps@.subrange(0, i as int), key),
                kept@ == self.deps@.subrange(0, i as int).filter(key_other(key)),
            decreases self.deps@.len() - i,
        {
            let ghost p = self.deps@.subrange(0, i + 1);
            assert(p.drop_last() =~= self.deps@.subrange(0, i as int));
            proof {
                reveal(Seq::filter);
            }
            let d = self.deps[i];
            if d.key == key {
                out.push(d.block);
            } else {
                kept.push(d);
            }
            i = i + 1;
        }
        assert(self.deps@.subrange(0, i as int) =~= self.deps@);
        self.deps = kept;
        out
    }

    /// Forget every record that names `block`.
    pub fn remove_block(&mut self, block: usize)
        ensures
            final(self).deps@ == old(self).deps@.filter(block_other(block)),
    {
        let mut kept: Vec<Dep> = Vec::new();
        let mut i: usize = 0;
        proof {
            reveal(Seq::filter);
        }
        while i < self.deps.len()
            invariant
                i <= self.deps@.len(),
                kept@ == self.deps@.subrange(0, i as int).filter(block_other(block)),
            decreases self.deps@.len() - i,
        {
            let ghost p = self.deps@.subrange(0, i + 1);
            assert(p.drop_last() =~= self.deps@.subrange(0, i as int));
            proof {
                reveal(Seq::filter);
            }
            let d = self.deps[i];
            if d.block != block {
                kept.push(d);
            }
            i = i + 1;
        }
        assert(self.deps@.subrange(0, i as int) =~= self.deps@);
        self.deps = kept;
    }
}

/// Blocks that depend on a fact are live and can be sent back to the
/// interpreter at their entry.
pub open spec fn deps_ok(s: Seq<Dep>, bs: Seq<Block>) -> bool {
    forall|i: int|
        0 <= i < s.len() ==> {
            let b = (#[trigger] s[i]).block as int;
            &&& 0 <= b < bs.len()
            &&& bs[b].live
            &&& bs[b].entry_exit is Some
        }
}

/// The block sets of every fact that compiled code may rely on.
#[derive(Debug)]
pub struct Invariants {
    /// Blocks assuming a basic operator of a class is not redefined; keyed
    /// by class flag and operator.
    pub basic_operators: DepMap,
    /// Blocks assuming a callable method entry stays valid; keyed by the
    /// entry.
    pub cme_validity: DepMap,
    /// Blocks assuming method lookup of a method id in a class is stable;
    /// keyed by class and method id.
    pub method_lookup: DepMap,
    /// Blocks assuming a single execution context.
    pub single_ractor: DepMap,
    /// Blocks assuming the global constant state is unchanged.
    pub constant_state: DepMap,
}

impl Invariants {
    pub open spec fn refs_ok(&self, bs: Seq<Block>) -> bool {
        &&& deps_ok(self.basic_operators.deps@, bs)
        &&& deps_ok(self.cme_validity.deps@, bs)
        &&& deps_ok(self.method_lookup.deps@, bs)
        &&& deps_ok(self.single_ractor.deps@, bs)
        &&& deps_ok(self.constant_state.deps@, bs)
    }

    /// Forget every assumption that block `b` made.
    pub fn remove_block(&mut self, b: usize)
        ensures
            final(self).basic_operators.deps@ == old(self).basic_operators.deps@.filter(block_other(b)),
            final(self).cme_validity.deps@ == old(self).cme_validity.deps@.filter(block_other(b)),
            final(self).method_lookup.deps@ == old(self).method_lookup.deps@.filter(block_other(b)),
            final(self).single_ractor.deps@ == old(self).single_ractor.deps@.filter(block_other(b)),
            final(self).constant_state.deps@ == old(self).constant_state.deps@.filter(block_other(b)),
    {
        self.basic_operators.remove_block(b);
        self.cme_validity.remove_block(b);
        self.method_lookup.remove_block(b);
        self.single_ractor.remove_block(b);
        self.constant_state.remove_block(b);
    }

    /// No record of any map names block `b`.
    pub open spec fn no_record_of(&self, b: usize) -> bool {
        &&& forall|i: int|
            0 <= i < self.basic_operators.deps@.len() ==> (#[trigger] self.basic_operators.deps@[i]).block != b
        &&& forall|i: int|
            0 <= i < self.cme_validity.deps@.len() ==> (#[trigger] self.cme_validity.deps@[i]).block != b
        &&& forall|i: int|
            0 <= i < self.method_lookup.deps@.len() ==> (#[trigger] self.method_lookup.deps@[i]).block != b
        &&& forall|i: int|
            0 <= i < self.single_ractor.deps@.len() ==> (#[trigger] self.single_ractor.deps@[i]).block != b
        &&& forall|i: int|
            0 <= i < self.constant_state.deps@.len() ==> (#[trigger] self.constant_state.deps@[i]).block != b
    }

    /// Empty dependency maps.
    pub fn init() -> (r: Invariants)
        ensures
            r.basic_operators.deps@.len() == 0,
            r.cme_validity.deps@.len() == 0,
            r.method_lookup.deps@.len() == 0,
            r.single_ractor.deps@.len() == 0,
            r.constant_state.deps@.len() == 0,
    {
        Invariants {
            basic_operators: DepMap::new(),
            cme_validity: DepMap::new(),
            method_lookup: DepMap::new(),
            single_ractor: DepMap::new(),
            constant_state: DepMap::new(),
        }
    }
}

/// Records whose block is not listed in `l`.
pub open spec fn not_listed(l: Seq<usize>) -> spec_fn(Dep) -> bool {
    |d: Dep| !l.contains(d.block)
}

/// Filtering twice keeps what passes both filters.
pub proof fn lemma_filter_twice(s: Seq<Dep>, p: spec_fn(Dep) -> bool, q: spec_fn(Dep) -> bool)
    ensures
        s.filter(p).filter(q) == s.filter(|d: Dep| p(d) && q(d)),
    decreases s.len(),
{
    reveal(Seq::filter);
    if s.len() > 0 {
        lemma_filter_twice(s.drop_last(), p, q);
        let f1 = s.filter(p);
        if p(s.last()) {
            assert(f1.drop_last() == s.drop_last().filter(p));
        } else {
            assert(f1 == s.drop_last().filter(p));
        }
    }
}

/// A filter that every element passes changes nothing.
pub proof fn lemma_filter_all(s: Seq<Dep>, p: spec_fn(Dep) -> bool)
    requires
        forall|i: int| 0 <= i < s.len() ==> p(#[trigger] s[i]),
    ensures
        s.filter(p) == s,
    decreases s.len(),
{
    reveal(Seq::filter);
    if s.len() > 0 {
        lemma_filter_all(s.drop_last(), p);
        assert(s.drop_last().push(s.last()) =~= s);
    }
}

/// Dependency records stay valid across a change of the blocks that keeps
/// every live block with an entry exit so.
pub proof fn lemma_deps_ok_kept(s: Seq<Dep>, b1: Seq<Block>, b2: Seq<Block>)
    requires
        deps_ok(s, b1),
        b1.len() <= b2.len(),
        forall|j: int|
            0 <= j < b1.len() && #[trigger] b1[j].live && b1[j].entry_exit is Some ==> b2[j].live
                && b2[j].entry_exit is Some,
    ensures
        deps_ok(s, b2),
{
    assert forall|i: int| 0 <= i < s.len() implies {
        let b = (#[trigger] s[i]).block as int;
        &&& 0 <= b < b2.len()
        &&& b2[b].live
        &&& b2[b].entry_exit is Some
    } by {
        let b = s[i].block as int;
        assert(b1[b].live);
    }
}

/// A filtered list of valid records is valid.
pub proof fn lemma_deps_ok_filter(s: Seq<Dep>, bs: Seq<Block>, f: spec_fn(Dep) -> bool)
    requires
        deps_ok(s, bs),
    ensures
        deps_ok(s.filter(f), bs),
{
    lemma_filter_sub(s, f);
    assert forall|i: int| 0 <= i < s.filter(f).len() implies {
        let b = (#[trigger] s.filter(f)[i]).block as int;
        &&& 0 <= b < bs.len()
        &&& bs[b].live
        &&& bs[b].entry_exit is Some
    } by {
        let x = s.filter(f)[i];
        assert(s.contains(x));
        let j = choose|j: int| 0 <= j < s.len() && s[j] == x;
        assert(deps_ok(s, bs));
        let sj = s[j];
        assert(0 <= sj.block < bs.len());
    }
}

/// Valid records after filtering, for every map.
pub proof fn lemma_refs_ok_filter(inv: Invariants, bs: Seq<Block>, f: spec_fn(Dep) -> bool)
    requires
        inv.refs_ok(bs),
    ensures
        deps_ok(inv.basic_operators.deps@.filter(f), bs),
        deps_ok(inv.cme_validity.deps@.filter(f), bs),
        deps_ok(inv.method_lookup.deps@.filter(f), bs),
        deps_ok(inv.single_ractor.deps@.filter(f), bs),
        deps_ok(inv.constant_state.deps@.filter(f), bs),
{
    lemma_deps_ok_filter(inv.basic_operators.deps@, bs, f);
    lemma_deps_ok_filter(inv.cme_validity.deps@, bs, f);
    lemma_deps_ok_filter(inv.method_lookup.deps@, bs, f);
    lemma_deps_ok_filter(inv.single_ractor.deps@, bs, f);
    lemma_deps_ok_filter(inv.constant_state.deps@, bs, f);
}

/// Filters with the same verdict on every record keep the same records.
pub proof fn lemma_filter_ext(s: Seq<Dep>, p: spec_fn(Dep) -> bool, q: spec_fn(Dep) -> bool)
    requires
        forall|d: Dep| #[trigger] p(d) == q(d),
    ensures
        s.filter(p) == s.filter(q),
    decreases s.len(),
{
    reveal(Seq::filter);
    if s.len() > 0 {
        lemma_filter_ext(s.drop_last(), p, q);
    }
}

/// Filtering out one more listed block.
pub proof fn lemma_filter_listed_step(s: Seq<Dep>, l: Seq<usize>, b: usize)
    ensures
        s.filter(not_listed(l)).filter(block_other(b)) == s.filter(not_listed(l.push(b))),
{
    lemma_filter_twice(s, not_listed(l), block_other(b));
    let p = |d: Dep| not_listed(l)(d) && block_other(b)(d);
    assert forall|d: Dep| #[trigger] p(d) == not_listed(l.push(b))(d) by {
        if l.push(b).contains(d.block) && !l.contains(d.block) {
            let k = choose|k: int| 0 <= k < l.push(b).len() && l.push(b)[k] == d.block;
            if k < l.len() {
                assert(l[k] == d.block);
            }
        }
        if l.contains(d.block) {
            let k = choose|k: int| 0 <= k < l.len() && l[k] == d.block;
            assert(l.push(b)[k] == d.block);
        }
        if d.block == b {
            assert(l.push(b)[l.len() as int] == b);
        }
    }
    lemma_filter_ext(s, p, not_listed(l.push(b)));
}

/// Filtering by an empty list keeps everything.
pub proof fn lemma_filter_listed_empty(s: Seq<Dep>)
    ensures
        s.filter(not_listed(Seq::empty())) == s,
{
    lemma_filter_all(s, not_listed(Seq::empty()));
}

/// No valid record names a dead block.
pub proof fn lemma_deps_ok_dead(s: Seq<Dep>, bs: Seq<Block>, b: usize)
    requires
        deps_ok(s, bs),
        b < bs.len(),
        !bs[b as int].live,
    ensures
        s.filter(block_other(b)) == s,
{
    assert forall|i: int| 0 <= i < s.len() implies block_other(b)(#[trigger] s[i]) by {
        let x = s[i].block as int;
        assert(bs[x].live);
    }
    lemma_filter_all(s, block_other(b));
}

/// The kinds of runtime fact that blocks can depend on, one map each.
#[derive(Clone, Copy, PartialEq, Eq, Structural, Debug)]
pub enum Fact {
    BasicOperator,
    CmeValidity,
    MethodLookup,
    SingleRactor,
    ConstantState,
}

/// Key of the basic operator `bop` on the classes flagged `klass`.
pub open spec fn bop_key(klass: RedefinitionFlag, bop: ruby_basic_operators) -> DepKey {
    DepKey { a: klass as u64, b: bop as u64 }
}

/// Key of the callable method entry at `cme`.
pub open spec fn cme_key(cme: VALUE) -> DepKey {
    DepKey { a: cme, b: 0 }
}

/// Key of the lookup of method `mid` in class `klass`.
pub open spec fn lookup_key(klass: VALUE, mid: ID) -> DepKey {
    DepKey { a: klass, b: mid }
}

/// Key of the single facts: one execution context, unchanged constants.
pub open spec fn global_key() -> DepKey {
    DepKey { a: 0, b: 0 }
}

/// `s` with record `d` appended, unless it holds `d` already.
pub open spec fn added(s: Seq<Dep>, d: Dep) -> Seq<Dep> {
    if s.contains(d) {
        s
    } else {
        s.push(d)
    }
}

/// The maps `n` left after invalidating, from maps `o`, the blocks that
/// depend on `key` in the map of `f`: that key is dropped, and every record
/// of an invalidated block is gone from every map.
pub open spec fn maps_after_invalidation(o: Invariants, f: Fact, key: DepKey, n: Invariants) -> bool {
    let l = deps_blocks(o.map_of(f), key);
    forall|g: Fact|
        #[trigger] n.map_of(g) == if g == f {
            o.map_of(g).filter(key_other(key)).filter(not_listed(l))
        } else {
            o.map_of(g).filter(not_listed(l))
        }
}

/// Blocks outside `l` are unchanged from `o` to `n`.
pub open spec fn blocks_kept(o: Seq<Block>, n: Seq<Block>, l: Seq<usize>) -> bool {
    &&& n.len() == o.len()
    &&& forall|i: int| 0 <= i < o.len() && !l.contains(i as usize) ==> #[trigger] n[i] == o[i]
}

impl Invariants {
    pub open spec fn map_of(&self, f: Fact) -> Seq<Dep> {
        match f {
            Fact::BasicOperator => self.basic_operators.deps@,
            Fact::CmeValidity => self.cme_validity.deps@,
            Fact::MethodLookup => self.method_lookup.deps@,
            Fact::SingleRactor => self.single_ractor.deps@,
            Fact::ConstantState => self.constant_state.deps@,
        }
    }

    /// The blocks that assume the basic operator `bop` of the classes flagged
    /// `klass` is not redefined.
    pub fn get_bop_assumptions(&self, klass: RedefinitionFlag, bop: ruby_basic_operators) -> (r: Vec<
        usize,
    >)
        ensures
            r@ == deps_blocks(self.basic_operators.deps@, bop_key(klass, bop)),
    {
        self.basic_operators.blocks_for(DepKey { a: klass as u64, b: bop as u64 })
    }

    /// Whether some block depends on `key` in the map of `f`.
    pub fn has_dependents(&self, f: Fact, key: DepKey) -> (r: bool)
        ensures
            r == key_present(self.map_of(f), key),
    {
        match f {
            Fact::BasicOperator => self.basic_operators.contains_key(key),
            Fact::CmeValidity => self.cme_validity.contains_key(key),
            Fact::MethodLookup => self.method_lookup.contains_key(key),
            Fact::SingleRactor => self.single_ractor.contains_key(key),
            Fact::ConstantState => self.constant_state.contains_key(key),
        }
    }

    /// Record that `block` depends on `key` in the map of `f`, unless that
    /// is recorded already.
    pub fn add(&mut self, f: Fact, key: DepKey, block: usize)
        ensures
            final(self).map_of(f) == added(old(self).map_of(f), Dep { key, block }),
            forall|g: Fact| g != f ==> #[trigger] final(self).map_of(g) == old(self).map_of(g),
    {
        let present = match f {
            Fact::BasicOperator => self.basic_operators.contains_record(key, block),
            Fact::CmeValidity => self.cme_validity.contains_record(key, block),
            Fact::MethodLookup => self.method_lookup.contains_record(key, block),
            Fact::SingleRactor => self.single_ractor.contains_record(key, block),
            Fact::ConstantState => self.constant_state.contains_record(key, block),
        };
        if present {
            return;
        }
        match f {
            Fact::BasicOperator => self.basic_operators.add(key, block),
            Fact::CmeValidity => self.cme_validity.add(key, block),
            Fact::MethodLookup => self.method_lookup.add(key, block),
            Fact::SingleRactor => self.single_ractor.add(key, block),
            Fact::ConstantState => self.constant_state.add(key, block),
        }
    }

    /// Remove the records of `key` from the map of `f`; returns their blocks.
    pub fn take(&mut self, f: Fact, key: DepKey) -> (r: Vec<usize>)
        ensures
            r@ == deps_blocks(old(self).map_of(f), key),
            final(self).map_of(f) == old(self).map_of(f).filter(key_other(key)),
            forall|g: Fact| g != f ==> #[trigger] final(self).map_of(g) == old(self).map_of(g),
    {
        match f {
            Fact::BasicOperator => self.basic_operators.take(key),
            Fact::CmeValidity => self.cme_validity.take(key),
            Fact::MethodLookup => self.method_lookup.take(key),
            Fact::SingleRactor => self.single_ractor.take(key),
            Fact::ConstantState => self.constant_state.take(key),
        }
    }
}

/// What `map_of` names for each kind of fact.
pub proof fn lemma_map_of(inv: Invariants)
    ensures
        inv.map_of(Fact::BasicOperator) == inv.basic_operators.deps@,
        inv.map_of(Fact::CmeValidity) == inv.cme_validity.deps@,
        inv.map_of(Fact::MethodLookup) == inv.method_lookup.deps@,
        inv.map_of(Fact::SingleRactor) == inv.single_ractor.deps@,
        inv.map_of(Fact::ConstantState) == inv.constant_state.deps@,
{
}

impl JitState {
    /// Record that live block `b` depends on `key` in the map of `f`, once
    /// `b` has code to leave for the interpreter, without which it could not
    /// be invalidated. Returns false, recording nothing, when that code
    /// cannot be emitted.
    pub fn register(&mut self, f: Fact, key: DepKey, b: usize) -> (r: bool)
        requires
            old(self).wf(),
            b < old(self).blocks@.len(),
            old(self).blocks@[b as int].live,
        ensures
            final(self).wf(),
            r == final(self).blocks@[b as int].entry_exit is Some,
            r == (old(self).blocks@[b as int].entry_exit is Some || old(self).ocb.write_pos + EXIT_LEN
                <= old(self).ocb.mem@.len()),
            r ==> final(self).invariants.map_of(f) == added(
                old(self).invariants.map_of(f),
                Dep { key, block: b },
            ),
            !r ==> final(self).invariants.map_of(f) == old(self).invariants.map_of(f),
            forall|g: Fact| g != f ==> #[trigger] final(self).invariants.map_of(g) == old(
                self).invariants.map_of(g),
            final(self).blocks@.len() == old(self).blocks@.len(),
            forall|i: int|
                0 <= i < old(self).blocks@.len() && i != b ==> #[trigger] final(self).blocks@[i]
                    == old(self).blocks@[i],
            final(self).blocks@[b as int].live,
            final(self).options == old(self).options,
            final(self).cb == old(self).cb,
            !r ==> *final(self) == *old(self),
            only_exit_added(*old(self), *final(self), b as int),
    {
        if !self.ensure_entry_exit(b) {
            return false;
        }
        self.invariants.add(f, key, b);
        proof {
            let bs = self.blocks@;
            let inv = self.invariants;
            let s = inv.map_of(f);
            assert forall|i: int| 0 <= i < s.len() implies {
                let x = (#[trigger] s[i]).block as int;
                &&& 0 <= x < bs.len()
                &&& bs[x].live
                &&& bs[x].entry_exit is Some
            } by {
                if i < s.len() - 1 {
                    assert(s[i] == old(self).invariants.map_of(f)[i]);
                }
            }
            lemma_map_of(inv);
        }
        true
    }

    /// Invalidate every block that depends on `key` in the map of `f`, and
    /// drop the key. Returns the number of records the key had. A key with
    /// no dependent block leaves the state as it was.
    pub fn invalidate_fact(&mut self, f: Fact, key: DepKey) -> (r: usize)
        requires
            old(self).wf(),
        ensures
            final(self).wf(),
            r == deps_blocks(old(self).invariants.map_of(f), key).len(),
            forall|b: usize|
                #[trigger] deps_blocks(old(self).invariants.map_of(f), key).contains(b) ==> {
                    &&& b < final(self).blocks@.len()
                    &&& !final(self).blocks@[b as int].live
                    &&& final(self).entry_patched(b as int)
                },
            !key_present(final(self).invariants.map_of(f), key),
            !key_present(old(self).invariants.map_of(f), key) ==> *final(self) == *old(self),
            final(self).blocks@.len() == old(self).blocks@.len(),
            final(self).options == old(self).options,
            maps_after_invalidation(old(self).invariants, f, key, final(self).invariants),
            forall|b: usize, j: int|
                #[trigger] deps_blocks(old(self).invariants.map_of(f), key).contains(b) && 0 <= j
                    < old(self).branches@.len() && #[trigger] old(self).branches@[j].target == Some(b)
                    ==> final(self).link_redirected(j, b as int),
            final(self).cb.base == old(self).cb.base,
            final(self).cb.write_pos == old(self).cb.write_pos,
            final(self).ocb.base == old(self).ocb.base,
            blocks_kept(
                old(self).blocks@,
                final(self).blocks@,
                deps_blocks(old(self).invariants.map_of(f), key),
            ),
    {
        if !self.invariants.has_dependents(f, key) {
            proof {
                let inv = self.invariants;
                lemma_deps_blocks_empty(inv.map_of(f), key);
                assert(deps_blocks(inv.map_of(f), key) =~= Seq::<usize>::empty());
                assert forall|i: int| 0 <= i < inv.map_of(f).len() implies key_other(key)(
                    #[trigger] inv.map_of(f)[i],
                ) by {}
                lemma_filter_all(inv.map_of(f), key_other(key));
                assert forall|g: Fact| #[trigger] inv.map_of(g) == if g == f {
                    inv.map_of(g).filter(key_other(key)).filter(not_listed(Seq::empty()))
                } else {
                    inv.map_of(g).filter(not_listed(Seq::empty()))
                } by {
                    lemma_filter_listed_empty(inv.map_of(g));
                }
            }
            return 0;
        }
        let ghost old_inv = self.invariants;
        proof {
            lemma_deps_ok_filter(old_inv.map_of(f), self.blocks@, key_other(key));
        }
        let list = self.invariants.take(f, key);
        proof {
            let inv = self.invariants;
            lemma_map_of(inv);
            lemma_map_of(old_inv);
            assert forall|k: int| 0 <= k < list@.len() implies #[trigger] list@[k]
                < self.blocks@.len() && self.blocks@[list@[k] as int].live
                && self.blocks@[list@[k] as int].entry_exit is Some by {
                let x = list@[k];
                assert(deps_blocks(old_inv.map_of(f), key).contains(x));
                lemma_deps_blocks_contains(old_inv.map_of(f), key, x);
                let i = choose|i: int|
                    0 <= i < old_inv.map_of(f).len() && #[trigger] old_inv.map_of(f)[i] == (Dep {
                        key,
                        block: x,
                    });
                assert(deps_ok(old_inv.map_of(f), self.blocks@));
                let d = old_inv.map_of(f)[i];
                assert(d.block == x);
            }
        }
        let ghost mid = *self;
        self.invalidate_blocks(&list);
        proof {
            let fin = self.invariants.map_of(f);
            let s1 = mid.invariants.map_of(f);
            assert(fin == s1.filter(not_listed(list@))) by {
                let inv = self.invariants;
                lemma_map_of(inv);
                let mi = mid.invariants;
                lemma_map_of(mi);
            }
            lemma_filter_sub(s1, not_listed(list@));
            lemma_filter_sub(old_inv.map_of(f), key_other(key));
            let l = list@;
            assert forall|g: Fact| #[trigger] self.invariants.map_of(g) == if g == f {
                old_inv.map_of(g).filter(key_other(key)).filter(not_listed(l))
            } else {
                old_inv.map_of(g).filter(not_listed(l))
            } by {
                let inv = self.invariants;
                let mi = mid.invariants;
                lemma_map_of(inv);
                lemma_map_of(mi);
            }
            if key_present(fin, key) {
                let i = choose|i: int| 0 <= i < fin.len() && (#[trigger] fin[i]).key == key;
                assert(s1.contains(fin[i]));
                let j = choose|j: int| 0 <= j < s1.len() && s1[j] == fin[i];
                assert(key_other(key)(s1[j]));
            }
            assert forall|b: usize| #[trigger] deps_blocks(old_inv.map_of(f), key).contains(b) implies {
                &&& b < self.blocks@.len()
                &&& !self.blocks@[b as int].live
                &&& self.entry_patched(b as int)
            } by {
                let k = choose|k: int| 0 <= k < list@.len() && list@[k] == b;
                assert(mid.blocks@[list@[k] as int].live);
            }
            assert forall|b: usize, j: int|
                #[trigger] deps_blocks(old_inv.map_of(f), key).contains(b) && 0 <= j
                    < old(self).branches@.len() && #[trigger] old(self).branches@[j].target == Some(b)
                    implies self.link_redirected(j, b as int) by {
                let k = choose|k: int| 0 <= k < list@.len() && list@[k] == b;
                assert(mid.branches@[j].target == Some(list@[k]));
            }
        }
        list.len()
    }
}

/// Called by the code generator when block `b` is specialized on the basic
/// operator `bop` of the classes flagged `klass` not being redefined;
/// `redefined` is what the virtual machine currently reports for it. Returns
/// whether the assumption holds and was recorded, so that the block will be
/// invalidated when the operator is redefined.
pub fn assume_bop_not_redefined(
    st: &mut JitState,
    b: usize,
    klass: RedefinitionFlag,
    bop: ruby_basic_operators,
    redefined: bool,
) -> (r: bool)
    requires
        old(st).wf(),
        b < old(st).blocks@.len(),
        old(st).blocks@[b as int].live,
    ensures
        final(st).wf(),
        !r ==> *final(st) == *old(st),
        only_exit_added(*old(st), *final(st), b as int),
        final(st).invariants.cme_validity.deps@ == old(st).invariants.cme_validity.deps@,
        final(st).invariants.method_lookup.deps@ == old(st).invariants.method_lookup.deps@,
        final(st).invariants.single_ractor.deps@ == old(st).invariants.single_ractor.deps@,
        final(st).invariants.constant_state.deps@ == old(st).invariants.constant_state.deps@,
        final(st).blocks@.len() == old(st).blocks@.len(),
        forall|i: int|
            0 <= i < old(st).blocks@.len() && i != b ==> #[trigger] final(st).blocks@[i] == old(st).blocks@[i],
        final(st).options == old(st).options,
        r == (!redefined && final(st).blocks@[b as int].entry_exit is Some),
        redefined ==> *final(st) == *old(st),
        r == (!redefined && (old(st).blocks@[b as int].entry_exit is Some || old(st).ocb.write_pos
            + EXIT_LEN <= old(st).ocb.mem@.len())),
        r ==> final(st).invariants.basic_operators.deps@ == added(
            old(st).invariants.basic_operators.deps@,
            Dep { key: bop_key(klass, bop), block: b },
        ),
        !r ==> final(st).invariants.basic_operators.deps@ == old(st).invariants.basic_operators.deps@,
        final(st).blocks@[b as int].live,
{
    if redefined {
        return false;
    }
    let ghost s_before = *st;
    let r = st.register(Fact::BasicOperator, DepKey { a: klass as u64, b: bop as u64 }, b);
    proof {
        lemma_map_of(s_before.invariants);
        lemma_map_of(st.invariants);
    }
    r
}

/// Called by the code generator when block `b` relies on the lookup of
/// method `mid` in class `receiver_klass` resolving to the callable method
/// entry `callee_cme`, and on that entry staying valid. Returns whether both
/// assumptions were recorded.
pub fn assume_method_lookup_stable(
    st: &mut JitState,
    b: usize,
    receiver_klass: VALUE,
    callee_cme: VALUE,
    mid: ID,
) -> (r: bool)
    requires
        old(st).wf(),
        b < old(st).blocks@.len(),
        old(st).blocks@[b as int].live,
    ensures
        final(st).wf(),
        !r ==> *final(st) == *old(st),
        only_exit_added(*old(st), *final(st), b as int),
        final(st).invariants.basic_operators.deps@ == old(st).invariants.basic_operators.deps@,
        final(st).invariants.single_ractor.deps@ == old(st).invariants.single_ractor.deps@,
        final(st).invariants.constant_state.deps@ == old(st).invariants.constant_state.deps@,
        final(st).blocks@.len() == old(st).blocks@.len(),
        forall|i: int|
            0 <= i < old(st).blocks@.len() && i != b ==> #[trigger] final(st).blocks@[i] == old(st).blocks@[i],
        final(st).options == old(st).options,
        r == final(st).blocks@[b as int].entry_exit is Some,
        r == (old(st).blocks@[b as int].entry_exit is Some || old(st).ocb.write_pos + EXIT_LEN
            <= old(st).ocb.mem@.len()),
        r ==> final(st).invariants.cme_validity.deps@ == added(
            old(st).invariants.cme_validity.deps@,
            Dep { key: cme_key(callee_cme), block: b },
        ),
        r ==> final(st).invariants.method_lookup.deps@ == added(
            old(st).invariants.method_lookup.deps@,
            Dep { key: lookup_key(receiver_klass, mid), block: b },
        ),
        !r ==> final(st).invariants.cme_validity.deps@ == old(st).invariants.cme_validity.deps@,
        !r ==> final(st).invariants.method_lookup.deps@ == old(st).invariants.method_lookup.deps@,
        final(st).blocks@[b as int].live,
{
    let ghost s0 = *st;
    if !st.register(Fact::CmeValidity, DepKey { a: callee_cme, b: 0 }, b) {
        assert(st.invariants.map_of(Fact::MethodLookup) == s0.invariants.map_of(Fact::MethodLookup));
        return false;
    }
    let ghost s1 = *st;
    assert(s1.invariants.map_of(Fact::MethodLookup) == s0.invariants.map_of(Fact::MethodLookup));
    let ghost s_before = *st;
    let r = st.register(Fact::MethodLookup, DepKey { a: receiver_klass, b: mid }, b);
    proof {
        lemma_map_of(s_before.invariants);
        lemma_map_of(st.invariants);
    }
    assert(st.invariants.map_of(Fact::CmeValidity) == s1.invariants.map_of(Fact::CmeValidity));
    r
}

/// Called by the code generator when block `b` relies on there being a
/// single execution context; `multi_ractor` is whether the virtual machine
/// currently runs several. Returns whether the assumption holds and was
/// recorded.
pub fn assume_single_ractor_mode(st: &mut JitState, b: usize, multi_ractor: bool) -> (r: bool)
    requires
        old(st).wf(),
        b < old(st).blocks@.len(),
        old(st).blocks@[b as int].live,
    ensures
        final(st).wf(),
        !r ==> *final(st) == *old(st),
        only_exit_added(*old(st), *final(st), b as int),
        final(st).invariants.basic_operators.deps@ == old(st).invariants.basic_operators.deps@,
        final(st).invariants.cme_validity.deps@ == old(st).invariants.cme_validity.deps@,
        final(st).invariants.method_lookup.deps@ == old(st).invariants.method_lookup.deps@,
        final(st).invariants.constant_state.deps@ == old(st).invariants.constant_state.deps@,
        final(st).blocks@.len() == old(st).blocks@.len(),
        forall|i: int|
            0 <= i < old(st).blocks@.len() && i != b ==> #[trigger] final(st).blocks@[i] == old(st).blocks@[i],
        final(st).options == old(st).options,
        r == (!multi_ractor && final(st).blocks@[b as int].entry_exit is Some),
        multi_ractor ==> *final(st) == *old(st),
        r == (!multi_ractor && (old(st).blocks@[b as int].entry_exit is Some || old(st).ocb.write_pos
            + EXIT_LEN <= old(st).ocb.mem@.len())),
        r ==> final(st).invariants.single_ractor.deps@ == added(
            old(st).invariants.single_ractor.deps@,
            Dep { key: global_key(), block: b },
        ),
        !r ==> final(st).invariants.single_ractor.deps@ == old(st).invariants.single_ractor.deps@,
        final(st).blocks@[b as int].live,
{
    if multi_ractor {
        return false;
    }
    let ghost s_before = *st;
    let r = st.register(Fact::SingleRactor, DepKey { a: 0, b: 0 }, b);
    proof {
        lemma_map_of(s_before.invariants);
        lemma_map_of(st.invariants);
    }
    r
}

/// Called by the code generator when block `b` relies on the global
/// constant state staying as it is. Returns whether the assumption was
/// recorded.
pub fn assume_stable_global_constant_state(st: &mut JitState, b: usize) -> (r: bool)
    requires
        old(st).wf(),
        b < old(st).blocks@.len(),
        old(st).blocks@[b as int].live,
    ensures
        final(st).wf(),
        !r ==> *final(st) == *old(st),
        only_exit_added(*old(st), *final(st), b as int),
        final(st).invariants.basic_operators.deps@ == old(st).invariants.basic_operators.deps@,
        final(st).invariants.cme_validity.deps@ == old(st).invariants.cme_validity.deps@,
        final(st).invariants.method_lookup.deps@ == old(st).invariants.method_lookup.deps@,
        final(st).invariants.single_ractor.deps@ == old(st).invariants.single_ractor.deps@,
        final(st).blocks@.len() == old(st).blocks@.len(),
        forall|i: int|
            0 <= i < old(st).blocks@.len() && i != b ==> #[trigger] final(st).blocks@[i] == old(st).blocks@[i],
        final(st).options == old(st).options,
        r == final(st).blocks@[b as int].entry_exit is Some,
        r == (old(st).blocks@[b as int].entry_exit is Some || old(st).ocb.write_pos + EXIT_LEN
            <= old(st).ocb.mem@.len()),
        r ==> final(st).invariants.constant_state.deps@ == added(
            old(st).invariants.constant_state.deps@,
            Dep { key: global_key(), block: b },
        ),
        !r ==> final(st).invariants.constant_state.deps@ == old(st).invariants.constant_state.deps@,
        final(st).blocks@[b as int].live,
{
    let ghost s_before = *st;
    let r = st.register(Fact::ConstantState, DepKey { a: 0, b: 0 }, b);
    proof {
        lemma_map_of(s_before.invariants);
        lemma_map_of(st.invariants);
    }
    r
}

/// Called when the basic operator `bop` of the classes flagged `klass` is
/// redefined: every block assuming it was not is invalidated.
pub fn rb_yjit_bop_redefined(st: &mut JitState, klass: RedefinitionFlag, bop: ruby_basic_operators)
    requires
        old(st).wf(),
    ensures
        final(st).wf(),
        forall|b: usize, j: int|
            #[trigger] deps_blocks(old(st).invariants.basic_operators.deps@, bop_key(klass, bop)).contains(b) && 0 <= j
                < old(st).branches@.len() && #[trigger] old(st).branches@[j].target == Some(b)
                ==> final(st).link_redirected(j, b as int),
        maps_after_invalidation(old(st).invariants, Fact::BasicOperator, bop_key(klass, bop), final(st).invariants),
        blocks_kept(
            old(st).blocks@,
            final(st).blocks@,
            deps_blocks(old(st).invariants.basic_operators.deps@, bop_key(klass, bop)),
        ),
        final(st).blocks@.len() == old(st).blocks@.len(),
        final(st).options == old(st).options,
        forall|b: usize|
            #[trigger] deps_blocks(old(st).invariants.basic_operators.deps@, bop_key(klass, bop)).contains(b)
                ==> b < final(st).blocks@.len() && !final(st).blocks@[b as int].live && final(st).entry_patched(b as int),
        !key_present(final(st).invariants.basic_operators.deps@, bop_key(klass, bop)),
        !key_present(old(st).invariants.basic_operators.deps@, bop_key(klass, bop)) ==> *final(st)
            == *old(st),
{
    let n = st.invalidate_fact(Fact::BasicOperator, DepKey { a: klass as u64, b: bop as u64 });
    proof {
        assert(old(st).invariants.map_of(Fact::BasicOperator) == old(st).invariants.basic_operators.deps@);
        lemma_deps_blocks_empty(old(st).invariants.basic_operators.deps@, bop_key(klass, bop));
    }
    if n > 0 {
        st.counters.add(Counter::InvalidateBopRedefined, n);
    }
}

/// Called when the lookup of method `mid` in class `klass` is about to
/// change: every block assuming it stable is invalidated.
pub fn rb_yjit_method_lookup_change(st: &mut JitState, klass: VALUE, mid: ID)
    requires
        old(st).wf(),
    ensures
        final(st).wf(),
        forall|b: usize, j: int|
            #[trigger] deps_blocks(old(st).invariants.method_lookup.deps@, lookup_key(klass, mid)).contains(b) && 0 <= j
                < old(st).branches@.len() && #[trigger] old(st).branches@[j].target == Some(b)
                ==> final(st).link_redirected(j, b as int),
        maps_after_invalidation(old(st).invariants, Fact::MethodLookup, lookup_key(klass, mid), final(st).invariants),
        blocks_kept(
            old(st).blocks@,
            final(st).blocks@,
            deps_blocks(old(st).invariants.method_lookup.deps@, lookup_key(klass, mid)),
        ),
        final(st).blocks@.len() == old(st).blocks@.len(),
        final(st).options == old(st).options,
        forall|b: usize|
            #[trigger] deps_blocks(old(st).invariants.method_lookup.deps@, lookup_key(klass, mid)).contains(b)
                ==> b < final(st).blocks@.len() && !final(st).blocks@[b as int].live && final(st).entry_patched(b as int),
        !key_present(final(st).invariants.method_lookup.deps@, lookup_key(klass, mid)),
        !key_present(old(st).invariants.method_lookup.deps@, lookup_key(klass, mid)) ==> *final(st)
            == *old(st),
{
    let n = st.invalidate_fact(Fact::MethodLookup, DepKey { a: klass, b: mid });
    proof {
        assert(old(st).invariants.map_of(Fact::MethodLookup) == old(st).invariants.method_lookup.deps@);
        lemma_deps_blocks_empty(old(st).invariants.method_lookup.deps@, lookup_key(klass, mid));
    }
    if n > 0 {
        st.counters.add(Counter::InvalidateMethodLookup, n);
    }
}

/// Called when the callable method entry `cme` becomes invalid: every block
/// depending on it is invalidated.
pub fn rb_yjit_cme_invalidate(st: &mut JitState, cme: VALUE)
    requires
        old(st).wf(),
    ensures
        final(st).wf(),
        forall|b: usize, j: int|
            #[trigger] deps_blocks(old(st).invariants.cme_validity.deps@, cme_key(cme)).contains(b) && 0 <= j
                < old(st).branches@.len() && #[trigger] old(st).branches@[j].target == Some(b)
                ==> final(st).link_redirected(j, b as int),
        maps_after_invalidation(old(st).invariants, Fact::CmeValidity, cme_key(cme), final(st).invariants),
        blocks_kept(
            old(st).blocks@,
            final(st).blocks@,
            deps_blocks(old(st).invariants.cme_validity.deps@, cme_key(cme)),
        ),
        final(st).blocks@.len() == old(st).blocks@.len(),
        final(st).options == old(st).options,
        forall|b: usize|
            #[trigger] deps_blocks(old(st).invariants.cme_validity.deps@, cme_key(cme)).contains(b)
                ==> b < final(st).blocks@.len() && !final(st).blocks@[b as int].live && final(st).entry_patched(b as int),
        !key_present(final(st).invariants.cme_validity.deps@, cme_key(cme)),
        !key_present(old(st).invariants.cme_validity.deps@, cme_key(cme)) ==> *final(st) == *old(st),
{
    let n = st.invalidate_fact(Fact::CmeValidity, DepKey { a: cme, b: 0 });
    proof {
        assert(old(st).invariants.map_of(Fact::CmeValidity) == old(st).invariants.cme_validity.deps@);
        lemma_deps_blocks_empty(old(st).invariants.cme_validity.deps@, cme_key(cme));
    }
    if n > 0 {
        st.counters.add(Counter::InvalidateMethodLookup, n);
    }
}

/// Called before a second execution context starts: every block assuming a
/// single one is invalidated.
pub fn rb_yjit_before_ractor_spawn(st: &mut JitState)
    requires
        old(st).wf(),
    ensures
        final(st).wf(),
        forall|b: usize, j: int|
            #[trigger] deps_blocks(old(st).invariants.single_ractor.deps@, global_key()).contains(b) && 0 <= j
                < old(st).branches@.len() && #[trigger] old(st).branches@[j].target == Some(b)
                ==> final(st).link_redirected(j, b as int),
        maps_after_invalidation(old(st).invariants, Fact::SingleRactor, global_key(), final(st).invariants),
        blocks_kept(
            old(st).blocks@,
            final(st).blocks@,
            deps_blocks(old(st).invariants.single_ractor.deps@, global_key()),
        ),
        final(st).blocks@.len() == old(st).blocks@.len(),
        final(st).options == old(st).options,
        forall|b: usize|
            #[trigger] deps_blocks(old(st).invariants.single_ractor.deps@, global_key()).contains(b)
                ==> b < final(st).blocks@.len() && !final(st).blocks@[b as int].live && final(st).entry_patched(b as int),
        !key_present(final(st).invariants.single_ractor.deps@, global_key()),
        !key_present(old(st).invariants.single_ractor.deps@, global_key()) ==> *final(st) == *old(st),
{
    let n = st.invalidate_fact(Fact::SingleRactor, DepKey { a: 0, b: 0 });
    proof {
        assert(old(st).invariants.map_of(Fact::SingleRactor) == old(st).invariants.single_ractor.deps@);
        lemma_deps_blocks_empty(old(st).invariants.single_ractor.deps@, global_key());
    }
    if n > 0 {
        st.counters.add(Counter::InvalidateRactorSpawn, n);
    }
}

/// Called when the global constant state changes: every block assuming it
/// unchanged is invalidated. A change that no block depends on is not
/// counted.
pub fn rb_yjit_constant_state_changed(st: &mut JitState)
    requires
        old(st).wf(),
    ensures
        final(st).wf(),
        forall|b: usize, j: int|
            #[trigger] deps_blocks(old(st).invariants.constant_state.deps@, global_key()).contains(b) && 0 <= j
                < old(st).branches@.len() && #[trigger] old(st).branches@[j].target == Some(b)
                ==> final(st).link_redirected(j, b as int),
        maps_after_invalidation(old(st).invariants, Fact::ConstantState, global_key(), final(st).invariants),
        blocks_kept(
            old(st).blocks@,
            final(st).blocks@,
            deps_blocks(old(st).invariants.constant_state.deps@, global_key()),
        ),
        final(st).blocks@.len() == old(st).blocks@.len(),
        final(st).options == old(st).options,
        forall|b: usize|
            #[trigger] deps_blocks(old(st).invariants.constant_state.deps@, global_key()).contains(b)
                ==> b < final(st).blocks@.len() && !final(st).blocks@[b as int].live && final(st).entry_patched(b as int),
        !key_present(final(st).invariants.constant_state.deps@, global_key()),
        !key_present(old(st).invariants.constant_state.deps@, global_key()) ==> *final(st) == *old(st),
{
    let n = st.invalidate_fact(Fact::ConstantState, DepKey { a: 0, b: 0 });
    proof {
        assert(old(st).invariants.map_of(Fact::ConstantState) == old(st).invariants.constant_state.deps@);
        lemma_deps_blocks_empty(old(st).invariants.constant_state.deps@, global_key());
    }
    if n > 0 {
        st.counters.incr(Counter::ConstantStateBumps);
        st.counters.add(Counter::InvalidateConstantStateBump, n);
    }
}

/// Valid records when no block is live: there are none.
proof fn lemma_deps_none_live(s: Seq<Dep>, bs: Seq<Block>)
    requires
        deps_ok(s, bs),
        forall|i: int| 0 <= i < bs.len() ==> !(#[trigger] bs[i]).live,
    ensures
        s.len() == 0,
{
    if s.len() > 0 {
        let x = s[0].block as int;
        assert(bs[x].live);
    }
}

/// Invalidate all generated code, when tracing is enabled: every live block
/// is invalidated and all dependency maps end up empty.
pub fn rb_yjit_tracing_invalidate_all(st: &mut JitState)
    requires
        old(st).wf(),
    ensures
        final(st).wf(),
        final(st).blocks@.len() == old(st).blocks@.len(),
        forall|i: int| 0 <= i < final(st).blocks@.len() ==> !(#[trigger] final(st).blocks@[i]).live,
        forall|i: int|
            0 <= i < old(st).blocks@.len() && (#[trigger] old(st).blocks@[i]).live
                && old(st).blocks@[i].entry_exit is Some ==> final(st).entry_patched(i),
        final(st).invariants.basic_operators.deps@.len() == 0,
        final(st).invariants.cme_validity.deps@.len() == 0,
        final(st).invariants.method_lookup.deps@.len() == 0,
        final(st).invariants.single_ractor.deps@.len() == 0,
        final(st).invariants.constant_state.deps@.len() == 0,
        final(st).cb.base == old(st).cb.base,
        final(st).cb.write_pos == old(st).cb.write_pos,
        final(st).ocb.base == old(st).ocb.base,
        final(st).options == old(st).options,
        final(st).branches@.len() == old(st).branches@.len(),
        forall|i: int, j: int|
            0 <= i < old(st).blocks@.len() && 0 <= j < old(st).branches@.len()
                && old(st).branches@[j].target == Some(i as usize) ==> #[trigger] final(st).link_redirected(j, i),
{
    let mut list: Vec<usize> = Vec::new();
    let mut i: usize = 0;
    while i < st.blocks.len()
        invariant
            i <= st.blocks@.len(),
            list@.len() == i,
            forall|k: int| 0 <= k < i ==> list@[k] == k,
        decreases st.blocks@.len() - i,
    {
        list.push(i);
        i = i + 1;
    }
    st.invalidate_blocks(&list);
    proof {
        assert forall|i: int| 0 <= i < st.blocks@.len() implies !(#[trigger] st.blocks@[i]).live by {
            assert(list@[i] == i);
        }
        assert forall|i: int|
            0 <= i < old(st).blocks@.len() && (#[trigger] old(st).blocks@[i]).live
                && old(st).blocks@[i].entry_exit is Some implies st.entry_patched(i) by {
            assert(list@[i] == i);
        }
        assert forall|i: int, j: int|
            0 <= i < old(st).blocks@.len() && 0 <= j < old(st).branches@.len()
                && old(st).branches@[j].target == Some(i as usize) implies #[trigger] st.link_redirected(j, i) by {
            assert(list@[i] == i);
        }
        let inv = st.invariants;
        lemma_deps_none_live(inv.basic_operators.deps@, st.blocks@);
        lemma_deps_none_live(inv.cme_validity.deps@, st.blocks@);
        lemma_deps_none_live(inv.method_lookup.deps@, st.blocks@);
        lemma_deps_none_live(inv.single_ractor.deps@, st.blocks@);
        lemma_deps_none_live(inv.constant_state.deps@, st.blocks@);
    }
}

/// Records that name no block `b` stay valid when only block `b` changes.
pub proof fn lemma_deps_ok_other(s: Seq<Dep>, b1: Seq<Block>, b2: Seq<Block>, b: usize)
    requires
        deps_ok(s, b1),
        forall|i: int| 0 <= i < s.len() ==> (#[trigger] s[i]).block != b,
        b1.len() == b2.len(),
        forall|j: int| 0 <= j < b1.len() && j != b ==> #[trigger] b2[j] == b1[j],
    ensures
        deps_ok(s, b2),
{
    assert forall|i: int| 0 <= i < s.len() implies {
        let x = (#[trigger] s[i]).block as int;
        &&& 0 <= x < b2.len()
        &&& b2[x].live
        &&& b2[x].entry_exit is Some
    } by {
        let x = s[i].block as int;
        assert(b2[x] == b1[x]);
    }
}

/// All maps stay valid when only a block no record names changes.
pub proof fn lemma_refs_ok_without(inv: Invariants, b1: Seq<Block>, b2: Seq<Block>, b: usize)
    requires
        inv.refs_ok(b1),
        inv.no_record_of(b),
        b1.len() == b2.len(),
        forall|j: int| 0 <= j < b1.len() && j != b ==> #[trigger] b2[j] == b1[j],
    ensures
        inv.refs_ok(b2),
{
    lemma_deps_ok_other(inv.basic_operators.deps@, b1, b2, b);
    lemma_deps_ok_other(inv.cme_validity.deps@, b1, b2, b);
    lemma_deps_ok_other(inv.method_lookup.deps@, b1, b2, b);
    lemma_deps_ok_other(inv.single_ractor.deps@, b1, b2, b);
    lemma_deps_ok_other(inv.constant_state.deps@, b1, b2, b);
}

/// After removing block `b` from every map, no record names it.
pub proof fn lemma_no_record_after_remove(o: Invariants, f: Invariants, b: usize)
    requires
        f.basic_operators.deps@ == o.basic_operators.deps@.filter(block_other(b)),
        f.cme_validity.deps@ == o.cme_validity.deps@.filter(block_other(b)),
        f.method_lookup.deps@ == o.method_lookup.deps@.filter(block_other(b)),
        f.single_ractor.deps@ == o.single_ractor.deps@.filter(block_other(b)),
        f.constant_state.deps@ == o.constant_state.deps@.filter(block_other(b)),
    ensures
        f.no_record_of(b),
{
    lemma_filter_sub(o.basic_operators.deps@, block_other(b));
    lemma_filter_sub(o.cme_validity.deps@, block_other(b));
    lemma_filter_sub(o.method_lookup.deps@, block_other(b));
    lemma_filter_sub(o.single_ractor.deps@, block_other(b));
    lemma_filter_sub(o.constant_state.deps@, block_other(b));
}

} // verus!
