//! The in-memory grammar representation and its wire-format constraints.
//!
//! A grammar is an ordered sequence of rules, each an ordered sequence of
//! symbols; rule identity is purely positional. The codec assumes rule
//! references were already renumbered to contiguous indices and enforces
//! nothing about them.

use vstd::prelude::*;

verus! {

/// Threshold separating terminal byte values from non-terminal rule
/// references in the unified symbol value space: a symbol below it is a
/// literal byte, any other symbol refers to rule `symbol - RULE_OFFSET`.
/// The value is baked into every encoded stream.
pub const RULE_OFFSET: u32 = 256;

/// Whether every count the wire format stores in a 32-bit field fits one:
/// the number of rules and each rule's length.
pub open spec fn grammar_fits(gs: Seq<Seq<u32>>) -> bool {
    gs.len() <= u32::MAX && (forall|i: int| 0 <= i < gs.len() ==> (#[trigger] gs[i]).len() <= u32::MAX)
}

/// Minimum rule length over the first `n` rules, folded exactly as the
/// encoder folds it: starting from `u32::MAX`, so an empty grammar yields
/// `u32::MAX`.
pub open spec fn min_len_fold(gs: Seq<Seq<u32>>, n: int) -> u32
    decreases n,
{
    if n <= 0 {
        u32::MAX
    } else {
        let prev = min_len_fold(gs, n - 1);
        let l = gs[n - 1].len() as u32;
        if l < prev {
            l
        } else {
            prev
        }
    }
}

/// Maximum rule length over the first `n` rules, folded exactly as the
/// encoder folds it: starting from `0`, so an empty grammar yields `0`.
pub open spec fn max_len_fold(gs: Seq<Seq<u32>>, n: int) -> u32
    decreases n,
{
    if n <= 0 {
        0
    } else {
        let prev = max_len_fold(gs, n - 1);
        let l = gs[n - 1].len() as u32;
        if l > prev {
            l
        } else {
            prev
        }
    }
}

/// The folded minimum is a lower bound on every folded rule length.
pub proof fn lemma_min_fold_le(gs: Seq<Seq<u32>>, n: int, i: int)
    requires
        grammar_fits(gs),
        0 <= i < n,
        n <= gs.len(),
    ensures
        min_len_fold(gs, n) <= gs[i].len(),
    decreases n,
{
    if i < n - 1 {
        lemma_min_fold_le(gs, n - 1, i);
    }
}

/// The folded maximum is an upper bound on every folded rule length.
pub proof fn lemma_max_fold_ge(gs: Seq<Seq<u32>>, n: int, i: int)
    requires
        grammar_fits(gs),
        0 <= i < n,
        n <= gs.len(),
    ensures
        max_len_fold(gs, n) >= gs[i].len(),
    decreases n,
{
    if i < n - 1 {
        lemma_max_fold_ge(gs, n - 1, i);
    }
}

/// In a nonempty grammar some rule attains the folded minimum.
pub proof fn lemma_min_fold_attained(gs: Seq<Seq<u32>>, n: int)
    requires
        grammar_fits(gs),
        0 < n <= gs.len(),
    ensures
        exists|i: int| 0 <= i < n && gs[i].len() == min_len_fold(gs, n),
    decreases n,
{
    let m = min_len_fold(gs, n);
    if m == gs[n - 1].len() as u32 {
        assert(gs[n - 1].len() == m);
    } else {
        if n == 1 {
            assert(min_len_fold(gs, 0) == u32::MAX);
            assert(gs[0].len() == m);
        } else {
            lemma_min_fold_attained(gs, n - 1);
        }
    }
}

/// In a nonempty grammar some rule attains the folded maximum.
pub proof fn lemma_max_fold_attained(gs: Seq<Seq<u32>>, n: int)
    requires
        grammar_fits(gs),
        0 < n <= gs.len(),
    ensures
        exists|i: int| 0 <= i < n && gs[i].len() == max_len_fold(gs, n),
    decreases n,
{
    let m = max_len_fold(gs, n);
    if m == gs[n - 1].len() as u32 {
        assert(gs[n - 1].len() == m);
    } else {
        if n == 1 {
            assert(max_len_fold(gs, 0) == 0);
            assert(gs[0].len() == m);
        } else {
            lemma_max_fold_attained(gs, n - 1);
        }
    }
}

/// An owned, length-carrying buffer handed across the library boundary.
///
/// Callers either borrow the elements ([`RawVec::iter`]) or take over their
/// ownership ([`RawVec::to_vec`]); the two sides never share one allocation.
pub struct RawVec<T>(pub Vec<T>);

impl<T> View for RawVec<T> {
    type V = Seq<T>;

    open spec fn view(&self) -> Seq<T> {
        self.0@
    }
}

impl<T> RawVec<T> {
    /// Borrowed, read-only view of the elements.
    pub fn iter(&self) -> (r: &Vec<T>)
        ensures
            r@ == self@,
    {
        &self.0
    }

    /// Transfer ownership of the elements to the caller.
    pub fn to_vec(self) -> (r: Vec<T>)
        ensures
            r@ == self@,
    {
        self.0
    }
}

/// The grammar carried by a nested buffer, as a sequence of rules.
pub open spec fn raw_grammar_view(g: RawVec<RawVec<u32>>) -> Seq<Seq<u32>> {
    Seq::new(g@.len(), |i: int| g@[i]@)
}

/// Hand a grammar's rules over into owned buffers, rule by rule.
#[verifier::loop_isolation(false)]
pub fn to_raw_grammar(g: Vec<Vec<u32>>) -> (r: RawVec<RawVec<u32>>)
    ensures
        raw_grammar_view(r) == g.deep_view(),
{
    let ghost gv = g.deep_view();
    let mut src = g;
    let mut out: Vec<RawVec<u32>> = Vec::new();
    while src.len() > 0
        invariant
            out@.len() + src@.len() == gv.len(),
            forall|k: int| 0 <= k < out@.len() ==> (#[trigger] out@[k])@ == gv[k],
            forall|k: int| 0 <= k < src@.len() ==> (#[trigger] src@[k])@ == gv[out@.len() + k],
        decreases src.len(),
    {
        let rule = src.remove(0);
        out.push(RawVec(rule));
    }
    let r = RawVec(out);
    proof {
        assert(raw_grammar_view(r) =~= gv);
    }
    r
}

/// Copy the symbols of one rule into a fresh buffer.
fn copy_rule(v: &Vec<u32>) -> (r: Vec<u32>)
    ensures
        r@ == v@,
{
    let mut r: Vec<u32> = Vec::new();
    let mut i: usize = 0;
    while i < v.len()
        invariant
            i <= v.len(),
            r@ == v@.take(i as int),
        decreases v.len() - i,
    {
        r.push(v[i]);
        i = i + 1;
        proof {
            assert(r@ =~= v@.take(i as int));
        }
    }
    proof {
        assert(v@.take(v@.len() as int) =~= v@);
    }
    r
}

/// Copy a buffer-shaped grammar into plain rule vectors.
#[verifier::loop_isolation(false)]
pub fn from_raw_grammar(g: &RawVec<RawVec<u32>>) -> (r: Vec<Vec<u32>>)
    ensures
        r.deep_view() == raw_grammar_view(*g),
{
    let rules = g.iter();
    let mut out: Vec<Vec<u32>> = Vec::new();
    let mut i: usize = 0;
    while i < rules.len()
        invariant
            i <= rules.len(),
            out@.len() == i,
            forall|k: int| 0 <= k < i ==> (#[trigger] out@[k])@ == g@[k]@,
        decreases rules.len() - i,
    {
        let rule = copy_rule(rules[i].iter());
        out.push(rule);
        i = i + 1;
    }
    proof {
        assert(out.deep_view() =~~= raw_grammar_view(*g));
    }
    out
}

} // verus!
