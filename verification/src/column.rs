//! Typed, nullable column storage.
//!
//! A column is a homogeneous sequence of optional scalars of one kind;
//! an absent entry is a null.  Columns support appending, exchanging two
//! rows, splitting at a row index, and filtering by a row mask — everything
//! the dataset needs, and nothing that could desynchronise parallel columns.

use vstd::prelude::*;
use crate::value::{Kind, Value, ValueModel, kind_of};

verus! {

/// A column of one kind: an ordered sequence of optional scalars.
#[derive(Debug)]
pub enum ValueVec {
    Int(Vec<Option<i64>>),
    Float(Vec<Option<String>>),
    Str(Vec<Option<String>>),
}

impl View for ValueVec {
    type V = Seq<Option<ValueModel>>;

    open spec fn view(&self) -> Seq<Option<ValueModel>> {
        match self {
            ValueVec::Int(v) => Seq::new(
                v@.len(),
                |i: int|
                    match v@[i] {
                        Some(n) => Some(ValueModel::Int(n)),
                        None => None,
                    },
            ),
            ValueVec::Float(v) => Seq::new(
                v@.len(),
                |i: int|
                    match v@[i] {
                        Some(s) => Some(ValueModel::Float(s@)),
                        None => None,
                    },
            ),
            ValueVec::Str(v) => Seq::new(
                v@.len(),
                |i: int|
                    match v@[i] {
                        Some(s) => Some(ValueModel::Str(s@)),
                        None => None,
                    },
            ),
        }
    }
}

impl ValueVec {
    /// The kind every present scalar of this column carries.
    pub open spec fn kind(&self) -> Kind {
        match self {
            ValueVec::Int(_) => Kind::Int,
            ValueVec::Float(_) => Kind::Float,
            ValueVec::Str(_) => Kind::Str,
        }
    }

}

/// A scalar dropped to the column's kind: a mismatched tag becomes a null,
/// never an error.
pub open spec fn project(k: Kind, e: Option<ValueModel>) -> Option<ValueModel> {
    match e {
        None => None,
        Some(v) => if kind_of(v) == k {
            Some(v)
        } else {
            None
        },
    }
}

/// The model of an optional scalar.
pub open spec fn value_opt_view(e: Option<Value>) -> Option<ValueModel> {
    match e {
        None => None,
        Some(v) => Some(v@),
    }
}

/// Relies on `slice::swap`: the elements at the two indices change places
/// and no other element moves.
#[verifier::external_body]
pub(crate) fn swap_in_vec<T>(v: &mut Vec<T>, a: usize, b: usize)
    requires
        a < old(v)@.len(),
        b < old(v)@.len(),
    ensures
        final(v)@ == old(v)@.update(a as int, old(v)@[b as int]).update(
            b as int,
            old(v)@[a as int],
        ),
{
    v.swap(a, b);
}

impl ValueVec {
    /// An empty column of the given kind.
    pub fn new(kind: Kind) -> (r: Self)
        ensures
            r.kind() == kind,
            r@ == Seq::<Option<ValueModel>>::empty(),
    {
        let r = match kind {
            Kind::Int => ValueVec::Int(Vec::new()),
            Kind::Float => ValueVec::Float(Vec::new()),
            Kind::Str => ValueVec::Str(Vec::new()),
        };
        assert(r@ =~= Seq::<Option<ValueModel>>::empty());
        r
    }

    /// The number of rows, nulls included.
    pub fn len(&self) -> (n: usize)
        ensures
            n == self@.len(),
    {
        match self {
            ValueVec::Int(v) => v.len(),
            ValueVec::Float(v) => v.len(),
            ValueVec::Str(v) => v.len(),
        }
    }

    /// Appends a scalar, projected to the column's kind; an absent or
    /// mismatched scalar becomes a null.
    pub fn push(&mut self, elem: Option<Value>)
        ensures
            final(self).kind() == old(self).kind(),
            final(self)@ == old(self)@.push(project(old(self).kind(), value_opt_view(elem))),
    {
        let ghost expected = old(self)@.push(project(old(self).kind(), value_opt_view(elem)));
        match self {
            ValueVec::Int(v) => {
                let x: Option<i64> = match elem {
                    Some(Value::Int(i)) => Some(i),
                    _ => None,
                };
                v.push(x);
            },
            ValueVec::Float(v) => {
                let x: Option<String> = match elem {
                    Some(Value::Float(s)) => Some(s),
                    _ => None,
                };
                v.push(x);
            },
            ValueVec::Str(v) => {
                let x: Option<String> = match elem {
                    Some(Value::Str(s)) => Some(s),
                    _ => None,
                };
                v.push(x);
            },
        }
        assert(self@ =~= expected);
    }

    /// Exchanges two rows; length and kind are untouched.
    pub fn swap(&mut self, a: usize, b: usize)
        requires
            a < old(self)@.len(),
            b < old(self)@.len(),
        ensures
            final(self).kind() == old(self).kind(),
            final(self)@ == old(self)@.update(a as int, old(self)@[b as int]).update(
                b as int,
                old(self)@[a as int],
            ),
    {
        let ghost expected = old(self)@.update(a as int, old(self)@[b as int]).update(
            b as int,
            old(self)@[a as int],
        );
        match self {
            ValueVec::Int(v) => swap_in_vec(v, a, b),
            ValueVec::Float(v) => swap_in_vec(v, a, b),
            ValueVec::Str(v) => swap_in_vec(v, a, b),
        }
        assert(self@ =~= expected);
    }

    /// Splits the column at `at`: rows `[0, at)` stay, rows `[at, len)` are
    /// returned as a new column of the same kind.
    pub fn split_off(&mut self, at: usize) -> (r: Self)
        requires
            at <= old(self)@.len(),
        ensures
            final(self).kind() == old(self).kind(),
            r.kind() == old(self).kind(),
            final(self)@ == old(self)@.subrange(0, at as int),
            r@ == old(self)@.subrange(at as int, old(self)@.len() as int),
    {
        let ghost kept = old(self)@.subrange(0, at as int);
        let ghost moved = old(self)@.subrange(at as int, old(self)@.len() as int);
        let r = match self {
            ValueVec::Int(v) => ValueVec::Int(v.split_off(at)),
            ValueVec::Float(v) => ValueVec::Float(v.split_off(at)),
            ValueVec::Str(v) => ValueVec::Str(v.split_off(at)),
        };
        assert(self@ =~= kept);
        assert(r@ =~= moved);
        r
    }

    /// Whether the entry at `i` is a null.
    pub fn is_null(&self, i: usize) -> (b: bool)
        requires
            i < self@.len(),
        ensures
            b == (self@[i as int] is None),
    {
        match self {
            ValueVec::Int(v) => v[i].is_none(),
            ValueVec::Float(v) => v[i].is_none(),
            ValueVec::Str(v) => v[i].is_none(),
        }
    }
}

/// The rows of `s` at the indices where `keep` is true, in order.
pub open spec fn filter_by_mask<A>(s: Seq<A>, keep: Seq<bool>) -> Seq<A>
    decreases s.len(),
{
    if s.len() == 0 {
        Seq::empty()
    } else {
        let init = filter_by_mask(s.drop_last(), keep.drop_last());
        if s.len() - 1 < keep.len() && keep[s.len() - 1] {
            init.push(s.last())
        } else {
            init
        }
    }
}

/// How many entries of `keep` are true.
pub open spec fn count_true(keep: Seq<bool>) -> int
    decreases keep.len(),
{
    if keep.len() == 0 {
        0
    } else {
        count_true(keep.drop_last()) + (if keep.last() {
            1int
        } else {
            0int
        })
    }
}

/// Filtering keeps exactly as many rows as the mask has true entries.
pub proof fn lemma_filter_by_mask_len<A>(s: Seq<A>, keep: Seq<bool>)
    requires
        s.len() == keep.len(),
    ensures
        filter_by_mask(s, keep).len() == count_true(keep),
    decreases s.len(),
{
    if s.len() > 0 {
        lemma_filter_by_mask_len(s.drop_last(), keep.drop_last());
    }
}

impl ValueVec {
    /// Keeps exactly the rows whose mask entry is true, in order.
    #[verifier::loop_isolation(false)]
    pub fn retain_by_mask(&mut self, keep: &Vec<bool>)
        requires
            keep@.len() == old(self)@.len(),
        ensures
            final(self).kind() == old(self).kind(),
            final(self)@ == filter_by_mask(old(self)@, keep@),
    {
        let ghost orig = *old(self);
        match self {
            ValueVec::Int(v) => {
                let ghost vs = v@;
                let mut out: Vec<Option<i64>> = Vec::new();
                let mut r: usize = 0;
                while r < v.len()
                    invariant
                        r <= v@.len(),
                        v@ == vs,
                        ValueVec::Int(out)@ == filter_by_mask(
                            orig@.subrange(0, r as int),
                            keep@.subrange(0, r as int),
                        ),
                    decreases v@.len() - r,
                {
                    let ghost prev = ValueVec::Int(out)@;
                    if keep[r] {
                        out.push(v[r]);
                        assert(ValueVec::Int(out)@ =~= prev.push(orig@[r as int]));
                    }
                    proof {
                        lemma_filter_step(orig@, keep@, r as int);
                    }
                    r = r + 1;
                }
                assert(orig@.subrange(0, orig@.len() as int) =~= orig@);
                assert(keep@.subrange(0, keep@.len() as int) =~= keep@);
                *v = out;
            },
            ValueVec::Float(v) => {
                let ghost vs = v@;
                let mut out: Vec<Option<String>> = Vec::new();
                let mut r: usize = 0;
                while r < v.len()
                    invariant
                        r <= v@.len(),
                        v@ == vs,
                        ValueVec::Float(out)@ == filter_by_mask(
                            orig@.subrange(0, r as int),
                            keep@.subrange(0, r as int),
                        ),
                    decreases v@.len() - r,
                {
                    let ghost prev = ValueVec::Float(out)@;
                    if keep[r] {
                        let x = clone_opt_string(&v[r]);
                        out.push(x);
                        assert(ValueVec::Float(out)@ =~= prev.push(orig@[r as int]));
                    }
                    proof {
                        lemma_filter_step(orig@, keep@, r as int);
                    }
                    r = r + 1;
                }
                assert(orig@.subrange(0, orig@.len() as int) =~= orig@);
                assert(keep@.subrange(0, keep@.len() as int) =~= keep@);
                *v = out;
            },
            ValueVec::Str(v) => {
                let ghost vs = v@;
                let mut out: Vec<Option<String>> = Vec::new();
                let mut r: usize = 0;
                while r < v.len()
                    invariant
                        r <= v@.len(),
                        v@ == vs,
                        ValueVec::Str(out)@ == filter_by_mask(
                            orig@.subrange(0, r as int),
                            keep@.subrange(0, r as int),
                        ),
                    decreases v@.len() - r,
                {
                    let ghost prev = ValueVec::Str(out)@;
                    if keep[r] {
                        let x = clone_opt_string(&v[r]);
                        out.push(x);
                        assert(ValueVec::Str(out)@ =~= prev.push(orig@[r as int]));
                    }
                    proof {
                        lemma_filter_step(orig@, keep@, r as int);
                    }
                    r = r + 1;
                }
                assert(orig@.subrange(0, orig@.len() as int) =~= orig@);
                assert(keep@.subrange(0, keep@.len() as int) =~= keep@);
                *v = out;
            },
        }
    }
}

/// One step of filtering: extending the prefix by one row either appends
/// that row or does not, as the mask says.
proof fn lemma_filter_step<A>(s: Seq<A>, keep: Seq<bool>, r: int)
    requires
        0 <= r < s.len(),
        keep.len() == s.len(),
    ensures
        filter_by_mask(s.subrange(0, r + 1), keep.subrange(0, r + 1)) == if keep[r] {
            filter_by_mask(s.subrange(0, r), keep.subrange(0, r)).push(s[r])
        } else {
            filter_by_mask(s.subrange(0, r), keep.subrange(0, r))
        },
{
    let ext = s.subrange(0, r + 1);
    let kext = keep.subrange(0, r + 1);
    assert(ext.drop_last() =~= s.subrange(0, r));
    assert(kext.drop_last() =~= keep.subrange(0, r));
    assert(ext.last() == s[r]);
    assert(kext[ext.len() - 1] == keep[r]);
}

/// Copies an optional piece of text.
fn clone_opt_string(x: &Option<String>) -> (r: Option<String>)
    ensures
        r == x,
{
    match x {
        None => None,
        Some(s) => Some(s.clone()),
    }
}

impl Clone for ValueVec {
    /// A copy with the same kind and the same rows.
    fn clone(&self) -> (r: Self)
        ensures
            r.kind() == self.kind(),
            r@ == self@,
    {
        let r = match self {
            ValueVec::Int(v) => ValueVec::Int(clone_int_vec(v)),
            ValueVec::Float(v) => ValueVec::Float(clone_string_vec(v)),
            ValueVec::Str(v) => ValueVec::Str(clone_string_vec(v)),
        };
        assert(r@ =~= self@);
        r
    }
}

/// Copies a vector of optional integers, row for row.
fn clone_int_vec(v: &Vec<Option<i64>>) -> (r: Vec<Option<i64>>)
    ensures
        r@ == v@,
{
    let mut out: Vec<Option<i64>> = Vec::new();
    let mut i: usize = 0;
    while i < v.len()
        invariant
            i <= v@.len(),
            out@ == v@.subrange(0, i as int),
        decreases v@.len() - i,
    {
        out.push(v[i]);
        assert(out@ =~= v@.subrange(0, i as int + 1));
        i = i + 1;
    }
    assert(out@ =~= v@);
    out
}

/// Copies a vector of optional text, row for row.
pub(crate) fn clone_string_vec(v: &Vec<Option<String>>) -> (r: Vec<Option<String>>)
    ensures
        r@ == v@,
{
    let mut out: Vec<Option<String>> = Vec::new();
    let mut i: usize = 0;
    while i < v.len()
        invariant
            i <= v@.len(),
            out@ == v@.subrange(0, i as int),
        decreases v@.len() - i,
    {
        let x = clone_opt_string(&v[i]);
        out.push(x);
        assert(out@ =~= v@.subrange(0, i as int + 1));
        i = i + 1;
    }
    assert(out@ =~= v@);
    out
}

} // verus!
