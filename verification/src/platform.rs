//! Platform predicates attached to dependency edges.
//!
//! A predicate states on which target platforms a dependency (or a feature
//! request on it) applies: never, always, or on an explicit set of platform
//! identifiers. The only operations the graph build needs are `is_never` and
//! in-place union (`extend`).

use vstd::prelude::*;

verus! {

/// Mathematical value of a [`PlatformStatus`].
pub enum PlatView {
    /// Applies on no platform.
    Never,
    /// Applies on every platform.
    Always,
    /// Applies exactly on the given set of platform identifiers.
    Platforms(Set<u64>),
}

impl PlatView {
    /// True if the predicate holds on no platform.
    pub open spec fn is_never(self) -> bool {
        match self {
            PlatView::Never => true,
            PlatView::Always => false,
            PlatView::Platforms(s) => s =~= Set::<u64>::empty(),
        }
    }

    /// Union of two predicates: the result applies wherever either applies.
    pub open spec fn union(self, other: PlatView) -> PlatView {
        match (self, other) {
            (PlatView::Never, y) => y,
            (x, PlatView::Never) => x,
            (PlatView::Always, _) => PlatView::Always,
            (_, PlatView::Always) => PlatView::Always,
            (PlatView::Platforms(a), PlatView::Platforms(b)) => PlatView::Platforms(a.union(b)),
        }
    }
}

/// A platform predicate: never, always, or a set of platform identifiers.
#[derive(Clone, Debug)]
pub enum PlatformStatus {
    /// Applies on no platform.
    Never,
    /// Applies on every platform.
    Always,
    /// Applies on the listed platform identifiers.
    On(Vec<u64>),
}

impl View for PlatformStatus {
    type V = PlatView;

    open spec fn view(&self) -> PlatView {
        match self {
            PlatformStatus::Never => PlatView::Never,
            PlatformStatus::Always => PlatView::Always,
            PlatformStatus::On(v) => PlatView::Platforms(v@.to_set()),
        }
    }
}

impl PlatformStatus {
    /// A copy with the same mathematical value.
    pub fn dup(&self) -> (r: Self)
        ensures
            r@ == self@,
    {
        match self {
            PlatformStatus::Never => PlatformStatus::Never,
            PlatformStatus::Always => PlatformStatus::Always,
            PlatformStatus::On(v) => {
                let c = v.clone();
                proof {
                    assert(c@ =~= v@);
                }
                PlatformStatus::On(c)
            },
        }
    }

    /// True if this predicate holds on no platform.
    pub fn is_never(&self) -> (r: bool)
        ensures
            r == self@.is_never(),
    {
        match self {
            PlatformStatus::Never => true,
            PlatformStatus::Always => false,
            PlatformStatus::On(v) => {
                proof {
                    if v@.len() == 0 {
                        assert(v@.to_set() =~= Set::<u64>::empty());
                    } else {
                        assert(v@.to_set().contains(v@[0]));
                    }
                }
                v.len() == 0
            },
        }
    }

    /// True if this predicate holds on every platform.
    pub fn is_always(&self) -> (r: bool)
        ensures
            r == (self@ is Always),
    {
        matches!(self, PlatformStatus::Always)
    }

    /// In-place union: afterwards `self` applies wherever either operand did.
    pub fn extend(&mut self, other: &PlatformStatus)
        ensures
            final(self)@ == old(self)@.union(other@),
    {
        match (&*self, other) {
            (PlatformStatus::Never, _) => {
                *self = other.dup();
            },
            (_, PlatformStatus::Never) => {},
            (PlatformStatus::Always, _) => {},
            (_, PlatformStatus::Always) => {
                *self = PlatformStatus::Always;
            },
            (PlatformStatus::On(a), PlatformStatus::On(b)) => {
                let mut merged = a.clone();
                let mut i: usize = 0;
                while i < b.len()
                    invariant
                        i <= b.len(),
                        merged@ == a@ + b@.subrange(0, i as int),
                    decreases b.len() - i,
                {
                    merged.push(b[i]);
                    proof {
                        assert(merged@ == a@ + b@.subrange(0, i + 1 as int));
                    }
                    i += 1;
                }
                proof {
                    assert(b@.subrange(0, b@.len() as int) == b@);
                    assert((a@ + b@).to_set() =~= a@.to_set().union(b@.to_set())) by {
                        seq_concat_to_set(a@, b@);
                    }
                }
                *self = PlatformStatus::On(merged);
            },
        }
    }
}

/// The set of elements of a concatenation is the union of the sets.
proof fn seq_concat_to_set(a: Seq<u64>, b: Seq<u64>)
    ensures
        (a + b).to_set() =~= a.to_set().union(b.to_set()),
{
    assert forall|x: u64| (a + b).to_set().contains(x) implies a.to_set().union(b.to_set()).contains(
        x,
    ) by {
        let i = choose|i: int| 0 <= i < (a + b).len() && (a + b)[i] == x;
        if i < a.len() {
            assert(a[i] == x);
        } else {
            assert(b[i - a.len()] == x);
        }
    }
    assert forall|x: u64| a.to_set().union(b.to_set()).contains(x) implies (a + b).to_set().contains(
        x,
    ) by {
        if a.to_set().contains(x) {
            let i = choose|i: int| 0 <= i < a.len() && a[i] == x;
            assert((a + b)[i] == x);
        } else {
            let i = choose|i: int| 0 <= i < b.len() && b[i] == x;
            assert((a + b)[a.len() + i] == x);
        }
    }
}

/// Union of predicates is associative.
pub proof fn lemma_union_assoc(a: PlatView, b: PlatView, c: PlatView)
    ensures
        a.union(b).union(c) == a.union(b.union(c)),
{
    match (a, b, c) {
        (PlatView::Platforms(x), PlatView::Platforms(y), PlatView::Platforms(z)) => {
            assert(x.union(y).union(z) =~= x.union(y.union(z)));
        },
        _ => {},
    }
}

/// A union is never-valued exactly when both operands are.
pub proof fn lemma_union_never(a: PlatView, b: PlatView)
    ensures
        a.union(b).is_never() <==> a.is_never() && b.is_never(),
{
    match (a, b) {
        (PlatView::Platforms(s1), PlatView::Platforms(s2)) => {
            if s1.union(s2) =~= Set::<u64>::empty() {
                assert forall|x: u64| !s1.contains(x) by {
                    assert(!s1.union(s2).contains(x));
                }
                assert forall|x: u64| !s2.contains(x) by {
                    assert(!s1.union(s2).contains(x));
                }
                assert(s1 =~= Set::<u64>::empty());
                assert(s2 =~= Set::<u64>::empty());
            } else {
                if s1 =~= Set::<u64>::empty() && s2 =~= Set::<u64>::empty() {
                    assert(s1.union(s2) =~= Set::<u64>::empty());
                }
            }
        },
        _ => {},
    }
}

} // verus!
