//! Literals and patterns.

use vstd::prelude::*;

verus! {

/// An atomic test on one boolean feature: that it has the given value.
#[derive(Clone, Copy, Debug, PartialEq, Eq, Hash, Structural)]
pub struct Literal {
    pub feature: usize,
    pub polarity: bool,
}

/// A conjunction of literals with at most one literal per feature, kept by
/// ascending feature. Two patterns are the same set of literals if and only
/// if their sequences are equal.
#[derive(Clone, Debug)]
pub struct Pattern {
    pub literals: Vec<Literal>,
}

impl View for Pattern {
    type V = Seq<Literal>;

    open spec fn view(&self) -> Seq<Literal> {
        self.literals@
    }
}

/// The literals stand by strictly ascending feature.
pub open spec fn ascending(p: Seq<Literal>) -> bool {
    forall|a: int, b: int| 0 <= a < b < p.len() ==> (#[trigger] p[a]).feature < (#[trigger] p[b]).feature
}

/// Every feature of the pattern is below `width`.
pub open spec fn within(p: Seq<Literal>, width: int) -> bool {
    forall|k: int| 0 <= k < p.len() ==> (#[trigger] p[k]).feature < width
}

/// Whether the pattern tests the feature.
pub open spec fn mentions(p: Seq<Literal>, feature: usize) -> bool {
    exists|k: int| 0 <= k < p.len() && (#[trigger] p[k]).feature == feature
}

/// The first place from `from` on whose feature is not below `feature`.
pub open spec fn place_from(p: Seq<Literal>, feature: usize, from: int) -> int
    decreases p.len() - from,
{
    if from < 0 || from >= p.len() || p[from].feature >= feature {
        from
    } else {
        place_from(p, feature, from + 1)
    }
}

/// The pattern with one more literal, at its place in the order of features.
pub open spec fn extended(p: Seq<Literal>, literal: Literal) -> Seq<Literal> {
    p.insert(place_from(p, literal.feature, 0), literal)
}

/// Whether every literal of the pattern holds in a row of a boolean table,
/// given by its columns.
pub open spec fn holds(table: Seq<Seq<bool>>, p: Seq<Literal>, row: int) -> bool {
    forall|k: int| 0 <= k < p.len() ==> table[(#[trigger] p[k]).feature as int][row] == p[k].polarity
}

/// Whether the first `upto` literals of the pattern hold in the row.
pub open spec fn holds_upto(table: Seq<Seq<bool>>, p: Seq<Literal>, row: int, upto: int) -> bool {
    forall|k: int| 0 <= k < upto ==> table[(#[trigger] p[k]).feature as int][row] == p[k].polarity
}

proof fn lemma_place_from(p: Seq<Literal>, feature: usize, from: int)
    requires
        ascending(p),
        0 <= from <= p.len(),
        forall|k: int| 0 <= k < from ==> (#[trigger] p[k]).feature < feature,
    ensures
        from <= place_from(p, feature, from) <= p.len(),
        forall|k: int| 0 <= k < place_from(p, feature, from) ==> (#[trigger] p[k]).feature < feature,
        forall|k: int| place_from(p, feature, from) <= k < p.len() ==> (#[trigger] p[k]).feature >= feature,
    decreases p.len() - from,
{
    if from < p.len() && p[from].feature < feature {
        lemma_place_from(p, feature, from + 1);
    }
}

/// Extending a pattern by a literal on a feature that it does not test
/// keeps the order, adds one literal, and removing that literal again gives
/// the pattern back.
pub proof fn lemma_extended(p: Seq<Literal>, literal: Literal, width: int)
    requires
        ascending(p),
        within(p, width),
        literal.feature < width,
        !mentions(p, literal.feature),
    ensures
        ascending(extended(p, literal)),
        within(extended(p, literal), width),
        extended(p, literal).len() == p.len() + 1,
        0 <= place_from(p, literal.feature, 0) <= p.len(),
        extended(p, literal).remove(place_from(p, literal.feature, 0)) == p,
{
    lemma_place_from(p, literal.feature, 0);
    let at = place_from(p, literal.feature, 0);
    let q = extended(p, literal);
    assert forall|k: int| at <= k < p.len() implies (#[trigger] p[k]).feature > literal.feature by {
        if p[k].feature == literal.feature {
            assert(mentions(p, literal.feature));
        }
    }
    assert forall|a: int, b: int| 0 <= a < b < q.len() implies (#[trigger] q[a]).feature < (
    #[trigger] q[b]).feature by {
        if a < at && b > at {
            assert(q[a] == p[a] && q[b] == p[b - 1]);
        } else if a < at && b < at {
            assert(q[a] == p[a] && q[b] == p[b]);
        } else if a > at {
            assert(q[a] == p[a - 1] && q[b] == p[b - 1]);
        } else if a == at {
            assert(q[b] == p[b - 1]);
        } else {
            assert(q[a] == p[a]);
        }
    }
    assert forall|k: int| 0 <= k < q.len() implies (#[trigger] q[k]).feature < width by {
        if k < at {
            assert(q[k] == p[k]);
        } else if k > at {
            assert(q[k] == p[k - 1]);
        }
    }
    assert(q.remove(at) =~= p);
}

impl Pattern {
    /// The pattern is kept by strictly ascending feature.
    pub open spec fn wf(&self) -> bool {
        ascending(self@)
    }

    /// The empty pattern, which holds in every row.
    pub fn new() -> (pattern: Pattern)
        ensures
            pattern@.len() == 0,
            pattern.wf(),
    {
        Pattern { literals: Vec::new() }
    }

    /// The number of literals.
    pub fn degree(&self) -> (degree: usize)
        ensures
            degree == self@.len(),
    {
        self.literals.len()
    }

    /// A copy of the pattern.
    pub fn duplicate(&self) -> (copy: Pattern)
        ensures
            copy@ == self@,
    {
        Pattern { literals: self.literals.clone() }
    }

    /// Whether two patterns are the same.
    pub fn same(&self, other: &Pattern) -> (equal: bool)
        ensures
            equal == (self@ == other@),
    {
        if self.literals.len() != other.literals.len() {
            return false;
        }
        for k in 0..self.literals.len()
            invariant
                self@.len() == other@.len(),
                forall|j: int| 0 <= j < k ==> self@[j] == other@[j],
        {
            if self.literals[k] != other.literals[k] {
                return false;
            }
        }
        assert(self@ =~= other@);
        true
    }

    /// The pattern with one more literal, unless it tests the literal's
    /// feature already.
    pub fn extend(&self, literal: Literal) -> (longer: Option<Pattern>)
        requires
            self.wf(),
        ensures
            longer is None <==> mentions(self@, literal.feature),
            longer matches Some(p) ==> p@ == extended(self@, literal),
    {
        let n = self.literals.len();
        let mut at: usize = 0;
        while at < n && self.literals[at].feature < literal.feature
            invariant
                n == self@.len(),
                at <= n,
                self.wf(),
                forall|k: int| 0 <= k < at ==> (#[trigger] self@[k]).feature < literal.feature,
                place_from(self@, literal.feature, 0) == place_from(self@, literal.feature, at as int),
            decreases n - at,
        {
            at = at + 1;
        }
        if at < n && self.literals[at].feature == literal.feature {
            return None;
        }
        proof {
            if mentions(self@, literal.feature) {
                let k = choose|k: int| 0 <= k < self@.len() && (#[trigger] self@[k]).feature == literal.feature;
                if k > at {
                    assert(self@[at as int].feature < self@[k].feature);
                }
            }
        }
        let mut literals = self.literals.clone();
        literals.insert(at, literal);
        Some(Pattern { literals })
    }

    /// The pattern without its literal at place `k`.
    pub fn without(&self, k: usize) -> (shorter: Pattern)
        requires
            k < self@.len(),
        ensures
            shorter@ == self@.remove(k as int),
    {
        let mut literals = self.literals.clone();
        literals.remove(k);
        Pattern { literals }
    }

    /// Whether every literal of the pattern holds in a row of the table.
    pub fn covers(&self, columns: &Vec<Vec<bool>>, row: usize) -> (covered: bool)
        requires
            within(self@, columns@.len() as int),
            forall|c: int| 0 <= c < columns@.len() ==> row < (#[trigger] columns@[c])@.len(),
        ensures
            covered == holds(crate::table::grid(columns@), self@, row as int),
    {
        for k in 0..self.literals.len()
            invariant
                within(self@, columns@.len() as int),
                forall|c: int| 0 <= c < columns@.len() ==> row < (#[trigger] columns@[c])@.len(),
                holds_upto(crate::table::grid(columns@), self@, row as int, k as int),
        {
            let literal = self.literals[k];
            if columns[literal.feature][row] != literal.polarity {
                return false;
            }
        }
        true
    }
}

} // verus!
