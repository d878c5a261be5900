//! Distinct values in the order of their first occurrence, and the classes
//! that they give to rows.

use vstd::prelude::*;

use crate::table::ColumnData;

verus! {

/// The distinct values of `s`, each at the place of its first occurrence.
pub open spec fn distinct<A>(s: Seq<A>) -> Seq<A>
    decreases s.len(),
{
    if s.len() == 0 {
        Seq::empty()
    } else {
        let before = distinct(s.drop_last());
        if before.contains(s.last()) {
            before
        } else {
            before.push(s.last())
        }
    }
}

/// The class of every row: the place of its label among the distinct labels.
pub open spec fn class_codes<A>(labels: Seq<A>) -> Seq<usize> {
    Seq::new(labels.len(), |r: int| distinct(labels).index_of(labels[r]) as usize)
}

/// No value occurs twice among the distinct values, each of them occurs in
/// `s`, and every value of `s` is among them.
pub proof fn lemma_distinct<A>(s: Seq<A>)
    ensures
        distinct(s).no_duplicates(),
        distinct(s).len() <= s.len(),
        forall|x: A| distinct(s).contains(x) <==> s.contains(x),
    decreases s.len(),
{
    if s.len() > 0 {
        let front = s.drop_last();
        lemma_distinct(front);
        let before = distinct(front);
        assert forall|x: A| distinct(s).contains(x) <==> s.contains(x) by {
            if s.contains(x) {
                let i = s.index_of(x);
                assert(0 <= i < s.len() && s[i] == x);
                if i < s.len() - 1 {
                    assert(front[i] == x);
                    assert(front.contains(x));
                    let k = before.index_of(x);
                    assert(0 <= k < before.len() && before[k] == x);
                    assert(distinct(s)[k] == x);
                } else if before.contains(x) {
                    let k = before.index_of(x);
                    assert(0 <= k < before.len() && before[k] == x);
                    assert(distinct(s)[k] == x);
                } else {
                    assert(distinct(s)[before.len() as int] == x);
                }
            }
            if distinct(s).contains(x) {
                let k = distinct(s).index_of(x);
                assert(0 <= k < distinct(s).len() && distinct(s)[k] == x);
                if k < before.len() {
                    assert(before[k] == x);
                    assert(before.contains(x));
                    assert(front.contains(x));
                    let i = front.index_of(x);
                    assert(0 <= i < front.len() && front[i] == x);
                    assert(s[i] == x);
                } else {
                    assert(s[s.len() - 1] == x);
                }
            }
        }
    }
}

/// The place of a distinct value is the only one at which it stands.
pub proof fn lemma_distinct_place<A>(s: Seq<A>, k: int)
    requires
        0 <= k < distinct(s).len(),
    ensures
        distinct(s).index_of(distinct(s)[k]) == k,
{
    lemma_distinct(s);
    let d = distinct(s);
    assert(d.contains(d[k]));
    let found = d.index_of(d[k]);
    assert(0 <= found < d.len() && d[found] == d[k]);
}

/// The kind-independent part of what `encode` returns: the positions of the
/// first occurrences, and for every row the place of its value among them.
pub open spec fn is_encoding<A>(s: Seq<A>, firsts: Seq<usize>, codes: Seq<usize>) -> bool {
    &&& firsts.len() == distinct(s).len()
    &&& forall|k: int|
        0 <= k < firsts.len() ==> (#[trigger] firsts[k]) < s.len() && s[firsts[k] as int] == distinct(s)[k]
    &&& codes.len() == s.len()
    &&& forall|r: int| 0 <= r < s.len() ==> (#[trigger] codes[r]) == class_codes(s)[r] && codes[r] < firsts.len()
}

proof fn lemma_distinct_prefix<A>(s: Seq<A>, k: int)
    requires
        0 <= k <= s.len(),
    ensures
        distinct(s.take(k)).len() <= distinct(s).len(),
    decreases s.len() - k,
{
    if k < s.len() {
        assert(s.take(k + 1).drop_last() =~= s.take(k));
        lemma_distinct_prefix(s, k + 1);
    } else {
        assert(s.take(k) =~= s);
    }
}

/// Every class is the class of the row at which its label first occurs.
pub proof fn lemma_encoding_onto<A>(s: Seq<A>, firsts: Seq<usize>, codes: Seq<usize>)
    requires
        is_encoding(s, firsts, codes),
    ensures
        forall|c: usize| c < firsts.len() ==> #[trigger] codes.contains(c),
        firsts.len() <= s.len(),
{
    lemma_distinct(s);
    assert forall|c: usize| c < firsts.len() implies #[trigger] codes.contains(c) by {
        let r = firsts[c as int] as int;
        lemma_distinct_place(s, c as int);
        assert(codes[r] == c);
    }
}

impl ColumnData {
    /// Finds the distinct values of the column, unless there are more than
    /// `limit` of them: the positions at which each first occurs, in order,
    /// and for every row the place of its value among them.
    pub fn encode(&self, limit: usize) -> (found: Option<(Vec<usize>, Vec<usize>)>)
        ensures
            found is Some <==> distinct(self@).len() <= limit,
            found matches Some(pair) ==> is_encoding(self@, pair.0@, pair.1@),
    {
        let n = self.len();
        let mut firsts: Vec<usize> = Vec::new();
        let mut codes: Vec<usize> = Vec::new();
        for i in 0..n
            invariant
                n == self@.len(),
                firsts@.len() <= limit,
                is_encoding(self@.take(i as int), firsts@, codes@),
        {
            let ghost seen = self@.take(i as int);
            let ghost next = self@.take(i + 1);
            proof {
                assert(next.drop_last() =~= seen);
                assert(next.last() == self@[i as int]);
                lemma_distinct(seen);
                lemma_distinct(next);
            }
            let mut place: usize = 0;
            while place < firsts.len() && !self.same(firsts[place], self, i)
                invariant
                    n == self@.len(),
                    i < n,
                    place <= firsts@.len(),
                    seen == self@.take(i as int),
                    is_encoding(seen, firsts@, codes@),
                    forall|k: int| 0 <= k < place ==> distinct(seen)[k] != self@[i as int],
                decreases firsts@.len() - place,
            {
                assert(seen[firsts@[place as int] as int] == self@[firsts@[place as int] as int]);
                place = place + 1;
            }
            if place == firsts.len() {
                assert(!distinct(seen).contains(self@[i as int]));
                if firsts.len() >= limit {
                    proof {
                        lemma_distinct_prefix(self@, i + 1);
                    }
                    return None;
                }
                firsts.push(i);
            } else {
                assert(seen[firsts@[place as int] as int] == self@[firsts@[place as int] as int]);
                assert(distinct(seen)[place as int] == self@[i as int]);
                assert(distinct(seen).contains(self@[i as int]));
            }
            codes.push(place);
            proof {
                assert(distinct(next)[place as int] == next[i as int]);
                assert forall|r: int| 0 <= r < next.len() implies (#[trigger] codes@[r]) == class_codes(next)[r]
                    && codes@[r] < firsts@.len() by {
                    if r < i {
                        assert(next[r] == seen[r]);
                        let c = codes@[r] as int;
                        assert(c == class_codes(seen)[r]);
                        assert(seen.contains(seen[r]));
                        assert(distinct(seen).contains(seen[r]));
                        assert(distinct(seen)[c] == seen[r]);
                        assert(distinct(next)[c] == next[r]);
                        lemma_distinct_place(next, c);
                    } else {
                        lemma_distinct_place(next, place as int);
                    }
                }
                assert forall|k: int| 0 <= k < firsts@.len() implies (#[trigger] firsts@[k]) < next.len()
                    && next[firsts@[k] as int] == distinct(next)[k] by {
                    if k < distinct(seen).len() {
                        assert(seen[firsts@[k] as int] == next[firsts@[k] as int]);
                    }
                }
            }
        }
        assert(self@.take(n as int) =~= self@);
        Some((firsts, codes))
    }

    /// The distinct values of the column, however many: the positions at
    /// which each first occurs, in order, and for every row the place of its
    /// value among them.
    pub fn classes(&self) -> (found: (Vec<usize>, Vec<usize>))
        ensures
            is_encoding(self@, found.0@, found.1@),
    {
        match self.encode(self.len()) {
            Some(pair) => pair,
            None => {
                proof {
                    lemma_distinct(self@);
                }
                unreached()
            },
        }
    }
}

} // verus!
