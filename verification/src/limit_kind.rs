use vstd::prelude::*;
use std::collections::HashSet;
use crate::keys::LimitKey;

verus! {

broadcast use vstd::std_specs::hash::group_hash_axioms;

/// The most distinct values that a column of integers keeps track of.
pub const MAX_UNIQUES: usize = 100;

/// The distinct values of a column of integers, as long as there are at
/// most `MAX_UNIQUES` of them.
pub enum UniqueInt {
    Uniques(HashSet<i32>),
    MoreThanHundredDifferent,
}

/// What kind of data the column of a limit holds.
pub enum LimitDataKind {
    Float,
    Int { uniques: UniqueInt, min: i32, max: i32 },
}

/// `m` is the least value of `s`, or 0 for an empty `s`.
pub open spec fn is_min_of(m: i32, s: Set<i32>) -> bool {
    if s.is_empty() {
        m == 0
    } else {
        s.contains(m) && forall|x: i32| #[trigger] s.contains(x) ==> m <= x
    }
}

/// `m` is the greatest value of `s`, or 0 for an empty `s`.
pub open spec fn is_max_of(m: i32, s: Set<i32>) -> bool {
    if s.is_empty() {
        m == 0
    } else {
        s.contains(m) && forall|x: i32| #[trigger] s.contains(x) ==> x <= m
    }
}

impl UniqueInt {
    /// The distinct values, or `None` when there were too many.
    pub open spec fn values(&self) -> Option<Set<i32>> {
        match self {
            UniqueInt::Uniques(s) => Some(s@),
            UniqueInt::MoreThanHundredDifferent => None,
        }
    }

    /// The values kept for the distinct values `s`: all of them, unless
    /// there are more than `MAX_UNIQUES`.
    pub open spec fn kept(s: Set<i32>) -> Option<Set<i32>> {
        if s.len() > MAX_UNIQUES {
            None
        } else {
            Some(s)
        }
    }
}

impl LimitDataKind {
    /// The kind as plain values: `None` for floats, else the distinct
    /// values (`None` when there are too many), the least and the greatest.
    pub open spec fn model(&self) -> Option<(Option<Set<i32>>, i32, i32)> {
        match *self {
            LimitDataKind::Float => None,
            LimitDataKind::Int { uniques, min, max } => Some((uniques.values(), min, max)),
        }
    }

    /// Takes in the kind of more data of the same limit.
    pub fn update(&mut self, data_kind: &LimitDataKind)
        ensures
            final(self).model() == merged(old(self).model(), data_kind.model()),
    {
        let mut previous = LimitDataKind::Float;
        std::mem::swap(self, &mut previous);
        *self = match (previous, data_kind) {
            (LimitDataKind::Int { uniques: previous, min: min1, max: max1 }, LimitDataKind::Int {
                uniques: new,
                min: min2,
                max: max2,
            }) => {
                let uniques = match (previous, new) {
                    (UniqueInt::Uniques(previous), UniqueInt::Uniques(new)) => {
                        let merged = union_of(previous, new);
                        if merged.len() > MAX_UNIQUES {
                            UniqueInt::MoreThanHundredDifferent
                        } else {
                            UniqueInt::Uniques(merged)
                        }
                    },
                    _ => UniqueInt::MoreThanHundredDifferent,
                };
                let min = if min1 <= *min2 {
                    min1
                } else {
                    *min2
                };
                let max = if max1 >= *max2 {
                    max1
                } else {
                    *max2
                };
                LimitDataKind::Int { uniques, min, max }
            },
            _ => LimitDataKind::Float,
        };
    }

    /// Whether the column holds integers.
    pub fn is_int(&self) -> (r: bool)
        ensures
            r == (*self is Int),
    {
        match self {
            LimitDataKind::Float => false,
            LimitDataKind::Int { .. } => true,
        }
    }

    /// The kind of a column: a column of floats (`None`), or one of the
    /// integers `values`, with their distinct values, the least and the
    /// greatest (0 for an empty column).
    pub fn new(values: Option<&[i32]>) -> (r: Self)
        ensures
            match values {
                None => r is Float,
                Some(d) => r matches LimitDataKind::Int { uniques, min, max } && {
                    &&& uniques.values() == UniqueInt::kept(d@.to_set())
                    &&& is_min_of(min, d@.to_set())
                    &&& is_max_of(max, d@.to_set())
                },
            },
    {
        match values {
            None => LimitDataKind::Float,
            Some(d) => {
                let mut set: HashSet<i32> = HashSet::new();
                let mut min: i32 = 0;
                let mut max: i32 = 0;
                let mut i: usize = 0;
                while i < d.len()
                    invariant
                        i <= d@.len(),
                        set@ == d@.take(i as int).to_set(),
                        is_min_of(min, set@),
                        is_max_of(max, set@),
                    decreases d@.len() - i,
                {
                    let v = d[i];
                    proof {
                        assert(d@.take(i + 1) =~= d@.take(i as int).push(v));
                        d@.take(i as int).lemma_push_to_set_commute(v);
                    }
                    if set.is_empty() {
                        min = v;
                        max = v;
                    } else {
                        if v < min {
                            min = v;
                        }
                        if v > max {
                            max = v;
                        }
                    }
                    set.insert(v);
                    i = i + 1;
                }
                proof {
                    assert(d@.take(d@.len() as int) =~= d@);
                }
                let uniques = if set.len() > MAX_UNIQUES {
                    UniqueInt::MoreThanHundredDifferent
                } else {
                    UniqueInt::Uniques(set)
                };
                LimitDataKind::Int { uniques, min, max }
            },
        }
    }
    /// Whether the column holds fewer than two distinct values, so that no
    /// limit on it can filter anything of interest.
    pub fn is_trivial(&self) -> (r: bool)
        ensures
            r == (*self matches LimitDataKind::Int { uniques, .. } && uniques.values() matches Some(
                s,
            ) && s.len() < 2),
    {
        match self {
            LimitDataKind::Float => false,
            LimitDataKind::Int { uniques: UniqueInt::MoreThanHundredDifferent, .. } => false,
            LimitDataKind::Int { uniques: UniqueInt::Uniques(uniques), .. } => uniques.len() < 2,
        }
    }
}

/// The axis of a heatmap keeps its limit only while that limit exists and
/// holds integers: returns the key with the least and the greatest value,
/// and clears the key otherwise.  `kind` is the kind of the limit stored
/// under the key, if there is one.
pub fn check_key(key: &mut Option<LimitKey>, kind: Option<&LimitDataKind>) -> (r: Option<(LimitKey, i32, i32)>)
    ensures
        match *old(key) {
            None => r is None && *final(key) is None,
            Some(k) => match kind {
                Some(LimitDataKind::Int { min, max, .. }) => {
                    &&& r == Some((k, *min, *max))
                    &&& *final(key) == Some(k)
                },
                _ => r is None && *final(key) is None,
            },
        },
{
    match key {
        Some(limit_key) => {
            match kind {
                Some(LimitDataKind::Int { uniques: _, min, max }) => Some((limit_key.clone(), *min, *max)),
                _ => {
                    *key = None;
                    None
                },
            }
        },
        None => None,
    }
}

/// The kind of a limit whose data so far was of kind `a` once data of kind
/// `b` comes in: floats if either holds floats, else integers with the
/// distinct values of both (unless there are too many), the least and the
/// greatest of both.
pub open spec fn merged(
    a: Option<(Option<Set<i32>>, i32, i32)>,
    b: Option<(Option<Set<i32>>, i32, i32)>,
) -> Option<(Option<Set<i32>>, i32, i32)> {
    match (a, b) {
        (Some((u1, min1, max1)), Some((u2, min2, max2))) => Some(
            (
                match (u1, u2) {
                    (Some(x), Some(y)) => UniqueInt::kept(x.union(y)),
                    _ => None,
                },
                if min1 <= min2 {
                    min1
                } else {
                    min2
                },
                if max1 >= max2 {
                    max1
                } else {
                    max2
                },
            ),
        ),
        _ => None,
    }
}

/// The distinct values that a kind keeps are a finite set.
pub open spec fn finite_values(k: Option<(Option<Set<i32>>, i32, i32)>) -> bool {
    k matches Some((Some(s), _, _)) ==> s.finite()
}

/// The order in which data comes in does not change the kind of a limit:
/// merging is commutative and associative.
pub proof fn law_merge_order_free(
    a: Option<(Option<Set<i32>>, i32, i32)>,
    b: Option<(Option<Set<i32>>, i32, i32)>,
    c: Option<(Option<Set<i32>>, i32, i32)>,
)
    requires
        finite_values(a),
        finite_values(b),
        finite_values(c),
    ensures
        merged(a, b) == merged(b, a),
        merged(merged(a, b), c) == merged(a, merged(b, c)),
{
    if let (Some((Some(x), _, _)), Some((Some(y), _, _))) = (a, b) {
        assert(x.union(y) =~= y.union(x));
    }
    if let (Some((Some(x), _, _)), Some((Some(y), _, _)), Some((Some(z), _, _))) = (a, b, c) {
        assert(x.union(y).union(z) =~= x.union(y.union(z)));
        let all = x.union(y.union(z));
        if x.union(y).len() > MAX_UNIQUES {
            vstd::set_lib::lemma_len_subset(x.union(y), all);
        }
        if y.union(z).len() > MAX_UNIQUES {
            vstd::set_lib::lemma_len_subset(y.union(z), all);
        }
    }
}

/// Merging the kind of a limit with itself keeps it, unless its values
/// were already too many to keep.
pub proof fn law_merge_idempotent(a: Option<(Option<Set<i32>>, i32, i32)>)
    ensures
        a matches Some((Some(s), _, _)) && s.len() <= MAX_UNIQUES ==> merged(a, a) == a,
        a matches Some((None, _, _)) ==> merged(a, a) == a,
        a is None ==> merged(a, a) is None,
{
    if let Some((Some(s), _, _)) = a {
        assert(s.union(s) =~= s);
    }
}

/// `previous` with every value of `new` added.
fn union_of(previous: HashSet<i32>, new: &HashSet<i32>) -> (r: HashSet<i32>)
    ensures
        r@ == previous@.union(new@),
{
    let mut merged = previous;
    let ghost start = merged@;
    let ghost mut done: Set<i32> = Set::empty();
    for x in it: new.iter()
        invariant
            it.seq().unref().to_set() == new@,
            done == it.seq().unref().take(it.index()).to_set(),
            merged@ == start.union(done),
            it.index() == it.seq().len() ==> done == new@,
    {
        proof {
            assert(it.seq().unref().take(it.index() + 1) =~= it.seq().unref().take(it.index()).push(*x));
            it.seq().unref().take(it.index()).lemma_push_to_set_commute(*x);
            done = done.insert(*x);
            assert(it.index() + 1 == it.seq().len() ==> it.seq().unref().take(it.index() + 1)
                =~= it.seq().unref());
        }
        merged.insert(*x);
        proof {
            assert(merged@ =~= start.union(done));
        }
    }
    merged
}

} // verus!
