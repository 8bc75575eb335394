use vstd::prelude::*;
use crate::file::{FileTrait, LimitTrait};
use crate::center::center_laws;
use crate::keys::{lemma_simple_keys_lawful, SimpleFileKey, SimpleLimitKey};
use crate::labels::LimitLabel;

verus! {

/// A limit with an optional lower and an optional upper bound on whole
/// numbers.
#[derive(Debug)]
pub struct SimpleLimit {
    pub label: LimitLabel,
    pub lower: Option<i64>,
    pub upper: Option<i64>,
}

/// A file of whole numbers: column `i` holds the data of limit `i`.
#[derive(Debug)]
pub struct SimpleFile {
    pub limits: Vec<SimpleLimit>,
    pub data: Vec<Vec<i64>>,
}

/// Whether `limit` filters `value` out: below the lower or above the upper
/// bound.
pub open spec fn is_outside(value: i64, limit: SimpleLimit) -> bool {
    ||| (limit.lower matches Some(lower) && value < lower)
    ||| (limit.upper matches Some(upper) && value > upper)
}

impl Clone for SimpleLimit {
    fn clone(&self) -> (r: Self)
        ensures
            r == *self,
    {
        SimpleLimit { label: self.label.clone(), lower: self.lower, upper: self.upper }
    }
}

/// A data center over simple keys, files and limits meets what its
/// functions require of keys and limits.
pub proof fn lemma_simple_center_laws()
    ensures
        center_laws::<SimpleFileKey, SimpleLimitKey, SimpleLimit>(),
{
    lemma_simple_keys_lawful();
}

impl LimitTrait for SimpleLimit {
    open spec fn label_view(&self) -> Seq<char> {
        self.label@
    }

    open spec fn relabeled(&self, label: LimitLabel) -> Self {
        SimpleLimit { label, ..*self }
    }

    proof fn lemma_relabeled(l: Self, label: LimitLabel) {
    }

    fn has_same_label(&self, other: &Self) -> (r: bool) {
        self.label == other.label
    }

    fn change_label(&mut self, label: LimitLabel) -> (changed: bool) {
        if self.label == label {
            false
        } else {
            self.label = label;
            true
        }
    }

    fn label(&self) -> (r: &LimitLabel) {
        &self.label
    }
}

impl FileTrait for SimpleFile {
    type Limit = SimpleLimit;

    open spec fn limits_view(&self) -> Seq<SimpleLimit> {
        self.limits@
    }

    open spec fn row_count_view(&self) -> nat {
        if self.data@.len() > 0 {
            self.data@[0]@.len()
        } else {
            0
        }
    }

    open spec fn filtered_by(&self, limit_index: int, limit: SimpleLimit) -> Seq<bool> {
        if 0 <= limit_index < self.data@.len() {
            self.data@[limit_index]@.map_values(|v: i64| is_outside(v, limit))
        } else {
            Seq::empty()
        }
    }

    fn limits(&self) -> (r: &[SimpleLimit]) {
        self.limits.as_slice()
    }

    fn row_count(&self) -> (r: usize) {
        if self.data.len() > 0 {
            self.data[0].len()
        } else {
            0
        }
    }

    fn apply_limit(&mut self, limit_index: usize, limit: &SimpleLimit) -> (r: Vec<bool>) {
        let mut r: Vec<bool> = Vec::new();
        if limit_index < self.data.len() {
            let column = &self.data[limit_index];
            let mut i: usize = 0;
            while i < column.len()
                invariant
                    i <= column@.len(),
                    r@ == column@.take(i as int).map_values(|v: i64| is_outside(v, *limit)),
                decreases column@.len() - i,
            {
                let v = column[i];
                let below = match limit.lower {
                    Some(lower) => v < lower,
                    None => false,
                };
                let above = match limit.upper {
                    Some(upper) => v > upper,
                    None => false,
                };
                r.push(below || above);
                i = i + 1;
                proof {
                    assert(r@ =~= column@.take(i as int).map_values(|v: i64| is_outside(v, *limit)));
                }
            }
            proof {
                assert(column@.take(i as int) =~= column@);
            }
        }
        r
    }
}

} // verus!
