use vstd::prelude::*;
use crate::keys::LimitKey;

verus! {

/// The limit that a view shows: either one of the locked limits, which
/// several views share by position, or a limit of its own.
#[derive(PartialEq, Eq, Structural, Debug)]
pub enum LockableLimitKey {
    Locked(usize),
    Single(LimitKey),
}

impl Clone for LockableLimitKey {
    fn clone(&self) -> (r: Self)
        ensures
            r == *self,
    {
        match self {
            LockableLimitKey::Locked(index) => LockableLimitKey::Locked(*index),
            LockableLimitKey::Single(key) => LockableLimitKey::Single(key.clone()),
        }
    }
}

impl Default for LockableLimitKey {
    fn default() -> (r: Self)
        ensures
            r == LockableLimitKey::Locked(0),
    {
        LockableLimitKey::Locked(0)
    }
}

/// The locked limits after `value` was put at position `index`: positions
/// that did not exist yet up to `index` are filled with `value` as well.
pub open spec fn locked_updated(locked_limits: Seq<LimitKey>, index: int, value: LimitKey) -> Seq<LimitKey> {
    if index < locked_limits.len() {
        locked_limits.update(index, value)
    } else {
        locked_limits + Seq::new((index + 1 - locked_limits.len()) as nat, |i: int| value)
    }
}

/// The key of the limit that a view with the lockable key shows: the
/// locked limit at its position, if that position is filled, or its own.
pub open spec fn shown_limit(key: LockableLimitKey, locked_limits: Seq<LimitKey>) -> Option<LimitKey> {
    match key {
        LockableLimitKey::Locked(index) => if index < locked_limits.len() {
            Some(locked_limits[index as int])
        } else {
            None
        },
        LockableLimitKey::Single(k) => Some(k),
    }
}

impl LockableLimitKey {
    /// The position among the locked limits, if locked, and the key of the
    /// limit shown (none if the position is not filled).
    pub fn get<'a>(&'a self, locked_limits: &'a [LimitKey]) -> (r: (Option<usize>, Option<&'a LimitKey>))
        ensures
            match *self {
                LockableLimitKey::Locked(index) => {
                    &&& r.0 == Some(index)
                    &&& r.1 == if index < locked_limits@.len() {
                        Some(&locked_limits@[index as int])
                    } else {
                        None
                    }
                },
                LockableLimitKey::Single(key) => r.0 is None && r.1 == Some(&key),
            },
            r.1 matches Some(k) ==> shown_limit(*self, locked_limits@) == Some(*k),
            r.1 is None ==> shown_limit(*self, locked_limits@) is None,
    {
        match self {
            LockableLimitKey::Locked(index) => {
                let key = if *index < locked_limits.len() {
                    Some(&locked_limits[*index])
                } else {
                    None
                };
                (Some(*index), key)
            },
            LockableLimitKey::Single(key) => (None, Some(key)),
        }
    }

    /// Whether the key is locked; with `index` given, whether it is locked
    /// at that position.
    pub fn is_locked(&self, index: Option<&usize>) -> (r: bool)
        ensures
            r == match *self {
                LockableLimitKey::Locked(i) => match index {
                    Some(j) => *j == i,
                    None => true,
                },
                LockableLimitKey::Single(_) => false,
            },
    {
        match self {
            LockableLimitKey::Locked(i) => {
                if let Some(index) = index {
                    *index == *i
                } else {
                    true
                }
            },
            LockableLimitKey::Single(_) => false,
        }
    }

    /// Shows the limit under `value`: a locked key puts it at its position
    /// among the locked limits and returns that position; a key of its own
    /// becomes `value`.
    pub fn update(&mut self, value: LimitKey, locked_limits: &mut Vec<LimitKey>) -> (r: Option<usize>)
        requires
            *old(self) matches LockableLimitKey::Locked(index) ==> index < usize::MAX,
        ensures
            match *old(self) {
                LockableLimitKey::Locked(index) => {
                    &&& r == Some(index)
                    &&& *final(self) == *old(self)
                    &&& final(locked_limits)@ == locked_updated(old(locked_limits)@, index as int, value)
                },
                LockableLimitKey::Single(_) => {
                    &&& r is None
                    &&& *final(self) == LockableLimitKey::Single(value)
                    &&& final(locked_limits)@ == old(locked_limits)@
                },
            },
    {
        match self {
            LockableLimitKey::Locked(index) => {
                let index = *index;
                let ghost start = locked_limits@;
                assert(locked_limits@.take(start.len() as int) =~= start);
                while locked_limits.len() <= index
                    invariant
                        index < usize::MAX,
                        start.len() <= locked_limits@.len(),
                        locked_limits@.len() > start.len() ==> locked_limits@.len() <= index + 1,
                        locked_limits@.take(start.len() as int) == start,
                        forall|i: int| start.len() <= i < locked_limits@.len() ==> locked_limits@[i] == value,
                    decreases index + 1 - locked_limits@.len(),
                {
                    locked_limits.push(value.clone());
                }
                locked_limits.set(index, value);
                proof {
                    assert(locked_limits@ =~= locked_updated(start, index as int, value));
                }
                Some(index)
            },
            LockableLimitKey::Single(key) => {
                *key = value;
                None
            },
        }
    }
}

/// Putting a key at a position of the locked limits: that position holds
/// the key afterwards, every other existing position keeps its key, the
/// positions added before it hold the key too, and there are as many
/// positions as before or one more than the position, whichever is more.
pub proof fn law_locked_update_keeps_others(locked_limits: Seq<LimitKey>, index: int, value: LimitKey)
    requires
        0 <= index,
    ensures
        ({
            let after = locked_updated(locked_limits, index, value);
            &&& after.len() == if index < locked_limits.len() {
                locked_limits.len() as int
            } else {
                index + 1
            }
            &&& after[index] == value
            &&& forall|j: int| 0 <= j < locked_limits.len() && j != index ==> #[trigger] after[j]
                == locked_limits[j]
            &&& forall|j: int| locked_limits.len() <= j < index ==> #[trigger] after[j] == value
        }),
{
}

/// After a view's key is updated to `value`, the view shows `value`, and
/// every other view locked at another position still shows what it showed.
pub proof fn law_shown_after_update(
    key: LockableLimitKey,
    other: LockableLimitKey,
    locked_limits: Seq<LimitKey>,
    value: LimitKey,
)
    ensures
        match key {
            LockableLimitKey::Locked(index) => {
                &&& shown_limit(key, locked_updated(locked_limits, index as int, value)) == Some(value)
                &&& (other matches LockableLimitKey::Locked(j) && j != index && shown_limit(
                    other,
                    locked_limits,
                ) is Some) ==> shown_limit(other, locked_updated(locked_limits, index as int, value))
                    == shown_limit(other, locked_limits)
            },
            LockableLimitKey::Single(_) => shown_limit(LockableLimitKey::Single(value), locked_limits)
                == Some(value),
        },
{
    if let LockableLimitKey::Locked(index) = key {
        law_locked_update_keeps_others(locked_limits, index as int, value);
    }
}

} // verus!
