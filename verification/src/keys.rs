use vstd::prelude::*;
use vstd::std_specs::cmp::{PartialEqSpec, PartialEqSpecImpl};

verus! {

/// `==` on values of the type is spec equality.
pub open spec fn eq_is_identity<K: PartialEq>() -> bool {
    vstd::laws_eq::obeys_concrete_eq::<K>()
}

/// `clone` on values of the type gives back an equal value.
pub open spec fn clone_is_copy<K: Clone>() -> bool {
    forall|a: K, r: K| #[trigger] call_ensures(K::clone, (&a,), r) ==> r == a
}

/// Under `eq_is_identity`, the result of `==` is spec equality.
pub proof fn lemma_eq_is_identity<K: PartialEq>()
    requires
        eq_is_identity::<K>(),
    ensures
        K::obeys_eq_spec(),
        forall|a: K, b: K| #[trigger] a.eq_spec(&b) <==> a == b,
{
    reveal(vstd::laws_eq::obeys_concrete_eq);
}

/// A pair of keys compares by identity when both keys do.
pub proof fn lemma_pair_eq_is_identity<A: PartialEq, B: PartialEq>()
    requires
        eq_is_identity::<A>(),
        eq_is_identity::<B>(),
    ensures
        eq_is_identity::<(A, B)>(),
{
    reveal(vstd::laws_eq::obeys_concrete_eq);
}

/// Keys compare by identity and copy faithfully.
pub open spec fn lawful_key<K: PartialEq + Clone>() -> bool {
    &&& eq_is_identity::<K>()
    &&& clone_is_copy::<K>()
}

/// A key type whose values can be handed out one after the other.
///
/// Every key has a position in the order in which a generator hands keys
/// out; the key that `increment` returns comes one position later, so a
/// generator never hands out the same key twice.
pub trait Incrementable: Sized {
    /// The key that follows this one.
    spec fn successor(&self) -> Self;

    /// The position of this key in the order in which keys are handed out.
    spec fn position(&self) -> int;

    /// Whether a key can follow this one.
    spec fn can_increment(&self) -> bool;

    proof fn lemma_successor_position(k: Self)
        requires
            k.can_increment(),
        ensures
            k.successor().position() == k.position() + 1,
    ;

    proof fn lemma_position_identifies(a: Self, b: Self)
        requires
            a.position() == b.position(),
        ensures
            a == b,
    ;

    /// Returns the key that follows this one and leaves this one as it is.
    fn increment(&mut self) -> (next: Self)
        requires
            old(self).can_increment(),
        ensures
            next == old(self).successor(),
            *final(self) == *old(self),
    ;
}

/// Hands out keys, one after the other.
#[derive(Default)]
pub struct KeyGenerator<Key> {
    pub current: Key,
}

impl<Key: Incrementable> KeyGenerator<Key> {
    /// Returns the current key and moves on to the next one.
    pub fn generate(&mut self) -> (key: Key)
        requires
            old(self).current.can_increment(),
        ensures
            key == old(self).current,
            final(self).current == old(self).current.successor(),
    {
        let mut next = self.current.increment();
        std::mem::swap(&mut self.current, &mut next);
        next
    }
}

/// The key that a generator starting at `k` hands out as its `n`-th one
/// (counting from 0).
pub open spec fn nth_key<K: Incrementable>(k: K, n: nat) -> K
    decreases n,
{
    if n == 0 {
        k
    } else {
        nth_key(k, (n - 1) as nat).successor()
    }
}

/// A generator starting at `k` can hand out `n` keys after the first.
pub open spec fn can_hand_out<K: Incrementable>(k: K, n: nat) -> bool {
    forall|i: nat| i < n ==> (#[trigger] nth_key(k, i)).can_increment()
}

proof fn lemma_nth_key_position<K: Incrementable>(k: K, n: nat, m: nat)
    requires
        can_hand_out(k, n),
        m <= n,
    ensures
        nth_key(k, m).position() == k.position() + m,
    decreases m,
{
    if m > 0 {
        lemma_nth_key_position(k, n, (m - 1) as nat);
        K::lemma_successor_position(nth_key(k, (m - 1) as nat));
    }
}

/// A key generator never hands out the same key twice.
pub proof fn law_keys_never_repeat<K: Incrementable>(k: K, n: nat, i: nat, j: nat)
    requires
        can_hand_out(k, n),
        i < j <= n,
    ensures
        nth_key(k, i) != nth_key(k, j),
{
    lemma_nth_key_position(k, n, i);
    lemma_nth_key_position(k, n, j);
}

/// Key of a file in the data center.
#[derive(Eq, Hash, Clone, Copy, Debug)]
pub struct SimpleFileKey(pub u64);

/// Key of a limit in the data center.
#[derive(Eq, Hash, Clone, Copy, Debug)]
pub struct SimpleLimitKey(pub u64);

impl PartialEq for SimpleFileKey {
    fn eq(&self, other: &Self) -> (r: bool) {
        self.0 == other.0
    }
}

impl PartialEqSpecImpl for SimpleFileKey {
    open spec fn obeys_eq_spec() -> bool {
        true
    }

    open spec fn eq_spec(&self, other: &Self) -> bool {
        self.0 == other.0
    }
}

impl PartialEq for SimpleLimitKey {
    fn eq(&self, other: &Self) -> (r: bool) {
        self.0 == other.0
    }
}

impl PartialEqSpecImpl for SimpleLimitKey {
    open spec fn obeys_eq_spec() -> bool {
        true
    }

    open spec fn eq_spec(&self, other: &Self) -> bool {
        self.0 == other.0
    }
}

impl Default for SimpleFileKey {
    fn default() -> (r: Self)
        ensures
            r.0 == 0,
    {
        SimpleFileKey(0)
    }
}

impl Default for SimpleLimitKey {
    fn default() -> (r: Self)
        ensures
            r.0 == 0,
    {
        SimpleLimitKey(0)
    }
}

impl Incrementable for SimpleFileKey {
    open spec fn successor(&self) -> Self {
        SimpleFileKey((self.0 + 1) as u64)
    }

    open spec fn position(&self) -> int {
        self.0 as int
    }

    open spec fn can_increment(&self) -> bool {
        self.0 < u64::MAX
    }

    proof fn lemma_successor_position(k: Self) {
    }

    proof fn lemma_position_identifies(a: Self, b: Self) {
    }

    fn increment(&mut self) -> (next: Self) {
        SimpleFileKey(self.0 + 1)
    }
}

impl Incrementable for SimpleLimitKey {
    open spec fn successor(&self) -> Self {
        SimpleLimitKey((self.0 + 1) as u64)
    }

    open spec fn position(&self) -> int {
        self.0 as int
    }

    open spec fn can_increment(&self) -> bool {
        self.0 < u64::MAX
    }

    proof fn lemma_successor_position(k: Self) {
    }

    proof fn lemma_position_identifies(a: Self, b: Self) {
    }

    fn increment(&mut self) -> (next: Self) {
        SimpleLimitKey(self.0 + 1)
    }
}

/// Both simple key types compare by identity and copy faithfully.
pub proof fn lemma_simple_keys_lawful()
    ensures
        lawful_key::<SimpleFileKey>(),
        lawful_key::<SimpleLimitKey>(),
{
    reveal(vstd::laws_eq::obeys_concrete_eq);
}

/// Key of a loaded file in the application.
#[derive(Debug, PartialEq, Eq, Hash, Structural)]
pub struct FileKey(pub u64);

/// Key of a limit in the application.
#[derive(Debug, PartialEq, Eq, Hash, Structural)]
pub struct LimitKey(pub u64);

impl Clone for FileKey {
    fn clone(&self) -> (r: Self)
        ensures
            r == *self,
    {
        FileKey(self.0)
    }
}

impl Clone for LimitKey {
    fn clone(&self) -> (r: Self)
        ensures
            r == *self,
    {
        LimitKey(self.0)
    }
}

/// Hands out file keys, starting at 0.
pub struct FileKeyGenerator(pub FileKey);

/// Hands out limit keys, starting at 0.
pub struct LimitKeyGenerator(pub LimitKey);

impl Default for FileKeyGenerator {
    fn default() -> (r: Self)
        ensures
            r.0.0 == 0,
    {
        FileKeyGenerator(FileKey(0))
    }
}

impl Default for LimitKeyGenerator {
    fn default() -> (r: Self)
        ensures
            r.0.0 == 0,
    {
        LimitKeyGenerator(LimitKey(0))
    }
}

impl FileKeyGenerator {
    /// Returns the current key and moves on to the next one.
    pub fn next(&mut self) -> (key: FileKey)
        requires
            old(self).0.0 < u64::MAX,
        ensures
            key == old(self).0,
            final(self).0.0 == old(self).0.0 + 1,
    {
        let t = self.0.clone();
        self.0 = FileKey(t.0 + 1);
        t
    }
}

impl LimitKeyGenerator {
    /// Returns the current key and moves on to the next one.
    pub fn next(&mut self) -> (key: LimitKey)
        requires
            old(self).0.0 < u64::MAX,
        ensures
            key == old(self).0,
            final(self).0.0 == old(self).0.0 + 1,
    {
        let t: LimitKey = self.0.clone();
        self.0 = LimitKey(t.0 + 1);
        t
    }
}

} // verus!
