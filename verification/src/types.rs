//! Fixed-size identifiers: digests, authority keys and signatures, with the
//! lexicographic order that breaks ties between digests.

use vstd::prelude::*;
use vstd::std_specs::cmp::PartialEqSpecImpl;

verus! {

/// A position in the local DAG, or a vote round inside one election.
pub type Round = u64;

/// `i` is the first position at which `a` and `b` differ.
pub open spec fn first_difference(a: Seq<u8>, b: Seq<u8>, i: int) -> bool {
    &&& 0 <= i < a.len()
    &&& i < b.len()
    &&& a[i] != b[i]
    &&& forall|j: int| 0 <= j < i ==> a[j] == b[j]
}

/// `a` comes strictly before `b` in lexicographic byte order.
pub open spec fn lex_less(a: Seq<u8>, b: Seq<u8>) -> bool {
    exists|i: int| #[trigger] first_difference(a, b, i) && a[i] < b[i]
}

/// Two sequences differ at no more than one first position.
pub proof fn lemma_first_difference_unique(a: Seq<u8>, b: Seq<u8>, i: int, k: int)
    requires
        first_difference(a, b, i),
        first_difference(a, b, k),
    ensures
        i == k,
{
    if i < k {
        assert(a[i] == b[i]);
    } else if k < i {
        assert(a[k] == b[k]);
    }
}

/// Sequences of one length that differ somewhere have a first difference.
pub proof fn lemma_first_difference_exists(a: Seq<u8>, b: Seq<u8>, k: int) -> (i: int)
    requires
        a.len() == b.len(),
        0 <= k < a.len(),
        a[k] != b[k],
    ensures
        first_difference(a, b, i),
        i <= k,
    decreases k,
{
    if exists|j: int| 0 <= j < k && a[j] != b[j] {
        let j = choose|j: int| 0 <= j < k && a[j] != b[j];
        lemma_first_difference_exists(a, b, j)
    } else {
        k
    }
}

/// Of two sequences at most one comes before the other.
pub proof fn lemma_lex_asymmetric(a: Seq<u8>, b: Seq<u8>)
    requires
        lex_less(a, b),
    ensures
        !lex_less(b, a),
{
    let i = choose|i: int| #[trigger] first_difference(a, b, i) && a[i] < b[i];
    if lex_less(b, a) {
        let k = choose|k: int| #[trigger] first_difference(b, a, k) && b[k] < a[k];
        assert(first_difference(a, b, k));
        lemma_first_difference_unique(a, b, i, k);
    }
}

/// Of two different sequences of one length, one comes before the other.
pub proof fn lemma_lex_total(a: Seq<u8>, b: Seq<u8>)
    requires
        a.len() == b.len(),
        a != b,
    ensures
        lex_less(a, b) || lex_less(b, a),
{
    if forall|k: int| 0 <= k < a.len() ==> a[k] == b[k] {
        assert(a =~= b);
    } else {
        let k = choose|k: int| 0 <= k < a.len() && a[k] != b[k];
        let i = lemma_first_difference_exists(a, b, k);
        if a[i] < b[i] {
        } else {
            assert(first_difference(b, a, i));
        }
    }
}

/// The order is transitive on sequences of one length.
pub proof fn lemma_lex_transitive(a: Seq<u8>, b: Seq<u8>, c: Seq<u8>)
    requires
        a.len() == b.len(),
        b.len() == c.len(),
        lex_less(a, b),
        lex_less(b, c),
    ensures
        lex_less(a, c),
{
    let i = choose|i: int| #[trigger] first_difference(a, b, i) && a[i] < b[i];
    let k = choose|k: int| #[trigger] first_difference(b, c, k) && b[k] < c[k];
    let m = if i <= k { i } else { k };
    assert(first_difference(a, c, m));
}

/// Whether two byte arrays hold the same bytes.
pub fn bytes_equal<const N: usize>(a: &[u8; N], b: &[u8; N]) -> (same: bool)
    ensures
        same == (a@ == b@),
        same == (*a == *b),
{
    let mut i: usize = 0;
    while i < N
        invariant
            i <= N,
            forall|j: int| 0 <= j < i ==> a@[j] == b@[j],
        decreases N - i,
    {
        if a[i] != b[i] {
            return false;
        }
        i += 1;
    }
    assert(a@ =~= b@);
    assert(*a =~= *b);
    true
}

/// Whether `a` comes strictly before `b` in lexicographic byte order.
fn bytes_less<const N: usize>(a: &[u8; N], b: &[u8; N]) -> (less: bool)
    ensures
        less == lex_less(a@, b@),
{
    let mut i: usize = 0;
    while i < N
        invariant
            i <= N,
            forall|j: int| 0 <= j < i ==> a@[j] == b@[j],
        decreases N - i,
    {
        if a[i] != b[i] {
            proof {
                assert(first_difference(a@, b@, i as int));
                if lex_less(a@, b@) {
                    let k = choose|k: int| #[trigger]
                        first_difference(a@, b@, k) && a@[k] < b@[k];
                    lemma_first_difference_unique(a@, b@, i as int, k);
                }
            }
            return a[i] < b[i];
        }
        i += 1;
    }
    false
}

/// A 32-byte content hash. Election ids and transaction hashes are digests.
#[derive(Clone, Copy, Debug, Eq, Hash)]
pub struct Digest {
    pub bytes: [u8; 32],
}

/// Identifies one unit of agreement.
pub type ElectionId = Digest;

/// Digest of a single transaction or batch.
pub type TxHash = Digest;

impl View for Digest {
    type V = Seq<u8>;

    open spec fn view(&self) -> Seq<u8> {
        self.bytes@
    }
}

impl PartialEq for Digest {
    fn eq(&self, other: &Digest) -> (same: bool) {
        bytes_equal(&self.bytes, &other.bytes)
    }
}

impl PartialEqSpecImpl for Digest {
    open spec fn obeys_eq_spec() -> bool {
        true
    }

    open spec fn eq_spec(&self, other: &Digest) -> bool {
        *self == *other
    }
}

impl Digest {
    /// The digest that holds `bytes`.
    pub fn new(bytes: [u8; 32]) -> (d: Digest)
        ensures
            d.bytes == bytes,
    {
        Digest { bytes }
    }

    /// The all-zero digest: the id of a header that has not been hashed yet.
    pub open spec fn blank() -> Digest {
        Digest { bytes: vstd::array::spec_array_fill_for_copy_type::<u8, 32>(0u8) }
    }

    /// The all-zero digest.
    pub fn zero() -> (d: Digest)
        ensures
            d == Digest::blank(),
            d@ == Seq::new(32, |i: int| 0u8),
    {
        let d = Digest { bytes: [0u8; 32] };
        assert(d@ =~= Seq::new(32, |i: int| 0u8));
        d
    }

    /// `self` ranks strictly below `other`.
    pub open spec fn ranks_below(&self, other: &Digest) -> bool {
        lex_less(self@, other@)
    }

    /// The higher-ranked of two digests.
    pub open spec fn higher(a: Digest, b: Digest) -> Digest {
        if a.ranks_below(&b) {
            b
        } else {
            a
        }
    }

    /// Whether `self` ranks strictly below `other` in lexicographic byte order.
    pub fn less_than(&self, other: &Digest) -> (less: bool)
        ensures
            less == self.ranks_below(other),
    {
        bytes_less(&self.bytes, &other.bytes)
    }

    /// The higher-ranked of `self` and `other`; `self` when they are equal.
    pub fn max_with(self, other: Digest) -> (top: Digest)
        ensures
            top == Digest::higher(self, other),
    {
        if self.less_than(&other) {
            other
        } else {
            self
        }
    }

    /// Digests with the same bytes are the same digest.
    pub proof fn lemma_view_injective(a: Digest, b: Digest)
        requires
            a@ == b@,
        ensures
            a == b,
    {
        assert(a.bytes =~= b.bytes);
    }

    /// Taking the higher digest does not depend on the order of arrival.
    pub proof fn lemma_higher_commutes(h: Digest, x: Digest, y: Digest)
        ensures
            Digest::higher(Digest::higher(h, x), y) == Digest::higher(Digest::higher(h, y), x),
    {
        Digest::lemma_order(h, x);
        Digest::lemma_order(h, y);
        Digest::lemma_order(x, y);
        if h.ranks_below(&x) && x.ranks_below(&y) {
            lemma_lex_transitive(h@, x@, y@);
        }
        if h.ranks_below(&y) && y.ranks_below(&x) {
            lemma_lex_transitive(h@, y@, x@);
        }
        if x.ranks_below(&h) && h.ranks_below(&y) {
            lemma_lex_transitive(x@, h@, y@);
        }
        if y.ranks_below(&h) && h.ranks_below(&x) {
            lemma_lex_transitive(y@, h@, x@);
        }
        if x.ranks_below(&y) && y.ranks_below(&h) {
            lemma_lex_transitive(x@, y@, h@);
        }
        if y.ranks_below(&x) && x.ranks_below(&h) {
            lemma_lex_transitive(y@, x@, h@);
        }
    }

    /// Exactly one of `a` below `b`, `a == b`, `b` below `a` holds.
    pub proof fn lemma_order(a: Digest, b: Digest)
        ensures
            a.ranks_below(&b) || a == b || b.ranks_below(&a),
            !(a.ranks_below(&b) && b.ranks_below(&a)),
            !a.ranks_below(&a),
    {
        if a.ranks_below(&b) {
            lemma_lex_asymmetric(a@, b@);
        }
        if a != b {
            if a@ == b@ {
                Digest::lemma_view_injective(a, b);
            }
            lemma_lex_total(a@, b@);
        }
    }
}

/// The identity of an authority: the bytes of its public key.
#[derive(Clone, Copy, Debug, Eq, Hash)]
pub struct PublicKey {
    pub bytes: [u8; 32],
}

impl View for PublicKey {
    type V = Seq<u8>;

    open spec fn view(&self) -> Seq<u8> {
        self.bytes@
    }
}

impl PartialEq for PublicKey {
    fn eq(&self, other: &PublicKey) -> (same: bool) {
        bytes_equal(&self.bytes, &other.bytes)
    }
}

impl PartialEqSpecImpl for PublicKey {
    open spec fn obeys_eq_spec() -> bool {
        true
    }

    open spec fn eq_spec(&self, other: &PublicKey) -> bool {
        *self == *other
    }
}

impl PublicKey {
    /// Keys with the same bytes are the same key.
    pub proof fn lemma_view_injective(a: PublicKey, b: PublicKey)
        requires
            a@ == b@,
        ensures
            a == b,
    {
        assert(a.bytes =~= b.bytes);
    }

    /// The key that holds `bytes`.
    pub fn new(bytes: [u8; 32]) -> (k: PublicKey)
        ensures
            k.bytes == bytes,
    {
        PublicKey { bytes }
    }
}

/// A signature as it travels on the wire: 64 bytes.
#[derive(Clone, Copy, Debug, Eq, Hash)]
pub struct Signature {
    pub bytes: [u8; 64],
}

impl View for Signature {
    type V = Seq<u8>;

    open spec fn view(&self) -> Seq<u8> {
        self.bytes@
    }
}

impl PartialEq for Signature {
    fn eq(&self, other: &Signature) -> (same: bool) {
        bytes_equal(&self.bytes, &other.bytes)
    }
}

impl PartialEqSpecImpl for Signature {
    open spec fn obeys_eq_spec() -> bool {
        true
    }

    open spec fn eq_spec(&self, other: &Signature) -> bool {
        *self == *other
    }
}

impl Signature {
    /// The signature that holds `bytes`.
    pub fn new(bytes: [u8; 64]) -> (s: Signature)
        ensures
            s.bytes == bytes,
    {
        Signature { bytes }
    }

    /// The all-zero signature that a message carries until it is signed.
    pub open spec fn blank() -> Signature {
        Signature { bytes: vstd::array::spec_array_fill_for_copy_type::<u8, 64>(0u8) }
    }

    /// The all-zero signature that a message carries until it is signed.
    pub fn unsigned() -> (s: Signature)
        ensures
            s == Signature::blank(),
            s@ == Seq::new(64, |i: int| 0u8),
    {
        let s = Signature { bytes: [0u8; 64] };
        assert(s@ =~= Seq::new(64, |i: int| 0u8));
        s
    }
}

} // verus!
