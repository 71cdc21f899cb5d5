//! Observation supports: the set of pixels a surrogate quantity was computed from.
//!
//! Surrogate evidence is computed from the same pixels the final render
//! likelihood judges, so it may never be counted twice. A support carries the
//! identity of its image and the exact set of pixel indices it read; two
//! supports combine only when they are over the same image, play the same
//! role, and share no pixel.

use vstd::prelude::*;
use vstd::bytes::{spec_u64_to_le_bytes, u64_to_le_bytes};
use vstd::string::StringSliceAdditionalSpecFns;
use vstd::set_lib::{lemma_int_range, lemma_set_disjoint_lens, set_int_range};

use crate::bitset::{
    and_words, bit_at, canonical, count_bits, count_ones, lemma_and_words_bit, lemma_count_word, lemma_index_split,
    lemma_members_bounded, lemma_members_len, lemma_or_words_bit, lemma_set_bit, lemma_words_cover,
    lemma_zero_bit, lemma_canonical_unique, members_below, or_words, words_for,
};
use crate::hashing::{hex_encode, hex_lower, sha256, sha256_digest};

verus! {

broadcast use vstd::set::group_set_axioms;

/// Domain tag hashed ahead of every support digest.
pub const SUPPORT_DIGEST_DOMAIN: &'static str = "vice-classic/observation-support/v1";

/// The set of observed pixels a quantity was computed from, over one identified image.
#[derive(Debug, Clone, PartialEq, Eq)]
pub struct ObservationSupport {
    image_sha256: String,
    pixels: usize,
    bits: Vec<u64>,
    covered: u64,
}

/// What a support contributes to an artifact: its image, size, member count and digest.
#[derive(Debug, Clone, PartialEq, Eq)]
pub struct SupportSummary {
    pub image_sha256: String,
    pub pixels: u64,
    pub covered: u64,
    pub digest: String,
}

/// Why a support could not be built.
#[derive(Debug, Clone, PartialEq, Eq)]
pub enum SupportError {
    /// An index at or beyond the image's pixel count: refused, never dropped.
    OutOfRange { index: usize, pixels: usize },
}

/// What surrogate evidence may be used for. There is no likelihood role.
#[derive(Debug, Clone, Copy, PartialEq, Eq, Structural)]
pub enum SurrogateRole {
    HypothesisGeneration,
    Pruning,
    TrustRegion,
    ProposalCost,
    Diagnostic,
}

/// Why two surrogate quantities could not be combined.
#[allow(inconsistent_fields)]
#[derive(Debug, Clone, PartialEq, Eq)]
pub enum DoubleCounted {
    /// The supports share pixels; counting them twice is forbidden.
    SharedPixels { shared: u64, pixels: u64 },
    /// The supports are over different images: incomparable, not disjoint.
    DifferentImages { a: String, b: String },
    /// The quantities play different roles.
    DifferentRoles { a: &'static str, b: &'static str },
}

/// A computation of this crate that read pixels: the support of a surrogate number is
/// read off the computation it came from. The trait is sealed, so no other crate can
/// state a support that no computation produced.
pub trait ObservationSource: crate::sealed::Sealed {
    /// The pixels the computation actually read.
    fn observation_support(&self) -> ObservationSupport;
}

/// The set of indices named by a list, as integers.
pub open spec fn index_set(indices: Seq<usize>) -> Set<int> {
    Set::new(|i: int| exists|j: int| 0 <= j < indices.len() && indices[j] as int == i)
}

/// The little-endian bytes of a sequence of words, word after word.
pub open spec fn words_le_bytes(words: Seq<u64>) -> Seq<u8>
    decreases words.len(),
{
    if words.len() == 0 {
        Seq::empty()
    } else {
        words_le_bytes(words.drop_last()) + spec_u64_to_le_bytes(words.last())
    }
}

/// The byte string a support digest hashes: the domain tag, the image identity in
/// UTF-8, the pixel count as a little-endian `u64`, then every word of the bitset.
pub open spec fn support_message(image: Seq<char>, pixels: u64, words: Seq<u64>) -> Seq<u8> {
    SUPPORT_DIGEST_DOMAIN.spec_bytes() + vstd::utf8::encode_utf8(image) + spec_u64_to_le_bytes(
        pixels,
    ) + words_le_bytes(words)
}

/// The digest of a support: lowercase hex of the SHA-256 of its message.
pub open spec fn support_digest(image: Seq<char>, pixels: u64, words: Seq<u64>) -> Seq<char> {
    hex_lower(sha256(support_message(image, pixels, words)))
}

impl SurrogateRole {
    /// The snake-case name of the role.
    pub open spec fn spec_as_str(self) -> Seq<char> {
        match self {
            SurrogateRole::HypothesisGeneration => "hypothesis_generation"@,
            SurrogateRole::Pruning => "pruning"@,
            SurrogateRole::TrustRegion => "trust_region"@,
            SurrogateRole::ProposalCost => "proposal_cost"@,
            SurrogateRole::Diagnostic => "diagnostic"@,
        }
    }

    /// The snake-case name of the role.
    pub fn as_str(&self) -> (r: &'static str)
        ensures
            r@ == self.spec_as_str(),
    {
        match self {
            SurrogateRole::HypothesisGeneration => "hypothesis_generation",
            SurrogateRole::Pruning => "pruning",
            SurrogateRole::TrustRegion => "trust_region",
            SurrogateRole::ProposalCost => "proposal_cost",
            SurrogateRole::Diagnostic => "diagnostic",
        }
    }
}

/// Setting one more in-range index in canonical words.
proof fn lemma_insert_index(old: Seq<u64>, pixels: int, i: int)
    requires
        canonical(old, pixels),
        0 <= i < pixels,
    ensures
        i / 64 < old.len(),
        ({
            let new = old.update(i / 64, old[i / 64] | (1u64 << ((i % 64) as u64)));
            &&& canonical(new, pixels)
            &&& members_below(new, pixels) == members_below(old, pixels).insert(i)
        }),
        (old[i / 64] & (1u64 << ((i % 64) as u64)) == 0) == !members_below(old, pixels).contains(i),
{
    lemma_words_cover(pixels);
    lemma_index_split(i);
    let w = i / 64;
    let b = (i % 64) as u64;
    let new = old.update(w, old[w] | (1u64 << b));
    assert forall|q: int| 0 <= q implies #[trigger] bit_at(new, q) == (bit_at(old, q) || q == i) by {
        lemma_index_split(q);
        if q / 64 == w {
            lemma_set_bit(old[w], b, (q % 64) as u64);
        }
    }
    assert forall|q: int| pixels <= q && #[trigger] bit_at(new, q) implies false by {
        assert(bit_at(old, q));
    }
    assert(members_below(new, pixels) =~= members_below(old, pixels).insert(i));
}

/// All-zero words of the right length are canonical and encode the empty set.
proof fn lemma_zero_words(words: Seq<u64>, pixels: int)
    requires
        0 <= pixels,
        words.len() == words_for(pixels),
        forall|k: int| 0 <= k < words.len() ==> words[k] == 0u64,
    ensures
        canonical(words, pixels),
        members_below(words, pixels) == Set::<int>::empty(),
{
    assert forall|q: int| #[trigger] bit_at(words, q) implies false by {
        lemma_index_split(q);
        lemma_zero_bit((q % 64) as u64);
    }
    assert(members_below(words, pixels) =~= Set::<int>::empty());
}

/// Words of a bitset, as many as `pixels` indices need.
fn zero_words(pixels: usize) -> (v: Vec<u64>)
    ensures
        v@.len() == words_for(pixels as int),
        canonical(v@, pixels as int),
        members_below(v@, pixels as int) == Set::<int>::empty(),
{
    let n = pixels / 64 + if pixels % 64 == 0 {
        0
    } else {
        1
    };
    let mut v: Vec<u64> = Vec::with_capacity(n);
    let mut k: usize = 0;
    while k < n
        invariant
            k <= n,
            n == words_for(pixels as int),
            v@.len() == k,
            forall|j: int| 0 <= j < k ==> v@[j] == 0u64,
        decreases n - k,
    {
        v.push(0u64);
        k = k + 1;
    }
    proof {
        lemma_zero_words(v@, pixels as int);
    }
    v
}

/// Sets index `i` in canonical words and counts it when it was not yet a member.
fn set_index(bits: &mut Vec<u64>, covered: &mut u64, pixels: usize, i: usize)
    requires
        canonical(old(bits)@, pixels as int),
        i < pixels,
        *old(covered) as int == members_below(old(bits)@, pixels as int).len(),
    ensures
        canonical(final(bits)@, pixels as int),
        members_below(final(bits)@, pixels as int) == members_below(old(bits)@, pixels as int).insert(
            i as int,
        ),
        *final(covered) as int == members_below(final(bits)@, pixels as int).len(),
{
    proof {
        lemma_insert_index(bits@, pixels as int, i as int);
        lemma_members_bounded(bits@, pixels as int);
    }
    let w = i / 64;
    let b = (i % 64) as u64;
    let word = bits[w];
    let mask = 1u64 << b;
    if word & mask == 0 {
        let ghost before = members_below(bits@, pixels as int);
        bits.set(w, word | mask);
        proof {
            lemma_members_bounded(bits@, pixels as int);
            assert(members_below(bits@, pixels as int) == before.insert(i as int));
            assert(!before.contains(i as int));
            assert(members_below(bits@, pixels as int).len() == before.len() + 1);
        }
        *covered = *covered + 1;
    } else {
        proof {
            let before = members_below(bits@, pixels as int);
            assert(before.contains(i as int));
            assert(before.insert(i as int) =~= before);
        }
    }
}

impl ObservationSupport {
    /// The identity of the image the support is over.
    pub closed spec fn image(&self) -> Seq<char> {
        self.image_sha256@
    }

    /// The number of pixels of that image.
    pub closed spec fn pixel_count(&self) -> nat {
        self.pixels as nat
    }

    /// The packed words of the bitset.
    pub closed spec fn words(&self) -> Seq<u64> {
        self.bits@
    }

    /// The set of pixel indices in the support.
    pub closed spec fn members(&self) -> Set<int> {
        members_below(self.bits@, self.pixels as int)
    }

    /// The member count the support carries.
    pub closed spec fn stored_count(&self) -> nat {
        self.covered as nat
    }

    /// Well-formedness: canonical words, and the stored count is the size of the set.
    pub closed spec fn wf(&self) -> bool {
        &&& canonical(self.bits@, self.pixels as int)
        &&& self.covered as int == self.members().len()
    }

    /// A well-formed support is a finite set of indices below its pixel count.
    pub proof fn lemma_members_in_range(&self)
        requires
            self.wf(),
        ensures
            self.members().finite(),
            self.members().len() <= self.pixel_count(),
            forall|i: int| #[trigger] self.members().contains(i) ==> 0 <= i < self.pixel_count(),
    {
        lemma_members_bounded(self.bits@, self.pixels as int);
    }

    /// The digest of a well-formed support depends only on its image, its pixel count
    /// and its set of members: supports built from the same indices in any order, with
    /// any repetition, have the same digest.
    pub proof fn lemma_digest_follows_the_set(a: &ObservationSupport, b: &ObservationSupport)
        requires
            a.wf(),
            b.wf(),
            a.image() == b.image(),
            a.pixel_count() == b.pixel_count(),
            a.members() == b.members(),
        ensures
            a.words() == b.words(),
            support_digest(a.image(), a.pixel_count() as u64, a.words()) == support_digest(
                b.image(),
                b.pixel_count() as u64,
                b.words(),
            ),
    {
        lemma_canonical_unique(a.bits@, b.bits@, a.pixels as int);
    }

    /// The whole image.
    pub fn whole_image(image_sha256: &str, pixels: usize) -> (s: ObservationSupport)
        ensures
            s.wf(),
            s.image() == image_sha256@,
            s.pixel_count() == pixels,
            s.members() == set_int_range(0, pixels as int),
    {
        let mut bits = zero_words(pixels);
        let mut covered: u64 = 0;
        let mut i: usize = 0;
        while i < pixels
            invariant
                i <= pixels,
                canonical(bits@, pixels as int),
                members_below(bits@, pixels as int) == set_int_range(0, i as int),
                covered as int == members_below(bits@, pixels as int).len(),
            decreases pixels - i,
        {
            set_index(&mut bits, &mut covered, pixels, i);
            assert(set_int_range(0, i as int).insert(i as int) =~= set_int_range(0, i + 1));
            i = i + 1;
        }
        ObservationSupport { image_sha256: image_sha256.to_owned(), pixels, bits, covered }
    }

    /// An explicit subset. An index outside the image is refused, never dropped: the
    /// first such index is reported.
    pub fn of_indices(image_sha256: &str, pixels: usize, indices: &[usize]) -> (r: Result<
        ObservationSupport,
        SupportError,
    >)
        ensures
            r is Ok <==> (forall|j: int| 0 <= j < indices@.len() ==> indices@[j] < pixels),
            r matches Ok(s) ==> {
                &&& s.wf()
                &&& s.image() == image_sha256@
                &&& s.pixel_count() == pixels
                &&& s.members() == index_set(indices@)
            },
            r matches Err(SupportError::OutOfRange { index, pixels: p }) ==> {
                &&& p == pixels
                &&& index >= pixels
                &&& exists|j: int|
                    0 <= j < indices@.len() && indices@[j] == index && (forall|k: int|
                        0 <= k < j ==> indices@[k] < pixels)
            },
    {
        let mut bits = zero_words(pixels);
        let mut covered: u64 = 0;
        let mut t: usize = 0;
        while t < indices.len()
            invariant
                t <= indices@.len(),
                canonical(bits@, pixels as int),
                forall|k: int| 0 <= k < t ==> indices@[k] < pixels,
                members_below(bits@, pixels as int) == index_set(indices@.take(t as int)),
                covered as int == members_below(bits@, pixels as int).len(),
            decreases indices@.len() - t,
        {
            let i = indices[t];
            if i >= pixels {
                return Err(SupportError::OutOfRange { index: i, pixels });
            }
            set_index(&mut bits, &mut covered, pixels, i);
            proof {
                let s0 = indices@.take(t as int);
                let s1 = indices@.take(t + 1);
                let before = index_set(s0);
                let after = index_set(s1);
                assert forall|q: int| #[trigger] after.contains(q) == before.insert(i as int).contains(
                    q,
                ) by {
                    if after.contains(q) {
                        let j = choose|j: int| #![trigger s1[j]] 0 <= j < s1.len() && s1[j] as int == q;
                        if j < t {
                            assert(s0[j] == s1[j]);
                        }
                    }
                    if before.contains(q) {
                        let j = choose|j: int| #![trigger s0[j]] 0 <= j < s0.len() && s0[j] as int == q;
                        assert(s1[j] == s0[j]);
                    }
                    if q == i {
                        assert(s1[t as int] == i);
                    }
                }
                assert(after =~= before.insert(i as int));
            }
            t = t + 1;
        }
        assert(indices@.take(t as int) =~= indices@);
        Ok(ObservationSupport { image_sha256: image_sha256.to_owned(), pixels, bits, covered })
    }

    /// The identity of the image.
    pub fn image_sha256(&self) -> (r: &str)
        ensures
            r@ == self.image(),
    {
        self.image_sha256.as_str()
    }

    /// The number of pixels of the image.
    pub fn pixels(&self) -> (r: usize)
        ensures
            r == self.pixel_count(),
    {
        self.pixels
    }

    /// The number of pixels in the support.
    pub fn covered(&self) -> (r: u64)
        requires
            self.wf(),
        ensures
            r == self.members().len(),
    {
        self.covered
    }

    /// Whether pixel `i` is in the support.
    pub fn contains(&self, i: usize) -> (r: bool)
        requires
            self.wf(),
        ensures
            r == self.members().contains(i as int),
    {
        if i < self.pixels {
            proof {
                lemma_words_cover(self.pixels as int);
                lemma_index_split(i as int);
            }
            self.bits[i / 64] & (1u64 << ((i % 64) as u64)) != 0
        } else {
            false
        }
    }

    /// Number of pixels in both supports; zero for supports over different images.
    pub fn shared_pixels(&self, other: &ObservationSupport) -> (r: u64)
        requires
            self.wf(),
            other.wf(),
        ensures
            r == (if self.image() == other.image() {
                self.members().intersect(other.members()).len()
            } else {
                0
            }),
    {
        if !(self.image_sha256 == other.image_sha256) {
            return 0;
        }
        let m = if self.bits.len() <= other.bits.len() {
            self.bits.len()
        } else {
            other.bits.len()
        };
        let ghost anded = and_words(self.bits@, other.bits@);
        proof {
            lemma_members_bounded(self.bits@, self.pixels as int);
            lemma_members_len(anded, (64 * m) as nat);
            self.lemma_shared_is_and(other);
            vstd::set_lib::lemma_len_intersect(self.members(), other.members());
            assert(anded.len() == m);
        }
        let mut total: u64 = 0;
        let mut k: usize = 0;
        while k < m
            invariant
                k <= m,
                m == anded.len(),
                anded == and_words(self.bits@, other.bits@),
                total as nat == count_bits(anded, (64 * k) as nat),
                count_bits(anded, (64 * m) as nat) <= self.pixels,
            decreases m - k,
        {
            let ones = count_ones(self.bits[k] & other.bits[k]);
            proof {
                lemma_count_word(anded, k as nat, 64);
                lemma_count_monotone(anded, (64 * (k + 1)) as nat, (64 * m) as nat);
                assert(64 * k + 64 == 64 * (k + 1));
            }
            total = total + ones as u64;
            k = k + 1;
        }
        total
    }

    /// The common members of two well-formed supports are the set bits of the AND.
    proof fn lemma_shared_is_and(&self, other: &ObservationSupport)
        requires
            self.wf(),
            other.wf(),
        ensures
            ({
                let anded = and_words(self.bits@, other.bits@);
                members_below(anded, (64 * anded.len()) as int) == self.members().intersect(
                    other.members(),
                )
            }),
    {
        let anded = and_words(self.bits@, other.bits@);
        let n = (64 * anded.len()) as int;
        lemma_words_cover(self.pixels as int);
        lemma_words_cover(other.pixels as int);
        assert forall|i: int| #[trigger] members_below(anded, n).contains(i) == self.members().intersect(
            other.members(),
        ).contains(i) by {
            if 0 <= i {
                lemma_and_words_bit(self.bits@, other.bits@, i);
                lemma_index_split(i);
                if bit_at(self.bits@, i) && bit_at(other.bits@, i) {
                    assert(i < self.pixels);
                    assert(i < other.pixels);
                }
            }
        }
        assert(members_below(anded, n) =~= self.members().intersect(other.members()));
    }

    /// A stable digest of the support: lowercase hex of the SHA-256 of the domain tag,
    /// the image identity, the pixel count and the words of the bitset.
    pub fn digest(&self) -> (d: String)
        ensures
            d@ == support_digest(self.image(), self.pixel_count() as u64, self.words()),
    {
        let mut msg: Vec<u8> = Vec::new();
        let tag: &[u8] = SUPPORT_DIGEST_DOMAIN.as_bytes();
        append_bytes(&mut msg, tag);
        let image: &[u8] = self.image_sha256.as_str().as_bytes();
        append_bytes(&mut msg, image);
        let size = u64_to_le_bytes(self.pixels as u64);
        append_bytes(&mut msg, size.as_slice());
        let ghost head = msg@;
        let mut k: usize = 0;
        while k < self.bits.len()
            invariant
                k <= self.bits@.len(),
                msg@ == head + words_le_bytes(self.bits@.take(k as int)),
            decreases self.bits@.len() - k,
        {
            let word = u64_to_le_bytes(self.bits[k]);
            append_bytes(&mut msg, word.as_slice());
            proof {
                assert(self.bits@.take(k + 1).drop_last() =~= self.bits@.take(k as int));
                assert(msg@ =~= head + words_le_bytes(self.bits@.take(k + 1)));
            }
            k = k + 1;
        }
        assert(self.bits@.take(k as int) =~= self.bits@);
        assert(msg@ =~= support_message(self.image(), self.pixel_count() as u64, self.words()));
        let h = sha256_digest(msg.as_slice());
        hex_encode(h.as_slice())
    }

    /// The support as it is published: image, size, member count and digest.
    pub fn summary(&self) -> (s: SupportSummary)
        requires
            self.wf(),
        ensures
            s.image_sha256@ == self.image(),
            s.pixels == self.pixel_count(),
            s.covered == self.members().len(),
            s.digest@ == support_digest(self.image(), self.pixel_count() as u64, self.words()),
    {
        SupportSummary {
            image_sha256: self.image_sha256.clone(),
            pixels: self.pixels as u64,
            covered: self.covered,
            digest: self.digest(),
        }
    }
}

/// Appends a byte slice to a byte vector.
fn append_bytes(msg: &mut Vec<u8>, bytes: &[u8])
    ensures
        final(msg)@ == old(msg)@ + bytes@,
{
    let mut k: usize = 0;
    while k < bytes.len()
        invariant
            k <= bytes@.len(),
            msg@ == old(msg)@ + bytes@.take(k as int),
        decreases bytes@.len() - k,
    {
        msg.push(bytes[k]);
        assert(bytes@.take(k + 1) =~= bytes@.take(k as int).push(bytes@[k as int]));
        k = k + 1;
    }
    assert(bytes@.take(k as int) =~= bytes@);
}

/// The running count never decreases.
proof fn lemma_count_monotone(words: Seq<u64>, a: nat, b: nat)
    requires
        a <= b,
    ensures
        count_bits(words, a) <= count_bits(words, b),
    decreases b - a,
{
    if a < b {
        lemma_count_monotone(words, a, (b - 1) as nat);
    }
}

/// Combines the supports of two surrogate quantities: refused over different images,
/// between different roles, and whenever the supports share a pixel; otherwise the
/// union of the two supports. The result keeps the image and pixel count of `a`,
/// ORs the words of `b` into those of `a` where both have one, and counts the
/// members of both; for two supports of one size this is exactly the union.
pub fn combine_disjoint(
    role_a: SurrogateRole,
    a: &ObservationSupport,
    role_b: SurrogateRole,
    b: &ObservationSupport,
) -> (r: Result<ObservationSupport, DoubleCounted>)
    requires
        a.wf(),
        b.wf(),
    ensures
        r matches Err(DoubleCounted::DifferentImages { a: x, b: y }) ==> {
            &&& a.image() != b.image()
            &&& x@ == a.image()
            &&& y@ == b.image()
        },
        r matches Err(DoubleCounted::DifferentRoles { a: x, b: y }) ==> {
            &&& a.image() == b.image()
            &&& role_a != role_b
            &&& x@ == role_a.spec_as_str()
            &&& y@ == role_b.spec_as_str()
        },
        r matches Err(DoubleCounted::SharedPixels { shared, pixels }) ==> {
            &&& a.image() == b.image()
            &&& role_a == role_b
            &&& shared == a.members().intersect(b.members()).len()
            &&& shared > 0
            &&& pixels == a.pixel_count()
        },
        r is Ok <==> (a.image() == b.image() && role_a == role_b && a.members().intersect(
            b.members(),
        ).len() == 0),
        r matches Ok(u) ==> {
            &&& u.image() == a.image()
            &&& u.pixel_count() == a.pixel_count()
            &&& u.words() == or_words(a.words(), b.words())
            &&& u.stored_count() == a.members().len() + b.members().len()
        },
        r matches Ok(u) ==> a.pixel_count() == b.pixel_count() ==> {
            &&& u.wf()
            &&& u.members() == a.members().union(b.members())
            &&& u.members().len() == a.members().len() + b.members().len()
        },
{
    if !(a.image_sha256 == b.image_sha256) {
        return Err(
            DoubleCounted::DifferentImages { a: a.image_sha256.clone(), b: b.image_sha256.clone() },
        );
    }
    if role_a != role_b {
        return Err(DoubleCounted::DifferentRoles { a: role_a.as_str(), b: role_b.as_str() });
    }
    let shared = a.shared_pixels(b);
    if shared > 0 {
        return Err(DoubleCounted::SharedPixels { shared, pixels: a.pixels as u64 });
    }
    proof {
        a.lemma_members_in_range();
        b.lemma_members_in_range();
        assert(a.members().disjoint(b.members())) by {
            assert forall|i: int| a.members().contains(i) implies !b.members().contains(i) by {
                if b.members().contains(i) {
                    assert(a.members().intersect(b.members()).contains(i));
                    vstd::set_lib::lemma_len_intersect(a.members(), b.members());
                    assert(a.members().intersect(b.members()).len() > 0) by {
                        let s = a.members().intersect(b.members());
                        vstd::set_lib::lemma_len_subset(s, a.members());
                        if s.len() == 0 {
                            assert(s =~= Set::<int>::empty());
                        }
                    }
                }
            }
        }
        lemma_set_disjoint_lens(a.members(), b.members());
        let top: int = if a.pixels >= b.pixels {
            a.pixels as int
        } else {
            b.pixels as int
        };
        lemma_int_range(0, top);
        assert((a.members() + b.members()).subset_of(set_int_range(0, top)));
        vstd::set_lib::lemma_len_subset(a.members() + b.members(), set_int_range(0, top));
    }
    let mut bits = a.bits.clone();
    let ghost orig = bits@;
    let n = if bits.len() <= b.bits.len() {
        bits.len()
    } else {
        b.bits.len()
    };
    let mut k: usize = 0;
    while k < n
        invariant
            k <= n,
            n <= orig.len(),
            n <= b.bits@.len(),
            orig == a.bits@,
            bits@.len() == orig.len(),
            forall|j: int| 0 <= j < k ==> bits@[j] == (orig[j] | b.bits@[j]),
            forall|j: int| k <= j < orig.len() ==> bits@[j] == orig[j],
        decreases n - k,
    {
        let w = bits[k] | b.bits[k];
        bits.set(k, w);
        k = k + 1;
    }
    proof {
        assert(bits@ =~= or_words(orig, b.bits@));
        if a.pixels == b.pixels {
            assert(b.bits@.len() == orig.len());
            assert forall|i: int| 0 <= i implies #[trigger] bit_at(bits@, i) == (bit_at(orig, i)
                || bit_at(b.bits@, i)) by {
                lemma_or_words_bit(orig, b.bits@, i);
            }
            assert forall|i: int| a.pixels <= i && #[trigger] bit_at(bits@, i) implies false by {
                assert(bit_at(orig, i) || bit_at(b.bits@, i));
            }
            assert(members_below(bits@, a.pixels as int) =~= a.members().union(b.members()));
        }
    }
    let covered = a.covered + b.covered;
    let u = ObservationSupport {
        image_sha256: a.image_sha256.clone(),
        pixels: a.pixels,
        bits,
        covered,
    };
    proof {
        if a.pixels == b.pixels {
            assert(u.wf());
        }
    }
    Ok(u)
}

} // verus!
