//! Region identity: the name of a region and the place in the source where it
//! is opened, with the order in which identities are listed.

use vstd::prelude::*;
use vstd::utf8::*;

verus! {

/// A region of execution, identified by its name, source file and line.
#[derive(Debug, Clone, Copy, PartialEq, Eq, PartialOrd, Ord)]
pub struct Region {
    pub name: &'static str,
    pub file: &'static str,
    pub line: u32,
}

/// What identifies a region: two regions are the same when all three agree.
pub struct RegionKey {
    pub name: Seq<char>,
    pub file: Seq<char>,
    pub line: u32,
}

/// How two identities stand to each other in the listing order.
#[derive(Debug, Clone, Copy, PartialEq, Eq)]
pub enum Rank {
    Before,
    Same,
    After,
}

/// `a` comes before `b` in the byte-wise lexicographic order: either `a` is a
/// proper prefix of `b`, or at the first place where they differ `a` holds
/// the smaller byte.
pub open spec fn bytes_before(a: Seq<u8>, b: Seq<u8>) -> bool {
    exists|k: int| first_difference(a, b, k)
}

/// `a` and `b` agree on their first `k` bytes, and at place `k` either `a`
/// ends while `b` goes on, or `a` holds the smaller byte.
pub open spec fn first_difference(a: Seq<u8>, b: Seq<u8>, k: int) -> bool {
    &&& 0 <= k <= a.len()
    &&& k < b.len()
    &&& forall|j: int| 0 <= j < k ==> a[j] == b[j]
    &&& (k < a.len() ==> a[k] < b[k])
}

/// The listing order of identities: by name, then by file, then by line,
/// names and files compared as UTF-8 byte strings.
pub open spec fn key_before(a: RegionKey, b: RegionKey) -> bool {
    let (an, bn) = (encode_utf8(a.name), encode_utf8(b.name));
    let (af, bf) = (encode_utf8(a.file), encode_utf8(b.file));
    ||| bytes_before(an, bn)
    ||| an == bn && bytes_before(af, bf)
    ||| an == bn && af == bf && a.line < b.line
}

/// The byte-wise order is transitive.
pub proof fn lemma_bytes_before_transitive(a: Seq<u8>, b: Seq<u8>, c: Seq<u8>)
    requires
        bytes_before(a, b),
        bytes_before(b, c),
    ensures
        bytes_before(a, c),
{
    let k1 = choose|k: int| first_difference(a, b, k);
    let k2 = choose|k: int| first_difference(b, c, k);
    let k = if k1 <= k2 { k1 } else { k2 };
    assert(first_difference(a, c, k));
}

/// Nothing comes before itself in the byte-wise order.
pub proof fn lemma_bytes_before_irreflexive(a: Seq<u8>)
    ensures
        !bytes_before(a, a),
{
}

/// The listing order of identities is transitive.
pub proof fn lemma_key_before_transitive(a: RegionKey, b: RegionKey, c: RegionKey)
    requires
        key_before(a, b),
        key_before(b, c),
    ensures
        key_before(a, c),
{
    let (an, bn, cn) = (encode_utf8(a.name), encode_utf8(b.name), encode_utf8(c.name));
    let (af, bf, cf) = (encode_utf8(a.file), encode_utf8(b.file), encode_utf8(c.file));
    if bytes_before(an, bn) && bytes_before(bn, cn) {
        lemma_bytes_before_transitive(an, bn, cn);
    }
    if an == bn && bn == cn && bytes_before(af, bf) && bytes_before(bf, cf) {
        lemma_bytes_before_transitive(af, bf, cf);
    }
}

/// No identity comes before itself, so identities listed in order are distinct.
pub proof fn lemma_key_before_irreflexive(a: RegionKey)
    ensures
        !key_before(a, a),
{
}

/// Compares two byte strings in the byte-wise lexicographic order.
fn rank_bytes(a: &[u8], b: &[u8]) -> (rank: Rank)
    ensures
        rank == Rank::Before <==> bytes_before(a@, b@),
        rank == Rank::Same <==> a@ == b@,
        rank == Rank::After <==> bytes_before(b@, a@),
{
    let mut i: usize = 0;
    while i < a.len() && i < b.len()
        invariant
            i <= a.len(),
            i <= b.len(),
            forall|j: int| 0 <= j < i ==> a@[j] == b@[j],
        decreases a.len() - i,
    {
        if a[i] < b[i] {
            proof {
                assert(first_difference(a@, b@, i as int));
                lemma_bytes_differ(b@, a@, i as int);
            }
            return Rank::Before;
        }
        if b[i] < a[i] {
            proof {
                assert(first_difference(b@, a@, i as int));
                lemma_bytes_differ(a@, b@, i as int);
            }
            return Rank::After;
        }
        i += 1;
    }
    if i < b.len() {
        proof {
            assert(first_difference(a@, b@, i as int));
            lemma_bytes_differ(b@, a@, i as int);
        }
        Rank::Before
    } else if i < a.len() {
        proof {
            assert(first_difference(b@, a@, i as int));
            lemma_bytes_differ(a@, b@, i as int);
        }
        Rank::After
    } else {
        proof {
            assert(a@ =~= b@);
        }
        Rank::Same
    }
}

/// Where `b` and `a` agree before place `k` and `b` comes first at `k`, `a`
/// neither equals `b` nor comes before it.
proof fn lemma_bytes_differ(a: Seq<u8>, b: Seq<u8>, k: int)
    requires
        0 <= k <= b.len(),
        k < a.len(),
        forall|j: int| 0 <= j < k ==> a[j] == b[j],
        k < b.len() ==> b[k] < a[k],
    ensures
        a != b,
        !bytes_before(a, b),
{
    if bytes_before(a, b) {
        let m = choose|m: int| first_difference(a, b, m);
        if m < k {
            assert(a[m] == b[m]);
        }
    }
}

impl Region {
    /// The identity of this region.
    pub open spec fn key(&self) -> RegionKey {
        RegionKey { name: self.name@, file: self.file@, line: self.line }
    }

    /// Tells where this region stands to `other` in the listing order.
    pub fn rank(&self, other: &Region) -> (rank: Rank)
        ensures
            rank == Rank::Before <==> key_before(self.key(), other.key()),
            rank == Rank::Same <==> self.key() == other.key(),
            rank == Rank::After <==> key_before(other.key(), self.key()),
    {
        proof {
            lemma_encoding_tells_apart(self.name@, other.name@);
            lemma_encoding_tells_apart(self.file@, other.file@);
            lemma_bytes_before_irreflexive(encode_utf8(self.name@));
            lemma_bytes_before_irreflexive(encode_utf8(self.file@));
        }
        match rank_bytes(self.name.as_bytes(), other.name.as_bytes()) {
            Rank::Before => Rank::Before,
            Rank::After => Rank::After,
            Rank::Same => match rank_bytes(self.file.as_bytes(), other.file.as_bytes()) {
                Rank::Before => Rank::Before,
                Rank::After => Rank::After,
                Rank::Same => if self.line < other.line {
                    Rank::Before
                } else if other.line < self.line {
                    Rank::After
                } else {
                    Rank::Same
                },
            },
        }
    }
}

/// Two strings with the same UTF-8 encoding are the same string.
pub proof fn lemma_encoding_tells_apart(a: Seq<char>, b: Seq<char>)
    ensures
        encode_utf8(a) == encode_utf8(b) <==> a == b,
{
    encode_utf8_decode_utf8(a);
    encode_utf8_decode_utf8(b);
}

} // verus!
