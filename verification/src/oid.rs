//! Object ids: 160-bit content hashes, kept as two integers so that equality
//! and order are plain arithmetic.

use vstd::prelude::*;
use crate::error::{EngineError, ErrorKind, Operation};

verus! {

/// The four kinds of stored object.
#[derive(Clone, Copy, Debug, PartialEq, Eq, Structural)]
pub enum ObjectKind {
    Blob,
    Tree,
    Commit,
    Tag,
}

/// The id of an object: the first sixteen bytes of its digest in `hi`, the
/// last four in `lo`, both big-endian.
#[derive(Clone, Copy, Debug, PartialEq, Eq, Structural, Hash)]
pub struct ObjectId {
    pub hi: u128,
    pub lo: u32,
}

/// The error type of the hashing library.
#[verifier::external_type_specification]
#[verifier::external_body]
pub struct ExGitError(git2::Error);

/// What `git2::Oid::hash_object` computes for an object of kind `kind` with
/// the canonical content `data`: the twenty raw bytes of the id, or `None`
/// where the library refuses to hash the content.
pub uninterp spec fn object_digest(kind: ObjectKind, data: Seq<u8>) -> Option<Seq<u8>>;

/// `git2::Oid::hash_object`, followed by `Oid::as_bytes`. The result is a
/// function of the kind and the content alone; a digest has twenty bytes.
#[verifier::external_body]
fn hash_object(kind: ObjectKind, data: &[u8]) -> (r: Result<Vec<u8>, git2::Error>)
    ensures
        match r {
            Ok(d) => object_digest(kind, data@) == Some(d@) && d@.len() == 20,
            Err(_) => object_digest(kind, data@) is None,
        },
{
    let outside = match kind {
        ObjectKind::Blob => git2::ObjectType::Blob,
        ObjectKind::Tree => git2::ObjectType::Tree,
        ObjectKind::Commit => git2::ObjectType::Commit,
        ObjectKind::Tag => git2::ObjectType::Tag,
    };
    match git2::Oid::hash_object(outside, data) {
        Ok(oid) => Ok(oid.as_bytes().to_vec()),
        Err(e) => Err(e),
    }
}

/// The big-endian value of up to sixteen bytes.
pub open spec fn pack(s: Seq<u8>) -> u128
    decreases s.len(),
{
    if s.len() == 0 {
        0
    } else {
        (pack(s.drop_last()) << 8) | (s.last() as u128)
    }
}

/// The `n` low bytes of `x`, least significant first.
pub open spec fn low_bytes(x: u128, n: nat) -> Seq<u8>
    decreases n,
{
    if n == 0 {
        Seq::empty()
    } else {
        seq![(x & 0xff) as u8] + low_bytes(x >> 8, (n - 1) as nat)
    }
}

/// The id that a digest of twenty bytes stands for.
pub open spec fn id_of_digest(d: Seq<u8>) -> Option<ObjectId> {
    if d.len() == 20 {
        Some(ObjectId { hi: pack(d.subrange(0, 16)), lo: pack(d.subrange(16, 20)) as u32 })
    } else {
        None
    }
}

/// The twenty bytes of an id, most significant first.
pub open spec fn digest_of_id(id: ObjectId) -> Seq<u8> {
    low_bytes(id.hi, 16).reverse() + low_bytes(id.lo as u128, 4).reverse()
}

/// The id of an object of kind `kind` with canonical content `data`, where
/// the content can be hashed.
pub open spec fn content_id(kind: ObjectKind, data: Seq<u8>) -> Option<ObjectId> {
    match object_digest(kind, data) {
        Some(d) => id_of_digest(d),
        None => None,
    }
}

/// The order of ids: by their big-endian value.
pub open spec fn id_lt(a: ObjectId, b: ObjectId) -> bool {
    a.hi < b.hi || (a.hi == b.hi && a.lo < b.lo)
}

/// ASCII code of the lower-case hexadecimal digit for `n < 16`.
pub open spec fn hex_digit(n: u8) -> u8 {
    if n < 10 {
        (48 + n) as u8
    } else {
        (87 + n) as u8
    }
}

/// Value of an ASCII hexadecimal digit, either case.
pub open spec fn hex_value(c: u8) -> Option<u8> {
    if 48 <= c <= 57 {
        Some((c - 48) as u8)
    } else if 97 <= c <= 102 {
        Some((c - 87) as u8)
    } else if 65 <= c <= 70 {
        Some((c - 55) as u8)
    } else {
        None
    }
}

/// Two hexadecimal digits for each byte.
pub open spec fn hex_of(d: Seq<u8>) -> Seq<u8> {
    Seq::new(
        2 * d.len(),
        |i: int|
            if i % 2 == 0 {
                hex_digit(d[i / 2] / 16)
            } else {
                hex_digit(d[i / 2] % 16)
            },
    )
}

/// The bytes that a string of hexadecimal digits spells, if it has an even
/// number of characters and all are digits.
pub open spec fn unhex(h: Seq<u8>) -> Option<Seq<u8>> {
    if h.len() % 2 == 0 && (forall|i: int| 0 <= i < h.len() ==> hex_value(#[trigger] h[i]) is Some) {
        Some(
            Seq::new(
                h.len() / 2,
                |i: int| (hex_value(h[2 * i])->0 * 16 + hex_value(h[2 * i + 1])->0) as u8,
            ),
        )
    } else {
        None
    }
}

/// Hexadecimal digits filled up with zero digits to forty.
pub open spec fn padded(h: Seq<u8>) -> Seq<u8> {
    h + Seq::new((40 - h.len()) as nat, |i: int| 48u8)
}

/// The id that hexadecimal digits spell: one to forty digits of either
/// case, read as the beginning of an id whose remaining digits are zero.
pub open spec fn parse_id(h: Seq<u8>) -> Option<ObjectId> {
    if 1 <= h.len() <= 40 {
        match unhex(padded(h)) {
            Some(d) => id_of_digest(d),
            None => None,
        }
    } else {
        None
    }
}

fn pack_bytes(d: &[u8], from: usize, to: usize) -> (x: u128)
    requires
        from <= to <= d@.len(),
    ensures
        x == pack(d@.subrange(from as int, to as int)),
{
    let mut x: u128 = 0;
    let mut i: usize = from;
    while i < to
        invariant
            from <= i <= to <= d@.len(),
            x == pack(d@.subrange(from as int, i as int)),
        decreases to - i,
    {
        assert(d@.subrange(from as int, i + 1).drop_last() =~= d@.subrange(from as int, i as int));
        x = (x << 8) | (d[i] as u128);
        i += 1;
    }
    x
}

fn push_high_first(out: &mut Vec<u8>, x: u128, n: usize)
    ensures
        final(out)@ == old(out)@ + low_bytes(x, n as nat).reverse(),
    decreases n,
{
    if n > 0 {
        push_high_first(out, x >> 8, n - 1);
        let b = x & 0xff;
        assert(b <= 0xff) by (bit_vector)
            requires
                b == x & 0xff,
        ;
        out.push(b as u8);
        let ghost rest = low_bytes(x >> 8, (n - 1) as nat);
        assert(low_bytes(x, n as nat).reverse() =~= rest.reverse().push((x & 0xff) as u8));
    } else {
        assert(low_bytes(x, 0).reverse() =~= Seq::<u8>::empty());
    }
}

fn hex_digit_of(n: u8) -> (c: u8)
    requires
        n < 16,
    ensures
        c == hex_digit(n),
{
    if n < 10 {
        48 + n
    } else {
        87 + n
    }
}

fn hex_value_of(c: u8) -> (v: Option<u8>)
    ensures
        v == hex_value(c),
        v matches Some(n) ==> n < 16,
{
    if 48 <= c && c <= 57 {
        Some(c - 48)
    } else if 97 <= c && c <= 102 {
        Some(c - 87)
    } else if 65 <= c && c <= 70 {
        Some(c - 55)
    } else {
        None
    }
}

impl ObjectId {
    /// The id that the twenty bytes of a digest stand for; `None` for any
    /// other length.
    pub fn from_bytes(d: &[u8]) -> (r: Option<ObjectId>)
        ensures
            r == id_of_digest(d@),
    {
        if d.len() != 20 {
            return None;
        }
        let hi = pack_bytes(d, 0, 16);
        let lo = pack_bytes(d, 16, 20);
        Some(ObjectId { hi, lo: lo as u32 })
    }

    /// The twenty bytes of the id, most significant first.
    pub fn to_bytes(&self) -> (d: Vec<u8>)
        ensures
            d@ == digest_of_id(*self),
            d@.len() == 20,
    {
        let mut out: Vec<u8> = Vec::new();
        push_high_first(&mut out, self.hi, 16);
        push_high_first(&mut out, self.lo as u128, 4);
        proof {
            lemma_low_bytes_len(self.hi, 16);
            lemma_low_bytes_len(self.lo as u128, 4);
        }
        out
    }

    /// The id as forty lower-case hexadecimal digits.
    pub fn to_hex(&self) -> (h: Vec<u8>)
        ensures
            h@ == hex_of(digest_of_id(*self)),
            h@.len() == 40,
    {
        let d = self.to_bytes();
        let mut out: Vec<u8> = Vec::new();
        let mut i: usize = 0;
        while i < 20
            invariant
                d@.len() == 20,
                i <= 20,
                out@.len() == 2 * i,
                forall|j: int| 0 <= j < 2 * i ==> out@[j] == hex_of(d@)[j],
            decreases 20 - i,
        {
            out.push(hex_digit_of(d[i] / 16));
            out.push(hex_digit_of(d[i] % 16));
            i += 1;
        }
        assert(out@ =~= hex_of(d@));
        out
    }

    /// Reads an id from one to forty hexadecimal digits of either case;
    /// digits that are missing at the end count as zero. Anything else is
    /// a malformed id.
    pub fn from_hex(h: &[u8]) -> (r: Result<ObjectId, EngineError>)
        ensures
            r matches Err(e) ==> e.operation == Operation::Hash,
            match r {
                Ok(id) => parse_id(h@) == Some(id),
                Err(e) => parse_id(h@) is None && e.kind == ErrorKind::InvalidArgument,
            },
    {
        if h.len() == 0 || h.len() > 40 {
            return Err(EngineError::about_name(ErrorKind::InvalidArgument, Operation::Hash, h));
        }
        let mut full: Vec<u8> = crate::bytes::bytes_copy(h);
        while full.len() < 40
            invariant
                h@.len() <= full@.len() <= 40,
                full@ == h@ + Seq::new((full@.len() - h@.len()) as nat, |i: int| 48u8),
            decreases 40 - full@.len(),
        {
            full.push(48);
            assert(full@ =~= h@ + Seq::new((full@.len() - h@.len()) as nat, |i: int| 48u8));
        }
        assert(full@ == padded(h@));
        let mut d: Vec<u8> = Vec::new();
        let mut i: usize = 0;
        while i < 20
            invariant
                full@.len() == 40,
                full@ == padded(h@),
                1 <= h@.len() <= 40,
                i <= 20,
                d@.len() == i,
                forall|j: int| 0 <= j < 2 * i ==> hex_value(#[trigger] full@[j]) is Some,
                forall|j: int|
                    0 <= j < i ==> d@[j] == (hex_value(full@[2 * j])->0 * 16 + hex_value(
                        full@[2 * j + 1],
                    )->0) as u8,
            decreases 20 - i,
        {
            let a = hex_value_of(full[2 * i]);
            let b = hex_value_of(full[2 * i + 1]);
            match (a, b) {
                (Some(x), Some(y)) => {
                    d.push(x * 16 + y);
                },
                _ => {
                    assert(unhex(full@) is None);
                    return Err(
                        EngineError::about_name(ErrorKind::InvalidArgument, Operation::Hash, h),
                    );
                },
            }
            i += 1;
        }
        assert(unhex(full@) is Some);
        assert(unhex(full@)->0 =~= d@);
        match ObjectId::from_bytes(d.as_slice()) {
            Some(id) => Ok(id),
            None => Err(EngineError::about_name(ErrorKind::InvalidArgument, Operation::Hash, h)),
        }
    }

    /// Whether this id comes strictly before `other`.
    pub fn below(&self, other: &ObjectId) -> (r: bool)
        ensures
            r == id_lt(*self, *other),
    {
        self.hi < other.hi || (self.hi == other.hi && self.lo < other.lo)
    }

    /// The id of an object of kind `kind` whose canonical content is `data`.
    /// It depends on the kind and the content alone. Content that the hash
    /// function refuses is an invalid argument.
    pub fn of_content(kind: ObjectKind, data: &[u8]) -> (r: Result<ObjectId, EngineError>)
        ensures
            match r {
                Ok(id) => content_id(kind, data@) == Some(id),
                Err(e) => content_id(kind, data@) is None && e.kind == ErrorKind::InvalidArgument
                    && e.operation == Operation::Hash,
            },
    {
        match hash_object(kind, data) {
            Ok(d) => {
                match ObjectId::from_bytes(d.as_slice()) {
                    Some(id) => Ok(id),
                    None => Err(EngineError::plain(ErrorKind::InvalidArgument, Operation::Hash)),
                }
            },
            Err(_) => Err(EngineError::plain(ErrorKind::InvalidArgument, Operation::Hash)),
        }
    }
}

/// `low_bytes(x, n)` has `n` bytes.
pub proof fn lemma_low_bytes_len(x: u128, n: nat)
    ensures
        low_bytes(x, n).len() == n,
    decreases n,
{
    if n > 0 {
        lemma_low_bytes_len(x >> 8, (n - 1) as nat);
    }
}

/// The order of ids is a strict total order.
pub proof fn lemma_id_order(a: ObjectId, b: ObjectId, c: ObjectId)
    ensures
        !id_lt(a, a),
        a == b || id_lt(a, b) || id_lt(b, a),
        id_lt(a, b) && id_lt(b, c) ==> id_lt(a, c),
        !(id_lt(a, b) && id_lt(b, a)),
{
}

} // verus!
