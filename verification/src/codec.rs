//! Wire encodings of the frontier: a current, versioned format that restores
//! the exact frontier state, and a write-only legacy format that encodes the
//! equivalent commitment-tree snapshot (left/right leaves plus one optional
//! parent per level), kept for readers of older persisted state.

use vstd::prelude::*;
use vstd::arithmetic::div_mod::lemma_fundamental_div_mod;
use vstd::arithmetic::div_mod::lemma_div_denominator;

use crate::hash::canonical_digest;
use crate::hash::combine_of;
use crate::hash::digest_is_canonical;
use crate::hash::empty_node;
use crate::hash::is_digest;
use crate::frontier::digests_of;
use crate::frontier::lemma_ones_bound_32;
use crate::frontier::ones;
use crate::frontier::root_from;
use crate::frontier::root_of;
use crate::frontier::wf_state;
use crate::frontier::FrontierSpec;
use crate::frontier::MerkleFrontier;
use crate::frontier::DEPTH;
use crate::frontier::MAX_LEAVES;

verus! {

/// Version tag written at the head of the current encoding.
pub const ENCODING_VERSION: u8 = 1;

/// Why a byte stream failed to decode into a frontier.
#[derive(Clone, Copy, Debug, PartialEq, Eq, Structural)]
pub enum DecodeError {
    /// The stream ended before the encoding was complete.
    Truncated,
    /// The leading version tag is not one this crate understands.
    UnsupportedVersion,
    /// The empty/non-empty flag byte holds neither 0 nor 1.
    MalformedFlag,
    /// The decoded leaf position does not fit in the tree.
    PositionOutOfRange,
    /// The ommer count does not match the decoded position.
    CountMismatch,
    /// A decoded digest failed the hash capability's well-formedness check.
    NonCanonicalDigest,
}

impl DecodeError {
    /// A human-readable description of the failure.
    pub fn description(&self) -> (r: &'static str) {
        match self {
            DecodeError::Truncated => "frontier encoding is truncated",
            DecodeError::UnsupportedVersion => "unrecognized frontier encoding version",
            DecodeError::MalformedFlag => "malformed frontier occupancy flag",
            DecodeError::PositionOutOfRange => "frontier position exceeds the tree capacity",
            DecodeError::CountMismatch => "ommer count does not match the frontier position",
            DecodeError::NonCanonicalDigest => "digest is not a canonical node encoding",
        }
    }
}

/// The eight little-endian bytes of a position.
pub open spec fn le64_bytes(p: nat) -> Seq<u8> {
    seq![
        (p % 0x100) as u8,
        ((p / 0x100) % 0x100) as u8,
        ((p / 0x1_0000) % 0x100) as u8,
        ((p / 0x100_0000) % 0x100) as u8,
        ((p / 0x1_0000_0000) % 0x100) as u8,
        ((p / 0x100_0000_0000) % 0x100) as u8,
        ((p / 0x1_0000_0000_0000) % 0x100) as u8,
        ((p / 0x100_0000_0000_0000) % 0x100) as u8,
    ]
}

/// The position encoded by eight little-endian bytes.
pub open spec fn le64_value(b: Seq<u8>) -> nat
    recommends
        b.len() == 8,
{
    (b[0] as nat) + 0x100 * (b[1] as nat) + 0x1_0000 * (b[2] as nat) + 0x100_0000 * (b[3] as nat)
        + 0x1_0000_0000 * (b[4] as nat) + 0x100_0000_0000 * (b[5] as nat) + 0x1_0000_0000_0000 * (
    b[6] as nat) + 0x100_0000_0000_0000 * (b[7] as nat)
}

/// Decoding the little-endian bytes of an in-range position gives the
/// position back.
pub proof fn lemma_le64_round_trip(p: nat)
    requires
        p < MAX_LEAVES,
    ensures
        le64_value(le64_bytes(p)) == p,
{
    lemma_fundamental_div_mod(p as int, 0x100);
    lemma_div_denominator(p as int, 0x100, 0x100);
    lemma_fundamental_div_mod(p as int / 0x100, 0x100);
    lemma_div_denominator(p as int, 0x1_0000, 0x100);
    lemma_fundamental_div_mod(p as int / 0x1_0000, 0x100);
    lemma_fundamental_div_mod(p as int, 0x100_0000);
    lemma_fundamental_div_mod(p as int / 0x100_0000, 0x100);
    lemma_fundamental_div_mod(p as int, 0x1_0000_0000);
    lemma_fundamental_div_mod(p as int, 0x100_0000_0000);
    lemma_fundamental_div_mod(p as int, 0x1_0000_0000_0000);
    lemma_fundamental_div_mod(p as int, 0x100_0000_0000_0000);
}

/// The digests of a sequence laid end to end.
pub open spec fn concat_digests(oms: Seq<Seq<u8>>) -> Seq<u8>
    decreases oms.len(),
{
    if oms.len() == 0 {
        Seq::empty()
    } else {
        oms.first() + concat_digests(oms.drop_first())
    }
}

/// Length of concatenated digests.
pub proof fn lemma_concat_digests_len(oms: Seq<Seq<u8>>)
    requires
        forall|j: int| 0 <= j < oms.len() ==> (#[trigger] oms[j]).len() == 32,
    ensures
        concat_digests(oms).len() == 32 * oms.len(),
    decreases oms.len(),
{
    if oms.len() > 0 {
        assert(forall|j: int|
            0 <= j < oms.drop_first().len() ==> (#[trigger] oms.drop_first()[j]).len() == 32);
        lemma_concat_digests_len(oms.drop_first());
    }
}

/// Concatenating one more digest appends its bytes.
pub proof fn lemma_concat_digests_snoc(oms: Seq<Seq<u8>>, i: int)
    requires
        0 <= i < oms.len(),
    ensures
        concat_digests(oms.take(i + 1)) == concat_digests(oms.take(i)) + oms[i],
    decreases i,
{
    if i == 0 {
        assert(oms.take(1) =~= seq![oms[0]]);
        assert(oms.take(0) =~= Seq::<Seq<u8>>::empty());
        assert(seq![oms[0]].drop_first() =~= Seq::<Seq<u8>>::empty());
        assert(seq![oms[0]].first() == oms[0]);
        assert(concat_digests(Seq::<Seq<u8>>::empty()) == Seq::<u8>::empty());
        assert(oms[0] + Seq::<u8>::empty() =~= oms[0]);
        assert(concat_digests(oms.take(0)) + oms[0] =~= oms[0]);
    } else {
        let sdf = oms.drop_first();
        assert(oms.take(i + 1).first() == oms.first());
        assert(oms.take(i + 1).drop_first() =~= sdf.take(i));
        assert(oms.take(i).first() == oms.first());
        assert(oms.take(i).drop_first() =~= sdf.take(i - 1));
        lemma_concat_digests_snoc(sdf, i - 1);
        assert(sdf[i - 1] == oms[i]);
        assert(oms.first() + (concat_digests(sdf.take(i - 1)) + oms[i]) =~= (oms.first()
            + concat_digests(sdf.take(i - 1))) + oms[i]);
    }
}

/// Each digest is recovered from the concatenation at its own offset.
pub proof fn lemma_concat_digests_index(oms: Seq<Seq<u8>>, i: int)
    requires
        forall|j: int| 0 <= j < oms.len() ==> (#[trigger] oms[j]).len() == 32,
        0 <= i < oms.len(),
    ensures
        concat_digests(oms).subrange(32 * i, 32 * i + 32) == oms[i],
    decreases i,
{
    lemma_concat_digests_len(oms);
    let sdf = oms.drop_first();
    assert(forall|j: int| 0 <= j < sdf.len() ==> (#[trigger] sdf[j]).len() == 32);
    lemma_concat_digests_len(sdf);
    if i == 0 {
        assert(concat_digests(oms).subrange(0, 32) =~= oms.first());
    } else {
        lemma_concat_digests_index(sdf, i - 1);
        assert(concat_digests(oms).subrange(32 * i, 32 * i + 32) =~= concat_digests(sdf).subrange(
            32 * (i - 1),
            32 * (i - 1) + 32,
        ));
    }
}

/// The current encoding of a frontier state: the version tag, the occupancy
/// flag, and for a non-empty frontier the position, the rightmost leaf and
/// the ommers, lowest level first.
pub open spec fn serialize_bytes(v: Option<FrontierSpec>) -> Seq<u8> {
    match v {
        None => seq![ENCODING_VERSION, 0u8],
        Some(f) => seq![ENCODING_VERSION, 1u8] + le64_bytes(f.position) + f.leaf + seq![
            f.ommers.len() as u8,
        ] + concat_digests(f.ommers),
    }
}

/// The outcome of decoding the current encoding at offset `from` of `b`:
/// either the decoded state with the offset one past its encoding, or the
/// first reason the bytes cannot be a well-formed frontier's encoding.
pub open spec fn parse_outcome(b: Seq<u8>, from: int) -> Result<
    (Option<FrontierSpec>, int),
    DecodeError,
> {
    if b.len() < from + 2 {
        Err(DecodeError::Truncated)
    } else if b[from] != ENCODING_VERSION {
        Err(DecodeError::UnsupportedVersion)
    } else if b[from + 1] == 0u8 {
        Ok((None, from + 2))
    } else if b[from + 1] != 1u8 {
        Err(DecodeError::MalformedFlag)
    } else if b.len() < from + 10 {
        Err(DecodeError::Truncated)
    } else {
        let p = le64_value(b.subrange(from + 2, from + 10));
        if p >= MAX_LEAVES {
            Err(DecodeError::PositionOutOfRange)
        } else if b.len() < from + 43 {
            Err(DecodeError::Truncated)
        } else {
            let leaf = b.subrange(from + 10, from + 42);
            let count = b[from + 42];
            if !canonical_digest(leaf) {
                Err(DecodeError::NonCanonicalDigest)
            } else if count as nat != ones(p) {
                Err(DecodeError::CountMismatch)
            } else if b.len() < from + 43 + 32 * count {
                Err(DecodeError::Truncated)
            } else {
                let oms = Seq::new(
                    count as nat,
                    |i: int| b.subrange(from + 43 + 32 * i, from + 75 + 32 * i),
                );
                if exists|i: int| 0 <= i < count && !canonical_digest(#[trigger] oms[i]) {
                    Err(DecodeError::NonCanonicalDigest)
                } else {
                    Ok((Some(FrontierSpec { position: p, leaf, ommers: oms }), from + 43 + 32
                        * count))
                }
            }
        }
    }
}

/// Appends one digest's bytes.
fn push_digest(out: &mut Vec<u8>, d: &Vec<u8>)
    ensures
        final(out)@ == old(out)@ + d@,
{
    let mut i: usize = 0;
    while i < d.len()
        invariant
            i <= d@.len(),
            out@ == old(out)@ + d@.take(i as int),
        decreases d@.len() - i,
    {
        out.push(d[i]);
        assert(out@ =~= old(out)@ + d@.take(i as int + 1));
        i = i + 1;
    }
    assert(out@ =~= old(out)@ + d@);
}

/// Appends a position as eight little-endian bytes.
fn push_u64_le(out: &mut Vec<u8>, v: u64)
    ensures
        final(out)@ == old(out)@ + le64_bytes(v as nat),
{
    out.push((v % 0x100) as u8);
    out.push(((v / 0x100) % 0x100) as u8);
    out.push(((v / 0x1_0000) % 0x100) as u8);
    out.push(((v / 0x100_0000) % 0x100) as u8);
    out.push(((v / 0x1_0000_0000) % 0x100) as u8);
    out.push(((v / 0x100_0000_0000) % 0x100) as u8);
    out.push(((v / 0x1_0000_0000_0000) % 0x100) as u8);
    out.push(((v / 0x100_0000_0000_0000) % 0x100) as u8);
    assert(out@ =~= old(out)@ + le64_bytes(v as nat));
}

/// Reads a position from eight little-endian bytes.
fn read_u64_le(bytes: &Vec<u8>, at: usize) -> (r: u64)
    requires
        at + 8 <= bytes@.len(),
    ensures
        r as nat == le64_value(bytes@.subrange(at as int, at as int + 8)),
{
    let n = bytes.len();
    assert(at + 8 <= n);
    let r = bytes[at] as u64 + 0x100u64 * (bytes[at + 1] as u64) + 0x1_0000u64 * (bytes[at + 2]
        as u64) + 0x100_0000u64 * (bytes[at + 3] as u64) + 0x1_0000_0000u64 * (bytes[at + 4]
        as u64) + 0x100_0000_0000u64 * (bytes[at + 5] as u64) + 0x1_0000_0000_0000u64 * (bytes[at
        + 6] as u64) + 0x100_0000_0000_0000u64 * (bytes[at + 7] as u64);
    proof {
        let s = bytes@.subrange(at as int, at as int + 8);
        assert(s[0] == bytes@[at as int] && s[1] == bytes@[at as int + 1] && s[2] == bytes@[at
            as int + 2] && s[3] == bytes@[at as int + 3] && s[4] == bytes@[at as int + 4] && s[5]
            == bytes@[at as int + 5] && s[6] == bytes@[at as int + 6] && s[7] == bytes@[at as int
            + 7]);
    }
    r
}

/// Copies 32 bytes out of the stream.
fn read_digest(bytes: &Vec<u8>, at: usize) -> (r: Vec<u8>)
    requires
        at + 32 <= bytes@.len(),
    ensures
        r@ == bytes@.subrange(at as int, at as int + 32),
{
    let n = bytes.len();
    assert(at + 32 <= n);
    let mut out: Vec<u8> = Vec::new();
    let mut i: usize = 0;
    while i < 32
        invariant
            i <= 32,
            at + 32 <= n == bytes@.len(),
            out@ == bytes@.subrange(at as int, at as int + i),
        decreases 32 - i,
    {
        out.push(bytes[at + i]);
        assert(out@ =~= bytes@.subrange(at as int, at as int + i + 1));
        i = i + 1;
    }
    out
}

impl MerkleFrontier {
    /// Serializes the frontier in the current format: the exact inverse of
    /// [`MerkleFrontier::parse`].
    #[verifier::loop_isolation(false)]
    pub fn serialize(&self) -> (r: Vec<u8>)
        requires
            self.wf(),
        ensures
            r@ == serialize_bytes(self@),
    {
        let mut out: Vec<u8> = Vec::new();
        out.push(ENCODING_VERSION);
        if !self.filled {
            out.push(0u8);
            assert(out@ =~= serialize_bytes(self@));
            return out;
        }
        out.push(1u8);
        push_u64_le(&mut out, self.position);
        push_digest(&mut out, &self.leaf);
        proof {
            lemma_ones_bound_32(self.position as nat);
        }
        out.push(self.ommers.len() as u8);
        let ghost f = self@->Some_0;
        let ghost head = out@;
        assert(f.ommers.take(0) =~= Seq::<Seq<u8>>::empty());
        assert(out@ =~= head + concat_digests(f.ommers.take(0)));
        let mut i: usize = 0;
        while i < self.ommers.len()
            invariant
                i <= self.ommers@.len(),
                out@ == head + concat_digests(f.ommers.take(i as int)),
            decreases self.ommers@.len() - i,
        {
            push_digest(&mut out, &self.ommers[i]);
            proof {
                lemma_concat_digests_snoc(f.ommers, i as int);
                assert((head + concat_digests(f.ommers.take(i as int))) + f.ommers[i as int] =~=
                head + concat_digests(f.ommers.take(i as int + 1)));
            }
            i = i + 1;
        }
        assert(f.ommers.take(self.ommers@.len() as int) =~= f.ommers);
        assert(out@ =~= serialize_bytes(self@));
        out
    }

    /// Decodes a frontier from the current format at offset `from`, returning
    /// the frontier and the offset one past its encoding, or the reason the
    /// bytes are not a well-formed frontier's encoding: an unrecognized
    /// version tag, a truncated stream, a malformed or out-of-range field, or
    /// a digest the hash capability rejects.
    #[verifier::loop_isolation(false)]
    pub fn parse(bytes: &Vec<u8>, from: usize) -> (r: Result<(Self, usize), DecodeError>)
        ensures
            ({
                match (r, parse_outcome(bytes@, from as int)) {
                    (Ok((f, used)), Ok(sv)) => f@ == sv.0 && f.wf() && used as int == sv.1,
                    (Err(e), Err(se)) => e == se,
                    _ => false,
                }
            }),
    {
        if bytes.len() < 2 || from > bytes.len() - 2 {
            return Err(DecodeError::Truncated);
        }
        if bytes[from] != ENCODING_VERSION {
            return Err(DecodeError::UnsupportedVersion);
        }
        let flag = bytes[from + 1];
        if flag == 0 {
            return Ok((MerkleFrontier::empty(), from + 2));
        }
        if flag != 1 {
            return Err(DecodeError::MalformedFlag);
        }
        let rem = bytes.len() - from;
        if rem < 10 {
            return Err(DecodeError::Truncated);
        }
        let position = read_u64_le(bytes, from + 2);
        if position >= MAX_LEAVES {
            return Err(DecodeError::PositionOutOfRange);
        }
        if rem < 43 {
            return Err(DecodeError::Truncated);
        }
        let leaf = read_digest(bytes, from + 10);
        if !digest_is_canonical(&leaf) {
            return Err(DecodeError::NonCanonicalDigest);
        }
        let count = bytes[from + 42];
        if count as u64 != crate::frontier::popcount(position) {
            return Err(DecodeError::CountMismatch);
        }
        if rem - 43 < 32 * (count as usize) {
            return Err(DecodeError::Truncated);
        }
        let ghost target = Seq::new(
            count as nat,
            |i: int| bytes@.subrange(from + 43 + 32 * i, from + 75 + 32 * i),
        );
        let base = from + 43;
        let mut ommers: Vec<Vec<u8>> = Vec::new();
        let mut i: usize = 0;
        while i < count as usize
            invariant
                i <= count as usize,
                ommers@.len() == i,
                digests_of(ommers@) == target.take(i as int),
                forall|j: int| 0 <= j < i ==> canonical_digest(#[trigger] target[j]),
            decreases count as usize - i,
        {
            let d = read_digest(bytes, base + 32 * i);
            assert(d@ == target[i as int]);
            if !digest_is_canonical(&d) {
                return Err(DecodeError::NonCanonicalDigest);
            }
            ommers.push(d);
            assert(digests_of(ommers@) =~= target.take(i as int + 1));
            i = i + 1;
        }
        assert(target.take(count as int) =~= target);
        assert(forall|j: int| 0 <= j < target.len() ==> is_digest(#[trigger] target[j]));
        let f = MerkleFrontier { filled: true, position, leaf, ommers };
        assert(f@ =~= parse_outcome(bytes@, from as int)->Ok_0.0);
        Ok((f, base + 32 * (count as usize)))
    }
}

/// Decodes a frontier from the current format, boxed as callers embedding it
/// in other structures expect.
pub fn parse_sapling(bytes: &Vec<u8>, from: usize) -> (r: Result<
    (Box<MerkleFrontier>, usize),
    DecodeError,
>)
    ensures
        ({
            match (r, parse_outcome(bytes@, from as int)) {
                (Ok((f, used)), Ok(sv)) => f@ == sv.0 && f.wf() && used as int == sv.1,
                (Err(e), Err(se)) => e == se,
                _ => false,
            }
        }),
{
    match MerkleFrontier::parse(bytes, from) {
        Ok((f, used)) => Ok((Box::new(f), used)),
        Err(e) => Err(e),
    }
}

/// Parsing the current encoding of any well-formed frontier state recovers
/// that state exactly and consumes exactly its encoding. This is the
/// round-trip law for the current format.
pub proof fn lemma_round_trip(v: Option<FrontierSpec>)
    requires
        wf_state(v),
    ensures
        parse_outcome(serialize_bytes(v), 0) == Ok::<_, DecodeError>(
            (v, serialize_bytes(v).len() as int),
        ),
{
    let b = serialize_bytes(v);
    match v {
        None => {
            assert(b.len() == 2 && b[0] == ENCODING_VERSION && b[1] == 0u8);
        },
        Some(f) => {
            let n = f.ommers.len() as int;
            lemma_ones_bound_32(f.position);
            assert(forall|j: int| 0 <= j < f.ommers.len() ==> (#[trigger] f.ommers[j]).len() == 32);
            lemma_concat_digests_len(f.ommers);
            assert(b.len() == 43 + 32 * n);
            assert(b[0] == ENCODING_VERSION && b[1] == 1u8);
            assert(b.subrange(2, 10) =~= le64_bytes(f.position));
            lemma_le64_round_trip(f.position);
            assert(b.subrange(10, 42) =~= f.leaf);
            assert(b[42] == f.ommers.len() as u8);
            assert((f.ommers.len() as u8) as nat == ones(f.position));
            let oms = Seq::new(
                n as nat,
                |i: int| b.subrange(43 + 32 * i, 75 + 32 * i),
            );
            assert(forall|i: int| 0 <= i < n ==> oms[i] == f.ommers[i]) by {
                assert forall|i: int| 0 <= i < n implies oms[i] == f.ommers[i] by {
                    lemma_concat_digests_index(f.ommers, i);
                    assert(b.subrange(43 + 32 * i, 75 + 32 * i) =~= concat_digests(
                        f.ommers,
                    ).subrange(32 * i, 32 * i + 32));
                }
            }
            assert(oms =~= f.ommers);
            assert(!(exists|i: int| 0 <= i < n && !canonical_digest(#[trigger] oms[i])));
            assert(parse_outcome(b, 0)->Ok_0.0 =~= v);
        },
    }
}

/// Encoding the position a byte sequence decodes to gives the bytes back,
/// provided the position is in range.
proof fn lemma_le64_bytes_of_value(s: Seq<u8>)
    requires
        s.len() == 8,
        le64_value(s) < MAX_LEAVES,
    ensures
        le64_bytes(le64_value(s)) == s,
{
    let p = le64_value(s) as int;
    assert(s[4] == 0 && s[5] == 0 && s[6] == 0 && s[7] == 0);
    let q1 = s[1] + 0x100 * (s[2] as int) + 0x1_0000 * (s[3] as int);
    vstd::arithmetic::div_mod::lemma_fundamental_div_mod_converse(p, 0x100, q1, s[0] as int);
    let q2 = s[2] + 0x100 * (s[3] as int);
    vstd::arithmetic::div_mod::lemma_fundamental_div_mod_converse(q1, 0x100, q2, s[1] as int);
    vstd::arithmetic::div_mod::lemma_fundamental_div_mod_converse(
        q2,
        0x100,
        s[3] as int,
        s[2] as int,
    );
    lemma_div_denominator(p, 0x100, 0x100);
    lemma_div_denominator(p, 0x1_0000, 0x100);
    vstd::arithmetic::div_mod::lemma_fundamental_div_mod_converse(
        s[3] as int,
        0x100,
        0,
        s[3] as int,
    );
    lemma_div_denominator(p, 0x100_0000, 0x100);
    lemma_fundamental_div_mod(p, 0x1_0000_0000);
    lemma_fundamental_div_mod(p, 0x100_0000_0000);
    lemma_fundamental_div_mod(p, 0x1_0000_0000_0000);
    lemma_fundamental_div_mod(p, 0x100_0000_0000_0000);
    assert(le64_bytes(le64_value(s)) =~= s);
}

/// Parsing accepts only what the serializer writes: a successful parse
/// returns a well-formed state, and the bytes it consumed are exactly that
/// state's encoding. Together with [`lemma_round_trip`] this makes the
/// current format a bijection between well-formed frontier states and their
/// encodings.
pub proof fn lemma_parse_sound(b: Seq<u8>, from: int)
    requires
        0 <= from,
        parse_outcome(b, from) is Ok,
    ensures
        ({
            let (v, n) = parse_outcome(b, from)->Ok_0;
            wf_state(v) && from <= n <= b.len() && b.subrange(from, n) == serialize_bytes(v)
        }),
{
    let (v, n) = parse_outcome(b, from)->Ok_0;
    if b[from + 1] == 0u8 {
        assert(b.subrange(from, from + 2) =~= serialize_bytes(v));
    } else {
        let s = b.subrange(from + 2, from + 10);
        let p = le64_value(s);
        let count = b[from + 42];
        let oms = Seq::new(
            count as nat,
            |i: int| b.subrange(from + 43 + 32 * i, from + 75 + 32 * i),
        );
        let f = FrontierSpec { position: p, leaf: b.subrange(from + 10, from + 42), ommers: oms };
        assert(v == Some(f));
        assert(wf_state(v));
        lemma_le64_bytes_of_value(s);
        assert(forall|j: int| 0 <= j < oms.len() ==> (#[trigger] oms[j]).len() == 32);
        lemma_concat_digests_len(oms);
        let region = b.subrange(from + 43, from + 43 + 32 * (count as int));
        assert forall|j: int| 0 <= j < 32 * (count as int) implies concat_digests(oms)[j]
            == region[j] by {
            let i = j / 32;
            lemma_fundamental_div_mod(j, 32);
            assert(0 <= i < count as int) by {
                lemma_fundamental_div_mod(j, 32);
                if i >= count as int {
                    assert(j >= 32 * (count as int)) by (nonlinear_arith)
                        requires
                            j == 32 * i + j % 32,
                            i >= count as int,
                            j % 32 >= 0,
                    ;
                }
            }
            lemma_concat_digests_index(oms, i);
            assert(concat_digests(oms)[j] == concat_digests(oms).subrange(32 * i, 32 * i + 32)[j
                - 32 * i]);
            assert(oms[i][j - 32 * i] == b[from + 43 + 32 * i + (j - 32 * i)]);
        }
        assert(concat_digests(oms) =~= region);
        assert((count as nat) as u8 == count);
        assert(b.subrange(from, n) =~= serialize_bytes(v));
    }
}

// ------------------------------------------------------------------
// Legacy format: the commitment-tree snapshot derived from the frontier.
// ------------------------------------------------------------------

/// One optional digest in the legacy encoding: an absence byte, or a presence
/// byte followed by the digest.
pub open spec fn opt_digest_bytes(o: Option<Seq<u8>>) -> Seq<u8> {
    match o {
        None => seq![0u8],
        Some(d) => seq![1u8] + d,
    }
}

/// The optional parent entries of the legacy tree for levels `level` up to
/// `depth`: the retained ommer where the position has a set bit, absence
/// otherwise.
pub open spec fn legacy_parents(p: nat, oms: Seq<Seq<u8>>, level: int, depth: int) -> Seq<
    Option<Seq<u8>>,
>
    decreases depth - level,
{
    if level >= depth {
        Seq::empty()
    } else if p % 2 == 1 {
        seq![Some(oms.first())] + legacy_parents(p / 2, oms.drop_first(), level + 1, depth)
    } else {
        seq![Option::<Seq<u8>>::None] + legacy_parents(p / 2, oms, level + 1, depth)
    }
}

/// The legacy commitment-tree snapshot of a frontier state: the level-0 left
/// and right leaves and one optional parent per level above, exactly the
/// structure an external reader of the legacy format reconstructs.
pub open spec fn legacy_tree_of(v: Option<FrontierSpec>, depth: int) -> (
    Option<Seq<u8>>,
    Option<Seq<u8>>,
    Seq<Option<Seq<u8>>>,
) {
    match v {
        None => (None, None, Seq::empty()),
        Some(f) => {
            if f.position % 2 == 1 {
                (
                    Some(f.ommers.first()),
                    Some(f.leaf),
                    legacy_parents(f.position / 2, f.ommers.drop_first(), 1, depth),
                )
            } else {
                (Some(f.leaf), None, legacy_parents(f.position / 2, f.ommers, 1, depth))
            }
        },
    }
}

/// Optional digests laid end to end.
pub open spec fn opt_list_bytes(ps: Seq<Option<Seq<u8>>>) -> Seq<u8>
    decreases ps.len(),
{
    if ps.len() == 0 {
        Seq::empty()
    } else {
        opt_digest_bytes(ps.first()) + opt_list_bytes(ps.drop_first())
    }
}

/// The legacy encoding of a frontier state: the two optional level-0 leaves,
/// then the parent entries prefixed with their count.
pub open spec fn serialize_legacy_bytes(v: Option<FrontierSpec>, depth: int) -> Seq<u8> {
    let (l, r, parents) = legacy_tree_of(v, depth);
    opt_digest_bytes(l) + opt_digest_bytes(r) + seq![parents.len() as u8] + opt_list_bytes(parents)
}

/// The root an external reader computes from a legacy tree: the two level-0
/// leaves (absent ones replaced by the empty constant) combined, then each
/// parent entry folded in, with the empty constant at absent levels.
pub open spec fn legacy_root_fold(level: int, cur: Seq<u8>, parents: Seq<Option<Seq<u8>>>) -> Seq<
    u8,
>
    decreases parents.len(),
{
    if parents.len() == 0 {
        cur
    } else {
        let next = match parents.first() {
            Some(d) => combine_of(level, d, cur),
            None => combine_of(level, cur, empty_node(level)),
        };
        legacy_root_fold(level + 1, next, parents.drop_first())
    }
}

/// The root of a legacy tree of the given depth.
pub open spec fn legacy_root_of(
    left: Option<Seq<u8>>,
    right: Option<Seq<u8>>,
    parents: Seq<Option<Seq<u8>>>,
) -> Seq<u8> {
    let l = match left {
        Some(d) => d,
        None => empty_node(0),
    };
    let r = match right {
        Some(d) => d,
        None => empty_node(0),
    };
    legacy_root_fold(1, combine_of(0, l, r), parents)
}

/// Folding the parent entries derived from a position and its ommers is the
/// frontier's own root fold.
proof fn lemma_legacy_fold_matches(level: int, depth: int, cur: Seq<u8>, p: nat, oms: Seq<Seq<u8>>)
    requires
        0 <= level <= depth,
    ensures
        legacy_root_fold(level, cur, legacy_parents(p, oms, level, depth)) == root_from(
            level,
            depth,
            cur,
            p,
            oms,
        ),
    decreases depth - level,
{
    if level < depth {
        let ps = legacy_parents(p, oms, level, depth);
        if p % 2 == 1 {
            assert(ps.first() == Some(oms.first()));
            assert(ps.drop_first() =~= legacy_parents(p / 2, oms.drop_first(), level + 1, depth));
            lemma_legacy_fold_matches(
                level + 1,
                depth,
                combine_of(level, oms.first(), cur),
                p / 2,
                oms.drop_first(),
            );
        } else {
            assert(ps.first() == Option::<Seq<u8>>::None);
            assert(ps.drop_first() =~= legacy_parents(p / 2, oms, level + 1, depth));
            lemma_legacy_fold_matches(
                level + 1,
                depth,
                combine_of(level, cur, empty_node(level)),
                p / 2,
                oms,
            );
        }
    }
}

/// The tree an external reader reconstructs from the legacy encoding of a
/// non-empty frontier has the frontier's own root. This is the legacy
/// root-equivalence law. (The empty frontier's legacy tree is the all-empty
/// tree, whose root is the depth-`depth` empty constant by the hash
/// capability's own definition of that constant.)
pub proof fn lemma_legacy_root_equivalence(v: Option<FrontierSpec>, depth: int)
    requires
        wf_state(v),
        v is Some,
        1 <= depth,
    ensures
        ({
            let (l, r, parents) = legacy_tree_of(v, depth);
            legacy_root_of(l, r, parents) == root_of(v, depth)
        }),
{
    let f = v->Some_0;
    if f.position % 2 == 1 {
        lemma_legacy_fold_matches(
            1,
            depth,
            combine_of(0, f.ommers.first(), f.leaf),
            f.position / 2,
            f.ommers.drop_first(),
        );
    } else {
        lemma_legacy_fold_matches(
            1,
            depth,
            combine_of(0, f.leaf, empty_node(0)),
            f.position / 2,
            f.ommers,
        );
    }
}

impl MerkleFrontier {
    /// Serializes the frontier in the legacy commitment-tree format. This
    /// format is write-only here: it exists for readers of older persisted
    /// state, and by [`lemma_legacy_root_equivalence`] the tree it encodes
    /// has the same root as the frontier.
    #[verifier::loop_isolation(false)]
    pub fn serialize_legacy(&self) -> (r: Vec<u8>)
        requires
            self.wf(),
        ensures
            r@ == serialize_legacy_bytes(self@, DEPTH as int),
    {
        let ghost total = serialize_legacy_bytes(self@, DEPTH as int);
        let mut out: Vec<u8> = Vec::new();
        if !self.filled {
            out.push(0u8);
            out.push(0u8);
            out.push(0u8);
            assert(out@ =~= total);
            return out;
        }
        proof {
            lemma_ones_bound_32(self.position as nat);
        }
        let ghost f = self@->Some_0;
        let mut idx: usize = 0;
        out.push(1u8);
        if self.position % 2 == 1 {
            assert(is_digest(digests_of(self.ommers@)[0]));
            push_digest(&mut out, &self.ommers[0]);
            out.push(1u8);
            push_digest(&mut out, &self.leaf);
            idx = 1;
        } else {
            push_digest(&mut out, &self.leaf);
            out.push(0u8);
        }
        out.push(31u8);
        let ghost parents = legacy_tree_of(self@, DEPTH as int).2;
        proof {
            lemma_legacy_parents_len(
                (f.position / 2) as nat,
                if f.position % 2 == 1 {
                    f.ommers.drop_first()
                } else {
                    f.ommers
                },
                1,
                DEPTH as int,
            );
            assert(parents.len() as u8 == 31u8);
            if f.position % 2 == 1 {
                assert(digests_of(self.ommers@).skip(1) =~= f.ommers.drop_first());
                assert(ones(f.position) == 1 + ones(f.position / 2));
            } else {
                assert(digests_of(self.ommers@).skip(0) =~= f.ommers);
                assert(ones(f.position) == ones(f.position / 2));
            }
            assert(out@ + opt_list_bytes(parents) =~= total);
            assert(legacy_parents(
                (self.position / 2) as nat,
                digests_of(self.ommers@).skip(idx as int),
                1,
                DEPTH as int,
            ) == parents);
        }
        let mut q = self.position / 2;
        let mut level: u8 = 1;
        while level < DEPTH
            invariant
                1 <= level <= DEPTH,
                idx <= self.ommers@.len(),
                ones(q as nat) == self.ommers@.len() - idx,
                out@ + opt_list_bytes(
                    legacy_parents(
                        q as nat,
                        digests_of(self.ommers@).skip(idx as int),
                        level as int,
                        DEPTH as int,
                    ),
                ) == total,
            decreases DEPTH - level,
        {
            let ghost rest = digests_of(self.ommers@).skip(idx as int);
            let ghost ps = legacy_parents(q as nat, rest, level as int, DEPTH as int);
            if q % 2 == 1 {
                assert(ones(q as nat) >= 1);
                assert(rest.first() == digests_of(self.ommers@)[idx as int]);
                out.push(1u8);
                push_digest(&mut out, &self.ommers[idx]);
                idx = idx + 1;
                assert(digests_of(self.ommers@).skip(idx as int) =~= rest.drop_first());
                assert(ps.first() == Some(rest.first()));
                assert(ps.drop_first() =~= legacy_parents(
                    (q / 2) as nat,
                    rest.drop_first(),
                    level as int + 1,
                    DEPTH as int,
                ));
                assert(out@ + opt_list_bytes(ps.drop_first()) =~= total);
            } else {
                out.push(0u8);
                assert(ps.first() == Option::<Seq<u8>>::None);
                assert(ps.drop_first() =~= legacy_parents(
                    (q / 2) as nat,
                    rest,
                    level as int + 1,
                    DEPTH as int,
                ));
                assert(out@ + opt_list_bytes(ps.drop_first()) =~= total);
            }
            q = q / 2;
            level = level + 1;
        }
        assert(legacy_parents(
            q as nat,
            digests_of(self.ommers@).skip(idx as int),
            DEPTH as int,
            DEPTH as int,
        ) =~= Seq::<Option<Seq<u8>>>::empty());
        assert(out@ =~= total);
        out
    }
}

/// The parent list spans exactly the levels from `level` up to `depth`.
proof fn lemma_legacy_parents_len(p: nat, oms: Seq<Seq<u8>>, level: int, depth: int)
    requires
        0 <= level <= depth,
    ensures
        legacy_parents(p, oms, level, depth).len() == depth - level,
    decreases depth - level,
{
    if level < depth {
        if p % 2 == 1 {
            lemma_legacy_parents_len(p / 2, oms.drop_first(), level + 1, depth);
        } else {
            lemma_legacy_parents_len(p / 2, oms, level + 1, depth);
        }
    }
}

} // verus!
