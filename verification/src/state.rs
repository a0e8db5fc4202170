//! The framing of the engine's serialized state: a version byte in front of
//! the encoded state, and how stored bytes of each version are read.

use vstd::prelude::*;

verus! {

/// The version of the state format written now.
pub const STATE_VERSION: u8 = 2;

/// How stored state bytes are to be read.
#[derive(Clone, Copy, Debug, PartialEq, Eq, Structural)]
pub enum StateFormat {
    /// No bytes at all.
    Empty,
    /// An older version: the state starts anew.
    Outdated,
    /// The current version: the encoded state follows the version byte.
    Current,
    /// A newer, unsupported version.
    Unsupported(u8),
}

/// The format of stored state bytes, by their first byte.
pub open spec fn format_of(bytes: Seq<u8>) -> StateFormat {
    if bytes.len() == 0 {
        StateFormat::Empty
    } else if bytes[0] < STATE_VERSION {
        StateFormat::Outdated
    } else if bytes[0] == STATE_VERSION {
        StateFormat::Current
    } else {
        StateFormat::Unsupported(bytes[0])
    }
}

/// The format of the stored state bytes. Bytes that are not read as the
/// current version may still hold the state of the unversioned format.
pub fn state_format(bytes: &[u8]) -> (r: StateFormat)
    ensures
        r == format_of(bytes@),
{
    if bytes.len() == 0 {
        StateFormat::Empty
    } else if bytes[0] < STATE_VERSION {
        StateFormat::Outdated
    } else if bytes[0] == STATE_VERSION {
        StateFormat::Current
    } else {
        StateFormat::Unsupported(bytes[0])
    }
}

/// The stored bytes of an encoded state: the version byte, then the state.
pub fn framed_state(encoded: &[u8]) -> (r: Vec<u8>)
    ensures
        r@ == seq![STATE_VERSION] + encoded@,
{
    let mut r: Vec<u8> = Vec::new();
    r.push(STATE_VERSION);
    let mut i: usize = 0;
    while i < encoded.len()
        invariant
            i <= encoded@.len(),
            r@ == seq![STATE_VERSION] + encoded@.subrange(0, i as int),
        decreases encoded@.len() - i,
    {
        r.push(encoded[i]);
        proof {
            assert(r@ =~= seq![STATE_VERSION] + encoded@.subrange(0, i + 1));
        }
        i = i + 1;
    }
    proof {
        assert(encoded@.subrange(0, encoded@.len() as int) =~= encoded@);
    }
    r
}

/// The encoded state of stored bytes of the current version: the bytes
/// after the version byte.
pub fn state_payload(bytes: &[u8]) -> (r: Vec<u8>)
    requires
        bytes@.len() > 0,
    ensures
        r@ == bytes@.subrange(1, bytes@.len() as int),
{
    let mut r: Vec<u8> = Vec::new();
    let mut i: usize = 1;
    while i < bytes.len()
        invariant
            1 <= i <= bytes@.len(),
            r@ == bytes@.subrange(1, i as int),
        decreases bytes@.len() - i,
    {
        r.push(bytes[i]);
        proof {
            assert(r@ =~= bytes@.subrange(1, i + 1));
        }
        i = i + 1;
    }
    r
}

/// A framed state reads back as the current version with the state it
/// framed.
pub proof fn lemma_framed_state_round_trip(encoded: Seq<u8>)
    ensures
        format_of(seq![STATE_VERSION] + encoded) == StateFormat::Current,
        (seq![STATE_VERSION] + encoded).subrange(1, encoded.len() + 1int) == encoded,
{
    assert((seq![STATE_VERSION] + encoded)[0] == STATE_VERSION);
    assert((seq![STATE_VERSION] + encoded).subrange(1, encoded.len() + 1int) =~= encoded);
}

/// How the interests part of an unversioned state is read.
#[derive(Clone, Copy, Debug, PartialEq, Eq, Structural)]
pub enum LegacyInterests {
    /// The interests were empty.
    Empty,
    /// Interests and key phrases follow the first byte.
    Versioned,
    /// The whole state is the interests of the oldest format.
    Unversioned,
}

/// The format of the interests part of an unversioned state, by its first
/// byte.
pub fn legacy_interests_format(coi: &[u8]) -> (r: LegacyInterests)
    ensures
        coi@.len() > 0 && coi@[0] == 0 ==> r == LegacyInterests::Empty,
        coi@.len() > 0 && coi@[0] == 1 ==> r == LegacyInterests::Versioned,
        coi@.len() == 0 || coi@[0] > 1 ==> r == LegacyInterests::Unversioned,
{
    if coi.len() == 0 {
        LegacyInterests::Unversioned
    } else if coi[0] == 0 {
        LegacyInterests::Empty
    } else if coi[0] == 1 {
        LegacyInterests::Versioned
    } else {
        LegacyInterests::Unversioned
    }
}

} // verus!
