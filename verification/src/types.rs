//! Plain data exchanged with the engine and its snapshots.

use vstd::prelude::*;

verus! {

/// A candidate on its way into the engine: the caller-assigned identity and
/// the raw payload, whose ownership moves to the item store on ingestion.
#[derive(Debug, Clone, PartialEq, Eq)]
pub struct NucleoDartStringMut {
    pub index: u32,
    pub bytes: Vec<u8>,
}

/// A stored candidate as read back from a snapshot.
#[derive(Debug, Clone, PartialEq, Eq)]
pub struct NucleoDartString {
    pub index: u32,
    pub bytes: Vec<u8>,
}

/// A ranked match as read back from a snapshot: the score together with the
/// identity and payload of the matched candidate.
#[derive(Debug, Clone, PartialEq, Eq)]
pub struct NucleoDartMatch {
    pub score: u32,
    pub index: u32,
    pub bytes: Vec<u8>,
}

/// Whether the new pattern text extends the previous one as a prefix.
#[derive(Debug, Clone, Copy, PartialEq, Eq, Structural)]
pub enum IsAppend {
    IsAppendYes,
    IsAppendNo,
}

/// A score paired with a position: inside a snapshot `idx` is the store index
/// of the matched item, inside a merged list it is the rank of the winning
/// match in the snapshot it came from.
#[derive(Debug, Clone, Copy, PartialEq, Eq, Structural)]
pub struct NucleoDartMMatch {
    pub score: u32,
    pub idx: u32,
}

/// Which of the two joined snapshots an entry of a merged list came from.
#[derive(Debug, Clone, Copy, PartialEq, Eq, Structural)]
pub enum JoinSide {
    First,
    Second,
}

/// One entry of a merged list: the winning match and where it came from.
#[derive(Debug, Clone, Copy, PartialEq, Eq, Structural)]
pub struct NucleoDartSnapshot2Match {
    pub mtch: NucleoDartMMatch,
    pub handle: JoinSide,
}

/// The merged list of two snapshots, one entry per distinct identity.
#[derive(Debug, Clone, PartialEq, Eq)]
pub struct NucleoDartSnapshot2 {
    pub matches: Vec<NucleoDartSnapshot2Match>,
}

impl IsAppend {
    /// The hint as a flag: true when the caller promises a prefix extension.
    pub open spec fn spec_flag(self) -> bool {
        self == IsAppend::IsAppendYes
    }

    pub fn flag(self) -> (r: bool)
        ensures
            r == self.spec_flag(),
    {
        match self {
            IsAppend::IsAppendYes => true,
            IsAppend::IsAppendNo => false,
        }
    }
}

/// Copies a byte buffer.
pub fn copy_bytes(src: &Vec<u8>) -> (r: Vec<u8>)
    ensures
        r@ == src@,
{
    let mut out: Vec<u8> = Vec::new();
    let mut i: usize = 0;
    while i < src.len()
        invariant
            i <= src.len(),
            out@ == src@.take(i as int),
        decreases src.len() - i,
    {
        out.push(src[i]);
        i += 1;
    }
    out
}

} // verus!
