//! Transcripts: the authenticated byte record of an HTTP conversation, its
//! partial view with per-direction authenticated ranges, and the abstract
//! commitment builder that consumes reveal plans.

use vstd::prelude::*;
use crate::ranges::{range_set, rs_clone, rs_contains, rs_empty, rs_is_subset, rs_max, rs_min, rs_set, rs_union};

verus! {

/// The direction of transcript data.
#[derive(Debug, Clone, Copy, PartialEq, Eq, Hash, Structural)]
pub enum Direction {
    /// Data sent to the server.
    Sent,
    /// Data received from the server.
    Received,
}

/// The bytes standing at each position after unauthenticated positions have
/// been overwritten with `byte`.
pub open spec fn filled(buf: Seq<u8>, authed: Set<int>, byte: u8) -> Seq<u8> {
    Seq::new(buf.len(), |i: int| if authed.contains(i) { buf[i] } else { byte })
}

/// Overwriting the unauthenticated positions a second time with the same byte
/// changes nothing: the fill is idempotent.
pub proof fn lemma_fill_idempotent(buf: Seq<u8>, authed: Set<int>, byte: u8)
    ensures
        filled(filled(buf, authed, byte), authed, byte) == filled(buf, authed, byte),
{
    assert(filled(filled(buf, authed, byte), authed, byte) =~= filled(buf, authed, byte));
}

/// A transcript: the raw bytes sent and received in one session.
#[derive(Debug)]
pub struct Transcript {
    /// The bytes sent to the server.
    pub sent: Vec<u8>,
    /// The bytes received from the server.
    pub received: Vec<u8>,
}

impl Transcript {
    /// Creates a transcript from the two buffers.
    pub fn new(sent: Vec<u8>, received: Vec<u8>) -> (r: Transcript)
        ensures
            r.sent@ == sent@,
            r.received@ == received@,
    {
        Transcript { sent, received }
    }

    /// The bytes sent to the server.
    pub fn sent(&self) -> (r: &[u8])
        ensures
            r@ == self.sent@,
    {
        self.sent.as_slice()
    }

    /// The bytes received from the server.
    pub fn received(&self) -> (r: &[u8])
        ensures
            r@ == self.received@,
    {
        self.received.as_slice()
    }

    /// Restricts the transcript to the given authenticated ranges.  Returns
    /// `None` when a range set reaches outside its buffer.
    pub fn to_partial(
        &self,
        authed_sent: rangeset::set::RangeSet<usize>,
        authed_received: rangeset::set::RangeSet<usize>,
    ) -> (r: Option<PartialTranscript>)
        ensures
            r matches Some(p) ==> {
                &&& p.sent@ == self.sent@
                &&& p.received@ == self.received@
                &&& rs_set(p.authed_sent) == rs_set(authed_sent)
                &&& rs_set(p.authed_received) == rs_set(authed_received)
                &&& p.wf()
            },
            r is None ==> !(rs_set(authed_sent).subset_of(range_set(0, self.sent@.len() as int))
                && rs_set(authed_received).subset_of(
                range_set(0, self.received@.len() as int),
            )),
    {
        if !ranges_within(&authed_sent, self.sent.len()) {
            return None;
        }
        if !ranges_within(&authed_received, self.received.len()) {
            return None;
        }
        Some(
            PartialTranscript {
                sent: copy_bytes(&self.sent),
                received: copy_bytes(&self.received),
                authed_sent,
                authed_received,
            },
        )
    }
}

/// Whether every value of `set` lies below `len`.
fn ranges_within(set: &rangeset::set::RangeSet<usize>, len: usize) -> (r: bool)
    ensures
        r == rs_set(*set).subset_of(range_set(0, len as int)),
{
    let m = rs_max(set);
    match m {
        None => {
            proof {
                assert(rs_set(*set) =~= Set::<int>::empty());
            }
            true
        }
        Some(m) => {
            let lo = rs_min(set);
            proof {
                if m < len {
                    assert forall|i: int| rs_set(*set).contains(i) implies range_set(
                        0,
                        len as int,
                    ).contains(i) by {
                        assert(lo matches Some(l) && l as int <= i && i <= m as int);
                    }
                } else {
                    assert(rs_set(*set).contains(m as int));
                }
            }
            m < len
        }
    }
}

/// A byte-for-byte copy of a buffer.
fn copy_bytes(src: &Vec<u8>) -> (r: Vec<u8>)
    ensures
        r@ == src@,
{
    let mut r: Vec<u8> = Vec::new();
    let mut i: usize = 0;
    while i < src.len()
        invariant
            i <= src@.len(),
            r@ == src@.subrange(0, i as int),
        decreases src@.len() - i,
    {
        r.push(src[i]);
        proof {
            assert(r@ =~= src@.subrange(0, i + 1 as int));
        }
        i = i + 1;
    }
    proof {
        assert(r@ =~= src@);
    }
    r
}

/// A partial view of a transcript: the same buffers plus the set of byte
/// positions per direction whose values are authenticated.
#[derive(Debug)]
pub struct PartialTranscript {
    /// The bytes sent to the server.
    pub sent: Vec<u8>,
    /// The bytes received from the server.
    pub received: Vec<u8>,
    /// The authenticated positions of `sent`.
    pub authed_sent: rangeset::set::RangeSet<usize>,
    /// The authenticated positions of `received`.
    pub authed_received: rangeset::set::RangeSet<usize>,
}

impl PartialTranscript {
    /// The authenticated ranges lie within their buffers.
    pub open spec fn wf(self) -> bool {
        &&& rs_set(self.authed_sent).subset_of(range_set(0, self.sent@.len() as int))
        &&& rs_set(self.authed_received).subset_of(range_set(0, self.received@.len() as int))
    }

    /// The sent bytes, authenticated or not.
    pub fn sent_unsafe(&self) -> (r: &[u8])
        ensures
            r@ == self.sent@,
    {
        self.sent.as_slice()
    }

    /// The received bytes, authenticated or not.
    pub fn received_unsafe(&self) -> (r: &[u8])
        ensures
            r@ == self.received@,
    {
        self.received.as_slice()
    }

    /// The authenticated positions of the given direction.
    pub fn authed(&self, direction: Direction) -> (r: &rangeset::set::RangeSet<usize>)
        ensures
            direction is Sent ==> r == &self.authed_sent,
            direction is Received ==> r == &self.authed_received,
    {
        match direction {
            Direction::Sent => &self.authed_sent,
            Direction::Received => &self.authed_received,
        }
    }

    /// A copy of this partial view.
    pub fn duplicate(&self) -> (r: PartialTranscript)
        ensures
            r.sent@ == self.sent@,
            r.received@ == self.received@,
            rs_set(r.authed_sent) == rs_set(self.authed_sent),
            rs_set(r.authed_received) == rs_set(self.authed_received),
    {
        PartialTranscript {
            sent: copy_bytes(&self.sent),
            received: copy_bytes(&self.received),
            authed_sent: rs_clone(&self.authed_sent),
            authed_received: rs_clone(&self.authed_received),
        }
    }

    /// Overwrites every unauthenticated position of both buffers with `byte`.
    /// The authenticated ranges themselves are never touched.
    pub fn set_unauthed(&mut self, byte: u8)
        ensures
            final(self).sent@ == filled(old(self).sent@, rs_set(old(self).authed_sent), byte),
            final(self).received@ == filled(
                old(self).received@,
                rs_set(old(self).authed_received),
                byte,
            ),
            final(self).authed_sent == old(self).authed_sent,
            final(self).authed_received == old(self).authed_received,
    {
        fill_unauthed(&mut self.sent, &self.authed_sent, byte);
        fill_unauthed(&mut self.received, &self.authed_received, byte);
    }
}

/// Overwrites the positions of `buf` not in `authed` with `byte`.
fn fill_unauthed(buf: &mut Vec<u8>, authed: &rangeset::set::RangeSet<usize>, byte: u8)
    ensures
        final(buf)@ == filled(old(buf)@, rs_set(*authed), byte),
{
    let ghost orig = buf@;
    let mut i: usize = 0;
    while i < buf.len()
        invariant
            i <= buf@.len(),
            buf@.len() == orig.len(),
            forall|j: int|
                0 <= j < i ==> buf@[j] == (if rs_set(*authed).contains(j) {
                    orig[j]
                } else {
                    byte
                }),
            forall|j: int| i <= j < orig.len() ==> buf@[j] == orig[j],
        decreases buf@.len() - i,
    {
        if !rs_contains(authed, i) {
            buf.set(i, byte);
        }
        i = i + 1;
    }
    proof {
        assert(buf@ =~= filled(orig, rs_set(*authed), byte));
    }
}

/// The error returned by a commitment builder.
#[derive(Debug)]
pub struct TranscriptCommitmentBuilderError {
    /// What went wrong.
    pub kind: CommitErrorKind,
    /// A human-readable description.
    pub detail: String,
}

/// The kinds of commitment-builder failure.
#[derive(Debug, Clone, Copy, PartialEq, Eq, Structural)]
pub enum CommitErrorKind {
    /// A range was unknown to the builder or already committed.
    Index,
}

impl TranscriptCommitmentBuilderError {
    /// Creates a new builder error.
    pub fn new(kind: CommitErrorKind, detail: String) -> (r: TranscriptCommitmentBuilderError)
        ensures
            r.kind == kind,
            r.detail@ == detail@,
    {
        TranscriptCommitmentBuilderError { kind, detail }
    }
}

/// An abstract sink for transcript commitments.  Implementations record, for
/// each call, the committed range set and its direction; `trace` is the
/// sequence of commitments accepted so far, and `attempts` the sequence of
/// all commitments asked for, accepted or rejected.  A caller whose contract
/// relates the two can therefore state that it fails only when the sink
/// rejected a call.
pub trait TranscriptCommitmentBuilder: Sized {
    /// The commitments accepted so far, in order.
    spec fn trace(&self) -> Seq<(Set<int>, Direction)>;

    /// Every commitment asked for so far, accepted or rejected, in call
    /// order.
    spec fn attempts(&self) -> Seq<(Set<int>, Direction)>;

    /// Commits to the given ranges of the given direction.  Either way the
    /// attempts grow by exactly this commitment; on success the trace grows
    /// by it too, on failure the trace is unchanged.
    fn commit(
        &mut self,
        ranges: &rangeset::set::RangeSet<usize>,
        direction: Direction,
    ) -> (r: Result<(), TranscriptCommitmentBuilderError>)
        ensures
            r is Ok ==> final(self).trace() == old(self).trace().push(
                (rs_set(*ranges), direction),
            ),
            r is Err ==> final(self).trace() == old(self).trace(),
            final(self).attempts() == old(self).attempts().push((rs_set(*ranges), direction)),
    ;
}

/// A commitment builder that records every accepted commitment.
#[derive(Debug)]
pub struct CommitLog {
    /// The committed range sets with their directions, in call order.
    pub commits: Vec<(rangeset::set::RangeSet<usize>, Direction)>,
}

impl CommitLog {
    /// Creates an empty log.
    pub fn new() -> (r: CommitLog)
        ensures
            r.trace() == Seq::<(Set<int>, Direction)>::empty(),
    {
        let r = CommitLog { commits: Vec::new() };
        proof {
            assert(r.trace() =~= Seq::<(Set<int>, Direction)>::empty());
        }
        r
    }
}

/// A finished set of transcript commitments that can be queried.
pub trait TranscriptCommitment {
    /// The positions committed for the given direction.
    spec fn covered(&self, direction: Direction) -> Set<int>;

    /// Returns whether the commitment covers the given ranges of the given
    /// direction.
    fn contains(
        &self,
        ranges: &rangeset::set::RangeSet<usize>,
        direction: Direction,
    ) -> (r: bool)
        ensures
            r == rs_set(*ranges).subset_of(self.covered(direction)),
    ;
}

/// The positions of one direction covered by the first `n` recorded
/// commitments.
pub open spec fn commits_union(
    cs: Seq<(rangeset::set::RangeSet<usize>, Direction)>,
    n: int,
    d: Direction,
) -> Set<int>
    decreases n,
{
    if n <= 0 {
        Set::<int>::empty()
    } else {
        commits_union(cs, n - 1, d).union(
            if cs[n - 1].1 == d {
                rs_set(cs[n - 1].0)
            } else {
                Set::<int>::empty()
            },
        )
    }
}

impl TranscriptCommitment for CommitLog {
    open spec fn covered(&self, direction: Direction) -> Set<int> {
        commits_union(self.commits@, self.commits@.len() as int, direction)
    }

    fn contains(
        &self,
        ranges: &rangeset::set::RangeSet<usize>,
        direction: Direction,
    ) -> (r: bool) {
        let mut acc = rs_empty();
        let mut i: usize = 0;
        while i < self.commits.len()
            invariant
                i <= self.commits@.len(),
                rs_set(acc) == commits_union(self.commits@, i as int, direction),
            decreases self.commits@.len() - i,
        {
            let (set, d) = &self.commits[i];
            let same = match (d, direction) {
                (Direction::Sent, Direction::Sent) => true,
                (Direction::Received, Direction::Received) => true,
                _ => false,
            };
            if same {
                acc = rs_union(&acc, set);
            }
            proof {
                assert(rs_set(acc) =~= commits_union(self.commits@, i + 1 as int, direction));
            }
            i = i + 1;
        }
        rs_is_subset(ranges, &acc)
    }
}

impl TranscriptCommitmentBuilder for CommitLog {
    open spec fn trace(&self) -> Seq<(Set<int>, Direction)> {
        self.commits@.map_values(
            |c: (rangeset::set::RangeSet<usize>, Direction)| (rs_set(c.0), c.1),
        )
    }

    /// The log accepts every commitment, so its attempts are its trace.
    open spec fn attempts(&self) -> Seq<(Set<int>, Direction)> {
        self.trace()
    }

    fn commit(
        &mut self,
        ranges: &rangeset::set::RangeSet<usize>,
        direction: Direction,
    ) -> (r: Result<(), TranscriptCommitmentBuilderError>)
    {
        self.commits.push((rs_clone(ranges), direction));
        proof {
            assert(self.trace() =~= old(self).trace().push((rs_set(*ranges), direction)));
        }
        Ok(())
    }
}

} // verus!
