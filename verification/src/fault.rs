//! Storage in memory that fails and crashes on demand.
use crate::io::{stored, torn, Call, Storage};
use vstd::prelude::*;

verus! {

/// The bytes with others laid over them from `start` on. A gap is filled with zeros.
pub open spec fn overlaid(base: Seq<u8>, start: int, bytes: Seq<u8>) -> Seq<u8> {
    Seq::new(
        if base.len() < start + bytes.len() {
            (start + bytes.len()) as nat
        } else {
            base.len()
        },
        |i: int|
            if start <= i < start + bytes.len() {
                bytes[i - start]
            } else if i < base.len() {
                base[i]
            } else {
                0
            },
    )
}

/// Laying bytes over others is a write.
proof fn lemma_overlaid(base: Seq<u8>, start: int, bytes: Seq<u8>)
    requires
        start >= 0,
    ensures
        torn(base, overlaid(base, start, bytes), start, start + bytes.len()),
        stored(base, overlaid(base, start, bytes), start, bytes),
{
    let after = overlaid(base, start, bytes);
    assert(after.subrange(start, start + bytes.len()) =~= bytes);
}

/// Lays the first `count` of some bytes over others.
fn overlay(base: &mut Vec<u8>, start: usize, bytes: &[u8], count: usize)
    requires
        count <= bytes@.len(),
        start + count <= usize::MAX,
    ensures
        final(base)@ == overlaid(old(base)@, start as int, bytes@.take(count as int)),
{
    let ghost before = base@;
    let end = start + count;
    if base.len() < end {
        base.resize(end, 0);
        assert(base@.subrange(0, before.len() as int) == before);
        assert forall|i: int| 0 <= i < before.len() implies base@[i] == before[i] by {
            assert(base@.subrange(0, before.len() as int)[i] == before[i]);
        }
    }
    let ghost grown = base@;
    let mut index: usize = 0;
    while index < count
        invariant
            index <= count,
            count <= bytes@.len(),
            end == start + count,
            end <= grown.len(),
            base@.len() == grown.len(),
            forall|i: int|
                0 <= i < base@.len() ==> #[trigger] base@[i] == if start <= i < start + index {
                    bytes@[i - start]
                } else {
                    grown[i]
                },
        decreases count - index,
    {
        let at = start + index;
        base[at] = bytes[index];
        index = index + 1;
    }
    assert(base@ =~= overlaid(before, start as int, bytes@.take(count as int)));
}

/// The countdown to a failure after one more operation.
pub open spec fn counted(countdown: Option<usize>) -> Option<usize> {
    match countdown {
        Some(left) => if left == 0 {
            None
        } else {
            Some((left - 1) as usize)
        },
        None => None,
    }
}

/// The smaller of two numbers.
pub open spec fn least(a: int, b: int) -> int {
    if a <= b {
        a
    } else {
        b
    }
}

/// Copies bytes.
fn copy_of(bytes: &Vec<u8>) -> (copy: Vec<u8>)
    ensures
        copy@ == bytes@,
{
    let copy = bytes.clone();
    assert(copy@ =~= bytes@);
    copy
}

/// Builds the error of a failure on demand, with `std::io::Error::other`. The error is
/// opaque: nothing is claimed of it.
#[verifier::external_body]
fn injected() -> std::io::Error {
    std::io::Error::other("injected I/O failure")
}

/// Storage in memory that fails and crashes on demand.
///
/// Writes reach the medium when they are synchronised. Before that a crash drops them,
/// but for one that may have been persisted in part.
pub struct FaultDisk {
    durable: Vec<u8>,
    volatile: Vec<u8>,
    fail_in: Option<usize>,
    maximum_transfer: Option<usize>,
    pending_writes: Vec<(usize, Vec<u8>)>,
    carried_out: Ghost<Seq<Call>>,
    failed: Ghost<nat>,
    reason: Ghost<Option<std::io::Error>>,
}

impl FaultDisk {
    /// What is on the medium.
    pub closed spec fn durable(&self) -> Seq<u8> {
        self.durable@
    }

    /// The writes since the last synchronization.
    pub closed spec fn pending(&self) -> Seq<(int, Seq<u8>)> {
        self.pending_writes@.map_values(|write: (usize, Vec<u8>)| (write.0 as int, write.1@))
    }

    /// How many operations go through before one fails, if one is to fail.
    pub closed spec fn countdown(&self) -> Option<usize> {
        self.fail_in
    }

    /// Whether the next operation fails.
    pub open spec fn failing(&self) -> bool {
        self.countdown() == Some(0usize)
    }

    /// The most bytes that one transfer moves, if they are limited.
    pub closed spec fn limit(&self) -> Option<usize> {
        self.maximum_transfer
    }

    /// How many of some bytes one transfer moves.
    pub open spec fn transfer(&self, bytes: int) -> int {
        match self.limit() {
            Some(most) => least(bytes, most as int),
            None => bytes,
        }
    }

    /// Empty storage.
    pub fn new() -> (disk: Self)
        ensures
            disk.contents() == Seq::<u8>::empty(),
            disk.durable() == Seq::<u8>::empty(),
            disk.pending().len() == 0,
            disk.countdown() is None,
            disk.limit() is None,
    {
        let disk = FaultDisk {
            durable: Vec::new(),
            volatile: Vec::new(),
            fail_in: None,
            maximum_transfer: None,
            pending_writes: Vec::new(),
            carried_out: Ghost(Seq::empty()),
            failed: Ghost(0),
            reason: Ghost(None),
        };
        assert(disk.volatile@ =~= Seq::<u8>::empty());
        assert(disk.durable@ =~= Seq::<u8>::empty());
        disk
    }

    /// Storage that holds the bytes durably.
    pub fn from_durable(bytes: Vec<u8>) -> (disk: Self)
        ensures
            disk.contents() == bytes@,
            disk.durable() == bytes@,
            disk.pending().len() == 0,
            disk.countdown() is None,
            disk.limit() is None,
    {
        let volatile = copy_of(&bytes);
        FaultDisk {
            durable: bytes,
            volatile,
            fail_in: None,
            maximum_transfer: None,
            pending_writes: Vec::new(),
            carried_out: Ghost(Seq::empty()),
            failed: Ghost(0),
            reason: Ghost(None),
        }
    }

    /// What a crash without luck would leave behind.
    pub fn durable_image(&self) -> (bytes: Vec<u8>)
        ensures
            bytes@ == self.durable(),
    {
        copy_of(&self.durable)
    }

    /// Makes one of the next operations fail, counted from zero: reads, writes, changes of the
    /// length and synchronizations.
    pub fn fail_at(&mut self, operation: usize)
        ensures
            final(self).contents() == old(self).contents(),
            final(self).durable() == old(self).durable(),
            final(self).pending() == old(self).pending(),
            final(self).limit() == old(self).limit(),
            final(self).countdown() == Some(operation),
    {
        self.fail_in = Some(operation);
    }

    /// Limits how many bytes one transfer moves.
    pub fn limit_transfers(&mut self, bytes: usize)
        ensures
            final(self).contents() == old(self).contents(),
            final(self).durable() == old(self).durable(),
            final(self).pending() == old(self).pending(),
            final(self).countdown() == old(self).countdown(),
            final(self).limit() == Some(bytes),
    {
        self.maximum_transfer = Some(bytes);
    }

    /// Forgets what is not durable.
    fn restart(&mut self)
        ensures
            final(self).contents() == final(self).durable(),
            final(self).durable() == old(self).durable(),
            final(self).pending().len() == 0,
            final(self).countdown() is None,
            final(self).limit() == old(self).limit(),
    {
        self.volatile = copy_of(&self.durable);
        self.pending_writes = Vec::new();
        self.fail_in = None;
    }

    /// Crashes: every write that was not synchronised is lost.
    pub fn crash(&mut self)
        ensures
            old(self).survives(final(self).contents()),
            final(self).contents() == old(self).durable(),
            final(self).durable() == old(self).durable(),
            final(self).pending().len() == 0,
            final(self).countdown() is None,
            final(self).limit() == old(self).limit(),
    {
        self.restart();
    }

    /// Persists the first bytes of a pending write.
    fn persist(&mut self, index: usize, count: usize)
        requires
            index < old(self).pending().len(),
            count <= old(self).pending()[index as int].1.len(),
            old(self).pending()[index as int].0 + count <= usize::MAX,
        ensures
            final(self).durable() == overlaid(
                old(self).durable(),
                old(self).pending()[index as int].0,
                old(self).pending()[index as int].1.take(count as int),
            ),
            final(self).limit() == old(self).limit(),
    {
        let (start, bytes) = &self.pending_writes[index];
        overlay(&mut self.durable, *start, bytes.as_slice(), count);
    }

    /// Crashes while the last write is being persisted: at most so many bytes of it made it to
    /// the medium.
    pub fn crash_with_torn_last_write(&mut self, persisted_bytes: usize)
        ensures
            old(self).survives(final(self).contents()),
            final(self).durable() == final(self).contents(),
            final(self).pending().len() == 0,
            final(self).countdown() is None,
            final(self).limit() == old(self).limit(),
            old(self).pending().len() == 0 ==> final(self).contents() == old(self).durable(),
            old(self).pending().len() > 0 && old(self).pending().last().0 + old(
                self,
            ).pending().last().1.len() <= usize::MAX ==> {
                let last = old(self).pending().last();
                final(self).contents() == overlaid(
                    old(self).durable(),
                    last.0,
                    last.1.take(
                        if persisted_bytes <= last.1.len() {
                            persisted_bytes as int
                        } else {
                            last.1.len() as int
                        },
                    ),
                )
            },
    {
        let pending = self.pending_writes.len();
        if pending > 0 {
            let last = pending - 1;
            let length = self.pending_writes[last].1.len();
            let count = if persisted_bytes <= length {
                persisted_bytes
            } else {
                length
            };
            if count <= usize::MAX - self.pending_writes[last].0 {
                self.persist(last, count);
                assert(old(self).survives(self.durable@)) by {
                    assert(persisted(*old(self), last as int, count as int) == self.durable@);
                }
            }
        }
        self.restart();
    }

    /// Crashes after one of the pending writes made it to the medium before the others.
    pub fn crash_with_reordered_write(&mut self, write_index: usize)
        ensures
            old(self).survives(final(self).contents()),
            final(self).durable() == final(self).contents(),
            final(self).pending().len() == 0,
            final(self).countdown() is None,
            final(self).limit() == old(self).limit(),
            write_index >= old(self).pending().len() ==> final(self).contents() == old(self).durable(),
            write_index < old(self).pending().len() && old(self).pending()[write_index as int].0
                + old(self).pending()[write_index as int].1.len() <= usize::MAX
                ==> final(self).contents() == overlaid(
                old(self).durable(),
                old(self).pending()[write_index as int].0,
                old(self).pending()[write_index as int].1,
            ),
    {
        if write_index < self.pending_writes.len() {
            let length = self.pending_writes[write_index].1.len();
            if length <= usize::MAX - self.pending_writes[write_index].0 {
                let ghost bytes = self.pending()[write_index as int].1;
                self.persist(write_index, length);
                assert(bytes.take(length as int) =~= bytes);
                assert(old(self).survives(self.durable@)) by {
                    assert(persisted(*old(self), write_index as int, length as int)
                        == self.durable@);
                }
            }
        }
        self.restart();
    }

    /// Counts an operation, and says whether it fails.
    fn operation(&mut self) -> (fails: bool)
        ensures
            fails == old(self).failing(),
            final(self).countdown() == counted(old(self).countdown()),
            final(self).contents() == old(self).contents(),
            final(self).durable() == old(self).durable(),
            final(self).pending() == old(self).pending(),
            final(self).limit() == old(self).limit(),
            final(self).calls() == old(self).calls(),
            final(self).failures() == old(self).failures(),
            final(self).reported() == old(self).reported(),
    {
        let fails = match self.fail_in {
            Some(left) => left == 0,
            None => false,
        };
        self.fail_in = match self.fail_in {
            Some(left) => if left == 0 {
                None
            } else {
                Some(left - 1)
            },
            None => None,
        };
        fails
    }
}

/// What is on the medium once the first bytes of a pending write were persisted.
pub open spec fn persisted(disk: FaultDisk, index: int, count: int) -> Seq<u8> {
    overlaid(disk.durable(), disk.pending()[index].0, disk.pending()[index].1.take(count))
}

impl Storage for FaultDisk {
    closed spec fn contents(&self) -> Seq<u8> {
        self.volatile@
    }

    closed spec fn calls(&self) -> Seq<Call> {
        self.carried_out@
    }

    closed spec fn failures(&self) -> nat {
        self.failed@
    }

    closed spec fn reported(&self) -> Option<std::io::Error> {
        self.reason@
    }

    closed spec fn survives(&self, image: Seq<u8>) -> bool {
        image == self.durable() || exists|index: int, count: int|
            0 <= index < self.pending().len() && 0 <= count <= self.pending()[index].1.len()
                && image == #[trigger] persisted(*self, index, count)
    }

    fn read_at(&mut self, buffer: &mut [u8], offset: u64) -> (result: std::io::Result<usize>)
        ensures
            result is Err <==> old(self).failing() || offset > usize::MAX,
            result is Err ==> final(buffer)@ == old(buffer)@,
            result matches Ok(count) ==> count == if offset >= old(self).contents().len() {
                0
            } else {
                old(self).transfer(
                    least(old(buffer)@.len() as int, old(self).contents().len() - offset),
                )
            },
            final(self).countdown() == counted(old(self).countdown()),
            final(self).durable() == old(self).durable(),
            final(self).pending() == old(self).pending(),
            final(self).limit() == old(self).limit(),
    {
        let fails = self.operation();
        proof {
            lemma_survives_alike(*old(self), *self);
        }
        if fails || offset > usize::MAX as u64 {
            let error = injected();
            self.failed = Ghost(self.failed@ + 1);
            self.reason = Ghost(Some(error));
            proof {
                lemma_survives_alike(*old(self), *self);
            }
            return Err(error);
        }
        let start = offset as usize;
        if start >= self.volatile.len() {
            return Ok(0);
        }
        let mut count = self.volatile.len() - start;
        if buffer.len() < count {
            count = buffer.len();
        }
        if let Some(most) = self.maximum_transfer {
            if most < count {
                count = most;
            }
        }
        if count == 0 && buffer.len() > 0 {
            self.failed = Ghost(self.failed@ + 1);
            self.reason = Ghost(None);
            proof {
                lemma_survives_alike(*old(self), *self);
            }
        }
        let mut index: usize = 0;
        while index < count
            invariant
                index <= count,
                count <= buffer@.len(),
                buffer@.len() == old(buffer)@.len(),
                start + count <= self.volatile@.len(),
                forall|i: int|
                    0 <= i < buffer@.len() ==> #[trigger] buffer@[i] == if i < index {
                        self.volatile@[start + i]
                    } else {
                        old(buffer)@[i]
                    },
            decreases count - index,
        {
            assert(self.volatile@.len() == self.volatile.len());
            buffer[index] = self.volatile[start + index];
            index = index + 1;
        }
        Ok(count)
    }

    fn write_at(&mut self, buffer: &[u8], offset: u64) -> (result: std::io::Result<usize>)
        ensures
            ({
                let count = old(self).transfer(buffer@.len() as int);
                let part = buffer@.take(count);
                match result {
                    Ok(transferred) => {
                        &&& !old(self).failing()
                        &&& offset + count <= usize::MAX
                        &&& transferred == count
                        &&& final(self).contents() == overlaid(
                            old(self).contents(),
                            offset as int,
                            part,
                        )
                        &&& final(self).pending() == old(self).pending().push((offset as int, part))
                    },
                    Err(_) => {
                        &&& old(self).failing() || offset + count > usize::MAX
                        &&& final(self).contents() == old(self).contents()
                        &&& final(self).pending() == old(self).pending()
                    },
                }
            }),
            final(self).durable() == old(self).durable(),
            final(self).limit() == old(self).limit(),
            final(self).countdown() == counted(old(self).countdown()),
    {
        let fails = self.operation();
        proof {
            assert forall|image: Seq<u8>| #[trigger] self.survives(image) implies exists|
                base: Seq<u8>,
            | #[trigger]
                old(self).survives(base) && torn(
                    base,
                    image,
                    offset as int,
                    offset + buffer@.len(),
                ) by {
                lemma_same_survives(*old(self), *self, image);
                assert(old(self).survives(image));
            }
        }
        if fails || offset > usize::MAX as u64 {
            let error = injected();
            self.failed = Ghost(self.failed@ + 1);
            self.reason = Ghost(Some(error));
            proof {
                lemma_survives_alike(*old(self), *self);
            }
            return Err(error);
        }
        let start = offset as usize;
        let mut count = buffer.len();
        if let Some(most) = self.maximum_transfer {
            if most < count {
                count = most;
            }
        }
        if count > usize::MAX - start {
            let error = injected();
            self.failed = Ghost(self.failed@ + 1);
            self.reason = Ghost(Some(error));
            proof {
                lemma_survives_alike(*old(self), *self);
            }
            return Err(error);
        }
        if count == 0 && buffer.len() > 0 {
            self.failed = Ghost(self.failed@ + 1);
            self.reason = Ghost(None);
            proof {
                lemma_survives_alike(*old(self), *self);
            }
        }
        let mut bytes: Vec<u8> = Vec::new();
        let mut index: usize = 0;
        while index < count
            invariant
                index <= count,
                count <= buffer@.len(),
                bytes@ == buffer@.take(index as int),
            decreases count - index,
        {
            bytes.push(buffer[index]);
            assert(bytes@ =~= buffer@.take(index + 1));
            index = index + 1;
        }
        self.carried_out = Ghost(
            self.carried_out@.push(
                Call::Write { offset: offset as int, bytes: buffer@.take(count as int) },
            ),
        );
        let ghost before = *self;
        overlay(&mut self.volatile, start, buffer, count);
        self.pending_writes.push((start, bytes));
        proof {
            let part = buffer@.take(count as int);
            lemma_overlaid(before.volatile@, start as int, part);
            assert(self.pending() =~= before.pending().push((start as int, part)));
            assert(part.len() == 0 ==> part =~= Seq::<u8>::empty());
            lemma_write_survives(*old(self), before, *self, start as int, part, buffer@.len() as int);
        }
        Ok(count)
    }

    fn len(&self) -> (result: std::io::Result<u64>)
        ensures
            result is Ok,
    {
        Ok(self.volatile.len() as u64)
    }

    fn set_len(&mut self, length: u64) -> (result: std::io::Result<()>)
        ensures
            result is Err <==> old(self).failing() || length > usize::MAX,
            result is Err ==> final(self).contents() == old(self).contents(),
            final(self).durable() == old(self).durable(),
            final(self).pending() == old(self).pending(),
            final(self).limit() == old(self).limit(),
            final(self).countdown() == counted(old(self).countdown()),
    {
        let fails = self.operation();
        proof {
            assert forall|image: Seq<u8>| #[trigger] self.survives(image) implies old(self).survives(
                image,
            ) by {
                lemma_same_survives(*old(self), *self, image);
            }
        }
        if fails || length > usize::MAX as u64 {
            let error = injected();
            self.failed = Ghost(self.failed@ + 1);
            self.reason = Ghost(Some(error));
            proof {
                lemma_survives_alike(*old(self), *self);
            }
            return Err(error);
        }
        let ghost before = *self;
        let ghost seen = self.volatile@;
        self.volatile.resize(length as usize, 0);
        self.carried_out = Ghost(self.carried_out@.push(Call::Resize(length as int)));
        proof {
            if length > seen.len() {
                assert(self.volatile@.subrange(0, seen.len() as int) == seen);
                assert forall|i: int| 0 <= i < seen.len() implies self.volatile@[i] == seen[i] by {
                    assert(self.volatile@.subrange(0, seen.len() as int)[i] == seen[i]);
                }
            }
            assert forall|image: Seq<u8>| #[trigger] self.survives(image) implies old(self).survives(
                image,
            ) by {
                lemma_same_survives(*old(self), *self, image);
            }
        }
        Ok(())
    }

    fn sync_all(&mut self) -> (result: std::io::Result<()>)
        ensures
            result is Err <==> old(self).failing(),
            result is Ok ==> final(self).durable() == old(self).contents()
                && final(self).pending().len() == 0,
            result is Err ==> final(self).durable() == old(self).durable() && final(self).pending()
                == old(self).pending(),
            final(self).limit() == old(self).limit(),
            final(self).countdown() == counted(old(self).countdown()),
    {
        if self.operation() {
            proof {
                assert forall|image: Seq<u8>| #[trigger] self.survives(image) implies old(self).survives(image) by {
                    lemma_same_survives(*old(self), *self, image);
                }
            }
            let error = injected();
            self.failed = Ghost(self.failed@ + 1);
            self.reason = Ghost(Some(error));
            proof {
                lemma_survives_alike(*old(self), *self);
            }
            return Err(error);
        }
        self.durable = copy_of(&self.volatile);
        self.pending_writes = Vec::new();
        self.carried_out = Ghost(self.carried_out@.push(Call::Sync));
        Ok(())
    }
}

/// The medium and the pending writes decide what may survive.
proof fn lemma_same_survives(a: FaultDisk, b: FaultDisk, image: Seq<u8>)
    requires
        b.durable() == a.durable(),
        b.pending() == a.pending(),
    ensures
        b.survives(image) ==> a.survives(image),
{
    if b.survives(image) && image != b.durable() {
        let (index, count) = choose|index: int, count: int|
            0 <= index < b.pending().len() && 0 <= count <= b.pending()[index].1.len() && image
                == #[trigger] persisted(b, index, count);
        assert(persisted(a, index, count) == image);
    }
}

/// Storage with the same medium and the same pending writes survives alike.
proof fn lemma_survives_alike(a: FaultDisk, b: FaultDisk)
    requires
        b.durable() == a.durable(),
        b.pending() == a.pending(),
    ensures
        forall|image: Seq<u8>| #[trigger] b.survives(image) == a.survives(image),
{
    assert forall|image: Seq<u8>| #[trigger] b.survives(image) == a.survives(image) by {
        lemma_same_survives(a, b, image);
        lemma_same_survives(b, a, image);
    }
}

/// What may survive once a write is pending.
proof fn lemma_write_survives(
    old_disk: FaultDisk,
    before: FaultDisk,
    after: FaultDisk,
    start: int,
    bytes: Seq<u8>,
    length: int,
)
    requires
        start >= 0,
        bytes.len() <= length,
        before.durable() == old_disk.durable(),
        before.pending() == old_disk.pending(),
        after.durable() == before.durable(),
        after.pending() == before.pending().push((start, bytes)),
    ensures
        forall|image: Seq<u8>| #[trigger]
            after.survives(image) ==> exists|base: Seq<u8>| #[trigger]
                old_disk.survives(base) && torn(base, image, start, start + length),
{
    assert forall|image: Seq<u8>| #[trigger] after.survives(image) implies exists|base: Seq<u8>|
        #[trigger]
        old_disk.survives(base) && torn(base, image, start, start + length) by {
        if image == after.durable() {
            assert(old_disk.survives(image));
        } else {
            let (index, count) = choose|index: int, count: int|
                0 <= index < after.pending().len() && 0 <= count <= after.pending()[index].1.len()
                    && image == #[trigger] persisted(after, index, count);
            if index < before.pending().len() {
                assert(after.pending()[index] == before.pending()[index]);
                assert(persisted(old_disk, index, count) == image);
                assert(old_disk.survives(image));
            } else {
                let part = bytes.take(count);
                lemma_overlaid(old_disk.durable(), start, part);
                assert(old_disk.survives(old_disk.durable()));
                assert(torn(old_disk.durable(), image, start, start + length));
            }
        }
    }
}

} // verus!
