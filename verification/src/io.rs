//! Positioned storage and whole-page transfers.
use crate::error::{corrupt, Error, Result};
use crate::format::{PAGE_SIZE, PAGE_SIZE_U64};
use vstd::prelude::*;

verus! {

/// Whether `after` may be what is left of `before` once writes inside
/// `start..end` were begun: bytes outside that range are those of `before` or were added
/// as zeros, and the storage has not shrunk nor grown past `end`.
pub open spec fn torn(before: Seq<u8>, after: Seq<u8>, start: int, end: int) -> bool {
    &&& before.len() <= after.len()
    &&& after.len() <= before.len() || after.len() <= end
    &&& forall|i: int|
        0 <= i < before.len() && !(start <= i < end) ==> #[trigger] after[i] == before[i]
    &&& forall|i: int|
        before.len() <= i < after.len() && !(start <= i < end) ==> #[trigger] after[i] == 0
}

/// Whether `after` is `before` with `bytes` written at `start`.
pub open spec fn stored(before: Seq<u8>, after: Seq<u8>, start: int, bytes: Seq<u8>) -> bool {
    &&& torn(before, after, start, start + bytes.len())
    &&& start + bytes.len() <= after.len()
    &&& after.subrange(start, start + bytes.len()) == bytes
}

/// Whether `after` may be what is left of `before` once its length was set to
/// `length`: the bytes below both lengths are kept, and those that are added are zero.
pub open spec fn resized(before: Seq<u8>, after: Seq<u8>, length: int) -> bool {
    &&& before.len() <= after.len() || length <= after.len()
    &&& forall|i: int|
        0 <= i < before.len() && i < length && i < after.len() ==> #[trigger] after[i] == before[i]
    &&& forall|i: int| before.len() <= i < after.len() ==> #[trigger] after[i] == 0
}

/// A change that a backend was asked for and carried out.
pub enum Call {
    /// Bytes were written at an offset.
    Write { offset: int, bytes: Seq<u8> },
    /// The length was set.
    Resize(int),
    /// Everything before was made durable.
    Sync,
}

/// Whether the calls write the bytes at `offset`, one part behind the other.
pub open spec fn transfers(calls: Seq<Call>, offset: int, bytes: Seq<u8>) -> bool
    decreases calls.len(),
{
    if calls.len() == 0 {
        bytes.len() == 0
    } else {
        match calls.last() {
            Call::Write { offset: at, bytes: part } => {
                let before = bytes.len() - part.len();
                &&& 0 < part.len() <= bytes.len()
                &&& at == offset + before
                &&& part == bytes.skip(before)
                &&& transfers(calls.drop_last(), offset, bytes.take(before))
            },
            _ => false,
        }
    }
}

/// Whether the calls `after` are those `before` and then the writes of some bytes at `offset`.
pub open spec fn wrote(before: Seq<Call>, after: Seq<Call>, offset: int, bytes: Seq<u8>) -> bool {
    &&& before.len() <= after.len()
    &&& after.take(before.len() as int) == before
    &&& transfers(after.skip(before.len() as int), offset, bytes)
}

/// Positioned, synchronous storage used by the database engine.
///
/// Reads and writes may complete only part of the supplied buffer; the engine
/// retries short transfers until the buffer is complete, or reports an I/O error
/// if a backend stops making progress. Implementations must provide exclusive
/// ownership for the lifetime of an open database. A successful
/// [`Storage::sync_all`] must make all preceding writes and length changes
/// durable.
///
/// Specification functions say what a backend promises. `contents` is what
/// reads see. `calls` lists the changes that were carried out, in their order; a call that
/// fails is not among them. `survives` holds of every image that a crash at this moment may
/// leave behind: writes since the last successful synchronization may have
/// reached the medium in any order, in part or not at all. A read changes none of the
/// three. A fourth one, `failures`, counts the calls that failed or, asked for bytes that are
/// there, moved none, and `reported` is the error of the last of them.
pub trait Storage: Send + Sync + 'static {
    /// The bytes that reads see. A backend whose code is not verified leaves it open.
    open spec fn contents(&self) -> Seq<u8> {
        arbitrary()
    }

    /// Whether a crash at this moment may leave `image` behind. A backend whose code is not
    /// verified leaves it open.
    open spec fn survives(&self, image: Seq<u8>) -> bool {
        arbitrary()
    }

    /// The changes that were carried out so far. A backend whose code is not verified leaves
    /// it open.
    open spec fn calls(&self) -> Seq<Call> {
        arbitrary()
    }

    /// How many reads, writes, changes of the length and synchronizations failed or made no
    /// progress so far. A backend whose code is not verified leaves it open.
    open spec fn failures(&self) -> nat {
        arbitrary()
    }

    /// The error of the last call that failed, or nothing if the last failure was that a call
    /// made no progress. A backend whose code is not verified leaves it open.
    open spec fn reported(&self) -> Option<std::io::Error> {
        arbitrary()
    }

    /// Reads bytes beginning at `offset`, returning the transferred byte count.
    fn read_at(&mut self, buffer: &mut [u8], offset: u64) -> (result: std::io::Result<usize>)
        ensures
            final(self).contents() == old(self).contents(),
            final(self).calls() == old(self).calls(),
            forall|image: Seq<u8>| #[trigger]
                final(self).survives(image) == old(self).survives(image),
            final(self).failures() == old(self).failures() + match result {
                Ok(count) => if count == 0 && old(buffer)@.len() > 0 && offset < old(
                    self,
                ).contents().len() {
                    1nat
                } else {
                    0
                },
                Err(_) => 1,
            },
            result matches Err(error) ==> final(self).reported() == Some(error),
            result is Ok ==> final(self).reported() == if final(self).failures() == old(
                self,
            ).failures() {
                old(self).reported()
            } else {
                None
            },
            final(buffer)@.len() == old(buffer)@.len(),
            result matches Ok(count) ==> {
                &&& count <= old(buffer)@.len()
                &&& count > 0 ==> offset + count <= old(self).contents().len()
                &&& forall|i: int|
                    0 <= i < count ==> #[trigger] final(buffer)@[i] == old(self).contents()[offset
                        + i]
                &&& forall|i: int|
                    count <= i < old(buffer)@.len() ==> #[trigger] final(buffer)@[i] == old(
                        buffer,
                    )@[i]
            },
    ;

    /// Writes bytes beginning at `offset`, returning the transferred byte count.
    fn write_at(&mut self, buffer: &[u8], offset: u64) -> (result: std::io::Result<usize>)
        ensures
            match result {
                Ok(count) => count <= buffer@.len() && (if count == 0 {
                    torn(
                        old(self).contents(),
                        final(self).contents(),
                        offset as int,
                        offset as int,
                    )
                } else {
                    stored(
                        old(self).contents(),
                        final(self).contents(),
                        offset as int,
                        buffer@.take(count as int),
                    )
                }),
                Err(_) => torn(
                    old(self).contents(),
                    final(self).contents(),
                    offset as int,
                    offset + buffer@.len(),
                ),
            },
            final(self).calls() == match result {
                Ok(count) => old(self).calls().push(
                    Call::Write { offset: offset as int, bytes: buffer@.take(count as int) },
                ),
                Err(_) => old(self).calls(),
            },
            final(self).failures() == old(self).failures() + match result {
                Ok(count) => if count == 0 && buffer@.len() > 0 {
                    1nat
                } else {
                    0
                },
                Err(_) => 1,
            },
            result matches Err(error) ==> final(self).reported() == Some(error),
            result is Ok ==> final(self).reported() == if final(self).failures() == old(
                self,
            ).failures() {
                old(self).reported()
            } else {
                None
            },
            forall|image: Seq<u8>| #[trigger]
                final(self).survives(image) ==> exists|base: Seq<u8>| #[trigger]
                    old(self).survives(base) && torn(
                        base,
                        image,
                        offset as int,
                        offset + buffer@.len(),
                    ),
    ;

    /// Returns the current storage length in bytes.
    fn len(&self) -> (result: std::io::Result<u64>)
        ensures
            result matches Ok(length) ==> length == self.contents().len(),
    ;

    /// Changes the storage length to `length` bytes. Bytes that are added are zero.
    fn set_len(&mut self, length: u64) -> (result: std::io::Result<()>)
        ensures
            resized(old(self).contents(), final(self).contents(), length as int),
            result is Ok ==> final(self).contents().len() == length,
            result is Ok ==> forall|i: int|
                old(self).contents().len() <= i < length ==> #[trigger] final(self).contents()[i]
                    == 0,
            final(self).calls() == if result is Ok {
                old(self).calls().push(Call::Resize(length as int))
            } else {
                old(self).calls()
            },
            final(self).failures() == old(self).failures() + if result is Ok {
                0nat
            } else {
                1
            },
            final(self).reported() == match result {
                Ok(_) => old(self).reported(),
                Err(error) => Some(error),
            },
            forall|image: Seq<u8>| #[trigger]
                final(self).survives(image) ==> exists|base: Seq<u8>| #[trigger]
                    old(self).survives(base) && resized(base, image, length as int),
    ;

    /// Makes preceding data and metadata changes durable.
    fn sync_all(&mut self) -> (result: std::io::Result<()>)
        ensures
            final(self).contents() == old(self).contents(),
            final(self).calls() == if result is Ok {
                old(self).calls().push(Call::Sync)
            } else {
                old(self).calls()
            },
            final(self).failures() == old(self).failures() + if result is Ok {
                0nat
            } else {
                1
            },
            final(self).reported() == match result {
                Ok(_) => old(self).reported(),
                Err(error) => Some(error),
            },
            forall|image: Seq<u8>| #[trigger]
                final(self).survives(image) ==> if result is Ok {
                    image == old(self).contents()
                } else {
                    old(self).survives(image)
                },
    ;

    /// Reports whether the storage currently contains no bytes.
    fn is_empty(&self) -> (result: std::io::Result<bool>)
        ensures
            result matches Ok(empty) ==> empty == (self.contents().len() == 0),
            exists|length: std::io::Result<u64>| #[trigger]
                call_ensures(Self::len, (self,), length) && match length {
                    Ok(length) => result == Ok::<bool, std::io::Error>(length == 0),
                    Err(error) => result == Err::<bool, std::io::Error>(error),
                },
    {
        match self.len() {
            Ok(length) => Ok(length == 0),
            Err(error) => Err(error),
        }
    }
}

/// Whether nothing was changed between two states of storage.
pub open spec fn quiet<I: Storage>(before: &I, after: &I) -> bool {
    &&& after.contents() == before.contents()
    &&& after.calls() == before.calls()
    &&& forall|image: Seq<u8>| #[trigger] after.survives(image) == before.survives(image)
}

/// Whether every image that a crash may leave `after` behind is one that it may
/// have left `before`, but for the bytes in `start..end`.
pub open spec fn disturbs<I: Storage>(before: &I, after: &I, start: int, end: int) -> bool {
    forall|image: Seq<u8>| #[trigger]
        after.survives(image) ==> exists|base: Seq<u8>| #[trigger]
            before.survives(base) && torn(base, image, start, end)
}

/// The pages that the bytes hold in full, as far as offsets reach.
pub open spec fn pages_of(contents: Seq<u8>) -> Map<u64, Seq<u8>> {
    Map::new(
        |id: u64| (id + 1) * PAGE_SIZE <= contents.len() && (id + 1) * PAGE_SIZE <= u64::MAX,
        |id: u64| contents.subrange(id * PAGE_SIZE, id * PAGE_SIZE + PAGE_SIZE),
    )
}

/// Builds the error of a read that met the end of the storage, with
/// `std::io::Error::from` on `std::io::ErrorKind::UnexpectedEof`. The error is
/// opaque: nothing is claimed of it.
#[verifier::external_body]
fn unexpected_eof() -> std::io::Error {
    std::io::Error::from(std::io::ErrorKind::UnexpectedEof)
}

/// Builds the error of a write that made no progress, with
/// `std::io::Error::from` on `std::io::ErrorKind::WriteZero`. The error is
/// opaque: nothing is claimed of it.
#[verifier::external_body]
fn write_zero() -> std::io::Error {
    std::io::Error::from(std::io::ErrorKind::WriteZero)
}

/// What the outcome of one transfer means for the whole.
pub enum Advance {
    /// The transfer failed.
    Failed(std::io::Error),
    /// The backend made no progress.
    Stalled,
    /// So many bytes were transferred, and some are left.
    Onward(usize),
    /// All bytes were transferred.
    Complete,
}

/// Judges the outcome of one transfer when `done` of `length` bytes were transferred before: a
/// short transfer is followed by another.
pub fn advance(done: usize, length: usize, outcome: std::io::Result<usize>) -> (next: Advance)
    requires
        done < length,
        outcome matches Ok(count) ==> done + count <= length,
    ensures
        match outcome {
            Err(error) => next == Advance::Failed(error),
            Ok(count) => next == if count == 0 {
                Advance::Stalled
            } else if done + count == length {
                Advance::Complete
            } else {
                Advance::Onward((done + count) as usize)
            },
        },
{
    match outcome {
        Err(error) => Advance::Failed(error),
        Ok(count) => if count == 0 {
            Advance::Stalled
        } else if done + count == length {
            Advance::Complete
        } else {
            Advance::Onward(done + count)
        },
    }
}

/// Whether an error is one of the storage: a call failed or made no progress since, and if it
/// failed, the error is the one that it gave.
pub open spec fn blamed<I: Storage>(error: Error, before: &I, after: &I) -> bool {
    &&& error is Io
    &&& after.failures() > before.failures()
    &&& after.reported() matches Some(cause) ==> error == Error::Io(cause)
}

/// Fills `buffer` with the bytes at `offset`.
fn read_exact_at<I: Storage>(io: &mut I, buffer: &mut [u8], offset: u64) -> (result: Result<()>)
    ensures
        quiet(old(io), final(io)),
        final(buffer)@.len() == old(buffer)@.len(),
        match result {
            Ok(_) => old(buffer)@.len() > 0 ==> {
                &&& offset + old(buffer)@.len() <= u64::MAX
                &&& offset + old(buffer)@.len() <= old(io).contents().len()
                &&& final(buffer)@ == old(io).contents().subrange(
                    offset as int,
                    offset + old(buffer)@.len(),
                )
            },
            Err(Error::Io(cause)) => old(buffer)@.len() > 0 && (blamed(
                Error::Io(cause),
                old(io),
                final(io),
            ) || (offset + old(buffer)@.len() > old(io).contents().len() && final(io).failures()
                == old(io).failures())),
            Err(Error::Corrupt(_)) => {
                &&& offset + old(buffer)@.len() > u64::MAX
                &&& final(io).failures() == old(io).failures()
            },
            Err(_) => false,
        },
        old(io).failures() <= final(io).failures(),
        result is Ok ==> final(io).failures() == old(io).failures(),
{
    let length = buffer.len();
    let mut done: usize = 0;
    let mut position = offset;
    while done < length
        invariant
            done <= length,
            buffer@.len() == length,
            old(buffer)@.len() == length,
            position == offset + done,
            quiet(old(io), io),
            io.failures() == old(io).failures(),
            done > 0 ==> offset + done <= io.contents().len(),
            forall|i: int| 0 <= i < done ==> #[trigger] buffer@[i] == io.contents()[offset + i],
        decreases length - done,
    {
        let (_, rest) = buffer.split_at_mut(done);
        let outcome = io.read_at(rest, position);
        let reached = match advance(done, length, outcome) {
            Advance::Failed(error) => {
                return Err(Error::Io(error));
            },
            Advance::Stalled => {
                return Err(Error::Io(unexpected_eof()));
            },
            Advance::Onward(reached) => reached,
            Advance::Complete => length,
        };
        position = match position.checked_add((reached - done) as u64) {
            Some(next) => next,
            None => {
                return Err(corrupt("read offset overflow"));
            },
        };
        done = reached;
    }
    assert(length > 0 ==> buffer@ =~= io.contents().subrange(offset as int, offset + length));
    Ok(())
}

/// Composes two disturbances of the same range.
proof fn lemma_disturbs_compose<I: Storage>(
    a: &I,
    b: &I,
    c: &I,
    start: int,
    middle_start: int,
    middle_end: int,
    end: int,
)
    requires
        disturbs(a, b, start, end),
        disturbs(b, c, middle_start, middle_end),
        start <= middle_start,
        middle_end <= end,
    ensures
        disturbs(a, c, start, end),
{
    assert forall|image: Seq<u8>| #[trigger] c.survives(image) implies exists|base: Seq<u8>| #[trigger]
        a.survives(base) && torn(base, image, start, end) by {
        let middle = choose|middle: Seq<u8>| #[trigger]
            b.survives(middle) && torn(middle, image, middle_start, middle_end);
        let base = choose|base: Seq<u8>| #[trigger]
            a.survives(base) && torn(base, middle, start, end);
        assert(torn(base, image, start, end));
    }
}

/// A write behind others continues them.
proof fn lemma_wrote_more(
    before: Seq<Call>,
    after: Seq<Call>,
    offset: int,
    bytes: Seq<u8>,
    part: Seq<u8>,
)
    requires
        wrote(before, after, offset, bytes),
        part.len() > 0,
    ensures
        wrote(
            before,
            after.push(Call::Write { offset: offset + bytes.len(), bytes: part }),
            offset,
            bytes + part,
        ),
{
    let n = before.len() as int;
    let more = after.push(Call::Write { offset: offset + bytes.len(), bytes: part });
    assert(more.take(n) =~= after.take(n));
    assert(more.skip(n).drop_last() =~= after.skip(n));
    assert((bytes + part).skip(bytes.len() as int) =~= part);
    assert((bytes + part).take(bytes.len() as int) =~= bytes);
}

/// Writes all of `buffer` at `offset`.
fn write_all_at<I: Storage>(io: &mut I, buffer: &[u8], offset: u64) -> (result: Result<()>)
    ensures
        match result {
            Ok(_) => buffer@.len() > 0 ==> offset + buffer@.len() <= u64::MAX && stored(
                old(io).contents(),
                final(io).contents(),
                offset as int,
                buffer@,
            ),
            Err(Error::Io(cause)) => blamed(Error::Io(cause), old(io), final(io)),
            Err(Error::Corrupt(_)) => offset + buffer@.len() > u64::MAX,
            Err(_) => false,
        },
        old(io).failures() <= final(io).failures(),
        result is Ok ==> final(io).failures() == old(io).failures(),
        torn(old(io).contents(), final(io).contents(), offset as int, offset + buffer@.len()),
        disturbs(old(io), final(io), offset as int, offset + buffer@.len()),
        result is Ok ==> wrote(old(io).calls(), final(io).calls(), offset as int, buffer@),
{
    let length = buffer.len();
    let mut done: usize = 0;
    let mut position = offset;
    let ghost before = old(io).contents();
    let ghost asked = old(io).calls();
    proof {
        assert(io.calls().take(asked.len() as int) =~= asked);
        assert(io.calls().skip(asked.len() as int) =~= Seq::<Call>::empty());
    }
    while done < length
        invariant
            done <= length,
            buffer@.len() == length,
            position == offset + done,
            before == old(io).contents(),
            torn(before, io.contents(), offset as int, offset + length),
            done == 0 ==> io.contents() == before,
            done > 0 ==> offset + done <= io.contents().len(),
            done > 0 ==> torn(before, io.contents(), offset as int, offset + done),
            forall|i: int| 0 <= i < done ==> #[trigger] buffer@[i] == io.contents()[offset + i],
            disturbs(old(io), io, offset as int, offset + length),
            asked == old(io).calls(),
            io.failures() == old(io).failures(),
            wrote(asked, io.calls(), offset as int, buffer@.take(done as int)),
        decreases length - done,
    {
        let ghost middle = *io;
        let ghost seen = io.contents();
        let rest = &buffer[done..length];
        let outcome = io.write_at(rest, position);
        proof {
            lemma_disturbs_compose(
                old(io),
                &middle,
                io,
                offset as int,
                position as int,
                position + rest@.len(),
                offset + length,
            );
        }
        let reached = match advance(done, length, outcome) {
            Advance::Failed(error) => {
                return Err(Error::Io(error));
            },
            Advance::Stalled => {
                return Err(Error::Io(write_zero()));
            },
            Advance::Onward(reached) => reached,
            Advance::Complete => length,
        };
        let ghost count = reached - done;
        proof {
            lemma_wrote_more(
                asked,
                middle.calls(),
                offset as int,
                buffer@.take(done as int),
                rest@.take(count as int),
            );
            assert(buffer@.take(done as int) + rest@.take(count as int) =~= buffer@.take(
                reached as int,
            ));
        }
        assert forall|i: int| 0 <= i < done + count implies #[trigger] buffer@[i] == io.contents()[offset
            + i] by {
            if i >= done {
                let written = rest@.take(count as int);
                assert(io.contents().subrange(position as int, position + count)[i - done]
                    == written[i - done]);
            }
        }
        position = match position.checked_add((reached - done) as u64) {
            Some(next) => next,
            None => {
                return Err(corrupt("write offset overflow"));
            },
        };
        done = reached;
    }
    assert(length > 0 ==> io.contents().subrange(offset as int, offset + length) =~= buffer@);
    assert(buffer@.take(length as int) =~= buffer@);
    Ok(())
}

/// Reads one page.
pub fn read_page<I: Storage>(io: &mut I, page_id: u64) -> (result: Result<[u8; PAGE_SIZE]>)
    ensures
        quiet(old(io), final(io)),
        match result {
            Ok(page) => pages_of(old(io).contents()).contains_key(page_id) && page@ == pages_of(
                old(io).contents(),
            )[page_id],
            Err(Error::Io(cause)) => page_id * PAGE_SIZE <= u64::MAX && (blamed(
                Error::Io(cause),
                old(io),
                final(io),
            ) || ((page_id + 1) * PAGE_SIZE > old(io).contents().len() && final(io).failures()
                == old(io).failures())),
            Err(Error::Corrupt(_)) => (page_id + 1) * PAGE_SIZE > u64::MAX && final(io).failures()
                == old(io).failures(),
            Err(_) => false,
        },
        old(io).failures() <= final(io).failures(),
        result is Ok ==> final(io).failures() == old(io).failures(),
{
    let mut page = [0u8; PAGE_SIZE];
    let offset = match page_id.checked_mul(PAGE_SIZE_U64) {
        Some(offset) => offset,
        None => {
            return Err(corrupt("page offset overflow"));
        },
    };
    match read_exact_at(io, &mut page, offset) {
        Ok(_) => Ok(page),
        Err(error) => Err(error),
    }
}

/// A page that the storage holds is read in full, unless a call to the storage failed or made no
/// progress meanwhile.
pub proof fn law_stored_page_is_read<I: Storage>(
    io: &mut I,
    page_id: u64,
    result: Result<[u8; PAGE_SIZE]>,
)
    requires
        call_ensures(read_page::<I>, (io, page_id), result),
        (page_id + 1) * PAGE_SIZE <= old(io).contents().len(),
        (page_id + 1) * PAGE_SIZE <= u64::MAX,
        final(io).failures() == old(io).failures(),
    ensures
        result matches Ok(page) && page@ == old(io).contents().subrange(
            page_id * PAGE_SIZE,
            (page_id + 1) * PAGE_SIZE,
        ),
{
}

/// Where a call to the storage fails while a page is read, the error is the one that the call
/// gave.
pub proof fn law_storage_errors_are_passed_on<I: Storage>(
    io: &mut I,
    page_id: u64,
    result: Result<[u8; PAGE_SIZE]>,
    cause: std::io::Error,
)
    requires
        call_ensures(read_page::<I>, (io, page_id), result),
        final(io).failures() > old(io).failures(),
        final(io).reported() == Some(cause),
    ensures
        result == Err::<[u8; PAGE_SIZE], Error>(Error::Io(cause)),
{
}

/// Writes one page.
pub fn write_page<I: Storage>(io: &mut I, page_id: u64, page: &[u8; PAGE_SIZE]) -> (result:
    Result<()>)
    ensures
        match result {
            Ok(_) => (page_id + 1) * PAGE_SIZE <= u64::MAX && stored(
                old(io).contents(),
                final(io).contents(),
                page_id * PAGE_SIZE,
                page@,
            ),
            Err(Error::Io(cause)) => page_id * PAGE_SIZE <= u64::MAX && blamed(
                Error::Io(cause),
                old(io),
                final(io),
            ),
            Err(Error::Corrupt(_)) => (page_id + 1) * PAGE_SIZE > u64::MAX,
            Err(_) => false,
        },
        old(io).failures() <= final(io).failures(),
        result is Ok ==> final(io).failures() == old(io).failures(),
        torn(
            old(io).contents(),
            final(io).contents(),
            page_id * PAGE_SIZE,
            page_id * PAGE_SIZE + PAGE_SIZE,
        ),
        disturbs(old(io), final(io), page_id * PAGE_SIZE, page_id * PAGE_SIZE + PAGE_SIZE),
        result is Ok ==> wrote(old(io).calls(), final(io).calls(), page_id * PAGE_SIZE, page@),
{
    let offset = match page_id.checked_mul(PAGE_SIZE_U64) {
        Some(offset) => offset,
        None => {
            proof {
                assert forall|image: Seq<u8>| #[trigger] io.survives(image) implies exists|
                    base: Seq<u8>,
                | #[trigger]
                    old(io).survives(base) && torn(
                        base,
                        image,
                        page_id * PAGE_SIZE,
                        page_id * PAGE_SIZE + PAGE_SIZE,
                    ) by {
                    assert(torn(
                        image,
                        image,
                        page_id * PAGE_SIZE,
                        page_id * PAGE_SIZE + PAGE_SIZE,
                    ));
                }
            }
            return Err(corrupt("page offset overflow"));
        },
    };
    write_all_at(io, page, offset)
}

/// Whether a backend may answer that it cannot tell its length.
pub open spec fn mute<I: Storage>(io: &I) -> bool {
    exists|answer: std::io::Result<u64>| #[trigger]
        call_ensures(I::len, (io,), answer) && answer is Err
}

/// Whether storage that is out of reach by now failed, or made no progress, after it was in a
/// given state.
pub open spec fn struck<I: Storage>(before: &I) -> bool {
    exists|after: I|
        (#[trigger] after.failures()) > before.failures() || mute(&after)
}

/// Returns the storage length in bytes.
pub fn len<I: Storage>(io: &I) -> (result: Result<u64>)
    ensures
        match result {
            Ok(length) => length == io.contents().len(),
            Err(error) => error is Io && mute(io),
        },
{
    match io.len() {
        Ok(length) => Ok(length),
        Err(error) => Err(Error::Io(error)),
    }
}

/// Changes the storage length to `length` bytes.
pub fn set_len<I: Storage>(io: &mut I, length: u64) -> (result: Result<()>)
    ensures
        resized(old(io).contents(), final(io).contents(), length as int),
        match result {
            Ok(_) => final(io).contents().len() == length && forall|i: int|
                old(io).contents().len() <= i < length ==> #[trigger] final(io).contents()[i] == 0,
            Err(error) => blamed(error, old(io), final(io)),
        },
        final(io).failures() == old(io).failures() + if result is Ok {
            0nat
        } else {
            1
        },
        final(io).calls() == if result is Ok {
            old(io).calls().push(Call::Resize(length as int))
        } else {
            old(io).calls()
        },
        forall|image: Seq<u8>| #[trigger]
            final(io).survives(image) ==> exists|base: Seq<u8>| #[trigger]
                old(io).survives(base) && resized(base, image, length as int),
{
    match io.set_len(length) {
        Ok(_) => Ok(()),
        Err(error) => Err(Error::Io(error)),
    }
}

/// Makes preceding changes durable.
pub fn sync_all<I: Storage>(io: &mut I) -> (result: Result<()>)
    ensures
        result matches Err(error) ==> blamed(error, old(io), final(io)),
        final(io).failures() == old(io).failures() + if result is Ok {
            0nat
        } else {
            1
        },
        final(io).contents() == old(io).contents(),
        final(io).calls() == if result is Ok {
            old(io).calls().push(Call::Sync)
        } else {
            old(io).calls()
        },
        forall|image: Seq<u8>| #[trigger]
            final(io).survives(image) ==> if result is Ok {
                image == old(io).contents()
            } else {
                old(io).survives(image)
            },
{
    match io.sync_all() {
        Ok(_) => Ok(()),
        Err(error) => Err(Error::Io(error)),
    }
}

} // verus!
