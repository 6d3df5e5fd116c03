use vstd::prelude::*;
use crate::bytes::overwrite;
use crate::container::Cogtainer;
use crate::error::{CogtainerError, IoError};
use crate::footer::payload;
use crate::identifier::{Identifier, IdentifierView};

verus! {

/// Where a seek is measured from.
#[derive(Debug, Clone, Copy, PartialEq, Eq)]
pub enum SeekFrom {
    /// From the start of the payload.
    Start(u64),
    /// From the used length of the payload.
    End(i64),
    /// From the cursor.
    Current(i64),
}

/// A cursor over one block, read and written like a file.
///
/// The view holds its container for as long as it lives, so nothing else
/// can change the container meanwhile; [`InternalFile::into_inner`] gives
/// it back.
#[derive(Debug)]
pub struct InternalFile {
    pub container: Cogtainer,
    pub block_id: Identifier,
    pub cursor: u64,
}

/// What a block holds for the view: its metadata and payload, or empty
/// metadata and payload where there is no such block.
pub open spec fn current(c: Cogtainer, k: IdentifierView) -> (Seq<u8>, Seq<u8>) {
    if c.blocks().contains_key(k) {
        (c.blocks()[k].metadata, payload(c.file@, c.blocks()[k]))
    } else {
        (Seq::empty(), Seq::empty())
    }
}

impl Cogtainer {
    /// A view of block `block_id` with its cursor at 0.
    pub fn get_block_as_file(self, block_id: &Identifier) -> (r: InternalFile)
        ensures
            r.container == self,
            r.block_id@ == block_id@,
            r.cursor == 0,
    {
        InternalFile::new(self, block_id.duplicate())
    }
}

impl InternalFile {
    pub fn new(container: Cogtainer, block_id: Identifier) -> (r: InternalFile)
        ensures
            r.container == container,
            r.block_id == block_id,
            r.cursor == 0,
    {
        InternalFile { container, block_id, cursor: 0 }
    }

    /// Gives the container back.
    pub fn into_inner(self) -> (r: Cogtainer)
        ensures
            r == self.container,
    {
        self.container
    }

    /// Moves the cursor. A position before the start fails with an invalid
    /// input error and leaves the cursor alone; a position past the end is
    /// allowed and grows nothing. Seeking from the end needs the block.
    pub fn seek(&mut self, pos: SeekFrom) -> (r: Result<u64, CogtainerError>)
        requires
            old(self).container.wf(),
        ensures
            final(self).container == old(self).container,
            final(self).block_id == old(self).block_id,
            r matches Ok(c) ==> final(self).cursor == c,
            r is Err ==> final(self).cursor == old(self).cursor,
            (match pos {
                SeekFrom::Start(p) => r == Ok::<u64, CogtainerError>(p),
                SeekFrom::Current(d) => {
                    let t = old(self).cursor + d;
                    if t < 0 || t > u64::MAX {
                        r matches Err(CogtainerError::IOError(IoError::InvalidInput))
                    } else {
                        r == Ok::<u64, CogtainerError>(t as u64)
                    }
                },
                SeekFrom::End(d) => {
                    if !old(self).container.blocks().contains_key(old(self).block_id@) {
                        r matches Err(CogtainerError::BlockNotFound(_))
                    } else {
                        let t = old(self).container.blocks()[old(self).block_id@].used + d;
                        if t < 0 || t > u64::MAX {
                            r matches Err(CogtainerError::IOError(IoError::InvalidInput))
                        } else {
                            r == Ok::<u64, CogtainerError>(t as u64)
                        }
                    }
                },
            }),
    {
        let target: i128 = match pos {
            SeekFrom::Start(p) => {
                self.cursor = p;
                return Ok(p);
            },
            SeekFrom::Current(d) => self.cursor as i128 + d as i128,
            SeekFrom::End(d) => {
                let used = match self.container.footer.find(&self.block_id) {
                    Some(i) => {
                        proof {
                            crate::footer::lemma_entries_map(self.container.footer.blocks@);
                            assert(self.container.blocks()[self.container.footer.blocks@[i as int].0@]
                                == self.container.footer.blocks@[i as int].1@);
                        }
                        self.container.footer.blocks[i].1.used_length
                    },
                    None => {
                        return Err(CogtainerError::BlockNotFound(self.block_id.duplicate()));
                    },
                };
                used as i128 + d as i128
            },
        };
        if target < 0 || target > u64::MAX as i128 {
            return Err(CogtainerError::IOError(IoError::InvalidInput));
        }
        self.cursor = target as u64;
        Ok(self.cursor)
    }

    /// Reads from the cursor into `buf` and advances the cursor by the count
    /// read; past the used length that count is 0. Fails where the block
    /// does not exist.
    pub fn read(&mut self, buf: &mut [u8]) -> (r: Result<usize, CogtainerError>)
        requires
            old(self).container.wf(),
        ensures
            final(self).container == old(self).container,
            final(self).block_id == old(self).block_id,
            final(buf)@.len() == old(buf)@.len(),
            !old(self).container.blocks().contains_key(old(self).block_id@) ==> (r matches Err(CogtainerError::BlockNotFound(_))),
            old(self).container.blocks().contains_key(old(self).block_id@) ==> r is Ok,
            r is Err ==> final(self).cursor == old(self).cursor,
            r matches Ok(n) ==> final(self).cursor == old(self).cursor + n,
            r matches Ok(n) ==> ({
                let d = old(self).container.blocks()[old(self).block_id@];
                let c = old(self).cursor as int;
                &&& n <= old(buf)@.len()
                &&& (d.allocated == 0 || c >= d.used) ==> n == 0
                &&& n > 0 ==> final(buf)@.subrange(0, n as int) == old(self).container.file@.subrange(d.offset + c, d.offset + c + n)
            }),
    {
        let bl = buf.len();
        proof {
            crate::footer::lemma_map_values_ok(self.container.footer, self.container.header.footer_offset.0);
        }
        let n = match self.container.read_slice(&self.block_id, self.cursor, buf) {
            Ok(n) => n,
            Err(e) => {
                return Err(e);
            },
        };
        let ghost c = self.cursor as int;
        let ghost d = self.container.blocks()[self.block_id@];
        proof {
            if d.allocated > 0 && c < d.used {
                assert(buf@.subrange(0, n as int) =~= self.container.file@.subrange(d.offset + c, d.offset + c + n));
            }
            assert(n <= bl);
            assert(c + n <= u64::MAX);
        }
        self.cursor = self.cursor + n;
        Ok(n as usize)
    }

    /// Writes `buf` at the cursor and advances the cursor by its length.
    ///
    /// Where the block exists and the write fits its allocation, the bytes
    /// are written in place: zeros fill any gap past the used length, the
    /// used length grows to cover the write and the checksum is computed
    /// afresh. Otherwise the payload is rebuilt with the write laid over it
    /// and stored anew. An empty write does nothing and returns 0.
    pub fn write(&mut self, buf: &[u8]) -> (r: Result<usize, CogtainerError>)
        requires
            old(self).container.wf(),
        ensures
            final(self).container.wf(),
            final(self).block_id == old(self).block_id,
            buf@.len() == 0 ==> r == Ok::<usize, CogtainerError>(0) && *final(self) == *old(self),
            r is Err ==> final(self).cursor == old(self).cursor,
            r is Err ==> (old(self).cursor + buf@.len() > u64::MAX && (r matches Err(CogtainerError::IOError(IoError::InvalidInput))))
                || (old(self).container.blocks().contains_key(old(self).block_id@) && old(self).container.stored(old(self).block_id@) is None)
                || old(self).cursor + buf@.len() > usize::MAX || (final(self).container.header.footer_offset
                == old(self).container.header.footer_offset && old(self).container.header.footer_offset.0
                + old(self).container.overallocation_policy.spec_calculate(
                    overwrite(old(self).container.footer.current_payload(old(self).container.file@, old(self).block_id@),
                    old(self).cursor as int, buf@).len() as u64,
                ) > usize::MAX) || final(self).container.header.footer_offset.0 + final(self).container.footer.encoded().len()
                > usize::MAX,
            r matches Ok(n) ==> n == buf@.len() && final(self).cursor == old(self).cursor + n,
            r is Ok && buf@.len() > 0 ==> ({
                let (m, b) = current(old(self).container, old(self).block_id@);
                final(self).container.stored(old(self).block_id@) == Some((m, overwrite(b, old(self).cursor as int, buf@)))
            }),
            r is Ok ==> forall|k: IdentifierView| k != old(self).block_id@ ==>
                #[trigger] final(self).container.stored(k) == old(self).container.stored(k),
            r is Ok && old(self).container.covered() ==> final(self).container.covered(),
            old(self).container.blocks().contains_key(old(self).block_id@) && old(self).container.stored(old(self).block_id@) is None
                && buf@.len() > 0 && r is Ok ==> ({
                    let d = old(self).container.blocks()[old(self).block_id@];
                    d.allocated > 0 && old(self).cursor + buf@.len() <= d.allocated
                }),
    {
        if buf.len() == 0 {
            return Ok(0);
        }
        let len = buf.len() as u64;
        if self.cursor > u64::MAX - len {
            return Err(CogtainerError::IOError(IoError::InvalidInput));
        }
        let end = self.cursor + len;
        let c = &mut self.container;
        proof {
            crate::footer::lemma_entries_map(c.footer.blocks@);
        }
        let in_place = match c.footer.find(&self.block_id) {
            Some(i) => {
                proof {
                    assert(c.blocks()[c.footer.blocks@[i as int].0@] == c.footer.blocks@[i as int].1@);
                }
                let alloc = c.footer.blocks[i].1.allocated_length;
                alloc > 0 && end <= alloc
            },
            None => false,
        };
        if in_place {
            match c.footer.write_in_place(&mut c.file, &mut c.header, &self.block_id, self.cursor, buf) {
                Ok(()) => {},
                Err(e) => {
                    return Err(e);
                },
            }
        } else {
            let policy = c.overallocation_policy;
            match c.footer.insert_block_at(&mut c.file, &mut c.header, policy, &self.block_id, self.cursor, buf) {
                Ok(_) => {},
                Err(e) => {
                    return Err(e);
                },
            }
        }
        self.cursor = end;
        Ok(buf.len())
    }

    /// Writes the container's footer and header.
    pub fn flush(&mut self) -> (r: Result<(), CogtainerError>)
        requires
            old(self).container.wf(),
        ensures
            final(self).container.wf(),
            final(self).block_id == old(self).block_id,
            final(self).cursor == old(self).cursor,
            forall|k: IdentifierView| #[trigger] final(self).container.stored(k) == old(self).container.stored(k),
            r is Ok ==> final(self).container.persisted(),
    {
        self.container.flush()
    }
}

} // verus!
