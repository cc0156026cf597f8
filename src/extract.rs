//! The extraction rules for one entry, and the list of entries to extract.
//!
//! A compressed entry (`real_size != compressed_size`) is decompressed into
//! exactly `real_size` bytes and must match its CRC. A stored entry is copied
//! as is, in pieces of at most `COPY_CHUNK_LEN` bytes, and is not checked.
//! Directory placeholders are not extracted.
use crate::codecs::{crc32, crc32_of, lzo_decompress, lzo_decompressed};
use crate::file_table::{DescriptorModel, FileDescriptor};
use crate::layout::{entry_components, entry_path, join_path};
use crate::merge::{MergedModel, MergedTable};
use vstd::prelude::*;

verus! {

/// The largest piece a stored entry is copied in.
pub const COPY_CHUNK_LEN: usize = 256 * 1024;

/// How many entries may be extracted at once.
pub const EXTRACTION_CONCURRENCY: usize = 64;

/// Why an entry could not be extracted.
#[derive(Debug, Clone, Copy, PartialEq, Eq, Structural)]
pub enum ExtractError {
    /// The compressed payload does not decompress into `real_size` bytes.
    Decompression,
    /// The decompressed payload does not match the descriptor's CRC.
    CrcMismatch,
    /// The archive ended before a stored payload was copied whole.
    UnexpectedEof,
    /// A read returned more bytes than were asked for.
    ReadTooLong,
}

/// The bytes a compressed entry unpacks to from its stored bytes.
pub open spec fn unpacked(stored: Seq<u8>, d: DescriptorModel) -> Result<Seq<u8>, ExtractError> {
    match lzo_decompressed(stored, d.real_size as nat) {
        Some(b) => if crc32_of(b) == d.crc {
            Ok(b)
        } else {
            Err(ExtractError::CrcMismatch)
        },
        None => Err(ExtractError::Decompression),
    }
}

/// Whether a payload whose checksum came out as `actual` is accepted.
pub fn check_crc(d: &FileDescriptor, actual: u32) -> (r: Result<(), ExtractError>)
    ensures
        actual == d.crc ==> r is Ok,
        actual != d.crc ==> r == Err::<(), ExtractError>(ExtractError::CrcMismatch),
{
    if actual == d.crc {
        Ok(())
    } else {
        Err(ExtractError::CrcMismatch)
    }
}

/// Decompresses the `compressed_size` stored bytes of a compressed entry
/// and checks them against its CRC.
pub fn unpack_compressed(lzo: &minilzo_rs::LZO, d: &FileDescriptor, stored: &[u8]) -> (r: Result<
    Vec<u8>,
    ExtractError,
>)
    ensures
        match unpacked(stored@, d@) {
            Ok(b) => r is Ok && r->Ok_0@ == b && b.len() == d.real_size,
            Err(e) => r == Err::<Vec<u8>, ExtractError>(e),
        },
{
    let data = match lzo_decompress(lzo, stored, d.real_size as usize) {
        Ok(data) => data,
        Err(_) => return Err(ExtractError::Decompression),
    };
    let actual = crc32(data.as_slice());
    match check_crc(d, actual) {
        Ok(()) => Ok(data),
        Err(e) => Err(e),
    }
}

/// How large the copy buffer of a stored entry of `real_size` bytes is.
pub fn copy_buffer_len(real_size: u32) -> (r: usize)
    ensures
        r == if real_size as int <= COPY_CHUNK_LEN {
            real_size as int
        } else {
            COPY_CHUNK_LEN as int
        },
{
    if (real_size as usize) <= COPY_CHUNK_LEN {
        real_size as usize
    } else {
        COPY_CHUNK_LEN
    }
}

/// The progress of copying a stored entry.
pub struct StoredCopy {
    remaining: u32,
}

impl StoredCopy {
    pub closed spec fn spec_remaining(&self) -> u32 {
        self.remaining
    }

    /// A copy of the payload of `d`, with nothing copied yet.
    pub fn new(d: &FileDescriptor) -> (r: StoredCopy)
        ensures
            r.spec_remaining() == d.real_size,
    {
        StoredCopy { remaining: d.real_size }
    }

    /// How many bytes are still to be copied.
    pub fn remaining(&self) -> (r: u32)
        ensures
            r == self.spec_remaining(),
    {
        self.remaining
    }

    pub fn is_done(&self) -> (r: bool)
        ensures
            r == (self.spec_remaining() == 0),
    {
        self.remaining == 0
    }

    /// How many bytes the next read asks for.
    pub fn next_read_len(&self) -> (r: usize)
        ensures
            r == if self.spec_remaining() as int <= COPY_CHUNK_LEN {
                self.spec_remaining() as int
            } else {
                COPY_CHUNK_LEN as int
            },
    {
        copy_buffer_len(self.remaining)
    }

    /// Takes in a read of `n` bytes: a read of nothing before the end, or of
    /// more than remains, fails the copy.
    pub fn record_read(&mut self, n: usize) -> (r: Result<(), ExtractError>)
        ensures
            n == 0 && old(self).spec_remaining() > 0 ==> r == Err::<(), ExtractError>(
                ExtractError::UnexpectedEof,
            ),
            n > old(self).spec_remaining() ==> r == Err::<(), ExtractError>(
                ExtractError::ReadTooLong,
            ),
            (n > 0 || old(self).spec_remaining() == 0) && n <= old(self).spec_remaining() ==> r is Ok
                && final(self).spec_remaining() == old(self).spec_remaining() - n,
            r is Err ==> final(self).spec_remaining() == old(self).spec_remaining(),
    {
        if n == 0 && self.remaining > 0 {
            return Err(ExtractError::UnexpectedEof);
        }
        if n > self.remaining as usize {
            return Err(ExtractError::ReadTooLong);
        }
        self.remaining = self.remaining - n as u32;
        Ok(())
    }
}

/// One entry to extract: where its payload is and where it goes.
#[derive(Debug, Clone)]
pub struct ExtractionTask {
    pub archive_path: String,
    /// The destination, relative to the output root.
    pub destination: String,
    pub descriptor: FileDescriptor,
}

/// Whether `t` is the task for the entry `n` of `m`.
pub open spec fn task_for(m: MergedModel, n: Seq<char>, t: ExtractionTask) -> bool {
    let (k, d) = m.entries[n];
    &&& t.descriptor@ == d
    &&& t.archive_path@ == m.archives[k as int].0
    &&& t.destination@ == join_path(entry_components(m.archives[k as int].1, n))
}

/// The entries of a merged table that are files, each with its archive and
/// its destination; directory placeholders are left out.
pub fn extraction_tasks(table: &MergedTable) -> (r: Vec<ExtractionTask>)
    requires
        table.wf(),
    ensures
        forall|i: int, j: int|
            0 <= i < j < r@.len() ==> r@[i].descriptor.name@ != r@[j].descriptor.name@,
        forall|i: int|
            0 <= i < r@.len() ==> table.model().entries.dom().contains(
                #[trigger] r@[i].descriptor.name@,
            ) && r@[i].descriptor.real_size != 0 && task_for(
                table.model(),
                r@[i].descriptor.name@,
                r@[i],
            ),
        forall|n: Seq<char>|
            table.model().entries.dom().contains(n) && table.model().entries[n].1.real_size != 0
                ==> exists|i: int| 0 <= i < r@.len() && #[trigger] r@[i].descriptor.name@ == n,
{
    let ghost m = table.model();
    let descs = table.descriptors();
    let archives = table.archives();
    proof {
        table.lemma_descriptors();
        table.files_unique();
    }
    let mut out: Vec<ExtractionTask> = Vec::new();
    let ghost mut from: Seq<int> = Seq::empty();
    let mut i: usize = 0;
    while i < descs.len()
        invariant
            table.wf(),
            i <= descs@.len(),
            descs@ == table.spec_descriptors(),
            m == table.model(),
            crate::file_table::names_unique(descs@),
            Seq::new(archives@.len(), |q: int| archives@[q]@) == m.archives,
            forall|q: int|
                0 <= q < descs@.len() ==> m.entries.dom().contains(#[trigger] descs@[q].name@)
                    && m.entries[descs@[q].name@].1 == descs@[q]@ && m.entries[descs@[q].name@].0
                    < m.archives.len(),
            forall|n: Seq<char>|
                #![trigger m.entries.dom().contains(n)]
                m.entries.dom().contains(n) ==> exists|q: int|
                    0 <= q < descs@.len() && descs@[q].name@ == n,
            from.len() == out@.len(),
            forall|a: int| 0 <= a < out@.len() ==> 0 <= #[trigger] from[a] < i && out@[a].descriptor@ == descs@[from[a]]@,
            forall|a: int, b: int| 0 <= a < b < out@.len() ==> from[a] < from[b],
            forall|a: int|
                0 <= a < out@.len() ==> m.entries.dom().contains(#[trigger] out@[a].descriptor.name@)
                    && out@[a].descriptor.real_size != 0 && task_for(m, out@[a].descriptor.name@, out@[a]),
            forall|q: int|
                0 <= q < i && descs@[q].real_size != 0 ==> exists|a: int|
                    0 <= a < out@.len() && #[trigger] from[a] == q,
        decreases descs@.len() - i,
    {
        let ghost from0 = from;
        let d = &descs[i];
        if d.real_size != 0 {
            let k = match table.owner(&d.name) {
                Some(k) => k,
                None => {
                    proof {
                        assert(m.entries.dom().contains(descs@[i as int].name@));
                    }
                    0
                },
            };
            let root = &archives[k].output_root_path;
            let destination = entry_path(root, &d.name);
            let descriptor = FileDescriptor {
                name: d.name.clone(),
                offset: d.offset,
                real_size: d.real_size,
                compressed_size: d.compressed_size,
                crc: d.crc,
            };
            let task = ExtractionTask {
                archive_path: archives[k].archive_path.clone(),
                destination,
                descriptor,
            };
            proof {
                assert(archives@[k as int]@ == m.archives[k as int]);
            }
            out.push(task);
            proof {
                from = from.push(i as int);
                assert(from[out@.len() - 1] == i);
            }
        }
        proof {
            assert forall|q: int|
                0 <= q < i + 1 && descs@[q].real_size != 0 implies exists|a: int|
                    0 <= a < out@.len() && #[trigger] from[a] == q by {
                if q < i {
                    let a = choose|a: int| 0 <= a < from0.len() && #[trigger] from0[a] == q;
                    assert(from[a] == from0[a]);
                } else {
                    assert(from[out@.len() - 1] == q);
                }
            }
        }
        i = i + 1;
    }
    proof {
        assert forall|a: int, b: int|
            0 <= a < b < out@.len() implies out@[a].descriptor.name@ != out@[b].descriptor.name@ by {
            assert(descs@[from[a]].name@ != descs@[from[b]].name@);
        }
        assert forall|n: Seq<char>|
            m.entries.dom().contains(n) && m.entries[n].1.real_size != 0 implies exists|a: int|
                0 <= a < out@.len() && #[trigger] out@[a].descriptor.name@ == n by {
            let q = choose|q: int| 0 <= q < descs@.len() && descs@[q].name@ == n;
            let a = choose|a: int| 0 <= a < out@.len() && #[trigger] from[a] == q;
            assert(out@[a].descriptor.name@ == n);
        }
    }
    out
}

} // verus!
