//! The node file: a flat run of records of one size, with a journal of the
//! offsets written.

use vstd::prelude::*;
use crate::bytes_ext::{append_bytes, copy_range};
use crate::error::Error;

verus! {

/// The node file as it is held in memory: a flat run of records of one size,
/// the first at offset zero, with a journal of the offsets written.
///
/// A caller fills it from the bytes on disk and stores to disk the records
/// that the journal names, in the journal's order.
#[derive(Clone, Debug)]
pub struct NodeFile {
    pub page_size: usize,
    pub pages: Vec<Vec<u8>>,
    pub journal: Vec<u64>,
}

impl NodeFile {
    /// Whether the file is in order: records have a size, every record has
    /// that size, and the end of the file is an offset.
    pub open spec fn wf(&self) -> bool {
        &&& self.page_size > 0
        &&& forall|i: int|
            0 <= i < self.pages@.len() ==> (#[trigger] self.pages@[i]).len() == self.page_size
        &&& self.pages@.len() * self.page_size <= u64::MAX
    }

    /// Whether a record can start at `offset`.
    pub open spec fn aligned(&self, offset: u64) -> bool {
        self.page_size > 0 && offset as int % self.page_size as int == 0
    }

    /// The number of the record that starts at `offset`.
    pub open spec fn index_of(&self, offset: u64) -> int {
        offset as int / self.page_size as int
    }

    /// The end of the file: the offset at which the next record is appended.
    pub open spec fn end(&self) -> int {
        self.pages@.len() * self.page_size
    }

    /// The record that starts at `offset`, if one does.
    pub open spec fn page_at(&self, offset: u64) -> Option<Seq<u8>> {
        if self.aligned(offset) && self.index_of(offset) < self.pages@.len() {
            Some(self.pages@[self.index_of(offset)]@)
        } else {
            None
        }
    }

    /// An empty file of records of the given size.
    pub fn new(page_size: usize) -> (file: NodeFile)
        requires
            page_size > 0,
        ensures
            file.wf(),
            file.page_size == page_size,
            file.pages@.len() == 0,
            file.journal@.len() == 0,
    {
        let file = NodeFile { page_size, pages: Vec::new(), journal: Vec::new() };
        assert(file.pages@.len() * file.page_size == 0) by (nonlinear_arith)
            requires
                file.pages@.len() == 0,
        ;
        file
    }

    /// The offset at which the next record is appended.
    pub fn end_offset(&self) -> (end: u64)
        requires
            self.wf(),
        ensures
            end == self.end(),
            self.aligned(end),
            self.index_of(end) == self.pages@.len(),
            self.page_at(end) is None,
    {
        let count = self.pages.len();
        proof {
            lemma_record_start(count as int, self.page_size as int);
        }
        (count as u64) * (self.page_size as u64)
    }

    /// The number of records.
    pub fn page_count(&self) -> (count: usize)
        ensures
            count == self.pages@.len(),
    {
        self.pages.len()
    }

    /// Reads the record that starts at `offset`. An offset at which no whole
    /// record starts is a damaged file.
    pub fn read(&self, offset: u64) -> (r: Result<Vec<u8>, Error>)
        requires
            self.wf(),
        ensures
            match self.page_at(offset) {
                Some(page) => r is Ok && r->Ok_0@ == page,
                None => r is Err && r->Err_0 == Error::Encoding,
            },
    {
        let size = self.page_size as u64;
        if offset % size != 0 {
            return Err(Error::Encoding);
        }
        let index = offset / size;
        if index >= self.pages.len() as u64 {
            return Err(Error::Encoding);
        }
        let page = &self.pages[index as usize];
        let copy = copy_range(page, 0, self.page_size);
        assert(copy@ =~= page@);
        Ok(copy)
    }

    /// Writes a record at `offset`: over the one that starts there, or behind
    /// the last one. Anything else leaves the file as it is and is an error:
    /// a record of another size, an offset at which no record can start or
    /// one beyond the end is taken for damage; a file that would grow past
    /// what offsets can name cannot be written.
    pub fn write(&mut self, offset: u64, bytes: Vec<u8>) -> (r: Result<(), Error>)
        requires
            old(self).wf(),
        ensures
            final(self).wf(),
            final(self).page_size == old(self).page_size,
            old(self).can_write(offset, bytes@) ==> {
                &&& r is Ok
                &&& final(self).pages@.len() == if old(self).index_of(offset) < old(self).pages@.len() {
                    old(self).pages@.len()
                } else {
                    old(self).pages@.len() + 1
                }
                &&& final(self).page_at(offset) == Some(bytes@)
                &&& forall|other: u64|
                    other != offset ==> #[trigger] final(self).page_at(other) == old(self).page_at(
                        other,
                    )
                &&& final(self).journal@ == old(self).journal@.push(offset)
            },
            !old(self).can_write(offset, bytes@) ==> {
                &&& r is Err
                &&& r->Err_0 == old(self).write_error(offset, bytes@)
                &&& *final(self) == *old(self)
            },
    {
        let size = self.page_size as u64;
        if bytes.len() != self.page_size || offset % size != 0 {
            return Err(Error::Encoding);
        }
        let index = offset / size;
        let count = self.pages.len();
        proof {
            lemma_record_start(index as int, size as int);
            lemma_record_start(count as int, size as int);
            lemma_aligned_offset(offset as int, size as int);
        }
        if index > count as u64 {
            return Err(Error::Encoding);
        }
        let ghost before = *self;
        if index == count as u64 {
            if offset > u64::MAX - size {
                return Err(Error::Io);
            }
            self.pages.push(bytes);
            assert((count + 1) * size == count * size + size) by (nonlinear_arith);
        } else {
            self.pages[index as usize] = bytes;
        }
        self.journal.push(offset);
        proof {
            assert forall|other: u64| other != offset implies #[trigger] self.page_at(other)
                == before.page_at(other) by {
                if before.aligned(other) {
                    lemma_aligned_offset(other as int, size as int);
                    assert(before.index_of(other) != index);
                }
            }
            assert forall|i: int| 0 <= i < self.pages@.len() implies (#[trigger] self.pages@[i]).len()
                == self.page_size by {
                if i != index {
                    assert(self.pages@[i] == before.pages@[i]);
                }
            }
        }
        Ok(())
    }

    /// Whether a record can be written at `offset`: it has the size of a
    /// record, and the offset is the start of a record or the end of a file
    /// that can still grow.
    pub open spec fn can_write(&self, offset: u64, bytes: Seq<u8>) -> bool {
        &&& bytes.len() == self.page_size
        &&& self.aligned(offset)
        &&& self.index_of(offset) <= self.pages@.len()
        &&& self.index_of(offset) == self.pages@.len() ==> offset + self.page_size <= u64::MAX
    }

    /// The error of a write that cannot be done.
    pub open spec fn write_error(&self, offset: u64, bytes: Seq<u8>) -> Error {
        if bytes.len() == self.page_size && self.aligned(offset) && self.index_of(offset)
            == self.pages@.len() {
            Error::Io
        } else {
            Error::Encoding
        }
    }

    /// Whether the file can grow by `count` records without its end going
    /// past what an offset can name.
    pub open spec fn has_room(&self, count: nat) -> bool {
        (self.pages@.len() + count) * self.page_size <= u64::MAX
    }

    /// Whether the file can grow by `count` records.
    pub fn can_grow_by(&self, count: u64) -> (r: bool)
        requires
            self.wf(),
        ensures
            r == self.has_room(count as nat),
    {
        let total = match (self.pages.len() as u64).checked_add(count) {
            Some(total) => total,
            None => {
                proof {
                    let sum = self.pages@.len() + count;
                    let size = self.page_size as int;
                    assert(sum * size > u64::MAX) by (nonlinear_arith)
                        requires
                            sum > u64::MAX,
                            size >= 1,
                    ;
                }
                return false;
            },
        };
        total.checked_mul(self.page_size as u64).is_some()
    }

    /// The records that a flat run of bytes is made of, if it is made of
    /// whole records of the given size.
    pub open spec fn pages_of(bytes: Seq<u8>, page_size: nat) -> Option<Seq<Seq<u8>>> {
        if page_size > 0 && bytes.len() % page_size == 0 {
            Some(
                Seq::new(
                    bytes.len() / page_size,
                    |i: int| bytes.subrange(i * page_size, i * page_size + page_size),
                ),
            )
        } else {
            None
        }
    }

    /// The records of the file, each as a sequence of bytes.
    pub open spec fn records(&self) -> Seq<Seq<u8>> {
        Seq::new(self.pages@.len(), |i: int| self.pages@[i]@)
    }

    /// Takes the bytes of a node file apart into records. A file that does
    /// not end with a whole record is damaged.
    pub fn from_bytes(bytes: &Vec<u8>, page_size: usize) -> (r: Result<NodeFile, Error>)
        requires
            page_size > 0,
        ensures
            match Self::pages_of(bytes@, page_size as nat) {
                Some(pages) => r is Ok && r->Ok_0.wf() && r->Ok_0.page_size == page_size
                    && r->Ok_0.records() == pages && r->Ok_0.journal@.len() == 0,
                None => r is Err && r->Err_0 == Error::Encoding,
            },
    {
        if bytes.len() % page_size != 0 {
            return Err(Error::Encoding);
        }
        let count = bytes.len() / page_size;
        let ghost want = Self::pages_of(bytes@, page_size as nat)->Some_0;
        let mut file = NodeFile { page_size, pages: Vec::new(), journal: Vec::new() };
        let mut i: usize = 0;
        proof {
            lemma_aligned_offset(bytes.len() as int, page_size as int);
        }
        while i < count
            invariant
                i <= count,
                page_size > 0,
                count == bytes.len() / page_size,
                bytes.len() == count * page_size,
                file.page_size == page_size,
                file.journal@.len() == 0,
                file.pages@.len() == i,
                want == Self::pages_of(bytes@, page_size as nat)->Some_0,
                Self::pages_of(bytes@, page_size as nat) is Some,
                forall|j: int| 0 <= j < i ==> (#[trigger] file.pages@[j])@ == want[j],
            decreases count - i,
        {
            assert(i * page_size + page_size <= count * page_size) by (nonlinear_arith)
                requires
                    i < count,
                    page_size > 0,
            ;
            let page = copy_range(bytes, i * page_size, page_size);
            file.pages.push(page);
            i += 1;
        }
        proof {
            assert(file.records() =~= want);
            assert forall|j: int| 0 <= j < file.pages@.len() implies (#[trigger] file.pages@[j]).len()
                == file.page_size by {
                assert(file.pages@[j]@ == want[j]);
                assert(j * page_size + page_size <= count * page_size) by (nonlinear_arith)
                    requires
                        0 <= j < count,
                        page_size > 0,
                ;
            }
        }
        Ok(file)
    }

    /// The bytes of the whole file: its records, one after another.
    pub fn to_bytes(&self) -> (bytes: Vec<u8>)
        requires
            self.wf(),
        ensures
            Self::pages_of(bytes@, self.page_size as nat) == Some(self.records()),
    {
        let mut bytes: Vec<u8> = Vec::new();
        let mut i: usize = 0;
        while i < self.pages.len()
            invariant
                i <= self.pages@.len(),
                self.wf(),
                bytes@.len() == i * self.page_size,
                forall|j: int|
                    0 <= j < i ==> #[trigger] bytes@.subrange(
                        j * self.page_size,
                        j * self.page_size + self.page_size,
                    ) == self.pages@[j]@,
            decreases self.pages@.len() - i,
        {
            let ghost before = bytes@;
            append_bytes(&mut bytes, &self.pages[i]);
            proof {
                let size = self.page_size as int;
                assert((i + 1) * size == i * size + size) by (nonlinear_arith);
                assert forall|j: int| 0 <= j < i + 1 implies #[trigger] bytes@.subrange(
                    j * size,
                    j * size + size,
                ) == self.pages@[j]@ by {
                    if j < i {
                        assert(j * size + size <= i * size) by (nonlinear_arith)
                            requires
                                0 <= j < i,
                                size > 0,
                        ;
                        assert(bytes@.subrange(j * size, j * size + size) =~= before.subrange(
                            j * size,
                            j * size + size,
                        ));
                    } else {
                        assert(bytes@.subrange(j * size, j * size + size) =~= self.pages@[j]@);
                    }
                }
            }
            i += 1;
        }
        proof {
            let size = self.page_size as int;
            let count = self.pages@.len() as int;
            lemma_record_start(count, size);
            assert(Self::pages_of(bytes@, self.page_size as nat)->Some_0 =~= self.records());
        }
        bytes
    }

    /// Hands out the offsets written since the journal was last taken, in the
    /// order of the writes, and starts a new journal.
    pub fn take_journal(&mut self) -> (journal: Vec<u64>)
        ensures
            journal@ == old(self).journal@,
            final(self).journal@.len() == 0,
            final(self).pages == old(self).pages,
            final(self).page_size == old(self).page_size,
    {
        let mut journal: Vec<u64> = Vec::new();
        core::mem::swap(&mut journal, &mut self.journal);
        journal
    }
}

/// An offset that divides evenly by the record size is the start of the
/// record whose number the division gives.
pub proof fn lemma_aligned_offset(offset: int, size: int)
    requires
        offset >= 0,
        size > 0,
        offset % size == 0,
    ensures
        offset == (offset / size) * size,
        offset / size >= 0,
{
    vstd::arithmetic::div_mod::lemma_fundamental_div_mod(offset, size);
    assert(size * (offset / size) == (offset / size) * size) by (nonlinear_arith);
    assert(offset / size >= 0) by (nonlinear_arith)
        requires
            offset >= 0,
            size > 0,
            offset == size * (offset / size),
    ;
}

/// A record's start divides evenly by the record size and gives the record's
/// number back.
pub proof fn lemma_record_start(index: int, size: int)
    requires
        index >= 0,
        size > 0,
    ensures
        (index * size) % size == 0,
        (index * size) / size == index,
        index * size >= 0,
{
    vstd::arithmetic::div_mod::lemma_fundamental_div_mod_converse(index * size, size, index, 0);
    assert(index * size >= 0) by (nonlinear_arith)
        requires
            index >= 0,
            size > 0,
    ;
}

} // verus!
