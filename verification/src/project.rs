//! Projects: groups of stored files under a common prefix.
use vstd::prelude::*;
use vstd::string::*;

use crate::bytes::{le64_bytes, push_le64};
use crate::text::extend_bytes;
use crate::vfs::StoreFault;

verus! {

broadcast use vstd::seq_lib::group_seq_properties;

/// One file of a project. A size of 0 marks a deleted one.
#[derive(Debug, Clone)]
pub struct ProjectFile {
    pub name: String,
    pub rowid: u32,
    pub size: u32,
}

impl ProjectFile {
    pub fn is_deleted(&self) -> (r: bool)
        ensures
            r == (self.size == 0),
    {
        self.size == 0
    }
}

/// Why the file store refused a request.
#[derive(Debug, Clone, Copy, PartialEq, Eq, Structural)]
pub enum StoreError {
    NotFound,
    Failed { fault: StoreFault },
}

/// A file to store.
pub struct WriteRequest {
    pub name: String,
    pub content: Vec<u8>,
}

/// A project, by its name.
#[derive(Debug, Clone)]
pub struct Project {
    pub name: String,
}

/// The prefix of a project.
pub open spec fn prefix_of(name: Seq<char>) -> Seq<char> {
    "proj/"@ + name + "/"@
}

/// The stored name of a project file.
pub open spec fn qualified(name: Seq<char>, file: Seq<char>) -> Seq<char> {
    prefix_of(name) + file
}

/// Projects whose names hold no slash do not overlap: a stored name tells the
/// project and the file.
pub proof fn projects_do_not_overlap(p: Seq<char>, f: Seq<char>, q: Seq<char>, g: Seq<char>)
    requires
        !p.contains('/'),
        !q.contains('/'),
        qualified(p, f) == qualified(q, g),
    ensures
        p == q,
        f == g,
{
    reveal_strlit("proj/");
    reveal_strlit("/");
    let s = qualified(p, f);
    let t = qualified(q, g);
    let m = p.len() as int;
    let n = q.len() as int;
    assert("proj/"@.len() == 5 && "/"@.len() == 1);
    assert(s[5 + m] == '/');
    assert(t[5 + n] == '/');
    if p.len() < q.len() {
        assert(t[5 + m] == q[m]);
    }
    if q.len() < p.len() {
        assert(s[5 + n] == p[n]);
    }
    assert(p =~= s.subrange(5, 5 + m));
    assert(q =~= t.subrange(5, 5 + n));
    assert(f =~= s.subrange(6 + m, s.len() as int));
    assert(g =~= t.subrange(6 + n, t.len() as int));
}

impl Project {
    pub fn new(name: &str) -> (r: Self)
        ensures
            r.name@ == name@,
    {
        Project { name: name.to_owned() }
    }

    /// The stored name of a file of the project.
    pub fn qualify(&self, file: &str) -> (r: String)
        ensures
            r@ == qualified(self.name@, file@),
    {
        let mut out = self.prefix();
        out.push_str(file);
        out
    }

    /// The request that writes a file. Empty content marks it as deleted.
    pub fn write(&self, file: &str, content: &[u8]) -> (r: WriteRequest)
        ensures
            r.name@ == qualified(self.name@, file@),
            r.content@ == content@,
    {
        let mut out: Vec<u8> = Vec::new();
        extend_bytes(&mut out, content);
        assert(out@ =~= content@);
        WriteRequest { name: self.qualify(file), content: out }
    }

    /// A reader for a file of that size.
    pub fn read(size: u32) -> (r: FileReader)
        ensures
            r.size == size,
            r.out@ == Seq::<u8>::empty(),
            r.wf(),
    {
        FileReader { size, out: Vec::new() }
    }

    /// The request that deletes a file: its content becomes empty.
    pub fn delete(&self, file: &str) -> (r: WriteRequest)
        ensures
            r.name@ == qualified(self.name@, file@),
            r.content@.len() == 0,
    {
        WriteRequest { name: self.qualify(file), content: Vec::new() }
    }

    /// The outcome of a deletion: a file that was not there is gone all the
    /// same.
    pub fn delete_outcome(result: Result<(), StoreError>) -> (r: Result<(), StoreError>)
        ensures
            r is Ok <==> (result is Ok || (result matches Err(e) && e == StoreError::NotFound)),
            r matches Err(e) ==> (result matches Err(f) && f == e),
    {
        match result {
            Ok(()) => Ok(()),
            Err(StoreError::NotFound) => Ok(()),
            Err(e) => Err(e),
        }
    }

    /// Whether a file is there, from the size that the store reported, if any.
    pub fn is_present(size: Option<u32>) -> (r: bool)
        ensures
            r == (size matches Some(n) && n > 0),
    {
        match size {
            Some(n) => n > 0,
            None => false,
        }
    }

    /// The prefix of the project.
    pub fn prefix(&self) -> (r: String)
        ensures
            r@ == prefix_of(self.name@),
    {
        let mut out = "proj/".to_owned();
        out.push_str(self.name.as_str());
        out.push_str("/");
        out
    }

    pub fn name(&self) -> (r: &str)
        ensures
            r@ == self.name@,
    {
        self.name.as_str()
    }
}

/// Assembles a file from chunks of eight bytes.
pub struct FileReader {
    pub size: u32,
    pub out: Vec<u8>,
}

/// The chunks as bytes, eight each.
pub open spec fn chunk_bytes(chunks: Seq<u64>) -> Seq<u8>
    decreases chunks.len(),
{
    if chunks.len() == 0 {
        Seq::empty()
    } else {
        chunk_bytes(chunks.drop_last()) + le64_bytes(chunks.last())
    }
}

/// What is read of a file of that size with one more chunk: all of the chunk,
/// or as much as is missing.
pub open spec fn grown(out: Seq<u8>, size: int, chunk: u64) -> Seq<u8> {
    let n = if size - out.len() < 8 {
        size - out.len()
    } else {
        8
    };
    out + le64_bytes(chunk).subrange(0, n)
}

/// What is read of a file of that size from its chunks.
pub open spec fn read_from(chunks: Seq<u64>, size: int) -> Seq<u8>
    decreases chunks.len(),
{
    if chunks.len() == 0 {
        Seq::empty()
    } else {
        grown(read_from(chunks.drop_last(), size), size, chunks.last())
    }
}

impl FileReader {
    pub open spec fn wf(self) -> bool {
        self.out@.len() <= self.size && (self.out@.len() % 8 == 0 || self.out@.len() == self.size)
    }

    /// Where the next chunk begins, if one is missing.
    pub fn next_offset(&self) -> (r: Option<u32>)
        requires
            self.wf(),
        ensures
            match r {
                Some(o) => o == self.out@.len() && o < self.size,
                None => self.out@.len() == self.size,
            },
    {
        if (self.out.len() as u64) < self.size as u64 {
            Some(self.out.len() as u32)
        } else {
            None
        }
    }

    /// Takes over a chunk; what exceeds the size is left out.
    pub fn take_chunk(&mut self, chunk: u64)
        requires
            old(self).wf(),
            old(self).out@.len() < old(self).size,
        ensures
            final(self).wf(),
            final(self).size == old(self).size,
            final(self).out@ == grown(old(self).out@, old(self).size as int, chunk),
    {
        let mut bytes: Vec<u8> = Vec::new();
        push_le64(&mut bytes, chunk);
        assert(bytes@ =~= le64_bytes(chunk));
        let remaining: u64 = self.size as u64 - self.out.len() as u64;
        let take: usize = if remaining < 8 {
            remaining as usize
        } else {
            8
        };
        extend_bytes(&mut self.out, &bytes.as_slice()[0..take]);
    }
}

proof fn lemma_read_from(chunks: Seq<u64>, size: int)
    requires
        0 <= size,
        chunks.len() == 0 || 8 * (chunks.len() - 1) < size,
    ensures
        chunk_bytes(chunks).len() == 8 * chunks.len(),
        read_from(chunks, size) == if 8 * chunks.len() <= size {
            chunk_bytes(chunks)
        } else {
            chunk_bytes(chunks).subrange(0, size)
        },
    decreases chunks.len(),
{
    if chunks.len() > 0 {
        let before = chunks.drop_last();
        lemma_read_from(before, size);
        let out = chunk_bytes(before);
        let n = if size - out.len() < 8 {
            size - out.len()
        } else {
            8
        };
        assert(le64_bytes(chunks.last()).subrange(0, 8) =~= le64_bytes(chunks.last()));
        assert(out + le64_bytes(chunks.last()).subrange(0, n) =~= chunk_bytes(chunks).subrange(
            0,
            out.len() + n,
        ));
        assert(chunk_bytes(chunks).subrange(0, 8 * chunks.len() as int) =~= chunk_bytes(chunks));
    }
}

/// A file that is served in chunks is read back whole, whatever stands behind
/// its end in the last chunk.
pub proof fn reading_yields_the_file(chunks: Seq<u64>, content: Seq<u8>)
    requires
        8 * (chunks.len() - 1) < content.len() <= 8 * chunks.len(),
        content.is_prefix_of(chunk_bytes(chunks)),
    ensures
        read_from(chunks, content.len() as int) == content,
{
    lemma_read_from(chunks, content.len() as int);
    assert(chunk_bytes(chunks).subrange(0, content.len() as int) =~= content);
}

/// The stored name of a project file, in full.
pub proof fn names_are_in_full(name: Seq<char>, file: Seq<char>)
    ensures
        qualified(name, file) == "proj/"@ + name + "/"@ + file,
        prefix_of(name) == "proj/"@ + name + "/"@,
{
}

} // verus!
