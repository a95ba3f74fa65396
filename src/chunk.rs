use vstd::prelude::*;

verus! {

/// Capacity in bytes of every region.
pub const CHUNK_SIZE: usize = 1048576;

/// Longest content, in bytes, that one record can hold: its length is a single byte.
pub const MAX_LEN: usize = 255;

/// The content of the record whose length byte stands at `at`.
pub open spec fn record(bytes: Seq<u8>, at: int) -> Seq<u8> {
    bytes.subrange(at + 1, at + 1 + bytes[at] as int)
}

/// A fixed-size region filled front to back with records, each a length byte
/// followed by that many content bytes. Bytes before the cursor are committed.
pub struct Chunk {
    data: Vec<u8>,
    pos: usize,
}

impl Chunk {
    /// The region's whole buffer.
    pub closed spec fn bytes(&self) -> Seq<u8> {
        self.data@
    }

    /// How many bytes, from the front, hold committed records.
    pub closed spec fn cursor(&self) -> nat {
        self.pos as nat
    }

    /// The buffer keeps its fixed size and the cursor stays within it.
    pub open spec fn wf(&self) -> bool {
        &&& self.bytes().len() == CHUNK_SIZE
        &&& self.cursor() <= CHUNK_SIZE
    }

    /// A record of `n` content bytes fits in what is left.
    pub open spec fn fits(&self, n: nat) -> bool {
        CHUNK_SIZE - self.cursor() > n
    }

    /// `after` is `before` with a record of `b` appended at `before`'s cursor.
    pub open spec fn appended(before: Chunk, after: Chunk, b: Seq<u8>) -> bool {
        let at = before.cursor() as int;
        &&& after.wf()
        &&& after.cursor() == at + 1 + b.len()
        &&& after.bytes()[at] == b.len() as u8
        &&& record(after.bytes(), at) == b
        &&& after.bytes().subrange(0, at) == before.bytes().subrange(0, at)
    }

    /// A fresh, empty region.
    pub fn new() -> (r: Chunk)
        ensures
            r.wf(),
            r.cursor() == 0,
            r.bytes() == Seq::new(CHUNK_SIZE as nat, |i: int| 0u8),
    {
        let data = vec![0u8; CHUNK_SIZE];
        assert(data@ =~= Seq::new(CHUNK_SIZE as nat, |i: int| 0u8));
        Chunk { data, pos: 0 }
    }

    /// Bytes not used yet.
    pub fn free(&self) -> (r: usize)
        requires
            self.wf(),
        ensures
            r == CHUNK_SIZE - self.cursor(),
    {
        CHUNK_SIZE - self.pos
    }

    /// The content of the record whose length byte stands at `at`.
    pub fn content(&self, at: usize) -> (r: &[u8])
        requires
            self.wf(),
            at < CHUNK_SIZE,
            at + 1 + self.bytes()[at as int] <= CHUNK_SIZE,
        ensures
            r@ == record(self.bytes(), at as int),
    {
        let n = self.data[at] as usize;
        let d = self.data.as_slice();
        &d[at + 1..at + 1 + n]
    }

    fn put(&mut self, b: &[u8]) -> (at: usize)
        requires
            old(self).wf(),
            b@.len() <= MAX_LEN,
            old(self).fits(b@.len()),
        ensures
            at == old(self).cursor(),
            Self::appended(*old(self), *final(self), b@),
    {
        let at = self.pos;
        let n = b.len();
        self.data.set(at, n as u8);
        let mut i: usize = 0;
        while i < n
            invariant
                n == b@.len(),
                n <= MAX_LEN,
                at == old(self).cursor(),
                at + 1 + n <= CHUNK_SIZE,
                self.pos == at,
                0 <= i <= n,
                self.data@.len() == CHUNK_SIZE,
                self.data@[at as int] == n as u8,
                forall|j: int| 0 <= j < at ==> self.data@[j] == old(self).data@[j],
                forall|j: int| 0 <= j < i ==> self.data@[at + 1 + j] == b@[j],
            decreases n - i,
        {
            self.data.set(at + 1 + i, b[i]);
            i = i + 1;
        }
        self.pos = at + 1 + n;
        assert(record(self.data@, at as int) =~= b@);
        assert(self.data@.subrange(0, at as int) =~= old(self).data@.subrange(0, at as int));
        at
    }

    /// Appends a record of `b`. Where this region has no room for it, the record
    /// goes at the start of a fresh region instead, which is handed back to
    /// become the active one; this region is then left as it was. The offset
    /// of the record's length byte in the region that holds it comes back too.
    pub fn insert(&mut self, b: &[u8]) -> (r: (Option<Chunk>, usize))
        requires
            old(self).wf(),
            b@.len() <= MAX_LEN,
        ensures
            match r.0 {
                None => {
                    &&& old(self).fits(b@.len())
                    &&& r.1 == old(self).cursor()
                    &&& Self::appended(*old(self), *final(self), b@)
                },
                Some(c) => {
                    &&& !old(self).fits(b@.len())
                    &&& *final(self) == *old(self)
                    &&& r.1 == 0
                    &&& c.wf()
                    &&& c.cursor() == 1 + b@.len()
                    &&& c.bytes()[0] == b@.len() as u8
                    &&& record(c.bytes(), 0) == b@
                },
            },
    {
        if CHUNK_SIZE - self.pos > b.len() {
            let at = self.put(b);
            (None, at)
        } else {
            let mut c = Chunk::new();
            let at = c.put(b);
            (Some(c), at)
        }
    }
}

} // verus!
