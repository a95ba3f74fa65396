use vstd::prelude::*;
use vstd::utf8::*;
use vstd::string::StringSliceAdditionalSpecFns;
use vstd::arithmetic::div_mod::{
    lemma_fundamental_div_mod_converse_div, lemma_fundamental_div_mod_converse_mod,
};
use std::cmp::Ordering;
use crate::chunk::{record, Chunk, CHUNK_SIZE, MAX_LEN};
use crate::table::{buckets_of, fx_hash, fx_hash_of, Buckets};

verus! {

broadcast use group_utf8_lib;

/// Most regions a registry can address: a handle is `region * CHUNK_SIZE + offset`
/// in 64 bits.
pub const MAX_CHUNKS: u64 = 17592186044416;

/// Size of a region, as a handle's arithmetic needs it.
pub const CHUNK_BYTES: u64 = 1048576;

/// Length in bytes of the UTF-8 encoding of `s`.
pub open spec fn byte_len(s: Seq<char>) -> nat {
    encode_utf8(s).len()
}

/// A one-word handle on an interned string: where its record's length byte
/// stands, as `region * CHUNK_SIZE + offset`. Handles of one registry are equal
/// exactly when their contents are.
#[derive(Clone, Copy, Debug, PartialEq, Eq, Structural, Hash)]
pub struct Str {
    addr: u64,
}

impl Str {
    pub closed spec fn address(self) -> u64 {
        self.addr
    }

    /// The handle's address.
    pub fn addr(&self) -> (r: u64)
        ensures
            r == self.address(),
    {
        self.addr
    }

    /// Two handles are the same exactly when their addresses are.
    pub proof fn lemma_address_eq(a: Str, b: Str)
        ensures
            (a.address() == b.address()) == (a == b),
    {
    }
}

/// Why a string was not interned.
#[derive(Clone, Copy, Debug, PartialEq, Eq, Structural)]
pub enum InternError {
    /// The string is longer than `MAX_LEN` bytes.
    InputTooLong,
    /// A new region was needed and no more can be addressed.
    OutOfSpace,
}

/// Relies on std::str::from_utf8: on valid UTF-8 it succeeds and returns a
/// string slice over exactly those bytes.
#[verifier::external_body]
fn utf8_str(b: &[u8]) -> (r: &str)
    requires
        valid_utf8(b@),
    ensures
        r.spec_bytes() == b@,
{
    std::str::from_utf8(b).unwrap()
}

/// Bytes of a record that lies before `p` survive any change that keeps the
/// first `p` bytes.
proof fn lemma_record_kept(x: Seq<u8>, y: Seq<u8>, p: int, o: int)
    requires
        0 <= o < p,
        o + 1 + x[o] <= p,
        p <= x.len(),
        p <= y.len(),
        y.subrange(0, p) == x.subrange(0, p),
    ensures
        y[o] == x[o],
        record(y, o) == record(x, o),
{
    assert(y[o] == y.subrange(0, p)[o]);
    assert(x[o] == x.subrange(0, p)[o]);
    assert forall|t: int| 0 <= t < x[o] implies #[trigger] record(y, o)[t] == record(x, o)[t] by {
        assert(y[o + 1 + t] == y.subrange(0, p)[o + 1 + t]);
        assert(x[o + 1 + t] == x.subrange(0, p)[o + 1 + t]);
    }
    assert(record(y, o) =~= record(x, o));
}

/// Whether two byte strings are equal.
fn same_bytes(x: &[u8], y: &[u8]) -> (r: bool)
    ensures
        r == (x@ == y@),
{
    if x.len() != y.len() {
        return false;
    }
    let mut i: usize = 0;
    while i < x.len()
        invariant
            x@.len() == y@.len(),
            0 <= i <= x@.len(),
            forall|j: int| 0 <= j < i ==> x@[j] == y@[j],
        decreases x@.len() - i,
    {
        if x[i] != y[i] {
            return false;
        }
        i = i + 1;
    }
    assert(x@ =~= y@);
    true
}

/// Lexicographic order of byte strings; on UTF-8 it is the order of `str`.
pub open spec fn lex_order(x: Seq<u8>, y: Seq<u8>) -> Ordering
    decreases x.len(),
{
    if x.len() == 0 {
        if y.len() == 0 {
            Ordering::Equal
        } else {
            Ordering::Less
        }
    } else if y.len() == 0 {
        Ordering::Greater
    } else if x[0] < y[0] {
        Ordering::Less
    } else if x[0] > y[0] {
        Ordering::Greater
    } else {
        lex_order(x.drop_first(), y.drop_first())
    }
}

/// Compares two byte strings lexicographically.
fn compare_bytes(x: &[u8], y: &[u8]) -> (r: Ordering)
    ensures
        r == lex_order(x@, y@),
{
    let mut i: usize = 0;
    assert(x@.skip(0) =~= x@ && y@.skip(0) =~= y@);
    loop
        invariant
            0 <= i <= x@.len(),
            i <= y@.len(),
            lex_order(x@, y@) == lex_order(x@.skip(i as int), y@.skip(i as int)),
        decreases x@.len() - i,
    {
        if i == x.len() {
            if i == y.len() {
                return Ordering::Equal;
            } else {
                return Ordering::Less;
            }
        }
        if i == y.len() {
            return Ordering::Greater;
        }
        let (p, q) = (x[i], y[i]);
        assert(x@.skip(i as int)[0] == p && y@.skip(i as int)[0] == q);
        if p < q {
            return Ordering::Less;
        }
        if p > q {
            return Ordering::Greater;
        }
        assert(x@.skip(i as int).drop_first() =~= x@.skip(i + 1));
        assert(y@.skip(i as int).drop_first() =~= y@.skip(i + 1));
        i = i + 1;
    }
}

/// The canonical set of interned strings and the regions that hold them.
///
/// Each distinct content is written once, into the last region while it has
/// room; earlier regions are kept, unchanged, so that their handles stay good.
pub struct Registry {
    chunks: Vec<Chunk>,
    table: Buckets,
    canon: Ghost<Map<Seq<char>, Str>>,
}

impl View for Registry {
    type V = Map<Seq<char>, Str>;

    /// Every content interned so far, with its handle.
    closed spec fn view(&self) -> Map<Seq<char>, Str> {
        self.canon@
    }
}

/// The region that address `a` lies in.
pub open spec fn chunk_of(a: u64) -> int {
    (a / CHUNK_BYTES) as int
}

/// Where address `a` lies within its region.
pub open spec fn offset_of(a: u64) -> int {
    (a % CHUNK_BYTES) as int
}

impl Registry {
    /// A record starts at `a` and lies wholly in the committed part of its region.
    closed spec fn committed(&self, a: u64) -> bool {
        let i = chunk_of(a);
        let o = offset_of(a);
        &&& 0 <= i < self.chunks@.len()
        &&& o < self.chunks@[i].cursor()
        &&& o + 1 + self.chunks@[i].bytes()[o] <= self.chunks@[i].cursor()
    }

    closed spec fn record_of(&self, a: u64) -> Seq<u8> {
        record(self.chunks@[chunk_of(a)].bytes(), offset_of(a))
    }

    /// The text that handle `h` reads back.
    pub closed spec fn text_of(&self, h: Str) -> Seq<char> {
        decode_utf8(self.record_of(h.addr))
    }

    /// `h` was handed out by this registry.
    pub open spec fn issued(&self, h: Str) -> bool {
        self@.contains_value(h)
    }

    /// Bytes left in the active region.
    pub closed spec fn room(&self) -> nat {
        (CHUNK_SIZE - self.chunks@.last().cursor()) as nat
    }

    /// Regions allocated so far.
    pub closed spec fn chunk_count(&self) -> nat {
        self.chunks@.len()
    }

    /// A record of `n` content bytes can still be written somewhere.
    pub open spec fn can_store(&self, n: nat) -> bool {
        n < self.room() || self.chunk_count() < MAX_CHUNKS
    }

    /// Every interned text has a committed record holding its bytes and is
    /// filed under its hash; every filed address is the handle of the text
    /// that its record holds.
    pub closed spec fn wf(&self) -> bool {
        &&& 1 <= self.chunks@.len() <= MAX_CHUNKS
        &&& forall|i: int| 0 <= i < self.chunks@.len() ==> #[trigger] self.chunks@[i].wf()
        &&& forall|c: Seq<char>| #[trigger]
            self.canon@.contains_key(c) ==> {
                let a = self.canon@[c].addr;
                &&& self.committed(a)
                &&& self.record_of(a) == encode_utf8(c)
                &&& buckets_of(self.table).contains_key(fx_hash_of(c))
                &&& buckets_of(self.table)[fx_hash_of(c)].contains(a)
            }
        &&& forall|k: u64, j: int|
            buckets_of(self.table).contains_key(k) && 0 <= j < buckets_of(self.table)[k].len()
                ==> {
                let a = #[trigger] buckets_of(self.table)[k][j];
                &&& self.canon@.contains_key(decode_utf8(self.record_of(a)))
                &&& self.canon@[decode_utf8(self.record_of(a))].addr == a
            }
    }

    /// What `intern` promises, for input text `s`, result `r`, registry `pre`
    /// before the call and `post` after it.
    pub open spec fn interned(
        pre: Registry,
        s: Seq<char>,
        r: Result<Str, InternError>,
        post: Registry,
    ) -> bool {
        &&& (r is Ok <==> byte_len(s) <= MAX_LEN && (pre@.contains_key(s) || pre.can_store(
            byte_len(s),
        )))
        &&& match r {
            Ok(h) => {
                &&& post@.contains_key(s)
                &&& post@[s] == h
                &&& post.text_of(h) == s
                &&& pre@.contains_key(s) ==> post == pre
                &&& !pre@.contains_key(s) ==> post@ == pre@.insert(s, h)
                &&& !pre@.contains_key(s) ==> if byte_len(s) < pre.room() {
                    &&& post.chunk_count() == pre.chunk_count()
                    &&& post.room() == pre.room() - (byte_len(s) + 1)
                } else {
                    &&& post.chunk_count() == pre.chunk_count() + 1
                    &&& post.room() == CHUNK_SIZE - (byte_len(s) + 1)
                }
            },
            Err(InternError::InputTooLong) => byte_len(s) > MAX_LEN && post == pre,
            Err(InternError::OutOfSpace) => {
                &&& byte_len(s) <= MAX_LEN
                &&& !pre@.contains_key(s)
                &&& !pre.can_store(byte_len(s))
                &&& post == pre
            },
        }
    }

    /// The text of the handle stored for `c` is `c`.
    pub proof fn lemma_text_of(&self, c: Seq<char>)
        requires
            self.wf(),
            self@.contains_key(c),
        ensures
            self.text_of(self@[c]) == c,
    {
    }

    /// The text that `h` stands for, read from its record without a search.
    pub fn get(&self, h: Str) -> (r: &str)
        requires
            self.wf(),
            self.issued(h),
        ensures
            r@ == self.text_of(h),
    {
        let ghost c = choose|c: Seq<char>| self@.contains_key(c) && self@[c] == h;
        let a = h.addr;
        assert(self.committed(a));
        assert(self.chunks@[chunk_of(a)].wf());
        let q = a / CHUNK_BYTES;
        let len = self.chunks.len();
        assert(q < len);
        let i = q as usize;
        let o = (a % CHUNK_BYTES) as usize;
        assert(i as int == chunk_of(a) && o as int == offset_of(a));
        let rec = self.chunks[i].content(o);
        assert(rec@ == encode_utf8(c));
        let r = utf8_str(rec);
        assert(decode_utf8(encode_utf8(r@)) == r@);
        r
    }

    /// Orders two handles by their texts, lexicographically on their bytes.
    pub fn compare(&self, a: Str, b: Str) -> (r: Ordering)
        requires
            self.wf(),
            self.issued(a),
            self.issued(b),
        ensures
            r == lex_order(encode_utf8(self.text_of(a)), encode_utf8(self.text_of(b))),
    {
        let x = self.get(a).as_bytes();
        let y = self.get(b).as_bytes();
        compare_bytes(x, y)
    }

    /// An empty registry with one empty region.
    pub fn new() -> (r: Registry)
        ensures
            r.wf(),
            r@ == Map::<Seq<char>, Str>::empty(),
            r.room() == CHUNK_SIZE,
            r.chunk_count() == 1,
    {
        let mut chunks: Vec<Chunk> = Vec::new();
        chunks.push(Chunk::new());
        Registry { chunks, table: Buckets::new(), canon: Ghost(Map::empty()) }
    }

    /// The handle of `s` if it was interned before; `b` holds the bytes of `s`
    /// and `k` their hash.
    fn find(&self, s: &str, b: &[u8], k: u64) -> (r: Option<Str>)
        requires
            self.wf(),
            b@ == encode_utf8(s@),
            k == fx_hash_of(s@),
        ensures
            match r {
                Some(h) => self@.contains_key(s@) && self@[s@] == h,
                None => !self@.contains_key(s@),
            },
    {
        match self.table.get(k) {
            None => None,
            Some(v) => {
                let mut j: usize = 0;
                while j < v.len()
                    invariant
                        self.wf(),
                        b@ == encode_utf8(s@),
                        k == fx_hash_of(s@),
                        buckets_of(self.table).contains_key(k),
                        v@ == buckets_of(self.table)[k],
                        0 <= j <= v@.len(),
                        forall|t: int| 0 <= t < j ==> self.record_of(#[trigger] v@[t]) != b@,
                    decreases v@.len() - j,
                {
                    let a = v[j];
                    let ghost c = decode_utf8(self.record_of(a));
                    assert(buckets_of(self.table)[k][j as int] == a);
                    assert(self.canon@.contains_key(c));
                    assert(self.canon@[c].addr == a);
                    assert(self.committed(a));
                    assert(self.chunks@[chunk_of(a)].wf());
                    let q = a / CHUNK_BYTES;
                    let len = self.chunks.len();
                    assert(q < len);
                    let i = q as usize;
                    let o = (a % CHUNK_BYTES) as usize;
                    assert(i as int == chunk_of(a) && o as int == offset_of(a));
                    let rec = self.chunks[i].content(o);
                    if same_bytes(rec, b) {
                        assert(rec@ == self.record_of(a));
                        assert(decode_utf8(encode_utf8(s@)) == s@);
                        assert(c == s@);
                        assert(self.canon@[s@] == Str { addr: a });
                        return Some(Str { addr: a });
                    }
                    j = j + 1;
                }
                proof {
                    if self.canon@.contains_key(s@) {
                        let a = self.canon@[s@].addr;
                        let t = choose|t: int| 0 <= t < v@.len() && v@[t] == a;
                        assert(self.record_of(v@[t]) == b@);
                    }
                }
                None
            },
        }
    }

    /// Returns the one handle for the content of `s`, writing a record for it
    /// the first time that content is seen.
    pub fn intern(&mut self, s: &str) -> (r: Result<Str, InternError>)
        requires
            old(self).wf(),
        ensures
            final(self).wf(),
            Self::interned(*old(self), s@, r, *final(self)),
    {
        let b = s.as_bytes();
        let n = b.len();
        if n > MAX_LEN {
            return Err(InternError::InputTooLong);
        }
        let k = fx_hash(s);
        match self.find(s, b, k) {
            Some(h) => {
                proof {
                    self.lemma_text_of(s@);
                }
                return Ok(h);
            },
            None => {},
        }
        let last = self.chunks.len() - 1;
        if self.chunks[last].free() <= n && self.chunks.len() as u64 >= MAX_CHUNKS {
            return Err(InternError::OutOfSpace);
        }
        self.append(s, b, k)
    }

    /// A string of at most `MAX_LEN` bytes is interned whenever there is room
    /// for it, and its handle reads back exactly that string.
    pub proof fn lemma_intern_reads_back(
        pre: Registry,
        s: Seq<char>,
        r: Result<Str, InternError>,
        post: Registry,
    )
        requires
            pre.wf(),
            Self::interned(pre, s, r, post),
            byte_len(s) <= MAX_LEN,
            pre.can_store(byte_len(s)),
        ensures
            r is Ok,
            post.issued(r->Ok_0),
            post.text_of(r->Ok_0) == s,
    {
        assert(post@.contains_key(s) && post@[s] == r->Ok_0);
    }

    /// Interning the same text twice gives the same handle, and the second call
    /// changes nothing.
    pub proof fn lemma_intern_twice(
        a: Registry,
        s: Seq<char>,
        r1: Result<Str, InternError>,
        b: Registry,
        r2: Result<Str, InternError>,
        c: Registry,
    )
        requires
            Self::interned(a, s, r1, b),
            Self::interned(b, s, r2, c),
            r1 is Ok,
        ensures
            r2 == r1,
            c == b,
    {
    }

    /// A string longer than `MAX_LEN` bytes is refused, and nothing is written.
    pub proof fn lemma_too_long_refused(
        pre: Registry,
        s: Seq<char>,
        r: Result<Str, InternError>,
        post: Registry,
    )
        requires
            Self::interned(pre, s, r, post),
            byte_len(s) > MAX_LEN,
        ensures
            r == Err::<Str, InternError>(InternError::InputTooLong),
            post == pre,
    {
    }

    /// Two handles of one registry are equal exactly when their texts are.
    pub proof fn lemma_handle_eq(&self, h1: Str, h2: Str)
        requires
            self.wf(),
            self.issued(h1),
            self.issued(h2),
        ensures
            (h1 == h2) <==> (self.text_of(h1) == self.text_of(h2)),
            (h1.address() == h2.address()) <==> (self.text_of(h1) == self.text_of(h2)),
    {
        let c1 = choose|c: Seq<char>| self@.contains_key(c) && self@[c] == h1;
        let c2 = choose|c: Seq<char>| self@.contains_key(c) && self@[c] == h2;
        self.lemma_text_of(c1);
        self.lemma_text_of(c2);
    }

    /// Different texts interned in one registry have different handles.
    pub proof fn lemma_distinct_texts(&self, c1: Seq<char>, c2: Seq<char>)
        requires
            self.wf(),
            self@.contains_key(c1),
            self@.contains_key(c2),
            c1 != c2,
        ensures
            self@[c1] != self@[c2],
            self@[c1].address() != self@[c2].address(),
    {
        self.lemma_text_of(c1);
        self.lemma_text_of(c2);
    }

    /// A handle once issued is never withdrawn and always reads the same text,
    /// whatever is interned later, including when a new region is started.
    pub proof fn lemma_permanent(
        pre: Registry,
        s: Seq<char>,
        r: Result<Str, InternError>,
        post: Registry,
        h: Str,
    )
        requires
            pre.wf(),
            post.wf(),
            Self::interned(pre, s, r, post),
            pre.issued(h),
        ensures
            post.issued(h),
            post.text_of(h) == pre.text_of(h),
    {
        let c = choose|c: Seq<char>| pre@.contains_key(c) && pre@[c] == h;
        pre.lemma_text_of(c);
        if r is Ok && !pre@.contains_key(s) {
            assert(c != s);
            assert(post@[c] == h);
        }
        assert(post@.contains_key(c) && post@[c] == h);
        post.lemma_text_of(c);
    }

    /// Writes a record for `s`, which is not interned yet, and registers it.
    fn append(&mut self, s: &str, b: &[u8], k: u64) -> (r: Result<Str, InternError>)
        requires
            old(self).wf(),
            b@ == encode_utf8(s@),
            b@.len() <= MAX_LEN,
            k == fx_hash_of(s@),
            !old(self)@.contains_key(s@),
            old(self).can_store(b@.len()),
        ensures
            final(self).wf(),
            Self::interned(*old(self), s@, r, *final(self)),
    {
        let ghost pre = *self;
        let last = self.chunks.len() - 1;
        let mut cur = self.chunks.pop().unwrap();
        assert(cur == pre.chunks@[last as int]);
        assert(pre.chunks@.last() == cur);
        assert(cur.wf());
        let (fresh, off) = cur.insert(b);
        self.chunks.push(cur);
        let idx: usize = match fresh {
            Some(c) => {
                self.chunks.push(c);
                last + 1
            },
            None => last,
        };
        assert(idx < MAX_CHUNKS);
        assert(off < CHUNK_SIZE);
        assert((idx as u64) * CHUNK_BYTES + (off as u64) < 0x1_0000_0000_0000_0000) by (nonlinear_arith)
            requires
                idx < MAX_CHUNKS,
                off < CHUNK_BYTES,
                MAX_CHUNKS == 17592186044416,
                CHUNK_BYTES == 1048576,
        ;
        let addr: u64 = (idx as u64) * CHUNK_BYTES + (off as u64);
        proof {
            lemma_fundamental_div_mod_converse_div(
                addr as int,
                CHUNK_BYTES as int,
                idx as int,
                off as int,
            );
            lemma_fundamental_div_mod_converse_mod(
                addr as int,
                CHUNK_BYTES as int,
                idx as int,
                off as int,
            );
        }
        let h = Str { addr };
        let mut group: Vec<u64> = match self.table.get(k) {
            Some(v) => v.clone(),
            None => Vec::new(),
        };
        let ghost old_group = group@;
        group.push(addr);
        self.table.insert(k, group);
        self.canon = Ghost(self.canon@.insert(s@, h));
        proof {
            let post = *self;
            let pc = pre.chunks@[last as int];
            assert(chunk_of(addr) == idx && offset_of(addr) == off);
            assert(forall|i: int| 0 <= i < last ==> post.chunks@[i] == pre.chunks@[i]);
            assert forall|i: int| 0 <= i < post.chunks@.len() implies #[trigger] post.chunks@[i].wf() by {
                if i < last {
                    assert(pre.chunks@[i].wf());
                }
            }
            assert forall|a: u64| pre.committed(a) implies post.committed(a) && post.record_of(a)
                == pre.record_of(a) by {
                let i = chunk_of(a);
                if i == last && fresh is None {
                    lemma_record_kept(pc.bytes(), post.chunks@[i].bytes(), pc.cursor() as int, offset_of(a));
                }
            }
            assert(post.record_of(addr) == b@);
            assert(post.chunks@.last() == post.chunks@[post.chunks@.len() - 1]);
            assert(decode_utf8(encode_utf8(s@)) == s@);
            assert forall|c: Seq<char>| #[trigger] post.canon@.contains_key(c) implies {
                let a = post.canon@[c].addr;
                &&& post.committed(a)
                &&& post.record_of(a) == encode_utf8(c)
                &&& buckets_of(post.table).contains_key(fx_hash_of(c))
                &&& buckets_of(post.table)[fx_hash_of(c)].contains(a)
            } by {
                if c == s@ {
                    assert(buckets_of(post.table)[k][old_group.len() as int] == addr);
                } else {
                    assert(pre.canon@.contains_key(c));
                    let a = pre.canon@[c].addr;
                    if fx_hash_of(c) == k {
                        let t = choose|t: int| 0 <= t < old_group.len() && old_group[t] == a;
                        assert(buckets_of(post.table)[k][t] == a);
                    }
                }
            }
            assert forall|kk: u64, j: int|
                buckets_of(post.table).contains_key(kk) && 0 <= j < buckets_of(post.table)[kk].len()
                    implies {
                    let a = #[trigger] buckets_of(post.table)[kk][j];
                    &&& post.canon@.contains_key(decode_utf8(post.record_of(a)))
                    &&& post.canon@[decode_utf8(post.record_of(a))].addr == a
                } by {
                let a = buckets_of(post.table)[kk][j];
                if kk != k || j < old_group.len() {
                    assert(buckets_of(pre.table).contains_key(kk));
                    assert(a == buckets_of(pre.table)[kk][j]);
                    let c = decode_utf8(pre.record_of(a));
                    assert(pre.canon@.contains_key(c));
                    assert(pre.committed(pre.canon@[c].addr));
                    assert(c != s@);
                }
            }
        }
        Ok(h)
    }
}

} // verus!
