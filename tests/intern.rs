use packed_str::{Chunk, InternError, Registry, CHUNK_SIZE, MAX_LEN};
use rand::{thread_rng, Rng};
use std::cmp::Ordering;

fn rand(size: usize) -> String {
    let mut s = String::new();
    for _ in 0..size {
        s.push(thread_rng().gen())
    }
    s
}

#[test]
fn test_single() {
    let mut reg = Registry::new();
    let s = rand(32);
    let t0 = reg.intern(s.as_str()).unwrap();
    assert_eq!(reg.get(t0), &*s);
    let t1 = reg.intern(s.as_str()).unwrap();
    assert_eq!(t0.addr(), t1.addr());
}

#[test]
fn test_lots() {
    let mut reg = Registry::new();
    for _ in 0..1000000 {
        let s = rand(32);
        let t0 = reg.intern(s.as_str()).unwrap();
        assert_eq!(reg.get(t0), &*s);
        let t1 = reg.intern(s.as_str()).unwrap();
        assert_eq!(t0.addr(), t1.addr())
    }
}

#[test]
fn hello_trace() {
    let mut reg = Registry::new();
    let h1 = reg.intern("hello").unwrap();
    let h2 = reg.intern("hello").unwrap();
    assert_eq!(h1, h2);
    assert_eq!(h1.addr(), h2.addr());
    assert_eq!(reg.get(h1), "hello");
    assert_eq!(reg.get(h2), "hello");
    let long = "a".repeat(256);
    assert_eq!(reg.intern(&long), Err(InternError::InputTooLong));
    let edge = "a".repeat(255);
    let h3 = reg.intern(&edge).unwrap();
    assert_eq!(reg.get(h3), edge.as_str());
}

#[test]
fn byte_length_boundary() {
    let mut reg = Registry::new();
    assert_eq!(MAX_LEN, 255);
    // 127 two-byte characters and one ASCII byte: exactly 255 bytes.
    let fits = format!("{}a", "é".repeat(127));
    assert_eq!(fits.len(), 255);
    let h = reg.intern(&fits).unwrap();
    assert_eq!(reg.get(h), fits.as_str());
    // 128 two-byte characters: 256 bytes, though only 128 characters.
    let over = "é".repeat(128);
    assert_eq!(over.len(), 256);
    assert_eq!(reg.intern(&over), Err(InternError::InputTooLong));
}

#[test]
fn too_long_writes_nothing() {
    let mut reg = Registry::new();
    let a = reg.intern("a").unwrap();
    assert!(reg.intern(&"x".repeat(1000)).is_err());
    let b = reg.intern("b").unwrap();
    // The refused string took no space: "b" follows "a" directly.
    assert_eq!(b.addr(), a.addr() + 2);
}

#[test]
fn empty_string() {
    let mut reg = Registry::new();
    let h = reg.intern("").unwrap();
    assert_eq!(reg.get(h), "");
    assert_eq!(reg.intern("").unwrap(), h);
}

#[test]
fn distinct_contents_distinct_handles() {
    let mut reg = Registry::new();
    let words = ["a", "b", "ab", "ba", "", "abc", "ab ", "é", "e"];
    let hs: Vec<_> = words.iter().map(|w| reg.intern(w).unwrap()).collect();
    for i in 0..words.len() {
        assert_eq!(reg.get(hs[i]), words[i]);
        for j in 0..words.len() {
            assert_eq!(hs[i] == hs[j], i == j);
        }
    }
}

#[test]
fn records_are_packed() {
    let mut reg = Registry::new();
    let a = reg.intern("abc").unwrap();
    let b = reg.intern("de").unwrap();
    assert_eq!(a.addr(), 0);
    assert_eq!(b.addr(), 4);
}

#[test]
fn handles_survive_region_rotation() {
    let mut reg = Registry::new();
    let first = reg.intern("first").unwrap();
    let mut last = first;
    let mut i: u32 = 0;
    while last.addr() < CHUNK_SIZE as u64 {
        let s = format!("{:0255}", i);
        last = reg.intern(&s).unwrap();
        i += 1;
    }
    // 4112 records of 256 bytes fill the first region past its end.
    assert_eq!(last.addr(), CHUNK_SIZE as u64);
    assert_eq!(reg.get(first), "first");
    assert_eq!(reg.get(last), format!("{:0255}", i - 1).as_str());
    assert_eq!(reg.intern("first").unwrap(), first);
    let zero = format!("{:0255}", 0);
    let h0 = reg.intern(&zero).unwrap();
    assert_eq!(reg.get(h0), zero.as_str());
}

#[test]
fn ordering_follows_content() {
    let mut reg = Registry::new();
    let abc = reg.intern("abc").unwrap();
    let abd = reg.intern("abd").unwrap();
    let ab = reg.intern("ab").unwrap();
    let e = reg.intern("é").unwrap();
    let z = reg.intern("z").unwrap();
    assert_eq!(reg.compare(abc, abd), Ordering::Less);
    assert_eq!(reg.compare(abd, abc), Ordering::Greater);
    assert_eq!(reg.compare(ab, abc), Ordering::Less);
    assert_eq!(reg.compare(abc, abc), Ordering::Equal);
    assert_eq!(reg.compare(z, e), "z".cmp("é"));
}

#[test]
fn chunk_insert_and_rotate() {
    let mut c = Chunk::new();
    assert_eq!(c.free(), CHUNK_SIZE);
    let (fresh, at) = c.insert(b"hello");
    assert!(fresh.is_none());
    assert_eq!(at, 0);
    assert_eq!(c.content(0), b"hello");
    let (fresh, at) = c.insert(b"xy");
    assert!(fresh.is_none());
    assert_eq!(at, 6);
    assert_eq!(c.content(6), b"xy");
    assert_eq!(c.free(), CHUNK_SIZE - 9);
    let big = [7u8; 255];
    let mut rotated = None;
    while rotated.is_none() {
        let (fresh, at) = c.insert(&big);
        if let Some(n) = fresh {
            assert_eq!(at, 0);
            assert_eq!(n.content(0), &big[..]);
            assert_eq!(n.free(), CHUNK_SIZE - 256);
            rotated = Some(n);
        }
    }
    assert!(c.free() <= 255);
    assert_eq!(c.content(0), b"hello");
}

#[test]
fn fresh_chunk_is_zeroed() {
    let c = Chunk::new();
    // Every byte is zero, so each offset reads as an empty record.
    assert_eq!(c.content(0), b"");
    assert_eq!(c.content(CHUNK_SIZE / 2), b"");
    assert_eq!(c.content(CHUNK_SIZE - 1), b"");
}

#[test]
fn equal_handles_share_address() {
    let mut reg = Registry::new();
    let a = reg.intern("same").unwrap();
    let b = reg.intern("same").unwrap();
    let c = reg.intern("other").unwrap();
    assert_eq!(a == b, a.addr() == b.addr());
    assert_eq!(a == c, a.addr() == c.addr());
    assert_ne!(a.addr(), c.addr());
}
