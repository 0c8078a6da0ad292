use std::collections::BTreeMap;

use cryophile::split::{ChunkOp, Split, SplitError};

/// Chunk files kept in memory: the incoming and the outgoing directory.
#[derive(Default)]
struct Dirs {
    incoming: BTreeMap<u64, Vec<u8>>,
    outgoing: BTreeMap<u64, Vec<u8>>,
}

impl Dirs {
    fn apply(&mut self, ops: Vec<ChunkOp>) {
        for op in ops {
            match op {
                ChunkOp::Open { index } => {
                    assert!(self.incoming.insert(index, Vec::new()).is_none());
                }
                ChunkOp::Append { index, bytes } => {
                    self.incoming.get_mut(&index).unwrap().extend_from_slice(&bytes);
                }
                ChunkOp::Seal { index, len } => {
                    let mut data = self.incoming.remove(&index).unwrap();
                    data.truncate(len);
                    assert!(self.outgoing.insert(index, data).is_none());
                }
            }
        }
    }

    fn finish(&mut self, split: Split) {
        if let Some(op) = split.finish() {
            self.apply(vec![op]);
        }
        // the sentinel, created last
        self.outgoing.insert(0, Vec::new());
    }
}

fn run(chunk_size: usize, writes: &[&[u8]]) -> Dirs {
    let mut dirs = Dirs::default();
    let mut split = Split::new("/spool/backup/id", "/spool/freeze/id", "chunk", chunk_size);
    for w in writes {
        let ops = split.write(w).unwrap();
        dirs.apply(ops);
    }
    dirs.finish(split);
    dirs
}

#[test]
fn test_split_write() {
    let s = String::from("0123456789abcdef");
    let mut dirs = Dirs::default();
    let mut splitter = Split::new("/tmp", "/tmp/out", "chunk", 3);
    let ops = splitter.write(s.as_bytes()).unwrap();
    dirs.apply(ops);
    assert_eq!(splitter.written(), s.len() as u64);
    for i in 1..6u64 {
        assert!(!dirs.incoming.contains_key(&i), "chunk file is still present");
        let expected = &s.as_bytes()[(i as usize - 1) * 3..(i as usize) * 3];
        assert_eq!(dirs.outgoing.get(&i).unwrap().as_slice(), expected);
    }
    let ops = splitter.write(b"").unwrap();
    assert!(ops.is_empty());
    assert_eq!(splitter.written(), 16);
    assert!(dirs.incoming.contains_key(&6));
    assert_eq!(dirs.incoming.get(&6).unwrap().as_slice(), b"f");
}

#[test]
fn test_split_write_vectored() {
    let s = String::from("0123456789abcdef");
    let mut dirs = Dirs::default();
    let mut splitter = Split::new("/tmp", "/tmp/out", "chunk", 3);
    let mut n = 0usize;
    for buf in [s.as_bytes(), s.as_bytes()] {
        dirs.apply(splitter.write(buf).unwrap());
        n += buf.len();
    }
    assert_eq!(n, 2 * s.len());
    assert_eq!(splitter.written(), 32);
    dirs.finish(splitter);
    let all: Vec<u8> = (1..=11u64).flat_map(|i| dirs.outgoing[&i].clone()).collect();
    assert_eq!(all, [s.as_bytes(), s.as_bytes()].concat());
}

#[test]
fn test_copy_to_split() {
    let s = String::from("0123456789abcdef");
    let strings = s.repeat(1000);
    let mut splitter = Split::new("/tmp", "/tmp/out", "chunk", 512);
    let mut dirs = Dirs::default();
    let mut n = 0u64;
    for piece in strings.as_bytes().chunks(8192) {
        dirs.apply(splitter.write(piece).unwrap());
        n += piece.len() as u64;
    }
    assert_eq!(splitter.written(), n);
}

#[test]
fn sixteen_bytes_in_chunks_of_three() {
    let dirs = run(3, &[b"0123456789abcdef"]);
    let expected: Vec<&[u8]> = vec![b"", b"012", b"345", b"678", b"9ab", b"cde", b"f"];
    assert_eq!(dirs.outgoing.len(), 7);
    for (i, e) in expected.iter().enumerate() {
        assert_eq!(dirs.outgoing[&(i as u64)].as_slice(), *e);
    }
    assert!(dirs.incoming.is_empty());
}

#[test]
fn empty_input_gives_only_the_sentinel() {
    let dirs = run(3, &[]);
    assert_eq!(dirs.outgoing.len(), 1);
    assert!(dirs.outgoing[&0].is_empty());
    let dirs = run(3, &[b"", b""]);
    assert_eq!(dirs.outgoing.len(), 1);
}

#[test]
fn exactly_one_chunk_has_no_empty_tail() {
    let dirs = run(4, &[b"wxyz"]);
    assert_eq!(dirs.outgoing.len(), 2);
    assert_eq!(dirs.outgoing[&1].as_slice(), b"wxyz");
    let dirs = run(4, &[b"wx", b"yz"]);
    assert_eq!(dirs.outgoing.len(), 2);
    assert_eq!(dirs.outgoing[&1].as_slice(), b"wxyz");
}

#[test]
fn many_small_writes_match_one_large_write() {
    let data: Vec<u8> = (0..100u8).collect();
    let pieces: Vec<&[u8]> = data.chunks(7).collect();
    let small = run(10, &pieces);
    let large = run(10, &[&data]);
    assert_eq!(small.outgoing, large.outgoing);
    for i in 1..=10u64 {
        assert_eq!(small.outgoing[&i].len(), 10);
    }
}

#[test]
fn failed_split_takes_nothing() {
    let mut split = Split::new("/a", "/b", "chunk", 2);
    let ops = split.write(b"abc").unwrap();
    assert_eq!(ops.len(), 5);
    split.mark_failed();
    assert!(split.failed());
    assert_eq!(split.write(b"def").unwrap_err(), SplitError::Failed { written: 3 });
    assert_eq!(split.written(), 3);
    split.clear();
    assert!(!split.failed());
    assert_eq!(split.written(), 0);
}

#[test]
fn chunk_paths() {
    let split = Split::new("/spool/backup/v", "/spool/freeze/v/", "chunk", 2);
    assert_eq!(split.incoming_path(7), "/spool/backup/v/chunk.7");
    assert_eq!(split.outgoing_path(0), "/spool/freeze/v/chunk.0");
    assert_eq!(split.incoming_path(1234567890123), "/spool/backup/v/chunk.1234567890123");
    assert_eq!(split.chunk_len(), 2);
}
