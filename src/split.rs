//! The chunking sink: a byte stream cut into numbered chunk files of a fixed
//! size, each sealed and handed to the outgoing directory once full.
use vstd::prelude::*;
use vstd::slice::{slice_subrange, slice_to_vec};
use crate::fragment::decimal_of;
use crate::spool::{join_path, push_path};

verus! {

/// Chunks after one more byte: it goes into the last chunk while that has
/// room, else it opens a new one.
pub open spec fn add_byte(c: Seq<Seq<u8>>, k: nat, b: u8) -> Seq<Seq<u8>> {
    if c.len() > 0 && c.last().len() < k {
        c.update(c.len() - 1, c.last().push(b))
    } else {
        c.push(seq![b])
    }
}

/// The chunks of size `k` that the stream `d` is cut into.
pub open spec fn chunks_of(d: Seq<u8>, k: nat) -> Seq<Seq<u8>>
    decreases d.len(),
{
    if d.len() == 0 {
        Seq::empty()
    } else {
        add_byte(chunks_of(d.drop_last(), k), k, d.last())
    }
}

/// A step of the work that `Split` asks of the file system.
#[derive(Debug)]
pub enum ChunkOp {
    /// Create chunk `index` in the incoming directory, exclusively, and
    /// reserve room for a full chunk.
    Open { index: u64 },
    /// Append `bytes` to the open chunk `index`.
    Append { index: u64, bytes: Vec<u8> },
    /// Seal chunk `index`: sync it, cut it to `len` bytes, link it into the
    /// outgoing directory and unlink it from the incoming one.
    Seal { index: u64, len: usize },
}

/// The chunk files as the operations leave them: the contents of
/// `chunk.1 ..= chunk.N`, and how many of them are sealed.
pub type Chunks = (Seq<Seq<u8>>, nat);

/// One operation applied to the chunk files; `None` where it does not fit
/// them.
pub open spec fn step(s: Chunks, op: ChunkOp) -> Option<Chunks> {
    let (c, sealed) = s;
    match op {
        ChunkOp::Open { index } => if index == c.len() + 1 && sealed == c.len() {
            Some((c.push(Seq::empty()), sealed))
        } else {
            None
        },
        ChunkOp::Append { index, bytes } => if index == c.len() && c.len() > 0 && sealed < index {
            Some((c.update(c.len() - 1, c.last() + bytes@), sealed))
        } else {
            None
        },
        ChunkOp::Seal { index, len } => if index == c.len() && c.len() > 0 && sealed + 1 == index
            && len == c.last().len() {
            Some((c, index as nat))
        } else {
            None
        },
    }
}

/// The operations applied in order.
pub open spec fn run_ops(s: Chunks, ops: Seq<ChunkOp>) -> Option<Chunks>
    decreases ops.len(),
{
    if ops.len() == 0 {
        Some(s)
    } else {
        match run_ops(s, ops.drop_last()) {
            Some(t) => step(t, ops.last()),
            None => None,
        }
    }
}

proof fn lemma_append_in_room(d: Seq<u8>, p: Seq<u8>, k: nat)
    requires
        chunks_of(d, k).len() > 0,
        chunks_of(d, k).last().len() + p.len() <= k,
    ensures
        chunks_of(d + p, k) == ({
            let c = chunks_of(d, k);
            c.update(c.len() - 1, c.last() + p)
        }),
    decreases p.len(),
{
    let c = chunks_of(d, k);
    if p.len() == 0 {
        assert(d + p == d);
        assert(c.update(c.len() - 1, c.last() + p) == c);
    } else {
        let q = p.drop_last();
        lemma_append_in_room(d, q, k);
        assert((d + p).drop_last() == d + q);
        assert((d + p).last() == p.last());
        let c2 = chunks_of(d + q, k);
        assert(chunks_of(d + p, k) == add_byte(c2, k, p.last()));
        assert(c2.last() == c.last() + q);
        assert((c.last() + q).push(p.last()) =~= c.last() + p);
        assert(c2.update(c2.len() - 1, c2.last().push(p.last())) =~= c.update(
            c.len() - 1,
            c.last() + p,
        ));
    }
}

proof fn lemma_append_new_chunk(d: Seq<u8>, p: Seq<u8>, k: nat)
    requires
        chunks_of(d, k).len() == 0 || chunks_of(d, k).last().len() >= k,
        0 < p.len() <= k,
    ensures
        chunks_of(d + p, k) == chunks_of(d, k).push(p),
    decreases p.len(),
{
    let c = chunks_of(d, k);
    if p.len() == 1 {
        assert((d + p).drop_last() == d);
        assert(seq![p.last()] == p);
    } else {
        let q = p.drop_last();
        lemma_append_new_chunk(d, q, k);
        assert((d + p).drop_last() == d + q);
        let c2 = chunks_of(d + q, k);
        assert(chunks_of(d + p, k) == add_byte(c2, k, p.last()));
        assert(c2.last() == q);
        assert(q.push(p.last()) =~= p);
        assert(c2.update(c2.len() - 1, c2.last().push(p.last())) =~= c.push(p));
    }
}

proof fn lemma_chunk_count(d: Seq<u8>, k: nat)
    ensures
        chunks_of(d, k).len() <= d.len(),
    decreases d.len(),
{
    if d.len() > 0 {
        lemma_chunk_count(d.drop_last(), k);
    }
}

proof fn lemma_run_one_more(s: Chunks, ops: Seq<ChunkOp>, op: ChunkOp)
    ensures
        run_ops(s, ops.push(op)) == match run_ops(s, ops) {
            Some(t) => step(t, op),
            None => None,
        },
{
    assert(ops.push(op).drop_last() == ops);
}

/// Why a `Split` refuses a write.
#[derive(Clone, Copy, Debug, PartialEq, Eq, Structural)]
pub enum SplitError {
    /// A failure of the file system stopped the sink after `written` bytes.
    Failed { written: u64 },
}

/// Cuts a stream into chunks `chunk.1, chunk.2, ...` of `num` bytes each (the
/// last one may be shorter) and says, as `ChunkOp`s, what the file system
/// has to do for it.
///
/// A chunk is opened when its first byte arrives and sealed when the byte
/// after its last one arrives, or when the stream ends.
pub struct Split {
    num: usize,
    pos: usize,
    tot: u64,
    val: u64,
    failed: bool,
    incoming: String,
    outgoing: String,
    data: Ghost<Seq<u8>>,
}

impl Split {
    /// The configured chunk size.
    pub closed spec fn chunk_size(&self) -> nat {
        self.num as nat
    }

    /// Every byte taken so far.
    pub closed spec fn stream(&self) -> Seq<u8> {
        self.data@
    }

    /// Whether a failure of the file system has stopped the sink.
    pub closed spec fn is_failed(&self) -> bool {
        self.failed
    }

    /// The chunk files that the operations handed out so far leave behind:
    /// all but the open last chunk are sealed.
    pub open spec fn chunks(&self) -> Chunks {
        let c = chunks_of(self.stream(), self.chunk_size());
        (c, if c.len() > 0 { (c.len() - 1) as nat } else { 0 })
    }

    pub closed spec fn wf(&self) -> bool {
        let c = chunks_of(self.data@, self.num as nat);
        &&& self.num > 0
        &&& self.tot == self.data@.len()
        &&& self.val == c.len()
        &&& self.val == 0 ==> self.pos == 0
        &&& self.val > 0 ==> self.pos == c.last().len()
        &&& self.pos <= self.num
    }

    /// A sink that cuts into chunks of `num` bytes named
    /// `<incoming>/<prefix>.<index>`, and hands them to
    /// `<outgoing>/<prefix>.<index>`.
    pub fn new(incoming: &str, outgoing: &str, chunk_prefix: &str, num: usize) -> (r: Self)
        requires
            num > 0,
        ensures
            r.wf(),
            r.chunk_size() == num,
            r.stream().len() == 0,
            !r.is_failed(),
            r.incoming_prefix() == join_path(incoming@, chunk_prefix@),
            r.outgoing_prefix() == join_path(outgoing@, chunk_prefix@),
    {
        let mut inc = String::from_str(incoming);
        push_path(&mut inc, chunk_prefix);
        let mut out = String::from_str(outgoing);
        push_path(&mut out, chunk_prefix);
        Split {
            num,
            pos: 0,
            tot: 0,
            val: 0,
            failed: false,
            incoming: inc,
            outgoing: out,
            data: Ghost(Seq::empty()),
        }
    }

    /// `<incoming>/<prefix>`, to which a chunk's index is appended.
    pub closed spec fn incoming_prefix(&self) -> Seq<char> {
        self.incoming@
    }

    /// `<outgoing>/<prefix>`, to which a chunk's index is appended.
    pub closed spec fn outgoing_prefix(&self) -> Seq<char> {
        self.outgoing@
    }

    /// Bytes taken so far.
    pub fn written(&self) -> (r: u64)
        requires
            self.wf(),
        ensures
            r == self.stream().len(),
    {
        self.tot
    }

    /// Stops the sink after a failure of the file system.
    pub fn mark_failed(&mut self)
        requires
            old(self).wf(),
        ensures
            final(self).wf(),
            final(self).is_failed(),
            final(self).stream() == old(self).stream(),
            final(self).chunk_size() == old(self).chunk_size(),
    {
        self.failed = true;
    }

    /// Starts over: counters and failure are reset, and the next chunk is
    /// `chunk.1` again.
    pub fn clear(&mut self)
        requires
            old(self).wf(),
        ensures
            final(self).wf(),
            !final(self).is_failed(),
            final(self).stream().len() == 0,
            final(self).chunk_size() == old(self).chunk_size(),
    {
        self.pos = 0;
        self.tot = 0;
        self.val = 0;
        self.failed = false;
        self.data = Ghost(Seq::empty());
    }

    /// Takes `piece`, which fits the open chunk or fills a new one.
    fn write_once(&mut self, piece: &[u8]) -> (r: Vec<ChunkOp>)
        requires
            old(self).wf(),
            0 < piece@.len() <= old(self).num,
            old(self).val > 0 && old(self).pos < old(self).num ==> piece@.len() <= old(self).num
                - old(self).pos,
            old(self).tot + piece@.len() <= u64::MAX,
        ensures
            final(self).wf(),
            final(self).data@ == old(self).data@ + piece@,
            final(self).num == old(self).num,
            final(self).failed == old(self).failed,
            final(self).incoming == old(self).incoming,
            final(self).outgoing == old(self).outgoing,
            final(self).pos == (if old(self).val > 0 && old(self).pos < old(self).num {
                old(self).pos + piece@.len()
            } else {
                piece@.len() as int
            }),
            final(self).val > 0,
            run_ops(old(self).chunks(), r@) == Some(final(self).chunks()),
    {
        let ghost d0 = self.data@;
        let ghost c0 = chunks_of(d0, self.num as nat);
        let len = piece.len();
        let mut ops: Vec<ChunkOp> = Vec::new();
        proof {
            lemma_chunk_count(d0, self.num as nat);
        }
        if self.val > 0 && self.pos < self.num {
            proof {
                lemma_append_in_room(d0, piece@, self.num as nat);
            }
            let ghost none = ops@;
            ops.push(ChunkOp::Append { index: self.val, bytes: slice_to_vec(piece) });
            proof {
                assert(ops@ == none.push(ops@[0]));
                lemma_run_one_more(self.chunks(), none, ops@[0]);
            }
        } else {
            proof {
                lemma_append_new_chunk(d0, piece@, self.num as nat);
            }
            let ghost none = ops@;
            if self.val > 0 {
                ops.push(ChunkOp::Seal { index: self.val, len: self.pos });
                proof {
                    lemma_run_one_more(self.chunks(), none, ops@[0]);
                }
            }
            let ghost sealed_ops = ops@;
            assert(run_ops(self.chunks(), sealed_ops) == Some((c0, c0.len() as nat)));
            self.val = self.val + 1;
            self.pos = 0;
            ops.push(ChunkOp::Open { index: self.val });
            proof {
                lemma_run_one_more(old(self).chunks(), sealed_ops, ops@.last());
            }
            let ghost opened_ops = ops@;
            ops.push(ChunkOp::Append { index: self.val, bytes: slice_to_vec(piece) });
            proof {
                lemma_run_one_more(old(self).chunks(), opened_ops, ops@.last());
                let c1 = c0.push(Seq::<u8>::empty());
                assert(c1.update(c1.len() - 1, c1.last() + piece@) =~= c0.push(piece@));
            }
        }
        self.pos = self.pos + len;
        self.tot = self.tot + len as u64;
        self.data = Ghost(d0 + piece@);
        ops
    }
}

proof fn lemma_run_concat(s: Chunks, a: Seq<ChunkOp>, b: Seq<ChunkOp>)
    ensures
        run_ops(s, a + b) == match run_ops(s, a) {
            Some(t) => run_ops(t, b),
            None => None,
        },
    decreases b.len(),
{
    if b.len() == 0 {
        assert(a + b == a);
    } else {
        lemma_run_concat(s, a, b.drop_last());
        assert((a + b).drop_last() == a + b.drop_last());
        assert((a + b).last() == b.last());
    }
}

impl Split {
    /// Takes all of `buf` and returns what the file system has to do for it:
    /// applied in order, the operations turn the chunk files left by the
    /// earlier writes into those of the longer stream.
    ///
    /// After a failure the sink takes nothing and says so with an error.
    pub fn write(&mut self, buf: &[u8]) -> (r: Result<Vec<ChunkOp>, SplitError>)
        requires
            old(self).wf(),
            old(self).stream().len() + buf@.len() <= u64::MAX,
        ensures
            final(self).wf(),
            final(self).chunk_size() == old(self).chunk_size(),
            final(self).is_failed() == old(self).is_failed(),
            final(self).incoming_prefix() == old(self).incoming_prefix(),
            final(self).outgoing_prefix() == old(self).outgoing_prefix(),
            old(self).is_failed() ==> r == Err::<Vec<ChunkOp>, SplitError>(
                SplitError::Failed { written: old(self).stream().len() as u64 },
            ) && final(self).stream() == old(self).stream(),
            !old(self).is_failed() ==> (r matches Ok(ops) && final(self).stream() == old(
                self,
            ).stream() + buf@ && run_ops(old(self).chunks(), ops@) == Some(final(self).chunks())),
    {
        let mut ops: Vec<ChunkOp> = Vec::new();
        if self.failed {
            return Err(SplitError::Failed { written: self.tot });
        }
        let len = buf.len();
        let remainder = self.num - self.pos;
        let (head, tail) = if remainder < len {
            buf.split_at(remainder)
        } else {
            buf.split_at(len)
        };
        if head.len() > 0 {
            let mut more = self.write_once(head);
            ops.append(&mut more);
        }
        assert(run_ops(old(self).chunks(), ops@) == Some(self.chunks()));
        let n = self.num;
        let tail_len = tail.len();
        let mut i: usize = 0;
        while i < tail_len
            invariant
                self.wf(),
                self.num == n,
                n == old(self).num,
                !self.failed,
                self.incoming == old(self).incoming,
                self.outgoing == old(self).outgoing,
                tail_len == tail@.len(),
                i <= tail_len,
                head@ + tail@ == buf@,
                self.data@ == old(self).data@ + head@ + tail@.subrange(0, i as int),
                i < tail_len ==> self.val > 0 && self.pos == n,
                run_ops(old(self).chunks(), ops@) == Some(self.chunks()),
                old(self).data@.len() + buf@.len() <= u64::MAX,
            decreases tail_len - i,
        {
            let end = if tail_len - i > n { i + n } else { tail_len };
            let piece = slice_subrange(tail, i, end);
            let ghost before = ops@;
            let ghost mid = self.chunks();
            let mut more = self.write_once(piece);
            let ghost more_ops = more@;
            ops.append(&mut more);
            proof {
                lemma_run_concat(old(self).chunks(), before, more_ops);
                assert(tail@.subrange(0, end as int) == tail@.subrange(0, i as int) + piece@);
                assert(self.data@ =~= old(self).data@ + head@ + tail@.subrange(0, end as int));
            }
            i = end;
        }
        proof {
            assert(tail@.subrange(0, tail_len as int) == tail@);
            assert(self.data@ =~= old(self).data@ + buf@);
        }
        Ok(ops)
    }

    /// Ends the stream: seals the open chunk, if any. Every chunk file is then
    /// sealed, and the sink is not to be written again.
    pub fn finish(&self) -> (r: Option<ChunkOp>)
        requires
            self.wf(),
        ensures
            self.chunks().0.len() == 0 ==> r.is_none(),
            self.chunks().0.len() > 0 ==> (r matches Some(op) && step(self.chunks(), op) == Some(
                (self.chunks().0, self.chunks().0.len()),
            )),
    {
        if self.val > 0 {
            Some(ChunkOp::Seal { index: self.val, len: self.pos })
        } else {
            None
        }
    }
}

/// Laying the chunks end to end gives back the stream they were cut from.
pub proof fn lemma_chunks_rebuild_stream(d: Seq<u8>, k: nat)
    ensures
        chunks_of(d, k).flatten() == d,
    decreases d.len(),
{
    broadcast use Seq::lemma_flatten_push;

    if d.len() > 0 {
        let d0 = d.drop_last();
        lemma_chunks_rebuild_stream(d0, k);
        let c = chunks_of(d0, k);
        if c.len() > 0 && c.last().len() < k {
            let init = c.drop_last();
            assert(init.push(c.last()) == c);
            assert(c.update(c.len() - 1, c.last().push(d.last())) == init.push(
                c.last().push(d.last()),
            ));
            assert(c.last().push(d.last()) == c.last() + seq![d.last()]);
            assert(init.flatten() + c.last() + seq![d.last()] =~= d0.push(d.last()));
        } else {
            assert(d0 + seq![d.last()] =~= d);
        }
    }
}

/// Every chunk but the last holds exactly `k` bytes; the last holds between
/// one and `k`; and there are chunks exactly when the stream is not empty.
pub proof fn lemma_chunk_sizes(d: Seq<u8>, k: nat)
    requires
        k >= 1,
    ensures
        forall|i: int|
            0 <= i < chunks_of(d, k).len() - 1 ==> (#[trigger] chunks_of(d, k)[i]).len() == k,
        chunks_of(d, k).len() > 0 ==> 0 < chunks_of(d, k).last().len() <= k,
        (chunks_of(d, k).len() == 0) == (d.len() == 0),
    decreases d.len(),
{
    if d.len() > 0 {
        let d0 = d.drop_last();
        lemma_chunk_sizes(d0, k);
        let c = chunks_of(d0, k);
        let c2 = chunks_of(d, k);
        if c.len() > 0 && c.last().len() < k {
            assert forall|i: int| 0 <= i < c2.len() - 1 implies (#[trigger] c2[i]).len() == k by {
                assert(c2[i] == c[i]);
            }
        } else {
            assert forall|i: int| 0 <= i < c2.len() - 1 implies (#[trigger] c2[i]).len() == k by {
                assert(c2[i] == c[i]);
            }
        }
    }
}

/// Relies on the `Display` of `u64` (through `to_string`): the decimal
/// digits of `v`, without leading zeros.
#[verifier::external_body]
fn u64_decimal(v: u64) -> (r: String)
    ensures
        r@ == decimal_of(v as nat),
{
    v.to_string()
}

impl Split {
    /// `<incoming>/<prefix>.<index>`: where chunk `index` is written.
    pub fn incoming_path(&self, index: u64) -> (r: String)
        ensures
            r@ == self.incoming_prefix() + seq!['.'] + decimal_of(index as nat),
    {
        proof {
            reveal_strlit(".");
        }
        let mut p = self.incoming.clone();
        p.append(".");
        let d = u64_decimal(index);
        p.append(d.as_str());
        p
    }

    /// `<outgoing>/<prefix>.<index>`: where a sealed chunk `index` is linked.
    pub fn outgoing_path(&self, index: u64) -> (r: String)
        ensures
            r@ == self.outgoing_prefix() + seq!['.'] + decimal_of(index as nat),
    {
        proof {
            reveal_strlit(".");
        }
        let mut p = self.outgoing.clone();
        p.append(".");
        let d = u64_decimal(index);
        p.append(d.as_str());
        p
    }

    /// The configured chunk size.
    pub fn chunk_len(&self) -> (r: usize)
        ensures
            r == self.chunk_size(),
    {
        self.num
    }

    /// Whether a failure of the file system has stopped the sink.
    pub fn failed(&self) -> (r: bool)
        ensures
            r == self.is_failed(),
    {
        self.failed
    }
}

/// The chunk files that a sink leaves, laid end to end in index order, are
/// the stream it took; every chunk but the last is full, and the last holds
/// at least one byte.
pub proof fn lemma_split_rebuilds_stream(s: &Split)
    requires
        s.wf(),
    ensures
        s.chunks().0.flatten() == s.stream(),
        forall|i: int|
            0 <= i < s.chunks().0.len() - 1 ==> (#[trigger] s.chunks().0[i]).len() == s.chunk_size(),
        s.chunks().0.len() > 0 ==> 0 < s.chunks().0.last().len() <= s.chunk_size(),
{
    lemma_chunks_rebuild_stream(s.stream(), s.chunk_size());
    lemma_chunk_sizes(s.stream(), s.chunk_size());
}

/// A stream of exactly `k` bytes is one full chunk, with no empty chunk
/// after it; an empty stream has no chunk at all.
pub proof fn lemma_exact_chunk(d: Seq<u8>, k: nat)
    requires
        k >= 1,
    ensures
        d.len() == k ==> chunks_of(d, k) == seq![d],
        d.len() == 0 ==> chunks_of(d, k).len() == 0,
{
    if d.len() == k {
        let e = Seq::<u8>::empty();
        lemma_append_new_chunk(e, d, k);
        assert(e + d == d);
        assert(Seq::<Seq<u8>>::empty().push(d) == seq![d]);
    }
}

/// A well-formed sink has a chunk size of at least one byte.
pub proof fn lemma_chunk_size_positive(s: &Split)
    requires
        s.wf(),
    ensures
        s.chunk_size() > 0,
{
}

} // verus!
