//! Chunk fragments and the queue that hands them on in index order.
use vstd::prelude::*;

verus! {

/// Largest index a chunk name may carry.
pub const MAX_INDEX: i32 = 2147483647;

/// Position of the last `c` in `s`, or `-1`.
pub open spec fn last_index_of(s: Seq<char>, c: char) -> int
    decreases s.len(),
{
    if s.len() == 0 {
        -1
    } else if s.last() == c {
        s.len() - 1
    } else {
        last_index_of(s.drop_last(), c)
    }
}

/// The last segment of a `/`-separated path.
pub open spec fn file_name_of(p: Seq<char>) -> Seq<char> {
    p.subrange(last_index_of(p, '/') + 1, p.len() as int)
}

/// The text after the last `.` of the file name, where that `.` does not
/// open the name.
pub open spec fn extension_of(p: Seq<char>) -> Option<Seq<char>> {
    let f = file_name_of(p);
    let d = last_index_of(f, '.');
    if d > 0 {
        Some(f.subrange(d + 1, f.len() as int))
    } else {
        None
    }
}

pub open spec fn is_digit(c: char) -> bool {
    '0' <= c <= '9'
}

/// The number that a string of decimal digits spells.
pub open spec fn digits_value(s: Seq<char>) -> int
    decreases s.len(),
{
    if s.len() == 0 {
        0
    } else {
        digits_value(s.drop_last()) * 10 + (s.last() as int - '0' as int)
    }
}

/// The character of the decimal digit `d`.
pub open spec fn digit_char(d: int) -> char {
    if d == 0 { '0' }
    else if d == 1 { '1' }
    else if d == 2 { '2' }
    else if d == 3 { '3' }
    else if d == 4 { '4' }
    else if d == 5 { '5' }
    else if d == 6 { '6' }
    else if d == 7 { '7' }
    else if d == 8 { '8' }
    else { '9' }
}

/// The decimal text of `v`, without leading zeros.
pub open spec fn decimal_of(v: nat) -> Seq<char>
    decreases v,
{
    if v < 10 {
        seq![digit_char(v as int)]
    } else {
        decimal_of(v / 10).push(digit_char((v % 10) as int))
    }
}

proof fn lemma_decimal_digits(v: nat)
    ensures
        decimal_of(v).len() > 0,
        forall|i: int| 0 <= i < decimal_of(v).len() ==> #[trigger] is_digit(decimal_of(v)[i]),
        digits_value(decimal_of(v)) == v,
        !decimal_of(v).contains('.'),
        !decimal_of(v).contains('/'),
    decreases v,
{
    let d = if v < 10 { v as int } else { (v % 10) as int };
    assert(0 <= d <= 9);
    assert(digit_char(d) as int - '0' as int == d);
    assert(is_digit(digit_char(d)));
    if v < 10 {
        assert(decimal_of(v).drop_last().len() == 0);
        assert(digits_value(decimal_of(v).drop_last()) == 0);
        assert(decimal_of(v).last() == digit_char(d));
    }
    if v >= 10 {
        lemma_decimal_digits(v / 10);
        let s = decimal_of(v);
        let t = decimal_of(v / 10);
        assert(s.drop_last() == t);
        assert(s.last() == digit_char(d));
        assert(digits_value(s) == digits_value(t) * 10 + (s.last() as int - '0' as int));
        assert forall|i: int| 0 <= i < s.len() implies #[trigger] is_digit(s[i]) by {
            if i < t.len() {
                assert(s[i] == t[i]);
            }
        }
        assert(v == (v / 10) * 10 + v % 10) by (nonlinear_arith);
        assert(digits_value(t) == v / 10);
        assert(s.last() as int - '0' as int == v % 10);
        assert(digits_value(s) == (v / 10) * 10 + v % 10);
        assert(!s.contains('.')) by {
            if s.contains('.') {
                let j = choose|j: int| 0 <= j < s.len() && s[j] == '.';
                assert(is_digit(s[j]));
            }
        }
        assert(!s.contains('/')) by {
            if s.contains('/') {
                let j = choose|j: int| 0 <= j < s.len() && s[j] == '/';
                assert(is_digit(s[j]));
            }
        }
    }
}

/// A non-empty run of decimal digits whose value fits an index.
pub open spec fn parse_index(s: Seq<char>) -> Option<int> {
    if s.len() > 0 && (forall|i: int| 0 <= i < s.len() ==> #[trigger] is_digit(s[i]))
        && digits_value(s) <= MAX_INDEX {
        Some(digits_value(s))
    } else {
        None
    }
}

/// The index that the name `path` gives a chunk (`chunk.7` gives 7).
pub open spec fn index_of_path(path: Seq<char>) -> Option<int> {
    match extension_of(path) {
        Some(e) => parse_index(e),
        None => None,
    }
}

proof fn lemma_last_index_bounds(s: Seq<char>, c: char)
    ensures
        -1 <= last_index_of(s, c) < s.len(),
        last_index_of(s, c) >= 0 ==> s[last_index_of(s, c)] == c,
    decreases s.len(),
{
    if s.len() > 0 && s.last() != c {
        lemma_last_index_bounds(s.drop_last(), c);
    }
}

/// Position of the last `c` in `s`.
fn last_index(s: &str, c: char) -> (r: Option<usize>)
    ensures
        match r {
            Some(i) => i == last_index_of(s@, c),
            None => last_index_of(s@, c) == -1,
        },
{
    let n = s.unicode_len();
    let mut i: usize = n;
    assert(s@.subrange(0, n as int) == s@);
    while i > 0
        invariant
            i <= n,
            n == s@.len(),
            last_index_of(s@, c) == last_index_of(s@.subrange(0, i as int), c),
        decreases i,
    {
        assert(s@.subrange(0, i as int).drop_last() == s@.subrange(0, i - 1));
        if s.get_char(i - 1) == c {
            return Some(i - 1);
        }
        i -= 1;
    }
    None
}

proof fn lemma_digits_value_grows(s: Seq<char>, i: int)
    requires
        0 <= i <= s.len(),
        forall|k: int| 0 <= k < s.len() ==> #[trigger] is_digit(s[k]),
    ensures
        digits_value(s.subrange(0, i)) <= digits_value(s),
        0 <= digits_value(s.subrange(0, i)),
    decreases s.len() - i,
{
    if i < s.len() {
        lemma_digits_value_grows(s, i + 1);
        assert(s.subrange(0, i + 1).drop_last() == s.subrange(0, i));
        let t = s.subrange(0, i);
        assert forall|k: int| 0 <= k < t.len() implies #[trigger] is_digit(t[k]) by {
            assert(t[k] == s[k]);
        }
        lemma_digits_nonneg(t);
        assert(is_digit(s[i]));
    } else {
        assert(s.subrange(0, i) == s);
        lemma_digits_nonneg(s);
    }
}

proof fn lemma_digits_nonneg(s: Seq<char>)
    requires
        forall|k: int| 0 <= k < s.len() ==> #[trigger] is_digit(s[k]),
    ensures
        0 <= digits_value(s),
    decreases s.len(),
{
    if s.len() > 0 {
        let t = s.drop_last();
        assert forall|k: int| 0 <= k < t.len() implies #[trigger] is_digit(t[k]) by {
            assert(t[k] == s[k]);
        }
        lemma_digits_nonneg(t);
        assert(is_digit(s[s.len() - 1]));
    }
}

/// Reads a chunk index written in decimal digits.
pub fn parse_chunk_index(s: &str) -> (r: Option<i32>)
    ensures
        match parse_index(s@) {
            Some(v) => r == Some(v as i32),
            None => r.is_none(),
        },
        r matches Some(v) ==> v >= 0 && parse_index(s@) == Some(v as int),
{
    let n = s.unicode_len();
    if n == 0 {
        return None;
    }
    let mut value: i64 = 0;
    let mut i: usize = 0;
    while i < n
        invariant
            i <= n,
            n == s@.len(),
            forall|k: int| 0 <= k < i ==> #[trigger] is_digit(s@[k]),
            value == digits_value(s@.subrange(0, i as int)),
            0 <= value <= MAX_INDEX,
        decreases n - i,
    {
        let c = s.get_char(i);
        if !('0' <= c && c <= '9') {
            assert(!is_digit(s@[i as int]));
            return None;
        }
        assert(s@.subrange(0, i + 1).drop_last() == s@.subrange(0, i as int));
        value = value * 10 + (c as u32 - '0' as u32) as i64;
        if value > MAX_INDEX as i64 {
            proof {
                if forall|k: int| 0 <= k < s@.len() ==> #[trigger] is_digit(s@[k]) {
                    lemma_digits_value_grows(s@, i + 1);
                }
            }
            return None;
        }
        i += 1;
    }
    assert(s@.subrange(0, n as int) == s@);
    Some(value as i32)
}

/// A chunk file, known by the index that its name carries.
#[derive(Debug)]
pub struct Fragment {
    pub index: i32,
    pub path: String,
}

impl Fragment {
    /// The fragment that `path` names, if its extension is a chunk index.
    pub fn new(path: String) -> (r: Option<Self>)
        ensures
            match index_of_path(path@) {
                Some(i) => r == Some(Fragment { index: i as i32, path }),
                None => r.is_none(),
            },
            r matches Some(f) ==> f.index >= 0 && index_of_path(path@) == Some(f.index as int),
    {
        let n = path.unicode_len();
        let slash = last_index(path.as_str(), '/');
        proof {
            lemma_last_index_bounds(path@, '/');
        }
        let from: usize = match slash {
            Some(i) => i + 1,
            None => 0,
        };
        let name = path.as_str().substring_char(from, n);
        assert(name@ == file_name_of(path@));
        let dot = last_index(name, '.');
        match dot {
            Some(d) if d > 0 => {
                proof {
                    lemma_last_index_bounds(name@, '.');
                }
                let ext = name.substring_char(d + 1, name.unicode_len());
                match parse_chunk_index(ext) {
                    Some(index) => Some(Fragment { index, path }),
                    None => None,
                }
            },
            _ => None,
        }
    }

    /// Whether this is the sentinel that marks a complete backup.
    pub fn is_zero(&self) -> (r: bool)
        ensures
            r == (self.index == 0),
    {
        self.index == 0
    }

    /// The chunk index.
    pub fn index(&self) -> (r: i32)
        ensures
            r == self.index,
    {
        self.index
    }
}

/// Position of the first fragment with the lowest index.
pub open spec fn min_pos(s: Seq<Fragment>) -> int
    decreases s.len(),
{
    if s.len() <= 1 {
        0
    } else {
        let m = min_pos(s.drop_last());
        if s.last().index < s[m].index {
            s.len() - 1
        } else {
            m
        }
    }
}

proof fn lemma_min_pos(s: Seq<Fragment>)
    requires
        s.len() > 0,
    ensures
        0 <= min_pos(s) < s.len(),
        forall|k: int| 0 <= k < s.len() ==> s[min_pos(s)].index <= #[trigger] s[k].index,
    decreases s.len(),
{
    if s.len() > 1 {
        lemma_min_pos(s.drop_last());
        let m = min_pos(s.drop_last());
        assert forall|k: int| 0 <= k < s.len() implies s[min_pos(s)].index
            <= #[trigger] s[k].index by {
            if k < s.len() - 1 {
                assert(s.drop_last()[k] == s[k]);
            }
        }
    }
}

/// Hands the held-back fragments on while the lowest of them is the next
/// index, dropping any below it (already handed on): the index reached, what
/// stays held back, and the paths handed on.
pub open spec fn backlog(current: int, pending: Seq<Fragment>) -> (int, Seq<Fragment>, Seq<String>)
    decreases pending.len(),
{
    if pending.len() == 0 {
        (current, pending, Seq::empty())
    } else {
        let m = min_pos(pending);
        let f = pending[m];
        let rest = pending.remove(m);
        if f.index == current && 0 <= m < pending.len() {
            let (c, p, out) = backlog(current + 1, rest);
            (c, p, seq![f.path] + out)
        } else if f.index < current && 0 <= m < pending.len() {
            backlog(current, rest)
        } else {
            (current, rest.push(f), Seq::empty())
        }
    }
}

/// Reorders chunk fragments that arrive in any order and hands their paths on
/// as `1, 2, 3, ...`, with no gap and no repeat.
///
/// The sentinel `0` is never handed on; its arrival only allows the stream to
/// end once nothing is held back.
pub struct FragmentQueue {
    pending: Vec<Fragment>,
    current: i64,
    zero: bool,
    emitted: Ghost<Seq<int>>,
    received: Ghost<Seq<int>>,
}

impl FragmentQueue {
    /// The index to hand on next.
    pub closed spec fn next_index(&self) -> int {
        self.current as int
    }

    /// Fragments that arrived ahead of their turn.
    pub closed spec fn held(&self) -> Seq<Fragment> {
        self.pending@
    }

    /// Whether the sentinel has arrived.
    pub closed spec fn zero_seen(&self) -> bool {
        self.zero
    }

    /// Indices handed on so far, in order.
    pub closed spec fn emitted(&self) -> Seq<int> {
        self.emitted@
    }

    /// Non-zero indices that have arrived so far.
    pub closed spec fn received(&self) -> Seq<int> {
        self.received@
    }

    /// Everything held back is still to come.
    pub open spec fn wf(&self) -> bool {
        &&& self.inv()
        &&& forall|k: int|
            0 <= k < self.held().len() ==> self.next_index() <= #[trigger] self.held()[k].index
    }

    /// What holds while held-back fragments are being handed on.
    pub open spec fn inv(&self) -> bool {
        &&& 1 <= self.next_index() <= MAX_INDEX + 1
        &&& self.emitted().len() == self.next_index() - 1
        &&& forall|i: int| 0 <= i < self.emitted().len() ==> #[trigger] self.emitted()[i] == i + 1
        &&& forall|k: int|
            0 <= k < self.held().len() ==> 1 <= #[trigger] self.held()[k].index <= MAX_INDEX
        &&& forall|x: int| #[trigger]
            self.received().contains(x) <==> ((1 <= x < self.next_index()) || in_held(
                self.held(),
                x,
            ))
    }

    /// The fresh queue, waiting for index 1.
    pub fn new() -> (r: Self)
        ensures
            r.wf(),
            r.next_index() == 1,
            r.held().len() == 0,
            !r.zero_seen(),
            r.received().len() == 0,
    {
        Self {
            pending: Vec::new(),
            current: 1,
            zero: false,
            emitted: Ghost(Seq::empty()),
            received: Ghost(Seq::empty()),
        }
    }
}

/// Whether a fragment carries another index than `c`.
pub open spec fn not_index(c: int) -> spec_fn(Fragment) -> bool {
    |f: Fragment| f.index as int != c
}

proof fn lemma_filter_held(h: Seq<Fragment>, c: int, lo: int)
    requires
        forall|k: int| 0 <= k < h.len() ==> lo <= #[trigger] h[k].index <= MAX_INDEX,
    ensures
        forall|k: int|
            0 <= k < h.filter(not_index(c)).len() ==> lo <= #[trigger] h.filter(not_index(c))[k].index
                <= MAX_INDEX && h.filter(not_index(c))[k].index != c,
        forall|y: int| #[trigger] in_held(h.filter(not_index(c)), y) <==> (in_held(h, y) && y != c),
        !in_held(h, c) ==> h.filter(not_index(c)) == h,
    decreases h.len(),
{
    reveal(Seq::filter);
    let t = h.filter(not_index(c));
    if h.len() > 0 {
        let init = h.drop_last();
        assert forall|k: int| 0 <= k < init.len() implies lo <= #[trigger] init[k].index <= MAX_INDEX by {
            assert(init[k] == h[k]);
        }
        lemma_filter_held(init, c, lo);
        let ti = init.filter(not_index(c));
        assert(h.last() == h[h.len() - 1]);
        assert forall|y: int| #[trigger] in_held(h, y) <==> (in_held(init, y) || h.last().index == y) by {
            if in_held(h, y) {
                let k = choose|k: int| 0 <= k < h.len() && #[trigger] h[k].index == y;
                if k < init.len() {
                    assert(init[k] == h[k]);
                }
            }
            if in_held(init, y) {
                let k = choose|k: int| 0 <= k < init.len() && #[trigger] init[k].index == y;
                assert(h[k] == init[k]);
            }
        }
        if not_index(c)(h.last()) {
            assert(t == ti.push(h.last()));
            lemma_push_held(ti, h.last());
        } else {
            assert(t == ti);
        }
        if !in_held(h, c) {
            assert(!in_held(init, c));
            assert(h.last().index != c);
            assert(init.push(h.last()) == h);
        }
    } else {
        assert(t == h);
    }
}

/// What `send` does with `f`, taking the queue from `q0` to `q1` and
/// answering `r`.
pub open spec fn send_step(q0: FragmentQueue, q1: FragmentQueue, f: Fragment, r: Option<String>) -> bool {
    if f.index == 0 {
        &&& r.is_none()
        &&& q1.zero_seen()
        &&& q1.next_index() == q0.next_index()
        &&& q1.held() == q0.held()
        &&& q1.emitted() == q0.emitted()
        &&& q1.received() == q0.received()
    } else if f.index < q0.next_index() {
        &&& r.is_none()
        &&& q1.zero_seen() == q0.zero_seen()
        &&& q1.next_index() == q0.next_index()
        &&& q1.held() == q0.held()
        &&& q1.emitted() == q0.emitted()
        &&& q1.received() == q0.received().push(f.index as int)
    } else if f.index == q0.next_index() {
        &&& r == Some(f.path)
        &&& q1.zero_seen() == q0.zero_seen()
        &&& q1.next_index() == q0.next_index() + 1
        &&& q1.held() == q0.held().filter(not_index(f.index as int))
        &&& q1.emitted() == q0.emitted().push(f.index as int)
        &&& q1.received() == q0.received().push(f.index as int)
    } else {
        &&& r.is_none()
        &&& q1.zero_seen() == q0.zero_seen()
        &&& q1.next_index() == q0.next_index()
        &&& q1.held() == q0.held().push(f)
        &&& q1.emitted() == q0.emitted()
        &&& q1.received() == q0.received().push(f.index as int)
    }
}

/// The fragments of `v` whose index is not `c`, in order; `v` is left empty.
fn drop_index(v: &mut Vec<Fragment>, c: i32) -> (r: Vec<Fragment>)
    ensures
        r@ == old(v)@.filter(not_index(c as int)),
{
    let ghost orig = v@;
    let n = v.len();
    let mut out: Vec<Fragment> = Vec::new();
    let mut k: usize = 0;
    while k < n
        invariant
            k <= n,
            n == orig.len(),
            v@ == orig.subrange(k as int, n as int),
            out@ == orig.subrange(0, k as int).filter(not_index(c as int)),
        decreases n - k,
    {
        let ghost before = v@;
        let f = v.remove(0);
        proof {
            reveal(Seq::filter);
            let sub = orig.subrange(0, k + 1);
            assert(sub.drop_last() == orig.subrange(0, k as int));
            assert(sub.last() == f);
            assert(v@ =~= orig.subrange(k + 1, n as int));
        }
        if f.index != c {
            out.push(f);
        }
        k += 1;
    }
    assert(orig.subrange(0, n as int) == orig);
    out
}

impl FragmentQueue {
    /// Takes one fragment: the sentinel is noted, the next index is handed on
    /// (its path is returned), one already handed on is dropped, and a later
    /// one is held back.
    pub fn send(&mut self, fragment: Fragment) -> (r: Option<String>)
        requires
            old(self).wf(),
            0 <= fragment.index,
        ensures
            final(self).wf(),
            send_step(*old(self), *final(self), fragment, r),
    {
        let ghost q0 = *self;
        if fragment.index == 0 {
            self.zero = true;
            assert(self.received() == q0.received());
            assert(self.held() == q0.held());
            assert(self.emitted() == q0.emitted());
            return None;
        }
        let idx = fragment.index;
        if (idx as i64) < self.current {
            self.received = Ghost(self.received@.push(idx as int));
            proof {
                assert forall|x: int| #[trigger] self.received().contains(x) <==> ((1 <= x
                    < self.next_index()) || in_held(self.held(), x)) by {
                    lemma_push_contains(q0.received(), idx as int, x);
                }
            }
            return None;
        }
        if idx as i64 == self.current {
            proof {
                lemma_filter_held(q0.held(), idx as int, q0.next_index());
            }
            self.pending = drop_index(&mut self.pending, idx);
            self.current = self.current + 1;
            self.emitted = Ghost(self.emitted@.push(idx as int));
            self.received = Ghost(self.received@.push(idx as int));
            proof {
                assert forall|k: int| 0 <= k < self.held().len() implies self.next_index()
                    <= #[trigger] self.held()[k].index by {}
                assert forall|x: int| #[trigger] self.received().contains(x) <==> ((1 <= x
                    < self.next_index()) || in_held(self.held(), x)) by {
                    lemma_push_contains(q0.received(), idx as int, x);
                }
            }
            Some(fragment.path)
        } else {
            proof {
                lemma_push_held(q0.held(), fragment);
            }
            self.pending.push(fragment);
            self.received = Ghost(self.received@.push(idx as int));
            proof {
                assert forall|k: int| 0 <= k < self.held().len() implies self.next_index()
                    <= #[trigger] self.held()[k].index by {
                    if k < q0.held().len() {
                        assert(self.held()[k] == q0.held()[k]);
                    }
                }
                assert forall|x: int| #[trigger] self.received().contains(x) <==> ((1 <= x
                    < self.next_index()) || in_held(self.held(), x)) by {
                    lemma_push_contains(q0.received(), idx as int, x);
                }
            }
            None
        }
    }
}

/// Whether a held-back fragment carries index `x`.
pub open spec fn in_held(h: Seq<Fragment>, x: int) -> bool {
    exists|k: int| 0 <= k < h.len() && #[trigger] h[k].index == x
}

proof fn lemma_push_contains(s: Seq<int>, v: int, x: int)
    ensures
        s.push(v).contains(x) <==> (s.contains(x) || x == v),
{
    if s.contains(x) {
        let j = choose|j: int| 0 <= j < s.len() && s[j] == x;
        assert(s.push(v)[j] == x);
    }
    if x == v {
        assert(s.push(v)[s.len() as int] == x);
    }
    if s.push(v).contains(x) {
        let j = choose|j: int| 0 <= j < s.len() + 1 && s.push(v)[j] == x;
        if j < s.len() {
            assert(s[j] == x);
        }
    }
}

proof fn lemma_push_held(h: Seq<Fragment>, f: Fragment)
    ensures
        forall|x: int| #[trigger] in_held(h.push(f), x) <==> (in_held(h, x) || x == f.index),
{
    assert forall|x: int| #[trigger] in_held(h.push(f), x) <==> (in_held(h, x) || x == f.index) by {
        if in_held(h, x) {
            let k = choose|k: int| 0 <= k < h.len() && #[trigger] h[k].index == x;
            assert(h.push(f)[k].index == x);
        }
        if x == f.index {
            assert(h.push(f)[h.len() as int].index == x);
        }
        if in_held(h.push(f), x) {
            let k = choose|k: int| 0 <= k < h.len() + 1 && #[trigger] h.push(f)[k].index == x;
            if k < h.len() {
                assert(h[k].index == x);
            }
        }
    }
}

proof fn lemma_remove_held(h: Seq<Fragment>, m: int)
    requires
        0 <= m < h.len(),
    ensures
        forall|x: int| #[trigger] in_held(h, x) <==> (in_held(h.remove(m), x) || x == h[m].index),
{
    let r = h.remove(m);
    assert forall|x: int| #[trigger] in_held(h, x) <==> (in_held(r, x) || x == h[m].index) by {
        if in_held(h, x) {
            let k = choose|k: int| 0 <= k < h.len() && #[trigger] h[k].index == x;
            if k < m {
                assert(r[k].index == x);
            } else if k > m {
                assert(r[k - 1].index == x);
            }
        }
        if in_held(r, x) {
            let k = choose|k: int| 0 <= k < r.len() && #[trigger] r[k].index == x;
            if k < m {
                assert(h[k].index == x);
            } else {
                assert(h[k + 1].index == x);
            }
        }
    }
}

impl FragmentQueue {
    fn min_position(&self) -> (m: usize)
        requires
            self.held().len() > 0,
        ensures
            m == min_pos(self.held()),
    {
        let n = self.pending.len();
        let mut best: usize = 0;
        let mut i: usize = 1;
        assert(self.pending@.subrange(0, 1).len() == 1);
        while i < n
            invariant
                1 <= i <= n,
                n == self.held().len(),
                best == min_pos(self.held().subrange(0, i as int)),
                best < i,
            decreases n - i,
        {
            assert(self.held().subrange(0, i + 1).drop_last() == self.held().subrange(0, i as int));
            if self.pending[i].index < self.pending[best].index {
                best = i;
            }
            i += 1;
        }
        assert(self.held().subrange(0, n as int) == self.held());
        best
    }

    /// Hands on held-back fragments while the lowest of them is the next index,
    /// drops those already handed on, and returns the handed-on paths in
    /// order. Afterwards nothing held back is the next index.
    pub fn send_backlog(&mut self) -> (r: Vec<String>)
        requires
            old(self).wf(),
        ensures
            final(self).wf(),
            backlog(old(self).next_index(), old(self).held()) == (
                final(self).next_index(),
                final(self).held(),
                r@,
            ),
            forall|k: int|
                0 <= k < final(self).held().len() ==> final(self).next_index()
                    < #[trigger] final(self).held()[k].index,
            final(self).zero_seen() == old(self).zero_seen(),
            final(self).received() == old(self).received(),
    {
        let ghost next0 = self.next_index();
        let ghost held0 = self.held();
        let mut out: Vec<String> = Vec::new();
        let mut done = false;
        while !done && self.pending.len() > 0
            invariant
                self.inv(),
                self.zero_seen() == old(self).zero_seen(),
                self.received() == old(self).received(),
                next0 == old(self).next_index(),
                held0 == old(self).held(),
                done ==> backlog(next0, held0) == (self.next_index(), self.held(), out@),
                done ==> forall|k: int|
                    0 <= k < self.held().len() ==> self.next_index()
                        < #[trigger] self.held()[k].index,
                !done ==> ({
                    let (c, p, o) = backlog(self.next_index(), self.held());
                    backlog(next0, held0) == (c, p, out@ + o)
                }),
            decreases self.pending.len() + (if done { 0int } else { 1int }),
        {
            let ghost q0 = *self;
            let m = self.min_position();
            proof {
                lemma_min_pos(self.held());
                lemma_remove_held(self.held(), m as int);
            }
            let f = self.pending.remove(m);
            proof {
                assert(self.held() == q0.held().remove(m as int));
                assert forall|k: int| 0 <= k < self.held().len() implies 1
                    <= #[trigger] self.held()[k].index <= MAX_INDEX by {
                    if k < m {
                        assert(self.held()[k] == q0.held()[k]);
                    } else {
                        assert(self.held()[k] == q0.held()[k + 1]);
                    }
                }
            }
            if f.index as i64 == self.current {
                let ghost path = f.path;
                let ghost out0 = out@;
                self.current = self.current + 1;
                self.emitted = Ghost(self.emitted@.push(f.index as int));
                out.push(f.path);
                proof {
                    let (c, p, o) = backlog(self.next_index(), self.held());
                    assert(out0 + (seq![path] + o) =~= out@ + o);
                    assert forall|x: int| #[trigger] self.received().contains(x) <==> ((1 <= x
                        < self.next_index()) || in_held(self.held(), x)) by {}
                }
            } else if (f.index as i64) < self.current {
                proof {
                    assert forall|x: int| #[trigger] self.received().contains(x) <==> ((1 <= x
                        < self.next_index()) || in_held(self.held(), x)) by {}
                }
            } else {
                let ghost out0 = out@;
                proof {
                    lemma_push_held(self.held(), f);
                }
                let ghost rest = self.held();
                self.pending.push(f);
                done = true;
                proof {
                    assert(self.held() == rest.push(f));
                    assert(out0 + Seq::<String>::empty() =~= out@);
                    assert forall|x: int| #[trigger] self.received().contains(x) <==> ((1 <= x
                        < self.next_index()) || in_held(self.held(), x)) by {}
                    assert forall|k: int| 0 <= k < self.held().len() implies 1
                        <= #[trigger] self.held()[k].index <= MAX_INDEX && self.next_index()
                        < self.held()[k].index by {
                        if k < self.held().len() - 1 {
                            assert(self.held()[k] == rest[k]);
                            if k < m {
                                assert(rest[k] == q0.held()[k]);
                            } else {
                                assert(rest[k] == q0.held()[k + 1]);
                            }
                        }
                    }
                }
            }
        }
        out
    }
}

impl FragmentQueue {
    /// Takes the file at `path`; a name that carries no chunk index is ignored.
    pub fn send_path(&mut self, path: String) -> (r: Option<String>)
        requires
            old(self).wf(),
        ensures
            final(self).wf(),
            match index_of_path(path@) {
                Some(i) => send_step(*old(self), *final(self), Fragment { index: i as i32, path }, r),
                None => r.is_none() && *final(self) == *old(self),
            },
    {
        match Fragment::new(path) {
            Some(fragment) => self.send(fragment),
            None => None,
        }
    }

    /// Whether the stream may end: the sentinel has arrived and every index
    /// that arrived has been handed on (nothing is held back).
    pub fn send_zero_maybe(&self) -> (r: bool)
        requires
            self.wf(),
        ensures
            r == (self.zero_seen() && self.held().len() == 0),
            r == (self.zero_seen() && forall|x: int| #[trigger]
                self.received().contains(x) ==> self.emitted().contains(x)),
    {
        proof {
            lemma_end_iff_all_handed_on(*self);
        }
        self.zero && self.pending.len() == 0
    }
}

/// Indices are handed on in strictly ascending order, without gaps and so
/// without repeats: the `i`-th one is `i + 1`.
pub proof fn lemma_emitted_in_order(q: FragmentQueue)
    requires
        q.wf(),
    ensures
        forall|i: int, j: int|
            0 <= i < j < q.emitted().len() ==> #[trigger] q.emitted()[i] < #[trigger] q.emitted()[j],
        forall|i: int| 0 <= i < q.emitted().len() ==> #[trigger] q.emitted()[i] == i + 1,
        q.emitted().len() == q.next_index() - 1,
{
}

/// Nothing is held back exactly when every index that arrived has been
/// handed on, and what was handed on is the unbroken run `1 ..= n`. So the
/// stream may end exactly when the sentinel has arrived and the indices that
/// arrived form an unbroken run from 1; a chunk that arrives again after it
/// was handed on does not stop it.
pub proof fn lemma_end_iff_all_handed_on(q: FragmentQueue)
    requires
        q.wf(),
    ensures
        (q.held().len() == 0) == (forall|x: int| #[trigger]
            q.received().contains(x) ==> q.emitted().contains(x)),
        forall|x: int| 1 <= x < q.next_index() ==> #[trigger] q.emitted().contains(x),
        forall|x: int| #[trigger] q.emitted().contains(x) ==> 1 <= x < q.next_index(),
{
    assert forall|x: int| 1 <= x < q.next_index() implies #[trigger] q.emitted().contains(x) by {
        assert(q.emitted()[x - 1] == x);
    }
    assert forall|x: int| #[trigger] q.emitted().contains(x) implies 1 <= x < q.next_index() by {
        let j = choose|j: int| 0 <= j < q.emitted().len() && q.emitted()[j] == x;
        assert(q.emitted()[j] == j + 1);
    }
    if q.held().len() > 0 {
        let x = q.held()[0].index as int;
        assert(in_held(q.held(), x));
        assert(q.received().contains(x));
        assert(!q.emitted().contains(x));
    } else {
        assert forall|x: int| #[trigger] q.received().contains(x) implies q.emitted().contains(x) by {
            assert(q.emitted()[x - 1] == x);
        }
    }
}

proof fn lemma_last_index_absent(s: Seq<char>, c: char)
    requires
        !s.contains(c),
    ensures
        last_index_of(s, c) == -1,
    decreases s.len(),
{
    if s.len() > 0 {
        assert(s[s.len() - 1] != c);
        let t = s.drop_last();
        assert(!t.contains(c)) by {
            if t.contains(c) {
                let j = choose|j: int| 0 <= j < t.len() && t[j] == c;
                assert(s[j] == c);
            }
        }
        lemma_last_index_absent(t, c);
    }
}

proof fn lemma_last_index_after(a: Seq<char>, c: char, b: Seq<char>)
    requires
        !b.contains(c),
    ensures
        last_index_of(a + seq![c] + b, c) == a.len(),
    decreases b.len(),
{
    let s = a + seq![c] + b;
    if b.len() == 0 {
        assert(s.last() == c);
    } else {
        assert(b[b.len() - 1] != c);
        let t = b.drop_last();
        assert(!t.contains(c)) by {
            if t.contains(c) {
                let j = choose|j: int| 0 <= j < t.len() && t[j] == c;
                assert(b[j] == c);
            }
        }
        assert(s.drop_last() == a + seq![c] + t);
        lemma_last_index_after(a, c, t);
    }
}

/// A chunk named `<p>.<n>`, with `n` written in decimal, is read back as the
/// fragment of index `n`, whenever `p` ends in a name (not in `/`) and `n`
/// fits an index.
pub proof fn lemma_chunk_name_round_trip(p: Seq<char>, n: nat)
    requires
        p.len() > 0,
        p.last() != '/',
        n <= MAX_INDEX,
    ensures
        index_of_path(p + seq!['.'] + decimal_of(n)) == Some(n as int),
{
    lemma_decimal_digits(n);
    let dn = decimal_of(n);
    let k = last_index_of(p, '/');
    lemma_last_index_bounds(p, '/');
    if k >= 0 {
        lemma_round_trip_in_dir(p, dn, k);
    } else {
        lemma_round_trip_bare(p, dn);
    }
}

proof fn lemma_round_trip_in_dir(p: Seq<char>, dn: Seq<char>, k: int)
    requires
        p.len() > 0,
        p.last() != '/',
        k == last_index_of(p, '/'),
        0 <= k < p.len(),
        p[k] == '/',
        !dn.contains('.'),
        !dn.contains('/'),
    ensures
        extension_of(p + seq!['.'] + dn) == Some(dn),
{
    let path = p + seq!['.'] + dn;
    let tail = seq!['.'] + dn;
    assert(path == p + tail);
    assert(!tail.contains('/')) by {
        if tail.contains('/') {
            let j = choose|j: int| 0 <= j < tail.len() && tail[j] == '/';
            assert(dn[j - 1] == '/');
        }
    }
    let a = p.subrange(0, k);
    let b = p.subrange(k + 1, p.len() as int) + tail;
    assert(!b.contains('/')) by {
        if b.contains('/') {
            let j = choose|j: int| 0 <= j < b.len() && b[j] == '/';
            if j < p.len() - k - 1 {
                lemma_slash_before(p, k, k + 1 + j);
            } else {
                assert(tail[j - (p.len() - k - 1)] == '/');
            }
        }
    }
    assert(path =~= a + seq!['/'] + b);
    lemma_last_index_after(a, '/', b);
    assert(file_name_of(path) =~= b);
    let name = p.subrange(k + 1, p.len() as int);
    assert(name.len() > 0);
    lemma_last_index_after(name, '.', dn);
    assert(b =~= name + seq!['.'] + dn);
    assert(b.subrange(name.len() as int + 1, b.len() as int) =~= dn);
}

proof fn lemma_round_trip_bare(p: Seq<char>, dn: Seq<char>)
    requires
        p.len() > 0,
        last_index_of(p, '/') < 0,
        !dn.contains('.'),
        !dn.contains('/'),
    ensures
        extension_of(p + seq!['.'] + dn) == Some(dn),
{
    let path = p + seq!['.'] + dn;
    let tail = seq!['.'] + dn;
    assert(path == p + tail);
    assert(!tail.contains('/')) by {
        if tail.contains('/') {
            let j = choose|j: int| 0 <= j < tail.len() && tail[j] == '/';
            assert(dn[j - 1] == '/');
        }
    }
    lemma_last_index_bounds(p, '/');
    assert(!p.contains('/')) by {
        if p.contains('/') {
            let j = choose|j: int| 0 <= j < p.len() && p[j] == '/';
            lemma_slash_before(p, -1, j);
        }
    }
    assert(!path.contains('/')) by {
        if path.contains('/') {
            let j = choose|j: int| 0 <= j < path.len() && path[j] == '/';
            if j < p.len() {
                assert(p[j] == '/');
            } else {
                assert(tail[j - p.len()] == '/');
            }
        }
    }
    lemma_last_index_absent(path, '/');
    assert(file_name_of(path) =~= path);
    lemma_last_index_after(p, '.', dn);
    assert(path.subrange(p.len() as int + 1, path.len() as int) =~= dn);
}

/// No `/` stands after the last one.
proof fn lemma_slash_before(p: Seq<char>, k: int, j: int)
    requires
        k == last_index_of(p, '/'),
        k < j < p.len(),
    ensures
        p[j] != '/',
    decreases p.len(),
{
    lemma_last_index_bounds(p, '/');
    if p.len() > 0 && p.last() != '/' {
        if j < p.len() - 1 {
            lemma_slash_before(p.drop_last(), k, j);
            assert(p.drop_last()[j] == p[j]);
        }
    }
}

/// Whether some file of `paths` names chunk `x`.
pub open spec fn names_index(paths: Seq<String>, x: int) -> bool {
    exists|i: int| 0 <= i < paths.len() && index_of_path(#[trigger] paths[i]@) == Some(x)
}

/// Naming by the first `i + 1` paths is naming by the first `i` or by the
/// path at `i`.
pub proof fn lemma_names_index_step(paths: Seq<String>, i: int)
    requires
        0 <= i < paths.len(),
    ensures
        forall|x: int| #[trigger] names_index(paths.subrange(0, i + 1), x) <==> (names_index(
            paths.subrange(0, i),
            x,
        ) || index_of_path(paths[i]@) == Some(x)),
{
    let sub = paths.subrange(0, i);
    let next = paths.subrange(0, i + 1);
    assert forall|x: int| #[trigger] names_index(next, x) <==> (names_index(sub, x)
        || index_of_path(paths[i]@) == Some(x)) by {
        if names_index(sub, x) {
            let j = choose|j: int| 0 <= j < sub.len() && index_of_path(#[trigger] sub[j]@) == Some(x);
            assert(next[j] == sub[j]);
        }
        if index_of_path(paths[i]@) == Some(x) {
            assert(next[i] == paths[i]);
        }
        if names_index(next, x) {
            let j = choose|j: int| 0 <= j < next.len() && index_of_path(#[trigger] next[j]@) == Some(
                x,
            );
            if j < i {
                assert(sub[j] == next[j]);
            }
        }
    }
}

/// The state of a queue that decides what it hands on: the next index, the
/// fragments held back, and whether the sentinel has arrived.
pub type QueueState = (int, Seq<Fragment>, bool);

pub open spec fn state_of(q: FragmentQueue) -> QueueState {
    (q.next_index(), q.held(), q.zero_seen())
}

/// One file offered: its state after, and the paths handed on.
pub open spec fn offer_one(st: QueueState, path: String) -> (QueueState, Seq<String>) {
    match index_of_path(path@) {
        None => (st, Seq::empty()),
        Some(i) => if i == 0 {
            ((st.0, st.1, true), Seq::empty())
        } else if i < st.0 {
            (st, Seq::empty())
        } else if i == st.0 {
            ((st.0 + 1, st.1.filter(not_index(i)), st.2), seq![path])
        } else {
            ((st.0, st.1.push(Fragment { index: i as i32, path }), st.2), Seq::empty())
        },
    }
}

/// Files offered in order: the state after, and the paths handed on.
pub open spec fn offer_all(st: QueueState, paths: Seq<String>) -> (QueueState, Seq<String>)
    decreases paths.len(),
{
    if paths.len() == 0 {
        (st, Seq::empty())
    } else {
        let (s1, o1) = offer_all(st, paths.drop_last());
        let (s2, o2) = offer_one(s1, paths.last());
        (s2, o1 + o2)
    }
}

impl FragmentQueue {
    /// The decision part of walking or watching the restore queue: offers
    /// each file found, then hands on what was held back while it can.
    /// Returns the paths to pass downstream, in order, and whether the
    /// stream may now end.
    pub fn offer_paths(&mut self, paths: Vec<String>) -> (r: (Vec<String>, bool))
        requires
            old(self).wf(),
        ensures
            final(self).wf(),
            r.0@.len() == final(self).next_index() - old(self).next_index(),
            ({
                let (st, out) = offer_all(state_of(*old(self)), paths@);
                let (c, p, more) = backlog(st.0, st.1);
                &&& r.0@ == out + more
                &&& final(self).next_index() == c
                &&& final(self).held() == p
                &&& final(self).zero_seen() == st.2
            }),
            r.1 == (final(self).zero_seen() && final(self).held().len() == 0),
            forall|x: int|
                #![trigger names_index(paths@, x)]
                names_index(paths@, x) && x != 0 ==> final(self).received().contains(x),
            names_index(paths@, 0) ==> final(self).zero_seen(),
            old(self).zero_seen() ==> final(self).zero_seen(),
            forall|x: int| #[trigger]
                old(self).received().contains(x) ==> final(self).received().contains(x),
    {
        let mut out: Vec<String> = Vec::new();
        let mut i: usize = 0;
        while i < paths.len()
            invariant
                i <= paths.len(),
                self.wf(),
                out@.len() == self.next_index() - old(self).next_index(),
                offer_all(state_of(*old(self)), paths@.subrange(0, i as int)) == (
                    state_of(*self),
                    out@,
                ),
                forall|x: int|
                    #![trigger names_index(paths@.subrange(0, i as int), x)]
                    names_index(paths@.subrange(0, i as int), x) && x != 0 ==> self.received().contains(x),
                names_index(paths@.subrange(0, i as int), 0) ==> self.zero_seen(),
                old(self).zero_seen() ==> self.zero_seen(),
                forall|x: int| #[trigger]
                    old(self).received().contains(x) ==> self.received().contains(x),
            decreases paths.len() - i,
        {
            proof {
                lemma_names_index_step(paths@, i as int);
            }
            let ghost q0 = *self;
            let path = paths[i].clone();
            assert(path@ == paths@[i as int]@);
            proof {
                lemma_index_bounds(path@);
            }
            let sent = self.send_path(path);
            let ghost sent_view = sent;
            proof {
                assert forall|x: int| #[trigger] q0.received().contains(x) implies self.received().contains(x) by {
                    if index_of_path(paths@[i as int]@) is Some && index_of_path(paths@[i as int]@)->0 != 0 {
                        lemma_seq_push_keeps(q0.received(), index_of_path(paths@[i as int]@)->0, x);
                    }
                }
                if let Some(v) = index_of_path(paths@[i as int]@) {
                    if v != 0 {
                        assert(self.received().last() == v);
                        assert(self.received().contains(v));
                    }
                }
            }
            let ghost out0 = out@;
            match sent {
                Some(p) => out.push(p),
                None => {},
            }
            proof {
                let sub = paths@.subrange(0, i + 1);
                assert(sub.drop_last() == paths@.subrange(0, i as int));
                assert(sub.last() == paths@[i as int]);
                let (st1, o1) = offer_one(state_of(q0), paths@[i as int]);
                if sent_view is Some {
                    assert(out@ =~= out0 + o1);
                } else {
                    assert(out@ =~= out0 + o1);
                }
                assert(state_of(*self) == st1);
            }
            i += 1;
        }
        assert(paths@.subrange(0, paths@.len() as int) == paths@);
        let ghost q1 = *self;
        let ghost out1 = out@;
        let mut more = self.send_backlog();
        let ghost more_paths = more@;
        proof {
            lemma_backlog_count(q1.next_index(), q1.held());
        }
        out.append(&mut more);
        assert(out@ == out1 + more_paths);
        let done = self.send_zero_maybe();
        (out, done)
    }
}

proof fn lemma_seq_push_keeps(s: Seq<int>, v: int, x: int)
    requires
        s.contains(x),
    ensures
        s.push(v).contains(x),
{
    let j = choose|j: int| 0 <= j < s.len() && s[j] == x;
    assert(s.push(v)[j] == x);
}

proof fn lemma_backlog_count(current: int, pending: Seq<Fragment>)
    ensures
        backlog(current, pending).2.len() == backlog(current, pending).0 - current,
    decreases pending.len(),
{
    if pending.len() > 0 {
        let m = min_pos(pending);
        let f = pending[m];
        if f.index == current && 0 <= m < pending.len() {
            lemma_backlog_count(current + 1, pending.remove(m));
        } else if f.index < current && 0 <= m < pending.len() {
            lemma_backlog_count(current, pending.remove(m));
        }
    }
}

proof fn lemma_index_bounds(p: Seq<char>)
    ensures
        index_of_path(p) matches Some(v) ==> 0 <= v <= MAX_INDEX,
{
    if let Some(e) = extension_of(p) {
        if parse_index(e).is_some() {
            lemma_digits_nonneg(e);
        }
    }
}

/// The paths name the chunks `0 ..= n`, each exactly once.
pub open spec fn names_each_once(paths: Seq<String>, n: int) -> bool {
    &&& forall|i: int| 0 <= i < paths.len() ==> (#[trigger] index_of_path(paths[i]@)) is Some
    &&& forall|i: int, j: int|
        0 <= i < paths.len() && 0 <= j < paths.len() && i != j ==> #[trigger] index_of_path(
            paths[i]@,
        ) != #[trigger] index_of_path(paths[j]@)
    &&& forall|x: int| #[trigger] names_index(paths, x) <==> 0 <= x <= n
}

/// What offering distinct chunks keeps true of the queue state.
pub open spec fn distinct_offers(st: QueueState, seen: Seq<String>) -> bool {
    &&& st.0 >= 1
    &&& forall|k: int| 0 <= k < st.1.len() ==> #[trigger] st.1[k].index >= st.0
    &&& forall|k: int, l: int|
        0 <= k < st.1.len() && 0 <= l < st.1.len() && k != l ==> #[trigger] st.1[k].index
            != #[trigger] st.1[l].index
    &&& forall|y: int| #[trigger]
        names_index(seen, y) && y != 0 <==> (1 <= y < st.0 || in_held(st.1, y))
    &&& st.2 == names_index(seen, 0)
    &&& forall|k: int|
        0 <= k < st.1.len() ==> index_of_path((#[trigger] st.1[k]).path@) == Some(
            st.1[k].index as int,
        )
}

proof fn lemma_offer_distinct(paths: Seq<String>, k: int)
    requires
        0 <= k <= paths.len(),
        forall|i: int| 0 <= i < paths.len() ==> (#[trigger] index_of_path(paths[i]@)) is Some,
        forall|i: int, j: int|
            0 <= i < paths.len() && 0 <= j < paths.len() && i != j ==> #[trigger] index_of_path(
                paths[i]@,
            ) != #[trigger] index_of_path(paths[j]@),
    ensures
        distinct_offers(
            offer_all((1, Seq::empty(), false), paths.subrange(0, k)).0,
            paths.subrange(0, k),
        ),
        offer_all((1, Seq::empty(), false), paths.subrange(0, k)).1.len() == offer_all(
            (1, Seq::empty(), false),
            paths.subrange(0, k),
        ).0.0 - 1,
        forall|i: int|
            0 <= i < offer_all((1, Seq::empty(), false), paths.subrange(0, k)).1.len()
                ==> index_of_path(
                (#[trigger] offer_all((1, Seq::empty(), false), paths.subrange(0, k)).1[i])@,
            ) == Some(i + 1),
    decreases k,
{
    let init: QueueState = (1, Seq::empty(), false);
    let sub = paths.subrange(0, k);
    if k == 0 {
        assert forall|y: int| #[trigger] names_index(sub, y) implies false by {}
    } else {
        lemma_offer_distinct(paths, k - 1);
        let prev = paths.subrange(0, k - 1);
        assert(sub.drop_last() == prev);
        assert(sub.last() == paths[k - 1]);
        lemma_names_index_step(paths, k - 1);
        let (st, out) = offer_all(init, prev);
        let path = paths[k - 1];
        let x = index_of_path(path@)->0;
        lemma_index_bounds(path@);
        let (st2, o2) = offer_one(st, path);
        // `x` was not seen before
        assert(!names_index(prev, x)) by {
            if names_index(prev, x) {
                let j = choose|j: int| 0 <= j < prev.len() && index_of_path(#[trigger] prev[j]@) == Some(x);
                assert(prev[j] == paths[j]);
            }
        }
        assert(offer_all(init, sub) == (st2, out + o2));
        assert forall|y: int| #[trigger] names_index(sub, y) <==> (names_index(prev, y) || y == x) by {}
        if x == 0 {
            assert(st2 == (st.0, st.1, true));
            assert forall|y: int| #[trigger] names_index(sub, y) && y != 0 <==> (1 <= y < st2.0
                || in_held(st2.1, y)) by {
                assert(names_index(sub, y) <==> (names_index(prev, y) || y == x));
            }
        } else if x == st.0 {
            lemma_filter_held(st.1, x, st.0);
            assert(st2 == (st.0 + 1, st.1, st.2));
            assert forall|y: int| #[trigger] names_index(sub, y) && y != 0 <==> (1 <= y < st2.0
                || in_held(st2.1, y)) by {
                assert(names_index(sub, y) <==> (names_index(prev, y) || y == x));
            }
            assert(names_index(sub, 0) == names_index(prev, 0));
        } else {
            let f = Fragment { index: x as i32, path };
            assert(st2 == (st.0, st.1.push(f), st.2));
            lemma_push_held(st.1, f);
            assert forall|y: int| #[trigger] names_index(sub, y) && y != 0 <==> (1 <= y < st2.0
                || in_held(st2.1, y)) by {
                assert(names_index(sub, y) <==> (names_index(prev, y) || y == x));
                assert(in_held(st2.1, y) <==> (in_held(st.1, y) || y == x));
            }
            assert(names_index(sub, 0) == names_index(prev, 0));
        }
        let o = out + o2;
        assert forall|i: int| 0 <= i < o.len() implies index_of_path((#[trigger] o[i])@) == Some(
            i + 1,
        ) by {
            if i < out.len() {
                assert(o[i] == out[i]);
            } else {
                assert(o[i] == path);
            }
        }
        assert forall|c: int| 0 <= c < st2.1.len() implies index_of_path(
            (#[trigger] st2.1[c]).path@,
        ) == Some(st2.1[c].index as int) by {
            if c < st.1.len() {
                assert(st2.1[c] == st.1[c]);
            }
        }
        if x != 0 {
            assert(!in_held(st.1, x));
            assert(x >= st.0);
            if x != st.0 {
                lemma_push_held(st.1, Fragment { index: x as i32, path });
                let h2 = st.1.push(Fragment { index: x as i32, path });
                assert forall|a: int, b: int|
                    0 <= a < h2.len() && 0 <= b < h2.len() && a != b implies #[trigger] h2[a].index
                    != #[trigger] h2[b].index by {
                    if a == h2.len() - 1 {
                        assert(!in_held(st.1, x));
                        if h2[b].index == h2[a].index {
                            assert(st.1[b].index == x);
                        }
                    } else if b == h2.len() - 1 {
                        if h2[b].index == h2[a].index {
                            assert(st.1[a].index == x);
                        }
                    }
                }
                assert forall|c: int| 0 <= c < h2.len() implies #[trigger] h2[c].index >= st2.0 by {
                    if c < st.1.len() {
                        assert(h2[c] == st.1[c]);
                    }
                }
            } else {
                assert forall|c: int| 0 <= c < st.1.len() implies #[trigger] st.1[c].index >= st2.0 by {
                    assert(st.1[c].index != x) by {
                        if st.1[c].index == x {
                            assert(in_held(st.1, x));
                        }
                    }
                }
            }
        }
    }
}

proof fn lemma_backlog_drains(c: int, h: Seq<Fragment>, m: int)
    requires
        c <= m,
        forall|k: int| 0 <= k < h.len() ==> #[trigger] h[k].index >= c,
        forall|k: int, l: int|
            0 <= k < h.len() && 0 <= l < h.len() && k != l ==> #[trigger] h[k].index
                != #[trigger] h[l].index,
        forall|y: int| #[trigger] in_held(h, y) <==> c <= y < m,
    ensures
        backlog(c, h).0 == m,
        backlog(c, h).1.len() == 0,
    decreases h.len(),
{
    if h.len() == 0 {
        if c < m {
            assert(in_held(h, c));
        }
    } else {
        if c >= m {
            assert(in_held(h, h[0].index as int));
        }
        assert(in_held(h, c));
        lemma_min_pos(h);
        let mp = min_pos(h);
        let w = choose|w: int| 0 <= w < h.len() && #[trigger] h[w].index == c;
        assert(h[mp].index <= h[w].index);
        assert(h[mp].index == c);
        lemma_remove_held(h, mp);
        let r = h.remove(mp);
        assert forall|k: int| 0 <= k < r.len() implies #[trigger] r[k].index >= c + 1 by {
            if k < mp {
                assert(r[k] == h[k]);
                assert(h[k].index != h[mp].index);
            } else {
                assert(r[k] == h[k + 1]);
                assert(h[k + 1].index != h[mp].index);
            }
        }
        assert forall|k: int, l: int|
            0 <= k < r.len() && 0 <= l < r.len() && k != l implies #[trigger] r[k].index
            != #[trigger] r[l].index by {
            let k2 = if k < mp { k } else { k + 1 };
            let l2 = if l < mp { l } else { l + 1 };
            assert(r[k] == h[k2]);
            assert(r[l] == h[l2]);
        }
        assert forall|y: int| #[trigger] in_held(r, y) <==> c + 1 <= y < m by {
            if in_held(r, y) {
                let k = choose|k: int| 0 <= k < r.len() && #[trigger] r[k].index == y;
                assert(r[k].index >= c + 1);
                assert(in_held(h, y));
            }
            if c + 1 <= y < m {
                assert(in_held(h, y));
                assert(y != h[mp].index);
            }
        }
        lemma_backlog_drains(c + 1, r, m);
    }
}

proof fn lemma_backlog_indices(c: int, h: Seq<Fragment>)
    requires
        forall|k: int|
            0 <= k < h.len() ==> index_of_path((#[trigger] h[k]).path@) == Some(h[k].index as int),
    ensures
        forall|i: int|
            0 <= i < backlog(c, h).2.len() ==> index_of_path((#[trigger] backlog(c, h).2[i])@)
                == Some(c + i),
    decreases h.len(),
{
    if h.len() > 0 {
        let m = min_pos(h);
        lemma_min_pos(h);
        let r = h.remove(m);
        assert forall|k: int| 0 <= k < r.len() implies index_of_path((#[trigger] r[k]).path@)
            == Some(r[k].index as int) by {
            if k < m {
                assert(r[k] == h[k]);
            } else {
                assert(r[k] == h[k + 1]);
            }
        }
        if h[m].index == c {
            lemma_backlog_indices(c + 1, r);
            let o = backlog(c, h).2;
            let tail = backlog(c + 1, r).2;
            assert(o == seq![h[m].path] + tail);
            assert forall|i: int| 0 <= i < o.len() implies index_of_path((#[trigger] o[i])@) == Some(
                c + i,
            ) by {
                if i > 0 {
                    assert(o[i] == tail[i - 1]);
                }
            }
        } else if h[m].index < c {
            lemma_backlog_indices(c, r);
        }
    }
}

/// Offering the chunks `0 ..= n` to a fresh queue, each once and in any
/// order, then handing on the backlog, delivers the paths of chunks
/// `1, 2, ..., n` in that order and lets the stream end: the next index is
/// `n + 1` and nothing is held back.
pub proof fn lemma_any_order_delivers_all(paths: Seq<String>, n: int)
    requires
        n >= 0,
        names_each_once(paths, n),
    ensures
        ({
            let (st, out) = offer_all((1, Seq::empty(), false), paths);
            let (c, p, more) = backlog(st.0, st.1);
            &&& c == n + 1
            &&& p.len() == 0
            &&& st.2
            &&& (out + more).len() == n
            &&& forall|i: int|
                0 <= i < n ==> index_of_path((#[trigger] (out + more)[i])@) == Some(i + 1)
        }),
{
    lemma_offer_distinct(paths, paths.len() as int);
    assert(paths.subrange(0, paths.len() as int) == paths);
    let (st, out) = offer_all((1, Seq::empty(), false), paths);
    assert(names_index(paths, 0));
    assert(st.0 <= n + 1) by {
        if st.0 > n + 1 {
            assert(names_index(paths, n + 1));
        }
    }
    assert forall|y: int| #[trigger] in_held(st.1, y) <==> st.0 <= y < n + 1 by {
        if in_held(st.1, y) {
            let k = choose|k: int| 0 <= k < st.1.len() && #[trigger] st.1[k].index == y;
            assert(st.1[k].index >= st.0);
            assert(names_index(paths, y));
        }
        if st.0 <= y < n + 1 {
            assert(names_index(paths, y));
        }
    }
    lemma_backlog_drains(st.0, st.1, n + 1);
    lemma_backlog_count(st.0, st.1);
    lemma_backlog_indices(st.0, st.1);
    let more = backlog(st.0, st.1).2;
    let all = out + more;
    assert forall|i: int| 0 <= i < n implies index_of_path((#[trigger] all[i])@) == Some(i + 1) by {
        if i < out.len() {
            assert(all[i] == out[i]);
        } else {
            assert(all[i] == more[i - out.len()]);
        }
    }
}

/// The backlog hands on the longest run `c, c + 1, ...` of indices that
/// are held back, in order: every index below the one reached was held, the
/// one reached was not, and what stays held back lies above it.
pub proof fn lemma_backlog_longest_run(c: int, h: Seq<Fragment>)
    ensures
        ({
            let (c2, p, out) = backlog(c, h);
            &&& c <= c2
            &&& out.len() == c2 - c
            &&& forall|y: int| c <= y < c2 ==> #[trigger] in_held(h, y)
            &&& !in_held(h, c2)
            &&& forall|k: int| 0 <= k < p.len() ==> c2 < #[trigger] p[k].index
        }),
    decreases h.len(),
{
    lemma_backlog_count(c, h);
    if h.len() > 0 {
        let m = min_pos(h);
        lemma_min_pos(h);
        lemma_remove_held(h, m);
        let f = h[m];
        let r = h.remove(m);
        if f.index == c {
            lemma_backlog_longest_run(c + 1, r);
            let (c2, p, out) = backlog(c + 1, r);
            assert(backlog(c, h).0 == c2);
            assert forall|y: int| c <= y < c2 implies #[trigger] in_held(h, y) by {
                if y > c {
                    assert(in_held(r, y));
                }
            }
        } else if f.index < c {
            lemma_backlog_longest_run(c, r);
            let (c2, p, out) = backlog(c, r);
            assert forall|y: int| c <= y < c2 implies #[trigger] in_held(h, y) by {
                assert(in_held(r, y));
            }
        } else {
            assert(!in_held(h, c)) by {
                if in_held(h, c) {
                    let k = choose|k: int| 0 <= k < h.len() && #[trigger] h[k].index == c;
                    assert(h[m].index <= h[k].index);
                }
            }
            let p = r.push(f);
            assert forall|k: int| 0 <= k < p.len() implies c < #[trigger] p[k].index by {
                if k < r.len() {
                    if k < m {
                        assert(p[k] == h[k]);
                    } else {
                        assert(p[k] == h[k + 1]);
                    }
                }
            }
        }
    }
}

} // verus!
