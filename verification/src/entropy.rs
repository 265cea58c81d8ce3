//! The counting behind byte-entropy analysis: how windows are spread over a
//! file, byte counts of the whole input and of a sliding window over it,
//! and the facts read off a count table. The entropies themselves are
//! computed from these counts by the caller.

use vstd::prelude::*;

verus! {

pub const MIN_WINDOW_SIZE: u64 = 4096;
pub const MAX_WINDOW_SIZE: u64 = 1048576;
pub const MAX_WINDOW_POINTS: usize = 192;

/// The window length for a file of `size` bytes: a 128th of it, rounded
/// up, kept between 4 KiB and 1 MiB and never longer than the file.
pub open spec fn window_size_of(size: int) -> int {
    if size == 0 {
        0
    } else {
        let c = (size + 127) / 128;
        let cl = if c < MIN_WINDOW_SIZE {
            MIN_WINDOW_SIZE as int
        } else if c > MAX_WINDOW_SIZE {
            MAX_WINDOW_SIZE as int
        } else {
            c
        };
        if cl < size {
            cl
        } else {
            size
        }
    }
}

/// How many windows a file of `size` bytes gets: one per possible start,
/// at most 192.
pub open spec fn point_count_of(size: int) -> int {
    let span = size - window_size_of(size);
    if span + 1 < MAX_WINDOW_POINTS {
        span + 1
    } else {
        MAX_WINDOW_POINTS as int
    }
}

/// Where the windows start: none for an empty file, one at 0 when the
/// window covers the file, otherwise evenly spread from 0 to the last
/// possible start, rounded down.
pub open spec fn window_offsets_of(size: int) -> Seq<int> {
    let span = size - window_size_of(size);
    let n = point_count_of(size);
    if size == 0 {
        seq![]
    } else if span == 0 {
        seq![0]
    } else {
        Seq::new(n as nat, |i: int| (i * span) / (n - 1))
    }
}

/// The window length and the window starts for a file of `size` bytes.
pub fn window_plan(size: u64) -> (r: (u64, Vec<u64>))
    ensures
        r.0 == window_size_of(size as int),
        r.1@.map_values(|o: u64| o as int) == window_offsets_of(size as int),
{
    if size == 0 {
        let v: Vec<u64> = Vec::new();
        proof {
            assert(v@.map_values(|o: u64| o as int) =~= Seq::<int>::empty());
        }
        return (0, v);
    }
    let c = size / 128 + if size % 128 == 0 {
        0
    } else {
        1
    };
    assert(c == (size + 127) / 128);
    let cl = if c < MIN_WINDOW_SIZE {
        MIN_WINDOW_SIZE
    } else if c > MAX_WINDOW_SIZE {
        MAX_WINDOW_SIZE
    } else {
        c
    };
    let window_size = if cl < size {
        cl
    } else {
        size
    };
    let span = size - window_size;
    if span == 0 {
        let mut v: Vec<u64> = Vec::new();
        v.push(0);
        proof {
            assert(v@.map_values(|o: u64| o as int) =~= seq![0int]);
        }
        return (window_size, v);
    }
    let n: usize = if span < (MAX_WINDOW_POINTS - 1) as u64 {
        (span + 1) as usize
    } else {
        MAX_WINDOW_POINTS
    };
    let denominator = (n - 1) as u128;
    let mut offsets: Vec<u64> = Vec::new();
    let mut i: usize = 0;
    while i < n
        invariant
            i <= n,
            2 <= n <= MAX_WINDOW_POINTS,
            n == point_count_of(size as int),
            span == size - window_size_of(size as int),
            span > 0,
            denominator == n - 1,
            offsets@.len() == i,
            forall|j: int| 0 <= j < i ==> #[trigger] offsets@[j] == (j * span) / (n - 1),
        decreases n - i,
    {
        assert((i as int) * (span as int) < 0x1_0000_0000_0000_0000_0000) by (nonlinear_arith)
            requires
                i < 192,
                span < 0x1_0000_0000_0000_0000,
        ;
        let prod = i as u128 * span as u128;
        let q = prod / denominator;
        assert(q <= span) by (nonlinear_arith)
            requires
                q == (i * span) / (n - 1),
                i <= n - 1,
                n - 1 > 0,
                span > 0,
        ;
        offsets.push(q as u64);
        i = i + 1;
    }
    proof {
        assert(offsets@.map_values(|o: u64| o as int) =~= window_offsets_of(size as int));
    }
    (window_size, offsets)
}

// ---------------------------------------------------------------------------
// Byte counts.

/// How often `b` occurs in `s`.
pub open spec fn count_in(s: Seq<u8>, b: u8) -> nat
    decreases s.len(),
{
    if s.len() == 0 {
        0
    } else {
        count_in(s.drop_last(), b) + if s.last() == b {
            1nat
        } else {
            0nat
        }
    }
}

proof fn lemma_count_le_len(s: Seq<u8>, b: u8)
    ensures
        count_in(s, b) <= s.len(),
    decreases s.len(),
{
    if s.len() > 0 {
        lemma_count_le_len(s.drop_last(), b);
    }
}

proof fn lemma_count_drop_first(s: Seq<u8>, b: u8)
    requires
        s.len() > 0,
    ensures
        count_in(s, b) == count_in(s.drop_first(), b) + if s[0] == b {
            1nat
        } else {
            0nat
        },
    decreases s.len(),
{
    if s.len() > 1 {
        let p = s.drop_last();
        let q = s.drop_first();
        lemma_count_drop_first(p, b);
        assert(p.drop_first() =~= q.drop_last());
        assert(q.last() == s.last());
        assert(p[0] == s[0]);
        assert(count_in(s, b) == count_in(p, b) + if s.last() == b {
            1nat
        } else {
            0nat
        });
        assert(count_in(q, b) == count_in(q.drop_last(), b) + if q.last() == b {
            1nat
        } else {
            0nat
        });
    } else {
        assert(s.drop_first().len() == 0);
        assert(s.drop_last().len() == 0);
        assert(count_in(s.drop_first(), b) == 0);
        assert(count_in(s.drop_last(), b) == 0);
        assert(s.last() == s[0]);
    }
}

/// The counts of `s` for every byte value.
pub open spec fn counts_of(s: Seq<u8>) -> Seq<int> {
    Seq::new(256, |b: int| count_in(s, b as u8) as int)
}

/// The window being counted after `len` bytes: the last `window` bytes,
/// or all of them while fewer have been read.
pub open spec fn window_of(seen: Seq<u8>, window: int) -> Seq<u8> {
    if seen.len() < window {
        seen
    } else {
        seen.subrange(seen.len() - window, seen.len() as int)
    }
}

/// Counts of a whole input and of a sliding window over it, fed one byte at
/// a time; a window is reported each time it ends where a planned window
/// ends.
pub struct EntropyScan {
    counts: Vec<u64>,
    total: u64,
    window_size: usize,
    ring: Vec<u8>,
    window_counts: Vec<u64>,
    cursor: usize,
    filled: usize,
    offsets: Vec<u64>,
    next_window: usize,
    seen: Ghost<Seq<u8>>,
}

impl EntropyScan {
    /// The counts agree with the bytes fed, and the ring holds the window.
    pub closed spec fn wf(self) -> bool {
        let s = self.seen@;
        let l = s.len() as int;
        let w = self.window_size as int;
        &&& self.total == l
        &&& self.counts@.len() == 256
        &&& forall|b: int| 0 <= b < 256 ==> #[trigger] self.counts@[b] == count_in(s, b as u8)
        &&& self.window_counts@.len() == 256
        &&& self.ring@.len() == w
        &&& self.next_window <= self.offsets@.len()
        &&& w > 0 ==> {
            &&& self.cursor < w
            &&& self.filled <= w
            &&& (self.filled < w ==> self.cursor == self.filled && self.filled == l)
            &&& (self.filled == w ==> l >= w)
            &&& forall|j: int|
                0 <= j < self.cursor ==> #[trigger] self.ring@[j] == s[l - self.cursor + j]
            &&& forall|j: int|
                self.filled == w && self.cursor <= j < w ==> #[trigger] self.ring@[j] == s[l
                    - self.cursor - w + j]
            &&& forall|b: int|
                0 <= b < 256 ==> #[trigger] self.window_counts@[b] == count_in(
                    window_of(s, w),
                    b as u8,
                )
        }
    }

    /// The bytes fed so far.
    pub closed spec fn seen(self) -> Seq<u8> {
        self.seen@
    }

    /// The window length.
    pub closed spec fn window_len(self) -> int {
        self.window_size as int
    }

    /// The planned window starts.
    pub closed spec fn planned(self) -> Seq<int> {
        self.offsets@.map_values(|o: u64| o as int)
    }

    /// How many planned windows have been reported.
    pub closed spec fn reported(self) -> int {
        self.next_window as int
    }

    /// A scan of an input expected to be `expected_size` bytes long, with
    /// the windows [`window_plan`] gives for it.
    pub fn new(expected_size: u64) -> (r: EntropyScan)
        requires
            window_size_of(expected_size as int) <= usize::MAX,
        ensures
            r.wf(),
            r.seen() == Seq::<u8>::empty(),
            r.window_len() == window_size_of(expected_size as int),
            r.planned() == window_offsets_of(expected_size as int),
            r.reported() == 0,
    {
        let (ws, offsets) = window_plan(expected_size);
        let window_size = ws as usize;
        let ring: Vec<u8> = vec![0u8; window_size];
        let counts: Vec<u64> = vec![0u64; 256];
        let window_counts: Vec<u64> = vec![0u64; 256];
        let ghost s: Seq<u8> = Seq::empty();
        proof {
            assert(window_of(s, window_size as int) =~= s);
        }
        EntropyScan {
            counts,
            total: 0,
            window_size,
            ring,
            window_counts,
            cursor: 0,
            filled: 0,
            offsets,
            next_window: 0,
            seen: Ghost(s),
        }
    }

    /// How many bytes have been fed.
    pub fn total(&self) -> (r: u64)
        requires
            self.wf(),
        ensures
            r == self.seen().len(),
    {
        self.total
    }

    /// The window length.
    pub fn window_size(&self) -> (r: u64)
        ensures
            r == self.window_len(),
    {
        self.window_size as u64
    }

    /// The count of every byte value over all bytes fed.
    pub fn counts(&self) -> (r: &[u64])
        requires
            self.wf(),
        ensures
            r@.map_values(|c: u64| c as int) == counts_of(self.seen()),
    {
        proof {
            assert(self.counts@.map_values(|c: u64| c as int) =~= counts_of(self.seen()));
        }
        self.counts.as_slice()
    }

    /// Feeds one byte. Gives the start and the byte counts of the window
    /// that now ends, when the next planned window ends here.
    #[verifier::rlimit(80)]
    #[verifier::spinoff_prover]
    pub fn feed(&mut self, byte: u8) -> (r: Option<(u64, Vec<u64>)>)
        requires
            old(self).wf(),
            old(self).seen().len() < u64::MAX,
        ensures
            final(self).wf(),
            final(self).seen() == old(self).seen().push(byte),
            final(self).window_len() == old(self).window_len(),
            final(self).planned() == old(self).planned(),
            ({
                let due = old(self).window_len() > 0 && old(self).reported() < old(self).planned().len()
                    && final(self).seen().len() == old(self).planned()[old(self).reported()]
                    + old(self).window_len();
                &&& due ==> final(self).reported() == old(self).reported() + 1 && (r matches Some(
                    (off, wc),
                ) && off == old(self).planned()[old(self).reported()] && wc@.map_values(
                    |c: u64| c as int,
                ) == counts_of(window_of(final(self).seen(), final(self).window_len())))
                &&& !due ==> final(self).reported() == old(self).reported() && r is None
            }),
    {
        let ghost s = self.seen@;
        let ghost l = s.len() as int;
        let ghost s2 = s.push(byte);
        let ghost w = self.window_size as int;
        proof {
            lemma_count_le_len(s, byte);
            assert(s2.drop_last() =~= s);
        }
        let old_total = self.total;
        let c = self.counts[byte as usize];
        self.counts.set(byte as usize, c + 1);
        self.total = old_total + 1;
        if self.window_size != 0 {
            let ghost win = window_of(s, w);
            if self.filled == self.window_size {
                let outgoing = self.ring[self.cursor];
                proof {
                    assert(outgoing == s[l - w]);
                    assert(win[0] == outgoing);
                    lemma_count_drop_first(win, outgoing);
                }
                let oc = self.window_counts[outgoing as usize];
                self.window_counts.set(outgoing as usize, oc - 1);
            } else {
                self.filled = self.filled + 1;
            }
            self.ring.set(self.cursor, byte);
            let wc = self.window_counts[byte as usize];
            proof {
                lemma_count_le_len(win, byte);
                assert(wc <= count_in(win, byte));
                assert(win.len() <= l);
                let nw = window_of(s2, w);
                if self.filled == self.window_size && l >= w {
                    assert(nw =~= win.drop_first().push(byte));
                    assert(nw.drop_last() =~= win.drop_first());
                    lemma_count_le_len(win.drop_first(), byte);
                } else {
                    assert(nw =~= win.push(byte));
                    assert(nw.drop_last() =~= win);
                    lemma_count_le_len(win, byte);
                }
                assert(win.len() <= l);
            }
            self.window_counts.set(byte as usize, wc + 1);
            self.cursor = self.cursor + 1;
            if self.cursor == self.window_size {
                self.cursor = 0;
            }
        }
        self.seen = Ghost(s2);
        proof {
            assert forall|b: int| 0 <= b < 256 implies #[trigger] self.counts@[b] == count_in(
                s2,
                b as u8,
            ) by {
                assert(s2.last() == byte);
            }
            if w > 0 {
                let win = window_of(s, w);
                let nw = window_of(s2, w);
                if l >= w {
                    assert(nw =~= win.drop_first().push(byte));
                    assert(nw.drop_last() =~= win.drop_first());
                    assert forall|b: int| 0 <= b < 256 implies #[trigger] self.window_counts@[b]
                        == count_in(nw, b as u8) by {
                        lemma_count_drop_first(win, b as u8);
                    }
                } else {
                    assert(nw =~= win.push(byte));
                    assert(nw.drop_last() =~= win);
                }
            }
        }
        if self.window_size != 0 && self.next_window < self.offsets.len() {
            let target = self.offsets[self.next_window];
            if target <= u64::MAX - self.window_size as u64 && self.total == target
                + self.window_size as u64 {
                self.next_window = self.next_window + 1;
                let snapshot = self.window_counts.clone();
                proof {
                    assert(snapshot@.map_values(|c: u64| c as int) =~= counts_of(
                        window_of(s2, w),
                    ));
                }
                return Some((target, snapshot));
            }
        }
        None
    }
}

// ---------------------------------------------------------------------------
// Reading a count table.

/// How many byte values occur at all.
pub open spec fn unique_of(counts: Seq<u64>, n: int) -> int
    decreases n,
{
    if n <= 0 {
        0
    } else {
        unique_of(counts, n - 1) + if counts[n - 1] != 0 {
            1int
        } else {
            0int
        }
    }
}

/// How many byte values occur at all.
pub fn unique_bytes(counts: &[u64]) -> (r: usize)
    ensures
        r == unique_of(counts@, counts@.len() as int),
{
    let mut n: usize = 0;
    let mut i: usize = 0;
    while i < counts.len()
        invariant
            i <= counts@.len(),
            n == unique_of(counts@, i as int),
            n <= i,
        decreases counts@.len() - i,
    {
        if counts[i] != 0 {
            n = n + 1;
        }
        i = i + 1;
    }
    n
}

/// The most frequent byte among the first `n` values, the lowest one on a
/// tie, with its count; `None` while none of them occurs.
pub open spec fn most_common_of(counts: Seq<u64>, n: int) -> Option<(u8, u64)>
    decreases n,
{
    if n <= 0 {
        None
    } else {
        let c = counts[n - 1];
        match most_common_of(counts, n - 1) {
            None => if c != 0 {
                Some(((n - 1) as u8, c))
            } else {
                None
            },
            Some((b, m)) => if c > m {
                Some(((n - 1) as u8, c))
            } else {
                Some((b, m))
            },
        }
    }
}

/// The most frequent byte value and its count; see [`most_common_of`].
pub fn most_common(counts: &[u64]) -> (r: Option<(u8, u64)>)
    requires
        counts@.len() <= 256,
    ensures
        r == most_common_of(counts@, counts@.len() as int),
{
    let mut best: Option<(u8, u64)> = None;
    let mut i: usize = 0;
    while i < counts.len()
        invariant
            i <= counts@.len() <= 256,
            best == most_common_of(counts@, i as int),
        decreases counts@.len() - i,
    {
        let c = counts[i];
        match best {
            None => {
                if c != 0 {
                    best = Some((i as u8, c));
                }
            },
            Some((_, m)) => {
                if c > m {
                    best = Some((i as u8, c));
                }
            },
        }
        i = i + 1;
    }
    best
}

} // verus!
