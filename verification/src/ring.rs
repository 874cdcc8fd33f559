//! The bounded, drop-oldest buffer of raw captured frames.

use vstd::prelude::*;

verus! {

/// The mathematical image of a vector of raw frames: each frame as its byte
/// sequence.
pub open spec fn frame_views(s: Seq<Vec<u8>>) -> Seq<Seq<u8>> {
    s.map_values(|f: Vec<u8>| f@)
}

/// Appending a frame appends its view.
proof fn lemma_frame_views_push(s: Seq<Vec<u8>>, x: Vec<u8>)
    ensures
        frame_views(s.push(x)) == frame_views(s).push(x@),
{
    assert(frame_views(s.push(x)) =~= frame_views(s).push(x@));
}

/// Removing the head removes the head view.
proof fn lemma_frame_views_remove_head(s: Seq<Vec<u8>>)
    requires
        s.len() > 0,
    ensures
        frame_views(s.remove(0)) == frame_views(s).skip(1),
{
    assert(frame_views(s.remove(0)) =~= frame_views(s).skip(1));
}

/// A bounded FIFO of raw frames. When full, a push evicts exactly the oldest
/// entry; a drain pops from the head, oldest first. One producer and one
/// consumer share it under a single lock held by the caller around each call.
pub struct FrameRingBuffer {
    frames: Vec<Vec<u8>>,
    capacity: usize,
}

impl View for FrameRingBuffer {
    type V = Seq<Seq<u8>>;

    closed spec fn view(&self) -> Seq<Seq<u8>> {
        frame_views(self.frames@)
    }
}

/// What one drop-oldest push leaves in a buffer of capacity `cap`.
pub open spec fn pushed(s: Seq<Seq<u8>>, cap: int, f: Seq<u8>) -> Seq<Seq<u8>> {
    if s.len() < cap {
        s.push(f)
    } else {
        s.skip(s.len() - cap + 1).push(f)
    }
}

/// What a run of drop-oldest pushes leaves, first frame pushed first.
pub open spec fn pushed_all(s: Seq<Seq<u8>>, cap: int, fs: Seq<Seq<u8>>) -> Seq<Seq<u8>>
    decreases fs.len(),
{
    if fs.len() == 0 {
        s
    } else {
        pushed_all(pushed(s, cap, fs[0]), cap, fs.skip(1))
    }
}

impl FrameRingBuffer {
    /// The fixed capacity chosen at construction.
    pub closed spec fn cap(&self) -> int {
        self.capacity as int
    }

    /// Never holds more frames than its capacity.
    pub open spec fn wf(&self) -> bool {
        self@.len() <= self.cap() && 1 <= self.cap()
    }

    /// An empty buffer of the given capacity.
    pub fn new(capacity: usize) -> (r: Self)
        requires
            1 <= capacity,
        ensures
            r.wf(),
            r@ == Seq::<Seq<u8>>::empty(),
            r.cap() == capacity,
    {
        let r = FrameRingBuffer { frames: Vec::new(), capacity };
        proof {
            assert(r@ =~= Seq::<Seq<u8>>::empty());
        }
        r
    }

    /// How many frames the buffer holds now.
    pub fn len(&self) -> (n: usize)
        ensures
            n == self@.len(),
    {
        self.frames.len()
    }

    /// The fixed capacity.
    pub fn capacity(&self) -> (n: usize)
        ensures
            n == self.cap(),
    {
        self.capacity
    }

    /// Appends a frame at the tail; at capacity, first evicts exactly the
    /// oldest entry. Capture never waits for the consumer.
    pub fn push(&mut self, frame: Vec<u8>)
        requires
            old(self).wf(),
        ensures
            final(self).wf(),
            final(self).cap() == old(self).cap(),
            final(self)@ == pushed(old(self)@, old(self).cap(), frame@),
    {
        if self.frames.len() >= self.capacity {
            let ghost before = self.frames@;
            let _oldest = self.frames.remove(0);
            proof {
                lemma_frame_views_remove_head(before);
            }
        }
        let ghost mid = self.frames@;
        self.frames.push(frame);
        proof {
            lemma_frame_views_push(mid, frame);
            assert(self@ =~= pushed(old(self)@, old(self).cap(), frame@));
        }
    }

    /// Removes and returns up to `batch` frames from the head, oldest first,
    /// in capture order; the rest stay, order kept.
    pub fn drain(&mut self, batch: usize) -> (out: Vec<Vec<u8>>)
        requires
            old(self).wf(),
        ensures
            final(self).wf(),
            final(self).cap() == old(self).cap(),
            out@.len() == if batch <= old(self)@.len() {
                batch as int
            } else {
                old(self)@.len() as int
            },
            frame_views(out@) == old(self)@.take(out@.len() as int),
            final(self)@ == old(self)@.skip(out@.len() as int),
    {
        let k: usize = if batch < self.frames.len() {
            batch
        } else {
            self.frames.len()
        };
        let mut out: Vec<Vec<u8>> = Vec::new();
        proof {
            assert(frame_views(out@) =~= old(self)@.take(0));
            assert(self@ =~= old(self)@.skip(0));
        }
        let mut i: usize = 0;
        while i < k
            invariant
                i <= k,
                k as int == if batch <= old(self)@.len() {
                    batch as int
                } else {
                    old(self)@.len() as int
                },
                self.cap() == old(self).cap(),
                old(self).wf(),
                self@.len() == old(self)@.len() - i,
                out@.len() == i,
                frame_views(out@) == old(self)@.take(i as int),
                self@ == old(self)@.skip(i as int),
            decreases k - i,
        {
            let ghost before = self.frames@;
            let ghost out_before = out@;
            let f = self.frames.remove(0);
            out.push(f);
            proof {
                lemma_frame_views_remove_head(before);
                lemma_frame_views_push(out_before, f);
                assert(frame_views(before)[0] == f@);
                assert(f@ == old(self)@[i as int]);
                assert(frame_views(out@) =~= old(self)@.take(i as int + 1));
                assert(self@ =~= old(self)@.skip(i as int + 1));
            }
            i += 1;
        }
        out
    }
}

/// A run of pushes keeps the joined old-then-new frames, truncated at the
/// front to the capacity.
pub proof fn lemma_push_run(s: Seq<Seq<u8>>, cap: int, fs: Seq<Seq<u8>>)
    requires
        1 <= cap,
        s.len() <= cap,
    ensures
        pushed_all(s, cap, fs) == if s.len() + fs.len() <= cap {
            s + fs
        } else {
            (s + fs).skip(s.len() + fs.len() - cap)
        },
    decreases fs.len(),
{
    if fs.len() == 0 {
        assert(s + fs =~= s);
    } else {
        let s1 = pushed(s, cap, fs[0]);
        let fs1 = fs.skip(1);
        if s.len() < cap {
            assert(s1 == s.push(fs[0]));
            assert(s1 + fs1 =~= s + fs);
        } else {
            assert(s1 == s.skip(1).push(fs[0]));
            assert(s1 + fs1 =~= (s + fs).skip(1));
        }
        lemma_push_run(s1, cap, fs1);
        if s.len() + fs.len() <= cap {
            assert(pushed_all(s, cap, fs) =~= s + fs);
        } else if s.len() < cap {
            assert(pushed_all(s1, cap, fs1) == (s1 + fs1).skip(s1.len() + fs1.len() - cap));
            assert((s1 + fs1).skip(s1.len() + fs1.len() - cap) =~= (s + fs).skip(
                s.len() + fs.len() - cap,
            ));
        } else {
            if s1.len() + fs1.len() <= cap {
                assert(pushed_all(s1, cap, fs1) == s1 + fs1);
                assert(s1 + fs1 =~= (s + fs).skip(s.len() + fs.len() - cap));
            } else {
                assert(pushed_all(s1, cap, fs1) == (s1 + fs1).skip(s1.len() + fs1.len() - cap));
                assert(((s + fs).skip(1)).skip(s1.len() + fs1.len() - cap) =~= (s + fs).skip(
                    s.len() + fs.len() - cap,
                ));
            }
        }
    }
}

/// Law (drop-oldest): pushing `cap + 1` frames into an empty buffer of
/// capacity `cap` leaves exactly the most recent `cap` frames; only the
/// oldest was evicted.
pub proof fn lemma_drop_oldest(cap: int, fs: Seq<Seq<u8>>)
    requires
        1 <= cap,
        fs.len() == cap + 1,
    ensures
        pushed_all(Seq::empty(), cap, fs) == fs.skip(1),
{
    lemma_push_run(Seq::empty(), cap, fs);
    assert(Seq::<Seq<u8>>::empty() + fs =~= fs);
}

} // verus!
