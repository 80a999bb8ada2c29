//! Ticks: the command frames of one simulation step, their wire format and
//! their SHA-256 checksum.
//!
//! A tick is `[index: 8 bytes little-endian][frame count][frames...]`. The
//! checksum is the SHA-256 digest of exactly these bytes; it is never sent,
//! and decoding recomputes it.

use crate::codec::{lemma_frame_wire_unique, Buffer, CommandFrame, FrameView, NetType};
use sha2::Digest;
use vstd::prelude::*;

verus! {

/// The SHA-256 digest of a byte sequence.
pub uninterp spec fn sha256_of(data: Seq<u8>) -> Seq<u8>;

/// Relies on sha2's `Sha256::digest` (from the `Digest` trait): the SHA-256
/// digest of `data`, which depends on those bytes alone.
#[verifier::external_body]
fn sha256(data: &Vec<u8>) -> (r: [u8; 32])
    ensures
        r@ == sha256_of(data@),
{
    sha2::Sha256::digest(data).into()
}

/// The eight little-endian bytes of `n`.
pub open spec fn le_bytes(n: u64) -> Seq<u8> {
    seq![
        n as u8,
        (n >> 8u64) as u8,
        (n >> 16u64) as u8,
        (n >> 24u64) as u8,
        (n >> 32u64) as u8,
        (n >> 40u64) as u8,
        (n >> 48u64) as u8,
        (n >> 56u64) as u8,
    ]
}

/// The encodings of a list of frames, one after another.
pub open spec fn frames_wire(s: Seq<FrameView>) -> Seq<u8>
    decreases s.len(),
{
    if s.len() == 0 {
        Seq::empty()
    } else {
        s[0].wire() + frames_wire(s.skip(1))
    }
}

/// Index, frame count (modulo 256), then every frame: the bytes that both
/// the wire format and the checksum use.
pub open spec fn tick_bytes(index: u64, frames: Seq<FrameView>) -> Seq<u8> {
    le_bytes(index) + seq![frames.len() as u8] + frames_wire(frames)
}

/// The checksum of a tick with this index and these frames.
pub open spec fn checksum_of(index: u64, frames: Seq<FrameView>) -> Seq<u8> {
    sha256_of(tick_bytes(index, frames))
}

/// The views of a list of command frames.
pub open spec fn frame_views(s: Seq<CommandFrame>) -> Seq<FrameView> {
    s.map_values(|f: CommandFrame| f@)
}

/// The parts of a tick, as values.
pub struct TickView {
    pub index: u64,
    pub frames: Seq<FrameView>,
    pub hash: Seq<u8>,
}

impl TickView {
    /// The hash is the checksum of the index and the frames.
    pub open spec fn hash_ok(self) -> bool {
        self.hash == checksum_of(self.index, self.frames)
    }

    /// The frame count and every intent count fit in one byte.
    pub open spec fn fits(self) -> bool {
        &&& self.frames.len() <= 255
        &&& forall|i: int| 0 <= i < self.frames.len() ==> #[trigger] self.frames[i].fits()
    }
}

/// An indexed list of command frames with its SHA-256 checksum.
pub struct Tick {
    pub index: u64,
    pub command_frames: Vec<CommandFrame>,
    pub hash: [u8; 32],
}

impl View for Tick {
    type V = TickView;

    open spec fn view(&self) -> TickView {
        TickView {
            index: self.index,
            frames: frame_views(self.command_frames@),
            hash: self.hash@,
        }
    }
}

impl Clone for Tick {
    fn clone(&self) -> (r: Self)
        ensures
            r@ == self@,
    {
        let mut frames: Vec<CommandFrame> = Vec::new();
        let mut i: usize = 0;
        while i < self.command_frames.len()
            invariant
                i <= self.command_frames.len(),
                frames@.len() == i,
                frame_views(frames@) =~= frame_views(self.command_frames@.subrange(0, i as int)),
            decreases self.command_frames.len() - i,
        {
            let ghost prev = frames@;
            let c = self.command_frames[i].clone();
            frames.push(c);
            i = i + 1;
            assert forall|j: int| 0 <= j < i implies #[trigger] frames@[j]@
                == self.command_frames@[j]@ by {
                if j < i - 1 {
                    assert(frame_views(prev)[j] == frame_views(
                        self.command_frames@.subrange(0, i - 1),
                    )[j]);
                }
            }
        }
        assert(self.command_frames@.subrange(0, i as int) =~= self.command_frames@);
        Tick { index: self.index, command_frames: frames, hash: self.hash }
    }
}

/// Appending one frame appends its encoding.
proof fn lemma_frames_wire_push(s: Seq<FrameView>, f: FrameView)
    ensures
        frames_wire(s.push(f)) == frames_wire(s) + f.wire(),
    decreases s.len(),
{
    if s.len() == 0 {
        assert(s.push(f).skip(1) =~= Seq::<FrameView>::empty());
        assert(frames_wire(s.push(f).skip(1)) =~= Seq::<u8>::empty());
        assert(frames_wire(s.push(f)) =~= f.wire());
    } else {
        assert(s.push(f).skip(1) =~= s.skip(1).push(f));
        lemma_frames_wire_push(s.skip(1), f);
        assert(frames_wire(s.push(f)) =~= frames_wire(s) + f.wire());
    }
}

/// The encodings of two lists of frames that fit, followed by any bytes, can
/// only agree when the lists and the bytes that follow agree.
proof fn lemma_frames_wire_unique(a: Seq<FrameView>, b: Seq<FrameView>, r1: Seq<u8>, r2: Seq<u8>)
    requires
        a.len() == b.len(),
        forall|i: int| 0 <= i < a.len() ==> #[trigger] a[i].fits(),
        forall|i: int| 0 <= i < b.len() ==> #[trigger] b[i].fits(),
        frames_wire(a) + r1 == frames_wire(b) + r2,
    ensures
        a == b,
        r1 == r2,
    decreases a.len(),
{
    if a.len() == 0 {
        assert(r1 =~= frames_wire(a) + r1);
        assert(r2 =~= frames_wire(b) + r2);
        assert(a =~= b);
    } else {
        let x = frames_wire(a.skip(1)) + r1;
        let y = frames_wire(b.skip(1)) + r2;
        assert(frames_wire(a) + r1 =~= a[0].wire() + x);
        assert(frames_wire(b) + r2 =~= b[0].wire() + y);
        assert(a[0].fits());
        assert(b[0].fits());
        assert(b[0].wire().is_prefix_of(a[0].wire() + x)) by {
            assert((a[0].wire() + x) =~= b[0].wire() + y);
        }
        lemma_frame_wire_unique(a[0], b[0], x);
        assert(x =~= (a[0].wire() + x).skip(a[0].wire().len() as int));
        assert(y =~= (b[0].wire() + y).skip(b[0].wire().len() as int));
        lemma_frames_wire_unique(a.skip(1), b.skip(1), r1, r2);
        assert(a =~= seq![a[0]] + a.skip(1));
        assert(b =~= seq![b[0]] + b.skip(1));
    }
}

/// Eight bytes read back as a little-endian integer give those bytes again.
proof fn lemma_le_bytes_of(b0: u8, b1: u8, b2: u8, b3: u8, b4: u8, b5: u8, b6: u8, b7: u8)
    ensures
        le_bytes(le_value(b0, b1, b2, b3, b4, b5, b6, b7)) == seq![b0, b1, b2, b3, b4, b5, b6, b7],
{
    let n = le_value(b0, b1, b2, b3, b4, b5, b6, b7);
    assert(n as u8 == b0 && (n >> 8u64) as u8 == b1 && (n >> 16u64) as u8 == b2 && (n
        >> 24u64) as u8 == b3) by (bit_vector)
        requires
            n == (b0 as u64) | ((b1 as u64) << 8u64) | ((b2 as u64) << 16u64) | ((b3 as u64)
                << 24u64) | ((b4 as u64) << 32u64) | ((b5 as u64) << 40u64) | ((b6 as u64)
                << 48u64) | ((b7 as u64) << 56u64),
    ;
    assert((n >> 32u64) as u8 == b4 && (n >> 40u64) as u8 == b5 && (n >> 48u64) as u8 == b6
        && (n >> 56u64) as u8 == b7) by (bit_vector)
        requires
            n == (b0 as u64) | ((b1 as u64) << 8u64) | ((b2 as u64) << 16u64) | ((b3 as u64)
                << 24u64) | ((b4 as u64) << 32u64) | ((b5 as u64) << 40u64) | ((b6 as u64)
                << 48u64) | ((b7 as u64) << 56u64),
    ;
    assert(le_bytes(n) =~= seq![b0, b1, b2, b3, b4, b5, b6, b7]);
}

/// Two integers with the same little-endian bytes are equal.
proof fn lemma_le_bytes_unique(a: u64, b: u64)
    requires
        le_bytes(a) == le_bytes(b),
    ensures
        a == b,
{
    assert(le_bytes(a)[0] == le_bytes(b)[0]);
    assert(le_bytes(a)[1] == le_bytes(b)[1]);
    assert(le_bytes(a)[2] == le_bytes(b)[2]);
    assert(le_bytes(a)[3] == le_bytes(b)[3]);
    assert(le_bytes(a)[4] == le_bytes(b)[4]);
    assert(le_bytes(a)[5] == le_bytes(b)[5]);
    assert(le_bytes(a)[6] == le_bytes(b)[6]);
    assert(le_bytes(a)[7] == le_bytes(b)[7]);
    assert(a == b) by (bit_vector)
        requires
            a as u8 == b as u8,
            (a >> 8u64) as u8 == (b >> 8u64) as u8,
            (a >> 16u64) as u8 == (b >> 16u64) as u8,
            (a >> 24u64) as u8 == (b >> 24u64) as u8,
            (a >> 32u64) as u8 == (b >> 32u64) as u8,
            (a >> 40u64) as u8 == (b >> 40u64) as u8,
            (a >> 48u64) as u8 == (b >> 48u64) as u8,
            (a >> 56u64) as u8 == (b >> 56u64) as u8,
    ;
}

/// The integer whose little-endian bytes are the eight given ones.
pub open spec fn le_value(b0: u8, b1: u8, b2: u8, b3: u8, b4: u8, b5: u8, b6: u8, b7: u8) -> u64 {
    (b0 as u64) | ((b1 as u64) << 8u64) | ((b2 as u64) << 16u64) | ((b3 as u64) << 24u64) | ((
    b4 as u64) << 32u64) | ((b5 as u64) << 40u64) | ((b6 as u64) << 48u64) | ((b7 as u64)
        << 56u64)
}

/// The encoding of two lists of frames one after the other.
proof fn lemma_frames_wire_append(a: Seq<FrameView>, b: Seq<FrameView>)
    ensures
        frames_wire(a + b) == frames_wire(a) + frames_wire(b),
    decreases a.len(),
{
    if a.len() == 0 {
        assert(a + b =~= b);
        assert(frames_wire(a) + frames_wire(b) =~= frames_wire(b));
    } else {
        assert((a + b).skip(1) =~= a.skip(1) + b);
        assert((a + b)[0] == a[0]);
        lemma_frames_wire_append(a.skip(1), b);
        assert(frames_wire(a + b) =~= frames_wire(a) + frames_wire(b));
    }
}

/// The views of the first `i + 1` frames extend those of the first `i`.
pub(crate) proof fn lemma_frame_views_step(s: Seq<CommandFrame>, i: int)
    requires
        0 <= i < s.len(),
    ensures
        frame_views(s.subrange(0, i + 1)) == frame_views(s.subrange(0, i)).push(s[i]@),
{
    assert(frame_views(s.subrange(0, i + 1)) =~= frame_views(s.subrange(0, i)).push(s[i]@));
}

/// The bytes that the checksum of a tick reads.
fn checksum_input(index: u64, frames: &Vec<CommandFrame>) -> (r: Vec<u8>)
    ensures
        r@ == tick_bytes(index, frame_views(frames@)),
{
    let mut input: Vec<u8> = Vec::new();
    input.push(index as u8);
    input.push((index >> 8) as u8);
    input.push((index >> 16) as u8);
    input.push((index >> 24) as u8);
    input.push((index >> 32) as u8);
    input.push((index >> 40) as u8);
    input.push((index >> 48) as u8);
    input.push((index >> 56) as u8);
    input.push(frames.len() as u8);
    let ghost head = input@;
    assert(head =~= le_bytes(index) + seq![frames@.len() as u8]);
    let mut i: usize = 0;
    while i < frames.len()
        invariant
            i <= frames.len(),
            head == le_bytes(index) + seq![frames@.len() as u8],
            input@ == head + frames_wire(frame_views(frames@.subrange(0, i as int))),
        decreases frames.len() - i,
    {
        frames[i].update_hasher(&mut input);
        proof {
            lemma_frame_views_step(frames@, i as int);
            lemma_frames_wire_push(frame_views(frames@.subrange(0, i as int)), frames@[i as int]@);
        }
        i = i + 1;
        assert(input@ =~= head + frames_wire(frame_views(frames@.subrange(0, i as int))));
    }
    assert(frames@.subrange(0, i as int) =~= frames@);
    assert(frame_views(frames@).len() == frames@.len());
    input
}

impl Tick {
    /// A tick with these frames and the checksum of its index and frames.
    pub fn new(index: u64, command_frames: Vec<CommandFrame>) -> (r: Self)
        ensures
            r.index == index,
            r.command_frames@ == command_frames@,
            r@.hash_ok(),
    {
        let input = checksum_input(index, &command_frames);
        let hash = sha256(&input);
        Tick { index, command_frames, hash }
    }

    /// Sets the checksum to that of the current index and frames.
    pub fn recalculate_hash(&mut self)
        ensures
            final(self).index == old(self).index,
            final(self).command_frames@ == old(self).command_frames@,
            final(self)@.hash_ok(),
    {
        let input = checksum_input(self.index, &self.command_frames);
        self.hash = sha256(&input);
    }
}

/// A sound tick whose encoding starts `input`, where `input` holds the
/// header and the first frames that were read, then `rest`: the next frame of
/// that tick is a sound frame whose encoding starts `rest`.
proof fn lemma_next_frame_at(u: Tick, index: u64, count: u8, done: Seq<FrameView>, rest: Seq<u8>)
    requires
        u.sound(),
        u.wire().is_prefix_of(le_bytes(index) + seq![count] + frames_wire(done) + rest),
        done.len() < count,
        forall|i: int| 0 <= i < done.len() ==> #[trigger] done[i].fits(),
    ensures
        u.command_frames@.len() > done.len(),
        u.command_frames@[done.len() as int].sound(),
        u.command_frames@[done.len() as int].wire().is_prefix_of(rest),
{
    let input = le_bytes(index) + seq![count] + frames_wire(done) + rest;
    let uf = u@.frames;
    assert(u.wire()[8] == input[8]);
    assert(uf.len() == count);
    let tail = input.subrange(u.wire().len() as int, input.len() as int);
    assert(input =~= u.wire() + tail);
    let k = done.len() as int;
    let a = uf.subrange(0, k);
    let b = uf.subrange(k, uf.len() as int);
    assert(uf =~= a + b);
    lemma_frames_wire_append(a, b);
    assert(input.skip(9) =~= frames_wire(done) + rest);
    assert(input.skip(9) =~= frames_wire(uf) + tail);
    assert(frames_wire(a) + (frames_wire(b) + tail) =~= frames_wire(done) + rest);
    assert(forall|i: int| 0 <= i < a.len() ==> #[trigger] a[i].fits()) by {
        assert forall|i: int| 0 <= i < a.len() implies #[trigger] a[i].fits() by {
            assert(a[i] == uf[i]);
        }
    }
    lemma_frames_wire_unique(a, done, frames_wire(b) + tail, rest);
    assert(b[0] == uf[k]);
    assert(frames_wire(b) =~= b[0].wire() + frames_wire(b.skip(1)));
    let v = u.command_frames@[k];
    assert(v@ == uf[k]);
    assert(uf[k].fits());
    assert(rest =~= v.wire() + (frames_wire(b.skip(1)) + tail));
}

/// Input shorter than nine bytes starts no tick's encoding.
proof fn lemma_short_input(input: Seq<u8>)
    requires
        input.len() < 9,
    ensures
        forall|u: Tick| #[trigger] u.sound() ==> !u.wire().is_prefix_of(input),
{
    assert forall|u: Tick| #[trigger] u.sound() implies !u.wire().is_prefix_of(input) by {
        assert(u.wire().len() >= 9);
    }
}

impl NetType for Tick {
    open spec fn wire(&self) -> Seq<u8> {
        tick_bytes(self.index, self@.frames)
    }

    open spec fn sound(&self) -> bool {
        self@.fits() && self@.hash_ok()
    }

    fn to_bytes(&self, buffer: &mut Buffer) {
        buffer.push_back(self.index as u8);
        buffer.push_back((self.index >> 8) as u8);
        buffer.push_back((self.index >> 16) as u8);
        buffer.push_back((self.index >> 24) as u8);
        buffer.push_back((self.index >> 32) as u8);
        buffer.push_back((self.index >> 40) as u8);
        buffer.push_back((self.index >> 48) as u8);
        buffer.push_back((self.index >> 56) as u8);
        buffer.push_back(self.command_frames.len() as u8);
        let ghost head = buffer@;
        assert(head =~= old(buffer)@ + le_bytes(self.index) + seq![
            self.command_frames@.len() as u8,
        ]);
        let mut i: usize = 0;
        while i < self.command_frames.len()
            invariant
                i <= self.command_frames.len(),
                head == old(buffer)@ + le_bytes(self.index) + seq![
                    self.command_frames@.len() as u8,
                ],
                buffer@ == head + frames_wire(
                    frame_views(self.command_frames@.subrange(0, i as int)),
                ),
            decreases self.command_frames.len() - i,
        {
            self.command_frames[i].to_bytes(buffer);
            proof {
                lemma_frame_views_step(self.command_frames@, i as int);
                lemma_frames_wire_push(
                    frame_views(self.command_frames@.subrange(0, i as int)),
                    self.command_frames@[i as int]@,
                );
            }
            i = i + 1;
            assert(buffer@ =~= head + frames_wire(
                frame_views(self.command_frames@.subrange(0, i as int)),
            ));
        }
        assert(self.command_frames@.subrange(0, i as int) =~= self.command_frames@);
        assert(buffer@ =~= old(buffer)@ + self.wire());
    }

    fn from_bytes(buffer: &mut Buffer) -> (r: Result<Self, ()>) {
        let ghost input = buffer@;
        let b0 = match buffer.pop_front() {
            Some(b) => b,
            None => {
                proof { lemma_short_input(input); }
                assert(buffer@ =~= input.subrange(input.len() as int, input.len() as int));
                return Err(());
            },
        };
        let b1 = match buffer.pop_front() {
            Some(b) => b,
            None => {
                proof { lemma_short_input(input); }
                assert(buffer@ =~= input.subrange(input.len() as int, input.len() as int));
                return Err(());
            },
        };
        let b2 = match buffer.pop_front() {
            Some(b) => b,
            None => {
                proof { lemma_short_input(input); }
                assert(buffer@ =~= input.subrange(input.len() as int, input.len() as int));
                return Err(());
            },
        };
        let b3 = match buffer.pop_front() {
            Some(b) => b,
            None => {
                proof { lemma_short_input(input); }
                assert(buffer@ =~= input.subrange(input.len() as int, input.len() as int));
                return Err(());
            },
        };
        let b4 = match buffer.pop_front() {
            Some(b) => b,
            None => {
                proof { lemma_short_input(input); }
                assert(buffer@ =~= input.subrange(input.len() as int, input.len() as int));
                return Err(());
            },
        };
        let b5 = match buffer.pop_front() {
            Some(b) => b,
            None => {
                proof { lemma_short_input(input); }
                assert(buffer@ =~= input.subrange(input.len() as int, input.len() as int));
                return Err(());
            },
        };
        let b6 = match buffer.pop_front() {
            Some(b) => b,
            None => {
                proof { lemma_short_input(input); }
                assert(buffer@ =~= input.subrange(input.len() as int, input.len() as int));
                return Err(());
            },
        };
        let b7 = match buffer.pop_front() {
            Some(b) => b,
            None => {
                proof { lemma_short_input(input); }
                assert(buffer@ =~= input.subrange(input.len() as int, input.len() as int));
                return Err(());
            },
        };
        let len = match buffer.pop_front() {
            Some(b) => b,
            None => {
                proof { lemma_short_input(input); }
                assert(buffer@ =~= input.subrange(input.len() as int, input.len() as int));
                return Err(());
            },
        };
        let index: u64 = (b0 as u64) | ((b1 as u64) << 8) | ((b2 as u64) << 16) | ((b3 as u64)
            << 24) | ((b4 as u64) << 32) | ((b5 as u64) << 40) | ((b6 as u64) << 48) | ((
        b7 as u64) << 56);
        proof {
            lemma_le_bytes_of(b0, b1, b2, b3, b4, b5, b6, b7);
            assert(index == le_value(b0, b1, b2, b3, b4, b5, b6, b7));
            assert(input =~= le_bytes(index) + seq![len] + buffer@);
        }
        let mut frames: Vec<CommandFrame> = Vec::new();
        let mut i: u8 = 0;
        while i < len
            invariant
                i <= len,
                input == old(buffer)@,
                frames@.len() == i,
                forall|j: int| 0 <= j < frames@.len() ==> #[trigger] frames@[j]@.fits(),
                input == le_bytes(index) + seq![len] + frames_wire(frame_views(frames@))
                    + buffer@,
            decreases len - i,
        {
            let ghost before = buffer@;
            let ghost done = frame_views(frames@);
            match CommandFrame::from_bytes(buffer) {
                Ok(frame) => {
                    frames.push(frame);
                    proof {
                        assert(frame_views(frames@) =~= done.push(frame@));
                        lemma_frames_wire_push(done, frame@);
                        assert(input =~= le_bytes(index) + seq![len] + frames_wire(
                            frame_views(frames@),
                        ) + buffer@);
                    }
                },
                Err(()) => {
                    assert forall|u: Tick| #[trigger] u.sound() implies !u.wire().is_prefix_of(
                        input,
                    ) by {
                        if u.wire().is_prefix_of(input) {
                            assert forall|j: int| 0 <= j < done.len() implies #[trigger] done[j].fits() by {
                                assert(done[j] == frames@[j]@);
                            }
                            lemma_next_frame_at(u, index, len, done, before);
                        }
                    }
                    let ghost pre = le_bytes(index) + seq![len] + frames_wire(done);
                    assert(input == pre + before);
                    assert(buffer@ =~= input.subrange(
                        input.len() - buffer@.len(),
                        input.len() as int,
                    ));
                    return Err(());
                },
            }
            i = i + 1;
        }
        let tick = Tick::new(index, frames);
        proof {
            assert(tick@.frames == frame_views(frames@));
            assert forall|j: int| 0 <= j < tick@.frames.len() implies #[trigger] tick@.frames[j].fits() by {
                assert(tick@.frames[j] == frames@[j]@);
            }
            assert(input =~= tick.wire() + buffer@);
        }
        Ok(tick)
    }
}

/// Round trip of ticks: the encoding of a sound tick (counts that fit in a
/// byte, checksum up to date), followed by any bytes, starts with the encoding
/// of no other sound tick; decoding gives back its index, its frames in order
/// and its checksum.
pub proof fn lemma_tick_round_trip(t: Tick, u: Tick, rest: Seq<u8>)
    requires
        t.sound(),
        u.sound(),
        u.wire().is_prefix_of(t.wire() + rest),
    ensures
        u@ == t@,
{
    let input = t.wire() + rest;
    let tail = input.subrange(u.wire().len() as int, input.len() as int);
    assert(input =~= u.wire() + tail);
    assert(le_bytes(u.index) =~= input.subrange(0, 8));
    assert(le_bytes(t.index) =~= input.subrange(0, 8));
    lemma_le_bytes_unique(u.index, t.index);
    assert(u.wire()[8] == input[8]);
    assert(u@.frames.len() == t@.frames.len());
    assert(input.skip(9) =~= frames_wire(t@.frames) + rest);
    assert(input.skip(9) =~= frames_wire(u@.frames) + tail);
    lemma_frames_wire_unique(t@.frames, u@.frames, rest, tail);
}

} // verus!
