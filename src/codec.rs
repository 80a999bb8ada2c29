//! Byte-level wire format of intents and command frames.
//!
//! Intents are one tag byte each (0 = move left, 1 = move right, 2 = jump).
//! A command frame is `[owner][intent count][one tag per intent]`.

use std::collections::VecDeque;
use vstd::prelude::*;

verus! {

/// Bytes are written to the back of the buffer and consumed from its front.
pub type Buffer = VecDeque<u8>;

/// Identifier that the server assigns to each participant.
pub type ClientId = u8;

/// Types that travel over the wire.
pub trait NetType: Sized {
    /// The bytes that encode this value.
    spec fn wire(&self) -> Seq<u8>;

    /// The value is one that decoding can produce: every count fits in one
    /// byte and no derived data is stale.
    spec fn sound(&self) -> bool;

    /// Appends the encoding of `self` to the back of `buffer`. A count above
    /// 255 is written modulo 256, so such a value does not decode back.
    fn to_bytes(&self, buffer: &mut Buffer)
        ensures
            final(buffer)@ == old(buffer)@ + self.wire(),
    ;

    /// Consumes one encoded value from the front of `buffer`. On success the
    /// value is sound and its encoding was the front of the buffer. On failure
    /// no sound value has an encoding at the front of the buffer, and what is
    /// left is a suffix of it.
    fn from_bytes(buffer: &mut Buffer) -> (r: Result<Self, ()>)
        ensures
            match r {
                Ok(v) => v.sound() && old(buffer)@ == v.wire() + final(buffer)@,
                Err(_) => {
                    &&& forall|v: Self| #[trigger]
                        v.sound() ==> !v.wire().is_prefix_of(old(buffer)@)
                    &&& final(buffer)@.len() <= old(buffer)@.len()
                    &&& final(buffer)@ == old(buffer)@.subrange(
                        old(buffer)@.len() - final(buffer)@.len(),
                        old(buffer)@.len() as int,
                    )
                },
            },
    ;
}

/// Every action a player may take in one tick.
#[derive(Clone, Copy, Debug, PartialEq, Eq, Structural)]
pub enum PlayerIntent {
    /// Move to the left.
    MoveLeft,
    /// Move to the right.
    MoveRight,
    /// Jump, when standing on the ground.
    Jump,
}

impl PlayerIntent {
    /// The tag byte of the intent.
    pub open spec fn tag(self) -> u8 {
        match self {
            PlayerIntent::MoveLeft => 0,
            PlayerIntent::MoveRight => 1,
            PlayerIntent::Jump => 2,
        }
    }
}

/// The tag bytes of a list of intents, in order.
pub open spec fn intents_wire(s: Seq<PlayerIntent>) -> Seq<u8> {
    s.map_values(|i: PlayerIntent| i.tag())
}

impl NetType for PlayerIntent {
    open spec fn wire(&self) -> Seq<u8> {
        seq![self.tag()]
    }

    open spec fn sound(&self) -> bool {
        true
    }

    fn to_bytes(&self, buffer: &mut Buffer) {
        let tag: u8 = match self {
            PlayerIntent::MoveLeft => 0,
            PlayerIntent::MoveRight => 1,
            PlayerIntent::Jump => 2,
        };
        buffer.push_back(tag);
    }

    fn from_bytes(buffer: &mut Buffer) -> (r: Result<Self, ()>) {
        let ghost input = buffer@;
        let tag = match buffer.pop_front() {
            Some(tag) => tag,
            None => {
                assert forall|v: PlayerIntent| v.sound() implies !v.wire().is_prefix_of(input) by {
                    assert(v.wire().len() == 1);
                }
                assert(buffer@ =~= input.subrange(0, 0));
                return Err(());
            },
        };
        match tag {
            0 => Ok(PlayerIntent::MoveLeft),
            1 => Ok(PlayerIntent::MoveRight),
            2 => Ok(PlayerIntent::Jump),
            _ => {
                assert forall|v: PlayerIntent| v.sound() implies !v.wire().is_prefix_of(input) by {
                    if v.wire().is_prefix_of(input) {
                        assert(v.wire()[0] == input[0]);
                    }
                }
                Err(())
            },
        }
    }
}

/// The parts of a command frame, as values.
pub struct FrameView {
    pub owner: ClientId,
    pub intents: Seq<PlayerIntent>,
}

impl FrameView {
    /// Owner byte, intent count byte (modulo 256), then one tag per intent.
    pub open spec fn wire(self) -> Seq<u8> {
        seq![self.owner, self.intents.len() as u8] + intents_wire(self.intents)
    }

    /// The intent count fits in one byte.
    pub open spec fn fits(self) -> bool {
        self.intents.len() <= 255
    }
}

/// One participant's ordered intents for a single tick.
pub struct CommandFrame {
    pub owner: ClientId,
    pub intents: Vec<PlayerIntent>,
}

impl View for CommandFrame {
    type V = FrameView;

    open spec fn view(&self) -> FrameView {
        FrameView { owner: self.owner, intents: self.intents@ }
    }
}

impl Clone for CommandFrame {
    fn clone(&self) -> (r: Self)
        ensures
            r@ == self@,
    {
        let intents = self.intents.clone();
        assert(intents@ =~= self.intents@);
        CommandFrame { owner: self.owner, intents }
    }
}

impl CommandFrame {
    /// Appends to `input` the bytes that a tick checksum reads for this frame:
    /// the same bytes as its encoding.
    pub fn update_hasher(&self, input: &mut Vec<u8>)
        ensures
            final(input)@ == old(input)@ + self@.wire(),
    {
        input.push(self.owner);
        input.push(self.intents.len() as u8);
        let ghost start = input@;
        let mut i: usize = 0;
        while i < self.intents.len()
            invariant
                i <= self.intents.len(),
                input@ == start + intents_wire(self.intents@.subrange(0, i as int)),
            decreases self.intents.len() - i,
        {
            let tag: u8 = match self.intents[i] {
                PlayerIntent::MoveLeft => 0,
                PlayerIntent::MoveRight => 1,
                PlayerIntent::Jump => 2,
            };
            input.push(tag);
            i = i + 1;
            assert(intents_wire(self.intents@.subrange(0, i as int)) =~= intents_wire(
                self.intents@.subrange(0, i - 1),
            ).push(tag));
        }
        assert(self.intents@.subrange(0, i as int) =~= self.intents@);
        assert(input@ =~= old(input)@ + self@.wire());
    }
}

impl NetType for CommandFrame {
    open spec fn wire(&self) -> Seq<u8> {
        self@.wire()
    }

    open spec fn sound(&self) -> bool {
        self@.fits()
    }

    fn to_bytes(&self, buffer: &mut Buffer) {
        buffer.push_back(self.owner);
        buffer.push_back(self.intents.len() as u8);
        let ghost start = buffer@;
        let mut i: usize = 0;
        while i < self.intents.len()
            invariant
                i <= self.intents.len(),
                buffer@ == start + intents_wire(self.intents@.subrange(0, i as int)),
            decreases self.intents.len() - i,
        {
            self.intents[i].to_bytes(buffer);
            i = i + 1;
            assert(intents_wire(self.intents@.subrange(0, i as int)) =~= intents_wire(
                self.intents@.subrange(0, i - 1),
            ).push(self.intents@[i - 1].tag()));
        }
        assert(self.intents@.subrange(0, i as int) =~= self.intents@);
        assert(buffer@ =~= old(buffer)@ + self@.wire());
    }

    fn from_bytes(buffer: &mut Buffer) -> (r: Result<Self, ()>) {
        let ghost input = buffer@;
        let owner = match buffer.pop_front() {
            Some(b) => b,
            None => {
                assert forall|v: CommandFrame| v.sound() implies !v.wire().is_prefix_of(input) by {
                    assert(v.wire().len() >= 2);
                }
                assert(buffer@ =~= input.subrange(0, 0));
                return Err(());
            },
        };
        let len = match buffer.pop_front() {
            Some(b) => b,
            None => {
                assert forall|v: CommandFrame| v.sound() implies !v.wire().is_prefix_of(input) by {
                    assert(v.wire().len() >= 2);
                }
                assert(buffer@ =~= input.subrange(1, 1));
                return Err(());
            },
        };
        let mut intents: Vec<PlayerIntent> = Vec::new();
        let mut i: u8 = 0;
        while i < len
            invariant
                i <= len,
                input == old(buffer)@,
                intents@.len() == i,
                input == seq![owner, len] + intents_wire(intents@) + buffer@,
            decreases len - i,
        {
            let ghost before = buffer@;
            match PlayerIntent::from_bytes(buffer) {
                Ok(intent) => {
                    intents.push(intent);
                    assert(intents_wire(intents@) =~= intents_wire(intents@.drop_last()).push(
                        intent.tag(),
                    ));
                    assert(input =~= seq![owner, len] + intents_wire(intents@) + buffer@);
                },
                Err(()) => {
                    let ghost done = intents@;
                    assert forall|v: CommandFrame| v.sound() implies !v.wire().is_prefix_of(
                        input,
                    ) by {
                        if v.wire().is_prefix_of(input) {
                            let pre = seq![owner, len] + intents_wire(done);
                            assert(input[1] == v.wire()[1]);
                            assert(v.wire()[1] == v.intents@.len() as u8);
                            assert(v.intents@.len() == len);
                            let w = v.intents@[i as int];
                            assert(pre.len() == 2 + i);
                            assert(input == pre + before);
                            assert(input[pre.len() as int] == before[0]);
                            assert(intents_wire(v.intents@)[i as int] == w.tag());
                            assert(v.wire()[pre.len() as int] == w.tag());
                            assert(input[pre.len() as int] == v.wire()[pre.len() as int]);
                            assert(w.wire() =~= before.subrange(0, 1));
                            assert(w.sound());
                            assert(w.wire().is_prefix_of(before));
                        }
                    }
                    let ghost pre = seq![owner, len] + intents_wire(done);
                    assert(input == pre + before);
                    assert(buffer@ == before.subrange(
                        before.len() - buffer@.len(),
                        before.len() as int,
                    ));
                    assert(buffer@ =~= input.subrange(
                        input.len() - buffer@.len(),
                        input.len() as int,
                    ));
                    return Err(());
                },
            }
            i = i + 1;
        }
        let frame = CommandFrame { owner, intents };
        assert(input =~= frame.wire() + buffer@);
        Ok(frame)
    }
}

/// Every byte is the tag of an intent.
pub open spec fn all_tags(bytes: Seq<u8>) -> bool {
    forall|j: int| 0 <= j < bytes.len() ==> #[trigger] bytes[j] <= 2
}

/// The intents whose tags are `tags`, if every byte is a tag.
pub fn intents_from_tags(tags: &Vec<u8>) -> (r: Option<Vec<PlayerIntent>>)
    ensures
        r is Some <==> all_tags(tags@),
        r matches Some(v) ==> intents_wire(v@) == tags@,
{
    let mut intents: Vec<PlayerIntent> = Vec::new();
    let mut j: usize = 0;
    while j < tags.len()
        invariant
            j <= tags@.len(),
            intents_wire(intents@) == tags@.subrange(0, j as int),
            all_tags(tags@.subrange(0, j as int)),
        decreases tags.len() - j,
    {
        let intent = match tags[j] {
            0 => PlayerIntent::MoveLeft,
            1 => PlayerIntent::MoveRight,
            2 => PlayerIntent::Jump,
            _ => {
                assert(!(tags@[j as int] <= 2));
                return None;
            },
        };
        assert(intent.tag() == tags@[j as int]);
        let ghost before = intents@;
        intents.push(intent);
        j = j + 1;
        assert(intents_wire(intents@) =~= intents_wire(before).push(intent.tag()));
        assert(tags@.subrange(0, j as int) =~= tags@.subrange(0, j - 1).push(tags@[j - 1]));
        assert(intents_wire(intents@) =~= tags@.subrange(0, j as int));
        assert(all_tags(tags@.subrange(0, j as int))) by {
            assert forall|k: int| 0 <= k < j implies #[trigger] tags@.subrange(0, j as int)[k]
                <= 2 by {
                if k < j - 1 {
                    assert(tags@.subrange(0, j as int)[k] == tags@.subrange(0, j - 1)[k]);
                }
            }
        }
    }
    assert(tags@.subrange(0, j as int) =~= tags@);
    Some(intents)
}

/// Rebuilds the frames that arrive as a list of client identifiers and, for
/// each of them at the same position, the tag bytes of its intents. Fails
/// when the two lists differ in length or a byte is no intent's tag.
pub fn frames_from_parts(ids: &Vec<ClientId>, intents: &Vec<Vec<u8>>) -> (r: Result<
    Vec<CommandFrame>,
    (),
>)
    ensures
        r is Ok <==> ids@.len() == intents@.len() && forall|i: int|
            0 <= i < intents@.len() ==> all_tags(#[trigger] intents@[i]@),
        r matches Ok(frames) ==> {
            &&& frames@.len() == ids@.len()
            &&& forall|i: int|
                0 <= i < ids@.len() ==> (#[trigger] frames@[i]).owner == ids@[i]
                    && intents_wire(frames@[i].intents@) == intents@[i]@
        },
{
    if ids.len() != intents.len() {
        return Err(());
    }
    let mut frames: Vec<CommandFrame> = Vec::new();
    let mut i: usize = 0;
    while i < ids.len()
        invariant
            ids@.len() == intents@.len(),
            i <= ids@.len(),
            frames@.len() == i,
            forall|k: int| 0 <= k < i ==> all_tags(#[trigger] intents@[k]@),
            forall|k: int|
                0 <= k < i ==> (#[trigger] frames@[k]).owner == ids@[k] && intents_wire(
                    frames@[k].intents@,
                ) == intents@[k]@,
        decreases ids.len() - i,
    {
        match intents_from_tags(&intents[i]) {
            Some(v) => {
                frames.push(CommandFrame { owner: ids[i], intents: v });
            },
            None => {
                return Err(());
            },
        }
        i = i + 1;
    }
    Ok(frames)
}

/// Round trip of intents: the encoding of an intent, followed by any bytes,
/// starts with the encoding of that intent and of no other.
pub proof fn lemma_intent_round_trip(v: PlayerIntent, w: PlayerIntent, rest: Seq<u8>)
    requires
        w.wire().is_prefix_of(v.wire() + rest),
    ensures
        w == v,
{
    assert(w.wire()[0] == (v.wire() + rest)[0]);
}

/// The tag bytes of two intent lists that agree position by position are
/// those of the same list.
proof fn lemma_tags_determine_intents(a: Seq<PlayerIntent>, b: Seq<PlayerIntent>)
    requires
        a.len() == b.len(),
        intents_wire(a) == intents_wire(b),
    ensures
        a == b,
{
    assert forall|j: int| 0 <= j < a.len() implies a[j] == b[j] by {
        assert(intents_wire(a)[j] == intents_wire(b)[j]);
        assert(intents_wire(a)[j] == a[j].tag());
        assert(intents_wire(b)[j] == b[j].tag());
    }
    assert(a =~= b);
}

/// A frame whose intent count fits in a byte is read back from its
/// encoding followed by any bytes: no other such frame's encoding starts it.
pub proof fn lemma_frame_wire_unique(f: FrameView, g: FrameView, rest: Seq<u8>)
    requires
        f.fits(),
        g.fits(),
        g.wire().is_prefix_of(f.wire() + rest),
    ensures
        g == f,
{
    let input = f.wire() + rest;
    assert(g.wire()[0] == input[0]);
    assert(g.wire()[1] == input[1]);
    assert(g.intents.len() == f.intents.len());
    let n = g.intents.len() as int;
    assert forall|j: int| 0 <= j < n implies intents_wire(g.intents)[j] == intents_wire(
        f.intents,
    )[j] by {
        assert(g.wire()[2 + j] == input[2 + j]);
    }
    assert(intents_wire(g.intents) =~= intents_wire(f.intents));
    lemma_tags_determine_intents(g.intents, f.intents);
}

/// Round trip of command frames: the encoding of a frame whose intent count
/// fits in a byte, followed by any bytes, starts with the encoding of that
/// frame (owner and intents in order) and of no other.
pub proof fn lemma_frame_round_trip(f: CommandFrame, g: CommandFrame, rest: Seq<u8>)
    requires
        f.sound(),
        g.sound(),
        g.wire().is_prefix_of(f.wire() + rest),
    ensures
        g@ == f@,
{
    lemma_frame_wire_unique(f@, g@, rest);
}

} // verus!
