//! The session state of one client: its players, its history of ticks and
//! the index of the last tick an authority confirmed, with the steps that
//! predict, merge, simulate and record a tick.

use crate::codec::{ClientId, CommandFrame, FrameView, PlayerIntent};
use crate::player::{after_intents, spawned, Player, Role};
use crate::tick::{frame_views, lemma_frame_views_step, Tick, TickView};
use vstd::prelude::*;

verus! {

/// Some entry of the table has key `k`.
pub open spec fn has_key(s: Seq<(ClientId, Player)>, k: ClientId) -> bool {
    exists|i: int| 0 <= i < s.len() && s[i].0 == k
}

/// No two entries of the table share a key.
pub open spec fn keys_unique(s: Seq<(ClientId, Player)>) -> bool {
    forall|i: int, j: int|
        0 <= i < s.len() && 0 <= j < s.len() && i != j ==> s[i].0 != s[j].0
}

/// The players of a table, by client identifier.
pub open spec fn table(s: Seq<(ClientId, Player)>) -> Map<ClientId, Player> {
    Map::new(
        |k: ClientId| has_key(s, k),
        |k: ClientId| s[choose|i: int| 0 <= i < s.len() && s[i].0 == k].1,
    )
}

/// Every player with its position recorded as last tick's.
pub open spec fn snapshot_all(m: Map<ClientId, Player>) -> Map<ClientId, Player> {
    m.map_values(|p: Player| p.snapshotted())
}

/// Every player after one tick of vertical motion.
pub open spec fn integrate_all(m: Map<ClientId, Player>) -> Map<ClientId, Player> {
    m.map_values(|p: Player| p.integrated())
}

/// The players after one frame: its owner's intents applied in order, to a
/// fresh remote player where the owner is not known yet.
pub open spec fn apply_frame(m: Map<ClientId, Player>, f: FrameView) -> Map<ClientId, Player> {
    let start = if m.contains_key(f.owner) {
        m[f.owner]
    } else {
        spawned(Role::Enemy)
    };
    m.insert(f.owner, after_intents(start, f.intents))
}

/// The players after a list of frames, applied in order.
pub open spec fn apply_frames(m: Map<ClientId, Player>, frames: Seq<FrameView>) -> Map<
    ClientId,
    Player,
>
    decreases frames.len(),
{
    if frames.len() == 0 {
        m
    } else {
        apply_frame(apply_frames(m, frames.drop_last()), frames.last())
    }
}

/// The players after one simulation step on a tick with these frames:
/// snapshot every player, apply the frames, then integrate every player.
pub open spec fn simulated(m: Map<ClientId, Player>, frames: Seq<FrameView>) -> Map<
    ClientId,
    Player,
> {
    integrate_all(apply_frames(snapshot_all(m), frames))
}

/// No two frames share an owner.
pub open spec fn owners_unique(frames: Seq<FrameView>) -> bool {
    forall|i: int, j: int|
        0 <= i < frames.len() && 0 <= j < frames.len() && i != j ==> frames[i].owner
            != frames[j].owner
}

/// The frames not owned by `id`.
pub open spec fn not_owned_by(id: ClientId) -> spec_fn(FrameView) -> bool {
    |f: FrameView| f.owner != id
}

/// The index of the tick predicted after this history.
pub open spec fn predicted_index(history: Seq<TickView>) -> int {
    if history.len() == 0 {
        0
    } else {
        history.last().index + 1
    }
}

/// The frames of the tick predicted after this history: every frame of the
/// last tick not owned by `id`, unchanged and in order, then the local frame.
pub open spec fn predicted_frames(
    history: Seq<TickView>,
    id: ClientId,
    intents: Seq<PlayerIntent>,
) -> Seq<FrameView> {
    let local = FrameView { owner: id, intents };
    if history.len() == 0 {
        seq![local]
    } else {
        history.last().frames.filter(not_owned_by(id)).push(local)
    }
}

/// The frames after one remote frame is merged in: one owned by `id` is
/// ignored; otherwise it replaces the frames of its owner, or is appended
/// where its owner has none.
pub open spec fn merge_frame(frames: Seq<FrameView>, f: FrameView, id: ClientId) -> Seq<FrameView> {
    if f.owner == id {
        frames
    } else if exists|i: int| 0 <= i < frames.len() && frames[i].owner == f.owner {
        frames.map_values(|g: FrameView| if g.owner == f.owner { f } else { g })
    } else {
        frames.push(f)
    }
}

/// The frames after a list of remote frames is merged in, in order.
pub open spec fn merge_frames(frames: Seq<FrameView>, inbound: Seq<FrameView>, id: ClientId) -> Seq<
    FrameView,
>
    decreases inbound.len(),
{
    if inbound.len() == 0 {
        frames
    } else {
        merge_frame(merge_frames(frames, inbound.drop_last(), id), inbound.last(), id)
    }
}

/// The intents that the local input gives, in order: jump, left, right.
pub open spec fn intents_of_keys(up: bool, left: bool, right: bool) -> Seq<PlayerIntent> {
    (if up { seq![PlayerIntent::Jump] } else { seq![] }) + (if left {
        seq![PlayerIntent::MoveLeft]
    } else {
        seq![]
    }) + (if right { seq![PlayerIntent::MoveRight] } else { seq![] })
}

/// The intents that the local input gives: jump when up is held, then move
/// left, then move right, each when its key is held.
pub fn intents_from_keys(up: bool, left: bool, right: bool) -> (r: Vec<PlayerIntent>)
    ensures
        r@ == intents_of_keys(up, left, right),
{
    let mut intents: Vec<PlayerIntent> = Vec::new();
    if up {
        intents.push(PlayerIntent::Jump);
    }
    if left {
        intents.push(PlayerIntent::MoveLeft);
    }
    if right {
        intents.push(PlayerIntent::MoveRight);
    }
    assert(intents@ =~= intents_of_keys(up, left, right));
    intents
}

proof fn lemma_table_at(s: Seq<(ClientId, Player)>, i: int)
    requires
        keys_unique(s),
        0 <= i < s.len(),
    ensures
        table(s).contains_key(s[i].0),
        table(s)[s[i].0] == s[i].1,
{
    let k = s[i].0;
    assert(has_key(s, k));
    let j = choose|j: int| 0 <= j < s.len() && s[j].0 == k;
    assert(j == i);
}

proof fn lemma_table_update(s: Seq<(ClientId, Player)>, i: int, p: Player)
    requires
        keys_unique(s),
        0 <= i < s.len(),
    ensures
        keys_unique(s.update(i, (s[i].0, p))),
        table(s.update(i, (s[i].0, p))) == table(s).insert(s[i].0, p),
{
    let t = s.update(i, (s[i].0, p));
    assert forall|k: ClientId| has_key(t, k) == has_key(s, k) by {
        if has_key(s, k) {
            let j = choose|j: int| 0 <= j < s.len() && s[j].0 == k;
            assert(t[j].0 == k);
        }
        if has_key(t, k) {
            let j = choose|j: int| 0 <= j < t.len() && t[j].0 == k;
            assert(s[j].0 == k);
        }
    }
    assert forall|k: ClientId| #[trigger] table(t).contains_key(k) implies table(t)[k] == table(
        s,
    ).insert(s[i].0, p)[k] by {
        let j = choose|j: int| 0 <= j < t.len() && t[j].0 == k;
        lemma_table_at(t, j);
        if j != i {
            lemma_table_at(s, j);
        }
    }
    assert(table(t) =~= table(s).insert(s[i].0, p));
}

proof fn lemma_table_push(s: Seq<(ClientId, Player)>, k: ClientId, p: Player)
    requires
        keys_unique(s),
        !has_key(s, k),
    ensures
        keys_unique(s.push((k, p))),
        table(s.push((k, p))) == table(s).insert(k, p),
{
    let t = s.push((k, p));
    assert forall|q: ClientId| has_key(t, q) == (has_key(s, q) || q == k) by {
        if has_key(s, q) {
            let j = choose|j: int| 0 <= j < s.len() && s[j].0 == q;
            assert(t[j].0 == q);
        }
        if q == k {
            assert(t[s.len() as int].0 == q);
        }
        if has_key(t, q) && q != k {
            let j = choose|j: int| 0 <= j < t.len() && t[j].0 == q;
            assert(s[j].0 == q);
        }
    }
    assert(keys_unique(t));
    assert forall|q: ClientId| #[trigger] table(t).contains_key(q) implies table(t)[q] == table(
        s,
    ).insert(k, p)[q] by {
        let j = choose|j: int| 0 <= j < t.len() && t[j].0 == q;
        lemma_table_at(t, j);
        if j < s.len() {
            lemma_table_at(s, j);
        }
    }
    assert(table(t) =~= table(s).insert(k, p));
}

proof fn lemma_table_map(s: Seq<(ClientId, Player)>, t: Seq<(ClientId, Player)>, f: spec_fn(Player) -> Player)
    requires
        keys_unique(s),
        t.len() == s.len(),
        forall|j: int| 0 <= j < s.len() ==> (#[trigger] t[j]).0 == s[j].0 && t[j].1 == f(s[j].1),
    ensures
        keys_unique(t),
        table(t) == table(s).map_values(f),
{
    assert forall|k: ClientId| has_key(t, k) == has_key(s, k) by {
        if has_key(s, k) {
            let j = choose|j: int| 0 <= j < s.len() && s[j].0 == k;
            assert(t[j].0 == k);
        }
        if has_key(t, k) {
            let j = choose|j: int| 0 <= j < t.len() && t[j].0 == k;
            assert(s[j].0 == k);
        }
    }
    assert(keys_unique(t)) by {
        assert forall|i: int, j: int|
            0 <= i < t.len() && 0 <= j < t.len() && i != j implies t[i].0 != t[j].0 by {
            assert(t[i].0 == s[i].0);
            assert(t[j].0 == s[j].0);
        }
    }
    assert forall|k: ClientId| #[trigger] table(t).contains_key(k) implies table(t)[k] == table(
        s,
    ).map_values(f)[k] by {
        let j = choose|j: int| 0 <= j < t.len() && t[j].0 == k;
        lemma_table_at(t, j);
        lemma_table_at(s, j);
    }
    assert(table(t) =~= table(s).map_values(f));
}

/// How the history of a session relates to an authority's confirmation.
#[derive(Clone, Copy, Debug, PartialEq, Eq, Structural)]
pub enum ReconcileError {
    /// The confirmed index is past the newest local tick.
    UnknownTick,
    /// The local checksum of the tick differs from the authoritative one: a
    /// resynchronisation is due.
    IntegrityMismatch,
}

/// The state of one client's session.
pub struct Game {
    /// The local participant.
    client_id: ClientId,
    /// Every known player by client identifier, one entry per identifier.
    players: Vec<(ClientId, Player)>,
    /// Every tick processed locally, predicted ones included.
    ticks: Vec<Tick>,
    /// The index of the last tick confirmed by the authority.
    accepted_head: u64,
}

impl Game {
    /// The local participant.
    pub closed spec fn id(&self) -> ClientId {
        self.client_id
    }

    /// The players by client identifier.
    pub closed spec fn players_map(&self) -> Map<ClientId, Player> {
        table(self.players@)
    }

    /// The ticks processed so far, oldest first.
    pub closed spec fn history(&self) -> Seq<TickView> {
        self.ticks@.map_values(|t: Tick| t@)
    }

    /// The index of the last confirmed tick.
    pub closed spec fn accepted(&self) -> u64 {
        self.accepted_head
    }

    /// One entry per player, every player within its bounds, tick `i` of
    /// the history has index `i` and at most one frame per owner, and the
    /// confirmed index is one of them.
    pub closed spec fn wf(&self) -> bool {
        &&& keys_unique(self.players@)
        &&& forall|i: int| 0 <= i < self.players@.len() ==> (#[trigger] self.players@[i]).1.wf()
        &&& forall|i: int| 0 <= i < self.ticks@.len() ==> (#[trigger] self.ticks@[i]).index == i
        &&& forall|i: int|
            0 <= i < self.ticks@.len() ==> owners_unique(frame_views((#[trigger] self.ticks@[i]).command_frames@))
        &&& self.ticks@.len() == 0 ==> self.accepted_head == 0
        &&& self.ticks@.len() > 0 ==> self.accepted_head < self.ticks@.len()
    }

    /// A session of `client_id` that knows only its local player.
    pub fn new(client_id: ClientId) -> (r: Self)
        ensures
            r.wf(),
            r.id() == client_id,
            r.players_map() == map![client_id => spawned(Role::Local)],
            r.history().len() == 0,
            r.accepted() == 0,
    {
        let mut players: Vec<(ClientId, Player)> = Vec::new();
        players.push((client_id, Player::local()));
        proof {
            lemma_table_at(players@, 0);
            assert(table(players@) =~= map![client_id => spawned(Role::Local)]);
        }
        let r = Game { client_id, players, ticks: Vec::new(), accepted_head: 0 };
        assert(r.history() =~= Seq::<TickView>::empty());
        r
    }

    /// The player of `id`, if known.
    pub fn player(&self, id: ClientId) -> (r: Option<Player>)
        requires
            self.wf(),
        ensures
            r == (if self.players_map().contains_key(id) {
                Some(self.players_map()[id])
            } else {
                None
            }),
    {
        match self.find_player(id) {
            Some(i) => {
                proof { lemma_table_at(self.players@, i as int); }
                Some(self.players[i].1)
            },
            None => None,
        }
    }

    /// Every known player with its client identifier, one entry per
    /// identifier, in no particular order.
    pub fn players(&self) -> (r: &Vec<(ClientId, Player)>)
        requires
            self.wf(),
        ensures
            keys_unique(r@),
            table(r@) == self.players_map(),
    {
        &self.players
    }

    /// The ticks processed so far, oldest first.
    pub fn ticks(&self) -> (r: &Vec<Tick>)
        ensures
            r@.map_values(|t: Tick| t@) == self.history(),
    {
        &self.ticks
    }

    /// The local participant.
    pub fn client_id(&self) -> (r: ClientId)
        ensures
            r == self.id(),
    {
        self.client_id
    }

    /// The index of the last tick confirmed by the authority.
    pub fn accepted_head(&self) -> (r: u64)
        ensures
            r == self.accepted(),
    {
        self.accepted_head
    }

    fn find_player(&self, id: ClientId) -> (r: Option<usize>)
        ensures
            match r {
                Some(i) => i < self.players@.len() && self.players@[i as int].0 == id,
                None => !has_key(self.players@, id),
            },
    {
        let mut i: usize = 0;
        while i < self.players.len()
            invariant
                i <= self.players@.len(),
                forall|j: int| 0 <= j < i ==> self.players@[j].0 != id,
            decreases self.players.len() - i,
        {
            if self.players[i].0 == id {
                return Some(i);
            }
            i = i + 1;
        }
        None
    }

    fn snapshot_players(&mut self)
        requires
            old(self).wf(),
        ensures
            final(self).wf(),
            final(self).players_map() == snapshot_all(old(self).players_map()),
            final(self).ticks == old(self).ticks,
            final(self).client_id == old(self).client_id,
            final(self).accepted_head == old(self).accepted_head,
    {
        let ghost start = self.players@;
        let mut i: usize = 0;
        while i < self.players.len()
            invariant
                self.wf(),
                self.ticks == old(self).ticks,
                self.client_id == old(self).client_id,
                self.accepted_head == old(self).accepted_head,
                start == old(self).players@,
                i <= self.players@.len(),
                self.players@.len() == start.len(),
                forall|j: int|
                    0 <= j < self.players@.len() ==> (#[trigger] self.players@[j]).0 == start[j].0
                        && self.players@[j].1 == if j < i {
                        start[j].1.snapshotted()
                    } else {
                        start[j].1
                    },
            decreases self.players.len() - i,
        {
            let (id, mut p) = self.players[i];
            p.snapshot_position();
            let ghost before = self.players@;
            self.players.set(i, (id, p));
            proof {
                assert(self.players@ == before.update(i as int, (before[i as int].0, p)));
                lemma_table_update(before, i as int, p);
            }
            i = i + 1;
        }
        proof {
            lemma_table_map(start, self.players@, |p: Player| p.snapshotted());
        }
    }

    fn integrate_players(&mut self)
        requires
            old(self).wf(),
        ensures
            final(self).wf(),
            final(self).players_map() == integrate_all(old(self).players_map()),
            final(self).ticks == old(self).ticks,
            final(self).client_id == old(self).client_id,
            final(self).accepted_head == old(self).accepted_head,
    {
        let ghost start = self.players@;
        let mut i: usize = 0;
        while i < self.players.len()
            invariant
                self.wf(),
                self.ticks == old(self).ticks,
                self.client_id == old(self).client_id,
                self.accepted_head == old(self).accepted_head,
                start == old(self).players@,
                i <= self.players@.len(),
                self.players@.len() == start.len(),
                forall|j: int|
                    0 <= j < self.players@.len() ==> (#[trigger] self.players@[j]).0 == start[j].0
                        && self.players@[j].1 == if j < i {
                        start[j].1.integrated()
                    } else {
                        start[j].1
                    },
            decreases self.players.len() - i,
        {
            let (id, mut p) = self.players[i];
            assert(self.players@[i as int].1.wf());
            p.update_physics();
            let ghost before = self.players@;
            self.players.set(i, (id, p));
            proof {
                assert(self.players@ == before.update(i as int, (before[i as int].0, p)));
                lemma_table_update(before, i as int, p);
            }
            i = i + 1;
        }
        proof {
            lemma_table_map(start, self.players@, |p: Player| p.integrated());
        }
    }

    fn apply_frame(&mut self, frame: &CommandFrame)
        requires
            old(self).wf(),
        ensures
            final(self).wf(),
            final(self).players_map() == apply_frame(old(self).players_map(), frame@),
            final(self).ticks == old(self).ticks,
            final(self).client_id == old(self).client_id,
            final(self).accepted_head == old(self).accepted_head,
    {
        let found = self.find_player(frame.owner);
        let mut p = match found {
            Some(i) => self.players[i].1,
            None => Player::enemy(),
        };
        let ghost p0 = p;
        let mut j: usize = 0;
        while j < frame.intents.len()
            invariant
                j <= frame.intents@.len(),
                p.wf(),
                p == after_intents(p0, frame.intents@.subrange(0, j as int)),
            decreases frame.intents.len() - j,
        {
            p.execute_intent(&frame.intents[j]);
            j = j + 1;
            assert(frame.intents@.subrange(0, j as int).drop_last() =~= frame.intents@.subrange(
                0,
                j - 1,
            ));
        }
        assert(frame.intents@.subrange(0, j as int) =~= frame.intents@);
        let ghost before = self.players@;
        match found {
            Some(i) => {
                proof { lemma_table_at(before, i as int); }
                self.players.set(i, (frame.owner, p));
                proof {
                    assert(self.players@ == before.update(i as int, (before[i as int].0, p)));
                    lemma_table_update(before, i as int, p);
                }
            },
            None => {
                self.players.push((frame.owner, p));
                proof {
                    lemma_table_push(before, frame.owner, p);
                }
            },
        }
    }

    /// Runs one simulation step on `tick`: every known player's position is
    /// recorded as last tick's, then each frame's intents are applied in order
    /// to its owner (a new remote player for an unknown owner), then every
    /// player, with a frame or without, moves vertically for one tick.
    pub fn simulate(&mut self, tick: &Tick)
        requires
            old(self).wf(),
        ensures
            final(self).wf(),
            final(self).players_map() == simulated(old(self).players_map(), tick@.frames),
            final(self).history() == old(self).history(),
            final(self).id() == old(self).id(),
            final(self).accepted() == old(self).accepted(),
    {
        self.snapshot_players();
        let ghost snap = self.players_map();
        let mut i: usize = 0;
        while i < tick.command_frames.len()
            invariant
                self.wf(),
                self.ticks == old(self).ticks,
                self.client_id == old(self).client_id,
                self.accepted_head == old(self).accepted_head,
                i <= tick.command_frames@.len(),
                self.players_map() == apply_frames(
                    snap,
                    frame_views(tick.command_frames@.subrange(0, i as int)),
                ),
            decreases tick.command_frames.len() - i,
        {
            self.apply_frame(&tick.command_frames[i]);
            proof {
                lemma_frame_views_step(tick.command_frames@, i as int);
                let next = frame_views(tick.command_frames@.subrange(0, i + 1));
                assert(next.drop_last() == frame_views(tick.command_frames@.subrange(0, i as int)));
            }
            i = i + 1;
        }
        assert(tick.command_frames@.subrange(0, i as int) =~= tick.command_frames@);
        self.integrate_players();
    }
}

/// Keeping only the frames of other owners keeps owners unique, and leaves
/// no frame of `id`.
proof fn lemma_filter_owners(s: Seq<FrameView>, id: ClientId)
    requires
        owners_unique(s),
    ensures
        owners_unique(s.filter(not_owned_by(id))),
        forall|k: int|
            0 <= k < s.filter(not_owned_by(id)).len() ==> (#[trigger] s.filter(
                not_owned_by(id),
            )[k]).owner != id && s.contains(s.filter(not_owned_by(id))[k]),
    decreases s.len(),
{
    reveal(Seq::filter);
    let p = not_owned_by(id);
    if s.len() > 0 {
        let init = s.drop_last();
        assert(owners_unique(init)) by {
            assert forall|i: int, j: int|
                0 <= i < init.len() && 0 <= j < init.len() && i != j implies init[i].owner
                != init[j].owner by {
                assert(init[i] == s[i] && init[j] == s[j]);
            }
        }
        lemma_filter_owners(init, id);
        let f = init.filter(p);
        assert forall|k: int| 0 <= k < f.len() implies (#[trigger] f[k]).owner != s.last().owner by {
            assert(init.contains(f[k]));
            let m = choose|m: int| 0 <= m < init.len() && init[m] == f[k];
            assert(s[m] == f[k]);
        }
        assert forall|k: int| 0 <= k < f.len() implies s.contains(#[trigger] f[k]) by {
            assert(init.contains(f[k]));
            let m = choose|m: int| 0 <= m < init.len() && init[m] == f[k];
            assert(s[m] == f[k]);
        }
        if p(s.last()) {
            assert(s.filter(p) == f.push(s.last()));
            assert(s.contains(s.last())) by {
                assert(s[s.len() - 1] == s.last());
            }
        } else {
            assert(s.filter(p) == f);
        }
    }
}

/// Merging a remote frame keeps owners unique.
proof fn lemma_merge_owners(frames: Seq<FrameView>, f: FrameView, id: ClientId)
    requires
        owners_unique(frames),
    ensures
        owners_unique(merge_frame(frames, f, id)),
{
    let m = merge_frame(frames, f, id);
    if f.owner != id {
        if exists|i: int| 0 <= i < frames.len() && frames[i].owner == f.owner {
            assert forall|i: int| 0 <= i < m.len() implies (#[trigger] m[i]).owner
                == frames[i].owner by {}
        } else {
            assert forall|i: int| 0 <= i < frames.len() implies (#[trigger] frames[i]).owner
                != f.owner by {}
            assert(m == frames.push(f));
            assert forall|i: int, j: int|
                0 <= i < m.len() && 0 <= j < m.len() && i != j implies m[i].owner
                != m[j].owner by {
                if i < frames.len() && j < frames.len() {
                    assert(m[i] == frames[i] && m[j] == frames[j]);
                } else if i < frames.len() {
                    assert(m[i] == frames[i]);
                } else if j < frames.len() {
                    assert(m[j] == frames[j]);
                }
            }
        }
    }
}

/// Merges one remote frame into `frames`, as `merge_frame` says.
fn merge_inbound(frames: &mut Vec<CommandFrame>, f: &CommandFrame, id: ClientId)
    ensures
        frame_views(final(frames)@) == merge_frame(frame_views(old(frames)@), f@, id),
{
    if f.owner == id {
        return;
    }
    let ghost start = frame_views(frames@);
    let mut found = false;
    let mut j: usize = 0;
    while j < frames.len()
        invariant
            start == frame_views(old(frames)@),
            frames@.len() == start.len(),
            j <= frames@.len(),
            found == exists|k: int| 0 <= k < j && start[k].owner == f.owner,
            forall|k: int|
                0 <= k < frames@.len() ==> (#[trigger] frames@[k])@ == if k < j && start[k].owner
                    == f.owner {
                    f@
                } else {
                    start[k]
                },
        decreases frames.len() - j,
    {
        if frames[j].owner == f.owner {
            frames.set(j, f.clone());
            found = true;
        }
        j = j + 1;
    }
    if found {
        assert(frame_views(frames@) =~= start.map_values(
            |g: FrameView| if g.owner == f.owner { f@ } else { g },
        ));
    } else {
        frames.push(f.clone());
        assert(frame_views(frames@) =~= start.push(f@));
    }
}

impl Game {
    /// The tick to run next before any authority has spoken: the local
    /// intents form the local frame; with no history the tick has index 0
    /// and that frame alone; otherwise it follows the last tick, copies every
    /// frame of another owner from it unchanged and in order, and ends with
    /// the local frame.
    pub fn predict_tick(&self, intents: Vec<PlayerIntent>) -> (r: Tick)
        requires
            self.wf(),
        ensures
            r.index == predicted_index(self.history()),
            r@.frames == predicted_frames(self.history(), self.id(), intents@),
            r@.hash_ok(),
            owners_unique(r@.frames),
    {
        let ghost local_view = FrameView { owner: self.client_id, intents: intents@ };
        let local = CommandFrame { owner: self.client_id, intents };
        let n = self.ticks.len();
        if n == 0 {
            let mut frames: Vec<CommandFrame> = Vec::new();
            frames.push(local);
            assert(frame_views(frames@) =~= seq![local_view]);
            return Tick::new(0, frames);
        }
        let prev = &self.ticks[n - 1];
        assert(self.history().last() == prev@);
        let ghost keep = not_owned_by(self.client_id);
        let mut frames: Vec<CommandFrame> = Vec::new();
        let mut i: usize = 0;
        while i < prev.command_frames.len()
            invariant
                i <= prev.command_frames@.len(),
                keep == not_owned_by(self.client_id),
                frame_views(frames@) == frame_views(prev.command_frames@.subrange(0, i as int)).filter(
                    keep,
                ),
            decreases prev.command_frames.len() - i,
        {
            let ghost before = frames@;
            if prev.command_frames[i].owner != self.client_id {
                frames.push(prev.command_frames[i].clone());
                assert(frame_views(frames@) =~= frame_views(before).push(
                    prev.command_frames@[i as int]@,
                ));
            }
            proof {
                lemma_frame_views_step(prev.command_frames@, i as int);
                frame_views(prev.command_frames@.subrange(0, i as int)).lemma_filter_push(
                    prev.command_frames@[i as int]@,
                    keep,
                );
            }
            i = i + 1;
        }
        assert(prev.command_frames@.subrange(0, i as int) =~= prev.command_frames@);
        let ghost kept = frames@;
        frames.push(local);
        assert(frame_views(frames@) =~= frame_views(kept).push(local_view));
        proof {
            let pf = frame_views(prev.command_frames@);
            lemma_filter_owners(pf, self.client_id);
            let fv = frame_views(frames@);
            let f = pf.filter(keep);
            assert forall|a: int, b: int|
                0 <= a < fv.len() && 0 <= b < fv.len() && a != b implies fv[a].owner
                != fv[b].owner by {
                if a < f.len() {
                    assert(fv[a] == f[a]);
                }
                if b < f.len() {
                    assert(fv[b] == f[b]);
                }
            }
        }
        assert(prev.index == n - 1);
        Tick::new(prev.index + 1, frames)
    }

    /// One fixed step of the session: predicts the next tick from the local
    /// intents, merges the remote frames that arrived (in order, those of the
    /// local participant left out) into a copy of it with a fresh checksum,
    /// simulates that copy and appends it to the history. Returns the
    /// prediction, which is what the transport sends.
    pub fn step(&mut self, intents: Vec<PlayerIntent>, inbound: &Vec<CommandFrame>) -> (sent: Tick)
        requires
            old(self).wf(),
        ensures
            final(self).wf(),
            sent.index == predicted_index(old(self).history()),
            sent.index == old(self).history().len(),
            sent@.frames == predicted_frames(old(self).history(), old(self).id(), intents@),
            sent@.hash_ok(),
            final(self).history().len() == old(self).history().len() + 1,
            final(self).history().drop_last() == old(self).history(),
            final(self).history().last().index == sent.index,
            final(self).history().last().frames == merge_frames(
                sent@.frames,
                frame_views(inbound@),
                old(self).id(),
            ),
            final(self).history().last().hash_ok(),
            owners_unique(final(self).history().last().frames),
            final(self).players_map() == simulated(
                old(self).players_map(),
                final(self).history().last().frames,
            ),
            final(self).id() == old(self).id(),
            final(self).accepted() == old(self).accepted(),
    {
        let sent = self.predict_tick(intents);
        proof {
            if self.ticks@.len() > 0 {
                assert(self.history().last() == self.ticks@.last()@);
                assert(self.ticks@.last().index == self.ticks@.len() - 1);
            }
        }
        let copy = sent.clone();
        let mut frames = copy.command_frames;
        let mut k: usize = 0;
        while k < inbound.len()
            invariant
                k <= inbound@.len(),
                frame_views(frames@) == merge_frames(
                    sent@.frames,
                    frame_views(inbound@.subrange(0, k as int)),
                    self.client_id,
                ),
                owners_unique(frame_views(frames@)),
            decreases inbound.len() - k,
        {
            proof {
                lemma_merge_owners(frame_views(frames@), inbound@[k as int]@, self.client_id);
            }
            merge_inbound(&mut frames, &inbound[k], self.client_id);
            proof {
                lemma_frame_views_step(inbound@, k as int);
                let next = frame_views(inbound@.subrange(0, k + 1));
                assert(next.drop_last() == frame_views(inbound@.subrange(0, k as int)));
            }
            k = k + 1;
        }
        assert(inbound@.subrange(0, k as int) =~= inbound@);
        let recorded = Tick::new(sent.index, frames);
        self.simulate(&recorded);
        self.ticks.push(recorded);
        assert(self.history().drop_last() =~= old(self).history());
        assert(self.history().last() == recorded@);
        sent
    }

    /// Takes the authority's word on tick `index`: its checksum must match
    /// the local one, and the confirmed index then moves up to `index` (it
    /// never moves back). A mismatch, or an index past the newest local tick,
    /// leaves the session as it was.
    pub fn confirm(&mut self, index: u64, checksum: &[u8; 32]) -> (r: Result<(), ReconcileError>)
        requires
            old(self).wf(),
        ensures
            final(self).wf(),
            final(self).history() == old(self).history(),
            final(self).players_map() == old(self).players_map(),
            final(self).id() == old(self).id(),
            index >= old(self).history().len() ==> r == Err::<(), ReconcileError>(
                ReconcileError::UnknownTick,
            ),
            index < old(self).history().len() && old(self).history()[index as int].hash
                != checksum@ ==> r == Err::<(), ReconcileError>(ReconcileError::IntegrityMismatch),
            index < old(self).history().len() && old(self).history()[index as int].hash
                == checksum@ ==> r == Ok::<(), ReconcileError>(()),
            r is Ok ==> final(self).accepted() == if index > old(self).accepted() {
                index
            } else {
                old(self).accepted()
            },
            r is Err ==> final(self).accepted() == old(self).accepted(),
    {
        if index >= self.ticks.len() as u64 {
            return Err(ReconcileError::UnknownTick);
        }
        let local = &self.ticks[index as usize];
        assert(self.history()[index as int] == local@);
        let mut i: usize = 0;
        while i < 32
            invariant
                i <= 32,
                *self == *old(self),
                self.wf(),
                index < self.ticks@.len(),
                local == self.ticks@[index as int],
                self.history()[index as int] == local@,
                local.hash@.len() == 32,
                checksum@.len() == 32,
                forall|j: int| 0 <= j < i ==> local.hash@[j] == checksum@[j],
            decreases 32 - i,
        {
            if local.hash[i] != checksum[i] {
                return Err(ReconcileError::IntegrityMismatch);
            }
            i = i + 1;
        }
        assert(local.hash@ =~= checksum@);
        if index > self.accepted_head {
            self.accepted_head = index;
        }
        Ok(())
    }

    /// How many ticks the newest local tick runs ahead of the confirmed one
    /// (0 with no history).
    pub fn divergence(&self) -> (r: u64)
        requires
            self.wf(),
        ensures
            r == if self.history().len() == 0 {
                0
            } else {
                self.history().last().index - self.accepted()
            },
    {
        let n = self.ticks.len();
        if n == 0 {
            return 0;
        }
        assert(self.history().last() == self.ticks@[n - 1]@);
        self.ticks[n - 1].index - self.accepted_head
    }
}

/// Tick indices of a session start at 0 and grow by exactly one, with no
/// gap: in every well-formed session (and `new` and `step` keep sessions
/// well-formed) tick `i` of the history has index `i`.
pub proof fn lemma_indices_consecutive(g: Game)
    requires
        g.wf(),
    ensures
        forall|i: int| 0 <= i < g.history().len() ==> #[trigger] g.history()[i].index == i,
        forall|i: int|
            0 < i < g.history().len() ==> #[trigger] g.history()[i].index == g.history()[i
                - 1].index + 1,
{
    assert forall|i: int| 0 <= i < g.history().len() implies #[trigger] g.history()[i].index
        == i by {
        assert(g.history()[i] == g.ticks@[i]@);
    }
    assert forall|i: int| 0 < i < g.history().len() implies #[trigger] g.history()[i].index
        == g.history()[i - 1].index + 1 by {
        assert(g.history()[i] == g.ticks@[i]@);
        assert(g.history()[i - 1] == g.ticks@[i - 1]@);
    }
}

} // verus!
