//! The rollback engine: per tick it records the local input, takes in the
//! remote inputs that arrived, finds the earliest frame whose inputs changed,
//! and plans which frames the host must (re)simulate and with which inputs.
use vstd::prelude::*;
use crate::history::{
    InputRecord, confirmed_in, resolved_in, resolved_row, all_confirmed, record_in, keep_from,
    unique_slots, lemma_unique_push, lemma_unique_keep_from,
    lookup, resolve, resolve_row, prune, lemma_push_elsewhere, lemma_push_agreeing,
    lemma_keep_from_confirmed, lemma_keep_from_resolved,
};
use crate::input::{GameInput, INPUT_SIZE, spec_decode, from_bytes, spec_default_input};

verus! {

/// A remote input as it came off the transport: the sender's handle, the
/// frame it is for, and the encoded record.
#[derive(Debug)]
pub struct Message {
    pub player: usize,
    pub frame: usize,
    pub payload: Vec<u8>,
}

/// What the host must do for one tick.
///
/// If `rollback_to` is `Some(f)`, restore the snapshot taken at the start of
/// frame `f` first. Then, for each `k`, simulate frame `start + k` with
/// `frames[k]` (the resolved input of each handle) and snapshot the state
/// before each of those frames.
pub struct TickPlan {
    /// The local record to broadcast to every peer.
    pub local: InputRecord,
    pub rollback_to: Option<usize>,
    pub start: usize,
    pub frames: Vec<Vec<GameInput>>,
    /// The messages that were dropped, by index, and why.
    pub dropped: Vec<(usize, EngineError)>,
}

/// Why a message was dropped; neither is fatal.
#[derive(Clone, Copy, Debug, PartialEq, Eq, Structural)]
pub enum EngineError {
    /// The payload does not decode, or the handle is not a remote one.
    MalformedInput,
    /// The frame lies outside the retained window: older than the oldest
    /// snapshot kept, or further ahead than the window reaches.
    HistoryWindowExceeded,
}

/// Whether a message decodes and names a remote handle.
pub open spec fn msg_valid(m: Message, n: nat, local: nat) -> bool {
    m.payload@.len() == INPUT_SIZE && m.player < n && m.player != local
}

/// Whether a message's frame lies in the window `base..=horizon`.
pub open spec fn msg_in_window(m: Message, base: nat, horizon: nat) -> bool {
    base <= m.frame <= horizon
}

/// The record a message stands for.
pub open spec fn msg_record(m: Message) -> InputRecord {
    InputRecord { frame: m.frame, player: m.player, input: spec_decode(m.payload@) }
}

/// The history after taking in the messages `ms` in order; invalid or
/// out-of-window messages are dropped, and a slot keeps its first value.
pub open spec fn ingested(
    h: Seq<InputRecord>,
    ms: Seq<Message>,
    n: nat,
    local: nat,
    base: nat,
    horizon: nat,
) -> Seq<InputRecord>
    decreases ms.len(),
{
    if ms.len() == 0 {
        h
    } else {
        let prev = ingested(h, ms.drop_last(), n, local, base, horizon);
        let m = ms.last();
        if msg_valid(m, n, local) && msg_in_window(m, base, horizon) {
            record_in(prev, msg_record(m))
        } else {
            prev
        }
    }
}

/// The messages of `ms` that a tick drops, by index, with the reason.
pub open spec fn drops_of(
    ms: Seq<Message>,
    n: nat,
    local: nat,
    base: nat,
    horizon: nat,
) -> Seq<(usize, EngineError)>
    decreases ms.len(),
{
    if ms.len() == 0 {
        seq![]
    } else {
        let prev = drops_of(ms.drop_last(), n, local, base, horizon);
        let at = (ms.len() - 1) as usize;
        if !msg_valid(ms.last(), n, local) {
            prev.push((at, EngineError::MalformedInput))
        } else if !msg_in_window(ms.last(), base, horizon) {
            prev.push((at, EngineError::HistoryWindowExceeded))
        } else {
            prev
        }
    }
}

/// The first frame of the window retained when `frame` frames were simulated.
pub open spec fn window_base(frame: nat, window: nat) -> nat {
    if frame > window {
        (frame - window) as nat
    } else {
        0
    }
}

/// What an engine is, as the contracts see it.
pub struct EngineView {
    pub num_players: nat,
    pub local: nat,
    pub window: nat,
    pub delay: nat,
    /// Frames simulated so far; the next frame to simulate.
    pub frame: nat,
    /// Frames `0..confirmed` are known to be fully confirmed.
    pub confirmed: nat,
    /// First frame of the retained window.
    pub base: nat,
    /// Input of each handle resolved just below `base`.
    pub held: Seq<GameInput>,
    pub history: Seq<InputRecord>,
}

impl EngineView {
    /// The input used for handle `p` at frame `f`.
    pub open spec fn resolved(self, f: int, p: int) -> GameInput {
        resolved_in(self.history, self.held, self.base as int, f, p)
    }

    /// The latest frame that a message may name in the next tick.
    pub open spec fn horizon(self) -> nat {
        self.frame + self.window + self.delay
    }

    /// The history after the next tick's capture of `local_input`.
    pub open spec fn captured(self, local_input: GameInput) -> Seq<InputRecord> {
        record_in(
            self.history,
            InputRecord {
                frame: (self.frame + self.delay) as usize,
                player: self.local as usize,
                input: local_input,
            },
        )
    }

    /// The history after the next tick's capture and ingest.
    pub open spec fn after_ingest(self, local_input: GameInput, ms: Seq<Message>) -> Seq<
        InputRecord,
    > {
        ingested(
            self.captured(local_input),
            ms,
            self.num_players,
            self.local,
            self.base,
            self.horizon(),
        )
    }
}

/// How one tick relates the engine before (`o`), the messages and local
/// input it was given, the plan it returned and the engine after (`n`).
pub open spec fn tick_spec(
    o: EngineView,
    local_input: GameInput,
    msgs: Seq<Message>,
    r: TickPlan,
    n: EngineView,
) -> bool {
    let h1 = o.after_ingest(local_input, msgs);
    &&& n.num_players == o.num_players && n.local == o.local && n.window
        == o.window && n.delay == o.delay
    &&& n.frame == o.frame + 1
    &&& r.local == InputRecord {
        frame: (o.frame + o.delay) as usize,
        player: o.local as usize,
        input: local_input,
    }
    // the rollback target is the earliest frame whose inputs changed
    &&& o.base <= r.start <= o.frame
    &&& (r.rollback_to is None <==> r.start == o.frame)
    &&& (r.rollback_to matches Some(t) ==> t == r.start)
    &&& forall|g: int, q: int|
        0 <= g < r.start && 0 <= q < o.num_players ==> #[trigger] resolved_in(
            h1,
            o.held,
            o.base as int,
            g,
            q,
        ) == o.resolved(g, q)
    &&& r.start < o.frame ==> exists|q: int|
        0 <= q < o.num_players && #[trigger] resolved_in(
            h1,
            o.held,
            o.base as int,
            r.start as int,
            q,
        ) != o.resolved(r.start as int, q)
    // frames to simulate, with their resolved inputs
    &&& r.frames@.len() == o.frame + 1 - r.start
    &&& forall|k: int|
        0 <= k < r.frames@.len() ==> (#[trigger] r.frames@[k])@ == resolved_row(
            h1,
            o.held,
            o.base as int,
            r.start + k,
            o.num_players,
        )
    // the window moves; what it retains resolves as before
    &&& n.base == window_base(n.frame, n.window)
    &&& n.history == keep_from(h1, n.base as int)
    &&& forall|g: int, p: int|
        g >= n.base - 1 && 0 <= p < n.num_players ==> #[trigger] n.resolved(g, p)
            == resolved_in(h1, o.held, o.base as int, g, p)
    // the confirmed count advances as far as it can
    &&& o.confirmed <= n.confirmed <= n.frame
    &&& forall|g: int|
        o.confirmed <= g < n.confirmed ==> #[trigger] all_confirmed(
            h1,
            g,
            o.num_players,
        )
    &&& n.confirmed < n.frame ==> !all_confirmed(h1, n.confirmed as int, o.num_players)
    &&& r.dropped@ == drops_of(msgs, o.num_players, o.local, o.base, o.horizon())
}

/// The rollback engine of one session.
pub struct Engine {
    num_players: usize,
    local: usize,
    window: usize,
    delay: usize,
    frame: usize,
    confirmed: usize,
    base: usize,
    held: Vec<GameInput>,
    history: Vec<InputRecord>,
}

impl View for Engine {
    type V = EngineView;

    closed spec fn view(&self) -> EngineView {
        EngineView {
            num_players: self.num_players as nat,
            local: self.local as nat,
            window: self.window as nat,
            delay: self.delay as nat,
            frame: self.frame as nat,
            confirmed: self.confirmed as nat,
            base: self.base as nat,
            held: self.held@,
            history: self.history@,
        }
    }
}

impl Engine {
    /// The engine's invariant.
    pub open spec fn wf(&self) -> bool {
        let v = self@;
        &&& v.num_players >= 1
        &&& v.local < v.num_players
        &&& v.window >= 1
        &&& v.held.len() == v.num_players
        &&& v.base == window_base(v.frame, v.window)
        &&& v.confirmed <= v.frame
        &&& unique_slots(v.history)
        &&& forall|g: int|
            v.base <= g < v.confirmed ==> #[trigger] all_confirmed(v.history, g, v.num_players)
    }

    /// An engine for `num_players` handles, the local one being `local`,
    /// keeping `window` frames of history and applying local input `delay`
    /// frames late. Nothing is simulated yet; every input is the zero input.
    pub fn new(num_players: usize, local: usize, window: usize, delay: usize) -> (r: Engine)
        requires
            num_players >= 1,
            local < num_players,
            window >= 1,
        ensures
            r.wf(),
            r@.num_players == num_players,
            r@.local == local,
            r@.window == window,
            r@.delay == delay,
            r@.frame == 0,
            r@.confirmed == 0,
            r@.history.len() == 0,
            forall|f: int, p: int| 0 <= p < num_players ==> #[trigger] r@.resolved(f, p)
                == spec_default_input(),
    {
        let mut held: Vec<GameInput> = Vec::new();
        let mut i: usize = 0;
        while i < num_players
            invariant
                i <= num_players,
                held@.len() == i,
                forall|j: int| 0 <= j < i ==> #[trigger] held@[j] == spec_default_input(),
            decreases num_players - i,
        {
            held.push(GameInput::zero());
            i = i + 1;
        }
        let r = Engine {
            num_players,
            local,
            window,
            delay,
            frame: 0,
            confirmed: 0,
            base: 0,
            held,
            history: Vec::new(),
        };
        assert forall|f: int, p: int| 0 <= p < num_players implies #[trigger] r@.resolved(f, p)
            == spec_default_input() by {
            lemma_empty_resolved(r@.history, r@.held, f, p);
        }
        r
    }

    /// Frames simulated so far.
    pub fn frame(&self) -> (r: usize)
        ensures
            r == self@.frame,
    {
        self.frame
    }

    /// Number of leading frames known to be fully confirmed; the confirmed
    /// frame number is one less, when positive.
    pub fn confirmed_frames(&self) -> (r: usize)
        ensures
            r == self@.confirmed,
    {
        self.confirmed
    }

    /// First frame whose snapshot the host must still keep.
    pub fn window_start(&self) -> (r: usize)
        ensures
            r == self@.base,
    {
        self.base
    }

    /// Number of player handles.
    pub fn num_players(&self) -> (r: usize)
        ensures
            r == self@.num_players,
    {
        self.num_players
    }

    /// The local player's handle.
    pub fn local_handle(&self) -> (r: usize)
        ensures
            r == self@.local,
    {
        self.local
    }

    /// The confirmed input of handle `p` at frame `f`, if it has arrived
    /// and is still retained.
    pub fn confirmed_input(&self, f: usize, p: usize) -> (r: Option<GameInput>)
        ensures
            r == confirmed_in(self@.history, f as int, p as int),
    {
        lookup(&self.history, f, p)
    }

    /// The input used for handle `p` at frame `f`: the confirmed one if it
    /// has arrived, else the latest input resolved at an earlier frame, else
    /// the zero input.
    pub fn resolved_input(&self, f: usize, p: usize) -> (r: GameInput)
        requires
            self.wf(),
            p < self@.num_players,
            f < usize::MAX,
        ensures
            r == self@.resolved(f as int, p as int),
            f < self@.base ==> r == self@.held[p as int],
            f >= self@.base ==> (confirmed_in(self@.history, f as int, p as int) matches Some(x) ==> r
                == x),
            f >= self@.base && confirmed_in(self@.history, f as int, p as int) is None ==> r
                == self@.resolved(f - 1, p as int),
    {
        resolve(&self.history, &self.held, self.base, f, p)
    }

    /// One tick.
    ///
    /// Records `local_input` as confirmed for the local handle at frame
    /// `frame + delay`; takes in each message in order (a valid one within
    /// the window is stored as confirmed unless its slot already is);
    /// finds the rollback target, the earliest already simulated frame whose
    /// resolved inputs changed; plans the resimulation from there through
    /// the current frame; advances the frame by one; moves the window; and
    /// advances the confirmed count as far as every handle is confirmed.
    pub fn tick(&mut self, local_input: GameInput, msgs: &Vec<Message>) -> (r: TickPlan)
        requires
            old(self).wf(),
            old(self)@.frame + old(self)@.window + old(self)@.delay + 2 < usize::MAX,
        ensures
            final(self).wf(),
            tick_spec(old(self)@, local_input, msgs@, r, final(self)@),
    {
        let ghost o = self@;
        let n = self.num_players;
        let horizon = self.frame + self.window + self.delay;
        // capture
        let local_rec = InputRecord {
            frame: self.frame + self.delay,
            player: self.local,
            input: local_input,
        };
        let mut hist: Vec<InputRecord> = self.history.clone();
        assert(hist@ == o.history);
        if lookup(&hist, local_rec.frame, local_rec.player).is_none() {
            proof {
                lemma_unique_push(hist@, local_rec);
            }
            hist.push(local_rec);
        }
        assert(hist@ == o.captured(local_input));
        proof {
            assert forall|g: int, q: int| 0 <= g < o.frame implies #[trigger] resolved_in(
                hist@,
                o.held,
                o.base as int,
                g,
                q,
            ) == o.resolved(g, q) by {
                if hist@ != o.history {
                    lemma_push_elsewhere(o.history, o.held, o.base as int, local_rec, g, q);
                }
            }
            assert forall|g: int, q: int| #[trigger]
                confirmed_in(o.history, g, q) is Some implies confirmed_in(hist@, g, q)
                is Some by {
                if hist@ != o.history {
                    assert(hist@.drop_last() == o.history);
                }
            }
        }
        // ingest
        let mut target: usize = self.frame;
        let mut dropped: Vec<(usize, EngineError)> = Vec::new();
        let mut i: usize = 0;
        while i < msgs.len()
            invariant
                self@ == o,
                n == o.num_players,
                horizon == o.horizon(),
                o.held.len() == o.num_players,
                i <= msgs@.len(),
                hist@ == ingested(o.captured(local_input), msgs@.take(i as int), o.num_players, o.local, o.base, horizon as nat),
                unique_slots(hist@),
                dropped@ == drops_of(msgs@.take(i as int), o.num_players, o.local, o.base, horizon as nat),
                o.base <= target <= o.frame,
                forall|g: int, q: int|
                    0 <= g < target ==> #[trigger] resolved_in(hist@, o.held, o.base as int, g, q)
                        == o.resolved(g, q),
                target < o.frame ==> exists|q: int|
                    0 <= q < o.num_players && (#[trigger] confirmed_in(hist@, target as int, q)) is Some
                        && resolved_in(hist@, o.held, o.base as int, target as int, q) != o.resolved(
                        target as int,
                        q,
                    ),
                forall|g: int, q: int| #[trigger]
                    confirmed_in(o.history, g, q) is Some ==> confirmed_in(hist@, g, q) is Some,
            decreases msgs@.len() - i,
        {
            let m = &msgs[i];
            let ghost prev = hist@;
            let ghost ms = msgs@.take(i + 1);
            assert(ms.drop_last() == msgs@.take(i as int));
            assert(ms.last() == msgs@[i as int]);
            if m.player >= n || m.player == self.local {
                dropped.push((i, EngineError::MalformedInput));
            } else {
                match from_bytes(m.payload.as_slice()) {
                    Err(_) => {
                        dropped.push((i, EngineError::MalformedInput));
                    },
                    Ok(x) => {
                        if m.frame < self.base || m.frame > horizon {
                            dropped.push((i, EngineError::HistoryWindowExceeded));
                        } else if lookup(&hist, m.frame, m.player).is_none() {
                            let rec = InputRecord { frame: m.frame, player: m.player, input: x };
                            assert(rec == msg_record(msgs@[i as int]));
                            let mismatch = m.frame < target && resolve(
                                &hist,
                                &self.held,
                                self.base,
                                m.frame,
                                m.player,
                            ) != x;
                            proof {
                                lemma_unique_push(hist@, rec);
                            }
                            hist.push(rec);
                            proof {
                                assert(hist@.drop_last() == prev);
                                assert forall|g: int, q: int| #[trigger]
                                    confirmed_in(o.history, g, q) is Some implies confirmed_in(
                                    hist@,
                                    g,
                                    q,
                                ) is Some by {}
                                if mismatch {
                                    assert forall|g: int, q: int| 0 <= g < rec.frame implies #[trigger] resolved_in(
                                        hist@,
                                        o.held,
                                        o.base as int,
                                        g,
                                        q,
                                    ) == o.resolved(g, q) by {
                                        lemma_push_elsewhere(prev, o.held, o.base as int, rec, g, q);
                                    }
                                    let pp = rec.player as int;
                                    assert(confirmed_in(hist@, rec.frame as int, pp) == Some(x));
                                    assert(resolved_in(hist@, o.held, o.base as int, rec.frame as int, pp) == x);
                                    assert(confirmed_in(hist@, rec.frame as int, pp) is Some && resolved_in(hist@, o.held, o.base as int, rec.frame as int, pp) != o.resolved(rec.frame as int, pp));
                                } else if rec.frame < target {
                                    assert forall|g: int, q: int| 0 <= g < target implies #[trigger] resolved_in(
                                        hist@,
                                        o.held,
                                        o.base as int,
                                        g,
                                        q,
                                    ) == o.resolved(g, q) by {
                                        lemma_push_agreeing(prev, o.held, o.base as int, rec, g, q);
                                    }
                                    if target < o.frame {
                                        let q = choose|q: int|
                                            0 <= q < o.num_players && (#[trigger] confirmed_in(prev, target as int, q)) is Some
                                                && resolved_in(prev, o.held, o.base as int, target as int, q) != o.resolved(target as int, q);
                                        lemma_push_agreeing(prev, o.held, o.base as int, rec, target as int, q);
                                        assert(confirmed_in(hist@, target as int, q) is Some);
                                    }
                                } else {
                                    assert forall|g: int, q: int| 0 <= g < target implies #[trigger] resolved_in(
                                        hist@,
                                        o.held,
                                        o.base as int,
                                        g,
                                        q,
                                    ) == o.resolved(g, q) by {
                                        lemma_push_elsewhere(prev, o.held, o.base as int, rec, g, q);
                                    }
                                    if target < o.frame {
                                        let q = choose|q: int|
                                            0 <= q < o.num_players && (#[trigger] confirmed_in(prev, target as int, q)) is Some
                                                && resolved_in(prev, o.held, o.base as int, target as int, q) != o.resolved(target as int, q);
                                        if rec.frame > target || rec.player != q {
                                            lemma_push_elsewhere(prev, o.held, o.base as int, rec, target as int, q);
                                        }
                                        assert(confirmed_in(hist@, target as int, q) is Some);
                                    }
                                }
                            }
                            if mismatch {
                                target = m.frame;
                            }
                        }
                    },
                }
            }
            i = i + 1;
        }
        assert(msgs@.take(i as int) == msgs@);
        let ghost h1 = hist@;
        assert(forall|g: int, q: int| #[trigger]
            confirmed_in(o.history, g, q) is Some ==> confirmed_in(h1, g, q) is Some);
        assert(h1 == o.after_ingest(local_input, msgs@));
        // plan
        let mut frames: Vec<Vec<GameInput>> = Vec::new();
        let mut f: usize = target;
        while f <= self.frame
            invariant
                self@ == o,
                hist@ == h1,
                n == o.num_players,
                o.held.len() == o.num_players,
                o.frame + 2 < usize::MAX,
                target <= f <= o.frame + 1,
                frames@.len() == f - target,
                forall|k: int|
                    0 <= k < frames@.len() ==> (#[trigger] frames@[k])@ == resolved_row(
                        h1,
                        o.held,
                        o.base as int,
                        target + k,
                        o.num_players,
                    ),
            decreases o.frame + 1 - f,
        {
            let row = resolve_row(&hist, &self.held, self.base, f, n);
            frames.push(row);
            f = f + 1;
        }
        // confirmed count
        let new_frame = self.frame + 1;
        let mut c: usize = self.confirmed;
        while c < new_frame
            invariant
                self@ == o,
                hist@ == h1,
                n == o.num_players,
                new_frame == o.frame + 1,
                o.confirmed <= c <= new_frame,
                forall|g: int| o.confirmed <= g < c ==> #[trigger] all_confirmed(h1, g, o.num_players),
            ensures
                o.confirmed <= c <= new_frame,
                forall|g: int| o.confirmed <= g < c ==> #[trigger] all_confirmed(h1, g, o.num_players),
                c == new_frame || !all_confirmed(h1, c as int, o.num_players),
            decreases new_frame - c,
        {
            let mut all = true;
            let mut p: usize = 0;
            while p < n
                invariant
                    hist@ == h1,
                    n == o.num_players,
                    p <= n,
                    all == forall|q: int| 0 <= q < p ==> (#[trigger] confirmed_in(h1, c as int, q)) is Some,
                decreases n - p,
            {
                if lookup(&hist, c, p).is_none() {
                    all = false;
                }
                p = p + 1;
            }
            if !all {
                break;
            }
            c = c + 1;
        }
        // window
        let nb: usize = if new_frame > self.window {
            new_frame - self.window
        } else {
            0
        };
        if nb > self.base {
            let mut held2: Vec<GameInput> = Vec::new();
            let mut p: usize = 0;
            while p < n
                invariant
                    self@ == o,
                    hist@ == h1,
                    n == o.num_players,
                    o.held.len() == o.num_players,
                    0 < nb < usize::MAX,
                    p <= n,
                    held2@.len() == p,
                    forall|q: int| 0 <= q < p ==> #[trigger] held2@[q] == resolved_in(h1, o.held, o.base as int, nb - 1, q),
                decreases n - p,
            {
                held2.push(resolve(&hist, &self.held, self.base, nb - 1, p));
                p = p + 1;
            }
            self.history = prune(&hist, nb);
            self.held = held2;
            self.base = nb;
            proof {
                assert forall|g: int, p: int| g >= nb - 1 && 0 <= p < o.num_players implies #[trigger] self@.resolved(g, p)
                    == resolved_in(h1, o.held, o.base as int, g, p) by {
                    lemma_keep_from_resolved(h1, o.held, o.base as int, nb as int, self.held@, g, p);
                }
            }
        } else {
            self.history = hist;
            proof {
                assert(keep_from(h1, nb as int) == h1) by {
                    lemma_keep_all(h1, nb as int);
                }

            }
        }
        self.frame = new_frame;
        self.confirmed = c;
        proof {
            lemma_unique_keep_from(h1, self@.base as int);
            assert forall|g: int, p: int| g >= self@.base - 1 && 0 <= p < o.num_players implies #[trigger] self@.resolved(g, p)
                == resolved_in(h1, o.held, o.base as int, g, p) by {
                if nb > o.base {
                    lemma_keep_from_resolved(h1, o.held, o.base as int, nb as int, self.held@, g, p);
                }
            }
            assert forall|g: int| self@.base <= g < self@.confirmed implies #[trigger] all_confirmed(
                self@.history,
                g,
                self@.num_players,
            ) by {
                assert(all_confirmed(h1, g, o.num_players)) by {
                    if g < o.confirmed {
                        assert(all_confirmed(o.history, g, o.num_players));
                        assert forall|p: int| 0 <= p < o.num_players implies (#[trigger] confirmed_in(h1, g, p)) is Some by {
                            assert(confirmed_in(o.history, g, p) is Some);
                        }
                    }
                }
                assert forall|p: int| 0 <= p < self@.num_players implies (#[trigger] confirmed_in(self@.history, g, p)) is Some by {
                    lemma_keep_from_confirmed(h1, self@.base as int, g, p);
                }
            }
        }
        TickPlan {
            local: local_rec,
            rollback_to: if target < new_frame - 1 {
                Some(target)
            } else {
                None
            },
            start: target,
            frames,
            dropped,
        }
    }
}

/// With nothing recorded, every input resolves to what is held.
proof fn lemma_empty_resolved(h: Seq<InputRecord>, held: Seq<GameInput>, f: int, p: int)
    requires
        h.len() == 0,
    ensures
        resolved_in(h, held, 0, f, p) == held[p],
    decreases f + 1,
{
    if f >= 0 {
        lemma_empty_resolved(h, held, f - 1, p);
    }
}

/// Keeping the records from a frame that none is below keeps them all.
proof fn lemma_keep_all(h: Seq<InputRecord>, nb: int)
    requires
        nb <= 0,
    ensures
        keep_from(h, nb) == h,
    decreases h.len(),
{
    if h.len() > 0 {
        lemma_keep_all(h.drop_last(), nb);
        assert(h.drop_last().push(h.last()) == h);
    }
}

/// A tick is deterministic: the same engine given the same local input and
/// messages reaches the same state and returns the same plan.
pub proof fn lemma_tick_deterministic(
    o: EngineView,
    local_input: GameInput,
    msgs: Seq<Message>,
    r1: TickPlan,
    n1: EngineView,
    r2: TickPlan,
    n2: EngineView,
)
    requires
        tick_spec(o, local_input, msgs, r1, n1),
        tick_spec(o, local_input, msgs, r2, n2),
        n1.held.len() == n1.num_players,
        n2.held.len() == n2.num_players,
    ensures
        n1 == n2,
        r1.start == r2.start,
        r1.rollback_to == r2.rollback_to,
        r1.local == r2.local,
        r1.dropped@ == r2.dropped@,
        r1.frames@.len() == r2.frames@.len(),
        forall|k: int| 0 <= k < r1.frames@.len() ==> (#[trigger] r1.frames@[k])@ == r2.frames@[k]@,
{
    let h1 = o.after_ingest(local_input, msgs);
    if r1.start < r2.start {
        let q = choose|q: int|
            0 <= q < o.num_players && #[trigger] resolved_in(h1, o.held, o.base as int, r1.start as int, q)
                != o.resolved(r1.start as int, q);
        assert(resolved_in(h1, o.held, o.base as int, r1.start as int, q) == o.resolved(r1.start as int, q));
    }
    if r2.start < r1.start {
        let q = choose|q: int|
            0 <= q < o.num_players && #[trigger] resolved_in(h1, o.held, o.base as int, r2.start as int, q)
                != o.resolved(r2.start as int, q);
        assert(resolved_in(h1, o.held, o.base as int, r2.start as int, q) == o.resolved(r2.start as int, q));
    }
    if n1.confirmed < n2.confirmed {
        assert(all_confirmed(h1, n1.confirmed as int, o.num_players));
    }
    if n2.confirmed < n1.confirmed {
        assert(all_confirmed(h1, n2.confirmed as int, o.num_players));
    }
    assert forall|p: int| 0 <= p < n1.held.len() implies #[trigger] n1.held[p] == n2.held[p] by {
        assert(n1.resolved(n1.base - 1, p) == resolved_in(h1, o.held, o.base as int, n1.base - 1, p));
        assert(n2.resolved(n2.base - 1, p) == resolved_in(h1, o.held, o.base as int, n2.base - 1, p));
    }
    assert(n1.held =~= n2.held);
}

/// Earliest divergence wins: when the inputs taken in during a tick change
/// what was resolved at frames `f1 < f2` (in whatever order they arrived), and
/// nothing earlier than `f1`, the tick rolls back to `f1`.
pub proof fn lemma_earliest_divergence(
    o: EngineView,
    local_input: GameInput,
    msgs: Seq<Message>,
    r: TickPlan,
    n: EngineView,
    f1: int,
    f2: int,
    q1: int,
    q2: int,
)
    requires
        tick_spec(o, local_input, msgs, r, n),
        0 <= f1 < f2 < o.frame,
        0 <= q1 < o.num_players,
        0 <= q2 < o.num_players,
        resolved_in(o.after_ingest(local_input, msgs), o.held, o.base as int, f1, q1) != o.resolved(f1, q1),
        resolved_in(o.after_ingest(local_input, msgs), o.held, o.base as int, f2, q2) != o.resolved(f2, q2),
        forall|g: int, q: int|
            0 <= g < f1 && 0 <= q < o.num_players ==> #[trigger] resolved_in(
                o.after_ingest(local_input, msgs),
                o.held,
                o.base as int,
                g,
                q,
            ) == o.resolved(g, q),
    ensures
        r.rollback_to == Some(f1 as usize),
        r.start == f1,
{
    let h1 = o.after_ingest(local_input, msgs);
    if r.start > f1 {
        assert(resolved_in(h1, o.held, o.base as int, f1, q1) == o.resolved(f1, q1));
    }
    if r.start < f1 {
        let q = choose|q: int|
            0 <= q < o.num_players && #[trigger] resolved_in(h1, o.held, o.base as int, r.start as int, q)
                != o.resolved(r.start as int, q);
        assert(resolved_in(h1, o.held, o.base as int, r.start as int, q) == o.resolved(r.start as int, q));
    }
}

/// Frame-hold from the start: a handle with no confirmed input at any
/// retained frame up to `f` resolves to the input held at the window's edge,
/// which for an engine that never moved its window is the zero input.
pub proof fn lemma_no_prior_input(e: EngineView, f: int, p: int)
    requires
        forall|g: int| e.base <= g <= f ==> (#[trigger] confirmed_in(e.history, g, p)) is None,
    ensures
        e.resolved(f, p) == e.held[p],
    decreases f + 1 - e.base,
{
    if f >= e.base {
        assert(confirmed_in(e.history, f, p) is None);
        lemma_no_prior_input(e, f - 1, p);
    }
}

} // verus!
