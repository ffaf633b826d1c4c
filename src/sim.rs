//! The game's deterministic simulation step, and a session runner that carries
//! out the engine's tick plans on the game state with snapshots.
use vstd::prelude::*;
use crate::engine::{Engine, EngineView, Message, TickPlan, tick_spec};
use crate::history::{resolved_in, resolved_row};
use crate::input::GameInput;

verus! {

/// Bit pattern of the 32-bit float -100.0: the first player's spawn x.
pub const SPAWN_LEFT_X: u32 = 0xC2C8_0000;
/// Bit pattern of the 32-bit float 100.0: the second player's spawn x.
pub const SPAWN_RIGHT_X: u32 = 0x42C8_0000;

/// One simulation step: each player with a cursor moves to the cursor's
/// position; the others stay where they are.
pub open spec fn spec_step(state: Seq<(u32, u32)>, inputs: Seq<GameInput>) -> Seq<(u32, u32)> {
    Seq::new(
        state.len(),
        |i: int|
            if i < inputs.len() && inputs[i].has_mouse == 1 {
                (inputs[i].mouse_x, inputs[i].mouse_y)
            } else {
                state[i]
            },
    )
}

/// The state after simulating the frames `rows` in order from `s`.
pub open spec fn run_frames(s: Seq<(u32, u32)>, rows: Seq<Seq<GameInput>>) -> Seq<(u32, u32)>
    decreases rows.len(),
{
    if rows.len() == 0 {
        s
    } else {
        spec_step(run_frames(s, rows.drop_last()), rows.last())
    }
}

/// The resolved input rows of frames `from..from + len` of an engine.
pub open spec fn rows_of(e: EngineView, from: int, len: nat) -> Seq<Seq<GameInput>> {
    Seq::new(
        len,
        |k: int| resolved_row(e.history, e.held, e.base as int, from + k, e.num_players),
    )
}

/// Whether `snaps` holds the states at the start of frames `base..=frame`,
/// each the step of the one before with that frame's resolved inputs.
pub open spec fn snapshots_ok(snaps: Seq<Seq<(u32, u32)>>, e: EngineView) -> bool {
    &&& snaps.len() == e.frame - e.base + 1
    &&& forall|k: int|
        0 <= k < snaps.len() - 1 ==> #[trigger] snaps[k + 1] == spec_step(
            snaps[k],
            resolved_row(e.history, e.held, e.base as int, e.base + k, e.num_players),
        )
}

/// Applies one frame's inputs to the player positions.
pub fn move_players(state: &Vec<(u32, u32)>, inputs: &Vec<GameInput>) -> (r: Vec<(u32, u32)>)
    ensures
        r@ == spec_step(state@, inputs@),
{
    let mut out: Vec<(u32, u32)> = Vec::new();
    let mut i: usize = 0;
    while i < state.len()
        invariant
            i <= state@.len(),
            out@ == spec_step(state@, inputs@).take(i as int),
        decreases state@.len() - i,
    {
        let pos = if i < inputs.len() && inputs[i].has_mouse == 1 {
            (inputs[i].mouse_x, inputs[i].mouse_y)
        } else {
            state[i]
        };
        out.push(pos);
        i = i + 1;
        assert(out@ =~= spec_step(state@, inputs@).take(i as int));
    }
    assert(out@ =~= spec_step(state@, inputs@));
    out
}

/// The two players' starting positions: left and right of the origin.
pub fn spawn_players() -> (r: Vec<(u32, u32)>)
    ensures
        r@ == seq![(SPAWN_LEFT_X, 0u32), (SPAWN_RIGHT_X, 0u32)],
{
    let mut v: Vec<(u32, u32)> = Vec::new();
    v.push((SPAWN_LEFT_X, 0));
    v.push((SPAWN_RIGHT_X, 0));
    assert(v@ =~= seq![(SPAWN_LEFT_X, 0u32), (SPAWN_RIGHT_X, 0u32)]);
    v
}

fn copy_state(s: &Vec<(u32, u32)>) -> (r: Vec<(u32, u32)>)
    ensures
        r@ == s@,
{
    let mut out: Vec<(u32, u32)> = Vec::new();
    let mut i: usize = 0;
    while i < s.len()
        invariant
            i <= s@.len(),
            out@ == s@.take(i as int),
        decreases s@.len() - i,
    {
        out.push(s[i]);
        i = i + 1;
        assert(out@ =~= s@.take(i as int));
    }
    assert(s@.take(i as int) =~= s@);
    out
}

/// What a runner is, as the contracts see it.
pub struct RunnerView {
    pub engine: EngineView,
    /// State at the start of each frame `engine.base + k`, the last one being
    /// the current state.
    pub snapshots: Seq<Seq<(u32, u32)>>,
}

/// An engine together with the game state and its snapshots.
pub struct Runner {
    engine: Engine,
    snapshots: Vec<Vec<(u32, u32)>>,
}

impl View for Runner {
    type V = RunnerView;

    closed spec fn view(&self) -> RunnerView {
        RunnerView {
            engine: self.engine@,
            snapshots: self.snapshots@.map_values(|v: Vec<(u32, u32)>| v@),
        }
    }
}

impl Runner {
    /// The runner's invariant.
    pub open spec fn wf(&self) -> bool {
        &&& self.engine_wf()
        &&& snapshots_ok(self@.snapshots, self@.engine)
    }

    /// The engine's own invariant.
    pub closed spec fn engine_wf(&self) -> bool {
        self.engine.wf()
    }

    /// A runner from the initial state `initial`, one handle per position.
    pub fn new(initial: Vec<(u32, u32)>, local: usize, window: usize, delay: usize) -> (r: Runner)
        requires
            local < initial@.len(),
            window >= 1,
        ensures
            r.wf(),
            r@.engine.num_players == initial@.len(),
            r@.engine.local == local,
            r@.engine.window == window,
            r@.engine.delay == delay,
            r@.engine.frame == 0,
            r@.snapshots == seq![initial@],
    {
        let engine = Engine::new(initial.len(), local, window, delay);
        let mut snapshots: Vec<Vec<(u32, u32)>> = Vec::new();
        snapshots.push(initial);
        let r = Runner { engine, snapshots };
        assert(r@.snapshots =~= seq![initial@]);
        r
    }

    /// The engine.
    pub fn engine(&self) -> (r: &Engine)
        ensures
            r@ == self@.engine,
    {
        &self.engine
    }

    /// The current game state.
    pub fn state(&self) -> (r: Vec<(u32, u32)>)
        requires
            self.wf(),
        ensures
            r@ == self@.snapshots.last(),
    {
        let k = self.snapshots.len() - 1;
        copy_state(&self.snapshots[k])
    }

    /// One tick of the session: the engine's tick, then its plan carried
    /// out. The snapshot of the rollback target is restored verbatim, every
    /// frame from there on is simulated again with its resolved inputs, and
    /// snapshots that left the window are dropped.
    pub fn tick(&mut self, local_input: GameInput, msgs: &Vec<Message>) -> (r: TickPlan)
        requires
            old(self).wf(),
            old(self)@.engine.frame + old(self)@.engine.window + old(self)@.engine.delay + 2
                < usize::MAX,
        ensures
            final(self).wf(),
            tick_spec(old(self)@.engine, local_input, msgs@, r, final(self)@.engine),
            forall|g: int|
                final(self)@.engine.base <= g <= r.start ==> #[trigger] final(self)@.snapshots[g
                    - final(self)@.engine.base] == old(self)@.snapshots[g - old(self)@.engine.base],
    {
        let ghost o = self@;
        let base0 = self.engine.window_start();
        proof {
            assert(self.engine.wf());
        }
        let plan = self.engine.tick(local_input, msgs);
        let ghost n = self.engine@;
        let ghost h1 = o.engine.after_ingest(local_input, msgs@);
        let ghost nplayers = o.engine.num_players;
        let k = plan.start - base0;
        let ghost before = self.snapshots@;
        self.snapshots.truncate(k + 1);
        assert(self.snapshots@.len() == k + 1);
        proof {
            assert(tick_spec(o.engine, local_input, msgs@, plan, n));
            assert forall|i: int| 0 <= i <= k implies #[trigger] self.snapshots@[i]@ == o.snapshots[i] by {
                assert(self.snapshots@[i] == before[i]);
            }
        }
        proof {
            // frames before the target were simulated with the same inputs
            assert forall|i: int| 0 <= i < k implies #[trigger] self.snapshots@[i + 1]@ == spec_step(
                self.snapshots@[i]@,
                resolved_row(h1, o.engine.held, o.engine.base as int, o.engine.base + i, nplayers),
            ) by {
                assert(self.snapshots@[i + 1] == before[i + 1]);
                assert(self.snapshots@[i] == before[i]);
                assert(o.snapshots[i + 1] == spec_step(
                    o.snapshots[i],
                    resolved_row(o.engine.history, o.engine.held, o.engine.base as int, o.engine.base + i, nplayers),
                ));
                assert(resolved_row(h1, o.engine.held, o.engine.base as int, o.engine.base + i, nplayers)
                    =~= resolved_row(o.engine.history, o.engine.held, o.engine.base as int, o.engine.base + i, nplayers));
            }
        }
        let mut state = copy_state(&self.snapshots[k]);
        let mut j: usize = 0;
        while j < plan.frames.len()
            invariant
                self.engine@ == n,
                j <= plan.frames@.len(),
                plan.frames@.len() == o.engine.frame + 1 - plan.start,
                k == plan.start - o.engine.base,
                self.snapshots@.len() == k + 1 + j,
                state@ == self.snapshots@[k + j as int]@,
                forall|i: int| 0 <= i <= k ==> #[trigger] self.snapshots@[i]@ == o.snapshots[i],
                forall|i: int|
                    0 <= i < k + j ==> #[trigger] self.snapshots@[i + 1]@ == spec_step(
                        self.snapshots@[i]@,
                        resolved_row(h1, o.engine.held, o.engine.base as int, o.engine.base + i, nplayers),
                    ),
                tick_spec(o.engine, local_input, msgs@, plan, n),
                h1 == o.engine.after_ingest(local_input, msgs@),
                nplayers == o.engine.num_players,
                snapshots_ok(o.snapshots, o.engine),
            decreases plan.frames@.len() - j,
        {
            proof {
                if (k + j) < k {
                }
                let g = o.engine.base + k + j;
                assert(plan.frames@[j as int]@ == resolved_row(h1, o.engine.held, o.engine.base as int, plan.start + j, nplayers));
            }
            state = move_players(&state, &plan.frames[j]);
            let ghost before = self.snapshots@;
            self.snapshots.push(copy_state(&state));
            proof {
                assert forall|i: int| 0 <= i <= k implies #[trigger] self.snapshots@[i]@ == o.snapshots[i] by {
                    assert(self.snapshots@[i] == before[i]);
                }
                assert forall|i: int|
                    0 <= i < k + j + 1 implies #[trigger] self.snapshots@[i + 1]@ == spec_step(
                        self.snapshots@[i]@,
                        resolved_row(h1, o.engine.held, o.engine.base as int, o.engine.base + i, nplayers),
                    ) by {
                    if i < k + j {
                        assert(self.snapshots@[i + 1] == before[i + 1]);
                        assert(self.snapshots@[i] == before[i]);
                    } else {
                        assert(self.snapshots@[i] == before[i]);
                    }
                }
            }
            j = j + 1;
        }
        let nb = self.engine.window_start();
        let drop = nb - base0;
        let mut d: usize = 0;
        while d < drop
            invariant
                self.engine@ == n,
                d <= drop,
                drop == n.base - o.engine.base,
                self.snapshots@.len() == o.engine.frame + 2 - o.engine.base - d,
                forall|i: int|
                    0 <= i < self.snapshots@.len() - 1 ==> #[trigger] self.snapshots@[i + 1]@ == spec_step(
                        self.snapshots@[i]@,
                        resolved_row(h1, o.engine.held, o.engine.base as int, o.engine.base + d + i, nplayers),
                    ),
                forall|i: int|
                    0 <= i <= plan.start - o.engine.base - d ==> #[trigger] self.snapshots@[i]@ == o.snapshots[i + d],
                tick_spec(o.engine, local_input, msgs@, plan, n),
                h1 == o.engine.after_ingest(local_input, msgs@),
                nplayers == o.engine.num_players,
            decreases drop - d,
        {
            let ghost before = self.snapshots@;
            self.snapshots.remove(0);
            proof {
                assert forall|i: int|
                    0 <= i < self.snapshots@.len() - 1 implies #[trigger] self.snapshots@[i + 1]@ == spec_step(
                        self.snapshots@[i]@,
                        resolved_row(h1, o.engine.held, o.engine.base as int, o.engine.base + d + 1 + i, nplayers),
                    ) by {
                    assert(self.snapshots@[i + 1] == before[i + 2]);
                    assert(self.snapshots@[i] == before[i + 1]);
                }
                assert forall|i: int|
                    0 <= i <= plan.start - o.engine.base - (d + 1) implies #[trigger] self.snapshots@[i]@ == o.snapshots[i + d + 1] by {
                    assert(self.snapshots@[i] == before[i + 1]);
                }
            }
            d = d + 1;
        }
        proof {
            assert forall|i: int| 0 <= i < self@.snapshots.len() - 1 implies #[trigger] self@.snapshots[i + 1] == spec_step(
                self@.snapshots[i],
                resolved_row(n.history, n.held, n.base as int, n.base + i, n.num_players),
            ) by {
                assert(self.snapshots@[i + 1]@ == spec_step(
                    self.snapshots@[i]@,
                    resolved_row(h1, o.engine.held, o.engine.base as int, o.engine.base + drop + i, nplayers),
                ));
                let g = n.base + i;
                assert(o.engine.base + drop + i == g);
                assert forall|p: int| 0 <= p < nplayers implies #[trigger] resolved_in(n.history, n.held, n.base as int, g, p) == resolved_in(
                    h1, o.engine.held, o.engine.base as int, g, p) by {
                    assert(n.resolved(g, p) == resolved_in(h1, o.engine.held, o.engine.base as int, g, p));
                }
                assert(resolved_row(n.history, n.held, n.base as int, g, n.num_players)
                    =~= resolved_row(h1, o.engine.held, o.engine.base as int, g, nplayers));
            }
            assert forall|g: int|
                n.base <= g <= plan.start implies #[trigger] self@.snapshots[g - n.base] == o.snapshots[g
                    - o.engine.base] by {
                assert(self.snapshots@[g - n.base]@ == o.snapshots[g - n.base + drop]);
            }
        }
        plan
    }
}

/// Simulating a prefix of the frames and then the rest gives the state of
/// simulating them all: resuming from a snapshot taken at frame `k` and
/// replaying the same inputs reaches the state that no rollback would have.
pub proof fn lemma_replay_from_snapshot(s: Seq<(u32, u32)>, rows: Seq<Seq<GameInput>>, k: int)
    requires
        0 <= k <= rows.len(),
    ensures
        run_frames(run_frames(s, rows.take(k)), rows.skip(k)) == run_frames(s, rows),
    decreases rows.len() - k,
{
    if k < rows.len() {
        lemma_replay_from_snapshot(s, rows.drop_last(), k);
        assert(rows.drop_last().take(k) == rows.take(k));
        assert(rows.skip(k).drop_last() == rows.drop_last().skip(k));
        assert(rows.skip(k).last() == rows.last());
    } else {
        assert(rows.take(k) == rows);
        assert(rows.skip(k).len() == 0);
    }
}

/// Each snapshot is the first one with the frames before it simulated.
pub proof fn lemma_snapshot_is_replay(snaps: Seq<Seq<(u32, u32)>>, e: EngineView, k: int)
    requires
        snapshots_ok(snaps, e),
        0 <= k < snaps.len(),
    ensures
        snaps[k] == run_frames(snaps[0], rows_of(e, e.base as int, k as nat)),
    decreases k,
{
    if k > 0 {
        lemma_snapshot_is_replay(snaps, e, k - 1);
        assert(rows_of(e, e.base as int, k as nat).drop_last() == rows_of(e, e.base as int, (k - 1) as nat));
        assert(snaps[(k - 1) + 1] == spec_step(snaps[k - 1], resolved_row(e.history, e.held, e.base as int, e.base + (k - 1), e.num_players)));
    } else {
        assert(rows_of(e, e.base as int, 0).len() == 0);
    }
}

/// Two sessions that start from the same state and resolve the same inputs
/// for every frame hold identical snapshots at every frame.
pub proof fn lemma_snapshots_determined(
    a: Seq<Seq<(u32, u32)>>,
    ea: EngineView,
    b: Seq<Seq<(u32, u32)>>,
    eb: EngineView,
)
    requires
        snapshots_ok(a, ea),
        snapshots_ok(b, eb),
        ea.base == eb.base,
        ea.frame == eb.frame,
        a[0] == b[0],
        rows_of(ea, ea.base as int, (ea.frame - ea.base) as nat) == rows_of(
            eb,
            eb.base as int,
            (eb.frame - eb.base) as nat,
        ),
    ensures
        a == b,
{
    let len = (ea.frame - ea.base) as nat;
    assert forall|k: int| 0 <= k < a.len() implies #[trigger] a[k] == b[k] by {
        lemma_snapshot_is_replay(a, ea, k);
        lemma_snapshot_is_replay(b, eb, k);
        assert(rows_of(ea, ea.base as int, k as nat) == rows_of(ea, ea.base as int, len).take(k));
        assert(rows_of(eb, eb.base as int, k as nat) == rows_of(eb, eb.base as int, len).take(k));
    }
    assert(a =~= b);
}

} // verus!
