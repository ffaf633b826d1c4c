//! The input history as a list of confirmed records, and the frame-hold rule
//! that resolves every (frame, player) slot from it.
use vstd::prelude::*;
use crate::input::GameInput;

verus! {

/// An authoritative input of one player for one frame.
#[derive(Clone, Copy, Debug, PartialEq, Eq, Structural)]
pub struct InputRecord {
    pub frame: usize,
    pub player: usize,
    pub input: GameInput,
}

/// The confirmed input of player `p` at frame `f`, if one has arrived.
pub open spec fn confirmed_in(h: Seq<InputRecord>, f: int, p: int) -> Option<GameInput>
    decreases h.len(),
{
    if h.len() == 0 {
        None
    } else if h.last().frame == f && h.last().player == p {
        Some(h.last().input)
    } else {
        confirmed_in(h.drop_last(), f, p)
    }
}

/// The input used for player `p` at frame `f`: the confirmed one if it has
/// arrived, else the one resolved for the previous frame (frame-hold
/// prediction). Below the retained window `base` the value held at the
/// window's edge, `held[p]`, stands for everything older.
pub open spec fn resolved_in(
    h: Seq<InputRecord>,
    held: Seq<GameInput>,
    base: int,
    f: int,
    p: int,
) -> GameInput
    decreases f + 1 - base,
{
    if f < base {
        held[p]
    } else {
        match confirmed_in(h, f, p) {
            Some(x) => x,
            None => resolved_in(h, held, base, f - 1, p),
        }
    }
}

/// The resolved inputs of all `n` players at frame `f`, by handle.
pub open spec fn resolved_row(
    h: Seq<InputRecord>,
    held: Seq<GameInput>,
    base: int,
    f: int,
    n: nat,
) -> Seq<GameInput> {
    Seq::new(n, |p: int| resolved_in(h, held, base, f, p))
}

/// Whether every one of the `n` players has a confirmed input at frame `f`.
pub open spec fn all_confirmed(h: Seq<InputRecord>, f: int, n: nat) -> bool {
    forall|p: int| 0 <= p < n ==> (#[trigger] confirmed_in(h, f, p)) is Some
}

/// Whether no (frame, player) slot has two records.
pub open spec fn unique_slots(h: Seq<InputRecord>) -> bool {
    forall|i: int, j: int|
        0 <= i < j < h.len() ==> !(#[trigger] h[i].frame == #[trigger] h[j].frame && h[i].player
            == h[j].player)
}

/// `h` with `r` added, unless its slot is already confirmed (the first
/// confirmed value of a slot is kept).
pub open spec fn record_in(h: Seq<InputRecord>, r: InputRecord) -> Seq<InputRecord> {
    if confirmed_in(h, r.frame as int, r.player as int) is None {
        h.push(r)
    } else {
        h
    }
}

/// The records of `h` at frames `nb` and later, in order.
pub open spec fn keep_from(h: Seq<InputRecord>, nb: int) -> Seq<InputRecord>
    decreases h.len(),
{
    if h.len() == 0 {
        h
    } else if h.last().frame >= nb {
        keep_from(h.drop_last(), nb).push(h.last())
    } else {
        keep_from(h.drop_last(), nb)
    }
}

/// A slot is unconfirmed exactly when no record names it.
pub proof fn lemma_confirmed_none(h: Seq<InputRecord>, f: int, p: int)
    ensures
        confirmed_in(h, f, p) is None <==> forall|i: int|
            0 <= i < h.len() ==> !(#[trigger] h[i].frame == f && h[i].player == p),
    decreases h.len(),
{
    if h.len() > 0 {
        lemma_confirmed_none(h.drop_last(), f, p);
        if confirmed_in(h, f, p) is None {
            assert forall|i: int| 0 <= i < h.len() implies !(#[trigger] h[i].frame == f
                && h[i].player == p) by {
                if i < h.len() - 1 {
                    assert(h.drop_last()[i] == h[i]);
                }
            }
        } else if h.last().frame != f || h.last().player != p {
            let i = choose|i: int|
                0 <= i < h.drop_last().len() && #[trigger] h.drop_last()[i].frame == f
                    && h.drop_last()[i].player == p;
            assert(h[i] == h.drop_last()[i]);
        }
    }
}

/// Adding a record changes nothing at earlier frames, nor for other players.
pub proof fn lemma_push_elsewhere(
    h: Seq<InputRecord>,
    held: Seq<GameInput>,
    base: int,
    r: InputRecord,
    g: int,
    q: int,
)
    requires
        r.frame > g || r.player != q,
    ensures
        resolved_in(h.push(r), held, base, g, q) == resolved_in(h, held, base, g, q),
    decreases g + 1 - base,
{
    assert(h.push(r).drop_last() == h);
    if g >= base {
        lemma_push_elsewhere(h, held, base, r, g - 1, q);
    }
}

/// Adding a record whose value equals what was already resolved for its
/// slot changes no resolved input at all.
pub proof fn lemma_push_agreeing(
    h: Seq<InputRecord>,
    held: Seq<GameInput>,
    base: int,
    r: InputRecord,
    g: int,
    q: int,
)
    requires
        confirmed_in(h, r.frame as int, r.player as int) is None,
        r.input == resolved_in(h, held, base, r.frame as int, r.player as int),
    ensures
        resolved_in(h.push(r), held, base, g, q) == resolved_in(h, held, base, g, q),
    decreases g + 1 - base,
{
    assert(h.push(r).drop_last() == h);
    if r.frame > g || r.player != q {
        lemma_push_elsewhere(h, held, base, r, g, q);
    } else if g >= base && g != r.frame {
        lemma_push_agreeing(h, held, base, r, g - 1, q);
    }
}

/// Which slots stay confirmed after dropping the records below `nb`.
pub proof fn lemma_keep_from_confirmed(h: Seq<InputRecord>, nb: int, g: int, p: int)
    ensures
        confirmed_in(keep_from(h, nb), g, p) == (if g >= nb {
            confirmed_in(h, g, p)
        } else {
            None
        }),
    decreases h.len(),
{
    if h.len() > 0 {
        lemma_keep_from_confirmed(h.drop_last(), nb, g, p);
        if h.last().frame >= nb {
            assert(keep_from(h, nb).drop_last() == keep_from(h.drop_last(), nb));
        }
    }
}

/// Moving the window's edge up to `nb`, with the inputs resolved just below
/// it held, keeps every resolved input from `nb - 1` on.
pub proof fn lemma_keep_from_resolved(
    h: Seq<InputRecord>,
    held: Seq<GameInput>,
    base: int,
    nb: int,
    held2: Seq<GameInput>,
    g: int,
    p: int,
)
    requires
        base <= nb,
        g >= nb - 1,
        0 <= p < held2.len(),
        forall|q: int| 0 <= q < held2.len() ==> #[trigger] held2[q] == resolved_in(h, held, base, nb - 1, q),
    ensures
        resolved_in(keep_from(h, nb), held2, nb, g, p) == resolved_in(h, held, base, g, p),
    decreases g + 1 - nb,
{
    if g >= nb {
        lemma_keep_from_confirmed(h, nb, g, p);
        lemma_keep_from_resolved(h, held, base, nb, held2, g - 1, p);
    }
}

/// Adding a record for an unconfirmed slot keeps every slot single.
pub proof fn lemma_unique_push(h: Seq<InputRecord>, r: InputRecord)
    requires
        unique_slots(h),
        confirmed_in(h, r.frame as int, r.player as int) is None,
    ensures
        unique_slots(h.push(r)),
{
    lemma_confirmed_none(h, r.frame as int, r.player as int);
    let h2 = h.push(r);
    assert forall|i: int, j: int| 0 <= i < j < h2.len() implies !(#[trigger] h2[i].frame
        == #[trigger] h2[j].frame && h2[i].player == h2[j].player) by {
        if j == h.len() {
            assert(h2[i] == h[i]);
        } else {
            assert(h2[i] == h[i] && h2[j] == h[j]);
        }
    }
}

/// Dropping old records keeps every slot single.
pub proof fn lemma_unique_keep_from(h: Seq<InputRecord>, nb: int)
    requires
        unique_slots(h),
    ensures
        unique_slots(keep_from(h, nb)),
    decreases h.len(),
{
    if h.len() > 0 {
        let d = h.drop_last();
        assert(unique_slots(d)) by {
            assert forall|i: int, j: int| 0 <= i < j < d.len() implies !(#[trigger] d[i].frame
                == #[trigger] d[j].frame && d[i].player == d[j].player) by {
                assert(d[i] == h[i] && d[j] == h[j]);
            }
        }
        lemma_unique_keep_from(d, nb);
        if h.last().frame >= nb {
            let r = h.last();
            lemma_confirmed_none(d, r.frame as int, r.player as int);
            assert forall|i: int| 0 <= i < d.len() implies !(#[trigger] d[i].frame == r.frame
                && d[i].player == r.player) by {
                assert(d[i] == h[i]);
            }
            lemma_keep_from_confirmed(d, nb, r.frame as int, r.player as int);
            lemma_unique_push(keep_from(d, nb), r);
        }
    }
}

/// The confirmed input for a slot, by a scan of the records.
pub fn lookup(h: &Vec<InputRecord>, f: usize, p: usize) -> (r: Option<GameInput>)
    ensures
        r == confirmed_in(h@, f as int, p as int),
{
    let mut i: usize = h.len();
    assert(h@.take(i as int) == h@);
    while i > 0
        invariant
            i <= h@.len(),
            confirmed_in(h@, f as int, p as int) == confirmed_in(h@.take(i as int), f as int, p as int),
        decreases i,
    {
        assert(h@.take(i as int).drop_last() == h@.take(i - 1));
        let rec = h[i - 1];
        if rec.frame == f && rec.player == p {
            return Some(rec.input);
        }
        i = i - 1;
    }
    None
}

/// The input resolved for player `p` at frame `f` by the frame-hold rule.
pub fn resolve(h: &Vec<InputRecord>, held: &Vec<GameInput>, base: usize, f: usize, p: usize) -> (r:
    GameInput)
    requires
        p < held@.len(),
        f < usize::MAX,
    ensures
        r == resolved_in(h@, held@, base as int, f as int, p as int),
{
    let mut g: usize = f + 1;
    while g > base
        invariant
            g <= f + 1,
            resolved_in(h@, held@, base as int, f as int, p as int) == resolved_in(
                h@,
                held@,
                base as int,
                g - 1,
                p as int,
            ),
        decreases g,
    {
        match lookup(h, g - 1, p) {
            Some(x) => {
                return x;
            },
            None => {
                g = g - 1;
            },
        }
    }
    held[p]
}

/// The resolved inputs of players `0..n` at frame `f`.
pub fn resolve_row(h: &Vec<InputRecord>, held: &Vec<GameInput>, base: usize, f: usize, n: usize) -> (r:
    Vec<GameInput>)
    requires
        n <= held@.len(),
        f < usize::MAX,
    ensures
        r@ == resolved_row(h@, held@, base as int, f as int, n as nat),
{
    let mut out: Vec<GameInput> = Vec::new();
    let mut p: usize = 0;
    while p < n
        invariant
            p <= n <= held@.len(),
            f < usize::MAX,
            out@ == resolved_row(h@, held@, base as int, f as int, p as nat),
        decreases n - p,
    {
        out.push(resolve(h, held, base, f, p));
        p = p + 1;
        assert(out@ =~= resolved_row(h@, held@, base as int, f as int, p as nat));
    }
    out
}

/// The records of `h` at frames `nb` and later.
pub fn prune(h: &Vec<InputRecord>, nb: usize) -> (r: Vec<InputRecord>)
    ensures
        r@ == keep_from(h@, nb as int),
{
    let mut out: Vec<InputRecord> = Vec::new();
    let mut i: usize = 0;
    while i < h.len()
        invariant
            i <= h@.len(),
            out@ == keep_from(h@.take(i as int), nb as int),
        decreases h@.len() - i,
    {
        assert(h@.take(i + 1).drop_last() == h@.take(i as int));
        if h[i].frame >= nb {
            out.push(h[i]);
        }
        i = i + 1;
    }
    assert(h@.take(i as int) == h@);
    out
}

} // verus!
