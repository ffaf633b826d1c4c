//! Session bootstrap: waits until the rendezvous reports the required number
//! of peers, then fixes player handles by ascending peer identifier and takes
//! the communication channel exactly once.
use vstd::prelude::*;

verus! {

/// Why a bootstrap attempt did not start a session.
#[derive(Clone, Copy, Debug, PartialEq, Eq, Structural)]
pub enum BootstrapError {
    /// The peer list cannot be bound to handles: a peer appears twice, there
    /// are more peers than handles, or the local peer is not among them.
    SessionBuildError,
    /// The session is already running; nothing was changed.
    AlreadyStarted,
}

/// Whether `s` is strictly ascending.
pub open spec fn strictly_ascending(s: Seq<u64>) -> bool {
    forall|i: int, j: int| 0 <= i < j < s.len() ==> s[i] < s[j]
}

/// Whether no identifier occurs twice in `s`.
pub open spec fn distinct(s: Seq<u64>) -> bool {
    forall|i: int, j: int| 0 <= i < j < s.len() ==> s[i] != s[j]
}

/// Whether `h` lists exactly the identifiers of `peers`, ascending: handle
/// `k` is bound to `h[k]`.
pub open spec fn handles_for(h: Seq<u64>, peers: Seq<u64>) -> bool {
    &&& strictly_ascending(h)
    &&& h.len() == peers.len()
    &&& forall|x: u64| h.contains(x) <==> peers.contains(x)
}

/// Whether a peer list that the rendezvous reports can be bound.
pub open spec fn bindable(peers: Seq<u64>, required: nat, local: u64) -> bool {
    peers.len() == required && distinct(peers) && peers.contains(local)
}

/// What a bootstrap is, as the contracts see it.
pub struct BootstrapView {
    pub required: nat,
    pub local: u64,
    pub running: bool,
    /// Peer identifier of each handle; empty while waiting.
    pub handles: Seq<u64>,
}

/// Bootstrap state: `WaitingForPlayers` until `try_start` succeeds, then
/// `Running` with fixed handle bindings.
pub struct Bootstrap {
    required: usize,
    local: u64,
    running: bool,
    handles: Vec<u64>,
}

impl View for Bootstrap {
    type V = BootstrapView;

    closed spec fn view(&self) -> BootstrapView {
        BootstrapView {
            required: self.required as nat,
            local: self.local,
            running: self.running,
            handles: self.handles@,
        }
    }
}

impl Bootstrap {
    /// Whether the state is consistent: bindings exist exactly while running.
    pub open spec fn wf(&self) -> bool {
        &&& self@.required >= 2
        &&& (self@.running ==> strictly_ascending(self@.handles) && self@.handles.len()
            == self@.required && self@.handles.contains(self@.local))
        &&& (!self@.running ==> self@.handles.len() == 0)
    }

    /// A bootstrap waiting for `required` players, the local one being `local`.
    pub fn new(required: usize, local: u64) -> (r: Bootstrap)
        requires
            required >= 2,
        ensures
            r.wf(),
            r@.required == required,
            r@.local == local,
            !r@.running,
            r@.handles.len() == 0,
    {
        Bootstrap { required, local, running: false, handles: Vec::new() }
    }

    /// Whether the session is running.
    pub fn is_running(&self) -> (r: bool)
        ensures
            r == self@.running,
    {
        self.running
    }

    /// The peer identifier bound to each handle (empty while waiting).
    pub fn handles(&self) -> (r: Vec<u64>)
        ensures
            r@ == self@.handles,
    {
        let mut out: Vec<u64> = Vec::new();
        let mut i: usize = 0;
        while i < self.handles.len()
            invariant
                i <= self.handles@.len(),
                out@ == self.handles@.take(i as int),
            decreases self.handles@.len() - i,
        {
            out.push(self.handles[i]);
            i = i + 1;
            assert(out@ =~= self.handles@.take(i as int));
        }
        assert(self.handles@.take(i as int) =~= self.handles@);
        out
    }

    /// The handle bound to `peer`, if any.
    pub fn handle_of(&self, peer: u64) -> (r: Option<usize>)
        requires
            self.wf(),
        ensures
            r matches Some(k) ==> k < self@.handles.len() && self@.handles[k as int] == peer,
            r is None ==> !self@.handles.contains(peer),
    {
        let mut i: usize = 0;
        while i < self.handles.len()
            invariant
                i <= self.handles@.len(),
                forall|j: int| 0 <= j < i ==> self.handles@[j] != peer,
            decreases self.handles@.len() - i,
        {
            if self.handles[i] == peer {
                return Some(i);
            }
            i = i + 1;
        }
        None
    }

    /// The local player's handle, while running.
    pub fn local_handle(&self) -> (r: Option<usize>)
        requires
            self.wf(),
        ensures
            self@.running ==> (r matches Some(k) && k < self@.handles.len() && self@.handles[k as int]
                == self@.local),
            !self@.running ==> r is None,
    {
        self.handle_of(self.local)
    }

    /// One bootstrap attempt with the peers that the rendezvous currently
    /// reports (the local peer among them).
    ///
    /// Already running: `AlreadyStarted`, nothing changes. Fewer peers than
    /// required: `Ok(false)`, still waiting. The required count reached but
    /// the list not bindable: `SessionBuildError`, still waiting. Otherwise
    /// handles are assigned by ascending identifier, the session runs, and
    /// `Ok(true)` is returned.
    pub fn try_start(&mut self, peers: &Vec<u64>) -> (r: Result<bool, BootstrapError>)
        requires
            old(self).wf(),
        ensures
            final(self).wf(),
            old(self)@.running ==> r == Err::<bool, BootstrapError>(BootstrapError::AlreadyStarted)
                && final(self)@ == old(self)@,
            !old(self)@.running && peers@.len() < old(self)@.required ==> r == Ok::<
                bool,
                BootstrapError,
            >(false) && final(self)@ == old(self)@,
            !old(self)@.running && peers@.len() >= old(self)@.required && !bindable(
                peers@,
                old(self)@.required,
                old(self)@.local,
            ) ==> r == Err::<bool, BootstrapError>(BootstrapError::SessionBuildError)
                && final(self)@ == old(self)@,
            !old(self)@.running && bindable(peers@, old(self)@.required, old(self)@.local) ==> r
                == Ok::<bool, BootstrapError>(true) && final(self)@.running && final(self)@.required
                == old(self)@.required && final(self)@.local == old(self)@.local && handles_for(
                final(self)@.handles,
                peers@,
            ),
    {
        if self.running {
            return Err(BootstrapError::AlreadyStarted);
        }
        if peers.len() < self.required {
            return Ok(false);
        }
        if peers.len() != self.required {
            return Err(BootstrapError::SessionBuildError);
        }
        match ascending_handles(peers) {
            None => Err(BootstrapError::SessionBuildError),
            Some(h) => {
                let mut has_local = false;
                let mut i: usize = 0;
                while i < peers.len()
                    invariant
                        i <= peers@.len(),
                        has_local == exists|j: int| 0 <= j < i && peers@[j] == self.local,
                    decreases peers@.len() - i,
                {
                    if peers[i] == self.local {
                        has_local = true;
                    }
                    i = i + 1;
                }
                if !has_local {
                    return Err(BootstrapError::SessionBuildError);
                }
                assert(h@.contains(self.local)) by {
                    let j = choose|j: int| 0 <= j < peers@.len() && peers@[j] == self.local;
                    assert(peers@.contains(peers@[j]));
                }
                self.handles = h;
                self.running = true;
                Ok(true)
            },
        }
    }

    /// Tears the session down: back to waiting, with no bindings left.
    pub fn reset(&mut self)
        requires
            old(self).wf(),
        ensures
            final(self).wf(),
            !final(self)@.running,
            final(self)@.handles.len() == 0,
            final(self)@.required == old(self)@.required,
            final(self)@.local == old(self)@.local,
    {
        self.running = false;
        self.handles = Vec::new();
    }
}

/// The identifiers of `peers` in ascending order, or `None` when one occurs
/// twice.
pub fn ascending_handles(peers: &Vec<u64>) -> (r: Option<Vec<u64>>)
    ensures
        r is None <==> !distinct(peers@),
        r matches Some(h) ==> handles_for(h@, peers@),
{
    let mut out: Vec<u64> = Vec::new();
    let mut i: usize = 0;
    while i < peers.len()
        invariant
            i <= peers@.len(),
            out@.len() == i,
            strictly_ascending(out@),
            distinct(peers@.take(i as int)),
            forall|x: u64| out@.contains(x) <==> peers@.take(i as int).contains(x),
        decreases peers@.len() - i,
    {
        let x = peers[i];
        let mut k: usize = 0;
        while k < out.len() && out[k] < x
            invariant
                k <= out@.len(),
                forall|j: int| 0 <= j < k ==> out@[j] < x,
            decreases out@.len() - k,
        {
            k = k + 1;
        }
        if k < out.len() && out[k] == x {
            proof {
                assert(out@.contains(x));
                let t = peers@.take(i as int);
                let j = choose|j: int| 0 <= j < t.len() && t[j] == x;
                assert(peers@[j] == peers@[i as int]);
            }
            return None;
        }
        let ghost prev = out@;
        out.insert(k, x);
        assert(out@ == prev.insert(k as int, x));
        assert forall|a: int, b: int| 0 <= a < b < out@.len() implies out@[a] < out@[b] by {
            if b < k {
            } else if b == k {
            } else if a < k {
                assert(out@[b] == prev[b - 1]);
                assert(prev[b - 1] >= x) by {
                    assert(prev[k as int] > x);
                }
            } else if a == k {
                assert(out@[b] == prev[b - 1]);
                assert(prev[k as int] > x);
            } else {
                assert(out@[a] == prev[a - 1]);
                assert(out@[b] == prev[b - 1]);
            }
        }
        assert(peers@.take(i + 1) == peers@.take(i as int).push(x));
        assert forall|y: u64| out@.contains(y) <==> peers@.take(i + 1).contains(y) by {
            if out@.contains(y) {
                let j = choose|j: int| 0 <= j < out@.len() && out@[j] == y;
                if j != k {
                    let jj = if j < k { j } else { j - 1 };
                    assert(prev[jj] == y);
                    assert(prev.contains(y));
                    assert(peers@.take(i as int).contains(y));
                    let t = peers@.take(i as int);
                    let m = choose|m: int| 0 <= m < t.len() && t[m] == y;
                    assert(peers@.take(i + 1)[m] == y);
                } else {
                    assert(peers@.take(i + 1)[i as int] == y);
                }
            }
            if peers@.take(i + 1).contains(y) {
                let t = peers@.take(i + 1);
                let m = choose|m: int| 0 <= m < t.len() && t[m] == y;
                if m < i {
                    assert(peers@.take(i as int)[m] == y);
                    assert(prev.contains(y));
                    let j = choose|j: int| 0 <= j < prev.len() && prev[j] == y;
                    let jj = if j < k { j } else { j + 1 };
                    assert(out@[jj] == y);
                } else {
                    assert(out@[k as int] == y);
                }
            }
        }
        let ghost t1 = peers@.take(i + 1);
        assert forall|a: int, b: int| 0 <= a < b < t1.len() implies #[trigger] t1[a]
            != #[trigger] t1[b] by {
            if b == i {
                if peers@.take(i + 1)[a] == x {
                    assert(peers@.take(i as int)[a] == x);
                    assert(peers@.take(i as int).contains(x));
                    assert(prev.contains(x));
                    let j = choose|j: int| 0 <= j < prev.len() && prev[j] == x;
                    if j < k {
                    } else {
                        assert(prev[j] >= prev[k as int]) by {
                            if j > k {
                            }
                        }
                    }
                }
            } else {
                assert(peers@.take(i as int)[a] == peers@.take(i + 1)[a]);
                assert(peers@.take(i as int)[b] == peers@.take(i + 1)[b]);
            }
        }
        i = i + 1;
    }
    assert(peers@.take(i as int) =~= peers@);
    Some(out)
}

} // verus!
