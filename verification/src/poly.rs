//! The note allocation of a polyphonic development: a pre-sized pool of
//! identical voices behind the same external ports. Rising edges of the
//! `gate` input claim the voice least recently allocated (a round-robin
//! cursor; with every voice busy this steals the oldest note), falling
//! edges gate off the most recently allocated note.

use vstd::prelude::*;
use crate::text::{chars_of, push_str, str_equal, string_of};

verus! {

/// Upper bound on pool voices: each voice is a full copy of the
/// development's graph.
pub const MAX_VOICES: usize = 16;

/// What an external input port does across the pool.
#[derive(Clone, Copy, Debug, PartialEq, Eq, Structural)]
pub enum PortRole {
    /// The note gate: its edges drive voice allocation.
    Gate,
    /// Sampled at note-on and held for that voice's note.
    Latch,
    /// Copied live to every voice.
    Broadcast,
}

/// The error for a pool whose development has no `gate` input.
pub open spec fn missing_gate_msg(name: Seq<char>) -> Seq<char> {
    "development '"@ + name + "': voices > 1 requires a 'gate' input to allocate notes"@
}

/// Position of the first port named `gate`.
pub open spec fn gate_position(ports: Seq<Seq<char>>, k: int) -> Option<int>
    decreases ports.len() - k,
{
    if k < 0 || k >= ports.len() {
        None
    } else if ports[k] == "gate"@ {
        Some(k)
    } else {
        gate_position(ports, k + 1)
    }
}

/// What input `i` does: it is `gate`, it broadcasts, or it latches.
pub open spec fn role_of(ports: Seq<Seq<char>>, gate: int, broadcast: Seq<Seq<char>>, i: int) -> PortRole {
    if i == gate {
        PortRole::Gate
    } else if broadcast.contains(ports[i]) {
        PortRole::Broadcast
    } else {
        PortRole::Latch
    }
}

fn listed(names: &Vec<String>, name: &String) -> (r: bool)
    ensures
        r == crate::topology::names(names@).contains(name@),
{
    let mut i: usize = 0;
    while i < names.len()
        invariant
            i <= names@.len(),
            forall|j: int| 0 <= j < i ==> names@[j]@ != name@,
        decreases names.len() - i,
    {
        if str_equal(names[i].as_str(), name.as_str()) {
            proof {
                assert(crate::topology::names(names@)[i as int] == name@);
            }
            return true;
        }
        i = i + 1;
    }
    proof {
        if crate::topology::names(names@).contains(name@) {
            let j = choose|j: int| 0 <= j < names@.len() && crate::topology::names(names@)[j] == name@;
            assert(names@[j]@ == name@);
        }
    }
    false
}

fn find_gate(ports: &Vec<String>) -> (r: Option<usize>)
    ensures
        r matches Some(g) ==> g < ports@.len() && gate_position(crate::topology::names(ports@), 0) == Some(g as int),
        r is None ==> gate_position(crate::topology::names(ports@), 0) is None,
{
    let ghost names = crate::topology::names(ports@);
    let mut g: usize = 0;
    while g < ports.len()
        invariant
            g <= ports@.len(),
            names == crate::topology::names(ports@),
            gate_position(names, 0) == gate_position(names, g as int),
        decreases ports.len() - g,
    {
        if str_equal(ports[g].as_str(), "gate") {
            proof {
                assert(names[g as int] == "gate"@);
            }
            return Some(g);
        }
        g = g + 1;
    }
    None
}

/// Finds a pool's `gate` input and gives each input its role; `broadcast`
/// names the inputs declared to broadcast. Fails when there is no voice or
/// no `gate` input.
pub fn port_roles(name: &String, voices: usize, input_ports: &Vec<String>, broadcast: &Vec<String>)
    -> (r: Result<(usize, Vec<PortRole>), String>)
    ensures
        voices == 0 ==> (r matches Err(e) && e@ == "polyphonic development needs at least one voice"@),
        voices > 0 ==> match gate_position(crate::topology::names(input_ports@), 0) {
            None => (r matches Err(e) && e@ == missing_gate_msg(name@)),
            Some(g) => (r matches Ok((gate, roles)) && gate == g && roles@.len() == input_ports@.len()
                && forall|i: int| 0 <= i < roles@.len() ==> #[trigger] roles@[i] == role_of(
                    crate::topology::names(input_ports@), g, crate::topology::names(broadcast@), i)),
        },
{
    if voices == 0 {
        return Err(string_of(&chars_of("polyphonic development needs at least one voice")));
    }
    let ghost ports = crate::topology::names(input_ports@);
    let g = match find_gate(input_ports) {
        Some(g) => g,
        None => {
            let mut m = chars_of("development '");
            push_str(&mut m, name.as_str());
            push_str(&mut m, "': voices > 1 requires a 'gate' input to allocate notes");
            proof {
                assert(m@ =~= missing_gate_msg(name@));
            }
            return Err(string_of(&m));
        },
    };
    let mut roles: Vec<PortRole> = Vec::new();
    let mut i: usize = 0;
    while i < input_ports.len()
        invariant
            i <= input_ports@.len(),
            g < input_ports@.len(),
            ports == crate::topology::names(input_ports@),
            gate_position(ports, 0) == Some(g as int),
            roles@.len() == i,
            forall|j: int| 0 <= j < i ==> #[trigger] roles@[j] == role_of(ports, g as int, crate::topology::names(broadcast@), j),
        decreases input_ports.len() - i,
    {
        let role = if i == g {
            PortRole::Gate
        } else if listed(broadcast, &input_ports[i]) {
            PortRole::Broadcast
        } else {
            PortRole::Latch
        };
        roles.push(role);
        i = i + 1;
    }
    Ok((g, roles))
}

// ---------------------------------------------------------------------------
// Allocation

/// An edge of the external gate.
#[derive(Clone, Copy, Debug, PartialEq, Eq, Structural)]
pub enum GateEdge {
    Rise,
    Fall,
}

/// What a gate edge does to the pool.
#[derive(Clone, Copy, Debug, PartialEq, Eq, Structural)]
pub enum VoiceAction {
    /// Gate voice `voice` on, first latching its inputs; `retrigger` when
    /// the voice was still gated (its note is stolen: a one-sample dip lets
    /// its envelope see a fresh rising edge).
    NoteOn { voice: usize, retrigger: bool },
    /// Gate voice `voice` off.
    NoteOff { voice: usize },
}

/// The allocation state of a pool.
pub struct VoicePool {
    /// The next voice to claim.
    pub cursor: usize,
    /// The voice holding the most recent note-on.
    pub active: usize,
    /// Whether each voice is gated on.
    pub gated: Vec<bool>,
}

/// [`VoicePool`] as plain values.
pub struct PoolV {
    pub cursor: int,
    pub active: int,
    pub gated: Seq<bool>,
}

impl VoicePool {
    pub open spec fn view(&self) -> PoolV {
        PoolV { cursor: self.cursor as int, active: self.active as int, gated: self.gated@ }
    }

    /// At least one voice; the cursor and the active voice are voices.
    pub open spec fn wf(&self) -> bool {
        &&& 0 < self.gated@.len() <= MAX_VOICES
        &&& self.cursor < self.gated@.len()
        &&& self.active < self.gated@.len()
    }

    /// A pool of `voices` voices, none gated, allocation starting at the
    /// first.
    pub fn new(voices: usize) -> (r: Self)
        requires
            0 < voices <= MAX_VOICES,
        ensures
            r.wf(),
            r.view() == (PoolV { cursor: 0, active: 0, gated: Seq::new(voices as nat, |i: int| false) }),
    {
        let mut gated: Vec<bool> = Vec::new();
        let mut i: usize = 0;
        while i < voices
            invariant
                i <= voices,
                gated@ == Seq::new(i as nat, |j: int| false),
            decreases voices - i,
        {
            gated.push(false);
            i = i + 1;
            proof {
                assert(gated@ =~= Seq::new(i as nat, |j: int| false));
            }
        }
        VoicePool { cursor: 0, active: 0, gated }
    }
}

/// The pool after an edge, and what the edge does.
pub open spec fn edge_spec(p: PoolV, edge: GateEdge) -> (PoolV, VoiceAction) {
    match edge {
        GateEdge::Rise => (
            PoolV { cursor: (p.cursor + 1) % (p.gated.len() as int), active: p.cursor, gated: p.gated.update(p.cursor, true) },
            VoiceAction::NoteOn { voice: p.cursor as usize, retrigger: p.gated[p.cursor] },
        ),
        GateEdge::Fall => (
            PoolV { gated: p.gated.update(p.active, false), ..p },
            VoiceAction::NoteOff { voice: p.active as usize },
        ),
    }
}

impl VoicePool {
    /// Applies one gate edge (see [`edge_spec`]): a rise claims the voice
    /// at the cursor and advances it round-robin; a fall gates off the
    /// voice of the latest note-on.
    pub fn on_edge(&mut self, edge: GateEdge) -> (a: VoiceAction)
        requires
            old(self).wf(),
        ensures
            final(self).wf(),
            (final(self).view(), a) == edge_spec(old(self).view(), edge),
    {
        match edge {
            GateEdge::Rise => {
                let v = self.cursor;
                let retrigger = self.gated[v];
                self.cursor = (self.cursor + 1) % self.gated.len();
                self.active = v;
                self.gated.set(v, true);
                VoiceAction::NoteOn { voice: v, retrigger }
            },
            GateEdge::Fall => {
                let v = self.active;
                self.gated.set(v, false);
                VoiceAction::NoteOff { voice: v }
            },
        }
    }
}

/// A note-off right after a note-on gates off the voice that note-on
/// claimed, and the next note-on claims the next voice round-robin.
pub proof fn lemma_note_off_releases_latest_note(p: PoolV)
    requires
        0 < p.gated.len() <= MAX_VOICES,
        0 <= p.cursor < p.gated.len(),
        0 <= p.active < p.gated.len(),
    ensures
        ({
            let (q, on) = edge_spec(p, GateEdge::Rise);
            let (r, off) = edge_spec(q, GateEdge::Fall);
            &&& (on matches VoiceAction::NoteOn { voice, .. } && off == (VoiceAction::NoteOff { voice }))
            &&& !r.gated[p.cursor]
            &&& (edge_spec(r, GateEdge::Rise).1 matches VoiceAction::NoteOn { voice: next, retrigger }
                && next == (p.cursor + 1) % (p.gated.len() as int) && r.cursor == next)
        }),
{
}

/// With `n` voices, `n` note-ons in a row claim every voice once: the
/// voice claimed `k` rises from now is the one `k` places after the cursor.
pub proof fn lemma_round_robin(p: PoolV, k: nat)
    requires
        0 < p.gated.len(),
        0 <= p.cursor < p.gated.len(),
        0 <= p.active < p.gated.len(),
    ensures
        rises(p, k).cursor == (p.cursor + k) % (p.gated.len() as int),
        rises(p, k).gated.len() == p.gated.len(),
    decreases k,
{
    if k > 0 {
        lemma_round_robin(p, (k - 1) as nat);
        let q = rises(p, (k - 1) as nat);
        let n = p.gated.len() as int;
        let x = p.cursor + k - 1;
        assert(q.cursor == x % n);
        vstd::arithmetic::div_mod::lemma_add_mod_noop_right(1, x, n);
        assert((1 + (x % n)) % n == (1 + x) % n);
        assert(q.cursor + 1 == 1 + (x % n));
        assert(1 + x == p.cursor + k);
        assert(rises(p, k) == edge_spec(q, GateEdge::Rise).0);
        assert(rises(p, k).cursor == (q.cursor + 1) % (q.gated.len() as int));
    } else {
        vstd::arithmetic::div_mod::lemma_small_mod(p.cursor as nat, p.gated.len());
    }
}

/// The pool after `k` rising edges.
pub open spec fn rises(p: PoolV, k: nat) -> PoolV
    decreases k,
{
    if k == 0 {
        p
    } else {
        edge_spec(rises(p, (k - 1) as nat), GateEdge::Rise).0
    }
}

} // verus!
