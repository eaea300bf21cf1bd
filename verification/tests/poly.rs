use fugue::poly::{port_roles, GateEdge, PortRole, VoiceAction, VoicePool};

fn names(list: &[&str]) -> Vec<String> {
    list.iter().map(|n| n.to_string()).collect()
}

#[test]
fn gate_drives_allocation_and_other_inputs_latch_or_broadcast() {
    let (gate, roles) =
        port_roles(&"pad".to_string(), 4, &names(&["pitch", "gate", "sustain"]), &names(&["sustain"])).unwrap();
    assert_eq!(gate, 1);
    assert_eq!(roles, vec![PortRole::Latch, PortRole::Gate, PortRole::Broadcast]);
}

#[test]
fn pools_need_voices_and_a_gate() {
    assert_eq!(
        port_roles(&"pad".to_string(), 0, &names(&["gate"]), &Vec::new()).err(),
        Some("polyphonic development needs at least one voice".to_string())
    );
    assert_eq!(
        port_roles(&"pad".to_string(), 2, &names(&["pitch"]), &Vec::new()).err(),
        Some("development 'pad': voices > 1 requires a 'gate' input to allocate notes".to_string())
    );
}

#[test]
fn steal_oldest_claims_voices_round_robin() {
    let mut pool = VoicePool::new(2);
    assert_eq!(pool.on_edge(GateEdge::Rise), VoiceAction::NoteOn { voice: 0, retrigger: false });
    assert_eq!(pool.on_edge(GateEdge::Rise), VoiceAction::NoteOn { voice: 1, retrigger: false });
    // Both voices ring: the oldest note is stolen and retriggered.
    assert_eq!(pool.on_edge(GateEdge::Rise), VoiceAction::NoteOn { voice: 0, retrigger: true });
    // The release goes to the latest note.
    assert_eq!(pool.on_edge(GateEdge::Fall), VoiceAction::NoteOff { voice: 0 });
    assert_eq!(pool.gated, vec![false, true]);
    assert_eq!(pool.on_edge(GateEdge::Rise), VoiceAction::NoteOn { voice: 1, retrigger: true });
}

#[test]
fn mono_pool_reuses_its_only_voice() {
    let mut pool = VoicePool::new(1);
    assert_eq!(pool.on_edge(GateEdge::Rise), VoiceAction::NoteOn { voice: 0, retrigger: false });
    assert_eq!(pool.on_edge(GateEdge::Fall), VoiceAction::NoteOff { voice: 0 });
    assert_eq!(pool.on_edge(GateEdge::Rise), VoiceAction::NoteOn { voice: 0, retrigger: false });
}
