use keyboard_macros::profile::{
    Action, ActionEvent, Channel, DeviceKey, DeviceKeyLayer, KeyId, KeyboardEvent, KeyboardKey,
    KeyboardProfile, LayerEvent, LayerId, LayerTag, Macro, MacroId, MouseButton, MouseEvent,
    Sequence, TagMatchType, TaggedDeviceKeyLayer,
};
use keyboard_macros::state::{
    KeyState, KeyboardState, MacroState, Phase, SequenceState, TriggerState,
};
use keyboard_macros::TagList;

fn tag(s: &str) -> LayerTag {
    LayerTag::new(s.to_string())
}

fn seq_of(delays: &[u32]) -> Sequence {
    Sequence {
        actions: delays
            .iter()
            .map(|d| Action { predelay_ms: *d, action_event: ActionEvent::Nothing })
            .collect(),
    }
}

fn make_macro(id: i128, start: &[u32], lp: &[u32], end: &[u32], play: Option<i128>, cut: &[i128]) -> Macro {
    Macro {
        id: MacroId::new(id),
        name: "Name".to_string(),
        play_channel: play.map(Channel::new),
        cut_channels: cut.iter().map(|c| Channel::new(*c)).collect(),
        start_sequence: seq_of(start),
        loop_sequence: seq_of(lp),
        end_sequence: seq_of(end),
    }
}

fn standard_macro(id: i128, play: Option<i128>, cut: &[i128]) -> Macro {
    make_macro(id, &[100], &[200], &[300], play, cut)
}

fn plain_key(id: i128, macros: Vec<Macro>) -> DeviceKey {
    DeviceKey {
        key_id: KeyId::new(id),
        layers: Vec::new(),
        default_layer: DeviceKeyLayer { id: LayerId::new(1), macros },
    }
}

fn tagged_key(default_macro: i128, tagged_macro: i128, tags: Vec<LayerTag>, mode: TagMatchType) -> DeviceKey {
    DeviceKey {
        key_id: KeyId::new(1),
        layers: vec![TaggedDeviceKeyLayer {
            layer: DeviceKeyLayer {
                id: LayerId::new(2),
                macros: vec![standard_macro(tagged_macro, Some(1), &[1])],
            },
            tags,
            match_type: mode,
        }],
        default_layer: DeviceKeyLayer {
            id: LayerId::new(1),
            macros: vec![standard_macro(default_macro, Some(1), &[1])],
        },
    }
}

fn phase_of(state: &KeyboardState, i: usize) -> Phase {
    state.macros()[i].current_sequence().phase()
}

// ------- tag set --------

#[test]
fn tag_queries_on_empty_lists() {
    let mut tags = TagList::new();
    assert!(tags.contains_all(&vec![]));
    assert!(!tags.contains_any(&vec![]));
    tags.add_internal(tag("a"));
    assert!(tags.contains_all(&vec![]));
    assert!(!tags.contains_any(&vec![]));
}

#[test]
fn tag_queries_use_both_buckets() {
    let mut tags = TagList::new();
    tags.add_internal(tag("a"));
    tags.set_external(vec![tag("b")]);
    assert!(tags.contains_all(&vec![tag("a"), tag("b")]));
    assert!(!tags.contains_all(&vec![tag("a"), tag("c")]));
    assert!(tags.contains_any(&vec![tag("c"), tag("b")]));
    assert!(!tags.contains_any(&vec![tag("c"), tag("d")]));
}

#[test]
fn removing_a_tag_takes_out_one_occurrence() {
    let mut tags = TagList::new();
    tags.add_many_internal(vec![tag("a"), tag("a")]);
    tags.remove_internal(tag("a"));
    assert!(tags.contains_all(&vec![tag("a")]));
    tags.remove_internal(tag("a"));
    assert!(!tags.contains_any(&vec![tag("a")]));
    // removing an absent tag does nothing
    tags.remove_internal(tag("a"));
    assert!(!tags.contains_any(&vec![tag("a")]));
}

#[test]
fn remove_many_and_clear_internal() {
    let mut tags = TagList::new();
    tags.add_many_internal(vec![tag("a"), tag("b"), tag("c")]);
    tags.remove_many_internal(vec![tag("a"), tag("c"), tag("z")]);
    assert!(tags.contains_all(&vec![tag("b")]));
    assert!(!tags.contains_any(&vec![tag("a"), tag("c")]));
    tags.set_external(vec![tag("e")]);
    tags.clear_internal();
    assert!(!tags.contains_any(&vec![tag("b")]));
    assert!(tags.contains_all(&vec![tag("e")]));
}

#[test]
fn external_tags_are_replaced_whole() {
    let mut tags = TagList::new();
    tags.set_external(vec![tag("a"), tag("b")]);
    tags.set_external(vec![tag("c")]);
    assert!(!tags.contains_any(&vec![tag("a"), tag("b")]));
    assert!(tags.contains_all(&vec![tag("c")]));
}

// ------- layer resolution --------

#[test]
fn active_layer_follows_match_mode() {
    let all_key = tagged_key(1, 2, vec![tag("x"), tag("y")], TagMatchType::All);
    let any_key = tagged_key(1, 2, vec![tag("x"), tag("y")], TagMatchType::Any);
    let mut tags = TagList::new();
    tags.add_internal(tag("x"));
    assert_eq!(all_key.get_active_layer(&tags).id, LayerId::new(1));
    assert_eq!(any_key.get_active_layer(&tags).id, LayerId::new(2));
    tags.add_internal(tag("y"));
    assert_eq!(all_key.get_active_layer(&tags).id, LayerId::new(2));
}

#[test]
fn first_matching_layer_wins() {
    let key = DeviceKey {
        key_id: KeyId::new(1),
        layers: vec![
            TaggedDeviceKeyLayer {
                layer: DeviceKeyLayer { id: LayerId::new(5), macros: vec![] },
                tags: vec![tag("x")],
                match_type: TagMatchType::Any,
            },
            TaggedDeviceKeyLayer {
                layer: DeviceKeyLayer { id: LayerId::new(6), macros: vec![] },
                tags: vec![tag("x")],
                match_type: TagMatchType::All,
            },
        ],
        default_layer: DeviceKeyLayer { id: LayerId::new(1), macros: vec![] },
    };
    let mut tags = TagList::new();
    tags.set_external(vec![tag("x")]);
    assert_eq!(key.get_active_layer(&tags).id, LayerId::new(5));
}

// ------- sequence runner --------

#[test]
fn sequence_tick_of_total_delay_plays_everything_in_order() {
    let sequence = Sequence {
        actions: vec![
            Action { predelay_ms: 10, action_event: ActionEvent::Keyboard(KeyboardEvent::KeyDown(KeyboardKey::B)) },
            Action { predelay_ms: 0, action_event: ActionEvent::Mouse(MouseEvent::ButtonDown(MouseButton::Left)) },
            Action { predelay_ms: 30, action_event: ActionEvent::Layer(LayerEvent::Enable(tag("x"))) },
        ],
    };
    let mut state = SequenceState::from(&sequence, 0);
    let mut events = vec![];
    let left = state.tick(40, &mut events);
    assert_eq!(left, 0);
    assert!(state.is_finished());
    assert_eq!(events.len(), 3);
    assert!(matches!(events[0], ActionEvent::Keyboard(KeyboardEvent::KeyDown(KeyboardKey::B))));
    assert!(matches!(events[1], ActionEvent::Mouse(MouseEvent::ButtonDown(MouseButton::Left))));
    assert!(matches!(events[2], ActionEvent::Layer(LayerEvent::Enable(_))));
}

#[test]
fn sequence_split_ticks_match_one_tick() {
    let sequence = Sequence {
        actions: vec![
            Action { predelay_ms: 100, action_event: ActionEvent::Mouse(MouseEvent::ScrollUp(1)) },
            Action { predelay_ms: 200, action_event: ActionEvent::Mouse(MouseEvent::ScrollDown(2)) },
            Action { predelay_ms: 100, action_event: ActionEvent::Mouse(MouseEvent::Move(3, -4)) },
        ],
    };
    let mut one = SequenceState::from(&sequence, 0);
    let mut one_events = vec![];
    one.tick(350, &mut one_events);

    let mut split = SequenceState::from(&sequence, 0);
    let mut split_events = vec![];
    split.tick(50, &mut split_events);
    split.tick(120, &mut split_events);
    split.tick(180, &mut split_events);

    assert_eq!(one.pending_len(), 1);
    assert_eq!(split.pending_len(), 1);
    assert_eq!(one.elapsed_ms(), 50);
    assert_eq!(split.elapsed_ms(), 50);
    assert_eq!(one_events.len(), 2);
    assert_eq!(split_events.len(), 2);
    assert!(matches!(split_events[0], ActionEvent::Mouse(MouseEvent::ScrollUp(1))));
    assert!(matches!(split_events[1], ActionEvent::Mouse(MouseEvent::ScrollDown(2))));
}

#[test]
fn sequence_returns_surplus_only_when_done() {
    let sequence = seq_of(&[100, 50]);
    let mut state = SequenceState::from(&sequence, 0);
    assert_eq!(state.tick(120, &mut vec![]), 0);
    assert_eq!(state.elapsed_ms(), 20);
    assert_eq!(state.tick(70, &mut vec![]), 40);
    assert!(state.is_finished());
}

#[test]
fn empty_sequence_is_born_finished() {
    let sequence = seq_of(&[]);
    let mut state = SequenceState::from(&sequence, 7);
    assert!(state.is_finished());
    // a tick on a finished runner does nothing and hands the time back
    assert_eq!(state.tick(5, &mut vec![]), 5);
    assert_eq!(state.elapsed_ms(), 7);
}

#[test]
fn sequence_time_saturates() {
    let sequence = seq_of(&[5]);
    let mut state = SequenceState::from(&sequence, u32::MAX - 1);
    assert_eq!(state.tick(10, &mut vec![]), u32::MAX - 5);
    assert!(state.is_finished());
}

// ------- macro runner --------

#[test]
fn macro_tick_returns_unused_time() {
    let device_key = plain_key(1, vec![make_macro(1, &[100], &[200], &[300], None, &[])]);
    let key_state = KeyState::from(&device_key);
    let mut runner = MacroState::from(&device_key.default_layer.macros[0], &key_state);
    runner.stop();
    // start takes 100; the 50 left goes on to End
    assert_eq!(runner.tick(150, &mut vec![]), 0);
    assert_eq!(runner.current_sequence().phase(), Phase::End);
    // End holds 50 and needs 300: 300 more finishes it with 50 to spare
    assert_eq!(runner.tick(300, &mut vec![]), 50);
    assert!(runner.is_finished());
}

#[test]
fn macro_zero_tick_does_nothing() {
    let device_key = plain_key(1, vec![make_macro(1, &[0], &[0], &[0], None, &[])]);
    let key_state = KeyState::from(&device_key);
    let mut runner = MacroState::from(&device_key.default_layer.macros[0], &key_state);
    let mut events = vec![];
    assert_eq!(runner.tick(0, &mut events), 0);
    assert_eq!(events.len(), 0);
    assert_eq!(runner.current_sequence().phase(), Phase::Start);
}

#[test]
fn macro_long_tick_plays_several_loop_rounds() {
    // a loop of 200 given 1050 plays five rounds and holds the 50 left
    let device_key = plain_key(1, vec![make_macro(1, &[100], &[200], &[300], None, &[])]);
    let key_state = KeyState::from(&device_key);
    let mut runner = MacroState::from(&device_key.default_layer.macros[0], &key_state);
    runner.tick(100, &mut vec![]);
    let mut events = vec![];
    let left = runner.tick(1050, &mut events);
    assert_eq!(events.len(), 5);
    assert_eq!(left, 0);
    assert_eq!(runner.current_sequence().phase(), Phase::Loop);
    let mut more = vec![];
    runner.tick(150, &mut more);
    assert_eq!(more.len(), 1);
}

#[test]
fn zero_delay_loop_plays_one_round_per_tick() {
    let device_key = plain_key(1, vec![make_macro(1, &[100], &[0], &[300], None, &[])]);
    let key_state = KeyState::from(&device_key);
    let mut runner = MacroState::from(&device_key.default_layer.macros[0], &key_state);
    runner.tick(100, &mut vec![]);
    let mut events = vec![];
    assert_eq!(runner.tick(10, &mut events), 10);
    assert_eq!(events.len(), 1);
    assert_eq!(runner.current_sequence().phase(), Phase::Loop);
}

#[test]
fn stopped_macro_plays_start_then_end() {
    let device_key = plain_key(1, vec![make_macro(1, &[100], &[200], &[300], None, &[])]);
    let key_state = KeyState::from(&device_key);
    let mut runner = MacroState::from(&device_key.default_layer.macros[0], &key_state);
    runner.tick(50, &mut vec![]);
    runner.stop();
    assert_eq!(runner.trigger(), TriggerState::Stopping);
    let mut events = vec![];
    runner.tick(50, &mut events);
    assert_eq!(events.len(), 1);
    assert_eq!(runner.current_sequence().phase(), Phase::End);
}

// ------- keyboard state --------

#[test]
fn scenario_start_loop_loop() {
    let profile = KeyboardProfile { keys: vec![plain_key(1, vec![standard_macro(1, Some(1), &[1])])] };
    let mut state = KeyboardState::from(&profile);
    state.press_key(KeyId::new(1));
    let mut events = vec![];
    state.tick(100, &mut events);
    assert_eq!(state.macros().len(), 1);
    assert_eq!(phase_of(&state, 0), Phase::Loop);
    assert_eq!(events.len(), 1);
    assert!(matches!(events[0], ActionEvent::Nothing));
    state.tick(200, &mut events);
    assert_eq!(phase_of(&state, 0), Phase::Loop);
}

#[test]
fn scenario_release_enters_end_and_finishes() {
    let profile = KeyboardProfile { keys: vec![plain_key(1, vec![standard_macro(1, Some(1), &[1])])] };
    let mut state = KeyboardState::from(&profile);
    state.press_key(KeyId::new(1));
    state.tick(100, &mut vec![]);
    state.release_key(KeyId::new(1));
    assert_eq!(state.macros()[0].trigger(), TriggerState::Stopping);
    state.tick(200, &mut vec![]);
    assert_eq!(phase_of(&state, 0), Phase::End);
    state.tick(300, &mut vec![]);
    assert_eq!(state.macros().len(), 0);
}

#[test]
fn scenario_repress_hands_over() {
    let profile = KeyboardProfile { keys: vec![plain_key(1, vec![standard_macro(1, Some(1), &[1])])] };
    let mut state = KeyboardState::from(&profile);
    state.press_key(KeyId::new(1));
    state.press_key(KeyId::new(1));
    assert_eq!(state.macros().len(), 2);
    assert_eq!(state.macros()[0].trigger(), TriggerState::Stopping);
    assert_eq!(state.macros()[1].trigger(), TriggerState::Running);
    state.tick(100, &mut vec![]);
    assert_eq!(phase_of(&state, 0), Phase::End);
    assert_eq!(phase_of(&state, 1), Phase::Loop);
}

#[test]
fn press_adds_one_runner_per_macro_and_spares_them() {
    let key = plain_key(
        1,
        vec![standard_macro(1, Some(1), &[1]), standard_macro(2, Some(1), &[1]), standard_macro(3, None, &[])],
    );
    let profile = KeyboardProfile { keys: vec![key] };
    let mut state = KeyboardState::from(&profile);
    state.press_key(KeyId::new(1));
    assert_eq!(state.macros().len(), 3);
    for r in state.macros().iter() {
        assert_eq!(r.trigger(), TriggerState::Running);
        assert_eq!(r.source().key(), KeyId::new(1));
        assert_eq!(r.source().layer(), LayerId::new(1));
    }
    assert_eq!(state.macros()[1].macro_def().id, MacroId::new(2));
    state.press_key(KeyId::new(1));
    assert_eq!(state.macros().len(), 6);
    assert_eq!(state.macros()[0].trigger(), TriggerState::Stopping);
    assert_eq!(state.macros()[1].trigger(), TriggerState::Stopping);
    // no play channel: never cut
    assert_eq!(state.macros()[2].trigger(), TriggerState::Running);
    assert_eq!(state.macros()[3].trigger(), TriggerState::Running);
}

#[test]
fn unknown_key_is_ignored() {
    let profile = KeyboardProfile { keys: vec![plain_key(1, vec![standard_macro(1, Some(1), &[1])])] };
    let mut state = KeyboardState::from(&profile);
    state.press_key(KeyId::new(9));
    assert_eq!(state.macros().len(), 0);
    state.press_key(KeyId::new(1));
    state.release_key(KeyId::new(9));
    assert_eq!(state.macros()[0].trigger(), TriggerState::Running);
}

#[test]
fn release_only_touches_its_key() {
    let profile = KeyboardProfile {
        keys: vec![
            plain_key(1, vec![standard_macro(1, Some(1), &[])]),
            plain_key(2, vec![standard_macro(2, Some(2), &[])]),
        ],
    };
    let mut state = KeyboardState::from(&profile);
    state.press_key(KeyId::new(1));
    state.press_key(KeyId::new(2));
    state.release_key(KeyId::new(2));
    assert_eq!(state.macros()[0].trigger(), TriggerState::Running);
    assert_eq!(state.macros()[1].trigger(), TriggerState::Stopping);
}

#[test]
fn tick_keeps_runner_order_and_event_order() {
    let a = Macro {
        id: MacroId::new(1),
        name: "a".to_string(),
        play_channel: None,
        cut_channels: vec![],
        start_sequence: Sequence {
            actions: vec![Action { predelay_ms: 10, action_event: ActionEvent::Mouse(MouseEvent::ScrollLeft(1)) }],
        },
        loop_sequence: seq_of(&[1000]),
        end_sequence: seq_of(&[]),
    };
    let b = Macro {
        id: MacroId::new(2),
        name: "b".to_string(),
        play_channel: None,
        cut_channels: vec![],
        start_sequence: Sequence {
            actions: vec![Action { predelay_ms: 5, action_event: ActionEvent::Mouse(MouseEvent::ScrollRight(2)) }],
        },
        loop_sequence: seq_of(&[1000]),
        end_sequence: seq_of(&[]),
    };
    let profile = KeyboardProfile { keys: vec![plain_key(1, vec![a]), plain_key(2, vec![b])] };
    let mut state = KeyboardState::from(&profile);
    state.press_key(KeyId::new(1));
    state.press_key(KeyId::new(2));
    let mut events = vec![];
    state.tick(10, &mut events);
    assert_eq!(events.len(), 2);
    assert!(matches!(events[0], ActionEvent::Mouse(MouseEvent::ScrollLeft(1))));
    assert!(matches!(events[1], ActionEvent::Mouse(MouseEvent::ScrollRight(2))));
}

#[test]
fn finished_runners_are_dropped_in_order() {
    let short = make_macro(1, &[10], &[], &[10], None, &[]);
    let long = make_macro(2, &[10], &[500], &[10], None, &[]);
    let profile = KeyboardProfile { keys: vec![plain_key(1, vec![short]), plain_key(2, vec![long]), plain_key(3, vec![make_macro(3, &[10], &[], &[10], None, &[])])] };
    let mut state = KeyboardState::from(&profile);
    state.press_key(KeyId::new(1));
    state.press_key(KeyId::new(2));
    state.press_key(KeyId::new(3));
    state.release_key(KeyId::new(1));
    state.release_key(KeyId::new(3));
    state.tick(10, &mut vec![]);
    state.tick(10, &mut vec![]);
    assert_eq!(state.macros().len(), 1);
    assert_eq!(state.macros()[0].macro_def().id, MacroId::new(2));
    assert!(state.macros().iter().all(|r| !r.is_finished()));
}

#[test]
fn scenario_tag_driven_selection() {
    let profile = KeyboardProfile { keys: vec![tagged_key(10, 20, vec![tag("x")], TagMatchType::All)] };
    let mut state = KeyboardState::from(&profile);
    state.press_key(KeyId::new(1));
    assert_eq!(state.macros()[0].macro_def().id, MacroId::new(10));
    state.add_internal_tags(vec![tag("x")]);
    state.press_key(KeyId::new(1));
    assert_eq!(state.macros()[1].macro_def().id, MacroId::new(20));
    state.remove_internal_tags(vec![tag("x")]);
    state.set_external_tags(vec![tag("x")]);
    state.press_key(KeyId::new(1));
    assert_eq!(state.macros()[2].macro_def().id, MacroId::new(20));
}

#[test]
fn layer_change_stops_runners_of_the_old_layer() {
    let profile = KeyboardProfile {
        keys: vec![
            tagged_key(10, 20, vec![tag("x")], TagMatchType::All),
            plain_key(2, vec![standard_macro(30, None, &[])]),
        ],
    };
    let mut state = KeyboardState::from(&profile);
    state.press_key(KeyId::new(1));
    state.press_key(KeyId::new(2));
    state.add_internal_tags(vec![tag("x")]);
    assert_eq!(state.macros()[0].trigger(), TriggerState::Stopping);
    assert_eq!(state.macros()[1].trigger(), TriggerState::Running);
    // a runner of the new layer survives a further update that keeps it
    state.press_key(KeyId::new(1));
    state.set_external_tags(vec![tag("y")]);
    assert_eq!(state.macros()[2].trigger(), TriggerState::Running);
    state.remove_internal_tags(vec![tag("x")]);
    assert_eq!(state.macros()[2].trigger(), TriggerState::Stopping);
}

#[test]
fn profile_update_stops_every_runner() {
    let first = KeyboardProfile {
        keys: vec![
            plain_key(1, vec![standard_macro(1, None, &[])]),
            plain_key(2, vec![standard_macro(2, None, &[])]),
        ],
    };
    let second = KeyboardProfile { keys: vec![plain_key(3, vec![standard_macro(3, None, &[])])] };
    let mut state = KeyboardState::from(&first);
    state.press_key(KeyId::new(1));
    state.press_key(KeyId::new(2));
    state.update_key_profile(&second);
    assert_eq!(state.macros().len(), 2);
    assert!(state.macros().iter().all(|r| r.trigger() == TriggerState::Stopping));
    // keys of the old profile are gone, those of the new one work
    state.press_key(KeyId::new(1));
    assert_eq!(state.macros().len(), 2);
    state.press_key(KeyId::new(3));
    assert_eq!(state.macros().len(), 3);
}

#[test]
fn scenario_empty_loop_cannot_spin() {
    let profile = KeyboardProfile {
        keys: vec![plain_key(1, vec![make_macro(1, &[100], &[], &[300], Some(1), &[1])])],
    };
    let mut state = KeyboardState::from(&profile);
    state.press_key(KeyId::new(1));
    state.tick(100, &mut vec![]);
    assert_eq!(phase_of(&state, 0), Phase::Loop);
    state.tick(1_000_000, &mut vec![]);
    assert_eq!(phase_of(&state, 0), Phase::Loop);
    state.release_key(KeyId::new(1));
    let mut events = vec![];
    state.tick(1, &mut events);
    assert_eq!(events.len(), 0);
    assert_eq!(phase_of(&state, 0), Phase::End);
    state.tick(299, &mut events);
    assert_eq!(events.len(), 1);
    assert_eq!(state.macros().len(), 0);
}

#[test]
fn empty_loop_goes_to_end_once_stopped() {
    let device_key = plain_key(1, vec![make_macro(1, &[100], &[], &[300], None, &[])]);
    let key_state = KeyState::from(&device_key);
    let mut runner = MacroState::from(&device_key.default_layer.macros[0], &key_state);
    runner.tick(100, &mut vec![]);
    assert_eq!(runner.current_sequence().phase(), Phase::Loop);
    runner.stop();
    // the empty Loop hands its 100 on to End, which needs 300
    assert_eq!(runner.tick(100, &mut vec![]), 0);
    assert_eq!(runner.current_sequence().phase(), Phase::End);
    assert_eq!(runner.tick(199, &mut vec![]), 0);
    assert_eq!(runner.current_sequence().phase(), Phase::End);
    assert_eq!(runner.tick(1, &mut vec![]), 0);
    assert!(runner.is_finished());
}

#[test]
fn macro_split_ticks_match_one_tick() {
    let device_key = plain_key(1, vec![make_macro(1, &[100], &[200], &[], None, &[])]);
    let key_state = KeyState::from(&device_key);
    for total in [250u32, 300, 499, 500, 777] {
        let mut whole = MacroState::from(&device_key.default_layer.macros[0], &key_state);
        let mut whole_events = vec![];
        whole.tick(total, &mut whole_events);

        let mut split = MacroState::from(&device_key.default_layer.macros[0], &key_state);
        let mut split_events = vec![];
        split.tick(100, &mut split_events);
        split.tick(total - 100, &mut split_events);

        assert_eq!(whole_events.len(), 1 + ((total - 100) / 200) as usize);
        assert_eq!(whole_events.len(), split_events.len());
        assert_eq!(whole.current_sequence().phase(), split.current_sequence().phase());
    }
}

#[test]
fn phases_play_in_order_within_a_tick() {
    let m = Macro {
        id: MacroId::new(1),
        name: "tap".to_string(),
        play_channel: None,
        cut_channels: vec![],
        start_sequence: Sequence {
            actions: vec![Action { predelay_ms: 10, action_event: ActionEvent::Keyboard(KeyboardEvent::KeyDown(KeyboardKey::C)) }],
        },
        loop_sequence: seq_of(&[1000]),
        end_sequence: Sequence {
            actions: vec![Action { predelay_ms: 0, action_event: ActionEvent::Keyboard(KeyboardEvent::KeyUp(KeyboardKey::C)) }],
        },
    };
    let profile = KeyboardProfile { keys: vec![plain_key(1, vec![m])] };
    let mut state = KeyboardState::from(&profile);
    state.press_key(KeyId::new(1));
    state.release_key(KeyId::new(1));
    let mut events = vec![];
    // with no time left after Start, End waits for the next tick
    state.tick(10, &mut events);
    assert_eq!(events.len(), 1);
    state.tick(1, &mut events);
    assert_eq!(events.len(), 2);
    assert!(matches!(events[0], ActionEvent::Keyboard(KeyboardEvent::KeyDown(KeyboardKey::C))));
    assert!(matches!(events[1], ActionEvent::Keyboard(KeyboardEvent::KeyUp(KeyboardKey::C))));
    assert_eq!(state.macros().len(), 0);
}

#[test]
fn keyboard_split_ticks_match_one_tick() {
    let profile = KeyboardProfile {
        keys: vec![
            plain_key(1, vec![make_macro(1, &[100], &[200], &[50], None, &[])]),
            plain_key(2, vec![make_macro(2, &[30], &[70, 10], &[], None, &[])]),
        ],
    };
    let mut whole = KeyboardState::from(&profile);
    let mut split = KeyboardState::from(&profile);
    for state in [&mut whole, &mut split] {
        state.press_key(KeyId::new(1));
        state.press_key(KeyId::new(2));
    }
    let mut whole_events = vec![];
    whole.tick(730, &mut whole_events);
    let mut split_events = vec![];
    split.tick(130, &mut split_events);
    split.tick(600, &mut split_events);
    // per runner the same events: 1 + 3 rounds for the first, 1 + 2 * 8 for the second
    assert_eq!(whole_events.len(), 4 + 17);
    assert_eq!(split_events.len(), whole_events.len());
    for i in 0..2 {
        assert_eq!(phase_of(&whole, i), phase_of(&split, i));
    }
}
