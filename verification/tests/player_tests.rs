use pickup::player::{
    apply_all, step, PlaybackCommand, PlaybackState, Player, PlayerMode, DEFAULT_VOLUME_BITS,
};

fn bytes(s: &str) -> Vec<u8> {
    s.as_bytes().to_vec()
}

fn playing_file(state: &PlaybackState) -> Option<Vec<u8>> {
    match &state.mode {
        PlayerMode::Stopped => None,
        PlayerMode::Playing { file } => Some(file.clone()),
    }
}

#[test]
fn fresh_player_is_stopped_at_default_volume() {
    let p = Player::new();
    assert!(playing_file(&p.state).is_none());
    assert_eq!(p.state.volume, DEFAULT_VOLUME_BITS);
    assert_eq!(DEFAULT_VOLUME_BITS, 1.0f32.to_bits());
}

#[test]
fn stop_while_stopped_is_a_no_op() {
    let mut p = Player::new();
    p.command(&PlaybackCommand::Stop, true);
    assert!(playing_file(&p.state).is_none());
    assert_eq!(p.state.volume, DEFAULT_VOLUME_BITS);
    // and again: still no error, still no state change
    p.command(&PlaybackCommand::Stop, true);
    assert!(playing_file(&p.state).is_none());
    assert_eq!(p.state.volume, DEFAULT_VOLUME_BITS);
}

#[test]
fn failed_play_leaves_state_unchanged() {
    let mut p = Player::new();
    p.command(&PlaybackCommand::Play { file: bytes("missing.mp3") }, false);
    assert!(playing_file(&p.state).is_none());
    assert_eq!(p.state.volume, DEFAULT_VOLUME_BITS);
}

#[test]
fn play_failure_does_not_stall_the_next_play() {
    let mut p = Player::new();
    p.command(&PlaybackCommand::Play { file: bytes("missing.mp3") }, false);
    p.command(&PlaybackCommand::Play { file: bytes("valid.mp3") }, true);
    assert_eq!(playing_file(&p.state), Some(bytes("valid.mp3")));
}

#[test]
fn play_replaces_the_current_file() {
    let mut p = Player::new();
    p.command(&PlaybackCommand::Play { file: bytes("a.mp3") }, true);
    assert_eq!(playing_file(&p.state), Some(bytes("a.mp3")));
    p.command(&PlaybackCommand::Play { file: bytes("b.mp3") }, true);
    assert_eq!(playing_file(&p.state), Some(bytes("b.mp3")));
}

#[test]
fn volume_is_a_standing_setting_in_any_mode() {
    let half = 0.5f32.to_bits();
    let mut p = Player::new();
    p.command(&PlaybackCommand::SetVolume { level: half }, true);
    assert!(playing_file(&p.state).is_none());
    assert_eq!(p.state.volume, half);
    p.command(&PlaybackCommand::Play { file: bytes("a.mp3") }, true);
    assert_eq!(p.state.volume, half);
    let loud = 0.9f32.to_bits();
    p.command(&PlaybackCommand::SetVolume { level: loud }, true);
    assert_eq!(playing_file(&p.state), Some(bytes("a.mp3")));
    assert_eq!(p.state.volume, loud);
}

#[test]
fn rejected_volume_change_leaves_volume_alone() {
    let mut p = Player::new();
    p.command(&PlaybackCommand::SetVolume { level: 0.25f32.to_bits() }, false);
    assert_eq!(p.state.volume, DEFAULT_VOLUME_BITS);
}

#[test]
fn commands_apply_in_submission_order() {
    let half = 0.5f32.to_bits();
    let batch = vec![
        (PlaybackCommand::Play { file: bytes("a.mp3") }, true),
        (PlaybackCommand::SetVolume { level: half }, true),
        (PlaybackCommand::Play { file: bytes("b.mp3") }, true),
        (PlaybackCommand::Stop, true),
    ];
    let mut state = Player::new().state;
    apply_all(&mut state, &batch);
    // the final Stop wins; the volume set mid-stream stands
    assert!(playing_file(&state).is_none());
    assert_eq!(state.volume, half);
}

#[test]
fn batch_order_matters() {
    let batch = vec![
        (PlaybackCommand::Stop, true),
        (PlaybackCommand::Play { file: bytes("a.mp3") }, true),
    ];
    let mut state = Player::new().state;
    apply_all(&mut state, &batch);
    assert_eq!(playing_file(&state), Some(bytes("a.mp3")));
}

#[test]
fn step_alone_matches_the_actor() {
    let mut state = Player::new().state;
    step(&mut state, &PlaybackCommand::Play { file: bytes("a.mp3") }, true);
    assert_eq!(playing_file(&state), Some(bytes("a.mp3")));
    step(&mut state, &PlaybackCommand::Stop, true);
    assert!(playing_file(&state).is_none());
}
