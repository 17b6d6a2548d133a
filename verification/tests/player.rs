use idxd::video::player::{
    EngineCommand, PlaybackState, SeekDirection, TimerStep, VideoPlayer, FULL_VOLUME,
};

fn playing(path: &str) -> VideoPlayer {
    let mut player = VideoPlayer::new();
    assert_eq!(player.engine_ready(), None);
    assert_eq!(player.play(path), EngineCommand::Load);
    assert_eq!(player.loaded(path, true), TimerStep::Start);
    player
}

#[test]
fn files_wait_for_the_engine() {
    let mut player = VideoPlayer::new();
    assert_eq!(player.play("/v/a.mp4"), EngineCommand::Nothing);
    assert_eq!(player.play("/v/b.mp4"), EngineCommand::Nothing);
    assert_eq!(player.playback_state(), PlaybackState::Stopped);
    assert_eq!(player.current_path(), None);
    assert_eq!(player.engine_ready(), Some("/v/b.mp4".to_string()));
    assert_eq!(player.loaded("/v/b.mp4", false), TimerStep::Keep);
    assert_eq!(player.playback_state(), PlaybackState::Stopped);
    assert_eq!(player.loaded("/v/b.mp4", true), TimerStep::Start);
    assert_eq!(player.current_path(), Some("/v/b.mp4".to_string()));
    assert!(player.is_playing() && !player.is_paused());
}

#[test]
fn pausing_and_resuming() {
    let mut player = playing("/v/a.mp4");
    assert_eq!(player.resume(), (EngineCommand::Nothing, TimerStep::Keep));
    assert_eq!(player.pause(), (EngineCommand::Pause, TimerStep::Stop));
    assert!(player.is_paused());
    assert_eq!(player.pause(), (EngineCommand::Nothing, TimerStep::Keep));
    assert_eq!(player.resume(), (EngineCommand::Resume, TimerStep::Start));
    assert_eq!(player.toggle_pause(), (EngineCommand::Pause, TimerStep::Stop));
    assert_eq!(player.toggle_pause(), (EngineCommand::Resume, TimerStep::Start));
    assert!(player.is_playing());
}

#[test]
fn stopping_forgets_the_file() {
    let mut player = playing("/v/a.mp4");
    assert_eq!(player.stop(), (EngineCommand::Stop, TimerStep::Stop));
    assert_eq!(player.current_path(), None);
    assert_eq!(player.toggle_pause(), (EngineCommand::Nothing, TimerStep::Keep));
    player.engine_gone();
    assert_eq!(player.stop(), (EngineCommand::Nothing, TimerStep::Keep));
    assert_eq!(player.play("/v/b.mp4"), EngineCommand::Nothing);
}

#[test]
fn volume_and_sound() {
    let player = playing("/v/a.mp4");
    assert_eq!(player.set_volume(150), Some(100));
    assert_eq!(player.set_volume(-3), Some(0));
    assert_eq!(player.set_volume(42), Some(42));
    assert_eq!(VideoPlayer::new().set_volume(42), None);
    assert_eq!(VideoPlayer::volume(Some(7)), 7);
    assert_eq!(VideoPlayer::volume(None), FULL_VOLUME);
    assert_eq!(player.toggle_mute(Some(true)), Some(false));
    assert_eq!(player.toggle_mute(None), Some(true));
    assert_eq!(VideoPlayer::seek_offset(5_000, SeekDirection::Backward), -5_000);
    assert_eq!(VideoPlayer::seek_offset(5_000, SeekDirection::Forward), 5_000);
}
