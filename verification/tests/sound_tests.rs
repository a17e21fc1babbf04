use clawbit::sound::SoundPlayer;

#[test]
fn player_plays_muted_or_not() {
    let mut p = SoundPlayer::new();
    p.play_completion();
    p.play_error();
    p.set_muted(true);
    p.play_completion();
    p.play_error();
    p.set_muted(false);
    p.play_completion();
}
