use gapless_audio::player::{advance, fill, AudioPlayer, PlaybackState, RenderPlan, Segment};
use gapless_audio::track::AudioTrack;
use std::collections::VecDeque;

fn track(frames: usize, end: Option<usize>, base: f32) -> AudioTrack<f32, 2> {
    let mut track: AudioTrack<f32, 2> = AudioTrack::new(frames, 0.0);
    for i in 0..frames {
        track.data[0][i] = base + i as f32;
        track.data[1][i] = -(base + i as f32);
    }
    if let Some(end) = end {
        track.chapter_ends = vec![end];
    }
    track
}

fn occupancy(player: &AudioPlayer<f32>) -> Vec<bool> {
    player.tracks.iter().map(|t| t.is_some()).collect()
}

fn cursor(player: &AudioPlayer<f32>) -> Option<(usize, usize, bool, Vec<usize>)> {
    player
        .playback_state
        .as_ref()
        .map(|s| (s.index, s.frame, s.playing, s.queue.iter().copied().collect()))
}

#[test]
fn a_new_player_is_idle_and_empty() {
    let player: AudioPlayer<f32> = AudioPlayer::new();
    assert!(player.tracks.is_empty());
    assert!(player.playback_state.is_none());
    assert!(!player.is_playing());
}

#[test]
fn tracks_are_appended_while_no_slot_is_empty() {
    let mut player = AudioPlayer::new();
    assert_eq!(player.add_track(track(4, None, 0.0)), 0);
    assert_eq!(player.add_track(track(4, None, 100.0)), 1);
    assert_eq!(player.add_track(track(4, None, 200.0)), 2);
    assert_eq!(occupancy(&player), vec![true, true, true]);
    assert_eq!(player.tracks[1].as_ref().unwrap().data[0][0], 100.0);
}

#[test]
fn a_removed_slot_is_reused_before_the_table_grows() {
    let mut player = AudioPlayer::new();
    for i in 0..4 {
        player.add_track(track(4, None, 100.0 * i as f32));
    }
    player.remove_track(1);
    assert_eq!(occupancy(&player), vec![true, false, true, true]);
    assert_eq!(player.add_track(track(4, None, 900.0)), 1);
    assert_eq!(occupancy(&player), vec![true, true, true, true]);
    assert_eq!(player.tracks[1].as_ref().unwrap().data[0][0], 900.0);
    player.remove_track(2);
    player.remove_track(0);
    assert_eq!(player.add_track(track(4, None, 0.0)), 0);
    assert_eq!(player.add_track(track(4, None, 0.0)), 2);
    assert_eq!(player.add_track(track(4, None, 0.0)), 4);
}

#[test]
fn removing_the_last_slot_trims_the_empty_slots_before_it() {
    let mut player = AudioPlayer::new();
    for i in 0..5 {
        player.add_track(track(4, None, 100.0 * i as f32));
    }
    player.remove_track(3);
    player.remove_track(2);
    assert_eq!(occupancy(&player), vec![true, true, false, false, true]);
    player.remove_track(4);
    assert_eq!(occupancy(&player), vec![true, true]);
    player.remove_track(7);
    assert_eq!(occupancy(&player), vec![true, true]);
    player.remove_track(0);
    assert_eq!(occupancy(&player), vec![false, true]);
    player.remove_track(1);
    assert!(player.tracks.is_empty());
    player.remove_track(0);
    assert!(player.tracks.is_empty());
}

#[test]
fn tracks_added_together_take_the_slots_in_order() {
    let mut player = AudioPlayer::new();
    for i in 0..4 {
        player.add_track(track(4, None, 100.0 * i as f32));
    }
    player.remove_track(2);
    player.remove_track(0);
    let slots = player.add_tracks(vec![
        track(4, None, 1000.0),
        track(4, None, 2000.0),
        track(4, None, 3000.0),
    ]);
    assert_eq!(slots, vec![0, 2, 4]);
    assert_eq!(player.tracks[2].as_ref().unwrap().data[0][0], 2000.0);
    assert_eq!(player.add_tracks(vec![]), Vec::<usize>::new());
}

#[test]
fn playing_a_track_sets_the_cursor_to_the_chapter() {
    let mut player = AudioPlayer::new();
    let mut chapters = track(16, None, 0.0);
    chapters.chapter_ends = vec![4, 9, 16];
    player.add_track(chapters);
    player.play_track(0, 0);
    assert_eq!(cursor(&player), Some((0, 0, true, vec![])));
    player.queue_track(0);
    player.play_track(0, 1);
    assert_eq!(cursor(&player), Some((0, 4, true, vec![])));
    player.play_track(0, 2);
    assert_eq!(cursor(&player), Some((0, 9, true, vec![])));
    player.play_track(0, 3);
    assert_eq!(cursor(&player), Some((0, 16, true, vec![])));
    player.play_track(0, 4);
    assert_eq!(cursor(&player), Some((0, 0, true, vec![])));
    assert!(player.is_playing());
}

#[test]
fn playing_an_empty_slot_changes_nothing() {
    let mut player = AudioPlayer::new();
    player.play_track(0, 0);
    assert!(player.playback_state.is_none());
    player.add_track(track(4, None, 0.0));
    player.add_track(track(4, None, 0.0));
    player.add_track(track(4, None, 0.0));
    player.remove_track(1);
    player.play_track(2, 0);
    player.queue_track(0);
    player.play_track(1, 0);
    player.play_track(3, 0);
    assert_eq!(cursor(&player), Some((2, 0, true, vec![0])));
}

#[test]
fn queueing_needs_a_cursor() {
    let mut player = AudioPlayer::new();
    player.add_track(track(4, None, 0.0));
    player.queue_track(0);
    assert!(player.playback_state.is_none());
    player.play_track(0, 0);
    player.queue_track(5);
    player.queue_track(0);
    assert_eq!(cursor(&player), Some((0, 0, true, vec![5, 0])));
}

#[test]
fn stop_and_seek_write_the_cursor() {
    let mut player = AudioPlayer::new();
    player.stop();
    player.seek(3);
    assert!(player.playback_state.is_none());
    player.add_track(track(8, None, 0.0));
    player.play_track(0, 0);
    player.queue_track(0);
    player.seek(100);
    assert_eq!(cursor(&player), Some((0, 100, true, vec![0])));
    player.stop();
    assert_eq!(cursor(&player), Some((0, 100, false, vec![0])));
    assert!(!player.is_playing());
}

#[test]
fn an_idle_player_leaves_the_buffer_alone() {
    let mut player = AudioPlayer::new();
    player.add_track(track(8, None, 1.0));
    let mut data = vec![9.0; 6];
    assert!(!player.render(&mut data));
    assert_eq!(data, vec![9.0; 6]);
    assert!(player.playback_state.is_none());
}

#[test]
fn a_paused_player_leaves_the_buffer_alone() {
    let mut player = AudioPlayer::new();
    player.add_track(track(8, None, 1.0));
    player.play_track(0, 0);
    player.stop();
    let mut data = vec![9.0; 6];
    assert!(!player.render(&mut data));
    assert_eq!(data, vec![9.0; 6]);
    assert_eq!(cursor(&player), Some((0, 0, false, vec![])));
}

#[test]
fn a_vanished_track_returns_the_player_to_idle() {
    let mut player = AudioPlayer::new();
    player.add_track(track(8, None, 1.0));
    player.add_track(track(8, None, 1.0));
    player.play_track(0, 0);
    player.remove_track(0);
    let mut data = vec![9.0; 6];
    assert!(!player.render(&mut data));
    assert_eq!(data, vec![9.0; 6]);
    assert!(player.playback_state.is_none());
}

#[test]
fn output_is_interleaved_frame_by_frame() {
    let mut player = AudioPlayer::new();
    player.add_track(track(8, None, 1.0));
    player.play_track(0, 0);
    let mut data = vec![9.0; 7];
    assert!(!player.render(&mut data));
    assert_eq!(data, vec![1.0, -1.0, 2.0, -2.0, 3.0, -3.0, 9.0]);
    assert_eq!(cursor(&player), Some((0, 3, true, vec![])));
    let mut none: Vec<f32> = Vec::new();
    assert!(!player.render(&mut none));
    assert_eq!(cursor(&player), Some((0, 3, true, vec![])));
}

#[test]
fn a_track_drains_in_order_and_ends_once() {
    let mut player = AudioPlayer::new();
    player.add_track(track(16, Some(10), 1.0));
    player.play_track(0, 0);
    let mut emitted = Vec::new();
    let mut endings = 0;
    let mut requests = 0;
    while player.is_playing() {
        let mut data = vec![0.0; 8];
        let before = player.playback_state.as_ref().unwrap().frame;
        if player.render(&mut data) {
            endings += 1;
            emitted.extend_from_slice(&data[..2 * (10 - before)]);
            assert_eq!(&data[2 * (10 - before)..], &[0.0; 4][..]);
        } else {
            emitted.extend_from_slice(&data);
        }
        requests += 1;
    }
    assert_eq!(requests, 3);
    assert_eq!(endings, 1);
    let expected: Vec<f32> = (1..=10).flat_map(|i| [i as f32, -(i as f32)]).collect();
    assert_eq!(emitted, expected);
    assert_eq!(cursor(&player), Some((0, 0, false, vec![])));
    for _ in 0..3 {
        let mut data = vec![0.0; 8];
        assert!(!player.render(&mut data));
        assert_eq!(data, vec![0.0; 8]);
    }
}

#[test]
fn a_track_of_whole_requests_ends_with_the_request_after_its_last_frame() {
    let mut player = AudioPlayer::new();
    player.add_track(track(8, None, 1.0));
    player.play_track(0, 0);
    let mut data = vec![0.0; 8];
    assert!(!player.render(&mut data));
    assert!(!player.render(&mut data));
    assert_eq!(data, vec![5.0, -5.0, 6.0, -6.0, 7.0, -7.0, 8.0, -8.0]);
    assert_eq!(cursor(&player), Some((0, 8, true, vec![])));
    let mut last = vec![0.0; 8];
    assert!(player.render(&mut last));
    assert_eq!(last, vec![0.0; 8]);
    assert_eq!(cursor(&player), Some((0, 0, false, vec![])));
}

#[test]
fn a_queued_track_is_spliced_in_within_the_request_that_crosses_the_end() {
    let mut player = AudioPlayer::new();
    let a = player.add_track(track(2048, Some(2000), 1.0));
    let b = player.add_track(track(1024, Some(500), 10001.0));
    player.play_track(a, 0);
    player.queue_track(b);
    let mut emitted = Vec::new();
    let mut endings = 0;
    for request in 0..7 {
        let mut data = vec![0.0; 512];
        assert!(!player.render(&mut data));
        assert_eq!(cursor(&player), Some((a, 256 * (request + 1), true, vec![b])));
        emitted.extend_from_slice(&data);
    }
    let mut crossing = vec![0.0; 512];
    assert!(!player.render(&mut crossing));
    assert_eq!(cursor(&player), Some((b, 48, true, vec![])));
    assert_eq!(crossing[2 * 207], 2000.0);
    assert_eq!(crossing[2 * 207 + 1], -2000.0);
    assert_eq!(crossing[2 * 208], 10001.0);
    assert_eq!(crossing[2 * 208 + 1], -10001.0);
    assert_eq!(crossing[2 * 255], 10048.0);
    emitted.extend_from_slice(&crossing);
    let mut data = vec![0.0; 512];
    assert!(!player.render(&mut data));
    assert_eq!(cursor(&player), Some((b, 304, true, vec![])));
    emitted.extend_from_slice(&data);
    let mut last = vec![0.0; 512];
    if player.render(&mut last) {
        endings += 1;
    }
    emitted.extend_from_slice(&last[..2 * 196]);
    assert_eq!(&last[2 * 196..], &[0.0; 120][..]);
    assert_eq!(endings, 1);
    assert_eq!(cursor(&player), Some((b, 0, false, vec![])));
    let expected: Vec<f32> = (1..=2000)
        .chain(10001..=10500)
        .flat_map(|i| [i as f32, -(i as f32)])
        .collect();
    assert_eq!(emitted, expected);
}

#[test]
fn an_empty_slot_at_the_head_of_the_queue_ends_playback() {
    let mut player = AudioPlayer::new();
    player.add_track(track(4, None, 1.0));
    player.add_track(track(4, None, 101.0));
    player.play_track(0, 0);
    player.queue_track(7);
    player.queue_track(1);
    let mut data = vec![0.0; 12];
    assert!(player.render(&mut data));
    assert_eq!(&data[..8], &[1.0, -1.0, 2.0, -2.0, 3.0, -3.0, 4.0, -4.0][..]);
    assert_eq!(&data[8..], &[0.0; 4][..]);
    assert_eq!(cursor(&player), Some((0, 0, false, vec![1])));
}

#[test]
fn a_next_track_shorter_than_the_rest_of_the_request_is_copied_whole() {
    let mut player = AudioPlayer::new();
    player.add_track(track(2, None, 1.0));
    player.add_track(track(1, None, 101.0));
    player.play_track(0, 0);
    player.queue_track(1);
    let mut data = vec![0.0; 12];
    assert!(!player.render(&mut data));
    assert_eq!(&data[..6], &[1.0, -1.0, 2.0, -2.0, 101.0, -101.0][..]);
    assert_eq!(&data[6..], &[0.0; 6][..]);
    assert_eq!(cursor(&player), Some((1, 4, true, vec![])));
    assert!(player.render(&mut data));
    assert_eq!(cursor(&player), Some((1, 0, false, vec![])));
}

#[test]
fn a_cursor_past_the_end_has_no_frames_left() {
    let mut player = AudioPlayer::new();
    player.add_track(track(4, None, 1.0));
    player.play_track(0, 0);
    player.seek(100);
    let mut data = vec![9.0; 4];
    assert!(player.render(&mut data));
    assert_eq!(data, vec![9.0; 4]);
    assert_eq!(cursor(&player), Some((0, 0, false, vec![])));
}

#[test]
fn bookkeeping_and_copying_can_be_done_apart() {
    let tracks = vec![Some(track(6, None, 1.0)), None, Some(track(6, None, 101.0))];
    let mut state = Some(PlaybackState {
        index: 0,
        frame: 4,
        playing: true,
        queue: VecDeque::from(vec![2]),
    });
    let plan = advance(&mut state, &tracks, 5);
    assert_eq!(
        plan,
        RenderPlan {
            first: Segment { slot: 0, start: 4, count: 2 },
            second: Segment { slot: 2, start: 0, count: 3 },
            ended: false,
        }
    );
    let state = state.unwrap();
    assert_eq!((state.index, state.frame, state.playing), (2, 3, true));
    assert!(state.queue.is_empty());
    let mut data = vec![0.0; 11];
    fill(&tracks, &plan, &mut data);
    assert_eq!(
        data,
        vec![5.0, -5.0, 6.0, -6.0, 101.0, -101.0, 102.0, -102.0, 103.0, -103.0, 0.0]
    );
}
