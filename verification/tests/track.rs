use gapless_audio::track::AudioTrack;

fn ramp(frames: usize) -> AudioTrack<i32, 2> {
    let mut track: AudioTrack<i32, 2> = AudioTrack::new(frames, 0);
    for i in 0..frames {
        track.data[0][i] = 10 + i as i32;
        track.data[1][i] = 20 + i as i32;
    }
    track
}

#[test]
fn new_track_is_silent() {
    let track: AudioTrack<f32, 2> = AudioTrack::new(5, 0.0);
    assert_eq!(track.data.len(), 2);
    assert_eq!(track.length(), 5);
    assert_eq!(track.data[0], vec![0.0; 5]);
    assert_eq!(track.data[1], vec![0.0; 5]);
    assert!(track.chapter_ends.is_empty());
    assert!(track.is_well_formed());
}

#[test]
fn new_track_without_frames_is_empty() {
    let track: AudioTrack<f32, 2> = AudioTrack::new(0, 0.0);
    assert_eq!(track.data.len(), 2);
    assert_eq!(track.length(), 0);
    assert_eq!(track.playback_end(), 0);
}

#[test]
fn new_track_has_the_channel_count_of_its_type() {
    let mono: AudioTrack<u8, 1> = AudioTrack::new(3, 7);
    assert_eq!(mono.data, vec![vec![7, 7, 7]]);
    let none: AudioTrack<u8, 0> = AudioTrack::new(3, 7);
    assert!(none.data.is_empty());
    assert_eq!(none.length(), 0);
}

#[test]
fn copy_from_range_overwrites_only_the_range() {
    let source = ramp(6);
    let mut target: AudioTrack<i32, 2> = AudioTrack::new(5, -1);
    target.copy_from_range(1..4, &source, 2..5);
    assert_eq!(target.data[0], vec![-1, 12, 13, 14, -1]);
    assert_eq!(target.data[1], vec![-1, 22, 23, 24, -1]);
}

#[test]
fn copy_from_range_of_nothing_changes_nothing() {
    let source = ramp(6);
    let mut target: AudioTrack<i32, 2> = AudioTrack::new(3, -1);
    target.copy_from_range(3..3, &source, 0..0);
    assert_eq!(target.data[0], vec![-1, -1, -1]);
    assert_eq!(target.data[1], vec![-1, -1, -1]);
}

#[test]
fn clone_range_takes_the_frames_of_every_channel() {
    let source = ramp(6);
    let copy = AudioTrack::clone_range(&source, 2..5);
    assert_eq!(copy.length(), 3);
    assert_eq!(copy.data[0], vec![12, 13, 14]);
    assert_eq!(copy.data[1], vec![22, 23, 24]);
    assert!(copy.chapter_ends.is_empty());
}

#[test]
fn get_slice_borrows_the_range_of_every_channel() {
    let source = ramp(6);
    let views = source.get_slice(1..4);
    assert_eq!(views.len(), 2);
    assert_eq!(views[0], &[11, 12, 13][..]);
    assert_eq!(views[1], &[21, 22, 23][..]);
    let empty = source.get_slice(6..6);
    assert!(empty[0].is_empty());
}

#[test]
fn get_slice_mut_writes_through_to_the_track() {
    let mut track = ramp(5);
    {
        let (left, right) = track.get_slice_mut(1..3);
        assert_eq!(left, &mut [11, 12][..]);
        assert_eq!(right, &mut [21, 22][..]);
        left[0] = -1;
        right[1] = -2;
    }
    assert_eq!(track.data[0], vec![10, -1, 12, 13, 14]);
    assert_eq!(track.data[1], vec![20, 21, -2, 23, 24]);
}

#[test]
fn playback_ends_at_the_last_chapter_or_at_the_padded_length() {
    let mut track = ramp(8);
    assert_eq!(track.playback_end(), 8);
    track.chapter_ends = vec![3, 6];
    assert_eq!(track.playback_end(), 6);
}

#[test]
fn well_formedness_is_checked() {
    let mut track = ramp(8);
    track.chapter_ends = vec![3, 6, 8];
    assert!(track.is_well_formed());
    track.chapter_ends = vec![3, 3];
    assert!(!track.is_well_formed());
    track.chapter_ends = vec![3, 9];
    assert!(!track.is_well_formed());
    track.chapter_ends = vec![];
    track.data[1].pop();
    assert!(!track.is_well_formed());
    track.data.pop();
    assert!(!track.is_well_formed());
}
