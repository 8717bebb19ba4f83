use gapless_audio::load::{plan_load, write_packet};
use gapless_audio::resample::{BlockTarget, ResampleStage};
use gapless_audio::track::AudioTrack;

fn stage(lengths: Vec<usize>, raw_frames: usize, block: usize, max: usize) -> ResampleStage<i32, 2> {
    ResampleStage::new(&lengths, raw_frames, block, max, 0)
}

fn load_edge(stage: &mut ResampleStage<i32, 2>, first: i32, n: usize) {
    for i in 0..n {
        stage.edge.data[0][i] = first + i as i32;
        stage.edge.data[1][i] = -(first + i as i32);
    }
}

fn flat(stage: &ResampleStage<i32, 2>, channel: usize) -> Vec<i32> {
    let mut all = Vec::new();
    for track in &stage.destinations {
        all.extend_from_slice(&track.data[channel]);
    }
    all
}

#[test]
fn a_new_stage_has_silent_destinations_of_the_given_lengths() {
    let stage = stage(vec![3, 0, 5], 16, 4, 6);
    assert_eq!(stage.destinations.len(), 3);
    assert_eq!(stage.destinations[0].data[0], vec![0; 3]);
    assert_eq!(stage.destinations[1].length(), 0);
    assert_eq!(stage.destinations[2].data[1], vec![0; 5]);
    assert_eq!(stage.edge.length(), 6);
    assert_eq!((stage.index, stage.cursor, stage.raw_frame), (0, 0, 0));
    assert_eq!((stage.raw_frames, stage.block_size, stage.max_output), (16, 4, 6));
}

#[test]
fn output_goes_straight_to_a_destination_with_room() {
    let mut stage = stage(vec![20, 4], 16, 4, 6);
    assert_eq!(stage.next_target(), BlockTarget::Direct { destination: 0, at: 0 });
    stage.commit_direct(5);
    assert_eq!((stage.index, stage.cursor, stage.raw_frame), (0, 5, 4));
    assert_eq!(stage.next_target(), BlockTarget::Direct { destination: 0, at: 5 });
    stage.commit_direct(6);
    stage.commit_direct(3);
    assert_eq!((stage.index, stage.cursor, stage.raw_frame), (0, 14, 12));
    assert_eq!(stage.next_target(), BlockTarget::Direct { destination: 0, at: 14 });
    stage.commit_direct(1);
    assert_eq!(stage.next_target(), BlockTarget::Finished);
}

#[test]
fn output_goes_to_the_edge_buffer_near_the_end_of_a_destination() {
    let mut stage = stage(vec![8, 4], 16, 4, 6);
    assert_eq!(stage.next_target(), BlockTarget::Direct { destination: 0, at: 0 });
    stage.commit_direct(3);
    assert_eq!(stage.next_target(), BlockTarget::Edge);
}

#[test]
fn a_stage_is_finished_when_no_whole_block_is_left() {
    assert_eq!(stage(vec![8], 3, 4, 6).next_target(), BlockTarget::Finished);
    assert_eq!(stage(vec![8], 0, 4, 6).next_target(), BlockTarget::Finished);
    assert_eq!(stage(vec![8], 4, 4, 6).next_target(), BlockTarget::Direct { destination: 0, at: 0 });
    assert_eq!(stage(vec![], 4, 4, 6).next_target(), BlockTarget::Edge);
}

#[test]
fn an_edge_block_that_fits_is_copied_whole() {
    let mut stage = stage(vec![5, 4], 16, 4, 6);
    load_edge(&mut stage, 1, 6);
    assert_eq!(stage.commit_edge(4), 0);
    assert_eq!((stage.index, stage.cursor, stage.raw_frame), (0, 4, 4));
    assert_eq!(stage.destinations[0].data[0], vec![1, 2, 3, 4, 0]);
    assert_eq!(stage.destinations[0].data[1], vec![-1, -2, -3, -4, 0]);
    assert_eq!(stage.destinations[1].data[0], vec![0; 4]);
}

#[test]
fn an_edge_block_that_fills_a_destination_exactly_stays_on_it() {
    let mut stage = stage(vec![4, 4], 16, 4, 6);
    load_edge(&mut stage, 1, 6);
    assert_eq!(stage.commit_edge(4), 0);
    assert_eq!((stage.index, stage.cursor), (0, 4));
    assert_eq!(stage.next_target(), BlockTarget::Edge);
    load_edge(&mut stage, 11, 6);
    assert_eq!(stage.commit_edge(3), 0);
    assert_eq!((stage.index, stage.cursor), (1, 3));
    assert_eq!(flat(&stage, 0), vec![1, 2, 3, 4, 11, 12, 13, 0]);
}

#[test]
fn an_edge_block_spills_over_destinations_shorter_than_a_block() {
    let mut stage = stage(vec![3, 1, 0, 2, 1, 9], 32, 4, 8);
    load_edge(&mut stage, 1, 8);
    assert_eq!(stage.commit_edge(2), 0);
    assert_eq!((stage.index, stage.cursor), (0, 2));
    load_edge(&mut stage, 11, 8);
    assert_eq!(stage.commit_edge(8), 0);
    assert_eq!((stage.index, stage.cursor), (5, 3));
    assert_eq!(stage.raw_frame, 8);
    assert_eq!(stage.destinations[0].data[0], vec![1, 2, 11]);
    assert_eq!(stage.destinations[1].data[0], vec![12]);
    assert_eq!(stage.destinations[2].data[0], Vec::<i32>::new());
    assert_eq!(stage.destinations[3].data[0], vec![13, 14]);
    assert_eq!(stage.destinations[4].data[0], vec![15]);
    assert_eq!(stage.destinations[5].data[0], vec![16, 17, 18, 0, 0, 0, 0, 0, 0]);
    assert_eq!(stage.destinations[5].data[1], vec![-16, -17, -18, 0, 0, 0, 0, 0, 0]);
}

#[test]
fn frames_behind_the_last_destination_are_counted_not_written() {
    let mut stage = stage(vec![2, 3], 32, 4, 8);
    load_edge(&mut stage, 1, 8);
    assert_eq!(stage.commit_edge(7), 2);
    assert_eq!((stage.index, stage.cursor), (2, 0));
    assert_eq!(flat(&stage, 0), vec![1, 2, 3, 4, 5]);
    assert_eq!(stage.next_target(), BlockTarget::Edge);
    load_edge(&mut stage, 11, 8);
    assert_eq!(stage.commit_edge(6), 6);
    assert_eq!(stage.commit_edge(0), 0);
    assert_eq!(flat(&stage, 0), vec![1, 2, 3, 4, 5]);
    assert_eq!(stage.raw_frame, 12);
}

#[test]
fn an_empty_edge_block_changes_only_the_raw_cursor() {
    let mut stage = stage(vec![2, 3], 32, 4, 8);
    load_edge(&mut stage, 1, 8);
    assert_eq!(stage.commit_edge(0), 0);
    assert_eq!((stage.index, stage.cursor, stage.raw_frame), (0, 0, 4));
    assert_eq!(flat(&stage, 0), vec![0; 5]);
}

#[test]
fn every_emitted_frame_is_placed_or_counted() {
    let lengths = vec![5, 1, 1, 7, 0, 3];
    let capacity: usize = lengths.iter().sum();
    let mut stage = stage(lengths, 40, 4, 6);
    let emitted = [6, 0, 3, 5, 1, 6, 2, 4, 6, 5];
    let mut produced = 0;
    let mut dropped = 0;
    let mut next = 1;
    for n in emitted {
        assert_ne!(stage.next_target(), BlockTarget::Finished);
        load_edge(&mut stage, next, n);
        next += n as i32;
        dropped += stage.commit_edge(n);
        produced += n;
    }
    assert_eq!(stage.next_target(), BlockTarget::Finished);
    assert_eq!(stage.raw_frame, 40);
    assert_eq!(produced, 38);
    assert_eq!(dropped, produced - capacity);
    let expected: Vec<i32> = (1..=capacity as i32).collect();
    assert_eq!(flat(&stage, 0), expected);
    let tracks = stage.finish();
    assert_eq!(tracks.len(), 6);
    assert_eq!(tracks[3].data[0], vec![8, 9, 10, 11, 12, 13, 14]);
}

#[test]
fn an_identity_resample_keeps_the_first_sample_of_every_chapter() {
    let counts = vec![Some(1500), Some(1), Some(700), Some(1024), Some(3)];
    let plan = plan_load(&counts, 48000).unwrap();
    assert_eq!(plan.lengths, vec![1500, 1, 700, 1024, 3]);
    assert_eq!(plan.padded_length, 4096);
    let mut raw: AudioTrack<i32, 2> = AudioTrack::new(plan.padded_length, 0);
    let mut at = 0;
    let mut sample = 1;
    let mut firsts = Vec::new();
    for count in [1500, 1, 700, 1024, 3] {
        firsts.push(sample);
        let left: Vec<i32> = (sample..sample + count).collect();
        let right: Vec<i32> = left.iter().map(|s| -s).collect();
        at = write_packet(&mut raw, at, &vec![left, right]).unwrap();
        sample += count;
    }
    assert_eq!(at, 3228);
    let mut stage: ResampleStage<i32, 2> =
        ResampleStage::new(&plan.lengths, plan.padded_length, 1024, plan.max_output, 0);
    loop {
        let from = stage.raw_frame;
        match stage.next_target() {
            BlockTarget::Finished => break,
            BlockTarget::Direct { destination, at } => {
                let block = raw.get_slice(from..from + 1024);
                let (left, right) = stage.destinations[destination].get_slice_mut(at..at + 1024);
                left.copy_from_slice(block[0]);
                right.copy_from_slice(block[1]);
                stage.commit_direct(1024);
            }
            BlockTarget::Edge => {
                stage.edge.copy_from_range(0..1024, &raw, from..from + 1024);
                stage.commit_edge(1024);
            }
        }
    }
    assert_eq!(stage.raw_frame, 4096);
    let tracks = stage.finish();
    for (k, track) in tracks.iter().enumerate() {
        assert_eq!(track.data[0][0], firsts[k]);
        assert_eq!(track.data[1][0], -firsts[k]);
    }
    assert_eq!(tracks[4].data[0], vec![3226, 3227, 3228]);
}
