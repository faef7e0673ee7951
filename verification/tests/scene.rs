use mkvhdr10plus::scene::{cut_allowed, label_frames, scene_summary, SceneLabel};

#[test]
fn min_scene_length_guard() {
    assert!(!cut_allowed(Some(0), 10, 24));
    assert!(cut_allowed(Some(0), 24, 24));
    assert!(cut_allowed(None, 24, 24));
    assert!(!cut_allowed(None, 10, 24));
}

#[test]
fn labels_single_scene() {
    let labels = label_frames(3, vec![]);
    assert_eq!(labels.len(), 3);
    assert!(labels.iter().all(|l| l.scene_id == 0));
    assert_eq!(labels[2].scene_frame_index, 2);
}

#[test]
fn labels_with_cuts() {
    // Cuts at frame 2 and 5 over 7 frames -> scenes [0,1] [2,3,4] [5,6].
    let labels = label_frames(7, vec![2, 5]);
    let ids: Vec<u32> = labels.iter().map(|l| l.scene_id).collect();
    assert_eq!(ids, vec![0, 0, 1, 1, 1, 2, 2]);
    let sfi: Vec<u32> = labels.iter().map(|l| l.scene_frame_index).collect();
    assert_eq!(sfi, vec![0, 1, 0, 1, 2, 0, 1]);

    let (first, numbers) = scene_summary(&labels);
    assert_eq!(first, vec![0, 2, 5]);
    assert_eq!(numbers, vec![2, 3, 2]);
}

#[test]
fn cut_allowed_after_earlier_cut_with_saturation() {
    // A candidate before the previous cut saturates to a distance of 0.
    assert!(!cut_allowed(Some(50), 40, 1));
    assert!(cut_allowed(Some(50), 40, 0));
    assert!(cut_allowed(Some(10), 34, 24));
    assert!(!cut_allowed(Some(10), 33, 24));
}

#[test]
fn cut_allowed_none_behaves_like_cut_at_zero() {
    for candidate in 0..40u32 {
        assert_eq!(cut_allowed(None, candidate, 24), cut_allowed(Some(0), candidate, 24));
    }
}

#[test]
fn labels_ignore_cut_order_duplicates_and_out_of_range_cuts() {
    let plain = label_frames(7, vec![2, 5]);
    let messy = label_frames(7, vec![5, 0, 2, 9, 5, 7, 2]);
    assert_eq!(plain, messy);
}

#[test]
fn labels_sequence_indices_are_contiguous() {
    let labels = label_frames(5, vec![3]);
    let seq: Vec<u32> = labels.iter().map(|l| l.sequence_frame_index).collect();
    assert_eq!(seq, vec![0, 1, 2, 3, 4]);
}

#[test]
fn labels_for_zero_frames_are_empty() {
    assert!(label_frames(0, vec![1, 2]).is_empty());
}

#[test]
fn summary_lengths_add_up_to_frame_count() {
    let labels = label_frames(100, vec![90, 10, 45, 46]);
    let (first, numbers) = scene_summary(&labels);
    assert_eq!(first, vec![0, 10, 45, 46, 90]);
    assert_eq!(numbers, vec![10, 35, 1, 44, 10]);
    assert_eq!(numbers.iter().sum::<u32>(), 100);
    assert!(numbers.iter().all(|&n| n >= 1));
}

#[test]
fn summary_of_hand_written_labels() {
    let labels = vec![
        SceneLabel { sequence_frame_index: 0, scene_id: 0, scene_frame_index: 0 },
        SceneLabel { sequence_frame_index: 1, scene_id: 0, scene_frame_index: 1 },
        SceneLabel { sequence_frame_index: 2, scene_id: 1, scene_frame_index: 0 },
    ];
    let (first, numbers) = scene_summary(&labels);
    assert_eq!(first, vec![0, 2]);
    assert_eq!(numbers, vec![2, 1]);
}

#[test]
fn summary_of_no_labels_is_empty() {
    let (first, numbers) = scene_summary(&[]);
    assert!(first.is_empty());
    assert!(numbers.is_empty());
}
