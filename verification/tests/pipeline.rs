use mkvhdr10plus::measure::FrameMeasurement;
use mkvhdr10plus::pipeline::{
    analysis_dimension, default_duration_arg, effective_downscale, frame_rate_arg, json_file_name,
    metadata_document, output_file_name, remux_tool, source_frame_rate, temp_dir_name, RemuxTool,
    RunError, SceneCutTracker,
};

fn measurement(v: u32) -> FrameMeasurement {
    FrameMeasurement { max_scl: [v, v, v], average_rgb: v, distribution: [v; 9] }
}

#[test]
fn no_frames_is_an_error() {
    let r = metadata_document(&[], vec![], 1000);
    assert!(matches!(r, Err(RunError::NoFramesDecoded)));
    assert_eq!(RunError::NoFramesDecoded.message(), "no frames were decoded from the input");
}

#[test]
fn document_scene_count_is_cuts_plus_one() {
    let ms: Vec<FrameMeasurement> = (0..10).map(|i| measurement(i * 30_000)).collect();
    let doc = metadata_document(&ms, vec![4, 7], 1000).ok().unwrap();
    assert_eq!(doc.scene_info.len(), 10);
    assert_eq!(doc.scene_info_summary.scene_first_frame_index, vec![0, 4, 7]);
    assert_eq!(doc.scene_info_summary.scene_frame_numbers, vec![4, 3, 3]);
    assert_eq!(doc.scene_info[9].scene_id, 2);
    assert_eq!(doc.scene_info[9].luminance_parameters.average_rgb, 100_000);
    assert_eq!(doc.scene_info[3].luminance_parameters.average_rgb, 90_000);
}

#[test]
fn tracker_measures_every_nth_frame_and_repeats_between() {
    let mut t = SceneCutTracker::new(3, 0);
    let mut analyzed = Vec::new();
    for i in 0..7u32 {
        let a = t.needs_analysis();
        analyzed.push(a);
        if a {
            t.record_analyzed(measurement(i), false);
        } else {
            let repeated = t.record_repeated();
            assert_eq!(repeated.average_rgb, (i / 3) * 3);
        }
    }
    assert_eq!(analyzed, vec![true, false, false, true, false, false, true]);
    assert_eq!(t.frame_count(), 7);
    assert!(t.cuts().is_empty());
    let avg: Vec<u32> = t.measurements().iter().map(|m| m.average_rgb).collect();
    assert_eq!(avg, vec![0, 0, 0, 3, 3, 3, 6]);
    let (ms, cuts) = t.into_parts();
    assert_eq!(ms.len(), 7);
    assert!(cuts.is_empty());
}

#[test]
fn tracker_zero_sample_rate_counts_as_one() {
    let mut t = SceneCutTracker::new(0, 0);
    for i in 0..3 {
        assert!(t.needs_analysis());
        t.record_analyzed(measurement(i), false);
    }
}

#[test]
fn tracker_keeps_minimum_scene_length() {
    let mut t = SceneCutTracker::new(1, 3);
    // The first frame has nothing to compare with and never opens a scene.
    assert!(!t.can_compare());
    assert!(!t.record_analyzed(measurement(0), true));
    assert!(t.can_compare());
    let mut placed = Vec::new();
    for i in 1..12 {
        if t.record_analyzed(measurement(i), true) {
            placed.push(t.frame_count() - 1);
        }
    }
    assert_eq!(placed, vec![3, 6, 9]);
    assert_eq!(t.into_parts().1, vec![3, 6, 9]);
}

#[test]
fn tracker_cuts_fall_on_sampled_frames() {
    let mut t = SceneCutTracker::new(2, 1);
    for i in 0..9 {
        if t.needs_analysis() {
            t.record_analyzed(measurement(i), true);
        } else {
            t.record_repeated();
        }
    }
    assert_eq!(t.cuts(), &vec![2, 4, 6, 8]);
}

#[test]
fn tracker_ignores_differences_below_threshold() {
    let mut t = SceneCutTracker::new(1, 0);
    t.record_analyzed(measurement(0), true);
    assert!(!t.record_analyzed(measurement(1), false));
    assert!(t.record_analyzed(measurement(2), true));
    assert_eq!(t.cuts(), &vec![2]);
}

#[test]
fn remux_tool_choice() {
    assert_eq!(remux_tool(true), RemuxTool::Mkvmerge);
    assert_eq!(remux_tool(false), RemuxTool::Ffmpeg);
}

#[test]
fn remux_frame_rate_arguments() {
    assert_eq!(default_duration_arg((24000, 1001)), "0:24000/1001fps");
    assert_eq!(frame_rate_arg((24000, 1001)), "24000/1001");
    assert_eq!(default_duration_arg((0, 1)), "0:0/1fps");
    assert_eq!(frame_rate_arg((u32::MAX, 10)), "4294967295/10");
}

#[test]
fn downscale_factors() {
    assert_eq!(effective_downscale(1), 1);
    assert_eq!(effective_downscale(2), 2);
    assert_eq!(effective_downscale(4), 4);
    assert_eq!(effective_downscale(3), 1);
    assert_eq!(effective_downscale(0), 1);
}

#[test]
fn analysis_dimensions_are_even_and_at_least_two() {
    assert_eq!(analysis_dimension(3840, 2), 1920);
    assert_eq!(analysis_dimension(1080, 4), 270);
    assert_eq!(analysis_dimension(1082, 4), 270);
    assert_eq!(analysis_dimension(3, 4), 2);
    assert_eq!(analysis_dimension(1081, 1), 1081);
}

#[test]
fn frame_rate_fallback() {
    assert_eq!(source_frame_rate(25, 1), (25, 1));
    assert_eq!(source_frame_rate(0, 1), (24000, 1001));
    assert_eq!(source_frame_rate(30000, -1), (24000, 1001));
}

#[test]
fn file_names() {
    assert_eq!(json_file_name("movie"), "movie.hdr10plus.json");
    assert_eq!(output_file_name("movie"), "movie.HDR10plus.mkv");
    assert_eq!(temp_dir_name("movie"), "mkvhdr10plus_temp_movie");
}
