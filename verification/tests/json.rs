use mkvhdr10plus::json::{build, clamp_value};
use mkvhdr10plus::measure::{FrameMeasurement, DISTRIBUTION_INDEX, MAX_VALUE};
use mkvhdr10plus::scene::label_frames;

fn dummy_measurement() -> FrameMeasurement {
    FrameMeasurement {
        max_scl: [10568, 10238, 34997],
        average_rgb: 247,
        distribution: [14, 7319, 91, 42, 80, 192, 630, 1228, 7289],
    }
}

const IDENTITY_ANCHORS: [u32; 9] = [102, 205, 307, 410, 512, 614, 717, 819, 922];

#[test]
fn builds_expected_shape() {
    let measurements = vec![dummy_measurement(); 3];
    let labels = label_frames(3, vec![]);
    let doc = build(&measurements, &labels, 1000);

    assert_eq!(doc.json_info.hdr10plus_profile, "B");
    assert_eq!(doc.scene_info.len(), 3);
    assert_eq!(doc.tool_info.tool, "mkvhdr10plus");

    let s = &doc.scene_info[0];
    assert_eq!(s.number_of_windows, 1);
    assert_eq!(s.targeted_system_display_maximum_luminance, 1000);
    assert_eq!(
        s.luminance_parameters
            .luminance_distributions
            .distribution_index,
        vec![1, 5, 10, 25, 50, 75, 90, 95, 99]
    );
    assert_eq!(s.bezier_curve_data.anchors, IDENTITY_ANCHORS.to_vec());
}

#[test]
fn clamps_oversized_values() {
    let mut m = dummy_measurement();
    m.max_scl = [999_999, 0, 0];
    m.average_rgb = 200_000;
    m.distribution[0] = 500_000;
    let labels = label_frames(1, vec![]);
    let doc = build(&[m], &labels, 1000);
    let lp = &doc.scene_info[0].luminance_parameters;
    assert_eq!(lp.max_scl[0], MAX_VALUE);
    assert_eq!(lp.average_rgb, MAX_VALUE);
    assert_eq!(lp.luminance_distributions.distribution_values[0], MAX_VALUE);
}

#[test]
fn target_nits_never_zero() {
    let labels = label_frames(1, vec![]);
    let doc = build(&[dummy_measurement()], &labels, 0);
    assert_eq!(
        doc.scene_info[0].targeted_system_display_maximum_luminance,
        1
    );
}

#[test]
fn target_nits_capped_at_max_value() {
    let labels = label_frames(1, vec![]);
    let doc = build(&[dummy_measurement()], &labels, 250_000);
    assert_eq!(doc.scene_info[0].targeted_system_display_maximum_luminance, MAX_VALUE);
    let doc = build(&[dummy_measurement()], &labels, 400);
    assert_eq!(doc.scene_info[0].targeted_system_display_maximum_luminance, 400);
}

#[test]
fn in_range_values_pass_through_unchanged() {
    let labels = label_frames(1, vec![]);
    let doc = build(&[dummy_measurement()], &labels, 1000);
    let lp = &doc.scene_info[0].luminance_parameters;
    assert_eq!(lp.max_scl, [10568, 10238, 34997]);
    assert_eq!(lp.average_rgb, 247);
    assert_eq!(
        lp.luminance_distributions.distribution_values,
        vec![14, 7319, 91, 42, 80, 192, 630, 1228, 7289]
    );
    let b = &doc.scene_info[0].bezier_curve_data;
    assert_eq!((b.knee_point_x, b.knee_point_y), (0, 0));
}

#[test]
fn document_header_and_tool_info() {
    let labels = label_frames(2, vec![]);
    let doc = build(&[dummy_measurement(), dummy_measurement()], &labels, 1000);
    assert_eq!(doc.json_info.version, "1.0");
    assert_eq!(doc.tool_info.version, "0.1.0");
}

#[test]
fn scene_fields_and_summary_follow_labels() {
    let labels = label_frames(4, vec![3]);
    let doc = build(&vec![dummy_measurement(); 4], &labels, 1000);
    let ids: Vec<(u32, u32, u32)> = doc
        .scene_info
        .iter()
        .map(|s| (s.sequence_frame_index, s.scene_id, s.scene_frame_index))
        .collect();
    assert_eq!(ids, vec![(0, 0, 0), (1, 0, 1), (2, 0, 2), (3, 1, 0)]);
    assert_eq!(doc.scene_info_summary.scene_first_frame_index, vec![0, 3]);
    assert_eq!(doc.scene_info_summary.scene_frame_numbers, vec![3, 1]);
}

#[test]
fn clamp_value_limits() {
    assert_eq!(clamp_value(0), 0);
    assert_eq!(clamp_value(MAX_VALUE), MAX_VALUE);
    assert_eq!(clamp_value(MAX_VALUE + 1), MAX_VALUE);
    assert_eq!(clamp_value(u32::MAX), MAX_VALUE);
}

#[test]
fn distribution_index_constant() {
    assert_eq!(DISTRIBUTION_INDEX, [1, 5, 10, 25, 50, 75, 90, 95, 99]);
}
