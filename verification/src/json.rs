//! HDR10+ metadata document model (the schema consumed by `hdr10plus_tool
//! inject`) and its assembly from per-frame measurements and scene labels.
//!
//! Every luminance magnitude is clamped to `[0, 100000]`; the document carries
//! the Profile B identity Bezier and a non-zero
//! `TargetedSystemDisplayMaximumLuminance`, so the tool accepts it.
use vstd::prelude::*;

use crate::measure::{FrameMeasurement, DISTRIBUTION_INDEX, MAX_VALUE};
use crate::scene::{scene_end, scene_starts, scene_summary, summary_computable, SceneLabel};

verus! {

/// Name written into `ToolInfo.Tool`.
pub const TOOL_NAME: &'static str = "mkvhdr10plus";

/// Version written into `ToolInfo.Version`.
pub const TOOL_VERSION: &'static str = "0.1.0";

/// The whole HDR10+ metadata document.
pub struct Hdr10PlusJson {
    pub json_info: JsonInfo,
    pub scene_info: Vec<SceneInfo>,
    pub scene_info_summary: SceneInfoSummary,
    pub tool_info: ToolInfo,
}

/// `JSONInfo`: profile and format version.
pub struct JsonInfo {
    pub hdr10plus_profile: String,
    pub version: String,
}

/// `SceneInfo`: the metadata of one displayed frame.
pub struct SceneInfo {
    pub bezier_curve_data: BezierCurveData,
    pub luminance_parameters: LuminanceParameters,
    pub number_of_windows: u32,
    pub targeted_system_display_maximum_luminance: u32,
    pub scene_frame_index: u32,
    pub scene_id: u32,
    pub sequence_frame_index: u32,
}

/// `BezierCurveData`: the tone-mapping curve.
pub struct BezierCurveData {
    pub anchors: Vec<u32>,
    pub knee_point_x: u32,
    pub knee_point_y: u32,
}

/// `LuminanceParameters`: the measured luminance of one frame.
pub struct LuminanceParameters {
    pub average_rgb: u32,
    pub luminance_distributions: LuminanceDistributions,
    pub max_scl: [u32; 3],
}

/// `LuminanceDistributions`: the `maxRGB` percentiles.
pub struct LuminanceDistributions {
    pub distribution_index: Vec<u8>,
    pub distribution_values: Vec<u32>,
}

/// `SceneInfoSummary`: where each scene starts and how many frames it holds.
pub struct SceneInfoSummary {
    pub scene_first_frame_index: Vec<u32>,
    pub scene_frame_numbers: Vec<u32>,
}

/// `ToolInfo`: the generating tool.
pub struct ToolInfo {
    pub tool: String,
    pub version: String,
}

/// `v` clamped to `MAX_VALUE`.
pub open spec fn clamped(v: u32) -> u32 {
    if v <= MAX_VALUE { v } else { MAX_VALUE }
}

/// Clamps a luminance magnitude to the largest value the format accepts.
pub fn clamp_value(v: u32) -> (r: u32)
    ensures
        r == clamped(v),
{
    if v <= MAX_VALUE { v } else { MAX_VALUE }
}

/// `TargetedSystemDisplayMaximumLuminance` written for a requested target:
/// clamped to `1..=MAX_VALUE` (Profile B forbids 0).
pub open spec fn target_luminance(target_nits: u32) -> u32 {
    if target_nits < 1 { 1 } else if target_nits > MAX_VALUE { MAX_VALUE } else { target_nits }
}

/// Profile B identity Bezier anchors (a regular ramp, close to identity).
pub open spec fn identity_anchors() -> Seq<u32> {
    seq![102u32, 205, 307, 410, 512, 614, 717, 819, 922]
}

/// The 9-value `DistributionIndex` form.
pub open spec fn distribution_index_9() -> Seq<u8> {
    seq![1u8, 5, 10, 25, 50, 75, 90, 95, 99]
}

/// The `DistributionIndex` written into every frame entry is the library's
/// fixed `DISTRIBUTION_INDEX`, the slots whose percentiles
/// `HistogramAccum::distribution` computes.
pub proof fn lemma_document_index_is_distribution_index()
    ensures
        distribution_index_9() == DISTRIBUTION_INDEX@,
{
    crate::measure::lemma_slot_percentiles_follow_distribution_index();
}

/// The 10-value `DistributionIndex` form, also accepted by the format.
pub open spec fn distribution_index_10() -> Seq<u8> {
    seq![1u8, 5, 10, 25, 50, 75, 90, 95, 98, 99]
}

/// The luminance part of the frame entry that `build` writes for measurement
/// `m` and the requested target luminance: the identity Bezier, the fixed
/// distribution indices, every measured value clamped to `MAX_VALUE`, a single
/// window and the clamped target.
pub open spec fn luminance_for(s: SceneInfo, m: FrameMeasurement, target_nits: u32) -> bool {
    &&& s.bezier_curve_data.anchors@ == identity_anchors()
    &&& s.bezier_curve_data.knee_point_x == 0
    &&& s.bezier_curve_data.knee_point_y == 0
    &&& s.luminance_parameters.average_rgb == clamped(m.average_rgb)
    &&& s.luminance_parameters.luminance_distributions.distribution_index@ == distribution_index_9()
    &&& s.luminance_parameters.luminance_distributions.distribution_values@.len() == 9
    &&& forall|k: int| 0 <= k < 9 ==> #[trigger] s.luminance_parameters.luminance_distributions.distribution_values@[k]
        == clamped(m.distribution@[k])
    &&& forall|c: int| 0 <= c < 3 ==> #[trigger] s.luminance_parameters.max_scl@[c] == clamped(m.max_scl@[c])
    &&& s.number_of_windows == 1
    &&& s.targeted_system_display_maximum_luminance == target_luminance(target_nits)
}

/// The frame entry that `build` writes for measurement `m`, label `l` and the
/// requested target luminance.
pub open spec fn scene_info_for(s: SceneInfo, m: FrameMeasurement, l: SceneLabel, target_nits: u32) -> bool {
    &&& luminance_for(s, m, target_nits)
    &&& s.scene_frame_index == l.scene_frame_index
    &&& s.scene_id == l.scene_id
    &&& s.sequence_frame_index == l.sequence_frame_index
}

/// A frame entry passes the validation rules of `hdr10plus_tool`: no luminance
/// value above 100000, a 9- or 10-value distribution with the fixed indices,
/// and, for Profile B, a targeted display luminance in `1..=100000`.
pub open spec fn scene_info_valid(s: SceneInfo) -> bool {
    let d = s.luminance_parameters.luminance_distributions;
    &&& forall|c: int| 0 <= c < 3 ==> #[trigger] s.luminance_parameters.max_scl@[c] <= MAX_VALUE
    &&& s.luminance_parameters.average_rgb <= MAX_VALUE
    &&& d.distribution_index@ == distribution_index_9() || d.distribution_index@ == distribution_index_10()
    &&& d.distribution_values@.len() == d.distribution_index@.len()
    &&& forall|k: int| 0 <= k < d.distribution_values@.len() ==> #[trigger] d.distribution_values@[k] <= MAX_VALUE
    &&& 1 <= s.targeted_system_display_maximum_luminance <= MAX_VALUE
}

/// A Profile B document whose every frame entry passes validation.
pub open spec fn document_valid(doc: Hdr10PlusJson) -> bool {
    &&& doc.json_info.hdr10plus_profile@ == "B"@
    &&& forall|i: int| 0 <= i < doc.scene_info@.len() ==> scene_info_valid(#[trigger] doc.scene_info@[i])
}

fn identity_anchor_vec() -> (v: Vec<u32>)
    ensures
        v@ == identity_anchors(),
{
    let mut v: Vec<u32> = Vec::new();
    v.push(102);
    v.push(205);
    v.push(307);
    v.push(410);
    v.push(512);
    v.push(614);
    v.push(717);
    v.push(819);
    v.push(922);
    assert(v@ =~= identity_anchors());
    v
}

fn distribution_index_vec() -> (v: Vec<u8>)
    ensures
        v@ == distribution_index_9(),
{
    let mut v: Vec<u8> = Vec::new();
    v.push(1);
    v.push(5);
    v.push(10);
    v.push(25);
    v.push(50);
    v.push(75);
    v.push(90);
    v.push(95);
    v.push(99);
    assert(v@ =~= distribution_index_9());
    v
}

fn frame_entry(m: &FrameMeasurement, l: &SceneLabel, target: u32, target_nits: u32) -> (s: SceneInfo)
    requires
        target == target_luminance(target_nits),
    ensures
        scene_info_for(s, *m, *l, target_nits),
        scene_info_valid(s),
{
    let mut values: Vec<u32> = Vec::new();
    let mut k: usize = 0;
    while k < 9
        invariant
            k <= 9,
            values.len() == k,
            forall|q: int| 0 <= q < k ==> #[trigger] values@[q] == clamped(m.distribution@[q]),
        decreases 9 - k,
    {
        values.push(clamp_value(m.distribution[k]));
        k = k + 1;
    }
    let max_scl = [clamp_value(m.max_scl[0]), clamp_value(m.max_scl[1]), clamp_value(m.max_scl[2])];
    assert(max_scl@[0] == clamped(m.max_scl@[0]));
    assert(max_scl@[1] == clamped(m.max_scl@[1]));
    assert(max_scl@[2] == clamped(m.max_scl@[2]));
    let s = SceneInfo {
        bezier_curve_data: BezierCurveData { anchors: identity_anchor_vec(), knee_point_x: 0, knee_point_y: 0 },
        luminance_parameters: LuminanceParameters {
            average_rgb: clamp_value(m.average_rgb),
            luminance_distributions: LuminanceDistributions {
                distribution_index: distribution_index_vec(),
                distribution_values: values,
            },
            max_scl,
        },
        number_of_windows: 1,
        targeted_system_display_maximum_luminance: target,
        scene_frame_index: l.scene_frame_index,
        scene_id: l.scene_id,
        sequence_frame_index: l.sequence_frame_index,
    };
    s
}

/// Assemble the full HDR10+ document from per-frame measurements and matching
/// scene labels.
///
/// `measurements` and `labels` must have the same length and be in display
/// order. `target_nits` becomes `TargetedSystemDisplayMaximumLuminance`,
/// clamped to `1..=MAX_VALUE` (it must be non-zero for Profile B).
pub fn build(measurements: &[FrameMeasurement], labels: &[SceneLabel], target_nits: u32) -> (doc: Hdr10PlusJson)
    requires
        measurements@.len() == labels@.len(),
        summary_computable(labels@),
    ensures
        doc.json_info.hdr10plus_profile@ == "B"@,
        doc.json_info.version@ == "1.0"@,
        doc.tool_info.tool@ == TOOL_NAME@,
        doc.tool_info.version@ == TOOL_VERSION@,
        doc.scene_info@.len() == measurements@.len(),
        forall|i: int| 0 <= i < measurements@.len() ==> scene_info_for(
            #[trigger] doc.scene_info@[i],
            measurements@[i],
            labels@[i],
            target_nits,
        ),
        doc.scene_info_summary.scene_first_frame_index@ == scene_starts(labels@),
        doc.scene_info_summary.scene_frame_numbers@.len() == scene_starts(labels@).len(),
        forall|k: int| 0 <= k < scene_starts(labels@).len()
            ==> #[trigger] doc.scene_info_summary.scene_frame_numbers@[k] == scene_end(labels@, k)
            - scene_starts(labels@)[k],
        document_valid(doc),
{
    let target = if target_nits < 1 { 1 } else if target_nits > MAX_VALUE { MAX_VALUE } else { target_nits };
    let mut scene_info: Vec<SceneInfo> = Vec::new();
    let mut i: usize = 0;
    while i < measurements.len()
        invariant
            i <= measurements@.len(),
            measurements@.len() == labels@.len(),
            target == target_luminance(target_nits),
            scene_info@.len() == i,
            forall|q: int| 0 <= q < i ==> scene_info_for(#[trigger] scene_info@[q], measurements@[q], labels@[q], target_nits),
            forall|q: int| 0 <= q < i ==> scene_info_valid(#[trigger] scene_info@[q]),
        decreases measurements@.len() - i,
    {
        let entry = frame_entry(&measurements[i], &labels[i], target, target_nits);
        scene_info.push(entry);
        i = i + 1;
    }
    let (scene_first_frame_index, scene_frame_numbers) = scene_summary(labels);
    let doc = Hdr10PlusJson {
        json_info: JsonInfo { hdr10plus_profile: String::from_str("B"), version: String::from_str("1.0") },
        scene_info,
        scene_info_summary: SceneInfoSummary { scene_first_frame_index, scene_frame_numbers },
        tool_info: ToolInfo { tool: String::from_str(TOOL_NAME), version: String::from_str(TOOL_VERSION) },
    };
    doc
}

} // verus!
