//! Decisions of the conversion run: which decoded frames are measured, where
//! scene cuts fall, the analysis resolution and frame rate, the names of the
//! files the run writes, and the metadata document for the measured frames.
use vstd::prelude::*;

use crate::json::{build, document_valid, luminance_for, Hdr10PlusJson, TOOL_NAME, TOOL_VERSION};
use crate::measure::FrameMeasurement;
use crate::scene::{
    covered_frames, cut_allowed, cut_allowed_spec, first_of_scene, label_frames, lemma_label_bounds,
    lemma_summary_of_labels, scene_end, scene_frame_at, scene_id_at, scene_starts, SceneLabel,
};

verus! {

/// Why a run could not produce a metadata document.
#[derive(Clone, Copy, Debug, PartialEq, Eq, Structural)]
pub enum RunError {
    /// The input yielded no decoded frame.
    NoFramesDecoded,
}

impl RunError {
    /// The message shown to the user.
    pub fn message(&self) -> (s: String)
        ensures
            s@ == "no frames were decoded from the input"@,
    {
        match self {
            RunError::NoFramesDecoded => String::from_str("no frames were decoded from the input"),
        }
    }
}

/// Sum of the first `m` scene lengths.
pub open spec fn sum_lengths(numbers: Seq<u32>, m: nat) -> int
    decreases m,
{
    if m == 0 {
        0
    } else {
        sum_lengths(numbers, (m - 1) as nat) + numbers[m - 1]
    }
}

proof fn lemma_sum_lengths(labels: Seq<SceneLabel>, numbers: Seq<u32>, m: nat)
    requires
        m <= numbers.len(),
        numbers.len() == scene_starts(labels).len(),
        forall|k: int| 0 <= k < numbers.len() ==> #[trigger] numbers[k] == scene_end(labels, k) - scene_starts(labels)[k],
    ensures
        sum_lengths(numbers, m) == covered_frames(labels, m),
    decreases m,
{
    if m > 0 {
        lemma_sum_lengths(labels, numbers, (m - 1) as nat);
        assert(numbers[m - 1] == scene_end(labels, m - 1) - scene_starts(labels)[m - 1]);
    }
}

/// The metadata document for the measured frames of a run, with scenes opened
/// at the detected `cuts`.
///
/// Frame `i` carries the clamped luminance of `measurements[i]`, sequence index
/// `i` and the scene labels that `cuts` give it. The summary lists, in
/// increasing order, the first frame of every scene (frame 0 and each frame
/// opened by a cut), one per scene identifier, and scene lengths that are at
/// least 1 and add up to the number of frames. An empty measurement list is an
/// error.
pub fn metadata_document(measurements: &[FrameMeasurement], cuts: Vec<u32>, target_nits: u32) -> (r: Result<
    Hdr10PlusJson,
    RunError,
>)
    requires
        measurements@.len() <= u32::MAX,
    ensures
        measurements@.len() == 0 <==> r is Err,
        r matches Err(e) ==> e == RunError::NoFramesDecoded,
        r matches Ok(doc) ==> {
            let n = measurements@.len();
            let first = doc.scene_info_summary.scene_first_frame_index@;
            let numbers = doc.scene_info_summary.scene_frame_numbers@;
            &&& doc.json_info.hdr10plus_profile@ == "B"@
            &&& doc.json_info.version@ == "1.0"@
            &&& doc.tool_info.tool@ == TOOL_NAME@
            &&& doc.tool_info.version@ == TOOL_VERSION@
            &&& document_valid(doc)
            &&& doc.scene_info@.len() == n
            &&& forall|i: int| 0 <= i < n ==> {
                let s = #[trigger] doc.scene_info@[i];
                &&& luminance_for(s, measurements@[i], target_nits)
                &&& s.sequence_frame_index == i
                &&& s.scene_id == scene_id_at(cuts@, i as nat)
                &&& s.scene_frame_index == scene_frame_at(cuts@, i as nat)
            }
            &&& forall|a: int, b: int| 0 <= a < b < first.len() ==> first[a] < first[b]
            &&& forall|j: int| 0 <= j < n ==> (first.contains(j as u32) <==> first_of_scene(cuts@, j))
            &&& first.len() == scene_id_at(cuts@, (n - 1) as nat) + 1
            &&& first[0] == 0
            &&& numbers.len() == first.len()
            &&& forall|k: int| 0 <= k < numbers.len() ==> #[trigger] numbers[k] == (if k + 1 < first.len() {
                first[k + 1] as int
            } else {
                n as int
            }) - first[k]
            &&& forall|k: int| 0 <= k < numbers.len() ==> #[trigger] numbers[k] >= 1
            &&& sum_lengths(numbers, numbers.len()) == n
        },
{
    if measurements.len() == 0 {
        return Err(RunError::NoFramesDecoded);
    }
    let total_frames = measurements.len() as u32;
    let ghost cut_values = cuts@;
    let labels = label_frames(total_frames, cuts);
    proof {
        lemma_summary_of_labels(labels@, cut_values);
    }
    let doc = build(measurements, labels.as_slice(), target_nits);
    proof {
        let numbers = doc.scene_info_summary.scene_frame_numbers@;
        lemma_sum_lengths(labels@, numbers, numbers.len());
        assert forall|i: int| 0 <= i < measurements@.len() implies {
            let s = #[trigger] doc.scene_info@[i];
            &&& luminance_for(s, measurements@[i], target_nits)
            &&& s.sequence_frame_index == i
            &&& s.scene_id == scene_id_at(cut_values, i as nat)
            &&& s.scene_frame_index == scene_frame_at(cut_values, i as nat)
        } by {
            assert(crate::scene::label_matches(labels@[i], cut_values, i as nat));
        }
        assert forall|k: int| 0 <= k < numbers.len() implies #[trigger] numbers[k] >= 1 by {
            assert(scene_end(labels@, k) - scene_starts(labels@)[k] >= 1);
        }
    }
    Ok(doc)
}

/// Frame-by-frame decisions of the analysis pass: which decoded frames are
/// measured (every `sample_rate`-th frame, and always the first), the
/// measurement each frame carries (a skipped frame repeats the previous one),
/// which measured frames open a new scene, and the cuts found so far.
pub struct SceneCutTracker {
    sample_rate: u32,
    min_scene_length: u32,
    frame_count: u32,
    last_cut: Option<u32>,
    cuts: Vec<u32>,
    measurements: Vec<FrameMeasurement>,
}

impl SceneCutTracker {
    /// Frames are measured every `sample_rate()` frames (at least 1).
    pub closed spec fn sample_rate(&self) -> u32 {
        self.sample_rate
    }

    /// Minimum number of frames between two cuts.
    pub closed spec fn min_scene_length(&self) -> u32 {
        self.min_scene_length
    }

    /// Number of frames seen so far.
    pub closed spec fn frames_seen(&self) -> u32 {
        self.frame_count
    }

    /// Cuts placed so far, in the order they were placed.
    pub closed spec fn cut_list(&self) -> Seq<u32> {
        self.cuts@
    }

    /// The latest cut, if any.
    pub closed spec fn latest_cut(&self) -> Option<u32> {
        self.last_cut
    }

    /// The measurement of every frame seen so far, in display order.
    pub closed spec fn measured_list(&self) -> Seq<FrameMeasurement> {
        self.measurements@
    }

    /// Some frame has been measured, so later frames can be compared with it
    /// and skipped frames can repeat it.
    pub open spec fn has_reference(&self) -> bool {
        self.frames_seen() > 0
    }

    /// The next frame is measured: it falls on the sampling grid, or no frame
    /// has been measured yet.
    pub open spec fn on_grid(&self) -> bool {
        self.frames_seen() % self.sample_rate() == 0 || !self.has_reference()
    }

    /// What always holds of the tracker: the sample rate is positive; there is
    /// one measurement per frame seen, and a frame off the sampling grid
    /// repeats the measurement of the frame before it; the cuts rise strictly,
    /// any two at least `min_scene_length` frames apart (the first at least
    /// `min_scene_length` frames into the stream), all on the sampling grid,
    /// after frame 0 and before the current frame; the latest cut is the last
    /// of them.
    pub open spec fn wf(&self) -> bool {
        let c = self.cut_list();
        let ms = self.measured_list();
        &&& self.sample_rate() >= 1
        &&& ms.len() == self.frames_seen()
        &&& forall|i: int| 0 < i < ms.len() && i % (self.sample_rate() as int) != 0 ==> #[trigger] ms[i] == ms[i - 1]
        &&& forall|a: int, b: int| 0 <= a < b < c.len() ==> c[a] < c[b] && c[b] - c[a] >= self.min_scene_length()
        &&& c.len() > 0 ==> c[0] >= self.min_scene_length()
        &&& forall|a: int| 0 <= a < c.len() ==> 0 < #[trigger] c[a] < self.frames_seen()
        &&& forall|a: int| 0 <= a < c.len() ==> #[trigger] c[a] % self.sample_rate() == 0
        &&& self.latest_cut() == if c.len() == 0 { None::<u32> } else { Some(c.last()) }
    }

    /// A tracker before the first frame. A sample rate of 0 counts as 1.
    pub fn new(sample_rate: u32, min_scene_length: u32) -> (t: SceneCutTracker)
        ensures
            t.wf(),
            t.sample_rate() == if sample_rate == 0 { 1 } else { sample_rate },
            t.min_scene_length() == min_scene_length,
            t.frames_seen() == 0,
            t.cut_list() == Seq::<u32>::empty(),
    {
        SceneCutTracker {
            sample_rate: if sample_rate == 0 { 1 } else { sample_rate },
            min_scene_length,
            frame_count: 0,
            last_cut: None,
            cuts: Vec::new(),
            measurements: Vec::new(),
        }
    }

    /// Whether the next frame must be measured: it falls on the sampling grid,
    /// or no frame has been measured yet.
    pub fn needs_analysis(&self) -> (r: bool)
        requires
            self.wf(),
        ensures
            r == self.on_grid(),
    {
        self.frame_count % self.sample_rate == 0 || self.frame_count == 0
    }

    /// Whether a measured frame can be compared with an earlier one.
    pub fn can_compare(&self) -> (r: bool)
        ensures
            r == self.has_reference(),
    {
        self.frame_count > 0
    }

    /// Number of frames seen so far.
    pub fn frame_count(&self) -> (r: u32)
        ensures
            r == self.frames_seen(),
    {
        self.frame_count
    }

    /// The cuts placed so far.
    pub fn cuts(&self) -> (r: &Vec<u32>)
        ensures
            r@ == self.cut_list(),
    {
        &self.cuts
    }

    /// The per-frame measurements so far.
    pub fn measurements(&self) -> (r: &Vec<FrameMeasurement>)
        ensures
            r@ == self.measured_list(),
    {
        &self.measurements
    }

    /// The per-frame measurements and the cuts, taking the tracker apart.
    pub fn into_parts(self) -> (r: (Vec<FrameMeasurement>, Vec<u32>))
        ensures
            r.0@ == self.measured_list(),
            r.1@ == self.cut_list(),
    {
        (self.measurements, self.cuts)
    }

    /// Account for a frame on the sampling grid, measured as `m`.
    /// `exceeds_threshold` tells whether its histogram differs from the
    /// previous measured one by more than the scene threshold (ignored when
    /// there is no previous one). A cut is placed at this frame when there is a
    /// previous measured frame, the threshold is exceeded and the cut is far
    /// enough from the last one; returns whether it was.
    pub fn record_analyzed(&mut self, m: FrameMeasurement, exceeds_threshold: bool) -> (placed: bool)
        requires
            old(self).wf(),
            old(self).on_grid(),
            old(self).frames_seen() < u32::MAX,
        ensures
            final(self).wf(),
            placed == (old(self).has_reference() && exceeds_threshold && cut_allowed_spec(
                old(self).latest_cut(),
                old(self).frames_seen(),
                old(self).min_scene_length(),
            )),
            final(self).cut_list() == if placed {
                old(self).cut_list().push(old(self).frames_seen())
            } else {
                old(self).cut_list()
            },
            final(self).measured_list() == old(self).measured_list().push(m),
            final(self).frames_seen() == old(self).frames_seen() + 1,
            final(self).sample_rate() == old(self).sample_rate(),
            final(self).min_scene_length() == old(self).min_scene_length(),
    {
        let fc = self.frame_count;
        let placed = fc > 0 && exceeds_threshold && cut_allowed(self.last_cut, fc, self.min_scene_length);
        let ghost old_cuts = self.cuts@;
        let ghost old_ms = self.measurements@;
        if placed {
            self.cuts.push(fc);
            self.last_cut = Some(fc);
            proof {
                let c = self.cuts@;
                assert(c.last() == fc);
                if old_cuts.len() > 0 {
                    assert(old_cuts.last() == old_cuts[old_cuts.len() - 1]);
                    assert(old_cuts.last() < fc);
                }
                assert forall|a: int, b: int| 0 <= a < b < c.len() implies c[a] < c[b] && c[b] - c[a]
                    >= self.min_scene_length by {
                    assert(c[a] == old_cuts[a]);
                    if b == c.len() - 1 {
                        let l = old_cuts.len() - 1;
                        assert(old_cuts[l] == old_cuts.last());
                        if a < l {
                            assert(old_cuts[a] < old_cuts[l]);
                        }
                    } else {
                        assert(c[b] == old_cuts[b]);
                    }
                }
                assert forall|a: int| 0 <= a < c.len() implies #[trigger] c[a] % self.sample_rate == 0 by {
                    if a < old_cuts.len() {
                        assert(c[a] == old_cuts[a]);
                    }
                }
            }
        }
        self.measurements.push(m);
        self.frame_count = fc + 1;
        proof {
            let ms = self.measurements@;
            assert forall|i: int| 0 < i < ms.len() && i % (self.sample_rate as int) != 0 implies #[trigger] ms[i]
                == ms[i - 1] by {
                assert(i < old_ms.len());
                assert(ms[i] == old_ms[i]);
                assert(ms[i - 1] == old_ms[i - 1]);
            }
        }
        placed
    }

    /// Account for a frame off the sampling grid: it repeats the previous
    /// frame's measurement, which is returned.
    pub fn record_repeated(&mut self) -> (m: FrameMeasurement)
        requires
            old(self).wf(),
            !old(self).on_grid(),
            old(self).frames_seen() < u32::MAX,
        ensures
            final(self).wf(),
            m == old(self).measured_list().last(),
            final(self).measured_list() == old(self).measured_list().push(m),
            final(self).cut_list() == old(self).cut_list(),
            final(self).frames_seen() == old(self).frames_seen() + 1,
            final(self).sample_rate() == old(self).sample_rate(),
            final(self).min_scene_length() == old(self).min_scene_length(),
    {
        let ghost old_ms = self.measurements@;
        let m = self.measurements[self.measurements.len() - 1];
        self.measurements.push(m);
        self.frame_count = self.frame_count + 1;
        proof {
            let ms = self.measurements@;
            assert forall|i: int| 0 < i < ms.len() && i % (self.sample_rate as int) != 0 implies #[trigger] ms[i]
                == ms[i - 1] by {
                if i < old_ms.len() {
                    assert(ms[i] == old_ms[i]);
                    assert(ms[i - 1] == old_ms[i - 1]);
                } else {
                    assert(ms[i - 1] == old_ms[old_ms.len() - 1]);
                }
            }
        }
        m
    }
}

/// Every frame seen by the analysis pass carries the measurement of the latest
/// frame on the sampling grid at or before it.
pub proof fn lemma_tracker_repeats_grid_measurement(t: SceneCutTracker, i: int)
    requires
        t.wf(),
        0 <= i < t.measured_list().len(),
    ensures
        t.measured_list()[i] == t.measured_list()[i - i % (t.sample_rate() as int)],
    decreases i,
{
    let sr = t.sample_rate() as int;
    if i % sr != 0 {
        if i == 0 {
            vstd::arithmetic::div_mod::lemma_small_mod(0, sr as nat);
        }
        assert(i >= 1);
        let j = i - 1;
        assert(j % sr == i % sr - 1 && j - j % sr == i - i % sr) by {
            vstd::arithmetic::div_mod::lemma_fundamental_div_mod(i, sr);
            vstd::arithmetic::div_mod::lemma_mod_bound(i, sr);
            let q = i / sr;
            let r = i % sr;
            assert(q * sr == sr * q) by (nonlinear_arith);
            assert(j == q * sr + (r - 1));
            vstd::arithmetic::div_mod::lemma_fundamental_div_mod_converse(j, sr, q, r - 1);
        }
        lemma_tracker_repeats_grid_measurement(t, j);
    }
}

/// The downscale factor actually used: 1, 2 and 4 are accepted, anything else
/// falls back to 1.
pub fn effective_downscale(downscale: u32) -> (r: u32)
    ensures
        r == if downscale == 1 || downscale == 2 || downscale == 4 { downscale } else { 1 },
{
    if downscale == 1 || downscale == 2 || downscale == 4 {
        downscale
    } else {
        1
    }
}

/// A frame dimension at the analysis resolution: with a downscale factor above
/// 1, the dimension divided by the factor, at least 2, rounded down to an even
/// number; otherwise unchanged.
pub fn analysis_dimension(dim: u32, downscale: u32) -> (r: u32)
    ensures
        downscale > 1 ==> r == ({
            let q = if dim / downscale >= 2 { dim / downscale } else { 2 };
            q - q % 2
        }),
        downscale > 1 ==> r % 2 == 0 && r >= 2,
        downscale <= 1 ==> r == dim,
{
    if downscale > 1 {
        let q = dim / downscale;
        let q = if q >= 2 { q } else { 2 };
        assert(q & !1u32 == q - q % 2) by (bit_vector);
        q & !1u32
    } else {
        dim
    }
}

/// The source frame rate `(numerator, denominator)`, or 24000/1001 when the
/// container does not report a positive one.
pub fn source_frame_rate(numerator: i32, denominator: i32) -> (r: (u32, u32))
    ensures
        numerator > 0 && denominator > 0 ==> r.0 == numerator && r.1 == denominator,
        !(numerator > 0 && denominator > 0) ==> r.0 == 24000 && r.1 == 1001,
{
    if numerator > 0 && denominator > 0 {
        (numerator as u32, denominator as u32)
    } else {
        (24000, 1001)
    }
}

/// Name of the metadata file written next to the input in JSON-only mode.
pub fn json_file_name(stem: &str) -> (r: String)
    ensures
        r@ == stem@ + ".hdr10plus.json"@,
{
    String::from_str(stem).concat(".hdr10plus.json")
}

/// Name of the default output file written next to the input.
pub fn output_file_name(stem: &str) -> (r: String)
    ensures
        r@ == stem@ + ".HDR10plus.mkv"@,
{
    String::from_str(stem).concat(".HDR10plus.mkv")
}

/// Name of the directory holding the intermediate files of a run.
pub fn temp_dir_name(stem: &str) -> (r: String)
    ensures
        r@ == "mkvhdr10plus_temp_"@ + stem@,
{
    String::from_str("mkvhdr10plus_temp_").concat(stem)
}

/// Number of entries of `cuts` that are at most `i`.
pub open spec fn cuts_at_most(cuts: Seq<u32>, i: int) -> nat
    decreases cuts.len(),
{
    if cuts.len() == 0 {
        0
    } else {
        cuts_at_most(cuts.drop_last(), i) + if cuts.last() <= i { 1nat } else { 0nat }
    }
}

proof fn lemma_cuts_at_most_step(cuts: Seq<u32>, i: int)
    requires
        forall|a: int, b: int| 0 <= a < b < cuts.len() ==> cuts[a] < cuts[b],
    ensures
        cuts_at_most(cuts, i) == cuts_at_most(cuts, i - 1) + if crate::scene::listed(cuts, i) { 1nat } else { 0nat },
    decreases cuts.len(),
{
    if cuts.len() > 0 {
        let d = cuts.drop_last();
        lemma_cuts_at_most_step(d, i);
        if crate::scene::listed(cuts, i) {
            let w = choose|w: int| 0 <= w < cuts.len() && cuts[w] == i;
            if w < cuts.len() - 1 {
                assert(d[w] == i);
                assert(cuts[w] < cuts[cuts.len() - 1]);
            }
        }
        if crate::scene::listed(d, i) {
            let w = choose|w: int| 0 <= w < d.len() && d[w] == i;
            assert(cuts[w] == i);
        }
        if cuts.last() == i {
            assert(cuts[cuts.len() - 1] == i);
            assert(!crate::scene::listed(d, i)) by {
                if crate::scene::listed(d, i) {
                    let w = choose|w: int| 0 <= w < d.len() && d[w] == i;
                    assert(cuts[w] < cuts[cuts.len() - 1]);
                }
            }
        }
        if crate::scene::listed(cuts, i) && cuts.last() != i {
            let w = choose|w: int| 0 <= w < cuts.len() && cuts[w] == i;
            assert(d[w] == i);
        }
    }
}

proof fn lemma_cuts_at_most_bounds(cuts: Seq<u32>, i: int)
    ensures
        (forall|a: int| 0 <= a < cuts.len() ==> cuts[a] > i) ==> cuts_at_most(cuts, i) == 0,
        (forall|a: int| 0 <= a < cuts.len() ==> cuts[a] <= i) ==> cuts_at_most(cuts, i) == cuts.len(),
    decreases cuts.len(),
{
    if cuts.len() > 0 {
        lemma_cuts_at_most_bounds(cuts.drop_last(), i);
        assert(cuts.last() == cuts[cuts.len() - 1]);
        if forall|a: int| 0 <= a < cuts.len() ==> cuts[a] > i {
            assert forall|a: int| 0 <= a < cuts.drop_last().len() implies cuts.drop_last()[a] > i by {
                assert(cuts.drop_last()[a] == cuts[a]);
            }
        }
        if forall|a: int| 0 <= a < cuts.len() ==> cuts[a] <= i {
            assert forall|a: int| 0 <= a < cuts.drop_last().len() implies cuts.drop_last()[a] <= i by {
                assert(cuts.drop_last()[a] == cuts[a]);
            }
        }
    }
}

proof fn lemma_scene_id_counts_cuts(cuts: Seq<u32>, i: nat)
    requires
        forall|a: int, b: int| 0 <= a < b < cuts.len() ==> cuts[a] < cuts[b],
        forall|a: int| 0 <= a < cuts.len() ==> cuts[a] > 0,
    ensures
        scene_id_at(cuts, i) == cuts_at_most(cuts, i as int),
    decreases i,
{
    if i == 0 {
        lemma_cuts_at_most_bounds(cuts, 0);
    } else {
        lemma_scene_id_counts_cuts(cuts, (i - 1) as nat);
        lemma_cuts_at_most_step(cuts, i as int);
    }
}

/// Once the analysis pass has seen `n > 0` frames, the frames carry exactly one
/// scene more than the tracker placed cuts: the last frame's scene identifier
/// is the number of cuts.
pub proof fn lemma_tracker_scene_count(t: SceneCutTracker)
    requires
        t.wf(),
        t.frames_seen() > 0,
    ensures
        scene_id_at(t.cut_list(), (t.frames_seen() - 1) as nat) == t.cut_list().len(),
{
    let c = t.cut_list();
    lemma_scene_id_counts_cuts(c, (t.frames_seen() - 1) as nat);
    lemma_cuts_at_most_bounds(c, t.frames_seen() - 1);
}

/// The tool that remuxes the injected HEVC with the source's other streams.
#[derive(Clone, Copy, Debug, PartialEq, Eq, Structural)]
pub enum RemuxTool {
    /// `mkvmerge`, given the frame rate through `--default-duration`.
    Mkvmerge,
    /// The `ffmpeg` fallback, given the frame rate through `-r`.
    Ffmpeg,
}

/// `mkvmerge` when it is on `PATH`, else the `ffmpeg` fallback.
pub fn remux_tool(mkvmerge_found: bool) -> (r: RemuxTool)
    ensures
        r == if mkvmerge_found { RemuxTool::Mkvmerge } else { RemuxTool::Ffmpeg },
{
    if mkvmerge_found {
        RemuxTool::Mkvmerge
    } else {
        RemuxTool::Ffmpeg
    }
}

/// The decimal digit character for `d < 10`.
pub open spec fn digit_char(d: nat) -> char {
    if d == 0 {
        '0'
    } else if d == 1 {
        '1'
    } else if d == 2 {
        '2'
    } else if d == 3 {
        '3'
    } else if d == 4 {
        '4'
    } else if d == 5 {
        '5'
    } else if d == 6 {
        '6'
    } else if d == 7 {
        '7'
    } else if d == 8 {
        '8'
    } else {
        '9'
    }
}

/// Decimal notation of `n`, without leading zeros.
pub open spec fn decimal(n: nat) -> Seq<char>
    decreases n,
{
    if n < 10 {
        seq![digit_char(n)]
    } else {
        decimal(n / 10).push(digit_char(n % 10))
    }
}

/// Value of a string of decimal digits read in base 10.
pub open spec fn numeral_value(s: Seq<char>) -> int
    decreases s.len(),
{
    if s.len() == 0 {
        0
    } else {
        numeral_value(s.drop_last()) * 10 + (s.last() as int - '0' as int)
    }
}

/// `decimal(n)` is the standard base-10 numeral of `n`: every character is a
/// digit `'0'..='9'`, reading it back in base 10 gives `n`, and it has no
/// leading zero.
pub proof fn lemma_decimal_is_numeral(n: nat)
    ensures
        decimal(n).len() >= 1,
        forall|i: int| 0 <= i < decimal(n).len() ==> '0' <= #[trigger] decimal(n)[i] <= '9',
        numeral_value(decimal(n)) == n,
        n >= 1 ==> decimal(n)[0] != '0',
    decreases n,
{
    assert(forall|d: nat| d < 10 ==> #[trigger] digit_char(d) as int == '0' as int + d);
    if n < 10 {
        let s = decimal(n);
        assert(s.drop_last() =~= Seq::<char>::empty());
        assert(numeral_value(s.drop_last()) == 0);
        assert(s.last() == digit_char(n));
        assert(digit_char(n) as int == '0' as int + n);
    } else {
        lemma_decimal_is_numeral(n / 10);
        let p = decimal(n / 10);
        let s = decimal(n);
        assert(s == p.push(digit_char(n % 10)));
        assert(s.drop_last() =~= p);
        assert(s.last() == digit_char(n % 10));
        assert(digit_char(n % 10) as int == '0' as int + n % 10);
        assert(numeral_value(s) == numeral_value(p) * 10 + (s.last() as int - '0' as int));
        assert(s[0] == p[0]);
        assert forall|i: int| 0 <= i < s.len() implies '0' <= #[trigger] s[i] <= '9' by {
            if i < p.len() {
                assert(s[i] == p[i]);
            }
        }
    }
}

fn digit_str(d: u32) -> (r: &'static str)
    requires
        d < 10,
    ensures
        r@ == seq![digit_char(d as nat)],
{
    proof {
        reveal_strlit("0");
        reveal_strlit("1");
        reveal_strlit("2");
        reveal_strlit("3");
        reveal_strlit("4");
        reveal_strlit("5");
        reveal_strlit("6");
        reveal_strlit("7");
        reveal_strlit("8");
        reveal_strlit("9");
    }
    if d == 0 {
        "0"
    } else if d == 1 {
        "1"
    } else if d == 2 {
        "2"
    } else if d == 3 {
        "3"
    } else if d == 4 {
        "4"
    } else if d == 5 {
        "5"
    } else if d == 6 {
        "6"
    } else if d == 7 {
        "7"
    } else if d == 8 {
        "8"
    } else {
        "9"
    }
}

/// Append the decimal notation of `n` to `out`.
fn push_decimal(out: &mut String, n: u32)
    ensures
        final(out)@ == old(out)@ + decimal(n as nat),
    decreases n,
{
    if n >= 10 {
        push_decimal(out, n / 10);
    }
    out.append(digit_str(n % 10));
    proof {
        if n >= 10 {
            assert(old(out)@ + decimal((n / 10) as nat) + seq![digit_char((n % 10) as nat)] =~= old(out)@ + decimal(
                n as nat,
            ));
        } else {
            assert(old(out)@ + seq![digit_char((n % 10) as nat)] =~= old(out)@ + decimal(n as nat));
        }
    }
}

/// `mkvmerge --default-duration` value giving track 0 the frame rate
/// `num/den`: `0:<num>/<den>fps`.
pub fn default_duration_arg(fps: (u32, u32)) -> (r: String)
    ensures
        r@ == "0:"@ + decimal(fps.0 as nat) + "/"@ + decimal(fps.1 as nat) + "fps"@,
{
    let mut r = String::from_str("0:");
    push_decimal(&mut r, fps.0);
    r.append("/");
    push_decimal(&mut r, fps.1);
    r.append("fps");
    r
}

/// `ffmpeg -r` value for the frame rate `num/den`: `<num>/<den>`.
pub fn frame_rate_arg(fps: (u32, u32)) -> (r: String)
    ensures
        r@ == decimal(fps.0 as nat) + "/"@ + decimal(fps.1 as nat),
{
    let mut r = String::new();
    push_decimal(&mut r, fps.0);
    r.append("/");
    push_decimal(&mut r, fps.1);
    proof {
        assert(Seq::<char>::empty() + decimal(fps.0 as nat) =~= decimal(fps.0 as nat));
    }
    r
}

} // verus!
