//! Scene grouping: cut admission, per-frame scene labels and the scene summary
//! that the HDR10+ document carries.
use vstd::prelude::*;

verus! {

/// Per-frame scene labels expected by the HDR10+ document.
#[derive(Clone, Copy, Debug, PartialEq, Eq, Structural)]
pub struct SceneLabel {
    /// Absolute, contiguous index in display order (`0..N-1`).
    pub sequence_frame_index: u32,
    /// Scene identifier, incremented at each cut (starts at 0).
    pub scene_id: u32,
    /// Frame index within its scene, resets to 0 at each cut.
    pub scene_frame_index: u32,
}

/// A cut at `candidate` is admitted when it lies at least `min_scene_len`
/// frames after the previous cut (or after frame 0 when there was none).
pub open spec fn cut_allowed_spec(last_cut: Option<u32>, candidate: u32, min_scene_len: u32) -> bool {
    match last_cut {
        None => candidate >= min_scene_len,
        Some(prev) => (if candidate >= prev { candidate - prev } else { 0 }) >= min_scene_len,
    }
}

/// Whether a candidate cut at `candidate` is far enough from the last cut.
pub fn cut_allowed(last_cut: Option<u32>, candidate: u32, min_scene_len: u32) -> (r: bool)
    ensures
        r == cut_allowed_spec(last_cut, candidate, min_scene_len),
{
    match last_cut {
        None => candidate >= min_scene_len,
        Some(prev) => candidate.saturating_sub(prev) >= min_scene_len,
    }
}

/// `j` occurs somewhere in `cuts`.
pub open spec fn listed(cuts: Seq<u32>, j: int) -> bool {
    exists|k: int| 0 <= k < cuts.len() && cuts[k] == j
}

/// Frame `j` opens a new scene: it is listed as a cut and is not frame 0.
pub open spec fn opens_scene(cuts: Seq<u32>, j: int) -> bool {
    0 < j && listed(cuts, j)
}

/// Scene identifier of frame `i`: the number of frames `1..=i` that open a scene.
pub open spec fn scene_id_at(cuts: Seq<u32>, i: nat) -> nat
    decreases i,
{
    if i == 0 {
        0
    } else {
        scene_id_at(cuts, (i - 1) as nat) + if opens_scene(cuts, i as int) { 1nat } else { 0nat }
    }
}

/// Index of frame `i` within its scene: frames since the last frame that opened a scene.
pub open spec fn scene_frame_at(cuts: Seq<u32>, i: nat) -> nat
    decreases i,
{
    if i == 0 {
        0
    } else if opens_scene(cuts, i as int) {
        0
    } else {
        scene_frame_at(cuts, (i - 1) as nat) + 1
    }
}

/// The label that frame `i` receives from the cut list `cuts`.
pub open spec fn label_matches(label: SceneLabel, cuts: Seq<u32>, i: nat) -> bool {
    &&& label.sequence_frame_index == i
    &&& label.scene_id == scene_id_at(cuts, i)
    &&& label.scene_frame_index == scene_frame_at(cuts, i)
}

/// Neither counter ever exceeds the frame index.
pub proof fn lemma_label_bounds(cuts: Seq<u32>, i: nat)
    ensures
        scene_id_at(cuts, i) <= i,
        scene_frame_at(cuts, i) <= i,
    decreases i,
{
    if i > 0 {
        lemma_label_bounds(cuts, (i - 1) as nat);
    }
}

/// Assign per-frame scene labels from a list of cut frame indices.
///
/// `cuts` holds the `SequenceFrameIndex` values at which a new scene begins
/// (the first frame of each new scene). They need not be sorted; duplicates,
/// a cut at frame 0 and cuts at or past `total_frames` are ignored.
pub fn label_frames(total_frames: u32, cuts: Vec<u32>) -> (labels: Vec<SceneLabel>)
    ensures
        labels.len() == total_frames,
        forall|i: int| 0 <= i < total_frames ==> label_matches(#[trigger] labels@[i], cuts@, i as nat),
{
    let n = total_frames as usize;
    let mut marks: Vec<bool> = Vec::new();
    let mut j: usize = 0;
    while j < n
        invariant
            j <= n,
            n == total_frames,
            marks.len() == j,
            forall|t: int| 0 <= t < j ==> !marks@[t],
        decreases n - j,
    {
        marks.push(false);
        j = j + 1;
    }

    let mut k: usize = 0;
    while k < cuts.len()
        invariant
            k <= cuts.len(),
            n == total_frames,
            marks.len() == n,
            forall|t: int| 0 <= t < n ==> #[trigger] marks@[t] == opens_scene(cuts@.take(k as int), t),
        decreases cuts.len() - k,
    {
        let c = cuts[k];
        let ghost before = cuts@.take(k as int);
        let ghost after = cuts@.take(k + 1);
        assert(after == before.push(c));
        if 0 < c && (c as usize) < n {
            marks.set(c as usize, true);
        }
        assert forall|t: int| 0 <= t < n implies #[trigger] marks@[t] == opens_scene(after, t) by {
            if listed(before, t) {
                let w = choose|w: int| 0 <= w < before.len() && before[w] == t;
                assert(after[w] == t);
            }
            if t == c {
                assert(after[k as int] == t);
            }
            if listed(after, t) && t != c {
                let w = choose|w: int| 0 <= w < after.len() && after[w] == t;
                assert(w < k);
                assert(before[w] == t);
            }
        }
        k = k + 1;
    }
    assert(cuts@.take(cuts.len() as int) == cuts@);

    let mut labels: Vec<SceneLabel> = Vec::new();
    let mut scene_id: u32 = 0;
    let mut scene_frame_index: u32 = 0;
    let mut seq: u32 = 0;
    while seq < total_frames
        invariant
            seq <= total_frames,
            n == total_frames,
            marks.len() == n,
            forall|t: int| 0 <= t < n ==> #[trigger] marks@[t] == opens_scene(cuts@, t),
            labels.len() == seq,
            forall|i: int| 0 <= i < seq ==> label_matches(#[trigger] labels@[i], cuts@, i as nat),
            seq == 0 ==> scene_id == 0 && scene_frame_index == 0,
            seq > 0 ==> scene_id == scene_id_at(cuts@, (seq - 1) as nat)
                && scene_frame_index == scene_frame_at(cuts@, (seq - 1) as nat) + 1,
        decreases total_frames - seq,
    {
        proof {
            if seq > 0 {
                lemma_label_bounds(cuts@, (seq - 1) as nat);
            }
        }
        if marks[seq as usize] {
            scene_id = scene_id + 1;
            scene_frame_index = 0;
        }
        labels.push(SceneLabel { sequence_frame_index: seq, scene_id, scene_frame_index });
        proof {
            lemma_label_bounds(cuts@, seq as nat);
        }
        scene_frame_index = scene_frame_index + 1;
        seq = seq + 1;
    }
    labels
}


/// `SequenceFrameIndex` of every label whose `SceneFrameIndex` is 0, in order.
pub open spec fn scene_starts(labels: Seq<SceneLabel>) -> Seq<u32>
    decreases labels.len(),
{
    if labels.len() == 0 {
        Seq::empty()
    } else {
        let rest = scene_starts(labels.drop_last());
        if labels.last().scene_frame_index == 0 {
            rest.push(labels.last().sequence_frame_index)
        } else {
            rest
        }
    }
}

/// Where scene `k` of the summary ends: the start of the next scene, or the
/// number of labels for the last one.
pub open spec fn scene_end(labels: Seq<SceneLabel>, k: int) -> int {
    let starts = scene_starts(labels);
    if k + 1 < starts.len() {
        starts[k + 1] as int
    } else {
        labels.len() as int
    }
}

/// The summary can be computed without underflow: the scene starts never go
/// backwards, the last one lies within the labels, and the label count fits
/// the `u32` fields of the document.
pub open spec fn summary_computable(labels: Seq<SceneLabel>) -> bool {
    let starts = scene_starts(labels);
    &&& labels.len() <= u32::MAX
    &&& forall|a: int, b: int| 0 <= a <= b < starts.len() ==> starts[a] <= starts[b]
    &&& starts.len() > 0 ==> starts.last() <= labels.len()
}

/// Build the `SceneInfoSummary` arrays from per-frame labels.
///
/// Returns `(scene_first_frame_index, scene_frame_numbers)`.
pub fn scene_summary(labels: &[SceneLabel]) -> (r: (Vec<u32>, Vec<u32>))
    requires
        summary_computable(labels@),
    ensures
        r.0@ == scene_starts(labels@),
        r.1.len() == r.0.len(),
        forall|k: int| 0 <= k < r.1.len() ==> #[trigger] r.1@[k] == scene_end(labels@, k) - r.0@[k],
{
    let mut first_indices: Vec<u32> = Vec::new();
    let mut i: usize = 0;
    while i < labels.len()
        invariant
            i <= labels.len(),
            first_indices@ == scene_starts(labels@.take(i as int)),
        decreases labels.len() - i,
    {
        assert(labels@.take(i + 1).drop_last() == labels@.take(i as int));
        if labels[i].scene_frame_index == 0 {
            first_indices.push(labels[i].sequence_frame_index);
        }
        i = i + 1;
    }
    assert(labels@.take(labels.len() as int) == labels@);

    let ghost starts = scene_starts(labels@);
    let total = labels.len() as u32;
    let mut frame_numbers: Vec<u32> = Vec::new();
    let mut k: usize = 0;
    while k < first_indices.len()
        invariant
            k <= first_indices.len(),
            first_indices@ == starts,
            starts == scene_starts(labels@),
            summary_computable(labels@),
            total == labels.len(),
            frame_numbers.len() == k,
            forall|q: int| 0 <= q < k ==> #[trigger] frame_numbers@[q] == scene_end(labels@, q) - starts[q],
        decreases first_indices.len() - k,
    {
        let start = first_indices[k];
        let end = if k + 1 < first_indices.len() { first_indices[k + 1] } else { total };
        proof {
            if k + 1 < starts.len() {
                assert(starts[k as int] <= starts[k + 1]);
            } else {
                assert(starts.last() == starts[k as int]);
            }
        }
        frame_numbers.push(end - start);
        k = k + 1;
    }
    (first_indices, frame_numbers)
}

/// Total number of frames covered by the first `m` scenes of the summary.
pub open spec fn covered_frames(labels: Seq<SceneLabel>, m: nat) -> int
    decreases m,
{
    if m == 0 {
        0
    } else {
        covered_frames(labels, (m - 1) as nat) + scene_end(labels, m - 1) - scene_starts(labels)[m - 1]
    }
}

/// Frame `j` is the first frame of a scene: frame 0, or a frame opened by a cut.
pub open spec fn first_of_scene(cuts: Seq<u32>, j: int) -> bool {
    j == 0 || opens_scene(cuts, j)
}

proof fn lemma_starts_prefix(labels: Seq<SceneLabel>, cuts: Seq<u32>, m: nat)
    requires
        m <= labels.len(),
        forall|i: int| 0 <= i < labels.len() ==> label_matches(#[trigger] labels[i], cuts, i as nat),
    ensures
        ({
            let s = scene_starts(labels.take(m as int));
            &&& forall|a: int, b: int| 0 <= a < b < s.len() ==> s[a] < s[b]
            &&& forall|a: int| 0 <= a < s.len() ==> s[a] < m && first_of_scene(cuts, #[trigger] s[a] as int)
            &&& forall|j: int| 0 <= j < m && first_of_scene(cuts, j) ==> s.contains(j as u32)
            &&& m > 0 ==> s.len() == scene_id_at(cuts, (m - 1) as nat) + 1 && s[0] == 0
        }),
    decreases m,
{
    if m > 0 {
        lemma_starts_prefix(labels, cuts, (m - 1) as nat);
        let t = labels.take(m as int);
        assert(t.drop_last() == labels.take(m - 1));
        assert(t.last() == labels[m - 1]);
        let prev = scene_starts(labels.take(m - 1));
        let s = scene_starts(t);
        let l = labels[m - 1];
        assert(label_matches(l, cuts, (m - 1) as nat));
        if l.scene_frame_index == 0 {
            assert(s == prev.push(l.sequence_frame_index));
            assert forall|j: int| 0 <= j < m && first_of_scene(cuts, j) implies s.contains(j as u32) by {
                if j < m - 1 {
                    assert(prev.contains(j as u32));
                    let w = choose|w: int| 0 <= w < prev.len() && prev[w] == j as u32;
                    assert(s[w] == j as u32);
                } else {
                    assert(s[prev.len() as int] == j as u32);
                }
            }
            if m == 1 {
                assert(prev.len() == 0);
            }
        } else {
            assert(s == prev);
            assert forall|j: int| 0 <= j < m && first_of_scene(cuts, j) implies s.contains(j as u32) by {
                if j == m - 1 {
                    assert(scene_frame_at(cuts, j as nat) == 0);
                }
            }
        }
    }
}

/// The scene summary of the labels that `label_frames` assigns lists, in
/// increasing order, exactly the frames that begin a scene (frame 0 and each
/// frame opened by a cut); it can always be computed, has one entry per scene
/// identifier, every scene holds at least one frame, and the scene lengths add
/// up to the number of frames.
pub proof fn lemma_summary_of_labels(labels: Seq<SceneLabel>, cuts: Seq<u32>)
    requires
        labels.len() <= u32::MAX,
        forall|i: int| 0 <= i < labels.len() ==> label_matches(#[trigger] labels[i], cuts, i as nat),
    ensures
        summary_computable(labels),
        forall|a: int, b: int| 0 <= a < b < scene_starts(labels).len()
            ==> scene_starts(labels)[a] < scene_starts(labels)[b],
        forall|j: int| 0 <= j < labels.len()
            ==> (scene_starts(labels).contains(j as u32) <==> first_of_scene(cuts, j)),
        labels.len() > 0 ==> scene_starts(labels).len() == scene_id_at(cuts, (labels.len() - 1) as nat) + 1,
        labels.len() > 0 ==> scene_starts(labels)[0] == 0,
        forall|k: int| 0 <= k < scene_starts(labels).len()
            ==> scene_end(labels, k) - scene_starts(labels)[k] >= 1,
        covered_frames(labels, scene_starts(labels).len()) == labels.len(),
{
    let n = labels.len();
    lemma_starts_prefix(labels, cuts, n);
    assert(labels.take(n as int) == labels);
    let s = scene_starts(labels);
    assert forall|j: int| 0 <= j < n implies (s.contains(j as u32) <==> first_of_scene(cuts, j)) by {
        if s.contains(j as u32) {
            let w = choose|w: int| 0 <= w < s.len() && s[w] == j as u32;
            assert(first_of_scene(cuts, s[w] as int));
        }
    }
    if s.len() > 0 {
        assert(s.last() == s[s.len() - 1]);
    }
    lemma_covered_frames(labels, s.len());
}

proof fn lemma_covered_frames(labels: Seq<SceneLabel>, m: nat)
    requires
        m <= scene_starts(labels).len(),
    ensures
        m > 0 ==> covered_frames(labels, m) == scene_end(labels, m - 1) - scene_starts(labels)[0],
    decreases m,
{
    if m > 1 {
        lemma_covered_frames(labels, (m - 1) as nat);
        assert(scene_end(labels, m - 2) == scene_starts(labels)[m - 1]);
        assert(covered_frames(labels, m) == covered_frames(labels, (m - 1) as nat) + scene_end(labels, m - 1)
            - scene_starts(labels)[m - 1]);
    } else if m == 1 {
        assert(covered_frames(labels, 0) == 0);
        assert(covered_frames(labels, 1) == covered_frames(labels, 0) + scene_end(labels, 0)
            - scene_starts(labels)[0]);
    }
}

/// Scene labels depend only on which frame indices occur among the cuts: the
/// order of the cuts and repeated cuts make no difference.
pub proof fn lemma_labels_ignore_cut_order(c1: Seq<u32>, c2: Seq<u32>, i: nat)
    requires
        forall|j: int| listed(c1, j) <==> listed(c2, j),
    ensures
        scene_id_at(c1, i) == scene_id_at(c2, i),
        scene_frame_at(c1, i) == scene_frame_at(c2, i),
    decreases i,
{
    if i > 0 {
        lemma_labels_ignore_cut_order(c1, c2, (i - 1) as nat);
        assert(listed(c1, i as int) <==> listed(c2, i as int));
    }
}

/// Consecutive frames either stay in one scene, with the in-scene index
/// advancing by one, or the later frame opens the next scene at index 0.
pub proof fn lemma_labels_step(cuts: Seq<u32>, i: nat)
    ensures
        opens_scene(cuts, (i + 1) as int) ==> scene_id_at(cuts, i + 1) == scene_id_at(cuts, i) + 1
            && scene_frame_at(cuts, i + 1) == 0,
        !opens_scene(cuts, (i + 1) as int) ==> scene_id_at(cuts, i + 1) == scene_id_at(cuts, i)
            && scene_frame_at(cuts, i + 1) == scene_frame_at(cuts, i) + 1,
{
}

/// Having no previous cut admits exactly the cuts that a previous cut at
/// frame 0 would admit, and an admitted cut stays admitted at any later frame.
pub proof fn lemma_cut_allowed_laws(last_cut: Option<u32>, candidate: u32, later: u32, min_scene_len: u32)
    requires
        candidate <= later,
    ensures
        cut_allowed_spec(None, candidate, min_scene_len) == cut_allowed_spec(Some(0u32), candidate, min_scene_len),
        cut_allowed_spec(last_cut, candidate, min_scene_len) ==> cut_allowed_spec(last_cut, later, min_scene_len),
{
}

} // verus!
