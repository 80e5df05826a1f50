//! Video assembly: frame-gap repair, target-dimension analysis over observed
//! frame resolutions, and the encoder argument vector.
//!
//! The functions here compute plans over a directory's listed contents; the
//! surrounding binary applies the file copies, runs the encoder subprocess
//! and writes its log sidecars.

use vstd::prelude::*;

use crate::config::Config;
use crate::date::{parse_date_from_shot_dir, parses_as_shot_dir, video_file_name_seq, Date};
use crate::frames::{parses_as_frame_file, FrameRecord, MAX_FRAME_INDEX};
use crate::strnum::{dec_digits, u32_to_string};

verus! {

/// Target dimensions when a directory has no metadata to analyze.
pub const DEFAULT_VIDEO_WIDTH: u32 = 860;

pub const DEFAULT_VIDEO_HEIGHT: u32 = 360;

/// One entry of a directory listing, as the caller saw it on disk.
#[derive(Debug)]
pub struct FileEntry {
    pub name: String,
    pub is_symlink: bool,
}

/// Copy the frame file of `src_index` over the missing slot `dst_index`.
#[derive(Clone, Copy, Debug, PartialEq, Eq, Structural)]
pub struct CopyOp {
    pub src_index: u32,
    pub dst_index: u32,
}

/// The entry at `k` is a regular file holding the frame of index `i`.
pub open spec fn entry_has_index(e: FileEntry, ext: Seq<char>, i: nat) -> bool {
    !e.is_symlink && parses_as_frame_file(e.name@, ext, i)
}

/// The frame indices present in a directory listing: indices of non-symlink
/// files named `<five digits>.<ext>`.
pub open spec fn present_indices(entries: Seq<FileEntry>, ext: Seq<char>) -> Set<nat> {
    Set::new(
        |i: nat|
            exists|k: int| 0 <= k < entries.len() && entry_has_index(#[trigger] entries[k], ext, i),
    )
}

/// `src` is the index whose frame file fills the missing slot `dst`: the
/// greatest present index at or below `dst`, or the least present index when
/// nothing at or below `dst` is present (the "duplicate the earliest frame
/// into slot zero" case, cascaded).
pub open spec fn is_fill_source(present: Set<nat>, dst: nat, src: nat) -> bool {
    &&& present.contains(src)
    &&& if exists|j: nat| j <= dst && present.contains(j) {
        src <= dst && forall|j: nat| src < j <= dst ==> !present.contains(j)
    } else {
        forall|j: nat| present.contains(j) ==> src <= j
    }
}

/// Loop bookkeeping for the gap scan: `last` is the greatest present index
/// strictly below `i`, or `None` when no index below `i` is present.
spec fn last_present_inv(last: Option<u32>, present: Set<nat>, i: nat) -> bool {
    match last {
        Some(p) => {
            &&& (p as nat) < i
            &&& present.contains(p as nat)
            &&& forall|j: nat| (p as nat) < j < i ==> !present.contains(j)
        },
        None => forall|j: nat| j < i ==> !present.contains(j),
    }
}

/// The repair plan for one directory: after every op's `src` frame file is
/// copied to its `dst` slot, indices `0 .. frame_count` are all present.
pub struct FrameRepairPlan {
    pub ops: Vec<CopyOp>,
    pub frame_count: u32,
}

impl FrameRepairPlan {
    /// What `fix_missing_frames` promises of a plan for listing `entries`
    /// with extension `ext`.
    pub open spec fn wf_for(self, entries: Seq<FileEntry>, ext: Seq<char>) -> bool {
        let present = present_indices(entries, ext);
        &&& self.frame_count >= 1
        &&& present.contains((self.frame_count - 1) as nat)
        &&& forall|i: nat| present.contains(i) ==> i < self.frame_count as nat
        // every slot below frame_count is present or filled by exactly one op
        &&& forall|i: nat|
            i < self.frame_count as nat ==> present.contains(i) || exists|k: int|
                0 <= k < self.ops@.len() && (#[trigger] self.ops@[k]).dst_index as nat == i
        // ops fill only missing slots below frame_count, from their fill source
        &&& forall|k: int|
            0 <= k < self.ops@.len() ==> {
                &&& !present.contains((#[trigger] self.ops@[k]).dst_index as nat)
                &&& self.ops@[k].dst_index < self.frame_count
                &&& is_fill_source(
                    present,
                    self.ops@[k].dst_index as nat,
                    self.ops@[k].src_index as nat,
                )
            }
        // ops are ordered by slot, so no slot is filled twice
        &&& forall|k1: int, k2: int|
            0 <= k1 < k2 < self.ops@.len() ==> (#[trigger] self.ops@[k1]).dst_index < (
            #[trigger] self.ops@[k2]).dst_index
    }
}

/// An already-contiguous directory yields an empty plan: repair is idempotent.
pub proof fn lemma_repair_idempotent(
    plan: FrameRepairPlan,
    entries: Seq<FileEntry>,
    ext: Seq<char>,
)
    requires
        plan.wf_for(entries, ext),
        forall|i: nat| i < plan.frame_count as nat ==> present_indices(entries, ext).contains(i),
    ensures
        plan.ops@.len() == 0,
{
    if plan.ops@.len() > 0 {
        let d = plan.ops@[0].dst_index;
        assert(!present_indices(entries, ext).contains(d as nat));
        assert(present_indices(entries, ext).contains(d as nat));
    }
}

#[derive(Debug, PartialEq, Eq)]
pub enum MovieError {
    /// The directory holds no frame file at all; there is nothing to encode.
    NoFramesAtAll,
    /// The directory path does not end in `/<YYYY>/<MM>/<DD>`, so no date —
    /// and no output file name — can be derived from it.
    BadDirectoryPath,
}

/// Plans the repair of missing frame indices in a directory listing, so the
/// encoder sees the contiguous `0 .. N` run its sequential input mode needs.
///
/// Fails with `NoFramesAtAll` exactly when no non-symlink frame file of the
/// configured extension is present. Otherwise the plan duplicates the
/// earliest frame into slot 0 if that is missing, and fills every other gap
/// below the greatest observed index from the nearest earlier frame.
/// Re-running on an already-contiguous directory plans nothing.
pub fn fix_missing_frames(entries: &Vec<FileEntry>, ext: &str) -> (r: Result<
    FrameRepairPlan,
    MovieError,
>)
    ensures
        match r {
            Ok(plan) => plan.wf_for(entries@, ext@),
            Err(e) => e is NoFramesAtAll && forall|i: nat|
                !present_indices(entries@, ext@).contains(i),
        },
{
    let ghost present = present_indices(entries@, ext@);
    // collect the indices of the non-symlink frame files
    let mut indices: Vec<u32> = Vec::new();
    let mut k: usize = 0;
    while k < entries.len()
        invariant
            k <= entries@.len(),
            present == present_indices(entries@, ext@),
            forall|t: int|
                0 <= t < indices@.len() ==> present.contains(#[trigger] indices@[t] as nat),
            forall|i: nat| #![trigger indices@.contains(i as u32)]
                (exists|j: int| 0 <= j < k && entry_has_index(#[trigger] entries@[j], ext@, i))
                    ==> indices@.contains(i as u32),
            forall|t: int| 0 <= t < indices@.len() ==> #[trigger] indices@[t] <= MAX_FRAME_INDEX,
        decreases entries@.len() - k,
    {
        if !entries[k].is_symlink {
            match crate::frames::parse_frame_file_name(&entries[k].name, ext) {
                Some(i) => {
                    let ghost pre = indices@;
                    indices.push(i);
                    proof {
                        assert(entry_has_index(entries@[k as int], ext@, i as nat));
                        assert(present.contains(i as nat));
                        assert forall|i2: nat| #![trigger indices@.contains(i2 as u32)]
                            (exists|j: int|
                                0 <= j < k + 1 && entry_has_index(
                                    #[trigger] entries@[j],
                                    ext@,
                                    i2,
                                )) implies indices@.contains(i2 as u32) by {
                            let j = choose|j: int|
                                0 <= j < k + 1 && entry_has_index(entries@[j], ext@, i2);
                            if j < k {
                                assert(entry_has_index(entries@[j], ext@, i2));
                                assert(pre.contains(i2 as u32));
                                let u = choose|u: int|
                                    0 <= u < pre.len() && pre[u] == i2 as u32;
                                assert(indices@[u] == i2 as u32);
                            } else {
                                crate::frames::lemma_frame_file_unambiguous(
                                    entries@[k as int].name@,
                                    ext@,
                                    i as nat,
                                    i2,
                                );
                                assert(indices@[pre.len() as int] == i2 as u32);
                            }
                        }
                    }
                },
                None => {
                    proof {
                        assert forall|i2: nat| #![trigger indices@.contains(i2 as u32)]
                            (exists|j: int|
                                0 <= j < k + 1 && entry_has_index(
                                    #[trigger] entries@[j],
                                    ext@,
                                    i2,
                                )) implies indices@.contains(i2 as u32) by {
                            let j = choose|j: int|
                                0 <= j < k + 1 && entry_has_index(entries@[j], ext@, i2);
                            assert(j < k);
                        }
                    }
                },
            }
        }
        k += 1;
    }
    proof {
        assert forall|i: nat| present.contains(i) implies indices@.contains(i as u32) by {
            let j = choose|j: int|
                0 <= j < entries@.len() && entry_has_index(#[trigger] entries@[j], ext@, i);
        }
    }
    if indices.len() == 0 {
        proof {
            assert forall|i: nat| !present.contains(i) by {
                if present.contains(i) {
                    assert(indices@.contains(i as u32));
                }
            }
        }
        return Err(MovieError::NoFramesAtAll);
    }
    // least and greatest present index
    let mut min_idx: u32 = indices[0];
    let mut max_idx: u32 = indices[0];
    let mut t: usize = 1;
    while t < indices.len()
        invariant
            1 <= t <= indices@.len(),
            indices@.contains(min_idx),
            indices@.contains(max_idx),
            forall|u: int| 0 <= u < t ==> min_idx <= #[trigger] indices@[u] <= max_idx,
        decreases indices@.len() - t,
    {
        if indices[t] < min_idx {
            min_idx = indices[t];
        }
        if indices[t] > max_idx {
            max_idx = indices[t];
        }
        t += 1;
    }
    proof {
        assert forall|i: nat| present.contains(i) implies (min_idx as nat) <= i && i <= (max_idx as nat) by {
            assert(indices@.contains(i as u32));
            let u = choose|u: int| 0 <= u < indices@.len() && indices@[u] == i as u32;
        }
        assert(present.contains(min_idx as nat));
        assert(present.contains(max_idx as nat));
    }
    // mark which indices up to the greatest are present
    let size = (max_idx as usize) + 1;
    let mut marks: Vec<bool> = Vec::new();
    while marks.len() < size
        invariant
            marks@.len() <= size,
            forall|j: int| 0 <= j < marks@.len() ==> !(#[trigger] marks@[j]),
        decreases size - marks@.len(),
    {
        marks.push(false);
    }
    let mut t2: usize = 0;
    while t2 < indices.len()
        invariant
            t2 <= indices@.len(),
            marks@.len() == size,
            size as int == max_idx as int + 1,
            forall|u: int| 0 <= u < indices@.len() ==> #[trigger] indices@[u] <= max_idx,
            forall|j: int|
                0 <= j < size ==> (#[trigger] marks@[j] <==> exists|u: int|
                    0 <= u < t2 && #[trigger] indices@[u] == j),
        decreases indices@.len() - t2,
    {
        let idx = indices[t2] as usize;
        let ghost pre_marks = marks@;
        marks.set(idx, true);
        proof {
            assert forall|j: int| 0 <= j < size implies (#[trigger] marks@[j] <==> exists|u: int|
                0 <= u < t2 + 1 && #[trigger] indices@[u] == j) by {
                if j == idx {
                    assert(indices@[t2 as int] == j);
                } else {
                    assert(marks@[j] == pre_marks[j]);
                    if marks@[j] {
                        let u = choose|u: int| 0 <= u < t2 && #[trigger] indices@[u] == j;
                        assert(0 <= u < t2 + 1 && indices@[u] == j);
                    }
                    if exists|u: int| 0 <= u < t2 + 1 && #[trigger] indices@[u] == j {
                        let u = choose|u: int| 0 <= u < t2 + 1 && #[trigger] indices@[u] == j;
                        assert(u < t2);
                    }
                }
            }
        }
        t2 += 1;
    }
    proof {
        assert forall|j: int| 0 <= j < size implies (#[trigger] marks@[j] <==> present.contains(
            j as nat,
        )) by {
            if marks@[j] {
                let u = choose|u: int| 0 <= u < indices@.len() && #[trigger] indices@[u] == j;
                assert(present.contains(indices@[u] as nat));
            }
            if present.contains(j as nat) {
                assert(indices@.contains(j as u32));
                let u = choose|u: int| 0 <= u < indices@.len() && indices@[u] == j as u32;
            }
        }
    }
    // plan a fill for every missing slot, from the nearest earlier frame
    let mut ops: Vec<CopyOp> = Vec::new();
    let mut last_present: Option<u32> = None;
    let mut i: usize = 0;
    while i < size
        invariant
            i <= size,
            size as int == max_idx as int + 1,
            marks@.len() == size,
            present == present_indices(entries@, ext@),
            forall|j: int| 0 <= j < size ==> (#[trigger] marks@[j] <==> present.contains(j as nat)),
            present.contains(min_idx as nat),
            forall|j: nat| present.contains(j) ==> (min_idx as nat) <= j && j <= (max_idx as nat),
            last_present_inv(last_present, present, i as nat),
            forall|k: int|
                0 <= k < ops@.len() ==> {
                    &&& !present.contains((#[trigger] ops@[k]).dst_index as nat)
                    &&& (ops@[k].dst_index as int) < (i as int)
                    &&& is_fill_source(present, ops@[k].dst_index as nat, ops@[k].src_index as nat)
                },
            forall|j: nat|
                j < i as nat && !present.contains(j) ==> exists|k: int|
                    0 <= k < ops@.len() && (#[trigger] ops@[k]).dst_index as nat == j,
            forall|k1: int, k2: int|
                0 <= k1 < k2 < ops@.len() ==> (#[trigger] ops@[k1]).dst_index < (
                #[trigger] ops@[k2]).dst_index,
        decreases size - i,
    {
        if marks[i] {
            last_present = Some(i as u32);
        } else {
            let src = match last_present {
                Some(p) => p,
                None => min_idx,
            };
            proof {
                assert(!marks@[i as int]);
                assert(!present.contains(i as nat));
                match last_present {
                    Some(p) => {
                        assert(present.contains(p as nat));
                        assert forall|j: nat|
                            (src as nat) < j <= (i as nat) implies !present.contains(j) by {
                            if j < i as nat {
                                assert(!present.contains(j));
                            } else {
                                assert(j == i as nat);
                            }
                        }
                        assert(is_fill_source(present, i as nat, src as nat));
                    },
                    None => {
                        assert forall|j: nat| j <= (i as nat) implies !present.contains(j) by {
                            if j < i as nat {
                                assert(!present.contains(j));
                            }
                        }
                        assert(!(exists|j: nat| j <= (i as nat) && present.contains(j)));
                        assert(is_fill_source(present, i as nat, src as nat));
                    },
                }
            }
            let ghost pre_ops = ops@;
            ops.push(CopyOp { src_index: src, dst_index: i as u32 });
            proof {
                assert forall|j: nat|
                    j < (i as nat) + 1 && !present.contains(j) implies exists|k2: int|
                        0 <= k2 < ops@.len() && (#[trigger] ops@[k2]).dst_index as nat == j by {
                    if j < i as nat {
                        let k2 = choose|k2: int|
                            0 <= k2 < pre_ops.len() && (#[trigger] pre_ops[k2]).dst_index as nat
                                == j;
                        assert(ops@[k2].dst_index as nat == j);
                    } else {
                        assert(ops@[pre_ops.len() as int].dst_index as nat == j);
                    }
                }
            }
        }
        i += 1;
    }
    let ghost final_ops = ops@;
    proof {
        let u = choose|u: int| 0 <= u < indices@.len() && indices@[u] == max_idx;
        assert(max_idx <= MAX_FRAME_INDEX);
    }
    let plan = FrameRepairPlan { ops, frame_count: max_idx + 1 };
    proof {
        assert(plan.frame_count as nat == (max_idx as nat) + 1);
        assert(present.contains((plan.frame_count - 1) as nat));
        assert forall|i2: nat|
            i2 < plan.frame_count as nat && !present.contains(i2) implies exists|k2: int|
                0 <= k2 < plan.ops@.len() && (#[trigger] plan.ops@[k2]).dst_index as nat == i2 by {
            let k2 = choose|k2: int|
                0 <= k2 < final_ops.len() && (#[trigger] final_ops[k2]).dst_index as nat == i2;
            assert(plan.ops@[k2].dst_index as nat == i2);
        }
    }
    Ok(plan)
}

/// How many records carry exactly the dimensions `(w, h)`.
pub open spec fn dim_count(rows: Seq<FrameRecord>, w: u32, h: u32) -> nat
    decreases rows.len(),
{
    if rows.len() == 0 {
        0
    } else {
        dim_count(rows.drop_last(), w, h) + if rows.last().width == w && rows.last().height == h {
            1nat
        } else {
            0
        }
    }
}

/// `(w1, h1)` at or before `(w2, h2)` in lexicographic order: the
/// deterministic tie-break of the mode selection.
pub open spec fn dims_le(w1: u32, h1: u32, w2: u32, h2: u32) -> bool {
    w1 < w2 || (w1 == w2 && h1 <= h2)
}

/// `(w, h)` is the most frequent dimension pair of `rows`, ties going to the
/// lexicographically smallest pair.
pub open spec fn is_mode_dims(rows: Seq<FrameRecord>, w: u32, h: u32) -> bool {
    &&& exists|k: int|
        0 <= k < rows.len() && (#[trigger] rows[k]).width == w && rows[k].height == h
    &&& forall|k: int|
        0 <= k < rows.len() ==> dim_count(rows, (#[trigger] rows[k]).width, rows[k].height)
            < dim_count(rows, w, h) || (dim_count(rows, rows[k].width, rows[k].height) == dim_count(
            rows,
            w,
            h,
        ) && dims_le(w, h, rows[k].width, rows[k].height))
}

/// The mode pair is unique.
pub proof fn lemma_mode_dims_unique(rows: Seq<FrameRecord>, w1: u32, h1: u32, w2: u32, h2: u32)
    requires
        is_mode_dims(rows, w1, h1),
        is_mode_dims(rows, w2, h2),
    ensures
        w1 == w2 && h1 == h2,
{
    let k1 = choose|k: int|
        0 <= k < rows.len() && (#[trigger] rows[k]).width == w1 && rows[k].height == h1;
    let k2 = choose|k: int|
        0 <= k < rows.len() && (#[trigger] rows[k]).width == w2 && rows[k].height == h2;
    assert(rows[k1].width == w1 && rows[k1].height == h1);
    assert(rows[k2].width == w2 && rows[k2].height == h2);
}

/// One axis scaled by `pct` percent (truncating) and rounded up to the next
/// even value, as the encoder's 4:2:0 pixel format requires.
pub open spec fn scaled_even(v: nat, pct: nat) -> nat {
    let s = (v * pct) / 100;
    if s % 2 == 0 {
        s
    } else {
        s + 1
    }
}

/// `(w, h)` is what dimension analysis yields for `rows` under `pct`: the
/// scaled-and-evened mode pair, or the default resolution when `rows` is
/// empty.
pub open spec fn analyzed_dims(rows: Seq<FrameRecord>, pct: nat, w: u32, h: u32) -> bool {
    if rows.len() == 0 {
        w == DEFAULT_VIDEO_WIDTH && h == DEFAULT_VIDEO_HEIGHT
    } else {
        exists|mw: u32, mh: u32|
            #![trigger dims_le(mw, mh, mw, mh)]
            is_mode_dims(rows, mw, mh) && w == scaled_even(mw as nat, pct) && h == scaled_even(
                mh as nat,
                pct,
            )
    }
}

fn count_dims(rows: &Vec<FrameRecord>, w: u32, h: u32) -> (c: usize)
    ensures
        c == dim_count(rows@, w, h),
{
    let mut c: usize = 0;
    let mut i: usize = 0;
    while i < rows.len()
        invariant
            i <= rows@.len(),
            c == dim_count(rows@.take(i as int), w, h),
            c <= i,
        decreases rows@.len() - i,
    {
        proof {
            assert(rows@.take(i + 1).drop_last() =~= rows@.take(i as int));
            assert(rows@.take(i + 1).last() == rows@[i as int]);
        }
        if rows[i].width == w && rows[i].height == h {
            c += 1;
        }
        i += 1;
    }
    proof {
        assert(rows@.take(rows@.len() as int) =~= rows@);
    }
    c
}

/// Picks the target video dimensions from a directory's observed frame
/// resolutions: the most frequent `(width, height)` pair (ties to the
/// lexicographically smallest), scaled by `scale_percent` and rounded up to
/// even on each axis. Falls back to the documented default resolution when
/// the metadata is empty.
pub fn analyze_frame_dimensions(rows: &Vec<FrameRecord>, scale_percent: u32) -> (r: (u32, u32))
    requires
        scale_percent >= 1,
        forall|k: int|
            0 <= k < rows@.len() ==> scaled_even(
                (#[trigger] rows@[k]).width as nat,
                scale_percent as nat,
            ) <= u32::MAX && scaled_even(rows@[k].height as nat, scale_percent as nat) <= u32::MAX,
    ensures
        analyzed_dims(rows@, scale_percent as nat, r.0, r.1),
        r.0 % 2 == 0,
        r.1 % 2 == 0,
{
    if rows.len() == 0 {
        return (DEFAULT_VIDEO_WIDTH, DEFAULT_VIDEO_HEIGHT);
    }
    let mut best_w: u32 = rows[0].width;
    let mut best_h: u32 = rows[0].height;
    let mut best_c: usize = count_dims(rows, best_w, best_h);
    let mut k: usize = 1;
    while k < rows.len()
        invariant
            1 <= k <= rows@.len(),
            rows@.len() > 0,
            best_c == dim_count(rows@, best_w, best_h),
            exists|j: int|
                0 <= j < rows@.len() && (#[trigger] rows@[j]).width == best_w && rows@[j].height
                    == best_h,
            forall|j: int|
                0 <= j < k ==> dim_count(rows@, (#[trigger] rows@[j]).width, rows@[j].height)
                    < best_c || (dim_count(rows@, rows@[j].width, rows@[j].height) == best_c
                    && dims_le(best_w, best_h, rows@[j].width, rows@[j].height)),
        decreases rows@.len() - k,
    {
        let w = rows[k].width;
        let h = rows[k].height;
        let c = count_dims(rows, w, h);
        if c > best_c || (c == best_c && (w < best_w || (w == best_w && h < best_h))) {
            best_w = w;
            best_h = h;
            best_c = c;
        }
        k += 1;
    }
    proof {
        assert(is_mode_dims(rows@, best_w, best_h));
    }
    let tw = scale_axis(best_w, scale_percent);
    let th = scale_axis(best_h, scale_percent);
    proof {
        assert(dims_le(best_w, best_h, best_w, best_h));
    }
    (tw, th)
}

/// One axis of the target size: scaled by `pct` percent and rounded up to
/// even.
fn scale_axis(v: u32, pct: u32) -> (r: u32)
    requires
        scaled_even(v as nat, pct as nat) <= u32::MAX,
    ensures
        r == scaled_even(v as nat, pct as nat),
        r % 2 == 0,
{
    let s: u64 = (v as u64) * (pct as u64) / 100;
    let e: u64 = if s % 2 == 0 {
        s
    } else {
        s + 1
    };
    e as u32
}

/// Assembles videos out of day directories: knows the encoder, the output
/// root, the frame rate and formats, and whether to compress or prune
/// afterwards.
pub struct MovieMaker {
    pub output_dir: String,
    pub frame_rate: u32,
    pub file_extension: String,
    pub video_type: String,
    pub scale_percent: u32,
    pub ffmpeg: String,
    pub compress_when_done: bool,
    pub keep_count: Option<u32>,
}

/// The fixed output frame rate: a day of frames, one every `interval`
/// seconds over a nine-hour working day, compressed to about one minute.
pub open spec fn frame_rate_for(interval: nat) -> nat {
    ((9 * 60 * 60) / interval) / 60
}

impl MovieMaker {
    /// Builds the maker from the configuration it will run under.
    pub fn new(config: Config) -> (m: MovieMaker)
        requires
            config.interval >= 1,
        ensures
            m.output_dir@ == config.vid_output_dir@,
            m.frame_rate == frame_rate_for(config.interval as nat),
            m.file_extension@ == config.shot_type@,
            m.video_type@ == config.video_type@,
            m.scale_percent == config.vid_scale_percent,
            m.ffmpeg@ == config.ffmpeg@,
            m.compress_when_done == config.compress_shots,
            m.keep_count == config.keep_count,
    {
        let rate: u64 = ((9 * 60 * 60) / config.interval) / 60;
        MovieMaker {
            output_dir: config.vid_output_dir,
            frame_rate: rate as u32,
            file_extension: config.shot_type,
            video_type: config.video_type,
            scale_percent: config.vid_scale_percent,
            ffmpeg: config.ffmpeg,
            compress_when_done: config.compress_shots,
            keep_count: config.keep_count,
        }
    }
}

/// The `-vf` filter: scale down into the target box preserving aspect ratio,
/// then letterbox with black to the exact target size.
pub open spec fn vf_filter_seq(w: nat, h: nat) -> Seq<char> {
    "scale="@ + dec_digits(w) + ":"@ + dec_digits(h)
        + ":force_original_aspect_ratio=decrease,pad="@ + dec_digits(w) + ":"@ + dec_digits(h)
        + ":(ow-iw)/2:(oh-ih)/2:color=black"@
}

/// The sequential zero-padded input pattern inside `dir`.
pub open spec fn input_pattern_seq(dir: Seq<char>, ext: Seq<char>) -> Seq<char> {
    dir + "/%05d."@ + ext
}

/// The full encoder argument vector, element for element.
pub open spec fn encoder_args_wf(
    args: Seq<String>,
    frame_rate: nat,
    input_dir: Seq<char>,
    ext: Seq<char>,
    output_file: Seq<char>,
    w: nat,
    h: nat,
) -> bool {
    &&& args.len() == 10
    &&& args[0]@ == "-r"@
    &&& args[1]@ == dec_digits(frame_rate)
    &&& args[2]@ == "-i"@
    &&& args[3]@ == input_pattern_seq(input_dir, ext)
    &&& args[4]@ == "-vf"@
    &&& args[5]@ == vf_filter_seq(w, h)
    &&& args[6]@ == "-pix_fmt"@
    &&& args[7]@ == "yuv420p"@
    &&& args[8]@ == "-y"@
    &&& args[9]@ == output_file
}

impl MovieMaker {
    /// Builds the encoder's argument vector: fixed frame rate, sequential
    /// zero-padded input, scale-then-pad filter, 4:2:0 pixel format, and
    /// unconditional overwrite of the output file.
    pub fn build_ffmpeg_args(
        &self,
        input_dir: &str,
        output_file: &str,
        target_w: u32,
        target_h: u32,
    ) -> (args: Vec<String>)
        ensures
            encoder_args_wf(
                args@,
                self.frame_rate as nat,
                input_dir@,
                self.file_extension@,
                output_file@,
                target_w as nat,
                target_h as nat,
            ),
    {
        let mut vf = String::from_str("scale=");
        let w_str = u32_to_string(target_w);
        let h_str = u32_to_string(target_h);
        vf.append(w_str.as_str());
        vf.append(":");
        vf.append(h_str.as_str());
        vf.append(":force_original_aspect_ratio=decrease,pad=");
        vf.append(w_str.as_str());
        vf.append(":");
        vf.append(h_str.as_str());
        vf.append(":(ow-iw)/2:(oh-ih)/2:color=black");

        let mut pattern = String::from_str(input_dir);
        pattern.append("/%05d.");
        pattern.append(self.file_extension.as_str());

        let mut args: Vec<String> = Vec::new();
        args.push(String::from_str("-r"));
        args.push(u32_to_string(self.frame_rate));
        args.push(String::from_str("-i"));
        args.push(pattern);
        args.push(String::from_str("-vf"));
        args.push(vf);
        args.push(String::from_str("-pix_fmt"));
        args.push(String::from_str("yuv420p"));
        args.push(String::from_str("-y"));
        args.push(String::from_str(output_file));
        args
    }
}

/// A separator in the encoder's supported-container listing.
pub open spec fn is_sep_char(c: char) -> bool {
    c == ' ' || c == '\n' || c == '\t' || c == '\r' || c == ','
}

/// `tok` stands at `i` in `s` as a whole whitespace-delimited token.
pub open spec fn token_at(s: Seq<char>, i: int, tok: Seq<char>) -> bool {
    &&& 0 <= i
    &&& i + tok.len() <= s.len()
    &&& s.subrange(i, i + tok.len()) == tok
    &&& (i == 0 || is_sep_char(s[i - 1]))
    &&& (i + tok.len() == s.len() || is_sep_char(s[i + tok.len()]))
}

fn is_sep(c: char) -> (r: bool)
    ensures
        r == is_sep_char(c),
{
    c == ' ' || c == '\n' || c == '\t' || c == '\r' || c == ','
}

/// Whether the encoder's supported-container listing names the requested
/// extension as a whole token. The caller obtains the listing from the
/// encoder itself.
pub fn has_muxer(listing: &str, video_type: &str) -> (r: bool)
    requires
        video_type@.len() >= 1,
    ensures
        r == exists|i: int| token_at(listing@, i, video_type@),
{
    let n = listing.unicode_len();
    let m = video_type.unicode_len();
    if m > n {
        return false;
    }
    let mut i: usize = 0;
    while i <= n - m
        invariant
            m == video_type@.len() >= 1,
            n == listing@.len(),
            m <= n,
            i <= n - m + 1,
            forall|i2: int| 0 <= i2 < i ==> !token_at(listing@, i2, video_type@),
        decreases n - m + 1 - i,
    {
        let left_ok = i == 0 || is_sep(listing.get_char(i - 1));
        if left_ok && crate::strnum::str_range_eq(listing, i, i + m, video_type) {
            let right_ok = i + m == n || is_sep(listing.get_char(i + m));
            if right_ok {
                proof {
                    assert(token_at(listing@, i as int, video_type@));
                }
                return true;
            }
        }
        proof {
            assert(!token_at(listing@, i as int, video_type@));
        }
        i += 1;
    }
    proof {
        assert forall|i2: int| !token_at(listing@, i2, video_type@) by {
            if token_at(listing@, i2, video_type@) {
                assert(0 <= i2 && i2 + video_type@.len() <= listing@.len());
                assert(i2 < i);
            }
        }
    }
    false
}

/// The sidecar rows describe the repaired frame run exactly: row `k` is
/// frame `k`, and the row count equals the repaired frame count — the
/// invariant the directory must satisfy before encoding.
pub open spec fn metadata_matches_repair(rows: Seq<FrameRecord>, frame_count: u32) -> bool {
    &&& rows.len() == frame_count
    &&& forall|k: int| 0 <= k < rows.len() ==> (#[trigger] rows[k]).frame_index as int == k
}

/// Everything the caller needs to assemble one day's video: the directory's
/// date, the frame-repair plan, the target dimensions, the output file and
/// the encoder arguments.
pub struct MoviePlan {
    pub date: Date,
    pub repair: FrameRepairPlan,
    /// Whether the given metadata rows match the repaired frame run one for
    /// one. The caller repairs the directory and regenerates a stale sidecar
    /// first, and refuses to encode when this is false.
    pub metadata_complete: bool,
    pub target_width: u32,
    pub target_height: u32,
    pub output_file: String,
    pub args: Vec<String>,
}

impl MovieMaker {
    /// Plans one day's assembly from the directory's path, its (decompressed)
    /// listing and its metadata: repair the frame gaps, pick the target
    /// dimensions, derive the output file from the directory's date, and lay
    /// out the encoder invocation.
    ///
    /// The caller repairs the directory and loads-or-regenerates the sidecar
    /// before planning; `metadata_complete` reports whether the given rows
    /// indeed match the repaired frame run one for one, and the caller must
    /// not encode while it is false.
    ///
    /// Fails with `BadDirectoryPath` exactly when the path carries no date,
    /// and with `NoFramesAtAll` exactly when the path is fine but no frame
    /// file is present.
    pub fn make_movie_from(
        &self,
        input_dir: &str,
        entries: &Vec<FileEntry>,
        metadata: &Vec<FrameRecord>,
    ) -> (r: Result<MoviePlan, MovieError>)
        requires
            self.scale_percent >= 1,
            forall|k: int|
                0 <= k < metadata@.len() ==> scaled_even(
                    (#[trigger] metadata@[k]).width as nat,
                    self.scale_percent as nat,
                ) <= u32::MAX && scaled_even(metadata@[k].height as nat, self.scale_percent as nat)
                    <= u32::MAX,
        ensures
            match r {
                Ok(plan) => {
                    &&& parses_as_shot_dir(input_dir@, plan.date)
                    &&& plan.repair.wf_for(entries@, self.file_extension@)
                    &&& plan.metadata_complete == metadata_matches_repair(
                        metadata@,
                        plan.repair.frame_count,
                    )
                    &&& analyzed_dims(
                        metadata@,
                        self.scale_percent as nat,
                        plan.target_width,
                        plan.target_height,
                    )
                    &&& plan.target_width % 2 == 0
                    &&& plan.target_height % 2 == 0
                    &&& plan.output_file@ == self.output_dir@ + seq!['/'] + video_file_name_seq(
                        plan.date,
                        self.video_type@,
                    )
                    &&& encoder_args_wf(
                        plan.args@,
                        self.frame_rate as nat,
                        input_dir@,
                        self.file_extension@,
                        plan.output_file@,
                        plan.target_width as nat,
                        plan.target_height as nat,
                    )
                },
                Err(e) => match e {
                    MovieError::BadDirectoryPath => forall|d: Date|
                        !parses_as_shot_dir(input_dir@, d),
                    MovieError::NoFramesAtAll => (exists|d: Date|
                        parses_as_shot_dir(input_dir@, d)) && forall|i: nat|
                        !present_indices(entries@, self.file_extension@).contains(i),
                },
            },
    {
        let date = match parse_date_from_shot_dir(input_dir) {
            Some(d) => d,
            None => {
                return Err(MovieError::BadDirectoryPath);
            },
        };
        let repair = match fix_missing_frames(entries, self.file_extension.as_str()) {
            Ok(p) => p,
            Err(_) => {
                return Err(MovieError::NoFramesAtAll);
            },
        };
        let (target_width, target_height) = analyze_frame_dimensions(metadata, self.scale_percent);
        let mut output_file = self.output_dir.clone();
        proof {
            reveal_strlit("/");
        }
        output_file.append("/");
        let name = date.video_file_name(self.video_type.as_str());
        output_file.append(name.as_str());
        proof {
            assert(output_file@ =~= self.output_dir@ + seq!['/'] + video_file_name_seq(
                date,
                self.video_type@,
            ));
        }
        let args = self.build_ffmpeg_args(
            input_dir,
            output_file.as_str(),
            target_width,
            target_height,
        );
        let metadata_complete = rows_match_count(metadata, repair.frame_count);
        Ok(
            MoviePlan {
                date,
                repair,
                metadata_complete,
                target_width,
                target_height,
                output_file,
                args,
            },
        )
    }
}

/// Whether row `k` carries frame index `k` for all rows, with exactly
/// `frame_count` rows.
fn rows_match_count(rows: &Vec<FrameRecord>, frame_count: u32) -> (r: bool)
    ensures
        r == metadata_matches_repair(rows@, frame_count),
{
    if rows.len() as u64 != frame_count as u64 {
        return false;
    }
    let mut k: usize = 0;
    while k < rows.len()
        invariant
            k <= rows@.len(),
            forall|k2: int| 0 <= k2 < k ==> (#[trigger] rows@[k2]).frame_index as int == k2,
        decreases rows@.len() - k,
    {
        if rows[k].frame_index as usize != k {
            proof {
                assert(rows@[k as int].frame_index as int != k as int);
            }
            return false;
        }
        k += 1;
    }
    true
}

} // verus!
