//! The capture tick: the frame counter, gap classification (day rollover
//! versus same-day blackout), and the blackout-repair plan with its
//! human-readable filler text.
//!
//! The surrounding binary takes the screenshots, writes the files and the
//! symlinks, and sleeps between ticks; the decisions live here.

use vstd::prelude::*;

use crate::date::Date;
use crate::frames::{frame_file_name, frame_file_name_seq, FrameRecord, MAX_FRAME_INDEX};
use crate::movie_maker::{FileEntry, DEFAULT_VIDEO_HEIGHT, DEFAULT_VIDEO_WIDTH};
use crate::strnum::{dec_digits, digit_char, digit_str, u32_to_string};

verus! {

/// What a tick's time gap amounts to.
pub enum ChangeType {
    /// Same day: any gap was repaired in place.
    Nop,
    /// The calendar date advanced: seal the old directory, start a new one.
    NewDay,
}

/// The capture tick's state: the monotonic frame counter, the tick interval
/// and the still-image format.
pub struct Capturer {
    pub sleep_interval_secs: u64,
    pub curr_frame: u32,
    pub shot_type: String,
}

/// The model of the actively-capturing directory: stored frame indices in
/// creation order, and the sidecar rows appended so far.
pub struct ShotDirModel {
    pub frames: Vec<u32>,
    pub rows: Vec<FrameRecord>,
}

impl ShotDirModel {
    pub open spec fn has_index(self, i: u32) -> bool {
        self.frames@.contains(i)
    }
}

/// The blackout repair: one real filler frame at `filler_index`, lightweight
/// references to it at the following indices, and the text the filler shows.
pub struct BlackoutPlan {
    /// Index the rendered filler frame is stored at.
    pub filler_index: u32,
    /// File name of the rendered filler frame.
    pub filler_name: String,
    /// File names for the `missed_frames - 1` references to the filler.
    pub link_names: Vec<String>,
    /// How many frame slots the blackout takes: `floor(elapsed / interval)`.
    pub missed_frames: u32,
    /// The human-readable elapsed-time text the filler shows.
    pub text: String,
    /// Filler dimensions: the most recent metadata row's, or the default.
    pub width: u32,
    pub height: u32,
}

/// The filler's dimensions: those of the most recent metadata row, or the
/// documented default when no row exists.
pub open spec fn filler_dims(rows: Seq<FrameRecord>) -> (u32, u32) {
    if rows.len() == 0 {
        (DEFAULT_VIDEO_WIDTH, DEFAULT_VIDEO_HEIGHT)
    } else {
        (rows.last().width, rows.last().height)
    }
}

/// The human-readable rendering of an elapsed duration: hours to one decimal
/// (rounded half up) above an hour, whole minutes (rounded half up) above a
/// minute, else whole seconds; pluralized when the magnitude exceeds one.
pub open spec fn human_duration_seq(secs: nat) -> Seq<char> {
    if secs >= 3600 {
        let tenths = (secs * 10 + 1800) / 3600;
        "~ "@ + dec_digits(tenths / 10) + "."@ + seq![digit_char((tenths % 10) as int)] + " hr"@
            + (if secs > 3600 {
            "s"@
        } else {
            Seq::empty()
        })
    } else if secs > 60 {
        let mins = (secs + 30) / 60;
        "~ "@ + dec_digits(mins) + " mins"@
    } else {
        "~ "@ + dec_digits(secs) + " sec"@ + (if secs > 1 {
            "s"@
        } else {
            Seq::empty()
        })
    }
}

/// The text a filler frame shows for an elapsed duration.
pub open spec fn filler_text_seq(secs: nat) -> Seq<char> {
    human_duration_seq(secs) + " go by"@
}

/// Renders an elapsed duration for humans.
pub fn human_duration(duration_secs: u64) -> (r: String)
    ensures
        r@ == human_duration_seq(duration_secs as nat),
{
    let mut s = String::from_str("~ ");
    if duration_secs >= 3600 {
        let tenths: u64 = (((duration_secs as u128) * 10 + 1800) / 3600) as u64;
        let whole = crate::strnum::u64_to_string(tenths / 10);
        s.append(whole.as_str());
        s.append(".");
        let tenth_digit = digit_str((tenths % 10) as u32);
        s.append(tenth_digit);
        s.append(" hr");
        if duration_secs > 3600 {
            s.append("s");
        }
        proof {
            assert(s@ =~= human_duration_seq(duration_secs as nat));
        }
    } else if duration_secs > 60 {
        let mins = (duration_secs + 30) / 60;
        let mins_str = u32_to_string(mins as u32);
        s.append(mins_str.as_str());
        s.append(" mins");
        proof {
            assert(s@ =~= human_duration_seq(duration_secs as nat));
        }
    } else {
        let secs_str = u32_to_string(duration_secs as u32);
        s.append(secs_str.as_str());
        s.append(" sec");
        if duration_secs > 1 {
            s.append("s");
        }
        proof {
            assert(s@ =~= human_duration_seq(duration_secs as nat));
        }
    }
    s
}

/// Whether a platform power-state report shows an active graphics
/// subsystem: it names "Graphics" somewhere. The caller obtains the report
/// from the platform and skips the capture attempt when this is false.
pub fn have_graphics(systemstate: &str) -> (r: bool)
    ensures
        r == crate::strnum::contains_seq(systemstate@, "Graphics"@),
{
    crate::strnum::str_contains(systemstate, "Graphics")
}

/// The font size at which the filler text fits: scaled down proportionally
/// when the measured text width would exceed 80% of the frame width.
pub open spec fn fitted_font_size(base: nat, measured_w: nat, frame_w: nat) -> nat {
    if measured_w * 5 > frame_w * 4 {
        (base * ((frame_w * 4) / 5)) / measured_w
    } else {
        base
    }
}

/// Scales the filler's font size down so the measured text width stays
/// within 80% of the frame width. The caller measures the text at `base`
/// size and renders it at the returned size.
pub fn fit_font_size(base: u32, measured_w: u32, frame_w: u32) -> (r: u32)
    ensures
        r == fitted_font_size(base as nat, measured_w as nat, frame_w as nat),
        r <= base,
{
    let m5: u64 = (measured_w as u64) * 5;
    let f4: u64 = (frame_w as u64) * 4;
    if m5 > f4 {
        let budget: u64 = f4 / 5;
        proof {
            vstd::arithmetic::mul::lemma_mul_upper_bound(
                base as int,
                0xFFFF_FFFF as int,
                budget as int,
                0xFFFF_FFFF_FFFF_FFFF as int,
            );
        }
        let scaled_wide: u128 = ((base as u128) * (budget as u128)) / (measured_w as u128);
        proof {
            assert(budget < measured_w as u64);
            assert((base as int * budget as int) / (measured_w as int) <= base as int)
                by (nonlinear_arith)
                requires
                    budget as int <= measured_w as int,
                    measured_w as int >= 1,
                    base as int >= 0,
            ;
        }
        scaled_wide as u32
    } else {
        base
    }
}

impl Capturer {
    /// A fresh capturer counts from zero.
    pub fn new(sleep_interval_secs: u64, shot_type: &str) -> (c: Capturer)
        ensures
            c.sleep_interval_secs == sleep_interval_secs,
            c.curr_frame == 0,
            c.shot_type@ == shot_type@,
    {
        Capturer {
            sleep_interval_secs,
            curr_frame: 0,
            shot_type: String::from_str(shot_type),
        }
    }

    /// Recovers the counter after a restart: the count of frame files
    /// already in the active directory.
    pub fn discover_current_frame(&mut self, entries: &Vec<FileEntry>)
        requires
            entries@.len() <= u32::MAX,
        ensures
            final(self).curr_frame == frame_file_count(entries@, old(self).shot_type@),
            final(self).sleep_interval_secs == old(self).sleep_interval_secs,
            final(self).shot_type@ == old(self).shot_type@,
    {
        let mut count: u32 = 0;
        let mut k: usize = 0;
        while k < entries.len()
            invariant
                k <= entries@.len(),
                entries@.len() <= u32::MAX,
                count == frame_file_count(entries@.take(k as int), self.shot_type@),
                count as int <= k as int,
            decreases entries@.len() - k,
        {
            proof {
                assert(entries@.take(k + 1).drop_last() =~= entries@.take(k as int));
                assert(entries@.take(k + 1).last() == entries@[k as int]);
            }
            match crate::frames::parse_frame_file_name(&entries[k].name, self.shot_type.as_str()) {
                Some(_) => {
                    count += 1;
                },
                None => {
                    proof {
                        assert(forall|i: nat|
                            !crate::frames::parses_as_frame_file(
                                entries@[k as int].name@,
                                self.shot_type@,
                                i,
                            ));
                    }
                },
            }
            k += 1;
        }
        proof {
            assert(entries@.take(entries@.len() as int) =~= entries@);
        }
        self.curr_frame = count;
    }

    /// Pins the counter, as the day-rollover path does for the new directory.
    pub fn set_current_frame(&mut self, new_curr_frame: u32)
        ensures
            final(self).curr_frame == new_curr_frame,
            final(self).sleep_interval_secs == old(self).sleep_interval_secs,
            final(self).shot_type@ == old(self).shot_type@,
    {
        self.curr_frame = new_curr_frame;
    }

    /// Stores one captured frame: the file goes in under the counter's name,
    /// a metadata row is appended, and the counter advances. The caller must
    /// have ruled out a collision — an existing file under this index means
    /// the monotonic-counter invariant is already broken, which the engine
    /// treats as fatal.
    pub fn store(&mut self, dir: &mut ShotDirModel, width: u32, height: u32) -> (name: String)
        requires
            !old(dir).has_index(old(self).curr_frame),
            old(self).curr_frame < MAX_FRAME_INDEX,
        ensures
            final(self).curr_frame == old(self).curr_frame + 1,
            final(self).sleep_interval_secs == old(self).sleep_interval_secs,
            final(self).shot_type@ == old(self).shot_type@,
            final(dir).frames@ == old(dir).frames@.push(old(self).curr_frame),
            final(dir).rows@ == old(dir).rows@.push(
                FrameRecord { frame_index: old(self).curr_frame, width, height },
            ),
            name@ == frame_file_name_seq(old(self).curr_frame as nat, old(self).shot_type@),
    {
        let name = frame_file_name(self.curr_frame, self.shot_type.as_str());
        dir.frames.push(self.curr_frame);
        dir.rows.push(FrameRecord { frame_index: self.curr_frame, width, height });
        self.curr_frame = self.curr_frame + 1;
        name
    }

    /// Classifies a tick's time gap. A different calendar date is a day
    /// rollover, handled by the caller; a same-day gap is a blackout, and
    /// the returned plan repairs it in place: one rendered filler frame at
    /// the current index, references to it at the `missed_frames - 1`
    /// following indices, and the counter advanced by
    /// `missed_frames = floor(elapsed / interval)`.
    pub fn deal_with_change(
        &mut self,
        prev_date: &Date,
        curr_date: &Date,
        elapsed_secs: u64,
        rows: &Vec<FrameRecord>,
    ) -> (r: (ChangeType, Option<BlackoutPlan>))
        requires
            old(self).sleep_interval_secs > 0,
            // only the same-day path synthesizes frames, so only it needs
            // the gap to fit the five-digit index space
            *prev_date == *curr_date ==> old(self).curr_frame as nat + (elapsed_secs as nat) / (
            old(self).sleep_interval_secs as nat) <= MAX_FRAME_INDEX,
        ensures
            final(self).sleep_interval_secs == old(self).sleep_interval_secs,
            final(self).shot_type@ == old(self).shot_type@,
            *prev_date != *curr_date ==> {
                &&& r.0 is NewDay
                &&& r.1 is None
                &&& final(self).curr_frame == old(self).curr_frame
            },
            *prev_date == *curr_date ==> {
                &&& r.0 is Nop
                &&& blackout_outcome(
                    r.1,
                    *old(self),
                    *final(self),
                    elapsed_secs as nat,
                    rows@,
                )
            },
    {
        if !(*prev_date == *curr_date) {
            return (ChangeType::NewDay, None);
        }
        let plan = self.deal_with_blackout(elapsed_secs, rows);
        (ChangeType::Nop, plan)
    }

    /// Repairs a same-day blackout; see `deal_with_change`.
    pub fn deal_with_blackout(
        &mut self,
        elapsed_secs: u64,
        rows: &Vec<FrameRecord>,
    ) -> (r: Option<BlackoutPlan>)
        requires
            old(self).sleep_interval_secs > 0,
            old(self).curr_frame as nat + (elapsed_secs as nat) / (
            old(self).sleep_interval_secs as nat) <= MAX_FRAME_INDEX,
        ensures
            final(self).sleep_interval_secs == old(self).sleep_interval_secs,
            final(self).shot_type@ == old(self).shot_type@,
            blackout_outcome(r, *old(self), *final(self), elapsed_secs as nat, rows@),
    {
        let missed_frames_wide: u64 = elapsed_secs / self.sleep_interval_secs;
        let missed_frames: u32 = missed_frames_wide as u32;
        if missed_frames == 0 {
            return None;
        }
        let filler_index = self.curr_frame;
        let filler_name = frame_file_name(filler_index, self.shot_type.as_str());
        let mut text = human_duration(elapsed_secs);
        text.append(" go by");
        let (width, height) = if rows.len() == 0 {
            (DEFAULT_VIDEO_WIDTH, DEFAULT_VIDEO_HEIGHT)
        } else {
            (rows[rows.len() - 1].width, rows[rows.len() - 1].height)
        };
        let mut link_names: Vec<String> = Vec::new();
        let mut n: u32 = 1;
        while n < missed_frames
            invariant
                1 <= n <= missed_frames,
                filler_index as nat + missed_frames as nat <= MAX_FRAME_INDEX,
                link_names@.len() == n - 1,
                self.shot_type@ == old(self).shot_type@,
                forall|k: int|
                    0 <= k < link_names@.len() ==> (#[trigger] link_names@[k])@
                        == frame_file_name_seq(
                        (filler_index + 1 + k) as nat,
                        old(self).shot_type@,
                    ),
            decreases missed_frames - n,
        {
            let link = frame_file_name(filler_index + n, self.shot_type.as_str());
            link_names.push(link);
            n += 1;
        }
        self.curr_frame = self.curr_frame + missed_frames;
        Some(
            BlackoutPlan {
                filler_index,
                filler_name,
                link_names,
                missed_frames,
                text,
                width,
                height,
            },
        )
    }
}

/// What a blackout repair promises: nothing for a gap shorter than one
/// interval; otherwise a plan whose synthesized-frame count is exactly
/// `floor(elapsed / interval)`, with the counter advanced by that amount —
/// the rendered filler at the old counter and the references right after it.
pub open spec fn blackout_outcome(
    r: Option<BlackoutPlan>,
    pre: Capturer,
    post: Capturer,
    elapsed: nat,
    rows: Seq<FrameRecord>,
) -> bool {
    let missed = elapsed / (pre.sleep_interval_secs as nat);
    match r {
        None => missed == 0 && post.curr_frame == pre.curr_frame,
        Some(plan) => {
            &&& missed >= 1
            &&& plan.missed_frames as nat == missed
            &&& post.curr_frame as nat == pre.curr_frame as nat + missed
            &&& plan.filler_index == pre.curr_frame
            &&& plan.filler_name@ == frame_file_name_seq(pre.curr_frame as nat, pre.shot_type@)
            &&& plan.link_names@.len() as nat == missed - 1
            &&& forall|k: int|
                0 <= k < plan.link_names@.len() ==> (#[trigger] plan.link_names@[k])@
                    == frame_file_name_seq((plan.filler_index + 1 + k) as nat, pre.shot_type@)
            &&& plan.text@ == filler_text_seq(elapsed)
            &&& (plan.width, plan.height) == filler_dims(rows)
        },
    }
}

/// How many of a directory's entries are frame files of the given extension
/// (symlinked references included: they occupy indices).
pub open spec fn frame_file_count(entries: Seq<FileEntry>, ext: Seq<char>) -> nat
    decreases entries.len(),
{
    if entries.len() == 0 {
        0
    } else {
        frame_file_count(entries.drop_last(), ext) + if exists|i: nat|
            crate::frames::parses_as_frame_file(entries.last().name@, ext, i) {
            1nat
        } else {
            0
        }
    }
}

/// The stored frame indices after `n` uninterrupted ticks from an empty
/// directory: each tick runs `store`, which files the counter's index and
/// advances the counter, so tick `k` stores index `k`.
pub open spec fn tick_frames(n: nat) -> Seq<u32>
    decreases n,
{
    if n == 0 {
        Seq::empty()
    } else {
        tick_frames((n - 1) as nat).push((n - 1) as u32)
    }
}

/// The sidecar rows after `n` uninterrupted ticks, when tick `k` captured a
/// frame of dimensions `dims[k]`.
pub open spec fn tick_rows(n: nat, dims: Seq<(u32, u32)>) -> Seq<FrameRecord>
    decreases n,
{
    if n == 0 {
        Seq::empty()
    } else {
        tick_rows((n - 1) as nat, dims).push(
            FrameRecord {
                frame_index: (n - 1) as u32,
                width: dims[n - 1].0,
                height: dims[n - 1].1,
            },
        )
    }
}

/// After any uninterrupted tick sequence of length `n` from an empty
/// directory, the stored frame indices are exactly `0 .. n-1`, and each has
/// a matching metadata row.
pub proof fn lemma_uninterrupted_ticks(n: nat, dims: Seq<(u32, u32)>)
    requires
        n <= MAX_FRAME_INDEX,
        dims.len() >= n,
    ensures
        tick_frames(n).len() == n,
        forall|i: int| 0 <= i < n ==> tick_frames(n)[i] == i as u32,
        tick_rows(n, dims).len() == n,
        forall|i: int|
            0 <= i < n ==> tick_rows(n, dims)[i] == (FrameRecord {
                frame_index: i as u32,
                width: dims[i].0,
                height: dims[i].1,
            }),
    decreases n,
{
    if n > 0 {
        lemma_uninterrupted_ticks((n - 1) as nat, dims);
    }
}

} // verus!
