//! Startup reconciliation: the dates that have captured frames but no video
//! yet, computed as a set difference over what was discovered on disk.

use vstd::prelude::*;

use crate::config::Config;
use crate::date::{
    lemma_shot_dir_unambiguous, lemma_video_file_unambiguous, parse_date_from_shot_dir,
    parse_video_file_name, parses_as_shot_dir, parses_as_video_file, Date,
};

pub use crate::date::Date as Discovered;

verus! {

/// Drives the backfill pass: discovers coverage, diffs it, and hands the
/// backlog of dates to the movie maker.
pub struct BackFiller {
    pub config: Config,
    pub today: Date,
}

/// The dates the video file names carry, in listing order; names that are
/// not `ompd-<YYYY>-<MM>-<DD>.<ext>` are skipped.
pub open spec fn dates_of_video_names(names: Seq<String>, ext: Seq<char>) -> Seq<Date>
    decreases names.len(),
{
    if names.len() == 0 {
        Seq::empty()
    } else {
        let rest = dates_of_video_names(names.drop_last(), ext);
        if exists|d: Date| parses_as_video_file(names.last()@, ext, d) {
            rest.push(choose|d: Date| parses_as_video_file(names.last()@, ext, d))
        } else {
            rest
        }
    }
}

/// The dates the shot directory paths carry, in listing order; paths that do
/// not end in `/<YYYY>/<MM>/<DD>` are skipped.
pub open spec fn dates_of_shot_dirs(paths: Seq<String>) -> Seq<Date>
    decreases paths.len(),
{
    if paths.len() == 0 {
        Seq::empty()
    } else {
        let rest = dates_of_shot_dirs(paths.drop_last());
        if exists|d: Date| parses_as_shot_dir(paths.last()@, d) {
            rest.push(choose|d: Date| parses_as_shot_dir(paths.last()@, d))
        } else {
            rest
        }
    }
}

/// The backlog: the shot dates, in order, that have no video and are not
/// `today`.
pub open spec fn backlog_of(shots: Seq<Date>, vids: Seq<Date>, today: Date) -> Seq<Date>
    decreases shots.len(),
{
    if shots.len() == 0 {
        Seq::empty()
    } else {
        let rest = backlog_of(shots.drop_last(), vids, today);
        if !vids.contains(shots.last()) && shots.last() != today {
            rest.push(shots.last())
        } else {
            rest
        }
    }
}

/// A date is in the backlog exactly when it has frames, has no video, and is
/// not today — the reconciliation law the backfill pass runs on.
pub proof fn lemma_backlog_membership(shots: Seq<Date>, vids: Seq<Date>, today: Date)
    ensures
        forall|d: Date|
            backlog_of(shots, vids, today).contains(d) <==> (shots.contains(d) && !vids.contains(d)
                && d != today),
    decreases shots.len(),
{
    if shots.len() == 0 {
        assert forall|d: Date| !shots.contains(d) by {}
    } else {
        lemma_backlog_membership(shots.drop_last(), vids, today);
        let prefix = shots.drop_last();
        let rest = backlog_of(prefix, vids, today);
        let whole = backlog_of(shots, vids, today);
        assert forall|d: Date|
            whole.contains(d) <==> (shots.contains(d) && !vids.contains(d) && d != today) by {
            assert(backlog_of(prefix, vids, today).contains(d) == (prefix.contains(d)
                && !vids.contains(d) && d != today));
            if whole.contains(d) {
                let u = choose|u: int| 0 <= u < whole.len() && whole[u] == d;
                if u < rest.len() {
                    assert(rest[u] == d);
                    assert(rest.contains(d));
                    assert(prefix.contains(d));
                    let v = choose|v: int| 0 <= v < prefix.len() && prefix[v] == d;
                    assert(shots[v] == d);
                } else {
                    assert(d == shots.last());
                    assert(shots[shots.len() - 1] == d);
                }
            }
            if shots.contains(d) && !vids.contains(d) && d != today {
                let v = choose|v: int| 0 <= v < shots.len() && shots[v] == d;
                if v < shots.len() - 1 {
                    assert(prefix[v] == d);
                    assert(prefix.contains(d));
                    assert(rest.contains(d));
                    let u = choose|u: int| 0 <= u < rest.len() && rest[u] == d;
                    assert(whole[u] == d);
                } else {
                    assert(whole[whole.len() - 1] == d);
                }
            }
        }
    }
}

fn dates_contain(dates: &Vec<Date>, d: &Date) -> (r: bool)
    ensures
        r == dates@.contains(*d),
{
    let mut i: usize = 0;
    while i < dates.len()
        invariant
            i <= dates@.len(),
            forall|j: int| 0 <= j < i ==> dates@[j] != *d,
        decreases dates@.len() - i,
    {
        if dates[i] == *d {
            proof {
                assert(dates@[i as int] == *d);
            }
            return true;
        }
        i += 1;
    }
    false
}

impl BackFiller {
    /// Remembers the configuration and what "today" is, so today's
    /// in-progress directory is never mistaken for a backlog item.
    pub fn new(config: Config, today: Date) -> (b: BackFiller)
        ensures
            b.config == config,
            b.today == today,
    {
        BackFiller { config, today }
    }

    /// Reads the video coverage out of the video directory's file names,
    /// skipping names that carry no date.
    pub fn discover_vids(&self, names: &Vec<String>) -> (r: Vec<Date>)
        ensures
            r@ == dates_of_video_names(names@, self.config.video_type@),
    {
        let mut r: Vec<Date> = Vec::new();
        let mut i: usize = 0;
        proof {
            assert(names@.take(0) =~= Seq::<String>::empty());
        }
        while i < names.len()
            invariant
                i <= names@.len(),
                r@ == dates_of_video_names(names@.take(i as int), self.config.video_type@),
            decreases names@.len() - i,
        {
            proof {
                assert(names@.take(i + 1).drop_last() =~= names@.take(i as int));
                assert(names@.take(i + 1).last() == names@[i as int]);
            }
            match parse_video_file_name(names[i].as_str(), self.config.video_type.as_str()) {
                Some(d) => {
                    proof {
                        let ext = self.config.video_type@;
                        let dc = choose|d2: Date| parses_as_video_file(names@[i as int]@, ext, d2);
                        lemma_video_file_unambiguous(names@[i as int]@, ext, d, dc);
                    }
                    r.push(d);
                },
                None => {},
            }
            i += 1;
        }
        proof {
            assert(names@.take(names@.len() as int) =~= names@);
        }
        r
    }

    /// Reads the frame coverage out of the shot root's date-bucketed
    /// directory paths, skipping paths that carry no date.
    pub fn discover_shots(&self, paths: &Vec<String>) -> (r: Vec<Date>)
        ensures
            r@ == dates_of_shot_dirs(paths@),
    {
        let mut r: Vec<Date> = Vec::new();
        let mut i: usize = 0;
        proof {
            assert(paths@.take(0) =~= Seq::<String>::empty());
        }
        while i < paths.len()
            invariant
                i <= paths@.len(),
                r@ == dates_of_shot_dirs(paths@.take(i as int)),
            decreases paths@.len() - i,
        {
            proof {
                assert(paths@.take(i + 1).drop_last() =~= paths@.take(i as int));
                assert(paths@.take(i + 1).last() == paths@[i as int]);
            }
            match parse_date_from_shot_dir(paths[i].as_str()) {
                Some(d) => {
                    proof {
                        let dc = choose|d2: Date| parses_as_shot_dir(paths@[i as int]@, d2);
                        lemma_shot_dir_unambiguous(paths@[i as int]@, d, dc);
                    }
                    r.push(d);
                },
                None => {},
            }
            i += 1;
        }
        proof {
            assert(paths@.take(paths@.len() as int) =~= paths@);
        }
        r
    }

    /// The reconciliation pass: parses both coverage sets, treats today as
    /// already covered, and returns the dates with frames but no video, in
    /// discovery order. The caller assembles a video for each and then runs
    /// the retention sweep if one is configured.
    pub fn run(&self, vid_file_names: &Vec<String>, shot_dir_paths: &Vec<String>) -> (r: Vec<Date>)
        ensures
            r@ == backlog_of(
                dates_of_shot_dirs(shot_dir_paths@),
                dates_of_video_names(vid_file_names@, self.config.video_type@),
                self.today,
            ),
            forall|d: Date|
                r@.contains(d) <==> (dates_of_shot_dirs(shot_dir_paths@).contains(d)
                    && !dates_of_video_names(vid_file_names@, self.config.video_type@).contains(d)
                    && d != self.today),
    {
        let vids = self.discover_vids(vid_file_names);
        let shots = self.discover_shots(shot_dir_paths);
        let mut r: Vec<Date> = Vec::new();
        let mut i: usize = 0;
        proof {
            assert(shots@.take(0) =~= Seq::<Date>::empty());
        }
        while i < shots.len()
            invariant
                i <= shots@.len(),
                vids@ == dates_of_video_names(vid_file_names@, self.config.video_type@),
                shots@ == dates_of_shot_dirs(shot_dir_paths@),
                r@ == backlog_of(shots@.take(i as int), vids@, self.today),
            decreases shots@.len() - i,
        {
            proof {
                assert(shots@.take(i + 1).drop_last() =~= shots@.take(i as int));
                assert(shots@.take(i + 1).last() == shots@[i as int]);
            }
            let d = shots[i];
            if !dates_contain(&vids, &d) && !(d == self.today) {
                r.push(d);
            }
            i += 1;
        }
        proof {
            assert(shots@.take(shots@.len() as int) =~= shots@);
            lemma_backlog_membership(shots@, vids@, self.today);
        }
        r
    }
}

} // verus!
