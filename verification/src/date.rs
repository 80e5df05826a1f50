//! Calendar dates and the deterministic mappings between a date and the
//! artifacts named after it: the three-level shot directory
//! `<root>/<YYYY>/<MM>/<DD>` and the video file `ompd-<YYYY>-<MM>-<DD>.<ext>`.

use vstd::prelude::*;

use crate::strnum::{
    all_digits, dec_digits, digits_value, lemma_dec_digits_len_bound, lemma_digit_string_unique,
    lemma_digits_value_bound, lemma_padded_dec_value, padded_dec, parse_u32, pow10, str_range_eq,
    zero_padded,
};

verus! {

/// One calendar date, the key of a shot directory and of a video artifact.
#[derive(Clone, Copy, Debug, PartialEq, Eq, Structural)]
pub struct Date {
    pub year: u16,
    pub month: u8,
    pub day: u8,
}

impl Date {
    /// The date ranges the directory layout can represent: four-digit years
    /// and the calendar bounds on month and day.
    pub open spec fn wf(self) -> bool {
        &&& 1 <= self.year <= 9999
        &&& 1 <= self.month <= 12
        &&& 1 <= self.day <= 31
    }

    /// Lexicographic order on (year, month, day): calendar order.
    pub open spec fn spec_lt(self, other: Date) -> bool {
        ||| self.year < other.year
        ||| (self.year == other.year && self.month < other.month)
        ||| (self.year == other.year && self.month == other.month && self.day < other.day)
    }

    /// Strictly earlier in calendar order.
    pub fn before(&self, other: &Date) -> (r: bool)
        ensures
            r == self.spec_lt(*other),
    {
        if self.year != other.year {
            self.year < other.year
        } else if self.month != other.month {
            self.month < other.month
        } else {
            self.day < other.day
        }
    }

    /// The shot directory for this date under `root_dir`.
    pub fn to_shot_dir_in(&self, root_dir: &str) -> (r: String)
        ensures
            r@ == root_dir@ + shot_dir_suffix(*self),
    {
        let mut s = String::from_str(root_dir);
        let y = zero_padded(self.year as u32, 4);
        let m = zero_padded(self.month as u32, 2);
        let d = zero_padded(self.day as u32, 2);
        proof {
            reveal_strlit("/");
        }
        s.append("/");
        s.append(y.as_str());
        s.append("/");
        s.append(m.as_str());
        s.append("/");
        s.append(d.as_str());
        proof {
            assert(s@ =~= root_dir@ + shot_dir_suffix(*self));
        }
        s
    }

    /// The video file name for this date, with the configured container
    /// extension.
    pub fn video_file_name(&self, video_ext: &str) -> (r: String)
        ensures
            r@ == video_file_name_seq(*self, video_ext@),
    {
        let y = zero_padded(self.year as u32, 4);
        let m = zero_padded(self.month as u32, 2);
        let d = zero_padded(self.day as u32, 2);
        proof {
            reveal_strlit("ompd-");
            reveal_strlit("-");
            reveal_strlit(".");
        }
        let mut s = String::from_str("ompd-");
        s.append(y.as_str());
        s.append("-");
        s.append(m.as_str());
        s.append("-");
        s.append(d.as_str());
        s.append(".");
        s.append(video_ext);
        proof {
            assert(s@ =~= video_file_name_seq(*self, video_ext@));
        }
        s
    }
}

/// The `/<YYYY>/<MM>/<DD>` tail a shot directory path ends with.
pub open spec fn shot_dir_suffix(d: Date) -> Seq<char> {
    seq!['/'] + padded_dec(d.year as nat, 4) + seq!['/'] + padded_dec(d.month as nat, 2)
        + seq!['/'] + padded_dec(d.day as nat, 2)
}

/// `ompd-<YYYY>-<MM>-<DD>.<ext>`.
pub open spec fn video_file_name_seq(d: Date, ext: Seq<char>) -> Seq<char> {
    seq!['o', 'm', 'p', 'd', '-'] + padded_dec(d.year as nat, 4) + seq!['-'] + padded_dec(
        d.month as nat,
        2,
    ) + seq!['-'] + padded_dec(d.day as nat, 2) + seq!['.'] + ext
}

/// `path` is a shot directory of date `d`: it ends in `/<YYYY>/<MM>/<DD>`
/// with `d`'s zero-padded fields.
pub open spec fn parses_as_shot_dir(path: Seq<char>, d: Date) -> bool {
    &&& d.wf()
    &&& path.len() >= 11
    &&& path.subrange(path.len() - 11, path.len() as int) == shot_dir_suffix(d)
}

/// `name` is the video file name of date `d` with extension `ext`.
pub open spec fn parses_as_video_file(name: Seq<char>, ext: Seq<char>, d: Date) -> bool {
    &&& d.wf()
    &&& name == video_file_name_seq(d, ext)
}

proof fn lemma_padded_field(v: nat, w: nat)
    requires
        w >= 1,
        v < pow10(w),
    ensures
        padded_dec(v, w).len() == w,
        all_digits(padded_dec(v, w)),
        digits_value(padded_dec(v, w)) == v,
{
    lemma_dec_digits_len_bound(v, w);
    lemma_padded_dec_value(v, w);
}

proof fn lemma_small_powers()
    ensures
        pow10(0) == 1,
        pow10(1) == 10,
        pow10(2) == 100,
        pow10(3) == 1000,
        pow10(4) == 10000,
{
    crate::strnum::lemma_pow10_values();
}

/// The shape of a well-formed date's directory suffix: eleven characters,
/// slashes at 0, 5 and 8, and the three zero-padded fields between them.
proof fn lemma_shot_dir_suffix_parts(d: Date)
    requires
        d.wf(),
    ensures
        shot_dir_suffix(d).len() == 11,
        shot_dir_suffix(d)[0] == '/',
        shot_dir_suffix(d)[5] == '/',
        shot_dir_suffix(d)[8] == '/',
        shot_dir_suffix(d).subrange(1, 5) =~= padded_dec(d.year as nat, 4),
        shot_dir_suffix(d).subrange(6, 8) =~= padded_dec(d.month as nat, 2),
        shot_dir_suffix(d).subrange(9, 11) =~= padded_dec(d.day as nat, 2),
{
    lemma_small_powers();
    lemma_padded_field(d.year as nat, 4);
    lemma_padded_field(d.month as nat, 2);
    lemma_padded_field(d.day as nat, 2);
}

/// A path is the shot directory of at most one date.
pub proof fn lemma_shot_dir_unambiguous(path: Seq<char>, d1: Date, d2: Date)
    requires
        parses_as_shot_dir(path, d1),
        parses_as_shot_dir(path, d2),
    ensures
        d1 == d2,
{
    lemma_shot_dir_suffix_parts(d1);
    lemma_shot_dir_suffix_parts(d2);
    lemma_small_powers();
    lemma_padded_field(d1.year as nat, 4);
    lemma_padded_field(d1.month as nat, 2);
    lemma_padded_field(d1.day as nat, 2);
    lemma_padded_field(d2.year as nat, 4);
    lemma_padded_field(d2.month as nat, 2);
    lemma_padded_field(d2.day as nat, 2);
    assert(shot_dir_suffix(d1) =~= shot_dir_suffix(d2));
    assert(shot_dir_suffix(d1).subrange(1, 5) =~= shot_dir_suffix(d2).subrange(1, 5));
    assert(shot_dir_suffix(d1).subrange(6, 8) =~= shot_dir_suffix(d2).subrange(6, 8));
    assert(shot_dir_suffix(d1).subrange(9, 11) =~= shot_dir_suffix(d2).subrange(9, 11));
}

/// Formatting then parsing is the identity: the directory path built for a
/// well-formed date parses as that date and as no other.
pub proof fn lemma_shot_dir_roundtrip(root: Seq<char>, d: Date)
    requires
        d.wf(),
    ensures
        parses_as_shot_dir(root + shot_dir_suffix(d), d),
        forall|d2: Date| parses_as_shot_dir(root + shot_dir_suffix(d), d2) ==> d2 == d,
{
    lemma_shot_dir_suffix_parts(d);
    let p = root + shot_dir_suffix(d);
    assert(p.subrange(p.len() - 11, p.len() as int) =~= shot_dir_suffix(d));
    assert forall|d2: Date| parses_as_shot_dir(p, d2) implies d2 == d by {
        lemma_shot_dir_unambiguous(p, d, d2);
    }
}

/// Reads the date of a shot directory from the last three path components.
/// Returns `Some` exactly when the path ends in `/<YYYY>/<MM>/<DD>` for a
/// well-formed date, which is then unique.
pub fn parse_date_from_shot_dir(path: &str) -> (r: Option<Date>)
    ensures
        match r {
            Some(d) => parses_as_shot_dir(path@, d),
            None => forall|d: Date| !parses_as_shot_dir(path@, d),
        },
{
    let n = path.unicode_len();
    if n < 11 {
        return None;
    }
    let base = n - 11;
    if path.get_char(base) != '/' || path.get_char(base + 5) != '/' || path.get_char(base + 8)
        != '/' {
        proof {
            assert forall|d: Date| !parses_as_shot_dir(path@, d) by {
                if parses_as_shot_dir(path@, d) {
                    lemma_shot_dir_suffix_parts(d);
                    let s = path@.subrange(base as int, n as int);
                    assert(s[0] == path@[base as int]);
                    assert(s[5] == path@[base + 5]);
                    assert(s[8] == path@[base + 8]);
                }
            }
        }
        return None;
    }
    let year_str = path.substring_char(base + 1, base + 5);
    let month_str = path.substring_char(base + 6, base + 8);
    let day_str = path.substring_char(base + 9, base + 11);
    let year_maybe = parse_u32(year_str);
    let month_maybe = parse_u32(month_str);
    let day_maybe = parse_u32(day_str);
    proof {
        lemma_small_powers();
        lemma_digit_subranges_of_match(path@, base as int);
    }
    let (year, month, day) = match (year_maybe, month_maybe, day_maybe) {
        (Some(y), Some(m), Some(dd)) => (y, m, dd),
        _ => {
            proof {
                assert forall|d: Date| !parses_as_shot_dir(path@, d) by {
                    if parses_as_shot_dir(path@, d) {
                        assert(all_digits(path@.subrange(base + 1, base + 5)));
                        assert(all_digits(path@.subrange(base + 6, base + 8)));
                        assert(all_digits(path@.subrange(base + 9, base + 11)));
                        assert(digits_value(path@.subrange(base + 1, base + 5)) == d.year);
                        assert(digits_value(path@.subrange(base + 6, base + 8)) == d.month);
                        assert(digits_value(path@.subrange(base + 9, base + 11)) == d.day);
                    }
                }
            }
            return None;
        },
    };
    if year < 1 || year > 9999 || month < 1 || month > 12 || day < 1 || day > 31 {
        proof {
            assert forall|d: Date| !parses_as_shot_dir(path@, d) by {
                if parses_as_shot_dir(path@, d) {
                    assert(digits_value(path@.subrange(base + 1, base + 5)) == d.year);
                    assert(digits_value(path@.subrange(base + 6, base + 8)) == d.month);
                    assert(digits_value(path@.subrange(base + 9, base + 11)) == d.day);
                }
            }
        }
        return None;
    }
    let d = Date { year: year as u16, month: month as u8, day: day as u8 };
    proof {
        lemma_shot_dir_suffix_parts(d);
        lemma_padded_field(d.year as nat, 4);
        lemma_padded_field(d.month as nat, 2);
        lemma_padded_field(d.day as nat, 2);
        lemma_digit_string_unique(path@.subrange(base + 1, base + 5), padded_dec(d.year as nat, 4));
        lemma_digit_string_unique(
            path@.subrange(base + 6, base + 8),
            padded_dec(d.month as nat, 2),
        );
        lemma_digit_string_unique(path@.subrange(base + 9, base + 11), padded_dec(d.day as nat, 2));
        let s = path@.subrange(base as int, n as int);
        let suf = shot_dir_suffix(d);
        assert forall|i: int| 0 <= i < 11 implies s[i] == suf[i] by {
            if 1 <= i < 5 {
                assert(s[i] == path@.subrange(base + 1, base + 5)[i - 1]);
                assert(suf[i] == suf.subrange(1, 5)[i - 1]);
            } else if 6 <= i < 8 {
                assert(s[i] == path@.subrange(base + 6, base + 8)[i - 6]);
                assert(suf[i] == suf.subrange(6, 8)[i - 6]);
            } else if 9 <= i < 11 {
                assert(s[i] == path@.subrange(base + 9, base + 11)[i - 9]);
                assert(suf[i] == suf.subrange(9, 11)[i - 9]);
            }
        }
        assert(s =~= suf);
    }
    Some(d)
}

/// The shape of a well-formed date's video file name: the `ompd-` prefix,
/// the three zero-padded fields, their separators, and the extension.
proof fn lemma_video_name_parts(d: Date, ext: Seq<char>)
    requires
        d.wf(),
    ensures
        video_file_name_seq(d, ext).len() == 16 + ext.len(),
        video_file_name_seq(d, ext)[0] == 'o',
        video_file_name_seq(d, ext)[1] == 'm',
        video_file_name_seq(d, ext)[2] == 'p',
        video_file_name_seq(d, ext)[3] == 'd',
        video_file_name_seq(d, ext)[4] == '-',
        video_file_name_seq(d, ext)[9] == '-',
        video_file_name_seq(d, ext)[12] == '-',
        video_file_name_seq(d, ext)[15] == '.',
        video_file_name_seq(d, ext).subrange(5, 9) =~= padded_dec(d.year as nat, 4),
        video_file_name_seq(d, ext).subrange(10, 12) =~= padded_dec(d.month as nat, 2),
        video_file_name_seq(d, ext).subrange(13, 15) =~= padded_dec(d.day as nat, 2),
        video_file_name_seq(d, ext).subrange(16, 16 + ext.len() as int) =~= ext,
{
    lemma_small_powers();
    lemma_padded_field(d.year as nat, 4);
    lemma_padded_field(d.month as nat, 2);
    lemma_padded_field(d.day as nat, 2);
}

/// A file name is the video artifact of at most one date.
pub proof fn lemma_video_file_unambiguous(name: Seq<char>, ext: Seq<char>, d1: Date, d2: Date)
    requires
        parses_as_video_file(name, ext, d1),
        parses_as_video_file(name, ext, d2),
    ensures
        d1 == d2,
{
    lemma_video_name_parts(d1, ext);
    lemma_video_name_parts(d2, ext);
    lemma_small_powers();
    lemma_padded_field(d1.year as nat, 4);
    lemma_padded_field(d1.month as nat, 2);
    lemma_padded_field(d1.day as nat, 2);
    lemma_padded_field(d2.year as nat, 4);
    lemma_padded_field(d2.month as nat, 2);
    lemma_padded_field(d2.day as nat, 2);
    assert(video_file_name_seq(d1, ext).subrange(5, 9) =~= video_file_name_seq(d2, ext).subrange(
        5,
        9,
    ));
    assert(video_file_name_seq(d1, ext).subrange(10, 12) =~= video_file_name_seq(
        d2,
        ext,
    ).subrange(10, 12));
    assert(video_file_name_seq(d1, ext).subrange(13, 15) =~= video_file_name_seq(
        d2,
        ext,
    ).subrange(13, 15));
}

/// Formatting then parsing is the identity for video file names as well.
pub proof fn lemma_video_file_roundtrip(d: Date, ext: Seq<char>)
    requires
        d.wf(),
    ensures
        parses_as_video_file(video_file_name_seq(d, ext), ext, d),
        forall|d2: Date| parses_as_video_file(video_file_name_seq(d, ext), ext, d2) ==> d2 == d,
{
    assert forall|d2: Date| parses_as_video_file(video_file_name_seq(d, ext), ext, d2) implies d2
        == d by {
        lemma_video_file_unambiguous(video_file_name_seq(d, ext), ext, d, d2);
    }
}

/// Reads the date out of a video file name with the given container
/// extension. Returns `Some` exactly when the name is
/// `ompd-<YYYY>-<MM>-<DD>.<ext>` for a well-formed date, which is then unique.
pub fn parse_video_file_name(name: &str, video_ext: &str) -> (r: Option<Date>)
    ensures
        match r {
            Some(d) => parses_as_video_file(name@, video_ext@, d),
            None => forall|d: Date| !parses_as_video_file(name@, video_ext@, d),
        },
{
    let n = name.unicode_len();
    let ext_len = video_ext.unicode_len();
    if n < 16 || n - 16 != ext_len {
        proof {
            assert forall|d: Date| !parses_as_video_file(name@, video_ext@, d) by {
                if parses_as_video_file(name@, video_ext@, d) {
                    lemma_video_name_parts(d, video_ext@);
                }
            }
        }
        return None;
    }
    if name.get_char(0) != 'o' || name.get_char(1) != 'm' || name.get_char(2) != 'p'
        || name.get_char(3) != 'd' || name.get_char(4) != '-' || name.get_char(9) != '-'
        || name.get_char(12) != '-' || name.get_char(15) != '.' {
        proof {
            assert forall|d: Date| !parses_as_video_file(name@, video_ext@, d) by {
                if parses_as_video_file(name@, video_ext@, d) {
                    lemma_video_name_parts(d, video_ext@);
                }
            }
        }
        return None;
    }
    if !str_range_eq(name, 16, n, video_ext) {
        proof {
            assert forall|d: Date| !parses_as_video_file(name@, video_ext@, d) by {
                if parses_as_video_file(name@, video_ext@, d) {
                    lemma_video_name_parts(d, video_ext@);
                    assert(name@.subrange(16, n as int) =~= video_ext@);
                }
            }
        }
        return None;
    }
    let year_str = name.substring_char(5, 9);
    let month_str = name.substring_char(10, 12);
    let day_str = name.substring_char(13, 15);
    let year_maybe = parse_u32(year_str);
    let month_maybe = parse_u32(month_str);
    let day_maybe = parse_u32(day_str);
    proof {
        lemma_small_powers();
        assert forall|d: Date| parses_as_video_file(name@, video_ext@, d) implies {
            &&& all_digits(#[trigger] name@.subrange(5, 9))
            &&& all_digits(name@.subrange(10, 12))
            &&& all_digits(name@.subrange(13, 15))
            &&& digits_value(name@.subrange(5, 9)) == d.year
            &&& digits_value(name@.subrange(10, 12)) == d.month
            &&& digits_value(name@.subrange(13, 15)) == d.day
        } by {
            lemma_video_name_parts(d, video_ext@);
            lemma_padded_field(d.year as nat, 4);
            lemma_padded_field(d.month as nat, 2);
            lemma_padded_field(d.day as nat, 2);
            assert(name@.subrange(5, 9) =~= video_file_name_seq(d, video_ext@).subrange(5, 9));
            assert(name@.subrange(10, 12) =~= video_file_name_seq(d, video_ext@).subrange(10, 12));
            assert(name@.subrange(13, 15) =~= video_file_name_seq(d, video_ext@).subrange(13, 15));
        }
    }
    let (year, month, day) = match (year_maybe, month_maybe, day_maybe) {
        (Some(y), Some(m), Some(dd)) => (y, m, dd),
        _ => {
            proof {
                assert forall|d: Date| !parses_as_video_file(name@, video_ext@, d) by {}
            }
            return None;
        },
    };
    if year < 1 || year > 9999 || month < 1 || month > 12 || day < 1 || day > 31 {
        return None;
    }
    let d = Date { year: year as u16, month: month as u8, day: day as u8 };
    proof {
        lemma_video_name_parts(d, video_ext@);
        lemma_padded_field(d.year as nat, 4);
        lemma_padded_field(d.month as nat, 2);
        lemma_padded_field(d.day as nat, 2);
        lemma_digit_string_unique(name@.subrange(5, 9), padded_dec(d.year as nat, 4));
        lemma_digit_string_unique(name@.subrange(10, 12), padded_dec(d.month as nat, 2));
        lemma_digit_string_unique(name@.subrange(13, 15), padded_dec(d.day as nat, 2));
        let e = video_file_name_seq(d, video_ext@);
        assert forall|i: int| 0 <= i < name@.len() implies name@[i] == e[i] by {
            if 5 <= i < 9 {
                assert(name@[i] == name@.subrange(5, 9)[i - 5]);
                assert(e[i] == e.subrange(5, 9)[i - 5]);
            } else if 10 <= i < 12 {
                assert(name@[i] == name@.subrange(10, 12)[i - 10]);
                assert(e[i] == e.subrange(10, 12)[i - 10]);
            } else if 13 <= i < 15 {
                assert(name@[i] == name@.subrange(13, 15)[i - 13]);
                assert(e[i] == e.subrange(13, 15)[i - 13]);
            } else if 16 <= i {
                assert(name@[i] == name@.subrange(16, n as int)[i - 16]);
                assert(e[i] == e.subrange(16, 16 + video_ext@.len() as int)[i - 16]);
            }
        }
        assert(name@ =~= e);
    }
    Some(d)
}

/// If the tail of `p` at `base` matches some well-formed date's suffix, then
/// the three digit fields of `p` agree with that date's fields.
proof fn lemma_digit_subranges_of_match(p: Seq<char>, base: int)
    requires
        0 <= base,
        base + 11 == p.len(),
    ensures
        forall|d: Date|
            parses_as_shot_dir(p, d) ==> {
                &&& all_digits(#[trigger] p.subrange(base + 1, base + 5))
                &&& all_digits(p.subrange(base + 6, base + 8))
                &&& all_digits(p.subrange(base + 9, base + 11))
                &&& digits_value(p.subrange(base + 1, base + 5)) == d.year
                &&& digits_value(p.subrange(base + 6, base + 8)) == d.month
                &&& digits_value(p.subrange(base + 9, base + 11)) == d.day
            },
{
    assert forall|d: Date| parses_as_shot_dir(p, d) implies {
        &&& all_digits(#[trigger] p.subrange(base + 1, base + 5))
        &&& all_digits(p.subrange(base + 6, base + 8))
        &&& all_digits(p.subrange(base + 9, base + 11))
        &&& digits_value(p.subrange(base + 1, base + 5)) == d.year
        &&& digits_value(p.subrange(base + 6, base + 8)) == d.month
        &&& digits_value(p.subrange(base + 9, base + 11)) == d.day
    } by {
        lemma_shot_dir_suffix_parts(d);
        lemma_small_powers();
        lemma_padded_field(d.year as nat, 4);
        lemma_padded_field(d.month as nat, 2);
        lemma_padded_field(d.day as nat, 2);
        let s = p.subrange(base, base + 11);
        assert(s == shot_dir_suffix(d));
        assert(p.subrange(base + 1, base + 5) =~= s.subrange(1, 5));
        assert(p.subrange(base + 6, base + 8) =~= s.subrange(6, 8));
        assert(p.subrange(base + 9, base + 11) =~= s.subrange(9, 11));
    }
}

} // verus!
