//! Frame files and the metadata sidecar.
//!
//! A frame file is named `<00000..N>.<ext>` with a fixed five-digit,
//! zero-padded index, so names sort in index order; the sidecar
//! `frame_metadata.csv` holds one `frame,width,height` row per frame.

use vstd::prelude::*;

use crate::strnum::{
    all_digits, digits_value, lemma_digit_string_unique, lemma_digits_value_bound,
    lemma_padded_dec_value, padded_dec, parse_u32, str_range_eq, u32_to_string, zero_padded,
};

verus! {

/// Frame indices are rendered as exactly five digits, so they stay below
/// this bound.
pub const MAX_FRAME_INDEX: u32 = 99999;

/// One row of the metadata sidecar: a frame and its native dimensions.
#[derive(Clone, Copy, Debug, PartialEq, Eq, Structural)]
pub struct FrameRecord {
    pub frame_index: u32,
    pub width: u32,
    pub height: u32,
}

/// `<index, five digits zero-padded>.<ext>`.
pub open spec fn frame_file_name_seq(index: nat, ext: Seq<char>) -> Seq<char> {
    padded_dec(index, 5) + seq!['.'] + ext
}

/// `name` is the frame file of index `index` with extension `ext`.
pub open spec fn parses_as_frame_file(name: Seq<char>, ext: Seq<char>, index: nat) -> bool {
    &&& index <= MAX_FRAME_INDEX
    &&& name == frame_file_name_seq(index, ext)
}

/// Builds the file name a frame of `index` is stored under.
pub fn frame_file_name(index: u32, ext: &str) -> (r: String)
    requires
        index <= MAX_FRAME_INDEX,
    ensures
        r@ == frame_file_name_seq(index as nat, ext@),
{
    let mut s = zero_padded(index, 5);
    proof {
        reveal_strlit(".");
    }
    s.append(".");
    s.append(ext);
    proof {
        assert(s@ =~= frame_file_name_seq(index as nat, ext@));
    }
    s
}

proof fn lemma_frame_stem(index: nat)
    requires
        index <= MAX_FRAME_INDEX,
    ensures
        padded_dec(index, 5).len() == 5,
        all_digits(padded_dec(index, 5)),
        digits_value(padded_dec(index, 5)) == index,
{
    crate::strnum::lemma_pow10_values();
    crate::strnum::lemma_dec_digits_len_bound(index, 5);
    lemma_padded_dec_value(index, 5);
}

/// A file name carries at most one frame index.
pub proof fn lemma_frame_file_unambiguous(name: Seq<char>, ext: Seq<char>, i1: nat, i2: nat)
    requires
        parses_as_frame_file(name, ext, i1),
        parses_as_frame_file(name, ext, i2),
    ensures
        i1 == i2,
{
    lemma_frame_stem(i1);
    lemma_frame_stem(i2);
    assert(name.subrange(0, 5) =~= padded_dec(i1, 5));
    assert(name.subrange(0, 5) =~= padded_dec(i2, 5));
}

/// Reads a frame index back out of a file name. Returns `Some` exactly when
/// the name is `<five digits>.<ext>`.
pub fn parse_frame_file_name(name: &str, ext: &str) -> (r: Option<u32>)
    ensures
        match r {
            Some(i) => parses_as_frame_file(name@, ext@, i as nat),
            None => forall|i: nat| !parses_as_frame_file(name@, ext@, i),
        },
{
    let n = name.unicode_len();
    let ext_len = ext.unicode_len();
    if n < 6 || n - 6 != ext_len {
        proof {
            assert forall|i: nat| !parses_as_frame_file(name@, ext@, i) by {
                if parses_as_frame_file(name@, ext@, i) {
                    lemma_frame_stem(i);
                }
            }
        }
        return None;
    }
    if name.get_char(5) != '.' {
        proof {
            assert forall|i: nat| !parses_as_frame_file(name@, ext@, i) by {
                if parses_as_frame_file(name@, ext@, i) {
                    lemma_frame_stem(i);
                    assert(name@[5] == frame_file_name_seq(i, ext@)[5]);
                }
            }
        }
        return None;
    }
    if !str_range_eq(name, 6, n, ext) {
        proof {
            assert forall|i: nat| !parses_as_frame_file(name@, ext@, i) by {
                if parses_as_frame_file(name@, ext@, i) {
                    lemma_frame_stem(i);
                    assert(name@.subrange(6, n as int) =~= ext@);
                }
            }
        }
        return None;
    }
    let stem = name.substring_char(0, 5);
    match parse_u32(stem) {
        Some(v) => {
            proof {
                lemma_digits_value_bound(stem@);
                crate::strnum::lemma_pow10_values();
                lemma_frame_stem(v as nat);
                lemma_digit_string_unique(stem@, padded_dec(v as nat, 5));
                assert(name@ =~= frame_file_name_seq(v as nat, ext@));
            }
            Some(v)
        },
        None => {
            proof {
                assert forall|i: nat| !parses_as_frame_file(name@, ext@, i) by {
                    if parses_as_frame_file(name@, ext@, i) {
                        lemma_frame_stem(i);
                        assert(name@.subrange(0, 5) =~= padded_dec(i, 5));
                        lemma_digits_value_bound(stem@);
                    }
                }
            }
            None
        },
    }
}

/// The sidecar's header row.
pub open spec fn csv_header() -> Seq<char> {
    seq![
        'f',
        'r',
        'a',
        'm',
        'e',
        ',',
        'w',
        'i',
        'd',
        't',
        'h',
        ',',
        'h',
        'e',
        'i',
        'g',
        'h',
        't',
        '\n',
    ]
}

/// One sidecar row: `frame,width,height`, each field zero-padded to the ten
/// digits a `u32` can need, so every row is exactly `CSV_LINE_LEN` characters
/// and the sidecar parses positionally.
pub open spec fn csv_line(r: FrameRecord) -> Seq<char> {
    padded_dec(r.frame_index as nat, 10) + seq![','] + padded_dec(r.width as nat, 10) + seq![',']
        + padded_dec(r.height as nat, 10) + seq!['\n']
}

/// The length of one sidecar row: three ten-digit fields, two commas, one
/// newline.
pub const CSV_LINE_LEN: usize = 33;

/// The length of the sidecar's header row.
pub const CSV_HEADER_LEN: usize = 19;

pub open spec fn csv_rows(rows: Seq<FrameRecord>) -> Seq<char>
    decreases rows.len(),
{
    if rows.len() == 0 {
        Seq::empty()
    } else {
        csv_rows(rows.drop_last()) + csv_line(rows.last())
    }
}

/// The whole sidecar text for a sequence of records.
pub open spec fn csv_of(rows: Seq<FrameRecord>) -> Seq<char> {
    csv_header() + csv_rows(rows)
}

/// Renders one sidecar row, for appending after a stored frame.
pub fn metadata_csv_line(r: &FrameRecord) -> (s: String)
    ensures
        s@ == csv_line(*r),
{
    let mut s = zero_padded(r.frame_index, 10);
    proof {
        reveal_strlit(",");
        reveal_strlit("\n");
    }
    s.append(",");
    let w = zero_padded(r.width, 10);
    s.append(w.as_str());
    s.append(",");
    let h = zero_padded(r.height, 10);
    s.append(h.as_str());
    s.append("\n");
    proof {
        assert(s@ =~= csv_line(*r));
    }
    s
}

/// Renders the whole sidecar for a directory's records.
pub fn encode_metadata_csv(rows: &Vec<FrameRecord>) -> (s: String)
    ensures
        s@ == csv_of(rows@),
{
    proof {
        reveal_strlit("frame,width,height\n");
    }
    let mut s = String::from_str("frame,width,height\n");
    proof {
        assert(s@ =~= csv_header());
        assert(rows@.take(0) =~= Seq::<FrameRecord>::empty());
    }
    let mut i: usize = 0;
    while i < rows.len()
        invariant
            i <= rows.len(),
            s@ == csv_of(rows@.take(i as int)),
        decreases rows.len() - i,
    {
        let line = metadata_csv_line(&rows[i]);
        s.append(line.as_str());
        proof {
            assert(rows@.take(i + 1).drop_last() =~= rows@.take(i as int));
            assert(rows@.take(i + 1).last() == rows@[i as int]);
        }
        i += 1;
    }
    proof {
        assert(rows@.take(rows@.len() as int) =~= rows@);
    }
    s
}

proof fn lemma_field(v: nat)
    requires
        v <= u32::MAX,
    ensures
        padded_dec(v, 10).len() == 10,
        all_digits(padded_dec(v, 10)),
        digits_value(padded_dec(v, 10)) == v,
{
    crate::strnum::lemma_pow10_values();
    crate::strnum::lemma_dec_digits_len_bound(v, 10);
    lemma_padded_dec_value(v, 10);
}

/// The shape of one sidecar row: three ten-digit fields with their
/// separators.
proof fn lemma_csv_line_parts(r: FrameRecord)
    ensures
        csv_line(r).len() == CSV_LINE_LEN,
        csv_line(r).subrange(0, 10) =~= padded_dec(r.frame_index as nat, 10),
        csv_line(r)[10] == ',',
        csv_line(r).subrange(11, 21) =~= padded_dec(r.width as nat, 10),
        csv_line(r)[21] == ',',
        csv_line(r).subrange(22, 32) =~= padded_dec(r.height as nat, 10),
        csv_line(r)[32] == '\n',
{
    lemma_field(r.frame_index as nat);
    lemma_field(r.width as nat);
    lemma_field(r.height as nat);
}

proof fn lemma_csv_rows_len(rows: Seq<FrameRecord>)
    ensures
        csv_rows(rows).len() == CSV_LINE_LEN * rows.len(),
    decreases rows.len(),
{
    if rows.len() > 0 {
        lemma_csv_rows_len(rows.drop_last());
        lemma_csv_line_parts(rows.last());
    }
}

proof fn lemma_csv_row_slice(rows: Seq<FrameRecord>, k: int)
    requires
        0 <= k < rows.len(),
    ensures
        csv_rows(rows).subrange(33 * k, 33 * k + 33) =~= csv_line(rows[k]),
    decreases rows.len(),
{
    lemma_csv_rows_len(rows);
    lemma_csv_rows_len(rows.drop_last());
    lemma_csv_line_parts(rows.last());
    if k == rows.len() - 1 {
        assert(rows[k] == rows.last());
    } else {
        lemma_csv_row_slice(rows.drop_last(), k);
        assert(rows.drop_last()[k] == rows[k]);
        assert(csv_rows(rows).subrange(33 * k, 33 * k + 33) =~= csv_rows(
            rows.drop_last(),
        ).subrange(33 * k, 33 * k + 33));
    }
}

/// The shape of a whole sidecar: the header, then one 33-character row per
/// record.
pub proof fn lemma_csv_of_parts(rows: Seq<FrameRecord>)
    ensures
        csv_of(rows).len() == 19 + 33 * rows.len(),
        csv_of(rows).subrange(0, 19) =~= csv_header(),
        forall|k: int|
            0 <= k < rows.len() ==> csv_of(rows).subrange(19 + 33 * k, 19 + 33 * k + 33)
                =~= csv_line(#[trigger] rows[k]),
{
    lemma_csv_rows_len(rows);
    assert forall|k: int|
        0 <= k < rows.len() implies csv_of(rows).subrange(19 + 33 * k, 19 + 33 * k + 33)
        =~= csv_line(#[trigger] rows[k]) by {
        lemma_csv_row_slice(rows, k);
        assert(csv_of(rows).subrange(19 + 33 * k, 19 + 33 * k + 33) =~= csv_rows(rows).subrange(
            33 * k,
            33 * k + 33,
        ));
    }
}

/// What one matching sidecar forces at row `k`: separators in place and the
/// three fields carrying the record's values.
#[verifier::rlimit(30)]
proof fn lemma_row_slice_facts(s: Seq<char>, rows: Seq<FrameRecord>, k: int)
    requires
        s == csv_of(rows),
        0 <= k < rows.len(),
    ensures
        s.len() == 19 + 33 * rows.len(),
        s[19 + 33 * k + 10] == ',',
        s[19 + 33 * k + 21] == ',',
        s[19 + 33 * k + 32] == '\n',
        all_digits(s.subrange(19 + 33 * k, 19 + 33 * k + 10)),
        digits_value(s.subrange(19 + 33 * k, 19 + 33 * k + 10)) == rows[k].frame_index,
        all_digits(s.subrange(19 + 33 * k + 11, 19 + 33 * k + 21)),
        digits_value(s.subrange(19 + 33 * k + 11, 19 + 33 * k + 21)) == rows[k].width,
        all_digits(s.subrange(19 + 33 * k + 22, 19 + 33 * k + 32)),
        digits_value(s.subrange(19 + 33 * k + 22, 19 + 33 * k + 32)) == rows[k].height,
{
    lemma_csv_of_parts(rows);
    lemma_csv_line_parts(rows[k]);
    lemma_field(rows[k].frame_index as nat);
    lemma_field(rows[k].width as nat);
    lemma_field(rows[k].height as nat);
    let base = 19 + 33 * k;
    let line = s.subrange(base, base + 33);
    assert(line =~= csv_line(rows[k]));
    assert(s.subrange(base, base + 10) =~= line.subrange(0, 10));
    assert(s.subrange(base + 11, base + 21) =~= line.subrange(11, 21));
    assert(s.subrange(base + 22, base + 32) =~= line.subrange(22, 32));
    assert(s[base + 10] == line[10]);
    assert(s[base + 21] == line[21]);
    assert(s[base + 32] == line[32]);
}

/// The sidecar rendering is injective: equal texts carry equal rows.
pub proof fn lemma_csv_injective(r1: Seq<FrameRecord>, r2: Seq<FrameRecord>)
    requires
        csv_of(r1) == csv_of(r2),
    ensures
        r1 =~= r2,
{
    lemma_csv_of_parts(r1);
    lemma_csv_of_parts(r2);
    assert(r1.len() == r2.len());
    assert forall|k: int| 0 <= k < r1.len() implies r1[k] == r2[k] by {
        lemma_row_slice_facts(csv_of(r1), r1, k);
        lemma_row_slice_facts(csv_of(r2), r2, k);
        let base = 19 + 33 * k;
        let s = csv_of(r1);
        assert(digits_value(s.subrange(base, base + 10)) == r1[k].frame_index);
        assert(digits_value(s.subrange(base, base + 10)) == r2[k].frame_index);
        assert(digits_value(s.subrange(base + 11, base + 21)) == r1[k].width);
        assert(digits_value(s.subrange(base + 11, base + 21)) == r2[k].width);
        assert(digits_value(s.subrange(base + 22, base + 32)) == r1[k].height);
        assert(digits_value(s.subrange(base + 22, base + 32)) == r2[k].height);
    }
}

/// If a sidecar of length `19 + 33m` matches, it has exactly `m` rows.
proof fn lemma_row_count(s: Seq<char>, rows: Seq<FrameRecord>, m: int)
    requires
        s == csv_of(rows),
        s.len() == 19 + 33 * m,
        m >= 0,
    ensures
        rows.len() == m,
{
    lemma_csv_of_parts(rows);
}

/// Reads a sidecar back into its rows. Returns `Some(rows)` exactly when
/// the text is the sidecar rendering of some row sequence — which it then
/// returns: parsing inverts `encode_metadata_csv`.
pub fn parse_metadata_csv(s: &str) -> (r: Option<Vec<FrameRecord>>)
    ensures
        match r {
            Some(rows) => s@ == csv_of(rows@),
            None => forall|rows: Seq<FrameRecord>| s@ != csv_of(rows),
        },
{
    let n = s.unicode_len();
    if n < 19 || (n - 19) % 33 != 0 {
        proof {
            assert forall|rows: Seq<FrameRecord>| s@ != csv_of(rows) by {
                if s@ == csv_of(rows) {
                    lemma_csv_of_parts(rows);
                    vstd::arithmetic::div_mod::lemma_mod_multiples_basic(rows.len() as int, 33);
                }
            }
        }
        return None;
    }
    proof {
        reveal_strlit("frame,width,height\n");
        assert("frame,width,height\n"@ =~= csv_header());
    }
    if !str_range_eq(s, 0, 19, "frame,width,height\n") {
        proof {
            assert forall|rows: Seq<FrameRecord>| s@ != csv_of(rows) by {
                if s@ == csv_of(rows) {
                    lemma_csv_of_parts(rows);
                    assert(s@.subrange(0, 19) =~= csv_header());
                }
            }
        }
        return None;
    }
    let m = (n - 19) / 33;
    proof {
        assert(n - 19 == 33 * m) by {
            vstd::arithmetic::div_mod::lemma_fundamental_div_mod((n - 19) as int, 33);
        }
        assert forall|rows: Seq<FrameRecord>| s@ == csv_of(rows) implies rows.len() == m by {
            lemma_row_count(s@, rows, m as int);
        }
    }
    let mut rows: Vec<FrameRecord> = Vec::new();
    let mut k: usize = 0;
    proof {
        assert(rows@.take(0) =~= Seq::<FrameRecord>::empty());
        assert(s@.subrange(0, 19) =~= csv_of(rows@));
    }
    while k < m
        invariant
            k <= m,
            n == s@.len(),
            n - 19 == 33 * m,
            rows@.len() == k,
            s@.subrange(0, 19 + 33 * (k as int)) == csv_of(rows@),
            forall|rows_t: Seq<FrameRecord>| s@ == csv_of(rows_t) ==> rows_t.len() == m,
        decreases m - k,
    {
        let base = 19 + 33 * k;
        let sep_ok = s.get_char(base + 10) == ',' && s.get_char(base + 21) == ','
            && s.get_char(base + 32) == '\n';
        if !sep_ok {
            proof {
                assert forall|rows_t: Seq<FrameRecord>| s@ != csv_of(rows_t) by {
                    if s@ == csv_of(rows_t) {
                        lemma_row_slice_facts(s@, rows_t, k as int);
                    }
                }
            }
            return None;
        }
        let f1 = crate::strnum::parse_u32(s.substring_char(base, base + 10));
        let f2 = crate::strnum::parse_u32(s.substring_char(base + 11, base + 21));
        let f3 = crate::strnum::parse_u32(s.substring_char(base + 22, base + 32));
        let (idx, w, h) = match (f1, f2, f3) {
            (Some(a), Some(b), Some(c)) => (a, b, c),
            _ => {
                proof {
                    assert forall|rows_t: Seq<FrameRecord>| s@ != csv_of(rows_t) by {
                        if s@ == csv_of(rows_t) {
                            lemma_row_slice_facts(s@, rows_t, k as int);
                        }
                    }
                }
                return None;
            },
        };
        let rec = FrameRecord { frame_index: idx, width: w, height: h };
        let ghost pre_rows = rows@;
        rows.push(rec);
        proof {
            lemma_csv_line_parts(rec);
            lemma_field(idx as nat);
            lemma_field(w as nat);
            lemma_field(h as nat);
            crate::strnum::lemma_digit_string_unique(
                s@.subrange(base as int, base + 10),
                padded_dec(idx as nat, 10),
            );
            crate::strnum::lemma_digit_string_unique(
                s@.subrange(base + 11, base + 21),
                padded_dec(w as nat, 10),
            );
            crate::strnum::lemma_digit_string_unique(
                s@.subrange(base + 22, base + 32),
                padded_dec(h as nat, 10),
            );
            let line = s@.subrange(base as int, base + 33);
            assert forall|i: int| 0 <= i < 33 implies line[i] == csv_line(rec)[i] by {
                if 0 <= i < 10 {
                    assert(line[i] == s@.subrange(base as int, base + 10)[i]);
                    assert(csv_line(rec)[i] == csv_line(rec).subrange(0, 10)[i]);
                } else if 11 <= i < 21 {
                    assert(line[i] == s@.subrange(base + 11, base + 21)[i - 11]);
                    assert(csv_line(rec)[i] == csv_line(rec).subrange(11, 21)[i - 11]);
                } else if 22 <= i < 32 {
                    assert(line[i] == s@.subrange(base + 22, base + 32)[i - 22]);
                    assert(csv_line(rec)[i] == csv_line(rec).subrange(22, 32)[i - 22]);
                }
            }
            assert(line =~= csv_line(rec));
            assert(rows@.drop_last() =~= pre_rows);
            assert(csv_rows(rows@) == csv_rows(pre_rows) + csv_line(rec));
            assert(s@.subrange(0, 19 + 33 * (k + 1)) =~= s@.subrange(0, 19 + 33 * (k as int))
                + line);
            assert(s@.subrange(0, 19 + 33 * (k + 1)) =~= csv_of(rows@));
        }
        k += 1;
    }
    proof {
        assert(s@.subrange(0, 19 + 33 * (m as int)) =~= s@);
    }
    Some(rows)
}

} // verus!
