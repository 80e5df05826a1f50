//! Directory-level bookkeeping: the per-file reversible compression of a
//! sealed day's frames, metadata generation from the frame files themselves,
//! and the retention sweep.
//!
//! Functions here work on a directory's contents handed in as values; the
//! surrounding binary lists, reads and rewrites the real files.

use vstd::prelude::*;

use crate::date::Date;
use crate::frames::{parses_as_frame_file, FrameRecord, MAX_FRAME_INDEX};
use crate::strnum::{str_eq, str_range_eq};

verus! {

/// One file of a directory, with its contents.
pub struct DirFile {
    pub name: String,
    pub is_symlink: bool,
    pub data: Vec<u8>,
}

/// What `zstd` encoding produces for given input bytes, at the default
/// compression level.
pub uninterp spec fn zstd_of(s: Seq<u8>) -> Seq<u8>;

/// Relies on zstd::stream::encode_all at the default level: encoding an
/// in-memory buffer into a `Vec` meets no I/O error, so it returns the zstd
/// frame the input bytes determine.
#[verifier::external_body]
fn zstd_compress(data: &Vec<u8>) -> (r: Vec<u8>)
    ensures
        r@ == zstd_of(data@),
{
    zstd::stream::encode_all(data.as_slice(), zstd::DEFAULT_COMPRESSION_LEVEL)
        .expect("zstd encoding of an in-memory buffer cannot fail")
}

/// Relies on zstd::stream::decode_all: it decodes any zstd frame, and
/// decoding inverts encoding, so bytes that `encode_all` produced decode
/// back to the original input.
#[verifier::external_body]
fn zstd_decompress(data: &Vec<u8>) -> (r: Option<Vec<u8>>)
    ensures
        r matches Some(v) ==> (forall|s: Seq<u8>| data@ == zstd_of(s) ==> v@ == s),
        (exists|s: Seq<u8>| data@ == zstd_of(s)) ==> r is Some,
{
    zstd::stream::decode_all(data.as_slice()).ok()
}

/// What the `image` crate reads as the dimensions of an encoded image, or
/// `None` for bytes it cannot decode.
pub uninterp spec fn image_dims_of(data: Seq<u8>) -> Option<(u32, u32)>;

/// Relies on image::load_from_memory: the decoded dimensions are a function
/// of the encoded bytes alone; an unreadable buffer is an error.
#[verifier::external_body]
fn decode_image_dimensions(data: &Vec<u8>) -> (r: Option<(u32, u32)>)
    ensures
        r == image_dims_of(data@),
{
    match image::load_from_memory(data.as_slice()) {
        Ok(img) => Some((img.width(), img.height())),
        Err(_) => None,
    }
}

/// The extension the compressed sibling of a file carries.
pub open spec fn zst_suffix() -> Seq<char> {
    ".zst"@
}

/// The metadata sidecar's file name.
pub open spec fn sidecar_name() -> Seq<char> {
    "frame_metadata.csv"@
}

pub open spec fn ends_with(s: Seq<char>, suffix: Seq<char>) -> bool {
    s.len() >= suffix.len() && s.subrange(s.len() - suffix.len(), s.len() as int) == suffix
}

/// A file the compression pass takes on: a regular file matching the frame
/// extension, or the metadata sidecar.
pub open spec fn compress_eligible(name: Seq<char>, ext: Seq<char>) -> bool {
    ends_with(name, seq!['.'] + ext) || name == sidecar_name()
}

/// `out` is the compressed sibling that replaced `orig`.
pub open spec fn is_compressed_sibling(orig: DirFile, out: DirFile, ext: Seq<char>) -> bool {
    &&& !orig.is_symlink
    &&& compress_eligible(orig.name@, ext)
    &&& out.name@ == orig.name@ + zst_suffix()
    &&& !out.is_symlink
    &&& out.data@ == zstd_of(orig.data@)
}

/// `out` is the decompressed original that replaced the sibling `orig`.
pub open spec fn is_decompressed_sibling(orig: DirFile, out: DirFile) -> bool {
    &&& !orig.is_symlink
    &&& ends_with(orig.name@, zst_suffix())
    &&& out.name@ == orig.name@.subrange(0, orig.name@.len() - 4)
    &&& !out.is_symlink
    &&& forall|s: Seq<u8>| orig.data@ == zstd_of(s) ==> out.data@ == s
}

/// The compression pass's effect on a listing: every eligible regular file
/// is replaced by its compressed sibling; everything else is untouched.
pub open spec fn compressed_listing(pre: Seq<DirFile>, post: Seq<DirFile>, ext: Seq<char>) -> bool {
    &&& post.len() == pre.len()
    &&& forall|i: int|
        0 <= i < pre.len() ==> {
            if !(#[trigger] pre[i]).is_symlink && compress_eligible(pre[i].name@, ext) {
                is_compressed_sibling(pre[i], post[i], ext)
            } else {
                same_file(pre[i], post[i])
            }
        }
}

/// The decompression pass's effect on a listing: every regular `.zst` file
/// is replaced by its decoded original; one whose bytes are no zstd frame is
/// left as it was; everything else is untouched.
pub open spec fn decompressed_listing(pre: Seq<DirFile>, post: Seq<DirFile>) -> bool {
    &&& post.len() == pre.len()
    &&& forall|i: int|
        0 <= i < pre.len() ==> {
            if !(#[trigger] pre[i]).is_symlink && ends_with(pre[i].name@, zst_suffix()) {
                &&& (is_decompressed_sibling(pre[i], post[i]) || same_file(pre[i], post[i]))
                &&& ((exists|s: Seq<u8>| pre[i].data@ == zstd_of(s)) ==> is_decompressed_sibling(
                    pre[i],
                    post[i],
                ))
            } else {
                same_file(pre[i], post[i])
            }
        }
}

pub open spec fn same_file(a: DirFile, b: DirFile) -> bool {
    a.name@ == b.name@ && a.is_symlink == b.is_symlink && a.data@ == b.data@
}

/// Compressing a directory and then decompressing it reproduces every
/// affected file — frame files and the sidecar alike — byte for byte under
/// its original name: the per-file transform is reversible.
pub proof fn lemma_compress_roundtrip(
    pre: Seq<DirFile>,
    mid: Seq<DirFile>,
    post: Seq<DirFile>,
    ext: Seq<char>,
)
    requires
        compressed_listing(pre, mid, ext),
        decompressed_listing(mid, post),
    ensures
        post.len() == pre.len(),
        forall|i: int|
            0 <= i < pre.len() && !(#[trigger] pre[i]).is_symlink && compress_eligible(
                pre[i].name@,
                ext,
            ) ==> same_file(pre[i], post[i]),
{
    reveal_strlit(".zst");
    assert forall|i: int|
        0 <= i < pre.len() && !(#[trigger] pre[i]).is_symlink && compress_eligible(
            pre[i].name@,
            ext,
        ) implies same_file(pre[i], post[i]) by {
        assert(is_compressed_sibling(pre[i], mid[i], ext));
        let o = pre[i];
        let m = mid[i];
        let p = post[i];
        assert(m.name@ == o.name@ + zst_suffix());
        assert(ends_with(m.name@, zst_suffix())) by {
            assert(m.name@.subrange(m.name@.len() - 4, m.name@.len() as int) =~= zst_suffix());
        }
        assert(m.data@ == zstd_of(o.data@));
        assert(is_decompressed_sibling(m, p));
        assert(p.name@ =~= o.name@) by {
            assert(m.name@.subrange(0, m.name@.len() - 4) =~= o.name@);
        }
        assert(p.data@ == o.data@);
    }
}

fn str_ends_with(s: &str, suffix: &str) -> (r: bool)
    ensures
        r == ends_with(s@, suffix@),
{
    let n = s.unicode_len();
    let m = suffix.unicode_len();
    if m > n {
        return false;
    }
    str_range_eq(s, n - m, n, suffix)
}

fn is_compress_eligible(name: &str, ext: &str) -> (r: bool)
    ensures
        r == compress_eligible(name@, ext@),
{
    proof {
        reveal_strlit(".");
    }
    let mut dotted = String::from_str(".");
    dotted.append(ext);
    proof {
        assert(dotted@ =~= seq!['.'] + ext@);
    }
    str_ends_with(name, dotted.as_str()) || str_eq(name, "frame_metadata.csv")
}

fn clone_bytes(data: &Vec<u8>) -> (r: Vec<u8>)
    ensures
        r@ == data@,
{
    let mut r: Vec<u8> = Vec::new();
    let mut i: usize = 0;
    while i < data.len()
        invariant
            i <= data@.len(),
            r@ =~= data@.take(i as int),
        decreases data@.len() - i,
    {
        r.push(data[i]);
        i += 1;
    }
    proof {
        assert(data@.take(data@.len() as int) =~= data@);
    }
    r
}

fn clone_file(f: &DirFile) -> (r: DirFile)
    ensures
        same_file(*f, r),
{
    DirFile { name: f.name.clone(), is_symlink: f.is_symlink, data: clone_bytes(&f.data) }
}

/// Per-date directory bookkeeping: the root paths and the currently active
/// (today's) shot directory.
pub struct DirManager {
    pub shot_dir: String,
    pub vid_dir: String,
    pub current_shot_dir: String,
}

impl DirManager {
    /// Remembers the roots and derives today's shot directory.
    pub fn new(shot_dir: &String, vid_dir: &String, today: &Date) -> (m: DirManager)
        ensures
            m.shot_dir@ == shot_dir@,
            m.vid_dir@ == vid_dir@,
            m.current_shot_dir@ == shot_dir@ + crate::date::shot_dir_suffix(*today),
    {
        let current = today.to_shot_dir_in(shot_dir.as_str());
        DirManager { shot_dir: shot_dir.clone(), vid_dir: vid_dir.clone(), current_shot_dir: current }
    }

    /// Re-derives the active shot directory for (a possibly new) `today`;
    /// idempotent for an unchanged date. The caller creates the directory.
    pub fn make_shot_output_dir(&mut self, today: &Date)
        ensures
            final(self).shot_dir@ == old(self).shot_dir@,
            final(self).vid_dir@ == old(self).vid_dir@,
            final(self).current_shot_dir@ == old(self).shot_dir@ + crate::date::shot_dir_suffix(
                *today,
            ),
    {
        self.current_shot_dir = today.to_shot_dir_in(self.shot_dir.as_str());
    }

    /// The active shot directory.
    pub fn current_shot_dir(&self) -> (r: &String)
        ensures
            r@ == self.current_shot_dir@,
    {
        &self.current_shot_dir
    }

    /// An owned copy of the active shot directory, for a finalization task.
    pub fn get_current_shot_dir(&self) -> (r: String)
        ensures
            r@ == self.current_shot_dir@,
    {
        self.current_shot_dir.clone()
    }

    /// Plans the compression of a sealed directory: every regular file of
    /// the frame extension, and the sidecar, becomes a `.zst` sibling; the
    /// rest of the listing is untouched.
    pub fn compress(files: &Vec<DirFile>, target_extension: &str) -> (r: Vec<DirFile>)
        ensures
            compressed_listing(files@, r@, target_extension@),
    {
        let mut out: Vec<DirFile> = Vec::new();
        let mut i: usize = 0;
        while i < files.len()
            invariant
                i <= files@.len(),
                out@.len() == i,
                forall|j: int|
                    0 <= j < i ==> {
                        if !(#[trigger] files@[j]).is_symlink && compress_eligible(
                            files@[j].name@,
                            target_extension@,
                        ) {
                            is_compressed_sibling(files@[j], out@[j], target_extension@)
                        } else {
                            same_file(files@[j], out@[j])
                        }
                    },
            decreases files@.len() - i,
        {
            let f = &files[i];
            if !f.is_symlink && is_compress_eligible(f.name.as_str(), target_extension) {
                let packed = zstd_compress(&f.data);
                let mut new_name = f.name.clone();
                proof {
                    reveal_strlit(".zst");
                }
                new_name.append(".zst");
                out.push(DirFile { name: new_name, is_symlink: false, data: packed });
                proof {
                    assert(is_compressed_sibling(
                        files@[i as int],
                        out@[i as int],
                        target_extension@,
                    ));
                }
            } else {
                out.push(clone_file(f));
            }
            i += 1;
        }
        out
    }

    /// Plans the decompression of a directory: every regular `.zst` file is
    /// decoded back under its original name; a file that does not decode is
    /// kept as it is, and the rest continues.
    pub fn decompress(files: &Vec<DirFile>) -> (r: Vec<DirFile>)
        ensures
            decompressed_listing(files@, r@),
    {
        let mut out: Vec<DirFile> = Vec::new();
        let mut i: usize = 0;
        while i < files.len()
            invariant
                i <= files@.len(),
                out@.len() == i,
                forall|j: int|
                    0 <= j < i ==> {
                        if !(#[trigger] files@[j]).is_symlink && ends_with(
                            files@[j].name@,
                            zst_suffix(),
                        ) {
                            &&& (is_decompressed_sibling(files@[j], out@[j]) || same_file(
                                files@[j],
                                out@[j],
                            ))
                            &&& ((exists|s: Seq<u8>| files@[j].data@ == zstd_of(s))
                                ==> is_decompressed_sibling(files@[j], out@[j]))
                        } else {
                            same_file(files@[j], out@[j])
                        }
                    },
            decreases files@.len() - i,
        {
            let f = &files[i];
            proof {
                reveal_strlit(".zst");
            }
            if !f.is_symlink && str_ends_with(f.name.as_str(), ".zst") {
                match zstd_decompress(&f.data) {
                    Some(unpacked) => {
                        let n = f.name.as_str().unicode_len();
                        let stem = f.name.as_str().substring_char(0, n - 4);
                        out.push(
                            DirFile {
                                name: String::from_str(stem),
                                is_symlink: false,
                                data: unpacked,
                            },
                        );
                        proof {
                            assert(is_decompressed_sibling(files@[i as int], out@[i as int]));
                        }
                    },
                    None => {
                        out.push(clone_file(f));
                    },
                }
            } else {
                out.push(clone_file(f));
            }
            i += 1;
        }
        out
    }
}

#[derive(Debug, PartialEq, Eq)]
pub enum DirError {
    /// No frame file of the expected extension exists in the directory.
    NoFramesFound,
    /// A frame file's bytes could not be decoded as an image, so its
    /// dimensions — and the sidecar — cannot be produced.
    UnreadableFrame,
}

/// The file at `j` is a regular frame file of index `i`.
pub open spec fn file_has_index(f: DirFile, ext: Seq<char>, i: nat) -> bool {
    !f.is_symlink && parses_as_frame_file(f.name@, ext, i)
}

/// The frame indices present among a directory's files.
pub open spec fn dir_present_indices(files: Seq<DirFile>, ext: Seq<char>) -> Set<nat> {
    Set::new(
        |i: nat|
            exists|j: int| 0 <= j < files.len() && file_has_index(#[trigger] files[j], ext, i),
    )
}

/// A directory listing names each file once.
pub open spec fn distinct_names(files: Seq<DirFile>) -> bool {
    forall|j1: int, j2: int|
        0 <= j1 < j2 < files.len() ==> (#[trigger] files[j1]).name@ != (
        #[trigger] files[j2]).name@
}

/// The (unique, under distinct names) file holding the frame of index `i`.
pub open spec fn index_file(files: Seq<DirFile>, ext: Seq<char>, i: nat) -> DirFile {
    files[choose|j: int| 0 <= j < files.len() && file_has_index(#[trigger] files[j], ext, i)]
}

/// Under distinct names, any file holding index `i` is the `index_file`.
pub proof fn lemma_index_file(files: Seq<DirFile>, ext: Seq<char>, i: nat, j: int)
    requires
        distinct_names(files),
        0 <= j < files.len(),
        file_has_index(files[j], ext, i),
    ensures
        index_file(files, ext, i) == files[j],
{
    let j2 = choose|j2: int| 0 <= j2 < files.len() && file_has_index(#[trigger] files[j2], ext, i);
    if j != j2 {
        assert(files[j].name@ == crate::frames::frame_file_name_seq(i, ext));
        assert(files[j2].name@ == crate::frames::frame_file_name_seq(i, ext));
        if j < j2 {
            assert(files[j].name@ != files[j2].name@);
        } else {
            assert(files[j2].name@ != files[j].name@);
        }
    }
}

/// `rows` is the sidecar content for the frame files of `files`: one row per
/// present index, in index order, carrying that frame's decoded dimensions.
pub open spec fn rows_describe(files: Seq<DirFile>, ext: Seq<char>, rows: Seq<FrameRecord>) -> bool {
    &&& rows_cover_indices(rows, files, ext)
    &&& forall|k: int|
        0 <= k < rows.len() ==> image_dims_of(
            index_file(files, ext, (#[trigger] rows[k]).frame_index as nat).data@,
        ) == Some((rows[k].width, rows[k].height))
}

/// `rows` has exactly one row per present frame index of `files`, in index
/// order — the sidecar's row set matches the directory's frame set.
pub open spec fn rows_cover_indices(
    rows: Seq<FrameRecord>,
    files: Seq<DirFile>,
    ext: Seq<char>,
) -> bool {
    &&& forall|k1: int, k2: int|
        0 <= k1 < k2 < rows.len() ==> (#[trigger] rows[k1]).frame_index < (
        #[trigger] rows[k2]).frame_index
    &&& forall|k: int|
        0 <= k < rows.len() ==> dir_present_indices(files, ext).contains(
            (#[trigger] rows[k]).frame_index as nat,
        )
    &&& forall|i: nat|
        dir_present_indices(files, ext).contains(i) ==> exists|k: int|
            0 <= k < rows.len() && (#[trigger] rows[k]).frame_index as nat == i
}

/// What regenerating the sidecar from the frame files promises.
pub open spec fn generated_metadata_outcome(
    files: Seq<DirFile>,
    ext: Seq<char>,
    r: Result<Vec<FrameRecord>, DirError>,
) -> bool {
    match r {
        Ok(rows) => rows_describe(files, ext, rows@),
        Err(e) => match e {
            DirError::NoFramesFound => forall|i: nat| !dir_present_indices(files, ext).contains(i),
            DirError::UnreadableFrame => exists|i: nat|
                dir_present_indices(files, ext).contains(i) && image_dims_of(
                    index_file(files, ext, i).data@,
                ) is None,
        },
    }
}

impl DirManager {
    /// Builds the metadata sidecar's rows from the frame files themselves:
    /// one row per present index, in index order, with the dimensions the
    /// image decoder reads from that frame's bytes.
    ///
    /// Fails with `NoFramesFound` exactly when no frame file is present, and
    /// with `UnreadableFrame` when some frame file's bytes decode as no
    /// image.
    pub fn generate_metadata(files: &Vec<DirFile>, ext: &str) -> (r: Result<
        Vec<FrameRecord>,
        DirError,
    >)
        requires
            distinct_names(files@),
        ensures
            generated_metadata_outcome(files@, ext@, r),
    {
        let ghost present = dir_present_indices(files@, ext@);
        // find the greatest present index, if any
        let mut found = false;
        let mut max_idx: u32 = 0;
        let mut k: usize = 0;
        while k < files.len()
            invariant
                k <= files@.len(),
                present == dir_present_indices(files@, ext@),
                !found ==> forall|j: int, i: nat|
                    0 <= j < k ==> !(#[trigger] file_has_index(files@[j], ext@, i)),
                found ==> present.contains(max_idx as nat) && max_idx <= MAX_FRAME_INDEX,
                forall|j: int, i: nat|
                    0 <= j < k && #[trigger] file_has_index(files@[j], ext@, i) ==> i
                        <= max_idx as nat,
            decreases files@.len() - k,
        {
            if !files[k].is_symlink {
                match crate::frames::parse_frame_file_name(&files[k].name, ext) {
                    Some(i) => {
                        proof {
                            assert(file_has_index(files@[k as int], ext@, i as nat));
                            assert(present.contains(i as nat));
                        }
                        if !found || i > max_idx {
                            max_idx = i;
                        }
                        found = true;
                        proof {
                            assert forall|j: int, i2: nat|
                                0 <= j < k + 1 && #[trigger] file_has_index(
                                    files@[j],
                                    ext@,
                                    i2,
                                ) implies i2 <= max_idx as nat by {
                                if j == k {
                                    crate::frames::lemma_frame_file_unambiguous(
                                        files@[k as int].name@,
                                        ext@,
                                        i as nat,
                                        i2,
                                    );
                                }
                            }
                        }
                    },
                    None => {},
                }
            }
            k += 1;
        }
        if !found {
            proof {
                assert forall|i: nat| !present.contains(i) by {
                    if present.contains(i) {
                        let j = choose|j: int|
                            0 <= j < files@.len() && file_has_index(#[trigger] files@[j], ext@, i);
                    }
                }
            }
            return Err(DirError::NoFramesFound);
        }
        let size = (max_idx as usize) + 1;
        let mut slots: Vec<Option<FrameRecord>> = Vec::new();
        while slots.len() < size
            invariant
                slots@.len() <= size,
                forall|j: int| 0 <= j < slots@.len() ==> (#[trigger] slots@[j]) is None,
            decreases size - slots@.len(),
        {
            slots.push(None);
        }
        // decode each frame's dimensions into its slot
        let mut k2: usize = 0;
        while k2 < files.len()
            invariant
                k2 <= files@.len(),
                present == dir_present_indices(files@, ext@),
                distinct_names(files@),
                slots@.len() == size,
                size as int == max_idx as int + 1,
                forall|j: int, i: nat|
                    0 <= j < files@.len() && #[trigger] file_has_index(files@[j], ext@, i) ==> i
                        <= max_idx as nat,
                forall|j2: int|
                    0 <= j2 < size ==> match #[trigger] slots@[j2] {
                        Some(rec) => {
                            &&& rec.frame_index as int == j2
                            &&& present.contains(j2 as nat)
                            &&& image_dims_of(index_file(files@, ext@, j2 as nat).data@) == Some(
                                (rec.width, rec.height),
                            )
                        },
                        None => forall|j: int|
                            0 <= j < k2 ==> !file_has_index(#[trigger] files@[j], ext@, j2 as nat),
                    },
            decreases files@.len() - k2,
        {
            if !files[k2].is_symlink {
                match crate::frames::parse_frame_file_name(&files[k2].name, ext) {
                    Some(i) => {
                        proof {
                            assert(file_has_index(files@[k2 as int], ext@, i as nat));
                            lemma_index_file(files@, ext@, i as nat, k2 as int);
                        }
                        match decode_image_dimensions(&files[k2].data) {
                            Some(dims) => {
                                let ghost pre_slots = slots@;
                                slots.set(
                                    i as usize,
                                    Some(
                                        FrameRecord {
                                            frame_index: i,
                                            width: dims.0,
                                            height: dims.1,
                                        },
                                    ),
                                );
                                proof {
                                    assert(present.contains(i as nat));
                                    assert forall|j2: int| 0 <= j2 < size implies match #[trigger] slots@[j2] {
                                        Some(rec) => {
                                            &&& rec.frame_index as int == j2
                                            &&& present.contains(j2 as nat)
                                            &&& image_dims_of(
                                                index_file(files@, ext@, j2 as nat).data@,
                                            ) == Some((rec.width, rec.height))
                                        },
                                        None => forall|j: int|
                                            0 <= j < k2 + 1 ==> !file_has_index(
                                                #[trigger] files@[j],
                                                ext@,
                                                j2 as nat,
                                            ),
                                    } by {
                                        if j2 != i as int {
                                            assert(slots@[j2] == pre_slots[j2]);
                                            if slots@[j2] is None {
                                                assert forall|j: int|
                                                    0 <= j < k2 + 1 implies !file_has_index(
                                                    files@[j],
                                                    ext@,
                                                    j2 as nat,
                                                ) by {
                                                    if j == k2 && file_has_index(
                                                        files@[j],
                                                        ext@,
                                                        j2 as nat,
                                                    ) {
                                                        crate::frames::lemma_frame_file_unambiguous(
                                                            files@[k2 as int].name@,
                                                            ext@,
                                                            i as nat,
                                                            j2 as nat,
                                                        );
                                                    }
                                                }
                                            }
                                        }
                                    }
                                }
                            },
                            None => {
                                proof {
                                    assert(present.contains(i as nat));
                                    assert(image_dims_of(
                                        index_file(files@, ext@, i as nat).data@,
                                    ) is None);
                                }
                                return Err(DirError::UnreadableFrame);
                            },
                        }
                    },
                    None => {},
                }
            }
            k2 += 1;
        }
        proof {
            assert forall|i: nat| present.contains(i) implies slots@[i as int] is Some by {
                let j = choose|j: int|
                    0 <= j < files@.len() && file_has_index(#[trigger] files@[j], ext@, i);
                if slots@[i as int] is None {
                    assert(!file_has_index(files@[j], ext@, i));
                }
            }
        }
        // read the slots out in index order
        let mut rows: Vec<FrameRecord> = Vec::new();
        let mut j: usize = 0;
        while j < size
            invariant
                j <= size,
                slots@.len() == size,
                present == dir_present_indices(files@, ext@),
                forall|j2: int|
                    0 <= j2 < size ==> match #[trigger] slots@[j2] {
                        Some(rec) => {
                            &&& rec.frame_index as int == j2
                            &&& present.contains(j2 as nat)
                            &&& image_dims_of(index_file(files@, ext@, j2 as nat).data@) == Some(
                                (rec.width, rec.height),
                            )
                        },
                        None => !present.contains(j2 as nat),
                    },
                forall|k3: int|
                    0 <= k3 < rows@.len() ==> ((#[trigger] rows@[k3]).frame_index as int) < (j as int),
                forall|k1: int, k2x: int|
                    0 <= k1 < k2x < rows@.len() ==> (#[trigger] rows@[k1]).frame_index < (
                    #[trigger] rows@[k2x]).frame_index,
                forall|k3: int|
                    0 <= k3 < rows@.len() ==> present.contains(
                        (#[trigger] rows@[k3]).frame_index as nat,
                    ) && image_dims_of(
                        index_file(files@, ext@, rows@[k3].frame_index as nat).data@,
                    ) == Some((rows@[k3].width, rows@[k3].height)),
                forall|i: nat|
                    i < j as nat && present.contains(i) ==> exists|k3: int|
                        0 <= k3 < rows@.len() && (#[trigger] rows@[k3]).frame_index as nat == i,
            decreases size - j,
        {
            let ghost pre_rows = rows@;
            match slots[j] {
                Some(rec) => {
                    rows.push(rec);
                },
                None => {},
            }
            proof {
                assert forall|i: nat|
                    i < (j + 1) as nat && present.contains(i) implies exists|k3: int|
                        0 <= k3 < rows@.len() && (#[trigger] rows@[k3]).frame_index as nat == i by {
                    if i < j as nat {
                        let k3 = choose|k3: int|
                            0 <= k3 < pre_rows.len() && (#[trigger] pre_rows[k3]).frame_index as nat
                                == i;
                        assert(rows@[k3].frame_index as nat == i);
                    } else {
                        assert(slots@[i as int] is Some);
                        assert(rows@[rows@.len() - 1].frame_index as nat == i);
                    }
                }
            }
            j += 1;
        }
        Ok(rows)
    }
}

impl DirManager {
    /// Reads an existing sidecar's text back into rows; `None` when the text
    /// is not a sidecar rendering.
    pub fn read_metadata_from_csv(text: &str) -> (r: Option<Vec<FrameRecord>>)
        ensures
            match r {
                Some(rows) => text@ == crate::frames::csv_of(rows@),
                None => forall|rows: Seq<FrameRecord>| text@ != crate::frames::csv_of(rows),
            },
    {
        crate::frames::parse_metadata_csv(text)
    }

    /// Prefers an existing sidecar — handed in as its text, after the caller
    /// decompressed the directory — but only while its rows still describe
    /// exactly the frame files on disk; a missing, unreadable or stale
    /// sidecar is regenerated. Either way the rows returned cover the
    /// present frame indices one for one, the invariant the encoder's input
    /// is built on.
    pub fn get_or_generate_metadata(
        sidecar_text: Option<&str>,
        files: &Vec<DirFile>,
        ext: &str,
    ) -> (r: Result<Vec<FrameRecord>, DirError>)
        requires
            distinct_names(files@),
        ensures
            r matches Ok(rows) ==> rows_cover_indices(rows@, files@, ext@),
            match sidecar_text {
                Some(t) => {
                    if exists|rows0: Seq<FrameRecord>|
                        t@ == crate::frames::csv_of(rows0) && rows_cover_indices(
                            rows0,
                            files@,
                            ext@,
                        ) {
                        r matches Ok(rows) && t@ == crate::frames::csv_of(rows@)
                    } else {
                        generated_metadata_outcome(files@, ext@, r)
                    }
                },
                None => generated_metadata_outcome(files@, ext@, r),
            },
    {
        match sidecar_text {
            Some(t) => match Self::read_metadata_from_csv(t) {
                Some(rows) => {
                    if rows_cover(&rows, files, ext) {
                        Ok(rows)
                    } else {
                        proof {
                            assert forall|rows0: Seq<FrameRecord>|
                                !(t@ == crate::frames::csv_of(rows0) && rows_cover_indices(
                                    rows0,
                                    files@,
                                    ext@,
                                )) by {
                                if t@ == crate::frames::csv_of(rows0) {
                                    crate::frames::lemma_csv_injective(rows0, rows@);
                                }
                            }
                        }
                        Self::generate_metadata(files, ext)
                    }
                },
                None => Self::generate_metadata(files, ext),
            },
            None => Self::generate_metadata(files, ext),
        }
    }
}

/// Whether each of `rows` names a present frame index, in strictly
/// ascending order, and every present index has its row: the check that
/// decides whether an existing sidecar still matches the directory.
fn rows_cover(rows: &Vec<FrameRecord>, files: &Vec<DirFile>, ext: &str) -> (r: bool)
    ensures
        r == rows_cover_indices(rows@, files@, ext@),
{
    // ascending order
    let mut k: usize = 1;
    while k < rows.len()
        invariant
            1 <= k,
            k <= rows@.len() || rows@.len() == 0,
            forall|k1: int, k2: int|
                0 <= k1 < k2 < k && k2 < rows@.len() ==> (#[trigger] rows@[k1]).frame_index < (
                #[trigger] rows@[k2]).frame_index,
        decreases rows@.len() - k,
    {
        if rows[k - 1].frame_index >= rows[k].frame_index {
            proof {
                assert(!((rows@[k - 1]).frame_index < (rows@[k as int]).frame_index));
            }
            return false;
        }
        proof {
            assert forall|k1: int, k2: int|
                0 <= k1 < k2 < k + 1 && k2 < rows@.len() implies (#[trigger] rows@[k1]).frame_index
                < (#[trigger] rows@[k2]).frame_index by {
                if k2 == k {
                    if k1 < k - 1 {
                        assert(rows@[k1].frame_index < rows@[k - 1].frame_index);
                    }
                }
            }
        }
        k += 1;
    }
    // every row's index is a frame on disk
    let mut k2: usize = 0;
    while k2 < rows.len()
        invariant
            k2 <= rows@.len(),
            forall|j: int|
                0 <= j < k2 ==> dir_present_indices(files@, ext@).contains(
                    (#[trigger] rows@[j]).frame_index as nat,
                ),
        decreases rows@.len() - k2,
    {
        if !dir_has_frame_index(files, ext, rows[k2].frame_index) {
            return false;
        }
        k2 += 1;
    }
    // every frame on disk has its row
    let mut j: usize = 0;
    while j < files.len()
        invariant
            j <= files@.len(),
            forall|j2: int, i: nat|
                0 <= j2 < j && #[trigger] file_has_index(files@[j2], ext@, i) ==> exists|k3: int|
                    0 <= k3 < rows@.len() && (#[trigger] rows@[k3]).frame_index as nat == i,
        decreases files@.len() - j,
    {
        if !files[j].is_symlink {
            match crate::frames::parse_frame_file_name(&files[j].name, ext) {
                Some(i) => {
                    if !rows_have_index(rows, i) {
                        proof {
                            assert(file_has_index(files@[j as int], ext@, i as nat));
                            assert(dir_present_indices(files@, ext@).contains(i as nat));
                        }
                        return false;
                    }
                    proof {
                        assert forall|j2: int, i2: nat|
                            0 <= j2 < j + 1 && #[trigger] file_has_index(
                                files@[j2],
                                ext@,
                                i2,
                            ) implies exists|k3: int|
                            0 <= k3 < rows@.len() && (#[trigger] rows@[k3]).frame_index as nat
                                == i2 by {
                            if j2 == j {
                                crate::frames::lemma_frame_file_unambiguous(
                                    files@[j as int].name@,
                                    ext@,
                                    i as nat,
                                    i2,
                                );
                            }
                        }
                    }
                },
                None => {},
            }
        }
        j += 1;
    }
    proof {
        assert forall|i: nat|
            dir_present_indices(files@, ext@).contains(i) implies exists|k3: int|
            0 <= k3 < rows@.len() && (#[trigger] rows@[k3]).frame_index as nat == i by {
            let j2 = choose|j2: int|
                0 <= j2 < files@.len() && file_has_index(#[trigger] files@[j2], ext@, i);
        }
    }
    true
}

/// Whether a regular frame file of index `i` stands in the listing.
fn dir_has_frame_index(files: &Vec<DirFile>, ext: &str, i: u32) -> (r: bool)
    ensures
        r == dir_present_indices(files@, ext@).contains(i as nat),
{
    let mut j: usize = 0;
    while j < files.len()
        invariant
            j <= files@.len(),
            forall|j2: int| 0 <= j2 < j ==> !file_has_index(#[trigger] files@[j2], ext@, i as nat),
        decreases files@.len() - j,
    {
        if !files[j].is_symlink {
            match crate::frames::parse_frame_file_name(&files[j].name, ext) {
                Some(i2) => {
                    if i2 == i {
                        proof {
                            assert(file_has_index(files@[j as int], ext@, i as nat));
                        }
                        return true;
                    }
                    proof {
                        if file_has_index(files@[j as int], ext@, i as nat) {
                            crate::frames::lemma_frame_file_unambiguous(
                                files@[j as int].name@,
                                ext@,
                                i2 as nat,
                                i as nat,
                            );
                        }
                    }
                },
                None => {},
            }
        }
        j += 1;
    }
    proof {
        if dir_present_indices(files@, ext@).contains(i as nat) {
            let j2 = choose|j2: int|
                0 <= j2 < files@.len() && file_has_index(#[trigger] files@[j2], ext@, i as nat);
        }
    }
    false
}

/// Whether some row carries the frame index `i`.
fn rows_have_index(rows: &Vec<FrameRecord>, i: u32) -> (r: bool)
    ensures
        r == exists|k: int| 0 <= k < rows@.len() && (#[trigger] rows@[k]).frame_index == i,
{
    let mut k: usize = 0;
    while k < rows.len()
        invariant
            k <= rows@.len(),
            forall|k2: int| 0 <= k2 < k ==> (#[trigger] rows@[k2]).frame_index != i,
        decreases rows@.len() - k,
    {
        if rows[k].frame_index == i {
            proof {
                assert(rows@[k as int].frame_index == i);
            }
            return true;
        }
        k += 1;
    }
    false
}

/// Below this many pixels on either axis, a frame is suspiciously small and
/// the operator is warned when the sidecar is generated.
pub const LOW_DIMENSION_FLOOR: u32 = 600;

/// `m` is an axis of some row, and no axis of any row is smaller.
pub open spec fn is_min_dimension(rows: Seq<FrameRecord>, m: u32) -> bool {
    &&& exists|k: int|
        0 <= k < rows.len() && ((#[trigger] rows[k]).width == m || rows[k].height == m)
    &&& forall|k: int| 0 <= k < rows.len() ==> m <= (#[trigger] rows[k]).width && m <= rows[k].height
}

/// The smallest axis observed across a sidecar's rows, for the
/// low-resolution warning; `None` when there are no rows.
pub fn min_dimension(rows: &Vec<FrameRecord>) -> (r: Option<u32>)
    ensures
        match r {
            Some(m) => is_min_dimension(rows@, m),
            None => rows@.len() == 0,
        },
{
    if rows.len() == 0 {
        return None;
    }
    let mut m: u32 = rows[0].width;
    let mut k: usize = 0;
    while k < rows.len()
        invariant
            rows@.len() > 0,
            k <= rows@.len(),
            exists|j: int|
                0 <= j < rows@.len() && ((#[trigger] rows@[j]).width == m || rows@[j].height == m),
            forall|j: int|
                0 <= j < k ==> m <= (#[trigger] rows@[j]).width && m <= rows@[j].height,
        decreases rows@.len() - k,
    {
        if rows[k].width < m {
            m = rows[k].width;
        }
        if rows[k].height < m {
            m = rows[k].height;
        }
        k += 1;
    }
    Some(m)
}

/// How many of the dated directories are newer than `d` and not today's:
/// `d`'s rank from the top of the retention order.
pub open spec fn newer_kept_count(shots: Seq<Date>, today: Date, d: Date) -> nat
    decreases shots.len(),
{
    if shots.len() == 0 {
        0
    } else {
        newer_kept_count(shots.drop_last(), today, d) + if shots.last() != today && d.spec_lt(
            shots.last(),
        ) {
            1nat
        } else {
            0
        }
    }
}

/// A video artifact of `d` exists and is non-empty.
pub open spec fn has_video_for(videos: Seq<(Date, u64)>, d: Date) -> bool {
    exists|k: int| 0 <= k < videos.len() && (#[trigger] videos[k]).0 == d && videos[k].1 > 0
}

/// `d`'s directory may be deleted: it is not today's, at least `keep` other
/// non-today directories are newer, and a non-empty video for `d` exists.
pub open spec fn cleanup_eligible(
    shots: Seq<Date>,
    videos: Seq<(Date, u64)>,
    keep: u32,
    today: Date,
    d: Date,
) -> bool {
    &&& d != today
    &&& newer_kept_count(shots, today, d) >= keep as nat
    &&& has_video_for(videos, d)
}

fn count_newer(shots: &Vec<Date>, today: &Date, d: &Date) -> (c: usize)
    ensures
        c == newer_kept_count(shots@, *today, *d),
{
    let mut c: usize = 0;
    let mut i: usize = 0;
    while i < shots.len()
        invariant
            i <= shots@.len(),
            c == newer_kept_count(shots@.take(i as int), *today, *d),
            c <= i,
        decreases shots@.len() - i,
    {
        proof {
            assert(shots@.take(i + 1).drop_last() =~= shots@.take(i as int));
            assert(shots@.take(i + 1).last() == shots@[i as int]);
        }
        if !(shots[i] == *today) && d.before(&shots[i]) {
            c += 1;
        }
        i += 1;
    }
    proof {
        assert(shots@.take(shots@.len() as int) =~= shots@);
    }
    c
}

fn find_nonempty_video(videos: &Vec<(Date, u64)>, d: &Date) -> (r: bool)
    ensures
        r == has_video_for(videos@, *d),
{
    let mut i: usize = 0;
    while i < videos.len()
        invariant
            i <= videos@.len(),
            forall|k: int| 0 <= k < i ==> !((#[trigger] videos@[k]).0 == *d && videos@[k].1 > 0),
        decreases videos@.len() - i,
    {
        if videos[i].0 == *d && videos[i].1 > 0 {
            proof {
                assert((videos@[i as int]).0 == *d && videos@[i as int].1 > 0);
            }
            return true;
        }
        i += 1;
    }
    false
}

/// The dates the retention sweep selects, in enumeration order.
pub open spec fn cleanup_selection(
    all_shots: Seq<Date>,
    prefix: Seq<Date>,
    videos: Seq<(Date, u64)>,
    keep: u32,
    today: Date,
) -> Seq<Date>
    decreases prefix.len(),
{
    if prefix.len() == 0 {
        Seq::empty()
    } else {
        let rest = cleanup_selection(all_shots, prefix.drop_last(), videos, keep, today);
        if cleanup_eligible(all_shots, videos, keep, today, prefix.last()) {
            rest.push(prefix.last())
        } else {
            rest
        }
    }
}

/// A date is swept exactly when it is eligible and has frames on disk.
pub proof fn lemma_cleanup_membership(
    all_shots: Seq<Date>,
    prefix: Seq<Date>,
    videos: Seq<(Date, u64)>,
    keep: u32,
    today: Date,
)
    ensures
        forall|d: Date|
            cleanup_selection(all_shots, prefix, videos, keep, today).contains(d) <==> (
            prefix.contains(d) && cleanup_eligible(all_shots, videos, keep, today, d)),
    decreases prefix.len(),
{
    if prefix.len() == 0 {
        assert forall|d: Date| !prefix.contains(d) by {}
    } else {
        lemma_cleanup_membership(all_shots, prefix.drop_last(), videos, keep, today);
        let p = prefix.drop_last();
        let rest = cleanup_selection(all_shots, p, videos, keep, today);
        let whole = cleanup_selection(all_shots, prefix, videos, keep, today);
        assert forall|d: Date|
            whole.contains(d) <==> (prefix.contains(d) && cleanup_eligible(
                all_shots,
                videos,
                keep,
                today,
                d,
            )) by {
            assert(cleanup_selection(all_shots, p, videos, keep, today).contains(d) == (p.contains(
                d,
            ) && cleanup_eligible(all_shots, videos, keep, today, d)));
            if whole.contains(d) {
                let u = choose|u: int| 0 <= u < whole.len() && whole[u] == d;
                if u < rest.len() {
                    assert(rest[u] == d);
                    assert(rest.contains(d));
                    assert(p.contains(d));
                    let v = choose|v: int| 0 <= v < p.len() && p[v] == d;
                    assert(prefix[v] == d);
                } else {
                    assert(d == prefix.last());
                    assert(prefix[prefix.len() - 1] == d);
                }
            }
            if prefix.contains(d) && cleanup_eligible(all_shots, videos, keep, today, d) {
                let v = choose|v: int| 0 <= v < prefix.len() && prefix[v] == d;
                if v < prefix.len() - 1 {
                    assert(p[v] == d);
                    assert(p.contains(d));
                    assert(rest.contains(d));
                    let u = choose|u: int| 0 <= u < rest.len() && rest[u] == d;
                    assert(whole[u] == d);
                } else {
                    assert(whole[whole.len() - 1] == d);
                }
            }
        }
    }
}

impl DirManager {
    /// The retention sweep: among the dated shot directories, excluding
    /// today's, those ranked `keep_count` or lower from the most recent are
    /// selected for deletion — each only if a non-empty video artifact for
    /// its date exists. Directories without such a video survive.
    ///
    /// Returns the dates to delete, in enumeration order; the caller removes
    /// each directory and its newly empty ancestors, stopping at the root.
    pub fn cleanup_old_shot_dirs(
        shot_dates: &Vec<Date>,
        videos: &Vec<(Date, u64)>,
        keep_count: u32,
        today: &Date,
    ) -> (r: Vec<Date>)
        ensures
            r@ == cleanup_selection(shot_dates@, shot_dates@, videos@, keep_count, *today),
            forall|d: Date|
                r@.contains(d) <==> (shot_dates@.contains(d) && cleanup_eligible(
                    shot_dates@,
                    videos@,
                    keep_count,
                    *today,
                    d,
                )),
    {
        let mut r: Vec<Date> = Vec::new();
        let mut i: usize = 0;
        proof {
            assert(shot_dates@.take(0) =~= Seq::<Date>::empty());
        }
        while i < shot_dates.len()
            invariant
                i <= shot_dates@.len(),
                r@ == cleanup_selection(
                    shot_dates@,
                    shot_dates@.take(i as int),
                    videos@,
                    keep_count,
                    *today,
                ),
            decreases shot_dates@.len() - i,
        {
            proof {
                assert(shot_dates@.take(i + 1).drop_last() =~= shot_dates@.take(i as int));
                assert(shot_dates@.take(i + 1).last() == shot_dates@[i as int]);
            }
            let d = shot_dates[i];
            if !(d == *today) {
                let rank = count_newer(shot_dates, today, &d);
                if rank as u64 >= keep_count as u64 && find_nonempty_video(videos, &d) {
                    r.push(d);
                }
            }
            i += 1;
        }
        proof {
            assert(shot_dates@.take(shot_dates@.len() as int) =~= shot_dates@);
            lemma_cleanup_membership(shot_dates@, shot_dates@, videos@, keep_count, *today);
            assert forall|d: Date|
                r@.contains(d) <==> (shot_dates@.contains(d) && cleanup_eligible(
                    shot_dates@,
                    videos@,
                    keep_count,
                    *today,
                    d,
                )) by {
                assert(r@.contains(d) == cleanup_selection(
                    shot_dates@,
                    shot_dates@,
                    videos@,
                    keep_count,
                    *today,
                ).contains(d));
            }
        }
        r
    }
}

} // verus!
