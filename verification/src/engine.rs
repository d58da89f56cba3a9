//! The object engine: the state machine for folders, files and their
//! versions.
//!
//! All metadata lives in the three store tables and all version bytes in
//! the blob directory; `FsView` is the spec-level image of the four maps,
//! and every operation's contract says how it moves that image. The
//! well-formedness predicate `wf` ties the maps together: identifiers are
//! unique and within the allocation counter, every file's versions 1..=N
//! exist, and every version row belongs to exactly one live file.

use vstd::prelude::*;
use crate::blobstore::{
    blob_file_name,
    blob_name_of,
    blob_name_ok,
    blobs_of,
    BlobDir,
    mint_blob_id,
};
use crate::kvstore::{
    store_fs,
    store_seq,
    store_ver,
    Store,
    txn_fs,
    txn_open,
    txn_seq,
    txn_ver,
};
use crate::normalize::{nfkd, nfkd_of, trim, trim_of, utf8_bytes, utf8_of};
use crate::perms::{perm_bits_of, UnixPermissions};
use crate::records::{
    decode_fs_value,
    decode_ver_value,
    encode_fs_value,
    encode_ver_value,
    fs_id_of,
    fs_latest_of,
    fs_name_of,
    fs_type_of,
    fs_value_bytes,
    fs_value_wf,
    FsRecordValue,
    is_readable_obj_type,
    is_readable_type,
    obj_type_of,
    ObjectType,
    OBJ_TYPE_FILE,
    OBJ_TYPE_FOLDER,
    UNKNOWN_SIZE,
    ver_blob_of,
    ver_key_bytes,
    ver_length_of,
    ver_value_bytes,
    ver_value_wf,
    VersionRecordValue,
    vkey_id_of,
    vkey_ver_of,
};
use crate::time64::Time64;
use crate::wire::{be8_of, lex_le, lex_lt, u64_from_be, u64_to_be};

verus! {

/// Largest number of bytes one download reply may carry.
pub const MAX_READ_SIZE: u64 = 8 * 1024 * 1024;

/// The errors an operation can surface. Every store or file failure and
/// every corruption found on read comes out as `Internal`; the others name
/// the caller-side fault exactly.
#[derive(Clone, Copy, PartialEq, Eq, Structural, Debug)]
pub enum FsError {
    /// The target path has no components.
    EmptyPath,
    /// The leaf name is empty once trimmed.
    EmptyName,
    /// A continuation token that is not 16 bytes, or one whose staging
    /// blob is gone: never issued, or already consumed by a finalized
    /// upload.
    InvalidContinuation,
    /// An intermediate component does not exist.
    NoSuchParentPath,
    /// An intermediate component exists but is not a folder.
    NonFolderInPath,
    /// Creating under a name that is already taken.
    AlreadyExists,
    /// The leaf does not exist.
    NoSuchFile,
    /// The object holds no readable bytes.
    NotReadable,
    /// A supplied version does not match the newest one.
    NotLatestVersion,
    /// A download offset past the known end of the version.
    OffsetBeyondEof,
    /// Refusing to delete a folder that still has children.
    FolderNotEmpty,
    /// A store, file or corruption failure.
    Internal,
}

/// The attribute set a listing reports for one entry: the object's type
/// and its five timestamps, each absent when unknown.
#[derive(Clone, Copy, PartialEq, Eq, Structural, Debug)]
pub struct FsAttributes {
    pub otype: Option<ObjectType>,
    pub create_time: Option<Time64>,
    pub modify_time: Option<Time64>,
    pub access_time: Option<Time64>,
    pub change_time: Option<Time64>,
    pub delete_time: Option<Time64>,
}

/// One listing entry: the display name the object was created with, and
/// its attributes when they were asked for.
#[derive(Clone, PartialEq, Eq, Debug)]
pub struct ListEntry {
    pub relative_name: Vec<u8>,
    pub attrs: Option<FsAttributes>,
}

/// One download reply: the bytes read and whether another window
/// remains.
#[derive(Clone, PartialEq, Eq, Debug)]
pub struct DownloadOutcome {
    pub data: Vec<u8>,
    pub more: bool,
}

/// The spec-level image of the engine's whole state: the three table maps
/// and the blob directory map.
pub ghost struct FsView {
    pub fs: Map<Seq<u8>, Seq<u8>>,
    pub seqt: Map<Seq<char>, u64>,
    pub ver: Map<Seq<u8>, Seq<u8>>,
    pub blobs: Map<Seq<u8>, Seq<u8>>,
}

/// The character-sequence views of a path's components.
pub open spec fn comps_of(path: Seq<String>) -> Seq<Seq<char>> {
    path.map_values(|s: String| s@)
}

/// The name of the one allocation counter in the `seq` table.
pub open spec fn counter_key() -> Seq<char> {
    "fs"@
}

/// The allocation counter's value, taking an absent row as zero.
pub open spec fn counter_of(v: FsView) -> u64 {
    if v.seqt.contains_key(counter_key()) {
        v.seqt[counter_key()]
    } else {
        0
    }
}

/// The `fs` key of the child of `parent` named by `comp`: the parent's
/// identifier bytes, then the UTF-8 of the component's NFKD form.
pub open spec fn child_key(parent: u64, comp: Seq<char>) -> Seq<u8> {
    be8_of(parent) + utf8_of(nfkd_of(comp))
}

/// How walking the folder tree along `path` from `parent` ends.
pub enum Resolution {
    /// Every component was a folder; this is the last one's identifier.
    Found(u64),
    /// Some component does not exist.
    Missing,
    /// Some component exists but is not a folder.
    NotFolder,
    /// Some component's record bytes are shorter than a header.
    Damaged,
}

/// Walks the folder tree: each component must name an existing folder
/// under the identifier so far.
pub open spec fn resolve(fs: Map<Seq<u8>, Seq<u8>>, path: Seq<Seq<char>>, parent: u64)
    -> Resolution
    decreases path.len(),
{
    if path.len() == 0 {
        Resolution::Found(parent)
    } else {
        let k = child_key(parent, path[0]);
        if !fs.contains_key(k) {
            Resolution::Missing
        } else if !fs_value_wf(fs[k]) {
            Resolution::Damaged
        } else if fs_type_of(fs[k]) != OBJ_TYPE_FOLDER {
            Resolution::NotFolder
        } else {
            resolve(fs, path.skip(1), fs_id_of(fs[k]))
        }
    }
}

/// Every `fs` row is shaped right: a non-empty name after the parent
/// bytes, a decodable value, an identifier in 1..=counter, and a type the
/// engine writes, with a folder's latest version 0 and a file's at least
/// 1.
pub open spec fn fs_row_ok(v: FsView, k: Seq<u8>) -> bool {
    &&& k.len() > 8
    &&& fs_value_wf(v.fs[k])
    &&& 1 <= fs_id_of(v.fs[k])
    &&& fs_id_of(v.fs[k]) <= counter_of(v)
    &&& (fs_type_of(v.fs[k]) == OBJ_TYPE_FILE || fs_type_of(v.fs[k]) == OBJ_TYPE_FOLDER)
    &&& (fs_type_of(v.fs[k]) == OBJ_TYPE_FILE ==> fs_latest_of(v.fs[k]) >= 1)
    &&& (fs_type_of(v.fs[k]) == OBJ_TYPE_FOLDER ==> fs_latest_of(v.fs[k]) == 0)
}

/// A file's version rows 1..=latest all exist.
pub open spec fn file_versions_ok(v: FsView, k: Seq<u8>) -> bool {
    fs_type_of(v.fs[k]) == OBJ_TYPE_FILE ==> forall|n: u64|
        1 <= n <= fs_latest_of(v.fs[k]) ==> v.ver.contains_key(
            #[trigger] ver_key_bytes(fs_id_of(v.fs[k]), n),
        )
}

/// Every `ver` row is shaped right and belongs to a live file whose
/// latest version covers it.
pub open spec fn ver_row_ok(v: FsView, vk: Seq<u8>) -> bool {
    &&& vk.len() == 16
    &&& ver_value_wf(v.ver[vk])
    &&& blob_name_ok(ver_blob_of(v.ver[vk]))
    &&& exists|k: Seq<u8>|
        #[trigger] v.fs.contains_key(k) && fs_id_of(v.fs[k]) == vkey_id_of(vk) && fs_type_of(
            v.fs[k],
        ) == OBJ_TYPE_FILE && 1 <= vkey_ver_of(vk) <= fs_latest_of(v.fs[k])
}

/// A `ver` row's blob file is in the directory and, when the recorded
/// length is known, holds at least that many bytes.
pub open spec fn ver_blob_covered(v: FsView, vk: Seq<u8>) -> bool {
    &&& v.blobs.contains_key(ver_blob_of(v.ver[vk]))
    &&& ver_length_of(v.ver[vk]) != UNKNOWN_SIZE ==> v.blobs[ver_blob_of(v.ver[vk])].len()
        >= ver_length_of(v.ver[vk])
}

/// Well-formedness of the whole image: the identifier and version rules
/// over the three tables, and every version row backed by a blob file
/// that no other file's rows share.
pub open spec fn wf(v: FsView) -> bool {
    &&& counter_of(v) < u64::MAX
    &&& forall|k: Seq<u8>| #[trigger] v.fs.contains_key(k) ==> fs_row_ok(v, k)
    &&& forall|k1: Seq<u8>, k2: Seq<u8>|
        #[trigger] v.fs.contains_key(k1) && #[trigger] v.fs.contains_key(k2) && k1 != k2
            ==> fs_id_of(v.fs[k1]) != fs_id_of(v.fs[k2])
    &&& forall|k: Seq<u8>| #[trigger] v.fs.contains_key(k) ==> file_versions_ok(v, k)
    &&& forall|vk: Seq<u8>| #[trigger] v.ver.contains_key(vk) ==> ver_row_ok(v, vk)
    &&& forall|vk: Seq<u8>| #[trigger] v.ver.contains_key(vk) ==> ver_blob_covered(v, vk)
    &&& forall|vk1: Seq<u8>, vk2: Seq<u8>|
        #[trigger] v.ver.contains_key(vk1) && #[trigger] v.ver.contains_key(vk2) && ver_blob_of(
            v.ver[vk1],
        ) == ver_blob_of(v.ver[vk2]) ==> vkey_id_of(vk1) == vkey_id_of(vk2)
}

/// The empty image: what a fresh engine starts from.
pub open spec fn view_empty(v: FsView) -> bool {
    &&& v.fs == Map::<Seq<u8>, Seq<u8>>::empty()
    &&& v.seqt == Map::<Seq<char>, u64>::empty()
    &&& v.ver == Map::<Seq<u8>, Seq<u8>>::empty()
    &&& v.blobs == Map::<Seq<u8>, Seq<u8>>::empty()
}

/// The empty image is well-formed.
pub proof fn lemma_wf_empty(v: FsView)
    requires
        view_empty(v),
    ensures
        wf(v),
{
    assert(!v.seqt.contains_key(counter_key()));
}

/// The versioned-filesystem engine: the store and the blob directory.
pub struct Engine {
    store: Store,
    blobs: BlobDir,
}

impl Engine {
    /// The spec-level image of this engine's state.
    pub closed spec fn state(self) -> FsView {
        FsView {
            fs: store_fs(self.store),
            seqt: store_seq(self.store),
            ver: store_ver(self.store),
            blobs: blobs_of(self.blobs),
        }
    }

    /// Between calls no transaction is open and the image is
    /// well-formed.
    pub closed spec fn inv(self) -> bool {
        &&& !txn_open(self.store)
        &&& wf(self.state())
    }

    /// A live engine's image is well-formed: the bridge from the
    /// operations' contracts, which maintain `inv`, to the laws, whose
    /// premises speak of `wf`.
    pub proof fn lemma_state_well_formed(&self)
        requires
            self.inv(),
        ensures
            wf(self.state()),
    {
    }

    /// Opens the database file and the blob directory, dropping whatever
    /// either held before: a brand-new empty, well-formed state.
    pub fn create_fresh(db_path: &str, blob_dir: &str) -> (r: Result<Engine, FsError>)
        ensures
            r matches Ok(e) ==> e.inv() && view_empty(e.state()),
    {
        let mut store = match Store::open(db_path) {
            Ok(s) => s,
            Err(_) => return Err(FsError::Internal),
        };
        if store.begin_write().is_err() {
            return Err(FsError::Internal);
        }
        if store.txn_clear().is_err() {
            store.abort();
            return Err(FsError::Internal);
        }
        if store.commit().is_err() {
            return Err(FsError::Internal);
        }
        let blobs = match BlobDir::open_fresh(blob_dir) {
            Ok(b) => b,
            Err(_) => return Err(FsError::Internal),
        };
        let e = Engine { store, blobs };
        proof {
            assert(view_empty(e.state()));
            lemma_wf_empty(e.state());
        }
        Ok(e)
    }
}

/// Whether a byte string can name a blob file: non-empty, no path
/// separator, no NUL byte.
fn blob_name_check(n: &Vec<u8>) -> (r: bool)
    ensures
        r <==> blob_name_ok(n@),
{
    if n.len() == 0 {
        return false;
    }
    let mut i: usize = 0;
    while i < n.len()
        invariant
            0 <= i <= n.len(),
            n@.len() > 0,
            forall|j: int| 0 <= j < i ==> n@[j] != 47u8 && n@[j] != 0u8,
        decreases n.len() - i,
    {
        if n[i] == 47u8 || n[i] == 0u8 {
            return false;
        }
        i = i + 1;
    }
    true
}

impl Engine {
    /// Opens the database file and the blob directory, keeping whatever
    /// both hold: the three tables are created when missing, and every
    /// row of the store is checked against the engine's invariant —
    /// shape, identifier bounds and uniqueness, version coverage, and
    /// each version's blob file — before any operation may run on it. A
    /// store that fails any check is refused.
    #[verifier::loop_isolation(false)]
    pub fn open_existing(db_path: &str, blob_dir: &str) -> (r: Result<Engine, FsError>)
        ensures
            r matches Ok(e) ==> e.inv(),
    {
        let mut store = match Store::open(db_path) {
            Ok(s) => s,
            Err(_) => return Err(FsError::Internal),
        };
        if store.begin_write().is_err() {
            return Err(FsError::Internal);
        }
        if store.txn_touch_tables().is_err() {
            store.abort();
            return Err(FsError::Internal);
        }
        let cnum: u64 = match store.txn_seq_get("fs") {
            Ok(Some(x)) => x,
            Ok(None) => 0,
            Err(_) => {
                store.abort();
                return Err(FsError::Internal);
            },
        };
        if cnum == u64::MAX {
            store.abort();
            return Err(FsError::Internal);
        }
        if store.commit().is_err() {
            return Err(FsError::Internal);
        }
        let blobs = match BlobDir::open_keep(blob_dir) {
            Ok(b) => b,
            Err(_) => return Err(FsError::Internal),
        };
        let ghost v = FsView {
            fs: store_fs(store),
            seqt: store_seq(store),
            ver: store_ver(store),
            blobs: blobs_of(blobs),
        };
        proof {
            assert(counter_of(v) == cnum);
        }
        let frows = match store.fs_all() {
            Ok(r) => r,
            Err(_) => return Err(FsError::Internal),
        };
        let vrows = match store.ver_all() {
            Ok(r) => r,
            Err(_) => return Err(FsError::Internal),
        };
        // every fs row: shape, identifier in 1..=counter, type and
        // version rules
        let mut fids: Vec<u64> = Vec::new();
        let mut ftypes: Vec<u8> = Vec::new();
        let mut flats: Vec<u64> = Vec::new();
        let mut i: usize = 0;
        while i < frows.len()
            invariant
                0 <= i <= frows.len(),
                fids@.len() == i,
                ftypes@.len() == i,
                flats@.len() == i,
                forall|j: int| 0 <= j < i ==> fs_row_ok(v, #[trigger] frows@[j].0@),
                forall|j: int|
                    0 <= j < i ==> (#[trigger] fids@[j]) == fs_id_of(v.fs[frows@[j].0@])
                        && ftypes@[j] == fs_type_of(v.fs[frows@[j].0@]) && flats@[j]
                        == fs_latest_of(v.fs[frows@[j].0@]),
            decreases frows.len() - i,
        {
            if frows[i].0.len() <= 8 {
                return Err(FsError::Internal);
            }
            let d = match decode_fs_value(&frows[i].1) {
                Some(d) => d,
                None => {
                    return Err(FsError::Internal);
                },
            };
            let fr = d.0;
            if fr.id < 1 || fr.id > cnum {
                return Err(FsError::Internal);
            }
            if fr.otype != OBJ_TYPE_FILE && fr.otype != OBJ_TYPE_FOLDER {
                return Err(FsError::Internal);
            }
            if fr.otype == OBJ_TYPE_FILE && fr.latest_version < 1 {
                return Err(FsError::Internal);
            }
            if fr.otype == OBJ_TYPE_FOLDER && fr.latest_version != 0 {
                return Err(FsError::Internal);
            }
            proof {
                assert(v.fs.contains_key(frows@[i as int].0@));
                assert(frows@[i as int].1@ == v.fs[frows@[i as int].0@]);
                assert(fs_row_ok(v, frows@[i as int].0@));
            }
            fids.push(fr.id);
            ftypes.push(fr.otype);
            flats.push(fr.latest_version);
            i = i + 1;
        }
        // identifiers are pairwise distinct
        let mut a: usize = 0;
        while a < fids.len()
            invariant
                0 <= a <= fids.len(),
                forall|x: int, y: int| 0 <= x < y < a ==> fids@[x] != fids@[y],
            decreases fids.len() - a,
        {
            let mut b: usize = 0;
            while b < a
                invariant
                    0 <= b <= a,
                    forall|x: int| 0 <= x < b ==> fids@[x] != fids@[a as int],
                decreases a - b,
            {
                if fids[b] == fids[a] {
                    return Err(FsError::Internal);
                }
                b = b + 1;
            }
            a = a + 1;
        }
        // every file's versions 1..=latest have their rows
        let mut a2: usize = 0;
        while a2 < frows.len()
            invariant
                0 <= a2 <= frows.len(),
                forall|j: int| 0 <= j < a2 ==> file_versions_ok(v, #[trigger] frows@[j].0@),
            decreases frows.len() - a2,
        {
            proof {
                assert(fids@[a2 as int] == fs_id_of(v.fs[frows@[a2 as int].0@]));
            }
            if ftypes[a2] == OBJ_TYPE_FILE {
                let latest = flats[a2];
                if latest >= u64::MAX || latest > vrows.len() as u64 {
                    return Err(FsError::Internal);
                }
                let fid2 = fids[a2];
                let mut m: u64 = 1;
                while m <= latest
                    invariant
                        1 <= m <= latest + 1,
                        forall|mm: u64|
                            1 <= mm < m ==> v.ver.contains_key(#[trigger] ver_key_bytes(fid2, mm)),
                    decreases latest - m + 1,
                {
                    let vkb = crate::records::VersionRecordKey {
                        file_id: fid2,
                        version: m,
                    }.to_bytes();
                    match store.ver_get(&vkb) {
                        Ok(Some(_)) => {},
                        _ => {
                            return Err(FsError::Internal);
                        },
                    }
                    m = m + 1;
                }
                proof {
                    assert(fid2 == fs_id_of(v.fs[frows@[a2 as int].0@]));
                    assert(latest == fs_latest_of(v.fs[frows@[a2 as int].0@]));
                    assert(file_versions_ok(v, frows@[a2 as int].0@));
                }
            } else {
                proof {
                    assert(fs_type_of(v.fs[frows@[a2 as int].0@]) != OBJ_TYPE_FILE);
                    assert(file_versions_ok(v, frows@[a2 as int].0@));
                }
            }
            a2 = a2 + 1;
        }
        // every version row: shape, a live owning file, and a blob file
        // holding at least the recorded length
        let mut vnames: Vec<Vec<u8>> = Vec::new();
        let mut vids: Vec<u64> = Vec::new();
        let mut t2: usize = 0;
        while t2 < vrows.len()
            invariant
                0 <= t2 <= vrows.len(),
                vnames@.len() == t2,
                vids@.len() == t2,
                forall|u: int|
                    0 <= u < t2 ==> ver_row_ok(v, #[trigger] vrows@[u].0@) && ver_blob_covered(
                        v,
                        vrows@[u].0@,
                    ),
                forall|u: int|
                    0 <= u < t2 ==> (#[trigger] vnames@[u]@) == ver_blob_of(v.ver[vrows@[u].0@])
                        && vids@[u] == vkey_id_of(vrows@[u].0@),
            decreases vrows.len() - t2,
        {
            if vrows[t2].0.len() != 16 {
                return Err(FsError::Internal);
            }
            let vd = match decode_ver_value(&vrows[t2].1) {
                Some(d) => d,
                None => {
                    return Err(FsError::Internal);
                },
            };
            let (vrec2, bname) = vd;
            if !blob_name_check(&bname) {
                return Err(FsError::Internal);
            }
            let vid = u64_from_be(&vrows[t2].0, 0);
            let vver = u64_from_be(&vrows[t2].0, 8);
            let mut w: usize = 0;
            let mut found: bool = false;
            while w < frows.len()
                invariant
                    0 <= w <= frows.len(),
                    found ==> exists|k: Seq<u8>|
                        #[trigger] v.fs.contains_key(k) && fs_id_of(v.fs[k]) == vid && fs_type_of(
                            v.fs[k],
                        ) == OBJ_TYPE_FILE && 1 <= vver <= fs_latest_of(v.fs[k]),
                decreases frows.len() - w,
            {
                proof {
                    assert(fids@[w as int] == fs_id_of(v.fs[frows@[w as int].0@]));
                }
                if !found && fids[w] == vid && ftypes[w] == OBJ_TYPE_FILE && 1u64 <= vver && vver
                    <= flats[w] {
                    proof {
                        assert(v.fs.contains_key(frows@[w as int].0@) && fs_id_of(
                            v.fs[frows@[w as int].0@],
                        ) == vid && fs_type_of(v.fs[frows@[w as int].0@]) == OBJ_TYPE_FILE && 1
                            <= vver <= fs_latest_of(v.fs[frows@[w as int].0@]));
                    }
                    found = true;
                }
                w = w + 1;
            }
            if !found {
                return Err(FsError::Internal);
            }
            let c = match blobs.read_all(&bname) {
                Ok(c) => c,
                Err(_) => {
                    return Err(FsError::Internal);
                },
            };
            if vrec2.length != UNKNOWN_SIZE && (c.len() as u64) < vrec2.length {
                return Err(FsError::Internal);
            }
            proof {
                assert(v.ver.contains_key(vrows@[t2 as int].0@));
                assert(vrows@[t2 as int].1@ == v.ver[vrows@[t2 as int].0@]);
                assert(vid == vkey_id_of(vrows@[t2 as int].0@));
                assert(vver == vkey_ver_of(vrows@[t2 as int].0@));
                assert(ver_row_ok(v, vrows@[t2 as int].0@));
                assert(ver_blob_covered(v, vrows@[t2 as int].0@));
            }
            vnames.push(bname);
            vids.push(vid);
            t2 = t2 + 1;
        }
        // two rows naming one blob file belong to one file
        let mut x: usize = 0;
        while x < vnames.len()
            invariant
                0 <= x <= vnames.len(),
                vnames@.len() == vids@.len(),
                forall|p: int, q: int|
                    0 <= p < q < x && (#[trigger] vnames@[p]@) == (#[trigger] vnames@[q]@)
                        ==> vids@[p] == vids@[q],
            decreases vnames.len() - x,
        {
            let mut y: usize = 0;
            while y < x
                invariant
                    0 <= y <= x,
                    forall|p: int|
                        0 <= p < y && (#[trigger] vnames@[p]@) == vnames@[x as int]@ ==> vids@[p]
                            == vids@[x as int],
                decreases x - y,
            {
                if bytes_eq(&vnames[y], &vnames[x]) {
                    if vids[y] != vids[x] {
                        return Err(FsError::Internal);
                    }
                }
                y = y + 1;
            }
            x = x + 1;
        }
        proof {
            assert forall|k: Seq<u8>| #[trigger] v.fs.contains_key(k) implies fs_row_ok(v, k) by {
                let j = choose|j: int| 0 <= j < frows@.len() && frows@[j].0@ == k;
                assert(fs_row_ok(v, frows@[j].0@));
            }
            assert forall|k1: Seq<u8>, k2: Seq<u8>|
                #[trigger] v.fs.contains_key(k1) && #[trigger] v.fs.contains_key(k2) && k1 != k2
                implies fs_id_of(v.fs[k1]) != fs_id_of(v.fs[k2]) by {
                let x1 = choose|j: int| 0 <= j < frows@.len() && frows@[j].0@ == k1;
                let x2 = choose|j: int| 0 <= j < frows@.len() && frows@[j].0@ == k2;
                assert(x1 != x2);
                assert(fids@[x1] == fs_id_of(v.fs[k1]) && fids@[x2] == fs_id_of(v.fs[k2]));
                if x1 < x2 {
                    assert(fids@[x1] != fids@[x2]);
                } else {
                    assert(fids@[x2] != fids@[x1]);
                }
            }
            assert forall|k: Seq<u8>| #[trigger] v.fs.contains_key(k) implies file_versions_ok(
                v,
                k,
            ) by {
                let j = choose|j: int| 0 <= j < frows@.len() && frows@[j].0@ == k;
                assert(file_versions_ok(v, frows@[j].0@));
            }
            assert forall|vk: Seq<u8>| #[trigger] v.ver.contains_key(vk) implies ver_row_ok(
                v,
                vk,
            ) && ver_blob_covered(v, vk) by {
                let u = choose|u: int| 0 <= u < vrows@.len() && vrows@[u].0@ == vk;
                assert(ver_row_ok(v, vrows@[u].0@) && ver_blob_covered(v, vrows@[u].0@));
            }
            assert forall|vk1: Seq<u8>, vk2: Seq<u8>|
                #[trigger] v.ver.contains_key(vk1) && #[trigger] v.ver.contains_key(vk2)
                    && ver_blob_of(v.ver[vk1]) == ver_blob_of(v.ver[vk2]) implies vkey_id_of(vk1)
                == vkey_id_of(vk2) by {
                let u1 = choose|u: int| 0 <= u < vrows@.len() && vrows@[u].0@ == vk1;
                let u2 = choose|u: int| 0 <= u < vrows@.len() && vrows@[u].0@ == vk2;
                if u1 != u2 {
                    assert(vnames@[u1]@ == ver_blob_of(v.ver[vk1]));
                    assert(vnames@[u2]@ == ver_blob_of(v.ver[vk2]));
                    assert(vids@[u1] == vkey_id_of(vk1) && vids@[u2] == vkey_id_of(vk2));
                    if u1 < u2 {
                        assert(vids@[u1] == vids@[u2]);
                    } else {
                        assert(vids@[u2] == vids@[u1]);
                    }
                }
            }
            assert(wf(v));
        }
        let e = Engine { store, blobs };
        proof {
            assert(e.state() == v);
        }
        Ok(e)
    }
}

/// A blank header whose times are all unknown.
pub open spec fn blank_record() -> FsRecordValue {
    FsRecordValue {
        id: 0,
        create_time: Time64(0),
        modify_time: Time64(0),
        access_time: Time64(0),
        change_time: Time64(0),
        delete_time: Time64(0),
        otype: OBJ_TYPE_FILE,
        latest_version: 0,
    }
}

/// The header a new folder is written with: created now, other times
/// unknown, no versions.
pub open spec fn folder_record(nid: u64, now: Time64) -> FsRecordValue {
    FsRecordValue {
        id: nid,
        create_time: now,
        otype: OBJ_TYPE_FOLDER,
        latest_version: 0,
        ..blank_record()
    }
}

/// The caller-side fault a make-directory request carries against this
/// image, if any.
pub open spec fn mkdir_error(v: FsView, comps: Seq<Seq<char>>) -> Option<FsError> {
    if comps.len() == 0 {
        Some(FsError::EmptyPath)
    } else {
        match resolve(v.fs, comps.take(comps.len() - 1), 0) {
            Resolution::Missing => Some(FsError::NoSuchParentPath),
            Resolution::NotFolder => Some(FsError::NonFolderInPath),
            Resolution::Damaged => Some(FsError::Internal),
            Resolution::Found(p) => {
                let kn = utf8_of(nfkd_of(trim_of(comps[comps.len() - 1])));
                if kn.len() == 0 {
                    Some(FsError::EmptyName)
                } else if v.fs.contains_key(be8_of(p) + kn) {
                    Some(FsError::AlreadyExists)
                } else {
                    None
                }
            },
        }
    }
}

/// What a successful make-directory does: one new folder row under the
/// resolved parent, keyed by the trimmed leaf's normalized form, keeping
/// its display form; the allocation counter moves to the new identifier;
/// versions and blobs stand still.
pub open spec fn mkdir_effect(v0: FsView, v1: FsView, comps: Seq<Seq<char>>, now: Time64) -> bool {
    &&& mkdir_error(v0, comps) is None
    &&& match resolve(v0.fs, comps.take(comps.len() - 1), 0) {
        Resolution::Found(p) => {
            let leaf = comps[comps.len() - 1];
            let key = be8_of(p) + utf8_of(nfkd_of(trim_of(leaf)));
            let nid = (counter_of(v0) + 1) as u64;
            &&& v1.fs == v0.fs.insert(
                key,
                fs_value_bytes(folder_record(nid, now), utf8_of(trim_of(leaf))),
            )
            &&& v1.seqt == v0.seqt.insert(counter_key(), nid)
            &&& v1.ver == v0.ver
            &&& v1.blobs == v0.blobs
        },
        _ => false,
    }
}

/// A new row with a fresh identifier keeps the image well-formed, as
/// long as the row is a folder or a one-version file whose single
/// version row comes with it.
proof fn lemma_wf_insert_fresh_folder(
    v0: FsView,
    v1: FsView,
    key: Seq<u8>,
    rec: FsRecordValue,
    disp: Seq<u8>,
)
    requires
        wf(v0),
        !v0.fs.contains_key(key),
        key.len() > 8,
        rec.id == counter_of(v0) + 1,
        rec.id < u64::MAX,
        rec.otype == OBJ_TYPE_FOLDER,
        rec.latest_version == 0,
        v1.fs == v0.fs.insert(key, fs_value_bytes(rec, disp)),
        v1.seqt == v0.seqt.insert(counter_key(), rec.id),
        v1.ver == v0.ver,
        v1.blobs == v0.blobs,
    ensures
        wf(v1),
{
    assert forall|vk: Seq<u8>| #[trigger] v1.ver.contains_key(vk) implies ver_blob_covered(
        v1,
        vk,
    ) by {
        assert(ver_blob_covered(v0, vk));
    }
    assert forall|vk1: Seq<u8>, vk2: Seq<u8>|
        #[trigger] v1.ver.contains_key(vk1) && #[trigger] v1.ver.contains_key(vk2) && ver_blob_of(
            v1.ver[vk1],
        ) == ver_blob_of(v1.ver[vk2]) implies vkey_id_of(vk1) == vkey_id_of(vk2) by {
        assert(v0.ver.contains_key(vk1) && v0.ver.contains_key(vk2));
    }
    crate::records::lemma_fs_value_accessors(rec, disp);
    assert(counter_of(v1) == rec.id);
    assert forall|k: Seq<u8>| #[trigger] v1.fs.contains_key(k) implies fs_row_ok(v1, k) by {
        if k == key {
            assert(fs_value_bytes(rec, disp).len() >= 64);
        } else {
            assert(v0.fs.contains_key(k));
            assert(fs_row_ok(v0, k));
        }
    }
    assert forall|k1: Seq<u8>, k2: Seq<u8>|
        #[trigger] v1.fs.contains_key(k1) && #[trigger] v1.fs.contains_key(k2) && k1 != k2
        implies fs_id_of(v1.fs[k1]) != fs_id_of(v1.fs[k2]) by {
        if k1 == key {
            assert(fs_row_ok(v0, k2));
        } else if k2 == key {
            assert(fs_row_ok(v0, k1));
        }
    }
    assert forall|k: Seq<u8>| #[trigger] v1.fs.contains_key(k) implies file_versions_ok(v1, k) by {
        if k != key {
            assert(file_versions_ok(v0, k));
            assert(v1.fs[k] == v0.fs[k]);
        }
    }
    assert forall|vk: Seq<u8>| #[trigger] v1.ver.contains_key(vk) implies ver_row_ok(v1, vk) by {
        assert(ver_row_ok(v0, vk));
        let w = choose|k: Seq<u8>|
            #[trigger] v0.fs.contains_key(k) && fs_id_of(v0.fs[k]) == vkey_id_of(vk)
                && fs_type_of(v0.fs[k]) == OBJ_TYPE_FILE && 1 <= vkey_ver_of(vk) <= fs_latest_of(
                v0.fs[k],
            );
        assert(w != key);
        assert(v1.fs.contains_key(w) && v1.fs[w] == v0.fs[w]);
    }
}

impl Engine {
    /// Walks the first `upto` components of `path` from the root,
    /// requiring each to name a folder, and gives the last one's
    /// identifier.
    fn descend_path(&self, path: &Vec<String>, upto: usize) -> (r: Result<u64, FsError>)
        requires
            upto <= path.len(),
        ensures
            match resolve(self.state().fs, comps_of(path@).take(upto as int), 0) {
                Resolution::Found(p) => r == Ok::<u64, FsError>(p) || r == Err::<u64, FsError>(
                    FsError::Internal,
                ),
                Resolution::Missing => r == Err::<u64, FsError>(FsError::NoSuchParentPath) || r
                    == Err::<u64, FsError>(FsError::Internal),
                Resolution::NotFolder => r == Err::<u64, FsError>(FsError::NonFolderInPath) || r
                    == Err::<u64, FsError>(FsError::Internal),
                Resolution::Damaged => r == Err::<u64, FsError>(FsError::Internal),
            },
    {
        let ghost fs = self.state().fs;
        let ghost whole = comps_of(path@).take(upto as int);
        let mut parent: u64 = 0;
        let mut i: usize = 0;
        while i < upto
            invariant
                0 <= i <= upto <= path.len(),
                whole == comps_of(path@).take(upto as int),
                fs == self.state().fs,
                resolve(fs, whole, 0) == resolve(
                    fs,
                    comps_of(path@).subrange(i as int, upto as int),
                    parent,
                ),
            decreases upto - i,
        {
            let ghost rest = comps_of(path@).subrange(i as int, upto as int);
            proof {
                assert(rest.len() > 0);
                assert(rest[0] == path@[i as int]@);
            }
            let key = make_key(parent, path[i].as_str());
            proof {
                assert(key@ == child_key(parent, rest[0]));
            }
            let got = match self.store.fs_get(&key) {
                Ok(g) => g,
                Err(_) => return Err(FsError::Internal),
            };
            let value = match got {
                Some(v) => v,
                None => {
                    proof {
                        assert(resolve(fs, rest, parent) is Missing);
                    }
                    return Err(FsError::NoSuchParentPath);
                },
            };
            let decoded = match decode_fs_value(&value) {
                Some(d) => d,
                None => {
                    proof {
                        assert(resolve(fs, rest, parent) is Damaged);
                    }
                    return Err(FsError::Internal);
                },
            };
            if decoded.0.otype != OBJ_TYPE_FOLDER {
                proof {
                    assert(resolve(fs, rest, parent) is NotFolder);
                }
                return Err(FsError::NonFolderInPath);
            }
            proof {
                assert(rest.skip(1) =~= comps_of(path@).subrange(i as int + 1, upto as int));
                assert(resolve(fs, rest, parent) == resolve(
                    fs,
                    rest.skip(1),
                    fs_id_of(fs[key@]),
                ));
            }
            parent = decoded.0.id;
            i = i + 1;
        }
        proof {
            assert(comps_of(path@).subrange(upto as int, upto as int) =~= Seq::<
                Seq<char>,
            >::empty());
        }
        Ok(parent)
    }

    /// Creates a folder at `path`: the parents must already be folders
    /// and the trimmed leaf name must be new. On success exactly the new
    /// row and the moved counter are committed; on any error nothing is.
    pub fn make_directory(&mut self, path: &Vec<String>, now: Time64) -> (r: Result<(), FsError>)
        requires
            old(self).inv(),
        ensures
            final(self).inv(),
            r matches Ok(()) ==> mkdir_effect(
                old(self).state(),
                final(self).state(),
                comps_of(path@),
                now,
            ),
            r matches Err(e) ==> (final(self).state() == old(self).state() || (e
                == FsError::Internal && mkdir_effect(
                old(self).state(),
                final(self).state(),
                comps_of(path@),
                now,
            ))) && (e == FsError::Internal || mkdir_error(old(self).state(), comps_of(path@))
                == Some(e)),
            mkdir_error(old(self).state(), comps_of(path@)) matches Some(e) ==> r == Err::<
                (),
                FsError,
            >(e) || r == Err::<(), FsError>(FsError::Internal),
            mkdir_error(old(self).state(), comps_of(path@)) is None ==> r matches Ok(())
                || r == Err::<(), FsError>(FsError::Internal),
    {
        let ghost v0 = self.state();
        let ghost comps = comps_of(path@);
        if path.len() == 0 {
            return Err(FsError::EmptyPath);
        }
        let p = match self.descend_path(path, path.len() - 1) {
            Ok(p) => p,
            Err(e) => {
                proof {
                    lemma_wf_grow_blobs(v0, self.state());
                }
                return Err(e);
            },
        };
        proof {
            assert(comps.take(comps.len() - 1) == comps_of(path@).take(path@.len() - 1));
        }
        let leaf = trim(path[path.len() - 1].as_str());
        let display = utf8_bytes(leaf.as_str());
        let key = make_key(p, leaf.as_str());
        proof {
            assert(comps[comps.len() - 1] == path@[path@.len() - 1]@);
            assert(key@ == be8_of(p) + utf8_of(nfkd_of(trim_of(comps[comps.len() - 1]))));
        }
        if key.len() <= 8 {
            proof {
                assert(key@.len() == 8 + utf8_of(nfkd_of(trim_of(comps[comps.len() - 1]))).len());
                lemma_wf_grow_blobs(v0, self.state());
            }
            return Err(FsError::EmptyName);
        }
        if self.store.begin_write().is_err() {
            proof {
                lemma_wf_grow_blobs(v0, self.state());
            }
            return Err(FsError::Internal);
        }
        let existing = match self.store.txn_fs_get(&key) {
            Ok(o) => o,
            Err(_) => {
                self.store.abort();
                return Err(FsError::Internal);
            },
        };
        if existing.is_some() {
            self.store.abort();
            return Err(FsError::AlreadyExists);
        }
        let last = match self.store.txn_seq_get("fs") {
            Ok(Some(x)) => x,
            Ok(None) => 0,
            Err(_) => {
                self.store.abort();
                return Err(FsError::Internal);
            },
        };
        if last >= u64::MAX - 1 {
            self.store.abort();
            return Err(FsError::Internal);
        }
        let nid = last + 1;
        if self.store.txn_seq_insert("fs", nid).is_err() {
            self.store.abort();
            return Err(FsError::Internal);
        }
        let rec = FsRecordValue {
            id: nid,
            create_time: now,
            modify_time: Time64(0),
            access_time: Time64(0),
            change_time: Time64(0),
            delete_time: Time64(0),
            otype: OBJ_TYPE_FOLDER,
            latest_version: 0,
        };
        let value = encode_fs_value(&rec, &display);
        if self.store.txn_fs_insert(&key, &value).is_err() {
            self.store.abort();
            return Err(FsError::Internal);
        }
        let ghost spre = self.store;
        if self.store.commit().is_err() {
            proof {
                if !crate::kvstore::committed_unchanged(spre, self.store) {
                    // a failed commit may still have applied the whole
                    // transaction at once: then the full effect holds
                    assert(rec == folder_record(nid, now));
                    assert(last == counter_of(v0));
                    lemma_wf_insert_fresh_folder(
                        v0,
                        self.state(),
                        key@,
                        rec,
                        display@,
                    );
                    assert(mkdir_effect(v0, self.state(), comps, now));
                }
            }
            return Err(FsError::Internal);
        }
        proof {
            assert(rec == folder_record(nid, now));
            assert(last == counter_of(v0));
            lemma_wf_insert_fresh_folder(
                v0,
                self.state(),
                key@,
                rec,
                display@,
            );
            assert(mkdir_effect(v0, self.state(), comps, now));
        }
        Ok(())
    }
}

/// A known timestamp, or nothing for the zero word.
pub open spec fn known_of(t: u64) -> Option<Time64> {
    if t == 0 {
        None
    } else {
        Some(Time64(t))
    }
}

/// The attributes read off a raw `fs` row value.
pub open spec fn attrs_of(b: Seq<u8>) -> FsAttributes {
    FsAttributes {
        otype: obj_type_of(fs_type_of(b)),
        create_time: known_of(crate::records::fs_create_of(b)),
        modify_time: known_of(crate::records::fs_modify_of(b)),
        access_time: known_of(crate::records::fs_access_of(b)),
        change_time: known_of(crate::records::fs_change_of(b)),
        delete_time: known_of(crate::records::fs_delete_of(b)),
    }
}

/// The listing `entries` names, in order, exactly the rows whose keys
/// `ks` are the children of folder `p`: ascending by key, one entry per
/// child, each carrying the stored display name and, when asked for, the
/// row's attributes.
pub open spec fn list_matches(
    fs: Map<Seq<u8>, Seq<u8>>,
    p: u64,
    ks: Seq<Seq<u8>>,
    entries: Seq<ListEntry>,
    with_attrs: bool,
) -> bool {
    &&& ks.len() == entries.len()
    &&& forall|i: int, j: int| 0 <= i < j < ks.len() ==> lex_lt(ks[i], ks[j])
    &&& forall|i: int|
        0 <= i < ks.len() ==> fs.contains_key(#[trigger] ks[i]) && ks[i].len() > 8 && ks[i].take(
            8,
        ) == be8_of(p)
    &&& forall|k: Seq<u8>|
        #[trigger] fs.contains_key(k) && k.len() > 8 && k.take(8) == be8_of(p) ==> exists|i: int|
            0 <= i < ks.len() && ks[i] == k
    &&& forall|i: int|
        0 <= i < entries.len() ==> (#[trigger] entries[i].relative_name@) == fs_name_of(fs[ks[i]])
            && entries[i].attrs == (if with_attrs {
            Some(attrs_of(fs[ks[i]]))
        } else {
            Option::<FsAttributes>::None
        })
}

/// Some key sequence ties the entries to folder `p`'s children.
pub open spec fn list_ok(
    fs: Map<Seq<u8>, Seq<u8>>,
    p: u64,
    entries: Seq<ListEntry>,
    with_attrs: bool,
) -> bool {
    exists|ks: Seq<Seq<u8>>| #[trigger] list_matches(fs, p, ks, entries, with_attrs)
}

/// A resolved identifier never exceeds the allocation counter.
pub proof fn lemma_resolve_bound(v: FsView, comps: Seq<Seq<char>>, parent: u64)
    requires
        wf(v),
        parent <= counter_of(v),
    ensures
        resolve(v.fs, comps, parent) matches Resolution::Found(p) ==> p <= counter_of(v),
    decreases comps.len(),
{
    if comps.len() > 0 {
        let k = child_key(parent, comps[0]);
        if v.fs.contains_key(k) && fs_value_wf(v.fs[k]) && fs_type_of(v.fs[k])
            == OBJ_TYPE_FOLDER {
            assert(fs_row_ok(v, k));
            lemma_resolve_bound(v, comps.skip(1), fs_id_of(v.fs[k]));
        }
    }
}

/// Compares two byte strings for equality.
pub fn bytes_eq(a: &Vec<u8>, b: &Vec<u8>) -> (r: bool)
    ensures
        r <==> a@ == b@,
{
    if a.len() != b.len() {
        proof {
            assert(a@.len() != b@.len());
        }
        return false;
    }
    let mut i: usize = 0;
    while i < a.len()
        invariant
            0 <= i <= a.len(),
            a@.len() == b@.len(),
            forall|j: int| 0 <= j < i ==> a@[j] == b@[j],
        decreases a.len() - i,
    {
        if a[i] != b[i] {
            return false;
        }
        i = i + 1;
    }
    proof {
        assert(a@ =~= b@);
    }
    true
}

/// Copies a byte string.
pub fn copy_bytes(a: &Vec<u8>) -> (r: Vec<u8>)
    ensures
        r@ == a@,
{
    let mut r: Vec<u8> = Vec::new();
    let mut i: usize = 0;
    while i < a.len()
        invariant
            0 <= i <= a.len(),
            r@ == a@.subrange(0, i as int),
        decreases a.len() - i,
    {
        r.push(a[i]);
        proof {
            assert(a@.subrange(0, i as int) + seq![a@[i as int]] =~= a@.subrange(0, i as int + 1));
        }
        i = i + 1;
    }
    proof {
        assert(a@.subrange(0, a@.len() as int) =~= a@);
    }
    r
}

impl Engine {
    /// Lists the direct children of the folder named by `path` (the whole
    /// path, leaf included, must be folders; the empty path names the
    /// root). The reply holds exactly one entry per child, ascending by
    /// normalized-name key, each with its stored display name and, when
    /// `with_attrs` is set, the row's attributes.
    pub fn list(&self, path: &Vec<String>, with_attrs: bool) -> (r: Result<Vec<ListEntry>, FsError>)
        requires
            self.inv(),
        ensures
            match resolve(self.state().fs, comps_of(path@), 0) {
                Resolution::Found(p) => r matches Ok(_) || r == Err::<Vec<ListEntry>, FsError>(
                    FsError::Internal,
                ),
                Resolution::Missing => r == Err::<Vec<ListEntry>, FsError>(
                    FsError::NoSuchParentPath,
                ) || r == Err::<Vec<ListEntry>, FsError>(FsError::Internal),
                Resolution::NotFolder => r == Err::<Vec<ListEntry>, FsError>(
                    FsError::NonFolderInPath,
                ) || r == Err::<Vec<ListEntry>, FsError>(FsError::Internal),
                Resolution::Damaged => r == Err::<Vec<ListEntry>, FsError>(FsError::Internal),
            },
            r matches Ok(entries) ==> match resolve(self.state().fs, comps_of(path@), 0) {
                Resolution::Found(p) => list_ok(self.state().fs, p, entries@, with_attrs),
                _ => false,
            },
    {
        let ghost v = self.state();
        let p = match self.descend_path(path, path.len()) {
            Ok(p) => p,
            Err(e) => {
                proof {
                    assert(comps_of(path@).take(path@.len() as int) =~= comps_of(path@));
                }
                return Err(e);
            },
        };
        proof {
            assert(comps_of(path@).take(path@.len() as int) =~= comps_of(path@));
            lemma_resolve_bound(v, comps_of(path@), 0);
        }
        let lo = u64_to_be(p);
        let hi = u64_to_be(p + 1);
        let rows = match self.store.fs_range(&lo, &hi) {
            Ok(rows) => rows,
            Err(_) => return Err(FsError::Internal),
        };
        proof {
            assert forall|i: int| 0 <= i < rows.len() implies (#[trigger] rows[i].0@).len() > 8
                && rows[i].0@.take(8) == be8_of(p) by {
                assert(v.fs.contains_key(rows[i].0@));
                assert(fs_row_ok(v, rows[i].0@));
                crate::wire::lemma_child_window(p, rows[i].0@);
            }
        }
        let mut entries: Vec<ListEntry> = Vec::new();
        let mut i: usize = 0;
        while i < rows.len()
            invariant
                self.inv(),
                v == self.state(),
                0 <= i <= rows.len(),
                entries@.len() == i,
                forall|j: int|
                    0 <= j < rows@.len() ==> #[trigger] v.fs.contains_key(rows@[j].0@)
                        && rows@[j].1@ == v.fs[rows@[j].0@],
                forall|j: int|
                    0 <= j < i ==> (#[trigger] entries@[j].relative_name@) == fs_name_of(
                        v.fs[rows@[j].0@],
                    ),
                forall|j: int|
                    0 <= j < i ==> (#[trigger] entries@[j].attrs) == (if with_attrs {
                        Some(attrs_of(v.fs[rows@[j].0@]))
                    } else {
                        Option::<FsAttributes>::None
                    }),
            decreases rows.len() - i,
        {
            let value = &rows[i].1;
            let decoded = match decode_fs_value(value) {
                Some(d) => d,
                None => return Err(FsError::Internal),
            };
            let (rec, name) = decoded;
            let attrs = if with_attrs {
                Some(
                    FsAttributes {
                        otype: rec.obj_type(),
                        create_time: rec.create_time.known(),
                        modify_time: rec.modify_time.known(),
                        access_time: rec.access_time.known(),
                        change_time: rec.change_time.known(),
                        delete_time: rec.delete_time.known(),
                    },
                )
            } else {
                None
            };
            proof {
                assert(v.fs.contains_key(rows@[i as int].0@) && rows@[i as int].1@ == v.fs[rows@[i
                    as int].0@]);
                let b = v.fs[rows@[i as int].0@];
                assert(rows@[i as int].1@ == b);
                assert(rec.create_time == Time64(crate::records::fs_create_of(b)));
                assert(rec.modify_time == Time64(crate::records::fs_modify_of(b)));
                assert(rec.access_time == Time64(crate::records::fs_access_of(b)));
                assert(rec.change_time == Time64(crate::records::fs_change_of(b)));
                assert(rec.delete_time == Time64(crate::records::fs_delete_of(b)));
                if with_attrs {
                    assert(attrs == Some(attrs_of(b)));
                }
            }
            let ghost pre = entries@;
            let ghost name_v = name@;
            entries.push(ListEntry { relative_name: name, attrs });
            proof {
                assert(entries@.len() == pre.len() + 1);
                assert(entries@[pre.len() as int].relative_name@ == name_v);
                assert(entries@[pre.len() as int].attrs == attrs);
                assert forall|j: int| 0 <= j < pre.len() implies entries@[j] == pre[j] && (
                #[trigger] entries@[j].relative_name@) == pre[j].relative_name@ && entries@[j].attrs
                    == pre[j].attrs by {}
                assert(entries@[i as int].relative_name@ == fs_name_of(v.fs[rows@[i as int].0@]));
                if with_attrs {
                    assert(entries@[i as int].attrs == Some(attrs_of(v.fs[rows@[i as int].0@])));
                } else {
                    assert(entries@[i as int].attrs == Option::<FsAttributes>::None);
                }
            }
            i = i + 1;
        }
        proof {
            let ks = Seq::new(rows@.len() as nat, |j: int| rows@[j].0@);
            assert forall|a: int, bb: int| 0 <= a < bb < ks.len() implies lex_lt(
                ks[a],
                ks[bb],
            ) by {
                assert(lex_lt(rows@[a].0@, rows@[bb].0@));
            }
            assert forall|j: int| 0 <= j < ks.len() implies #[trigger] v.fs.contains_key(ks[j])
                && ks[j].len() > 8 && ks[j].take(8) == be8_of(p) by {
                assert(v.fs.contains_key(rows@[j].0@));
                assert(rows@[j].0@.len() > 8 && rows@[j].0@.take(8) == be8_of(p));
            }
            assert forall|k: Seq<u8>|
                #[trigger] v.fs.contains_key(k) && k.len() > 8 && k.take(8) == be8_of(p)
                implies exists|j: int| 0 <= j < ks.len() && ks[j] == k by {
                crate::wire::lemma_child_window(p, k);
                assert(lex_le(be8_of(p), k) && lex_lt(k, be8_of((p + 1) as u64)));
                assert(lex_le(lo@, k) && lex_lt(k, hi@));
                let j = choose|j: int| 0 <= j < rows@.len() && rows@[j].0@ == k;
                assert(ks[j] == k);
            }
            assert forall|j: int| 0 <= j < entries@.len() implies (
            #[trigger] entries@[j].relative_name@) == fs_name_of(v.fs[ks[j]]) && entries@[j].attrs
                == (if with_attrs {
                Some(attrs_of(v.fs[ks[j]]))
            } else {
                Option::<FsAttributes>::None
            }) by {
                assert(ks[j] == rows@[j].0@);
            }
            assert(list_matches(v.fs, p, ks, entries@, with_attrs));
            assert(list_matches(self.state().fs, p, ks, entries@, with_attrs));
            assert(list_ok(self.state().fs, p, entries@, with_attrs));
            assert(resolve(self.state().fs, comps_of(path@), 0) == Resolution::Found(p));
        }
        Ok(entries)
    }
}

/// The caller-side fault a download request carries against this image,
/// if any. Wire order: path shape, then the walk to the parent, then the
/// leaf, its type, the version row, and last the offset.
pub open spec fn download_error(
    v: FsView,
    comps: Seq<Seq<char>>,
    version: Option<u64>,
    offset: u64,
) -> Option<FsError> {
    if comps.len() == 0 {
        Some(FsError::EmptyPath)
    } else {
        match resolve(v.fs, comps.take(comps.len() - 1), 0) {
            Resolution::Missing => Some(FsError::NoSuchParentPath),
            Resolution::NotFolder => Some(FsError::NonFolderInPath),
            Resolution::Damaged => Some(FsError::Internal),
            Resolution::Found(p) => {
                let k = child_key(p, comps[comps.len() - 1]);
                if !v.fs.contains_key(k) {
                    Some(FsError::NoSuchFile)
                } else if !fs_value_wf(v.fs[k]) {
                    Some(FsError::Internal)
                } else if !is_readable_type(fs_type_of(v.fs[k])) {
                    Some(FsError::NotReadable)
                } else {
                    let rv = match version {
                        Some(n) => n,
                        None => fs_latest_of(v.fs[k]),
                    };
                    let vk = ver_key_bytes(fs_id_of(v.fs[k]), rv);
                    if !v.ver.contains_key(vk) {
                        Some(FsError::Internal)
                    } else if !ver_value_wf(v.ver[vk]) {
                        Some(FsError::Internal)
                    } else {
                        let len0 = ver_length_of(v.ver[vk]);
                        if len0 != UNKNOWN_SIZE && offset > len0 {
                            Some(FsError::OffsetBeyondEof)
                        } else {
                            None
                        }
                    }
                }
            },
        }
    }
}

/// The blob file name the requested version points at. Meaningful only
/// when `download_error` gives nothing.
pub open spec fn download_blob(v: FsView, comps: Seq<Seq<char>>, version: Option<u64>) -> Seq<
    u8,
> {
    match resolve(v.fs, comps.take(comps.len() - 1), 0) {
        Resolution::Found(p) => {
            let k = child_key(p, comps[comps.len() - 1]);
            let rv = match version {
                Some(n) => n,
                None => fs_latest_of(v.fs[k]),
            };
            ver_blob_of(v.ver[ver_key_bytes(fs_id_of(v.fs[k]), rv)])
        },
        _ => Seq::<u8>::empty(),
    }
}

/// What a download hands back when nothing is at fault: the window of
/// the version's blob from `offset`, clipped to the version's recorded
/// length when known and to the per-reply cap; `more` says the reply
/// was clipped by that cap. Meaningful only when `download_error` gives
/// nothing and the blob is present.
pub open spec fn download_expect(
    v: FsView,
    comps: Seq<Seq<char>>,
    version: Option<u64>,
    offset: u64,
    length: u64,
) -> (Seq<u8>, bool) {
    match resolve(v.fs, comps.take(comps.len() - 1), 0) {
        Resolution::Found(p) => {
            let k = child_key(p, comps[comps.len() - 1]);
            let rv = match version {
                Some(n) => n,
                None => fs_latest_of(v.fs[k]),
            };
            let row = v.ver[ver_key_bytes(fs_id_of(v.fs[k]), rv)];
            let len0 = ver_length_of(row);
            let eff: int = if len0 != UNKNOWN_SIZE && offset + length > len0 {
                len0 - offset
            } else {
                length as int
            };
            let alloc: int = if eff < MAX_READ_SIZE as int {
                eff
            } else {
                MAX_READ_SIZE as int
            };
            let c = v.blobs[ver_blob_of(row)];
            let start: int = if offset <= c.len() {
                offset as int
            } else {
                c.len() as int
            };
            let stop: int = if start + alloc <= c.len() {
                start + alloc
            } else {
                c.len() as int
            };
            (c.subrange(start, stop), stop - start == MAX_READ_SIZE as int)
        },
        _ => (Seq::<u8>::empty(), false),
    }
}

impl Engine {
    /// Reads up to `length` bytes of one version of the file at `path`,
    /// starting at `offset`; the newest version when none is named. The
    /// reply is clipped to the version's recorded length and to the
    /// per-reply cap, and says whether more remains.
    pub fn download(
        &self,
        path: &Vec<String>,
        version: Option<u64>,
        offset: u64,
        length: u64,
    ) -> (r: Result<DownloadOutcome, FsError>)
        requires
            self.inv(),
        ensures
            r matches Err(e) ==> e == FsError::Internal || download_error(
                self.state(),
                comps_of(path@),
                version,
                offset,
            ) == Some(e),
            download_error(self.state(), comps_of(path@), version, offset) matches Some(e) ==> r
                == Err::<DownloadOutcome, FsError>(e) || r == Err::<DownloadOutcome, FsError>(
                FsError::Internal,
            ),
            download_error(self.state(), comps_of(path@), version, offset) is None ==> r matches
                Ok(_) || r == Err::<DownloadOutcome, FsError>(FsError::Internal),
            r matches Ok(out) ==> download_error(self.state(), comps_of(path@), version, offset)
                is None && self.state().blobs.contains_key(
                download_blob(self.state(), comps_of(path@), version),
            ) && out.data@ == download_expect(
                self.state(),
                comps_of(path@),
                version,
                offset,
                length,
            ).0 && out.more == download_expect(
                self.state(),
                comps_of(path@),
                version,
                offset,
                length,
            ).1,
    {
        let ghost v = self.state();
        let ghost comps = comps_of(path@);
        if path.len() == 0 {
            return Err(FsError::EmptyPath);
        }
        let p = match self.descend_path(path, path.len() - 1) {
            Ok(p) => p,
            Err(e) => {
                return Err(e);
            },
        };
        proof {
            assert(comps.take(comps.len() - 1) == comps_of(path@).take(path@.len() - 1));
        }
        let key = make_key(p, path[path.len() - 1].as_str());
        proof {
            assert(comps[comps.len() - 1] == path@[path@.len() - 1]@);
        }
        let got = match self.store.fs_get(&key) {
            Ok(g) => g,
            Err(_) => return Err(FsError::Internal),
        };
        let value = match got {
            Some(b) => b,
            None => return Err(FsError::NoSuchFile),
        };
        let decoded = match decode_fs_value(&value) {
            Some(d) => d,
            None => return Err(FsError::Internal),
        };
        let (rec, _display) = decoded;
        if !is_readable_obj_type(rec.otype) {
            return Err(FsError::NotReadable);
        }
        let rv = match version {
            Some(n) => n,
            None => rec.latest_version,
        };
        let vkey = crate::records::VersionRecordKey { file_id: rec.id, version: rv }.to_bytes();
        let vgot = match self.store.ver_get(&vkey) {
            Ok(g) => g,
            Err(_) => return Err(FsError::Internal),
        };
        let vvalue = match vgot {
            Some(b) => b,
            None => return Err(FsError::Internal),
        };
        let vdecoded = match decode_ver_value(&vvalue) {
            Some(d) => d,
            None => return Err(FsError::Internal),
        };
        let (vrec, blob_name) = vdecoded;
        let known = vrec.length != UNKNOWN_SIZE;
        if known && offset > vrec.length {
            return Err(FsError::OffsetBeyondEof);
        }
        let mut eff: u64 = length;
        if known && length > vrec.length - offset {
            eff = vrec.length - offset;
        }
        let alloc: u64 = if eff < MAX_READ_SIZE {
            eff
        } else {
            MAX_READ_SIZE
        };
        proof {
            assert(self.state().ver.contains_key(vkey@));
            assert(ver_row_ok(self.state(), vkey@));
            assert(blob_name_ok(blob_name@));
        }
        let contents = match self.blobs.read_all(&blob_name) {
            Ok(c) => c,
            Err(_) => return Err(FsError::Internal),
        };
        let clen: u64 = contents.len() as u64;
        let start64: u64 = if offset <= clen {
            offset
        } else {
            clen
        };
        let stop64: u64 = if clen - start64 >= alloc {
            start64 + alloc
        } else {
            clen
        };
        let start: usize = start64 as usize;
        let stop: usize = stop64 as usize;
        let mut data: Vec<u8> = Vec::new();
        let mut j: usize = start;
        while j < stop
            invariant
                start <= j <= stop <= contents.len(),
                data@ == contents@.subrange(start as int, j as int),
            decreases stop - j,
        {
            data.push(contents[j]);
            proof {
                assert(contents@.subrange(start as int, j as int) + seq![contents@[j as int]]
                    =~= contents@.subrange(start as int, j as int + 1));
            }
            j = j + 1;
        }
        let more = stop64 - start64 == MAX_READ_SIZE;
        proof {
            let expect = download_expect(v, comps, version, offset, length);
            assert(download_blob(v, comps, version) == blob_name@);
            assert(contents@ == v.blobs[blob_name@]);
            assert(data@ == expect.0);
            assert(more == expect.1);
        }
        Ok(DownloadOutcome { data, more })
    }
}

/// The `ver` keys of file `fid` for version numbers in `lo ..= hi`.
pub open spec fn vkeys_between(fid: u64, lo: int, hi: int) -> Set<Seq<u8>> {
    Set::new(
        |vk: Seq<u8>| exists|m: u64| lo <= m <= hi && vk == #[trigger] ver_key_bytes(fid, m),
    )
}

/// The blob file names held by file `fid`'s version rows `lo ..= hi`.
pub open spec fn blob_names_between(
    ver: Map<Seq<u8>, Seq<u8>>,
    fid: u64,
    lo: int,
    hi: int,
) -> Set<Seq<u8>> {
    Set::new(
        |nb: Seq<u8>| exists|m: u64|
            lo <= m <= hi && ver.contains_key(#[trigger] ver_key_bytes(fid, m)) && nb
                == ver_blob_of(ver[ver_key_bytes(fid, m)]),
    )
}

/// Removing one more version row narrows the remaining window by one.
proof fn lemma_vkeys_step(ver0: Map<Seq<u8>, Seq<u8>>, fid: u64, j: u64, hi: int)
    requires
        1 <= j <= hi,
    ensures
        ver0.remove_keys(vkeys_between(fid, j + 1, hi)).remove(ver_key_bytes(fid, j))
            == ver0.remove_keys(vkeys_between(fid, j as int, hi)),
{
    let a = ver0.remove_keys(vkeys_between(fid, j + 1, hi)).remove(ver_key_bytes(fid, j));
    let b = ver0.remove_keys(vkeys_between(fid, j as int, hi));
    assert forall|vk: Seq<u8>| a.contains_key(vk) == b.contains_key(vk) by {
        if vk == ver_key_bytes(fid, j) {
            assert(vkeys_between(fid, j as int, hi).contains(vk));
            assert(!b.contains_key(vk));
        } else {
            if vkeys_between(fid, j as int, hi).contains(vk) {
                let m = choose|m: u64|
                    j <= m <= hi && vk == #[trigger] ver_key_bytes(fid, m);
                crate::records::lemma_ver_key_accessors(fid, m);
                crate::records::lemma_ver_key_accessors(fid, j);
                assert(m != j);
                assert(vkeys_between(fid, j + 1, hi).contains(vk));
            }
            if vkeys_between(fid, j + 1, hi).contains(vk) {
                assert(vkeys_between(fid, j as int, hi).contains(vk));
            }
        }
    }
    assert(a =~= b);
}

/// The caller-side fault a delete request carries against this image, if
/// any.
pub open spec fn delete_error(v: FsView, comps: Seq<Seq<char>>, version: Option<u64>) -> Option<
    FsError,
> {
    if comps.len() == 0 {
        Some(FsError::EmptyPath)
    } else {
        match resolve(v.fs, comps.take(comps.len() - 1), 0) {
            Resolution::Missing => Some(FsError::NoSuchParentPath),
            Resolution::NotFolder => Some(FsError::NonFolderInPath),
            Resolution::Damaged => Some(FsError::Internal),
            Resolution::Found(p) => {
                let k = child_key(p, comps[comps.len() - 1]);
                if !v.fs.contains_key(k) {
                    Some(FsError::NoSuchFile)
                } else if !fs_value_wf(v.fs[k]) {
                    Some(FsError::Internal)
                } else if version matches Some(n) && n != fs_latest_of(v.fs[k]) {
                    Some(FsError::NotLatestVersion)
                } else if fs_type_of(v.fs[k]) == OBJ_TYPE_FOLDER && has_children(
                    v.fs,
                    fs_id_of(v.fs[k]),
                ) {
                    Some(FsError::FolderNotEmpty)
                } else {
                    None
                }
            },
        }
    }
}

/// Whether any row names a child of the object with this identifier.
pub open spec fn has_children(fs: Map<Seq<u8>, Seq<u8>>, id: u64) -> bool {
    exists|k: Seq<u8>| #[trigger] fs.contains_key(k) && k.len() > 8 && k.take(8) == be8_of(id)
}

/// What a successful delete does to the three metadata maps: the leaf
/// row goes; for a file every version row 1..=latest goes with it; the
/// counter stands still.
pub open spec fn delete_meta_effect(
    v0: FsView,
    v1: FsView,
    comps: Seq<Seq<char>>,
) -> bool {
    match resolve(v0.fs, comps.take(comps.len() - 1), 0) {
        Resolution::Found(p) => {
            let k = child_key(p, comps[comps.len() - 1]);
            let b = v0.fs[k];
            &&& v1.fs == v0.fs.remove(k)
            &&& v1.seqt == v0.seqt
            &&& v1.ver == (if fs_type_of(b) == OBJ_TYPE_FOLDER {
                v0.ver
            } else {
                v0.ver.remove_keys(
                    vkeys_between(fs_id_of(b), 1, fs_latest_of(b) as int),
                )
            })
        },
        _ => false,
    }
}

/// What a successful delete does in all: the metadata effect, and every
/// blob file that the removed version rows named is gone.
pub open spec fn delete_effect(
    v0: FsView,
    v1: FsView,
    comps: Seq<Seq<char>>,
    version: Option<u64>,
) -> bool {
    &&& delete_error(v0, comps, version) is None
    &&& delete_meta_effect(v0, v1, comps)
    &&& match resolve(v0.fs, comps.take(comps.len() - 1), 0) {
        Resolution::Found(p) => {
            let b = v0.fs[child_key(p, comps[comps.len() - 1])];
            v1.blobs == (if fs_type_of(b) == OBJ_TYPE_FOLDER {
                v0.blobs
            } else {
                v0.blobs.remove_keys(
                    blob_names_between(v0.ver, fs_id_of(b), 1, fs_latest_of(b) as int),
                )
            })
        },
        _ => false,
    }
}

/// Well-formedness survives blob growth: with the three tables still,
/// no blob file disappears or shrinks, so every row stays covered.
proof fn lemma_wf_grow_blobs(a: FsView, b: FsView)
    requires
        wf(a),
        b.fs == a.fs,
        b.seqt == a.seqt,
        b.ver == a.ver,
        forall|nb: Seq<u8>|
            #[trigger] a.blobs.contains_key(nb) ==> b.blobs.contains_key(nb) && b.blobs[nb].len()
                >= a.blobs[nb].len(),
    ensures
        wf(b),
{
    assert(counter_of(b) == counter_of(a));
    assert forall|k: Seq<u8>| #[trigger] b.fs.contains_key(k) implies fs_row_ok(b, k) by {
        assert(fs_row_ok(a, k));
    }
    assert forall|k: Seq<u8>| #[trigger] b.fs.contains_key(k) implies file_versions_ok(b, k) by {
        assert(file_versions_ok(a, k));
    }
    assert forall|vk: Seq<u8>| #[trigger] b.ver.contains_key(vk) implies ver_row_ok(b, vk) by {
        assert(ver_row_ok(a, vk));
        let w = choose|k: Seq<u8>|
            #[trigger] a.fs.contains_key(k) && fs_id_of(a.fs[k]) == vkey_id_of(vk) && fs_type_of(
                a.fs[k],
            ) == OBJ_TYPE_FILE && 1 <= vkey_ver_of(vk) <= fs_latest_of(a.fs[k]);
        assert(b.fs.contains_key(w));
    }
    assert forall|vk: Seq<u8>| #[trigger] b.ver.contains_key(vk) implies ver_blob_covered(
        b,
        vk,
    ) by {
        assert(ver_blob_covered(a, vk));
        assert(a.blobs.contains_key(ver_blob_of(a.ver[vk])));
    }
    assert forall|vk1: Seq<u8>, vk2: Seq<u8>|
        #[trigger] b.ver.contains_key(vk1) && #[trigger] b.ver.contains_key(vk2) && ver_blob_of(
            b.ver[vk1],
        ) == ver_blob_of(b.ver[vk2]) implies vkey_id_of(vk1) == vkey_id_of(vk2) by {
        assert(a.ver.contains_key(vk1) && a.ver.contains_key(vk2));
    }
}

/// Appending bytes under one blob name, creating it when absent, only
/// grows the directory.
proof fn lemma_wf_append_blob(a: FsView, b: FsView, snm: Seq<u8>, tail: Seq<u8>)
    requires
        wf(a),
        b.fs == a.fs,
        b.seqt == a.seqt,
        b.ver == a.ver,
        b.blobs == a.blobs.insert(
            snm,
            crate::blobstore::blob_contents_or_empty(a.blobs, snm) + tail,
        ),
    ensures
        wf(b),
{
    assert forall|nb: Seq<u8>| #[trigger] a.blobs.contains_key(nb) implies b.blobs.contains_key(
        nb,
    ) && b.blobs[nb].len() >= a.blobs[nb].len() by {
        if nb == snm {
            assert(b.blobs[nb] == a.blobs[nb] + tail);
        }
    }
    lemma_wf_grow_blobs(a, b);
}

/// A failed blob append leaves the directory equal or grown under the
/// one name, so well-formedness survives it.
proof fn lemma_wf_partial_append(a: FsView, b: FsView, snm: Seq<u8>, data: Seq<u8>)
    requires
        wf(a),
        b.fs == a.fs,
        b.seqt == a.seqt,
        b.ver == a.ver,
        crate::blobstore::blob_partial_append(a.blobs, b.blobs, snm, data),
    ensures
        wf(b),
{
    if b.blobs == a.blobs {
        lemma_wf_grow_blobs(a, b);
    } else {
        let p = choose|p: int|
            0 <= p <= data.len() && b.blobs == a.blobs.insert(
                snm,
                crate::blobstore::blob_contents_or_empty(a.blobs, snm) + data.take(p),
            );
        lemma_wf_append_blob(a, b, snm, data.take(p));
    }
}

/// Renaming a blob file that no version row names onto a name the
/// directory does not hold keeps every row covered.
proof fn lemma_wf_rename_blob(a: FsView, b: FsView, snm: Seq<u8>, nm2: Seq<u8>, staged: Seq<u8>)
    requires
        wf(a),
        b.fs == a.fs,
        b.seqt == a.seqt,
        b.ver == a.ver,
        forall|vk: Seq<u8>| #[trigger] a.ver.contains_key(vk) ==> ver_blob_of(a.ver[vk]) != snm,
        !a.blobs.insert(snm, staged).contains_key(nm2),
        b.blobs == a.blobs.insert(snm, staged).remove(snm).insert(nm2, staged),
    ensures
        wf(b),
{
    assert(counter_of(b) == counter_of(a));
    assert forall|k: Seq<u8>| #[trigger] b.fs.contains_key(k) implies fs_row_ok(b, k) by {
        assert(fs_row_ok(a, k));
    }
    assert forall|k: Seq<u8>| #[trigger] b.fs.contains_key(k) implies file_versions_ok(b, k) by {
        assert(file_versions_ok(a, k));
    }
    assert forall|vk: Seq<u8>| #[trigger] b.ver.contains_key(vk) implies ver_row_ok(b, vk) by {
        assert(ver_row_ok(a, vk));
        let w = choose|k: Seq<u8>|
            #[trigger] a.fs.contains_key(k) && fs_id_of(a.fs[k]) == vkey_id_of(vk) && fs_type_of(
                a.fs[k],
            ) == OBJ_TYPE_FILE && 1 <= vkey_ver_of(vk) <= fs_latest_of(a.fs[k]);
        assert(b.fs.contains_key(w));
    }
    assert forall|vk: Seq<u8>| #[trigger] b.ver.contains_key(vk) implies ver_blob_covered(
        b,
        vk,
    ) by {
        assert(ver_blob_covered(a, vk));
        let nb = ver_blob_of(a.ver[vk]);
        assert(nb != snm);
        assert(a.blobs.contains_key(nb) && nb != nm2);
        assert(b.blobs[nb] == a.blobs[nb]);
    }
    assert forall|vk1: Seq<u8>, vk2: Seq<u8>|
        #[trigger] b.ver.contains_key(vk1) && #[trigger] b.ver.contains_key(vk2) && ver_blob_of(
            b.ver[vk1],
        ) == ver_blob_of(b.ver[vk2]) implies vkey_id_of(vk1) == vkey_id_of(vk2) by {
        assert(a.ver.contains_key(vk1) && a.ver.contains_key(vk2));
    }
}

/// Removing a blob file that no version row names keeps every row
/// covered.
proof fn lemma_wf_remove_blob(a: FsView, b: FsView, nb: Seq<u8>)
    requires
        wf(a),
        b.fs == a.fs,
        b.seqt == a.seqt,
        b.ver == a.ver,
        forall|vk: Seq<u8>| #[trigger] a.ver.contains_key(vk) ==> ver_blob_of(a.ver[vk]) != nb,
        b.blobs == a.blobs.remove(nb),
    ensures
        wf(b),
{
    assert forall|vk: Seq<u8>| #[trigger] a.ver.contains_key(vk) implies b.blobs.contains_key(
        ver_blob_of(a.ver[vk]),
    ) && b.blobs[ver_blob_of(a.ver[vk])] == a.blobs[ver_blob_of(a.ver[vk])] by {
        assert(ver_blob_covered(a, vk));
        assert(ver_blob_of(a.ver[vk]) != nb);
    }
    assert(counter_of(b) == counter_of(a));
    assert forall|k: Seq<u8>| #[trigger] b.fs.contains_key(k) implies fs_row_ok(b, k) by {
        assert(fs_row_ok(a, k));
    }
    assert forall|k: Seq<u8>| #[trigger] b.fs.contains_key(k) implies file_versions_ok(b, k) by {
        assert(file_versions_ok(a, k));
    }
    assert forall|vk: Seq<u8>| #[trigger] b.ver.contains_key(vk) implies ver_row_ok(b, vk) by {
        assert(ver_row_ok(a, vk));
        let w = choose|k: Seq<u8>|
            #[trigger] a.fs.contains_key(k) && fs_id_of(a.fs[k]) == vkey_id_of(vk) && fs_type_of(
                a.fs[k],
            ) == OBJ_TYPE_FILE && 1 <= vkey_ver_of(vk) <= fs_latest_of(a.fs[k]);
        assert(b.fs.contains_key(w));
    }
    assert forall|vk: Seq<u8>| #[trigger] b.ver.contains_key(vk) implies ver_blob_covered(
        b,
        vk,
    ) by {
        assert(ver_blob_covered(a, vk));
    }
    assert forall|vk1: Seq<u8>, vk2: Seq<u8>|
        #[trigger] b.ver.contains_key(vk1) && #[trigger] b.ver.contains_key(vk2) && ver_blob_of(
            b.ver[vk1],
        ) == ver_blob_of(b.ver[vk2]) implies vkey_id_of(vk1) == vkey_id_of(vk2) by {
        assert(a.ver.contains_key(vk1) && a.ver.contains_key(vk2));
    }
}

/// Removing a leaf row and its whole version window keeps the image
/// well-formed.
proof fn lemma_wf_delete(v0: FsView, v1: FsView, key: Seq<u8>)
    requires
        wf(v0),
        v0.fs.contains_key(key),
        v1.fs == v0.fs.remove(key),
        v1.seqt == v0.seqt,
        v1.ver == (if fs_type_of(v0.fs[key]) == OBJ_TYPE_FOLDER {
            v0.ver
        } else {
            v0.ver.remove_keys(
                vkeys_between(fs_id_of(v0.fs[key]), 1, fs_latest_of(v0.fs[key]) as int),
            )
        }),
        v1.blobs == v0.blobs,
    ensures
        wf(v1),
{
    assert forall|vk: Seq<u8>| #[trigger] v1.ver.contains_key(vk) implies ver_blob_covered(
        v1,
        vk,
    ) by {
        assert(v0.ver.contains_key(vk));
        assert(ver_blob_covered(v0, vk));
    }
    assert forall|vk1: Seq<u8>, vk2: Seq<u8>|
        #[trigger] v1.ver.contains_key(vk1) && #[trigger] v1.ver.contains_key(vk2) && ver_blob_of(
            v1.ver[vk1],
        ) == ver_blob_of(v1.ver[vk2]) implies vkey_id_of(vk1) == vkey_id_of(vk2) by {
        assert(v0.ver.contains_key(vk1) && v0.ver.contains_key(vk2));
    }
    let fid = fs_id_of(v0.fs[key]);
    let latest = fs_latest_of(v0.fs[key]);
    let folder = fs_type_of(v0.fs[key]) == OBJ_TYPE_FOLDER;
    assert(counter_of(v1) == counter_of(v0));
    assert forall|k: Seq<u8>| #[trigger] v1.fs.contains_key(k) implies fs_row_ok(v1, k) by {
        assert(fs_row_ok(v0, k));
    }
    assert forall|k: Seq<u8>| #[trigger] v1.fs.contains_key(k) implies file_versions_ok(
        v1,
        k,
    ) by {
        assert(file_versions_ok(v0, k));
        if fs_type_of(v1.fs[k]) == OBJ_TYPE_FILE {
            assert forall|n: u64| 1 <= n <= fs_latest_of(v1.fs[k]) implies v1.ver.contains_key(
                #[trigger] ver_key_bytes(fs_id_of(v1.fs[k]), n),
            ) by {
                assert(v0.ver.contains_key(ver_key_bytes(fs_id_of(v0.fs[k]), n)));
                if !folder {
                    assert(fs_id_of(v0.fs[k]) != fid);
                    if vkeys_between(fid, 1, latest as int).contains(
                        ver_key_bytes(fs_id_of(v0.fs[k]), n),
                    ) {
                        let m = choose|m: u64|
                            1 <= m <= latest && ver_key_bytes(fs_id_of(v0.fs[k]), n)
                                == #[trigger] ver_key_bytes(fid, m);
                        crate::records::lemma_ver_key_accessors(fs_id_of(v0.fs[k]), n);
                        crate::records::lemma_ver_key_accessors(fid, m);
                        assert(false);
                    }
                }
            }
        }
    }
    assert forall|vk: Seq<u8>| #[trigger] v1.ver.contains_key(vk) implies ver_row_ok(v1, vk) by {
        assert(v0.ver.contains_key(vk));
        assert(ver_row_ok(v0, vk));
        let w = choose|k: Seq<u8>|
            #[trigger] v0.fs.contains_key(k) && fs_id_of(v0.fs[k]) == vkey_id_of(vk)
                && fs_type_of(v0.fs[k]) == OBJ_TYPE_FILE && 1 <= vkey_ver_of(vk) <= fs_latest_of(
                v0.fs[k],
            );
        if w == key {
            assert(!folder);
            crate::records::lemma_ver_key_recon(vk);
            assert(vkeys_between(fid, 1, latest as int).contains(vk));
            assert(false);
        } else {
            assert(v1.fs.contains_key(w) && v1.fs[w] == v0.fs[w]);
        }
    }
}

impl Engine {
    /// Deletes the object at `path` outright. A supplied version must
    /// match the newest one; a folder must have no children. For a file,
    /// every version row and every blob file those rows named are
    /// removed; the metadata change commits first and as one step.
    #[verifier::rlimit(80)]
    pub fn delete(&mut self, path: &Vec<String>, version: Option<u64>) -> (r: Result<
        bool,
        FsError,
    >)
        requires
            old(self).inv(),
        ensures
            final(self).inv(),
            r matches Ok(shredded) ==> !shredded && delete_effect(
                old(self).state(),
                final(self).state(),
                comps_of(path@),
                version,
            ),
            r matches Err(e) ==> (final(self).state() == old(self).state() && (e
                == FsError::Internal || delete_error(old(self).state(), comps_of(path@), version)
                == Some(e))) || (e == FsError::Internal && delete_error(
                old(self).state(),
                comps_of(path@),
                version,
            ) is None && delete_meta_effect(old(self).state(), final(self).state(), comps_of(path@))
                && exists|s: Set<Seq<u8>>|
                final(self).state().blobs == old(self).state().blobs.remove_keys(s)),
            delete_error(old(self).state(), comps_of(path@), version) matches Some(e) ==> r
                == Err::<bool, FsError>(e) || r == Err::<bool, FsError>(FsError::Internal),
            delete_error(old(self).state(), comps_of(path@), version) is None ==> r matches Ok(_)
                || r == Err::<bool, FsError>(FsError::Internal),
    {
        let ghost v0 = self.state();
        let ghost comps = comps_of(path@);
        if path.len() == 0 {
            return Err(FsError::EmptyPath);
        }
        let p = match self.descend_path(path, path.len() - 1) {
            Ok(p) => p,
            Err(e) => {
                return Err(e);
            },
        };
        proof {
            assert(comps.take(comps.len() - 1) == comps_of(path@).take(path@.len() - 1));
        }
        let key = make_key(p, path[path.len() - 1].as_str());
        proof {
            assert(comps[comps.len() - 1] == path@[path@.len() - 1]@);
        }
        let got = match self.store.fs_get(&key) {
            Ok(g) => g,
            Err(_) => return Err(FsError::Internal),
        };
        let value = match got {
            Some(b) => b,
            None => return Err(FsError::NoSuchFile),
        };
        let decoded = match decode_fs_value(&value) {
            Some(d) => d,
            None => return Err(FsError::Internal),
        };
        let (rec, _display) = decoded;
        if let Some(n) = version {
            if n != rec.latest_version {
                return Err(FsError::NotLatestVersion);
            }
        }
        if rec.otype == OBJ_TYPE_FOLDER {
            proof {
                assert(fs_row_ok(v0, key@));
                lemma_resolve_bound(v0, comps.take(comps.len() - 1), 0);
            }
            let lo = u64_to_be(rec.id);
            let hi = u64_to_be(rec.id + 1);
            let rows = match self.store.fs_range(&lo, &hi) {
                Ok(rows) => rows,
                Err(_) => return Err(FsError::Internal),
            };
            if rows.len() > 0 {
                proof {
                    assert(v0.fs.contains_key(rows@[0].0@));
                    assert(fs_row_ok(v0, rows@[0].0@));
                    crate::wire::lemma_child_window(rec.id, rows@[0].0@);
                    assert(has_children(v0.fs, rec.id));
                }
                return Err(FsError::FolderNotEmpty);
            }
            proof {
                if has_children(v0.fs, rec.id) {
                    let k = choose|k: Seq<u8>|
                        #[trigger] v0.fs.contains_key(k) && k.len() > 8 && k.take(8) == be8_of(
                            rec.id,
                        );
                    crate::wire::lemma_child_window(rec.id, k);
                    assert(lex_le(lo@, k) && lex_lt(k, hi@));
                    assert(false);
                }
            }
            if self.store.begin_write().is_err() {
                return Err(FsError::Internal);
            }
            if self.store.txn_fs_remove(&key).is_err() {
                self.store.abort();
                return Err(FsError::Internal);
            }
            let ghost spre = self.store;
            if self.store.commit().is_err() {
                proof {
                    if !crate::kvstore::committed_unchanged(spre, self.store) {
                        // a failed commit may still have applied the
                        // whole transaction at once
                        lemma_wf_delete(v0, self.state(), key@);
                        assert(delete_error(v0, comps, version) is None);
                        assert(delete_meta_effect(v0, self.state(), comps));
                        let s = Set::<Seq<u8>>::empty();
                        assert(v0.blobs.remove_keys(s) =~= v0.blobs);
                        assert(blobs_of(self.blobs) == v0.blobs.remove_keys(s));
                    }
                }
                return Err(FsError::Internal);
            }
            proof {
                lemma_wf_delete(v0, self.state(), key@);
            }
            return Ok(false);
        }
        // a file: drop the row, its whole version window, then the blobs
        proof {
            assert(v0.fs.contains_key(key@));
            assert(fs_row_ok(v0, key@));
            assert(fs_type_of(v0.fs[key@]) == rec.otype);
            assert(delete_error(v0, comps, version) is None);
        }
        let fid = rec.id;
        let latest = rec.latest_version;
        if self.store.begin_write().is_err() {
            return Err(FsError::Internal);
        }
        if self.store.txn_fs_remove(&key).is_err() {
            self.store.abort();
            return Err(FsError::Internal);
        }
        let mut names: Vec<Vec<u8>> = Vec::new();
        let mut j: u64 = latest;
        proof {
            assert(txn_ver(self.store) =~= v0.ver.remove_keys(
                vkeys_between(fid, latest as int + 1, latest as int),
            ));
        }
        while j >= 1
            invariant
                0 <= j <= latest,
                txn_open(self.store),
                crate::kvstore::committed_unchanged(old(self).store, self.store),
                blobs_of(self.blobs) == v0.blobs,
                v0 == old(self).state(),
                wf(v0),
                v0.fs.contains_key(key@),
                fid == fs_id_of(v0.fs[key@]),
                latest == fs_latest_of(v0.fs[key@]),
                fs_type_of(v0.fs[key@]) == OBJ_TYPE_FILE,
                txn_fs(self.store) == v0.fs.remove(key@),
                txn_seq(self.store) == v0.seqt,
                txn_ver(self.store) == v0.ver.remove_keys(
                    vkeys_between(fid, j as int + 1, latest as int),
                ),
                names@.len() == latest - j,
                forall|t: int|
                    0 <= t < names@.len() ==> (#[trigger] names@[t]@) == ver_blob_of(
                        v0.ver[ver_key_bytes(fid, (latest - t) as u64)],
                    ) && blob_name_ok(names@[t]@),
            decreases j,
        {
            let vkey = crate::records::VersionRecordKey { file_id: fid, version: j }.to_bytes();
            proof {
                assert(file_versions_ok(v0, key@));
                assert(v0.ver.contains_key(ver_key_bytes(fid, j)));
                if vkeys_between(fid, j as int + 1, latest as int).contains(vkey@) {
                    let m = choose|m: u64|
                        j + 1 <= m <= latest && vkey@ == #[trigger] ver_key_bytes(fid, m);
                    crate::records::lemma_ver_key_accessors(fid, m);
                    crate::records::lemma_ver_key_accessors(fid, j);
                    assert(false);
                }
                assert(txn_ver(self.store).contains_key(vkey@));
                assert(txn_ver(self.store)[vkey@] == v0.ver[vkey@]);
            }
            let removed = match self.store.txn_ver_remove(&vkey) {
                Ok(o) => o,
                Err(_) => {
                    self.store.abort();
                    return Err(FsError::Internal);
                },
            };
            let row = match removed {
                Some(row) => row,
                None => {
                    self.store.abort();
                    return Err(FsError::Internal);
                },
            };
            let vdecoded = match decode_ver_value(&row) {
                Some(d) => d,
                None => {
                    self.store.abort();
                    return Err(FsError::Internal);
                },
            };
            proof {
                assert(v0.ver.contains_key(vkey@));
                assert(ver_row_ok(v0, vkey@));
                assert(blob_name_ok(ver_blob_of(v0.ver[vkey@])));
                lemma_vkeys_step(v0.ver, fid, j, latest as int);
            }
            let ghost names_pre = names@;
            names.push(vdecoded.1);
            proof {
                assert(names@[names_pre.len() as int]@ == ver_blob_of(v0.ver[vkey@]));
                assert forall|t: int| 0 <= t < names_pre.len() implies names@[t] == names_pre[t]
                    && (#[trigger] names@[t]@) == names_pre[t]@ by {}
            }
            j = j - 1;
        }
        proof {
            assert(txn_ver(self.store) == v0.ver.remove_keys(
                vkeys_between(fid, 1, latest as int),
            ));
        }
        let ghost spre = self.store;
        if self.store.commit().is_err() {
            proof {
                if !crate::kvstore::committed_unchanged(spre, self.store) {
                    // a failed commit may still have applied the whole
                    // transaction at once
                    lemma_wf_delete(v0, self.state(), key@);
                    assert(delete_meta_effect(v0, self.state(), comps));
                    let s = Set::<Seq<u8>>::empty();
                    assert(v0.blobs.remove_keys(s) =~= v0.blobs);
                    assert(blobs_of(self.blobs) == v0.blobs.remove_keys(s));
                }
            }
            return Err(FsError::Internal);
        }
        proof {
            lemma_wf_delete(v0, self.state(), key@);
            assert(self.state().fs == v0.fs.remove(key@));
            assert(self.state().seqt == v0.seqt);
            assert(self.state().ver == v0.ver.remove_keys(vkeys_between(fid, 1, latest as int)));
            assert(delete_meta_effect(v0, self.state(), comps));
        }
        let ghost target_fs = self.state().fs;
        let ghost target_seqt = self.state().seqt;
        let ghost target_ver = self.state().ver;
        let mut t: usize = 0;
        while t < names.len()
            invariant
                0 <= t <= names.len(),
                !txn_open(self.store),
                self.state().fs == target_fs,
                self.state().seqt == target_seqt,
                self.state().ver == target_ver,
                target_fs == v0.fs.remove(key@),
                target_seqt == v0.seqt,
                target_ver == v0.ver.remove_keys(vkeys_between(fid, 1, latest as int)),
                wf(self.state()),
                delete_meta_effect(v0, self.state(), comps),
                delete_error(v0, comps, version) is None,
                v0 == old(self).state(),
                wf(v0),
                v0.fs.contains_key(key@),
                fid == fs_id_of(v0.fs[key@]),
                latest == fs_latest_of(v0.fs[key@]),
                fs_type_of(v0.fs[key@]) == OBJ_TYPE_FILE,
                comps == comps_of(path@),
                names@.len() == latest,
                forall|u: int|
                    0 <= u < names@.len() ==> (#[trigger] names@[u]@) == ver_blob_of(
                        v0.ver[ver_key_bytes(fid, (latest - u) as u64)],
                    ) && blob_name_ok(names@[u]@),
                blobs_of(self.blobs) == v0.blobs.remove_keys(
                    Set::new(
                        |nb: Seq<u8>| exists|u: int| 0 <= u < t && nb == (#[trigger] names@[u]@),
                    ),
                ),
            decreases names.len() - t,
        {
            let ghost pre = blobs_of(self.blobs);
            if self.blobs.remove(&names[t]).is_err() {
                proof {
                    let ghost s0 = Set::new(
                        |nb: Seq<u8>| exists|u: int| 0 <= u < t && nb == (#[trigger] names@[u]@),
                    );
                    assert(blobs_of(self.blobs) == v0.blobs.remove_keys(s0));
                    assert(delete_error(v0, comps, version) is None);
                    assert(delete_meta_effect(v0, self.state(), comps));
                }
                return Err(FsError::Internal);
            }
            proof {
                // the removed name belongs only to the deleted file's
                // rows, so no surviving row names it
                let prev = FsView { fs: target_fs, seqt: target_seqt, ver: target_ver, blobs: pre };
                assert(wf(prev));
                let m = (latest - t) as u64;
                crate::records::lemma_ver_key_accessors(fid, m);
                assert(file_versions_ok(v0, key@));
                assert(v0.ver.contains_key(ver_key_bytes(fid, m)));
                assert(names@[t as int]@ == ver_blob_of(v0.ver[ver_key_bytes(fid, m)]));
                assert forall|vk: Seq<u8>| #[trigger] target_ver.contains_key(vk) implies
                    ver_blob_of(target_ver[vk]) != names@[t as int]@ by {
                    if ver_blob_of(target_ver[vk]) == names@[t as int]@ {
                        assert(v0.ver.contains_key(vk));
                        assert(target_ver[vk] == v0.ver[vk]);
                        assert(vkey_id_of(vk) == vkey_id_of(ver_key_bytes(fid, m)));
                        assert(vkey_id_of(vk) == fid);
                        assert(ver_row_ok(v0, vk));
                        let w = choose|k: Seq<u8>|
                            #[trigger] v0.fs.contains_key(k) && fs_id_of(v0.fs[k]) == vkey_id_of(
                                vk,
                            ) && fs_type_of(v0.fs[k]) == OBJ_TYPE_FILE && 1 <= vkey_ver_of(vk)
                                <= fs_latest_of(v0.fs[k]);
                        assert(w == key@);
                        crate::records::lemma_ver_key_recon(vk);
                        assert(vkeys_between(fid, 1, latest as int).contains(vk));
                        assert(false);
                    }
                }
                lemma_wf_remove_blob(prev, self.state(), names@[t as int]@);
                let s0 = Set::new(
                    |nb: Seq<u8>| exists|u: int| 0 <= u < t && nb == (#[trigger] names@[u]@),
                );
                let s1 = Set::new(
                    |nb: Seq<u8>| exists|u: int| 0 <= u < t + 1 && nb == (#[trigger] names@[u]@),
                );
                assert forall|nb: Seq<u8>|
                    v0.blobs.remove_keys(s0).remove(names@[t as int]@).contains_key(nb)
                        == v0.blobs.remove_keys(s1).contains_key(nb) by {
                    if nb == names@[t as int]@ {
                        assert(s1.contains(nb));
                    } else {
                        if s1.contains(nb) {
                            let u = choose|u: int| 0 <= u < t + 1 && nb == (#[trigger] names@[u]@);
                            assert(u < t);
                            assert(s0.contains(nb));
                        }
                        if s0.contains(nb) {
                            assert(s1.contains(nb));
                        }
                    }
                }
                assert(v0.blobs.remove_keys(s0).remove(names@[t as int]@) =~= v0.blobs.remove_keys(
                    s1,
                ));
            }
            t = t + 1;
        }
        proof {
            let sall = Set::new(
                |nb: Seq<u8>| exists|u: int|
                    0 <= u < names@.len() && nb == (#[trigger] names@[u]@),
            );
            let btarget = blob_names_between(v0.ver, fid, 1, latest as int);
            assert forall|nb: Seq<u8>| sall.contains(nb) == btarget.contains(nb) by {
                if sall.contains(nb) {
                    let u = choose|u: int|
                        0 <= u < names@.len() && nb == (#[trigger] names@[u]@);
                    let m = (latest - u) as u64;
                    assert(file_versions_ok(v0, key@));
                    assert(v0.ver.contains_key(ver_key_bytes(fid, m)));
                    assert(btarget.contains(nb));
                }
                if btarget.contains(nb) {
                    let m = choose|m: u64|
                        1 <= m <= latest && v0.ver.contains_key(#[trigger] ver_key_bytes(fid, m))
                            && nb == ver_blob_of(v0.ver[ver_key_bytes(fid, m)]);
                    let u = latest - m;
                    assert(names@[u as int]@ == nb);
                    assert(sall.contains(nb));
                }
            }
            assert(sall =~= btarget);
            assert(delete_effect(v0, self.state(), comps, version));
        }
        Ok(false)
    }
}

/// The caller-side fault an append request carries against this image,
/// if any.
pub open spec fn append_error(
    v: FsView,
    comps: Seq<Seq<char>>,
    version: Option<u64>,
    data: Seq<u8>,
) -> Option<FsError> {
    if comps.len() == 0 {
        Some(FsError::EmptyPath)
    } else {
        match resolve(v.fs, comps.take(comps.len() - 1), 0) {
            Resolution::Missing => Some(FsError::NoSuchParentPath),
            Resolution::NotFolder => Some(FsError::NonFolderInPath),
            Resolution::Damaged => Some(FsError::Internal),
            Resolution::Found(p) => {
                let k = child_key(p, comps[comps.len() - 1]);
                if !v.fs.contains_key(k) {
                    Some(FsError::NoSuchFile)
                } else if !fs_value_wf(v.fs[k]) {
                    Some(FsError::Internal)
                } else if !is_readable_type(fs_type_of(v.fs[k])) {
                    Some(FsError::NotReadable)
                } else if version matches Some(n) && n != fs_latest_of(v.fs[k]) {
                    Some(FsError::NotLatestVersion)
                } else if fs_type_of(v.fs[k]) != OBJ_TYPE_FILE {
                    Some(FsError::Internal)
                } else if fs_latest_of(v.fs[k]) == u64::MAX {
                    Some(FsError::Internal)
                } else {
                    let vk = ver_key_bytes(fs_id_of(v.fs[k]), fs_latest_of(v.fs[k]));
                    if !v.ver.contains_key(vk) {
                        Some(FsError::Internal)
                    } else if !ver_value_wf(v.ver[vk]) {
                        Some(FsError::Internal)
                    } else {
                        let len0 = ver_length_of(v.ver[vk]);
                        if len0 != UNKNOWN_SIZE && len0 + data.len() >= UNKNOWN_SIZE {
                            Some(FsError::Internal)
                        } else {
                            None
                        }
                    }
                }
            },
        }
    }
}

/// The blob file name the newest version points at. Meaningful only when
/// `append_error` gives nothing.
pub open spec fn append_blob_name(v: FsView, comps: Seq<Seq<char>>) -> Seq<u8> {
    match resolve(v.fs, comps.take(comps.len() - 1), 0) {
        Resolution::Found(p) => {
            let k = child_key(p, comps[comps.len() - 1]);
            ver_blob_of(v.ver[ver_key_bytes(fs_id_of(v.fs[k]), fs_latest_of(v.fs[k]))])
        },
        _ => Seq::<u8>::empty(),
    }
}

/// The header of the version row an append writes: created now, never
/// read, the new length, everything else carried over from the newest
/// row.
pub open spec fn append_version_record(row: Seq<u8>, now: Time64, newlen: u64)
    -> VersionRecordValue {
    VersionRecordValue {
        create_time: now,
        access_time: Time64(0),
        length: newlen,
        uid: crate::records::ver_uid_of(row),
        gid: crate::records::ver_gid_of(row),
        flags: crate::records::ver_flags_of(row),
        storage_tier: crate::records::ver_tier_of(row),
    }
}

/// The file header after an append: only the newest-version number and
/// the modify time move.
pub open spec fn append_fs_record(b: Seq<u8>, now: Time64) -> FsRecordValue {
    FsRecordValue {
        id: fs_id_of(b),
        create_time: Time64(crate::records::fs_create_of(b)),
        modify_time: now,
        access_time: Time64(crate::records::fs_access_of(b)),
        change_time: Time64(crate::records::fs_change_of(b)),
        delete_time: Time64(crate::records::fs_delete_of(b)),
        otype: OBJ_TYPE_FILE,
        latest_version: (fs_latest_of(b) + 1) as u64,
    }
}

/// What a successful append does: the bytes land at the end of the
/// newest version's blob file; a new version row points at that same
/// file with the grown length; the file header moves to the new version
/// number; nothing else moves.
pub open spec fn append_effect(
    v0: FsView,
    v1: FsView,
    comps: Seq<Seq<char>>,
    version: Option<u64>,
    data: Seq<u8>,
    now: Time64,
) -> bool {
    &&& append_error(v0, comps, version, data) is None
    &&& match resolve(v0.fs, comps.take(comps.len() - 1), 0) {
        Resolution::Found(p) => {
            let k = child_key(p, comps[comps.len() - 1]);
            let b = v0.fs[k];
            let fid = fs_id_of(b);
            let n = fs_latest_of(b);
            let row = v0.ver[ver_key_bytes(fid, n)];
            let nb = ver_blob_of(row);
            let len0 = ver_length_of(row);
            &&& v0.blobs.contains_key(nb)
            &&& (len0 == UNKNOWN_SIZE ==> v0.blobs[nb].len() + data.len() <= u64::MAX)
            &&& {
                let newlen: u64 = if len0 != UNKNOWN_SIZE {
                    (len0 + data.len()) as u64
                } else {
                    (v0.blobs[nb].len() + data.len()) as u64
                };
                &&& v1.blobs == v0.blobs.insert(nb, v0.blobs[nb] + data)
                &&& v1.ver == v0.ver.insert(
                    ver_key_bytes(fid, (n + 1) as u64),
                    ver_value_bytes(append_version_record(row, now, newlen), nb),
                )
                &&& v1.fs == v0.fs.insert(k, fs_value_bytes(append_fs_record(b, now), fs_name_of(b)))
                &&& v1.seqt == v0.seqt
            }
        },
        _ => false,
    }
}

/// Replacing an existing row with its next-version file header and
/// adding that version's row keeps the image well-formed.
proof fn lemma_wf_bump_existing(
    v0: FsView,
    v1: FsView,
    key: Seq<u8>,
    newrec: FsRecordValue,
    name: Seq<u8>,
    vval: Seq<u8>,
)
    requires
        wf(v0),
        v0.fs.contains_key(key),
        fs_latest_of(v0.fs[key]) < u64::MAX,
        newrec.id == fs_id_of(v0.fs[key]),
        newrec.otype == OBJ_TYPE_FILE,
        newrec.latest_version == fs_latest_of(v0.fs[key]) + 1,
        ver_value_wf(vval),
        blob_name_ok(ver_blob_of(vval)),
        v1.fs == v0.fs.insert(key, fs_value_bytes(newrec, name)),
        v1.ver == v0.ver.insert(
            ver_key_bytes(fs_id_of(v0.fs[key]), (fs_latest_of(v0.fs[key]) + 1) as u64),
            vval,
        ),
        v1.seqt == v0.seqt,
        forall|vk: Seq<u8>|
            #[trigger] v0.ver.contains_key(vk) ==> v1.blobs.contains_key(ver_blob_of(v0.ver[vk]))
                && v1.blobs[ver_blob_of(v0.ver[vk])].len() >= v0.blobs[ver_blob_of(
                v0.ver[vk],
            )].len(),
        v1.blobs.contains_key(ver_blob_of(vval)),
        ver_length_of(vval) != UNKNOWN_SIZE ==> v1.blobs[ver_blob_of(vval)].len()
            >= ver_length_of(vval),
        forall|vk: Seq<u8>|
            #[trigger] v0.ver.contains_key(vk) && ver_blob_of(v0.ver[vk]) == ver_blob_of(vval)
                ==> vkey_id_of(vk) == newrec.id,
    ensures
        wf(v1),
{
    let b = v0.fs[key];
    let fid = fs_id_of(b);
    let n = fs_latest_of(b);
    let vk_new = ver_key_bytes(fid, (n + 1) as u64);
    crate::records::lemma_fs_value_accessors(newrec, name);
    crate::records::lemma_ver_key_accessors(fid, (n + 1) as u64);
    assert forall|vk: Seq<u8>| #[trigger] v1.ver.contains_key(vk) implies ver_blob_covered(
        v1,
        vk,
    ) by {
        if vk != vk_new {
            assert(v0.ver.contains_key(vk));
            assert(ver_blob_covered(v0, vk));
            assert(v1.ver[vk] == v0.ver[vk]);
        }
    }
    assert forall|vk1: Seq<u8>, vk2: Seq<u8>|
        #[trigger] v1.ver.contains_key(vk1) && #[trigger] v1.ver.contains_key(vk2) && ver_blob_of(
            v1.ver[vk1],
        ) == ver_blob_of(v1.ver[vk2]) implies vkey_id_of(vk1) == vkey_id_of(vk2) by {
        if vk1 == vk_new && vk2 == vk_new {
        } else if vk1 == vk_new {
            assert(v0.ver.contains_key(vk2) && v1.ver[vk2] == v0.ver[vk2]);
            assert(vkey_id_of(vk2) == newrec.id);
            assert(vkey_id_of(vk1) == fid);
        } else if vk2 == vk_new {
            assert(v0.ver.contains_key(vk1) && v1.ver[vk1] == v0.ver[vk1]);
            assert(vkey_id_of(vk1) == newrec.id);
            assert(vkey_id_of(vk2) == fid);
        } else {
            assert(v0.ver.contains_key(vk1) && v0.ver.contains_key(vk2));
        }
    }
    assert(counter_of(v1) == counter_of(v0));
    assert(fs_row_ok(v0, key));
    assert forall|k: Seq<u8>| #[trigger] v1.fs.contains_key(k) implies fs_row_ok(v1, k) by {
        if k != key {
            assert(fs_row_ok(v0, k));
        }
    }
    assert forall|k1: Seq<u8>, k2: Seq<u8>|
        #[trigger] v1.fs.contains_key(k1) && #[trigger] v1.fs.contains_key(k2) && k1 != k2
        implies fs_id_of(v1.fs[k1]) != fs_id_of(v1.fs[k2]) by {
        assert(v0.fs.contains_key(k1) || k1 == key);
        assert(v0.fs.contains_key(k2) || k2 == key);
        if k1 == key {
            assert(fs_id_of(v1.fs[k1]) == fid);
        } else if k2 == key {
            assert(fs_id_of(v1.fs[k2]) == fid);
        }
    }
    assert forall|k: Seq<u8>| #[trigger] v1.fs.contains_key(k) implies file_versions_ok(
        v1,
        k,
    ) by {
        if k == key {
            assert forall|m: u64| 1 <= m <= fs_latest_of(v1.fs[k]) implies v1.ver.contains_key(
                #[trigger] ver_key_bytes(fs_id_of(v1.fs[k]), m),
            ) by {
                if m <= n {
                    assert(fs_type_of(b) == OBJ_TYPE_FILE || fs_type_of(b) == OBJ_TYPE_FOLDER);
                    assert(file_versions_ok(v0, key));
                    assert(v0.ver.contains_key(ver_key_bytes(fid, m)));
                }
            }
        } else {
            assert(file_versions_ok(v0, k));
            assert(v1.fs[k] == v0.fs[k]);
            if fs_type_of(v0.fs[k]) == OBJ_TYPE_FILE {
                assert forall|m: u64|
                    1 <= m <= fs_latest_of(v1.fs[k]) implies v1.ver.contains_key(
                    #[trigger] ver_key_bytes(fs_id_of(v1.fs[k]), m),
                ) by {
                    assert(v0.ver.contains_key(ver_key_bytes(fs_id_of(v0.fs[k]), m)));
                }
            }
        }
    }
    assert forall|vk: Seq<u8>| #[trigger] v1.ver.contains_key(vk) implies ver_row_ok(v1, vk) by {
        if vk == vk_new {
            assert(v1.fs.contains_key(key));
            assert(fs_id_of(v1.fs[key]) == fid && fs_type_of(v1.fs[key]) == OBJ_TYPE_FILE
                && 1 <= vkey_ver_of(vk) <= fs_latest_of(v1.fs[key]));
        } else {
            assert(v0.ver.contains_key(vk));
            assert(ver_row_ok(v0, vk));
            let w = choose|k: Seq<u8>|
                #[trigger] v0.fs.contains_key(k) && fs_id_of(v0.fs[k]) == vkey_id_of(vk)
                    && fs_type_of(v0.fs[k]) == OBJ_TYPE_FILE && 1 <= vkey_ver_of(vk)
                    <= fs_latest_of(v0.fs[k]);
            if w == key {
                assert(v1.fs.contains_key(key));
                assert(fs_latest_of(v1.fs[key]) == n + 1);
                assert(fs_id_of(v1.fs[key]) == vkey_id_of(vk));
            } else {
                assert(v1.fs.contains_key(w) && v1.fs[w] == v0.fs[w]);
            }
        }
    }
}

impl Engine {
    /// Appends bytes to the file at `path`, producing a new version that
    /// shares the newest version's blob file: the prior version still
    /// ends at its recorded length. A supplied version must match the
    /// newest one. The version check and the append run under one write
    /// transaction.
    #[verifier::rlimit(60)]
    pub fn append(
        &mut self,
        path: &Vec<String>,
        version: Option<u64>,
        data: &Vec<u8>,
        now: Time64,
    ) -> (r: Result<(), FsError>)
        requires
            old(self).inv(),
        ensures
            final(self).inv(),
            r matches Ok(()) ==> append_effect(
                old(self).state(),
                final(self).state(),
                comps_of(path@),
                version,
                data@,
                now,
            ),
            r matches Err(e) ==> ((final(self).state().fs == old(self).state().fs
                && final(self).state().seqt == old(self).state().seqt
                && final(self).state().ver == old(self).state().ver && (final(self).state().blobs
                == old(self).state().blobs || (append_error(
                old(self).state(),
                comps_of(path@),
                version,
                data@,
            ) is None && crate::blobstore::blob_partial_append(
                old(self).state().blobs,
                final(self).state().blobs,
                append_blob_name(old(self).state(), comps_of(path@)),
                data@,
            )))) || (e == FsError::Internal && append_effect(
                old(self).state(),
                final(self).state(),
                comps_of(path@),
                version,
                data@,
                now,
            ))) && (e == FsError::Internal || append_error(
                old(self).state(),
                comps_of(path@),
                version,
                data@,
            ) == Some(e)),
            append_error(old(self).state(), comps_of(path@), version, data@) matches Some(e) ==> r
                == Err::<(), FsError>(e) || r == Err::<(), FsError>(FsError::Internal),
            append_error(old(self).state(), comps_of(path@), version, data@) is None ==> r matches
                Ok(()) || r == Err::<(), FsError>(FsError::Internal),
    {
        let ghost v0 = self.state();
        let ghost comps = comps_of(path@);
        if path.len() == 0 {
            return Err(FsError::EmptyPath);
        }
        let p = match self.descend_path(path, path.len() - 1) {
            Ok(p) => p,
            Err(e) => {
                return Err(e);
            },
        };
        proof {
            assert(comps.take(comps.len() - 1) == comps_of(path@).take(path@.len() - 1));
        }
        let key = make_key(p, path[path.len() - 1].as_str());
        proof {
            assert(comps[comps.len() - 1] == path@[path@.len() - 1]@);
        }
        if self.store.begin_write().is_err() {
            return Err(FsError::Internal);
        }
        let got = match self.store.txn_fs_get(&key) {
            Ok(g) => g,
            Err(_) => {
                self.store.abort();
                return Err(FsError::Internal);
            },
        };
        let value = match got {
            Some(b) => b,
            None => {
                self.store.abort();
                return Err(FsError::NoSuchFile);
            },
        };
        let decoded = match decode_fs_value(&value) {
            Some(d) => d,
            None => {
                self.store.abort();
                return Err(FsError::Internal);
            },
        };
        let (rec, display) = decoded;
        if !is_readable_obj_type(rec.otype) {
            self.store.abort();
            return Err(FsError::NotReadable);
        }
        if let Some(n) = version {
            if n != rec.latest_version {
                self.store.abort();
                return Err(FsError::NotLatestVersion);
            }
        }
        if rec.otype != OBJ_TYPE_FILE {
            self.store.abort();
            return Err(FsError::Internal);
        }
        if rec.latest_version == u64::MAX {
            self.store.abort();
            return Err(FsError::Internal);
        }
        let vkey = crate::records::VersionRecordKey {
            file_id: rec.id,
            version: rec.latest_version,
        }.to_bytes();
        let vgot = match self.store.txn_ver_get(&vkey) {
            Ok(g) => g,
            Err(_) => {
                self.store.abort();
                return Err(FsError::Internal);
            },
        };
        let vrow = match vgot {
            Some(b) => b,
            None => {
                self.store.abort();
                return Err(FsError::Internal);
            },
        };
        let vdecoded = match decode_ver_value(&vrow) {
            Some(d) => d,
            None => {
                self.store.abort();
                return Err(FsError::Internal);
            },
        };
        let (vrec, nb) = vdecoded;
        proof {
            assert(v0.ver.contains_key(vkey@));
            assert(ver_row_ok(v0, vkey@));
            assert(blob_name_ok(nb@));
            assert(append_blob_name(v0, comps) == nb@);
        }
        let known = vrec.length != UNKNOWN_SIZE;
        if known && vrec.length >= u64::MAX - data.len() as u64 {
            self.store.abort();
            return Err(FsError::Internal);
        }
        proof {
            assert(append_error(v0, comps, version, data@) is None);
        }
        if self.blobs.append_existing(&nb, data).is_err() {
            self.store.abort();
            proof {
                lemma_wf_partial_append(v0, self.state(), nb@, data@);
            }
            return Err(FsError::Internal);
        }
        let newlen: u64 = if known {
            vrec.length + data.len() as u64
        } else {
            match self.blobs.len_of(&nb) {
                Ok(v) => v,
                Err(_) => {
                    self.store.abort();
                    proof {
                        assert(data@.take(data@.len() as int) =~= data@);
                        assert(blobs_of(self.blobs) == v0.blobs.insert(
                            nb@,
                            crate::blobstore::blob_contents_or_empty(v0.blobs, nb@) + data@.take(
                                data@.len() as int,
                            ),
                        ));
                        lemma_wf_append_blob(v0, self.state(), nb@, data@);
                    }
                    return Err(FsError::Internal);
                },
            }
        };
        let new_vkey = crate::records::VersionRecordKey {
            file_id: rec.id,
            version: rec.latest_version + 1,
        }.to_bytes();
        let new_vrec = VersionRecordValue {
            create_time: now,
            access_time: Time64(0),
            length: newlen,
            uid: vrec.uid,
            gid: vrec.gid,
            flags: vrec.flags,
            storage_tier: vrec.storage_tier,
        };
        let new_vval = encode_ver_value(&new_vrec, &nb);
        if self.store.txn_ver_insert(&new_vkey, &new_vval).is_err() {
            self.store.abort();
            proof {
                assert(data@.take(data@.len() as int) =~= data@);
                assert(blobs_of(self.blobs) == v0.blobs.insert(
                    nb@,
                    crate::blobstore::blob_contents_or_empty(v0.blobs, nb@) + data@.take(
                        data@.len() as int,
                    ),
                ));
                lemma_wf_append_blob(v0, self.state(), nb@, data@);
            }
            return Err(FsError::Internal);
        }
        let new_rec = FsRecordValue {
            id: rec.id,
            create_time: rec.create_time,
            modify_time: now,
            access_time: rec.access_time,
            change_time: rec.change_time,
            delete_time: rec.delete_time,
            otype: OBJ_TYPE_FILE,
            latest_version: rec.latest_version + 1,
        };
        let new_val = encode_fs_value(&new_rec, &display);
        if self.store.txn_fs_insert(&key, &new_val).is_err() {
            self.store.abort();
            proof {
                assert(data@.take(data@.len() as int) =~= data@);
                assert(blobs_of(self.blobs) == v0.blobs.insert(
                    nb@,
                    crate::blobstore::blob_contents_or_empty(v0.blobs, nb@) + data@.take(
                        data@.len() as int,
                    ),
                ));
                lemma_wf_append_blob(v0, self.state(), nb@, data@);
            }
            return Err(FsError::Internal);
        }
        proof {
            // the grown blob still covers every row, old and new
            crate::records::lemma_ver_value_accessors(new_vrec, nb@);
            crate::records::lemma_ver_key_accessors(rec.id, rec.latest_version);
            assert(ver_blob_covered(v0, vkey@));
            assert forall|vk: Seq<u8>| #[trigger] v0.ver.contains_key(vk) implies blobs_of(
                self.blobs,
            ).contains_key(ver_blob_of(v0.ver[vk])) && blobs_of(self.blobs)[ver_blob_of(
                v0.ver[vk],
            )].len() >= v0.blobs[ver_blob_of(v0.ver[vk])].len() by {
                assert(ver_blob_covered(v0, vk));
            }
            assert forall|vk: Seq<u8>|
                #[trigger] v0.ver.contains_key(vk) && ver_blob_of(v0.ver[vk]) == nb@ implies
                vkey_id_of(vk) == rec.id by {
                assert(vkey_id_of(vkey@) == rec.id);
            }
            assert(blobs_of(self.blobs)[nb@].len() >= newlen);
        }
        let ghost spre = self.store;
        if self.store.commit().is_err() {
            proof {
                if crate::kvstore::committed_unchanged(spre, self.store) {
                    assert(data@.take(data@.len() as int) =~= data@);
                    assert(blobs_of(self.blobs) == v0.blobs.insert(
                        nb@,
                        crate::blobstore::blob_contents_or_empty(v0.blobs, nb@) + data@.take(
                            data@.len() as int,
                        ),
                    ));
                    lemma_wf_append_blob(v0, self.state(), nb@, data@);
                } else {
                    // a failed commit may still have applied the whole
                    // transaction at once: then the full effect holds
                    assert(new_vrec == append_version_record(v0.ver[vkey@], now, newlen));
                    assert(new_rec == append_fs_record(v0.fs[key@], now));
                    lemma_wf_bump_existing(
                        v0,
                        self.state(),
                        key@,
                        new_rec,
                        display@,
                        new_vval@,
                    );
                    crate::records::lemma_ver_value_accessors(new_vrec, nb@);
                    assert(append_effect(v0, self.state(), comps, version, data@, now));
                }
            }
            return Err(FsError::Internal);
        }
        proof {
            assert(new_vrec == append_version_record(v0.ver[vkey@], now, newlen));
            assert(new_rec == append_fs_record(v0.fs[key@], now));
            lemma_wf_bump_existing(
                v0,
                self.state(),
                key@,
                new_rec,
                display@,
                new_vval@,
            );
            crate::records::lemma_ver_value_accessors(new_vrec, nb@);
            assert(append_effect(v0, self.state(), comps, version, data@, now));
        }
        Ok(())
    }
}

/// The request-shape fault of an upload, found before anything is
/// touched: a missing path, or a continuation token that is not 16
/// bytes.
pub open spec fn upload_arg_error(comps: Seq<Seq<char>>, continuation: Seq<u8>) -> Option<
    FsError,
> {
    if comps.len() == 0 {
        Some(FsError::EmptyPath)
    } else if continuation.len() != 0 && continuation.len() != 16 {
        Some(FsError::InvalidContinuation)
    } else {
        None
    }
}

/// The fault a provided continuation token carries against this image,
/// if any: a well-shaped token whose staging blob is not in the
/// directory names no in-flight upload, because it was never issued or
/// because a finalizing upload renamed its blob away and so consumed it.
pub open spec fn upload_token_error(v: FsView, continuation: Seq<u8>) -> Option<FsError> {
    if continuation.len() == 16 && !v.blobs.contains_key(blob_name_of(continuation)) {
        Some(FsError::InvalidContinuation)
    } else {
        None
    }
}

/// The binding fault of a provided continuation token, if any: a token
/// whose blob file a live version row names belongs to a finalized
/// object, so staging bytes under it is refused before anything moves.
pub open spec fn upload_bound_error(v: FsView, continuation: Seq<u8>) -> Option<FsError> {
    if continuation.len() == 16 && exists|vk: Seq<u8>|
        #[trigger] v.ver.contains_key(vk) && ver_blob_of(v.ver[vk]) == blob_name_of(
            continuation,
        ) {
        Some(FsError::InvalidContinuation)
    } else {
        None
    }
}

/// The metadata-side fault of a finalizing upload, if any: the walk to
/// the parent, the trimmed leaf name, and a name collision unless a new
/// version was asked for of what is already a file (overwriting a folder
/// would orphan its children, so it is refused like any other
/// collision).
pub open spec fn upload_meta_error(v: FsView, comps: Seq<Seq<char>>, next: bool) -> Option<
    FsError,
> {
    match resolve(v.fs, comps.take(comps.len() - 1), 0) {
        Resolution::Missing => Some(FsError::NoSuchParentPath),
        Resolution::NotFolder => Some(FsError::NonFolderInPath),
        Resolution::Damaged => Some(FsError::Internal),
        Resolution::Found(p) => {
            let kn = utf8_of(nfkd_of(trim_of(comps[comps.len() - 1])));
            if kn.len() == 0 {
                Some(FsError::EmptyName)
            } else {
                let k = be8_of(p) + kn;
                if v.fs.contains_key(k) && !next {
                    Some(FsError::AlreadyExists)
                } else if v.fs.contains_key(k) && !fs_value_wf(v.fs[k]) {
                    Some(FsError::Internal)
                } else if v.fs.contains_key(k) && fs_type_of(v.fs[k]) != OBJ_TYPE_FILE {
                    Some(FsError::AlreadyExists)
                } else if v.fs.contains_key(k) && fs_latest_of(v.fs[k]) == u64::MAX {
                    Some(FsError::Internal)
                } else {
                    None
                }
            }
        },
    }
}

/// The per-version flag word: the packed permissions when any were
/// given, else the default.
pub open spec fn flags_of(perms: Option<UnixPermissions>) -> u16 {
    match perms {
        Some(pp) => perm_bits_of(pp),
        None => 0o755u16,
    }
}

/// The file header a finalizing upload writes: for an existing object
/// the identifier, create and access times are kept; for a new one all
/// three start now.
pub open spec fn upload_file_record(v: FsView, key: Seq<u8>, fid: u64, cv: u64, now: Time64)
    -> FsRecordValue {
    FsRecordValue {
        id: fid,
        create_time: if v.fs.contains_key(key) {
            Time64(crate::records::fs_create_of(v.fs[key]))
        } else {
            now
        },
        modify_time: now,
        access_time: if v.fs.contains_key(key) {
            Time64(crate::records::fs_access_of(v.fs[key]))
        } else {
            now
        },
        change_time: Time64(0),
        delete_time: Time64(0),
        otype: OBJ_TYPE_FILE,
        latest_version: cv,
    }
}

/// The version-row header a finalizing upload writes.
pub open spec fn upload_version_record(
    now: Time64,
    length: u64,
    uid: u32,
    gid: u32,
    flags: u16,
) -> VersionRecordValue {
    VersionRecordValue {
        create_time: now,
        access_time: Time64(0),
        length,
        uid,
        gid,
        flags,
        storage_tier: 0,
    }
}

/// What a finalizing upload does, spelled out for the staging identifier
/// `sid` and the final blob name `fnm` it used. The chunk lands at the
/// end of the staging blob; a single-shot upload keeps that blob and
/// records the exact length, a chunked one finds its token's staging
/// blob still present, renames it to a fresh name (consuming the token)
/// and records the unknown-length sentinel; the row, the version row
/// and, for a new object, the counter commit together.
pub open spec fn upload_commit_effect_with(
    v0: FsView,
    v1: FsView,
    comps: Seq<Seq<char>>,
    data: Seq<u8>,
    uid: u32,
    gid: u32,
    perms: Option<UnixPermissions>,
    next: bool,
    continuation: Seq<u8>,
    now: Time64,
    sid: Seq<u8>,
    fnm: Seq<u8>,
) -> bool {
    &&& upload_meta_error(v0, comps, next) is None
    &&& sid.len() == 16
    &&& (continuation.len() == 16 ==> sid == continuation)
    &&& match resolve(v0.fs, comps.take(comps.len() - 1), 0) {
        Resolution::Found(p) => {
            let leaf = comps[comps.len() - 1];
            let key = be8_of(p) + utf8_of(nfkd_of(trim_of(leaf)));
            let existing = v0.fs.contains_key(key);
            let fid = if existing {
                fs_id_of(v0.fs[key])
            } else {
                (counter_of(v0) + 1) as u64
            };
            let cv = if existing {
                (fs_latest_of(v0.fs[key]) + 1) as u64
            } else {
                1u64
            };
            let single = continuation.len() == 0;
            let snm = blob_name_of(sid);
            let staged = crate::blobstore::blob_contents_or_empty(v0.blobs, snm) + data;
            &&& (single ==> !v0.blobs.contains_key(snm) && fnm == snm)
            &&& (!single ==> v0.blobs.contains_key(snm))
            &&& (!single ==> forall|vk: Seq<u8>|
                #[trigger] v0.ver.contains_key(vk) ==> ver_blob_of(v0.ver[vk]) != snm)
            &&& (!single ==> !v0.blobs.insert(snm, staged).contains_key(fnm) && blob_name_ok(fnm))
            &&& v1.blobs == (if single {
                v0.blobs.insert(snm, staged)
            } else {
                v0.blobs.insert(snm, staged).remove(snm).insert(fnm, staged)
            })
            &&& v1.ver == v0.ver.insert(
                ver_key_bytes(fid, cv),
                ver_value_bytes(
                    upload_version_record(
                        now,
                        if single {
                            data.len() as u64
                        } else {
                            UNKNOWN_SIZE
                        },
                        uid,
                        gid,
                        flags_of(perms),
                    ),
                    fnm,
                ),
            )
            &&& v1.fs == v0.fs.insert(
                key,
                fs_value_bytes(upload_file_record(v0, key, fid, cv, now), utf8_of(trim_of(leaf))),
            )
            &&& v1.seqt == (if existing {
                v0.seqt
            } else {
                v0.seqt.insert(counter_key(), fid)
            })
        },
        _ => false,
    }
}

/// What a failed upload may leave in the blob directory for the staging
/// identifier `sid`: nothing, part or all of the chunk appended under
/// the staging name, or the fully staged blob already renamed away.
pub open spec fn upload_residue_with(
    b0: Map<Seq<u8>, Seq<u8>>,
    b1: Map<Seq<u8>, Seq<u8>>,
    sid: Seq<u8>,
    data: Seq<u8>,
) -> bool {
    let snm = blob_name_of(sid);
    let staged = crate::blobstore::blob_contents_or_empty(b0, snm) + data;
    ||| b1 == b0
    ||| crate::blobstore::blob_partial_append(b0, b1, snm, data)
    ||| exists|fnm: Seq<u8>| b1 == b0.insert(snm, staged).remove(snm).insert(fnm, staged)
}

/// A new file row with a fresh identifier and its first version row
/// keep the image well-formed.
proof fn lemma_wf_insert_fresh_file(
    v0: FsView,
    v1: FsView,
    key: Seq<u8>,
    rec: FsRecordValue,
    disp: Seq<u8>,
    vval: Seq<u8>,
)
    requires
        wf(v0),
        !v0.fs.contains_key(key),
        key.len() > 8,
        rec.id == counter_of(v0) + 1,
        rec.id < u64::MAX,
        rec.otype == OBJ_TYPE_FILE,
        rec.latest_version == 1,
        ver_value_wf(vval),
        blob_name_ok(ver_blob_of(vval)),
        v1.fs == v0.fs.insert(key, fs_value_bytes(rec, disp)),
        v1.seqt == v0.seqt.insert(counter_key(), rec.id),
        v1.ver == v0.ver.insert(ver_key_bytes(rec.id, 1), vval),
        forall|vk: Seq<u8>|
            #[trigger] v0.ver.contains_key(vk) ==> v1.blobs.contains_key(ver_blob_of(v0.ver[vk]))
                && v1.blobs[ver_blob_of(v0.ver[vk])].len() >= v0.blobs[ver_blob_of(
                v0.ver[vk],
            )].len(),
        v1.blobs.contains_key(ver_blob_of(vval)),
        ver_length_of(vval) != UNKNOWN_SIZE ==> v1.blobs[ver_blob_of(vval)].len()
            >= ver_length_of(vval),
        forall|vk: Seq<u8>|
            #[trigger] v0.ver.contains_key(vk) && ver_blob_of(v0.ver[vk]) == ver_blob_of(vval)
                ==> vkey_id_of(vk) == rec.id,
    ensures
        wf(v1),
{
    crate::records::lemma_fs_value_accessors(rec, disp);
    crate::records::lemma_ver_key_accessors(rec.id, 1);
    let vk_new = ver_key_bytes(rec.id, 1);
    assert forall|vk: Seq<u8>| #[trigger] v1.ver.contains_key(vk) implies ver_blob_covered(
        v1,
        vk,
    ) by {
        if vk != vk_new {
            assert(v0.ver.contains_key(vk));
            assert(ver_blob_covered(v0, vk));
            assert(v1.ver[vk] == v0.ver[vk]);
        }
    }
    assert forall|vk1: Seq<u8>, vk2: Seq<u8>|
        #[trigger] v1.ver.contains_key(vk1) && #[trigger] v1.ver.contains_key(vk2) && ver_blob_of(
            v1.ver[vk1],
        ) == ver_blob_of(v1.ver[vk2]) implies vkey_id_of(vk1) == vkey_id_of(vk2) by {
        if vk1 == vk_new && vk2 == vk_new {
        } else if vk1 == vk_new {
            assert(v0.ver.contains_key(vk2) && v1.ver[vk2] == v0.ver[vk2]);
            assert(vkey_id_of(vk2) == rec.id);
            assert(vkey_id_of(vk1) == rec.id);
        } else if vk2 == vk_new {
            assert(v0.ver.contains_key(vk1) && v1.ver[vk1] == v0.ver[vk1]);
            assert(vkey_id_of(vk1) == rec.id);
            assert(vkey_id_of(vk2) == rec.id);
        } else {
            assert(v0.ver.contains_key(vk1) && v0.ver.contains_key(vk2));
        }
    }
    assert(counter_of(v1) == rec.id);
    assert forall|k: Seq<u8>| #[trigger] v1.fs.contains_key(k) implies fs_row_ok(v1, k) by {
        if k != key {
            assert(fs_row_ok(v0, k));
        }
    }
    assert forall|k1: Seq<u8>, k2: Seq<u8>|
        #[trigger] v1.fs.contains_key(k1) && #[trigger] v1.fs.contains_key(k2) && k1 != k2
        implies fs_id_of(v1.fs[k1]) != fs_id_of(v1.fs[k2]) by {
        if k1 == key {
            assert(fs_row_ok(v0, k2));
        } else if k2 == key {
            assert(fs_row_ok(v0, k1));
        }
    }
    assert forall|k: Seq<u8>| #[trigger] v1.fs.contains_key(k) implies file_versions_ok(
        v1,
        k,
    ) by {
        if k == key {
            assert(v1.ver.contains_key(ver_key_bytes(rec.id, 1)));
        } else {
            assert(file_versions_ok(v0, k));
            assert(v1.fs[k] == v0.fs[k]);
            if fs_type_of(v0.fs[k]) == OBJ_TYPE_FILE {
                assert forall|m: u64|
                    1 <= m <= fs_latest_of(v1.fs[k]) implies v1.ver.contains_key(
                    #[trigger] ver_key_bytes(fs_id_of(v1.fs[k]), m),
                ) by {
                    assert(v0.ver.contains_key(ver_key_bytes(fs_id_of(v0.fs[k]), m)));
                }
            }
        }
    }
    assert forall|vk: Seq<u8>| #[trigger] v1.ver.contains_key(vk) implies ver_row_ok(v1, vk) by {
        if vk == vk_new {
            assert(v1.fs.contains_key(key));
            assert(fs_id_of(v1.fs[key]) == rec.id);
        } else {
            assert(v0.ver.contains_key(vk));
            assert(ver_row_ok(v0, vk));
            let w = choose|k: Seq<u8>|
                #[trigger] v0.fs.contains_key(k) && fs_id_of(v0.fs[k]) == vkey_id_of(vk)
                    && fs_type_of(v0.fs[k]) == OBJ_TYPE_FILE && 1 <= vkey_ver_of(vk)
                    <= fs_latest_of(v0.fs[k]);
            assert(w != key);
            assert(v1.fs.contains_key(w) && v1.fs[w] == v0.fs[w]);
        }
    }
}

impl Engine {
    /// Uploads bytes to `path`. A chunk with `incomplete` set is only
    /// staged: the reply carries the 16-byte token to continue with, and
    /// no metadata moves. A provided token must name a staging blob
    /// still in flight: one already consumed by a finalize, and one
    /// whose blob file a live version names, are both refused before
    /// anything moves. A finalizing call stages its chunk, then commits
    /// the file row, the new version row and, for a chunked upload, the
    /// rename that retires the token, all in one transaction. `next`
    /// allows overwriting an existing file with a new version.
    #[verifier::rlimit(100)]
    pub fn upload(
        &mut self,
        path: &Vec<String>,
        data: &Vec<u8>,
        uid: u32,
        gid: u32,
        perms: Option<UnixPermissions>,
        incomplete: bool,
        next: bool,
        continuation: &Vec<u8>,
        now: Time64,
    ) -> (r: Result<Option<Vec<u8>>, FsError>)
        requires
            old(self).inv(),
        ensures
            final(self).inv(),
            upload_arg_error(comps_of(path@), continuation@) matches Some(e) ==> r == Err::<
                Option<Vec<u8>>,
                FsError,
            >(e) && final(self).state() == old(self).state(),
            r matches Ok(o) ==> upload_arg_error(comps_of(path@), continuation@) is None
                && upload_token_error(old(self).state(), continuation@) is None
                && upload_bound_error(old(self).state(), continuation@) is None,
            r matches Ok(o) ==> (o matches Some(tok) ==> incomplete && tok@.len() == 16 && (
            continuation@.len() == 16 ==> tok@ == continuation@) && (continuation@.len() == 0
                ==> !old(self).state().blobs.contains_key(blob_name_of(tok@)))
                && final(self).state().fs == old(self).state().fs
                && final(self).state().seqt == old(self).state().seqt
                && final(self).state().ver == old(self).state().ver
                && final(self).state().blobs == old(self).state().blobs.insert(
                blob_name_of(tok@),
                crate::blobstore::blob_contents_or_empty(
                    old(self).state().blobs,
                    blob_name_of(tok@),
                ) + data@,
            )),
            r == Ok::<Option<Vec<u8>>, FsError>(None) ==> !incomplete && exists|
                sid: Seq<u8>,
                fnm: Seq<u8>,
            |
                #[trigger] upload_commit_effect_with(
                    old(self).state(),
                    final(self).state(),
                    comps_of(path@),
                    data@,
                    uid,
                    gid,
                    perms,
                    next,
                    continuation@,
                    now,
                    sid,
                    fnm,
                ),
            r matches Err(e) ==> ((final(self).state().fs == old(self).state().fs
                && final(self).state().seqt == old(self).state().seqt
                && final(self).state().ver == old(self).state().ver && (final(self).state().blobs
                == old(self).state().blobs || exists|sid: Seq<u8>|
                sid.len() == 16 && (continuation@.len() == 16 ==> sid == continuation@)
                    && #[trigger] upload_residue_with(
                    old(self).state().blobs,
                    final(self).state().blobs,
                    sid,
                    data@,
                ))) || (e == FsError::Internal && !incomplete && exists|
                sid: Seq<u8>,
                fnm: Seq<u8>,
            |
                #[trigger] upload_commit_effect_with(
                    old(self).state(),
                    final(self).state(),
                    comps_of(path@),
                    data@,
                    uid,
                    gid,
                    perms,
                    next,
                    continuation@,
                    now,
                    sid,
                    fnm,
                ))) && (e == FsError::Internal || upload_arg_error(comps_of(path@), continuation@)
                == Some(e) || upload_token_error(old(self).state(), continuation@) == Some(e)
                || upload_bound_error(old(self).state(), continuation@) == Some(e) || (
            !incomplete && upload_meta_error(old(self).state(), comps_of(path@), next) == Some(
                e,
            ))),
            upload_arg_error(comps_of(path@), continuation@) is None && (upload_token_error(
                old(self).state(),
                continuation@,
            ) matches Some(e)) ==> (r == Err::<Option<Vec<u8>>, FsError>(
                upload_token_error(old(self).state(), continuation@)->Some_0,
            ) && final(self).state() == old(self).state()) || r == Err::<Option<Vec<u8>>, FsError>(
                FsError::Internal,
            ),
            upload_arg_error(comps_of(path@), continuation@) is None && upload_token_error(
                old(self).state(),
                continuation@,
            ) is None && (upload_bound_error(old(self).state(), continuation@) matches Some(e))
                ==> (r == Err::<Option<Vec<u8>>, FsError>(
                upload_bound_error(old(self).state(), continuation@)->Some_0,
            ) && final(self).state() == old(self).state()) || r == Err::<Option<Vec<u8>>, FsError>(
                FsError::Internal,
            ),
            upload_arg_error(comps_of(path@), continuation@) is None && upload_token_error(
                old(self).state(),
                continuation@,
            ) is None && upload_bound_error(old(self).state(), continuation@) is None && incomplete
                ==> r matches Ok(_) || r == Err::<Option<Vec<u8>>, FsError>(FsError::Internal),
            upload_arg_error(comps_of(path@), continuation@) is None && upload_token_error(
                old(self).state(),
                continuation@,
            ) is None && upload_bound_error(old(self).state(), continuation@) is None
                && !incomplete && upload_meta_error(old(self).state(), comps_of(path@), next)
                is None ==> r == Ok::<Option<Vec<u8>>, FsError>(None) || r == Err::<
                Option<Vec<u8>>,
                FsError,
            >(FsError::Internal),
            upload_arg_error(comps_of(path@), continuation@) is None && upload_token_error(
                old(self).state(),
                continuation@,
            ) is None && upload_bound_error(old(self).state(), continuation@) is None
                && !incomplete ==> (upload_meta_error(
                old(self).state(),
                comps_of(path@),
                next,
            ) matches Some(e) ==> r == Err::<Option<Vec<u8>>, FsError>(e) || r == Err::<
                Option<Vec<u8>>,
                FsError,
            >(FsError::Internal)),
    {
        let ghost v0 = self.state();
        let ghost comps = comps_of(path@);
        if path.len() == 0 {
            return Err(FsError::EmptyPath);
        }
        if continuation.len() != 0 && continuation.len() != 16 {
            return Err(FsError::InvalidContinuation);
        }
        // stage the chunk under the continuation's blob, or a fresh one
        let stage_id: Vec<u8> = if continuation.len() == 0 {
            mint_blob_id()
        } else {
            copy_bytes(continuation)
        };
        let stage_nm = blob_file_name(&stage_id);
        let ghost snm = stage_nm@;
        if continuation.len() == 0 {
            match self.blobs.has_blob(&stage_nm) {
                Ok(false) => {},
                _ => {
                    return Err(FsError::Internal);
                },
            }
            if self.blobs.create_append(&stage_nm, data).is_err() {
                proof {
                    lemma_wf_partial_append(v0, self.state(), snm, data@);
                    assert(upload_residue_with(v0.blobs, blobs_of(self.blobs), stage_id@, data@));
                }
                return Err(FsError::Internal);
            }
        } else {
            // a provided token must name a staging blob still in flight:
            // one that was renamed away by a finalize, or never issued, is
            // refused before anything moves
            match self.blobs.has_blob(&stage_nm) {
                Ok(true) => {},
                Ok(false) => {
                    return Err(FsError::InvalidContinuation);
                },
                Err(_) => {
                    return Err(FsError::Internal);
                },
            }
            // and one whose blob file a live version names is bound to
            // that object: it is refused too, before anything moves
            let rows = match self.store.ver_all() {
                Ok(rows) => rows,
                Err(_) => {
                    return Err(FsError::Internal);
                },
            };
            let mut si: usize = 0;
            while si < rows.len()
                invariant
                    0 <= si <= rows.len(),
                    self.inv(),
                    v0 == self.state(),
                    v0 == old(self).state(),
                    comps == comps_of(path@),
                    path@.len() > 0,
                    continuation@.len() == 16,
                    snm == stage_nm@,
                    snm == blob_name_of(continuation@),
                    forall|j: int|
                        0 <= j < rows@.len() ==> #[trigger] v0.ver.contains_key(rows@[j].0@)
                            && rows@[j].1@ == v0.ver[rows@[j].0@],
                    forall|k: Seq<u8>|
                        #[trigger] v0.ver.contains_key(k) ==> exists|j: int|
                            0 <= j < rows@.len() && rows@[j].0@ == k,
                    forall|j: int|
                        0 <= j < si ==> ver_blob_of(#[trigger] rows@[j].1@) != snm,
                decreases rows.len() - si,
            {
                let vdec = match decode_ver_value(&rows[si].1) {
                    Some(d) => d,
                    None => {
                        return Err(FsError::Internal);
                    },
                };
                if bytes_eq(&vdec.1, &stage_nm) {
                    proof {
                        assert(0 <= si < rows@.len());
                        assert(v0.ver.contains_key(rows@[si as int].0@));
                        assert(rows@[si as int].1@ == v0.ver[rows@[si as int].0@]);
                        assert(vdec.1@ == stage_nm@);
                        assert(vdec.1@ == ver_blob_of(rows@[si as int].1@));
                        assert(ver_blob_of(v0.ver[rows@[si as int].0@]) == blob_name_of(
                            continuation@,
                        ));
                    }
                    return Err(FsError::InvalidContinuation);
                }
                proof {
                    assert(ver_blob_of(rows@[si as int].1@) == vdec.1@);
                }
                si = si + 1;
            }
            proof {
                assert forall|vk: Seq<u8>| #[trigger] v0.ver.contains_key(vk) implies ver_blob_of(
                    v0.ver[vk],
                ) != snm by {
                    let j = choose|j: int| 0 <= j < rows@.len() && rows@[j].0@ == vk;
                    assert(rows@[j].1@ == v0.ver[vk]);
                }
            }
            if self.blobs.append_existing(&stage_nm, data).is_err() {
                proof {
                    lemma_wf_partial_append(v0, self.state(), snm, data@);
                    assert(upload_residue_with(v0.blobs, blobs_of(self.blobs), stage_id@, data@));
                }
                return Err(FsError::Internal);
            }
        }
        let ghost staged = crate::blobstore::blob_contents_or_empty(v0.blobs, snm) + data@;
        proof {
            assert(blobs_of(self.blobs) == v0.blobs.insert(snm, staged));
            assert(data@.take(data@.len() as int) =~= data@);
            assert(upload_residue_with(v0.blobs, blobs_of(self.blobs), stage_id@, data@));
        }
        if incomplete {
            proof {
                lemma_wf_append_blob(v0, self.state(), snm, data@);
            }
            return Ok(Some(stage_id));
        }
        let p = match self.descend_path(path, path.len() - 1) {
            Ok(p) => p,
            Err(e) => {
                proof {
                    lemma_wf_append_blob(v0, self.state(), snm, data@);
                }
                return Err(e);
            },
        };
        proof {
            assert(comps.take(comps.len() - 1) == comps_of(path@).take(path@.len() - 1));
        }
        let leaf = trim(path[path.len() - 1].as_str());
        let display = utf8_bytes(leaf.as_str());
        let key = make_key(p, leaf.as_str());
        proof {
            assert(comps[comps.len() - 1] == path@[path@.len() - 1]@);
            assert(key@ == be8_of(p) + utf8_of(nfkd_of(trim_of(comps[comps.len() - 1]))));
        }
        if key.len() <= 8 {
            proof {
                assert(key@.len() == 8 + utf8_of(nfkd_of(trim_of(comps[comps.len() - 1]))).len());
                lemma_wf_append_blob(v0, self.state(), snm, data@);
            }
            return Err(FsError::EmptyName);
        }
        if self.store.begin_write().is_err() {
            proof {
                lemma_wf_append_blob(v0, self.state(), snm, data@);
            }
            return Err(FsError::Internal);
        }
        let existing = match self.store.txn_fs_get(&key) {
            Ok(o) => o,
            Err(_) => {
                self.store.abort();
                proof {
                    lemma_wf_append_blob(v0, self.state(), snm, data@);
                }
                return Err(FsError::Internal);
            },
        };
        let fid: u64;
        let cv: u64;
        let created: Time64;
        let accessed: Time64;
        match existing {
            Some(pb) => {
                if !next {
                    self.store.abort();
                    proof {
                        lemma_wf_append_blob(v0, self.state(), snm, data@);
                    }
                    return Err(FsError::AlreadyExists);
                }
                let pd = match decode_fs_value(&pb) {
                    Some(d) => d,
                    None => {
                        self.store.abort();
                        proof {
                            lemma_wf_append_blob(v0, self.state(), snm, data@);
                        }
                        return Err(FsError::Internal);
                    },
                };
                if pd.0.otype != OBJ_TYPE_FILE {
                    // a folder under this name: a new version here would
                    // orphan its children, so the name counts as taken
                    self.store.abort();
                    proof {
                        lemma_wf_append_blob(v0, self.state(), snm, data@);
                    }
                    return Err(FsError::AlreadyExists);
                }
                if pd.0.latest_version == u64::MAX {
                    self.store.abort();
                    proof {
                        lemma_wf_append_blob(v0, self.state(), snm, data@);
                    }
                    return Err(FsError::Internal);
                }
                fid = pd.0.id;
                cv = pd.0.latest_version + 1;
                created = pd.0.create_time;
                accessed = pd.0.access_time;
            },
            None => {
                let last = match self.store.txn_seq_get("fs") {
                    Ok(Some(x)) => x,
                    Ok(None) => 0,
                    Err(_) => {
                        self.store.abort();
                        proof {
                            lemma_wf_append_blob(v0, self.state(), snm, data@);
                        }
                        return Err(FsError::Internal);
                    },
                };
                if last >= u64::MAX - 1 {
                    self.store.abort();
                    proof {
                        lemma_wf_append_blob(v0, self.state(), snm, data@);
                    }
                    return Err(FsError::Internal);
                }
                fid = last + 1;
                cv = 1;
                if self.store.txn_seq_insert("fs", fid).is_err() {
                    self.store.abort();
                    proof {
                        lemma_wf_append_blob(v0, self.state(), snm, data@);
                    }
                    return Err(FsError::Internal);
                }
                created = now;
                accessed = now;
            },
        }
        let single = continuation.len() == 0;
        let final_nm: Vec<u8>;
        let length: u64;
        if single {
            length = data.len() as u64;
            final_nm = stage_nm;
        } else {
            let fresh = mint_blob_id();
            let nm2 = blob_file_name(&fresh);
            if bytes_eq(&nm2, &stage_nm) {
                self.store.abort();
                proof {
                    lemma_wf_append_blob(v0, self.state(), snm, data@);
                }
                return Err(FsError::Internal);
            }
            match self.blobs.has_blob(&nm2) {
                Ok(false) => {},
                _ => {
                    self.store.abort();
                    proof {
                        lemma_wf_append_blob(v0, self.state(), snm, data@);
                    }
                    return Err(FsError::Internal);
                },
            }
            if self.blobs.rename(&stage_nm, &nm2).is_err() {
                self.store.abort();
                proof {
                    lemma_wf_append_blob(v0, self.state(), snm, data@);
                }
                return Err(FsError::Internal);
            }
            proof {
                assert(blobs_of(self.blobs) == v0.blobs.insert(snm, staged).remove(snm).insert(
                    nm2@,
                    staged,
                ));
                assert(upload_residue_with(v0.blobs, blobs_of(self.blobs), stage_id@, data@));
            }
            length = UNKNOWN_SIZE;
            final_nm = nm2;
        }
        let frec = FsRecordValue {
            id: fid,
            create_time: created,
            modify_time: now,
            access_time: accessed,
            change_time: Time64(0),
            delete_time: Time64(0),
            otype: OBJ_TYPE_FILE,
            latest_version: cv,
        };
        let fval = encode_fs_value(&frec, &display);
        if self.store.txn_fs_insert(&key, &fval).is_err() {
            self.store.abort();
            proof {
                if single {
                    lemma_wf_append_blob(v0, self.state(), snm, data@);
                } else {
                    lemma_wf_rename_blob(v0, self.state(), snm, final_nm@, staged);
                }
            }
            return Err(FsError::Internal);
        }
        let flag_word: u16 = match perms {
            Some(pp) => crate::perms::unix_perms_to_u16(&pp),
            None => 0o755,
        };
        let vrec = VersionRecordValue {
            create_time: now,
            access_time: Time64(0),
            length,
            uid,
            gid,
            flags: flag_word,
            storage_tier: 0,
        };
        let vkeyb = crate::records::VersionRecordKey { file_id: fid, version: cv }.to_bytes();
        let vval = encode_ver_value(&vrec, &final_nm);
        if self.store.txn_ver_insert(&vkeyb, &vval).is_err() {
            self.store.abort();
            proof {
                if single {
                    lemma_wf_append_blob(v0, self.state(), snm, data@);
                } else {
                    lemma_wf_rename_blob(v0, self.state(), snm, final_nm@, staged);
                }
            }
            return Err(FsError::Internal);
        }
        proof {
            // the staged or renamed blob covers the new row, and every
            // old row's blob stands untouched
            crate::records::lemma_ver_value_accessors(vrec, final_nm@);
            assert(!v0.blobs.contains_key(final_nm@));
            assert forall|vk: Seq<u8>| #[trigger] v0.ver.contains_key(vk) implies blobs_of(
                self.blobs,
            ).contains_key(ver_blob_of(v0.ver[vk])) && blobs_of(self.blobs)[ver_blob_of(
                v0.ver[vk],
            )].len() >= v0.blobs[ver_blob_of(v0.ver[vk])].len() by {
                assert(ver_blob_covered(v0, vk));
                if !single {
                    assert(ver_blob_of(v0.ver[vk]) != snm);
                }
            }
            assert(blobs_of(self.blobs).contains_key(final_nm@));
            if single {
                assert(blobs_of(self.blobs)[final_nm@] == staged);
                assert(staged.len() == data@.len());
            }
            assert forall|vk: Seq<u8>|
                #[trigger] v0.ver.contains_key(vk) && ver_blob_of(v0.ver[vk]) == final_nm@
                implies vkey_id_of(vk) == fid by {
                assert(ver_blob_covered(v0, vk));
                assert(v0.blobs.contains_key(ver_blob_of(v0.ver[vk])));
                assert(false);
            }
        }
        let ghost spre = self.store;
        if self.store.commit().is_err() {
            proof {
                if crate::kvstore::committed_unchanged(spre, self.store) {
                    if single {
                        lemma_wf_append_blob(v0, self.state(), snm, data@);
                    } else {
                        lemma_wf_rename_blob(v0, self.state(), snm, final_nm@, staged);
                    }
                } else {
                    // a failed commit may still have applied the whole
                    // transaction at once: then the full effect holds
                    assert(upload_meta_error(v0, comps, next) is None);
                    assert(frec == upload_file_record(v0, key@, fid, cv, now));
                    assert(vrec == upload_version_record(
                        now,
                        if single {
                            data@.len() as u64
                        } else {
                            UNKNOWN_SIZE
                        },
                        uid,
                        gid,
                        flags_of(perms),
                    ));
                    crate::records::lemma_ver_value_accessors(vrec, final_nm@);
                    if v0.fs.contains_key(key@) {
                        lemma_wf_bump_existing(v0, self.state(), key@, frec, display@, vval@);
                    } else {
                        lemma_wf_insert_fresh_file(v0, self.state(), key@, frec, display@, vval@);
                    }
                    assert(upload_commit_effect_with(
                        v0,
                        self.state(),
                        comps,
                        data@,
                        uid,
                        gid,
                        perms,
                        next,
                        continuation@,
                        now,
                        stage_id@,
                        final_nm@,
                    ));
                }
            }
            return Err(FsError::Internal);
        }
        proof {
            assert(upload_meta_error(v0, comps, next) is None);
            assert(frec == upload_file_record(v0, key@, fid, cv, now));
            assert(vrec == upload_version_record(
                now,
                if single {
                    data@.len() as u64
                } else {
                    UNKNOWN_SIZE
                },
                uid,
                gid,
                flags_of(perms),
            ));
            crate::records::lemma_ver_value_accessors(vrec, final_nm@);
            if v0.fs.contains_key(key@) {
                lemma_wf_bump_existing(v0, self.state(), key@, frec, display@, vval@);
            } else {
                lemma_wf_insert_fresh_file(v0, self.state(), key@, frec, display@, vval@);
            }
            assert(upload_commit_effect_with(
                v0,
                self.state(),
                comps,
                data@,
                uid,
                gid,
                perms,
                next,
                continuation@,
                now,
                stage_id@,
                final_nm@,
            ));
        }
        Ok(None)
    }
}

/// Builds the `fs` lookup key for one child: the parent identifier in big
/// endian, then the component's NFKD form as UTF-8.
pub fn make_key(parent_id: u64, file_name: &str) -> (r: Vec<u8>)
    ensures
        r@ == child_key(parent_id, file_name@),
{
    let normalized = nfkd(file_name);
    let name_bytes = utf8_bytes(normalized.as_str());
    let mut r = u64_to_be(parent_id);
    let mut rest = name_bytes;
    r.append(&mut rest);
    r
}

} // verus!
