//! The library-wide laws: each is stated over the operations' transition
//! predicates and proved once, for every state and input its premises
//! admit.

use vstd::prelude::*;
use crate::blobstore::{blob_contents_or_empty, blob_name_of};
use crate::engine::{
    append_effect,
    append_error,
    child_key,
    comps_of,
    counter_of,
    delete_effect,
    delete_error,
    download_error,
    download_expect,
    FsError,
    FsView,
    list_matches,
    ListEntry,
    MAX_READ_SIZE,
    mkdir_effect,
    mkdir_error,
    Resolution,
    resolve,
    upload_commit_effect_with,
    upload_file_record,
    upload_meta_error,
    upload_version_record,
    ver_row_ok,
    vkeys_between,
    wf,
};
use crate::normalize::{nfkd_of, trim_of, utf8_of};
use crate::records::{
    fs_id_of,
    fs_latest_of,
    fs_name_of,
    fs_type_of,
    fs_value_bytes,
    fs_value_wf,
    lemma_fs_value_accessors,
    lemma_ver_key_accessors,
    lemma_ver_key_recon,
    lemma_ver_value_accessors,
    OBJ_TYPE_FILE,
    OBJ_TYPE_FOLDER,
    UNKNOWN_SIZE,
    ver_blob_of,
    ver_key_bytes,
    ver_length_of,
    vkey_id_of,
    vkey_ver_of,
};
use crate::time64::Time64;
use crate::wire::{be8_of, lex_lt, lemma_lex_common_prefix};

verus! {

/// Name round-trip. A created folder's row sits under its parent's key
/// prefix; the key suffix is the UTF-8 of the NFKD form of the trimmed
/// leaf, the stored display name is the trimmed leaf itself, and any
/// listing of the parent carries an entry with exactly that display
/// name.
pub proof fn lemma_name_round_trip(v0: FsView, v1: FsView, comps: Seq<Seq<char>>, now: Time64)
    requires
        mkdir_effect(v0, v1, comps, now),
    ensures
        match resolve(v0.fs, comps.take(comps.len() - 1), 0) {
            Resolution::Found(p) => {
                let leaf = comps[comps.len() - 1];
                let key = be8_of(p) + utf8_of(nfkd_of(trim_of(leaf)));
                &&& v1.fs.contains_key(key)
                &&& key.len() > 8
                &&& key.take(8) == be8_of(p)
                &&& key.skip(8) == utf8_of(nfkd_of(trim_of(leaf)))
                &&& fs_name_of(v1.fs[key]) == utf8_of(trim_of(leaf))
                &&& forall|ks: Seq<Seq<u8>>, entries: Seq<ListEntry>, wa: bool|
                    #[trigger] list_matches(v1.fs, p, ks, entries, wa) ==> exists|i: int|
                        0 <= i < entries.len() && entries[i].relative_name@ == utf8_of(
                            trim_of(leaf),
                        )
            },
            _ => false,
        },
{
    let p = resolve(v0.fs, comps.take(comps.len() - 1), 0)->Found_0;
    let leaf = comps[comps.len() - 1];
    let key = be8_of(p) + utf8_of(nfkd_of(trim_of(leaf)));
    let rec = crate::engine::folder_record((counter_of(v0) + 1) as u64, now);
    lemma_fs_value_accessors(rec, utf8_of(trim_of(leaf)));
    assert(key.len() == 8 + utf8_of(nfkd_of(trim_of(leaf))).len());
    assert(key.take(8) =~= be8_of(p));
    assert(key.skip(8) =~= utf8_of(nfkd_of(trim_of(leaf))));
    assert forall|ks: Seq<Seq<u8>>, entries: Seq<ListEntry>, wa: bool|
        #[trigger] list_matches(v1.fs, p, ks, entries, wa) implies exists|i: int|
        0 <= i < entries.len() && entries[i].relative_name@ == utf8_of(trim_of(leaf)) by {
        assert(v1.fs.contains_key(key) && key.len() > 8 && key.take(8) == be8_of(p));
        let i = choose|i: int| 0 <= i < ks.len() && ks[i] == key;
        assert(entries[i].relative_name@ == fs_name_of(v1.fs[key]));
    }
}

/// Version monotonicity, upload half. A finalizing upload moves the
/// file's newest-version number strictly up (to 1 for a new file), and
/// in the well-formed result every version 1..=newest has its row.
pub proof fn lemma_upload_version_monotonic(
    v0: FsView,
    v1: FsView,
    comps: Seq<Seq<char>>,
    data: Seq<u8>,
    uid: u32,
    gid: u32,
    perms: Option<crate::perms::UnixPermissions>,
    next: bool,
    continuation: Seq<u8>,
    now: Time64,
    sid: Seq<u8>,
    fnm: Seq<u8>,
)
    requires
        upload_commit_effect_with(
            v0,
            v1,
            comps,
            data,
            uid,
            gid,
            perms,
            next,
            continuation,
            now,
            sid,
            fnm,
        ),
        wf(v1),
    ensures
        match resolve(v0.fs, comps.take(comps.len() - 1), 0) {
            Resolution::Found(p) => {
                let key = be8_of(p) + utf8_of(nfkd_of(trim_of(comps[comps.len() - 1])));
                let before: int = if v0.fs.contains_key(key) {
                    fs_latest_of(v0.fs[key]) as int
                } else {
                    0
                };
                &&& v1.fs.contains_key(key)
                &&& fs_latest_of(v1.fs[key]) == before + 1
                &&& forall|m: u64|
                    1 <= m <= fs_latest_of(v1.fs[key]) ==> v1.ver.contains_key(
                        #[trigger] ver_key_bytes(fs_id_of(v1.fs[key]), m),
                    )
            },
            _ => false,
        },
{
    let p = resolve(v0.fs, comps.take(comps.len() - 1), 0)->Found_0;
    let key = be8_of(p) + utf8_of(nfkd_of(trim_of(comps[comps.len() - 1])));
    let existing = v0.fs.contains_key(key);
    let fid = if existing {
        fs_id_of(v0.fs[key])
    } else {
        (counter_of(v0) + 1) as u64
    };
    let cv = if existing {
        (fs_latest_of(v0.fs[key]) + 1) as u64
    } else {
        1u64
    };
    lemma_fs_value_accessors(
        upload_file_record(v0, key, fid, cv, now),
        utf8_of(trim_of(comps[comps.len() - 1])),
    );
    assert(v1.fs.contains_key(key));
    assert(crate::engine::file_versions_ok(v1, key));
}

/// Version monotonicity, append half: one append moves the number up by
/// exactly one, and every version in between keeps its row.
pub proof fn lemma_append_version_monotonic(
    v0: FsView,
    v1: FsView,
    comps: Seq<Seq<char>>,
    version: Option<u64>,
    data: Seq<u8>,
    now: Time64,
)
    requires
        append_effect(v0, v1, comps, version, data, now),
        wf(v1),
    ensures
        match resolve(v0.fs, comps.take(comps.len() - 1), 0) {
            Resolution::Found(p) => {
                let key = child_key(p, comps[comps.len() - 1]);
                &&& v1.fs.contains_key(key)
                &&& fs_latest_of(v1.fs[key]) == fs_latest_of(v0.fs[key]) + 1
                &&& forall|m: u64|
                    1 <= m <= fs_latest_of(v1.fs[key]) ==> v1.ver.contains_key(
                        #[trigger] ver_key_bytes(fs_id_of(v1.fs[key]), m),
                    )
            },
            _ => false,
        },
{
    let p = resolve(v0.fs, comps.take(comps.len() - 1), 0)->Found_0;
    let key = child_key(p, comps[comps.len() - 1]);
    lemma_fs_value_accessors(
        crate::engine::append_fs_record(v0.fs[key], now),
        fs_name_of(v0.fs[key]),
    );
    assert(v1.fs.contains_key(key));
    assert(crate::engine::file_versions_ok(v1, key));
}

/// A row that is absent or not a folder never carries a resolution step,
/// so inserting such a row leaves every successful walk untouched.
pub proof fn lemma_resolve_frame(
    fs0: Map<Seq<u8>, Seq<u8>>,
    fs1: Map<Seq<u8>, Seq<u8>>,
    key: Seq<u8>,
    val: Seq<u8>,
    path: Seq<Seq<char>>,
    parent: u64,
)
    requires
        fs1 == fs0.insert(key, val),
        !(fs0.contains_key(key) && fs_value_wf(fs0[key]) && fs_type_of(fs0[key])
            == OBJ_TYPE_FOLDER),
        resolve(fs0, path, parent) is Found,
    ensures
        resolve(fs1, path, parent) == resolve(fs0, path, parent),
    decreases path.len(),
{
    if path.len() > 0 {
        let k0 = child_key(parent, path[0]);
        assert(k0 != key);
        assert(fs1.contains_key(k0) && fs1[k0] == fs0[k0]);
        lemma_resolve_frame(fs0, fs1, key, val, path.skip(1), fs_id_of(fs0[k0]));
    }
}

/// Append preserves history. After a single-shot upload of `b1` —
/// creating a file, or with overwrite a new version `n` of an existing
/// one — followed by one append of `b2`, version `n` still reads back
/// exactly `b1` and never a byte past its recorded length, and version
/// `n + 1` reads back `b1 || b2` under any large enough request.
#[verifier::rlimit(100)]
pub proof fn lemma_append_preserves_history(
    v0: FsView,
    v1: FsView,
    v2: FsView,
    comps: Seq<Seq<char>>,
    b1: Seq<u8>,
    b2: Seq<u8>,
    uid: u32,
    gid: u32,
    perms: Option<crate::perms::UnixPermissions>,
    next: bool,
    now1: Time64,
    av: Option<u64>,
    now2: Time64,
    sid: Seq<u8>,
    fnm: Seq<u8>,
    len1: u64,
    len2: u64,
)
    requires
        upload_commit_effect_with(
            v0,
            v1,
            comps,
            b1,
            uid,
            gid,
            perms,
            next,
            Seq::<u8>::empty(),
            now1,
            sid,
            fnm,
        ),
        append_effect(v1, v2, comps, av, b2, now2),
        trim_of(comps[comps.len() - 1]) == comps[comps.len() - 1],
        0 < b1.len() + b2.len() <= MAX_READ_SIZE,
        b1.len() <= len1,
        b1.len() + b2.len() <= len2,
    ensures
        match resolve(v0.fs, comps.take(comps.len() - 1), 0) {
            Resolution::Found(p) => {
                let key = be8_of(p) + utf8_of(nfkd_of(trim_of(comps[comps.len() - 1])));
                let n: u64 = if v0.fs.contains_key(key) {
                    (fs_latest_of(v0.fs[key]) + 1) as u64
                } else {
                    1u64
                };
                &&& download_error(v2, comps, Some(n), 0) is None
                &&& download_expect(v2, comps, Some(n), 0, len1).0 == b1
                &&& download_error(v2, comps, Some((n + 1) as u64), 0) is None
                &&& download_expect(v2, comps, Some((n + 1) as u64), 0, len2).0 == b1 + b2
            },
            _ => false,
        },
{
    let parents = comps.take(comps.len() - 1);
    let p = resolve(v0.fs, parents, 0)->Found_0;
    let leaf = comps[comps.len() - 1];
    let key = be8_of(p) + utf8_of(nfkd_of(trim_of(leaf)));
    let existing = v0.fs.contains_key(key);
    let fid = if existing {
        fs_id_of(v0.fs[key])
    } else {
        (counter_of(v0) + 1) as u64
    };
    let cv: u64 = if existing {
        (fs_latest_of(v0.fs[key]) + 1) as u64
    } else {
        1u64
    };
    let snm = blob_name_of(sid);
    let frec1 = upload_file_record(v0, key, fid, cv, now1);
    let disp = utf8_of(trim_of(leaf));
    lemma_fs_value_accessors(frec1, disp);
    let vrec1 = upload_version_record(now1, b1.len() as u64, uid, gid, crate::engine::flags_of(perms));
    lemma_ver_value_accessors(vrec1, fnm);
    lemma_ver_key_accessors(fid, cv);
    // the upload wrote version `cv` with length |b1| and blob `fnm == snm`
    assert(fnm == snm);
    assert(v1.blobs == v0.blobs.insert(snm, blob_contents_or_empty(v0.blobs, snm) + b1));
    assert(blob_contents_or_empty(v0.blobs, snm) + b1 =~= b1);
    // any existing row under this name is a file (a folder is refused),
    // so the walk is unchanged by the new or bumped file row
    assert(!(v0.fs.contains_key(key) && fs_value_wf(v0.fs[key]) && fs_type_of(v0.fs[key])
        == OBJ_TYPE_FOLDER));
    lemma_resolve_frame(v0.fs, v1.fs, key, fs_value_bytes(frec1, disp), parents, 0);
    assert(resolve(v1.fs, parents, 0) == Resolution::Found(p));
    assert(child_key(p, leaf) == key);
    // read the append effect at version `cv + 1`
    assert(fs_latest_of(v1.fs[key]) == cv);
    assert(fs_id_of(v1.fs[key]) == fid);
    let row1 = v1.ver[ver_key_bytes(fid, cv)];
    assert(row1 == crate::records::ver_value_bytes(vrec1, fnm));
    assert(ver_blob_of(row1) == snm);
    assert(ver_length_of(row1) == b1.len() as u64);
    assert(b1.len() < UNKNOWN_SIZE);
    let vrec2 = crate::engine::append_version_record(row1, now2, (b1.len() + b2.len()) as u64);
    lemma_ver_value_accessors(vrec2, snm);
    lemma_ver_key_accessors(fid, (cv + 1) as u64);
    let frec2 = crate::engine::append_fs_record(v1.fs[key], now2);
    lemma_fs_value_accessors(frec2, fs_name_of(v1.fs[key]));
    assert(v2.blobs == v1.blobs.insert(snm, v1.blobs[snm] + b2));
    assert(v1.blobs[snm] == b1);
    assert(v2.blobs[snm] == b1 + b2);
    // the walk is also unchanged by the bumped file row
    lemma_resolve_frame(
        v1.fs,
        v2.fs,
        key,
        fs_value_bytes(frec2, fs_name_of(v1.fs[key])),
        parents,
        0,
    );
    assert(resolve(v2.fs, parents, 0) == Resolution::Found(p));
    // version keys are distinct
    assert(ver_key_bytes(fid, (cv + 1) as u64) != ver_key_bytes(fid, cv));
    assert(v2.ver[ver_key_bytes(fid, cv)] == row1);
    assert(v2.fs[key] == fs_value_bytes(frec2, fs_name_of(v1.fs[key])));
    assert(fs_id_of(v2.fs[key]) == fid);
    assert(fs_type_of(v2.fs[key]) == OBJ_TYPE_FILE);
    // version `cv` window: [0, |b1|) of b1 || b2
    assert(download_error(v2, comps, Some(cv), 0) is None);
    assert((b1 + b2).subrange(0, b1.len() as int) =~= b1);
    assert(download_expect(v2, comps, Some(cv), 0, len1).0 == b1);
    // version `cv + 1` window: all of b1 || b2
    assert(v2.ver[ver_key_bytes(fid, (cv + 1) as u64)] == crate::records::ver_value_bytes(
        vrec2,
        snm,
    ));
    assert(ver_length_of(v2.ver[ver_key_bytes(fid, (cv + 1) as u64)]) == (b1.len()
        + b2.len()) as u64);
    assert(download_error(v2, comps, Some((cv + 1) as u64), 0) is None);
    assert((b1 + b2).subrange(0, (b1.len() + b2.len()) as int) =~= b1 + b2);
    assert(download_expect(v2, comps, Some((cv + 1) as u64), 0, len2).0 == b1 + b2);
}

/// No version row keyed by the file at `key` remains, and none of the
/// blob files its old rows named remains.
pub open spec fn versions_gone(v0: FsView, v1: FsView, key: Seq<u8>) -> bool {
    &&& forall|vk: Seq<u8>|
        vk.len() == 16 && vkey_id_of(vk) == fs_id_of(v0.fs[key]) ==> !(
        #[trigger] v1.ver.contains_key(vk))
    &&& forall|m: u64|
        1 <= m <= fs_latest_of(v0.fs[key]) ==> !v1.blobs.contains_key(
            ver_blob_of(v0.ver[#[trigger] ver_key_bytes(fs_id_of(v0.fs[key]), m)]),
        )
}

/// Delete removes all versions. After a successful delete of a file, no
/// version row whose key begins with that file's identifier remains, and
/// no blob file any of its rows named remains.
pub proof fn lemma_delete_removes_all_versions(
    v0: FsView,
    v1: FsView,
    comps: Seq<Seq<char>>,
    version: Option<u64>,
)
    requires
        wf(v0),
        delete_effect(v0, v1, comps, version),
    ensures
        match resolve(v0.fs, comps.take(comps.len() - 1), 0) {
            Resolution::Found(p) => {
                let key = child_key(p, comps[comps.len() - 1]);
                let b = v0.fs[key];
                fs_type_of(b) == OBJ_TYPE_FILE ==> versions_gone(v0, v1, key)
            },
            _ => false,
        },
{
    let p = resolve(v0.fs, comps.take(comps.len() - 1), 0)->Found_0;
    let key = child_key(p, comps[comps.len() - 1]);
    let b = v0.fs[key];
    let fid = fs_id_of(b);
    let latest = fs_latest_of(b);
    if fs_type_of(b) == OBJ_TYPE_FILE {
        assert forall|vk: Seq<u8>| vk.len() == 16 && vkey_id_of(vk) == fid implies !(
        #[trigger] v1.ver.contains_key(vk)) by {
            if v1.ver.contains_key(vk) {
                assert(v0.ver.contains_key(vk));
                assert(ver_row_ok(v0, vk));
                let w = choose|k: Seq<u8>|
                    #[trigger] v0.fs.contains_key(k) && fs_id_of(v0.fs[k]) == vkey_id_of(vk)
                        && fs_type_of(v0.fs[k]) == OBJ_TYPE_FILE && 1 <= vkey_ver_of(vk)
                        <= fs_latest_of(v0.fs[k]);
                assert(w == key);
                lemma_ver_key_recon(vk);
                assert(vkeys_between(fid, 1, latest as int).contains(vk));
                assert(false);
            }
        }
        assert forall|m: u64| 1 <= m <= latest implies !v1.blobs.contains_key(
            ver_blob_of(v0.ver[#[trigger] ver_key_bytes(fid, m)]),
        ) by {
            assert(crate::engine::file_versions_ok(v0, key));
            assert(v0.ver.contains_key(ver_key_bytes(fid, m)));
            assert(crate::engine::blob_names_between(v0.ver, fid, 1, latest as int).contains(
                ver_blob_of(v0.ver[ver_key_bytes(fid, m)]),
            ));
        }
    }
}

/// Listing is exact, ordering half: the entries of a listing stand in
/// strictly ascending byte order of their normalized-name key suffixes;
/// with `list_matches` itself this gives exactly one entry per child.
pub proof fn lemma_listing_exact(
    fs: Map<Seq<u8>, Seq<u8>>,
    p: u64,
    ks: Seq<Seq<u8>>,
    entries: Seq<ListEntry>,
    with_attrs: bool,
)
    requires
        list_matches(fs, p, ks, entries, with_attrs),
    ensures
        entries.len() == ks.len(),
        forall|i: int, j: int| 0 <= i < j < ks.len() ==> lex_lt(ks[i].skip(8), ks[j].skip(8)),
{
    assert(list_matches(fs, p, ks, entries, with_attrs));
    assert forall|i: int, j: int| 0 <= i < j < ks.len() implies lex_lt(
        ks[i].skip(8),
        ks[j].skip(8),
    ) by {
        assert(list_matches(fs, p, ks, entries, with_attrs));
        assert(0 <= i < ks.len() && 0 <= j < ks.len());
        assert(fs.contains_key(ks[i]) && ks[i].take(8) == be8_of(p));
        assert(fs.contains_key(ks[j]) && ks[j].take(8) == be8_of(p));
        assert(ks[i] =~= be8_of(p) + ks[i].skip(8));
        assert(ks[j] =~= be8_of(p) + ks[j].skip(8));
        lemma_lex_common_prefix(be8_of(p), ks[i].skip(8), ks[j].skip(8));
        assert(lex_lt(ks[i], ks[j]));
    }
}

/// Path typing: a walk that meets a non-folder names exactly the
/// path-typing fault in every operation's classification, so each
/// operation answers `invalid_argument` and, by its own contract, leaves
/// the tables as they were.
pub proof fn lemma_path_typing(
    v: FsView,
    comps: Seq<Seq<char>>,
    version: Option<u64>,
    offset: u64,
    data: Seq<u8>,
    next: bool,
)
    requires
        comps.len() > 0,
        resolve(v.fs, comps.take(comps.len() - 1), 0) is NotFolder,
    ensures
        mkdir_error(v, comps) == Some(FsError::NonFolderInPath),
        upload_meta_error(v, comps, next) == Some(FsError::NonFolderInPath),
        append_error(v, comps, version, data) == Some(FsError::NonFolderInPath),
        download_error(v, comps, version, offset) == Some(FsError::NonFolderInPath),
        delete_error(v, comps, version) == Some(FsError::NonFolderInPath),
{
}

/// Continuation binding: when a chunked upload finalizes, the staging
/// blob is renamed away, so the old token's blob name is gone from the
/// directory, and any later upload presenting that token is classified
/// as carrying an invalid continuation.
pub proof fn lemma_continuation_retired(
    v0: FsView,
    v1: FsView,
    comps: Seq<Seq<char>>,
    data: Seq<u8>,
    uid: u32,
    gid: u32,
    perms: Option<crate::perms::UnixPermissions>,
    next: bool,
    continuation: Seq<u8>,
    now: Time64,
    sid: Seq<u8>,
    fnm: Seq<u8>,
)
    requires
        upload_commit_effect_with(
            v0,
            v1,
            comps,
            data,
            uid,
            gid,
            perms,
            next,
            continuation,
            now,
            sid,
            fnm,
        ),
        continuation.len() == 16,
    ensures
        sid == continuation,
        !v1.blobs.contains_key(blob_name_of(continuation)),
        crate::engine::upload_token_error(v1, continuation) == Some(
            FsError::InvalidContinuation,
        ),
        v1.blobs.contains_key(fnm) && v1.blobs[fnm] == blob_contents_or_empty(
            v0.blobs,
            blob_name_of(continuation),
        ) + data,
{
    let snm = blob_name_of(sid);
    let staged = blob_contents_or_empty(v0.blobs, snm) + data;
    assert(!v0.blobs.insert(snm, staged).contains_key(fnm));
    assert(fnm != snm);
}

} // verus!
