//! The blob store: a flat directory of append-only files, each named by a
//! 128-bit lexicographically sortable identifier rendered in base32 with a
//! fixed suffix.
//!
//! The directory's contents are named by one spec-level map from file name
//! bytes to file contents. Every operation is a thin trusted wrapper around
//! an outside file call; each contract states how the call moves that map.
//! The directory belongs to the store alone: nothing else places entries
//! there (the contracts describe the regular files the store itself
//! creates).

use vstd::prelude::*;
use tokio::io::AsyncWriteExt;

verus! {

/// The blob directory, with the runtime that drives its file calls.
#[verifier::external_body]
pub struct BlobDir {
    dir: std::path::PathBuf,
    rt: tokio::runtime::Runtime,
}

/// Contents of the blob directory: file name bytes to file bytes.
pub uninterp spec fn blobs_of(b: BlobDir) -> Map<Seq<u8>, Seq<u8>>;

/// The file name that a 16-byte blob identifier is rendered as: its
/// 26-character base32 form followed by the fixed suffix.
pub uninterp spec fn blob_name_of(id: Seq<u8>) -> Seq<u8>;

/// A name the blob directory can hold: non-empty, no path separator, no
/// NUL byte.
pub open spec fn blob_name_ok(n: Seq<u8>) -> bool {
    &&& n.len() > 0
    &&& forall|i: int| 0 <= i < n.len() ==> n[i] != 47u8 && n[i] != 0u8
}

/// The blob directory holds nothing.
pub open spec fn blobs_empty(b: BlobDir) -> bool {
    blobs_of(b) == Map::<Seq<u8>, Seq<u8>>::empty()
}

/// The bytes a name holds before an append, taking an absent name as
/// empty.
pub open spec fn blob_contents_or_empty(m: Map<Seq<u8>, Seq<u8>>, name: Seq<u8>) -> Seq<u8> {
    if m.contains_key(name) {
        m[name]
    } else {
        Seq::<u8>::empty()
    }
}

/// Some prefix of `data` was appended under `name`: what a failed append
/// may leave behind.
pub open spec fn blob_partial_append(
    m0: Map<Seq<u8>, Seq<u8>>,
    m1: Map<Seq<u8>, Seq<u8>>,
    name: Seq<u8>,
    data: Seq<u8>,
) -> bool {
    ||| m1 == m0
    ||| exists|p: int|
        0 <= p <= data.len() && m1 == m0.insert(
            name,
            blob_contents_or_empty(m0, name) + data.take(p),
        )
}

/// Relies on ulid's `Ulid::generate` and `to_bytes`: a fresh 16-byte
/// identifier whose high bits sort by creation time.
#[verifier::external_body]
pub fn mint_blob_id() -> (r: Vec<u8>)
    ensures
        r@.len() == 16,
{
    ulid::Ulid::generate().to_bytes().to_vec()
}

/// Relies on ulid's base32 rendering: the file name for an identifier is a
/// pure function of its 16 bytes, made of base32 characters and the fixed
/// suffix, so never empty and never holding a separator or NUL.
#[verifier::external_body]
pub fn blob_file_name(id: &Vec<u8>) -> (r: Vec<u8>)
    requires
        id@.len() == 16,
    ensures
        r@ == blob_name_of(id@),
        blob_name_ok(r@),
{
    let mut arr = [0u8; 16];
    arr.copy_from_slice(&id[..]);
    let u = ulid::Ulid::from_bytes(arr);
    format!("{}.blob", u).into_bytes()
}

impl BlobDir {
    /// Relies on tokio's `remove_dir_all` and `create_dir_all`: the
    /// directory exists and is empty afterwards. A removal failure other
    /// than the directory already being absent may leave entries behind,
    /// so it is an error.
    #[verifier::external_body]
    pub fn open_fresh(dir: &str) -> (r: Result<BlobDir, ()>)
        ensures
            r matches Ok(b) ==> blobs_empty(b),
    {
        let rt = match tokio::runtime::Builder::new_current_thread().build() {
            Ok(rt) => rt,
            Err(_) => return Err(()),
        };
        if let Err(e) = rt.block_on(tokio::fs::remove_dir_all(dir)) {
            if e.kind() != std::io::ErrorKind::NotFound {
                return Err(());
            }
        }
        if rt.block_on(tokio::fs::create_dir_all(dir)).is_err() {
            return Err(());
        }
        Ok(BlobDir { dir: std::path::PathBuf::from(dir), rt })
    }

    /// Relies on tokio's `create_dir_all`: the directory exists
    /// afterwards and whatever files it already held are kept.
    #[verifier::external_body]
    pub fn open_keep(dir: &str) -> (r: Result<BlobDir, ()>) {
        let rt = match tokio::runtime::Builder::new_current_thread().build() {
            Ok(rt) => rt,
            Err(_) => return Err(()),
        };
        if rt.block_on(tokio::fs::create_dir_all(dir)).is_err() {
            return Err(());
        }
        Ok(BlobDir { dir: std::path::PathBuf::from(dir), rt })
    }

    /// Relies on tokio's `OpenOptions` (append + create) and `write_all`:
    /// on success the bytes land at the end of the named file, which is
    /// created empty first when absent; on failure at most a prefix of
    /// them landed there.
    #[verifier::external_body]
    pub fn create_append(&mut self, name: &Vec<u8>, data: &Vec<u8>) -> (r: Result<(), ()>)
        requires
            blob_name_ok(name@),
        ensures
            r.is_ok() ==> blobs_of(*final(self)) == blobs_of(*old(self)).insert(
                name@,
                blob_contents_or_empty(blobs_of(*old(self)), name@) + data@,
            ),
            r.is_err() ==> blob_partial_append(
                blobs_of(*old(self)),
                blobs_of(*final(self)),
                name@,
                data@,
            ),
    {
        let s = String::from_utf8(name.clone()).map_err(|_| ())?;
        let mut opts = tokio::fs::OpenOptions::new();
        opts.append(true).create(true);
        let mut f = self.rt.block_on(opts.open(self.dir.join(s))).map_err(|_| ())?;
        self.rt.block_on(f.write_all(data.as_slice())).map_err(|_| ())?;
        self.rt.block_on(f.flush()).map_err(|_| ())?;
        self.rt.block_on(f.sync_all()).map_err(|_| ())
    }

    /// Relies on tokio's `OpenOptions` (append, no create) and
    /// `write_all`: as `create_append`, but the file must already exist.
    #[verifier::external_body]
    pub fn append_existing(&mut self, name: &Vec<u8>, data: &Vec<u8>) -> (r: Result<(), ()>)
        requires
            blob_name_ok(name@),
        ensures
            r.is_ok() ==> blobs_of(*old(self)).contains_key(name@) && blobs_of(*final(self))
                == blobs_of(*old(self)).insert(name@, blobs_of(*old(self))[name@] + data@),
            r.is_err() ==> blob_partial_append(
                blobs_of(*old(self)),
                blobs_of(*final(self)),
                name@,
                data@,
            ),
    {
        let s = String::from_utf8(name.clone()).map_err(|_| ())?;
        let mut opts = tokio::fs::OpenOptions::new();
        opts.append(true);
        let mut f = self.rt.block_on(opts.open(self.dir.join(s))).map_err(|_| ())?;
        self.rt.block_on(f.write_all(data.as_slice())).map_err(|_| ())?;
        self.rt.block_on(f.flush()).map_err(|_| ())?;
        self.rt.block_on(f.sync_all()).map_err(|_| ())
    }

    /// Relies on tokio's `fs::read`: the whole contents of the named
    /// file.
    #[verifier::external_body]
    pub fn read_all(&self, name: &Vec<u8>) -> (r: Result<Vec<u8>, ()>)
        requires
            blob_name_ok(name@),
        ensures
            r matches Ok(v) ==> blobs_of(*self).contains_key(name@) && v@ == blobs_of(*self)[
                name@],
    {
        let s = match String::from_utf8(name.clone()) {
            Ok(s) => s,
            Err(_) => return Err(()),
        };
        self.rt.block_on(tokio::fs::read(self.dir.join(s))).map_err(|_| ())
    }

    /// Relies on tokio's `fs::metadata`: the byte length of the named
    /// file.
    #[verifier::external_body]
    pub fn len_of(&self, name: &Vec<u8>) -> (r: Result<u64, ()>)
        requires
            blob_name_ok(name@),
        ensures
            r matches Ok(v) ==> blobs_of(*self).contains_key(name@) ==> v as nat == blobs_of(
                *self,
            )[name@].len(),
    {
        let s = match String::from_utf8(name.clone()) {
            Ok(s) => s,
            Err(_) => return Err(()),
        };
        match self.rt.block_on(tokio::fs::metadata(self.dir.join(s))) {
            Ok(m) => Ok(m.len()),
            Err(_) => Err(()),
        }
    }

    /// Relies on tokio's `fs::try_exists`: a name reported absent has no
    /// entry in the directory.
    #[verifier::external_body]
    pub fn has_blob(&self, name: &Vec<u8>) -> (r: Result<bool, ()>)
        requires
            blob_name_ok(name@),
        ensures
            r matches Ok(b) ==> (!b ==> !blobs_of(*self).contains_key(name@)),
    {
        let s = match String::from_utf8(name.clone()) {
            Ok(s) => s,
            Err(_) => return Err(()),
        };
        self.rt.block_on(tokio::fs::try_exists(self.dir.join(s))).map_err(|_| ())
    }

    /// Relies on tokio's `fs::rename`: an atomic rename within the
    /// directory; on success the bytes answer to the new name only, on
    /// failure nothing moved.
    #[verifier::external_body]
    pub fn rename(&mut self, from: &Vec<u8>, to: &Vec<u8>) -> (r: Result<(), ()>)
        requires
            blob_name_ok(from@),
            blob_name_ok(to@),
        ensures
            r.is_ok() && blobs_of(*old(self)).contains_key(from@) ==> blobs_of(*final(self))
                == blobs_of(*old(self)).remove(from@).insert(to@, blobs_of(*old(self))[from@]),
            r.is_ok() && !blobs_of(*old(self)).contains_key(from@) ==> blobs_of(*final(self))
                == blobs_of(*old(self)),
            r.is_err() ==> blobs_of(*final(self)) == blobs_of(*old(self)),
    {
        let sf = match String::from_utf8(from.clone()) {
            Ok(s) => s,
            Err(_) => return Err(()),
        };
        let st = match String::from_utf8(to.clone()) {
            Ok(s) => s,
            Err(_) => return Err(()),
        };
        self.rt.block_on(tokio::fs::rename(self.dir.join(sf), self.dir.join(st))).map_err(|_| ())
    }

    /// Relies on tokio's `fs::remove_file`: the named entry is gone
    /// afterwards; a name already absent counts as removed.
    #[verifier::external_body]
    pub fn remove(&mut self, name: &Vec<u8>) -> (r: Result<(), ()>)
        requires
            blob_name_ok(name@),
        ensures
            r.is_ok() ==> blobs_of(*final(self)) == blobs_of(*old(self)).remove(name@),
            r.is_err() ==> blobs_of(*final(self)) == blobs_of(*old(self)),
    {
        let s = match String::from_utf8(name.clone()) {
            Ok(s) => s,
            Err(_) => return Err(()),
        };
        match self.rt.block_on(tokio::fs::remove_file(self.dir.join(s))) {
            Ok(()) => Ok(()),
            Err(e) if e.kind() == std::io::ErrorKind::NotFound => Ok(()),
            Err(_) => Err(()),
        }
    }
}

} // verus!
