//! The two on-disk record formats.
//!
//! An `fs` row maps (parent identifier, normalized child name) to a fixed
//! 64-byte header followed by the display form of the name. A `ver` row maps
//! (file identifier, version number) to a fixed 40-byte header followed by
//! the name of the blob file holding that version's bytes. All integers are
//! big-endian; the byte layout here is the contract, not any in-memory
//! representation.

use vstd::prelude::*;
use crate::time64::Time64;
use crate::wire::{
    be2_of,
    be4_of,
    be8_of,
    lemma_be2_roundtrip,
    lemma_be4_roundtrip,
    lemma_be8_roundtrip,
    num16_of,
    num32_of,
    num64_of,
    u16_from_be,
    u16_to_be,
    u32_from_be,
    u32_to_be,
    u64_from_be,
    u64_to_be,
};

verus! {

pub type FileSystemId = u64;

/// Identifier of the synthetic root folder.
pub const ROOT_FSID: u64 = 0;

pub type FsVersion = u64;

pub type StorageTierId = u16;

pub const DEFAULT_STORAGE_TIER: u16 = 0;

pub const OBJ_TYPE_FILE: u8 = 0;

pub const OBJ_TYPE_FOLDER: u8 = 1;

pub const OBJ_TYPE_SYMLINK: u8 = 2;

pub const OBJ_TYPE_FIFO: u8 = 3;

pub const OBJ_TYPE_SOCKET: u8 = 4;

pub const OBJ_TYPE_APPEND_BLOB: u8 = 5;

pub const OBJ_TYPE_BLOCK_BLOB: u8 = 6;

/// Sentinel length meaning "unknown; consult the blob file size".
pub const UNKNOWN_SIZE: u64 = 0xFFFF_FFFF_FFFF_FFFF;

pub const FS_VALUE_HEADER_LEN: usize = 64;

pub const VER_VALUE_HEADER_LEN: usize = 40;

pub const VER_KEY_LEN: usize = 16;

#[derive(Clone, Copy, PartialEq, Eq, Structural, Debug)]
pub enum ObjectType {
    File,
    Folder,
    Symlink,
    Fifo,
    Socket,
    AppendBlob,
    BlockBlob,
}

/// The object type that a tag byte stands for; blob tags have no wire-level
/// object type and give nothing.
pub open spec fn obj_type_of(t: u8) -> Option<ObjectType> {
    if t == OBJ_TYPE_FILE {
        Some(ObjectType::File)
    } else if t == OBJ_TYPE_FOLDER {
        Some(ObjectType::Folder)
    } else if t == OBJ_TYPE_SYMLINK {
        Some(ObjectType::Symlink)
    } else if t == OBJ_TYPE_FIFO {
        Some(ObjectType::Fifo)
    } else if t == OBJ_TYPE_SOCKET {
        Some(ObjectType::Socket)
    } else {
        None
    }
}

/// Tag bytes whose objects carry readable byte contents.
pub open spec fn is_readable_type(t: u8) -> bool {
    t == OBJ_TYPE_FILE || t == OBJ_TYPE_APPEND_BLOB || t == OBJ_TYPE_BLOCK_BLOB || t
        == OBJ_TYPE_FIFO || t == OBJ_TYPE_SOCKET
}

pub fn is_readable_obj_type(obj_type: u8) -> (r: bool)
    ensures
        r == is_readable_type(obj_type),
{
    obj_type == OBJ_TYPE_FILE || obj_type == OBJ_TYPE_APPEND_BLOB || obj_type
        == OBJ_TYPE_BLOCK_BLOB || obj_type == OBJ_TYPE_FIFO || obj_type == OBJ_TYPE_SOCKET
}

/// An `fs` table key, in its two parts: the parent's identifier and the
/// normalized name bytes of the child.
pub struct FsRecordKey {
    pub parent_id: u64,
    pub relative_key: Vec<u8>,
}

impl FsRecordKey {
    pub fn to_bytes(&self) -> (r: Vec<u8>)
        ensures
            r@ == be8_of(self.parent_id) + self.relative_key@,
    {
        let mut r = u64_to_be(self.parent_id);
        let mut i: usize = 0;
        while i < self.relative_key.len()
            invariant
                0 <= i <= self.relative_key.len(),
                r@ == be8_of(self.parent_id) + self.relative_key@.subrange(0, i as int),
            decreases self.relative_key.len() - i,
        {
            r.push(self.relative_key[i]);
            proof {
                assert(be8_of(self.parent_id) + self.relative_key@.subrange(0, i as int)
                    + seq![self.relative_key@[i as int]] =~= be8_of(self.parent_id)
                    + self.relative_key@.subrange(0, i as int + 1));
            }
            i = i + 1;
        }
        proof {
            assert(self.relative_key@.subrange(0, self.relative_key@.len() as int)
                =~= self.relative_key@);
        }
        r
    }
}

/// The fixed header of an `fs` row's value.
#[derive(Clone, Copy, PartialEq, Eq, Structural, Debug)]
pub struct FsRecordValue {
    pub id: u64,
    /// The time at which the first version of the object was created.
    pub create_time: Time64,
    /// The time at which the object contents were last modified.
    pub modify_time: Time64,
    /// The time at which the object was last read.
    pub access_time: Time64,
    /// The time at which object permissions or metadata were last changed.
    pub change_time: Time64,
    /// The time at which the object was deleted.
    pub delete_time: Time64,
    /// Object type tag.
    pub otype: u8,
    /// Number of the newest version: at least 1 for files, 0 for folders.
    pub latest_version: u64,
}

impl FsRecordValue {
    pub fn obj_type(&self) -> (r: Option<ObjectType>)
        ensures
            r == obj_type_of(self.otype),
    {
        if self.otype == OBJ_TYPE_FILE {
            Some(ObjectType::File)
        } else if self.otype == OBJ_TYPE_FOLDER {
            Some(ObjectType::Folder)
        } else if self.otype == OBJ_TYPE_SYMLINK {
            Some(ObjectType::Symlink)
        } else if self.otype == OBJ_TYPE_FIFO {
            Some(ObjectType::Fifo)
        } else if self.otype == OBJ_TYPE_SOCKET {
            Some(ObjectType::Socket)
        } else {
            None
        }
    }
}

impl Default for FsRecordValue {
    /// A blank file header: no identifier, all times unknown, one version.
    fn default() -> (r: Self)
        ensures
            r.id == 0,
            r.create_time.0 == 0,
            r.modify_time.0 == 0,
            r.access_time.0 == 0,
            r.change_time.0 == 0,
            r.delete_time.0 == 0,
            r.otype == OBJ_TYPE_FILE,
            r.latest_version == 1,
    {
        FsRecordValue {
            id: 0,
            create_time: Time64(0),
            modify_time: Time64(0),
            access_time: Time64(0),
            change_time: Time64(0),
            delete_time: Time64(0),
            otype: OBJ_TYPE_FILE,
            latest_version: 1,
        }
    }
}

/// The bytes of an `fs` row value: the 64-byte header then the display name.
pub open spec fn fs_value_bytes(rec: FsRecordValue, name: Seq<u8>) -> Seq<u8> {
    be8_of(rec.id) + be8_of(rec.create_time.0) + be8_of(rec.modify_time.0) + be8_of(
        rec.access_time.0,
    ) + be8_of(rec.change_time.0) + be8_of(rec.delete_time.0) + seq![
        rec.otype,
        0u8,
        0u8,
        0u8,
        0u8,
        0u8,
        0u8,
        0u8,
    ] + be8_of(rec.latest_version) + name
}

pub open spec fn fs_value_wf(b: Seq<u8>) -> bool {
    b.len() >= 64
}

pub open spec fn fs_id_of(b: Seq<u8>) -> u64 {
    num64_of(b.subrange(0, 8))
}

pub open spec fn fs_create_of(b: Seq<u8>) -> u64 {
    num64_of(b.subrange(8, 16))
}

pub open spec fn fs_modify_of(b: Seq<u8>) -> u64 {
    num64_of(b.subrange(16, 24))
}

pub open spec fn fs_access_of(b: Seq<u8>) -> u64 {
    num64_of(b.subrange(24, 32))
}

pub open spec fn fs_change_of(b: Seq<u8>) -> u64 {
    num64_of(b.subrange(32, 40))
}

pub open spec fn fs_delete_of(b: Seq<u8>) -> u64 {
    num64_of(b.subrange(40, 48))
}

pub open spec fn fs_type_of(b: Seq<u8>) -> u8 {
    b[48]
}

pub open spec fn fs_latest_of(b: Seq<u8>) -> u64 {
    num64_of(b.subrange(56, 64))
}

/// The display-name bytes after the header.
pub open spec fn fs_name_of(b: Seq<u8>) -> Seq<u8> {
    b.skip(64)
}

/// Reading a field of an encoded `fs` value gives the field back.
pub proof fn lemma_fs_value_accessors(rec: FsRecordValue, name: Seq<u8>)
    ensures
        fs_value_wf(fs_value_bytes(rec, name)),
        fs_id_of(fs_value_bytes(rec, name)) == rec.id,
        fs_create_of(fs_value_bytes(rec, name)) == rec.create_time.0,
        fs_modify_of(fs_value_bytes(rec, name)) == rec.modify_time.0,
        fs_access_of(fs_value_bytes(rec, name)) == rec.access_time.0,
        fs_change_of(fs_value_bytes(rec, name)) == rec.change_time.0,
        fs_delete_of(fs_value_bytes(rec, name)) == rec.delete_time.0,
        fs_type_of(fs_value_bytes(rec, name)) == rec.otype,
        fs_latest_of(fs_value_bytes(rec, name)) == rec.latest_version,
        fs_name_of(fs_value_bytes(rec, name)) == name,
{
    let b = fs_value_bytes(rec, name);
    assert(b.subrange(0, 8) =~= be8_of(rec.id));
    assert(b.subrange(8, 16) =~= be8_of(rec.create_time.0));
    assert(b.subrange(16, 24) =~= be8_of(rec.modify_time.0));
    assert(b.subrange(24, 32) =~= be8_of(rec.access_time.0));
    assert(b.subrange(32, 40) =~= be8_of(rec.change_time.0));
    assert(b.subrange(40, 48) =~= be8_of(rec.delete_time.0));
    assert(b.subrange(56, 64) =~= be8_of(rec.latest_version));
    assert(b.skip(64) =~= name);
    lemma_be8_roundtrip(rec.id);
    lemma_be8_roundtrip(rec.create_time.0);
    lemma_be8_roundtrip(rec.modify_time.0);
    lemma_be8_roundtrip(rec.access_time.0);
    lemma_be8_roundtrip(rec.change_time.0);
    lemma_be8_roundtrip(rec.delete_time.0);
    lemma_be8_roundtrip(rec.latest_version);
}

pub fn encode_fs_value(rec: &FsRecordValue, display_name: &Vec<u8>) -> (r: Vec<u8>)
    ensures
        r@ == fs_value_bytes(*rec, display_name@),
{
    let mut r = u64_to_be(rec.id);
    let mut part = u64_to_be(rec.create_time.0);
    r.append(&mut part);
    let mut part = u64_to_be(rec.modify_time.0);
    r.append(&mut part);
    let mut part = u64_to_be(rec.access_time.0);
    r.append(&mut part);
    let mut part = u64_to_be(rec.change_time.0);
    r.append(&mut part);
    let mut part = u64_to_be(rec.delete_time.0);
    r.append(&mut part);
    r.push(rec.otype);
    r.push(0u8);
    r.push(0u8);
    r.push(0u8);
    r.push(0u8);
    r.push(0u8);
    r.push(0u8);
    r.push(0u8);
    let mut part = u64_to_be(rec.latest_version);
    r.append(&mut part);
    let ghost header = r@;
    let mut i: usize = 0;
    while i < display_name.len()
        invariant
            0 <= i <= display_name.len(),
            r@ == header + display_name@.subrange(0, i as int),
        decreases display_name.len() - i,
    {
        r.push(display_name[i]);
        proof {
            assert(header + display_name@.subrange(0, i as int) + seq![
                display_name@[i as int],
            ] =~= header + display_name@.subrange(0, i as int + 1));
        }
        i = i + 1;
    }
    proof {
        assert(display_name@.subrange(0, display_name@.len() as int) =~= display_name@);
        assert(header + display_name@ =~= fs_value_bytes(*rec, display_name@));
    }
    r
}

/// Splits a raw `fs` row value into its header fields and display name;
/// nothing when the value is shorter than the fixed header.
pub fn decode_fs_value(b: &Vec<u8>) -> (r: Option<(FsRecordValue, Vec<u8>)>)
    ensures
        r.is_some() <==> fs_value_wf(b@),
        r matches Some(p) ==> {
            &&& p.0.id == fs_id_of(b@)
            &&& p.0.create_time.0 == fs_create_of(b@)
            &&& p.0.modify_time.0 == fs_modify_of(b@)
            &&& p.0.access_time.0 == fs_access_of(b@)
            &&& p.0.change_time.0 == fs_change_of(b@)
            &&& p.0.delete_time.0 == fs_delete_of(b@)
            &&& p.0.otype == fs_type_of(b@)
            &&& p.0.latest_version == fs_latest_of(b@)
            &&& p.1@ == fs_name_of(b@)
        },
{
    if b.len() < 64 {
        return None;
    }
    let rec = FsRecordValue {
        id: u64_from_be(b, 0),
        create_time: Time64(u64_from_be(b, 8)),
        modify_time: Time64(u64_from_be(b, 16)),
        access_time: Time64(u64_from_be(b, 24)),
        change_time: Time64(u64_from_be(b, 32)),
        delete_time: Time64(u64_from_be(b, 40)),
        otype: b[48],
        latest_version: u64_from_be(b, 56),
    };
    let mut name: Vec<u8> = Vec::new();
    let mut i: usize = 64;
    while i < b.len()
        invariant
            64 <= i <= b.len(),
            name@ == b@.subrange(64, i as int),
        decreases b.len() - i,
    {
        name.push(b[i]);
        proof {
            assert(b@.subrange(64, i as int) + seq![b@[i as int]] =~= b@.subrange(
                64,
                i as int + 1,
            ));
        }
        i = i + 1;
    }
    proof {
        assert(b@.subrange(64, b@.len() as int) =~= b@.skip(64));
    }
    Some((rec, name))
}

/// A `ver` table key, in its two parts.
#[derive(Clone, Copy, PartialEq, Eq, Structural, Debug)]
pub struct VersionRecordKey {
    pub file_id: u64,
    pub version: u64,
}

/// The bytes of a `ver` key: file identifier then version, big-endian.
pub open spec fn ver_key_bytes(file_id: u64, version: u64) -> Seq<u8> {
    be8_of(file_id) + be8_of(version)
}

pub open spec fn vkey_id_of(k: Seq<u8>) -> u64 {
    num64_of(k.subrange(0, 8))
}

pub open spec fn vkey_ver_of(k: Seq<u8>) -> u64 {
    num64_of(k.subrange(8, 16))
}

impl VersionRecordKey {
    pub fn to_bytes(&self) -> (r: Vec<u8>)
        ensures
            r@ == ver_key_bytes(self.file_id, self.version),
    {
        let mut r = u64_to_be(self.file_id);
        let mut part = u64_to_be(self.version);
        r.append(&mut part);
        r
    }
}

/// Reading the parts of an encoded `ver` key gives them back; in
/// particular its first 8 bytes are exactly the file's identifier bytes.
pub proof fn lemma_ver_key_accessors(file_id: u64, version: u64)
    ensures
        ver_key_bytes(file_id, version).len() == 16,
        vkey_id_of(ver_key_bytes(file_id, version)) == file_id,
        vkey_ver_of(ver_key_bytes(file_id, version)) == version,
        ver_key_bytes(file_id, version).take(8) == be8_of(file_id),
{
    let k = ver_key_bytes(file_id, version);
    assert(k.subrange(0, 8) =~= be8_of(file_id));
    assert(k.subrange(8, 16) =~= be8_of(version));
    assert(k.take(8) =~= be8_of(file_id));
    lemma_be8_roundtrip(file_id);
    lemma_be8_roundtrip(version);
}

/// A 16-byte `ver` key is exactly the encoding of its two parts.
pub proof fn lemma_ver_key_recon(vk: Seq<u8>)
    requires
        vk.len() == 16,
    ensures
        vk == ver_key_bytes(vkey_id_of(vk), vkey_ver_of(vk)),
{
    crate::wire::lemma_be8_inverse(vk.subrange(0, 8));
    crate::wire::lemma_be8_inverse(vk.subrange(8, 16));
    assert(ver_key_bytes(vkey_id_of(vk), vkey_ver_of(vk)) =~= vk);
}

/// The fixed header of a `ver` row's value.
#[derive(Clone, Copy, PartialEq, Eq, Structural, Debug)]
pub struct VersionRecordValue {
    /// The time at which this version was created.
    pub create_time: Time64,
    /// The time at which this version was last read.
    pub access_time: Time64,
    /// Logical byte length of this version, or `UNKNOWN_SIZE`. A later
    /// append extends the shared blob file, but this version still ends at
    /// `length`.
    pub length: u64,
    pub uid: u32,
    pub gid: u32,
    /// Unix permissions and other flags.
    pub flags: u16,
    pub storage_tier: u16,
}

/// The bytes of a `ver` row value: the 40-byte header then the blob file
/// name.
pub open spec fn ver_value_bytes(rec: VersionRecordValue, blob_name: Seq<u8>) -> Seq<u8> {
    be8_of(rec.create_time.0) + be8_of(rec.access_time.0) + be8_of(rec.length) + be4_of(rec.uid)
        + be4_of(rec.gid) + be2_of(rec.flags) + be2_of(rec.storage_tier) + seq![
        0u8,
        0u8,
        0u8,
        0u8,
    ] + blob_name
}

pub open spec fn ver_value_wf(b: Seq<u8>) -> bool {
    b.len() >= 40
}

pub open spec fn ver_create_of(b: Seq<u8>) -> u64 {
    num64_of(b.subrange(0, 8))
}

pub open spec fn ver_access_of(b: Seq<u8>) -> u64 {
    num64_of(b.subrange(8, 16))
}

pub open spec fn ver_length_of(b: Seq<u8>) -> u64 {
    num64_of(b.subrange(16, 24))
}

pub open spec fn ver_uid_of(b: Seq<u8>) -> u32 {
    num32_of(b.subrange(24, 28))
}

pub open spec fn ver_gid_of(b: Seq<u8>) -> u32 {
    num32_of(b.subrange(28, 32))
}

pub open spec fn ver_flags_of(b: Seq<u8>) -> u16 {
    num16_of(b.subrange(32, 34))
}

pub open spec fn ver_tier_of(b: Seq<u8>) -> u16 {
    num16_of(b.subrange(34, 36))
}

/// The blob file name after the header.
pub open spec fn ver_blob_of(b: Seq<u8>) -> Seq<u8> {
    b.skip(40)
}

/// Reading a field of an encoded `ver` value gives the field back.
pub proof fn lemma_ver_value_accessors(rec: VersionRecordValue, blob_name: Seq<u8>)
    ensures
        ver_value_wf(ver_value_bytes(rec, blob_name)),
        ver_create_of(ver_value_bytes(rec, blob_name)) == rec.create_time.0,
        ver_access_of(ver_value_bytes(rec, blob_name)) == rec.access_time.0,
        ver_length_of(ver_value_bytes(rec, blob_name)) == rec.length,
        ver_uid_of(ver_value_bytes(rec, blob_name)) == rec.uid,
        ver_gid_of(ver_value_bytes(rec, blob_name)) == rec.gid,
        ver_flags_of(ver_value_bytes(rec, blob_name)) == rec.flags,
        ver_tier_of(ver_value_bytes(rec, blob_name)) == rec.storage_tier,
        ver_blob_of(ver_value_bytes(rec, blob_name)) == blob_name,
{
    let b = ver_value_bytes(rec, blob_name);
    assert(b.subrange(0, 8) =~= be8_of(rec.create_time.0));
    assert(b.subrange(8, 16) =~= be8_of(rec.access_time.0));
    assert(b.subrange(16, 24) =~= be8_of(rec.length));
    assert(b.subrange(24, 28) =~= be4_of(rec.uid));
    assert(b.subrange(28, 32) =~= be4_of(rec.gid));
    assert(b.subrange(32, 34) =~= be2_of(rec.flags));
    assert(b.subrange(34, 36) =~= be2_of(rec.storage_tier));
    assert(b.skip(40) =~= blob_name);
    lemma_be8_roundtrip(rec.create_time.0);
    lemma_be8_roundtrip(rec.access_time.0);
    lemma_be8_roundtrip(rec.length);
    lemma_be4_roundtrip(rec.uid);
    lemma_be4_roundtrip(rec.gid);
    lemma_be2_roundtrip(rec.flags);
    lemma_be2_roundtrip(rec.storage_tier);
}

pub fn encode_ver_value(rec: &VersionRecordValue, blob_name: &Vec<u8>) -> (r: Vec<u8>)
    ensures
        r@ == ver_value_bytes(*rec, blob_name@),
{
    let mut r = u64_to_be(rec.create_time.0);
    let mut part = u64_to_be(rec.access_time.0);
    r.append(&mut part);
    let mut part = u64_to_be(rec.length);
    r.append(&mut part);
    let mut part = u32_to_be(rec.uid);
    r.append(&mut part);
    let mut part = u32_to_be(rec.gid);
    r.append(&mut part);
    let mut part = u16_to_be(rec.flags);
    r.append(&mut part);
    let mut part = u16_to_be(rec.storage_tier);
    r.append(&mut part);
    r.push(0u8);
    r.push(0u8);
    r.push(0u8);
    r.push(0u8);
    let ghost header = r@;
    let mut i: usize = 0;
    while i < blob_name.len()
        invariant
            0 <= i <= blob_name.len(),
            r@ == header + blob_name@.subrange(0, i as int),
        decreases blob_name.len() - i,
    {
        r.push(blob_name[i]);
        proof {
            assert(header + blob_name@.subrange(0, i as int) + seq![blob_name@[i as int]]
                =~= header + blob_name@.subrange(0, i as int + 1));
        }
        i = i + 1;
    }
    proof {
        assert(blob_name@.subrange(0, blob_name@.len() as int) =~= blob_name@);
        assert(header + blob_name@ =~= ver_value_bytes(*rec, blob_name@));
    }
    r
}

/// Splits a raw `ver` row value into its header fields and blob file name;
/// nothing when the value is shorter than the fixed header.
pub fn decode_ver_value(b: &Vec<u8>) -> (r: Option<(VersionRecordValue, Vec<u8>)>)
    ensures
        r.is_some() <==> ver_value_wf(b@),
        r matches Some(p) ==> {
            &&& p.0.create_time.0 == ver_create_of(b@)
            &&& p.0.access_time.0 == ver_access_of(b@)
            &&& p.0.length == ver_length_of(b@)
            &&& p.0.uid == ver_uid_of(b@)
            &&& p.0.gid == ver_gid_of(b@)
            &&& p.0.flags == ver_flags_of(b@)
            &&& p.0.storage_tier == ver_tier_of(b@)
            &&& p.1@ == ver_blob_of(b@)
        },
{
    if b.len() < 40 {
        return None;
    }
    let rec = VersionRecordValue {
        create_time: Time64(u64_from_be(b, 0)),
        access_time: Time64(u64_from_be(b, 8)),
        length: u64_from_be(b, 16),
        uid: u32_from_be(b, 24),
        gid: u32_from_be(b, 28),
        flags: u16_from_be(b, 32),
        storage_tier: u16_from_be(b, 34),
    };
    let mut name: Vec<u8> = Vec::new();
    let mut i: usize = 40;
    while i < b.len()
        invariant
            40 <= i <= b.len(),
            name@ == b@.subrange(40, i as int),
        decreases b.len() - i,
    {
        name.push(b[i]);
        proof {
            assert(b@.subrange(40, i as int) + seq![b@[i as int]] =~= b@.subrange(
                40,
                i as int + 1,
            ));
        }
        i = i + 1;
    }
    proof {
        assert(b@.subrange(40, b@.len() as int) =~= b@.skip(40));
    }
    Some((rec, name))
}

} // verus!
