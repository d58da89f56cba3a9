//! Unit tests of the codec, the packed timestamps, the permission
//! packing and the authentication decision.

use yeetbox::auth::{attempt_authn, AuthenticateResult};
use yeetbox::config::{Config, SimpleAuthConfig};
use yeetbox::perms::{unix_perms_to_u16, UnixPermissions};
use yeetbox::records::{
    decode_fs_value,
    decode_ver_value,
    encode_fs_value,
    encode_ver_value,
    FsRecordKey,
    FsRecordValue,
    is_readable_obj_type,
    ObjectType,
    VersionRecordKey,
    VersionRecordValue,
    OBJ_TYPE_APPEND_BLOB,
    OBJ_TYPE_FILE,
    OBJ_TYPE_FOLDER,
    OBJ_TYPE_SYMLINK,
};
use yeetbox::time64::Time64;
use yeetbox::wire::{u16_to_be, u32_to_be, u64_from_be, u64_to_be};

#[test]
fn be_encoding_round_trip() {
    let v = u64_to_be(0x0102_0304_0506_0708);
    assert_eq!(v, vec![1u8, 2, 3, 4, 5, 6, 7, 8]);
    assert_eq!(u64_from_be(&v, 0), 0x0102_0304_0506_0708);
    assert_eq!(u32_to_be(0xA1B2_C3D4), vec![0xA1u8, 0xB2, 0xC3, 0xD4]);
    assert_eq!(u16_to_be(0x1234), vec![0x12u8, 0x34]);
}

#[test]
fn fs_record_value_round_trip() {
    let rec = FsRecordValue {
        id: 42,
        create_time: Time64(1111),
        modify_time: Time64(2222),
        access_time: Time64(3333),
        change_time: Time64(0),
        delete_time: Time64(0),
        otype: OBJ_TYPE_FILE,
        latest_version: 7,
    };
    let bytes = encode_fs_value(&rec, &b"display name".to_vec());
    assert_eq!(bytes.len(), 64 + 12);
    let (back, name) = decode_fs_value(&bytes).expect("decodes");
    assert_eq!(back, rec);
    assert_eq!(name, b"display name".to_vec());
    // a value shorter than the header is refused
    assert!(decode_fs_value(&vec![0u8; 63]).is_none());
}

#[test]
fn ver_record_value_round_trip() {
    let rec = VersionRecordValue {
        create_time: Time64(99),
        access_time: Time64(0),
        length: 1024,
        uid: 100,
        gid: 200,
        flags: 0o644,
        storage_tier: 3,
    };
    let bytes = encode_ver_value(&rec, &b"blobfile.blob".to_vec());
    assert_eq!(bytes.len(), 40 + 13);
    let (back, blob) = decode_ver_value(&bytes).expect("decodes");
    assert_eq!(back, rec);
    assert_eq!(blob, b"blobfile.blob".to_vec());
    assert!(decode_ver_value(&vec![0u8; 39]).is_none());
}

#[test]
fn record_keys_encode_big_endian() {
    let k = FsRecordKey { parent_id: 5, relative_key: b"name".to_vec() };
    assert_eq!(k.to_bytes(), vec![0u8, 0, 0, 0, 0, 0, 0, 5, b'n', b'a', b'm', b'e']);
    let vk = VersionRecordKey { file_id: 5, version: 2 };
    assert_eq!(
        vk.to_bytes(),
        vec![0u8, 0, 0, 0, 0, 0, 0, 5, 0, 0, 0, 0, 0, 0, 0, 2]
    );
}

#[test]
fn object_types_and_readability() {
    let mut rec = FsRecordValue::default();
    assert_eq!(rec.obj_type(), Some(ObjectType::File));
    rec.otype = OBJ_TYPE_FOLDER;
    assert_eq!(rec.obj_type(), Some(ObjectType::Folder));
    rec.otype = OBJ_TYPE_SYMLINK;
    assert_eq!(rec.obj_type(), Some(ObjectType::Symlink));
    rec.otype = OBJ_TYPE_APPEND_BLOB;
    assert_eq!(rec.obj_type(), None);
    assert!(is_readable_obj_type(OBJ_TYPE_FILE));
    assert!(is_readable_obj_type(OBJ_TYPE_APPEND_BLOB));
    assert!(!is_readable_obj_type(OBJ_TYPE_FOLDER));
    assert!(!is_readable_obj_type(OBJ_TYPE_SYMLINK));
}

#[test]
fn time64_packing() {
    let t = Time64::from_parts(1_700_000_000, 999_999);
    let (secs, micros) = t.to_parts();
    assert_eq!(secs, 1_700_000_000);
    assert_eq!(micros, 999_999);
    assert_eq!(t.0, (1_700_000_000u64 << 20) | 999_999);
    assert!(Time64(0).is_unknown());
    assert_eq!(Time64(0).known(), None);
    assert_eq!(Time64(5).known(), Some(Time64(5)));
    let n = Time64::now();
    assert!(n.0 & 0xFFFFF < 1_000_000);
    assert!(!n.is_unknown());
}

#[test]
fn permission_bits_pack() {
    let all = UnixPermissions {
        u_r: true,
        u_w: true,
        u_x: true,
        g_r: true,
        g_w: true,
        g_x: true,
        o_r: true,
        o_w: true,
        o_x: true,
        sticky: true,
        setgid: true,
        setuid: true,
    };
    assert_eq!(unix_perms_to_u16(&all), 0o7777);
    let rwxr_xr_x = UnixPermissions {
        u_r: true,
        u_w: true,
        u_x: true,
        g_r: true,
        g_w: false,
        g_x: true,
        o_r: true,
        o_w: false,
        o_x: true,
        sticky: false,
        setgid: false,
        setuid: false,
    };
    assert_eq!(unix_perms_to_u16(&rwxr_xr_x), 0o755);
    let none = UnixPermissions {
        u_r: false,
        u_w: false,
        u_x: false,
        g_r: false,
        g_w: false,
        g_x: false,
        o_r: false,
        o_w: false,
        o_x: false,
        sticky: false,
        setgid: false,
        setuid: false,
    };
    assert_eq!(unix_perms_to_u16(&none), 0);
}

fn creds() -> Vec<(String, String)> {
    vec![("alice".to_string(), "sesame".to_string())]
}

fn assertion(authz: &str, authc: &str, pw: &str) -> Vec<u8> {
    let mut a = Vec::new();
    a.extend_from_slice(authz.as_bytes());
    a.push(0);
    a.extend_from_slice(authc.as_bytes());
    a.push(0);
    a.extend_from_slice(pw.as_bytes());
    a
}

#[test]
fn authn_anonymous_always_passes() {
    let r = attempt_authn(&"ANONYMOUS".to_string(), &Vec::new(), &creds());
    assert_eq!(r.decision, Some(true));
}

#[test]
fn authn_unknown_mechanism_rejected() {
    let r = attempt_authn(&"GSSAPI".to_string(), &assertion("", "alice", "sesame"), &creds());
    assert_eq!(r.decision, Some(false));
}

#[test]
fn authn_plain_good_credentials() {
    let r = attempt_authn(&"PLAIN".to_string(), &assertion("", "alice", "sesame"), &creds());
    assert_eq!(r, AuthenticateResult::accept());
    let same = attempt_authn(
        &"PLAIN".to_string(),
        &assertion("alice", "alice", "sesame"),
        &creds(),
    );
    assert_eq!(same.decision, Some(true));
}

#[test]
fn authn_plain_bad_password() {
    let r = attempt_authn(&"PLAIN".to_string(), &assertion("", "alice", "wrong"), &creds());
    assert_eq!(r.decision, Some(false));
}

#[test]
fn authn_plain_unknown_user() {
    let r = attempt_authn(&"PLAIN".to_string(), &assertion("", "bob", "sesame"), &creds());
    assert_eq!(r.decision, Some(false));
}

#[test]
fn authn_plain_authzid_mismatch() {
    let r = attempt_authn(&"PLAIN".to_string(), &assertion("bob", "alice", "sesame"), &creds());
    assert_eq!(r.decision, Some(false));
}

#[test]
fn authn_plain_wrong_separator_count() {
    let mut three = assertion("", "alice", "sesame");
    three.push(0);
    let r = attempt_authn(&"PLAIN".to_string(), &three, &creds());
    assert_eq!(r.decision, Some(false));
    let one = b"alice\0sesame".to_vec();
    let r = attempt_authn(&"PLAIN".to_string(), &one, &creds());
    assert_eq!(r.decision, Some(false));
    let zero = b"alicesesame".to_vec();
    let r = attempt_authn(&"PLAIN".to_string(), &zero, &creds());
    assert_eq!(r.decision, Some(false));
}

#[test]
fn authn_plain_oversized_assertion() {
    let mut big = assertion("", "alice", "sesame");
    big.extend_from_slice(&[b'x'; 1001]);
    let r = attempt_authn(&"PLAIN".to_string(), &big, &creds());
    assert_eq!(r.decision, Some(false));
}

#[test]
fn config_carries_the_credential_pair() {
    let c = Config {
        simple_auth: Some(
            SimpleAuthConfig { username: "alice".to_string(), password: "sesame".to_string() },
        ),
    };
    let pair = c.simple_auth.clone().expect("enabled");
    assert_eq!(pair.username, "alice");
    assert_eq!(pair.password, "sesame");
}
