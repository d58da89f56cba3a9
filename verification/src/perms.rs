//! Unix-style permission flags and their packed 16-bit form.

use vstd::prelude::*;

verus! {

pub const UNIX_PERM_U_R: u16 = 0o0400;

pub const UNIX_PERM_U_W: u16 = 0o0200;

pub const UNIX_PERM_U_X: u16 = 0o0100;

pub const UNIX_PERM_G_R: u16 = 0o0040;

pub const UNIX_PERM_G_W: u16 = 0o0020;

pub const UNIX_PERM_G_X: u16 = 0o0010;

pub const UNIX_PERM_O_R: u16 = 0o0004;

pub const UNIX_PERM_O_W: u16 = 0o0002;

pub const UNIX_PERM_O_X: u16 = 0o0001;

pub const UNIX_PERM_STICKY: u16 = 0o1000;

pub const UNIX_PERM_SETGID: u16 = 0o2000;

pub const UNIX_PERM_SETUID: u16 = 0o4000;

/// One flag per permission bit of the packed word.
#[derive(Clone, Copy, PartialEq, Eq, Structural, Debug)]
pub struct UnixPermissions {
    pub u_r: bool,
    pub u_w: bool,
    pub u_x: bool,
    pub g_r: bool,
    pub g_w: bool,
    pub g_x: bool,
    pub o_r: bool,
    pub o_w: bool,
    pub o_x: bool,
    pub sticky: bool,
    pub setgid: bool,
    pub setuid: bool,
}

/// The packed word that a set of flags stands for.
pub open spec fn perm_bits_of(p: UnixPermissions) -> u16 {
    (if p.u_r { UNIX_PERM_U_R } else { 0u16 })
    | (if p.u_w { UNIX_PERM_U_W } else { 0u16 })
    | (if p.u_x { UNIX_PERM_U_X } else { 0u16 })
    | (if p.g_r { UNIX_PERM_G_R } else { 0u16 })
    | (if p.g_w { UNIX_PERM_G_W } else { 0u16 })
    | (if p.g_x { UNIX_PERM_G_X } else { 0u16 })
    | (if p.o_r { UNIX_PERM_O_R } else { 0u16 })
    | (if p.o_w { UNIX_PERM_O_W } else { 0u16 })
    | (if p.o_x { UNIX_PERM_O_X } else { 0u16 })
    | (if p.sticky { UNIX_PERM_STICKY } else { 0u16 })
    | (if p.setgid { UNIX_PERM_SETGID } else { 0u16 })
    | (if p.setuid { UNIX_PERM_SETUID } else { 0u16 })
}

/// Packs the twelve flags into the 16-bit permission word stored in a
/// version record.
pub fn unix_perms_to_u16(perms: &UnixPermissions) -> (r: u16)
    ensures
        r == perm_bits_of(*perms),
{
    let u_r: u16 = if perms.u_r { UNIX_PERM_U_R } else { 0 };
    let u_w: u16 = if perms.u_w { UNIX_PERM_U_W } else { 0 };
    let u_x: u16 = if perms.u_x { UNIX_PERM_U_X } else { 0 };
    let g_r: u16 = if perms.g_r { UNIX_PERM_G_R } else { 0 };
    let g_w: u16 = if perms.g_w { UNIX_PERM_G_W } else { 0 };
    let g_x: u16 = if perms.g_x { UNIX_PERM_G_X } else { 0 };
    let o_r: u16 = if perms.o_r { UNIX_PERM_O_R } else { 0 };
    let o_w: u16 = if perms.o_w { UNIX_PERM_O_W } else { 0 };
    let o_x: u16 = if perms.o_x { UNIX_PERM_O_X } else { 0 };
    let sticky: u16 = if perms.sticky { UNIX_PERM_STICKY } else { 0 };
    let setgid: u16 = if perms.setgid { UNIX_PERM_SETGID } else { 0 };
    let setuid: u16 = if perms.setuid { UNIX_PERM_SETUID } else { 0 };
    u_r | u_w | u_x | g_r | g_w | g_x | o_r | o_w | o_x | sticky | setgid | setuid
}

} // verus!
