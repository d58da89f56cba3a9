//! The authentication decision.
//!
//! Two mechanisms are supported: `ANONYMOUS` always passes, and `PLAIN`
//! takes an assertion of the form `authzid NUL authcid NUL password` with
//! exactly two NUL separators, at most 1000 bytes in all, an authzid that
//! is empty or equal to the authcid, and a credential pair whose UTF-8
//! forms match the authcid and password. Anything else is rejected.

use vstd::prelude::*;
use crate::engine::bytes_eq;
use crate::normalize::{utf8_bytes, utf8_of};
use crate::wire::sub_bytes;

verus! {

/// The reply of one authentication attempt.
#[derive(Clone, Copy, PartialEq, Eq, Structural, Debug)]
pub struct AuthenticateResult {
    pub decision: Option<bool>,
    pub all_auth_disabled: bool,
    pub user_disabled: bool,
}

/// The accepting reply.
pub open spec fn accepted() -> AuthenticateResult {
    AuthenticateResult { decision: Some(true), all_auth_disabled: false, user_disabled: false }
}

/// The rejecting reply.
pub open spec fn rejected() -> AuthenticateResult {
    AuthenticateResult { decision: Some(false), all_auth_disabled: false, user_disabled: false }
}

impl AuthenticateResult {
    pub fn reject() -> (r: Self)
        ensures
            r == rejected(),
    {
        AuthenticateResult { decision: Some(false), all_auth_disabled: false, user_disabled: false }
    }

    pub fn accept() -> (r: Self)
        ensures
            r == accepted(),
    {
        AuthenticateResult { decision: Some(true), all_auth_disabled: false, user_disabled: false }
    }
}

/// Positions `i < j` are the only NUL bytes of `a`.
pub open spec fn plain_split_at(a: Seq<u8>, i: int, j: int) -> bool {
    &&& 0 <= i < j < a.len()
    &&& a[i] == 0u8
    &&& a[j] == 0u8
    &&& forall|k: int| 0 <= k < a.len() && k != i && k != j ==> a[k] != 0u8
}

/// A `PLAIN` assertion that must be accepted against these credential
/// pairs: short enough, exactly two NULs, authzid empty or equal to the
/// authcid, and some pair matching authcid and password byte for byte.
pub open spec fn plain_ok(a: Seq<u8>, creds: Seq<(String, String)>) -> bool {
    &&& a.len() <= 1000
    &&& exists|i: int, j: int|
        #[trigger] plain_split_at(a, i, j) && {
            let authz = a.take(i);
            let authc = a.subrange(i + 1, j);
            let pw = a.skip(j + 1);
            &&& (authz.len() == 0 || authz == authc)
            &&& exists|t: int|
                0 <= t < creds.len() && utf8_of((#[trigger] creds[t]).0@) == authc && utf8_of(
                    creds[t].1@,
                ) == pw
        }
}

/// Decides one authentication attempt: `ANONYMOUS` always passes,
/// `PLAIN` passes exactly the assertions `plain_ok` admits, and every
/// other mechanism is rejected.
pub fn attempt_authn(mechanism: &String, assertion: &Vec<u8>, creds: &Vec<(String, String)>) -> (r:
    AuthenticateResult)
    ensures
        mechanism@ == "ANONYMOUS"@ ==> r == accepted(),
        mechanism@ != "ANONYMOUS"@ && mechanism@ != "PLAIN"@ ==> r == rejected(),
        mechanism@ == "PLAIN"@ && mechanism@ != "ANONYMOUS"@ ==> r == (if plain_ok(
            assertion@,
            creds@,
        ) {
            accepted()
        } else {
            rejected()
        }),
{
    let anonymous: String = "ANONYMOUS".to_owned();
    let plain: String = "PLAIN".to_owned();
    if mechanism.eq(&anonymous) {
        return AuthenticateResult::accept();
    }
    if !mechanism.eq(&plain) {
        return AuthenticateResult::reject();
    }
    // oversized assertions are rejected outright
    if assertion.len() > 1000 {
        return AuthenticateResult::reject();
    }
    // there must be exactly two NUL separators
    let mut n1: usize = 0;
    let mut n2: usize = 0;
    let mut n3: usize = 0;
    let mut zeros: usize = 0;
    let mut i: usize = 0;
    while i < assertion.len()
        invariant
            mechanism@ == "PLAIN"@,
            mechanism@ != "ANONYMOUS"@,
            assertion@.len() <= 1000,
            0 <= i <= assertion.len(),
            zeros <= i,
            zeros == 0 ==> forall|k: int| 0 <= k < i ==> assertion@[k] != 0u8,
            zeros == 1 ==> 0 <= n1 < i && assertion@[n1 as int] == 0u8 && forall|k: int|
                0 <= k < i && k != n1 ==> assertion@[k] != 0u8,
            zeros == 2 ==> 0 <= n1 < n2 < i && assertion@[n1 as int] == 0u8
                && assertion@[n2 as int] == 0u8 && forall|k: int|
                0 <= k < i && k != n1 && k != n2 ==> assertion@[k] != 0u8,
            zeros >= 3 ==> 0 <= n1 < n2 < n3 < i && assertion@[n1 as int] == 0u8
                && assertion@[n2 as int] == 0u8 && assertion@[n3 as int] == 0u8,
        decreases assertion.len() - i,
    {
        if assertion[i] == 0 {
            if zeros == 0 {
                n1 = i;
            } else if zeros == 1 {
                n2 = i;
            } else if zeros == 2 {
                n3 = i;
            }
            if zeros < 3 {
                zeros = zeros + 1;
            }
        }
        i = i + 1;
    }
    if zeros != 2 {
        proof {
            if plain_ok(assertion@, creds@) {
                let (bi, bj) = choose|bi: int, bj: int| #[trigger] plain_split_at(
                    assertion@,
                    bi,
                    bj,
                ) && {
                    let authz = assertion@.take(bi);
                    let authc = assertion@.subrange(bi + 1, bj);
                    let pw = assertion@.skip(bj + 1);
                    &&& (authz.len() == 0 || authz == authc)
                    &&& exists|t: int|
                        0 <= t < creds@.len() && utf8_of((#[trigger] creds@[t]).0@) == authc
                            && utf8_of(creds@[t].1@) == pw
                };
                if zeros == 0 {
                    assert(assertion@[bi] == 0u8);
                    assert(false);
                } else if zeros == 1 {
                    assert(bi == n1 && bj == n1);
                    assert(false);
                } else {
                    assert(n1 != bi && n1 != bj ==> assertion@[n1 as int] != 0u8);
                    assert(n2 != bi && n2 != bj ==> assertion@[n2 as int] != 0u8);
                    assert(n3 != bi && n3 != bj ==> assertion@[n3 as int] != 0u8);
                    assert(false);
                }
            }
        }
        return AuthenticateResult::reject();
    }
    let authz = sub_bytes(assertion, 0, n1);
    let authc = sub_bytes(assertion, n1 + 1, n2);
    let pw = sub_bytes(assertion, n2 + 1, assertion.len());
    proof {
        assert(plain_split_at(assertion@, n1 as int, n2 as int));
        assert(assertion@.take(n1 as int) == authz@);
        assert(assertion@.skip(n2 as int + 1) =~= pw@);
    }
    // the simple scheme has no separate authorization identity
    if authz.len() > 0 && !bytes_eq(&authz, &authc) {
        proof {
            lemma_split_unique(assertion@, n1 as int, n2 as int, creds@);
        }
        return AuthenticateResult::reject();
    }
    let mut t: usize = 0;
    while t < creds.len()
        invariant
            mechanism@ == "PLAIN"@,
            mechanism@ != "ANONYMOUS"@,
            assertion@.len() <= 1000,
            plain_split_at(assertion@, n1 as int, n2 as int),
            assertion@.take(n1 as int).len() == 0 || assertion@.take(n1 as int) == authc@,
            0 <= t <= creds.len(),
            forall|u: int|
                0 <= u < t ==> !(utf8_of((#[trigger] creds@[u]).0@) == authc@ && utf8_of(
                    creds@[u].1@,
                ) == pw@),
            authc@ == assertion@.subrange(n1 as int + 1, n2 as int),
            pw@ == assertion@.skip(n2 as int + 1),
        decreases creds.len() - t,
    {
        let user = utf8_bytes(creds[t].0.as_str());
        let pass = utf8_bytes(creds[t].1.as_str());
        if bytes_eq(&user, &authc) && bytes_eq(&pass, &pw) {
            proof {
                assert(plain_split_at(assertion@, n1 as int, n2 as int));
                assert(plain_ok(assertion@, creds@));
            }
            return AuthenticateResult::accept();
        }
        t = t + 1;
    }
    proof {
        lemma_split_unique(assertion@, n1 as int, n2 as int, creds@);
    }
    AuthenticateResult::reject()
}

/// When `i < j` are the only NULs, they are the only possible split, so
/// acceptance stands or falls with the parts they cut.
proof fn lemma_split_unique(a: Seq<u8>, i: int, j: int, creds: Seq<(String, String)>)
    requires
        plain_split_at(a, i, j),
    ensures
        plain_ok(a, creds) ==> a.len() <= 1000 && {
            let authz = a.take(i);
            let authc = a.subrange(i + 1, j);
            let pw = a.skip(j + 1);
            &&& (authz.len() == 0 || authz == authc)
            &&& exists|t: int|
                0 <= t < creds.len() && utf8_of((#[trigger] creds[t]).0@) == authc && utf8_of(
                    creds[t].1@,
                ) == pw
        },
{
    if plain_ok(a, creds) {
        let (bi, bj) = choose|bi: int, bj: int| #[trigger] plain_split_at(a, bi, bj) && {
            let authz = a.take(bi);
            let authc = a.subrange(bi + 1, bj);
            let pw = a.skip(bj + 1);
            &&& (authz.len() == 0 || authz == authc)
            &&& exists|t: int|
                0 <= t < creds.len() && utf8_of((#[trigger] creds[t]).0@) == authc && utf8_of(
                    creds[t].1@,
                ) == pw
        };
        assert(bi == i || bi == j) by {
            if bi != i && bi != j {
                assert(a[bi] != 0u8);
            }
        }
        assert(bj == i || bj == j) by {
            if bj != i && bj != j {
                assert(a[bj] != 0u8);
            }
        }
        assert(i == bi && j == bj) by {
            if bi == j {
                assert(bj > bi);
                assert(a[bj] == 0u8 && bj != i && bj != j);
            }
        }
    }
}

} // verus!
