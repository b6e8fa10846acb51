//! Choosing the handler for a method and path, first match wins.
use vstd::prelude::*;
use crate::framing::{parse_decimal, parsed_usize};
use crate::request::Method;

verus! {

/// `/api/users`.
pub open spec fn users_path() -> Seq<u8> {
    seq![47u8, 97u8, 112u8, 105u8, 47u8, 117u8, 115u8, 101u8, 114u8, 115u8]
}

/// `/api/users/`, the fixed part of the path that names one user.
pub open spec fn user_prefix() -> Seq<u8> {
    seq![47u8, 97u8, 112u8, 105u8, 47u8, 117u8, 115u8, 101u8, 114u8, 115u8, 47u8]
}

/// `/`.
pub open spec fn root_path() -> Seq<u8> {
    seq![47u8]
}

/// `/submit`.
pub open spec fn submit_path() -> Seq<u8> {
    seq![47u8, 115u8, 117u8, 98u8, 109u8, 105u8, 116u8]
}

/// The handlers of the JSON API.
#[derive(Clone, Copy, Debug, PartialEq, Eq, Structural)]
pub enum ApiRoute {
    ListUsers,
    /// One user, with the id from the path when it is a number.
    GetUser(Option<u32>),
    CreateUser,
    NotFound,
}

/// The handlers of the form pages.
#[derive(Clone, Copy, Debug, PartialEq, Eq, Structural)]
pub enum FormRoute {
    Form,
    Submit,
    NotFound,
}

/// `s` read as a decimal that fits in `u32`.
pub open spec fn parsed_u32(s: Seq<u8>) -> Option<u32> {
    match parsed_usize(s) {
        Some(v) => if v <= u32::MAX {
            Some(v as u32)
        } else {
            None
        },
        None => None,
    }
}

/// Reads `b[start..end]` as a decimal `u32`.
pub fn parse_u32(b: &[u8], start: usize, end: usize) -> (r: Option<u32>)
    requires
        start <= end <= b@.len(),
    ensures
        r == parsed_u32(b@.subrange(start as int, end as int)),
{
    match parse_decimal(b, start, end) {
        Some(v) => if v <= 0xFFFF_FFFFusize {
            Some(v as u32)
        } else {
            None
        },
        None => None,
    }
}

/// The API route of a method and path: the literal routes first, then the
/// templated one (its parameter is what follows the prefix), then not found.
pub open spec fn api_route(method: Method, path: Seq<u8>) -> ApiRoute {
    if method == Method::Get && path == users_path() {
        ApiRoute::ListUsers
    } else if method == Method::Post && path == users_path() {
        ApiRoute::CreateUser
    } else if method == Method::Get && path.len() >= user_prefix().len() && path.subrange(0, user_prefix().len() as int) == user_prefix() {
        ApiRoute::GetUser(parsed_u32(path.subrange(user_prefix().len() as int, path.len() as int)))
    } else {
        ApiRoute::NotFound
    }
}

/// The form-page route of a method and path.
pub open spec fn form_route(method: Method, path: Seq<u8>) -> FormRoute {
    if method == Method::Get && path == root_path() {
        FormRoute::Form
    } else if method == Method::Post && path == submit_path() {
        FormRoute::Submit
    } else {
        FormRoute::NotFound
    }
}

fn equals(a: &[u8], b: &[u8]) -> (r: bool)
    ensures
        r == (a@ == b@),
{
    if a.len() != b.len() {
        return false;
    }
    let mut i: usize = 0;
    while i < a.len()
        invariant
            a@.len() == b@.len(),
            0 <= i <= a@.len(),
            forall|k: int| 0 <= k < i ==> a@[k] == b@[k],
        decreases a@.len() - i,
    {
        if a[i] != b[i] {
            return false;
        }
        i = i + 1;
    }
    assert(a@ =~= b@);
    true
}

pub(crate) fn starts_with(a: &[u8], p: &[u8]) -> (r: bool)
    ensures
        r == (a@.len() >= p@.len() && a@.subrange(0, p@.len() as int) == p@),
{
    if a.len() < p.len() {
        return false;
    }
    let mut i: usize = 0;
    while i < p.len()
        invariant
            a@.len() >= p@.len(),
            0 <= i <= p@.len(),
            forall|k: int| 0 <= k < i ==> a@[k] == p@[k],
        decreases p@.len() - i,
    {
        if a[i] != p[i] {
            assert(a@.subrange(0, p@.len() as int)[i as int] != p@[i as int]);
            return false;
        }
        i = i + 1;
    }
    assert(a@.subrange(0, p@.len() as int) =~= p@);
    true
}

/// Picks the API handler (see `api_route`).
pub fn route_api(method: Method, path: &[u8]) -> (r: ApiRoute)
    ensures
        r == api_route(method, path@),
{
    let users: [u8; 10] = [47u8, 97u8, 112u8, 105u8, 47u8, 117u8, 115u8, 101u8, 114u8, 115u8];
    let prefix: [u8; 11] = [47u8, 97u8, 112u8, 105u8, 47u8, 117u8, 115u8, 101u8, 114u8, 115u8, 47u8];
    assert(users@ =~= users_path());
    assert(prefix@ =~= user_prefix());
    let is_users = equals(path, &users);
    if method == Method::Get && is_users {
        ApiRoute::ListUsers
    } else if method == Method::Post && is_users {
        ApiRoute::CreateUser
    } else if method == Method::Get && starts_with(path, &prefix) {
        ApiRoute::GetUser(parse_u32(path, 11, path.len()))
    } else {
        ApiRoute::NotFound
    }
}

/// Picks the form-page handler (see `form_route`).
pub fn route_form(method: Method, path: &[u8]) -> (r: FormRoute)
    ensures
        r == form_route(method, path@),
{
    let root: [u8; 1] = [47u8];
    let submit: [u8; 7] = [47u8, 115u8, 117u8, 98u8, 109u8, 105u8, 116u8];
    assert(root@ =~= root_path());
    assert(submit@ =~= submit_path());
    if method == Method::Get && equals(path, &root) {
        FormRoute::Form
    } else if method == Method::Post && equals(path, &submit) {
        FormRoute::Submit
    } else {
        FormRoute::NotFound
    }
}

} // verus!
