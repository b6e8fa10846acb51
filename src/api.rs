//! The JSON API: an owned in-memory user store and the handlers that answer
//! its routes with a status code and a response envelope.
use vstd::prelude::*;
use crate::form::push_char;
use crate::framing::{
    content_length, content_length_from, content_length_name, is_digit, lower, parsed_usize,
    starts_with_ci,
};
use crate::request::{
    declared_len, line_parts, protocol_prefix, request_line, request_of, Method, ReadError,
    RequestView,
};
use crate::response::{
    breaks_lead_on, decimal_digits, header_terminator, lemma_breaks_concat, lemma_content_length_shift,
    lemma_digits, lemma_head_end, lemma_line_end_at, lemma_line_led, no_line_break,
};
use crate::request::{find_byte, index_of, lemma_index_of, lemma_index_shift};
use crate::routes::{
    api_route, parse_u32, parsed_u32, starts_with, user_prefix, users_path, ApiRoute,
};
use vstd::slice::slice_subrange;
use vstd::string::StringSliceAdditionalSpecFns;

verus! {

/// A user of the store.
#[derive(Clone, Debug)]
pub struct User {
    pub id: u32,
    pub name: String,
    pub email: String,
}

/// The mathematical value of a `User`.
pub struct UserView {
    pub id: u32,
    pub name: Seq<char>,
    pub email: Seq<char>,
}

impl View for User {
    type V = UserView;

    open spec fn view(&self) -> UserView {
        UserView { id: self.id, name: self.name@, email: self.email@ }
    }
}

/// The fields of a user to be created, as read from a request body.
#[derive(Debug)]
pub struct NewUser {
    pub name: String,
    pub email: String,
}

/// The response envelope: `{"success": .., "data": .., "message": ..}`.
#[derive(Debug)]
pub struct ApiResponse<T> {
    pub success: bool,
    pub data: Option<T>,
    pub message: String,
}

/// What a reply carries in its `data` field.
#[derive(Debug)]
pub enum UserData {
    List(Vec<User>),
    One(User),
}

/// The mathematical value of a `UserData`.
pub enum DataView {
    List(Seq<UserView>),
    One(UserView),
}

/// A handler's answer: status code and envelope.
#[derive(Debug)]
pub struct ApiReply {
    pub status: u16,
    pub response: ApiResponse<UserData>,
}

/// The mathematical value of an `ApiReply`.
pub struct ReplyView {
    pub status: u16,
    pub success: bool,
    pub data: Option<DataView>,
    pub message: Seq<char>,
}

/// The views of a sequence of users.
pub open spec fn user_views(v: Seq<User>) -> Seq<UserView> {
    v.map_values(|u: User| u@)
}

impl View for UserData {
    type V = DataView;

    open spec fn view(&self) -> DataView {
        match self {
            UserData::List(v) => DataView::List(user_views(v@)),
            UserData::One(u) => DataView::One(u@),
        }
    }
}

impl View for ApiReply {
    type V = ReplyView;

    open spec fn view(&self) -> ReplyView {
        ReplyView {
            status: self.status,
            success: self.response.success,
            data: match self.response.data {
                Some(d) => Some(d@),
                None => None,
            },
            message: self.response.message@,
        }
    }
}

/// Decimal digits of `n` as text.
pub open spec fn decimal_text(n: nat) -> Seq<char>
    decreases n,
{
    if n < 10 {
        seq![(48 + n) as char]
    } else {
        decimal_text(n / 10) + seq![(48 + n % 10) as char]
    }
}

/// The first user with the given id.
pub open spec fn user_with_id(s: Seq<UserView>, id: u32) -> Option<UserView>
    decreases s.len(),
{
    if s.len() == 0 {
        None
    } else if s[0].id == id {
        Some(s[0])
    } else {
        user_with_id(s.drop_first(), id)
    }
}

/// Ids run 1, 2, 3, ... in the order of the store.
pub open spec fn ids_sequential(s: Seq<UserView>) -> bool {
    s.len() <= u32::MAX && forall|i: int| 0 <= i < s.len() ==> #[trigger] s[i].id == i + 1
}

/// The answer to listing all users.
pub open spec fn list_reply(s: Seq<UserView>) -> ReplyView {
    ReplyView {
        status: 200,
        success: true,
        data: Some(DataView::List(s)),
        message: "Users retrieved successfully"@,
    }
}

/// The answer to asking for one user by id.
pub open spec fn get_reply(s: Seq<UserView>, id: Option<u32>) -> ReplyView {
    match id {
        None => ReplyView { status: 400, success: false, data: None, message: "Invalid user ID"@ },
        Some(n) => match user_with_id(s, n) {
            Some(u) => ReplyView {
                status: 200,
                success: true,
                data: Some(DataView::One(u)),
                message: "User found"@,
            },
            None => ReplyView {
                status: 404,
                success: false,
                data: None,
                message: "User with id "@ + decimal_text(n as nat) + " not found"@,
            },
        },
    }
}

/// The user that creation adds to the store `s`.
pub open spec fn created_user(s: Seq<UserView>, name: Seq<char>, email: Seq<char>) -> UserView {
    UserView { id: (s.len() + 1) as u32, name, email }
}

/// The answer to creating a user from the fields read from the body, if any.
pub open spec fn create_reply(s: Seq<UserView>, input: Option<(Seq<char>, Seq<char>)>) -> ReplyView {
    match input {
        Some((name, email)) => ReplyView {
            status: 201,
            success: true,
            data: Some(DataView::One(created_user(s, name, email))),
            message: "User created successfully"@,
        },
        None => ReplyView { status: 400, success: false, data: None, message: "Invalid JSON data"@ },
    }
}

/// The answer on a path that no route matches.
pub open spec fn not_found_reply() -> ReplyView {
    ReplyView { status: 404, success: false, data: None, message: "Endpoint not found"@ }
}

/// The views of the optional input fields.
pub open spec fn input_view(input: Option<NewUser>) -> Option<(Seq<char>, Seq<char>)> {
    match input {
        Some(u) => Some((u.name@, u.email@)),
        None => None,
    }
}

/// The answer to a route on the store `s`.
pub open spec fn api_reply(s: Seq<UserView>, route: ApiRoute, input: Option<(Seq<char>, Seq<char>)>) -> ReplyView {
    match route {
        ApiRoute::ListUsers => list_reply(s),
        ApiRoute::GetUser(id) => get_reply(s, id),
        ApiRoute::CreateUser => create_reply(s, input),
        ApiRoute::NotFound => not_found_reply(),
    }
}

/// The store after a route has been handled.
pub open spec fn store_after(s: Seq<UserView>, route: ApiRoute, input: Option<(Seq<char>, Seq<char>)>) -> Seq<UserView> {
    match (route, input) {
        (ApiRoute::CreateUser, Some((name, email))) => s.push(created_user(s, name, email)),
        _ => s,
    }
}

fn clone_user(u: &User) -> (r: User)
    ensures
        r@ == u@,
{
    User { id: u.id, name: u.name.clone(), email: u.email.clone() }
}

fn push_decimal_text(s: &mut String, n: u32)
    ensures
        final(s)@ == old(s)@ + decimal_text(n as nat),
    decreases n,
{
    if n >= 10 {
        push_decimal_text(s, n / 10);
    }
    push_char(s, ((48 + n % 10) as u8) as char);
    if n < 10 {
        assert(n % 10 == n);
    }
}

/// The server of the JSON API, owning its user store.
pub struct RestApi {
    address: String,
    users: Vec<User>,
}

impl RestApi {
    /// The users in the store, in order.
    pub closed spec fn store(&self) -> Seq<UserView> {
        user_views(self.users@)
    }

    /// The address that the server listens on.
    pub closed spec fn address_view(&self) -> Seq<char> {
        self.address@
    }

    /// A server for `address` whose store holds Alice (1) and Bob (2).
    pub fn new(address: &str) -> (r: RestApi)
        ensures
            r.address_view() == address@,
            r.store() == seq![
                UserView { id: 1, name: "Alice"@, email: "alice@example.com"@ },
                UserView { id: 2, name: "Bob"@, email: "bob@example.com"@ },
            ],
            ids_sequential(r.store()),
    {
        let users = vec![
            User { id: 1, name: String::from_str("Alice"), email: String::from_str("alice@example.com") },
            User { id: 2, name: String::from_str("Bob"), email: String::from_str("bob@example.com") },
        ];
        let r = RestApi { address: String::from_str(address), users };
        assert(r.store() =~= seq![
            UserView { id: 1, name: "Alice"@, email: "alice@example.com"@ },
            UserView { id: 2, name: "Bob"@, email: "bob@example.com"@ },
        ]);
        r
    }

    /// Whether the store holds as many users as ids can number.
    pub fn is_full(&self) -> (r: bool)
        ensures
            r == (self.store().len() >= u32::MAX),
    {
        self.users.len() >= 0xFFFF_FFFFusize
    }

    /// The address that the server listens on.
    pub fn address(&self) -> (r: &str)
        ensures
            r@ == self.address_view(),
    {
        self.address.as_str()
    }

    /// Lists every user.
    pub fn get_all_users(&self) -> (r: ApiReply)
        ensures
            r@ == list_reply(self.store()),
    {
        let mut out: Vec<User> = Vec::new();
        let mut i: usize = 0;
        while i < self.users.len()
            invariant
                0 <= i <= self.users@.len(),
                user_views(out@) == user_views(self.users@.subrange(0, i as int)),
            decreases self.users@.len() - i,
        {
            let u = clone_user(&self.users[i]);
            proof {
                assert(user_views(out@.push(u)) =~= user_views(out@).push(u@));
                assert(user_views(self.users@.subrange(0, i + 1)) =~= user_views(
                    self.users@.subrange(0, i as int),
                ).push(self.users@[i as int]@));
            }
            out.push(u);
            i = i + 1;
        }
        assert(self.users@.subrange(0, self.users@.len() as int) =~= self.users@);
        ApiReply {
            status: 200,
            response: ApiResponse {
                success: true,
                data: Some(UserData::List(out)),
                message: String::from_str("Users retrieved successfully"),
            },
        }
    }

    /// Looks up one user; 400 without an id, 404 for an unknown one.
    pub fn get_user_by_id(&self, id: Option<u32>) -> (r: ApiReply)
        ensures
            r@ == get_reply(self.store(), id),
    {
        match id {
            None => ApiReply {
                status: 400,
                response: ApiResponse {
                    success: false,
                    data: None,
                    message: String::from_str("Invalid user ID"),
                },
            },
            Some(n) => {
                let mut i: usize = 0;
                assert(self.store().subrange(0, self.store().len() as int) =~= self.store());
                while i < self.users.len()
                    invariant
                        0 <= i <= self.users@.len(),
                        id == Some(n),
                        user_with_id(self.store(), n) == user_with_id(
                            self.store().subrange(i as int, self.store().len() as int),
                            n,
                        ),
                    decreases self.users@.len() - i,
                {
                    let ghost rest = self.store().subrange(i as int, self.store().len() as int);
                    assert(rest.drop_first() =~= self.store().subrange(i + 1, self.store().len() as int));
                    assert(rest[0] == self.users@[i as int]@);
                    if self.users[i].id == n {
                        let u = clone_user(&self.users[i]);
                        assert(rest.len() > 0);
                        assert(user_with_id(rest, n) == Some(rest[0]));
                        assert(u@ == rest[0]);
                        let r = ApiReply {
                            status: 200,
                            response: ApiResponse {
                                success: true,
                                data: Some(UserData::One(u)),
                                message: String::from_str("User found"),
                            },
                        };
                        return r;
                    }
                    i = i + 1;
                }
                let mut message = String::from_str("User with id ");
                push_decimal_text(&mut message, n);
                message.append(" not found");
                ApiReply { status: 404, response: ApiResponse { success: false, data: None, message } }
            },
        }
    }

    /// Adds a user with the next id; 400 when the body gave no valid fields.
    pub fn create_user(&mut self, input: Option<NewUser>) -> (r: ApiReply)
        requires
            ids_sequential(old(self).store()),
            input is Some ==> old(self).store().len() < u32::MAX,
        ensures
            r@ == create_reply(old(self).store(), input_view(input)),
            final(self).store() == store_after(old(self).store(), ApiRoute::CreateUser, input_view(input)),
            final(self).address_view() == old(self).address_view(),
            ids_sequential(final(self).store()),
    {
        match input {
            None => ApiReply {
                status: 400,
                response: ApiResponse {
                    success: false,
                    data: None,
                    message: String::from_str("Invalid JSON data"),
                },
            },
            Some(fields) => {
                let id = self.users.len() as u32 + 1;
                let user = User { id, name: fields.name, email: fields.email };
                let copy = clone_user(&user);
                let ghost before = self.store();
                self.users.push(user);
                assert(self.store() =~= before.push(copy@));
                ApiReply {
                    status: 201,
                    response: ApiResponse {
                        success: true,
                        data: Some(UserData::One(copy)),
                        message: String::from_str("User created successfully"),
                    },
                }
            },
        }
    }

    /// The answer on a path that no route matches.
    pub fn send_404(&self) -> (r: ApiReply)
        ensures
            r@ == not_found_reply(),
    {
        ApiReply {
            status: 404,
            response: ApiResponse {
                success: false,
                data: None,
                message: String::from_str("Endpoint not found"),
            },
        }
    }

    /// Answers a routed request; `input` holds the fields read from the body
    /// of a creation request, `None` when the body was not valid user JSON.
    pub fn handle(&mut self, route: ApiRoute, input: Option<NewUser>) -> (r: ApiReply)
        requires
            ids_sequential(old(self).store()),
            route == ApiRoute::CreateUser && input is Some ==> old(self).store().len() < u32::MAX,
        ensures
            r@ == api_reply(old(self).store(), route, input_view(input)),
            final(self).store() == store_after(old(self).store(), route, input_view(input)),
            final(self).address_view() == old(self).address_view(),
            ids_sequential(final(self).store()),
    {
        match route {
            ApiRoute::ListUsers => self.get_all_users(),
            ApiRoute::GetUser(id) => self.get_user_by_id(id),
            ApiRoute::CreateUser => self.create_user(input),
            ApiRoute::NotFound => self.send_404(),
        }
    }
}

proof fn lemma_user_with_id_offset(s: Seq<UserView>, k: int, id: u32)
    requires
        forall|i: int| 0 <= i < s.len() ==> #[trigger] s[i].id == i + k,
    ensures
        user_with_id(s, id) == (if k <= id < k + s.len() {
            Some(s[id - k])
        } else {
            None::<UserView>
        }),
    decreases s.len(),
{
    if s.len() > 0 && s[0].id != id {
        let t = s.drop_first();
        assert forall|i: int| 0 <= i < t.len() implies #[trigger] t[i].id == i + (k + 1) by {
            assert(t[i] == s[i + 1]);
        }
        lemma_user_with_id_offset(t, k + 1, id);
        if k + 1 <= id < k + 1 + t.len() {
            assert(t[id - (k + 1)] == s[id - k]);
        }
    }
}

/// Looking a user up: in a store with sequential ids, every id present
/// answers 200 with exactly that user, and every absent id answers 404.
pub proof fn lemma_lookup_by_id(s: Seq<UserView>, id: u32)
    requires
        ids_sequential(s),
    ensures
        (exists|i: int| 0 <= i < s.len() && #[trigger] s[i].id == id) ==> get_reply(s, Some(id)).status
            == 200 && get_reply(s, Some(id)).success && get_reply(s, Some(id)).data == Some(
            DataView::One(s[id - 1]),
        ) && s[id - 1].id == id,
        !(exists|i: int| 0 <= i < s.len() && #[trigger] s[i].id == id) ==> get_reply(s, Some(id)).status
            == 404 && !get_reply(s, Some(id)).success,
{
    lemma_user_with_id_offset(s, 1, id);
    if 1 <= id <= s.len() {
        assert(s[id - 1].id == id);
    }
}

/// Asking for a user by path: a GET on `/api/users/` followed by the decimal
/// form of `id` is answered by looking `id` up, and leaves the store as it was.
pub proof fn lemma_get_user_by_path(s: Seq<UserView>, id: u32)
    ensures
        api_route(Method::Get, user_prefix() + decimal_digits(id as nat)) == ApiRoute::GetUser(Some(id)),
        api_reply(s, api_route(Method::Get, user_prefix() + decimal_digits(id as nat)), None) == get_reply(
            s,
            Some(id),
        ),
        store_after(s, api_route(Method::Get, user_prefix() + decimal_digits(id as nat)), None) == s,
{
    let d = decimal_digits(id as nat);
    let path = user_prefix() + d;
    lemma_digits(id as nat);
    assert(path.subrange(0, 11) =~= user_prefix());
    assert(path.subrange(11, path.len() as int) =~= d);
    assert(path != users_path()) by {
        assert(path.len() != users_path().len());
    }
    assert(is_digit(d[0]));
    assert(parsed_usize(d) == Some(id as nat));
}

/// The bytes of a request for one user: `GET /api/users/<id> HTTP/1.1`, a
/// `Host` header and the blank line.
pub open spec fn get_user_request(id: u32, host: Seq<u8>) -> Seq<u8> {
    seq![71u8, 69u8, 84u8, 32u8] + user_prefix() + decimal_digits(id as nat) + seq![32u8, 72u8, 84u8, 84u8, 80u8, 47u8, 49u8, 46u8, 49u8, 13u8, 10u8, 72u8, 111u8, 115u8, 116u8, 58u8, 32u8] + host + seq![13u8, 10u8, 13u8, 10u8]
}

proof fn lemma_index_of_at(s: Seq<u8>, c: u8, i: int, j: int)
    requires
        0 <= i <= j < s.len(),
        forall|k: int| i <= k < j ==> #[trigger] s[k] != c,
        s[j] == c,
    ensures
        index_of(s, c, i) == j,
    decreases j - i,
{
    if i < j {
        lemma_index_of_at(s, c, i + 1, j);
    }
}

/// A request for one user, delivered as bytes, reads as a GET of
/// `/api/users/<id>` with an empty body, and is answered by looking `id` up
/// while the store stays as it was.
pub proof fn lemma_get_user_request(s: Seq<UserView>, id: u32, host: Seq<u8>)
    requires
        no_line_break(host),
    ensures
        request_of(get_user_request(id, host)) == Ok::<RequestView, ReadError>(
            RequestView {
                method: Method::Get,
                path: user_prefix() + decimal_digits(id as nat),
                body: Seq::empty(),
            },
        ),
        api_reply(s, api_route(Method::Get, user_prefix() + decimal_digits(id as nat)), None) == get_reply(
            s,
            Some(id),
        ),
        store_after(s, api_route(Method::Get, user_prefix() + decimal_digits(id as nat)), None) == s,
{
    lemma_get_user_by_path(s, id);
    let d = decimal_digits(id as nat);
    lemma_digits(id as nat);
    let path = user_prefix() + d;
    let l0 = seq![71u8, 69u8, 84u8, 32u8] + path + seq![32u8, 72u8, 84u8, 84u8, 80u8, 47u8, 49u8, 46u8, 49u8];
    let l1 = seq![72u8, 111u8, 115u8, 116u8, 58u8, 32u8] + host;
    let x = l0 + (seq![13u8, 10u8] + l1);
    let m = get_user_request(id, host);
    assert(m =~= x + header_terminator() + Seq::<u8>::empty());
    let pe: int = 4 + path.len() as int;
    // the request line holds no line break and no space inside the path
    assert forall|k: int| 0 <= k < l0.len() implies #[trigger] l0[k] != 13u8 && l0[k] != 10u8 && (4
        <= k < pe ==> l0[k] != 32u8) by {
        if 15 <= k < pe {
            assert(l0[k] == d[k - 15]);
            assert(is_digit(d[k - 15]));
        }
    }
    assert(no_line_break(l1)) by {
        assert forall|k: int| 0 <= k < l1.len() implies #[trigger] l1[k] != 13u8 && l1[k] != 10u8 by {
            if k >= 6 {
                assert(l1[k] == host[k - 6]);
            }
        }
    }
    assert(no_line_break(l0));
    lemma_line_led(l1);
    lemma_breaks_concat(l0, seq![13u8, 10u8] + l1);
    lemma_head_end(x, Seq::empty());
    assert(m.subrange(0, x.len() as int) =~= x);
    // no Content-Length line
    assert(x[l0.len() as int] == 13u8);
    assert(x[l0.len() as int + 1] == 10u8);
    assert forall|k: int| 0 <= k < l0.len() as int + 1 implies #[trigger] x[k] != 10u8 by {
        if k < l0.len() {
            assert(x[k] == l0[k]);
        }
    }
    lemma_line_end_at(x, 0, l0.len() as int + 1);
    assert(!starts_with_ci(x.subrange(0, l0.len() as int + 1), content_length_name())) by {
        assert(lower(x.subrange(0, l0.len() as int + 1)[0]) != content_length_name()[0]);
    }
    assert(x =~= (l0 + seq![13u8, 10u8]) + l1);
    lemma_content_length_shift(l0 + seq![13u8, 10u8], l1, 0);
    lemma_line_end_at(l1, 0, l1.len() as int);
    assert(!starts_with_ci(l1.subrange(0, l1.len() as int), content_length_name())) by {
        assert(lower(l1.subrange(0, l1.len() as int)[0]) != content_length_name()[0]);
    }
    assert(content_length_from(l1, 0) is None);
    assert(content_length(x) is None);
    assert(declared_len(m, x.len() as int) == 0);
    // the request line
    assert(request_line(x) =~= l0);
    lemma_index_of_at(l0, 32u8, 0, 3);
    lemma_index_of_at(l0, 32u8, 4, pe);
    assert(l0.subrange(pe + 1, pe + 6) =~= protocol_prefix());
    assert(l0.subrange(0, 3) =~= seq![71u8, 69u8, 84u8]);
    assert(l0.subrange(4, pe) =~= path);
    assert(m.subrange(x.len() as int + 4, x.len() as int + 4) =~= Seq::<u8>::empty());
}

/// Creating a user: the new id is greater than every id already assigned,
/// the name and email come back as given, and the store keeps sequential ids
/// (so ids are never reused and never decrease).
pub proof fn lemma_create_fresh_id(s: Seq<UserView>, name: Seq<char>, email: Seq<char>)
    requires
        ids_sequential(s),
        s.len() < u32::MAX,
    ensures
        create_reply(s, Some((name, email))).status == 201,
        create_reply(s, Some((name, email))).data == Some(
            DataView::One(created_user(s, name, email)),
        ),
        created_user(s, name, email).name == name,
        created_user(s, name, email).email == email,
        forall|i: int| 0 <= i < s.len() ==> #[trigger] s[i].id < created_user(s, name, email).id,
        forall|i: int|
            0 <= i < s.len() + 1 ==> #[trigger] store_after(s, ApiRoute::CreateUser, Some((name, email)))[i].id
                == i + 1,
{
    let t = store_after(s, ApiRoute::CreateUser, Some((name, email)));
    assert forall|i: int| 0 <= i < s.len() + 1 implies #[trigger] t[i].id == i + 1 by {
        if i < s.len() {
            assert(t[i] == s[i]);
        }
    }
}

/// The path of a request line: what follows the first space, up to the next.
pub open spec fn path_token(rl: Seq<u8>) -> Option<Seq<u8>> {
    let sp = index_of(rl, 32u8, 0);
    if sp >= rl.len() {
        None
    } else {
        Some(rl.subrange(sp + 1, index_of(rl, 32u8, sp + 1)))
    }
}

/// The id in a request line: what follows `/api/users/` in its path, read
/// as a decimal `u32`; `None` for any other path.
pub open spec fn id_in_request_line(rl: Seq<u8>) -> Option<u32> {
    match path_token(rl) {
        Some(p) => if p.len() >= user_prefix().len() && p.subrange(0, user_prefix().len() as int)
            == user_prefix() {
            parsed_u32(p.subrange(user_prefix().len() as int, p.len() as int))
        } else {
            None
        },
        None => None,
    }
}

impl RestApi {
    /// The id named by the path of a request line (see `id_in_request_line`).
    pub fn extract_id_from_path(&self, request_line: &str) -> (r: Option<u32>)
        ensures
            r == id_in_request_line(request_line.spec_bytes()),
    {
        let b = request_line.as_bytes();
        let ghost rl = b@;
        let n = b.len();
        proof {
            assert(rl.subrange(0, n as int) =~= rl);
            lemma_index_of(rl, 32u8, 0);
        }
        let sp = find_byte(b, 0, n, 32u8);
        if sp >= n {
            return None;
        }
        let pe = find_byte(b, sp + 1, n, 32u8);
        proof {
            lemma_index_shift(rl, 32u8, sp + 1, 0);
        }
        let ghost p = rl.subrange(sp + 1, pe as int);
        let prefix: [u8; 11] = [47u8, 97u8, 112u8, 105u8, 47u8, 117u8, 115u8, 101u8, 114u8, 115u8, 47u8];
        assert(prefix@ =~= user_prefix());
        if !starts_with(slice_subrange(b, sp + 1, pe), &prefix) {
            return None;
        }
        proof {
            assert(p.subrange(11, p.len() as int) =~= b@.subrange(sp + 12, pe as int));
        }
        parse_u32(b, sp + 12, pe)
    }
}

} // verus!
