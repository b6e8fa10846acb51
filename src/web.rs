//! The form-page server: a form, a greeting for the submitted name, and a
//! not-found page.
use vstd::prelude::*;
use vstd::string::StringSliceAdditionalSpecFns;
use crate::form::{decode, decoded};
use crate::request::ParsedRequest;
use crate::response::{build_response, response_bytes};
use crate::routes::{form_route, route_form, FormRoute};

verus! {

/// The page with the name form.
pub const FORM_PAGE: &'static str = r#"<!DOCTYPE html>
<html>
<head>
    <meta charset="UTF-8">
    <title>Name Request Form</title>
    <style>
        body {
            font-family: Arial, sans-serif;
            max-width: 600px;
            margin: 50px auto;
            padding: 20px;
            background-color: #f0f0f0;
        }
        .container {
            background-color: white;
            padding: 30px;
            border-radius: 8px;
            box-shadow: 0 2px 4px rgba(0,0,0,0.1);
        }
        h1 {
            color: #333;
        }
        input[type="text"] {
            width: 100%;
            padding: 10px;
            margin: 10px 0;
            border: 1px solid #ddd;
            border-radius: 4px;
            box-sizing: border-box;
        }
        button {
            background-color: #4CAF50;
            color: white;
            padding: 12px 20px;
            border: none;
            border-radius: 4px;
            cursor: pointer;
            font-size: 16px;
        }
        button:hover {
            background-color: #45a049;
        }
    </style>
</head>
<body>
    <div class="container">
        <h1>Welcome!</h1>
        <p>Please enter your name:</p>
        <form action="/submit" method="POST">
            <input type="text" name="name" placeholder="Enter your name" required>
            <button type="submit">Submit</button>
        </form>
    </div>
</body>
</html>"#;

/// The greeting page up to the name.
pub const GREETING_HEAD: &'static str = r#"<!DOCTYPE html>
<html>
<head>
    <meta charset="UTF-8">
    <title>Greeting</title>
    <style>
        body {
            font-family: Arial, sans-serif;
            max-width: 600px;
            margin: 50px auto;
            padding: 20px;
            background-color: #f0f0f0;
        }
        .container {
            background-color: white;
            padding: 30px;
            border-radius: 8px;
            box-shadow: 0 2px 4px rgba(0,0,0,0.1);
        }
        h1 {
            color: #4CAF50;
        }
        a {
            display: inline-block;
            margin-top: 20px;
            color: #4CAF50;
            text-decoration: none;
        }
        a:hover {
            text-decoration: underline;
        }
    </style>
</head>
<body>
    <div class="container">
        <h1>Hello, "#;

/// The greeting page after the name.
pub const GREETING_TAIL: &'static str = r#"!</h1>
        <p>Thank you for submitting your name.</p>
        <a href="/">← Go Back</a>
    </div>
</body>
</html>"#;

/// The not-found page.
pub const NOT_FOUND_PAGE: &'static str = r#"<!DOCTYPE html>
<html>
<head>
    <title>404 Not Found</title>
</head>
<body>
    <h1>404 - Page Not Found</h1>
    <p><a href="/">Go to Home</a></p>
</body>
</html>"#;

/// The content type of the form and greeting pages.
pub const HTML_UTF8: &'static str = "text/html; charset=UTF-8";

/// The content type of the not-found page.
pub const HTML: &'static str = "text/html";

/// The name used when the form gave none.
pub const NO_NAME: &'static str = "Unknown";

/// The text that `String::from_utf8_lossy` makes of some bytes.
pub uninterp spec fn utf8_lossy(b: Seq<u8>) -> Seq<char>;

/// Relies on `String::from_utf8_lossy`: the text of the bytes, invalid
/// sequences replaced; it depends on the bytes alone, and valid UTF-8 comes
/// back as the text it encodes.
#[verifier::external_body]
fn text_of(b: &[u8]) -> (r: String)
    ensures
        r@ == utf8_lossy(b@),
        vstd::utf8::valid_utf8(b@) ==> r@ == vstd::utf8::decode_utf8(b@),
{
    String::from_utf8_lossy(b).into_owned()
}

/// The first position at or after `i` of `c` in `s`, or `s.len()`.
pub open spec fn char_index_of(s: Seq<char>, c: char, i: int) -> int
    decreases s.len() - i,
{
    if i < 0 || i >= s.len() {
        s.len() as int
    } else if s[i] == c {
        i
    } else {
        char_index_of(s, c, i + 1)
    }
}

/// `name=`.
pub open spec fn name_key() -> Seq<char> {
    seq!['n', 'a', 'm', 'e', '=']
}

/// The value of the first `&`-separated parameter, from the one that starts
/// at `i` on, whose text starts with `name=`.
pub open spec fn name_param_from(s: Seq<char>, i: int) -> Option<Seq<char>>
    decreases s.len() - i,
{
    if i < 0 || i > s.len() {
        None
    } else {
        let e = char_index_of(s, '&', i);
        if e - i >= 5 && s.subrange(i, i + 5) == name_key() {
            Some(s.subrange(i + 5, e))
        } else if i <= e < s.len() {
            name_param_from(s, e + 1)
        } else {
            None
        }
    }
}

/// The submitted name: the `name` parameter decoded, or as it stands when it
/// does not decode, or `Unknown` when there is none.
pub open spec fn submitted_name(body: Seq<char>) -> Seq<char> {
    match name_param_from(body, 0) {
        Some(v) => match decoded(v) {
            Some(t) => t,
            None => v,
        },
        None => NO_NAME@,
    }
}

/// The greeting page for `name`.
pub open spec fn greeting_page(name: Seq<char>) -> Seq<char> {
    GREETING_HEAD@ + name + GREETING_TAIL@
}

proof fn lemma_char_index_of(s: Seq<char>, c: char, i: int)
    requires
        0 <= i <= s.len(),
    ensures
        i <= char_index_of(s, c, i) <= s.len(),
    decreases s.len() - i,
{
    if i < s.len() && s[i] != c {
        lemma_char_index_of(s, c, i + 1);
    }
}

/// Finds the value of the `name` parameter (see `name_param_from`).
pub fn name_param(body: &str) -> (r: Option<String>)
    ensures
        r matches Some(v) ==> name_param_from(body@, 0) == Some(v@),
        r is None ==> name_param_from(body@, 0) is None,
{
    let n = body.unicode_len();
    let mut i: usize = 0;
    loop
        invariant
            n == body@.len(),
            0 <= i <= n,
            name_param_from(body@, 0) == name_param_from(body@, i as int),
        decreases n - i,
    {
        proof {
            lemma_char_index_of(body@, '&', i as int);
        }
        let mut e = i;
        while e < n && body.get_char(e) != '&'
            invariant
                n == body@.len(),
                i <= e <= n,
                char_index_of(body@, '&', i as int) == char_index_of(body@, '&', e as int),
            decreases n - e,
        {
            e = e + 1;
        }
        if e - i >= 5 && body.get_char(i) == 'n' && body.get_char(i + 1) == 'a' && body.get_char(i + 2)
            == 'm' && body.get_char(i + 3) == 'e' && body.get_char(i + 4) == '=' {
            assert(body@.subrange(i as int, i + 5) =~= name_key());
            return Some(String::from_str(body.substring_char(i + 5, e)));
        }
        proof {
            if e - i >= 5 {
                let k = body@.subrange(i as int, i + 5);
                assert(k[0] == body@[i as int] && k[1] == body@[i + 1] && k[2] == body@[i + 2]
                    && k[3] == body@[i + 3] && k[4] == body@[i + 4]);
                assert(k != name_key());
            }
        }
        if e < n {
            i = e + 1;
        } else {
            return None;
        }
    }
}

/// The submitted name of a form body (see `submitted_name`).
pub fn form_name(body: &str) -> (r: String)
    ensures
        r@ == submitted_name(body@),
{
    match name_param(body) {
        Some(v) => match decode(v.as_str()) {
            Ok(t) => t,
            Err(_) => v,
        },
        None => String::from_str(NO_NAME),
    }
}

/// The form-page server.
pub struct WebServer {
    address: String,
}

/// The response that the form-page server gives to a request.
pub open spec fn web_response(method: crate::request::Method, path: Seq<u8>, body: Seq<u8>) -> Seq<u8> {
    match form_route(method, path) {
        FormRoute::Form => response_bytes(200, HTML_UTF8.spec_bytes(), FORM_PAGE.spec_bytes(), false),
        FormRoute::Submit => response_bytes(
            200,
            HTML_UTF8.spec_bytes(),
            vstd::utf8::encode_utf8(greeting_page(submitted_name(utf8_lossy(body)))),
            false,
        ),
        FormRoute::NotFound => response_bytes(404, HTML.spec_bytes(), NOT_FOUND_PAGE.spec_bytes(), false),
    }
}

impl WebServer {
    /// The address that the server listens on.
    pub closed spec fn address_view(&self) -> Seq<char> {
        self.address@
    }

    /// A server for `address`.
    pub fn new(address: &str) -> (r: WebServer)
        ensures
            r.address_view() == address@,
    {
        WebServer { address: String::from_str(address) }
    }

    /// The address that the server listens on.
    pub fn address(&self) -> (r: &str)
        ensures
            r@ == self.address_view(),
    {
        self.address.as_str()
    }

    /// The response with the form page.
    pub fn serve_form(&self) -> (r: Vec<u8>)
        ensures
            r@ == response_bytes(200, HTML_UTF8.spec_bytes(), FORM_PAGE.spec_bytes(), false),
    {
        build_response(200, HTML_UTF8, FORM_PAGE.as_bytes(), false)
    }

    /// The response greeting the name submitted in a form body.
    pub fn handle_form_submission(&self, body: &[u8]) -> (r: Vec<u8>)
        ensures
            r@ == response_bytes(
                200,
                HTML_UTF8.spec_bytes(),
                vstd::utf8::encode_utf8(greeting_page(submitted_name(utf8_lossy(body@)))),
                false,
            ),
    {
        let text = text_of(body);
        let name = form_name(text.as_str());
        let mut html = String::from_str(GREETING_HEAD);
        html.append(name.as_str());
        html.append(GREETING_TAIL);
        build_response(200, HTML_UTF8, html.as_str().as_bytes(), false)
    }

    /// The response with the not-found page.
    pub fn serve_404(&self) -> (r: Vec<u8>)
        ensures
            r@ == response_bytes(404, HTML.spec_bytes(), NOT_FOUND_PAGE.spec_bytes(), false),
    {
        build_response(404, HTML, NOT_FOUND_PAGE.as_bytes(), false)
    }

    /// The response to a request.
    pub fn handle_connection(&self, request: &ParsedRequest) -> (r: Vec<u8>)
        ensures
            r@ == web_response(request.method, request.path@, request.body@),
    {
        match route_form(request.method, request.path.as_slice()) {
            FormRoute::Form => self.serve_form(),
            FormRoute::Submit => self.handle_form_submission(request.body.as_slice()),
            FormRoute::NotFound => self.serve_404(),
        }
    }
}

} // verus!
