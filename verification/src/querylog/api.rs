//! The dashboard's requests: how they are read, who may make them, and what they ask for.

use crate::lines::{
    find_char, first_char, lemma_first_char, line_views, lines_of, split_lines, sub_chars,
    trim_chars, trimmed,
};
use crate::querylog::segments::{is_segment, is_segment_name};
use crate::text::{
    bytes_eq, chars_of, contains_byte, contains_bytes, decimal_text, find_byte, has_byte,
    law_decimal_text_reads_back, law_split_around, law_split_of_piece, number_text, occurs,
    parse_u64, split_bytes, split_on, string_from_chars, text_from_bytes, byte_views,
};
use vstd::prelude::*;
use vstd::slice::slice_subrange;
use vstd::string::StringSliceAdditionalSpecFns;
use vstd::utf8::{encode_utf8, is_ascii_chars, valid_utf8};
verus! {

// Reading a request.

/// A request.
pub struct HttpRequest {
    pub method: String,
    pub path: String,
    pub query: String,
    /// The bearer token.
    pub auth: Option<String>,
    /// Number of the last event that a reconnecting client has.
    pub last_event_id: Option<String>,
}

/// An ASCII letter in lower case; every other character as it is.
pub open spec fn lower_char(c: char) -> char {
    if 65 <= c as u32 && c as u32 <= 90 {
        (c as u32 + 32) as char
    } else {
        c
    }
}

/// An ASCII letter in upper case; every other character as it is.
pub open spec fn upper_char(c: char) -> char {
    if 97 <= c as u32 && c as u32 <= 122 {
        (c as u32 - 32) as char
    } else {
        c
    }
}

/// The line starts with the name of a header, up to letter case.
pub open spec fn has_header(line: Seq<char>, name: Seq<char>) -> bool {
    line.len() >= name.len() && forall|i: int|
        0 <= i < name.len() ==> lower_char(#[trigger] line[i]) == lower_char(name[i])
}

/// The value behind the name of a header.
pub open spec fn header_value(line: Seq<char>, name: Seq<char>) -> Seq<char> {
    trimmed(line.skip(name.len() as int))
}

/// The token in a header line, if it holds one.
pub open spec fn token_in(line: Seq<char>) -> Option<Seq<char>> {
    if !has_header(line, "authorization:"@) {
        None
    } else {
        let value = header_value(line, "authorization:"@);
        if "Bearer "@.is_prefix_of(value) {
            Some(trimmed(value.skip("Bearer "@.len() as int)))
        } else {
            None
        }
    }
}

/// The last token in the header lines.
pub open spec fn token_of(lines: Seq<Seq<char>>) -> Option<Seq<char>>
    decreases lines.len(),
{
    if lines.len() == 0 {
        None
    } else {
        match token_in(lines.last()) {
            Some(t) => Some(t),
            None => token_of(lines.drop_last()),
        }
    }
}

/// The last event number in the header lines.
pub open spec fn event_id_of(lines: Seq<Seq<char>>) -> Option<Seq<char>>
    decreases lines.len(),
{
    if lines.len() == 0 {
        None
    } else if !has_header(lines.last(), "authorization:"@) && has_header(
        lines.last(),
        "last-event-id:"@,
    ) {
        Some(header_value(lines.last(), "last-event-id:"@))
    } else {
        event_id_of(lines.drop_last())
    }
}

/// The first line of a text.
pub open spec fn first_line(s: Seq<char>) -> Seq<char> {
    if lines_of(s).len() > 0 {
        lines_of(s)[0]
    } else {
        Seq::empty()
    }
}

/// What `str::to_uppercase` makes of a text.
pub uninterp spec fn uppercased(s: Seq<char>) -> Seq<char>;

/// `str::to_uppercase`: the text in upper case. ASCII letters become their capitals, one by one;
/// what becomes of other letters is not spelled out here.
#[verifier::external_body]
fn to_upper(s: &str) -> (r: String)
    ensures
        r@ == uppercased(s@),
        is_ascii_chars(s@) ==> r@ == s@.map_values(|c: char| upper_char(c)),
{
    s.to_uppercase()
}

/// The method of a request line as it is written: what stands before the first blank.
pub open spec fn method_word(line: Seq<char>) -> Seq<char> {
    line.take(first_char(line, ' ', 0))
}

/// The target of a request line: what stands between the first two blanks; the root where there is
/// no blank.
pub open spec fn target_of(line: Seq<char>) -> Seq<char> {
    let a = first_char(line, ' ', 0);
    if a >= line.len() {
        seq!['/']
    } else {
        line.subrange(a + 1, first_char(line, ' ', a + 1))
    }
}

/// Path of a target.
pub open spec fn path_of(target: Seq<char>) -> Seq<char> {
    target.take(first_char(target, '?', 0))
}

/// Query of a target.
pub open spec fn query_of(target: Seq<char>) -> Seq<char> {
    let q = first_char(target, '?', 0);
    if q < target.len() {
        target.skip(q + 1)
    } else {
        Seq::empty()
    }
}

/// Text of an optional string.
pub open spec fn view_of(s: Option<String>) -> Option<Seq<char>> {
    match s {
        Some(t) => Some(t@),
        None => None,
    }
}

fn lower_of(c: char) -> (r: char)
    ensures
        r == lower_char(c),
{
    let n: u32 = c as u32;
    if 65 <= n && n <= 90 {
        ((n + 32) as u8) as char
    } else {
        c
    }
}

/// What stands behind the name of a header, if the line starts with it.
fn strip_header_prefix(line: &Vec<char>, name: &Vec<char>) -> (r: Option<Vec<char>>)
    ensures
        match r {
            Some(rest) => has_header(line@, name@) && rest@ == line@.skip(name@.len() as int),
            None => !has_header(line@, name@),
        },
{
    if line.len() < name.len() {
        return None;
    }
    let mut i: usize = 0;
    while i < name.len()
        invariant
            i <= name@.len() <= line@.len(),
            forall|k: int| 0 <= k < i ==> lower_char(#[trigger] line@[k]) == lower_char(name@[k]),
        decreases name@.len() - i,
    {
        if lower_of(line[i]) != lower_of(name[i]) {
            assert(lower_char(line@[i as int]) != lower_char(name@[i as int]));
            return None;
        }
        i += 1;
    }
    let rest = sub_chars(line, name.len(), line.len());
    proof {
        assert(rest@ =~= line@.skip(name@.len() as int));
    }
    Some(rest)
}

fn starts_with(s: &Vec<char>, prefix: &Vec<char>) -> (r: bool)
    ensures
        r == prefix@.is_prefix_of(s@),
{
    if s.len() < prefix.len() {
        return false;
    }
    let mut i: usize = 0;
    while i < prefix.len()
        invariant
            i <= prefix@.len() <= s@.len(),
            forall|k: int| 0 <= k < i ==> s@[k] == prefix@[k],
        decreases prefix@.len() - i,
    {
        if s[i] != prefix[i] {
            assert(s@.subrange(0, prefix@.len() as int)[i as int] != prefix@[i as int]);
            return false;
        }
        i += 1;
    }
    proof {
        assert(prefix@ =~= s@.subrange(0, prefix@.len() as int));
    }
    true
}

/// The request in a text.
pub open spec fn reads(req: HttpRequest, text: Seq<char>) -> bool {
    let line = first_line(text);
    let lines = lines_of(text);
    let headers = if lines.len() > 0 {
        lines.skip(1)
    } else {
        lines
    };
    &&& req.method@ == uppercased(method_word(line))
    &&& is_ascii_chars(method_word(line)) ==> req.method@ == method_word(line).map_values(
        |c: char| upper_char(c),
    )
    &&& req.path@ == path_of(target_of(line))
    &&& req.query@ == query_of(target_of(line))
    &&& view_of(req.auth) == token_of(headers)
    &&& view_of(req.last_event_id) == event_id_of(headers)
}

/// Reads a request.
pub fn parse_http_request(text: &str) -> (r: HttpRequest)
    ensures
        reads(r, text@),
{
    let chars = chars_of(text);
    let lines = split_lines(&chars);
    let ghost views = lines_of(text@);
    let none: Vec<char> = Vec::new();
    let line: &Vec<char> = if lines.len() > 0 {
        &lines[0]
    } else {
        &none
    };
    proof {
        assert(line_views(lines@).len() == lines@.len());
        if lines@.len() > 0 {
            assert(line_views(lines@)[0] == lines@[0]@);
        }
        assert(line@ =~= first_line(text@));
    }
    let a: usize = find_char(line, ' ', 0);
    let word = string_from_chars(&sub_chars(line, 0, a));
    let method = to_upper(word.as_str());
    proof {
        assert(word@ =~= method_word(line@));
    }
    let target: Vec<char> = if a == line.len() {
        let mut root: Vec<char> = Vec::new();
        root.push('/');
        root
    } else {
        let b: usize = find_char(line, ' ', a + 1);
        sub_chars(line, a + 1, b)
    };
    proof {
        assert(target@ =~= target_of(line@));
    }
    let q: usize = find_char(&target, '?', 0);
    let path = sub_chars(&target, 0, q);
    let query: Vec<char> = if q < target.len() {
        sub_chars(&target, q + 1, target.len())
    } else {
        Vec::new()
    };
    proof {
        assert(path@ =~= path_of(target@));
        assert(query@ =~= query_of(target@));
    }
    let auth_name = chars_of("authorization:");
    let id_name = chars_of("last-event-id:");
    let bearer = chars_of("Bearer ");
    let mut auth: Option<String> = None;
    let mut last_event_id: Option<String> = None;
    let ghost headers = if views.len() > 0 {
        views.skip(1)
    } else {
        views
    };
    let mut k: usize = 1;
    proof {
        if views.len() > 0 {
            assert(headers.take(0).len() == 0);
        }
    }
    if lines.len() > 0 {
        while k < lines.len()
            invariant
                1 <= k <= lines@.len(),
                views == line_views(lines@),
                headers == views.skip(1),
                auth_name@ == "authorization:"@,
                id_name@ == "last-event-id:"@,
                bearer@ == "Bearer "@,
                view_of(auth) == token_of(headers.take(k - 1)),
                view_of(last_event_id) == event_id_of(headers.take(k - 1)),
            decreases lines@.len() - k,
        {
            let header = &lines[k];
            proof {
                assert(headers.take(k as int).drop_last() =~= headers.take(k - 1));
                assert(headers.take(k as int).last() == views[k as int]);
                assert(views[k as int] == header@);
            }
            match strip_header_prefix(header, &auth_name) {
                Some(rest) => {
                    let value = trim_chars(&rest);
                    if starts_with(&value, &bearer) {
                        let token = sub_chars(&value, bearer.len(), value.len());
                        proof {
                            assert(token@ =~= value@.skip("Bearer "@.len() as int));
                        }
                        auth = Some(string_from_chars(&trim_chars(&token)));
                    }
                },
                None => match strip_header_prefix(header, &id_name) {
                    Some(rest) => {
                        last_event_id = Some(string_from_chars(&trim_chars(&rest)));
                    },
                    None => {},
                },
            }
            k += 1;
        }
        proof {
            assert(headers.take(headers.len() as int) =~= headers);
        }
    }
    HttpRequest {
        method,
        path: string_from_chars(&path),
        query: string_from_chars(&query),
        auth,
        last_event_id,
    }
}

/// Longest head of a request.
pub const MAX_REQUEST: usize = 4096;

/// The bytes hold the empty line that ends the head of a request.
pub open spec fn has_head_end(p: Seq<u8>) -> bool {
    occurs(p, seq![13u8, 10u8, 13u8, 10u8])
}

/// Whether no more of a request is read: its head has ended, or there is no room for more of it.
pub fn request_complete(received: &[u8]) -> (r: bool)
    ensures
        r == (has_head_end(received@) || received@.len() >= MAX_REQUEST),
{
    let end: [u8; 4] = [13, 10, 13, 10];
    proof {
        assert(end@ =~= seq![13u8, 10u8, 13u8, 10u8]);
    }
    received.len() >= MAX_REQUEST || contains_bytes(received, end.as_slice())
}

// Query parameters.

/// Value of a hexadecimal digit.
pub open spec fn hex_value(b: u8) -> Option<u8> {
    if 48 <= b && b <= 57 {
        Some((b - 48) as u8)
    } else if 97 <= b && b <= 102 {
        Some((b - 87) as u8)
    } else if 65 <= b && b <= 70 {
        Some((b - 55) as u8)
    } else {
        None
    }
}

/// Value of a hexadecimal digit.
pub fn hex(b: u8) -> (r: Option<u8>)
    ensures
        r == hex_value(b),
{
    if 48 <= b && b <= 57 {
        Some(b - 48)
    } else if 97 <= b && b <= 102 {
        Some(b - 87)
    } else if 65 <= b && b <= 70 {
        Some(b - 55)
    } else {
        None
    }
}

/// The bytes that a percent-encoded value from position `i` on stands for; `None` when an escape is
/// not hexadecimal. An escape that the end cuts short stands for itself.
pub open spec fn percent_decoded(s: Seq<u8>, i: int) -> Option<Seq<u8>>
    decreases s.len() - i,
{
    if i < 0 || i >= s.len() {
        Some(Seq::empty())
    } else if s[i] == 37 && i + 2 < s.len() {
        match (hex_value(s[i + 1]), hex_value(s[i + 2]), percent_decoded(s, i + 3)) {
            (Some(hi), Some(lo), Some(rest)) => Some(seq![(hi * 16 + lo) as u8] + rest),
            _ => None,
        }
    } else {
        let b = if s[i] == 43 {
            32u8
        } else {
            s[i]
        };
        match percent_decoded(s, i + 1) {
            Some(rest) => Some(seq![b] + rest),
            None => None,
        }
    }
}

/// The text that a percent-encoded value stands for.
pub open spec fn decoded_text(s: Seq<u8>) -> Option<Seq<u8>> {
    match percent_decoded(s, 0) {
        Some(b) => if valid_utf8(b) {
            Some(b)
        } else {
            None
        },
        None => None,
    }
}

/// Bytes of an optional string.
pub open spec fn bytes_of(s: Option<String>) -> Option<Seq<u8>> {
    match s {
        Some(t) => Some(encode_utf8(t@)),
        None => None,
    }
}

/// The text that a percent-encoded value stands for; `None` when an escape is not hexadecimal or
/// the result is not text.
pub fn percent_decode(input: &[u8]) -> (r: Option<String>)
    ensures
        bytes_of(r) == decoded_text(input@),
{
    let mut out: Vec<u8> = Vec::new();
    let mut i: usize = 0;
    let ghost whole = percent_decoded(input@, 0);
    proof {
        if whole is Some {
            assert(out@ + whole->0 =~= whole->0);
        }
    }
    assert(input.len() == input@.len());
    while i < input.len()
        invariant
            i <= input@.len(),
            input.len() == input@.len(),
            whole == percent_decoded(input@, 0),
            match percent_decoded(input@, i as int) {
                Some(rest) => whole == Some(out@ + rest),
                None => whole is None,
            },
        decreases input@.len() - i,
    {
        let ghost out0 = out@;
        let b: u8 = input[i];
        if b == 37 && input.len() - i > 2 {
            let hi: u8 = match hex(input[i + 1]) {
                Some(h) => h,
                None => {
                    return None;
                },
            };
            let lo: u8 = match hex(input[i + 2]) {
                Some(l) => l,
                None => {
                    return None;
                },
            };
            out.push(hi * 16 + lo);
            i += 3;
            proof {
                let rest = percent_decoded(input@, i as int);
                if rest is Some {
                    assert(out0 + (seq![(hi * 16 + lo) as u8] + rest->0) =~= out@ + rest->0);
                }
            }
        } else {
            let c: u8 = if b == 43 {
                32
            } else {
                b
            };
            out.push(c);
            i += 1;
            proof {
                let rest = percent_decoded(input@, i as int);
                if rest is Some {
                    assert(out0 + (seq![c] + rest->0) =~= out@ + rest->0);
                }
            }
        }
    }
    proof {
        assert(out@ + Seq::<u8>::empty() =~= out@);
    }
    text_from_bytes(out)
}

/// Position of the first byte `b`; the length where there is none.
pub open spec fn first_byte(s: Seq<u8>, b: u8, i: int) -> int
    decreases s.len() - i,
{
    if i < 0 || i >= s.len() {
        s.len() as int
    } else if s[i] == b {
        i
    } else {
        first_byte(s, b, i + 1)
    }
}

proof fn lemma_first_byte(s: Seq<u8>, b: u8, i: int, e: int)
    requires
        0 <= i <= e <= s.len(),
        forall|j: int| i <= j < e ==> s[j] != b,
        e < s.len() ==> s[e] == b,
    ensures
        first_byte(s, b, i) == e,
    decreases e - i,
{
    if i < e {
        lemma_first_byte(s, b, i + 1, e);
    }
}

/// The value in a part of a query, if the part gives one to the key.
pub open spec fn value_in(part: Seq<u8>, key: Seq<u8>) -> Option<Seq<u8>> {
    let e = first_byte(part, 61, 0);
    if e < part.len() && part.take(e) == key {
        Some(part.skip(e + 1))
    } else {
        None
    }
}

/// The value that the first part with this key gives to it, from part `i` on.
pub open spec fn raw_value(parts: Seq<Seq<u8>>, key: Seq<u8>, i: int) -> Option<Seq<u8>>
    decreases parts.len() - i,
{
    if i < 0 || i >= parts.len() {
        None
    } else {
        match value_in(parts[i], key) {
            Some(v) => Some(v),
            None => raw_value(parts, key, i + 1),
        }
    }
}

/// The value of a parameter.
pub open spec fn param(query: Seq<u8>, key: Seq<u8>) -> Option<Seq<u8>> {
    match raw_value(split_on(query, 38), key, 0) {
        Some(v) => decoded_text(v),
        None => None,
    }
}

/// The value of a parameter; `None` when it is absent or cannot be decoded.
pub fn parse_query_param(query: &str, key: &str) -> (r: Option<String>)
    ensures
        bytes_of(r) == param(query.spec_bytes(), key.spec_bytes()),
{
    let parts = split_bytes(query.as_bytes(), 38);
    let ghost views = split_on(query.spec_bytes(), 38);
    let mut i: usize = 0;
    while i < parts.len()
        invariant
            i <= parts@.len(),
            views == byte_views(parts@),
            views == split_on(query.spec_bytes(), 38),
            raw_value(views, key.spec_bytes(), 0) == raw_value(views, key.spec_bytes(), i as int),
        decreases parts@.len() - i,
    {
        let part = parts[i].as_slice();
        proof {
            assert(views[i as int] == part@);
        }
        match find_byte(part, 61, 0) {
            Some(e) => {
                proof {
                    lemma_first_byte(part@, 61, 0, e as int);
                }
                let name = slice_subrange(part, 0, e);
                proof {
                    assert(name@ =~= part@.take(e as int));
                }
                if bytes_eq(name, key.as_bytes()) {
                    assert(part.len() == part@.len());
                    let value = slice_subrange(part, e + 1, part.len());
                    proof {
                        assert(value@ =~= part@.skip(e + 1));
                    }
                    return percent_decode(value);
                }
            },
            None => {
                proof {
                    lemma_first_byte(part@, 61, 0, part@.len() as int);
                }
            },
        }
        i += 1;
    }
    None
}

/// The value of a numeric parameter up to `max`; `None` when it is absent or no such number.
pub open spec fn number_param(query: Seq<u8>, key: Seq<u8>, max: u64) -> Option<u64> {
    match param(query, key) {
        Some(v) => match number_text(v) {
            Some(n) => if n <= max {
                Some(n as u64)
            } else {
                None
            },
            None => None,
        },
        None => None,
    }
}

/// The value of a numeric parameter up to `max`.
pub fn query_param_opt(query: &str, key: &str, max: u64) -> (r: Option<u64>)
    ensures
        r == number_param(query.spec_bytes(), key.spec_bytes(), max),
{
    match parse_query_param(query, key) {
        Some(v) => match parse_u64(v.as_str().as_bytes()) {
            Some(n) => if n <= max {
                Some(n)
            } else {
                None
            },
            None => None,
        },
        None => None,
    }
}

/// The value of a numeric parameter up to `max`, or else `default`.
pub fn query_param(query: &str, key: &str, max: u64, default: u64) -> (r: u64)
    ensures
        r == (match number_param(query.spec_bytes(), key.spec_bytes(), max) {
            Some(n) => n,
            None => default,
        }),
{
    match query_param_opt(query, key, max) {
        Some(n) => n,
        None => default,
    }
}

// Who may ask.

/// Bytes of a token that are compared.
pub const MAX_TOKEN_CMP_LEN: usize = 4096;

/// The texts have the same length, and the same bytes as far as they are compared.
pub open spec fn same_token(a: Seq<u8>, b: Seq<u8>) -> bool {
    &&& a.len() == b.len()
    &&& forall|i: int| 0 <= i < a.len() && i < MAX_TOKEN_CMP_LEN ==> a[i] == b[i]
}

/// The byte at a position; zero behind the end.
spec fn byte_or_zero(s: Seq<u8>, i: int) -> u8 {
    if i < s.len() {
        s[i]
    } else {
        0
    }
}

/// Whether two tokens are the same. The work does not depend on where they differ, nor on their
/// lengths.
pub fn ct_str_eq(a: &str, b: &str) -> (r: bool)
    ensures
        r == same_token(a.spec_bytes(), b.spec_bytes()),
{
    let x = a.as_bytes();
    let y = b.as_bytes();
    let mut diff: u8 = if x.len() != y.len() {
        1
    } else {
        0
    };
    let mut i: usize = 0;
    while i < MAX_TOKEN_CMP_LEN
        invariant
            i <= MAX_TOKEN_CMP_LEN,
            diff == 0 <==> x@.len() == y@.len() && forall|k: int|
                0 <= k < i ==> #[trigger] byte_or_zero(x@, k) == byte_or_zero(y@, k),
        decreases MAX_TOKEN_CMP_LEN - i,
    {
        let p: u8 = if i < x.len() {
            x[i]
        } else {
            0
        };
        let q: u8 = if i < y.len() {
            y[i]
        } else {
            0
        };
        let ghost d = diff;
        proof {
            assert(p == byte_or_zero(x@, i as int));
            assert(q == byte_or_zero(y@, i as int));
            assert((d | (p ^ q)) == 0 <==> d == 0 && p == q) by (bit_vector);
        }
        diff = diff | (p ^ q);
        i += 1;
    }
    proof {
        if diff == 0 {
            assert forall|k: int| 0 <= k < x@.len() && k < MAX_TOKEN_CMP_LEN implies x@[k]
                == y@[k] by {
                assert(byte_or_zero(x@, k) == byte_or_zero(y@, k));
            }
        } else if same_token(x@, y@) {
            assert forall|k: int| 0 <= k < MAX_TOKEN_CMP_LEN implies #[trigger] byte_or_zero(x@, k)
                == byte_or_zero(y@, k) by {
                if k < x@.len() {
                    assert(x@[k] == y@[k]);
                }
            }
        }
    }
    diff == 0
}

/// The text itself is accepted as a token, and no text of another length is.
pub proof fn law_token_is_accepted(token: Seq<u8>, other: Seq<u8>)
    ensures
        same_token(token, token),
        token.len() <= MAX_TOKEN_CMP_LEN && same_token(other, token) ==> other == token,
{
    if token.len() <= MAX_TOKEN_CMP_LEN && same_token(other, token) {
        assert(other =~= token);
    }
}

/// Names of segments that may be asked for: no part of them leads out of the directory.
pub open spec fn safe_name(name: Seq<u8>) -> bool {
    &&& name.len() > 0
    &&& !has_byte(name, 47)
    &&& !has_byte(name, 92)
    &&& !occurs(name, seq![46u8, 46u8])
    &&& is_segment(name)
}

/// Whether a file name may be asked for.
pub fn safe_history_filename(name: &str) -> (r: bool)
    ensures
        r == safe_name(name.spec_bytes()),
{
    let b = name.as_bytes();
    let dots: [u8; 2] = [46, 46];
    proof {
        assert(dots@ =~= seq![46u8, 46u8]);
    }
    b.len() > 0 && !contains_byte(b, 47) && !contains_byte(b, 92) && !contains_bytes(
        b,
        dots.as_slice(),
    ) && is_segment_name(name)
}

// What requests say.

/// Case folding of characters moves the letters by their distance in ASCII and nothing else.
pub proof fn law_characters_fold(c: char)
    ensures
        'A' <= c <= 'Z' ==> lower_char(c) as u32 == c as u32 + 32 && upper_char(c) == c,
        'a' <= c <= 'z' ==> upper_char(c) as u32 + 32 == c as u32 && lower_char(c) == c,
        !('A' <= c <= 'Z') && !('a' <= c <= 'z') ==> lower_char(c) == c && upper_char(c) == c,
{
}

/// The target of a request line is what stands between its first two blanks. Its path ends at the
/// first question mark, and its query is all that follows.
pub proof fn law_target_is_path_and_query(
    method: Seq<char>,
    path: Seq<char>,
    query: Seq<char>,
    version: Seq<char>,
)
    requires
        !method.contains(' '),
        !path.contains(' '),
        !path.contains('?'),
        !query.contains(' '),
    ensures
        ({
            let target = path + seq!['?'] + query;
            let line = method + seq![' '] + target + seq![' '] + version;
            &&& method_word(line) == method
            &&& target_of(line) == target
            &&& path_of(target) == path
            &&& query_of(target) == query
            &&& path_of(path) == path
            &&& query_of(path) == Seq::<char>::empty()
        }),
{
    let target = path + seq!['?'] + query;
    let line = method + seq![' '] + target + seq![' '] + version;
    let m = method.len() as int;
    let t = target.len() as int;
    assert forall|j: int| 0 <= j < m implies line[j] != ' ' by {
        assert(line[j] == method[j]);
        assert(method.contains(method[j]));
    }
    assert(line[m] == ' ');
    lemma_first_char(line, ' ', 0, m);
    assert forall|j: int| m + 1 <= j < m + 1 + t implies line[j] != ' ' by {
        let k = j - m - 1;
        assert(line[j] == target[k]);
        if k < path.len() {
            assert(target[k] == path[k]);
            assert(path.contains(path[k]));
        } else if k > path.len() {
            assert(target[k] == query[k - path.len() - 1]);
            assert(query.contains(query[k - path.len() - 1]));
        }
    }
    assert(line[m + 1 + t] == ' ');
    lemma_first_char(line, ' ', m + 1, m + 1 + t);
    assert(line.take(m) =~= method);
    assert(line.subrange(m + 1, m + 1 + t) =~= target);
    assert forall|j: int| 0 <= j < path.len() implies target[j] != '?' && path[j] != '?' by {
        assert(target[j] == path[j]);
        assert(path.contains(path[j]));
    }
    assert(target[path.len() as int] == '?');
    lemma_first_char(target, '?', 0, path.len() as int);
    lemma_first_char(path, '?', 0, path.len() as int);
    assert(target.take(path.len() as int) =~= path);
    assert(target.skip((path.len() + 1) as int) =~= query);
    assert(path.take(path.len() as int) =~= path);
}

/// The value of a hexadecimal digit, in either case of letters; every other byte has none.
pub proof fn law_hexadecimal_digits(b: u8, d: u8)
    ensures
        d < 10 ==> hex_value((48 + d) as u8) == Some(d),
        d < 6 ==> hex_value((97 + d) as u8) == Some((10 + d) as u8),
        d < 6 ==> hex_value((65 + d) as u8) == Some((10 + d) as u8),
        hex_value(b) matches Some(v) ==> v < 16 && (48 <= b <= 57 || 65 <= b <= 70 || 97 <= b
            <= 102),
{
}

proof fn lemma_decoding_shifts(front: Seq<u8>, s: Seq<u8>, i: int)
    requires
        0 <= i,
    ensures
        percent_decoded(front + s, front.len() + i) == percent_decoded(s, i),
    decreases s.len() - i,
{
    let t = front + s;
    let n = front.len() as int;
    if i < s.len() {
        assert(t[n + i] == s[i]);
        if i + 2 < s.len() {
            assert(t[n + i + 1] == s[i + 1] && t[n + i + 2] == s[i + 2]);
            lemma_decoding_shifts(front, s, i + 3);
        }
        lemma_decoding_shifts(front, s, i + 1);
    }
}

/// A value is decoded from its front: an escape stands for the byte of its two digits, a plus for a
/// blank, and every other byte but the percent sign for itself. What follows is decoded as it would
/// be alone, and an escape that is not hexadecimal spoils the whole.
pub proof fn law_escapes_stand_for_bytes(hi: u8, lo: u8, b: u8, rest: Seq<u8>)
    requires
        b != 37,
        b != 43,
    ensures
        ({
            let tail = percent_decoded(rest, 0);
            let escaped = percent_decoded(seq![37u8, hi, lo] + rest, 0);
            &&& hex_value(hi) is Some && hex_value(lo) is Some && tail is Some ==> escaped == Some(
                seq![(hex_value(hi)->0 * 16 + hex_value(lo)->0) as u8] + tail->0,
            )
            &&& hex_value(hi) is None || hex_value(lo) is None || tail is None ==> escaped is None
            &&& percent_decoded(seq![43u8] + rest, 0) == (match tail {
                Some(t) => Some(seq![32u8] + t),
                None => None,
            })
            &&& percent_decoded(seq![b] + rest, 0) == (match tail {
                Some(t) => Some(seq![b] + t),
                None => None,
            })
            &&& percent_decoded(Seq::empty(), 0) == Some(Seq::<u8>::empty())
        }),
{
    lemma_decoding_shifts(seq![37u8, hi, lo], rest, 0);
    lemma_decoding_shifts(seq![43u8], rest, 0);
    lemma_decoding_shifts(seq![b], rest, 0);
    let e = seq![37u8, hi, lo] + rest;
    assert(e[0] == 37u8 && e[1] == hi && e[2] == lo);
    assert((seq![43u8] + rest)[0] == 43u8);
    assert((seq![b] + rest)[0] == b);
}

proof fn lemma_value_shifts(front: Seq<Seq<u8>>, parts: Seq<Seq<u8>>, key: Seq<u8>, i: int)
    requires
        0 <= i,
    ensures
        raw_value(front + parts, key, front.len() + i) == raw_value(parts, key, i),
    decreases parts.len() - i,
{
    if i < parts.len() {
        assert((front + parts)[front.len() + i] == parts[i]);
        lemma_value_shifts(front, parts, key, i + 1);
    }
}

/// A parameter has the value behind the first equals sign of the first part that starts with its
/// name; parts before it under other names do not matter, nor do those behind it.
pub proof fn law_first_part_gives_the_value(
    key: Seq<u8>,
    value: Seq<u8>,
    other: Seq<u8>,
    unrelated: Seq<u8>,
    rest: Seq<u8>,
)
    requires
        !key.contains(61u8),
        !key.contains(38u8),
        !value.contains(38u8),
        !other.contains(61u8),
        !other.contains(38u8),
        !unrelated.contains(38u8),
        other != key,
    ensures
        param(key + seq![61u8] + value, key) == decoded_text(value),
        param(key + seq![61u8] + value + seq![38u8] + rest, key) == decoded_text(value),
        param(other + seq![61u8] + unrelated + seq![38u8] + rest, key) == param(rest, key),
        param(other + seq![61u8] + unrelated, key) is None,
        param(other, key) is None,
{
    let own = key + seq![61u8] + value;
    let not = other + seq![61u8] + unrelated;
    lemma_one_part(key, value);
    lemma_one_part(other, unrelated);
    law_split_around(own, rest, 38);
    law_split_around(not, rest, 38);
    assert((seq![own] + split_on(rest, 38))[0] == own);
    assert((seq![not] + split_on(rest, 38))[0] == not);
    lemma_value_shifts(seq![not], split_on(rest, 38), key, 0);
    law_split_of_piece(other, 38);
    assert forall|j: int| 0 <= j < other.len() implies other[j] != 61u8 by {
        assert(other.contains(other[j]));
    }
    lemma_first_byte(other, 61, 0, other.len() as int);
    reveal_with_fuel(raw_value, 2);
}

proof fn lemma_one_part(key: Seq<u8>, value: Seq<u8>)
    requires
        !key.contains(61u8),
        !key.contains(38u8),
        !value.contains(38u8),
    ensures
        split_on(key + seq![61u8] + value, 38) == seq![key + seq![61u8] + value],
        value_in(key + seq![61u8] + value, key) == Some(value),
        forall|k: Seq<u8>| k != key ==> value_in(key + seq![61u8] + value, k) is None,
{
    let part = key + seq![61u8] + value;
    assert(!part.contains(38u8)) by {
        if part.contains(38u8) {
            let i = choose|i: int| 0 <= i < part.len() && part[i] == 38u8;
            if i < key.len() {
                assert(key[i] == 38u8);
            } else if i > key.len() {
                assert(value[i - key.len() - 1] == 38u8);
            }
        }
    }
    law_split_of_piece(part, 38);
    assert forall|j: int| 0 <= j < key.len() implies part[j] != 61u8 by {
        assert(part[j] == key[j]);
        assert(key.contains(key[j]));
    }
    assert(part[key.len() as int] == 61u8);
    lemma_first_byte(part, 61, 0, key.len() as int);
    assert(part.take(key.len() as int) =~= key);
    assert(part.skip((key.len() + 1) as int) =~= value);
}

/// The name of a header is read in any case of letters, and its value without the white space
/// around it. The last of several tokens counts.
pub proof fn law_headers_are_read_in_any_case(
    written: Seq<char>,
    name: Seq<char>,
    rest: Seq<char>,
    lines: Seq<Seq<char>>,
    last: Seq<char>,
)
    requires
        written.len() == name.len(),
        forall|i: int|
            0 <= i < name.len() ==> lower_char(#[trigger] written[i]) == lower_char(name[i]),
    ensures
        has_header(written + rest, name),
        header_value(written + rest, name) == trimmed(rest),
        token_in(last) is Some ==> token_of(lines.push(last)) == token_in(last),
        token_in(last) is None ==> token_of(lines.push(last)) == token_of(lines),
        token_of(Seq::empty()) is None,
{
    let line = written + rest;
    assert forall|i: int| 0 <= i < name.len() implies lower_char(#[trigger] line[i]) == lower_char(
        name[i],
    ) by {
        assert(line[i] == written[i]);
    }
    assert(line.skip(name.len() as int) =~= rest);
    assert(lines.push(last).drop_last() =~= lines);
}

/// A file name with a separator in it, or with two dots in a row, is never served, nor is one that
/// does not start like a segment.
pub proof fn law_names_stay_in_the_directory(a: Seq<u8>, b: Seq<u8>)
    ensures
        !safe_name(a + seq![47u8] + b),
        !safe_name(a + seq![92u8] + b),
        !safe_name(a + seq![46u8, 46u8] + b),
        !safe_name(Seq::empty()),
        safe_name(a) ==> is_segment(a),
{
    let x = a + seq![47u8] + b;
    let y = a + seq![92u8] + b;
    let z = a + seq![46u8, 46u8] + b;
    let n = a.len() as int;
    assert(x[n] == 47u8);
    assert(has_byte(x, 47));
    assert(y[n] == 92u8);
    assert(has_byte(y, 92));
    assert(z.subrange(n, n + 2) =~= seq![46u8, 46u8]);
    assert(crate::text::occurs_at(z, seq![46u8, 46u8], n));
}

proof fn lemma_plain_bytes_decode(s: Seq<u8>, i: int)
    requires
        0 <= i <= s.len(),
        !s.contains(37u8),
        !s.contains(43u8),
    ensures
        percent_decoded(s, i) == Some(s.skip(i)),
    decreases s.len() - i,
{
    if i < s.len() {
        assert(s.contains(s[i]));
        lemma_plain_bytes_decode(s, i + 1);
        assert(seq![s[i]] + s.skip(i + 1) =~= s.skip(i));
    } else {
        assert(s.skip(i) =~= Seq::empty());
    }
}

/// A parameter that gives a number in decimal has that number as its value, up to the greatest that
/// is taken.
pub proof fn law_number_parameter_is_read(key: Seq<u8>, n: nat, max: u64, rest: Seq<u8>)
    requires
        !key.contains(61u8),
        !key.contains(38u8),
    ensures
        ({
            let value = encode_utf8(decimal_text(n));
            let query = key + seq![61u8] + value;
            &&& param(query, key) == Some(value)
            &&& n <= max ==> number_param(query, key, max) == Some(n as u64)
            &&& n > max ==> number_param(query, key, max) is None
            &&& number_param(query + seq![38u8] + rest, key, max) == number_param(query, key, max)
        }),
{
    let text = decimal_text(n);
    let value = encode_utf8(text);
    law_decimal_text_reads_back(n);
    let d = text.map_values(|c: char| c as u8);
    assert(is_ascii_chars(text)) by {
        lemma_digits_are_ascii(n);
    }
    vstd::utf8::is_ascii_chars_encode_utf8(text);
    vstd::utf8::encode_utf8_valid_utf8(text);
    assert(value =~= d);
    assert forall|b: u8| !(48 <= b <= 57) implies !(#[trigger] d.contains(b)) by {
        if d.contains(b) {
            let i = choose|i: int| 0 <= i < d.len() && d[i] == b;
            assert(crate::text::is_digit(d[i]));
        }
    }
    lemma_plain_bytes_decode(value, 0);
    assert(value.skip(0) =~= value);
    let other = key.push(48u8);
    assert(other.len() == key.len() + 1);
    assert(!other.contains(61u8) && !other.contains(38u8)) by {
        if other.contains(61u8) || other.contains(38u8) {
            let i = choose|i: int|
                0 <= i < other.len() && (other[i] == 61u8 || other[i] == 38u8);
            if i < key.len() {
                assert(key[i] == other[i]);
            }
        }
    }
    law_first_part_gives_the_value(key, value, other, value, rest);
    crate::text::law_plus_is_optional(value);
}

proof fn lemma_digits_are_ascii(n: nat)
    ensures
        is_ascii_chars(decimal_text(n)),
    decreases n,
{
    let t = decimal_text(n);
    if n >= 10 {
        lemma_digits_are_ascii(n / 10);
        let front = decimal_text(n / 10);
        assert forall|i: int| 0 <= i < t.len() implies '\0' <= #[trigger] t[i] <= '\u{7f}' by {
            if i < front.len() {
                assert(t[i] == front[i]);
            } else {
                assert(t[i] as u32 == 48 + n % 10);
            }
        }
    } else {
        assert(t[0] as u32 == 48 + n);
    }
}

} // verus!
