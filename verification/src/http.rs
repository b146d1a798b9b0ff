//! The decisions of a small static file server: how a request line and its
//! header lines are read, which file a request names, and what is sent back.

use vstd::prelude::*;
use vstd::string::*;
use crate::cursor::is_digit;
use crate::text::{
    contains,
    decimal_value,
    ends_with,
    index_of,
    lemma_decimal_value_grows,
    same_char_ignoring_case,
    same_ignoring_case,
    str_contains,
    str_ends_with,
    str_index_of,
};

verus! {

/// The length of the line ending that every line of a request ends with.
pub const LINE_END: usize = 2;

/// The longest line, and the largest number of lines, that a request may
/// have.
pub const HEAD_LIMIT: usize = 4096;

/// The largest body that a request may have.
pub const BODY_LIMIT: usize = 40960000;

/// The status that rejects a request.
pub const STATUS_FAILED: usize = 500;

/// The status that says a file is not there.
pub const STATUS_MISSING: usize = 404;

/// `line` begins with `name`, the case of ASCII letters aside, and has room
/// for a line ending behind it.
pub open spec fn names_header(line: Seq<char>, name: Seq<char>) -> bool {
    line.len() >= name.len() + LINE_END && same_ignoring_case(
        line.subrange(0, name.len() as int),
        name,
    )
}

/// What stands between `name` and the line ending of `line`.
pub open spec fn header_value(line: Seq<char>, name: Seq<char>) -> Seq<char> {
    line.subrange(name.len() as int, line.len() - LINE_END)
}

/// The value of the header `what`, if `inp` is a line of that header: what
/// stands between the name and the last two characters of the line, which are
/// its line ending. The name is matched without regard to the case of ASCII
/// letters. A line that is too short to hold the name and a line ending is no
/// line of the header.
pub fn split_header_line<'a>(inp: &'a str, what: &str) -> (value: Option<&'a str>)
    ensures
        value is Some <==> names_header(inp@, what@),
        value is Some ==> value->0@ == header_value(inp@, what@),
{
    let n = inp.unicode_len();
    let m = what.unicode_len();
    if n < LINE_END || m > n - LINE_END {
        return None;
    }
    let mut i: usize = 0;
    while i < m
        invariant
            n == inp@.len(),
            m == what@.len(),
            m + LINE_END <= n,
            i <= m,
            forall|k: int| 0 <= k < i ==> same_ignoring_case(seq![inp@[k]], seq![what@[k]]),
        decreases m - i,
    {
        if !same_char_ignoring_case(inp.get_char(i), what.get_char(i)) {
            assert(inp@.subrange(0, m as int)[i as int] == inp@[i as int]);
            return None;
        }
        assert(seq![inp@[i as int]][0] == inp@[i as int]);
        assert(seq![what@[i as int]][0] == what@[i as int]);
        i += 1;
    }
    assert forall|k: int| 0 <= k < m implies crate::text::lower_code(
        #[trigger] inp@.subrange(0, m as int)[k],
    ) == crate::text::lower_code(what@[k]) by {
        assert(same_ignoring_case(seq![inp@[k]], seq![what@[k]]));
        assert(seq![inp@[k]][0] == inp@[k]);
        assert(seq![what@[k]][0] == what@[k]);
    }
    Some(inp.substring_char(m, n - LINE_END))
}

/// The path that a request target names: the target up to its first space or
/// question mark, whichever comes first.
pub open spec fn target_path(url: Seq<char>) -> Seq<char> {
    let space = index_of(url, ' ', 0);
    let query = index_of(url, '?', 0);
    url.subrange(
        0,
        if query < space {
            query
        } else {
            space
        },
    )
}

/// The file that a path stands for: the index page of a directory, or the
/// path itself.
pub open spec fn file_of(path: Seq<char>) -> Seq<char> {
    if ends_with(path, "/"@) {
        path + "index.html"@
    } else {
        path
    }
}

/// The file that the rest of a request line names, if the target is followed
/// by a space. A query is left off, and a directory stands for its index
/// page.
pub fn parse_url_file(url: &str) -> (file: Option<String>)
    ensures
        file is Some <==> index_of(url@, ' ', 0) < url@.len(),
        file is Some ==> file->0@ == file_of(target_path(url@)),
{
    let n = url.unicode_len();
    let end_of_name = str_index_of(url, ' ');
    if end_of_name == n {
        return None;
    }
    let query = str_index_of(url, '?');
    let end_of_name = if query < end_of_name {
        query
    } else {
        end_of_name
    };
    let name = url.substring_char(0, end_of_name);
    let mut file = String::from_str(name);
    if str_ends_with(name, "/") {
        file.append("index.html");
    }
    Some(file)
}

/// The content type that is sent for a file, by the ending of its name.
pub open spec fn mime_of(file: Seq<char>) -> Seq<char> {
    if ends_with(file, ".html"@) {
        "text/html"@
    } else if ends_with(file, ".wasm"@) {
        "application/wasm"@
    } else if ends_with(file, ".js"@) {
        "text/javascript"@
    } else {
        "application/octet-stream"@
    }
}

/// The content type that is sent for a file.
pub fn mime_type(url: &str) -> (mime: &'static str)
    ensures
        mime@ == mime_of(url@),
{
    if str_ends_with(url, ".html") {
        "text/html"
    } else if str_ends_with(url, ".wasm") {
        "application/wasm"
    } else if str_ends_with(url, ".js") {
        "text/javascript"
    } else {
        "application/octet-stream"
    }
}

/// The digit that writes `d`.
pub open spec fn digit_char(d: nat) -> char {
    (d + '0' as nat) as char
}

/// The decimal digits that write `n`, without a leading zero.
pub open spec fn decimal(n: nat) -> Seq<char>
    decreases n,
{
    if n < 10 {
        seq![digit_char(n)]
    } else {
        decimal(n / 10).push(digit_char(n % 10))
    }
}

/// The literal of one digit.
fn digit_str(d: usize) -> (digit: &'static str)
    requires
        d < 10,
    ensures
        digit@ == seq![digit_char(d as nat)],
{
    proof {
        reveal_strlit("0");
        reveal_strlit("1");
        reveal_strlit("2");
        reveal_strlit("3");
        reveal_strlit("4");
        reveal_strlit("5");
        reveal_strlit("6");
        reveal_strlit("7");
        reveal_strlit("8");
        reveal_strlit("9");
    }
    let digit = if d == 0 {
        "0"
    } else if d == 1 {
        "1"
    } else if d == 2 {
        "2"
    } else if d == 3 {
        "3"
    } else if d == 4 {
        "4"
    } else if d == 5 {
        "5"
    } else if d == 6 {
        "6"
    } else if d == 7 {
        "7"
    } else if d == 8 {
        "8"
    } else {
        "9"
    };
    assert(digit@ =~= seq![digit_char(d as nat)]);
    digit
}

/// Appends the decimal digits of `n` to `text`.
pub fn append_decimal(text: &mut String, n: usize)
    ensures
        final(text)@ == old(text)@ + decimal(n as nat),
    decreases n,
{
    if n >= 10 {
        append_decimal(text, n / 10);
    }
    text.append(digit_str(n % 10));
    proof {
        if n >= 10 {
            assert(decimal(n as nat) =~= decimal((n / 10) as nat) + seq![
                digit_char((n % 10) as nat),
            ]);
            assert(old(text)@ + decimal((n / 10) as nat) + seq![digit_char((n % 10) as nat)]
                =~= old(text)@ + decimal(n as nat));
        }
    }
}

/// The coding of a file that is sent.
#[derive(Clone, Copy, Debug, PartialEq, Eq, Structural)]
pub enum Coding {
    Brotli,
    Zlib,
}

impl Coding {
    /// The name of the coding in a response.
    pub open spec fn name(self) -> Seq<char> {
        match self {
            Coding::Brotli => "br"@,
            Coding::Zlib => "deflate"@,
        }
    }
}

/// The head of the response that sends `content_length` bytes of a file.
pub open spec fn response_head(mime: Seq<char>, coding: Coding, content_length: nat) -> Seq<char> {
    "HTTP/1.1 200 OK\r\nContent-Type: "@ + mime + "\r\nContent-encoding: "@ + coding.name()
        + "\r\nCache-Control: max-age:0\r\nContent-Length: "@ + decimal(content_length)
        + "\r\nConnection: close\r\n\r\n"@
}

/// The head of the response that sends a file of the given content type in
/// the given coding.
pub fn response_header(mime_type: &str, coding: Coding, content_length: usize) -> (head: String)
    ensures
        head@ == response_head(mime_type@, coding, content_length as nat),
{
    let mut head = String::from_str("HTTP/1.1 200 OK\r\nContent-Type: ");
    head.append(mime_type);
    head.append("\r\nContent-encoding: ");
    match coding {
        Coding::Brotli => head.append("br"),
        Coding::Zlib => head.append("deflate"),
    }
    head.append("\r\nCache-Control: max-age:0\r\nContent-Length: ");
    append_decimal(&mut head, content_length);
    head.append("\r\nConnection: close\r\n\r\n");
    head
}

/// The response that reports a failure with the status `code`.
pub fn error_response(code: usize) -> (response: String)
    ensures
        response@ == "HTTP/1.1 "@ + decimal(code as nat) + "\r\n\r\n"@,
{
    let mut response = String::from_str("HTTP/1.1 ");
    append_decimal(&mut response, code);
    response.append("\r\n\r\n");
    response
}

/// What the file cache of one coding holds for a file.
#[derive(Clone, Copy, Debug, PartialEq, Eq, Structural)]
pub enum Cached {
    /// There is no cache of this coding yet.
    NoCache,
    /// The cache does not hold the file.
    Missing,
    /// The cache holds the file.
    Found,
}

/// How a request for a file ends.
#[derive(Clone, Copy, Debug, PartialEq, Eq, Structural)]
pub enum Ending {
    /// The file is sent in the zlib coding.
    SendZlib,
    /// A failure is reported with this status.
    Fail(usize),
}

/// What is done for a request for a file.
#[derive(Clone, Copy, Debug, PartialEq, Eq, Structural)]
pub struct GetPlan {
    /// Whether the file is sent in the brotli coding first.
    pub send_brotli: bool,
    pub ending: Ending,
}

/// The client takes the brotli coding.
pub open spec fn takes_brotli(accept_encoding: Seq<char>) -> bool {
    contains(accept_encoding, "br"@)
}

/// The client takes the zlib coding.
pub open spec fn takes_zlib(accept_encoding: Seq<char>) -> bool {
    contains(accept_encoding, "gzip"@) || contains(accept_encoding, "deflate"@)
}

/// What is done for a request for a file. A coding that the client takes is
/// used if there is a cache of it; a file that such a cache does not hold is
/// reported as missing. The brotli coding comes first and does not end the
/// request; the request ends with the zlib coding or with a failure.
pub open spec fn get_plan(
    brotli_wanted: bool,
    zlib_wanted: bool,
    brotli: Cached,
    zlib: Cached,
) -> GetPlan {
    if brotli_wanted && brotli == Cached::Missing {
        GetPlan { send_brotli: false, ending: Ending::Fail(STATUS_MISSING) }
    } else {
        GetPlan {
            send_brotli: brotli_wanted && brotli == Cached::Found,
            ending: if zlib_wanted && zlib == Cached::Found {
                Ending::SendZlib
            } else if zlib_wanted && zlib == Cached::Missing {
                Ending::Fail(STATUS_MISSING)
            } else {
                Ending::Fail(STATUS_FAILED)
            },
        }
    }
}

/// Plans the answer to a request for a file from what the client accepts and
/// what the two caches hold for the file.
pub fn plan_get(accept_encoding: &str, brotli: Cached, zlib: Cached) -> (plan: GetPlan)
    ensures
        plan == get_plan(
            takes_brotli(accept_encoding@),
            takes_zlib(accept_encoding@),
            brotli,
            zlib,
        ),
{
    let mut send_brotli = false;
    if str_contains(accept_encoding, "br") {
        match brotli {
            Cached::Found => {
                send_brotli = true;
            },
            Cached::Missing => {
                return GetPlan { send_brotli: false, ending: Ending::Fail(STATUS_MISSING) };
            },
            Cached::NoCache => {},
        }
    }
    if str_contains(accept_encoding, "gzip") || str_contains(accept_encoding, "deflate") {
        match zlib {
            Cached::Found => {
                return GetPlan { send_brotli, ending: Ending::SendZlib };
            },
            Cached::Missing => {
                return GetPlan { send_brotli, ending: Ending::Fail(STATUS_MISSING) };
            },
            Cached::NoCache => {},
        }
    }
    GetPlan { send_brotli, ending: Ending::Fail(STATUS_FAILED) }
}

/// The digits of a number as it is written in a header: the text itself, or
/// what follows a plus sign in front.
pub open spec fn number_digits(text: Seq<char>) -> Seq<char> {
    if text.len() > 0 && text[0] == '+' {
        text.subrange(1, text.len() as int)
    } else {
        text
    }
}

/// `text` writes a number that fits the machine: decimal digits, at least
/// one, with or without a plus sign in front.
pub open spec fn is_number(text: Seq<char>) -> bool {
    let digits = number_digits(text);
    &&& digits.len() > 0
    &&& forall|i: int| 0 <= i < digits.len() ==> is_digit(#[trigger] digits[i])
    &&& decimal_value(digits) <= usize::MAX
}

/// The number that `text` writes, if it writes one.
pub fn parse_number(text: &str) -> (number: Option<usize>)
    ensures
        number is Some <==> is_number(text@),
        number is Some ==> number->0 == decimal_value(number_digits(text@)),
{
    let n = text.unicode_len();
    let start: usize = if n > 0 && text.get_char(0) == '+' {
        1
    } else {
        0
    };
    if start == n {
        return None;
    }
    let ghost digits = number_digits(text@);
    assert(digits =~= text@.subrange(start as int, n as int));
    let mut value: usize = 0;
    let mut i: usize = start;
    while i < n
        invariant
            n == text@.len(),
            start <= i <= n,
            digits == text@.subrange(start as int, n as int),
            digits == number_digits(text@),
            forall|k: int| 0 <= k < i - start ==> is_digit(#[trigger] digits[k]),
            value == decimal_value(digits.subrange(0, i - start)),
        decreases n - i,
    {
        let c = text.get_char(i);
        assert(digits[i - start] == c);
        if !(c >= '0' && c <= '9') {
            assert(!is_digit(digits[i - start]));
            return None;
        }
        let d = (c as u32 - '0' as u32) as usize;
        proof {
            let longer = digits.subrange(0, i - start + 1);
            assert(longer.drop_last() =~= digits.subrange(0, i - start));
            assert(longer.last() == c);
            assert(decimal_value(longer) == value * 10 + d);
        }
        if value > (usize::MAX - d) / 10 {
            proof {
                if forall|k: int| 0 <= k < digits.len() ==> is_digit(#[trigger] digits[k]) {
                    lemma_decimal_value_grows(digits, i - start + 1);
                    assert(value * 10 + d > usize::MAX);
                }
            }
            return None;
        }
        value = value * 10 + d;
        i += 1;
    }
    assert(digits.subrange(0, n - start) =~= digits);
    Some(value)
}

/// What the server has read of the head of a request.
pub struct RequestHead {
    /// The lines read so far, the request line first.
    pub header: Vec<String>,
    pub content_length: Option<usize>,
    pub accept_encoding: Option<String>,
}

/// The head of a request, as the rules see it.
pub struct HeadView {
    pub lines: Seq<Seq<char>>,
    pub content_length: Option<usize>,
    pub accept_encoding: Option<Seq<char>>,
}

/// What a line of the head of a request leads to.
#[derive(Clone, Copy, Debug, PartialEq, Eq, Structural)]
pub enum HeadStep {
    /// The line is taken in; the next line is wanted.
    More,
    /// The line was the empty line that ends the head.
    Complete,
    /// The request is rejected.
    Reject,
}

/// The head after a line, and what the line leads to. The empty line ends the
/// head. A length that is no number rejects the request, and so does a line
/// or a head that is too long. Any other line is kept, the length and the
/// accepted codings being noted when the line gives them.
pub open spec fn after_line(head: HeadView, line: Seq<char>) -> (HeadView, HeadStep) {
    if line == "\r\n"@ {
        (head, HeadStep::Complete)
    } else if names_header(line, "Content-Length: "@) && !is_number(
        header_value(line, "Content-Length: "@),
    ) {
        (head, HeadStep::Reject)
    } else {
        let noted = HeadView {
            lines: head.lines,
            content_length: if names_header(line, "Content-Length: "@) {
                Some(
                    decimal_value(number_digits(header_value(line, "Content-Length: "@))) as usize,
                )
            } else {
                head.content_length
            },
            accept_encoding: if names_header(line, "Accept-Encoding: "@) {
                Some(header_value(line, "Accept-Encoding: "@))
            } else {
                head.accept_encoding
            },
        };
        if line.len() > HEAD_LIMIT || head.lines.len() > HEAD_LIMIT {
            (noted, HeadStep::Reject)
        } else {
            (HeadView { lines: head.lines.push(line), ..noted }, HeadStep::More)
        }
    }
}

/// Where a request goes once its head is read.
pub enum Route {
    /// A file is asked for.
    Get { url: String, accept_encoding: String },
    /// A body of the given length is sent to the server.
    Post { url: String, content_length: usize },
    /// The request is rejected.
    Reject,
}

/// The rest of the request line behind the method `method`, if the line
/// begins with it.
pub open spec fn request_target(head: HeadView, method: Seq<char>) -> Option<Seq<char>> {
    if head.lines.len() >= 2 && names_header(head.lines[0], method) {
        Some(header_value(head.lines[0], method))
    } else {
        None
    }
}

impl RequestHead {
    /// The head as the rules see it.
    pub open spec fn view(&self) -> HeadView {
        HeadView {
            lines: Seq::new(self.header@.len(), |i: int| self.header@[i]@),
            content_length: self.content_length,
            accept_encoding: match self.accept_encoding {
                Some(text) => Some(text@),
                None => None,
            },
        }
    }

    /// A head of which nothing has been read.
    pub fn new() -> (head: RequestHead)
        ensures
            head@.lines.len() == 0,
            head@.content_length is None,
            head@.accept_encoding is None,
    {
        RequestHead { header: Vec::new(), content_length: None, accept_encoding: None }
    }

    /// Takes in one line of the head, with its line ending.
    pub fn take_line(&mut self, line: &str) -> (step: HeadStep)
        ensures
            (final(self)@, step) == after_line(old(self)@, line@),
    {
        proof {
            reveal_strlit("\r\n");
        }
        let n = line.unicode_len();
        if n == 2 && line.get_char(0) == '\r' && line.get_char(1) == '\n' {
            assert(line@ =~= "\r\n"@);
            return HeadStep::Complete;
        }
        assert(line@ != "\r\n"@);
        match split_header_line(line, "Content-Length: ") {
            Some(v) => match parse_number(v) {
                Some(length) => {
                    self.content_length = Some(length);
                },
                None => {
                    return HeadStep::Reject;
                },
            },
            None => {},
        }
        match split_header_line(line, "Accept-Encoding: ") {
            Some(v) => {
                self.accept_encoding = Some(String::from_str(v));
            },
            None => {},
        }
        if n > HEAD_LIMIT || self.header.len() > HEAD_LIMIT {
            assert(self@.lines =~= old(self)@.lines);
            return HeadStep::Reject;
        }
        self.header.push(String::from_str(line));
        assert(self@.lines =~= old(self)@.lines.push(line@));
        HeadStep::More
    }

    /// Where the request goes. A head of less than two lines is rejected. A
    /// request that sends a body has to give its length, and one that asks
    /// for a file has to say which codings it accepts; any other request is
    /// rejected.
    pub fn route(&self) -> (route: Route)
        ensures
            match route {
                Route::Post { url, content_length } => request_target(self@, "POST "@) == Some(
                    url@,
                ) && self@.content_length == Some(content_length),
                Route::Get { url, accept_encoding } => request_target(self@, "POST "@) is None
                    && request_target(self@, "GET "@) == Some(url@) && self@.accept_encoding
                    == Some(accept_encoding@),
                Route::Reject => (request_target(self@, "POST "@) is None || self@.content_length
                    is None) && (request_target(self@, "POST "@) is Some || request_target(
                    self@,
                    "GET "@,
                ) is None || self@.accept_encoding is None),
            },
    {
        if self.header.len() < 2 {
            return Route::Reject;
        }
        assert(self@.lines[0] == self.header@[0]@);
        match split_header_line(self.header[0].as_str(), "POST ") {
            Some(url) => {
                return match self.content_length {
                    Some(content_length) => Route::Post {
                        url: String::from_str(url),
                        content_length,
                    },
                    None => Route::Reject,
                };
            },
            None => {},
        }
        match split_header_line(self.header[0].as_str(), "GET ") {
            Some(url) => match &self.accept_encoding {
                Some(accept_encoding) => Route::Get {
                    url: String::from_str(url),
                    accept_encoding: accept_encoding.clone(),
                },
                None => Route::Reject,
            },
            None => Route::Reject,
        }
    }
}

/// What a read of the body of a request leads to.
#[derive(Clone, Copy, Debug, PartialEq, Eq, Structural)]
pub enum BodyStep {
    /// More of the body is wanted.
    More,
    /// The body is there in full.
    Complete,
    /// The request is rejected.
    Reject,
}

/// What follows when a read has brought `read` bytes and the body has
/// `body_len` bytes with them. A read that brings nothing ends the body,
/// which has to have the length that the head gave; a read that brings the
/// body to that length or over the limit rejects the request.
pub fn body_step(body_len: usize, content_length: usize, read: usize) -> (step: BodyStep)
    ensures
        step == if read == 0 {
            if body_len < content_length {
                BodyStep::Reject
            } else {
                BodyStep::Complete
            }
        } else if body_len > BODY_LIMIT || body_len >= content_length {
            BodyStep::Reject
        } else {
            BodyStep::More
        },
{
    if read == 0 {
        if body_len < content_length {
            return BodyStep::Reject;
        }
        return BodyStep::Complete;
    }
    if body_len > BODY_LIMIT || body_len >= content_length {
        return BodyStep::Reject;
    }
    BodyStep::More
}

/// Whether a body that is sent to `url` is kept: it is for the list of
/// subscribers only.
pub fn keeps_post(url: &str) -> (kept: bool)
    ensures
        kept == (url@ == "/subscribe"@),
{
    let n = url.unicode_len();
    let m = "/subscribe".unicode_len();
    if n != m {
        return false;
    }
    let found = crate::text::str_stands_at(url, 0, "/subscribe");
    assert(url@.subrange(0, n as int) =~= url@);
    found
}

/// The record that a kept body adds to the list of subscribers: the body and
/// a line break.
pub fn post_record(body: Vec<u8>) -> (record: Vec<u8>)
    ensures
        record@ == body@.push(10u8),
{
    let mut record = body;
    record.push(10u8);
    record
}

} // verus!
