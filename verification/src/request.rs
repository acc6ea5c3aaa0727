//! Requests: what one holds, and how the text that a client sent is read.

use crate::method::{method_of, Method};
use crate::text::{
    chars_of, copy_range, find_char, first_index, lemma_first_index, lines, pieces, prefix_end,
    push_all, same_text, split_at, split_lines, split_words, starts_with, string_of,
    string_views, strings_of, views, words,
};
use vstd::prelude::*;
use vstd::utf8::{decode_utf8, valid_utf8};

verus! {

/// The number of bytes of a request that are read: what a client sends
/// beyond them is not looked at.
pub const REQUEST_LIMIT: usize = 1024;

/// One request of a client.
#[derive(Debug)]
pub struct Request {
    pub method: Method,
    /// The path of the resource, below the root directory.
    pub target: String,
    pub protocol: String,
    /// The text submitted with the request, if any.
    pub data: Option<String>,
    /// The media types that the client accepts, in the order given.
    pub accept: Vec<String>,
    /// What the client wants the resource for.
    pub doc_type: String,
}

/// A request as contracts see it.
pub struct RequestView {
    pub method: Method,
    pub target: Seq<char>,
    pub protocol: Seq<char>,
    pub data: Option<Seq<char>>,
    pub accept: Seq<Seq<char>>,
    pub doc_type: Seq<char>,
}

/// The view of a string that may be missing.
pub open spec fn option_view(s: Option<String>) -> Option<Seq<char>> {
    match s {
        Some(s) => Some(s@),
        None => None,
    }
}

impl View for Request {
    type V = RequestView;

    open spec fn view(&self) -> RequestView {
        RequestView {
            method: self.method,
            target: self.target@,
            protocol: self.protocol@,
            data: option_view(self.data),
            accept: string_views(self.accept@),
            doc_type: self.doc_type@,
        }
    }
}

/// The request that is assumed before anything has been read: the index page,
/// fetched as a document by a client that accepts HTML.
pub open spec fn initial_request() -> RequestView {
    RequestView {
        method: Method::GET,
        target: "/website/index.html"@,
        protocol: "HTTP/1.1"@,
        data: None,
        accept: seq!["text/html"@],
        doc_type: "document"@,
    }
}

impl Default for Request {
    fn default() -> (request: Self)
        ensures
            request@ == initial_request(),
    {
        let mut accept: Vec<String> = Vec::new();
        accept.push("text/html".to_owned());
        assert(string_views(accept@) =~= seq!["text/html"@]);
        Request {
            method: Method::GET,
            target: "/website/index.html".to_owned(),
            protocol: "HTTP/1.1".to_owned(),
            data: None,
            accept,
            doc_type: "document".to_owned(),
        }
    }
}

/// The directory below which every resource lies.
pub open spec fn root() -> Seq<char> {
    "/website"@
}

/// The target of a request as it is served: `target` itself where it begins
/// with the root directory, else the root directory followed by `target`; and
/// the index page in place of the bare root directory.
pub open spec fn rooted(target: Seq<char>) -> Seq<char> {
    let below = if root().is_prefix_of(target) {
        target
    } else {
        root() + target
    };
    if below == "/website/"@ {
        "/website/index.html"@
    } else {
        below
    }
}

/// Puts a target below the root directory.
pub fn normalize_target(target: &str) -> (out: String)
    ensures
        out@ == rooted(target@),
        root().is_prefix_of(out@),
{
    proof {
        lemma_rooted(target@);
    }
    let chars = chars_of(target);
    let below = rooted_chars(&chars);
    string_of(&below)
}

/// Puts a target, given as characters, below the root directory.
pub fn rooted_chars(target: &[char]) -> (out: Vec<char>)
    ensures
        out@ == rooted(target@),
{
    let mut below: Vec<char> = Vec::new();
    if !starts_with(target, "/website") {
        below = chars_of("/website");
    }
    push_all(&mut below, target);
    assert(Seq::<char>::empty() + target@ =~= target@);
    if same_text(&below, "/website/") {
        chars_of("/website/index.html")
    } else {
        below
    }
}

/// Why the text of a client is no request.
#[derive(Clone, Copy, Debug, PartialEq, Eq, Structural)]
pub enum ParseError {
    /// The request line holds fewer than two words: it names no target, and
    /// there is nothing to answer.
    NoTarget,
    /// The request line holds a method and a target, and no protocol.
    NoProtocol,
    /// A line begins with `data` and holds no `=`.
    DataWithoutValue,
    /// A line begins with `Accept:`, and no space follows the colon.
    AcceptWithoutSpace,
    /// A line begins with `Sec-Fetch-Dest`, and no colon and space follow.
    FetchDestWithoutSpace,
}

/// What one line adds to a request.
///
/// A line that begins with `data` carries submitted text: all that follows
/// its first `=`. A line that begins with `Accept: ` lists the accepted media
/// types, separated by commas. A line that begins with `Sec-Fetch-Dest: `
/// says what the resource is wanted for. Any other line changes nothing.
pub open spec fn with_line(request: RequestView, line: Seq<char>) -> Result<
    RequestView,
    ParseError,
> {
    if "data"@.is_prefix_of(line) {
        if line.contains('=') {
            Ok(RequestView { data: Some(line.skip(first_index(line, '=') as int + 1)), ..request })
        } else {
            Err(ParseError::DataWithoutValue)
        }
    } else if "Accept:"@.is_prefix_of(line) {
        if "Accept: "@.is_prefix_of(line) {
            Ok(RequestView { accept: pieces(line.skip("Accept: "@.len() as int), ','), ..request })
        } else {
            Err(ParseError::AcceptWithoutSpace)
        }
    } else if "Sec-Fetch-Dest"@.is_prefix_of(line) {
        if "Sec-Fetch-Dest: "@.is_prefix_of(line) {
            Ok(RequestView { doc_type: line.skip("Sec-Fetch-Dest: "@.len() as int), ..request })
        } else {
            Err(ParseError::FetchDestWithoutSpace)
        }
    } else {
        Ok(request)
    }
}

/// What a run of lines adds to a request, read from first to last. The first
/// line that cannot be read ends it.
pub open spec fn with_lines(request: RequestView, lines: Seq<Seq<char>>) -> Result<
    RequestView,
    ParseError,
>
    decreases lines.len(),
{
    if lines.len() == 0 {
        Ok(request)
    } else {
        match with_line(request, lines[0]) {
            Ok(next) => with_lines(next, lines.skip(1)),
            Err(e) => Err(e),
        }
    }
}

/// The words of the first line of `raw`; none where `raw` is empty.
pub open spec fn request_words(raw: Seq<char>) -> Seq<Seq<char>> {
    if lines(raw).len() == 0 {
        Seq::empty()
    } else {
        words(lines(raw)[0])
    }
}

/// The request that the text `raw` stands for.
///
/// The first three words of the first line are the method, the target and
/// the protocol. Every line, the first one too, is then read as `with_line`
/// says.
pub open spec fn parsed(raw: Seq<char>) -> Result<RequestView, ParseError> {
    let parts = request_words(raw);
    if parts.len() < 2 {
        Err(ParseError::NoTarget)
    } else if parts.len() < 3 {
        Err(ParseError::NoProtocol)
    } else {
        with_lines(
            RequestView {
                method: method_of(parts[0]),
                target: rooted(parts[1]),
                protocol: parts[2],
                ..initial_request()
            },
            lines(raw),
        )
    }
}

/// The request or the error of a result, the request by its view.
pub open spec fn outcome_view(outcome: Result<Request, ParseError>) -> Result<
    RequestView,
    ParseError,
> {
    match outcome {
        Ok(request) => Ok(request@),
        Err(e) => Err(e),
    }
}

/// Reads one line into a request.
pub fn read_line(request: Request, line: &[char]) -> (out: Result<Request, ParseError>)
    ensures
        outcome_view(out) == with_line(request@, line@),
{
    let mut request = request;
    if starts_with(line, "data") {
        let eq = find_char(line, 0, '=');
        proof {
            assert(line@.skip(0) =~= line@);
            lemma_first_index(line@, '=');
        }
        if eq == line.len() {
            return Err(ParseError::DataWithoutValue);
        }
        let value = copy_range(line, eq + 1, line.len());
        request.data = Some(string_of(&value));
        Ok(request)
    } else if starts_with(line, "Accept:") {
        match prefix_end(line, "Accept: ") {
            Some(from) => {
                let list = copy_range(line, from, line.len());
                let types = split_at(&list, ',');
                request.accept = strings_of(&types);
                Ok(request)
            },
            None => Err(ParseError::AcceptWithoutSpace),
        }
    } else if starts_with(line, "Sec-Fetch-Dest") {
        match prefix_end(line, "Sec-Fetch-Dest: ") {
            Some(from) => {
                let value = copy_range(line, from, line.len());
                request.doc_type = string_of(&value);
                Ok(request)
            },
            None => Err(ParseError::FetchDestWithoutSpace),
        }
    } else {
        Ok(request)
    }
}

/// Reads the text that a client sent.
pub fn parse_request(raw: &str) -> (out: Result<Request, ParseError>)
    ensures
        outcome_view(out) == parsed(raw@),
        out == Err::<Request, ParseError>(ParseError::NoTarget) <==> request_words(raw@).len() < 2,
{
    proof {
        lemma_parsed_request_line(raw@);
    }
    let text = chars_of(raw);
    let all = split_lines(&text);
    if all.len() == 0 {
        return Err(ParseError::NoTarget);
    }
    let parts = split_words(&all[0]);
    if parts.len() < 2 {
        return Err(ParseError::NoTarget);
    }
    if parts.len() < 3 {
        return Err(ParseError::NoProtocol);
    }
    let mut request = Request::default();
    request.method = Method::of_word(&parts[0]);
    request.target = string_of(&rooted_chars(&parts[1]));
    request.protocol = string_of(&parts[2]);
    let mut i: usize = 0;
    assert(views(all@).skip(0) =~= views(all@));
    while i < all.len()
        invariant
            i <= all.len(),
            with_lines(request@, views(all@).skip(i as int)) == parsed(raw@),
        decreases all.len() - i,
    {
        assert(views(all@).skip(i as int).skip(1) =~= views(all@).skip(i + 1));
        match read_line(request, &all[i]) {
            Ok(next) => {
                request = next;
            },
            Err(e) => {
                return Err(e);
            },
        }
        i += 1;
    }
    Ok(request)
}

/// The text that bytes stand for when they are decoded as UTF-8 with the
/// replacement character U+FFFD in place of every part that is no valid
/// UTF-8, as `String::from_utf8_lossy` does it.
pub uninterp spec fn lossy_text(bytes: Seq<u8>) -> Seq<char>;

/// Calls `String::from_utf8_lossy`, which turns bytes into text and never
/// fails. Nothing is proved of it here. The contract takes from its
/// documentation that the text depends on the bytes alone, and that bytes
/// which are valid UTF-8 come out as the characters that they encode.
#[verifier::external_body]
fn decode_lossy(bytes: &[u8]) -> (text: String)
    ensures
        text@ == lossy_text(bytes@),
        valid_utf8(bytes@) ==> text@ == decode_utf8(bytes@),
{
    String::from_utf8_lossy(bytes).into_owned()
}

/// Reads the bytes that a client sent: decodes them, forgiving what is no
/// valid UTF-8, and reads the text as `parse_request` does.
pub fn parse_bytes(raw: &[u8]) -> (out: Result<Request, ParseError>)
    ensures
        outcome_view(out) == parsed(lossy_text(raw@)),
        valid_utf8(raw@) ==> outcome_view(out) == parsed(decode_utf8(raw@)),
        out == Err::<Request, ParseError>(ParseError::NoTarget) <==> request_words(
            lossy_text(raw@),
        ).len() < 2,
{
    let text = decode_lossy(raw);
    parse_request(text.as_str())
}

/// Every target that is served lies below the root directory. A target that
/// begins with the root directory is served as it is and any other with the
/// root directory in front, but for the bare root directory, which both `/`
/// and `/website/` name: in its place the index page is served.
pub proof fn lemma_rooted(target: Seq<char>)
    ensures
        root().is_prefix_of(rooted(target)),
        root().is_prefix_of(target) && target != "/website/"@ ==> rooted(target) == target,
        !root().is_prefix_of(target) && target != "/"@ ==> rooted(target) == root() + target,
        rooted("/"@) == "/website/index.html"@,
        rooted("/website/"@) == "/website/index.html"@,
{
    reveal_strlit("/");
    reveal_strlit("/website");
    reveal_strlit("/website/");
    reveal_strlit("/website/index.html");
    let front = root() + target;
    assert(root() =~= front.subrange(0, root().len() as int));
    assert(root() =~= "/website/index.html"@.subrange(0, root().len() as int));
    assert(root() =~= "/website/"@.subrange(0, root().len() as int));
    assert(front.skip(root().len() as int) =~= target);
    assert("/website/"@.skip(root().len() as int) =~= "/"@);
    assert(root() + "/"@ =~= "/website/"@);
    assert("/"@.len() < root().len());
}

/// Putting a target below the root directory keeps what the target ends in,
/// unless that is a slash.
pub proof fn lemma_rooted_keeps_suffix(target: Seq<char>, suffix: Seq<char>)
    requires
        suffix.is_suffix_of(target),
        suffix.len() > 0,
        suffix.last() != '/',
    ensures
        suffix.is_suffix_of(rooted(target)),
{
    reveal_strlit("/website/");
    let below = if root().is_prefix_of(target) {
        target
    } else {
        root() + target
    };
    let tail = target.subrange(target.len() - suffix.len(), target.len() as int);
    assert(suffix =~= tail);
    assert(suffix =~= below.subrange(below.len() - suffix.len(), below.len() as int));
    assert(below.last() == tail[suffix.len() - 1]);
    assert("/website/"@.last() == '/');
}

/// Reading lines changes neither the method nor the target nor the protocol
/// of a request, and where it fails, it fails on a line.
pub proof fn lemma_with_lines_keeps_request_line(request: RequestView, lines: Seq<Seq<char>>)
    ensures
        match with_lines(request, lines) {
            Ok(read) => read.method == request.method && read.target == request.target
                && read.protocol == request.protocol,
            Err(e) => e != ParseError::NoTarget && e != ParseError::NoProtocol,
        },
    decreases lines.len(),
{
    if lines.len() > 0 {
        match with_line(request, lines[0]) {
            Ok(next) => lemma_with_lines_keeps_request_line(next, lines.skip(1)),
            Err(_) => {},
        }
    }
}

/// A text is turned away for want of a target exactly when its first line
/// holds fewer than two words, and for want of a protocol exactly when it
/// holds two. A request that was read has the method, the target and the
/// protocol that its first line names, the target below the root directory.
pub proof fn lemma_parsed_request_line(raw: Seq<char>)
    ensures
        parsed(raw) == Err::<RequestView, ParseError>(ParseError::NoTarget) <==> request_words(
            raw,
        ).len() < 2,
        parsed(raw) == Err::<RequestView, ParseError>(ParseError::NoProtocol) <==> request_words(
            raw,
        ).len() == 2,
        parsed(raw) matches Ok(read) ==> {
            &&& read.method == method_of(request_words(raw)[0])
            &&& read.target == rooted(request_words(raw)[1])
            &&& read.protocol == request_words(raw)[2]
            &&& root().is_prefix_of(read.target)
        },
{
    let parts = request_words(raw);
    if parts.len() >= 3 {
        let first = RequestView {
            method: method_of(parts[0]),
            target: rooted(parts[1]),
            protocol: parts[2],
            ..initial_request()
        };
        lemma_with_lines_keeps_request_line(first, lines(raw));
        lemma_rooted(parts[1]);
    }
}

/// The last of `lines` that begins with `prefix`, if any does.
pub open spec fn last_with(lines: Seq<Seq<char>>, prefix: Seq<char>) -> Option<Seq<char>>
    decreases lines.len(),
{
    if lines.len() == 0 {
        None
    } else if prefix.is_prefix_of(lines.last()) {
        Some(lines.last())
    } else {
        last_with(lines.drop_last(), prefix)
    }
}

/// Reading a run of lines is reading all but the last and then the last.
pub proof fn lemma_with_lines_last(request: RequestView, lines: Seq<Seq<char>>)
    requires
        lines.len() > 0,
    ensures
        with_lines(request, lines) == match with_lines(request, lines.drop_last()) {
            Ok(read) => with_line(read, lines.last()),
            Err(e) => Err(e),
        },
    decreases lines.len(),
{
    let front = lines.drop_last();
    let back = lines.skip(1);
    if lines.len() == 1 {
        assert(front =~= Seq::<Seq<char>>::empty());
        assert(back =~= Seq::<Seq<char>>::empty());
        assert(with_lines(request, front) == Ok::<RequestView, ParseError>(request));
        match with_line(request, lines[0]) {
            Ok(next) => {
                assert(with_lines(next, back) == Ok::<RequestView, ParseError>(next));
            },
            Err(_) => {},
        }
    } else {
        assert(back.drop_last() =~= front.skip(1));
        assert(back.last() == lines.last());
        assert(front[0] == lines[0]);
        match with_line(request, lines[0]) {
            Ok(next) => {
                lemma_with_lines_last(next, back);
                assert(with_lines(request, front) == with_lines(next, front.skip(1)));
            },
            Err(_) => {},
        }
    }
}

/// Of several lines of one kind the last one counts. In a request that was
/// read, the submitted text is what follows the first `=` of the last line
/// that begins with `data`, the accepted media types are those of the last
/// line that begins with `Accept:`, and the purpose is that of the last line
/// that begins with `Sec-Fetch-Dest`. What no line names is left as it was.
pub proof fn lemma_last_line_counts(request: RequestView, lines: Seq<Seq<char>>)
    ensures
        with_lines(request, lines) matches Ok(read) ==> {
            &&& read.data == match last_with(lines, "data"@) {
                Some(line) => Some(line.skip(first_index(line, '=') as int + 1)),
                None => request.data,
            }
            &&& read.accept == match last_with(lines, "Accept:"@) {
                Some(line) => pieces(line.skip("Accept: "@.len() as int), ','),
                None => request.accept,
            }
            &&& read.doc_type == match last_with(lines, "Sec-Fetch-Dest"@) {
                Some(line) => line.skip("Sec-Fetch-Dest: "@.len() as int),
                None => request.doc_type,
            }
        },
    decreases lines.len(),
{
    if lines.len() > 0 {
        reveal_strlit("data");
        reveal_strlit("Accept:");
        reveal_strlit("Sec-Fetch-Dest");
        lemma_with_lines_last(request, lines);
        lemma_last_line_counts(request, lines.drop_last());
        let last = lines.last();
        if "data"@.is_prefix_of(last) {
            assert(last[0] == "data"@[0]) by {
                assert("data"@[0] == last.subrange(0, "data"@.len() as int)[0]);
            }
        }
        if "Accept:"@.is_prefix_of(last) {
            assert(last[0] == "Accept:"@[0]) by {
                assert("Accept:"@[0] == last.subrange(0, "Accept:"@.len() as int)[0]);
            }
        }
        if "Sec-Fetch-Dest"@.is_prefix_of(last) {
            assert(last[0] == "Sec-Fetch-Dest"@[0]) by {
                assert("Sec-Fetch-Dest"@[0] == last.subrange(0, "Sec-Fetch-Dest"@.len() as int)[0]);
            }
        }
    }
}

} // verus!
