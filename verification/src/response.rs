//! Responses: which of the two shapes answers a request, where the file to
//! send lies, and the text or the bytes that go back to the client.

use crate::chat::{entry, lemma_entry_holds_data, lemma_rendered_holds_entry, render, rendered};
use crate::content::{content_type, content_type_of, lemma_content_type_of_suffix};
use crate::method::method_of;
use crate::request::{
    initial_request, last_with, lemma_last_line_counts, lemma_parsed_request_line,
    lemma_rooted_keeps_suffix, parsed, request_words, rooted, Request, RequestView,
};
use crate::text::{
    chars_of, ends_with, lemma_occurs_in_chain, lemma_occurs_in_part,
    lemma_replaced_shows_replacement, lines, occurs_in, pieces, push_all, replace_all, replaced,
    string_of, string_views,
};
use vstd::prelude::*;
use vstd::utf8::encode_utf8;

verus! {

/// The two shapes of a response.
#[derive(Clone, Copy, Debug, PartialEq, Eq, Structural)]
pub enum Shape {
    /// The header block, then the bytes of the file as they are.
    Binary,
    /// The header block, then the text of the file with the chat log filled
    /// in.
    Text,
}

/// The shape of the response to a request: binary where the client accepts
/// `image/png` or the target ends in `.png`, `.ico` or `.svg`; text
/// otherwise.
pub open spec fn shape_of(request: RequestView) -> Shape {
    if request.accept.contains("image/png"@) || ".png"@.is_suffix_of(request.target)
        || ".ico"@.is_suffix_of(request.target) || ".svg"@.is_suffix_of(request.target) {
        Shape::Binary
    } else {
        Shape::Text
    }
}

/// Where the file of a target lies, seen from the working directory.
pub open spec fn path_of(target: Seq<char>) -> Seq<char> {
    "."@ + target
}

/// The lines that open every response: the status, the name of the server
/// and the content type, closed by an empty line.
pub open spec fn header_block(content_type: Seq<char>) -> Seq<char> {
    "HTTP/1.1 200 OK\r\nServer: Rust TCP server\r\nContent-Type: "@ + content_type + "\r\n\r\n"@
}

/// The marker in a page that stands for the chat log.
pub open spec fn chat_marker() -> Seq<char> {
    "$CHAT"@
}

/// A page with the chat log filled in at every marker.
pub open spec fn page(body: Seq<char>, chat: Seq<Seq<char>>) -> Seq<char> {
    replaced(body, chat_marker(), rendered(chat))
}

/// The response of text shape.
pub open spec fn text_response_of(
    content_type: Seq<char>,
    body: Seq<char>,
    chat: Seq<Seq<char>>,
) -> Seq<char> {
    header_block(content_type) + page(body, chat)
}

/// The response of binary shape: the header block in UTF-8, then the bytes
/// of the file.
pub open spec fn binary_response_of(content_type: Seq<char>, image: Seq<u8>) -> Seq<u8> {
    encode_utf8(header_block(content_type)) + image
}

/// What has to be done to answer a request.
pub struct Plan {
    /// The shape of the response, which is also how the file is to be read.
    pub shape: Shape,
    /// The file to read.
    pub path: String,
    /// The content type to announce.
    pub content_type: &'static str,
}

impl Request {
    /// The shape of the response to this request.
    pub fn shape(&self) -> (shape: Shape)
        ensures
            shape == shape_of(self@),
    {
        let png = "image/png".to_owned();
        let mut i: usize = 0;
        while i < self.accept.len()
            invariant
                i <= self.accept.len(),
                png@ == "image/png"@,
                forall|j: int| 0 <= j < i ==> string_views(self.accept@)[j] != "image/png"@,
            decreases self.accept.len() - i,
        {
            if self.accept[i] == png {
                assert(string_views(self.accept@)[i as int] == "image/png"@);
                return Shape::Binary;
            }
            i += 1;
        }
        let target = chars_of(self.target.as_str());
        if ends_with(&target, ".png") || ends_with(&target, ".ico") || ends_with(&target, ".svg") {
            Shape::Binary
        } else {
            Shape::Text
        }
    }
}

/// Where the file of a target lies.
pub fn file_path(target: &str) -> (path: String)
    ensures
        path@ == path_of(target@),
{
    let mut path = chars_of(".");
    push_all(&mut path, &chars_of(target));
    string_of(&path)
}

/// Plans the answer to a request.
pub fn plan(request: &Request) -> (plan: Plan)
    ensures
        plan.shape == shape_of(request@),
        plan.path@ == path_of(request@.target),
        plan.content_type@ == content_type_of(request@.target),
{
    Plan {
        shape: request.shape(),
        path: file_path(request.target.as_str()),
        content_type: content_type(request.target.as_str()),
    }
}

/// The characters of the header block for a content type.
pub fn header_chars(content_type: &str) -> (out: Vec<char>)
    ensures
        out@ == header_block(content_type@),
{
    let mut out = chars_of("HTTP/1.1 200 OK\r\nServer: Rust TCP server\r\nContent-Type: ");
    push_all(&mut out, &chars_of(content_type));
    push_all(&mut out, &chars_of("\r\n\r\n"));
    out
}

/// Puts together the response of text shape: the header block, then `body`
/// with the chat log in place of every marker.
pub fn text_response(content_type: &str, body: &str, chat: &Vec<String>) -> (out: String)
    ensures
        out@ == text_response_of(content_type@, body@, string_views(chat@)),
{
    let mut out = header_chars(content_type);
    let log = render(chat);
    let filled = replace_all(&chars_of(body), &chars_of("$CHAT"), &log);
    push_all(&mut out, &filled);
    string_of(&out)
}

/// Puts together the response of binary shape: the header block, then the
/// bytes of the file, untouched.
pub fn binary_response(content_type: &str, image: &[u8]) -> (out: Vec<u8>)
    ensures
        out@ == binary_response_of(content_type@, image@),
{
    let head = string_of(&header_chars(content_type));
    let mut out: Vec<u8> = Vec::new();
    push_all(&mut out, head.as_str().as_bytes());
    push_all(&mut out, image);
    assert(out@ =~= encode_utf8(header_block(content_type@)) + image@);
    out
}

/// A request for a PNG image, and a request of a client that accepts PNG
/// images, is answered in binary shape.
pub proof fn lemma_png_is_binary(request: RequestView)
    requires
        ".png"@.is_suffix_of(request.target) || request.accept.contains("image/png"@),
    ensures
        shape_of(request) == Shape::Binary,
{
}

/// A request that names a target ending in `.png` is answered in binary
/// shape and as a PNG image.
pub proof fn lemma_png_target_is_binary(raw: Seq<char>)
    ensures
        parsed(raw) matches Ok(read) ==> (".png"@.is_suffix_of(request_words(raw)[1]) ==> {
            &&& shape_of(read) == Shape::Binary
            &&& content_type_of(read.target) == "image/png"@
        }),
{
    match parsed(raw) {
        Ok(read) => {
            let target = request_words(raw)[1];
            if ".png"@.is_suffix_of(target) {
                reveal_strlit(".png");
                lemma_parsed_request_line(raw);
                lemma_rooted_keeps_suffix(target, ".png"@);
                lemma_content_type_of_suffix(read.target);
            }
        },
        Err(_) => {},
    }
}

/// A request whose last `Accept:` line lists `image/png` is answered in
/// binary shape, whatever its target.
pub proof fn lemma_accepted_png_is_binary(raw: Seq<char>)
    ensures
        parsed(raw) matches Ok(read) ==> (last_with(lines(raw), "Accept:"@) matches Some(line)
            ==> (pieces(line.skip("Accept: "@.len() as int), ',').contains("image/png"@)
            ==> shape_of(read) == Shape::Binary)),
{
    let parts = request_words(raw);
    if parts.len() >= 3 {
        let first = RequestView {
            method: method_of(parts[0]),
            target: rooted(parts[1]),
            protocol: parts[2],
            ..initial_request()
        };
        lemma_last_line_counts(first, lines(raw));
    }
}

/// A response of binary shape is the header block followed by the bytes of
/// the file, and nothing else.
pub proof fn lemma_binary_response_parts(content_type: Seq<char>, image: Seq<u8>)
    ensures
        encode_utf8(header_block(content_type)).is_prefix_of(
            binary_response_of(content_type, image),
        ),
        binary_response_of(content_type, image).skip(
            encode_utf8(header_block(content_type)).len() as int,
        ) == image,
{
    let head = encode_utf8(header_block(content_type));
    let whole = binary_response_of(content_type, image);
    assert(head =~= whole.subrange(0, head.len() as int));
    assert(whole.skip(head.len() as int) =~= image);
}

/// Submitted text shows. Once the entry for `data` from `peer` is in the
/// chat log, every page that holds the marker holds that entry, and with it
/// the text, and so does the response that carries the page.
pub proof fn lemma_recorded_text_shows(
    content_type: Seq<char>,
    body: Seq<char>,
    chat: Seq<Seq<char>>,
    peer: Seq<char>,
    data: Seq<char>,
)
    requires
        occurs_in(chat_marker(), body),
    ensures
        occurs_in(entry(peer, data), page(body, chat.push(entry(peer, data)))),
        occurs_in(data, page(body, chat.push(entry(peer, data)))),
        occurs_in(data, text_response_of(content_type, body, chat.push(entry(peer, data)))),
{
    reveal_strlit("$CHAT");
    let line = entry(peer, data);
    let log = chat.push(line);
    let shown = page(body, log);
    assert(log[log.len() - 1] == line);
    lemma_rendered_holds_entry(log, log.len() - 1);
    lemma_replaced_shows_replacement(body, chat_marker(), rendered(log));
    lemma_occurs_in_chain(line, rendered(log), shown);
    lemma_entry_holds_data(peer, data);
    lemma_occurs_in_chain(data, line, shown);
    lemma_occurs_in_part(data, header_block(content_type), shown, Seq::empty());
    assert(header_block(content_type) + shown + Seq::<char>::empty() =~= text_response_of(
        content_type,
        body,
        log,
    ));
}

} // verus!
