//! The chat log: the entries that clients have submitted, oldest first.

use crate::method::{method_of, spells_post, Method};
use crate::request::{
    initial_request, last_with, lemma_last_line_counts, lemma_parsed_request_line, parsed,
    request_words, rooted, Request, RequestView,
};
use crate::text::{
    chars_of, first_index, lemma_occurs_in_part, lemma_occurs_in_self, lines, occurs_in, push_all,
    string_of, string_views,
};
use vstd::prelude::*;

verus! {

/// The text that a request submits to the chat: the data of a `POST`
/// request. Any other request submits nothing.
pub open spec fn submission(request: RequestView) -> Option<Seq<char>> {
    if request.method == Method::POST {
        request.data
    } else {
        None
    }
}

/// The entry that records `data` as sent from the address `peer`.
pub open spec fn entry(peer: Seq<char>, data: Seq<char>) -> Seq<char> {
    peer + " says: "@ + data
}

/// The chat log as it appears in a page: each entry followed by a line
/// break tag, oldest first.
pub open spec fn rendered(chat: Seq<Seq<char>>) -> Seq<char>
    decreases chat.len(),
{
    if chat.len() == 0 {
        Seq::empty()
    } else {
        rendered(chat.drop_last()) + chat.last() + "<br>"@
    }
}

impl Request {
    /// The text that this request submits to the chat, if any.
    pub fn submission(&self) -> (out: Option<&String>)
        ensures
            match out {
                Some(data) => submission(self@) == Some(data@),
                None => submission(self@).is_none(),
            },
    {
        match self.method {
            Method::POST => self.data.as_ref(),
            Method::GET => None,
        }
    }
}

/// Appends to the chat log the entry for `data` as sent from `peer`.
pub fn record(chat: &mut Vec<String>, peer: &str, data: &str)
    ensures
        string_views(final(chat)@) == string_views(old(chat)@).push(entry(peer@, data@)),
{
    let mut line = chars_of(peer);
    push_all(&mut line, &chars_of(" says: "));
    push_all(&mut line, &chars_of(data));
    let text = string_of(&line);
    assert(string_views(chat@.push(text)) =~= string_views(chat@).push(text@));
    chat.push(text);
}

/// Renders the chat log for a page.
pub fn render(chat: &Vec<String>) -> (out: Vec<char>)
    ensures
        out@ == rendered(string_views(chat@)),
{
    let mut out: Vec<char> = Vec::new();
    let tag = chars_of("<br>");
    let mut i: usize = 0;
    assert(string_views(chat@).take(0) =~= Seq::<Seq<char>>::empty());
    while i < chat.len()
        invariant
            i <= chat.len(),
            tag@ == "<br>"@,
            out@ == rendered(string_views(chat@).take(i as int)),
        decreases chat.len() - i,
    {
        proof {
            let upto = string_views(chat@).take(i + 1);
            assert(upto.drop_last() =~= string_views(chat@).take(i as int));
            assert(upto.last() == chat@[i as int]@);
        }
        push_all(&mut out, &chars_of(chat[i].as_str()));
        push_all(&mut out, &tag);
        i += 1;
    }
    assert(string_views(chat@).take(i as int) =~= string_views(chat@));
    out
}

/// What a request that was read submits: where its first word spells `post`,
/// all that follows the first `=` of its last line that begins with `data`;
/// nothing where it has no such line or another first word.
pub proof fn lemma_submission_of_parsed(raw: Seq<char>)
    ensures
        parsed(raw) matches Ok(read) ==> submission(read) == if spells_post(
            request_words(raw)[0],
        ) {
            match last_with(lines(raw), "data"@) {
                Some(line) => Some(line.skip(first_index(line, '=') as int + 1)),
                None => None,
            }
        } else {
            None
        },
{
    let parts = request_words(raw);
    if parts.len() >= 3 {
        let first = RequestView {
            method: method_of(parts[0]),
            target: rooted(parts[1]),
            protocol: parts[2],
            ..initial_request()
        };
        lemma_parsed_request_line(raw);
        lemma_last_line_counts(first, lines(raw));
    }
}

/// The entry for a submitted text holds that text.
pub proof fn lemma_entry_holds_data(peer: Seq<char>, data: Seq<char>)
    ensures
        occurs_in(data, entry(peer, data)),
{
    lemma_occurs_in_self(data);
    lemma_occurs_in_part(data, peer + " says: "@, data, Seq::empty());
    assert(peer + " says: "@ + data + Seq::<char>::empty() =~= entry(peer, data));
}

/// The rendered chat log holds every entry of the log.
pub proof fn lemma_rendered_holds_entry(chat: Seq<Seq<char>>, k: int)
    requires
        0 <= k < chat.len(),
    ensures
        occurs_in(chat[k], rendered(chat)),
    decreases chat.len(),
{
    let older = rendered(chat.drop_last());
    if k == chat.len() - 1 {
        lemma_occurs_in_self(chat.last());
        lemma_occurs_in_part(chat.last(), older, chat.last(), "<br>"@);
    } else {
        lemma_rendered_holds_entry(chat.drop_last(), k);
        lemma_occurs_in_part(chat[k], Seq::empty(), older, chat.last() + "<br>"@);
        assert(Seq::<char>::empty() + older + (chat.last() + "<br>"@) =~= rendered(chat));
    }
}

} // verus!
