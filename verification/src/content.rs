//! The content type under which a resource is served.

use crate::text::{
    after_last, chars_of, last_part_start, lemma_after_last_is_last_piece, pieces, same_text,
};
use vstd::prelude::*;
use vstd::slice::slice_subrange;

verus! {

/// The extension of a target: what follows its last dot, or all of the
/// target where it holds no dot.
pub open spec fn extension(target: Seq<char>) -> Seq<char> {
    after_last(target, '.')
}

/// The content type of the resource that `target` names. The extension alone
/// decides: style sheets and three kinds of image are known, and everything
/// else is taken for HTML.
pub open spec fn content_type_of(target: Seq<char>) -> Seq<char> {
    let ext = extension(target);
    if ext == "css"@ {
        "text/css"@
    } else if ext == "png"@ {
        "image/png"@
    } else if ext == "svg"@ {
        "image/svg+xml"@
    } else if ext == "ico"@ {
        "image/x-icon"@
    } else {
        "text/html"@
    }
}

/// Whether `ext` is one of the extensions that have a content type of their
/// own.
pub open spec fn is_known_extension(ext: Seq<char>) -> bool {
    ext == "css"@ || ext == "png"@ || ext == "svg"@ || ext == "ico"@
}

/// Resolves the content type of a target.
pub fn content_type(target: &str) -> (mime: &'static str)
    ensures
        mime@ == content_type_of(target@),
        !is_known_extension(extension(target@)) ==> mime@ == "text/html"@,
{
    let chars = chars_of(target);
    let from = last_part_start(&chars, '.');
    let ext = slice_subrange(&chars, from, chars.len());
    if same_text(ext, "css") {
        "text/css"
    } else if same_text(ext, "png") {
        "image/png"
    } else if same_text(ext, "svg") {
        "image/svg+xml"
    } else if same_text(ext, "ico") {
        "image/x-icon"
    } else {
        "text/html"
    }
}

/// The extension is the last of the parts into which dots split a target.
pub proof fn lemma_extension_is_last_part(target: Seq<char>)
    ensures
        extension(target) == pieces(target, '.').last(),
{
    lemma_after_last_is_last_piece(target, '.');
}

/// A target whose extension is not a known one is served as HTML.
pub proof fn lemma_unknown_extension_is_html(target: Seq<char>)
    requires
        !is_known_extension(extension(target)),
    ensures
        content_type_of(target) == "text/html"@,
{
}

/// A target that ends in a dot and `ext`, where `ext` holds no dot, has the
/// extension `ext`.
pub proof fn lemma_extension_of_suffix(target: Seq<char>, ext: Seq<char>)
    requires
        !ext.contains('.'),
        (seq!['.'] + ext).is_suffix_of(target),
    ensures
        extension(target) == ext,
    decreases ext.len(),
{
    let tail = seq!['.'] + ext;
    let from = target.len() - tail.len();
    assert(tail =~= target.subrange(from, target.len() as int));
    if ext.len() == 0 {
        assert(target.last() == tail[0]);
        assert(extension(target) =~= ext);
    } else {
        assert(target.last() == tail[tail.len() - 1]);
        assert(ext.contains(ext.last()));
        let shorter = ext.drop_last();
        assert(!shorter.contains('.')) by {
            if shorter.contains('.') {
                let k = choose|k: int| 0 <= k < shorter.len() && shorter[k] == '.';
                assert(ext[k] == '.');
            }
        }
        let head = target.drop_last();
        let short_tail = seq!['.'] + shorter;
        assert(short_tail =~= head.subrange(from, head.len() as int)) by {
            assert forall|k: int| 0 <= k < short_tail.len() implies short_tail[k] == head.subrange(
                from,
                head.len() as int,
            )[k] by {
                assert(short_tail[k] == tail[k]);
                assert(tail[k] == target.subrange(from, target.len() as int)[k]);
            }
        }
        lemma_extension_of_suffix(target.drop_last(), shorter);
        assert(shorter.push(ext.last()) =~= ext);
    }
}

/// A target that ends in `.css` is a style sheet, and one that ends in
/// `.png`, `.svg` or `.ico` is an image of that kind.
pub proof fn lemma_content_type_of_suffix(target: Seq<char>)
    ensures
        ".css"@.is_suffix_of(target) ==> content_type_of(target) == "text/css"@,
        ".png"@.is_suffix_of(target) ==> content_type_of(target) == "image/png"@,
        ".svg"@.is_suffix_of(target) ==> content_type_of(target) == "image/svg+xml"@,
        ".ico"@.is_suffix_of(target) ==> content_type_of(target) == "image/x-icon"@,
{
    reveal_strlit("css");
    reveal_strlit("png");
    reveal_strlit("svg");
    reveal_strlit("ico");
    reveal_strlit(".css");
    reveal_strlit(".png");
    reveal_strlit(".svg");
    reveal_strlit(".ico");
    assert(".css"@ =~= seq!['.'] + "css"@);
    assert(".png"@ =~= seq!['.'] + "png"@);
    assert(".svg"@ =~= seq!['.'] + "svg"@);
    assert(".ico"@ =~= seq!['.'] + "ico"@);
    assert("css"@[0] != "png"@[0]);
    assert("css"@[0] != "svg"@[1]);
    assert("css"@[0] != "ico"@[0]);
    assert("png"@[0] != "svg"@[0]);
    assert("png"@[0] != "ico"@[0]);
    assert("svg"@[0] != "ico"@[0]);
    if ".css"@.is_suffix_of(target) {
        lemma_extension_of_suffix(target, "css"@);
    }
    if ".png"@.is_suffix_of(target) {
        lemma_extension_of_suffix(target, "png"@);
    }
    if ".svg"@.is_suffix_of(target) {
        lemma_extension_of_suffix(target, "svg"@);
    }
    if ".ico"@.is_suffix_of(target) {
        lemma_extension_of_suffix(target, "ico"@);
    }
}

} // verus!
