//! File names for the outputs: a request's description with every character
//! that could lead out of the output directory replaced.

use vstd::prelude::*;
use vstd::std_specs::iter::IteratorSpec;
use vstd::string::StringExecFns;

verus! {

/// `String::push` appends the given character to the end of the string.
pub assume_specification[ String::push ](text: &mut String, ch: char)
    ensures
        final(text)@ == old(text)@.push(ch),
;

/// The character that stands in for one that a file name cannot hold.
pub const REPLACEMENT: char = '_';

/// A character that must not stand in a file name: a path separator, one of
/// the characters that a file system or a shell reads as more than a letter
/// (`: * ? " < > |`), or a control character.
pub open spec fn path_unsafe(c: char) -> bool {
    ||| c == '/'
    ||| c == '\\'
    ||| c == ':'
    ||| c == '*'
    ||| c == '?'
    ||| c == '"'
    ||| c == '<'
    ||| c == '>'
    ||| c == '|'
    ||| (c as u32) < 0x20
    ||| (c as u32) == 0x7f
}

/// No character of `text` is path-unsafe.
pub open spec fn path_safe(text: Seq<char>) -> bool {
    forall|i: int| 0 <= i < text.len() ==> !path_unsafe(#[trigger] text[i])
}

/// The character itself, or the replacement where it is path-unsafe.
pub open spec fn safe_char(c: char) -> char {
    if path_unsafe(c) {
        REPLACEMENT
    } else {
        c
    }
}

/// `text` with every path-unsafe character replaced.
pub open spec fn sanitized(text: Seq<char>) -> Seq<char> {
    Seq::new(text.len(), |i: int| safe_char(text[i]))
}

/// The name of the file for an output with the given description: the
/// sanitized description, followed by `.pdf`.
pub open spec fn file_name_for(description: Seq<char>) -> Seq<char> {
    sanitized(description) + ".pdf"@
}

/// Sanitizing leaves no path-unsafe character, keeps the length, and changes
/// nothing in a text that holds none.
pub proof fn lemma_sanitized_is_safe(text: Seq<char>)
    ensures
        path_safe(sanitized(text)),
        sanitized(text).len() == text.len(),
        path_safe(text) ==> sanitized(text) == text,
        sanitized(sanitized(text)) == sanitized(text),
{
    if path_safe(text) {
        assert(sanitized(text) =~= text);
    }
    assert(sanitized(sanitized(text)) =~= sanitized(text));
}

/// A file name holds no path-unsafe character, so it names a file in the
/// directory in which it is used. Where the description holds none either,
/// the name is the description followed by `.pdf`.
pub proof fn lemma_file_name_is_safe(description: Seq<char>)
    ensures
        path_safe(file_name_for(description)),
        path_safe(description) ==> file_name_for(description) == description + ".pdf"@,
{
    reveal_strlit(".pdf");
    lemma_sanitized_is_safe(description);
    let name = file_name_for(description);
    assert forall|i: int| 0 <= i < name.len() implies !path_unsafe(#[trigger] name[i]) by {
        if i < description.len() {
            assert(name[i] == sanitized(description)[i]);
        } else {
            assert(name[i] == ".pdf"@[i - description.len()]);
        }
    }
}

/// Whether a character must not stand in a file name.
pub fn is_path_unsafe(c: char) -> (unsafe_here: bool)
    ensures
        unsafe_here == path_unsafe(c),
{
    c == '/' || c == '\\' || c == ':' || c == '*' || c == '?' || c == '"' || c == '<' || c == '>'
        || c == '|' || (c as u32) < 0x20 || (c as u32) == 0x7f
}

/// The name of the file for an output with the given description.
pub fn file_name(description: &str) -> (name: String)
    ensures
        name@ == file_name_for(description@),
        path_safe(name@),
        path_safe(description@) ==> name@ == description@ + ".pdf"@,
{
    let mut stem = String::new();
    for c in it: description.chars()
        invariant
            it.seq() == description@,
            stem@.len() == it.index(),
            forall|i: int| 0 <= i < it.index() ==> stem@[i] == safe_char(description@[i]),
    {
        if is_path_unsafe(c) {
            stem.push(REPLACEMENT);
        } else {
            stem.push(c);
        }
    }
    proof {
        assert(stem@ =~= sanitized(description@));
        lemma_file_name_is_safe(description@);
    }
    stem.concat(".pdf")
}

} // verus!
