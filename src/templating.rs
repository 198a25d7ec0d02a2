//! HTML templates with named `<!-- name -->` slots.

use vstd::prelude::*;
use vstd::utf8::{decode_utf8, valid_utf8};

use crate::text::{chars_of, replace_all, replace_chars, string_of_chars, utf8_text};
use crate::types::FileContent;

verus! {

/// The marker that stands for the slot `name` in a template.
pub open spec fn slot_marker(name: Seq<char>) -> Seq<char> {
    seq!['<', '!', '-', '-', ' '] + name + seq![' ', '-', '-', '>']
}

#[derive(Debug)]
pub struct Template {
    pub content: String,
}

impl Template {
    /// Loads a template from a file; `None` when its bytes are not UTF-8.
    pub fn new(file: FileContent) -> (r: Option<Template>)
        ensures
            r is Some <==> valid_utf8(file.content@),
            r is Some ==> r->0.content@ == decode_utf8(file.content@),
    {
        match utf8_text(file.content) {
            Some(content) => Some(Template { content }),
            None => None,
        }
    }

    /// Replaces every marker of slot `name` with `content`, in one pass.
    pub fn set_section(&mut self, name: String, content: String)
        ensures
            final(self).content@ == replace_all(old(self).content@, slot_marker(name@), content@),
    {
        let mut marker: Vec<char> = vec!['<', '!', '-', '-', ' '];
        let name_chars = chars_of(name.as_str());
        let mut i: usize = 0;
        while i < name_chars.len()
            invariant
                i <= name_chars.len(),
                marker@ == seq!['<', '!', '-', '-', ' '] + name_chars@.take(i as int),
            decreases name_chars.len() - i,
        {
            marker.push(name_chars[i]);
            proof {
                assert(name_chars@.take(i + 1) =~= name_chars@.take(i as int).push(name_chars@[i as int]));
            }
            i = i + 1;
        }
        marker.push(' ');
        marker.push('-');
        marker.push('-');
        marker.push('>');
        assert(name_chars@.take(i as int) =~= name@);
        assert(marker@ =~= slot_marker(name@));
        let body = chars_of(self.content.as_str());
        let rep = chars_of(content.as_str());
        let replaced = replace_chars(&body, &marker, &rep);
        self.content = string_of_chars(&replaced);
    }
}

} // verus!
