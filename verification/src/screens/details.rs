//! The details pane: a selected commit and its diffs.

use vstd::prelude::*;

use vstd::utf8::{encode_utf8, is_char_boundary};

use crate::repo::FileDiff;
use crate::text::{first_line, first_line_of, is_blank, lemma_encode_concat, trim, trimmed};

verus! {

/// Details pane showing information about a selected commit and its diffs.
pub struct DetailsPane {
    diffs: Vec<FileDiff>,
}

impl DetailsPane {
    /// The diffs that the pane shows.
    pub closed spec fn spec_diffs(&self) -> Seq<FileDiff> {
        self.diffs@
    }

    pub fn new() -> (res: DetailsPane)
        ensures
            res.spec_diffs() == Seq::<FileDiff>::empty(),
    {
        DetailsPane { diffs: Vec::new() }
    }

    /// Shows these diffs in place of the previous ones.
    pub fn set_diffs(&mut self, diffs: Vec<FileDiff>)
        ensures
            final(self).spec_diffs() == diffs@,
    {
        self.diffs = diffs;
    }

    /// Shows no diffs.
    pub fn clear_diffs(&mut self)
        ensures
            final(self).spec_diffs() == Seq::<FileDiff>::empty(),
    {
        self.diffs = Vec::new();
    }

    /// The diffs that the pane shows.
    pub fn diffs(&self) -> (res: &Vec<FileDiff>)
        ensures
            res@ == self.spec_diffs(),
    {
        &self.diffs
    }
}


/// The first line of a description, without surrounding white space.
pub open spec fn headline(description: Seq<char>) -> Seq<char> {
    trimmed(first_line_of(description))
}

/// Whether a description can be shortened for the details pane: a headline
/// longer than 80 bytes is cut after 77 bytes, which must fall between characters.
pub open spec fn headline_cut_ok(description: Seq<char>) -> bool {
    encode_utf8(headline(description)).len() > 80 ==> is_char_boundary(
        encode_utf8(headline(description)),
        77,
    )
}

/// The short description of the details pane: the placeholder for a blank
/// description; else its first line without surrounding white space, cut to 77
/// bytes and followed by `...` when it is longer than 80 bytes.
pub fn description_summary(description: &str) -> (res: String)
    requires
        headline_cut_ok(description@),
    ensures
        trimmed(description@).len() == 0 ==> res@ == "(no description)"@,
        trimmed(description@).len() != 0 ==> encode_utf8(res@) == if encode_utf8(
            headline(description@),
        ).len() > 80 {
            encode_utf8(headline(description@)).subrange(0, 77) + encode_utf8("..."@)
        } else {
            encode_utf8(headline(description@))
        },
{
    if is_blank(description) {
        return String::from_str("(no description)");
    }
    let line = first_line(description);
    let head = trim(line.as_str());
    if head.as_str().as_bytes().len() > 80 {
        let (cut, _rest) = head.as_str().split_at(77);
        let res = cut.to_owned().concat("...");
        proof {
            lemma_encode_concat(cut@, "..."@);
        }
        res
    } else {
        head
    }
}

} // verus!
