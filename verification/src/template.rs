//! The fixed-position metadata parser: a template document carries a
//! nine-line front-matter block (three discarded lines, then the title,
//! labels and assignee lines, then three discarded separator lines) before
//! its body. Parsing never fails; a short or misshapen document yields empty
//! or absent fields.

use vstd::prelude::*;

use crate::strutil::{
    after_last_colon_spec, join_lines_from, join_lines_spec, split_commas, split_commas_spec,
    split_lines, split_lines_spec, text_after_last_colon, trim_quotes, trim_quotes_spec,
    trim_start, trim_start_spec,
};
use crate::subst::{substitute, substitute_spec, SubstitutionMap};

verus! {

/// The two-character marker `''` that stands for an empty labels value.
pub open spec fn empty_marker() -> Seq<char> {
    seq!['\'', '\'']
}

/// The parsed title: the text after the final colon of the fourth line,
/// trimmed of leading whitespace; empty when the document is shorter.
pub open spec fn title_of(lines: Seq<Seq<char>>) -> Seq<char> {
    if lines.len() > 3 {
        trim_start_spec(after_last_colon_spec(lines[3]))
    } else {
        Seq::empty()
    }
}

/// The parsed labels, from the fifth line: empty when the trimmed value is
/// the empty marker `''`, else the comma-split of the quote-stripped value,
/// each piece kept verbatim; empty when the document is shorter.
pub open spec fn labels_of(lines: Seq<Seq<char>>) -> Seq<Seq<char>> {
    if lines.len() > 4 {
        let v = trim_start_spec(after_last_colon_spec(lines[4]));
        if v == empty_marker() {
            Seq::empty()
        } else {
            split_commas_spec(trim_quotes_spec(v))
        }
    } else {
        Seq::empty()
    }
}

/// The parsed assignee: the whole trimmed remainder of the sixth line after
/// its final colon, never split on commas; absent when the document is
/// shorter.
pub open spec fn assignee_of(lines: Seq<Seq<char>>) -> Option<Seq<char>> {
    if lines.len() > 5 {
        Some(trim_start_spec(after_last_colon_spec(lines[5])))
    } else {
        None
    }
}

/// The parsed body: every line from the tenth on, rejoined with newlines;
/// empty when the document is shorter.
pub open spec fn body_of(lines: Seq<Seq<char>>) -> Seq<char> {
    if lines.len() >= 9 {
        join_lines_spec(lines.skip(9))
    } else {
        Seq::empty()
    }
}

/// The structured record a template document parses into.
pub struct TemplateMetadata {
    /// The issue title; empty when the title line is absent or bare.
    pub title: String,
    /// The label set, in the order the labels line gives it.
    pub labels: Vec<String>,
    /// The single assignee; the whole trimmed remainder of the assignee
    /// line, even when it names several.
    pub assignee: Option<String>,
    /// The free-form body text after the metadata block.
    pub body: String,
}

/// Parses a template document positionally into its metadata, as the four
/// field specifications describe over the document's lines. This parser
/// never fails: whatever the document's shape, it returns a record, with
/// empty or absent fields where lines are missing.
pub fn parse(raw: &str) -> (m: TemplateMetadata)
    ensures
        m.title@ == title_of(split_lines_spec(raw@)),
        m.labels.deep_view() == labels_of(split_lines_spec(raw@)),
        m.assignee.deep_view() == assignee_of(split_lines_spec(raw@)),
        m.body@ == body_of(split_lines_spec(raw@)),
{
    let lines = split_lines(raw);
    let ghost lv = split_lines_spec(raw@);
    proof {
        assert(lines@.len() == lv.len());
    }
    let title = if lines.len() > 3 {
        proof {
            assert(lines.deep_view()[3] == lines@[3]@);
        }
        trim_start(text_after_last_colon(lines[3].as_str()).as_str())
    } else {
        String::new()
    };
    let labels = if lines.len() > 4 {
        proof {
            assert(lines.deep_view()[4] == lines@[4]@);
        }
        let v = trim_start(text_after_last_colon(lines[4].as_str()).as_str());
        let is_marker = v.unicode_len() == 2 && v.as_str().get_char(0) == '\''
            && v.as_str().get_char(1) == '\'';
        proof {
            if is_marker {
                assert(v@ =~= empty_marker());
            } else {
                assert(v@ != empty_marker());
            }
        }
        if is_marker {
            let empty: Vec<String> = Vec::new();
            proof {
                assert(empty.deep_view() =~= Seq::<Seq<char>>::empty());
            }
            empty
        } else {
            split_commas(trim_quotes(v.as_str()).as_str())
        }
    } else {
        let empty: Vec<String> = Vec::new();
        proof {
            assert(empty.deep_view() =~= Seq::<Seq<char>>::empty());
        }
        empty
    };
    let assignee = if lines.len() > 5 {
        proof {
            assert(lines.deep_view()[5] == lines@[5]@);
        }
        Some(trim_start(text_after_last_colon(lines[5].as_str()).as_str()))
    } else {
        None
    };
    let body = if lines.len() >= 9 {
        join_lines_from(&lines, 9)
    } else {
        String::new()
    };
    TemplateMetadata { title, labels, assignee, body }
}

/// Processes a fetched template document: parses its metadata, then rewrites
/// the body's placeholders from `subs`. Title, labels and assignee come
/// through exactly as parsed; the body is the parsed body after
/// substitution.
pub fn process(raw: &str, subs: &SubstitutionMap) -> (m: TemplateMetadata)
    ensures
        m.title@ == title_of(split_lines_spec(raw@)),
        m.labels.deep_view() == labels_of(split_lines_spec(raw@)),
        m.assignee.deep_view() == assignee_of(split_lines_spec(raw@)),
        m.body@ == substitute_spec(body_of(split_lines_spec(raw@)), subs@),
{
    let mut m = parse(raw);
    m.body = substitute(m.body.as_str(), subs);
    m
}

/// On a document of at least four lines, the parsed title is exactly the
/// text after the title line's final colon, trimmed of leading whitespace.
pub proof fn lemma_title_from_line(lines: Seq<Seq<char>>)
    requires
        lines.len() > 3,
    ensures
        title_of(lines) == trim_start_spec(after_last_colon_spec(lines[3])),
{
}

/// On a document of at least five lines: when the trimmed labels value is
/// the empty marker `''` the label list is empty, and otherwise it is the
/// comma-split of the trimmed, quote-stripped value.
pub proof fn lemma_labels_from_line(lines: Seq<Seq<char>>)
    requires
        lines.len() > 4,
    ensures
        trim_start_spec(after_last_colon_spec(lines[4])) == empty_marker() ==> labels_of(lines)
            == Seq::<Seq<char>>::empty(),
        trim_start_spec(after_last_colon_spec(lines[4])) != empty_marker() ==> labels_of(lines)
            == split_commas_spec(trim_quotes_spec(trim_start_spec(after_last_colon_spec(lines[4])))),
{
}

} // verus!
