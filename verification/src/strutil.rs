//! Verified helpers over strings viewed as sequences of characters: line and
//! comma splitting, suffix-after-colon extraction, whitespace and quote
//! trimming, and joining lines back together.

use vstd::prelude::*;

verus! {

/// A character the parser removes when trimming the front of a metadata
/// value: the ASCII whitespace characters.
pub open spec fn is_space(c: char) -> bool {
    c == ' ' || c == '\t' || c == '\n' || c == '\r' || c == '\u{000B}' || c == '\u{000C}'
}

/// `s` with its leading whitespace characters removed.
pub open spec fn trim_start_spec(s: Seq<char>) -> Seq<char>
    decreases s.len(),
{
    if s.len() > 0 && is_space(s[0]) {
        trim_start_spec(s.skip(1))
    } else {
        s
    }
}

fn is_space_char(c: char) -> (r: bool)
    ensures
        r == is_space(c),
{
    c == ' ' || c == '\t' || c == '\n' || c == '\r' || c == '\u{000B}' || c == '\u{000C}'
}

/// Whether some character of `s` is `c`.
pub open spec fn contains_char(s: Seq<char>, c: char) -> bool {
    exists|i: int| 0 <= i < s.len() && s[i] == c
}

/// The part of `s` after its last colon; all of `s` when it has no colon.
pub open spec fn after_last_colon_spec(s: Seq<char>) -> Seq<char>
    decreases s.len(),
{
    if s.len() == 0 {
        s
    } else if !contains_char(s, ':') {
        s
    } else {
        after_last_colon_spec(s.skip(1))
    }
}

proof fn lemma_after_last_colon_at(s: Seq<char>, k: int)
    requires
        0 <= k < s.len(),
        s[k] == ':',
        forall|j: int| k < j < s.len() ==> s[j] != ':',
    ensures
        after_last_colon_spec(s) == s.skip(k + 1),
    decreases k,
{
    assert(contains_char(s, ':'));
    if k == 0 {
        assert forall|i: int| 0 <= i < s.skip(1).len() implies s.skip(1)[i] != ':' by {
            assert(s.skip(1)[i] == s[i + 1]);
        }
        assert(!contains_char(s.skip(1), ':'));
        assert(after_last_colon_spec(s.skip(1)) == s.skip(1));
        assert(after_last_colon_spec(s) == after_last_colon_spec(s.skip(1)));
    } else {
        assert(s.skip(1)[k - 1] == s[k]);
        assert forall|j: int| k - 1 < j < s.skip(1).len() implies s.skip(1)[j] != ':' by {
            assert(s.skip(1)[j] == s[j + 1]);
        }
        lemma_after_last_colon_at(s.skip(1), k - 1);
        assert(s.skip(1).skip(k) =~= s.skip(k + 1));
    }
}

/// Extracts the text after the last `':'` on the line; the whole line when it
/// has no colon.
pub fn text_after_last_colon(s: &str) -> (r: String)
    ensures
        r@ == after_last_colon_spec(s@),
{
    let len = s.unicode_len();
    let mut i: usize = len;
    while i > 0 && s.get_char(i - 1) != ':'
        invariant
            i <= len,
            len == s@.len(),
            forall|j: int| i <= j < s@.len() ==> s@[j] != ':',
        decreases i,
    {
        i = i - 1;
    }
    proof {
        if i == 0 {
            assert(!contains_char(s@, ':'));
            assert(s@.skip(0) =~= s@);
        } else {
            lemma_after_last_colon_at(s@, i - 1);
        }
        assert(s@.subrange(i as int, len as int) =~= s@.skip(i as int));
    }
    let r = s.substring_char(i, len);
    r.to_owned()
}

/// `s` with all leading, then all trailing, single-quote characters removed.
pub open spec fn trim_quotes_spec(s: Seq<char>) -> Seq<char>
    decreases s.len(),
{
    if s.len() > 0 && s[0] == '\'' {
        trim_quotes_spec(s.skip(1))
    } else if s.len() > 0 && s[s.len() - 1] == '\'' {
        trim_quotes_spec(s.take(s.len() - 1))
    } else {
        s
    }
}

/// Strips surrounding single-quote characters, as many as stand at either
/// end.
pub fn trim_quotes(s: &str) -> (r: String)
    ensures
        r@ == trim_quotes_spec(s@),
{
    let len = s.unicode_len();
    let mut lo: usize = 0;
    let mut hi: usize = len;
    proof {
        assert(s@.subrange(0, len as int) =~= s@);
    }
    while lo < hi && s.get_char(lo) == '\''
        invariant
            lo <= hi <= len,
            len == s@.len(),
            trim_quotes_spec(s@) == trim_quotes_spec(s@.subrange(lo as int, hi as int)),
        decreases hi - lo,
    {
        proof {
            assert(s@.subrange(lo as int, hi as int)[0] == s@[lo as int]);
            assert(s@.subrange(lo as int, hi as int).skip(1) =~= s@.subrange(
                lo as int + 1,
                hi as int,
            ));
        }
        lo = lo + 1;
    }
    while hi > lo && s.get_char(hi - 1) == '\''
        invariant
            lo <= hi <= len,
            len == s@.len(),
            trim_quotes_spec(s@) == trim_quotes_spec(s@.subrange(lo as int, hi as int)),
            lo == hi || s@[lo as int] != '\'',
        decreases hi,
    {
        proof {
            let t = s@.subrange(lo as int, hi as int);
            assert(t[t.len() - 1] == s@[hi as int - 1]);
            assert(t.take(t.len() - 1) =~= s@.subrange(lo as int, hi as int - 1));
        }
        hi = hi - 1;
    }
    let r = s.substring_char(lo, hi);
    r.to_owned()
}

/// Removes leading whitespace from `s`.
pub fn trim_start(s: &str) -> (r: String)
    ensures
        r@ == trim_start_spec(s@),
{
    let len = s.unicode_len();
    let mut i: usize = 0;
    proof {
        assert(s@.skip(0) =~= s@);
    }
    while i < len && is_space_char(s.get_char(i))
        invariant
            i <= len,
            len == s@.len(),
            trim_start_spec(s@) == trim_start_spec(s@.skip(i as int)),
        decreases len - i,
    {
        proof {
            assert(s@.skip(i as int).skip(1) =~= s@.skip(i as int + 1));
        }
        i = i + 1;
    }
    let r = s.substring_char(i, len);
    proof {
        assert(s@.subrange(i as int, len as int) =~= s@.skip(i as int));
    }
    r.to_owned()
}

/// The lines of `s`, split on `'\n'` taken as a terminator: a trailing
/// newline does not produce a final empty line, and an empty document has no
/// lines.
pub open spec fn split_lines_spec(s: Seq<char>) -> Seq<Seq<char>>
    decreases s.len(),
{
    if s.len() == 0 {
        Seq::empty()
    } else if s[0] == '\n' {
        seq![Seq::<char>::empty()] + split_lines_spec(s.skip(1))
    } else {
        let rest = split_lines_spec(s.skip(1));
        if rest.len() == 0 {
            seq![s]
        } else {
            seq![seq![s[0]] + rest[0]] + rest.skip(1)
        }
    }
}

proof fn lemma_split_lines_terminated(line: Seq<char>, rest: Seq<char>)
    requires
        !contains_char(line, '\n'),
    ensures
        split_lines_spec(line + seq!['\n'] + rest) == seq![line] + split_lines_spec(rest),
    decreases line.len(),
{
    let s = line + seq!['\n'] + rest;
    if line.len() == 0 {
        assert(s[0] == '\n');
        assert(s.skip(1) =~= rest);
        assert(line =~= Seq::<char>::empty());
        assert(split_lines_spec(s) =~= seq![line] + split_lines_spec(rest));
    } else {
        assert(s[0] == line[0]);
        assert(line[0] != '\n');
        assert forall|i: int| 0 <= i < line.skip(1).len() implies line.skip(1)[i] != '\n' by {
            assert(line.skip(1)[i] == line[i + 1]);
        }
        assert(!contains_char(line.skip(1), '\n'));
        lemma_split_lines_terminated(line.skip(1), rest);
        assert(s.skip(1) =~= line.skip(1) + seq!['\n'] + rest);
        let r1 = split_lines_spec(s.skip(1));
        assert(r1 == seq![line.skip(1)] + split_lines_spec(rest));
        assert(r1.len() > 0);
        assert(r1[0] == line.skip(1));
        assert(seq![s[0]] + r1[0] =~= line);
        assert(r1.skip(1) =~= split_lines_spec(rest));
        assert(split_lines_spec(s) =~= seq![line] + split_lines_spec(rest));
    }
}

proof fn lemma_split_lines_single(line: Seq<char>)
    requires
        !contains_char(line, '\n'),
        line.len() > 0,
    ensures
        split_lines_spec(line) == seq![line],
    decreases line.len(),
{
    assert(line[0] != '\n');
    if line.len() == 1 {
        assert(line.skip(1) =~= Seq::<char>::empty());
        assert(split_lines_spec(line.skip(1)) == Seq::<Seq<char>>::empty());
    } else {
        assert forall|i: int| 0 <= i < line.skip(1).len() implies line.skip(1)[i] != '\n' by {
            assert(line.skip(1)[i] == line[i + 1]);
        }
        assert(!contains_char(line.skip(1), '\n'));
        lemma_split_lines_single(line.skip(1));
        let r1 = split_lines_spec(line.skip(1));
        assert(r1.len() == 1);
        assert(seq![line[0]] + r1[0] =~= line);
        assert(r1.skip(1) =~= Seq::<Seq<char>>::empty());
        assert(split_lines_spec(line) =~= seq![line]);
    }
}

/// Splits `s` into its lines, the newline taken as a terminator, as the
/// specification `split_lines_spec` describes.
pub fn split_lines(s: &str) -> (r: Vec<String>)
    ensures
        r.deep_view() == split_lines_spec(s@),
{
    let len = s.unicode_len();
    let mut lines: Vec<String> = Vec::new();
    let mut start: usize = 0;
    let mut i: usize = 0;
    proof {
        assert(s@.skip(0) =~= s@);
        assert(lines.deep_view() =~= Seq::<Seq<char>>::empty());
    }
    while i < len
        invariant
            start <= i <= len,
            len == s@.len(),
            forall|j: int| start <= j < i ==> s@[j] != '\n',
            split_lines_spec(s@) == lines.deep_view() + split_lines_spec(s@.skip(start as int)),
        decreases len - i,
    {
        if s.get_char(i) == '\n' {
            let piece = s.substring_char(start, i).to_owned();
            let ghost line = s@.subrange(start as int, i as int);
            let ghost old_dv = lines.deep_view();
            proof {
                assert(!contains_char(line, '\n'));
                lemma_split_lines_terminated(line, s@.skip(i as int + 1));
                assert(s@.skip(start as int) =~= line + seq!['\n'] + s@.skip(i as int + 1));
            }
            lines.push(piece);
            proof {
                assert(lines.deep_view() =~= old_dv.push(line));
                assert(old_dv.push(line) + split_lines_spec(s@.skip(i as int + 1)) =~= old_dv + (
                seq![line] + split_lines_spec(s@.skip(i as int + 1))));
            }
            start = i + 1;
        }
        i = i + 1;
    }
    if start < len {
        let piece = s.substring_char(start, len).to_owned();
        let ghost line = s@.subrange(start as int, len as int);
        let ghost old_dv = lines.deep_view();
        proof {
            assert(line =~= s@.skip(start as int));
            assert(!contains_char(line, '\n'));
            lemma_split_lines_single(line);
        }
        lines.push(piece);
        proof {
            assert(lines.deep_view() =~= old_dv.push(line));
            assert(old_dv.push(line) =~= old_dv + seq![line]);
        }
    } else {
        proof {
            assert(s@.skip(start as int) =~= Seq::<char>::empty());
            assert(lines.deep_view() + Seq::<Seq<char>>::empty() =~= lines.deep_view());
        }
    }
    lines
}

/// The comma-separated pieces of `s`, kept verbatim: an empty string is one
/// empty piece, and nothing is trimmed.
pub open spec fn split_commas_spec(s: Seq<char>) -> Seq<Seq<char>>
    decreases s.len(),
{
    if s.len() == 0 {
        seq![Seq::<char>::empty()]
    } else if s[0] == ',' {
        seq![Seq::<char>::empty()] + split_commas_spec(s.skip(1))
    } else {
        let rest = split_commas_spec(s.skip(1));
        seq![seq![s[0]] + rest[0]] + rest.skip(1)
    }
}

proof fn lemma_split_commas_separated(piece: Seq<char>, rest: Seq<char>)
    requires
        !contains_char(piece, ','),
    ensures
        split_commas_spec(piece + seq![','] + rest) == seq![piece] + split_commas_spec(rest),
    decreases piece.len(),
{
    let s = piece + seq![','] + rest;
    if piece.len() == 0 {
        assert(s[0] == ',');
        assert(s.skip(1) =~= rest);
        assert(piece =~= Seq::<char>::empty());
        assert(split_commas_spec(s) =~= seq![piece] + split_commas_spec(rest));
    } else {
        assert(s[0] == piece[0]);
        assert(piece[0] != ',');
        assert forall|i: int| 0 <= i < piece.skip(1).len() implies piece.skip(1)[i] != ',' by {
            assert(piece.skip(1)[i] == piece[i + 1]);
        }
        assert(!contains_char(piece.skip(1), ','));
        lemma_split_commas_separated(piece.skip(1), rest);
        assert(s.skip(1) =~= piece.skip(1) + seq![','] + rest);
        let r1 = split_commas_spec(s.skip(1));
        assert(r1 == seq![piece.skip(1)] + split_commas_spec(rest));
        assert(r1[0] == piece.skip(1));
        assert(seq![s[0]] + r1[0] =~= piece);
        assert(r1.skip(1) =~= split_commas_spec(rest));
        assert(split_commas_spec(s) =~= seq![piece] + split_commas_spec(rest));
    }
}

proof fn lemma_split_commas_single(piece: Seq<char>)
    requires
        !contains_char(piece, ','),
    ensures
        split_commas_spec(piece) == seq![piece],
    decreases piece.len(),
{
    if piece.len() == 0 {
        assert(piece =~= Seq::<char>::empty());
        assert(split_commas_spec(piece) =~= seq![piece]);
    } else {
        assert(piece[0] != ',');
        assert forall|i: int| 0 <= i < piece.skip(1).len() implies piece.skip(1)[i] != ',' by {
            assert(piece.skip(1)[i] == piece[i + 1]);
        }
        assert(!contains_char(piece.skip(1), ','));
        lemma_split_commas_single(piece.skip(1));
        let r1 = split_commas_spec(piece.skip(1));
        assert(r1[0] == piece.skip(1));
        assert(seq![piece[0]] + r1[0] =~= piece);
        assert(r1.skip(1) =~= Seq::<Seq<char>>::empty());
        assert(split_commas_spec(piece) =~= seq![piece]);
    }
}

/// Splits `s` on commas, keeping every piece verbatim, as the specification
/// `split_commas_spec` describes.
pub fn split_commas(s: &str) -> (r: Vec<String>)
    ensures
        r.deep_view() == split_commas_spec(s@),
{
    let len = s.unicode_len();
    let mut parts: Vec<String> = Vec::new();
    let mut start: usize = 0;
    let mut i: usize = 0;
    proof {
        assert(s@.skip(0) =~= s@);
        assert(parts.deep_view() =~= Seq::<Seq<char>>::empty());
    }
    while i < len
        invariant
            start <= i <= len,
            len == s@.len(),
            forall|j: int| start <= j < i ==> s@[j] != ',',
            split_commas_spec(s@) == parts.deep_view() + split_commas_spec(s@.skip(start as int)),
        decreases len - i,
    {
        if s.get_char(i) == ',' {
            let piece = s.substring_char(start, i).to_owned();
            let ghost part = s@.subrange(start as int, i as int);
            let ghost old_dv = parts.deep_view();
            proof {
                assert(!contains_char(part, ','));
                lemma_split_commas_separated(part, s@.skip(i as int + 1));
                assert(s@.skip(start as int) =~= part + seq![','] + s@.skip(i as int + 1));
            }
            parts.push(piece);
            proof {
                assert(parts.deep_view() =~= old_dv.push(part));
                assert(old_dv.push(part) + split_commas_spec(s@.skip(i as int + 1)) =~= old_dv + (
                seq![part] + split_commas_spec(s@.skip(i as int + 1))));
            }
            start = i + 1;
        }
        i = i + 1;
    }
    let piece = s.substring_char(start, len).to_owned();
    let ghost part = s@.subrange(start as int, len as int);
    let ghost old_dv = parts.deep_view();
    proof {
        assert(part =~= s@.skip(start as int));
        assert(!contains_char(part, ','));
        lemma_split_commas_single(part);
    }
    parts.push(piece);
    proof {
        assert(parts.deep_view() =~= old_dv.push(part));
        assert(old_dv.push(part) =~= old_dv + seq![part]);
    }
    parts
}

/// The lines joined back together with a newline between each neighbouring
/// pair.
pub open spec fn join_lines_spec(ls: Seq<Seq<char>>) -> Seq<char>
    decreases ls.len(),
{
    if ls.len() == 0 {
        Seq::empty()
    } else if ls.len() == 1 {
        ls[0]
    } else {
        ls[0] + seq!['\n'] + join_lines_spec(ls.skip(1))
    }
}

proof fn lemma_join_lines_push(p: Seq<Seq<char>>, x: Seq<char>)
    ensures
        p.len() == 0 ==> join_lines_spec(p.push(x)) == x,
        p.len() > 0 ==> join_lines_spec(p.push(x)) == join_lines_spec(p) + seq!['\n'] + x,
    decreases p.len(),
{
    if p.len() == 0 {
        assert(p.push(x) =~= seq![x]);
    } else if p.len() == 1 {
        assert(p.push(x).skip(1) =~= seq![x]);
        assert(p.push(x)[0] == p[0]);
        assert(join_lines_spec(seq![x]) == x);
        assert(join_lines_spec(p.push(x)) == p[0] + seq!['\n'] + x);
    } else {
        lemma_join_lines_push(p.skip(1), x);
        assert(p.push(x).skip(1) =~= p.skip(1).push(x));
        assert(p.push(x)[0] == p[0]);
        assert(join_lines_spec(p.push(x)) == p[0] + seq!['\n'] + (join_lines_spec(p.skip(1))
            + seq!['\n'] + x));
        assert(p[0] + seq!['\n'] + (join_lines_spec(p.skip(1)) + seq!['\n'] + x) =~= (p[0]
            + seq!['\n'] + join_lines_spec(p.skip(1))) + seq!['\n'] + x);
    }
}

/// Joins the lines of `lines` from position `from` on with newlines, as
/// `join_lines_spec` describes on the corresponding suffix.
pub fn join_lines_from(lines: &Vec<String>, from: usize) -> (r: String)
    requires
        from <= lines@.len(),
    ensures
        r@ == join_lines_spec(lines.deep_view().skip(from as int)),
{
    let mut out = String::new();
    let mut i: usize = from;
    let ghost suffix = lines.deep_view().skip(from as int);
    proof {
        assert(lines.deep_view().len() == lines@.len());
        assert(suffix.take(0) =~= Seq::<Seq<char>>::empty());
    }
    while i < lines.len()
        invariant
            from <= i <= lines@.len(),
            suffix == lines.deep_view().skip(from as int),
            out@ == join_lines_spec(suffix.take(i - from)),
            lines.deep_view().len() == lines@.len(),
        decreases lines@.len() - i,
    {
        let ghost k = i - from;
        proof {
            assert(suffix.take(k + 1) =~= suffix.take(k).push(suffix[k]));
            lemma_join_lines_push(suffix.take(k), suffix[k]);
            assert(suffix[k] == lines.deep_view()[i as int]);
            assert(lines.deep_view()[i as int] == lines@[i as int]@);
        }
        if i > from {
            let sep = "\n";
            proof {
                reveal_strlit("\n");
                assert(sep@ =~= seq!['\n']);
            }
            out.append(sep);
        }
        out.append(lines[i].as_str());
        i = i + 1;
    }
    proof {
        assert(suffix.take(lines@.len() - from) =~= suffix);
    }
    out
}

} // verus!
