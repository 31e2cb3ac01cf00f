//! Turning markdown into plain prose for scoring.
use vstd::prelude::*;
use crate::text::{
    append_chars, chars_of, is_space, lemma_words_of_complete, lemma_words_of_trim,
    lemma_words_scan_append, lemma_words_scan_space, lines_scan, strip_cr, trim_end, words_of,
    words_scan, lines_of, split_lines, string_of, trim, trim_chars, trim_start,
    trim_start_chars,
};

verus! {

/// Reading `s` left to right with `open` / `close` as a toggle: the characters
/// kept so far (those outside a pair), and whether a pair is open.
pub open spec fn pattern_scan(s: Seq<char>, open: char, close: char) -> (Seq<char>, bool)
    decreases s.len(),
{
    if s.len() == 0 {
        (seq![], false)
    } else {
        let p = pattern_scan(s.drop_last(), open, close);
        let c = s.last();
        if c == open && !p.1 {
            (p.0, true)
        } else if c == close && p.1 {
            (p.0, false)
        } else if !p.1 {
            (p.0.push(c), false)
        } else {
            p
        }
    }
}

/// `s` without the text between each `open` and the next `close`,
/// delimiters included.
pub open spec fn without_pattern(s: Seq<char>, open: char, close: char) -> Seq<char> {
    pattern_scan(s, open, close).0
}

pub fn remove_pattern_chars(v: &Vec<char>, open: char, close: char) -> (r: Vec<char>)
    ensures
        r@ == without_pattern(v@, open, close),
{
    let mut out: Vec<char> = Vec::new();
    let mut inside = false;
    let mut i: usize = 0;
    while i < v.len()
        invariant
            i <= v@.len(),
            (out@, inside) == pattern_scan(v@.subrange(0, i as int), open, close),
        decreases v@.len() - i,
    {
        assert(v@.subrange(0, i + 1).drop_last() =~= v@.subrange(0, i as int));
        let c = v[i];
        if c == open && !inside {
            inside = true;
        } else if c == close && inside {
            inside = false;
        } else if !inside {
            out.push(c);
        }
        i += 1;
    }
    assert(v@.subrange(0, v@.len() as int) =~= v@);
    out
}

/// Removes the text between each `open` and the next `close` (inline code,
/// for a backtick as both).
pub fn remove_pattern(text: &str, open: char, close: char) -> (r: String)
    ensures
        r@ == without_pattern(text@, open, close),
{
    let v = chars_of(text);
    let r = remove_pattern_chars(&v, open, close);
    string_of(&r)
}

/// Where a scan for `[text](url)` links stands.
#[derive(PartialEq, Eq, Structural, Clone, Copy)]
pub enum LinkMode {
    /// Outside any link.
    Plain,
    /// After a `[`, collecting the link text.
    Label,
    /// Just after the `]` that closed the link text.
    Closed,
    /// Inside the `(url)` part, which is dropped.
    Target,
}

/// One character `c` read outside any link.
pub open spec fn plain_step(out: Seq<char>, c: char) -> (Seq<char>, LinkMode, Seq<char>) {
    if c == '[' {
        (out, LinkMode::Label, seq![])
    } else {
        (out.push(c), LinkMode::Plain, seq![])
    }
}

/// Reading `s` left to right: the text kept so far, the scan's mode, and the
/// link text collected since the last `[`.
pub open spec fn links_scan(s: Seq<char>) -> (Seq<char>, LinkMode, Seq<char>)
    decreases s.len(),
{
    if s.len() == 0 {
        (seq![], LinkMode::Plain, seq![])
    } else {
        let p = links_scan(s.drop_last());
        let c = s.last();
        match p.1 {
            LinkMode::Plain => plain_step(p.0, c),
            LinkMode::Label => if c == ']' {
                (p.0 + p.2, LinkMode::Closed, seq![])
            } else {
                (p.0, LinkMode::Label, p.2.push(c))
            },
            LinkMode::Closed => if c == '(' {
                (p.0, LinkMode::Target, seq![])
            } else {
                plain_step(p.0, c)
            },
            LinkMode::Target => if c == ')' {
                (p.0, LinkMode::Plain, seq![])
            } else {
                (p.0, LinkMode::Target, seq![])
            },
        }
    }
}

/// `s` with each `[text](url)` replaced by `text`, and each `[text]` by
/// `text`; a `[` never closed is kept, with the text after it.
pub open spec fn without_links(s: Seq<char>) -> Seq<char> {
    let p = links_scan(s);
    if p.1 == LinkMode::Label {
        p.0.push('[') + p.2
    } else {
        p.0
    }
}

pub fn remove_markdown_links_chars(v: &Vec<char>) -> (r: Vec<char>)
    ensures
        r@ == without_links(v@),
{
    let mut out: Vec<char> = Vec::new();
    let mut mode = LinkMode::Plain;
    let mut label: Vec<char> = Vec::new();
    let mut i: usize = 0;
    while i < v.len()
        invariant
            i <= v@.len(),
            (out@, mode, label@) == links_scan(v@.subrange(0, i as int)),
        decreases v@.len() - i,
    {
        assert(v@.subrange(0, i + 1).drop_last() =~= v@.subrange(0, i as int));
        let c = v[i];
        let plain = match mode {
            LinkMode::Plain => true,
            LinkMode::Label => {
                if c == ']' {
                    append_chars(&mut out, &label);
                    label = Vec::new();
                    mode = LinkMode::Closed;
                } else {
                    label.push(c);
                }
                false
            },
            LinkMode::Closed => {
                if c == '(' {
                    mode = LinkMode::Target;
                    false
                } else {
                    true
                }
            },
            LinkMode::Target => {
                if c == ')' {
                    mode = LinkMode::Plain;
                }
                false
            },
        };
        if plain {
            if c == '[' {
                mode = LinkMode::Label;
            } else {
                out.push(c);
                mode = LinkMode::Plain;
            }
        }
        i += 1;
    }
    assert(v@.subrange(0, v@.len() as int) =~= v@);
    if mode == LinkMode::Label {
        out.push('[');
        append_chars(&mut out, &label);
    }
    out
}

/// Replaces `[text](url)` links and images by their text.
pub fn remove_markdown_links(text: &str) -> (r: String)
    ensures
        r@ == without_links(text@),
{
    let v = chars_of(text);
    let r = remove_markdown_links_chars(&v);
    string_of(&r)
}

/// Whether `c` marks emphasis (`*`, `_`; doubled, they mark strong emphasis).
pub open spec fn is_emphasis(c: char) -> bool {
    c == '*' || c == '_'
}

/// `s` without emphasis markers.
pub open spec fn without_emphasis(s: Seq<char>) -> Seq<char> {
    s.filter(|c: char| !is_emphasis(c))
}

pub fn remove_emphasis(v: &Vec<char>) -> (r: Vec<char>)
    ensures
        r@ == without_emphasis(v@),
{
    let mut out: Vec<char> = Vec::new();
    let mut i: usize = 0;
    while i < v.len()
        invariant
            i <= v@.len(),
            out@ == without_emphasis(v@.subrange(0, i as int)),
        decreases v@.len() - i,
    {
        proof {
            reveal(Seq::filter);
            assert(v@.subrange(0, i + 1).drop_last() =~= v@.subrange(0, i as int));
        }
        let c = v[i];
        if c != '*' && c != '_' {
            out.push(c);
        }
        i += 1;
    }
    assert(v@.subrange(0, v@.len() as int) =~= v@);
    out
}

/// Whether `s` begins with the character `c`.
pub open spec fn begins_with(s: Seq<char>, c: char) -> bool {
    s.len() > 0 && s[0] == c
}

/// A frontmatter delimiter: `---` once trimmed.
pub open spec fn is_delimiter(line: Seq<char>) -> bool {
    trim(line) == seq!['-', '-', '-']
}

/// A code fence: three backticks after the indentation.
pub open spec fn is_fence(line: Seq<char>) -> bool {
    let t = trim_start(line);
    t.len() >= 3 && t[0] == '`' && t[1] == '`' && t[2] == '`'
}

/// A heading or a table row, both dropped whole.
pub open spec fn is_skipped(line: Seq<char>) -> bool {
    begins_with(trim_start(line), '#') || begins_with(trim_start(line), '|')
}

/// A line without its blockquote marker; a line with none is kept as it is.
pub open spec fn unquote(line: Seq<char>) -> Seq<char> {
    let t = trim_start(line);
    if begins_with(t, '>') {
        trim_start(t.drop_first())
    } else {
        line
    }
}

/// The prose of a line: no blockquote marker, inline code, link syntax or
/// emphasis marker, and no surrounding whitespace.
pub open spec fn line_prose(line: Seq<char>) -> Seq<char> {
    trim(without_emphasis(without_links(without_pattern(unquote(line), '`', '`'))))
}

/// Reading the lines `ls` in order: the prose so far, whether a code fence is
/// open, and whether the frontmatter is open.
pub open spec fn prose_scan(ls: Seq<Seq<char>>) -> (Seq<char>, bool, bool)
    decreases ls.len(),
{
    if ls.len() == 0 {
        (seq![], false, false)
    } else {
        let p = prose_scan(ls.drop_last());
        let line = ls.last();
        if is_delimiter(line) && ls.len() == 1 {
            (p.0, p.1, true)
        } else if is_delimiter(line) && p.2 {
            (p.0, p.1, false)
        } else if p.2 {
            p
        } else if is_fence(line) {
            (p.0, !p.1, p.2)
        } else if p.1 || is_skipped(line) || line_prose(line).len() == 0 {
            p
        } else {
            (p.0 + line_prose(line).push(' '), p.1, p.2)
        }
    }
}

/// The prose of a markdown document: the prose of each line kept, each
/// followed by one space.
pub open spec fn normalized(s: Seq<char>) -> Seq<char> {
    prose_scan(lines_of(s)).0
}

fn is_delimiter_line(line: &Vec<char>) -> (r: bool)
    ensures
        r == is_delimiter(line@),
{
    let t = trim_chars(line);
    let r = t.len() == 3 && t[0] == '-' && t[1] == '-' && t[2] == '-';
    assert(r ==> t@ =~= seq!['-', '-', '-']);
    r
}

fn unquote_line(line: &Vec<char>) -> (r: Vec<char>)
    ensures
        r@ == unquote(line@),
{
    let t = trim_start_chars(line);
    if t.len() > 0 && t[0] == '>' {
        let mut rest = t;
        rest.remove(0);
        assert(rest@ =~= trim_start(line@).drop_first());
        trim_start_chars(&rest)
    } else {
        line.clone()
    }
}

fn prose_of_line(line: &Vec<char>) -> (r: Vec<char>)
    ensures
        r@ == line_prose(line@),
{
    let a = unquote_line(line);
    let b = remove_pattern_chars(&a, '`', '`');
    let c = remove_markdown_links_chars(&b);
    let d = remove_emphasis(&c);
    trim_chars(&d)
}

/// Strips markdown syntax: frontmatter, code blocks, headings and table rows
/// go; the prose of each other line is kept, followed by one space.
pub fn strip_markdown(text: &str) -> (r: String)
    ensures
        r@ == normalized(text@),
{
    let v = chars_of(text);
    let lines = split_lines(&v);
    let ghost ls = lines_of(v@);
    let mut out: Vec<char> = Vec::new();
    let mut in_code = false;
    let mut in_front = false;
    let mut i: usize = 0;
    while i < lines.len()
        invariant
            i <= lines@.len() == ls.len(),
            forall|k: int| 0 <= k < ls.len() ==> #[trigger] lines@[k]@ == ls[k],
            (out@, in_code, in_front) == prose_scan(ls.subrange(0, i as int)),
        decreases lines@.len() - i,
    {
        proof {
            assert(ls.subrange(0, i + 1).drop_last() =~= ls.subrange(0, i as int));
            assert(lines@[i as int]@ == ls[i as int]);
        }
        let line = &lines[i];
        let t = trim_start_chars(line);
        let delim = is_delimiter_line(line);
        if delim && i == 0 {
            in_front = true;
        } else if delim && in_front {
            in_front = false;
        } else if in_front {
        } else if t.len() >= 3 && t[0] == '`' && t[1] == '`' && t[2] == '`' {
            in_code = !in_code;
        } else if in_code || (t.len() > 0 && (t[0] == '#' || t[0] == '|')) {
        } else {
            let prose = prose_of_line(line);
            if prose.len() > 0 {
                append_chars(&mut out, &prose);
                out.push(' ');
            }
        }
        i += 1;
    }
    assert(ls.subrange(0, ls.len() as int) =~= ls);
    string_of(&out)
}

/// Whether every character of `s` is whitespace.
pub open spec fn all_space(s: Seq<char>) -> bool {
    forall|i: int| 0 <= i < s.len() ==> is_space(#[trigger] s[i])
}

proof fn lemma_trim_blank(s: Seq<char>)
    requires
        all_space(s),
    ensures
        trim_start(s).len() == 0,
        trim(s).len() == 0,
    decreases s.len(),
{
    if s.len() > 0 {
        assert(all_space(s.drop_first()));
        lemma_trim_blank(s.drop_first());
    }
}

proof fn lemma_pattern_blank(s: Seq<char>)
    requires
        all_space(s),
    ensures
        all_space(pattern_scan(s, '`', '`').0),
        !pattern_scan(s, '`', '`').1,
    decreases s.len(),
{
    if s.len() > 0 {
        assert(all_space(s.drop_last()));
        lemma_pattern_blank(s.drop_last());
        assert(is_space(s[s.len() - 1]));
    }
}

proof fn lemma_links_blank(s: Seq<char>)
    requires
        all_space(s),
    ensures
        all_space(links_scan(s).0),
        links_scan(s).1 == LinkMode::Plain,
    decreases s.len(),
{
    if s.len() > 0 {
        assert(all_space(s.drop_last()));
        lemma_links_blank(s.drop_last());
        assert(is_space(s[s.len() - 1]));
    }
}

proof fn lemma_emphasis_blank(s: Seq<char>)
    requires
        all_space(s),
    ensures
        all_space(without_emphasis(s)),
    decreases s.len(),
{
    reveal(Seq::filter);
    if s.len() > 0 {
        assert(all_space(s.drop_last()));
        lemma_emphasis_blank(s.drop_last());
        assert(is_space(s[s.len() - 1]));
    }
}

proof fn lemma_line_blank(line: Seq<char>)
    requires
        all_space(line),
    ensures
        line_prose(line).len() == 0,
        !is_delimiter(line),
        !is_fence(line),
{
    lemma_trim_blank(line);
    assert(unquote(line) == line);
    lemma_pattern_blank(line);
    lemma_links_blank(without_pattern(line, '`', '`'));
    lemma_emphasis_blank(without_links(without_pattern(line, '`', '`')));
    lemma_trim_blank(without_emphasis(without_links(without_pattern(line, '`', '`'))));
}

proof fn lemma_lines_blank(s: Seq<char>)
    requires
        all_space(s),
    ensures
        forall|k: int| 0 <= k < lines_scan(s).0.len() ==> all_space(#[trigger] lines_scan(s).0[k]),
        all_space(lines_scan(s).1),
    decreases s.len(),
{
    if s.len() > 0 {
        assert(all_space(s.drop_last()));
        lemma_lines_blank(s.drop_last());
        assert(is_space(s[s.len() - 1]));
    }
}

proof fn lemma_prose_blank(ls: Seq<Seq<char>>)
    requires
        forall|k: int| 0 <= k < ls.len() ==> all_space(#[trigger] ls[k]),
    ensures
        prose_scan(ls).0.len() == 0,
        !prose_scan(ls).2,
    decreases ls.len(),
{
    if ls.len() > 0 {
        let init = ls.drop_last();
        assert forall|k: int| 0 <= k < init.len() implies all_space(#[trigger] init[k]) by {
            assert(init[k] == ls[k]);
        }
        lemma_prose_blank(init);
        assert(all_space(ls[ls.len() - 1]));
        lemma_line_blank(ls.last());
    }
}

/// A document of whitespace alone (the empty one included) has no prose.
pub proof fn lemma_blank_has_no_prose(s: Seq<char>)
    requires
        all_space(s),
    ensures
        normalized(s).len() == 0,
{
    lemma_lines_blank(s);
    let ls = lines_of(s);
    assert forall|k: int| 0 <= k < ls.len() implies all_space(#[trigger] ls[k]) by {
        if k < lines_scan(s).0.len() {
            assert(ls[k] == lines_scan(s).0[k]);
        }
    }
    lemma_prose_blank(ls);
}

/// A character with a meaning in markdown: heading, table, quote, code,
/// link or emphasis marks.
pub open spec fn is_markup(c: char) -> bool {
    c == '#' || c == '|' || c == '>' || c == '`' || c == '[' || c == '*' || c == '_'
}

/// Whether the first line of `s` opens a frontmatter block.
pub open spec fn opens_frontmatter(s: Seq<char>) -> bool {
    lines_of(s).len() > 0 && is_delimiter(lines_of(s)[0])
}

/// Whether `s` holds no character with a meaning in markdown.
pub open spec fn no_markup(s: Seq<char>) -> bool {
    forall|i: int| 0 <= i < s.len() ==> !is_markup(#[trigger] s[i])
}

proof fn lemma_no_markup_trim(s: Seq<char>)
    requires
        no_markup(s),
    ensures
        no_markup(trim_start(s)),
        no_markup(trim(s)),
    decreases s.len(),
{
    if s.len() > 0 && is_space(s[0]) {
        assert(no_markup(s.drop_first()));
        lemma_no_markup_trim(s.drop_first());
    }
    lemma_no_markup_trim_end(trim_start(s));
}

proof fn lemma_no_markup_trim_end(s: Seq<char>)
    requires
        no_markup(s),
    ensures
        no_markup(trim_end(s)),
    decreases s.len(),
{
    if s.len() > 0 && is_space(s.last()) {
        assert(no_markup(s.drop_last()));
        lemma_no_markup_trim_end(s.drop_last());
    }
}

proof fn lemma_plain_pattern(s: Seq<char>)
    requires
        no_markup(s),
    ensures
        pattern_scan(s, '`', '`') == (s, false),
    decreases s.len(),
{
    if s.len() > 0 {
        assert(no_markup(s.drop_last()));
        lemma_plain_pattern(s.drop_last());
        assert(!is_markup(s[s.len() - 1]));
        assert(s.drop_last().push(s.last()) =~= s);
    }
}

proof fn lemma_plain_links(s: Seq<char>)
    requires
        no_markup(s),
    ensures
        links_scan(s).0 == s,
        links_scan(s).1 == LinkMode::Plain,
    decreases s.len(),
{
    if s.len() > 0 {
        assert(no_markup(s.drop_last()));
        lemma_plain_links(s.drop_last());
        assert(!is_markup(s[s.len() - 1]));
        assert(s.drop_last().push(s.last()) =~= s);
    }
}

proof fn lemma_plain_emphasis(s: Seq<char>)
    requires
        no_markup(s),
    ensures
        without_emphasis(s) == s,
    decreases s.len(),
{
    reveal(Seq::filter);
    if s.len() > 0 {
        assert(no_markup(s.drop_last()));
        lemma_plain_emphasis(s.drop_last());
        assert(!is_markup(s[s.len() - 1]));
        assert(s.drop_last().push(s.last()) =~= s);
    }
}

/// A line with no markup keeps all its text, trimmed.
proof fn lemma_plain_line(line: Seq<char>)
    requires
        no_markup(line),
    ensures
        line_prose(line) == trim(line),
        !is_fence(line),
        !is_skipped(line),
{
    lemma_no_markup_trim(line);
    if trim_start(line).len() > 0 {
        assert(!is_markup(trim_start(line)[0]));
    }
    if trim(line).len() > 0 {
        assert(!is_markup(trim(line)[0]));
    }
    assert(unquote(line) == line);
    lemma_plain_pattern(line);
    lemma_plain_links(line);
    lemma_plain_emphasis(line);
}

/// Reading a text with no markup line by line: every line read is plain, no
/// fence or frontmatter opens, and the text read has the words of the prose
/// so far followed by the line in progress.
proof fn lemma_plain_scan(t: Seq<char>)
    requires
        no_markup(t),
        lines_scan(t).0.len() > 0 ==> !is_delimiter(lines_scan(t).0[0]),
    ensures
        forall|k: int|
            0 <= k < lines_scan(t).0.len() ==> no_markup(#[trigger] lines_scan(t).0[k]),
        no_markup(lines_scan(t).1),
        !prose_scan(lines_scan(t).0).1,
        !prose_scan(lines_scan(t).0).2,
        words_scan(prose_scan(lines_scan(t).0).0).1.len() == 0,
        words_scan(t) == words_scan(prose_scan(lines_scan(t).0).0 + lines_scan(t).1),
    decreases t.len(),
{
    if t.len() == 0 {
        assert(seq![] + Seq::<char>::empty() =~= Seq::<char>::empty());
    } else {
        let t0 = t.drop_last();
        let c = t.last();
        assert(no_markup(t0));
        if lines_scan(t0).0.len() > 0 {
            assert(lines_scan(t0).0[0] == lines_scan(t).0[0]);
        }
        lemma_plain_scan(t0);
        assert(!is_markup(t[t.len() - 1]));
        let done = lines_scan(t0).0;
        let cur = lines_scan(t0).1;
        let p = prose_scan(done).0;
        if c != '\n' {
            assert((p + cur).push(c) =~= p + cur.push(c));
            assert((p + cur.push(c)).drop_last() =~= p + cur);
            assert forall|i: int| 0 <= i < cur.push(c).len() implies !is_markup(
                #[trigger] cur.push(c)[i],
            ) by {
                if i < cur.len() {
                    assert(cur.push(c)[i] == cur[i]);
                }
            }
        } else {
            let l = strip_cr(cur);
            assert(no_markup(l));
            lemma_plain_line(l);
            let nd = done.push(l);
            assert(nd.drop_last() =~= done);
            assert(nd[0] == lines_scan(t).0[0]);
            assert forall|k: int| 0 <= k < nd.len() implies no_markup(#[trigger] nd[k]) by {
                if k < done.len() {
                    assert(nd[k] == done[k]);
                }
            }
            assert((p + cur).push(c) =~= p + cur.push(c));
            assert((p + cur.push(c)).drop_last() =~= p + cur);
            lemma_words_scan_space(p + cur, c);
            lemma_words_scan_append(p, cur.push(c));
            lemma_words_scan_space(cur, c);
            lemma_words_of_complete(p);
            if cur.len() > 0 && cur.last() == '\r' {
                lemma_words_scan_space(cur.drop_last(), '\r');
                assert(cur.drop_last().push('\r') =~= cur);
            }
            lemma_words_of_trim(l);
            let q = trim(l);
            if q.len() == 0 {
                assert(words_of(q) == Seq::<Seq<char>>::empty());
                assert(p + Seq::<char>::empty() =~= p);
                assert(words_scan(p).0 + Seq::<Seq<char>>::empty() =~= words_scan(p).0);
            } else {
                let np = p + q.push(' ');
                assert(np + Seq::<char>::empty() =~= np);
                lemma_words_scan_append(p, q.push(' '));
                lemma_words_scan_space(q, ' ');
                assert(np.drop_last() =~= p + q);
            }
        }
    }
}

/// Text with no markup, whose first line is no frontmatter delimiter, keeps its words, in order, through normalization:
/// the two are equal once runs of whitespace are collapsed.
pub proof fn lemma_plain_text_keeps_words(s: Seq<char>)
    requires
        no_markup(s),
        !opens_frontmatter(s),
    ensures
        words_of(normalized(s)) == words_of(s),
{
    if lines_scan(s).0.len() > 0 {
        assert(lines_of(s)[0] == lines_scan(s).0[0]);
    }
    lemma_plain_scan(s);
    let done = lines_scan(s).0;
    let cur = lines_scan(s).1;
    let p = prose_scan(done).0;
    lemma_words_scan_append(p, cur);
    lemma_words_of_complete(p);
    if cur.len() == 0 {
        assert(words_scan(p).0 + words_scan(cur).0 =~= words_scan(p).0);
        assert(p + cur =~= p);
    } else {
        assert(words_of(p + cur) =~= words_scan(p).0 + words_of(cur));
        let ls = done.push(cur);
        assert(ls.drop_last() =~= done);
        assert(ls[0] == lines_of(s)[0]);
        lemma_plain_line(cur);
        lemma_words_of_trim(cur);
        let q = trim(cur);
        if q.len() == 0 {
            assert(words_of(q) == Seq::<Seq<char>>::empty());
            assert(words_scan(p).0 + Seq::<Seq<char>>::empty() =~= words_scan(p).0);
        } else {
            lemma_words_scan_append(p, q.push(' '));
            lemma_words_scan_space(q, ' ');
            assert((p + q.push(' ')).drop_last() =~= p + q);
        }
    }
}

} // verus!
