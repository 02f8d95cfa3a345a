//! The log text format.
//!
//! A log file is a sequence of lines.  A line of zero indentation whose
//! content is `# ` followed by a date is a date header; an empty line is
//! insignificant; every other line is a record.  Records are grouped into
//! entries at lines of zero indentation, and entries into days under the
//! preceding date header.  A log renders back to text as the structural
//! inverse of this grouping.

use vstd::prelude::*;

use crate::date::{spec_date_of_text, spec_date_text, Date};
use crate::mention::{add_mentions, spec_collect_mentions, spec_mentions};
use crate::text::{
    expand_tabs, find_first_non_space, is_ws, join_with, spec_expand_tabs, spec_first_non_ws,
    spec_indent_of, spec_is_blank, spec_is_ws, spec_join, spec_split_lines, split_lines,
};

verus! {

/// One physical line of a log file: its position, its indentation after
/// tab expansion, and its content with the leading whitespace removed.
pub struct Token {
    pub line_number: usize,
    pub indentation: usize,
    pub content: String,
}

/// The mathematical content of a token; the line number plays no part in
/// what a file means.
#[verifier::ext_equal]
pub struct SpecTok {
    pub indent: int,
    pub content: Seq<char>,
}

impl View for Token {
    type V = SpecTok;

    open spec fn view(&self) -> SpecTok {
        SpecTok { indent: self.indentation as int, content: self.content@ }
    }
}

/// The token of one raw line: tabs are expanded to two spaces each, the
/// indentation is the position of the first non-whitespace character, and
/// the content is the rest of the expanded line.
pub open spec fn spec_tokenize_line(line: Seq<char>) -> SpecTok {
    let e = spec_expand_tabs(line);
    SpecTok { indent: spec_indent_of(e), content: e.skip(spec_indent_of(e)) }
}

/// Tokenizes one line.
pub fn tokenize_line(line: &str, line_number: usize) -> (t: Token)
    ensures
        t@ == spec_tokenize_line(line@),
        t.line_number == line_number,
{
    let expanded = expand_tabs(line);
    let indentation = find_first_non_space(expanded.as_str());
    let content = String::from_str(
        expanded.as_str().substring_char(indentation, expanded.as_str().unicode_len()),
    );
    Token { line_number, indentation, content }
}

/// The tokens of a text, one per line.
pub open spec fn spec_tokenize(s: Seq<char>) -> Seq<SpecTok> {
    spec_split_lines(s).map_values(|line: Seq<char>| spec_tokenize_line(line))
}

/// Tokenizes a whole text, line by line.
pub fn tokenize(content: &str) -> (r: Vec<Token>)
    ensures
        r@.map_values(|t: Token| t@) == spec_tokenize(content@),
        forall|i: int| 0 <= i < r@.len() ==> #[trigger] r@[i].line_number == i,
{
    let lines = split_lines(content);
    let mut tokens: Vec<Token> = Vec::new();
    let mut i: usize = 0;
    while i < lines.len()
        invariant
            i <= lines.len(),
            tokens@.len() == i,
            forall|j: int|
                0 <= j < i ==> #[trigger] tokens@[j]@ == spec_tokenize_line(lines.deep_view()[j]),
            forall|j: int| 0 <= j < i ==> #[trigger] tokens@[j].line_number == j,
        decreases lines.len() - i,
    {
        let token = tokenize_line(lines[i].as_str(), i);
        tokens.push(token);
        i = i + 1;
    }
    proof {
        assert(tokens@.map_values(|t: Token| t@) =~= spec_tokenize(content@));
    }
    tokens
}

/// Whether a token is an empty line: zero indentation and empty content.
pub open spec fn spec_token_is_empty_line(t: SpecTok) -> bool {
    t.indent == 0 && t.content.len() == 0
}

pub fn token_is_empty_line(token: &Token) -> (r: bool)
    ensures
        r == spec_token_is_empty_line(token@),
{
    token.indentation == 0 && token.content.unicode_len() == 0
}

/// `s` with its trailing whitespace removed.
pub open spec fn spec_trim_end(s: Seq<char>) -> Seq<char>
    decreases s.len(),
{
    if s.len() == 0 {
        s
    } else if spec_is_ws(s.last()) {
        spec_trim_end(s.drop_last())
    } else {
        s
    }
}

pub proof fn lemma_trim_end(s: Seq<char>)
    ensures
        spec_trim_end(s).len() <= s.len(),
        spec_trim_end(s) == s.take(spec_trim_end(s).len() as int),
        forall|j: int| spec_trim_end(s).len() <= j < s.len() ==> spec_is_ws(s[j]),
        spec_trim_end(s).len() > 0 ==> !spec_is_ws(s[spec_trim_end(s).len() - 1]),
    decreases s.len(),
{
    if s.len() == 0 {
        assert(spec_trim_end(s) =~= s.take(0));
    } else if spec_is_ws(s.last()) {
        lemma_trim_end(s.drop_last());
        let t = spec_trim_end(s);
        assert(s.drop_last().take(t.len() as int) =~= s.take(t.len() as int));
        assert forall|j: int| t.len() <= j < s.len() implies spec_is_ws(s[j]) by {
            if j < s.len() - 1 {
                assert(s[j] == s.drop_last()[j]);
            }
        }
        if t.len() > 0 {
            assert(s[t.len() - 1] == s.drop_last()[t.len() - 1]);
        }
    } else {
        assert(spec_trim_end(s) =~= s.take(s.len() as int));
    }
}

/// Removes the trailing whitespace of `s`.
pub fn trim_end(s: &str) -> (r: &str)
    ensures
        r@ == spec_trim_end(s@),
{
    let n = s.unicode_len();
    let mut e = n;
    while e > 0
        invariant
            n == s@.len(),
            0 <= e <= n,
            forall|j: int| e <= j < n ==> spec_is_ws(s@[j]),
        decreases e,
    {
        if !is_ws(s.get_char(e - 1)) {
            proof {
                lemma_trim_end(s@);
                let t = spec_trim_end(s@).len() as int;
                assert(!(t < e));
                assert(!(e < t));
                assert(s@.subrange(0, e as int) =~= spec_trim_end(s@));
            }
            return s.substring_char(0, e);
        }
        e = e - 1;
    }
    proof {
        lemma_trim_end(s@);
        let t = spec_trim_end(s@).len() as int;
        assert(!(0 < t));
        assert(s@.subrange(0, 0) =~= spec_trim_end(s@));
    }
    s.substring_char(0, 0)
}

/// A classified line.
pub enum Line {
    /// An empty line, structurally insignificant.
    Empty,
    /// A date header, beginning the entries of that date.
    Date(Date),
    /// A content line of some entry.
    Record(Token),
}

/// A classified line, in specification terms.
pub enum SpecLine {
    Empty,
    Date(Date),
    Record(SpecTok),
}

/// The date of a date-header token: zero indentation, content `# `
/// followed (up to trailing whitespace) by a `YYYY-MM-DD` calendar date.
pub open spec fn spec_try_date(t: SpecTok) -> Option<Date> {
    if t.indent == 0 && t.content.len() >= 2 && t.content[0] == '#' && t.content[1] == ' ' {
        spec_date_of_text(spec_trim_end(t.content.skip(2)))
    } else {
        None
    }
}

/// How a token is classified: an empty line, a date header, or a record.
/// A `# `-prefixed line whose remainder is not a calendar date is an
/// ordinary record, not an error.
pub open spec fn spec_classify(t: SpecTok) -> SpecLine {
    if spec_token_is_empty_line(t) {
        SpecLine::Empty
    } else if spec_try_date(t) is Some {
        SpecLine::Date(spec_try_date(t)->0)
    } else {
        SpecLine::Record(t)
    }
}

impl Token {
    /// The date this token names, if it is a date header.
    pub fn try_into_date(&self) -> (r: Option<Date>)
        ensures
            r == spec_try_date(self@),
    {
        if self.indentation != 0 {
            return None;
        }
        let n = self.content.as_str().unicode_len();
        if n < 2 {
            return None;
        }
        if !(self.content.as_str().get_char(0) == '#' && self.content.as_str().get_char(1) == ' ')
        {
            return None;
        }
        let rest = self.content.as_str().substring_char(2, n);
        let date_str = trim_end(rest);
        proof {
            assert(rest@ == self.content@.skip(2));
        }
        Date::parse(date_str)
    }

    /// An identical token.
    pub fn duplicate(&self) -> (r: Token)
        ensures
            r@ == self@,
            r.line_number == self.line_number,
    {
        Token {
            line_number: self.line_number,
            indentation: self.indentation,
            content: self.content.clone(),
        }
    }

    /// Classifies this token as an empty line, a date header, or a record.
    pub fn classify(&self) -> (r: Line)
        ensures
            (match r {
                Line::Empty => spec_classify(self@) is Empty,
                Line::Date(d) => spec_classify(self@) == SpecLine::Date(d),
                Line::Record(t) => spec_classify(self@) == SpecLine::Record(t@) && t@ == self@,
            }),
    {
        if token_is_empty_line(self) {
            return Line::Empty;
        }
        match self.try_into_date() {
            Some(d) => Line::Date(d),
            None => Line::Record(self.duplicate()),
        }
    }
}

/// A run of `n` spaces.
pub open spec fn spec_spaces(n: int) -> Seq<char> {
    if n <= 0 {
        Seq::empty()
    } else {
        Seq::new(n as nat, |i: int| ' ')
    }
}

/// A string of `n` spaces.
pub fn spaces(n: usize) -> (r: String)
    ensures
        r@ == spec_spaces(n as int),
{
    let mut out = String::new();
    let mut i: usize = 0;
    proof {
        assert(out@ =~= spec_spaces(0));
    }
    while i < n
        invariant
            i <= n,
            out@ == spec_spaces(i as int),
        decreases n - i,
    {
        out.append(" ");
        proof {
            reveal_strlit(" ");
            assert(out@ =~= spec_spaces(i + 1));
        }
        i = i + 1;
    }
    out
}

/// Whether `s` is whitespace only.
pub fn is_blank_str(s: &str) -> (r: bool)
    ensures
        r == spec_is_blank(s@),
{
    let n = s.unicode_len();
    let mut i: usize = 0;
    while i < n
        invariant
            n == s@.len(),
            i <= n,
            forall|j: int| 0 <= j < i ==> spec_is_ws(s@[j]),
        decreases n - i,
    {
        if !is_ws(s.get_char(i)) {
            proof {
                crate::text::lemma_first_non_ws(s@);
                assert(!(spec_first_non_ws(s@) > i));
            }
            return false;
        }
        i = i + 1;
    }
    proof {
        crate::text::lemma_first_non_ws(s@);
        assert(!(spec_first_non_ws(s@) < n));
    }
    true
}

/// The least indentation among the non-blank tokens, or `None` if every
/// token is blank.
pub open spec fn spec_min_indent_opt(ts: Seq<SpecTok>) -> Option<int>
    decreases ts.len(),
{
    if ts.len() == 0 {
        Option::None
    } else {
        let rest = spec_min_indent_opt(ts.drop_first());
        if spec_is_blank(ts[0].content) {
            rest
        } else {
            match rest {
                Option::None => Option::Some(ts[0].indent),
                Option::Some(m) => Option::Some(
                    if ts[0].indent <= m {
                        ts[0].indent
                    } else {
                        m
                    },
                ),
            }
        }
    }
}

/// The common indentation removed when an entry's lines are dedented.
pub open spec fn spec_min_indent(ts: Seq<SpecTok>) -> int {
    match spec_min_indent_opt(ts) {
        Option::None => 0,
        Option::Some(m) => m,
    }
}

pub proof fn lemma_min_indent_opt(ts: Seq<SpecTok>)
    ensures
        forall|j: int|
            0 <= j < ts.len() && !spec_is_blank(#[trigger] ts[j].content) ==> spec_min_indent_opt(
                ts,
            ) is Some && spec_min_indent_opt(ts)->0 <= ts[j].indent,
        spec_min_indent_opt(ts) is Some ==> exists|j: int|
            0 <= j < ts.len() && !spec_is_blank(#[trigger] ts[j].content) && ts[j].indent
                == spec_min_indent_opt(ts)->0,
    decreases ts.len(),
{
    if ts.len() > 0 {
        lemma_min_indent_opt(ts.drop_first());
        assert(forall|j: int|
            1 <= j < ts.len() ==> #[trigger] ts[j] == ts.drop_first()[j - 1]);
        if spec_min_indent_opt(ts) is Some {
            let m = spec_min_indent_opt(ts)->0;
            if !spec_is_blank(ts[0].content) && ts[0].indent == m {
                assert(0 <= 0 < ts.len() && !spec_is_blank(ts[0].content) && ts[0].indent == m);
            } else {
                let k = choose|k: int|
                    0 <= k < ts.drop_first().len() && !spec_is_blank(
                        #[trigger] ts.drop_first()[k].content,
                    ) && ts.drop_first()[k].indent == spec_min_indent_opt(ts.drop_first())->0;
                assert(!spec_is_blank(ts[k + 1].content) && ts[k + 1].indent == m);
            }
        }
    }
}

/// The dedented form of one entry line: a blank line becomes empty, and
/// any other keeps its content at its indentation less the common `m`.
pub open spec fn spec_dedent_token(t: SpecTok, m: int) -> Seq<char> {
    if spec_is_blank(t.content) {
        Seq::empty()
    } else {
        spec_spaces(t.indent - m) + t.content
    }
}

/// The dedented lines of an entry's tokens.
pub open spec fn spec_entry_lines(ts: Seq<SpecTok>) -> Seq<Seq<char>> {
    ts.map_values(|t: SpecTok| spec_dedent_token(t, spec_min_indent(ts)))
}

/// An entry's stored content: its dedented lines joined by newlines.
pub open spec fn spec_entry_content(ts: Seq<SpecTok>) -> Seq<char> {
    spec_join(spec_entry_lines(ts), seq!['\n'])
}

/// The names mentioned in the contents of `ts`, scanned token by token,
/// appended to `acc` in order of first occurrence without repetition.
pub open spec fn spec_fold_mentions(ts: Seq<SpecTok>, acc: Seq<Seq<char>>) -> Seq<Seq<char>>
    decreases ts.len(),
{
    if ts.len() == 0 {
        acc
    } else {
        spec_fold_mentions(ts.drop_first(), spec_collect_mentions(ts[0].content, 0, acc))
    }
}

/// One journal note: the persons mentioned on its first line (`main`),
/// the persons mentioned on any of its lines (`related`), and its dedented
/// text (`content`).
#[derive(Clone, Debug, PartialEq, Eq)]
pub struct Entry {
    pub main: Vec<String>,
    pub related: Vec<String>,
    pub content: String,
}

/// The mathematical content of an entry.
#[verifier::ext_equal]
pub struct SpecEntry {
    pub main: Seq<Seq<char>>,
    pub related: Seq<Seq<char>>,
    pub content: Seq<char>,
}

impl View for Entry {
    type V = SpecEntry;

    open spec fn view(&self) -> SpecEntry {
        SpecEntry {
            main: self.main.deep_view(),
            related: self.related.deep_view(),
            content: self.content@,
        }
    }
}

/// The entry of one group of record tokens.
pub open spec fn spec_parse_entry(ts: Seq<SpecTok>) -> SpecEntry
    recommends
        ts.len() >= 1,
{
    SpecEntry {
        main: spec_mentions(ts[0].content),
        related: spec_fold_mentions(ts, Seq::empty()),
        content: spec_entry_content(ts),
    }
}

/// Builds the entry of one group of record tokens: `main` from the first
/// token, `related` from all of them, and the content from the dedented
/// lines.
pub fn parse_entry(tokens: Vec<Token>) -> (e: Entry)
    requires
        tokens@.len() >= 1,
    ensures
        e@ == spec_parse_entry(tokens@.map_values(|t: Token| t@)),
{
    let ghost ts = tokens@.map_values(|t: Token| t@);
    let mut main: Vec<String> = Vec::new();
    proof {
        assert(main.deep_view() =~= Seq::<Seq<char>>::empty());
        assert(ts[0] == tokens@[0]@);
    }
    add_mentions(tokens[0].content.as_str(), &mut main);
    proof {
        assert(main.deep_view() =~~= spec_mentions(ts[0].content));
    }

    let mut related: Vec<String> = Vec::new();
    let mut i: usize = 0;
    proof {
        assert(ts.skip(0) =~= ts);
    }
    while i < tokens.len()
        invariant
            i <= tokens.len(),
            ts == tokens@.map_values(|t: Token| t@),
            spec_fold_mentions(ts, Seq::empty()) == spec_fold_mentions(
                ts.skip(i as int),
                related.deep_view(),
            ),
        decreases tokens.len() - i,
    {
        add_mentions(tokens[i].content.as_str(), &mut related);
        proof {
            assert(ts.skip(i as int)[0] == ts[i as int]);
            assert(ts.skip(i as int).drop_first() =~= ts.skip(i + 1));
        }
        i = i + 1;
    }
    proof {
        assert(spec_fold_mentions(ts.skip(tokens.len() as int), related.deep_view())
            == related.deep_view());
    }

    let mut have_min = false;
    let mut min_i: usize = 0;
    let mut k = tokens.len();
    proof {
        assert(ts.skip(tokens.len() as int) =~= Seq::<SpecTok>::empty());
    }
    while k > 0
        invariant
            k <= tokens.len(),
            ts == tokens@.map_values(|t: Token| t@),
            (match spec_min_indent_opt(ts.skip(k as int)) {
                Option::None => !have_min,
                Option::Some(m) => have_min && min_i == m,
            }),
        decreases k,
    {
        k = k - 1;
        let blank = is_blank_str(tokens[k].content.as_str());
        proof {
            assert(ts.skip(k as int)[0] == ts[k as int]);
            assert(ts.skip(k as int).drop_first() =~= ts.skip(k + 1));
        }
        if !blank {
            if !have_min || tokens[k].indentation < min_i {
                min_i = tokens[k].indentation;
            }
            have_min = true;
        }
    }
    let m: usize = if have_min {
        min_i
    } else {
        0
    };
    proof {
        assert(ts.skip(0) =~= ts);
        assert(m as int == spec_min_indent(ts));
        lemma_min_indent_opt(ts);
    }

    let mut content_lines: Vec<String> = Vec::new();
    let mut i: usize = 0;
    while i < tokens.len()
        invariant
            i <= tokens.len(),
            ts == tokens@.map_values(|t: Token| t@),
            m as int == spec_min_indent(ts),
            forall|j: int|
                0 <= j < ts.len() && !spec_is_blank(#[trigger] ts[j].content) ==> m <= ts[j].indent,
            content_lines.deep_view() =~~= spec_entry_lines(ts).take(i as int),
        decreases tokens.len() - i,
    {
        let blank = is_blank_str(tokens[i].content.as_str());
        let ghost prev = content_lines.deep_view();
        proof {
            assert(ts[i as int] == tokens@[i as int]@);
        }
        if blank {
            content_lines.push(String::new());
        } else {
            proof {
                assert(!spec_is_blank(ts[i as int].content));
                assert(m <= ts[i as int].indent);
            }
            let mut line = spaces(tokens[i].indentation - m);
            line.append(tokens[i].content.as_str());
            content_lines.push(line);
        }
        proof {
            assert(spec_entry_lines(ts)[i as int] == spec_dedent_token(
                ts[i as int],
                spec_min_indent(ts),
            ));
            assert(content_lines.deep_view() =~~= prev.push(
                spec_dedent_token(ts[i as int], spec_min_indent(ts)),
            ));
            assert(content_lines.deep_view() =~~= spec_entry_lines(ts).take(i + 1));
        }
        i = i + 1;
    }
    let content = join_with(&content_lines, "\n");
    proof {
        reveal_strlit("\n");
        assert("\n"@ =~= seq!['\n']);
        assert(content_lines.deep_view() =~~= spec_entry_lines(ts));
    }
    let e = Entry { main, related, content };
    proof {
        assert(e@.main =~~= spec_parse_entry(ts).main);
        assert(e@.related =~~= spec_parse_entry(ts).related);
        assert(e@.content =~~= spec_parse_entry(ts).content);
    }
    e
}

impl DeepView for Entry {
    type V = SpecEntry;

    open spec fn deep_view(&self) -> SpecEntry {
        self@
    }
}

/// All entries recorded under one date.
#[derive(Clone, Debug, PartialEq, Eq)]
pub struct Day {
    pub date: Date,
    pub entries: Vec<Entry>,
}

/// The mathematical content of a day.
#[verifier::ext_equal]
pub struct SpecDay {
    pub date: Date,
    pub entries: Seq<SpecEntry>,
}

impl View for Day {
    type V = SpecDay;

    open spec fn view(&self) -> SpecDay {
        SpecDay { date: self.date, entries: self.entries.deep_view() }
    }
}

impl DeepView for Day {
    type V = SpecDay;

    open spec fn deep_view(&self) -> SpecDay {
        self@
    }
}

/// An ordered collection of days, from one source file or merged from
/// several.
#[derive(Clone, Debug, PartialEq, Eq)]
pub struct Log {
    pub days: Vec<Day>,
}

impl View for Log {
    type V = Seq<SpecDay>;

    open spec fn view(&self) -> Seq<SpecDay> {
        self.days.deep_view()
    }
}

/// Groups a day's record tokens into entries: a token of zero indentation
/// closes the buffered entry (if any) and begins a new one; every token
/// joins the current buffer.  `buf` and `out` carry the state of the
/// grouping so far.
pub open spec fn spec_day_groups(
    ts: Seq<SpecTok>,
    buf: Seq<SpecTok>,
    out: Seq<Seq<SpecTok>>,
) -> Seq<Seq<SpecTok>>
    decreases ts.len(),
{
    if ts.len() == 0 {
        if buf.len() == 0 {
            out
        } else {
            out.push(buf)
        }
    } else if ts[0].indent == 0 && buf.len() > 0 {
        spec_day_groups(ts.drop_first(), seq![ts[0]], out.push(buf))
    } else {
        spec_day_groups(ts.drop_first(), buf.push(ts[0]), out)
    }
}

/// The entry groups of a day's record tokens.
pub open spec fn spec_entry_groups(ts: Seq<SpecTok>) -> Seq<Seq<SpecTok>> {
    spec_day_groups(ts, Seq::empty(), Seq::empty())
}

/// The day of a date header and the record tokens that follow it.
pub open spec fn spec_parse_day(date: Date, ts: Seq<SpecTok>) -> SpecDay {
    SpecDay { date, entries: spec_entry_groups(ts).map_values(|g: Seq<SpecTok>| spec_parse_entry(g)) }
}

/// Builds the day of one date header: groups the record tokens into
/// entries at lines of zero indentation and parses each group.
pub fn parse_day(date: Date, lines: Vec<Token>) -> (d: Day)
    ensures
        d@ == spec_parse_day(date, lines@.map_values(|t: Token| t@)),
{
    let ghost ts = lines@.map_values(|t: Token| t@);
    let mut entries: Vec<Entry> = Vec::new();
    let mut buffer: Vec<Token> = Vec::new();
    let ghost mut gout: Seq<Seq<SpecTok>> = Seq::empty();
    let mut i: usize = 0;
    proof {
        assert(ts.skip(0) =~= ts);
        assert(buffer@.map_values(|t: Token| t@) =~= Seq::<SpecTok>::empty());
        assert(entries.deep_view() =~~= gout.map_values(|g: Seq<SpecTok>| spec_parse_entry(g)));
    }
    while i < lines.len()
        invariant
            i <= lines.len(),
            ts == lines@.map_values(|t: Token| t@),
            spec_entry_groups(ts) == spec_day_groups(
                ts.skip(i as int),
                buffer@.map_values(|t: Token| t@),
                gout,
            ),
            entries.deep_view() =~~= gout.map_values(|g: Seq<SpecTok>| spec_parse_entry(g)),
        decreases lines.len() - i,
    {
        let ghost bufv = buffer@.map_values(|t: Token| t@);
        proof {
            assert(ts.skip(i as int)[0] == ts[i as int]);
            assert(ts[i as int] == lines@[i as int]@);
            assert(ts.skip(i as int).drop_first() =~= ts.skip(i + 1));
        }
        let is_top_level = lines[i].indentation == 0;
        if is_top_level && buffer.len() > 0 {
            let group = buffer;
            buffer = Vec::new();
            let ghost prev_entries = entries.deep_view();
            let entry = parse_entry(group);
            entries.push(entry);
            proof {
                gout = gout.push(bufv);
                assert(entries.deep_view() =~~= prev_entries.push(spec_parse_entry(bufv)));
                assert(entries.deep_view() =~~= gout.map_values(
                    |g: Seq<SpecTok>| spec_parse_entry(g),
                ));
                assert(buffer@.map_values(|t: Token| t@) =~= Seq::<SpecTok>::empty());
            }
        }
        let ghost bufv2 = buffer@.map_values(|t: Token| t@);
        buffer.push(lines[i].duplicate());
        proof {
            assert(buffer@.map_values(|t: Token| t@) =~= bufv2.push(ts[i as int]));
        }
        i = i + 1;
    }
    proof {
        assert(ts.skip(lines.len() as int) =~= Seq::<SpecTok>::empty());
    }
    if buffer.len() > 0 {
        let ghost bufv = buffer@.map_values(|t: Token| t@);
        let ghost prev_entries = entries.deep_view();
        let entry = parse_entry(buffer);
        entries.push(entry);
        proof {
            gout = gout.push(bufv);
            assert(entries.deep_view() =~~= prev_entries.push(spec_parse_entry(bufv)));
            assert(entries.deep_view() =~~= gout.map_values(
                |g: Seq<SpecTok>| spec_parse_entry(g),
            ));
        }
    }
    let d = Day { date, entries };
    proof {
        assert(d@.entries =~~= spec_parse_day(date, ts).entries);
    }
    d
}

/// The failure of assembling one source file.
#[derive(Clone, Copy, Debug, PartialEq, Eq, Structural)]
pub enum ParseError {
    /// A record line stood before any date header, so it has no owning
    /// date.
    RecordBeforeDate,
}

/// The classified lines of a text.
pub open spec fn spec_classified(s: Seq<char>) -> Seq<SpecLine> {
    spec_tokenize(s).map_values(|t: SpecTok| spec_classify(t))
}

/// Assembles classified lines into days: an empty line is skipped, a date
/// header closes the buffered records (if any) into a day under the
/// previously active date and activates its own date, and a record joins
/// the buffer.  `None` is the structural error of a record with no active
/// date.
pub open spec fn spec_assemble(
    lines: Seq<SpecLine>,
    cur: Option<Date>,
    buf: Seq<SpecTok>,
    out: Seq<SpecDay>,
) -> Option<Seq<SpecDay>>
    decreases lines.len(),
{
    if lines.len() == 0 {
        if buf.len() == 0 {
            Option::Some(out)
        } else if cur is None {
            Option::None
        } else {
            Option::Some(out.push(spec_parse_day(cur->0, buf)))
        }
    } else {
        match lines[0] {
            SpecLine::Empty => spec_assemble(lines.drop_first(), cur, buf, out),
            SpecLine::Date(d) => {
                if buf.len() > 0 {
                    if cur is None {
                        Option::None
                    } else {
                        spec_assemble(
                            lines.drop_first(),
                            Option::Some(d),
                            Seq::empty(),
                            out.push(spec_parse_day(cur->0, buf)),
                        )
                    }
                } else {
                    spec_assemble(lines.drop_first(), Option::Some(d), buf, out)
                }
            },
            SpecLine::Record(t) => spec_assemble(lines.drop_first(), cur, buf.push(t), out),
        }
    }
}

/// The log denoted by a text, or `None` on the structural error of a
/// record line that no date header precedes.
pub open spec fn spec_parse_log(s: Seq<char>) -> Option<Seq<SpecDay>> {
    spec_assemble(spec_classified(s), Option::None, Seq::empty(), Seq::empty())
}

/// Parses the full content of one log file.  Returns the structural
/// error exactly when a record line stands before the first date header.
pub fn parse_log_file_content(content: &str) -> (r: Result<Log, ParseError>)
    ensures
        (match r {
            Ok(log) => spec_parse_log(content@) == Option::Some(log@),
            Err(e) => spec_parse_log(content@) is None && e == ParseError::RecordBeforeDate,
        }),
{
    let tokens = tokenize(content);
    let ghost cls = spec_classified(content@);
    let mut buffered_date: Option<Date> = None;
    let mut buffered_lines: Vec<Token> = Vec::new();
    let mut days: Vec<Day> = Vec::new();
    let mut i: usize = 0;
    proof {
        assert(cls.skip(0) =~= cls);
        assert(buffered_lines@.map_values(|t: Token| t@) =~= Seq::<SpecTok>::empty());
        assert(days.deep_view() =~~= Seq::<SpecDay>::empty());
    }
    while i < tokens.len()
        invariant
            i <= tokens.len(),
            cls == spec_classified(content@),
            tokens@.map_values(|t: Token| t@) == spec_tokenize(content@),
            cls.len() == tokens@.len(),
            spec_parse_log(content@) == spec_assemble(
                cls.skip(i as int),
                buffered_date,
                buffered_lines@.map_values(|t: Token| t@),
                days.deep_view(),
            ),
        decreases tokens.len() - i,
    {
        proof {
            assert(cls[i as int] == spec_classify(spec_tokenize(content@)[i as int]));
            assert(spec_tokenize(content@)[i as int] == tokens@[i as int]@);
            assert(cls.skip(i as int)[0] == cls[i as int]);
            assert(cls.skip(i as int).drop_first() =~= cls.skip(i + 1));
        }
        let ghost bufv = buffered_lines@.map_values(|t: Token| t@);
        let line = tokens[i].classify();
        match line {
            Line::Empty => {},
            Line::Date(date) => {
                if buffered_lines.len() > 0 {
                    let active = match buffered_date {
                        Some(d) => d,
                        None => {
                            return Err(ParseError::RecordBeforeDate);
                        },
                    };
                    let group = buffered_lines;
                    buffered_lines = Vec::new();
                    let ghost prev_days = days.deep_view();
                    let day = parse_day(active, group);
                    days.push(day);
                    proof {
                        assert(days.deep_view() =~~= prev_days.push(spec_parse_day(active, bufv)));
                        assert(buffered_lines@.map_values(|t: Token| t@)
                            =~= Seq::<SpecTok>::empty());
                    }
                }
                buffered_date = Some(date);
            },
            Line::Record(token) => {
                buffered_lines.push(token);
                proof {
                    assert(buffered_lines@.map_values(|t: Token| t@) =~= bufv.push(
                        tokens@[i as int]@,
                    ));
                }
            },
        }
        i = i + 1;
    }
    proof {
        assert(cls.skip(tokens.len() as int) =~= Seq::<SpecLine>::empty());
    }
    if buffered_lines.len() > 0 {
        let active = match buffered_date {
            Some(d) => d,
            None => {
                return Err(ParseError::RecordBeforeDate);
            },
        };
        let ghost bufv = buffered_lines@.map_values(|t: Token| t@);
        let ghost prev_days = days.deep_view();
        let day = parse_day(active, buffered_lines);
        days.push(day);
        proof {
            assert(days.deep_view() =~~= prev_days.push(spec_parse_day(active, bufv)));
        }
    }
    Ok(Log { days })
}

/// Mention collection only ever extends its accumulator.
pub proof fn lemma_fold_mentions_superset(ts: Seq<SpecTok>, acc: Seq<Seq<char>>, x: Seq<char>)
    requires
        acc.contains(x),
    ensures
        spec_fold_mentions(ts, acc).contains(x),
    decreases ts.len(),
{
    if ts.len() > 0 {
        let acc2 = spec_collect_mentions(ts[0].content, 0, acc);
        crate::mention::lemma_collect_mentions_prefix(ts[0].content, 0, acc);
        let k = choose|k: int| 0 <= k < acc.len() && acc[k] == x;
        assert(acc2.take(acc.len() as int)[k] == x);
        assert(acc2[k] == x);
        assert(acc2.contains(x));
        lemma_fold_mentions_superset(ts.drop_first(), acc2, x);
    }
}

/// Law of mention containment: every person mentioned on an entry's
/// first line is among the entry's related mentions, so `main` is a
/// subset of `related` for every parsed entry.
pub proof fn lemma_entry_main_subset_related(ts: Seq<SpecTok>, p: Seq<char>)
    requires
        ts.len() >= 1,
        spec_parse_entry(ts).main.contains(p),
    ensures
        spec_parse_entry(ts).related.contains(p),
{
    assert(spec_fold_mentions(ts, Seq::empty()) == spec_fold_mentions(
        ts.drop_first(),
        spec_collect_mentions(ts[0].content, 0, Seq::empty()),
    ));
    lemma_fold_mentions_superset(ts.drop_first(), spec_mentions(ts[0].content), p);
}

/// Law of tab normalization: a line with a tab tokenizes exactly as the
/// same line with the tab written as two spaces.
pub proof fn lemma_tab_normalization(a: Seq<char>, b: Seq<char>)
    ensures
        spec_tokenize_line(a + seq!['\t'] + b) == spec_tokenize_line(a + seq![' ', ' '] + b),
{
    let tb = seq!['\t'] + b;
    let sb = seq![' ', ' '] + b;
    crate::text::lemma_expand_tabs_append(a, tb);
    crate::text::lemma_expand_tabs_append(seq!['\t'], b);
    crate::text::lemma_expand_tabs_append(a, sb);
    crate::text::lemma_expand_tabs_append(seq![' ', ' '], b);
    assert(a + seq!['\t'] + b =~= a + tb);
    assert(a + seq![' ', ' '] + b =~= a + sb);
    assert(seq!['\t'].drop_first() =~= Seq::<char>::empty());
    assert(spec_expand_tabs(Seq::<char>::empty()) == Seq::<char>::empty());
    assert(spec_expand_tabs(seq!['\t']) =~= seq![' ', ' ']);
    assert(seq![' ', ' '].drop_first() =~= seq![' ']);
    assert(seq![' '].drop_first() =~= Seq::<char>::empty());
    assert(spec_expand_tabs(seq![' ']) =~= seq![' ']);
    assert(spec_expand_tabs(seq![' ', ' ']) =~= seq![' ', ' ']);
    assert(spec_expand_tabs(a + seq!['\t'] + b) =~= spec_expand_tabs(a + seq![' ', ' '] + b));
}

/// An identical vector of strings.
pub fn clone_string_vec(v: &Vec<String>) -> (r: Vec<String>)
    ensures
        r.deep_view() == v.deep_view(),
{
    let mut out: Vec<String> = Vec::new();
    let mut i: usize = 0;
    while i < v.len()
        invariant
            i <= v.len(),
            out.deep_view() =~~= v.deep_view().take(i as int),
        decreases v.len() - i,
    {
        let ghost prev = out.deep_view();
        out.push(v[i].clone());
        proof {
            assert(out.deep_view() =~~= prev.push(v.deep_view()[i as int]));
            assert(out.deep_view() =~~= v.deep_view().take(i + 1));
        }
        i = i + 1;
    }
    proof {
        assert(v.deep_view().take(v@.len() as int) =~~= v.deep_view());
    }
    out
}

impl Entry {
    /// An identical entry.
    pub fn duplicate(&self) -> (r: Entry)
        ensures
            r@ == self@,
    {
        Entry {
            main: clone_string_vec(&self.main),
            related: clone_string_vec(&self.related),
            content: self.content.clone(),
        }
    }
}

/// An identical vector of entries.
pub fn clone_entry_vec(v: &Vec<Entry>) -> (r: Vec<Entry>)
    ensures
        r.deep_view() == v.deep_view(),
{
    let mut out: Vec<Entry> = Vec::new();
    let mut i: usize = 0;
    while i < v.len()
        invariant
            i <= v.len(),
            out.deep_view() =~~= v.deep_view().take(i as int),
        decreases v.len() - i,
    {
        let ghost prev = out.deep_view();
        out.push(v[i].duplicate());
        proof {
            assert(out.deep_view() =~~= prev.push(v.deep_view()[i as int]));
            assert(out.deep_view() =~~= v.deep_view().take(i + 1));
        }
        i = i + 1;
    }
    proof {
        assert(v.deep_view().take(v@.len() as int) =~~= v.deep_view());
    }
    out
}

impl Day {
    /// An identical day.
    pub fn duplicate(&self) -> (r: Day)
        ensures
            r@ == self@,
    {
        let d = Day { date: self.date, entries: clone_entry_vec(&self.entries) };
        proof {
            assert(d@ == self@);
        }
        d
    }
}

/// The rendered text of a day: `# `, the date, a blank line, and the
/// entries' contents each on its own lines.
pub open spec fn spec_render_day(d: SpecDay) -> Seq<char> {
    seq!['#', ' '] + spec_date_text(d.date) + seq!['\n', '\n'] + spec_join(
        d.entries.map_values(|e: SpecEntry| e.content),
        seq!['\n'],
    )
}

/// The rendered text of a log: the days separated by a blank line, with a
/// final newline.
pub open spec fn spec_render_log(days: Seq<SpecDay>) -> Seq<char> {
    spec_join(days.map_values(|d: SpecDay| spec_render_day(d)), seq!['\n', '\n']) + seq!['\n']
}

impl Entry {
    /// The rendered text of this entry: its stored content verbatim.
    pub fn render(&self) -> (r: String)
        ensures
            r@ == self@.content,
    {
        self.content.clone()
    }
}

impl Day {
    /// Renders this day as `# date`, a blank line, and its entries.
    pub fn render(&self) -> (r: String)
        requires
            self.date.wf(),
        ensures
            r@ == spec_render_day(self@),
    {
        let mut entry_texts: Vec<String> = Vec::new();
        let mut i: usize = 0;
        while i < self.entries.len()
            invariant
                i <= self.entries@.len(),
                entry_texts.deep_view() =~~= self.entries.deep_view().map_values(
                    |e: SpecEntry| e.content,
                ).take(i as int),
            decreases self.entries@.len() - i,
        {
            let ghost prev = entry_texts.deep_view();
            entry_texts.push(self.entries[i].render());
            proof {
                assert(entry_texts.deep_view() =~~= prev.push(self.entries.deep_view()[i as int].content));
                assert(entry_texts.deep_view() =~~= self.entries.deep_view().map_values(
                    |e: SpecEntry| e.content,
                ).take(i + 1));
            }
            i = i + 1;
        }
        proof {
            assert(self.entries.deep_view().map_values(|e: SpecEntry| e.content).take(
                self.entries@.len() as int,
            ) =~~= self.entries.deep_view().map_values(|e: SpecEntry| e.content));
        }
        let joined = join_with(&entry_texts, "\n");
        let mut out = String::new();
        out.append("# ");
        let date_text = self.date.to_text();
        out.append(date_text.as_str());
        out.append("\n\n");
        out.append(joined.as_str());
        proof {
            reveal_strlit("# ");
            reveal_strlit("\n\n");
            reveal_strlit("\n");
            assert("\n"@ =~= seq!['\n']);
            assert(out@ =~= spec_render_day(self@));
        }
        out
    }
}

impl Log {
    /// Whether every day's date is a well-formed calendar date (true of
    /// every parsed log); rendering asks for this.
    pub fn dates_wf(&self) -> (r: bool)
        ensures
            r == (forall|i: int| 0 <= i < self@.len() ==> (#[trigger] self@[i]).date.wf()),
    {
        let mut i: usize = 0;
        while i < self.days.len()
            invariant
                i <= self.days@.len(),
                self@.len() == self.days@.len(),
                forall|j: int| 0 <= j < i ==> (#[trigger] self@[j]).date.wf(),
            decreases self.days@.len() - i,
        {
            let d = self.days[i].date;
            proof {
                assert(self@[i as int].date == self.days@[i as int]@.date);
            }
            if !(1 <= d.month && d.month <= 12 && d.year <= 9999 && 1 <= d.day && d.day
                <= crate::date::days_in_month(d.year, d.month)) {
                return false;
            }
            i = i + 1;
        }
        true
    }

    /// Renders this log: the days separated by a blank line, with a final
    /// newline.
    pub fn render(&self) -> (r: String)
        requires
            forall|i: int| 0 <= i < self@.len() ==> (#[trigger] self@[i]).date.wf(),
        ensures
            r@ == spec_render_log(self@),
    {
        let mut day_texts: Vec<String> = Vec::new();
        let mut i: usize = 0;
        while i < self.days.len()
            invariant
                i <= self.days@.len(),
                forall|j: int| 0 <= j < self@.len() ==> (#[trigger] self@[j]).date.wf(),
                self.days@.len() == self@.len(),
                day_texts.deep_view() =~~= self@.map_values(|d: SpecDay| spec_render_day(d)).take(
                    i as int,
                ),
            decreases self.days@.len() - i,
        {
            let ghost prev = day_texts.deep_view();
            proof {
                assert(self.days@[i as int]@ == self@[i as int]);
            }
            day_texts.push(self.days[i].render());
            proof {
                assert(day_texts.deep_view() =~~= prev.push(spec_render_day(self@[i as int])));
                assert(day_texts.deep_view() =~~= self@.map_values(
                    |d: SpecDay| spec_render_day(d),
                ).take(i + 1));
            }
            i = i + 1;
        }
        proof {
            assert(self@.map_values(|d: SpecDay| spec_render_day(d)).take(self.days@.len() as int)
                =~~= self@.map_values(|d: SpecDay| spec_render_day(d)));
        }
        let mut out = join_with(&day_texts, "\n\n");
        out.append("\n");
        proof {
            reveal_strlit("\n\n");
            reveal_strlit("\n");
            assert("\n\n"@ =~= seq!['\n', '\n']);
            assert("\n"@ =~= seq!['\n']);
        }
        out
    }
}

} // verus!
