//! The round-trip law: rendering is the structural inverse of parsing.
//!
//! Canonical-form text is the text that rendering produces from a
//! well-formed log: every entry's stored content begins at zero
//! indentation with a non-blank line that is no date header, continues
//! with non-blank lines indented by at least one space, holds no tabs,
//! and carries exactly the mentions parsing would find.  For every such
//! log, parsing its rendered text yields the log back, so rendering
//! the parse of canonical-form text reproduces the text.

use vstd::prelude::*;

use crate::date::{date_wf, lemma_date_text_chars, lemma_date_text_round_trip, spec_date_text, Date};
use crate::log::{
    spec_classify, spec_day_groups, spec_dedent_token, spec_entry_content, spec_entry_groups,
    spec_entry_lines, spec_fold_mentions, spec_min_indent, spec_min_indent_opt, spec_parse_day,
    spec_parse_entry, spec_spaces, spec_token_is_empty_line, spec_tokenize_line, spec_trim_end,
    spec_try_date, SpecDay, SpecEntry, SpecLine, SpecTok,
};
use crate::mention::spec_mentions;
use crate::text::{
    lemma_expand_tabs_identity, lemma_first_non_ws, lemma_join_split, lemma_split_append,
    lemma_split_lines_len, spec_indent_of, spec_is_blank, spec_is_ws, spec_join, spec_split_lines,
};

verus! {

/// A stored entry line: not blank, free of tabs, indented by spaces
/// alone.
pub open spec fn spec_stored_line_wf(line: Seq<char>) -> bool {
    &&& !spec_is_blank(line)
    &&& forall|i: int| 0 <= i < line.len() ==> line[i] != '\t'
    &&& forall|j: int| 0 <= j < spec_indent_of(line) ==> line[j] == ' '
}

/// The lines of an entry's stored content.
pub open spec fn spec_entry_lines_of(e: SpecEntry) -> Seq<Seq<char>> {
    spec_split_lines(e.content)
}

/// The tokens an entry's stored content re-tokenizes to.
pub open spec fn spec_entry_toks(e: SpecEntry) -> Seq<SpecTok> {
    spec_entry_lines_of(e).map_values(|l: Seq<char>| spec_tokenize_line(l))
}

/// An entry in canonical form: its first line opens at zero indentation
/// and is no date header, its further lines are indented, every line is
/// non-blank, space-indented and tab-free, and its mention fields are
/// the mentions of its lines.
pub open spec fn spec_entry_render_wf(e: SpecEntry) -> bool {
    let lines = spec_entry_lines_of(e);
    &&& forall|i: int| 0 <= i < lines.len() ==> spec_stored_line_wf(#[trigger] lines[i])
    &&& spec_indent_of(lines[0]) == 0
    &&& forall|i: int| 1 <= i < lines.len() ==> spec_indent_of(#[trigger] lines[i]) >= 1
    &&& spec_try_date(spec_tokenize_line(lines[0])) is None
    &&& e.main == spec_mentions(spec_tokenize_line(lines[0]).content)
    &&& e.related == spec_fold_mentions(spec_entry_toks(e), Seq::empty())
}

/// A day in canonical form: a well-formed date and at least one
/// canonical entry.
pub open spec fn spec_day_render_wf(d: SpecDay) -> bool {
    &&& date_wf(d.date)
    &&& d.entries.len() >= 1
    &&& forall|j: int| 0 <= j < d.entries.len() ==> spec_entry_render_wf(#[trigger] d.entries[j])
}

/// A log in canonical form.
pub open spec fn spec_log_render_wf(days: Seq<SpecDay>) -> bool {
    forall|i: int| 0 <= i < days.len() ==> spec_day_render_wf(#[trigger] days[i])
}

/// A tab-free line tokenizes to its own indentation and remainder.
pub proof fn lemma_tokenize_tab_free(line: Seq<char>)
    requires
        forall|i: int| 0 <= i < line.len() ==> line[i] != '\t',
    ensures
        spec_tokenize_line(line) == (SpecTok {
            indent: spec_indent_of(line),
            content: line.skip(spec_indent_of(line)),
        }),
{
    lemma_expand_tabs_identity(line);
}

/// The remainder of a non-blank line past its indentation is non-blank.
pub proof fn lemma_skip_indent_non_blank(line: Seq<char>)
    requires
        !spec_is_blank(line),
    ensures
        !spec_is_blank(line.skip(spec_indent_of(line))),
        line.skip(spec_indent_of(line)).len() > 0,
{
    lemma_first_non_ws(line);
    let ind = spec_indent_of(line);
    let rest = line.skip(ind);
    assert(rest[0] == line[ind]);
    assert(!spec_is_ws(rest[0]));
    lemma_first_non_ws(rest);
    assert(spec_first_non_ws_is_zero(rest));
}

/// Helper naming the fact that a text starting with a non-whitespace
/// character has its first non-whitespace character at position zero.
pub open spec fn spec_first_non_ws_is_zero(s: Seq<char>) -> bool {
    crate::text::spec_first_non_ws(s) == 0 && s.len() > 0
}

/// A stored entry line classifies as a record of its own token.
pub proof fn lemma_stored_line_is_record(line: Seq<char>)
    requires
        spec_stored_line_wf(line),
        spec_indent_of(line) >= 1 || spec_try_date(spec_tokenize_line(line)) is None,
    ensures
        spec_classify(spec_tokenize_line(line)) == SpecLine::Record(spec_tokenize_line(line)),
{
    lemma_tokenize_tab_free(line);
    lemma_skip_indent_non_blank(line);
    let t = spec_tokenize_line(line);
    assert(t.content.len() > 0);
    assert(!spec_token_is_empty_line(t));
    if t.indent >= 1 {
        assert(spec_try_date(t) is None);
    }
}

/// The rendered header line of a date.
pub open spec fn spec_header_line(d: Date) -> Seq<char> {
    seq!['#', ' '] + spec_date_text(d)
}

/// The header line of a well-formed date classifies as that date.
pub proof fn lemma_header_line(d: Date)
    requires
        date_wf(d),
    ensures
        spec_classify(spec_tokenize_line(spec_header_line(d))) == SpecLine::Date(d),
        forall|i: int|
            0 <= i < spec_header_line(d).len() ==> #[trigger] spec_header_line(d)[i] != '\n',
{
    let line = spec_header_line(d);
    lemma_date_text_chars(d);
    assert(line.len() == 12);
    assert forall|i: int| 0 <= i < line.len() implies #[trigger] line[i] != '\t' && line[i]
        != '\n' by {
        if i >= 2 {
            assert(line[i] == spec_date_text(d)[i - 2]);
        }
    }
    lemma_tokenize_tab_free(line);
    assert(line[0] == '#');
    assert(!spec_is_ws(line[0]));
    lemma_first_non_ws(line);
    assert(crate::text::spec_first_non_ws(line) == 0);
    assert(spec_indent_of(line) == 0);
    let t = spec_tokenize_line(line);
    assert(t.content =~= line);
    assert(!spec_token_is_empty_line(t));
    assert(t.content[0] == '#' && t.content[1] == ' ');
    assert(t.content.skip(2) =~= spec_date_text(d));
    assert forall|i: int|
        0 <= i < spec_date_text(d).len() implies !spec_is_ws(#[trigger] spec_date_text(d)[i]) by {
    }
    assert(spec_trim_end(spec_date_text(d)) == spec_date_text(d)) by {
        assert(!spec_is_ws(spec_date_text(d).last()));
    }
    lemma_date_text_round_trip(d);
    assert(spec_try_date(t) == Some(d));
}

/// A canonical entry re-parses to itself from its own tokens.
pub proof fn lemma_entry_parses(e: SpecEntry)
    requires
        spec_entry_render_wf(e),
    ensures
        spec_entry_toks(e).len() >= 1,
        spec_entry_toks(e)[0].indent == 0,
        forall|i: int| 1 <= i < spec_entry_toks(e).len() ==> (#[trigger] spec_entry_toks(e)[i]).indent >= 1,
        forall|i: int|
            0 <= i < spec_entry_toks(e).len() ==> spec_classify(#[trigger] spec_entry_toks(e)[i])
                == SpecLine::Record(spec_entry_toks(e)[i]),
        spec_parse_entry(spec_entry_toks(e)) == e,
{
    let lines = spec_entry_lines_of(e);
    let toks = spec_entry_toks(e);
    lemma_split_lines_len(e.content);
    assert(toks.len() == lines.len());
    assert forall|i: int| 0 <= i < toks.len() implies #[trigger] toks[i] == (SpecTok {
        indent: spec_indent_of(lines[i]),
        content: lines[i].skip(spec_indent_of(lines[i])),
    }) by {
        assert(toks[i] == spec_tokenize_line(lines[i]));
        lemma_tokenize_tab_free(lines[i]);
    }
    assert(toks[0].indent == 0);
    assert forall|i: int| 0 <= i < toks.len() implies spec_classify(#[trigger] toks[i])
        == SpecLine::Record(toks[i]) by {
        if i == 0 {
            assert(spec_try_date(spec_tokenize_line(lines[0])) is None);
            lemma_stored_line_is_record(lines[i]);
        } else {
            lemma_stored_line_is_record(lines[i]);
        }
    }
    // the token contents are non-blank, so the least indentation is the
    // first token's zero
    assert forall|i: int| 0 <= i < toks.len() implies !spec_is_blank(
        (#[trigger] toks[i]).content,
    ) by {
        lemma_skip_indent_non_blank(lines[i]);
    }
    crate::log::lemma_min_indent_opt(toks);
    assert(spec_min_indent_opt(toks) is Some);
    assert(spec_min_indent_opt(toks)->0 <= 0) by {
        assert(!spec_is_blank(toks[0].content));
    }
    assert(spec_min_indent_opt(toks)->0 >= 0) by {
        let j = choose|j: int|
            0 <= j < toks.len() && !spec_is_blank((#[trigger] toks[j]).content) && toks[j].indent
                == spec_min_indent_opt(toks)->0;
        assert(toks[j].indent >= 0);
    }
    assert(spec_min_indent(toks) == 0);
    // dedenting reproduces each line
    assert forall|i: int| 0 <= i < toks.len() implies spec_entry_lines(toks)[i] == lines[i] by {
        assert(spec_entry_lines(toks)[i] == spec_dedent_token(toks[i], spec_min_indent(toks)));
        let ind = spec_indent_of(lines[i]);
        lemma_first_non_ws(lines[i]);
        assert(spec_spaces(toks[i].indent - 0) + toks[i].content =~= lines[i]);
    }
    assert(spec_entry_lines(toks) =~~= lines);
    lemma_join_split(e.content);
    assert(spec_entry_content(toks) == e.content);
    assert(spec_parse_entry(toks).main =~~= e.main);
    assert(spec_parse_entry(toks).related =~~= e.related);
}

/// The concatenated tokens of a run of entries.
pub open spec fn spec_entries_toks(es: Seq<SpecEntry>) -> Seq<SpecTok>
    decreases es.len(),
{
    if es.len() == 0 {
        Seq::empty()
    } else {
        spec_entry_toks(es[0]) + spec_entries_toks(es.drop_first())
    }
}

/// Grouping walks over the indented tokens of an open entry.
pub proof fn lemma_groups_indented(ts: Seq<SpecTok>, tail: Seq<SpecTok>, buf: Seq<SpecTok>, out: Seq<Seq<SpecTok>>)
    requires
        buf.len() > 0,
        forall|i: int| 0 <= i < ts.len() ==> (#[trigger] ts[i]).indent >= 1,
    ensures
        spec_day_groups(ts + tail, buf, out) == spec_day_groups(tail, buf + ts, out),
    decreases ts.len(),
{
    if ts.len() == 0 {
        assert(ts + tail =~= tail);
        assert(buf + ts =~= buf);
    } else {
        let s = ts + tail;
        assert(s[0] == ts[0]);
        assert(s.drop_first() =~= ts.drop_first() + tail);
        lemma_groups_indented(ts.drop_first(), tail, buf.push(ts[0]), out);
        assert(buf.push(ts[0]) + ts.drop_first() =~= buf + ts);
    }
}

/// Grouping closes a full entry in the buffer at each new opening token,
/// and at the end of the day.
pub proof fn lemma_groups_entries(es: Seq<SpecEntry>, buf: Seq<SpecTok>, out: Seq<Seq<SpecTok>>)
    requires
        buf.len() > 0,
        forall|j: int| 0 <= j < es.len() ==> spec_entry_render_wf(#[trigger] es[j]),
    ensures
        spec_day_groups(spec_entries_toks(es), buf, out) == out.push(buf) + es.map_values(
            |e: SpecEntry| spec_entry_toks(e),
        ),
    decreases es.len(),
{
    if es.len() == 0 {
        assert(spec_day_groups(spec_entries_toks(es), buf, out) == out.push(buf));
        assert(out.push(buf) + es.map_values(|e: SpecEntry| spec_entry_toks(e)) =~~= out.push(
            buf,
        ));
    } else {
        let toks0 = spec_entry_toks(es[0]);
        lemma_entry_parses(es[0]);
        let s = spec_entries_toks(es);
        assert(s == toks0 + spec_entries_toks(es.drop_first()));
        assert(s.len() > 0);
        assert(s[0] == toks0[0]);
        assert(s[0].indent == 0);
        // the head token closes the buffered entry and opens a new one
        assert(spec_day_groups(s, buf, out) == spec_day_groups(
            s.drop_first(),
            seq![s[0]],
            out.push(buf),
        ));
        assert(s.drop_first() =~= toks0.drop_first() + spec_entries_toks(es.drop_first()));
        assert(forall|i: int|
            0 <= i < toks0.drop_first().len() ==> (#[trigger] toks0.drop_first()[i]).indent >= 1);
        lemma_groups_indented(
            toks0.drop_first(),
            spec_entries_toks(es.drop_first()),
            seq![s[0]],
            out.push(buf),
        );
        assert(seq![s[0]] + toks0.drop_first() =~= toks0);
        lemma_groups_entries(es.drop_first(), toks0, out.push(buf));
        assert(out.push(buf).push(toks0) + es.drop_first().map_values(
            |e: SpecEntry| spec_entry_toks(e),
        ) =~~= out.push(buf) + es.map_values(|e: SpecEntry| spec_entry_toks(e)));
    }
}

/// A canonical day re-parses to itself from its entries' tokens.
pub proof fn lemma_day_parses(d: SpecDay)
    requires
        spec_day_render_wf(d),
    ensures
        spec_entries_toks(d.entries).len() > 0,
        spec_parse_day(d.date, spec_entries_toks(d.entries)) == d,
{
    let es = d.entries;
    let toks0 = spec_entry_toks(es[0]);
    lemma_entry_parses(es[0]);
    let s = spec_entries_toks(es);
    assert(s == toks0 + spec_entries_toks(es.drop_first()));
    assert(s.len() > 0);
    assert(s[0] == toks0[0]);
    // the first token opens the first entry with an empty buffer
    assert(spec_entry_groups(s) == spec_day_groups(
        s.drop_first(),
        Seq::<SpecTok>::empty().push(s[0]),
        Seq::empty(),
    ));
    assert(Seq::<SpecTok>::empty().push(s[0]) =~= seq![s[0]]);
    assert(s.drop_first() =~= toks0.drop_first() + spec_entries_toks(es.drop_first()));
    lemma_groups_indented(
        toks0.drop_first(),
        spec_entries_toks(es.drop_first()),
        seq![s[0]],
        Seq::empty(),
    );
    assert(seq![s[0]] + toks0.drop_first() =~= toks0);
    assert(forall|j: int|
        0 <= j < es.drop_first().len() ==> spec_entry_render_wf(#[trigger] es.drop_first()[j]));
    lemma_groups_entries(es.drop_first(), toks0, Seq::empty());
    assert(Seq::<Seq<SpecTok>>::empty().push(toks0) =~~= seq![toks0]);
    assert(spec_entry_groups(s) =~~= seq![toks0] + es.drop_first().map_values(
        |e: SpecEntry| spec_entry_toks(e),
    ));
    assert(spec_entry_groups(s) =~~= es.map_values(|e: SpecEntry| spec_entry_toks(e)));
    assert forall|j: int|
        0 <= j < es.len() implies #[trigger] spec_parse_day(d.date, s).entries[j] == es[j] by {
        assert(spec_entry_groups(s)[j] == spec_entry_toks(es[j]));
        lemma_entry_parses(es[j]);
    }
    assert(spec_parse_day(d.date, s).entries =~~= es);
}

/// The concatenated lines of a run of entries.
pub open spec fn spec_entries_lines(es: Seq<SpecEntry>) -> Seq<Seq<char>>
    decreases es.len(),
{
    if es.len() == 0 {
        Seq::empty()
    } else {
        spec_entry_lines_of(es[0]) + spec_entries_lines(es.drop_first())
    }
}

/// The lines of the joined entry contents are the entries' lines in
/// order.
pub proof fn lemma_entries_lines(es: Seq<SpecEntry>)
    requires
        es.len() >= 1,
    ensures
        spec_split_lines(spec_join(es.map_values(|e: SpecEntry| e.content), seq!['\n']))
            == spec_entries_lines(es),
    decreases es.len(),
{
    let parts = es.map_values(|e: SpecEntry| e.content);
    if es.len() == 1 {
        assert(spec_join(parts, seq!['\n']) == es[0].content);
        assert(spec_entries_lines(es.drop_first()) =~~= Seq::<Seq<char>>::empty());
        assert(spec_entries_lines(es) =~~= spec_entry_lines_of(es[0]));
    } else {
        assert(parts.drop_first() =~~= es.drop_first().map_values(|e: SpecEntry| e.content));
        assert(spec_join(parts, seq!['\n']) == es[0].content + seq!['\n'] + spec_join(
            parts.drop_first(),
            seq!['\n'],
        ));
        lemma_split_append(
            es[0].content,
            spec_join(es.drop_first().map_values(|e: SpecEntry| e.content), seq!['\n']),
        );
        lemma_entries_lines(es.drop_first());
    }
}

/// The entries' tokens are the tokens of their lines.
pub proof fn lemma_entries_toks_lines(es: Seq<SpecEntry>)
    ensures
        spec_entries_toks(es) == spec_entries_lines(es).map_values(
            |l: Seq<char>| spec_tokenize_line(l),
        ),
    decreases es.len(),
{
    if es.len() == 0 {
        assert(spec_entries_toks(es) =~~= spec_entries_lines(es).map_values(
            |l: Seq<char>| spec_tokenize_line(l),
        ));
    } else {
        lemma_entries_toks_lines(es.drop_first());
        assert(spec_entries_toks(es) =~~= spec_entries_lines(es).map_values(
            |l: Seq<char>| spec_tokenize_line(l),
        ));
    }
}

/// The lines of one rendered day: the header, a blank line, and the
/// entries' lines.
pub open spec fn spec_day_lines(d: SpecDay) -> Seq<Seq<char>> {
    seq![spec_header_line(d.date), Seq::<char>::empty()] + spec_entries_lines(d.entries)
}

/// Splitting one day's rendered text gives its lines.
pub proof fn lemma_day_lines(d: SpecDay)
    requires
        spec_day_render_wf(d),
    ensures
        spec_split_lines(crate::log::spec_render_day(d)) == spec_day_lines(d),
{
    let header = spec_header_line(d.date);
    let joined = spec_join(d.entries.map_values(|e: SpecEntry| e.content), seq!['\n']);
    assert(crate::log::spec_render_day(d) =~= header + seq!['\n'] + (seq!['\n'] + joined));
    lemma_header_line(d.date);
    lemma_split_append(header, seq!['\n'] + joined);
    crate::text::lemma_split_lines_single(header);
    assert(spec_split_lines(seq!['\n'] + joined) =~~= seq![Seq::<char>::empty()]
        + spec_split_lines(joined)) by {
        assert((seq!['\n'] + joined)[0] == '\n');
        assert((seq!['\n'] + joined).drop_first() =~= joined);
    }
    lemma_entries_lines(d.entries);
    assert(spec_split_lines(crate::log::spec_render_day(d)) =~~= spec_day_lines(d));
}

/// The lines that follow day `k - 1`'s entries: a blank separator and
/// the next day's lines for each later day, then the final blank line.
pub open spec fn spec_tail_lines(days: Seq<SpecDay>, k: int) -> Seq<Seq<char>>
    decreases days.len() - k + 1,
{
    if k < 0 || k >= days.len() {
        seq![Seq::<char>::empty()]
    } else {
        seq![Seq::<char>::empty()] + spec_day_lines(days[k]) + spec_tail_lines(days, k + 1)
    }
}

/// Splitting the joined rendered days from `k` on gives their lines
/// with blank separators.
pub proof fn lemma_join_days_lines(days: Seq<SpecDay>, k: int)
    requires
        spec_log_render_wf(days),
        0 <= k < days.len(),
    ensures
        spec_split_lines(
            spec_join(
                days.skip(k).map_values(|d: SpecDay| crate::log::spec_render_day(d)),
                seq!['\n', '\n'],
            ),
        ) + seq![Seq::<char>::empty()] == spec_day_lines(days[k]) + spec_tail_lines(days, k + 1),
    decreases days.len() - k,
{
    let parts = days.skip(k).map_values(|d: SpecDay| crate::log::spec_render_day(d));
    assert(days[k] == days.skip(k)[0]);
    if k == days.len() - 1 {
        assert(parts.len() == 1);
        assert(spec_join(parts, seq!['\n', '\n']) == crate::log::spec_render_day(days[k]));
        lemma_day_lines(days[k]);
        assert(spec_split_lines(spec_join(parts, seq!['\n', '\n'])) + seq![Seq::<char>::empty()]
            =~~= spec_day_lines(days[k]) + spec_tail_lines(days, k + 1));
    } else {
        assert(parts.len() >= 2);
        assert(parts.drop_first() =~~= days.skip(k + 1).map_values(
            |d: SpecDay| crate::log::spec_render_day(d),
        )) by {
            assert(forall|j: int|
                0 <= j < days.skip(k).drop_first().len() ==> #[trigger] days.skip(
                    k,
                ).drop_first()[j] == days.skip(k + 1)[j]);
        }
        let rest_join = spec_join(parts.drop_first(), seq!['\n', '\n']);
        assert(spec_join(parts, seq!['\n', '\n']) == parts[0] + seq!['\n', '\n'] + rest_join);
        assert(parts[0] + seq!['\n', '\n'] + rest_join =~= parts[0] + seq!['\n'] + (seq!['\n']
            + rest_join));
        lemma_split_append(parts[0], seq!['\n'] + rest_join);
        assert(spec_split_lines(seq!['\n'] + rest_join) =~~= seq![Seq::<char>::empty()]
            + spec_split_lines(rest_join)) by {
            assert((seq!['\n'] + rest_join)[0] == '\n');
            assert((seq!['\n'] + rest_join).drop_first() =~= rest_join);
        }
        lemma_day_lines(days[k]);
        lemma_join_days_lines(days, k + 1);
        let blank = seq![Seq::<char>::empty()];
        let lhs = spec_split_lines(spec_join(parts, seq!['\n', '\n']));
        assert(parts[0] == crate::log::spec_render_day(days[k]));
        assert(spec_split_lines(parts[0]) == spec_day_lines(days[k]));
        assert(lhs == spec_split_lines(parts[0]) + spec_split_lines(seq!['\n'] + rest_join));
        assert(lhs =~~= spec_day_lines(days[k]) + blank + spec_split_lines(rest_join));
        assert(spec_split_lines(rest_join) + blank =~~= spec_day_lines(days[k + 1])
            + spec_tail_lines(days, k + 2));
        assert(spec_tail_lines(days, k + 1) == blank + spec_day_lines(days[k + 1])
            + spec_tail_lines(days, k + 2));
        assert(lhs + blank =~~= spec_day_lines(days[k]) + blank + spec_split_lines(rest_join)
            + blank);
        assert(spec_day_lines(days[k]) + blank + spec_split_lines(rest_join) + blank
            =~~= spec_day_lines(days[k]) + blank + (spec_split_lines(rest_join) + blank));
        assert(lhs + blank =~~= spec_day_lines(days[k]) + spec_tail_lines(days, k + 1));
    }
}

/// The classified lines of a line list.
pub open spec fn spec_cls_of_lines(lines: Seq<Seq<char>>) -> Seq<SpecLine> {
    lines.map_values(|l: Seq<char>| spec_classify(spec_tokenize_line(l)))
}

/// The assembler buffers a run of record lines.
pub proof fn lemma_assemble_records(
    lines: Seq<Seq<char>>,
    rest: Seq<SpecLine>,
    cur: Option<Date>,
    buf: Seq<SpecTok>,
    out: Seq<SpecDay>,
)
    requires
        forall|i: int|
            0 <= i < lines.len() ==> spec_classify(spec_tokenize_line(#[trigger] lines[i]))
                == SpecLine::Record(spec_tokenize_line(lines[i])),
    ensures
        crate::log::spec_assemble(spec_cls_of_lines(lines) + rest, cur, buf, out)
            == crate::log::spec_assemble(
            rest,
            cur,
            buf + lines.map_values(|l: Seq<char>| spec_tokenize_line(l)),
            out,
        ),
    decreases lines.len(),
{
    let toks = lines.map_values(|l: Seq<char>| spec_tokenize_line(l));
    if lines.len() == 0 {
        assert(spec_cls_of_lines(lines) + rest =~= rest);
        assert(buf + toks =~= buf);
    } else {
        let s = spec_cls_of_lines(lines) + rest;
        assert(s[0] == spec_cls_of_lines(lines)[0]);
        assert(s[0] == SpecLine::Record(spec_tokenize_line(lines[0])));
        assert(s.drop_first() =~~= spec_cls_of_lines(lines.drop_first()) + rest) by {
            assert(forall|j: int|
                0 <= j < lines.drop_first().len() ==> #[trigger] lines.drop_first()[j] == lines[j
                    + 1]);
        }
        lemma_assemble_records(lines.drop_first(), rest, cur, buf.push(spec_tokenize_line(lines[0])), out);
        assert(buf.push(spec_tokenize_line(lines[0])) + lines.drop_first().map_values(
            |l: Seq<char>| spec_tokenize_line(l),
        ) =~~= buf + toks);
    }
}

/// The assembler buffers the lines of a run of canonical entries.
pub proof fn lemma_assemble_entries(
    es: Seq<SpecEntry>,
    rest: Seq<SpecLine>,
    cur: Option<Date>,
    buf: Seq<SpecTok>,
    out: Seq<SpecDay>,
)
    requires
        forall|j: int| 0 <= j < es.len() ==> spec_entry_render_wf(#[trigger] es[j]),
    ensures
        crate::log::spec_assemble(spec_cls_of_lines(spec_entries_lines(es)) + rest, cur, buf, out)
            == crate::log::spec_assemble(rest, cur, buf + spec_entries_toks(es), out),
    decreases es.len(),
{
    if es.len() == 0 {
        assert(spec_cls_of_lines(spec_entries_lines(es)) + rest =~= rest);
        assert(buf + spec_entries_toks(es) =~= buf);
    } else {
        let lines0 = spec_entry_lines_of(es[0]);
        lemma_entry_parses(es[0]);
        lemma_entries_toks_lines(es);
        assert(spec_cls_of_lines(spec_entries_lines(es)) + rest =~~= spec_cls_of_lines(lines0) + (
        spec_cls_of_lines(spec_entries_lines(es.drop_first())) + rest));
        assert forall|i: int|
            0 <= i < lines0.len() implies spec_classify(
            spec_tokenize_line(#[trigger] lines0[i]),
        ) == SpecLine::Record(spec_tokenize_line(lines0[i])) by {
            assert(spec_entry_toks(es[0])[i] == spec_tokenize_line(lines0[i]));
        }
        lemma_assemble_records(
            lines0,
            spec_cls_of_lines(spec_entries_lines(es.drop_first())) + rest,
            cur,
            buf,
            out,
        );
        lemma_assemble_entries(es.drop_first(), rest, cur, buf + spec_entry_toks(es[0]), out);
        assert(buf + spec_entry_toks(es[0]) + spec_entries_toks(es.drop_first()) =~~= buf
            + spec_entries_toks(es));
    }
}

/// The assembler turns the remaining days' lines, from day `k` on, into
/// the remaining days, closing the buffered day `k - 1` first.
pub proof fn lemma_assemble_days(days: Seq<SpecDay>, k: int, out: Seq<SpecDay>)
    requires
        spec_log_render_wf(days),
        1 <= k <= days.len(),
        out == days.take(k - 1),
    ensures
        crate::log::spec_assemble(
            spec_cls_of_lines(spec_tail_lines(days, k)),
            Some(days[k - 1].date),
            spec_entries_toks(days[k - 1].entries),
            out,
        ) == Some(days),
    decreases days.len() - k,
{
    let buf = spec_entries_toks(days[k - 1].entries);
    lemma_day_parses(days[k - 1]);
    if k == days.len() {
        let lines = spec_tail_lines(days, k);
        assert(lines =~~= seq![Seq::<char>::empty()]);
        let cls = spec_cls_of_lines(lines);
        assert(cls[0] == spec_classify(spec_tokenize_line(Seq::empty())));
        lemma_tokenize_tab_free(Seq::empty());
        assert(spec_indent_of(Seq::<char>::empty()) == 0);
        assert(Seq::<char>::empty().skip(0) =~= Seq::<char>::empty());
        assert(cls[0] is Empty);
        assert(cls.drop_first() =~= Seq::<SpecLine>::empty());
        assert(crate::log::spec_assemble(cls, Some(days[k - 1].date), buf, out)
            == crate::log::spec_assemble(
            Seq::empty(),
            Some(days[k - 1].date),
            buf,
            out,
        ));
        assert(buf.len() > 0);
        assert(crate::log::spec_assemble(
            Seq::<SpecLine>::empty(),
            Some(days[k - 1].date),
            buf,
            out,
        ) == Some(out.push(spec_parse_day(days[k - 1].date, buf))));
        assert(out.push(spec_parse_day(days[k - 1].date, buf)) =~~= days);
    } else {
        let lines = spec_tail_lines(days, k);
        assert(lines == seq![Seq::<char>::empty()] + spec_day_lines(days[k]) + spec_tail_lines(
            days,
            k + 1,
        ));
        let cls = spec_cls_of_lines(lines);
        // the blank separator line
        lemma_tokenize_tab_free(Seq::empty());
        assert(Seq::<char>::empty().skip(0) =~= Seq::<char>::empty());
        assert(cls[0] == spec_classify(spec_tokenize_line(lines[0])));
        assert(lines[0] =~= Seq::<char>::empty());
        assert(cls[0] is Empty);
        let after_blank = spec_cls_of_lines(
            spec_day_lines(days[k]) + spec_tail_lines(days, k + 1),
        );
        assert(cls.drop_first() =~~= after_blank) by {
            assert(forall|j: int|
                0 <= j < lines.drop_first().len() ==> #[trigger] lines.drop_first()[j] == lines[j
                    + 1]);
        }
        // the header line closes day k - 1 and opens day k
        lemma_header_line(days[k].date);
        assert(after_blank[0] == spec_classify(spec_tokenize_line(spec_header_line(days[k].date))))
            by {
            assert((spec_day_lines(days[k]) + spec_tail_lines(days, k + 1))[0]
                == spec_header_line(days[k].date));
        }
        assert(after_blank[0] == SpecLine::Date(days[k].date));
        assert(buf.len() > 0);
        let out2 = out.push(spec_parse_day(days[k - 1].date, buf));
        assert(out2 =~~= days.take(k));
        // the blank line under the header
        let after_header = after_blank.drop_first();
        assert((spec_day_lines(days[k]) + spec_tail_lines(days, k + 1))[1]
            =~= Seq::<char>::empty());
        assert(after_header[0] is Empty) by {
            assert(after_header[0] == spec_classify(
                spec_tokenize_line(
                    (spec_day_lines(days[k]) + spec_tail_lines(days, k + 1))[1],
                ),
            ));
        }
        let after_two = after_header.drop_first();
        assert(after_two =~~= spec_cls_of_lines(
            spec_entries_lines(days[k].entries) + spec_tail_lines(days, k + 1),
        )) by {
            let dl = spec_day_lines(days[k]) + spec_tail_lines(days, k + 1);
            assert(forall|j: int|
                0 <= j < dl.len() - 2 ==> #[trigger] dl[j + 2] == (spec_entries_lines(
                    days[k].entries,
                ) + spec_tail_lines(days, k + 1))[j]);
        }
        assert(spec_cls_of_lines(
            spec_entries_lines(days[k].entries) + spec_tail_lines(days, k + 1),
        ) =~~= spec_cls_of_lines(spec_entries_lines(days[k].entries)) + spec_cls_of_lines(
            spec_tail_lines(days, k + 1),
        ));
        lemma_assemble_entries(
            days[k].entries,
            spec_cls_of_lines(spec_tail_lines(days, k + 1)),
            Some(days[k].date),
            Seq::empty(),
            out2,
        );
        assert(Seq::<SpecTok>::empty() + spec_entries_toks(days[k].entries) =~~= spec_entries_toks(
            days[k].entries,
        ));
        lemma_assemble_days(days, k + 1, out2);
        // chain the machine steps: skip the separator, close day k - 1 at
        // the header, skip the blank line, buffer day k's entries
        assert(crate::log::spec_assemble(cls, Some(days[k - 1].date), buf, out)
            == crate::log::spec_assemble(after_blank, Some(days[k - 1].date), buf, out));
        assert(crate::log::spec_assemble(after_blank, Some(days[k - 1].date), buf, out)
            == crate::log::spec_assemble(after_header, Some(days[k].date), Seq::empty(), out2));
        assert(crate::log::spec_assemble(after_header, Some(days[k].date), Seq::empty(), out2)
            == crate::log::spec_assemble(after_two, Some(days[k].date), Seq::empty(), out2));
        assert(crate::log::spec_assemble(after_two, Some(days[k].date), Seq::empty(), out2)
            == crate::log::spec_assemble(
            spec_cls_of_lines(spec_entries_lines(days[k].entries)) + spec_cls_of_lines(
                spec_tail_lines(days, k + 1),
            ),
            Some(days[k].date),
            Seq::empty(),
            out2,
        ));
        assert(crate::log::spec_assemble(
            spec_cls_of_lines(spec_tail_lines(days, k + 1)),
            Some(days[k].date),
            spec_entries_toks(days[k].entries),
            out2,
        ) == Some(days));
    }
}

/// Law of round trip: parsing the rendered text of a canonical log
/// yields the log back, so rendering reproduces canonical-form text.
pub proof fn lemma_parse_render_round_trip(days: Seq<SpecDay>)
    requires
        spec_log_render_wf(days),
    ensures
        crate::log::spec_parse_log(crate::log::spec_render_log(days)) == Some(days),
{
    let text = crate::log::spec_render_log(days);
    assert(crate::log::spec_classified(text) =~~= spec_cls_of_lines(spec_split_lines(text)));
    lemma_tokenize_tab_free(Seq::empty());
    assert(Seq::<char>::empty().skip(0) =~= Seq::<char>::empty());
    if days.len() == 0 {
        let parts = days.map_values(|d: SpecDay| crate::log::spec_render_day(d));
        assert(parts.len() == 0);
        assert(spec_join(parts, seq!['\n', '\n']) =~= Seq::<char>::empty());
        assert(text =~= seq!['\n']);
        assert(spec_split_lines(text) =~~= seq![Seq::<char>::empty(), Seq::<char>::empty()]) by {
            assert(text[0] == '\n');
            assert(text.drop_first() =~= Seq::<char>::empty());
            assert(spec_split_lines(Seq::<char>::empty()) =~~= seq![Seq::<char>::empty()]);
        }
        let cls = spec_cls_of_lines(spec_split_lines(text));
        assert(cls[0] is Empty && cls[1] is Empty);
        assert(cls.drop_first()[0] is Empty);
        assert(cls.drop_first().drop_first() =~= Seq::<SpecLine>::empty());
        let e0 = Seq::<SpecTok>::empty();
        let d0 = Seq::<SpecDay>::empty();
        assert(crate::log::spec_assemble(cls, Option::None, e0, d0)
            == crate::log::spec_assemble(cls.drop_first(), Option::None, e0, d0));
        assert(crate::log::spec_assemble(cls.drop_first(), Option::None, e0, d0)
            == crate::log::spec_assemble(cls.drop_first().drop_first(), Option::None, e0, d0));
        assert(crate::log::spec_assemble(Seq::<SpecLine>::empty(), Option::None, e0, d0)
            == Some(d0));
        assert(crate::log::spec_parse_log(text) == Some(d0));
        assert(Some(d0) =~~= Some(days));
    } else {
        let joined = spec_join(
            days.map_values(|d: SpecDay| crate::log::spec_render_day(d)),
            seq!['\n', '\n'],
        );
        assert(days.skip(0) =~= days);
        assert(days.skip(0).map_values(|d: SpecDay| crate::log::spec_render_day(d))
            =~~= days.map_values(|d: SpecDay| crate::log::spec_render_day(d)));
        lemma_join_days_lines(days, 0);
        assert(text =~= joined + seq!['\n'] + Seq::<char>::empty());
        lemma_split_append(joined, Seq::empty());
        assert(spec_split_lines(Seq::<char>::empty()) =~~= seq![Seq::<char>::empty()]);
        assert(spec_split_lines(text) =~~= spec_day_lines(days[0]) + spec_tail_lines(days, 1));
        let cls = spec_cls_of_lines(spec_split_lines(text));
        // the header of day 0 activates its date on an empty buffer
        lemma_header_line(days[0].date);
        assert(cls[0] == SpecLine::Date(days[0].date)) by {
            assert(spec_split_lines(text)[0] == spec_header_line(days[0].date));
        }
        let after_header = cls.drop_first();
        assert(crate::log::spec_assemble(cls, Option::None, Seq::empty(), Seq::empty())
            == crate::log::spec_assemble(
            after_header,
            Some(days[0].date),
            Seq::empty(),
            Seq::empty(),
        ));
        assert(spec_split_lines(text)[1] =~= Seq::<char>::empty());
        assert(after_header[0] is Empty) by {
            assert(after_header[0] == spec_classify(spec_tokenize_line(spec_split_lines(text)[1])));
        }
        let after_two = after_header.drop_first();
        assert(after_two =~~= spec_cls_of_lines(
            spec_entries_lines(days[0].entries) + spec_tail_lines(days, 1),
        )) by {
            let all_lines = spec_split_lines(text);
            assert(forall|j: int|
                0 <= j < all_lines.len() - 2 ==> #[trigger] all_lines[j + 2] == (
                spec_entries_lines(days[0].entries) + spec_tail_lines(days, 1))[j]);
        }
        assert(spec_cls_of_lines(
            spec_entries_lines(days[0].entries) + spec_tail_lines(days, 1),
        ) =~~= spec_cls_of_lines(spec_entries_lines(days[0].entries)) + spec_cls_of_lines(
            spec_tail_lines(days, 1),
        ));
        lemma_assemble_entries(
            days[0].entries,
            spec_cls_of_lines(spec_tail_lines(days, 1)),
            Some(days[0].date),
            Seq::empty(),
            Seq::empty(),
        );
        assert(Seq::<SpecTok>::empty() + spec_entries_toks(days[0].entries)
            =~~= spec_entries_toks(days[0].entries));
        assert(days.take(0) =~~= Seq::<SpecDay>::empty());
        lemma_assemble_days(days, 1, Seq::empty());
    }
}

/// The round-trip law read on the text side: rendering the log that
/// canonical-form text parses to reproduces the text.
pub proof fn lemma_render_parse_round_trip(days: Seq<SpecDay>)
    requires
        spec_log_render_wf(days),
    ensures
        crate::log::spec_parse_log(crate::log::spec_render_log(days)) is Some,
        crate::log::spec_render_log(
            crate::log::spec_parse_log(crate::log::spec_render_log(days))->0,
        ) == crate::log::spec_render_log(days),
{
    lemma_parse_render_round_trip(days);
}

} // verus!
