//! Character-level text utilities for the log format: the whitespace set,
//! tab expansion, indentation measurement, and splitting and joining of
//! lines.

use vstd::prelude::*;

verus! {

/// The whitespace characters of the log grammar: space, tab, and carriage
/// return (so that files with CRLF line ends behave as LF files do).
pub open spec fn spec_is_ws(c: char) -> bool {
    c == ' ' || c == '\t' || c == '\r'
}

pub fn is_ws(c: char) -> (r: bool)
    ensures
        r == spec_is_ws(c),
{
    c == ' ' || c == '\t' || c == '\r'
}

/// `s` with every tab replaced by two spaces.
pub open spec fn spec_expand_tabs(s: Seq<char>) -> Seq<char>
    decreases s.len(),
{
    if s.len() == 0 {
        Seq::empty()
    } else {
        (if s[0] == '\t' {
            seq![' ', ' ']
        } else {
            seq![s[0]]
        }) + spec_expand_tabs(s.drop_first())
    }
}

pub proof fn lemma_expand_tabs_append(a: Seq<char>, b: Seq<char>)
    ensures
        spec_expand_tabs(a + b) == spec_expand_tabs(a) + spec_expand_tabs(b),
    decreases a.len(),
{
    if a.len() == 0 {
        assert(a + b =~= b);
        assert(spec_expand_tabs(a) + spec_expand_tabs(b) =~= spec_expand_tabs(b));
    } else {
        assert((a + b).drop_first() =~= a.drop_first() + b);
        lemma_expand_tabs_append(a.drop_first(), b);
        assert((a + b)[0] == a[0]);
        assert(spec_expand_tabs(a + b) =~= spec_expand_tabs(a) + spec_expand_tabs(b));
    }
}

/// A tab-free text is unchanged by tab expansion.
pub proof fn lemma_expand_tabs_identity(s: Seq<char>)
    requires
        forall|i: int| 0 <= i < s.len() ==> s[i] != '\t',
    ensures
        spec_expand_tabs(s) == s,
    decreases s.len(),
{
    if s.len() == 0 {
        assert(spec_expand_tabs(s) =~= s);
    } else {
        lemma_expand_tabs_identity(s.drop_first());
        assert(spec_expand_tabs(s) =~= s);
    }
}

/// Replaces each tab of `s` by two spaces.
pub fn expand_tabs(s: &str) -> (r: String)
    ensures
        r@ == spec_expand_tabs(s@),
{
    let n = s.unicode_len();
    let mut out = String::new();
    let mut i: usize = 0;
    proof {
        assert(s@.take(0) =~= Seq::<char>::empty());
    }
    while i < n
        invariant
            n == s@.len(),
            i <= n,
            out@ == spec_expand_tabs(s@.take(i as int)),
        decreases n - i,
    {
        let c = s.get_char(i);
        if c == '\t' {
            out.append("  ");
            proof {
                reveal_strlit("  ");
            }
        } else {
            let piece = s.substring_char(i, i + 1);
            out.append(piece);
        }
        proof {
            let pre = s@.take(i as int);
            let one = seq![s@[i as int]];
            assert(s@.take(i + 1) =~= pre + one);
            lemma_expand_tabs_append(pre, one);
            assert(one.drop_first() =~= Seq::<char>::empty());
            assert(spec_expand_tabs(Seq::<char>::empty()) == Seq::<char>::empty());
            if s@[i as int] == '\t' {
                assert(spec_expand_tabs(one) =~= seq![' ', ' ']);
            } else {
                assert(spec_expand_tabs(one) =~= seq![s@[i as int]]);
            }
            assert(s@.subrange(i as int, i + 1) =~= one);
            assert(out@ == spec_expand_tabs(s@.take(i + 1)));
        }
        i = i + 1;
    }
    proof {
        assert(s@.take(n as int) =~= s@);
    }
    out
}

/// The index of the first character of `s` that is not whitespace, or
/// `s.len()` if every character is.
pub open spec fn spec_first_non_ws(s: Seq<char>) -> int
    decreases s.len(),
{
    if s.len() == 0 {
        0
    } else if !spec_is_ws(s[0]) {
        0
    } else {
        1 + spec_first_non_ws(s.drop_first())
    }
}

pub proof fn lemma_first_non_ws(s: Seq<char>)
    ensures
        0 <= spec_first_non_ws(s) <= s.len(),
        forall|j: int| 0 <= j < spec_first_non_ws(s) ==> spec_is_ws(s[j]),
        spec_first_non_ws(s) < s.len() ==> !spec_is_ws(s[spec_first_non_ws(s)]),
    decreases s.len(),
{
    if s.len() == 0 {
    } else if !spec_is_ws(s[0]) {
    } else {
        lemma_first_non_ws(s.drop_first());
        assert forall|j: int| 0 <= j < spec_first_non_ws(s) implies spec_is_ws(s[j]) by {
            if j > 0 {
                assert(s[j] == s.drop_first()[j - 1]);
            }
        }
    }
}

/// Whether `s` consists of whitespace only (in particular, is empty).
pub open spec fn spec_is_blank(s: Seq<char>) -> bool {
    spec_first_non_ws(s) == s.len()
}

/// The indentation of a line: the position of its first non-whitespace
/// character, or zero for a line of whitespace only.
pub open spec fn spec_indent_of(s: Seq<char>) -> int {
    if spec_is_blank(s) {
        0
    } else {
        spec_first_non_ws(s)
    }
}

/// The position of the first non-whitespace character of `input`, or `0`
/// if there is none.
pub fn find_first_non_space(input: &str) -> (r: usize)
    ensures
        r == spec_indent_of(input@),
        r <= input@.len(),
{
    let n = input.unicode_len();
    let mut i: usize = 0;
    while i < n
        invariant
            n == input@.len(),
            i <= n,
            forall|j: int| 0 <= j < i ==> spec_is_ws(input@[j]),
        decreases n - i,
    {
        let c = input.get_char(i);
        if !is_ws(c) {
            proof {
                lemma_first_non_ws(input@);
                let k = spec_first_non_ws(input@);
                assert(!(i < k));
                assert(!(k < i));
            }
            return i;
        }
        i = i + 1;
    }
    proof {
        lemma_first_non_ws(input@);
        let k = spec_first_non_ws(input@);
        assert(!(k < n));
    }
    0
}

/// `s` divided at every newline.  A text of `n` newlines has `n + 1`
/// lines; the empty text has the single empty line.
pub open spec fn spec_split_lines(s: Seq<char>) -> Seq<Seq<char>>
    decreases s.len(),
{
    if s.len() == 0 {
        seq![Seq::<char>::empty()]
    } else if s[0] == '\n' {
        seq![Seq::<char>::empty()] + spec_split_lines(s.drop_first())
    } else {
        let rest = spec_split_lines(s.drop_first());
        seq![seq![s[0]] + rest[0]] + rest.drop_first()
    }
}

pub proof fn lemma_split_lines_len(s: Seq<char>)
    ensures
        spec_split_lines(s).len() >= 1,
    decreases s.len(),
{
    if s.len() == 0 {
    } else {
        lemma_split_lines_len(s.drop_first());
    }
}

/// A newline-free text is its own single line.
pub proof fn lemma_split_lines_single(s: Seq<char>)
    requires
        forall|i: int| 0 <= i < s.len() ==> s[i] != '\n',
    ensures
        spec_split_lines(s) == seq![s],
    decreases s.len(),
{
    if s.len() == 0 {
        assert(spec_split_lines(s) =~~= seq![s]);
    } else {
        assert(forall|i: int|
            0 <= i < s.drop_first().len() ==> #[trigger] s.drop_first()[i] == s[i + 1]);
        lemma_split_lines_single(s.drop_first());
        assert(seq![s[0]] + s.drop_first() =~= s);
        assert(spec_split_lines(s) =~~= seq![s]);
    }
}

/// Splitting `head + '\n' + tail` yields the newline-free `head` as the
/// first line, followed by the lines of `tail`.
pub proof fn lemma_split_lines_step(head: Seq<char>, tail: Seq<char>)
    requires
        forall|i: int| 0 <= i < head.len() ==> head[i] != '\n',
    ensures
        spec_split_lines(head + seq!['\n'] + tail) == seq![head] + spec_split_lines(tail),
    decreases head.len(),
{
    let s = head + seq!['\n'] + tail;
    if head.len() == 0 {
        assert(s[0] == '\n');
        assert(s.drop_first() =~= tail);
        assert(spec_split_lines(s) =~~= seq![head] + spec_split_lines(tail));
    } else {
        assert(s[0] == head[0]);
        assert(s[0] != '\n');
        assert(s.drop_first() =~= head.drop_first() + seq!['\n'] + tail);
        lemma_split_lines_step(head.drop_first(), tail);
        let rest = spec_split_lines(s.drop_first());
        assert(rest == seq![head.drop_first()] + spec_split_lines(tail));
        lemma_split_lines_len(tail);
        assert(rest[0] == head.drop_first());
        assert(seq![s[0]] + rest[0] =~= head);
        assert(rest.drop_first() =~= spec_split_lines(tail));
        assert(spec_split_lines(s) =~~= seq![head] + spec_split_lines(tail));
    }
}

/// Splitting around a newline splits the two sides separately.
pub proof fn lemma_split_append(a: Seq<char>, b: Seq<char>)
    ensures
        spec_split_lines(a + seq!['\n'] + b) == spec_split_lines(a) + spec_split_lines(b),
    decreases a.len(),
{
    let s = a + seq!['\n'] + b;
    if a.len() == 0 {
        assert(s[0] == '\n');
        assert(s.drop_first() =~= b);
        assert(spec_split_lines(a) =~~= seq![Seq::<char>::empty()]);
        assert(spec_split_lines(s) =~~= spec_split_lines(a) + spec_split_lines(b));
    } else {
        assert(s[0] == a[0]);
        assert(s.drop_first() =~= a.drop_first() + seq!['\n'] + b);
        lemma_split_append(a.drop_first(), b);
        lemma_split_lines_len(a.drop_first());
        lemma_split_lines_len(b);
        if a[0] == '\n' {
            assert(spec_split_lines(s) =~~= spec_split_lines(a) + spec_split_lines(b));
        } else {
            let restdrop = spec_split_lines(a.drop_first() + seq!['\n'] + b);
            assert(restdrop == spec_split_lines(a.drop_first()) + spec_split_lines(b));
            assert(restdrop[0] == spec_split_lines(a.drop_first())[0]);
            assert(restdrop.drop_first() =~~= spec_split_lines(a.drop_first()).drop_first()
                + spec_split_lines(b));
            assert(spec_split_lines(s) =~~= spec_split_lines(a) + spec_split_lines(b));
        }
    }
}

/// Joining a text's lines with newlines gives the text back.
pub proof fn lemma_join_split(c: Seq<char>)
    ensures
        spec_join(spec_split_lines(c), seq!['\n']) == c,
    decreases c.len(),
{
    if c.len() == 0 {
        assert(spec_join(spec_split_lines(c), seq!['\n']) =~= c);
    } else if c[0] == '\n' {
        lemma_join_split(c.drop_first());
        lemma_split_lines_len(c.drop_first());
        let parts = spec_split_lines(c);
        assert(parts.len() >= 2);
        assert(parts[0] =~= Seq::<char>::empty());
        assert(parts.drop_first() =~~= spec_split_lines(c.drop_first()));
        assert(spec_join(parts, seq!['\n']) =~= c);
    } else {
        lemma_join_split(c.drop_first());
        lemma_split_lines_len(c.drop_first());
        let rest = spec_split_lines(c.drop_first());
        let parts = spec_split_lines(c);
        assert(parts[0] == seq![c[0]] + rest[0]);
        assert(parts.drop_first() =~~= rest.drop_first());
        if rest.len() == 1 {
            assert(parts.len() == 1);
            assert(spec_join(rest, seq!['\n']) == rest[0]);
            assert(spec_join(parts, seq!['\n']) =~= c);
        } else {
            assert(parts.len() >= 2);
            assert(spec_join(parts, seq!['\n']) == parts[0] + seq!['\n'] + spec_join(
                parts.drop_first(),
                seq!['\n'],
            ));
            assert(spec_join(rest, seq!['\n']) == rest[0] + seq!['\n'] + spec_join(
                rest.drop_first(),
                seq!['\n'],
            ));
            assert(spec_join(parts.drop_first(), seq!['\n']) == spec_join(
                rest.drop_first(),
                seq!['\n'],
            ));
            assert(c =~= seq![c[0]] + c.drop_first());
            assert(spec_join(parts, seq!['\n']) =~= c);
        }
    }
}

/// The parts joined with the separator between consecutive parts.
pub open spec fn spec_join(parts: Seq<Seq<char>>, sep: Seq<char>) -> Seq<char>
    decreases parts.len(),
{
    if parts.len() == 0 {
        Seq::<char>::empty()
    } else if parts.len() == 1 {
        parts[0]
    } else {
        parts[0] + sep + spec_join(parts.drop_first(), sep)
    }
}

pub proof fn lemma_join_push(parts: Seq<Seq<char>>, sep: Seq<char>, last: Seq<char>)
    requires
        parts.len() >= 1,
    ensures
        spec_join(parts.push(last), sep) == spec_join(parts, sep) + sep + last,
    decreases parts.len(),
{
    if parts.len() == 1 {
        let p = parts.push(last);
        assert(p.len() == 2);
        assert(p[0] == parts[0]);
        assert(p.drop_first() =~= seq![last]);
        assert(spec_join(p, sep) == p[0] + sep + spec_join(p.drop_first(), sep));
        assert(spec_join(seq![last], sep) == last);
    } else {
        assert(parts.push(last).drop_first() =~= parts.drop_first().push(last));
        lemma_join_push(parts.drop_first(), sep, last);
        assert(spec_join(parts.push(last), sep) =~= spec_join(parts, sep) + sep + last);
    }
}

/// Splits `s` into its lines.
pub fn split_lines(s: &str) -> (r: Vec<String>)
    ensures
        r.deep_view() == spec_split_lines(s@),
        r.len() >= 1,
{
    let n = s.unicode_len();
    let mut out: Vec<String> = Vec::new();
    let mut start: usize = 0;
    let mut i: usize = 0;
    proof {
        assert(s@.skip(0) =~= s@);
        assert(out.deep_view() + spec_split_lines(s@) =~= spec_split_lines(s@));
    }
    while i < n
        invariant
            n == s@.len(),
            start <= i <= n,
            forall|j: int| start <= j < i ==> s@[j] != '\n',
            spec_split_lines(s@) == out.deep_view() + spec_split_lines(s@.skip(start as int)),
        decreases n - i,
    {
        let c = s.get_char(i);
        if c == '\n' {
            let line = String::from_str(s.substring_char(start, i));
            out.push(line);
            proof {
                let head = s@.subrange(start as int, i as int);
                let tail = s@.skip(i + 1);
                assert(s@.skip(start as int) =~= head + seq!['\n'] + tail);
                lemma_split_lines_step(head, tail);
                assert(out.deep_view() =~= out.deep_view().drop_last().push(head));
                assert(out.deep_view().drop_last() + (seq![head] + spec_split_lines(tail))
                    =~= out.deep_view() + spec_split_lines(tail));
            }
            start = i + 1;
        }
        i = i + 1;
    }
    let line = String::from_str(s.substring_char(start, n));
    out.push(line);
    proof {
        let head = s@.subrange(start as int, n as int);
        assert(head =~= s@.skip(start as int));
        lemma_split_lines_single(head);
        assert(out.deep_view() =~= out.deep_view().drop_last().push(head));
        assert(out.deep_view().drop_last() + seq![head] =~= out.deep_view());
        assert(out.deep_view() == spec_split_lines(s@));
    }
    out
}

/// Lexicographic order on texts, by character code.
pub open spec fn spec_text_le(a: Seq<char>, b: Seq<char>) -> bool
    decreases a.len(),
{
    if a.len() == 0 {
        true
    } else if b.len() == 0 {
        false
    } else if (a[0] as u32) < (b[0] as u32) {
        true
    } else if (a[0] as u32) > (b[0] as u32) {
        false
    } else {
        spec_text_le(a.drop_first(), b.drop_first())
    }
}

/// Texts with a common prefix compare as their remainders do.
pub proof fn lemma_text_le_skip(a: Seq<char>, b: Seq<char>, i: int)
    requires
        0 <= i <= a.len(),
        i <= b.len(),
        forall|j: int| 0 <= j < i ==> a[j] == b[j],
    ensures
        spec_text_le(a, b) == spec_text_le(a.skip(i), b.skip(i)),
    decreases i,
{
    if i == 0 {
        assert(a.skip(0) =~= a);
        assert(b.skip(0) =~= b);
    } else {
        assert(a[0] == b[0]);
        assert(forall|j: int|
            0 <= j < i - 1 ==> a.drop_first()[j] == #[trigger] b.drop_first()[j]);
        lemma_text_le_skip(a.drop_first(), b.drop_first(), i - 1);
        assert(a.drop_first().skip(i - 1) =~= a.skip(i));
        assert(b.drop_first().skip(i - 1) =~= b.skip(i));
    }
}

/// The order is total.
pub proof fn lemma_text_le_total(a: Seq<char>, b: Seq<char>)
    ensures
        spec_text_le(a, b) || spec_text_le(b, a),
    decreases a.len(),
{
    if a.len() > 0 && b.len() > 0 && (a[0] as u32) == (b[0] as u32) {
        lemma_text_le_total(a.drop_first(), b.drop_first());
    }
}

/// The order is transitive.
pub proof fn lemma_text_le_trans(a: Seq<char>, b: Seq<char>, c: Seq<char>)
    requires
        spec_text_le(a, b),
        spec_text_le(b, c),
    ensures
        spec_text_le(a, c),
    decreases a.len(),
{
    if a.len() > 0 {
        assert(b.len() > 0);
        assert(c.len() > 0);
        if (a[0] as u32) < (c[0] as u32) {
        } else {
            lemma_text_le_trans(a.drop_first(), b.drop_first(), c.drop_first());
        }
    }
}

/// Whether `a` is at or before `b` in lexicographic order.
pub fn str_le(a: &str, b: &str) -> (r: bool)
    ensures
        r == spec_text_le(a@, b@),
{
    let na = a.unicode_len();
    let nb = b.unicode_len();
    let mut i: usize = 0;
    while i < na && i < nb
        invariant
            na == a@.len(),
            nb == b@.len(),
            i <= na,
            i <= nb,
            forall|j: int| 0 <= j < i ==> a@[j] == b@[j],
        decreases na - i,
    {
        let ca = a.get_char(i);
        let cb = b.get_char(i);
        if ca != cb {
            proof {
                lemma_text_le_skip(a@, b@, i as int);
                assert(a@.skip(i as int)[0] == a@[i as int]);
                assert(b@.skip(i as int)[0] == b@[i as int]);
            }
            return (ca as u32) < (cb as u32);
        }
        i = i + 1;
    }
    proof {
        if na <= nb {
            lemma_text_le_skip(a@, b@, na as int);
            assert(a@.skip(na as int).len() == 0);
        } else {
            lemma_text_le_skip(a@, b@, nb as int);
            assert(b@.skip(nb as int).len() == 0);
            assert(a@.skip(nb as int).len() > 0);
        }
    }
    na <= nb
}

/// Joins `parts` with the separator `sep`.
pub fn join_with(parts: &Vec<String>, sep: &str) -> (r: String)
    ensures
        r@ == spec_join(parts.deep_view(), sep@),
{
    let mut out = String::new();
    let mut i: usize = 0;
    while i < parts.len()
        invariant
            i <= parts.len(),
            out@ == spec_join(parts.deep_view().take(i as int), sep@),
        decreases parts.len() - i,
    {
        if i > 0 {
            out.append(sep);
        }
        out.append(parts[i].as_str());
        proof {
            let pre = parts.deep_view().take(i as int);
            assert(parts.deep_view().take(i + 1) =~= pre.push(parts.deep_view()[i as int]));
            if i > 0 {
                lemma_join_push(pre, sep@, parts.deep_view()[i as int]);
            } else {
                assert(pre.push(parts.deep_view()[i as int]).len() == 1);
            }
        }
        i = i + 1;
    }
    proof {
        assert(parts.deep_view().take(parts.len() as int) =~= parts.deep_view());
    }
    out
}

} // verus!
