//! Person mentions.
//!
//! A mention is a `#` character immediately followed by one or more name
//! letters; the letter run (without the `#`) is the person's name.  The
//! name letters are the ASCII letters and the accented Latin letters
//! n-tilde, a-acute, e-acute, i-acute, o-acute, u-acute and c-cedilla.

use vstd::prelude::*;

verus! {

/// Whether `c` may appear in a person's name.
pub open spec fn spec_is_name_char(c: char) -> bool {
    ('A' as u32 <= c as u32 && c as u32 <= 'Z' as u32) || ('a' as u32 <= c as u32 && c as u32
        <= 'z' as u32) || c == '\u{f1}' || c == '\u{e1}' || c == '\u{e9}' || c == '\u{ed}' || c
        == '\u{f3}' || c == '\u{fa}' || c == '\u{e7}'
}

pub fn is_name_char(c: char) -> (r: bool)
    ensures
        r == spec_is_name_char(c),
{
    ('A' <= c && c <= 'Z') || ('a' <= c && c <= 'z') || c == '\u{f1}' || c == '\u{e1}' || c
        == '\u{e9}' || c == '\u{ed}' || c == '\u{f3}' || c == '\u{fa}' || c == '\u{e7}'
}

/// The end of the name-letter run of `s` that starts at `i`: the first
/// position at or after `i` that is past the end or not a name letter.
pub open spec fn spec_run_end(s: Seq<char>, i: int) -> int
    decreases s.len() - i,
{
    if i < 0 || i >= s.len() {
        i
    } else if !spec_is_name_char(s[i]) {
        i
    } else {
        spec_run_end(s, i + 1)
    }
}

pub proof fn lemma_run_end(s: Seq<char>, i: int)
    requires
        0 <= i <= s.len(),
    ensures
        i <= spec_run_end(s, i) <= s.len(),
        forall|j: int| i <= j < spec_run_end(s, i) ==> spec_is_name_char(s[j]),
        spec_run_end(s, i) < s.len() ==> !spec_is_name_char(s[spec_run_end(s, i)]),
    decreases s.len() - i,
{
    if i < s.len() && spec_is_name_char(s[i]) {
        lemma_run_end(s, i + 1);
    }
}

/// Whether a mention starts at position `i` of `s`.
pub open spec fn spec_mention_at(s: Seq<char>, i: int) -> bool {
    &&& 0 <= i
    &&& i + 1 < s.len()
    &&& s[i] == '#'
    &&& spec_is_name_char(s[i + 1])
}

/// The name of the mention that starts at position `i` of `s`.
pub open spec fn spec_name_at(s: Seq<char>, i: int) -> Seq<char> {
    s.subrange(i + 1, spec_run_end(s, i + 1))
}

/// The names mentioned at or after position `i` of `s`, in order of first
/// occurrence, appended to the names `acc` (a name already in `acc` is not
/// appended again).
pub open spec fn spec_collect_mentions(s: Seq<char>, i: int, acc: Seq<Seq<char>>) -> Seq<
    Seq<char>,
>
    decreases s.len() - i + 1,
{
    if i < 0 || i >= s.len() {
        acc
    } else if spec_mention_at(s, i) && !acc.contains(spec_name_at(s, i)) {
        spec_collect_mentions(s, i + 1, acc.push(spec_name_at(s, i)))
    } else {
        spec_collect_mentions(s, i + 1, acc)
    }
}

/// The names mentioned in `s`, in order of first occurrence, each once.
pub open spec fn spec_mentions(s: Seq<char>) -> Seq<Seq<char>> {
    spec_collect_mentions(s, 0, Seq::empty())
}

/// A name is collected exactly when it is already in `acc` or mentioned at
/// or after `i`.
pub proof fn lemma_collect_mentions_contains_one(
    s: Seq<char>,
    i: int,
    acc: Seq<Seq<char>>,
    name: Seq<char>,
)
    requires
        0 <= i,
    ensures
        spec_collect_mentions(s, i, acc).contains(name) <==> (acc.contains(name) || exists|k: int|
            i <= k && #[trigger] spec_mention_at(s, k) && spec_name_at(s, k) == name),
    decreases s.len() - i + 1,
{
    if i >= s.len() {
        assert(forall|k: int| i <= k ==> !spec_mention_at(s, k));
    } else {
        let ni = spec_name_at(s, i);
        if spec_mention_at(s, i) && !acc.contains(ni) {
            let a2 = acc.push(ni);
            lemma_collect_mentions_contains_one(s, i + 1, a2, name);
            if spec_collect_mentions(s, i, acc).contains(name) {
                assert(spec_collect_mentions(s, i + 1, a2).contains(name));
                if a2.contains(name) {
                    let j = choose|j: int| 0 <= j < a2.len() && a2[j] == name;
                    if j < acc.len() {
                        assert(acc[j] == name);
                        assert(acc.contains(name));
                    } else {
                        assert(name == ni);
                        assert(i <= i && spec_mention_at(s, i) && spec_name_at(s, i) == name);
                    }
                } else {
                    let k = choose|k: int|
                        i + 1 <= k && #[trigger] spec_mention_at(s, k) && spec_name_at(s, k)
                            == name;
                    assert(i <= k && spec_mention_at(s, k) && spec_name_at(s, k) == name);
                }
            }
            if acc.contains(name) {
                let j = choose|j: int| 0 <= j < acc.len() && acc[j] == name;
                assert(a2[j] == name);
                assert(a2.contains(name));
                assert(spec_collect_mentions(s, i + 1, a2).contains(name));
            } else if exists|k: int|
                i <= k && #[trigger] spec_mention_at(s, k) && spec_name_at(s, k) == name {
                let k = choose|k: int|
                    i <= k && #[trigger] spec_mention_at(s, k) && spec_name_at(s, k) == name;
                if k == i {
                    assert(a2[acc.len() as int] == name);
                    assert(a2.contains(name));
                } else {
                    assert(i + 1 <= k && spec_mention_at(s, k) && spec_name_at(s, k) == name);
                }
                assert(spec_collect_mentions(s, i + 1, a2).contains(name));
            }
        } else {
            lemma_collect_mentions_contains_one(s, i + 1, acc, name);
            if spec_collect_mentions(s, i, acc).contains(name) && !acc.contains(name) {
                assert(spec_collect_mentions(s, i + 1, acc).contains(name));
                let k = choose|k: int|
                    i + 1 <= k && #[trigger] spec_mention_at(s, k) && spec_name_at(s, k) == name;
                assert(i <= k && spec_mention_at(s, k) && spec_name_at(s, k) == name);
            }
            if !acc.contains(name) && exists|k: int|
                i <= k && #[trigger] spec_mention_at(s, k) && spec_name_at(s, k) == name {
                let k = choose|k: int|
                    i <= k && #[trigger] spec_mention_at(s, k) && spec_name_at(s, k) == name;
                if k == i {
                    assert(acc.contains(ni));
                    assert(acc.contains(name));
                } else {
                    assert(i + 1 <= k && spec_mention_at(s, k) && spec_name_at(s, k) == name);
                }
                assert(spec_collect_mentions(s, i + 1, acc).contains(name));
            }
        }
    }
}

/// Collecting never removes a name, and keeps `acc` as a prefix.
pub proof fn lemma_collect_mentions_prefix(s: Seq<char>, i: int, acc: Seq<Seq<char>>)
    ensures
        spec_collect_mentions(s, i, acc).take(acc.len() as int) == acc,
        spec_collect_mentions(s, i, acc).len() >= acc.len(),
    decreases s.len() - i + 1,
{
    if i < 0 || i >= s.len() {
        assert(spec_collect_mentions(s, i, acc).take(acc.len() as int) =~= acc);
    } else if spec_mention_at(s, i) && !acc.contains(spec_name_at(s, i)) {
        let a2 = acc.push(spec_name_at(s, i));
        lemma_collect_mentions_prefix(s, i + 1, a2);
        assert(spec_collect_mentions(s, i + 1, a2).take(a2.len() as int) == a2);
        assert(spec_collect_mentions(s, i, acc).take(acc.len() as int) =~= acc);
    } else {
        lemma_collect_mentions_prefix(s, i + 1, acc);
    }
}

/// Whether two texts hold the same characters.
pub fn str_eq(a: &str, b: &str) -> (r: bool)
    ensures
        r == (a@ == b@),
{
    let na = a.unicode_len();
    let nb = b.unicode_len();
    if na != nb {
        return false;
    }
    let mut i: usize = 0;
    while i < na
        invariant
            na == a@.len(),
            na == b@.len(),
            i <= na,
            forall|j: int| 0 <= j < i ==> a@[j] == b@[j],
        decreases na - i,
    {
        if a.get_char(i) != b.get_char(i) {
            return false;
        }
        i = i + 1;
    }
    proof {
        assert(a@ =~= b@);
    }
    true
}

/// Whether one of the strings of `v` has the same text as `s`.
pub fn vec_contains_str(v: &Vec<String>, s: &str) -> (r: bool)
    ensures
        r == v.deep_view().contains(s@),
{
    let mut i: usize = 0;
    while i < v.len()
        invariant
            i <= v.len(),
            forall|j: int| 0 <= j < i ==> v.deep_view()[j] != s@,
        decreases v.len() - i,
    {
        if str_eq(v[i].as_str(), s) {
            proof {
                assert(v.deep_view()[i as int] == s@);
            }
            return true;
        }
        i = i + 1;
    }
    false
}

/// Appends to `out` the names mentioned in `s` that are not yet in `out`,
/// in order of first occurrence.
pub fn add_mentions(s: &str, out: &mut Vec<String>)
    ensures
        final(out).deep_view() == spec_collect_mentions(s@, 0, old(out).deep_view()),
{
    let n = s.unicode_len();
    let mut i: usize = 0;
    while i < n
        invariant
            n == s@.len(),
            i <= n,
            spec_collect_mentions(s@, 0, old(out).deep_view()) == spec_collect_mentions(
                s@,
                i as int,
                out.deep_view(),
            ),
        decreases n - i,
    {
        let ghost pre = out.deep_view();
        let c = s.get_char(i);
        let mut is_mention = false;
        if c == '#' && i + 1 < n {
            if is_name_char(s.get_char(i + 1)) {
                is_mention = true;
            }
        }
        if is_mention {
            let mut j = i + 1;
            let mut run_done = false;
            while !run_done && j < n
                invariant
                    n == s@.len(),
                    i + 1 <= j <= n,
                    forall|k: int| i + 1 <= k < j ==> spec_is_name_char(s@[k]),
                    run_done ==> j < n && !spec_is_name_char(s@[j as int]),
                decreases n - j, (if run_done {
                    0int
                } else {
                    1int
                }),
            {
                if is_name_char(s.get_char(j)) {
                    j = j + 1;
                } else {
                    run_done = true;
                }
            }
            proof {
                lemma_run_end(s@, i + 1);
                let e = spec_run_end(s@, i + 1);
                assert(!(j < e));
                assert(!(e < j));
            }
            let name = s.substring_char(i + 1, j);
            if !vec_contains_str(out, name) {
                out.push(String::from_str(name));
                proof {
                    assert(out.deep_view() =~= pre.push(spec_name_at(s@, i as int)));
                }
            }
        }
        proof {
            assert(spec_collect_mentions(s@, i as int, pre) == spec_collect_mentions(
                s@,
                i + 1,
                out.deep_view(),
            ));
        }
        i = i + 1;
    }
}

} // verus!
