//! Lines of a text, blank lines, and the line and character counts of a text.

use vstd::prelude::*;

verus! {

/// Whether `c` has the Unicode `White_Space` property.
pub open spec fn is_ws(c: char) -> bool {
    let u = c as u32;
    (0x9 <= u && u <= 0xd) || u == 0x20 || u == 0x85 || u == 0xa0 || u == 0x1680 || (0x2000 <= u
        && u <= 0x200a) || u == 0x2028 || u == 0x2029 || u == 0x202f || u == 0x205f || u == 0x3000
}

/// A line is blank when every character of it is white space.
pub open spec fn is_blank(l: Seq<char>) -> bool {
    forall|i: int| 0 <= i < l.len() ==> is_ws(#[trigger] l[i])
}

/// Number of white-space characters at the start of `s`.
pub open spec fn lead_ws(s: Seq<char>) -> nat
    decreases s.len(),
{
    if s.len() > 0 && is_ws(s[0]) {
        1 + lead_ws(s.drop_first())
    } else {
        0
    }
}

/// Number of white-space characters at the end of `s`.
pub open spec fn trail_ws(s: Seq<char>) -> nat
    decreases s.len(),
{
    if s.len() > 0 && is_ws(s.last()) {
        1 + trail_ws(s.drop_last())
    } else {
        0
    }
}

/// `s` without its leading and trailing white space.
pub open spec fn trimmed(s: Seq<char>) -> Seq<char> {
    if lead_ws(s) >= s.len() {
        Seq::empty()
    } else {
        s.subrange(lead_ws(s) as int, s.len() - trail_ws(s))
    }
}

/// `s` cut at every `'\n'`: the text before the first one, between each two, and after the
/// last one.
pub open spec fn pieces(s: Seq<char>) -> Seq<Seq<char>>
    decreases s.len(),
{
    if s.len() == 0 {
        seq![Seq::empty()]
    } else {
        let p = pieces(s.drop_last());
        if s.last() == '\n' {
            p.push(Seq::empty())
        } else {
            p.update(p.len() - 1, p.last().push(s.last()))
        }
    }
}

/// A terminated line loses the `'\r'` of a `"\r\n"` terminator.
pub open spec fn strip_cr(l: Seq<char>) -> Seq<char> {
    if l.len() > 0 && l.last() == '\r' {
        l.drop_last()
    } else {
        l
    }
}

/// The lines of a text: the text between line terminators (`"\n"` or `"\r\n"`), without the
/// terminators; a last fragment without a terminator is a line too, an empty text has none.
pub open spec fn lines_of(s: Seq<char>) -> Seq<Seq<char>> {
    let p = pieces(s);
    let ended = p.drop_last().map_values(|l: Seq<char>| strip_cr(l));
    if p.last().len() == 0 {
        ended
    } else {
        ended.push(p.last())
    }
}

/// Whether a line counts: every line does, unless blank lines are skipped and it is blank.
pub open spec fn line_counts(l: Seq<char>, skip_empty: bool) -> bool {
    !skip_empty || !is_blank(l)
}

/// Number of lines of `ls` that count.
pub open spec fn kept_lines(ls: Seq<Seq<char>>, skip_empty: bool) -> nat
    decreases ls.len(),
{
    if ls.len() == 0 {
        0
    } else {
        kept_lines(ls.drop_last(), skip_empty) + if line_counts(ls.last(), skip_empty) {
            1nat
        } else {
            0nat
        }
    }
}

/// Number of characters in the lines of `ls` that count.
pub open spec fn kept_chars(ls: Seq<Seq<char>>, skip_empty: bool) -> nat
    decreases ls.len(),
{
    if ls.len() == 0 {
        0
    } else {
        kept_chars(ls.drop_last(), skip_empty) + if line_counts(ls.last(), skip_empty) {
            ls.last().len()
        } else {
            0nat
        }
    }
}

/// The line count of a text.
pub open spec fn text_lines(s: Seq<char>, skip_empty: bool) -> nat {
    kept_lines(lines_of(s), skip_empty)
}

/// The character count of a text: zero unless characters are counted.
pub open spec fn text_chars(s: Seq<char>, skip_empty: bool, count_chars: bool) -> nat {
    if count_chars {
        kept_chars(lines_of(s), skip_empty)
    } else {
        0
    }
}

/// Relies on `str::lines`: the lines of the text, split as `lines_of` states.
#[verifier::external_body]
pub(crate) fn split_lines(s: &str) -> (r: Vec<String>)
    ensures
        r@.map_values(|l: String| l@) == lines_of(s@),
{
    s.lines().map(|l| l.to_string()).collect()
}

/// Relies on `str::trim`: removes leading and trailing `White_Space` characters.
#[verifier::external_body]
pub(crate) fn trim(s: &str) -> (r: &str)
    ensures
        r@ == trimmed(s@),
{
    s.trim()
}

/// Relies on `str::chars` and `Iterator::count`: the number of characters of the text.
#[verifier::external_body]
fn char_count(s: &str) -> (r: usize)
    ensures
        r == s@.len(),
{
    s.chars().count()
}

/// Total number of characters of the pieces of `ls`.
pub open spec fn total_len(ls: Seq<Seq<char>>) -> nat
    decreases ls.len(),
{
    if ls.len() == 0 {
        0
    } else {
        total_len(ls.drop_last()) + ls.last().len()
    }
}

proof fn lemma_lead_ws(s: Seq<char>)
    ensures
        lead_ws(s) <= s.len(),
        forall|j: int| 0 <= j < lead_ws(s) ==> is_ws(#[trigger] s[j]),
        lead_ws(s) < s.len() ==> !is_ws(s[lead_ws(s) as int]),
    decreases s.len(),
{
    if s.len() > 0 && is_ws(s[0]) {
        lemma_lead_ws(s.drop_first());
        assert forall|j: int| 0 <= j < lead_ws(s) implies is_ws(#[trigger] s[j]) by {
            if j > 0 {
                assert(s[j] == s.drop_first()[j - 1]);
            }
        }
    }
}

proof fn lemma_trail_ws(s: Seq<char>)
    ensures
        trail_ws(s) <= s.len(),
        forall|j: int| s.len() - trail_ws(s) <= j < s.len() ==> is_ws(#[trigger] s[j]),
    decreases s.len(),
{
    if s.len() > 0 && is_ws(s.last()) {
        lemma_trail_ws(s.drop_last());
        assert forall|j: int| s.len() - trail_ws(s) <= j < s.len() implies is_ws(#[trigger] s[j]) by {
            if j < s.len() - 1 {
                assert(s[j] == s.drop_last()[j]);
            }
        }
    }
}

/// A line trims to nothing exactly when it is blank.
pub proof fn lemma_trimmed_empty(l: Seq<char>)
    ensures
        (trimmed(l).len() == 0) == is_blank(l),
{
    lemma_lead_ws(l);
    lemma_trail_ws(l);
    if lead_ws(l) < l.len() {
        assert(!is_ws(l[lead_ws(l) as int]));
        assert(l.len() - trail_ws(l) > lead_ws(l));
    }
}

proof fn lemma_kept_bound(ls: Seq<Seq<char>>, skip_empty: bool)
    ensures
        kept_chars(ls, skip_empty) <= total_len(ls),
        kept_lines(ls, skip_empty) <= ls.len(),
    decreases ls.len(),
{
    if ls.len() > 0 {
        lemma_kept_bound(ls.drop_last(), skip_empty);
    }
}

proof fn lemma_kept_prefix(ls: Seq<Seq<char>>, skip_empty: bool, i: int, j: int)
    requires
        0 <= i <= j <= ls.len(),
    ensures
        kept_chars(ls.take(i), skip_empty) <= kept_chars(ls.take(j), skip_empty),
    decreases j - i,
{
    if i < j {
        lemma_kept_prefix(ls, skip_empty, i, j - 1);
        assert(ls.take(j).drop_last() =~= ls.take(j - 1));
    }
}

proof fn lemma_pieces(s: Seq<char>)
    ensures
        pieces(s).len() >= 1,
        total_len(pieces(s)) + pieces(s).len() == s.len() + 1,
        forall|k: int, j: int|
            0 <= k < pieces(s).len() && 0 <= j < pieces(s)[k].len() ==> #[trigger] pieces(
                s,
            )[k][j] != '\n',
    decreases s.len(),
{
    if s.len() == 0 {
        let e: Seq<Seq<char>> = seq![Seq::empty()];
        assert(e.drop_last() =~= Seq::<Seq<char>>::empty());
        assert(total_len(e) == total_len(e.drop_last()) + e.last().len());
    } else {
        let p = pieces(s.drop_last());
        lemma_pieces(s.drop_last());
        if s.last() == '\n' {
            assert(p.push(Seq::empty()).drop_last() =~= p);
            assert(total_len(p.push(Seq::empty())) == total_len(p));
        } else {
            let q = p.update(p.len() - 1, p.last().push(s.last()));
            assert(q.drop_last() =~= p.drop_last());
            assert(p.drop_last().push(p.last()) =~= p);
            assert(total_len(q) == total_len(q.drop_last()) + q.last().len());
            assert(total_len(p) == total_len(p.drop_last()) + p.last().len());
            assert forall|k: int, j: int|
                0 <= k < q.len() && 0 <= j < q[k].len() implies #[trigger] q[k][j] != '\n' by {
                if k < q.len() - 1 {
                    assert(q[k] == p[k]);
                } else if j < p.last().len() {
                    assert(q[k][j] == p[k][j]);
                }
            }
        }
    }
}

proof fn lemma_strip_total(ps: Seq<Seq<char>>)
    ensures
        total_len(ps.map_values(|l: Seq<char>| strip_cr(l))) <= total_len(ps),
    decreases ps.len(),
{
    if ps.len() > 0 {
        lemma_strip_total(ps.drop_last());
        assert(ps.map_values(|l: Seq<char>| strip_cr(l)).drop_last() =~= ps.drop_last().map_values(
            |l: Seq<char>| strip_cr(l),
        ));
    }
}

/// The characters of the lines of a text, added up, leave room for one terminator per line
/// break of the text.
pub proof fn lemma_lines_total(s: Seq<char>)
    ensures
        total_len(lines_of(s)) + pieces(s).len() <= s.len() + 1,
{
    let p = pieces(s);
    lemma_pieces(s);
    lemma_strip_total(p.drop_last());
    assert(p.drop_last().push(p.last()) =~= p);
    let ended = p.drop_last().map_values(|l: Seq<char>| strip_cr(l));
    assert(ended.push(p.last()).drop_last() =~= ended);
}

/// Counts the lines of `text`, and its characters when `count_chars` is set; with
/// `skip_empty` set, blank lines are left out of both counts.
pub fn count_text(text: &str, skip_empty: bool, count_chars: bool) -> (r: (usize, usize))
    ensures
        r.0 == text_lines(text@, skip_empty),
        r.1 == text_chars(text@, skip_empty, count_chars),
{
    let n = char_count(text);
    let lines = split_lines(text);
    let ghost ls = lines@.map_values(|l: String| l@);
    proof {
        lemma_lines_total(text@);
        lemma_pieces(text@);
        lemma_kept_bound(ls, skip_empty);
    }
    let mut line_total: usize = 0;
    let mut char_total: usize = 0;
    let mut i: usize = 0;
    while i < lines.len()
        invariant
            i <= lines.len(),
            ls == lines@.map_values(|l: String| l@),
            ls == lines_of(text@),
            kept_chars(ls, skip_empty) <= n,
            line_total == kept_lines(ls.take(i as int), skip_empty),
            char_total == kept_chars(ls.take(i as int), skip_empty),
            line_total <= i,
        decreases lines.len() - i,
    {
        let line = lines[i].as_str();
        proof {
            lemma_trimmed_empty(line@);
            assert(ls.take(i + 1).drop_last() =~= ls.take(i as int));
            lemma_kept_prefix(ls, skip_empty, i + 1, ls.len() as int);
            assert(ls.take(ls.len() as int) =~= ls);
        }
        if !skip_empty || !trim(line).is_empty() {
            line_total = line_total + 1;
            char_total = char_total + char_count(line);
        }
        i = i + 1;
    }
    proof {
        assert(ls.take(i as int) =~= ls);
    }
    if count_chars {
        (line_total, char_total)
    } else {
        (line_total, 0)
    }
}

/// Counting with blank lines skipped gives the number of non-blank lines; counting without
/// gives the number of non-blank lines plus the number of blank ones.
pub proof fn lemma_skip_counts(s: Seq<char>)
    ensures
        text_lines(s, true) == lines_of(s).filter(|l: Seq<char>| !is_blank(l)).len(),
        text_lines(s, false) == lines_of(s).filter(|l: Seq<char>| !is_blank(l)).len() + lines_of(
            s,
        ).filter(|l: Seq<char>| is_blank(l)).len(),
{
    lemma_kept_filter(lines_of(s));
}

proof fn lemma_kept_filter(ls: Seq<Seq<char>>)
    ensures
        kept_lines(ls, true) == ls.filter(|l: Seq<char>| !is_blank(l)).len(),
        kept_lines(ls, false) == ls.len(),
        ls.len() == ls.filter(|l: Seq<char>| !is_blank(l)).len() + ls.filter(
            |l: Seq<char>| is_blank(l),
        ).len(),
    decreases ls.len(),
{
    if ls.len() == 0 {
        reveal(Seq::filter);
    } else {
        let init = ls.drop_last();
        lemma_kept_filter(init);
        assert(init.push(ls.last()) =~= ls);
        init.lemma_filter_push(ls.last(), |l: Seq<char>| !is_blank(l));
        init.lemma_filter_push(ls.last(), |l: Seq<char>| is_blank(l));
    }
}

/// One line terminator after a last unterminated line adds no line.
pub proof fn lemma_no_phantom_line(s: Seq<char>)
    requires
        s.len() > 0,
        s.last() != '\n',
    ensures
        lines_of(s.push('\n')).len() == lines_of(s).len(),
        text_lines(s.push('\n'), false) == text_lines(s, false),
{
    let p = pieces(s);
    lemma_pieces(s.drop_last());
    assert(s.push('\n').drop_last() =~= s);
    assert(p.last().len() > 0);
    lemma_kept_filter(lines_of(s));
    lemma_kept_filter(lines_of(s.push('\n')));
}

proof fn lemma_pieces_newlines(s: Seq<char>)
    ensures
        pieces(s).len() == s.filter(|c: char| c == '\n').len() + 1,
    decreases s.len(),
{
    if s.len() == 0 {
        reveal(Seq::filter);
    } else {
        lemma_pieces_newlines(s.drop_last());
        assert(s.drop_last().push(s.last()) =~= s);
        s.drop_last().lemma_filter_push(s.last(), |c: char| c == '\n');
    }
}

/// No line holds a line terminator `'\n'`, and the characters counted in a text leave out one
/// character for each `'\n'` of it.
pub proof fn lemma_chars_exclude_terminators(s: Seq<char>, skip_empty: bool)
    ensures
        forall|k: int, j: int|
            0 <= k < lines_of(s).len() && 0 <= j < lines_of(s)[k].len() ==> #[trigger] lines_of(
                s,
            )[k][j] != '\n',
        text_chars(s, skip_empty, true) + s.filter(|c: char| c == '\n').len() <= s.len(),
{
    let p = pieces(s);
    lemma_pieces(s);
    lemma_pieces_newlines(s);
    lemma_lines_total(s);
    lemma_kept_bound(lines_of(s), skip_empty);
    assert forall|k: int, j: int|
        0 <= k < lines_of(s).len() && 0 <= j < lines_of(s)[k].len() implies #[trigger] lines_of(
        s,
    )[k][j] != '\n' by {
        assert(lines_of(s)[k][j] == p[k][j]);
    }
}

} // verus!
