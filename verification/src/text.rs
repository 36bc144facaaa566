//! Text helpers: characters, white space, trimming, and the lines of a
//! partition's content.

use vstd::prelude::*;
use crate::seqs::views;

verus! {

/// Whether `c` is white space: a character with the Unicode property
/// `White_Space`.
pub open spec fn is_space(c: char) -> bool {
    ||| '\u{9}' <= c <= '\u{d}'
    ||| c == ' '
    ||| c == '\u{85}'
    ||| c == '\u{a0}'
    ||| c == '\u{1680}'
    ||| '\u{2000}' <= c <= '\u{200a}'
    ||| c == '\u{2028}'
    ||| c == '\u{2029}'
    ||| c == '\u{202f}'
    ||| c == '\u{205f}'
    ||| c == '\u{3000}'
}

/// How many characters of `s`, from position `from` on, are white space
/// before the first that is not.
pub open spec fn leading_spaces(s: Seq<char>, from: int) -> nat
    decreases s.len() - from,
{
    if 0 <= from < s.len() && is_space(s[from]) {
        1 + leading_spaces(s, from + 1)
    } else {
        0
    }
}

/// How many characters of `s`, from position `to` back, are white space
/// before the first that is not.
pub open spec fn trailing_spaces(s: Seq<char>, to: int) -> nat
    decreases to,
{
    if 0 < to <= s.len() && is_space(s[to - 1]) {
        1 + trailing_spaces(s, to - 1)
    } else {
        0
    }
}

/// `s` without the white space at its start and at its end.
pub open spec fn trimmed(s: Seq<char>) -> Seq<char> {
    let lead = leading_spaces(s, 0);
    let trail = trailing_spaces(s, s.len() as int);
    if lead + trail >= s.len() {
        Seq::empty()
    } else {
        s.subrange(lead as int, s.len() - trail)
    }
}

/// Whether `s` holds nothing but white space.
pub open spec fn is_blank(s: Seq<char>) -> bool {
    trimmed(s).len() == 0
}

/// The place of the first line feed of `s` at or after `from`; the length
/// of `s` where there is none.
pub open spec fn line_end(s: Seq<char>, from: int) -> int
    decreases s.len() - from,
{
    if from < 0 || from >= s.len() {
        s.len() as int
    } else if s[from] == '\n' {
        from
    } else {
        line_end(s, from + 1)
    }
}

/// `line` without the carriage return at its end, if it has one there.
pub open spec fn without_cr(line: Seq<char>) -> Seq<char> {
    if line.len() > 0 && line.last() == '\r' {
        line.drop_last()
    } else {
        line
    }
}

/// The lines of `s` from position `from` on that are not blank. A line ends
/// at a line feed, or at a carriage return and a line feed; neither belongs
/// to the line. The last line needs no line feed.
pub open spec fn record_lines_from(s: Seq<char>, from: int) -> Seq<Seq<char>>
    decreases s.len() - from,
{
    if from < 0 || from >= s.len() {
        Seq::empty()
    } else {
        let end = line_end(s, from);
        let line = if end < s.len() {
            without_cr(s.subrange(from, end))
        } else {
            s.subrange(from, end)
        };
        let rest = if from <= end < s.len() {
            record_lines_from(s, end + 1)
        } else {
            Seq::empty()
        };
        if is_blank(line) {
            rest
        } else {
            seq![line] + rest
        }
    }
}

/// The search for the end of a line goes on over characters that are no
/// line feed.
proof fn lemma_line_end_after(s: Seq<char>, from: int, upto: int)
    requires
        0 <= from <= upto <= s.len(),
        forall|i: int| from <= i < upto ==> s[i] != '\n',
    ensures
        line_end(s, from) == line_end(s, upto),
    decreases upto - from,
{
    if from < upto {
        lemma_line_end_after(s, from + 1, upto);
    }
}

/// The end of a line lies at or after its start, at a line feed or at the
/// end of the text, and no line feed lies before it.
proof fn lemma_line_end_found(s: Seq<char>, from: int)
    requires
        0 <= from <= s.len(),
    ensures
        from <= line_end(s, from) <= s.len(),
        line_end(s, from) < s.len() ==> s[line_end(s, from)] == '\n',
        forall|i: int| from <= i < line_end(s, from) ==> s[i] != '\n',
    decreases s.len() - from,
{
    if from < s.len() && s[from] != '\n' {
        lemma_line_end_found(s, from + 1);
    }
}

/// What is appended to a text that ends its last line reads back after the
/// lines that the text held.
proof fn lemma_lines_of_longer(content: Seq<char>, record: Seq<char>, from: int)
    requires
        0 <= from <= content.len(),
        content.len() == 0 || content.last() == '\n',
        !is_blank(record),
        forall|i: int| 0 <= i < record.len() ==> record[i] != '\n',
        record.len() > 0 ==> record.last() != '\r',
    ensures
        record_lines_from(content + record + seq!['\n'], from) == record_lines_from(
            content,
            from,
        ).push(record),
    decreases content.len() - from,
{
    let longer = content + record + seq!['\n'];
    let n = content.len() as int;
    if from == n {
        assert(record.len() > 0) by {
            if record.len() == 0 {
                assert(trimmed(record).len() == 0);
            }
        }
        lemma_line_end_after(longer, n, n + record.len());
        assert(longer[n + record.len()] == '\n');
        assert(line_end(longer, n) == n + record.len());
        assert(longer.subrange(n, n + record.len()) =~= record);
        assert(without_cr(record) == record);
        assert(record_lines_from(longer, n + record.len() + 1) =~= Seq::<Seq<char>>::empty());
        assert(record_lines_from(content, n) =~= Seq::<Seq<char>>::empty());
        assert(seq![record] + Seq::<Seq<char>>::empty() =~= Seq::<Seq<char>>::empty().push(
            record,
        ));
    } else {
        lemma_line_end_found(content, from);
        let end = line_end(content, from);
        assert(end < n) by {
            if end >= n {
                assert(content[n - 1] == '\n');
            }
        }
        assert forall|i: int| from <= i < end implies longer[i] != '\n' by {
            assert(longer[i] == content[i]);
        }
        lemma_line_end_after(longer, from, end);
        assert(longer[end] == content[end]);
        assert(line_end(longer, from) == end);
        assert(longer.subrange(from, end) =~= content.subrange(from, end));
        lemma_lines_of_longer(content, record, end + 1);
        let line = without_cr(content.subrange(from, end));
        let rest = record_lines_from(content, end + 1);
        if !is_blank(line) {
            assert(seq![line] + rest.push(record) =~= (seq![line] + rest).push(record));
        }
    }
}

/// A record that is written to the end of a partition reads back as its
/// last record: the lines of the content and the line of the record are
/// the lines that the content held, and the record. This holds of a record
/// that is not blank, holds no line feed and does not end in a carriage
/// return, and of a content that is empty or ends in a line feed.
pub proof fn lemma_appended_record_reads_back(content: Seq<char>, record: Seq<char>)
    requires
        content.len() == 0 || content.last() == '\n',
        !is_blank(record),
        forall|i: int| 0 <= i < record.len() ==> record[i] != '\n',
        record.len() > 0 ==> record.last() != '\r',
    ensures
        record_lines_from(content + record + seq!['\n'], 0) == record_lines_from(content, 0).push(
            record,
        ),
{
    lemma_lines_of_longer(content, record, 0);
}

/// `base` with `name` below it, as a path: a separator stands between the
/// two unless `base` is empty or ends in one.
pub open spec fn joined(base: Seq<char>, name: Seq<char>) -> Seq<char> {
    if base.len() == 0 || base.last() == '/' {
        base + name
    } else {
        base + seq!['/'] + name
    }
}

/// Whether `c` is white space.
pub fn is_whitespace(c: char) -> (r: bool)
    ensures
        r == is_space(c),
{
    ('\u{9}' <= c && c <= '\u{d}') || c == ' ' || c == '\u{85}' || c == '\u{a0}' || c
        == '\u{1680}' || ('\u{2000}' <= c && c <= '\u{200a}') || c == '\u{2028}' || c
        == '\u{2029}' || c == '\u{202f}' || c == '\u{205f}' || c == '\u{3000}'
}

/// The characters of `s`, in order.
pub fn chars_of(s: &str) -> (v: Vec<char>)
    ensures
        v@ == s@,
{
    let mut v: Vec<char> = Vec::new();
    for c in it: s.chars()
        invariant
            it.seq() == s@,
            v@ == s@.take(it.index() as int),
    {
        v.push(c);
    }
    v
}

/// Whether two texts are the same, character by character.
pub fn same_text(a: &str, b: &str) -> (r: bool)
    ensures
        r == (a@ == b@),
{
    let x = a.to_owned();
    let y = b.to_owned();
    x == y
}

/// The part of `chars[from..to]` that is left once the white space at both
/// ends is taken away: where it begins and where it ends.
fn trimmed_span(chars: &Vec<char>, from: usize, to: usize) -> (r: (usize, usize))
    requires
        from <= to <= chars.len(),
    ensures
        from <= r.0 <= r.1 <= to,
        chars@.subrange(r.0 as int, r.1 as int) == trimmed(chars@.subrange(from as int, to as int)),
{
    let ghost s = chars@.subrange(from as int, to as int);
    let mut start: usize = from;
    while start < to && is_whitespace(chars[start])
        invariant
            from <= start <= to <= chars.len(),
            s == chars@.subrange(from as int, to as int),
            leading_spaces(s, 0) == (start - from) + leading_spaces(s, start - from),
        decreases to - start,
    {
        start += 1;
    }
    let mut end: usize = to;
    while end > start && is_whitespace(chars[end - 1])
        invariant
            from <= start <= end <= to <= chars.len(),
            s == chars@.subrange(from as int, to as int),
            trailing_spaces(s, s.len() as int) == (to - end) + trailing_spaces(s, end - from),
            start < to ==> end > start && !is_space(chars@[start as int]),
        decreases end,
    {
        end -= 1;
    }
    proof {
        let lead = leading_spaces(s, 0);
        let trail = trailing_spaces(s, s.len() as int);
        assert(lead == start - from);
        if start == to {
            assert(chars@.subrange(start as int, end as int) =~= Seq::<char>::empty());
        } else {
            assert(!is_space(s[end - from - 1]));
            assert(trail == to - end);
            assert(chars@.subrange(start as int, end as int) =~= s.subrange(
                lead as int,
                s.len() - trail,
            ));
        }
    }
    (start, end)
}

/// The number of characters of `s` between the white space at its ends.
pub fn trimmed_len(s: &str) -> (r: usize)
    ensures
        r == trimmed(s@).len(),
{
    let chars = chars_of(s);
    assert(chars@.subrange(0, chars@.len() as int) =~= chars@);
    let (start, end) = trimmed_span(&chars, 0, chars.len());
    end - start
}

/// The lines of a partition's content that are not blank, in order: each
/// is one record.
pub fn record_lines(content: &str) -> (lines: Vec<String>)
    ensures
        views(lines@) == record_lines_from(content@, 0),
{
    let chars = chars_of(content);
    let n = chars.len();
    let ghost s = content@;
    let mut lines: Vec<String> = Vec::new();
    let mut start: usize = 0;
    let mut i: usize = 0;
    while i < n
        invariant
            start <= i <= n,
            n == chars@.len(),
            chars@ == s,
            s == content@,
            line_end(s, start as int) == line_end(s, i as int),
            views(lines@) + record_lines_from(s, start as int) == record_lines_from(s, 0),
        decreases n - i,
    {
        if chars[i] == '\n' {
            let mut end: usize = i;
            if end > start && chars[end - 1] == '\r' {
                end -= 1;
            }
            let ghost line = s.subrange(start as int, end as int);
            assert(line == without_cr(s.subrange(start as int, i as int)));
            let (a, b) = trimmed_span(&chars, start, end);
            let ghost before = lines@;
            if b > a {
                lines.push(content.substring_char(start, end).to_owned());
                assert(views(lines@) =~= views(before) + seq![line]);
            }
            assert(views(lines@) + record_lines_from(s, i + 1) =~= views(before)
                + record_lines_from(s, start as int));
            start = i + 1;
        }
        i += 1;
    }
    if start < n {
        let ghost line = s.subrange(start as int, n as int);
        let (a, b) = trimmed_span(&chars, start, n);
        let ghost before = lines@;
        if b > a {
            lines.push(content.substring_char(start, n).to_owned());
            assert(views(lines@) =~= views(before) + seq![line]);
        }
        assert(views(lines@) =~= views(before) + record_lines_from(s, start as int));
    } else {
        assert(views(lines@) + record_lines_from(s, start as int) =~= views(lines@));
    }
    lines
}

/// The line that holds a record in a partition: the record and a line feed.
pub fn record_line(record: &str) -> (line: String)
    ensures
        line@ == record@ + seq!['\n'],
{
    let mut line = record.to_owned();
    line.append("\n");
    proof {
        reveal_strlit("\n");
        assert("\n"@ =~= seq!['\n']);
    }
    line
}

/// `base` with `name` below it, as a path.
pub fn join_path(base: &str, name: &str) -> (r: String)
    ensures
        r@ == joined(base@, name@),
{
    let chars = chars_of(base);
    let mut path = base.to_owned();
    if chars.len() > 0 && chars[chars.len() - 1] != '/' {
        path.append("/");
        proof {
            reveal_strlit("/");
            assert("/"@ =~= seq!['/']);
        }
    }
    path.append(name);
    path
}

} // verus!
