//! JSONC (JSON with `//` line comments and trailing commas, as Zed writes its
//! config files) reduced to plain JSON text.

use vstd::prelude::*;
use vstd::string::{StrSliceExecFns, StringSliceAdditionalSpecFns};
use crate::text::{chars_of, is_ws, string_of};

verus! {

broadcast use vstd::string::group_string_axioms;

/// `str::lines`: the text split at `\n`, each line without its `\n` and
/// without a `\r` just before it; a final line ending adds no empty line.
pub open spec fn lines_of(s: Seq<char>) -> Seq<Seq<char>>
    decreases s.len(),
{
    if s.len() == 0 {
        Seq::empty()
    } else {
        let k = first_newline(s, 0);
        if 0 <= k < s.len() {
            let line = s.take(k);
            let line = if line.len() > 0 && line.last() == '\r' {
                line.drop_last()
            } else {
                line
            };
            seq![line] + lines_of(s.skip(k + 1))
        } else {
            seq![s]
        }
    }
}

/// Index of the first `\n` at or after `i` (the length when there is none).
pub open spec fn first_newline(s: Seq<char>, i: int) -> int
    decreases s.len() - i,
{
    if i < 0 || i >= s.len() {
        s.len() as int
    } else if s[i] == '\n' {
        i
    } else {
        first_newline(s, i + 1)
    }
}

proof fn lemma_first_newline(s: Seq<char>, i: int)
    requires
        0 <= i <= s.len(),
    ensures
        i <= first_newline(s, i) <= s.len(),
        first_newline(s, i) < s.len() ==> s[first_newline(s, i)] == '\n',
        forall|m: int| i <= m < first_newline(s, i) ==> s[m] != '\n',
    decreases s.len() - i,
{
    if i < s.len() && s[i] != '\n' {
        lemma_first_newline(s, i + 1);
    }
}

/// Index of the first `//` outside a JSON string, scanning from `i` in the
/// given string and escape state.
pub open spec fn comment_from(line: Seq<char>, i: int, in_string: bool, escaped: bool) -> Option<int>
    decreases line.len() - i,
{
    if i < 0 || i >= line.len() {
        None
    } else if escaped {
        comment_from(line, i + 1, in_string, false)
    } else if line[i] == '\\' && in_string {
        comment_from(line, i + 1, in_string, true)
    } else if line[i] == '"' {
        comment_from(line, i + 1, !in_string, false)
    } else if line[i] == '/' && !in_string && i + 1 < line.len() && line[i + 1] == '/' {
        Some(i)
    } else {
        comment_from(line, i + 1, in_string, false)
    }
}

/// Index (in characters) of the first `//` outside a JSON string.
fn comment_index(line: &[char]) -> (r: Option<usize>)
    ensures
        match comment_from(line@, 0, false, false) {
            Some(k) => r == Some(k as usize),
            None => r is None,
        },
{
    let mut in_string = false;
    let mut escaped = false;
    let mut i: usize = 0;
    while i < line.len()
        invariant
            i <= line.len(),
            comment_from(line@, i as int, in_string, escaped) == comment_from(line@, 0, false, false),
        decreases line.len() - i,
    {
        if escaped {
            escaped = false;
        } else if line[i] == '\\' && in_string {
            escaped = true;
        } else if line[i] == '"' {
            in_string = !in_string;
        } else if line[i] == '/' && !in_string && i + 1 < line.len() && line[i + 1] == '/' {
            return Some(i);
        }
        i += 1;
    }
    None
}

/// Byte offset of the first `//` outside a JSON string, scanning the bytes
/// from `i` in the given string and escape state: a `"` opens or closes a
/// string, and inside a string a backslash escapes the next byte.
pub open spec fn comment_from_bytes(b: Seq<u8>, i: int, in_string: bool, escaped: bool) -> Option<int>
    decreases b.len() - i,
{
    if i < 0 || i >= b.len() {
        None
    } else if escaped {
        comment_from_bytes(b, i + 1, in_string, false)
    } else if b[i] == 92 && in_string {
        comment_from_bytes(b, i + 1, in_string, true)
    } else if b[i] == 34 {
        comment_from_bytes(b, i + 1, !in_string, false)
    } else if b[i] == 47 && !in_string && i + 1 < b.len() && b[i + 1] == 47 {
        Some(i)
    } else {
        comment_from_bytes(b, i + 1, in_string, false)
    }
}

/// Find the byte offset of a `//` comment that is not inside a JSON string,
/// in the UTF-8 bytes of the line.
pub fn find_line_comment(line: &str) -> (r: Option<usize>)
    ensures
        match comment_from_bytes(line.spec_bytes(), 0, false, false) {
            Some(k) => r == Some(k as usize),
            None => r is None,
        },
{
    let bytes = line.as_bytes_vec();
    let mut in_string = false;
    let mut escaped = false;
    let mut i: usize = 0;
    while i < bytes.len()
        invariant
            i <= bytes.len(),
            bytes@ == line.spec_bytes(),
            comment_from_bytes(bytes@, i as int, in_string, escaped) == comment_from_bytes(bytes@, 0, false, false),
        decreases bytes.len() - i,
    {
        if escaped {
            escaped = false;
        } else if bytes[i] == 92 && in_string {
            escaped = true;
        } else if bytes[i] == 34 {
            in_string = !in_string;
        } else if bytes[i] == 47 && !in_string && i + 1 < bytes.len() && bytes[i + 1] == 47 {
            return Some(i);
        }
        i += 1;
    }
    None
}

/// Index of the first non-whitespace character of `s` at or after `i`.
pub open spec fn first_non_ws(s: Seq<char>, i: int) -> int
    decreases s.len() - i,
{
    if i < 0 || i >= s.len() {
        s.len() as int
    } else if is_ws(s[i]) {
        first_non_ws(s, i + 1)
    } else {
        i
    }
}

/// A line that is nothing but a comment (after leading whitespace).
pub open spec fn comment_line(line: Seq<char>) -> bool {
    let k = first_non_ws(line, 0);
    k < line.len() && k + 1 < line.len() && line[k] == '/' && line[k + 1] == '/'
}

/// What one line contributes: nothing for a comment line, else the line up
/// to its comment, and a newline.
pub open spec fn stripped_line(line: Seq<char>) -> Seq<char> {
    if comment_line(line) {
        Seq::empty()
    } else {
        match comment_from(line, 0, false, false) {
            Some(k) => line.take(k) + seq!['\n'],
            None => line + seq!['\n'],
        }
    }
}

/// The stripped lines, concatenated.
pub open spec fn strip_comments_spec(lines: Seq<Seq<char>>) -> Seq<char>
    decreases lines.len(),
{
    if lines.len() == 0 {
        Seq::empty()
    } else {
        strip_comments_spec(lines.drop_last()) + stripped_line(lines.last())
    }
}

proof fn lemma_comment_from_range(line: Seq<char>, i: int, in_string: bool, escaped: bool)
    ensures
        comment_from(line, i, in_string, escaped) matches Some(k) ==> 0 <= i <= k < line.len(),
    decreases line.len() - i,
{
    if 0 <= i < line.len() {
        lemma_comment_from_range(line, i + 1, in_string, false);
        lemma_comment_from_range(line, i + 1, in_string, true);
        lemma_comment_from_range(line, i + 1, !in_string, false);
    }
}

fn line_is_comment(line: &[char]) -> (r: bool)
    ensures
        r == comment_line(line@),
{
    let mut k: usize = 0;
    while k < line.len() && crate::text::is_whitespace(line[k])
        invariant
            k <= line.len(),
            first_non_ws(line@, k as int) == first_non_ws(line@, 0),
        decreases line.len() - k,
    {
        k += 1;
    }
    assert(first_non_ws(line@, k as int) == k);
    k < line.len() && k + 1 < line.len() && line[k] == '/' && line[k + 1] == '/'
}

/// Strip `//` line comments from JSON content: comment-only lines disappear,
/// a comment after content is cut off, and every kept line ends with `\n`.
pub fn strip_json_comments(input: &str) -> (r: String)
    ensures
        r@ == strip_comments_spec(lines_of(input@)),
{
    let cs = chars_of(input);
    let mut out: Vec<char> = Vec::new();
    let mut start: usize = 0;
    let ghost mut done: Seq<Seq<char>> = Seq::empty();
    proof {
        assert(cs@.skip(0) =~= cs@);
    }
    while start < cs.len()
        invariant
            start <= cs.len(),
            cs@ == input@,
            done + lines_of(cs@.skip(start as int)) == lines_of(cs@),
            out@ == strip_comments_spec(done),
        decreases cs.len() - start,
    {
        let ghost rest = cs@.skip(start as int);
        let mut end = start;
        while end < cs.len() && cs[end] != '\n'
            invariant
                start <= end <= cs.len(),
                forall|m: int| start <= m < end ==> cs@[m] != '\n',
            decreases cs.len() - end,
        {
            end += 1;
        }
        proof {
            lemma_first_newline(rest, 0);
            assert forall|m: int| 0 <= m < end - start implies rest[m] != '\n' by {
                assert(rest[m] == cs@[start + m]);
            }
            if end < cs.len() {
                assert(rest[end - start] == '\n');
                if first_newline(rest, 0) < end - start {
                    assert(rest[first_newline(rest, 0)] == '\n');
                }
            } else {
                if first_newline(rest, 0) < rest.len() {
                    assert(rest[first_newline(rest, 0)] == '\n');
                }
            }
            assert(first_newline(rest, 0) == end - start);
        }
        let mut line_end = end;
        if end < cs.len() && end > start && cs[end - 1] == '\r' {
            line_end = end - 1;
        }
        let mut line: Vec<char> = Vec::new();
        let mut k = start;
        while k < line_end
            invariant
                start <= k <= line_end <= cs.len(),
                line@ == cs@.subrange(start as int, k as int),
            decreases line_end - k,
        {
            line.push(cs[k]);
            assert(cs@.subrange(start as int, k + 1) =~= cs@.subrange(start as int, k as int).push(
                cs@[k as int],
            ));
            k += 1;
        }
        let ghost lv = line@;
        proof {
            if end < cs.len() {
                let t = rest.take(end - start);
                assert(t =~= cs@.subrange(start as int, end as int));
                if end > start && cs@[end - 1] == '\r' {
                    assert(lv =~= t.drop_last());
                } else {
                    assert(lv =~= t);
                }
                assert(rest.skip(end - start + 1) =~= cs@.skip(end + 1));
                assert(lines_of(rest) == seq![lv] + lines_of(cs@.skip(end + 1)));
            } else {
                assert(lv =~= rest);
                assert(lines_of(rest) == seq![lv]);
            }
        }
        if !line_is_comment(line.as_slice()) {
            match comment_index(line.as_slice()) {
                Some(idx) => {
                    proof {
                        lemma_comment_from_range(lv, 0, false, false);
                    }
                    let mut m: usize = 0;
                    let ghost o0 = out@;
                    while m < idx
                        invariant
                            m <= idx <= line.len(),
                            out@ == o0 + line@.take(m as int),
                        decreases idx - m,
                    {
                        out.push(line[m]);
                        assert(line@.take(m + 1) =~= line@.take(m as int).push(line@[m as int]));
                        m += 1;
                    }
                    out.push('\n');
                    assert(out@ =~= o0 + (lv.take(idx as int) + seq!['\n']));
                },
                None => {
                    let ghost o0 = out@;
                    let mut m: usize = 0;
                    while m < line.len()
                        invariant
                            m <= line.len(),
                            out@ == o0 + line@.take(m as int),
                        decreases line.len() - m,
                    {
                        out.push(line[m]);
                        assert(line@.take(m + 1) =~= line@.take(m as int).push(line@[m as int]));
                        m += 1;
                    }
                    out.push('\n');
                    assert(line@.take(line.len() as int) =~= line@);
                    assert(out@ =~= o0 + (lv + seq!['\n']));
                },
            }
        } else {
            assert(stripped_line(lv) =~= Seq::<char>::empty());
        }
        proof {
            assert((done.push(lv)).drop_last() =~= done);
            let next: int = if end < cs.len() {
                end + 1
            } else {
                end as int
            };
            assert(done.push(lv) + lines_of(cs@.skip(next)) =~= done + lines_of(rest)) by {
                if end >= cs.len() {
                    assert(cs@.skip(end as int) =~= Seq::<char>::empty());
                }
            }
            done = done.push(lv);
        }
        if end < cs.len() {
            start = end + 1;
        } else {
            start = end;
        }
    }
    proof {
        assert(cs@.skip(start as int) =~= Seq::<char>::empty());
        assert(done =~= lines_of(cs@));
    }
    string_of(out.as_slice())
}

/// ASCII whitespace (`u8::is_ascii_whitespace`): space, tab, line feed,
/// form feed, carriage return.
pub open spec fn ascii_ws(c: char) -> bool {
    c == ' ' || c == '\t' || c == '\n' || c == '\x0C' || c == '\r'
}

/// The first character of `s` at or after `i` that is not ASCII whitespace.
pub open spec fn next_non_ascii_ws(s: Seq<char>, i: int) -> Option<char>
    decreases s.len() - i,
{
    if i < 0 || i >= s.len() {
        None
    } else if ascii_ws(s[i]) {
        next_non_ascii_ws(s, i + 1)
    } else {
        Some(s[i])
    }
}

/// The characters kept from position `i` on, in the given string and escape
/// state: a comma outside strings is dropped when the next character that is
/// not whitespace closes an array or object.
pub open spec fn strip_commas_from(s: Seq<char>, i: int, in_string: bool, escaped: bool) -> Seq<char>
    decreases s.len() - i,
{
    if i < 0 || i >= s.len() {
        Seq::empty()
    } else if escaped {
        seq![s[i]] + strip_commas_from(s, i + 1, in_string, false)
    } else if s[i] == '\\' && in_string {
        seq![s[i]] + strip_commas_from(s, i + 1, in_string, true)
    } else if s[i] == '"' {
        seq![s[i]] + strip_commas_from(s, i + 1, !in_string, false)
    } else if s[i] == ',' && !in_string {
        if next_non_ascii_ws(s, i + 1) == Some(']') || next_non_ascii_ws(s, i + 1) == Some('}') {
            strip_commas_from(s, i + 1, in_string, false)
        } else {
            seq![s[i]] + strip_commas_from(s, i + 1, in_string, false)
        }
    } else {
        seq![s[i]] + strip_commas_from(s, i + 1, in_string, false)
    }
}

fn next_closes(cs: &Vec<char>, from: usize) -> (r: bool)
    requires
        from <= cs.len(),
    ensures
        r == (next_non_ascii_ws(cs@, from as int) == Some(']') || next_non_ascii_ws(cs@, from as int)
            == Some('}')),
{
    let mut j = from;
    while j < cs.len() && (cs[j] == ' ' || cs[j] == '\t' || cs[j] == '\n' || cs[j] == '\x0C' || cs[j]
        == '\r')
        invariant
            from <= j <= cs.len(),
            next_non_ascii_ws(cs@, j as int) == next_non_ascii_ws(cs@, from as int),
        decreases cs.len() - j,
    {
        j += 1;
    }
    j < cs.len() && (cs[j] == ']' || cs[j] == '}')
}

/// Strip trailing commas before `]` and `}` outside JSON strings.
pub fn strip_trailing_commas(input: &str) -> (r: String)
    ensures
        r@ == strip_commas_from(input@, 0, false, false),
{
    let cs = chars_of(input);
    let mut out: Vec<char> = Vec::new();
    let mut in_string = false;
    let mut escaped = false;
    let mut i: usize = 0;
    assert(out@ + strip_commas_from(cs@, 0, false, false) =~= strip_commas_from(cs@, 0, false, false));
    while i < cs.len()
        invariant
            i <= cs.len(),
            cs@ == input@,
            out@ + strip_commas_from(cs@, i as int, in_string, escaped) == strip_commas_from(
                cs@,
                0,
                false,
                false,
            ),
        decreases cs.len() - i,
    {
        let c = cs[i];
        let ghost o0 = out@;
        let ghost s0 = in_string;
        let ghost e0 = escaped;
        if escaped {
            escaped = false;
            out.push(c);
        } else if c == '\\' && in_string {
            escaped = true;
            out.push(c);
        } else if c == '"' {
            in_string = !in_string;
            out.push(c);
        } else if c == ',' && !in_string {
            if !next_closes(&cs, i + 1) {
                out.push(c);
            }
        } else {
            out.push(c);
        }
        assert(o0 + strip_commas_from(cs@, i as int, s0, e0) =~= out@ + strip_commas_from(
            cs@,
            i + 1,
            in_string,
            escaped,
        ));
        i += 1;
    }
    assert(out@ =~= out@ + strip_commas_from(cs@, i as int, in_string, escaped));
    string_of(out.as_slice())
}


// ── Strings hide comments ───────────────────────────────────────────────────

/// The text between the quotes of a JSON string: no bare `"`, and every
/// backslash escapes the character after it.
pub open spec fn json_string_body(s: Seq<char>) -> bool
    decreases s.len(),
{
    if s.len() == 0 {
        true
    } else if s[0] == '"' {
        false
    } else if s[0] == '\\' {
        s.len() >= 2 && json_string_body(s.skip(2))
    } else {
        json_string_body(s.skip(1))
    }
}

proof fn lemma_scan_string_body(line: Seq<char>, p: int, j: int)
    requires
        0 <= p <= j < line.len(),
        line[j] == '"',
        json_string_body(line.subrange(p, j)),
    ensures
        comment_from(line, p, true, false) == comment_from(line, j + 1, false, false),
    decreases j - p,
{
    let body = line.subrange(p, j);
    if p < j {
        assert(body[0] == line[p]);
        if line[p] == '\\' {
            assert(body.skip(2) =~= line.subrange(p + 2, j));
            lemma_scan_string_body(line, p + 2, j);
            assert(comment_from(line, p + 1, true, true) == comment_from(line, p + 2, true, false));
        } else {
            assert(body.skip(1) =~= line.subrange(p + 1, j));
            lemma_scan_string_body(line, p + 1, j);
        }
    }
}

/// A JSON string hides what it holds from the comment scan: scanning from
/// its opening quote finds the same comment as scanning from just after its
/// closing quote, whatever `//` or escaped quotes lie between them.
pub proof fn law_comment_scan_skips_string(line: Seq<char>, i: int, j: int)
    requires
        0 <= i < j < line.len(),
        line[i] == '"',
        line[j] == '"',
        json_string_body(line.subrange(i + 1, j)),
    ensures
        comment_from(line, i, false, false) == comment_from(line, j + 1, false, false),
{
    lemma_scan_string_body(line, i + 1, j);
}

/// Text outside strings that holds neither a quote nor a slash.
pub open spec fn plain_json(p: Seq<char>) -> bool {
    forall|k: int| 0 <= k < p.len() ==> #[trigger] p[k] != '"' && p[k] != '/'
}

/// A line made of plain pieces and quoted strings: each part is a plain
/// piece followed by a string (its body between quotes), then the tail.
pub open spec fn quoted_line(parts: Seq<(Seq<char>, Seq<char>)>, tail: Seq<char>) -> Seq<char>
    decreases parts.len(),
{
    if parts.len() == 0 {
        tail
    } else {
        parts[0].0 + seq!['"'] + parts[0].1 + seq!['"'] + quoted_line(parts.drop_first(), tail)
    }
}

/// Every plain piece and the tail hold no quote or slash, and every string
/// body is a valid JSON string body.
pub open spec fn well_quoted(parts: Seq<(Seq<char>, Seq<char>)>, tail: Seq<char>) -> bool {
    &&& forall|k: int| 0 <= k < parts.len() ==> plain_json(#[trigger] parts[k].0) && json_string_body(parts[k].1)
    &&& plain_json(tail)
}

proof fn lemma_scan_plain(line: Seq<char>, p: int, n: int)
    requires
        0 <= p,
        0 <= n,
        p + n <= line.len(),
        forall|k: int| p <= k < p + n ==> #[trigger] line[k] != '"' && line[k] != '/',
    ensures
        comment_from(line, p, false, false) == comment_from(line, p + n, false, false),
    decreases n,
{
    if n > 0 {
        assert(line[p] != '"' && line[p] != '/');
        lemma_scan_plain(line, p + 1, n - 1);
    }
}

proof fn lemma_scan_quoted(line: Seq<char>, p: int, parts: Seq<(Seq<char>, Seq<char>)>, tail: Seq<char>)
    requires
        0 <= p <= line.len(),
        line.skip(p) == quoted_line(parts, tail),
        well_quoted(parts, tail),
    ensures
        comment_from(line, p, false, false) is None,
    decreases parts.len(),
{
    let rest = line.skip(p);
    if parts.len() == 0 {
        assert forall|k: int| p <= k < p + tail.len() implies #[trigger] line[k] != '"' && line[k] != '/' by {
            assert(line[k] == rest[k - p]);
            assert(plain_json(tail));
            assert(tail[k - p] != '"' && tail[k - p] != '/');
        }
        lemma_scan_plain(line, p, tail.len() as int);
    } else {
        let a = parts[0].0;
        let b = parts[0].1;
        let more = quoted_line(parts.drop_first(), tail);
        assert(plain_json(parts[0].0) && json_string_body(parts[0].1));
        assert(rest == a + seq!['"'] + b + seq!['"'] + more);
        let i = p + a.len();
        let j = i + 1 + b.len();
        assert forall|k: int| p <= k < p + a.len() implies #[trigger] line[k] != '"' && line[k] != '/' by {
            assert(line[k] == rest[k - p]);
            assert(rest[k - p] == a[k - p]);
        }
        lemma_scan_plain(line, p, a.len() as int);
        assert(line[i] == rest[i - p]);
        assert(line[j] == rest[j - p]);
        assert forall|m: int| 0 <= m < b.len() implies #[trigger] line.subrange(i + 1, j)[m] == b[m] by {
            assert(line[i + 1 + m] == rest[a.len() + 1 + m]);
        }
        assert(line.subrange(i + 1, j) =~= b);
        law_comment_scan_skips_string(line, i, j);
        assert(rest.len() == a.len() + b.len() + 2 + more.len());
        assert forall|m: int| 0 <= m < more.len() implies #[trigger] line.skip(j + 1)[m] == more[m] by {
            assert(line[j + 1 + m] == rest[a.len() + b.len() + 2 + m]);
        }
        assert(line.skip(j + 1) =~= more);
        assert forall|k: int| 0 <= k < parts.drop_first().len() implies plain_json(
            #[trigger] parts.drop_first()[k].0,
        ) && json_string_body(parts.drop_first()[k].1) by {
            assert(parts.drop_first()[k] == parts[k + 1]);
        }
        lemma_scan_quoted(line, j + 1, parts.drop_first(), tail);
    }
}

proof fn lemma_quoted_line_first(parts: Seq<(Seq<char>, Seq<char>)>, tail: Seq<char>)
    requires
        well_quoted(parts, tail),
    ensures
        forall|k: int| 0 <= k < quoted_line(parts, tail).len() ==> #[trigger] quoted_line(parts, tail)[k] != '/'
            || exists|m: int| 0 <= m < k && quoted_line(parts, tail)[m] == '"',
    decreases parts.len(),
{
    let l = quoted_line(parts, tail);
    if parts.len() == 0 {
        assert forall|k: int| 0 <= k < l.len() implies #[trigger] l[k] != '/' || exists|m: int|
            0 <= m < k && l[m] == '"' by {
            assert(plain_json(tail));
            assert(tail[k] != '/');
        }
    } else {
        let a = parts[0].0;
        assert(plain_json(parts[0].0));
        assert forall|k: int| 0 <= k < l.len() implies #[trigger] l[k] != '/' || exists|m: int|
            0 <= m < k && l[m] == '"' by {
            if k < a.len() {
                assert(l[k] == a[k]);
            } else if k > a.len() {
                assert(l[a.len() as int] == '"');
            } else {
                assert(l[k] == '"');
            }
        }
    }
}

/// Stripping comments never cuts a line inside a JSON string: a line made of
/// plain text (no quote, no slash) and JSON strings, whose strings may hold
/// `//` and escaped quotes, is kept whole, followed by a newline.
pub proof fn law_strings_never_cut(parts: Seq<(Seq<char>, Seq<char>)>, tail: Seq<char>)
    requires
        well_quoted(parts, tail),
    ensures
        stripped_line(quoted_line(parts, tail)) == quoted_line(parts, tail) + seq!['\n'],
{
    let line = quoted_line(parts, tail);
    assert(line.skip(0) =~= line);
    lemma_scan_quoted(line, 0, parts, tail);
    lemma_quoted_line_first(parts, tail);
    if comment_line(line) {
        let k = first_non_ws(line, 0);
        lemma_first_non_ws(line, 0);
        assert(line[k] == '/');
        if exists|m: int| 0 <= m < k && line[m] == '"' {
            let m = choose|m: int| 0 <= m < k && line[m] == '"';
            assert(is_ws(line[m]));
        }
    }
}

proof fn lemma_first_non_ws(s: Seq<char>, i: int)
    requires
        0 <= i <= s.len(),
    ensures
        i <= first_non_ws(s, i) <= s.len(),
        forall|m: int| i <= m < first_non_ws(s, i) ==> is_ws(#[trigger] s[m]),
    decreases s.len() - i,
{
    if i < s.len() && is_ws(s[i]) {
        lemma_first_non_ws(s, i + 1);
    }
}


/// The bytes between the quotes of a JSON string: no bare `"` (34), and every
/// backslash (92) escapes the byte after it.
pub open spec fn json_string_body_bytes(s: Seq<u8>) -> bool
    decreases s.len(),
{
    if s.len() == 0 {
        true
    } else if s[0] == 34 {
        false
    } else if s[0] == 92 {
        s.len() >= 2 && json_string_body_bytes(s.skip(2))
    } else {
        json_string_body_bytes(s.skip(1))
    }
}

proof fn lemma_scan_string_body_bytes(b: Seq<u8>, p: int, j: int)
    requires
        0 <= p <= j < b.len(),
        b[j] == 34,
        json_string_body_bytes(b.subrange(p, j)),
    ensures
        comment_from_bytes(b, p, true, false) == comment_from_bytes(b, j + 1, false, false),
    decreases j - p,
{
    let body = b.subrange(p, j);
    if p < j {
        assert(body[0] == b[p]);
        if b[p] == 92 {
            assert(body.skip(2) =~= b.subrange(p + 2, j));
            lemma_scan_string_body_bytes(b, p + 2, j);
            assert(comment_from_bytes(b, p + 1, true, true) == comment_from_bytes(b, p + 2, true, false));
        } else {
            assert(body.skip(1) =~= b.subrange(p + 1, j));
            lemma_scan_string_body_bytes(b, p + 1, j);
        }
    }
}

/// The byte scan of `find_line_comment` skips JSON strings the same way:
/// from an opening quote it finds the same comment as from just after the
/// closing quote, whatever `//` or escaped quotes the string holds.
pub proof fn law_byte_scan_skips_string(b: Seq<u8>, i: int, j: int)
    requires
        0 <= i < j < b.len(),
        b[i] == 34,
        b[j] == 34,
        json_string_body_bytes(b.subrange(i + 1, j)),
    ensures
        comment_from_bytes(b, i, false, false) == comment_from_bytes(b, j + 1, false, false),
{
    lemma_scan_string_body_bytes(b, i + 1, j);
}

} // verus!
