//! Splitting a sed expression into commands, and reading the three fields of
//! an `s` command.

use vstd::prelude::*;
use crate::text::{
    all_whitespace, char_is_alphabetic, char_is_whitespace, chars_of, concat_str,
    lemma_trimmed_empty_iff, string_of_range, trim_chars, trimmed,
};

verus! {

/// Why an expression could not be turned into substitution commands; the
/// message says what was wrong.
#[derive(Debug)]
pub struct ParseError(pub String);

impl ParseError {
    /// The message, as the error displays it.
    pub fn message(&self) -> (m: String)
        ensures
            m@ == self.0@,
    {
        self.0.clone()
    }
}

// ---------------------------------------------------------------------------
// Splitting an expression into commands
// ---------------------------------------------------------------------------

/// The number of leading alphabetic characters of `s`: the flags that end an
/// `s` command.
pub open spec fn flags_len(s: Seq<char>) -> int
    decreases s.len(),
{
    if s.len() > 0 && char_is_alphabetic(s[0]) {
        1 + flags_len(s.skip(1))
    } else {
        0
    }
}

/// The number of characters of `s` that belong to an `s` command whose
/// delimiter is `d`, `s` starting just after that delimiter: up to and
/// including the second unescaped delimiter and the flags after it (or to the
/// end of `s`). A backslash takes the character after it along with it.
/// `second` records that one delimiter has been passed already.
pub open spec fn subst_len(s: Seq<char>, d: char, second: bool) -> int
    decreases s.len(),
{
    if s.len() == 0 {
        0
    } else if s[0] == '\\' {
        if s.len() >= 2 {
            2 + subst_len(s.skip(2), d, second)
        } else {
            1
        }
    } else if s[0] == d {
        if second {
            1 + flags_len(s.skip(1))
        } else {
            1 + subst_len(s.skip(1), d, true)
        }
    } else {
        1 + subst_len(s.skip(1), d, second)
    }
}

pub proof fn lemma_flags_len_bound(s: Seq<char>)
    ensures
        0 <= flags_len(s) <= s.len(),
    decreases s.len(),
{
    if s.len() > 0 && char_is_alphabetic(s[0]) {
        lemma_flags_len_bound(s.skip(1));
    }
}

pub proof fn lemma_subst_len_bound(s: Seq<char>, d: char, second: bool)
    ensures
        0 <= subst_len(s, d, second) <= s.len(),
    decreases s.len(),
{
    if s.len() == 0 {
    } else if s[0] == '\\' {
        if s.len() >= 2 {
            lemma_subst_len_bound(s.skip(2), d, second);
        }
    } else if s[0] == d {
        if second {
            lemma_flags_len_bound(s.skip(1));
        } else {
            lemma_subst_len_bound(s.skip(1), d, true);
        }
    } else {
        lemma_subst_len_bound(s.skip(1), d, second);
    }
}

/// The commands of the rest `s` of an expression, `cur` being the text read
/// since the last command ended. An `s` with nothing but whitespace before
/// it since the last command ended opens a substitution whose delimiter is
/// the next character; it runs to the end of its flags, `;` and delimiters
/// inside it included, and the whitespace before it is part of it.
/// Elsewhere `;` ends a command. Commands that are only whitespace are
/// dropped.
pub open spec fn split_from(s: Seq<char>, cur: Seq<char>) -> Seq<Seq<char>>
    decreases s.len(),
{
    if s.len() == 0 {
        if trimmed(cur).len() == 0 {
            seq![]
        } else {
            seq![cur]
        }
    } else if s[0] == 's' && trimmed(cur).len() == 0 && s.len() >= 2 {
        proof {
            lemma_subst_len_bound(s.skip(2), s[1], false);
        }
        let k = subst_len(s.skip(2), s[1], false);
        seq![cur + s.take(2 + k)] + split_from(s.skip(2 + k), seq![])
    } else if s[0] == ';' {
        if trimmed(cur).len() == 0 {
            split_from(s.skip(1), seq![])
        } else {
            seq![cur] + split_from(s.skip(1), seq![])
        }
    } else {
        split_from(s.skip(1), cur.push(s[0]))
    }
}

/// The commands of a whole expression.
pub open spec fn commands_of(expr: Seq<char>) -> Seq<Seq<char>> {
    split_from(expr, seq![])
}

/// The end of the leading alphabetic characters of `v` from `from` on.
fn scan_flags(v: &Vec<char>, from: usize) -> (end: usize)
    requires
        from <= v.len(),
    ensures
        from <= end <= v.len(),
        end - from == flags_len(v@.skip(from as int)),
{
    let n = v.len();
    let mut j: usize = from;
    while j < n && v[j].is_alphabetic()
        invariant
            from <= j <= n == v.len(),
            flags_len(v@.skip(from as int)) == (j - from) + flags_len(v@.skip(j as int)),
        decreases n - j,
    {
        assert(v@.skip(j as int).skip(1) =~= v@.skip(j + 1));
        j = j + 1;
    }
    j
}

/// The end of the `s` command whose body starts at `from` and whose delimiter
/// is `d`.
fn scan_subst(v: &Vec<char>, from: usize, d: char) -> (end: usize)
    requires
        from <= v.len(),
    ensures
        from <= end <= v.len(),
        end - from == subst_len(v@.skip(from as int), d, false),
{
    let n = v.len();
    let mut j: usize = from;
    let mut second = false;
    let mut done = false;
    while j < n && !done
        invariant
            from <= j <= n == v.len(),
            !done ==> subst_len(v@.skip(from as int), d, false) == (j - from) + subst_len(
                v@.skip(j as int),
                d,
                second,
            ),
            done ==> subst_len(v@.skip(from as int), d, false) == j - from,
        decreases n - j,
    {
        let ghost rest = v@.skip(j as int);
        let ch = v[j];
        if ch == '\\' {
            if j + 1 < n {
                assert(rest.skip(2) =~= v@.skip(j + 2));
                j = j + 2;
            } else {
                j = j + 1;
                assert(v@.skip(j as int).len() == 0);
            }
        } else if ch == d {
            assert(rest.skip(1) =~= v@.skip(j + 1));
            if second {
                j = scan_flags(v, j + 1);
                done = true;
            } else {
                second = true;
                j = j + 1;
            }
        } else {
            assert(rest.skip(1) =~= v@.skip(j + 1));
            j = j + 1;
        }
    }
    j
}

/// Split an expression on unescaped `;` that are outside a substitution
/// command.
pub fn split_commands(expr: &str) -> (res: Vec<String>)
    ensures
        res.len() == commands_of(expr@).len(),
        forall|k: int| 0 <= k < res.len() ==> #[trigger] res@[k]@ == commands_of(expr@)[k],
{
    let v = chars_of(expr);
    let n = v.len();
    let mut commands: Vec<String> = Vec::new();
    let ghost mut done: Seq<Seq<char>> = seq![];
    let mut current = String::new();
    let mut i: usize = 0;
    assert(v@.skip(0) =~= v@);
    while i < n
        invariant
            n == v.len(),
            v@ == expr@,
            i <= n,
            commands.len() == done.len(),
            forall|k: int| 0 <= k < commands.len() ==> #[trigger] commands@[k]@ == done[k],
            split_from(v@, seq![]) == done + split_from(v@.skip(i as int), current@),
        decreases n - i,
    {
        let ghost rest = v@.skip(i as int);
        let ghost cur = current@;
        let c = v[i];
        if c == 's' && i + 1 < n && trim_chars(current.as_str()).len() == 0 {
            let d = v[i + 1];
            let end = scan_subst(&v, i + 2, d);
            let body = string_of_range(&v, i, end);
            let cmd = concat_str(current.as_str(), body.as_str());
            proof {
                assert(rest.skip(2) =~= v@.skip(i + 2));
                assert(rest.take(2 + (end - (i + 2))) =~= body@);
                assert(rest.skip(2 + (end - (i + 2))) =~= v@.skip(end as int));
                done = done.push(cmd@);
            }
            commands.push(cmd);
            current = String::new();
            i = end;
        } else if c == ';' {
            let t = trim_chars(current.as_str());
            if t.len() != 0 {
                proof {
                    done = done.push(cur);
                }
                commands.push(current);
            }
            current = String::new();
            proof {
                assert(rest.skip(1) =~= v@.skip(i + 1));
            }
            i = i + 1;
        } else {
            current.push(c);
            proof {
                assert(rest.skip(1) =~= v@.skip(i + 1));
            }
            i = i + 1;
        }
    }
    let t = trim_chars(current.as_str());
    if t.len() != 0 {
        proof {
            done = done.push(current@);
        }
        commands.push(current);
    }
    commands
}

// ---------------------------------------------------------------------------
// The fields of an `s` command
// ---------------------------------------------------------------------------

/// What a backslash followed by `n` stands for inside a field delimited by
/// `d`: the delimiter itself when `n` is the delimiter, else both characters.
pub open spec fn field_escape(n: char, d: char) -> Seq<char> {
    if n == d {
        seq![d]
    } else {
        seq!['\\', n]
    }
}

/// The first field of `s` delimited by `d`: its text (with `\d` read as `d`),
/// how many characters it spans (the closing delimiter included), and
/// whether a closing delimiter was found.
pub open spec fn field_of(s: Seq<char>, d: char) -> (Seq<char>, int, bool)
    decreases s.len(),
{
    if s.len() == 0 {
        (seq![], 0, false)
    } else if s[0] == '\\' {
        if s.len() >= 2 {
            let (text, k, closed) = field_of(s.skip(2), d);
            (field_escape(s[1], d) + text, k + 2, closed)
        } else {
            (seq!['\\'], 1, false)
        }
    } else if s[0] == d {
        (seq![], 1, true)
    } else {
        let (text, k, closed) = field_of(s.skip(1), d);
        (seq![s[0]] + text, k + 1, closed)
    }
}

pub proof fn lemma_field_of_bound(s: Seq<char>, d: char)
    ensures
        0 <= field_of(s, d).1 <= s.len(),
    decreases s.len(),
{
    if s.len() > 0 {
        if s[0] == '\\' {
            if s.len() >= 2 {
                lemma_field_of_bound(s.skip(2), d);
            }
        } else if s[0] != d {
            lemma_field_of_bound(s.skip(1), d);
        }
    }
}

/// The pattern, replacement and flags of an `s` command, `s` being the text
/// after its first delimiter `d`. There is none when the pattern is not
/// closed; a replacement that is not closed runs to the end, with no flags.
pub open spec fn fields_of(s: Seq<char>, d: char) -> Option<(Seq<char>, Seq<char>, Seq<char>)> {
    let (pattern, k1, closed1) = field_of(s, d);
    if !closed1 {
        None
    } else {
        let (replacement, k2, closed2) = field_of(s.skip(k1), d);
        if closed2 {
            Some((pattern, replacement, s.skip(k1 + k2)))
        } else {
            Some((pattern, replacement, seq![]))
        }
    }
}

/// Read the field of `v` that starts at `from`, delimited by `d`.
fn scan_field(v: &Vec<char>, from: usize, d: char) -> (r: (String, usize, bool))
    requires
        from <= v.len(),
    ensures
        from <= r.1 <= v.len(),
        field_of(v@.skip(from as int), d) == (r.0@, r.1 - from, r.2),
{
    let n = v.len();
    let mut text = String::new();
    let mut j: usize = from;
    let mut closed = false;
    assert(text@ + field_of(v@.skip(from as int), d).0 =~= field_of(v@.skip(from as int), d).0);
    while j < n && !closed
        invariant
            from <= j <= n == v.len(),
            !closed ==> field_of(v@.skip(from as int), d) == (
                text@ + field_of(v@.skip(j as int), d).0,
                (j - from) + field_of(v@.skip(j as int), d).1,
                field_of(v@.skip(j as int), d).2,
            ),
            closed ==> field_of(v@.skip(from as int), d) == (text@, j - from, true),
        decreases n - j,
    {
        let ghost rest = v@.skip(j as int);
        let ghost before = text@;
        let ch = v[j];
        if ch == '\\' {
            if j + 1 < n {
                let next = v[j + 1];
                if next == d {
                    text.push(d);
                } else {
                    text.push('\\');
                    text.push(next);
                }
                proof {
                    assert(rest.skip(2) =~= v@.skip(j + 2));
                    let tail = field_of(v@.skip(j + 2), d).0;
                    assert(before + (field_escape(next, d) + tail) =~= text@ + tail);
                }
                j = j + 2;
            } else {
                text.push('\\');
                j = j + 1;
                proof {
                    assert(v@.skip(j as int).len() == 0);
                    assert(before + seq!['\\'] =~= text@ + field_of(v@.skip(j as int), d).0);
                }
            }
        } else if ch == d {
            j = j + 1;
            closed = true;
            assert(before + seq![] =~= text@);
        } else {
            text.push(ch);
            proof {
                assert(rest.skip(1) =~= v@.skip(j + 1));
                let tail = field_of(v@.skip(j + 1), d).0;
                assert(before + (seq![ch] + tail) =~= text@ + tail);
            }
            j = j + 1;
        }
    }
    proof {
        if !closed {
            assert(v@.skip(j as int).len() == 0);
            assert(text@ + seq![] =~= text@);
        }
    }
    (text, j, closed)
}

/// Parse the pattern, replacement, and flags from inside an `s` command:
/// `rest` is the text after its first delimiter `delim`.
pub fn parse_s_fields(rest: &str, delim: char) -> (res: Result<(String, String, String), ParseError>)
    ensures
        match fields_of(rest@, delim) {
            Some((p, r, f)) => res matches Ok((p2, r2, f2)) && p2@ == p && r2@ == r && f2@ == f,
            None => res matches Err(e) && e.0@ == "incomplete substitution command"@,
        },
{
    let v = chars_of(rest);
    let n = v.len();
    assert(v@.skip(0) =~= v@);
    let (pattern, e1, closed1) = scan_field(&v, 0, delim);
    if !closed1 {
        return Err(ParseError("incomplete substitution command".to_owned()));
    }
    let (replacement, e2, closed2) = scan_field(&v, e1, delim);
    proof {
        lemma_field_of_bound(v@, delim);
    }
    if closed2 {
        let flags = string_of_range(&v, e2, n);
        assert(v@.skip(e1 as int + (e2 - e1)) =~= v@.subrange(e2 as int, n as int));
        Ok((pattern, replacement, flags))
    } else {
        Ok((pattern, replacement, String::new()))
    }
}

/// A field's text as it is written between delimiters `d`: each `d` written
/// as `\d`.
pub open spec fn escape_delimiter(text: Seq<char>, d: char) -> Seq<char>
    decreases text.len(),
{
    if text.len() == 0 {
        seq![]
    } else if text[0] == d {
        seq!['\\', d] + escape_delimiter(text.skip(1), d)
    } else {
        seq![text[0]] + escape_delimiter(text.skip(1), d)
    }
}

proof fn lemma_field_of_escaped(text: Seq<char>, d: char, rest: Seq<char>)
    requires
        d != '\\',
        !text.contains('\\'),
    ensures
        field_of(escape_delimiter(text, d) + seq![d] + rest, d) == (
            text,
            escape_delimiter(text, d).len() + 1int,
            true,
        ),
    decreases text.len(),
{
    let s = escape_delimiter(text, d) + seq![d] + rest;
    if text.len() == 0 {
        assert(s[0] == d);
    } else {
        let tail = text.skip(1);
        assert(!tail.contains('\\')) by {
            if tail.contains('\\') {
                let j = choose|j: int| 0 <= j < tail.len() && tail[j] == '\\';
                assert(text[j + 1] == '\\');
            }
        }
        assert(text[0] != '\\') by {
            assert(text.contains(text[0]));
        }
        lemma_field_of_escaped(tail, d, rest);
        assert(text =~= seq![text[0]] + tail);
        if text[0] == d {
            assert(s.skip(2) =~= escape_delimiter(tail, d) + seq![d] + rest);
        } else {
            assert(s.skip(1) =~= escape_delimiter(tail, d) + seq![d] + rest);
        }
    }
}

/// Any character but a backslash can delimit an `s` command, and the
/// delimiter itself is written `\d` inside a field: the pattern and the
/// replacement read back as written, and the flags are the rest.
pub proof fn lemma_fields_any_delimiter(p: Seq<char>, r: Seq<char>, f: Seq<char>, d: char)
    requires
        d != '\\',
        !p.contains('\\'),
        !r.contains('\\'),
    ensures
        fields_of(
            escape_delimiter(p, d) + seq![d] + escape_delimiter(r, d) + seq![d] + f,
            d,
        ) == Some((p, r, f)),
{
    let ep = escape_delimiter(p, d);
    let er = escape_delimiter(r, d);
    let s = ep + seq![d] + er + seq![d] + f;
    assert(s =~= ep + seq![d] + (er + seq![d] + f));
    lemma_field_of_escaped(p, d, er + seq![d] + f);
    assert(s.skip(ep.len() + 1int) =~= er + seq![d] + f);
    lemma_field_of_escaped(r, d, f);
    assert(s.skip(ep.len() + 1int + er.len() + 1int) =~= f);
}

// ---------------------------------------------------------------------------
// Laws of splitting
// ---------------------------------------------------------------------------

/// `c` may stand between commands: a `;` or whitespace.
pub open spec fn is_separator(c: char) -> bool {
    c == ';' || char_is_whitespace(c)
}

/// Every character of `t` is a `;` or whitespace.
pub open spec fn all_separators(t: Seq<char>) -> bool {
    forall|i: int| 0 <= i < t.len() ==> #[trigger] is_separator(t[i])
}

/// `s` is the pieces, in order, each a contiguous stretch of `s`, with
/// nothing but `;` and whitespace before, between and after them.
pub open spec fn is_cut_into(s: Seq<char>, pieces: Seq<Seq<char>>) -> bool
    decreases pieces.len(),
{
    if pieces.len() == 0 {
        all_separators(s)
    } else {
        exists|i: int|
            #![trigger s.take(i)]
            0 <= i && i + pieces[0].len() <= s.len() && all_separators(s.take(i)) && s.subrange(
                i,
                i + pieces[0].len(),
            ) == pieces[0] && is_cut_into(s.skip(i + pieces[0].len()), pieces.drop_first())
    }
}

proof fn lemma_separators_prefix(g: Seq<char>, t: Seq<char>, pieces: Seq<Seq<char>>)
    requires
        all_separators(g),
        is_cut_into(t, pieces),
    ensures
        is_cut_into(g + t, pieces),
{
    let s = g + t;
    if pieces.len() == 0 {
        assert forall|i: int| 0 <= i < s.len() implies #[trigger] is_separator(s[i]) by {
            if i < g.len() {
                assert(s[i] == g[i]);
            } else {
                assert(s[i] == t[i - g.len()]);
            }
        }
    } else {
        let p = pieces[0];
        let i = choose|i: int|
            #![trigger t.take(i)]
            0 <= i && i + p.len() <= t.len() && all_separators(t.take(i)) && t.subrange(
                i,
                i + p.len(),
            ) == p && is_cut_into(t.skip(i + p.len()), pieces.drop_first());
        let j = g.len() + i;
        assert(s.take(j) =~= g + t.take(i));
        assert forall|m: int| 0 <= m < s.take(j).len() implies #[trigger] is_separator(
            s.take(j)[m],
        ) by {
            if m < g.len() {
                assert(s.take(j)[m] == g[m]);
            } else {
                assert(s.take(j)[m] == t.take(i)[m - g.len()]);
            }
        }
        assert(s.subrange(j, j + p.len()) =~= t.subrange(i, i + p.len()));
        assert(s.skip(j + p.len()) =~= t.skip(i + p.len()));
    }
}

proof fn lemma_whitespace_separators(t: Seq<char>)
    requires
        all_whitespace(t),
    ensures
        all_separators(t),
{
    assert forall|i: int| 0 <= i < t.len() implies #[trigger] is_separator(t[i]) by {
        assert(char_is_whitespace(t[i]));
    }
}

proof fn lemma_split_from_cut(s: Seq<char>, cur: Seq<char>)
    ensures
        is_cut_into(cur + s, split_from(s, cur)),
    decreases s.len(),
{
    let pieces = split_from(s, cur);
    let e: Seq<char> = seq![];
    if s.len() == 0 {
        assert(cur + s =~= cur);
        if trimmed(cur).len() == 0 {
            lemma_trimmed_empty_iff(cur);
            lemma_whitespace_separators(cur);
        } else {
            assert(cur.take(0) =~= e);
            assert(cur.subrange(0, cur.len() as int) =~= cur);
            assert(cur.skip(cur.len() as int) =~= e);
            assert(pieces.drop_first() =~= seq![]);
            assert(pieces[0] == cur);
            assert(all_separators(cur.take(0)));
            assert(all_separators(cur.skip(cur.len() as int)));
            assert(is_cut_into(cur.skip(cur.len() as int), pieces.drop_first()));
            assert(is_cut_into(cur, pieces));
        }
    } else if s[0] == 's' && trimmed(cur).len() == 0 && s.len() >= 2 {
        lemma_subst_len_bound(s.skip(2), s[1], false);
        let k = subst_len(s.skip(2), s[1], false);
        let piece = cur + s.take(2 + k);
        let rest = s.skip(2 + k);
        lemma_split_from_cut(rest, e);
        assert(e + rest =~= rest);
        let full = cur + s;
        assert(full.take(0) =~= e);
        assert(full.subrange(0, piece.len() as int) =~= piece);
        assert(full.skip(piece.len() as int) =~= rest);
        assert(pieces.drop_first() =~= split_from(rest, e));
        assert(pieces[0] == piece);
        assert(all_separators(full.take(0)));
        assert(is_cut_into(full, pieces));
    } else if s[0] == ';' {
        let rest = s.skip(1);
        lemma_split_from_cut(rest, e);
        assert(e + rest =~= rest);
        if trimmed(cur).len() == 0 {
            lemma_trimmed_empty_iff(cur);
            let g = cur.push(';');
            assert forall|i: int| 0 <= i < g.len() implies #[trigger] is_separator(g[i]) by {
                if i < cur.len() {
                    assert(char_is_whitespace(cur[i]));
                }
            }
            lemma_separators_prefix(g, rest, pieces);
            assert(g + rest =~= cur + s);
        } else {
            let g = seq![';'];
            assert(is_separator(g[0]));
            lemma_separators_prefix(g, rest, split_from(rest, e));
            assert(g + rest =~= s);
            let full = cur + s;
            assert(full.take(0) =~= e);
            assert(full.subrange(0, cur.len() as int) =~= cur);
            assert(full.skip(cur.len() as int) =~= s);
            assert(pieces.drop_first() =~= split_from(rest, e));
            assert(pieces[0] == cur);
            assert(all_separators(full.take(0)));
            assert(is_cut_into(full, pieces));
        }
    } else {
        lemma_split_from_cut(s.skip(1), cur.push(s[0]));
        assert(cur.push(s[0]) + s.skip(1) =~= cur + s);
    }
}

proof fn lemma_split_from_nonblank(s: Seq<char>, cur: Seq<char>)
    ensures
        forall|k: int|
            0 <= k < split_from(s, cur).len() ==> #[trigger] trimmed(split_from(s, cur)[k]).len()
                > 0,
    decreases s.len(),
{
    let pieces = split_from(s, cur);
    let e: Seq<char> = seq![];
    if s.len() == 0 {
        if trimmed(cur).len() != 0 {
            assert(pieces =~= seq![cur]);
            assert(trimmed(pieces[0]).len() > 0);
        }
    } else if s[0] == 's' && trimmed(cur).len() == 0 && s.len() >= 2 {
        lemma_subst_len_bound(s.skip(2), s[1], false);
        let k = subst_len(s.skip(2), s[1], false);
        let piece = cur + s.take(2 + k);
        lemma_split_from_nonblank(s.skip(2 + k), e);
        assert(piece[cur.len() as int] == 's');
        assert(!char_is_whitespace(piece[cur.len() as int]));
        lemma_trimmed_empty_iff(piece);
        assert(pieces[0] == piece);
        assert forall|m: int| 0 <= m < pieces.len() implies #[trigger] trimmed(pieces[m]).len()
            > 0 by {
            if m > 0 {
                assert(pieces[m] == split_from(s.skip(2 + k), e)[m - 1]);
            }
        }
    } else if s[0] == ';' {
        lemma_split_from_nonblank(s.skip(1), e);
        if trimmed(cur).len() == 0 {
            assert(pieces == split_from(s.skip(1), e));
        } else {
            assert forall|m: int| 0 <= m < pieces.len() implies #[trigger] trimmed(
                pieces[m],
            ).len() > 0 by {
                if m > 0 {
                    assert(pieces[m] == split_from(s.skip(1), e)[m - 1]);
                }
            }
        }
    } else {
        lemma_split_from_nonblank(s.skip(1), cur.push(s[0]));
        assert(pieces == split_from(s.skip(1), cur.push(s[0])));
    }
    assert(forall|k: int| 0 <= k < pieces.len() ==> #[trigger] trimmed(pieces[k]).len() > 0);
}

proof fn lemma_split_from_separators(s: Seq<char>, cur: Seq<char>)
    requires
        all_separators(s),
        all_whitespace(cur),
    ensures
        split_from(s, cur).len() == 0,
    decreases s.len(),
{
    lemma_trimmed_empty_iff(cur);
    if s.len() > 0 {
        assert(is_separator(s[0]));
        assert(all_separators(s.skip(1))) by {
            assert forall|i: int| 0 <= i < s.skip(1).len() implies #[trigger] is_separator(
                s.skip(1)[i],
            ) by {
                assert(s.skip(1)[i] == s[i + 1]);
            }
        }
        if s[0] == ';' {
            lemma_split_from_separators(s.skip(1), seq![]);
        } else {
            let c2 = cur.push(s[0]);
            assert(all_whitespace(c2)) by {
                assert forall|i: int| 0 <= i < c2.len() implies #[trigger] char_is_whitespace(
                    c2[i],
                ) by {
                    if i < cur.len() {
                        assert(c2[i] == cur[i]);
                    }
                }
            }
            lemma_split_from_separators(s.skip(1), c2);
        }
    }
}

/// Splitting loses, duplicates and reorders nothing: the commands are
/// contiguous stretches of the expression, in order, with only `;` and
/// whitespace around them; none of them is blank; and there is none exactly
/// when the expression is only `;` and whitespace.
pub proof fn lemma_commands_of_cut(expr: Seq<char>)
    ensures
        is_cut_into(expr, commands_of(expr)),
        forall|k: int|
            0 <= k < commands_of(expr).len() ==> #[trigger] trimmed(commands_of(expr)[k]).len()
                > 0,
        commands_of(expr).len() == 0 <==> all_separators(expr),
{
    let e: Seq<char> = seq![];
    lemma_split_from_cut(expr, e);
    assert(e + expr =~= expr);
    lemma_split_from_nonblank(expr, e);
    if all_separators(expr) {
        lemma_split_from_separators(expr, e);
    }
}

// ---------------------------------------------------------------------------
// Laws of the fields
// ---------------------------------------------------------------------------

/// The offset of the first delimiter `d` of `s` that is not escaped, reading
/// `s` in units of a backslash with the character after it, or one other
/// character.
pub open spec fn delimiter_at(s: Seq<char>, d: char) -> Option<int>
    decreases s.len(),
{
    if s.len() == 0 {
        None
    } else if s[0] == '\\' {
        if s.len() >= 2 {
            match delimiter_at(s.skip(2), d) {
                Some(i) => Some(i + 2),
                None => None,
            }
        } else {
            None
        }
    } else if s[0] == d {
        Some(0)
    } else {
        match delimiter_at(s.skip(1), d) {
            Some(i) => Some(i + 1),
            None => None,
        }
    }
}

/// The text of a field written as `t` between delimiters `d`: each `\d`
/// read as `d`, everything else kept.
pub open spec fn unescape_field(t: Seq<char>, d: char) -> Seq<char>
    decreases t.len(),
{
    if t.len() == 0 {
        seq![]
    } else if t[0] == '\\' {
        if t.len() >= 2 {
            field_escape(t[1], d) + unescape_field(t.skip(2), d)
        } else {
            seq!['\\']
        }
    } else {
        seq![t[0]] + unescape_field(t.skip(1), d)
    }
}

proof fn lemma_field_of_offsets(s: Seq<char>, d: char)
    ensures
        field_of(s, d) == match delimiter_at(s, d) {
            Some(i) => (unescape_field(s.take(i), d), i + 1, true),
            None => (unescape_field(s, d), s.len() as int, false),
        },
        delimiter_at(s, d) matches Some(i) ==> 0 <= i < s.len(),
    decreases s.len(),
{
    if s.len() == 0 {
    } else if s[0] == '\\' {
        if s.len() >= 2 {
            lemma_field_of_offsets(s.skip(2), d);
            if let Some(i) = delimiter_at(s.skip(2), d) {
                let t = s.take(i + 2);
                assert(t.skip(2) =~= s.skip(2).take(i));
                assert(t[0] == '\\' && t[1] == s[1]);
            }
        }
    } else if s[0] == d {
        assert(s.take(0) =~= seq![]);
    } else {
        lemma_field_of_offsets(s.skip(1), d);
        if let Some(i) = delimiter_at(s.skip(1), d) {
            let t = s.take(i + 1);
            assert(t.skip(1) =~= s.skip(1).take(i));
            assert(t[0] == s[0]);
        }
    }
}

/// The fields of an `s` command by offsets: the pattern is the text before
/// the first unescaped delimiter, the replacement the text up to the second
/// one (or to the end), each with `\d` read as `d`; the flags are what
/// follows the second delimiter. Without a first delimiter there are none.
pub proof fn lemma_fields_offsets(s: Seq<char>, d: char)
    ensures
        fields_of(s, d) == match delimiter_at(s, d) {
            None => None,
            Some(i) => match delimiter_at(s.skip(i + 1), d) {
                Some(j) => Some(
                    (
                        unescape_field(s.take(i), d),
                        unescape_field(s.skip(i + 1).take(j), d),
                        s.skip(i + 1).skip(j + 1),
                    ),
                ),
                None => Some(
                    (unescape_field(s.take(i), d), unescape_field(s.skip(i + 1), d), seq![]),
                ),
            },
        },
{
    lemma_field_of_offsets(s, d);
    if let Some(i) = delimiter_at(s, d) {
        let t = s.skip(i + 1);
        lemma_field_of_offsets(t, d);
        if let Some(j) = delimiter_at(t, d) {
            assert(s.skip(i + 1 + j + 1) =~= t.skip(j + 1));
        }
    }
}

/// `t` can stand as a field between delimiters `d` as it is: it holds no
/// `d`, and each backslash in it has a character other than `d` after it.
pub open spec fn is_plain_field(t: Seq<char>, d: char) -> bool
    decreases t.len(),
{
    if t.len() == 0 {
        true
    } else if t[0] == '\\' {
        t.len() >= 2 && t[1] != d && is_plain_field(t.skip(2), d)
    } else {
        t[0] != d && is_plain_field(t.skip(1), d)
    }
}

/// A plain field followed by the delimiter reads back as itself.
pub proof fn lemma_plain_field_closed(t: Seq<char>, d: char, rest: Seq<char>)
    requires
        d != '\\',
        is_plain_field(t, d),
    ensures
        field_of(t + seq![d] + rest, d) == (t, t.len() + 1int, true),
    decreases t.len(),
{
    let s = t + seq![d] + rest;
    if t.len() == 0 {
        assert(s[0] == d);
    } else if t[0] == '\\' {
        lemma_plain_field_closed(t.skip(2), d, rest);
        assert(s.skip(2) =~= t.skip(2) + seq![d] + rest);
        assert(t =~= seq!['\\', t[1]] + t.skip(2));
    } else {
        lemma_plain_field_closed(t.skip(1), d, rest);
        assert(s.skip(1) =~= t.skip(1) + seq![d] + rest);
        assert(t =~= seq![t[0]] + t.skip(1));
    }
}

/// A plain field with nothing after it reads back as itself, not closed.
pub proof fn lemma_plain_field_open(t: Seq<char>, d: char)
    requires
        d != '\\',
        is_plain_field(t, d),
    ensures
        field_of(t, d) == (t, t.len() as int, false),
    decreases t.len(),
{
    if t.len() > 0 {
        if t[0] == '\\' {
            lemma_plain_field_open(t.skip(2), d);
            assert(t =~= seq!['\\', t[1]] + t.skip(2));
        } else {
            lemma_plain_field_open(t.skip(1), d);
            assert(t =~= seq![t[0]] + t.skip(1));
        }
    }
}

/// The splitter passes over a plain field without stopping in it.
pub proof fn lemma_plain_field_subst_len(t: Seq<char>, d: char, rest: Seq<char>, second: bool)
    requires
        d != '\\',
        is_plain_field(t, d),
    ensures
        subst_len(t + rest, d, second) == t.len() + subst_len(rest, d, second),
    decreases t.len(),
{
    let s = t + rest;
    if t.len() == 0 {
        assert(s =~= rest);
    } else if t[0] == '\\' {
        lemma_plain_field_subst_len(t.skip(2), d, rest, second);
        assert(s.skip(2) =~= t.skip(2) + rest);
    } else {
        lemma_plain_field_subst_len(t.skip(1), d, rest, second);
        assert(s.skip(1) =~= t.skip(1) + rest);
    }
}

/// Every character of `f` is alphabetic and not whitespace: text that can
/// close an `s` command as its flags.
pub open spec fn is_flag_text(f: Seq<char>) -> bool {
    forall|i: int|
        0 <= i < f.len() ==> char_is_alphabetic(#[trigger] f[i]) && !char_is_whitespace(f[i])
}

/// The splitter takes all of a flag text.
pub proof fn lemma_flags_len_all(f: Seq<char>)
    requires
        is_flag_text(f),
    ensures
        flags_len(f) == f.len(),
    decreases f.len(),
{
    if f.len() > 0 {
        assert(char_is_alphabetic(f[0]));
        assert(is_flag_text(f.skip(1))) by {
            assert forall|i: int| 0 <= i < f.skip(1).len() implies #[trigger] char_is_alphabetic(
                f.skip(1)[i],
            ) && !char_is_whitespace(f.skip(1)[i]) by {
                assert(f.skip(1)[i] == f[i + 1]);
            }
        }
        lemma_flags_len_all(f.skip(1));
    }
}

// ---------------------------------------------------------------------------
// Fields written with escapes
// ---------------------------------------------------------------------------

/// `t` is a field as it may be written between delimiters `d`: a sequence of
/// units, each a backslash with any character after it (the delimiter
/// included) or one character other than `d`.
pub open spec fn is_written_field(t: Seq<char>, d: char) -> bool
    decreases t.len(),
{
    if t.len() == 0 {
        true
    } else if t[0] == '\\' {
        t.len() >= 2 && is_written_field(t.skip(2), d)
    } else {
        t[0] != d && is_written_field(t.skip(1), d)
    }
}

/// A written field followed by the delimiter is read whole, as its text
/// with each `\d` read as `d`.
pub proof fn lemma_written_field_closed(t: Seq<char>, d: char, rest: Seq<char>)
    requires
        d != '\\',
        is_written_field(t, d),
    ensures
        field_of(t + seq![d] + rest, d) == (unescape_field(t, d), t.len() + 1int, true),
    decreases t.len(),
{
    let s = t + seq![d] + rest;
    if t.len() == 0 {
        assert(s[0] == d);
    } else if t[0] == '\\' {
        lemma_written_field_closed(t.skip(2), d, rest);
        assert(s.skip(2) =~= t.skip(2) + seq![d] + rest);
    } else {
        lemma_written_field_closed(t.skip(1), d, rest);
        assert(s.skip(1) =~= t.skip(1) + seq![d] + rest);
    }
}

/// A written field with nothing after it is read whole, not closed.
pub proof fn lemma_written_field_open(t: Seq<char>, d: char)
    requires
        d != '\\',
        is_written_field(t, d),
    ensures
        field_of(t, d) == (unescape_field(t, d), t.len() as int, false),
    decreases t.len(),
{
    if t.len() > 0 {
        if t[0] == '\\' {
            lemma_written_field_open(t.skip(2), d);
        } else {
            lemma_written_field_open(t.skip(1), d);
        }
    }
}

/// The splitter passes over a written field, escaped delimiters included,
/// in every section of an `s` command.
pub proof fn lemma_written_field_subst_len(t: Seq<char>, d: char, rest: Seq<char>, second: bool)
    requires
        d != '\\',
        is_written_field(t, d),
    ensures
        subst_len(t + rest, d, second) == t.len() + subst_len(rest, d, second),
    decreases t.len(),
{
    let s = t + rest;
    if t.len() == 0 {
        assert(s =~= rest);
    } else if t[0] == '\\' {
        lemma_written_field_subst_len(t.skip(2), d, rest, second);
        assert(s.skip(2) =~= t.skip(2) + rest);
    } else {
        lemma_written_field_subst_len(t.skip(1), d, rest, second);
        assert(s.skip(1) =~= t.skip(1) + rest);
    }
}

/// A text without backslashes, its delimiters escaped, is a written field
/// that reads back as the text.
pub proof fn lemma_escape_delimiter_written(x: Seq<char>, d: char)
    requires
        d != '\\',
        !x.contains('\\'),
    ensures
        is_written_field(escape_delimiter(x, d), d),
        unescape_field(escape_delimiter(x, d), d) == x,
    decreases x.len(),
{
    if x.len() > 0 {
        let tail = x.skip(1);
        assert(!tail.contains('\\')) by {
            if tail.contains('\\') {
                let j = choose|j: int| 0 <= j < tail.len() && tail[j] == '\\';
                assert(x[j + 1] == '\\');
            }
        }
        assert(x[0] != '\\') by {
            assert(x.contains(x[0]));
        }
        lemma_escape_delimiter_written(tail, d);
        let e = escape_delimiter(x, d);
        if x[0] == d {
            assert(e.skip(2) =~= escape_delimiter(tail, d));
        } else {
            assert(e.skip(1) =~= escape_delimiter(tail, d));
        }
        assert(x =~= seq![x[0]] + tail);
    }
}

/// Every character of `f` is alphabetic.
pub open spec fn all_alphabetic(f: Seq<char>) -> bool {
    forall|i: int| 0 <= i < f.len() ==> char_is_alphabetic(#[trigger] f[i])
}

proof fn lemma_flags_len_alphabetic(f: Seq<char>)
    requires
        all_alphabetic(f),
    ensures
        flags_len(f) == f.len(),
    decreases f.len(),
{
    if f.len() > 0 {
        assert(char_is_alphabetic(f[0]));
        assert(all_alphabetic(f.skip(1))) by {
            assert forall|i: int| 0 <= i < f.skip(1).len() implies char_is_alphabetic(
                #[trigger] f.skip(1)[i],
            ) by {
                assert(f.skip(1)[i] == f[i + 1]);
            }
        }
        lemma_flags_len_alphabetic(f.skip(1));
    }
}

/// An `s` command stays one command, however its fields are written: with
/// a pattern and a replacement written as fields (escaped delimiters and
/// other backslash pairs included, in either field) and letters as flags,
/// the expression `s<d>p<d>r<d>f` splits into exactly itself.
pub proof fn lemma_split_keeps_substitution(
    d: char,
    p: Seq<char>,
    r: Seq<char>,
    f: Seq<char>,
)
    requires
        d != '\\',
        is_written_field(p, d),
        is_written_field(r, d),
        all_alphabetic(f),
    ensures
        commands_of(seq!['s', d] + p + seq![d] + r + seq![d] + f) == seq![
            seq!['s', d] + p + seq![d] + r + seq![d] + f,
        ],
{
    let c = seq!['s', d] + p + seq![d] + r + seq![d] + f;
    let body = p + seq![d] + r + seq![d] + f;
    assert(c.skip(2) =~= body);
    lemma_flags_len_alphabetic(f);
    assert(body =~= p + (seq![d] + r + seq![d] + f));
    lemma_written_field_subst_len(p, d, seq![d] + r + seq![d] + f, false);
    let after_p = seq![d] + r + seq![d] + f;
    assert(after_p.skip(1) =~= r + (seq![d] + f));
    lemma_written_field_subst_len(r, d, seq![d] + f, true);
    assert((seq![d] + f).skip(1) =~= f);
    let k = subst_len(c.skip(2), c[1], false);
    assert(k == body.len());
    let e: Seq<char> = seq![];
    assert(trimmed(e) =~= e);
    assert(e + c.take(2 + k) =~= c);
    assert(c.skip(2 + k) =~= e);
    assert(split_from(e, e) =~= Seq::<Seq<char>>::empty());
    assert(split_from(c, e) =~= seq![c]);
}

/// In particular, a command whose pattern and replacement have their
/// delimiters escaped as `\d` is one command.
pub proof fn lemma_split_keeps_escaped_delimiters(
    d: char,
    p: Seq<char>,
    r: Seq<char>,
    f: Seq<char>,
)
    requires
        d != '\\',
        !p.contains('\\'),
        !r.contains('\\'),
        all_alphabetic(f),
    ensures
        ({
            let c = seq!['s', d] + escape_delimiter(p, d) + seq![d] + escape_delimiter(r, d)
                + seq![d] + f;
            commands_of(c) == seq![c]
        }),
{
    lemma_escape_delimiter_written(p, d);
    lemma_escape_delimiter_written(r, d);
    lemma_split_keeps_substitution(d, escape_delimiter(p, d), escape_delimiter(r, d), f);
}

proof fn lemma_split_plain_run(x: Seq<char>, z: Seq<char>, cur: Seq<char>)
    requires
        !x.contains('s'),
        !x.contains(';'),
    ensures
        split_from(x + z, cur) == split_from(z, cur + x),
    decreases x.len(),
{
    if x.len() == 0 {
        assert(x + z =~= z);
        assert(cur + x =~= cur);
    } else {
        let tail = x.skip(1);
        assert(!tail.contains('s') && !tail.contains(';')) by {
            if tail.contains('s') {
                let j = choose|j: int| 0 <= j < tail.len() && tail[j] == 's';
                assert(x[j + 1] == 's');
            }
            if tail.contains(';') {
                let j = choose|j: int| 0 <= j < tail.len() && tail[j] == ';';
                assert(x[j + 1] == ';');
            }
        }
        assert(x[0] != 's' && x[0] != ';') by {
            assert(x.contains(x[0]));
        }
        assert((x + z)[0] == x[0]);
        assert((x + z).skip(1) =~= tail + z);
        lemma_split_plain_run(tail, z, cur.push(x[0]));
        assert(cur.push(x[0]) + tail =~= cur + x);
    }
}

/// Outside a substitution, `;` ends a command: text with no `s` and no `;`
/// before a `;` is a command of its own (dropped when blank), and the rest
/// is split on its own.
pub proof fn lemma_semicolon_ends_command(x: Seq<char>, y: Seq<char>)
    requires
        !x.contains('s'),
        !x.contains(';'),
    ensures
        trimmed(x).len() > 0 ==> commands_of(x + seq![';'] + y) == seq![x] + commands_of(y),
        trimmed(x).len() == 0 ==> commands_of(x + seq![';'] + y) == commands_of(y),
{
    let e: Seq<char> = seq![];
    let z = seq![';'] + y;
    lemma_split_plain_run(x, z, e);
    assert(x + seq![';'] + y =~= x + z);
    assert(e + x =~= x);
    assert(z.skip(1) =~= y);
}

proof fn lemma_flags_len_then(f: Seq<char>, rest: Seq<char>)
    requires
        all_alphabetic(f),
    ensures
        flags_len(f + rest) == f.len() + flags_len(rest),
    decreases f.len(),
{
    if f.len() == 0 {
        assert(f + rest =~= rest);
    } else {
        assert(char_is_alphabetic(f[0]));
        assert(all_alphabetic(f.skip(1))) by {
            assert forall|i: int| 0 <= i < f.skip(1).len() implies char_is_alphabetic(
                #[trigger] f.skip(1)[i],
            ) by {
                assert(f.skip(1)[i] == f[i + 1]);
            }
        }
        lemma_flags_len_then(f.skip(1), rest);
        assert((f + rest).skip(1) =~= f.skip(1) + rest);
    }
}

/// A `;` after an `s` command's flags ends it: `s<d>p<d>r<d>f;y` splits into
/// that command followed by the commands of `y`, however the fields are
/// written.
pub proof fn lemma_substitution_then_semicolon(
    d: char,
    p: Seq<char>,
    r: Seq<char>,
    f: Seq<char>,
    y: Seq<char>,
)
    requires
        d != '\\',
        is_written_field(p, d),
        is_written_field(r, d),
        all_alphabetic(f),
    ensures
        commands_of(seq!['s', d] + p + seq![d] + r + seq![d] + f + seq![';'] + y) == seq![
            seq!['s', d] + p + seq![d] + r + seq![d] + f,
        ] + commands_of(y),
{
    let c = seq!['s', d] + p + seq![d] + r + seq![d] + f;
    let whole = c + seq![';'] + y;
    assert(whole =~= seq!['s', d] + p + seq![d] + r + seq![d] + f + seq![';'] + y);
    let semi = seq![';'] + y;
    let body = p + seq![d] + r + seq![d] + f + semi;
    assert(whole.skip(2) =~= body);
    lemma_flags_len_then(f, semi);
    assert(!char_is_alphabetic(semi[0]));
    assert(body =~= p + (seq![d] + r + seq![d] + f + semi));
    lemma_written_field_subst_len(p, d, seq![d] + r + seq![d] + f + semi, false);
    let after_p = seq![d] + r + seq![d] + f + semi;
    assert(after_p.skip(1) =~= r + (seq![d] + f + semi));
    lemma_written_field_subst_len(r, d, seq![d] + f + semi, true);
    assert((seq![d] + f + semi).skip(1) =~= f + semi);
    let k = subst_len(whole.skip(2), whole[1], false);
    assert(k == c.len() - 2);
    let e: Seq<char> = seq![];
    assert(trimmed(e) =~= e);
    assert(e + whole.take(2 + k) =~= c);
    assert(whole.skip(2 + k) =~= semi);
    assert(semi.skip(1) =~= y);
    assert(split_from(semi, e) == split_from(y, e));
    assert(split_from(whole, e) == seq![c] + split_from(semi, e));
}

} // verus!
