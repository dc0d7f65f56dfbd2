//! Translation of the two sed-specific notations into the regex engine's
//! notation: BRE escapes in patterns (`\{n\}`, `\(`, `\)`, `\+`, `\?`, `\|`)
//! and sed replacement tokens (`&`, `\1`..`\9`, `\n`, `\t`, `\&`, `\$`, `\\`).

use vstd::prelude::*;
use crate::text::{chars_of, string_of};

verus! {

/// `c` is one of the ASCII digits `0`..`9`.
pub open spec fn is_ascii_digit(c: char) -> bool {
    '0' <= c && c <= '9'
}

/// The body of a BRE interval `\{...\}`, read from just after the opening
/// `\{`: the text up to the closing `\}` (or to the end of the input when it
/// is missing), and how many characters were consumed, the closing `\}`
/// included. A backslash that does not start `\}` is kept.
pub open spec fn interval_body(s: Seq<char>) -> (Seq<char>, int)
    decreases s.len(),
{
    if s.len() == 0 {
        (seq![], 0)
    } else if s[0] == '\\' && s.len() >= 2 && s[1] == '}' {
        (seq![], 2)
    } else {
        let (inner, k) = interval_body(s.skip(1));
        (seq![s[0]] + inner, k + 1)
    }
}

/// The characters `\` turns into themselves in a BRE: a group, `+`, `?`, `|`.
pub open spec fn is_bre_operator(c: char) -> bool {
    c == '(' || c == ')' || c == '+' || c == '?' || c == '|'
}

/// The translation of the first token of a non-empty pattern, and the number
/// of characters that token spans.
pub open spec fn ere_token(s: Seq<char>) -> (Seq<char>, int) {
    if s[0] == '\\' && s.len() >= 2 && s[1] == '{' {
        let (inner, k) = interval_body(s.skip(2));
        (seq!['{'] + inner + seq!['}'], 2 + k)
    } else if s[0] == '\\' && s.len() >= 2 && is_bre_operator(s[1]) {
        (seq![s[1]], 2)
    } else {
        (seq![s[0]], 1)
    }
}

pub proof fn lemma_interval_body_len(s: Seq<char>)
    ensures
        0 <= interval_body(s).1 <= s.len(),
    decreases s.len(),
{
    if s.len() > 0 && !(s[0] == '\\' && s.len() >= 2 && s[1] == '}') {
        lemma_interval_body_len(s.skip(1));
    }
}

pub proof fn lemma_ere_token_len(s: Seq<char>)
    requires
        s.len() > 0,
    ensures
        1 <= ere_token(s).1 <= s.len(),
{
    if s[0] == '\\' && s.len() >= 2 && s[1] == '{' {
        lemma_interval_body_len(s.skip(2));
    }
}

/// A sed pattern with its BRE escapes rewritten in the regex engine's syntax.
pub open spec fn ere_of(s: Seq<char>) -> Seq<char>
    decreases s.len(),
{
    if s.len() == 0 {
        seq![]
    } else {
        proof {
            lemma_ere_token_len(s);
        }
        let (piece, k) = ere_token(s);
        piece + ere_of(s.skip(k))
    }
}

/// `c` can continue a group name in a regex replacement template: a letter,
/// a digit or `_`.
pub open spec fn is_name_char(c: char) -> bool {
    c == '_' || is_ascii_digit(c) || ('a' <= c && c <= 'z') || ('A' <= c && c <= 'Z')
}

/// A reference to group `g` in a regex replacement template, when the next
/// character of the replacement is the `k`-th of `s`: `$g`, or `${g}` when
/// that character would otherwise be read as part of the group's name.
pub open spec fn group_reference(g: char, s: Seq<char>, k: int) -> Seq<char> {
    if k < s.len() && is_name_char(s[k]) {
        seq!['$', '{', g, '}']
    } else {
        seq!['$', g]
    }
}

/// The translation of the first token of a non-empty sed replacement, and the
/// number of characters that token spans.
pub open spec fn template_token(s: Seq<char>) -> (Seq<char>, int) {
    if s[0] == '\\' && s.len() >= 2 {
        let n = s[1];
        if is_ascii_digit(n) {
            (group_reference(n, s, 2), 2)
        } else if n == '&' {
            (seq!['&'], 2)
        } else if n == '\\' {
            (seq!['\\'], 2)
        } else if n == 'n' {
            (seq!['\n'], 2)
        } else if n == 't' {
            (seq!['\t'], 2)
        } else if n == '$' {
            (seq!['$', '$'], 2)
        } else {
            (seq!['\\'], 1)
        }
    } else if s[0] == '&' {
        (group_reference('0', s, 1), 1)
    } else if s[0] == '$' {
        (seq!['$', '$'], 1)
    } else {
        (seq![s[0]], 1)
    }
}

/// A sed replacement rewritten as a regex replacement template:
/// `\d` becomes `$d` and `&` becomes `$0` (braced as `${d}` and `${0}` when a
/// letter, digit or `_` follows, which would otherwise be read as part of
/// the group's name), `\&` a literal `&`, `\$` and `$`
/// a literal `$` (written `$$`), `\n` and `\t` a newline and a tab, `\\` a
/// backslash; any other backslash stays.
pub open spec fn template_of(s: Seq<char>) -> Seq<char>
    decreases s.len(),
{
    if s.len() == 0 {
        seq![]
    } else {
        let (piece, k) = template_token(s);
        piece + template_of(s.skip(k))
    }
}

/// Convert common BRE escapes to ERE: `\{n\}` to `{n}`, `\(` `\)` to `(` `)`,
/// and `\+`, `\?`, `\|` to `+`, `?`, `|`.
pub fn bre_to_ere(pattern: &str) -> (res: String)
    ensures
        res@ == ere_of(pattern@),
{
    let v = chars_of(pattern);
    let n = v.len();
    let mut out: Vec<char> = Vec::new();
    let mut i: usize = 0;
    assert(v@.skip(0) =~= v@);
    while i < n
        invariant
            n == v.len(),
            v@ == pattern@,
            i <= n,
            ere_of(v@) == out@ + ere_of(v@.skip(i as int)),
        decreases n - i,
    {
        let ghost rest = v@.skip(i as int);
        let ghost before = out@;
        let c = v[i];
        if c == '\\' && i + 1 < n && v[i + 1] == '{' {
            out.push('{');
            let start = i + 2;
            let mut j: usize = start;
            let mut closed = false;
            let ghost body = v@.skip(start as int);
            let ghost mid = out@;
            while j < n && !closed
                invariant
                    n == v.len(),
                    start <= j <= n,
                    body == v@.skip(start as int),
                    out@.len() >= mid.len(),
                    out@.take(mid.len() as int) == mid,
                    !closed ==> interval_body(body) == (
                        out@.skip(mid.len() as int) + interval_body(v@.skip(j as int)).0,
                        (j - start) + interval_body(v@.skip(j as int)).1,
                    ),
                    closed ==> interval_body(body) == (out@.skip(mid.len() as int), j - start),
                decreases n - j,
            {
                let ghost seg = v@.skip(j as int);
                let ghost prev = out@;
                assert(seg.skip(1) =~= v@.skip(j + 1));
                if v[j] == '\\' && j + 1 < n && v[j + 1] == '}' {
                    j = j + 2;
                    closed = true;
                } else {
                    out.push(v[j]);
                    j = j + 1;
                    assert(out@.skip(mid.len() as int) =~= prev.skip(mid.len() as int) + seq![seg[0]]);
                }
                assert(out@.take(mid.len() as int) =~= mid);
            }
            proof {
                if !closed {
                    assert(v@.skip(j as int).len() == 0);
                }
            }
            let ghost inner = out@.skip(mid.len() as int);
            assert(out@ =~= mid + inner);
            out.push('}');
            proof {
                assert(rest.skip(2) =~= body);
                assert(body.skip(j - start) =~= v@.skip(j as int));
                assert(ere_token(rest) == (seq!['{'] + inner + seq!['}'], j - i));
                assert(rest.skip(j - i) =~= v@.skip(j as int));
                assert(out@ =~= before + (seq!['{'] + inner + seq!['}']));
            }
            i = j;
        } else if c == '\\' && i + 1 < n && (v[i + 1] == '(' || v[i + 1] == ')' || v[i + 1] == '+'
            || v[i + 1] == '?' || v[i + 1] == '|') {
            out.push(v[i + 1]);
            proof {
                assert(rest.skip(2) =~= v@.skip(i + 2));
            }
            i = i + 2;
        } else {
            out.push(c);
            proof {
                assert(rest.skip(1) =~= v@.skip(i + 1));
            }
            i = i + 1;
        }
        proof {
            lemma_ere_token_len(rest);
        }
    }
    assert(v@.skip(n as int).len() == 0);
    string_of(&out)
}

/// Append the reference to group `g`, the replacement going on at `v[k]`.
fn push_group_reference(out: &mut Vec<char>, g: char, v: &Vec<char>, k: usize)
    ensures
        final(out)@ == old(out)@ + group_reference(g, v@, k as int),
{
    let braced = k < v.len() && (v[k] == '_' || ('0' <= v[k] && v[k] <= '9') || ('a' <= v[k]
        && v[k] <= 'z') || ('A' <= v[k] && v[k] <= 'Z'));
    out.push('$');
    if braced {
        out.push('{');
        out.push(g);
        out.push('}');
    } else {
        out.push(g);
    }
}

/// Convert sed replacement syntax to the regex engine's template syntax:
/// `\1`..`\9` to `$1`..`$9`, `&` to `$0` (braced when a letter, digit or `_`
/// follows), `\&` to a literal `&`.
pub fn convert_replacement(repl: &str) -> (res: String)
    ensures
        res@ == template_of(repl@),
{
    let v = chars_of(repl);
    let n = v.len();
    let mut out: Vec<char> = Vec::new();
    let mut i: usize = 0;
    assert(v@.skip(0) =~= v@);
    while i < n
        invariant
            n == v.len(),
            v@ == repl@,
            i <= n,
            template_of(v@) == out@ + template_of(v@.skip(i as int)),
        decreases n - i,
    {
        let ghost rest = v@.skip(i as int);
        let ghost before = out@;
        let c = v[i];
        let mut step: usize = 1;
        if c == '\\' && i + 1 < n {
            let d = v[i + 1];
            if '0' <= d && d <= '9' {
                push_group_reference(&mut out, d, &v, i + 2);
                step = 2;
            } else if d == '&' {
                out.push('&');
                step = 2;
            } else if d == '\\' {
                out.push('\\');
                step = 2;
            } else if d == 'n' {
                out.push('\n');
                step = 2;
            } else if d == 't' {
                out.push('\t');
                step = 2;
            } else if d == '$' {
                out.push('$');
                out.push('$');
                step = 2;
            } else {
                out.push('\\');
            }
        } else if c == '&' {
            push_group_reference(&mut out, '0', &v, i + 1);
        } else if c == '$' {
            out.push('$');
            out.push('$');
        } else {
            out.push(c);
        }
        proof {
            let (piece, k) = template_token(rest);
            assert(k == step);
            assert(out@ =~= before + piece);
            assert(rest.skip(k) =~= v@.skip(i + step));
        }
        i = i + step;
    }
    assert(v@.skip(n as int).len() == 0);
    string_of(&out)
}

/// No backslash in `s` starts a BRE escape: none is followed by `{`, `(`,
/// `)`, `+`, `?` or `|`.
pub open spec fn has_no_bre_escape(s: Seq<char>) -> bool {
    forall|i: int|
        0 <= i < s.len() - 1 && #[trigger] s[i] == '\\' ==> s[i + 1] != '{' && !is_bre_operator(
            s[i + 1],
        )
}

/// A pattern already in the regex engine's syntax, with no BRE escape in it,
/// is left as it is by the BRE translation (`\d`, `\.` and the like stay).
pub proof fn lemma_ere_of_plain(s: Seq<char>)
    requires
        has_no_bre_escape(s),
    ensures
        ere_of(s) == s,
    decreases s.len(),
{
    if s.len() > 0 {
        let tail = s.skip(1);
        assert(has_no_bre_escape(tail)) by {
            assert forall|i: int|
                0 <= i < tail.len() - 1 && #[trigger] tail[i] == '\\' implies tail[i + 1] != '{'
                && !is_bre_operator(tail[i + 1]) by {
                assert(s[i + 1] == '\\');
                assert(s[i + 2] == tail[i + 1]);
            }
        }
        if s[0] == '\\' && s.len() >= 2 {
            assert(s[1] != '{' && !is_bre_operator(s[1]));
        }
        lemma_ere_of_plain(tail);
        assert(s =~= seq![s[0]] + tail);
    }
}

/// A replacement without `\`, `&` or `$` stands for itself: its template is
/// the same text.
pub proof fn lemma_template_of_plain(s: Seq<char>)
    requires
        !s.contains('\\'),
        !s.contains('&'),
        !s.contains('$'),
    ensures
        template_of(s) == s,
    decreases s.len(),
{
    if s.len() > 0 {
        assert forall|c: char| s.skip(1).contains(c) implies s.contains(c) by {
            let j = choose|j: int| 0 <= j < s.skip(1).len() && s.skip(1)[j] == c;
            assert(s[j + 1] == c);
        }
        assert(s[0] != '\\' && s[0] != '&' && s[0] != '$') by {
            assert(s.contains(s[0]));
        }
        lemma_template_of_plain(s.skip(1));
        assert(s =~= seq![s[0]] + s.skip(1));
    }
}

proof fn lemma_interval_body_copied(b: Seq<char>, rest: Seq<char>)
    requires
        !b.contains('\\'),
    ensures
        interval_body(b + seq!['\\', '}'] + rest) == (b, b.len() + 2int),
    decreases b.len(),
{
    let s = b + seq!['\\', '}'] + rest;
    if b.len() == 0 {
        assert(s[0] == '\\' && s[1] == '}');
    } else {
        let tail = b.skip(1);
        assert(!tail.contains('\\')) by {
            if tail.contains('\\') {
                let j = choose|j: int| 0 <= j < tail.len() && tail[j] == '\\';
                assert(b[j + 1] == '\\');
            }
        }
        assert(b[0] != '\\') by {
            assert(b.contains(b[0]));
        }
        lemma_interval_body_copied(tail, rest);
        assert(s.skip(1) =~= tail + seq!['\\', '}'] + rest);
        assert(b =~= seq![b[0]] + tail);
    }
}

/// A BRE interval `\{b\}` becomes `{b}` with its body copied as it is (the
/// counts, a comma and an open upper bound included), and the rest of the
/// pattern is translated on its own.
pub proof fn lemma_interval_copied(b: Seq<char>, rest: Seq<char>)
    requires
        !b.contains('\\'),
    ensures
        ere_of(seq!['\\', '{'] + b + seq!['\\', '}'] + rest) == seq!['{'] + b + seq!['}'] + ere_of(
            rest,
        ),
{
    let s = seq!['\\', '{'] + b + seq!['\\', '}'] + rest;
    assert(s.skip(2) =~= b + seq!['\\', '}'] + rest);
    lemma_interval_body_copied(b, rest);
    lemma_ere_token_len(s);
    assert(s.skip(2int + b.len() + 2int) =~= rest);
}

/// Text without `\`, `&` or `$` in front of a replacement is kept as it is,
/// and the rest is translated on its own.
pub proof fn lemma_template_of_plain_prefix(a: Seq<char>, c: Seq<char>)
    requires
        !a.contains('\\'),
        !a.contains('&'),
        !a.contains('$'),
    ensures
        template_of(a + c) == a + template_of(c),
    decreases a.len(),
{
    if a.len() > 0 {
        let tail = a.skip(1);
        assert forall|x: char| tail.contains(x) implies a.contains(x) by {
            let j = choose|j: int| 0 <= j < tail.len() && tail[j] == x;
            assert(a[j + 1] == x);
        }
        assert(a[0] != '\\' && a[0] != '&' && a[0] != '$') by {
            assert(a.contains(a[0]));
        }
        lemma_template_of_plain_prefix(tail, c);
        assert((a + c).skip(1) =~= tail + c);
        assert(a =~= seq![a[0]] + tail);
    } else {
        assert(a + c =~= c);
    }
}

/// A `$` in a sed replacement, bare or written `\$`, is a literal dollar:
/// it becomes `$$` at its place, whatever comes after it.
pub proof fn lemma_dollar_is_literal(a: Seq<char>, b: Seq<char>)
    requires
        !a.contains('\\'),
        !a.contains('&'),
        !a.contains('$'),
    ensures
        template_of(a + seq!['$'] + b) == a + seq!['$', '$'] + template_of(b),
        template_of(a + seq!['\\', '$'] + b) == a + seq!['$', '$'] + template_of(b),
{
    let s1 = seq!['$'] + b;
    let s2 = seq!['\\', '$'] + b;
    lemma_template_of_plain_prefix(a, s1);
    lemma_template_of_plain_prefix(a, s2);
    assert(a + seq!['$'] + b =~= a + s1);
    assert(a + seq!['\\', '$'] + b =~= a + s2);
    assert(s1.skip(1) =~= b);
    assert(s2.skip(2) =~= b);
}

/// Text without backslashes in front of a pattern is kept as it is, and the
/// rest is translated on its own.
pub proof fn lemma_ere_of_plain_prefix(a: Seq<char>, c: Seq<char>)
    requires
        !a.contains('\\'),
    ensures
        ere_of(a + c) == a + ere_of(c),
    decreases a.len(),
{
    if a.len() > 0 {
        let tail = a.skip(1);
        assert(!tail.contains('\\')) by {
            if tail.contains('\\') {
                let j = choose|j: int| 0 <= j < tail.len() && tail[j] == '\\';
                assert(a[j + 1] == '\\');
            }
        }
        assert(a[0] != '\\') by {
            assert(a.contains(a[0]));
        }
        lemma_ere_of_plain_prefix(tail, c);
        lemma_ere_token_len(a + c);
        assert((a + c).skip(1) =~= tail + c);
        assert(a =~= seq![a[0]] + tail);
    } else {
        assert(a + c =~= c);
    }
}

/// The BRE escapes `\(`, `\)`, `\+`, `\?` and `\|` become the bare
/// operator at their place; a backslash before any other character except
/// `{` is kept, and that character is read as the start of the rest.
pub proof fn lemma_bre_escapes(a: Seq<char>, x: char, b: Seq<char>)
    requires
        !a.contains('\\'),
    ensures
        (x == '(' || x == ')' || x == '+' || x == '?' || x == '|') ==> ere_of(
            a + seq!['\\', x] + b,
        ) == a + seq![x] + ere_of(b),
        !(x == '(' || x == ')' || x == '+' || x == '?' || x == '|' || x == '{') ==> ere_of(
            a + seq!['\\', x] + b,
        ) == a + seq!['\\'] + ere_of(seq![x] + b),
{
    let c = seq!['\\', x] + b;
    lemma_ere_of_plain_prefix(a, c);
    assert(a + seq!['\\', x] + b =~= a + c);
    lemma_ere_token_len(c);
    assert(c.skip(2) =~= b);
    assert(c.skip(1) =~= seq![x] + b);
}

/// The replacement tokens, at their place after plain text and whatever
/// follows them: `&` is the whole match `$0` and `\d` (a digit) group `d`,
/// each braced as `${0}`/`${d}` exactly when a letter, digit or `_` follows;
/// `\&` is a literal `&`, `\\` a backslash, `\n` a newline and `\t` a tab.
pub proof fn lemma_replacement_tokens(a: Seq<char>, g: char, b: Seq<char>)
    requires
        !a.contains('\\'),
        !a.contains('&'),
        !a.contains('$'),
        '0' <= g <= '9',
    ensures
        (b.len() > 0 && (b[0] == '_' || ('0' <= b[0] <= '9') || ('a' <= b[0] <= 'z') || ('A'
            <= b[0] <= 'Z'))) ==> template_of(a + seq!['&'] + b) == a + seq!['$', '{', '0', '}']
            + template_of(b) && template_of(a + seq!['\\', g] + b) == a + seq!['$', '{', g, '}']
            + template_of(b),
        !(b.len() > 0 && (b[0] == '_' || ('0' <= b[0] <= '9') || ('a' <= b[0] <= 'z') || ('A'
            <= b[0] <= 'Z'))) ==> template_of(a + seq!['&'] + b) == a + seq!['$', '0']
            + template_of(b) && template_of(a + seq!['\\', g] + b) == a + seq!['$', g]
            + template_of(b),
        template_of(a + seq!['\\', '&'] + b) == a + seq!['&'] + template_of(b),
        template_of(a + seq!['\\', '\\'] + b) == a + seq!['\\'] + template_of(b),
        template_of(a + seq!['\\', 'n'] + b) == a + seq!['\n'] + template_of(b),
        template_of(a + seq!['\\', 't'] + b) == a + seq!['\t'] + template_of(b),
{
    let amp = seq!['&'] + b;
    lemma_template_of_plain_prefix(a, amp);
    assert(a + seq!['&'] + b =~= a + amp);
    assert(amp.skip(1) =~= b);
    assert(amp.len() > 1 ==> amp[1] == b[0]);
    let refs = seq!['\\', g] + b;
    lemma_template_of_plain_prefix(a, refs);
    assert(a + seq!['\\', g] + b =~= a + refs);
    assert(refs.skip(2) =~= b);
    assert(refs.len() > 2 ==> refs[2] == b[0]);
    let e1 = seq!['\\', '&'] + b;
    let e2 = seq!['\\', '\\'] + b;
    let e3 = seq!['\\', 'n'] + b;
    let e4 = seq!['\\', 't'] + b;
    lemma_template_of_plain_prefix(a, e1);
    lemma_template_of_plain_prefix(a, e2);
    lemma_template_of_plain_prefix(a, e3);
    lemma_template_of_plain_prefix(a, e4);
    assert(a + seq!['\\', '&'] + b =~= a + e1);
    assert(a + seq!['\\', '\\'] + b =~= a + e2);
    assert(a + seq!['\\', 'n'] + b =~= a + e3);
    assert(a + seq!['\\', 't'] + b =~= a + e4);
    assert(e1.skip(2) =~= b);
    assert(e2.skip(2) =~= b);
    assert(e3.skip(2) =~= b);
    assert(e4.skip(2) =~= b);
}

} // verus!
