//! Substitution commands and the `Sed` program that applies them in order.

use vstd::prelude::*;
use crate::command::{
    all_separators, commands_of, fields_of, is_flag_text, is_plain_field, lemma_commands_of_cut,
    lemma_flags_len_all, lemma_plain_field_closed, lemma_plain_field_open,
    lemma_plain_field_subst_len, parse_s_fields, split_commands, split_from, subst_len, ParseError,
    all_alphabetic, is_written_field, lemma_split_keeps_substitution, lemma_written_field_closed,
    lemma_written_field_open, unescape_field,
};
use crate::escapes::{
    bre_to_ere, convert_replacement, ere_of, has_no_bre_escape, lemma_ere_of_plain, template_of,
};
use crate::pattern::{
    compile_pattern, regex_error, regex_replace_all, regex_replace_first, replace_all,
    replace_first, CompiledPattern,
};
use crate::text::{
    char_is_alphabetic, char_is_whitespace, chars_of, concat_str, lemma_trimmed_empty_iff, string_of,
    string_of_range, trim_chars, trim_end, trim_start, trimmed,
};

verus! {

/// What a substitution command does: the regex pattern it searches for (in
/// the regex engine's syntax, `(?i)` in front when it ignores case), the
/// replacement template, and whether it replaces every match or the first.
pub struct SubstSpec {
    pub pattern: Seq<char>,
    pub replacement: Seq<char>,
    pub global: bool,
}

/// A parsed sed substitution command.
#[derive(Debug)]
pub struct SubstCmd {
    pattern: CompiledPattern,
    replacement: String,
    global: bool,
}

impl View for SubstCmd {
    type V = SubstSpec;

    closed spec fn view(&self) -> SubstSpec {
        SubstSpec { pattern: self.pattern@, replacement: self.replacement@, global: self.global }
    }
}

/// A sequence of sed commands to apply to each line.
#[derive(Debug)]
pub struct Sed {
    commands: Vec<SubstCmd>,
}

impl View for Sed {
    type V = Seq<SubstSpec>;

    closed spec fn view(&self) -> Seq<SubstSpec> {
        self.commands@.map_values(|c: SubstCmd| c@)
    }
}

impl Clone for SubstCmd {
    fn clone(&self) -> (r: Self)
        ensures
            r@ == self@,
    {
        SubstCmd {
            pattern: self.pattern.clone(),
            replacement: self.replacement.clone(),
            global: self.global,
        }
    }
}

impl Clone for Sed {
    fn clone(&self) -> (r: Self)
        ensures
            r@ == self@,
    {
        proof {
            use_type_invariant(self);
        }
        let r = Sed { commands: self.commands.clone() };
        assert(r@ =~= self@);
        r
    }
}

impl Sed {
    /// A `Sed` always holds at least one command.
    #[verifier::type_invariant]
    closed spec fn has_commands(self) -> bool {
        self.commands.len() > 0
    }
}

/// `f` holds the flag `c`.
pub open spec fn has_flag(f: Seq<char>, c: char) -> bool {
    f.contains(c)
}

/// The regex that a sed pattern with flags `f` searches for: its BRE
/// escapes translated, and `(?i)` in front when `f` holds `i` or `I`.
pub open spec fn regex_text(p: Seq<char>, f: Seq<char>) -> Seq<char> {
    if has_flag(f, 'i') || has_flag(f, 'I') {
        "(?i)"@ + ere_of(p)
    } else {
        ere_of(p)
    }
}

/// The regex pattern, replacement template and global flag that a command
/// `s<d>pattern<d>replacement<d>flags` stands for, or the message of what is
/// wrong with its syntax. The regex is not compiled here.
pub open spec fn subst_syntax(cmd: Seq<char>) -> Result<(Seq<char>, Seq<char>, bool), Seq<char>> {
    if cmd.len() == 0 || cmd[0] != 's' {
        Err("unsupported command: "@ + cmd)
    } else if cmd.len() < 2 {
        Err("unexpected end of substitution"@)
    } else {
        match fields_of(cmd.skip(2), cmd[1]) {
            None => Err("incomplete substitution command"@),
            Some((p, r, f)) => Ok((regex_text(p, f), template_of(r), has_flag(f, 'g'))),
        }
    }
}

/// The substitution a command text stands for, or the message of the error
/// that parsing it gives, a regex that does not compile included.
pub open spec fn subst_of(cmd: Seq<char>) -> Result<SubstSpec, Seq<char>> {
    match subst_syntax(cmd) {
        Err(m) => Err(m),
        Ok((pattern, replacement, global)) => match regex_error(pattern) {
            Some(m) => Err("invalid regex: "@ + m),
            None => Ok(SubstSpec { pattern, replacement, global }),
        },
    }
}

/// The commands of all expressions, in order.
pub open spec fn all_commands(exprs: Seq<Seq<char>>) -> Seq<Seq<char>>
    decreases exprs.len(),
{
    if exprs.len() == 0 {
        seq![]
    } else {
        all_commands(exprs.drop_last()) + commands_of(exprs.last())
    }
}

/// The substitutions of a list of command texts, each trimmed, blank ones
/// skipped; or the error of the first one that does not parse.
pub open spec fn parse_commands(cmds: Seq<Seq<char>>) -> Result<Seq<SubstSpec>, Seq<char>>
    decreases cmds.len(),
{
    if cmds.len() == 0 {
        Ok(seq![])
    } else {
        match parse_commands(cmds.drop_last()) {
            Err(m) => Err(m),
            Ok(done) => {
                let t = trimmed(cmds.last());
                if t.len() == 0 {
                    Ok(done)
                } else {
                    match subst_of(t) {
                        Err(m) => Err(m),
                        Ok(c) => Ok(done.push(c)),
                    }
                }
            },
        }
    }
}

/// What parsing a list of expressions gives: their substitutions in order,
/// or the error of the first command that does not parse, or an error when
/// there is no command at all.
pub open spec fn parse_spec(exprs: Seq<Seq<char>>) -> Result<Seq<SubstSpec>, Seq<char>> {
    match parse_commands(all_commands(exprs)) {
        Err(m) => Err(m),
        Ok(cmds) => if cmds.len() == 0 {
            Err("no commands provided"@)
        } else {
            Ok(cmds)
        },
    }
}

/// The texts of the expressions.
pub open spec fn texts(exprs: Seq<&str>) -> Seq<Seq<char>> {
    exprs.map_values(|e: &str| e@)
}

/// One substitution applied to a text.
pub open spec fn apply_subst(c: SubstSpec, text: Seq<char>) -> Seq<char> {
    if c.global {
        regex_replace_all(c.pattern, text, c.replacement)
    } else {
        regex_replace_first(c.pattern, text, c.replacement)
    }
}

/// The substitutions applied to a text one after the other, in order.
pub open spec fn apply_all(cmds: Seq<SubstSpec>, text: Seq<char>) -> Seq<char>
    decreases cmds.len(),
{
    if cmds.len() == 0 {
        text
    } else {
        apply_subst(cmds.last(), apply_all(cmds.drop_last(), text))
    }
}

/// Parse a single `s/pattern/replacement/flags` command.
pub(crate) fn parse_subst(cmd: &str) -> (res: Result<SubstCmd, ParseError>)
    ensures
        match subst_of(cmd@) {
            Ok(s) => res matches Ok(c) && c@ == s,
            Err(m) => res matches Err(e) && e.0@ == m,
        },
{
    let v = chars_of(cmd);
    let n = v.len();
    if n == 0 || v[0] != 's' {
        return Err(ParseError(concat_str("unsupported command: ", cmd)));
    }
    if n < 2 {
        return Err(ParseError("unexpected end of substitution".to_owned()));
    }
    let delim = v[1];
    let rest = string_of_range(&v, 2, n);
    assert(rest@ =~= cmd@.skip(2));
    let (pattern_text, replacement_text, flags) = match parse_s_fields(rest.as_str(), delim) {
        Ok(fields) => fields,
        Err(e) => return Err(e),
    };
    let fv = chars_of(flags.as_str());
    let global = contains_char(&fv, 'g');
    let case_insensitive = contains_char(&fv, 'i') || contains_char(&fv, 'I');
    let ere = bre_to_ere(pattern_text.as_str());
    let regex_text = if case_insensitive {
        concat_str("(?i)", ere.as_str())
    } else {
        ere
    };
    let pattern = match compile_pattern(regex_text.as_str()) {
        Ok(p) => p,
        Err(m) => return Err(ParseError(concat_str("invalid regex: ", m.as_str()))),
    };
    let replacement = convert_replacement(replacement_text.as_str());
    Ok(SubstCmd { pattern, replacement, global })
}

/// Whether `v` holds the character `c`.
fn contains_char(v: &Vec<char>, c: char) -> (b: bool)
    ensures
        b == v@.contains(c),
{
    let mut i: usize = 0;
    while i < v.len()
        invariant
            i <= v.len(),
            forall|j: int| 0 <= j < i ==> v@[j] != c,
        decreases v.len() - i,
    {
        if v[i] == c {
            return true;
        }
        i = i + 1;
    }
    false
}

/// When the commands up to `k` already fail, the whole list fails with the
/// same error.
proof fn lemma_parse_commands_failed_prefix(cmds: Seq<Seq<char>>, k: int)
    requires
        0 <= k <= cmds.len(),
        parse_commands(cmds.take(k)) is Err,
    ensures
        parse_commands(cmds) == parse_commands(cmds.take(k)),
    decreases cmds.len() - k,
{
    if k == cmds.len() {
        assert(cmds.take(k) =~= cmds);
    } else {
        let shorter = cmds.drop_last();
        assert(shorter.take(k) =~= cmds.take(k));
        lemma_parse_commands_failed_prefix(shorter, k);
    }
}

impl Sed {
    /// Parse one or more sed expressions (each may contain `;`-separated
    /// commands).
    pub fn parse(expressions: &[&str]) -> (res: Result<Sed, ParseError>)
        ensures
            match parse_spec(texts(expressions@)) {
                Ok(cmds) => res matches Ok(sed) && sed@ == cmds,
                Err(m) => res matches Err(e) && e.0@ == m,
            },
            res matches Ok(sed) ==> sed@.len() > 0,
    {
        let ghost exprs = texts(expressions@);
        let mut flat: Vec<String> = Vec::new();
        let ghost mut flat_v: Seq<Seq<char>> = seq![];
        let mut i: usize = 0;
        while i < expressions.len()
            invariant
                i <= expressions.len(),
                exprs == texts(expressions@),
                flat.len() == flat_v.len(),
                forall|k: int| 0 <= k < flat.len() ==> #[trigger] flat@[k]@ == flat_v[k],
                flat_v == all_commands(exprs.take(i as int)),
            decreases expressions.len() - i,
        {
            let cmds = split_commands(expressions[i]);
            let ghost base = flat_v;
            let mut j: usize = 0;
            while j < cmds.len()
                invariant
                    j <= cmds.len(),
                    flat.len() == flat_v.len(),
                    forall|k: int| 0 <= k < flat.len() ==> #[trigger] flat@[k]@ == flat_v[k],
                    cmds.len() == commands_of(expressions@[i as int]@).len(),
                    forall|k: int|
                        0 <= k < cmds.len() ==> #[trigger] cmds@[k]@ == commands_of(
                            expressions@[i as int]@,
                        )[k],
                    flat_v == base + commands_of(expressions@[i as int]@).take(j as int),
                decreases cmds.len() - j,
            {
                let c = cmds[j].clone();
                proof {
                    flat_v = flat_v.push(c@);
                    assert(flat_v =~= base + commands_of(expressions@[i as int]@).take(j + 1));
                }
                flat.push(c);
                j = j + 1;
            }
            proof {
                let t = exprs.take(i + 1);
                assert(t.drop_last() =~= exprs.take(i as int));
                assert(t.last() == expressions@[i as int]@);
                assert(commands_of(expressions@[i as int]@).take(j as int) =~= commands_of(
                    expressions@[i as int]@,
                ));
            }
            i = i + 1;
        }
        assert(exprs.take(expressions.len() as int) =~= exprs);
        let mut commands: Vec<SubstCmd> = Vec::new();
        let ghost mut specs: Seq<SubstSpec> = seq![];
        let mut k: usize = 0;
        assert(flat_v.take(0) =~= seq![]);
        while k < flat.len()
            invariant
                k <= flat.len() == flat_v.len(),
                forall|m: int| 0 <= m < flat.len() ==> #[trigger] flat@[m]@ == flat_v[m],
                flat_v == all_commands(exprs),
                exprs == texts(expressions@),
                parse_commands(flat_v.take(k as int)) == Ok::<Seq<SubstSpec>, Seq<char>>(specs),
                commands.len() == specs.len(),
                forall|m: int| 0 <= m < commands.len() ==> #[trigger] commands@[m]@ == specs[m],
            decreases flat.len() - k,
        {
            let t = trim_chars(flat[k].as_str());
            proof {
                let pre = flat_v.take(k + 1);
                assert(pre.drop_last() =~= flat_v.take(k as int));
                assert(pre.last() == flat@[k as int]@);
            }
            if t.len() != 0 {
                let ts = string_of(&t);
                match parse_subst(ts.as_str()) {
                    Ok(c) => {
                        proof {
                            specs = specs.push(c@);
                        }
                        commands.push(c);
                    },
                    Err(e) => {
                        proof {
                            let pre = flat_v.take(k + 1);
                            assert(trimmed(pre.last()) == ts@);
                            assert(parse_commands(pre) == Err::<Seq<SubstSpec>, Seq<char>>(e.0@));
                            lemma_parse_commands_failed_prefix(flat_v, k + 1);
                        }
                        return Err(e);
                    },
                }
            }
            k = k + 1;
        }
        assert(flat_v.take(flat.len() as int) =~= flat_v);
        if commands.len() == 0 {
            return Err(ParseError("no commands provided".to_owned()));
        }
        let sed = Sed { commands };
        assert(sed@ =~= specs);
        Ok(sed)
    }

    /// Apply all substitution commands to a single line.
    pub fn apply(&self, line: &str) -> (res: String)
        ensures
            res@ == apply_all(self@, line@),
    {
        let mut result = line.to_owned();
        let mut i: usize = 0;
        let ghost cmds = self@;
        assert(cmds.take(0) =~= seq![]);
        while i < self.commands.len()
            invariant
                i <= self.commands.len(),
                cmds == self@,
                cmds.len() == self.commands.len(),
                result@ == apply_all(cmds.take(i as int), line@),
            decreases self.commands.len() - i,
        {
            let cmd = &self.commands[i];
            let next = if cmd.global {
                replace_all(&cmd.pattern, result.as_str(), cmd.replacement.as_str())
            } else {
                replace_first(&cmd.pattern, result.as_str(), cmd.replacement.as_str())
            };
            proof {
                let pre = cmds.take(i + 1);
                assert(pre.drop_last() =~= cmds.take(i as int));
                assert(pre.last() == cmd@);
            }
            result = next;
            i = i + 1;
        }
        assert(cmds.take(i as int) =~= cmds);
        result
    }
}

proof fn lemma_all_commands_append(xs: Seq<Seq<char>>, ys: Seq<Seq<char>>)
    ensures
        all_commands(xs + ys) == all_commands(xs) + all_commands(ys),
    decreases ys.len(),
{
    if ys.len() == 0 {
        assert(xs + ys =~= xs);
        assert(all_commands(xs) + all_commands(ys) =~= all_commands(xs));
    } else {
        lemma_all_commands_append(xs, ys.drop_last());
        assert((xs + ys).drop_last() =~= xs + ys.drop_last());
        assert((xs + ys).last() == ys.last());
        assert(all_commands(xs) + all_commands(ys) =~= all_commands(xs) + all_commands(
            ys.drop_last(),
        ) + commands_of(ys.last()));
    }
}

proof fn lemma_parse_commands_append(c1: Seq<Seq<char>>, c2: Seq<Seq<char>>)
    requires
        parse_commands(c1) is Ok,
        parse_commands(c2) is Ok,
    ensures
        parse_commands(c1 + c2) == Ok::<Seq<SubstSpec>, Seq<char>>(
            parse_commands(c1)->Ok_0 + parse_commands(c2)->Ok_0,
        ),
    decreases c2.len(),
{
    if c2.len() == 0 {
        assert(c1 + c2 =~= c1);
        assert(parse_commands(c1)->Ok_0 + parse_commands(c2)->Ok_0 =~= parse_commands(c1)->Ok_0);
    } else {
        lemma_parse_commands_append(c1, c2.drop_last());
        assert((c1 + c2).drop_last() =~= c1 + c2.drop_last());
        assert((c1 + c2).last() == c2.last());
        let a = parse_commands(c1)->Ok_0;
        let b0 = parse_commands(c2.drop_last())->Ok_0;
        let t = trimmed(c2.last());
        if t.len() != 0 {
            let c = subst_of(t)->Ok_0;
            assert(a + b0.push(c) =~= (a + b0).push(c));
        }
    }
}

proof fn lemma_apply_all_append(a: Seq<SubstSpec>, b: Seq<SubstSpec>, text: Seq<char>)
    ensures
        apply_all(a + b, text) == apply_all(b, apply_all(a, text)),
    decreases b.len(),
{
    if b.len() == 0 {
        assert(a + b =~= a);
    } else {
        lemma_apply_all_append(a, b.drop_last(), text);
        assert((a + b).drop_last() =~= a + b.drop_last());
        assert((a + b).last() == b.last());
    }
}

/// Giving several expressions is giving their commands one after the other:
/// when each list of expressions parses, so does the two together, into the
/// commands of the first followed by those of the second, and applying them
/// to a line is applying the first program and then the second.
pub proof fn lemma_expressions_compose(xs: Seq<Seq<char>>, ys: Seq<Seq<char>>, line: Seq<char>)
    requires
        parse_spec(xs) is Ok,
        parse_spec(ys) is Ok,
    ensures
        parse_spec(xs + ys) == Ok::<Seq<SubstSpec>, Seq<char>>(
            parse_spec(xs)->Ok_0 + parse_spec(ys)->Ok_0,
        ),
        apply_all(parse_spec(xs + ys)->Ok_0, line) == apply_all(
            parse_spec(ys)->Ok_0,
            apply_all(parse_spec(xs)->Ok_0, line),
        ),
{
    lemma_all_commands_append(xs, ys);
    lemma_parse_commands_append(all_commands(xs), all_commands(ys));
    lemma_apply_all_append(parse_spec(xs)->Ok_0, parse_spec(ys)->Ok_0, line);
}

/// The command `s<d>p<d>r<d>f`.
pub open spec fn written_command(d: char, p: Seq<char>, r: Seq<char>, f: Seq<char>) -> Seq<char> {
    seq!['s', d] + p + seq![d] + r + seq![d] + f
}

/// `s<d>p<d>r<d>f` is written so that it reads back as those fields: the
/// delimiter is no backslash, the pattern and replacement are plain fields,
/// the flags are letters, and the command does not end in whitespace that
/// trimming would take from the replacement.
pub open spec fn is_well_written(d: char, p: Seq<char>, r: Seq<char>, f: Seq<char>) -> bool {
    &&& d != '\\'
    &&& is_plain_field(p, d)
    &&& is_plain_field(r, d)
    &&& is_flag_text(f)
    &&& (f.len() > 0 || !char_is_whitespace(d) || (r.len() > 0 && !char_is_whitespace(
        r.last(),
    )))
}

proof fn lemma_written_command_split(d: char, p: Seq<char>, r: Seq<char>, f: Seq<char>)
    requires
        is_well_written(d, p, r, f),
    ensures
        commands_of(written_command(d, p, r, f)) == seq![written_command(d, p, r, f)],
{
    let c = written_command(d, p, r, f);
    let body = p + seq![d] + r + seq![d] + f;
    assert(c.skip(2) =~= body);
    lemma_flags_len_all(f);
    assert(body =~= p + (seq![d] + r + seq![d] + f));
    lemma_plain_field_subst_len(p, d, seq![d] + r + seq![d] + f, false);
    let after_p = seq![d] + r + seq![d] + f;
    assert(after_p.skip(1) =~= r + (seq![d] + f));
    lemma_plain_field_subst_len(r, d, seq![d] + f, true);
    assert((seq![d] + f).skip(1) =~= f);
    let k = subst_len(c.skip(2), c[1], false);
    assert(k == body.len());
    let e: Seq<char> = seq![];
    assert(trimmed(e) =~= e);
    assert(e + c.take(2 + k) =~= c);
    assert(c.skip(2 + k) =~= e);
    assert(split_from(e, e) =~= Seq::<Seq<char>>::empty());
    assert(split_from(c, e) =~= seq![c]);
}

proof fn lemma_written_command_fields(d: char, p: Seq<char>, r: Seq<char>, f: Seq<char>)
    requires
        is_well_written(d, p, r, f),
    ensures
        subst_syntax(trimmed(written_command(d, p, r, f))) == Ok::<
            (Seq<char>, Seq<char>, bool),
            Seq<char>,
        >((regex_text(p, f), template_of(r), has_flag(f, 'g'))),
{
    let c = written_command(d, p, r, f);
    assert(c[0] == 's');
    assert(!char_is_whitespace(c[0]));
    if f.len() > 0 || !char_is_whitespace(d) {
        if f.len() > 0 {
            assert(c.last() == f[f.len() - 1]);
            assert(char_is_alphabetic(f[f.len() - 1]) && !char_is_whitespace(f[f.len() - 1]));
        }
        assert(!char_is_whitespace(c.last()));
        assert(trim_start(c) == c);
        assert(trim_end(c) == c);
        let body = c.skip(2);
        assert(body =~= p + seq![d] + (r + seq![d] + f));
        lemma_plain_field_closed(p, d, r + seq![d] + f);
        assert(body.skip(p.len() + 1int) =~= r + seq![d] + f);
        lemma_plain_field_closed(r, d, f);
        assert(body.skip(p.len() + 1int + (r.len() + 1int)) =~= f);
    } else {
        let c2 = c.drop_last();
        assert(c.last() == d);
        assert(c2 =~= seq!['s', d] + p + seq![d] + r);
        assert(c2.last() == r.last());
        assert(trim_start(c) == c);
        assert(trim_end(c2) == c2);
        assert(trim_end(c) == c2);
        let body = c2.skip(2);
        assert(body =~= p + seq![d] + r);
        lemma_plain_field_closed(p, d, r);
        assert(body.skip(p.len() + 1int) =~= r);
        lemma_plain_field_open(r, d);
    }
}

/// A well-written command `s<d>p<d>r<d>f`, given alone, is one command: it
/// parses to what its fields say, or to the error of its regex.
pub proof fn lemma_parse_written_command(d: char, p: Seq<char>, r: Seq<char>, f: Seq<char>)
    requires
        is_well_written(d, p, r, f),
    ensures
        parse_spec(seq![written_command(d, p, r, f)]) == match regex_error(regex_text(p, f)) {
            Some(m) => Err::<Seq<SubstSpec>, Seq<char>>("invalid regex: "@ + m),
            None => Ok(
                seq![
                    SubstSpec {
                        pattern: regex_text(p, f),
                        replacement: template_of(r),
                        global: has_flag(f, 'g'),
                    },
                ],
            ),
        },
{
    let c = written_command(d, p, r, f);
    lemma_written_command_split(d, p, r, f);
    lemma_written_command_fields(d, p, r, f);
    let exprs = seq![c];
    let none: Seq<Seq<char>> = seq![];
    assert(exprs.drop_last() =~= none);
    assert(all_commands(none) =~= none);
    assert(all_commands(exprs) =~= seq![c]);
    let cmds = all_commands(exprs);
    assert(cmds.drop_last() =~= none);
    assert(parse_commands(none) == Ok::<Seq<SubstSpec>, Seq<char>>(seq![]));
    assert(trimmed(c).len() > 0) by {
        lemma_trimmed_empty_iff(c);
        assert(!char_is_whitespace(c[0]));
    }
}

/// The delimiter is the writer's choice: the same fields written with two
/// delimiters give the same program.
pub proof fn lemma_delimiter_choice(
    d1: char,
    d2: char,
    p: Seq<char>,
    r: Seq<char>,
    f: Seq<char>,
)
    requires
        is_well_written(d1, p, r, f),
        is_well_written(d2, p, r, f),
    ensures
        parse_spec(seq![written_command(d1, p, r, f)]) == parse_spec(
            seq![written_command(d2, p, r, f)],
        ),
{
    lemma_parse_written_command(d1, p, r, f);
    lemma_parse_written_command(d2, p, r, f);
}

/// A BRE-style pattern and its ERE-style form give the same program: when
/// `q` has no BRE escape and is what `p`'s escapes translate to, the command
/// written with `p` and the one written with `q` parse alike.
pub proof fn lemma_bre_ere_forms(
    d: char,
    p: Seq<char>,
    q: Seq<char>,
    r: Seq<char>,
    f: Seq<char>,
)
    requires
        is_well_written(d, p, r, f),
        is_well_written(d, q, r, f),
        has_no_bre_escape(q),
        ere_of(p) == q,
    ensures
        parse_spec(seq![written_command(d, p, r, f)]) == parse_spec(
            seq![written_command(d, q, r, f)],
        ),
{
    lemma_ere_of_plain(q);
    lemma_parse_written_command(d, p, r, f);
    lemma_parse_written_command(d, q, r, f);
}

proof fn lemma_all_commands_cut(exprs: Seq<Seq<char>>)
    ensures
        all_commands(exprs).len() == 0 <==> forall|i: int|
            0 <= i < exprs.len() ==> #[trigger] all_separators(exprs[i]),
        forall|k: int|
            0 <= k < all_commands(exprs).len() ==> #[trigger] trimmed(all_commands(exprs)[k]).len()
                > 0,
    decreases exprs.len(),
{
    if exprs.len() > 0 {
        let front = exprs.drop_last();
        let last = exprs.last();
        lemma_all_commands_cut(front);
        lemma_commands_of_cut(last);
        let all = all_commands(exprs);
        assert(all == all_commands(front) + commands_of(last));
        assert forall|k: int| 0 <= k < all.len() implies #[trigger] trimmed(all[k]).len() > 0 by {
            if k < all_commands(front).len() {
                assert(all[k] == all_commands(front)[k]);
            } else {
                assert(all[k] == commands_of(last)[k - all_commands(front).len()]);
            }
        }
        if forall|i: int| 0 <= i < exprs.len() ==> #[trigger] all_separators(exprs[i]) {
            assert forall|i: int| 0 <= i < front.len() implies #[trigger] all_separators(
                front[i],
            ) by {
                assert(front[i] == exprs[i]);
            }
            assert(all_separators(exprs[exprs.len() - 1]));
        }
        if all.len() == 0 {
            assert forall|i: int| 0 <= i < exprs.len() implies #[trigger] all_separators(
                exprs[i],
            ) by {
                if i < front.len() {
                    assert(front[i] == exprs[i]);
                }
            }
        }
    }
}

proof fn lemma_subst_error_message(t: Seq<char>)
    ensures
        subst_of(t) matches Err(m) ==> m != "no commands provided"@,
{
    reveal_strlit("no commands provided");
    reveal_strlit("unsupported command: ");
    reveal_strlit("unexpected end of substitution");
    reveal_strlit("incomplete substitution command");
    reveal_strlit("invalid regex: ");
    if let Err(m) = subst_of(t) {
        assert(m[0] != "no commands provided"@[0]);
    }
}

proof fn lemma_parse_commands_nonblank(cmds: Seq<Seq<char>>)
    requires
        cmds.len() > 0,
        forall|k: int| 0 <= k < cmds.len() ==> #[trigger] trimmed(cmds[k]).len() > 0,
    ensures
        match parse_commands(cmds) {
            Ok(x) => x.len() > 0,
            Err(m) => m != "no commands provided"@,
        },
    decreases cmds.len(),
{
    let front = cmds.drop_last();
    if front.len() > 0 {
        assert forall|k: int| 0 <= k < front.len() implies #[trigger] trimmed(front[k]).len()
            > 0 by {
            assert(front[k] == cmds[k]);
        }
        lemma_parse_commands_nonblank(front);
    } else {
        assert(parse_commands(front) == Ok::<Seq<SubstSpec>, Seq<char>>(seq![]));
    }
    assert(trimmed(cmds[cmds.len() - 1]).len() > 0);
    assert(cmds.last() == cmds[cmds.len() - 1]);
    lemma_subst_error_message(trimmed(cmds.last()));
    match parse_commands(front) {
        Err(m) => {},
        Ok(done) => {
            match subst_of(trimmed(cmds.last())) {
                Err(m) => {},
                Ok(c) => {
                    assert(done.push(c).len() > 0);
                },
            }
        },
    }
}

/// "no commands provided" is the answer exactly when the expressions hold
/// nothing but `;` and whitespace (no expressions at all included).
pub proof fn lemma_no_commands(exprs: Seq<Seq<char>>)
    ensures
        parse_spec(exprs) == Err::<Seq<SubstSpec>, Seq<char>>("no commands provided"@) <==> forall|
            i: int,
        |
            0 <= i < exprs.len() ==> #[trigger] all_separators(exprs[i]),
{
    lemma_all_commands_cut(exprs);
    let cmds = all_commands(exprs);
    if cmds.len() == 0 {
        assert(parse_commands(cmds) == Ok::<Seq<SubstSpec>, Seq<char>>(seq![]));
    } else {
        lemma_parse_commands_nonblank(cmds);
    }
}

/// What applying a program does to a line: the last command works on what
/// the commands before it made of the line; without the `g` flag it replaces
/// only the first match (whatever its replacement), with it every match.
pub proof fn lemma_apply_last_command(cmds: Seq<SubstSpec>, c: SubstSpec, line: Seq<char>)
    ensures
        !c.global ==> apply_all(cmds.push(c), line) == regex_replace_first(
            c.pattern,
            apply_all(cmds, line),
            c.replacement,
        ),
        c.global ==> apply_all(cmds.push(c), line) == regex_replace_all(
            c.pattern,
            apply_all(cmds, line),
            c.replacement,
        ),
{
    assert(cmds.push(c).drop_last() =~= cmds);
    assert(cmds.push(c).last() == c);
}

/// The `g` flag decides alone whether a command replaces every match: for
/// every command text that parses, the command is global exactly when the
/// flags after its second delimiter hold `g`, however its fields are
/// written.
pub proof fn lemma_global_flag(cmd: Seq<char>)
    ensures
        subst_of(cmd) is Ok ==> (cmd.len() >= 2 && (fields_of(cmd.skip(2), cmd[1]) matches Some(
            (p, r, f),
        ) && subst_of(cmd)->Ok_0.global == f.contains('g'))),
{
}

/// A command `s<d>p<d>r<d>f` whose pattern and replacement are written as
/// fields (escaped delimiters and other backslash pairs included), with
/// letters as flags, and not ending in whitespace that trimming would take
/// from the replacement.
pub open spec fn is_written_command(d: char, p: Seq<char>, r: Seq<char>, f: Seq<char>) -> bool {
    &&& d != '\\'
    &&& is_written_field(p, d)
    &&& is_written_field(r, d)
    &&& is_flag_text(f)
    &&& (f.len() > 0 || !char_is_whitespace(d) || (r.len() > 0 && !char_is_whitespace(
        r.last(),
    )))
}

proof fn lemma_written_escaped_fields(d: char, p: Seq<char>, r: Seq<char>, f: Seq<char>)
    requires
        is_written_command(d, p, r, f),
    ensures
        subst_syntax(trimmed(written_command(d, p, r, f))) == Ok::<
            (Seq<char>, Seq<char>, bool),
            Seq<char>,
        >(
            (
                regex_text(unescape_field(p, d), f),
                template_of(unescape_field(r, d)),
                has_flag(f, 'g'),
            ),
        ),
{
    let c = written_command(d, p, r, f);
    assert(c[0] == 's');
    assert(!char_is_whitespace(c[0]));
    if f.len() > 0 || !char_is_whitespace(d) {
        if f.len() > 0 {
            assert(c.last() == f[f.len() - 1]);
            assert(char_is_alphabetic(f[f.len() - 1]) && !char_is_whitespace(f[f.len() - 1]));
        }
        assert(!char_is_whitespace(c.last()));
        assert(trim_start(c) == c);
        assert(trim_end(c) == c);
        let body = c.skip(2);
        assert(body =~= p + seq![d] + (r + seq![d] + f));
        lemma_written_field_closed(p, d, r + seq![d] + f);
        assert(body.skip(p.len() + 1int) =~= r + seq![d] + f);
        lemma_written_field_closed(r, d, f);
        assert(body.skip(p.len() + 1int + (r.len() + 1int)) =~= f);
    } else {
        let c2 = c.drop_last();
        assert(c.last() == d);
        assert(c2 =~= seq!['s', d] + p + seq![d] + r);
        assert(c2.last() == r.last());
        assert(trim_start(c) == c);
        assert(trim_end(c2) == c2);
        assert(trim_end(c) == c2);
        let body = c2.skip(2);
        assert(body =~= p + seq![d] + r);
        lemma_written_field_closed(p, d, r);
        assert(body.skip(p.len() + 1int) =~= r);
        lemma_written_field_open(r, d);
    }
}

/// A command `s<d>p<d>r<d>f` given alone, its fields written with escaped
/// delimiters or other backslash pairs, is one command: it searches for the
/// pattern's text (each `\d` read as `d`, BRE escapes translated, `(?i)` in
/// front for `i`/`I`), replaces with the replacement's text, and is global
/// exactly when the flags hold `g`; or it is the error of its regex.
pub proof fn lemma_parse_escaped_command(d: char, p: Seq<char>, r: Seq<char>, f: Seq<char>)
    requires
        is_written_command(d, p, r, f),
    ensures
        parse_spec(seq![written_command(d, p, r, f)]) == match regex_error(
            regex_text(unescape_field(p, d), f),
        ) {
            Some(m) => Err::<Seq<SubstSpec>, Seq<char>>("invalid regex: "@ + m),
            None => Ok(
                seq![
                    SubstSpec {
                        pattern: regex_text(unescape_field(p, d), f),
                        replacement: template_of(unescape_field(r, d)),
                        global: has_flag(f, 'g'),
                    },
                ],
            ),
        },
{
    let c = written_command(d, p, r, f);
    assert(all_alphabetic(f)) by {
        assert forall|i: int| 0 <= i < f.len() implies char_is_alphabetic(#[trigger] f[i]) by {
            assert(char_is_alphabetic(f[i]) && !char_is_whitespace(f[i]));
        }
    }
    lemma_split_keeps_substitution(d, p, r, f);
    assert(c == seq!['s', d] + p + seq![d] + r + seq![d] + f);
    lemma_written_escaped_fields(d, p, r, f);
    let exprs = seq![c];
    let none: Seq<Seq<char>> = seq![];
    assert(exprs.drop_last() =~= none);
    assert(all_commands(none) =~= none);
    assert(all_commands(exprs) =~= seq![c]);
    let cmds = all_commands(exprs);
    assert(cmds.drop_last() =~= none);
    assert(parse_commands(none) == Ok::<Seq<SubstSpec>, Seq<char>>(seq![]));
    assert(trimmed(c).len() > 0) by {
        lemma_trimmed_empty_iff(c);
        assert(!char_is_whitespace(c[0]));
    }
}

/// The first error is the one reported: when some expressions already fail
/// to parse (for a reason other than holding no command), expressions
/// after them change nothing.
pub proof fn lemma_first_error_wins(xs: Seq<Seq<char>>, ys: Seq<Seq<char>>)
    requires
        parse_spec(xs) is Err,
        parse_spec(xs) != Err::<Seq<SubstSpec>, Seq<char>>("no commands provided"@),
    ensures
        parse_spec(xs + ys) == parse_spec(xs),
{
    lemma_all_commands_append(xs, ys);
    let a = all_commands(xs);
    let all = a + all_commands(ys);
    assert(parse_commands(a) is Err);
    assert(all.take(a.len() as int) =~= a);
    lemma_parse_commands_failed_prefix(all, a.len() as int);
}

} // verus!
