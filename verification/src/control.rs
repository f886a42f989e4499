//! The `.control` file of an extension: a GUC-style `name = value` list.
//!
//! Parsing follows Postgres's configuration file rules: `name = value` and
//! `name value` are both accepted, `#` starts a comment outside quotes, a
//! quoted value takes `''` as a literal quote and a backslash as "emit the
//! next character verbatim", and an unterminated quote is an error.
use vstd::prelude::*;

use crate::create::doubled;
use crate::text::{
    lemma_index_of, lemma_split_concat, lemma_split_single, lemma_trim_start_keeps_last, lemma_trim_start_ws_prefix,
    chars_of, extend_chars, find_char, index_of, is_whitespace_char, is_ws, lowercase, lowercase_chars, seqs_of,
    slice_chars, split_chars, split_on, string_of, trim, trim_chars, trim_start, trim_start_chars,
};

verus! {

/// What is wrong with one line of a control file.
#[derive(PartialEq, Eq, Structural, Clone, Copy, Debug)]
pub enum LineFault {
    /// The line holds a parameter name and nothing after it.
    NameWithoutValue,
    /// A quoted value never closes.
    UnterminatedQuote,
}

/// A problem with a control file or with one of its settings.
#[derive(Debug)]
pub enum ControlError {
    /// Line `line` (counted from 1) holds a parameter name with no value;
    /// `text` is the line without surrounding whitespace.
    NameWithoutValue { line: usize, text: String },
    /// Line `line` (counted from 1) has a quoted value that never closes.
    UnterminatedQuote { line: usize, text: String },
    /// The file name does not end in `.control`.
    NoExtensionName,
    /// `relocatable` is set to something that is not a boolean.
    InvalidRelocatable,
    /// `default_version` is missing or empty.
    MissingDefaultVersion,
}

/// A character that ends a parameter name: `=`, whitespace, or the `#` that
/// starts a comment.
pub open spec fn is_name_stop(c: char) -> bool {
    c == '=' || c == '#' || is_ws(c)
}

/// Where the parameter name of `s` ends: the first `=`, `#` or whitespace,
/// or `s.len()` when there is none.
pub open spec fn name_end(s: Seq<char>) -> nat
    decreases s.len(),
{
    if s.len() == 0 {
        0
    } else if is_name_stop(s[0]) {
        0
    } else {
        1 + name_end(s.drop_first())
    }
}

/// `Some(p + r)` where `o` is `Some(r)`.
pub open spec fn prepend(p: Seq<char>, o: Option<Seq<char>>) -> Option<Seq<char>> {
    match o {
        Some(r) => Some(p + r),
        None => None,
    }
}

/// The content of a quoted value, given what follows its opening quote: `''`
/// is one quote, a backslash takes the next character verbatim, a lone quote
/// closes the value (what follows it is ignored). `None` when the value never
/// closes.
pub open spec fn unquote(s: Seq<char>) -> Option<Seq<char>>
    decreases s.len(),
{
    if s.len() == 0 {
        None
    } else if s[0] == '\'' {
        if s.len() >= 2 && s[1] == '\'' {
            prepend(seq!['\''], unquote(s.skip(2)))
        } else {
            Some(Seq::<char>::empty())
        }
    } else if s[0] == '\\' {
        if s.len() >= 2 {
            prepend(seq![s[1]], unquote(s.skip(2)))
        } else {
            None
        }
    } else {
        prepend(seq![s[0]], unquote(s.drop_first()))
    }
}

/// What follows the parameter name of the line `t`, whose name ends at `n`,
/// without leading whitespace.
pub open spec fn after_name(t: Seq<char>, n: int) -> Seq<char> {
    trim_start(t.subrange(n, t.len() as int))
}

/// The text of the value, given what follows the parameter name: an
/// optional `=` and the whitespace after it removed.
pub open spec fn value_text(rest: Seq<char>) -> Seq<char> {
    if rest.len() > 0 && rest[0] == '=' {
        trim_start(rest.drop_first())
    } else {
        rest
    }
}

/// The value written as `rest`: a quoted value, or the text up to the first
/// `#` without surrounding whitespace. `None` when a quote never closes.
pub open spec fn parse_value(rest: Seq<char>) -> Option<Seq<char>> {
    if rest.len() > 0 && rest[0] == '\'' {
        unquote(rest.drop_first())
    } else {
        Some(trim(rest.subrange(0, index_of(rest, '#') as int)))
    }
}

/// What a line, already without surrounding whitespace, sets: nothing for a
/// blank or comment line, else the lowercased name and the value. A name
/// followed by nothing, or only by a `#` comment, has no value.
pub open spec fn parse_trimmed_line(t: Seq<char>) -> Result<
    Option<(Seq<char>, Seq<char>)>,
    LineFault,
> {
    if t.len() == 0 || t[0] == '#' {
        Ok(None)
    } else {
        let n = name_end(t);
        let rest = after_name(t, n as int);
        if rest.len() == 0 || rest[0] == '#' {
            Err(LineFault::NameWithoutValue)
        } else {
            match parse_value(value_text(rest)) {
                Some(v) => Ok(Some((lowercase(trim(t.subrange(0, n as int))), v))),
                None => Err(LineFault::UnterminatedQuote),
            }
        }
    }
}

/// What a line of a control file sets.
pub open spec fn parse_line(line: Seq<char>) -> Result<Option<(Seq<char>, Seq<char>)>, LineFault> {
    parse_trimmed_line(trim(line))
}

/// The settings made by the first `k` lines, later ones overriding earlier
/// ones; or the first faulty line with its number, counted from 1.
pub open spec fn parse_lines(lines: Seq<Seq<char>>, k: nat) -> Result<
    Map<Seq<char>, Seq<char>>,
    (LineFault, nat),
>
    decreases k,
{
    if k == 0 {
        Ok(Map::empty())
    } else {
        match parse_lines(lines, (k - 1) as nat) {
            Err(e) => Err(e),
            Ok(m) => match parse_line(lines[k - 1]) {
                Err(f) => Err((f, k)),
                Ok(None) => Ok(m),
                Ok(Some(kv)) => Ok(m.insert(kv.0, kv.1)),
            },
        }
    }
}

/// The lines of a control file: its text split at each `\n`. (A `\r` before
/// a `\n` is whitespace, which every line loses before it is read.)
pub open spec fn control_lines(contents: Seq<char>) -> Seq<Seq<char>> {
    split_on(contents, '\n')
}

/// The settings of a control file, or its first faulty line.
pub open spec fn parse_control(contents: Seq<char>) -> Result<
    Map<Seq<char>, Seq<char>>,
    (LineFault, nat),
> {
    parse_lines(control_lines(contents), control_lines(contents).len())
}

/// Line `k` (counted from 1) of a control file, without surrounding whitespace.
pub open spec fn control_line(contents: Seq<char>, k: nat) -> Seq<char> {
    trim(control_lines(contents)[k - 1])
}

impl ControlError {
    /// Whether this error reports `fault` on line `line` of `contents`.
    pub open spec fn reports(&self, fault: LineFault, line: nat, contents: Seq<char>) -> bool {
        match fault {
            LineFault::NameWithoutValue => match self {
                ControlError::NameWithoutValue { line: l, text } => l == line && text@
                    == control_line(contents, line),
                _ => false,
            },
            LineFault::UnterminatedQuote => match self {
                ControlError::UnterminatedQuote { line: l, text } => l == line && text@
                    == control_line(contents, line),
                _ => false,
            },
        }
    }
}

/// The settings of a control file, in the order they were made; a later
/// setting of a name overrides an earlier one, so the list reads as a map
/// from names to values.
///
/// A list rather than a `HashMap<String, String>`: vstd describes what a
/// `HashMap` holds only for key types whose hashing it models
/// (`obeys_key_model`, which it grants to integer keys and not to `String`),
/// so no contract over a `String`-keyed map could be proved.
#[derive(Debug)]
pub struct ControlEntries {
    items: Vec<(String, String)>,
}

/// The map that a list of settings makes, later ones overriding earlier ones.
pub open spec fn settings_map(s: Seq<(String, String)>) -> Map<Seq<char>, Seq<char>>
    decreases s.len(),
{
    if s.len() == 0 {
        Map::empty()
    } else {
        settings_map(s.drop_last()).insert(s.last().0@, s.last().1@)
    }
}

proof fn lemma_settings_suffix(s: Seq<(String, String)>, k: Seq<char>, i: int)
    requires
        0 <= i <= s.len(),
        forall|j: int| i <= j < s.len() ==> (#[trigger] s[j]).0@ != k,
    ensures
        settings_map(s).dom().contains(k) == settings_map(s.take(i)).dom().contains(k),
        settings_map(s).dom().contains(k) ==> settings_map(s)[k] == settings_map(s.take(i))[k],
    decreases s.len(),
{
    if i == s.len() {
        assert(s.take(i) =~= s);
    } else {
        let t = s.drop_last();
        assert(s[s.len() - 1].0@ != k);
        assert forall|j: int| i <= j < t.len() implies (#[trigger] t[j]).0@ != k by {
            assert(t[j] == s[j]);
        }
        lemma_settings_suffix(t, k, i);
        assert(t.take(i) =~= s.take(i));
    }
}

impl View for ControlEntries {
    type V = Map<Seq<char>, Seq<char>>;

    closed spec fn view(&self) -> Map<Seq<char>, Seq<char>> {
        settings_map(self.items@)
    }
}

impl ControlEntries {
    /// No settings.
    pub fn new() -> (res: Self)
        ensures
            res@ == Map::<Seq<char>, Seq<char>>::empty(),
    {
        ControlEntries { items: Vec::new() }
    }

    /// Sets `key` to `value`, replacing what it was set to.
    pub fn insert(&mut self, key: String, value: String)
        ensures
            final(self)@ == old(self)@.insert(key@, value@),
    {
        self.items.push((key, value));
        assert(self.items@.drop_last() =~= old(self).items@);
    }

    /// The value that `key` is set to.
    pub fn get(&self, key: &str) -> (res: Option<String>)
        ensures
            match res {
                Some(v) => self@.dom().contains(key@) && v@ == self@[key@],
                None => !self@.dom().contains(key@),
            },
    {
        let k = key.to_owned();
        let mut i = self.items.len();
        while i > 0
            invariant
                i <= self.items@.len(),
                k@ == key@,
                forall|j: int| i <= j < self.items@.len() ==> (#[trigger] self.items@[j]).0@ != k@,
            decreases i,
        {
            if self.items[i - 1].0 == k {
                proof {
                    lemma_settings_suffix(self.items@, k@, i as int);
                    assert(self.items@.take(i as int).drop_last() =~= self.items@.take(i - 1));
                }
                return Some(self.items[i - 1].1.clone());
            }
            i -= 1;
        }
        proof {
            lemma_settings_suffix(self.items@, k@, 0);
            assert(self.items@.take(0) =~= Seq::<(String, String)>::empty());
        }
        None
    }
}

pub proof fn lemma_name_end(s: Seq<char>, i: int)
    requires
        0 <= i <= s.len(),
        forall|j: int| 0 <= j < i ==> !is_name_stop(#[trigger] s[j]),
        i == s.len() || is_name_stop(s[i]),
    ensures
        name_end(s) == i,
    decreases i,
{
    if i > 0 {
        let t = s.drop_first();
        assert forall|j: int| 0 <= j < i - 1 implies !is_name_stop(#[trigger] t[j]) by {
            assert(t[j] == s[j + 1]);
        }
        if i < s.len() {
            assert(t[i - 1] == s[i]);
        }
        lemma_name_end(t, i - 1);
    }
}

/// Where the parameter name of `t` ends.
fn find_name_end(t: &Vec<char>) -> (res: usize)
    ensures
        res == name_end(t@),
        res <= t.len(),
{
    let mut i: usize = 0;
    while i < t.len() && !(t[i] == '=' || t[i] == '#' || is_whitespace_char(t[i]))
        invariant
            i <= t.len(),
            forall|j: int| 0 <= j < i ==> !is_name_stop(#[trigger] t@[j]),
        decreases t.len() - i,
    {
        i += 1;
    }
    proof {
        lemma_name_end(t@, i as int);
    }
    i
}

/// The content of a quoted value, given what follows its opening quote, or
/// `None` when it never closes.
pub fn unquote_chars(q: &Vec<char>) -> (res: Option<Vec<char>>)
    ensures
        match res {
            Some(v) => unquote(q@) == Some(v@),
            None => unquote(q@) is None,
        },
{
    let mut out: Vec<char> = Vec::new();
    let mut i: usize = 0;
    assert(q@.skip(0) =~= q@);
    assert(Seq::<char>::empty() + q@ =~= q@);
    loop
        invariant
            i <= q.len(),
            unquote(q@) == prepend(out@, unquote(q@.skip(i as int))),
        decreases q.len() - i,
    {
        let ghost rest = q@.skip(i as int);
        if i >= q.len() {
            return None;
        }
        let ch = q[i];
        assert(rest[0] == ch);
        if ch == '\'' {
            if i + 1 < q.len() && q[i + 1] == '\'' {
                assert(rest[1] == q@[i + 1]);
                assert(rest.skip(2) =~= q@.skip(i + 2));
                let ghost before = out@;
                out.push('\'');
                assert(before + seq!['\''] =~= out@);
                proof {
                    match unquote(q@.skip(i + 2)) {
                        Some(r) => {
                            assert(before + (seq!['\''] + r) =~= out@ + r);
                        },
                        None => {},
                    }
                }
                i += 2;
            } else {
                if i + 1 < q.len() {
                    assert(rest[1] == q@[i + 1]);
                }
                assert(out@ + Seq::<char>::empty() =~= out@);
                return Some(out);
            }
        } else if ch == '\\' {
            if i + 1 < q.len() {
                let next = q[i + 1];
                assert(rest[1] == next);
                assert(rest.skip(2) =~= q@.skip(i + 2));
                let ghost before = out@;
                out.push(next);
                proof {
                    match unquote(q@.skip(i + 2)) {
                        Some(r) => {
                            assert(before + (seq![next] + r) =~= out@ + r);
                        },
                        None => {},
                    }
                }
                i += 2;
            } else {
                return None;
            }
        } else {
            assert(rest.drop_first() =~= q@.skip(i + 1));
            let ghost before = out@;
            out.push(ch);
            proof {
                match unquote(q@.skip(i + 1)) {
                    Some(r) => {
                        assert(before + (seq![ch] + r) =~= out@ + r);
                    },
                    None => {},
                }
            }
            i += 1;
        }
    }
}

/// The value written as `rest`, or `None` when a quote never closes.
fn parse_value_chars(rest: &Vec<char>) -> (res: Option<Vec<char>>)
    ensures
        match res {
            Some(v) => parse_value(rest@) == Some(v@),
            None => parse_value(rest@) is None,
        },
{
    if rest.len() > 0 && rest[0] == '\'' {
        let quoted = slice_chars(rest, 1, rest.len());
        assert(quoted@ =~= rest@.drop_first());
        unquote_chars(&quoted)
    } else {
        let h = find_char(rest, '#');
        let before = slice_chars(rest, 0, h);
        Some(trim_chars(&before))
    }
}

/// What the line `t`, already without surrounding whitespace, sets.
pub fn parse_trimmed_line_chars(t: &Vec<char>) -> (res: Result<Option<(Vec<char>, Vec<char>)>, LineFault>)
    ensures
        match res {
            Ok(None) => parse_trimmed_line(t@) == Ok::<Option<(Seq<char>, Seq<char>)>, LineFault>(None),
            Ok(Some(kv)) => parse_trimmed_line(t@) == Ok::<Option<(Seq<char>, Seq<char>)>, LineFault>(Some((kv.0@, kv.1@))),
            Err(f) => parse_trimmed_line(t@) == Err::<Option<(Seq<char>, Seq<char>)>, LineFault>(f),
        },
{
    if t.len() == 0 || t[0] == '#' {
        return Ok(None);
    }
    let n = find_name_end(t);
    let after = slice_chars(t, n, t.len());
    let rest0 = trim_start_chars(&after);
    if rest0.len() == 0 || rest0[0] == '#' {
        return Err(LineFault::NameWithoutValue);
    }
    let name = slice_chars(t, 0, n);
    let trimmed_name = trim_chars(&name);
    let key = lowercase_chars(&trimmed_name);
    let rest = if rest0.len() > 0 && rest0[0] == '=' {
        let tail = slice_chars(&rest0, 1, rest0.len());
        assert(tail@ =~= rest0@.drop_first());
        trim_start_chars(&tail)
    } else {
        rest0
    };
    assert(rest@ == value_text(rest0@));
    match parse_value_chars(&rest) {
        Some(v) => Ok(Some((key, v))),
        None => Err(LineFault::UnterminatedQuote),
    }
}

/// Parses the body of a control file into its settings.
///
/// Each line, without surrounding whitespace, is blank, a `#` comment, or a
/// parameter name (lowercased) followed by its value; a `#` outside a quoted
/// value starts a comment, so it also ends a name. A later setting of a name
/// overrides an earlier one. Fails on the first line that has a name and no
/// value (nothing, or only a comment, after it), or a quote that never
/// closes.
pub fn parse_control_entries(contents: &str) -> (res: Result<ControlEntries, ControlError>)
    ensures
        match (res, parse_control(contents@)) {
            (Ok(entries), Ok(m)) => entries@ == m,
            (Err(e), Err((fault, line))) => e.reports(fault, line, contents@),
            _ => false,
        },
{
    let chars = chars_of(contents);
    let lines = split_chars(&chars, '\n');
    let ghost ls = control_lines(contents@);
    assert(seqs_of(lines@) == ls);
    let mut entries = ControlEntries::new();
    for idx in 0..lines.len()
        invariant
            seqs_of(lines@) == ls,
            ls == control_lines(contents@),
            parse_lines(ls, idx as nat) == Ok::<Map<Seq<char>, Seq<char>>, (LineFault, nat)>(
                entries@,
            ),
    {
        assert(ls[idx as int] == lines@[idx as int]@);
        let trimmed = trim_chars(&lines[idx]);
        match parse_trimmed_line_chars(&trimmed) {
            Err(fault) => {
                proof {
                    lemma_parse_lines_stays_err(ls, (idx + 1) as nat, ls.len());
                }
                let text = string_of(&trimmed);
                return match fault {
                    LineFault::NameWithoutValue => Err(
                        ControlError::NameWithoutValue { line: idx + 1, text },
                    ),
                    LineFault::UnterminatedQuote => Err(
                        ControlError::UnterminatedQuote { line: idx + 1, text },
                    ),
                };
            },
            Ok(None) => {},
            Ok(Some(kv)) => {
                let (k, v) = kv;
                entries.insert(string_of(&k), string_of(&v));
            },
        }
    }
    Ok(entries)
}

/// Once the first `k` lines fail, every longer prefix fails the same way.
proof fn lemma_parse_lines_stays_err(lines: Seq<Seq<char>>, k: nat, m: nat)
    requires
        k <= m,
        parse_lines(lines, k) is Err,
    ensures
        parse_lines(lines, m) == parse_lines(lines, k),
    decreases m - k,
{
    if k < m {
        lemma_parse_lines_stays_err(lines, k, (m - 1) as nat);
    }
}

/// The decimal digit `d`.
pub open spec fn digit_char(d: nat) -> char {
    if d == 0 {
        '0'
    } else if d == 1 {
        '1'
    } else if d == 2 {
        '2'
    } else if d == 3 {
        '3'
    } else if d == 4 {
        '4'
    } else if d == 5 {
        '5'
    } else if d == 6 {
        '6'
    } else if d == 7 {
        '7'
    } else if d == 8 {
        '8'
    } else {
        '9'
    }
}

/// `n` written in decimal.
pub open spec fn decimal(n: nat) -> Seq<char>
    decreases n,
{
    if n < 10 {
        seq![digit_char(n)]
    } else {
        decimal(n / 10).push(digit_char(n % 10))
    }
}

fn digit(d: usize) -> (res: char)
    requires
        d < 10,
    ensures
        res == digit_char(d as nat),
{
    if d == 0 {
        '0'
    } else if d == 1 {
        '1'
    } else if d == 2 {
        '2'
    } else if d == 3 {
        '3'
    } else if d == 4 {
        '4'
    } else if d == 5 {
        '5'
    } else if d == 6 {
        '6'
    } else if d == 7 {
        '7'
    } else if d == 8 {
        '8'
    } else {
        '9'
    }
}

/// `n` written in decimal.
pub fn decimal_chars(n: usize) -> (res: Vec<char>)
    ensures
        res@ == decimal(n as nat),
    decreases n,
{
    if n < 10 {
        let mut r: Vec<char> = Vec::new();
        r.push(digit(n));
        assert(r@ =~= seq![digit_char(n as nat)]);
        r
    } else {
        let mut r = decimal_chars(n / 10);
        r.push(digit(n % 10));
        r
    }
}

impl ControlError {
    /// The text that describes this error.
    pub open spec fn message_spec(&self) -> Seq<char> {
        match self {
            ControlError::NameWithoutValue { line, text } => "line "@ + decimal(*line as nat)
                + " of control file has a parameter name with no value: `"@ + text@ + "`"@,
            ControlError::UnterminatedQuote { line, text } => "line "@ + decimal(*line as nat)
                + " of control file has an unterminated quoted value: `"@ + text@ + "`"@,
            ControlError::NoExtensionName => "failed to read extension name from control file"@,
            ControlError::InvalidRelocatable => "invalid boolean for relocatable"@,
            ControlError::MissingDefaultVersion => "`default_version` in control file is required"@,
        }
    }

    /// The text that describes this error.
    pub fn message(&self) -> (res: String)
        ensures
            res@ == self.message_spec(),
    {
        match self {
            ControlError::NameWithoutValue { line, text } => line_message(
                *line,
                " of control file has a parameter name with no value: `",
                text,
            ),
            ControlError::UnterminatedQuote { line, text } => line_message(
                *line,
                " of control file has an unterminated quoted value: `",
                text,
            ),
            ControlError::NoExtensionName => "failed to read extension name from control file".to_owned(),
            ControlError::InvalidRelocatable => "invalid boolean for relocatable".to_owned(),
            ControlError::MissingDefaultVersion => "`default_version` in control file is required".to_owned(),
        }
    }
}

/// `line <line><what><text>``.
fn line_message(line: usize, what: &str, text: &String) -> (res: String)
    ensures
        res@ == "line "@ + decimal(line as nat) + what@ + text@ + "`"@,
{
    let mut out = chars_of("line ");
    extend_chars(&mut out, &decimal_chars(line));
    extend_chars(&mut out, &chars_of(what));
    extend_chars(&mut out, &chars_of(text.as_str()));
    extend_chars(&mut out, &chars_of("`"));
    string_of(&out)
}

/// The `=` between a parameter name and its value is optional: a line
/// `name=value` sets what `name value` sets (when the value, past leading
/// whitespace, does not itself begin with `=` or `#`).
pub proof fn lemma_equals_sign_optional(n: Seq<char>, r: Seq<char>)
    requires
        n.len() > 0,
        forall|i: int| 0 <= i < n.len() ==> !is_name_stop(#[trigger] n[i]),
        r.len() > 0,
        !is_ws(r.last()),
        !(trim_start(r).len() > 0 && (trim_start(r)[0] == '=' || trim_start(r)[0] == '#')),
    ensures
        parse_line(n + seq!['='] + r) == parse_line(n + seq![' '] + r),
{
    let t1 = n + seq!['='] + r;
    let t2 = n + seq![' '] + r;
    assert(is_ws(' '));
    assert(!is_ws('='));
    assert(!is_name_stop(n[0]));
    lemma_line_untrimmed(t1);
    lemma_line_untrimmed(t2);
    assert(t1[n.len() as int] == '=');
    assert(t2[n.len() as int] == ' ');
    assert forall|j: int| 0 <= j < n.len() implies !is_name_stop(#[trigger] t1[j]) by {
        assert(t1[j] == n[j]);
    }
    assert forall|j: int| 0 <= j < n.len() implies !is_name_stop(#[trigger] t2[j]) by {
        assert(t2[j] == n[j]);
    }
    lemma_name_end(t1, n.len() as int);
    lemma_name_end(t2, n.len() as int);
    assert(t1.subrange(0, n.len() as int) =~= n);
    assert(t2.subrange(0, n.len() as int) =~= n);
    let a1 = t1.subrange(n.len() as int, t1.len() as int);
    let a2 = t2.subrange(n.len() as int, t2.len() as int);
    assert(a1 =~= seq!['='] + r);
    assert(a2 =~= seq![' '] + r);
    assert(a1.drop_first() =~= r);
    assert(a2.drop_first() =~= r);
    assert(trim_start(a1) == a1);
    assert(trim_start(a2) == trim_start(r));
    lemma_trim_start_keeps_last(r);
    assert(after_name(t1, n.len() as int) == a1);
    assert(after_name(t2, n.len() as int) == trim_start(r));
    assert(value_text(a1) == trim_start(r));
    assert(value_text(trim_start(r)) == trim_start(r));
}

/// A name followed by nothing but whitespace and a `#` comment has no value:
/// the line is an error, as a bare name is.
pub proof fn lemma_name_then_comment_fails(n: Seq<char>, w: Seq<char>, c: Seq<char>)
    requires
        n.len() > 0,
        forall|i: int| 0 <= i < n.len() ==> !is_name_stop(#[trigger] n[i]),
        forall|i: int| 0 <= i < w.len() ==> is_ws(#[trigger] w[i]),
        c.len() == 0 || !is_ws(c.last()),
    ensures
        parse_line(n + w + seq!['#'] + c) == Err::<Option<(Seq<char>, Seq<char>)>, LineFault>(
            LineFault::NameWithoutValue,
        ),
{
    let t = n + w + seq!['#'] + c;
    assert(!is_name_stop(n[0]));
    assert(t[0] == n[0]);
    assert(!is_ws('#'));
    if c.len() == 0 {
        assert(t.last() == '#');
    } else {
        assert(t.last() == c.last());
    }
    lemma_line_untrimmed(t);
    assert forall|j: int| 0 <= j < n.len() implies !is_name_stop(#[trigger] t[j]) by {
        assert(t[j] == n[j]);
    }
    if w.len() > 0 {
        assert(t[n.len() as int] == w[0]);
    } else {
        assert(t[n.len() as int] == '#');
    }
    lemma_name_end(t, n.len() as int);
    let rest = t.subrange(n.len() as int, t.len() as int);
    assert(rest =~= w + (seq!['#'] + c));
    lemma_trim_start_ws_prefix(w, seq!['#'] + c);
    assert((seq!['#'] + c)[0] == '#');
    assert(after_name(t, n.len() as int) == seq!['#'] + c);
}

/// A line whose first and last characters are not whitespace is its own
/// trimmed form.
proof fn lemma_line_untrimmed(t: Seq<char>)
    requires
        t.len() > 0,
        !is_ws(t[0]),
        !is_ws(t.last()),
    ensures
        trim(t) == t,
{
    assert(trim_start(t) == t);
}

/// A `#` after an unquoted value starts a comment: the value is what comes
/// before it.
pub proof fn lemma_comment_ends_unquoted_value(r: Seq<char>, c: Seq<char>)
    requires
        forall|i: int| 0 <= i < r.len() ==> r[i] != '#',
        !(r.len() > 0 && r[0] == '\''),
    ensures
        parse_value(r + seq!['#'] + c) == parse_value(r),
{
    let s = r + seq!['#'] + c;
    assert forall|j: int| 0 <= j < r.len() implies s[j] != '#' by {
        assert(s[j] == r[j]);
    }
    assert(s[r.len() as int] == '#');
    lemma_index_of(s, '#', r.len() as int);
    lemma_index_of(r, '#', r.len() as int);
    assert(s.subrange(0, r.len() as int) =~= r.subrange(0, r.len() as int));
    if r.len() == 0 {
        assert(s[0] == '#');
    } else {
        assert(s[0] == r[0]);
    }
}

/// A quoted value with no closing quote at all is an error.
pub proof fn lemma_unclosed_quote_fails(s: Seq<char>)
    requires
        forall|i: int| 0 <= i < s.len() ==> s[i] != '\'',
    ensures
        unquote(s) is None,
    decreases s.len(),
{
    if s.len() > 0 {
        if s[0] == '\\' {
            if s.len() >= 2 {
                let t = s.skip(2);
                assert forall|i: int| 0 <= i < t.len() implies t[i] != '\'' by {
                    assert(t[i] == s[i + 2]);
                }
                lemma_unclosed_quote_fails(t);
            }
        } else {
            let t = s.drop_first();
            assert forall|i: int| 0 <= i < t.len() implies t[i] != '\'' by {
                assert(t[i] == s[i + 1]);
            }
            lemma_unclosed_quote_fails(t);
        }
    }
}

/// A value written between single quotes with each quote inside doubled
/// reads back as itself (when it holds no backslash, and what follows the
/// closing quote is not another quote).
pub proof fn lemma_doubled_quotes_read_back(v: Seq<char>, tail: Seq<char>)
    requires
        forall|i: int| 0 <= i < v.len() ==> v[i] != '\\',
        tail.len() == 0 || tail[0] != '\'',
    ensures
        unquote(doubled(v, '\'') + seq!['\''] + tail) == Some(v),
    decreases v.len(),
{
    let s = doubled(v, '\'') + seq!['\''] + tail;
    if v.len() == 0 {
        assert(s =~= seq!['\''] + tail);
        if tail.len() > 0 {
            assert(s[1] == tail[0]);
        }
    } else {
        let rest = v.drop_first();
        assert forall|i: int| 0 <= i < rest.len() implies rest[i] != '\\' by {
            assert(rest[i] == v[i + 1]);
        }
        lemma_doubled_quotes_read_back(rest, tail);
        let inner = doubled(rest, '\'') + seq!['\''] + tail;
        if v[0] == '\'' {
            assert(s =~= seq!['\'', '\''] + inner);
            assert(s.skip(2) =~= inner);
            assert(seq!['\''] + rest =~= v);
        } else {
            assert(s =~= seq![v[0]] + inner);
            assert(s.drop_first() =~= inner);
            assert(seq![v[0]] + rest =~= v);
        }
    }
}

/// The outcome of parsing, with a faulty line's number moved past a line
/// inserted before it at index `j`.
pub open spec fn shift_fault_line(
    r: Result<Map<Seq<char>, Seq<char>>, (LineFault, nat)>,
    j: nat,
) -> Result<Map<Seq<char>, Seq<char>>, (LineFault, nat)> {
    match r {
        Ok(m) => Ok(m),
        Err((f, k)) => Err(
            (
                f,
                if k <= j {
                    k
                } else {
                    (k + 1) as nat
                },
            ),
        ),
    }
}

proof fn lemma_fault_line_bound(lines: Seq<Seq<char>>, k: nat)
    ensures
        parse_lines(lines, k) matches Err((_, x)) ==> 1 <= x <= k,
    decreases k,
{
    if k > 0 {
        lemma_fault_line_bound(lines, (k - 1) as nat);
    }
}

proof fn lemma_insert_before(lines: Seq<Seq<char>>, j: int, l: Seq<char>, k: nat)
    requires
        0 <= j <= lines.len(),
        k <= j,
    ensures
        parse_lines(lines.insert(j, l), k) == parse_lines(lines, k),
    decreases k,
{
    if k > 0 {
        lemma_insert_before(lines, j, l, (k - 1) as nat);
        assert(lines.insert(j, l)[k - 1] == lines[k - 1]);
    }
}

proof fn lemma_insert_after(lines: Seq<Seq<char>>, j: int, l: Seq<char>, k: nat)
    requires
        0 <= j <= k <= lines.len(),
        parse_line(l) == Ok::<Option<(Seq<char>, Seq<char>)>, LineFault>(None),
    ensures
        parse_lines(lines.insert(j, l), k + 1) == shift_fault_line(parse_lines(lines, k), j as nat),
    decreases k,
{
    let ls2 = lines.insert(j, l);
    if k == j {
        lemma_insert_before(lines, j, l, k);
        assert(ls2[j] == l);
        lemma_fault_line_bound(lines, k);
    } else {
        lemma_insert_after(lines, j, l, (k - 1) as nat);
        assert(ls2[k as int] == lines[k - 1]);
    }
}

/// Blank and comment lines set nothing: inserting one among the lines leaves
/// the settings as they were, and a faulty line keeps its fault, its number
/// moved past the inserted line.
pub proof fn lemma_skipped_line_inserted(lines: Seq<Seq<char>>, j: int, l: Seq<char>)
    requires
        0 <= j <= lines.len(),
        parse_line(l) == Ok::<Option<(Seq<char>, Seq<char>)>, LineFault>(None),
    ensures
        parse_lines(lines.insert(j, l), lines.len() + 1) == shift_fault_line(
            parse_lines(lines, lines.len()),
            j as nat,
        ),
{
    lemma_insert_after(lines, j, l, lines.len());
}

/// Inserting a blank or comment line `l` into a control file, at the start
/// of a line of it, leaves its settings as they were; a faulty line keeps
/// its fault, its number moved past the inserted line.
pub proof fn lemma_skipped_line_in_text(a: Seq<char>, l: Seq<char>, b: Seq<char>)
    requires
        a.len() == 0 || a.last() == '\n',
        forall|i: int| 0 <= i < l.len() ==> l[i] != '\n',
        parse_line(l) == Ok::<Option<(Seq<char>, Seq<char>)>, LineFault>(None),
    ensures
        parse_control(a + l + seq!['\n'] + b) == shift_fault_line(
            parse_control(a + b),
            (split_on(a, '\n').len() - 1) as nat,
        ),
{
    lemma_split_single(l, '\n');
    lemma_split_concat(l, b, '\n');
    let sb = split_on(b, '\n');
    if a.len() == 0 {
        assert(a + l + seq!['\n'] + b =~= l + seq!['\n'] + b);
        assert(a + b =~= b);
        assert(split_on(a, '\n').len() == 1);
        assert(seq![l] + sb =~= sb.insert(0, l));
        lemma_skipped_line_inserted(sb, 0, l);
    } else {
        let a2 = a.drop_last();
        assert(a =~= a2 + seq!['\n']);
        lemma_split_concat(a2, Seq::<char>::empty(), '\n');
        assert(a2 + seq!['\n'] + Seq::<char>::empty() =~= a);
        let sa = split_on(a2, '\n');
        assert(split_on(Seq::<char>::empty(), '\n') =~= seq![Seq::<char>::empty()]);
        assert(split_on(a, '\n').len() == sa.len() + 1);
        assert(a + l + seq!['\n'] + b =~= a2 + seq!['\n'] + (l + seq!['\n'] + b));
        lemma_split_concat(a2, l + seq!['\n'] + b, '\n');
        assert(a + b =~= a2 + seq!['\n'] + b);
        lemma_split_concat(a2, b, '\n');
        assert(sa + (seq![l] + sb) =~= (sa + sb).insert(sa.len() as int, l));
        lemma_skipped_line_inserted(sa + sb, sa.len() as int, l);
    }
}

/// A line that is a parameter name with no value: nothing, or only a `#`
/// comment, follows the name.
pub open spec fn is_bare_name_line(l: Seq<char>) -> bool {
    let t = trim(l);
    let rest = after_name(t, name_end(t) as int);
    &&& t.len() > 0
    &&& t[0] != '#'
    &&& (rest.len() == 0 || rest[0] == '#')
}

/// A line whose value opens a quote that no lone quote closes.
pub open spec fn is_unclosed_quote_line(l: Seq<char>) -> bool {
    let t = trim(l);
    let rest = after_name(t, name_end(t) as int);
    let v = value_text(rest);
    &&& t.len() > 0
    &&& t[0] != '#'
    &&& !(rest.len() == 0 || rest[0] == '#')
    &&& v.len() > 0
    &&& v[0] == '\''
    &&& unquote(v.drop_first()) is None
}

/// The fault that a line of each kind is reported with.
pub open spec fn line_fault_of(l: Seq<char>) -> LineFault {
    if is_bare_name_line(l) {
        LineFault::NameWithoutValue
    } else {
        LineFault::UnterminatedQuote
    }
}

proof fn lemma_line_fails(l: Seq<char>)
    ensures
        parse_line(l) is Err <==> (is_bare_name_line(l) || is_unclosed_quote_line(l)),
        parse_line(l) is Err ==> parse_line(l) == Err::<Option<(Seq<char>, Seq<char>)>, LineFault>(
            line_fault_of(l),
        ),
{
}

proof fn lemma_lines_fail(lines: Seq<Seq<char>>, n: nat)
    requires
        n <= lines.len(),
    ensures
        parse_lines(lines, n) is Err <==> exists|k: int|
            0 <= k < n && (is_bare_name_line(#[trigger] lines[k]) || is_unclosed_quote_line(
                lines[k],
            )),
        parse_lines(lines, n) matches Err((f, k)) ==> {
            &&& 1 <= k <= n
            &&& f == line_fault_of(lines[k - 1])
            &&& (is_bare_name_line(lines[k - 1]) || is_unclosed_quote_line(lines[k - 1]))
            &&& forall|j: int|
                0 <= j < k - 1 ==> !is_bare_name_line(#[trigger] lines[j])
                    && !is_unclosed_quote_line(lines[j])
        },
    decreases n,
{
    if n > 0 {
        lemma_lines_fail(lines, (n - 1) as nat);
        lemma_line_fails(lines[n - 1]);
        if parse_lines(lines, (n - 1) as nat) is Ok {
            assert forall|j: int|
                0 <= j < n - 1 implies !is_bare_name_line(#[trigger] lines[j])
                && !is_unclosed_quote_line(lines[j]) by {}
        }
    }
}

/// Exactly when parsing a control file fails: when some line is a bare name
/// (nothing, or only a comment, after the name) or opens a quote that never
/// closes. The first such line is the one reported, with its number counted
/// from 1 and its kind of fault.
pub proof fn lemma_when_parsing_fails(contents: Seq<char>)
    ensures
        ({
            let lines = control_lines(contents);
            &&& parse_control(contents) is Err <==> exists|k: int|
                0 <= k < lines.len() && (is_bare_name_line(#[trigger] lines[k])
                    || is_unclosed_quote_line(lines[k]))
            &&& parse_control(contents) matches Err((f, k)) ==> {
                &&& 1 <= k <= lines.len()
                &&& f == line_fault_of(lines[k - 1])
                &&& (is_bare_name_line(lines[k - 1]) || is_unclosed_quote_line(lines[k - 1]))
                &&& forall|j: int|
                    0 <= j < k - 1 ==> !is_bare_name_line(#[trigger] lines[j])
                        && !is_unclosed_quote_line(lines[j])
            }
        }),
{
    lemma_lines_fail(control_lines(contents), control_lines(contents).len());
}

/// Whether two outcomes of parsing agree, apart from a faulty line's number:
/// the same settings, or the same kind of fault.
pub open spec fn same_outcome(
    r1: Result<Map<Seq<char>, Seq<char>>, (LineFault, nat)>,
    r2: Result<Map<Seq<char>, Seq<char>>, (LineFault, nat)>,
) -> bool {
    match (r1, r2) {
        (Ok(m1), Ok(m2)) => m1 == m2,
        (Err(e1), Err(e2)) => e1.0 == e2.0,
        _ => false,
    }
}

/// A line that sets nothing: blank, or a `#` comment.
pub open spec fn is_skipped_line(l: Seq<char>) -> bool {
    parse_line(l) == Ok::<Option<(Seq<char>, Seq<char>)>, LineFault>(None)
}

/// The text of `ls`, each line followed by a line break.
pub open spec fn lines_text(ls: Seq<Seq<char>>) -> Seq<char>
    decreases ls.len(),
{
    if ls.len() == 0 {
        Seq::empty()
    } else {
        ls[0] + seq!['\n'] + lines_text(ls.drop_first())
    }
}

/// The text of `ls`, each line after a line break.
pub open spec fn appended_lines_text(ls: Seq<Seq<char>>) -> Seq<char>
    decreases ls.len(),
{
    if ls.len() == 0 {
        Seq::empty()
    } else {
        appended_lines_text(ls.drop_last()) + seq!['\n'] + ls.last()
    }
}

/// Blank and comment lines change nothing, however many: inserting any
/// number of them, one after another, at the start of a line of a control
/// file leaves the settings as they were, and a faulty file faulty in the
/// same way.
pub proof fn lemma_skipped_lines_in_text(a: Seq<char>, ins: Seq<Seq<char>>, b: Seq<char>)
    requires
        a.len() == 0 || a.last() == '\n',
        forall|k: int| 0 <= k < ins.len() ==> is_skipped_line(#[trigger] ins[k]),
        forall|k: int, i: int| 0 <= k < ins.len() && 0 <= i < ins[k].len() ==> #[trigger] ins[k][i] != '\n',
    ensures
        same_outcome(parse_control(a + lines_text(ins) + b), parse_control(a + b)),
    decreases ins.len(),
{
    if ins.len() == 0 {
        assert(a + lines_text(ins) + b =~= a + b);
    } else {
        let l = ins[0];
        let rest = ins.drop_first();
        assert forall|k: int| 0 <= k < rest.len() implies is_skipped_line(#[trigger] rest[k]) by {
            assert(rest[k] == ins[k + 1]);
        }
        assert forall|k: int, i: int|
            0 <= k < rest.len() && 0 <= i < rest[k].len() implies #[trigger] rest[k][i] != '\n' by {
            assert(rest[k] == ins[k + 1]);
        }
        assert forall|i: int| 0 <= i < l.len() implies l[i] != '\n' by {
            assert(ins[0][i] == l[i]);
        }
        lemma_skipped_lines_in_text(a, rest, b);
        let b2 = lines_text(rest) + b;
        assert(a + lines_text(ins) + b =~= a + l + seq!['\n'] + b2);
        assert(a + b2 =~= a + lines_text(rest) + b);
        lemma_skipped_line_in_text(a, l, b2);
    }
}

/// Blank and comment lines added after the last line of a control file,
/// however many and whether or not it ends in a line break, leave the
/// outcome exactly as it was.
pub proof fn lemma_skipped_lines_appended(a: Seq<char>, ins: Seq<Seq<char>>)
    requires
        forall|k: int| 0 <= k < ins.len() ==> is_skipped_line(#[trigger] ins[k]),
        forall|k: int, i: int| 0 <= k < ins.len() && 0 <= i < ins[k].len() ==> #[trigger] ins[k][i] != '\n',
    ensures
        parse_control(a + appended_lines_text(ins)) == parse_control(a),
    decreases ins.len(),
{
    if ins.len() == 0 {
        assert(a + appended_lines_text(ins) =~= a);
    } else {
        let front = ins.drop_last();
        let l = ins.last();
        assert forall|k: int| 0 <= k < front.len() implies is_skipped_line(#[trigger] front[k]) by {
            assert(front[k] == ins[k]);
        }
        assert forall|k: int, i: int|
            0 <= k < front.len() && 0 <= i < front[k].len() implies #[trigger] front[k][i] != '\n' by {
            assert(front[k] == ins[k]);
        }
        assert(is_skipped_line(ins[ins.len() - 1]));
        assert forall|i: int| 0 <= i < l.len() implies l[i] != '\n' by {
            assert(ins[ins.len() - 1][i] == l[i]);
        }
        lemma_skipped_lines_appended(a, front);
        let x = a + appended_lines_text(front);
        assert(a + appended_lines_text(ins) =~= x + seq!['\n'] + l);
        lemma_skipped_line_appended(x, l);
    }
}

/// One blank or comment line added after the last line leaves the outcome
/// as it was.
proof fn lemma_skipped_line_appended(x: Seq<char>, l: Seq<char>)
    requires
        is_skipped_line(l),
        forall|i: int| 0 <= i < l.len() ==> l[i] != '\n',
    ensures
        parse_control(x + seq!['\n'] + l) == parse_control(x),
{
    lemma_split_single(l, '\n');
    lemma_split_concat(x, l, '\n');
    let ls = control_lines(x);
    assert(control_lines(x + seq!['\n'] + l) =~= ls.insert(ls.len() as int, l));
    lemma_insert_before(ls, ls.len() as int, l, ls.len());
    assert(ls.insert(ls.len() as int, l)[ls.len() as int] == l);
}

} // verus!
