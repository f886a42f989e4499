//! Recognising the files of an extension package by their names.
//!
//! A package directory holds one `<ext>.control` file, install scripts named
//! `<ext>--<version>.sql`, upgrade scripts named `<ext>--<from>--<to>.sql`,
//! and optionally a `README.md`.
use vstd::prelude::*;

use crate::text::{
    join_on, lemma_split_concat, lemma_split_join, lemma_split_single,
    chars_eq, chars_of, extend_chars, seqs_of, slice_chars, split_chars, split_on, string_of,
};

verus! {

/// What a directory entry of a package is, by its name.
#[derive(PartialEq, Eq, Structural, Clone, Copy, Debug)]
pub enum EntryKind {
    Readme,
    Control,
    Sql,
    Other,
}

/// What the name of a `.sql` file says it is.
#[derive(Debug)]
pub enum SqlFileName {
    /// An install script for `version`.
    Install { version: String },
    /// An upgrade script from `from_version` to `to_version`.
    Upgrade { from_version: String, to_version: String },
    /// A script of the extension `name`, not of this one.
    ForeignExtension { name: String },
    /// An install script whose version is not `major.minor.patch`.
    InvalidVersion { version: String },
    /// An upgrade script whose first version is not `major.minor.patch`.
    InvalidFromVersion { version: String },
    /// An upgrade script whose second version is not `major.minor.patch`.
    InvalidToVersion { version: String },
    /// A name with neither one nor two `--` separators.
    Unrecognized,
}

/// The index of the last `c` in `s`, or `-1` when there is none.
pub open spec fn last_index_of(s: Seq<char>, c: char) -> int
    decreases s.len(),
{
    if s.len() == 0 {
        -1
    } else if s.last() == c {
        s.len() - 1
    } else {
        last_index_of(s.drop_last(), c)
    }
}

/// The extension of a file name, as `Path::extension` gives it: what follows
/// the last `.`, unless there is none, or the only one begins the name, or the
/// name is `..`.
pub open spec fn file_extension(name: Seq<char>) -> Option<Seq<char>> {
    let i = last_index_of(name, '.');
    if name == seq!['.', '.'] || i <= 0 {
        None
    } else {
        Some(name.subrange(i + 1, name.len() as int))
    }
}

/// What the directory entry named `name` is.
pub open spec fn entry_kind_of(name: Seq<char>) -> EntryKind {
    if name == "README.md"@ {
        EntryKind::Readme
    } else if file_extension(name) == Some("control"@) {
        EntryKind::Control
    } else if file_extension(name) == Some("sql"@) {
        EntryKind::Sql
    } else {
        EntryKind::Other
    }
}

/// An ASCII letter.
pub open spec fn is_ascii_letter(c: char) -> bool {
    ('a' as u32 <= c as u32 <= 'z' as u32) || ('A' as u32 <= c as u32 <= 'Z' as u32)
}

/// An ASCII digit.
pub open spec fn is_ascii_digit(c: char) -> bool {
    '0' as u32 <= c as u32 <= '9' as u32
}

/// An extension name begins with a letter, holds only letters, digits and
/// `_`, and is 2 to 32 characters long.
pub open spec fn valid_extension_name(s: Seq<char>) -> bool {
    &&& 2 <= s.len() <= 32
    &&& is_ascii_letter(s[0])
    &&& forall|i: int|
        0 <= i < s.len() ==> is_ascii_letter(#[trigger] s[i]) || is_ascii_digit(s[i]) || s[i]
            == '_'
}

/// A non-empty run of digits.
pub open spec fn is_number(s: Seq<char>) -> bool {
    s.len() > 0 && forall|i: int| 0 <= i < s.len() ==> is_ascii_digit(#[trigger] s[i])
}

/// A version has the format `major.minor.patch`, three numbers.
pub open spec fn valid_version(s: Seq<char>) -> bool {
    let p = split_on(s, '.');
    p.len() == 3 && is_number(p[0]) && is_number(p[1]) && is_number(p[2])
}

/// Where the first `--` in `s` begins, or `s.len()` when there is none.
pub open spec fn dashes_index(s: Seq<char>) -> nat
    decreases s.len(),
{
    if s.len() < 2 {
        s.len()
    } else if s[0] == '-' && s[1] == '-' {
        0
    } else {
        1 + dashes_index(s.drop_first())
    }
}

/// The pieces of `s` between the `--` separators found from left to right,
/// as `str::split("--")` gives them.
pub open spec fn split_dashes(s: Seq<char>) -> Seq<Seq<char>>
    decreases s.len(),
{
    let i = dashes_index(s);
    if i + 2 <= s.len() {
        seq![s.subrange(0, i as int)] + split_dashes(s.skip(i + 2 as int))
    } else {
        seq![s]
    }
}

/// What the name of a `.sql` file says it is, for the extension `ext`.
pub open spec fn sql_file_name_matches(res: SqlFileName, name: Seq<char>, ext: Seq<char>) -> bool {
    let parts = split_dashes(name.subrange(0, name.len() - 4));
    if parts.len() == 2 {
        if parts[0] != ext {
            res matches SqlFileName::ForeignExtension { name: n } && n@ == parts[0]
        } else if !valid_version(parts[1]) {
            res matches SqlFileName::InvalidVersion { version } && version@ == parts[1]
        } else {
            res matches SqlFileName::Install { version } && version@ == parts[1]
        }
    } else if parts.len() == 3 {
        if parts[0] != ext {
            res matches SqlFileName::ForeignExtension { name: n } && n@ == parts[0]
        } else if !valid_version(parts[1]) {
            res matches SqlFileName::InvalidFromVersion { version } && version@ == parts[1]
        } else if !valid_version(parts[2]) {
            res matches SqlFileName::InvalidToVersion { version } && version@ == parts[2]
        } else {
            res matches SqlFileName::Upgrade { from_version, to_version } && from_version@
                == parts[1] && to_version@ == parts[2]
        }
    } else {
        res matches SqlFileName::Unrecognized
    }
}

proof fn lemma_last_index_of(s: Seq<char>, c: char, i: int)
    requires
        -1 <= i < s.len(),
        forall|j: int| i < j < s.len() ==> s[j] != c,
        i == -1 || s[i] == c,
    ensures
        last_index_of(s, c) == i,
    decreases s.len(),
{
    if s.len() > 0 && i < s.len() - 1 {
        let t = s.drop_last();
        assert forall|j: int| i < j < t.len() implies t[j] != c by {
            assert(t[j] == s[j]);
        }
        if i >= 0 {
            assert(t[i] == s[i]);
        }
        lemma_last_index_of(t, c, i);
    }
}

proof fn lemma_dashes_at(s: Seq<char>, k: int)
    requires
        0 <= k,
        k + 1 < s.len(),
        s[k] == '-' && s[k + 1] == '-',
        forall|j: int| 0 <= j < k ==> !(s[j] == '-' && #[trigger] s[j + 1] == '-'),
    ensures
        dashes_index(s) == k,
    decreases k,
{
    if k > 0 {
        let t = s.drop_first();
        assert(!(s[0] == '-' && s[0int + 1] == '-'));
        assert forall|j: int| 0 <= j < k - 1 implies !(t[j] == '-' && #[trigger] t[j + 1] == '-') by {
            assert(t[j] == s[j + 1]);
            assert(t[j + 1] == s[j + 2]);
            assert(!(s[j + 1] == '-' && s[(j + 1) + 1] == '-'));
        }
        assert(t[k - 1] == s[k]);
        assert(t[k] == s[k + 1]);
        lemma_dashes_at(t, k - 1);
    }
}

proof fn lemma_no_dashes(s: Seq<char>)
    requires
        forall|j: int| 0 <= j && j + 1 < s.len() ==> !(s[j] == '-' && #[trigger] s[j + 1] == '-'),
    ensures
        dashes_index(s) == s.len(),
    decreases s.len(),
{
    if s.len() >= 2 {
        let t = s.drop_first();
        assert(!(s[0] == '-' && s[0int + 1] == '-'));
        assert forall|j: int| 0 <= j && j + 1 < t.len() implies !(t[j] == '-' && #[trigger] t[j
            + 1] == '-') by {
            assert(t[j] == s[j + 1]);
            assert(t[j + 1] == s[j + 2]);
            assert(!(s[j + 1] == '-' && s[(j + 1) + 1] == '-'));
        }
        lemma_no_dashes(t);
    }
}

/// The extension of the file name `v`, as `Path::extension` gives it.
fn file_extension_chars(v: &Vec<char>) -> (res: Option<Vec<char>>)
    ensures
        match res {
            Some(e) => file_extension(v@) == Some(e@),
            None => file_extension(v@) is None,
        },
{
    if v.len() == 2 && v[0] == '.' && v[1] == '.' {
        assert(v@ =~= seq!['.', '.']);
        return None;
    }
    assert(v@ != seq!['.', '.']) by {
        if v@ == seq!['.', '.'] {
            assert(v@[0] == '.' && v@[1] == '.');
        }
    }
    let mut j: usize = v.len();
    while j > 0 && v[j - 1] != '.'
        invariant
            j <= v.len(),
            forall|k: int| j <= k < v.len() ==> v@[k] != '.',
        decreases j,
    {
        j -= 1;
    }
    proof {
        lemma_last_index_of(v@, '.', j - 1);
    }
    if j <= 1 {
        None
    } else {
        Some(slice_chars(v, j, v.len()))
    }
}

/// What the directory entry named `file_name` is: the readme, the control
/// file, a SQL script, or something else.
pub fn entry_kind(file_name: &str) -> (res: EntryKind)
    ensures
        res == entry_kind_of(file_name@),
{
    let name = chars_of(file_name);
    if chars_eq(&name, &chars_of("README.md")) {
        return EntryKind::Readme;
    }
    match file_extension_chars(&name) {
        Some(ext) => {
            if chars_eq(&ext, &chars_of("control")) {
                EntryKind::Control
            } else if chars_eq(&ext, &chars_of("sql")) {
                EntryKind::Sql
            } else {
                EntryKind::Other
            }
        },
        None => EntryKind::Other,
    }
}

fn is_ascii_letter_char(c: char) -> (res: bool)
    ensures
        res == is_ascii_letter(c),
{
    ('a' <= c && c <= 'z') || ('A' <= c && c <= 'Z')
}

fn is_ascii_digit_char(c: char) -> (res: bool)
    ensures
        res == is_ascii_digit(c),
{
    '0' <= c && c <= '9'
}

/// Whether `name` can name an extension: it begins with a letter, holds
/// only letters, digits and `_`, and is 2 to 32 characters long.
pub fn is_valid_extension_name(name: &str) -> (res: bool)
    ensures
        res == valid_extension_name(name@),
{
    let v = chars_of(name);
    if v.len() < 2 || v.len() > 32 || !is_ascii_letter_char(v[0]) {
        return false;
    }
    for i in 0..v.len()
        invariant
            v@ == name@,
            forall|j: int|
                0 <= j < i ==> is_ascii_letter(#[trigger] v@[j]) || is_ascii_digit(v@[j]) || v@[j]
                    == '_',
    {
        if !(is_ascii_letter_char(v[i]) || is_ascii_digit_char(v[i]) || v[i] == '_') {
            assert(!(is_ascii_letter(v@[i as int]) || is_ascii_digit(v@[i as int]) || v@[i as int]
                == '_'));
            return false;
        }
    }
    true
}

fn is_number_chars(v: &Vec<char>) -> (res: bool)
    ensures
        res == is_number(v@),
{
    if v.len() == 0 {
        return false;
    }
    for i in 0..v.len()
        invariant
            forall|j: int| 0 <= j < i ==> is_ascii_digit(#[trigger] v@[j]),
    {
        if !is_ascii_digit_char(v[i]) {
            return false;
        }
    }
    true
}

fn is_valid_version_chars(v: &Vec<char>) -> (res: bool)
    ensures
        res == valid_version(v@),
{
    let parts = split_chars(v, '.');
    let ghost p = split_on(v@, '.');
    if parts.len() != 3 {
        return false;
    }
    assert(p[0] == parts@[0]@ && p[1] == parts@[1]@ && p[2] == parts@[2]@);
    is_number_chars(&parts[0]) && is_number_chars(&parts[1]) && is_number_chars(&parts[2])
}

/// Whether `version` has the format `major.minor.patch`, three numbers.
pub fn is_valid_version(version: &str) -> (res: bool)
    ensures
        res == valid_version(version@),
{
    is_valid_version_chars(&chars_of(version))
}

/// The pieces of `v` between its `--` separators.
fn split_dashes_chars(v: &Vec<char>) -> (res: Vec<Vec<char>>)
    ensures
        seqs_of(res@) == split_dashes(v@),
{
    let mut parts: Vec<Vec<char>> = Vec::new();
    let mut start: usize = 0;
    let mut i: usize = 0;
    assert(v@.subrange(0, v.len() as int) =~= v@);
    while v.len() > 0 && i < v.len() - 1
        invariant
            start <= i <= v.len(),
            split_dashes(v@) == seqs_of(parts@) + split_dashes(
                v@.subrange(start as int, v.len() as int),
            ),
            forall|j: int|
                start <= j < i && j + 1 < v.len() ==> !(v@[j] == '-' && #[trigger] v@[j + 1]
                    == '-'),
        decreases v.len() - i,
    {
        if v[i] == '-' && v[i + 1] == '-' {
            let ghost sub = v@.subrange(start as int, v.len() as int);
            proof {
                assert forall|j: int| 0 <= j < i - start implies !(sub[j] == '-' && #[trigger] sub[j
                    + 1] == '-') by {
                    assert(sub[j] == v@[start + j]);
                    assert(sub[j + 1] == v@[start + j + 1]);
                    assert(!(v@[start + j] == '-' && v@[(start + j) + 1] == '-'));
                }
                assert(sub[i - start] == v@[i as int]);
                assert(sub[i - start + 1] == v@[i + 1]);
                lemma_dashes_at(sub, i - start);
                assert(sub.skip(i - start + 2) =~= v@.subrange(i + 2, v.len() as int));
                assert(sub.subrange(0, i - start) =~= v@.subrange(start as int, i as int));
            }
            let ghost before = seqs_of(parts@);
            parts.push(slice_chars(v, start, i));
            assert(seqs_of(parts@) =~= before.push(v@.subrange(start as int, i as int)));
            assert(seqs_of(parts@) + split_dashes(v@.subrange(i + 2, v.len() as int)) =~= before
                + (seq![v@.subrange(start as int, i as int)] + split_dashes(
                v@.subrange(i + 2, v.len() as int),
            )));
            i = i + 2;
            start = i;
        } else {
            i = i + 1;
        }
    }
    let ghost sub = v@.subrange(start as int, v.len() as int);
    proof {
        assert forall|j: int| 0 <= j && j + 1 < sub.len() implies !(sub[j] == '-' && #[trigger] sub[j
            + 1] == '-') by {
            assert(sub[j] == v@[start + j]);
            assert(sub[j + 1] == v@[start + j + 1]);
            assert(!(v@[start + j] == '-' && v@[(start + j) + 1] == '-'));
        }
        lemma_no_dashes(sub);
    }
    let ghost before = seqs_of(parts@);
    parts.push(slice_chars(v, start, v.len()));
    assert(seqs_of(parts@) =~= before + seq![sub]);
    parts
}

/// What the name of the `.sql` file `file_name` says it is, for the
/// extension `extension_name`: an install script `<ext>--<version>.sql`, an
/// upgrade script `<ext>--<from>--<to>.sql`, or a name to skip, and why.
pub fn classify_sql_file(file_name: &str, extension_name: &str) -> (res: SqlFileName)
    requires
        file_name@.len() >= 4,
        file_name@.subrange(file_name@.len() - 4, file_name@.len() as int) == ".sql"@,
    ensures
        sql_file_name_matches(res, file_name@, extension_name@),
{
    let name = chars_of(file_name);
    let ext = chars_of(extension_name);
    let stem = slice_chars(&name, 0, name.len() - 4);
    let parts = split_dashes_chars(&stem);
    let ghost ps = split_dashes(stem@);
    if parts.len() == 2 {
        assert(ps[0] == parts@[0]@ && ps[1] == parts@[1]@);
        if !chars_eq(&parts[0], &ext) {
            SqlFileName::ForeignExtension { name: string_of(&parts[0]) }
        } else if !is_valid_version_chars(&parts[1]) {
            SqlFileName::InvalidVersion { version: string_of(&parts[1]) }
        } else {
            SqlFileName::Install { version: string_of(&parts[1]) }
        }
    } else if parts.len() == 3 {
        assert(ps[0] == parts@[0]@ && ps[1] == parts@[1]@ && ps[2] == parts@[2]@);
        if !chars_eq(&parts[0], &ext) {
            SqlFileName::ForeignExtension { name: string_of(&parts[0]) }
        } else if !is_valid_version_chars(&parts[1]) {
            SqlFileName::InvalidFromVersion { version: string_of(&parts[1]) }
        } else if !is_valid_version_chars(&parts[2]) {
            SqlFileName::InvalidToVersion { version: string_of(&parts[2]) }
        } else {
            SqlFileName::Upgrade {
                from_version: string_of(&parts[1]),
                to_version: string_of(&parts[2]),
            }
        }
    } else {
        SqlFileName::Unrecognized
    }
}

/// A problem with the files of a package as a whole.
#[derive(Debug)]
pub enum PackageError {
    /// The package holds no `.control` file.
    NoControlFile,
    /// The package holds more than one `.control` file.
    MultipleControlFiles,
    /// The extension's name breaks the naming rule.
    InvalidExtensionName { name: String },
}

impl PackageError {
    /// The text that describes this error.
    pub open spec fn message_spec(&self) -> Seq<char> {
        match self {
            PackageError::NoControlFile => "no control file detected"@,
            PackageError::MultipleControlFiles => "multiple control files detected"@,
            PackageError::InvalidExtensionName { name } => "Invalid extension name detected: "@
                + name@
                + ". It must begin with an alphabet, contain only alphanumeric characters or `_` and should be between 2 and 32 characters long."@,
        }
    }

    /// The text that describes this error.
    pub fn message(&self) -> (res: String)
        ensures
            res@ == self.message_spec(),
    {
        match self {
            PackageError::NoControlFile => "no control file detected".to_owned(),
            PackageError::MultipleControlFiles => "multiple control files detected".to_owned(),
            PackageError::InvalidExtensionName { name } => {
                let mut out = chars_of("Invalid extension name detected: ");
                extend_chars(&mut out, &chars_of(name.as_str()));
                extend_chars(
                    &mut out,
                    &chars_of(
                        ". It must begin with an alphabet, contain only alphanumeric characters or `_` and should be between 2 and 32 characters long.",
                    ),
                );
                string_of(&out)
            },
        }
    }
}

/// A package must hold exactly one control file: `count` is how many it
/// holds.
pub fn check_control_file_count(count: usize) -> (res: Result<(), PackageError>)
    ensures
        count == 0 ==> res matches Err(PackageError::NoControlFile),
        count == 1 ==> res is Ok,
        count > 1 ==> res matches Err(PackageError::MultipleControlFiles),
{
    if count == 0 {
        Err(PackageError::NoControlFile)
    } else if count == 1 {
        Ok(())
    } else {
        Err(PackageError::MultipleControlFiles)
    }
}

/// The extension's name must follow the naming rule.
pub fn check_extension_name(name: &str) -> (res: Result<(), PackageError>)
    ensures
        valid_extension_name(name@) ==> res is Ok,
        !valid_extension_name(name@) ==> (res matches Err(
            PackageError::InvalidExtensionName { name: n },
        ) && n@ == name@),
{
    if is_valid_extension_name(name) {
        Ok(())
    } else {
        Err(PackageError::InvalidExtensionName { name: name.to_owned() })
    }
}

/// The pieces joined back with `--` between them.
pub open spec fn join_dashes(ps: Seq<Seq<char>>) -> Seq<char>
    decreases ps.len(),
{
    if ps.len() <= 1 {
        if ps.len() == 1 {
            ps[0]
        } else {
            Seq::empty()
        }
    } else {
        ps[0] + seq!['-', '-'] + join_dashes(ps.drop_first())
    }
}

proof fn lemma_dashes_index_pair(s: Seq<char>)
    ensures
        dashes_index(s) <= s.len(),
        dashes_index(s) + 2 <= s.len() ==> s[dashes_index(s) as int] == '-' && s[dashes_index(s)
            + 1int] == '-',
    decreases s.len(),
{
    if s.len() >= 2 && !(s[0] == '-' && s[1] == '-') {
        lemma_dashes_index_pair(s.drop_first());
    }
}

proof fn lemma_split_dashes_join(s: Seq<char>)
    ensures
        split_dashes(s).len() >= 1,
        join_dashes(split_dashes(s)) == s,
    decreases s.len(),
{
    let i = dashes_index(s);
    lemma_dashes_index_pair(s);
    if i + 2 <= s.len() {
        let rest = s.skip(i + 2 as int);
        lemma_split_dashes_join(rest);
        let ps = split_dashes(s);
        assert(ps.drop_first() =~= split_dashes(rest));
        assert(s =~= s.subrange(0, i as int) + seq!['-', '-'] + rest);
    }
}

/// A `.sql` file is taken as an install or upgrade script only when its name
/// is exactly the extension's name, `--`, the version or versions it reports
/// (joined by `--`), and `.sql`; a file of another extension is reported
/// with that extension's name, which leads its file name.
pub proof fn lemma_classified_names(name: Seq<char>, ext: Seq<char>, res: SqlFileName)
    requires
        name.len() >= 4,
        name.subrange(name.len() - 4, name.len() as int) == ".sql"@,
        sql_file_name_matches(res, name, ext),
    ensures
        res matches SqlFileName::Install { version } ==> name == ext + seq!['-', '-'] + version@
            + ".sql"@,
        res matches SqlFileName::Upgrade { from_version, to_version } ==> name == ext + seq![
            '-',
            '-',
        ] + from_version@ + seq!['-', '-'] + to_version@ + ".sql"@,
        res matches SqlFileName::ForeignExtension { name: n } ==> n@ != ext && name.subrange(
            0,
            n@.len() + 2int,
        ) == n@ + seq!['-', '-'],
{
    let stem = name.subrange(0, name.len() - 4);
    assert(name =~= stem + name.subrange(name.len() - 4, name.len() as int));
    lemma_split_dashes_join(stem);
    let ps = split_dashes(stem);
    if ps.len() == 2 {
        assert(ps.drop_first().drop_first().len() == 0);
        assert(join_dashes(ps.drop_first()) == ps[1]);
        assert(stem == ps[0] + seq!['-', '-'] + ps[1]);
        assert(name =~= ps[0] + seq!['-', '-'] + ps[1] + ".sql"@);
        assert((ps[0] + seq!['-', '-'] + ps[1] + ".sql"@).subrange(0, ps[0].len() + 2int) =~= ps[0]
            + seq!['-', '-']);
    } else if ps.len() == 3 {
        let t = ps.drop_first();
        assert(t[0] == ps[1] && t[1] == ps[2]);
        assert(join_dashes(t.drop_first()) == ps[2]);
        assert(join_dashes(t) == ps[1] + seq!['-', '-'] + ps[2]);
        assert(name =~= ps[0] + seq!['-', '-'] + ps[1] + seq!['-', '-'] + ps[2] + ".sql"@);
        assert((ps[0] + seq!['-', '-'] + ps[1] + seq!['-', '-'] + ps[2] + ".sql"@).subrange(
            0,
            ps[0].len() + 2int,
        ) =~= ps[0] + seq!['-', '-']);
    }
}

/// An extension name is valid exactly when it is 2 to 32 characters long,
/// begins with an ASCII letter, and holds only ASCII letters, the digits `0`
/// to `9` and `_`.
pub proof fn lemma_extension_name_rule(s: Seq<char>)
    ensures
        valid_extension_name(s) <==> {
            &&& 2 <= s.len() <= 32
            &&& (97 <= s[0] as u32 <= 122 || 65 <= s[0] as u32 <= 90)
            &&& forall|i: int|
                0 <= i < s.len() ==> (97 <= (#[trigger] s[i]) as u32 <= 122 || 65 <= s[i] as u32
                    <= 90 || 48 <= s[i] as u32 <= 57 || s[i] == '_')
        },
{
    assert('a' as u32 == 97 && 'z' as u32 == 122 && 'A' as u32 == 65 && 'Z' as u32 == 90);
    assert('0' as u32 == 48 && '9' as u32 == 57 && '_' as u32 == 95);
}

/// Runs of the decimal digits `0` to `9` joined by dots, three of them, make
/// a valid version.
pub proof fn lemma_digit_runs_are_versions(a: Seq<char>, b: Seq<char>, c: Seq<char>)
    requires
        a.len() > 0 && b.len() > 0 && c.len() > 0,
        forall|i: int| 0 <= i < a.len() ==> 48 <= (#[trigger] a[i]) as u32 <= 57,
        forall|i: int| 0 <= i < b.len() ==> 48 <= (#[trigger] b[i]) as u32 <= 57,
        forall|i: int| 0 <= i < c.len() ==> 48 <= (#[trigger] c[i]) as u32 <= 57,
    ensures
        valid_version(a + seq!['.'] + b + seq!['.'] + c),
{
    assert('0' as u32 == 48 && '9' as u32 == 57 && '.' as u32 == 46);
    assert forall|i: int| 0 <= i < a.len() implies a[i] != '.' by {}
    assert forall|i: int| 0 <= i < b.len() implies b[i] != '.' by {}
    assert forall|i: int| 0 <= i < c.len() implies c[i] != '.' by {}
    lemma_split_single(a, '.');
    lemma_split_single(b, '.');
    lemma_split_single(c, '.');
    lemma_split_concat(b, c, '.');
    lemma_split_concat(a, b + seq!['.'] + c, '.');
    assert(a + seq!['.'] + b + seq!['.'] + c =~= a + seq!['.'] + (b + seq!['.'] + c));
    let p = split_on(a + seq!['.'] + b + seq!['.'] + c, '.');
    assert(p =~= seq![a, b, c]);
}

/// A valid version is three runs of the decimal digits `0` to `9` joined by
/// dots, and nothing else.
pub proof fn lemma_versions_are_digit_runs(s: Seq<char>)
    requires
        valid_version(s),
    ensures
        exists|a: Seq<char>, b: Seq<char>, c: Seq<char>|
            {
                &&& a.len() > 0 && b.len() > 0 && c.len() > 0
                &&& forall|i: int| 0 <= i < a.len() ==> 48 <= (#[trigger] a[i]) as u32 <= 57
                &&& forall|i: int| 0 <= i < b.len() ==> 48 <= (#[trigger] b[i]) as u32 <= 57
                &&& forall|i: int| 0 <= i < c.len() ==> 48 <= (#[trigger] c[i]) as u32 <= 57
                &&& s == a + seq!['.'] + b + seq!['.'] + c
            },
{
    assert('0' as u32 == 48 && '9' as u32 == 57);
    let p = split_on(s, '.');
    lemma_split_join(s, '.');
    assert(p.drop_last().drop_last().len() == 1);
    assert(join_on(p.drop_last().drop_last(), '.') == p[0]);
    assert(join_on(p.drop_last(), '.') == p[0] + seq!['.'] + p[1]);
    assert(s == p[0] + seq!['.'] + p[1] + seq!['.'] + p[2]);
    let a = p[0];
    let b = p[1];
    let c = p[2];
    assert(forall|i: int| 0 <= i < a.len() ==> is_ascii_digit(#[trigger] a[i]));
    assert(forall|i: int| 0 <= i < b.len() ==> is_ascii_digit(#[trigger] b[i]));
    assert(forall|i: int| 0 <= i < c.len() ==> is_ascii_digit(#[trigger] c[i]));
}

/// Text without `-` is one piece.
proof fn lemma_split_dashes_plain(s: Seq<char>)
    requires
        forall|i: int| 0 <= i < s.len() ==> s[i] != '-',
    ensures
        split_dashes(s) == seq![s],
{
    lemma_no_dashes(s);
}

/// A leading piece without `-` is split off at the `--` that follows it.
proof fn lemma_split_dashes_lead(s: Seq<char>, t: Seq<char>)
    requires
        forall|i: int| 0 <= i < s.len() ==> s[i] != '-',
    ensures
        split_dashes(s + seq!['-', '-'] + t) == seq![s] + split_dashes(t),
{
    let x = s + seq!['-', '-'] + t;
    let k = s.len() as int;
    assert(x[k] == '-' && x[k + 1] == '-');
    assert forall|j: int| 0 <= j < k implies !(x[j] == '-' && #[trigger] x[j + 1] == '-') by {
        assert(x[j] == s[j]);
    }
    lemma_dashes_at(x, k);
    assert(x.subrange(0, k) =~= s);
    assert(x.skip(k + 2) =~= t);
}

/// Neither a valid extension name nor a valid version holds a `-`.
proof fn lemma_no_dash_in_names(ext: Seq<char>, v: Seq<char>)
    requires
        valid_extension_name(ext),
        valid_version(v),
    ensures
        forall|i: int| 0 <= i < ext.len() ==> ext[i] != '-',
        forall|i: int| 0 <= i < v.len() ==> v[i] != '-',
{
    assert('-' as u32 == 45 && '.' as u32 == 46 && '_' as u32 == 95);
    assert('0' as u32 == 48 && '9' as u32 == 57);
    assert('a' as u32 == 97 && 'z' as u32 == 122 && 'A' as u32 == 65 && 'Z' as u32 == 90);
    assert forall|i: int| 0 <= i < ext.len() implies ext[i] != '-' by {
        assert(is_ascii_letter(ext[i]) || is_ascii_digit(ext[i]) || ext[i] == '_');
    }
    lemma_versions_are_digit_runs(v);
    let (a, b, c) = choose|a: Seq<char>, b: Seq<char>, c: Seq<char>|
        {
            &&& a.len() > 0 && b.len() > 0 && c.len() > 0
            &&& forall|i: int| 0 <= i < a.len() ==> 48 <= (#[trigger] a[i]) as u32 <= 57
            &&& forall|i: int| 0 <= i < b.len() ==> 48 <= (#[trigger] b[i]) as u32 <= 57
            &&& forall|i: int| 0 <= i < c.len() ==> 48 <= (#[trigger] c[i]) as u32 <= 57
            &&& v == a + seq!['.'] + b + seq!['.'] + c
        };
    assert forall|i: int| 0 <= i < v.len() implies v[i] != '-' by {
        if i < a.len() {
            assert(v[i] == a[i]);
        } else if i == a.len() {
            assert(v[i] == '.');
        } else if i < a.len() + 1 + b.len() {
            assert(v[i] == b[i - a.len() - 1]);
        } else if i == a.len() + 1 + b.len() {
            assert(v[i] == '.');
        } else {
            assert(v[i] == c[i - a.len() - 2 - b.len()]);
        }
    }
}

/// The install script of a valid version `v` of the extension `ext`, named
/// `<ext>--<v>.sql`, is taken as the install script of `v`; named after
/// another valid extension `n`, it is reported as that extension's.
pub proof fn lemma_install_script_recognised(
    ext: Seq<char>,
    n: Seq<char>,
    v: Seq<char>,
    res: SqlFileName,
)
    requires
        valid_extension_name(ext),
        valid_extension_name(n),
        valid_version(v),
    ensures
        sql_file_name_matches(res, ext + seq!['-', '-'] + v + ".sql"@, ext) <==> (res matches SqlFileName::Install {
            version,
        } && version@ == v),
        n != ext ==> (sql_file_name_matches(res, n + seq!['-', '-'] + v + ".sql"@, ext) <==> (
        res matches SqlFileName::ForeignExtension { name } && name@ == n)),
{
    reveal_strlit(".sql");
    lemma_no_dash_in_names(ext, v);
    lemma_no_dash_in_names(n, v);
    lemma_split_dashes_plain(v);
    lemma_split_dashes_lead(ext, v);
    lemma_split_dashes_lead(n, v);
    let a = ext + seq!['-', '-'] + v + ".sql"@;
    assert(a.subrange(0, a.len() - 4) =~= ext + seq!['-', '-'] + v);
    let b = n + seq!['-', '-'] + v + ".sql"@;
    assert(b.subrange(0, b.len() - 4) =~= n + seq!['-', '-'] + v);
    assert(seq![ext] + seq![v] =~= seq![ext, v]);
    assert(seq![n] + seq![v] =~= seq![n, v]);
}

/// The upgrade script between valid versions `f` and `t` of the extension
/// `ext`, named `<ext>--<f>--<t>.sql`, is taken as the upgrade from `f` to
/// `t`; named after another valid extension `n`, it is reported as that
/// extension's.
pub proof fn lemma_upgrade_script_recognised(
    ext: Seq<char>,
    n: Seq<char>,
    f: Seq<char>,
    t: Seq<char>,
    res: SqlFileName,
)
    requires
        valid_extension_name(ext),
        valid_extension_name(n),
        valid_version(f),
        valid_version(t),
    ensures
        sql_file_name_matches(res, ext + seq!['-', '-'] + f + seq!['-', '-'] + t + ".sql"@, ext)
            <==> (res matches SqlFileName::Upgrade { from_version, to_version } && from_version@
            == f && to_version@ == t),
        n != ext ==> (sql_file_name_matches(
            res,
            n + seq!['-', '-'] + f + seq!['-', '-'] + t + ".sql"@,
            ext,
        ) <==> (res matches SqlFileName::ForeignExtension { name } && name@ == n)),
{
    reveal_strlit(".sql");
    lemma_no_dash_in_names(ext, f);
    lemma_no_dash_in_names(n, t);
    lemma_split_dashes_plain(t);
    lemma_split_dashes_lead(f, t);
    let ft = f + seq!['-', '-'] + t;
    lemma_split_dashes_lead(ext, ft);
    lemma_split_dashes_lead(n, ft);
    let a = ext + seq!['-', '-'] + f + seq!['-', '-'] + t + ".sql"@;
    assert(a.subrange(0, a.len() - 4) =~= ext + seq!['-', '-'] + ft);
    let b = n + seq!['-', '-'] + f + seq!['-', '-'] + t + ".sql"@;
    assert(b.subrange(0, b.len() - 4) =~= n + seq!['-', '-'] + ft);
    assert(seq![ext] + (seq![f] + seq![t]) =~= seq![ext, f, t]);
    assert(seq![n] + (seq![f] + seq![t]) =~= seq![n, f, t]);
}

/// `README.md` is the readme; any other name made of a non-empty stem and
/// `.control` is a control file, and one made of a non-empty stem and `.sql`
/// a script; a script or control file is named so, and its stem is not
/// empty.
pub proof fn lemma_entry_kinds(x: Seq<char>, name: Seq<char>)
    requires
        x.len() > 0,
    ensures
        entry_kind_of("README.md"@) == EntryKind::Readme,
        entry_kind_of(x + ".sql"@) == EntryKind::Sql,
        entry_kind_of(x + ".control"@) == EntryKind::Control,
        entry_kind_of(name) == EntryKind::Sql ==> name.len() > 4 && name.subrange(
            name.len() - 4,
            name.len() as int,
        ) == ".sql"@,
        entry_kind_of(name) == EntryKind::Control ==> name.len() > 8 && name.subrange(
            name.len() - 8,
            name.len() as int,
        ) == ".control"@,
{
    reveal_strlit("README.md");
    reveal_strlit(".sql");
    reveal_strlit(".control");
    reveal_strlit("sql");
    reveal_strlit("control");
    let s = x + ".sql"@;
    assert forall|j: int| x.len() < j < s.len() implies s[j] != '.' by {}
    lemma_last_index_of(s, '.', x.len() as int);
    assert(s.subrange(x.len() + 1int, s.len() as int) =~= "sql"@);
    assert(s != "README.md"@) by {
        if s == "README.md"@ {
            assert(s[s.len() - 1] == 'l');
        }
    }
    assert(s != seq!['.', '.']) by {
        if s == seq!['.', '.'] {
            assert(s.len() == 2);
        }
    }
    let c = x + ".control"@;
    assert forall|j: int| x.len() < j < c.len() implies c[j] != '.' by {}
    lemma_last_index_of(c, '.', x.len() as int);
    assert(c.subrange(x.len() + 1int, c.len() as int) =~= "control"@);
    assert(c != "README.md"@) by {
        if c == "README.md"@ {
            assert(c[c.len() - 1] == 'l');
        }
    }
    assert(c != seq!['.', '.']) by {
        if c == seq!['.', '.'] {
            assert(c.len() == 2);
        }
    }
    let i = last_index_of(name, '.');
    if entry_kind_of(name) == EntryKind::Sql || entry_kind_of(name) == EntryKind::Control {
        lemma_last_index_of_bounds(name, '.');
        let e = name.subrange(i + 1, name.len() as int);
        if entry_kind_of(name) == EntryKind::Sql {
            assert(e == "sql"@);
            assert(name.subrange(name.len() - 4, name.len() as int) =~= seq!['.'] + e);
        } else {
            assert(e == "control"@);
            assert(name.subrange(name.len() - 8, name.len() as int) =~= seq!['.'] + e);
        }
    }
}

proof fn lemma_last_index_of_bounds(s: Seq<char>, c: char)
    ensures
        -1 <= last_index_of(s, c) < s.len(),
        last_index_of(s, c) >= 0 ==> s[last_index_of(s, c)] == c,
    decreases s.len(),
{
    if s.len() > 0 && s.last() != c {
        lemma_last_index_of_bounds(s.drop_last(), c);
        let i = last_index_of(s.drop_last(), c);
        if i >= 0 {
            assert(s.drop_last()[i] == s[i]);
        }
    }
}

} // verus!
