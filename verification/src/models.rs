//! What an extension package is made of: its control file and metadata, its
//! install and upgrade scripts, and its readme.
use vstd::prelude::*;

use crate::control::{parse_control, parse_control_entries, ControlEntries, ControlError};
use crate::text::{
    is_ws, lemma_split_concat, lemma_split_pieces_lack_sep, lemma_split_single, lemma_trim_is_inner,
    chars_eq, chars_of, lowercase, lowercase_chars, seqs_of, slice_chars, split_chars, split_on,
    string_of, trim, trim_chars, views_of,
};

verus! {

/// The characters of an optional string.
pub open spec fn opt_view(o: Option<String>) -> Option<Seq<char>> {
    match o {
        Some(s) => Some(s@),
        None => None,
    }
}

/// What `key` is set to in `m`.
pub open spec fn setting(m: Map<Seq<char>, Seq<char>>, key: Seq<char>) -> Option<Seq<char>> {
    if m.dom().contains(key) {
        Some(m[key])
    } else {
        None
    }
}

/// Whether `s` ends with `suffix`.
pub open spec fn ends_with(s: Seq<char>, suffix: Seq<char>) -> bool {
    s.len() >= suffix.len() && s.subrange(s.len() - suffix.len(), s.len() as int) == suffix
}

/// The extension's name: the control file's name without `.control`.
pub open spec fn extension_name_of(filename: Seq<char>) -> Option<Seq<char>> {
    if ends_with(filename, ".control"@) {
        Some(filename.subrange(0, filename.len() - ".control"@.len()))
    } else {
        None
    }
}

/// The pieces, each without surrounding whitespace, that are not empty.
pub open spec fn trimmed_nonempty(ps: Seq<Seq<char>>) -> Seq<Seq<char>>
    decreases ps.len(),
{
    if ps.len() == 0 {
        Seq::empty()
    } else {
        let r = trimmed_nonempty(ps.drop_last());
        let t = trim(ps.last());
        if t.len() > 0 {
            r.push(t)
        } else {
            r
        }
    }
}

/// The names of the extensions that a `requires` setting lists, separated by
/// commas.
pub open spec fn requires_of(m: Map<Seq<char>, Seq<char>>) -> Seq<Seq<char>> {
    match setting(m, "requires"@) {
        Some(v) => trimmed_nonempty(split_on(v, ',')),
        None => Seq::empty(),
    }
}

/// The home repository or homepage, under the first of `repository`,
/// `homepage` and `repository_url` that is set.
pub open spec fn repository_of(m: Map<Seq<char>, Seq<char>>) -> Option<Seq<char>> {
    if setting(m, "repository"@) is Some {
        setting(m, "repository"@)
    } else if setting(m, "homepage"@) is Some {
        setting(m, "homepage"@)
    } else {
        setting(m, "repository_url"@)
    }
}

/// Whether the extension is relocatable: `false` when not set, else the
/// setting read as a boolean, case aside; `None` when it is not one.
pub open spec fn relocatable_of(m: Map<Seq<char>, Seq<char>>) -> Option<bool> {
    match setting(m, "relocatable"@) {
        None => Some(false),
        Some(v) => {
            let l = lowercase(v);
            if l == "true"@ || l == "yes"@ || l == "on"@ || l == "1"@ {
                Some(true)
            } else if l == "false"@ || l == "no"@ || l == "off"@ || l == "0"@ {
                Some(false)
            } else {
                None
            }
        },
    }
}

/// The default version, which must be set and not empty.
pub open spec fn default_version_of(m: Map<Seq<char>, Seq<char>>) -> Option<Seq<char>> {
    match setting(m, "default_version"@) {
        Some(v) => if v.len() > 0 {
            Some(v)
        } else {
            None
        },
        None => None,
    }
}

/// A parsed `.control` file.
#[derive(Debug)]
pub struct ControlFileRef {
    pub filename: String,
    entries: ControlEntries,
}

impl ControlFileRef {
    /// The settings made by the control file.
    pub closed spec fn settings(&self) -> Map<Seq<char>, Seq<char>> {
        self.entries@
    }

    /// The control file's name.
    pub closed spec fn file_name(&self) -> Seq<char> {
        self.filename@
    }

    /// Parses `contents`, the body of the control file named `filename`.
    pub fn new(filename: String, contents: &str) -> (res: Result<Self, ControlError>)
        ensures
            match (res, parse_control(contents@)) {
                (Ok(c), Ok(m)) => c.file_name() == filename@ && c.settings() == m,
                (Err(e), Err((fault, line))) => e.reports(fault, line, contents@),
                _ => false,
            },
    {
        let entries = parse_control_entries(contents)?;
        Ok(ControlFileRef { filename, entries })
    }

    /// Name of the extension, as `create extension <name>` takes it.
    pub fn extension_name(&self) -> (res: Result<String, ControlError>)
        ensures
            match extension_name_of(self.file_name()) {
                Some(n) => res matches Ok(s) && s@ == n,
                None => res matches Err(ControlError::NoExtensionName),
            },
    {
        let name = chars_of(self.filename.as_str());
        let suffix = chars_of(".control");
        if name.len() >= suffix.len() {
            let cut = name.len() - suffix.len();
            let tail = slice_chars(&name, cut, name.len());
            if chars_eq(&tail, &suffix) {
                let stem = slice_chars(&name, 0, cut);
                return Ok(string_of(&stem));
            }
        }
        Err(ControlError::NoExtensionName)
    }

    /// A comment (any string) about the extension.
    pub fn comment(&self) -> (res: Option<String>)
        ensures
            opt_view(res) == setting(self.settings(), "comment"@),
    {
        self.entries.get("comment")
    }

    /// The names of the extensions that this extension depends on.
    pub fn required_extensions(&self) -> (res: Vec<String>)
        ensures
            views_of(res@) == requires_of(self.settings()),
    {
        match self.entries.get("requires") {
            Some(val) => {
                let chars = chars_of(val.as_str());
                let pieces = split_chars(&chars, ',');
                let ghost ps = split_on(val@, ',');
                let mut out: Vec<String> = Vec::new();
                for i in 0..pieces.len()
                    invariant
                        seqs_of(pieces@) == ps,
                        views_of(out@) == trimmed_nonempty(ps.take(i as int)),
                {
                    assert(ps.take(i + 1).drop_last() =~= ps.take(i as int));
                    assert(ps[i as int] == pieces@[i as int]@);
                    let t = trim_chars(&pieces[i]);
                    if t.len() > 0 {
                        let ghost before = views_of(out@);
                        out.push(string_of(&t));
                        assert(views_of(out@) =~= before.push(t@));
                    }
                }
                assert(ps.take(pieces.len() as int) =~= ps);
                out
            },
            None => {
                let out: Vec<String> = Vec::new();
                assert(views_of(out@) =~= Seq::<Seq<char>>::empty());
                out
            },
        }
    }

    /// The schema the extension wants to be installed in, if any.
    pub fn schema(&self) -> (res: Option<String>)
        ensures
            opt_view(res) == setting(self.settings(), "schema"@),
    {
        self.entries.get("schema")
    }

    /// The home repository or homepage URL of the extension.
    pub fn repository(&self) -> (res: Option<String>)
        ensures
            opt_view(res) == repository_of(self.settings()),
    {
        match self.entries.get("repository") {
            Some(v) => Some(v),
            None => match self.entries.get("homepage") {
                Some(v) => Some(v),
                None => self.entries.get("repository_url"),
            },
        }
    }

    /// Whether the extension can be moved to another schema.
    pub fn relocatable(&self) -> (res: Result<bool, ControlError>)
        ensures
            match relocatable_of(self.settings()) {
                Some(b) => res matches Ok(x) && x == b,
                None => res matches Err(ControlError::InvalidRelocatable),
            },
    {
        match self.entries.get("relocatable") {
            Some(val) => {
                let lower = lowercase_chars(&chars_of(val.as_str()));
                if chars_eq(&lower, &chars_of("true")) || chars_eq(&lower, &chars_of("yes"))
                    || chars_eq(&lower, &chars_of("on")) || chars_eq(&lower, &chars_of("1")) {
                    Ok(true)
                } else if chars_eq(&lower, &chars_of("false")) || chars_eq(&lower, &chars_of("no"))
                    || chars_eq(&lower, &chars_of("off")) || chars_eq(&lower, &chars_of("0")) {
                    Ok(false)
                } else {
                    Err(ControlError::InvalidRelocatable)
                }
            },
            None => Ok(false),
        }
    }

    /// The version that `create extension` installs when none is named.
    pub fn default_version(&self) -> (res: Result<String, ControlError>)
        ensures
            match default_version_of(self.settings()) {
                Some(v) => res matches Ok(s) && s@ == v,
                None => res matches Err(ControlError::MissingDefaultVersion),
            },
    {
        match self.entries.get("default_version") {
            Some(val) => {
                if !val.as_str().is_empty() {
                    Ok(val)
                } else {
                    Err(ControlError::MissingDefaultVersion)
                }
            },
            None => Err(ControlError::MissingDefaultVersion),
        }
    }
}

/// What the control file says about the extension.
#[derive(Debug)]
pub struct Metadata {
    pub extension_name: String,
    pub default_version: String,
    pub comment: Option<String>,
    pub schema: Option<String>,
    pub relocatable: bool,
    pub requires: Vec<String>,
    pub repository: Option<String>,
}

impl Metadata {
    /// The metadata of the extension whose control file is `control_file_ref`.
    ///
    /// Fails when the file name has no extension name, when `default_version`
    /// is missing or empty, or when `relocatable` is not a boolean, checked in
    /// that order.
    pub fn from_control_file_ref(control_file_ref: &ControlFileRef) -> (res: Result<Self, ControlError>)
        ensures
            ({
                let m = control_file_ref.settings();
                match (
                    extension_name_of(control_file_ref.file_name()),
                    default_version_of(m),
                    relocatable_of(m),
                ) {
                    (Some(n), Some(d), Some(r)) => res matches Ok(meta) && meta.extension_name@ == n
                        && meta.default_version@ == d && meta.relocatable == r && opt_view(
                        meta.comment,
                    ) == setting(m, "comment"@) && views_of(meta.requires@) == requires_of(m)
                        && opt_view(meta.schema) == setting(m, "schema"@) && opt_view(
                        meta.repository,
                    ) == repository_of(m),
                    (None, _, _) => res matches Err(ControlError::NoExtensionName),
                    (Some(_), None, _) => res matches Err(ControlError::MissingDefaultVersion),
                    (Some(_), Some(_), None) => res matches Err(ControlError::InvalidRelocatable),
                }
            }),
    {
        Ok(
            Metadata {
                extension_name: control_file_ref.extension_name()?,
                default_version: control_file_ref.default_version()?,
                comment: control_file_ref.comment(),
                relocatable: control_file_ref.relocatable()?,
                requires: control_file_ref.required_extensions(),
                schema: control_file_ref.schema(),
                repository: control_file_ref.repository(),
            },
        )
    }
}

/// A script that installs one version of the extension from scratch.
#[derive(Debug)]
pub struct InstallFile {
    pub filename: String,
    pub version: String,
    pub body: String,
}

/// A script that upgrades the extension from one version to another.
#[derive(Debug)]
pub struct UpgradeFile {
    pub filename: String,
    pub from_version: String,
    pub to_version: String,
    pub body: String,
}

/// The extension's readme.
#[derive(Debug)]
pub struct ReadmeFile {
    pub body: String,
}

impl ReadmeFile {
    /// The readme's text.
    pub fn body(&self) -> (res: &str)
        ensures
            res@ == self.body@,
    {
        self.body.as_str()
    }
}

/// Everything that is published for an extension.
#[derive(Debug)]
pub struct Payload {
    pub metadata: Metadata,
    pub install_files: Vec<InstallFile>,
    pub upgrade_files: Vec<UpgradeFile>,
    pub readme_file: Option<ReadmeFile>,
}

/// Which setting gives the repository: `repository` when it is set,
/// whatever `homepage` and `repository_url` hold; otherwise `homepage` when
/// it is set; otherwise `repository_url`, or nothing.
pub proof fn lemma_repository_preference(m: Map<Seq<char>, Seq<char>>)
    ensures
        m.dom().contains("repository"@) ==> repository_of(m) == Some(m["repository"@]),
        !m.dom().contains("repository"@) && m.dom().contains("homepage"@) ==> repository_of(m)
            == Some(m["homepage"@]),
        !m.dom().contains("repository"@) && !m.dom().contains("homepage"@) ==> repository_of(m)
            == if m.dom().contains("repository_url"@) {
            Some(m["repository_url"@])
        } else {
            None
        },
{
}

/// The extension's name is what comes before `.control`: the control file
/// of the extension `n` is named `n.control`, and nothing else gives a name.
pub proof fn lemma_extension_name_round_trip(filename: Seq<char>, n: Seq<char>)
    ensures
        extension_name_of(filename) matches Some(x) ==> filename == x + ".control"@,
        extension_name_of(n + ".control"@) == Some(n),
{
    if extension_name_of(filename) is Some {
        let x = filename.subrange(0, filename.len() - ".control"@.len());
        assert(filename =~= x + filename.subrange(
            filename.len() - ".control"@.len(),
            filename.len() as int,
        ));
    }
    let f = n + ".control"@;
    assert(f.subrange(f.len() - ".control"@.len(), f.len() as int) =~= ".control"@);
    assert(f.subrange(0, f.len() - ".control"@.len()) =~= n);
}

/// The default version is the `default_version` setting when it is set and
/// not empty, and there is none otherwise.
pub proof fn lemma_default_version_rule(m: Map<Seq<char>, Seq<char>>)
    ensures
        default_version_of(m) == if m.dom().contains("default_version"@) && m["default_version"@].len()
            > 0 {
            Some(m["default_version"@])
        } else {
            None
        },
{
}

/// `relocatable` is `false` when not set; when set, its value, case aside,
/// is true exactly for `true`, `yes`, `on` and `1`, false exactly for
/// `false`, `no`, `off` and `0`, and not a boolean otherwise.
pub proof fn lemma_relocatable_words(m: Map<Seq<char>, Seq<char>>)
    ensures
        !m.dom().contains("relocatable"@) ==> relocatable_of(m) == Some(false),
        m.dom().contains("relocatable"@) ==> {
            let l = lowercase(m["relocatable"@]);
            &&& (relocatable_of(m) == Some(true) <==> (l == "true"@ || l == "yes"@ || l == "on"@
                || l == "1"@))
            &&& (relocatable_of(m) == Some(false) <==> (!(l == "true"@ || l == "yes"@ || l == "on"@
                || l == "1"@) && (l == "false"@ || l == "no"@ || l == "off"@ || l == "0"@)))
            &&& (relocatable_of(m) is None <==> !(l == "true"@ || l == "yes"@ || l == "on"@ || l
                == "1"@ || l == "false"@ || l == "no"@ || l == "off"@ || l == "0"@))
        },
{
}

/// Each name that `requires` lists is a non-empty piece of the setting
/// between commas, holding no comma, that neither begins nor ends with
/// whitespace.
pub proof fn lemma_requires_items(m: Map<Seq<char>, Seq<char>>)
    ensures
        forall|k: int|
            0 <= k < requires_of(m).len() ==> {
                let x = #[trigger] requires_of(m)[k];
                &&& x.len() > 0
                &&& !is_ws(x[0])
                &&& !is_ws(x.last())
                &&& forall|i: int| 0 <= i < x.len() ==> x[i] != ','
            },
{
    if m.dom().contains("requires"@) {
        let v = m["requires"@];
        lemma_split_pieces_lack_sep(v, ',');
        let ps = split_on(v, ',');
        lemma_trimmed_nonempty_items(ps, ps.len());
        assert(ps.take(ps.len() as int) =~= ps);
        assert(requires_of(m) == trimmed_nonempty(ps));
    }
}

proof fn lemma_trimmed_nonempty_items(ps: Seq<Seq<char>>, n: nat)
    requires
        n <= ps.len(),
        forall|k: int, i: int| 0 <= k < ps.len() && 0 <= i < ps[k].len() ==> #[trigger] ps[k][i] != ',',
    ensures
        forall|k: int|
            0 <= k < trimmed_nonempty(ps.take(n as int)).len() ==> {
                let x = #[trigger] trimmed_nonempty(ps.take(n as int))[k];
                &&& x.len() > 0
                &&& !is_ws(x[0])
                &&& !is_ws(x.last())
                &&& forall|i: int| 0 <= i < x.len() ==> x[i] != ','
            },
    decreases n,
{
    if n == 0 {
        assert(ps.take(0) =~= Seq::<Seq<char>>::empty());
    } else {
        lemma_trimmed_nonempty_items(ps, (n - 1) as nat);
        assert(ps.take(n as int).drop_last() =~= ps.take(n - 1));
        let last = ps[n - 1];
        assert(ps.take(n as int).last() == last);
        lemma_trim_is_inner(last);
        let (i0, j0) = choose|i: int, j: int|
            0 <= i <= j <= last.len() && trim(last) == last.subrange(i, j);
        let t = trim(last);
        assert forall|i: int| 0 <= i < t.len() implies t[i] != ',' by {
            assert(t[i] == last[i0 + i]);
            assert(ps[n - 1][i0 + i] != ',');
        }
        let r = trimmed_nonempty(ps.take(n - 1));
        let q = trimmed_nonempty(ps.take(n as int));
        assert forall|k: int| 0 <= k < q.len() implies {
            let x = #[trigger] q[k];
            &&& x.len() > 0
            &&& !is_ws(x[0])
            &&& !is_ws(x.last())
            &&& forall|i: int| 0 <= i < x.len() ==> x[i] != ','
        } by {
            if k < r.len() {
                assert(q[k] == r[k]);
            } else {
                assert(q[k] == t);
            }
        }
    }
}

proof fn lemma_trimmed_nonempty_append(a: Seq<Seq<char>>, b: Seq<Seq<char>>)
    ensures
        trimmed_nonempty(a + b) == trimmed_nonempty(a) + trimmed_nonempty(b),
    decreases b.len(),
{
    if b.len() == 0 {
        assert(a + b =~= a);
        assert(trimmed_nonempty(a) + trimmed_nonempty(b) =~= trimmed_nonempty(a));
    } else {
        lemma_trimmed_nonempty_append(a, b.drop_last());
        assert((a + b).drop_last() =~= a + b.drop_last());
        assert((a + b).last() == b.last());
        let ra = trimmed_nonempty(a);
        let rb = trimmed_nonempty(b.drop_last());
        assert((ra + rb).push(trim(b.last())) =~= ra + rb.push(trim(b.last())));
    }
}

/// The `requires` list follows the setting piece by piece: a setting
/// `<x>,<y>` lists the names of `<x>` and then those of `<y>`; a piece
/// without a comma gives its text without surrounding whitespace, unless
/// nothing is left; and nothing is required when `requires` is not set.
pub proof fn lemma_requires_pieces(m: Map<Seq<char>, Seq<char>>, x: Seq<char>, y: Seq<char>)
    ensures
        requires_of(m.insert("requires"@, x + seq![','] + y)) == requires_of(
            m.insert("requires"@, x),
        ) + requires_of(m.insert("requires"@, y)),
        (forall|i: int| 0 <= i < x.len() ==> x[i] != ',') ==> requires_of(
            m.insert("requires"@, x),
        ) == if trim(x).len() > 0 {
            seq![trim(x)]
        } else {
            Seq::<Seq<char>>::empty()
        },
        !m.dom().contains("requires"@) ==> requires_of(m).len() == 0,
{
    lemma_split_concat(x, y, ',');
    lemma_trimmed_nonempty_append(split_on(x, ','), split_on(y, ','));
    if forall|i: int| 0 <= i < x.len() ==> x[i] != ',' {
        lemma_split_single(x, ',');
        let one = seq![x];
        assert(one.drop_last() =~= Seq::<Seq<char>>::empty());
        assert(trimmed_nonempty(one.drop_last()) =~= Seq::<Seq<char>>::empty());
        assert(Seq::<Seq<char>>::empty().push(trim(x)) =~= seq![trim(x)]);
    }
}

} // verus!
