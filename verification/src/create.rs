//! The `create extension` statement.
//!
//! `create extension` takes no bind parameters, so names and versions are
//! interpolated, quoted, with every quote character inside doubled so that an
//! embedded quote cannot end the identifier or literal early.
use vstd::prelude::*;

use crate::text::{chars_of, extend_chars, string_of};

verus! {

/// `s` with every `q` written twice.
pub open spec fn doubled(s: Seq<char>, q: char) -> Seq<char>
    decreases s.len(),
{
    if s.len() == 0 {
        Seq::empty()
    } else {
        (if s[0] == q {
            seq![q, q]
        } else {
            seq![s[0]]
        }) + doubled(s.drop_first(), q)
    }
}

/// `s` between two `q`, with every `q` inside doubled.
pub open spec fn quoted(s: Seq<char>, q: char) -> Seq<char> {
    seq![q] + doubled(s, q) + seq![q]
}

/// Reads a token quoted with `q`, from the character after its opening quote,
/// as SQL does: two `q` in a row stand for one, a lone `q` closes the token.
/// The token's content and how many characters were read, closing quote
/// included; `None` when it never closes.
pub open spec fn read_quoted(s: Seq<char>, q: char) -> Option<(Seq<char>, nat)>
    decreases s.len(),
{
    if s.len() == 0 {
        None
    } else if s[0] == q {
        if s.len() >= 2 && s[1] == q {
            match read_quoted(s.skip(2), q) {
                Some((r, n)) => Some((seq![q] + r, n + 2)),
                None => None,
            }
        } else {
            Some((Seq::empty(), 1))
        }
    } else {
        match read_quoted(s.drop_first(), q) {
            Some((r, n)) => Some((seq![s[0]] + r, n + 1)),
            None => None,
        }
    }
}

/// The `create extension` statement for `name`, with an optional schema and
/// version and `cascade` when asked for.
pub open spec fn create_query(
    name: Seq<char>,
    schema: Option<Seq<char>>,
    version: Option<Seq<char>>,
    cascade: bool,
) -> Seq<char> {
    "create extension if not exists "@ + quoted(name, '"') + match schema {
        Some(s) => " schema "@ + quoted(s, '"'),
        None => Seq::empty(),
    } + match version {
        Some(v) => " version "@ + quoted(v, '\''),
        None => Seq::empty(),
    } + if cascade {
        " cascade"@
    } else {
        Seq::empty()
    } + ";"@
}

/// The characters of an optional string slice.
pub open spec fn opt_str_view(o: Option<&str>) -> Option<Seq<char>> {
    match o {
        Some(s) => Some(s@),
        None => None,
    }
}

proof fn lemma_doubled_append(a: Seq<char>, b: Seq<char>, q: char)
    ensures
        doubled(a + b, q) == doubled(a, q) + doubled(b, q),
    decreases a.len(),
{
    if a.len() == 0 {
        assert(a + b =~= b);
        assert(doubled(a, q) + doubled(b, q) =~= doubled(b, q));
    } else {
        assert((a + b).drop_first() =~= a.drop_first() + b);
        lemma_doubled_append(a.drop_first(), b, q);
        let head = if a[0] == q {
            seq![q, q]
        } else {
            seq![a[0]]
        };
        assert(head + (doubled(a.drop_first(), q) + doubled(b, q)) =~= (head + doubled(
            a.drop_first(),
            q,
        )) + doubled(b, q));
    }
}

proof fn lemma_doubled_single(c: char, q: char)
    ensures
        doubled(seq![c], q) == if c == q {
            seq![q, q]
        } else {
            seq![c]
        },
{
    let s = seq![c];
    assert(s.drop_first() =~= Seq::<char>::empty());
    assert(doubled(s.drop_first(), q) == Seq::<char>::empty());
    let head = if c == q {
        seq![q, q]
    } else {
        seq![c]
    };
    assert(head + Seq::<char>::empty() =~= head);
}

/// A quoted token reads back as what was quoted, and its closing quote is
/// the last character: no quote inside it can end it early.
pub proof fn lemma_quoted_reads_back(v: Seq<char>, q: char)
    ensures
        read_quoted(quoted(v, q).drop_first(), q) == Some((v, (quoted(v, q).len() - 1) as nat)),
    decreases v.len(),
{
    assert(quoted(v, q).drop_first() =~= doubled(v, q) + seq![q]);
    if v.len() == 0 {
        assert(doubled(v, q) + seq![q] =~= seq![q]);
    } else {
        let rest = v.drop_first();
        lemma_quoted_reads_back(rest, q);
        let s = doubled(v, q) + seq![q];
        let inner = doubled(rest, q) + seq![q];
        assert(quoted(rest, q).drop_first() =~= inner);
        if v[0] == q {
            assert(s =~= seq![q, q] + inner);
            assert(s.skip(2) =~= inner);
            assert(seq![q] + rest =~= v);
        } else {
            assert(s =~= seq![v[0]] + inner);
            assert(s.drop_first() =~= inner);
            assert(seq![v[0]] + rest =~= v);
        }
    }
}

/// How many times `q` occurs in `s`.
pub open spec fn count_char(s: Seq<char>, q: char) -> nat
    decreases s.len(),
{
    if s.len() == 0 {
        0
    } else {
        (if s[0] == q {
            1nat
        } else {
            0nat
        }) + count_char(s.drop_first(), q)
    }
}

/// Every `q` in `s` stands in a pair `qq`, read from the left: every run of
/// `q` has even length.
pub open spec fn quotes_paired(s: Seq<char>, q: char) -> bool
    decreases s.len(),
{
    if s.len() == 0 {
        true
    } else if s[0] == q {
        s.len() >= 2 && s[1] == q && quotes_paired(s.skip(2), q)
    } else {
        quotes_paired(s.drop_first(), q)
    }
}

/// `s` with each pair `qq`, read from the left, written as one `q`.
pub open spec fn undoubled(s: Seq<char>, q: char) -> Seq<char>
    decreases s.len(),
{
    if s.len() == 0 {
        Seq::empty()
    } else if s[0] == q && s.len() >= 2 && s[1] == q {
        seq![q] + undoubled(s.skip(2), q)
    } else {
        seq![s[0]] + undoubled(s.drop_first(), q)
    }
}

proof fn lemma_doubled_shape(v: Seq<char>, q: char)
    ensures
        doubled(v, q).len() == v.len() + count_char(v, q),
        quotes_paired(doubled(v, q), q),
        undoubled(doubled(v, q), q) == v,
    decreases v.len(),
{
    if v.len() > 0 {
        let rest = v.drop_first();
        lemma_doubled_shape(rest, q);
        let d = doubled(v, q);
        let dr = doubled(rest, q);
        if v[0] == q {
            assert(d =~= seq![q, q] + dr);
            assert(d.skip(2) =~= dr);
            assert(seq![q] + rest =~= v);
        } else {
            assert(d =~= seq![v[0]] + dr);
            assert(d.drop_first() =~= dr);
            assert(seq![v[0]] + rest =~= v);
        }
    }
}

/// The shape of a quoted token: it is as long as the value plus its two
/// quotes plus one more character per quote inside, it begins and ends with
/// `q`, every run of `q` between is of even length, and writing each pair
/// `qq` between as one `q` gives back the value.
pub proof fn lemma_quoted_shape(v: Seq<char>, q: char)
    ensures
        ({
            let r = quoted(v, q);
            let inner = r.subrange(1, r.len() - 1);
            &&& r.len() == v.len() + 2 + count_char(v, q)
            &&& r[0] == q
            &&& r.last() == q
            &&& quotes_paired(inner, q)
            &&& undoubled(inner, q) == v
        }),
{
    lemma_doubled_shape(v, q);
    let r = quoted(v, q);
    assert(r.subrange(1, r.len() - 1) =~= doubled(v, q));
}

/// `value` between two `q`, with every `q` inside doubled.
fn quote_with(value: &str, q: char) -> (res: String)
    ensures
        res@ == quoted(value@, q),
{
    let v = chars_of(value);
    let mut out: Vec<char> = Vec::new();
    out.push(q);
    for i in 0..v.len()
        invariant
            out@ == seq![q] + doubled(v@.take(i as int), q),
    {
        proof {
            assert(v@.take(i + 1) =~= v@.take(i as int) + seq![v@[i as int]]);
            lemma_doubled_append(v@.take(i as int), seq![v@[i as int]], q);
            lemma_doubled_single(v@[i as int], q);
        }
        let ghost before = out@;
        if v[i] == q {
            out.push(q);
            out.push(q);
            assert(doubled(seq![v@[i as int]], q) =~= seq![q, q]);
            assert(out@ =~= before + seq![q, q]);
        } else {
            out.push(v[i]);
            assert(doubled(seq![v@[i as int]], q) =~= seq![v@[i as int]]);
            assert(out@ =~= before + seq![v@[i as int]]);
        }
        assert(out@ =~= seq![q] + doubled(v@.take(i + 1), q));
    }
    assert(v@.take(v.len() as int) =~= v@);
    out.push(q);
    string_of(&out)
}

/// `value` as a SQL identifier: between double quotes, with every double
/// quote inside doubled.
pub fn quote_ident(value: &str) -> (res: String)
    ensures
        res@ == quoted(value@, '"'),
{
    quote_with(value, '"')
}

/// `value` as a SQL string literal: between single quotes, with every single
/// quote inside doubled.
pub fn quote_literal(value: &str) -> (res: String)
    ensures
        res@ == quoted(value@, '\''),
{
    quote_with(value, '\'')
}

/// The statement that creates the extension `extension_name`, in `schema`
/// when one is given, at `version` when one is given, and with `cascade`
/// when asked for.
pub fn create_extension_query(
    extension_name: &str,
    schema: Option<&str>,
    version: Option<&str>,
    cascade: bool,
) -> (res: String)
    ensures
        res@ == create_query(extension_name@, opt_str_view(schema), opt_str_view(version), cascade),
{
    let mut out = chars_of("create extension if not exists ");
    extend_chars(&mut out, &chars_of(quote_ident(extension_name).as_str()));
    let ghost after_name = out@;
    if let Some(schema_name) = schema {
        extend_chars(&mut out, &chars_of(" schema "));
        extend_chars(&mut out, &chars_of(quote_ident(schema_name).as_str()));
    }
    let ghost after_schema = out@;
    if let Some(ver) = version {
        extend_chars(&mut out, &chars_of(" version "));
        extend_chars(&mut out, &chars_of(quote_literal(ver).as_str()));
    }
    let ghost after_version = out@;
    if cascade {
        extend_chars(&mut out, &chars_of(" cascade"));
    }
    let ghost after_cascade = out@;
    extend_chars(&mut out, &chars_of(";"));
    proof {
        let schema_part = match opt_str_view(schema) {
            Some(s) => " schema "@ + quoted(s, '"'),
            None => Seq::empty(),
        };
        let version_part = match opt_str_view(version) {
            Some(v) => " version "@ + quoted(v, '\''),
            None => Seq::empty(),
        };
        let cascade_part = if cascade {
            " cascade"@
        } else {
            Seq::empty()
        };
        assert(after_schema =~= after_name + schema_part);
        assert(after_version =~= after_schema + version_part);
        assert(after_cascade =~= after_version + cascade_part);
        assert(out@ =~= create_query(
            extension_name@,
            opt_str_view(schema),
            opt_str_view(version),
            cascade,
        ));
    }
    string_of(&out)
}

/// Asking for a version adds exactly ` version '<v>'` to the statement, with
/// the version quoted as a literal, just before ` cascade` (when asked for)
/// and the closing `;`, whatever the name and whether or not a schema is
/// given.
pub proof fn lemma_version_clause(
    name: Seq<char>,
    schema: Option<Seq<char>>,
    v: Seq<char>,
    cascade: bool,
)
    ensures
        ({
            let without = create_query(name, schema, None, cascade);
            let tail = (if cascade {
                " cascade"@
            } else {
                Seq::empty()
            }) + ";"@;
            let cut = without.len() - tail.len();
            &&& cut >= 0
            &&& without.subrange(cut, without.len() as int) == tail
            &&& create_query(name, schema, Some(v), cascade) == without.subrange(0, cut)
                + " version "@ + quoted(v, '\'') + tail
        }),
{
    let head = "create extension if not exists "@ + quoted(name, '"') + match schema {
        Some(s) => " schema "@ + quoted(s, '"'),
        None => Seq::empty(),
    };
    let tail = (if cascade {
        " cascade"@
    } else {
        Seq::<char>::empty()
    }) + ";"@;
    let without = create_query(name, schema, None, cascade);
    assert(without =~= head + tail);
    assert(without.subrange(without.len() - tail.len(), without.len() as int) =~= tail);
    assert(without.subrange(0, without.len() - tail.len()) =~= head);
    assert(create_query(name, schema, Some(v), cascade) =~= head + " version "@ + quoted(v, '\'')
        + tail);
}

/// Asking for a schema adds exactly ` schema "<s>"` to the statement, with
/// the schema quoted as an identifier, right after the quoted extension
/// name, whatever the version and cascade.
pub proof fn lemma_schema_clause(
    name: Seq<char>,
    s: Seq<char>,
    version: Option<Seq<char>>,
    cascade: bool,
)
    ensures
        ({
            let head = "create extension if not exists "@ + quoted(name, '"');
            let without = create_query(name, None, version, cascade);
            &&& without.subrange(0, head.len() as int) == head
            &&& create_query(name, Some(s), version, cascade) == head + " schema "@ + quoted(s, '"')
                + without.subrange(head.len() as int, without.len() as int)
        }),
{
    let head = "create extension if not exists "@ + quoted(name, '"');
    let rest = match version {
        Some(v) => " version "@ + quoted(v, '\''),
        None => Seq::<char>::empty(),
    } + (if cascade {
        " cascade"@
    } else {
        Seq::<char>::empty()
    }) + ";"@;
    let without = create_query(name, None, version, cascade);
    assert(without =~= head + rest);
    assert(without.subrange(0, head.len() as int) =~= head);
    assert(without.subrange(head.len() as int, without.len() as int) =~= rest);
    assert(create_query(name, Some(s), version, cascade) =~= head + " schema "@ + quoted(s, '"')
        + rest);
}

/// Asking for `cascade` adds exactly ` cascade` just before the closing
/// `;`, and changes nothing else of the statement.
pub proof fn lemma_cascade_clause(
    name: Seq<char>,
    schema: Option<Seq<char>>,
    version: Option<Seq<char>>,
)
    ensures
        ({
            let plain = create_query(name, schema, version, false);
            &&& plain.len() >= 1
            &&& plain[plain.len() - 1] == ';'
            &&& create_query(name, schema, version, true) == plain.subrange(0, plain.len() - 1)
                + " cascade;"@
        }),
{
    let body = "create extension if not exists "@ + quoted(name, '"') + match schema {
        Some(s) => " schema "@ + quoted(s, '"'),
        None => Seq::empty(),
    } + match version {
        Some(v) => " version "@ + quoted(v, '\''),
        None => Seq::empty(),
    };
    let plain = create_query(name, schema, version, false);
    reveal_strlit(";");
    reveal_strlit(" cascade");
    reveal_strlit(" cascade;");
    assert(plain =~= body + ";"@);
    assert(plain.subrange(0, plain.len() - 1) =~= body);
    assert(create_query(name, schema, version, true) =~= body + " cascade;"@);
}

/// With neither schema, version nor `cascade`, the statement is
/// `create extension if not exists "<name>";`, the name quoted as an
/// identifier.
pub proof fn lemma_plain_statement(name: Seq<char>)
    ensures
        create_query(name, None, None, false) == "create extension if not exists "@ + quoted(
            name,
            '"',
        ) + ";"@,
{
    assert(create_query(name, None, None, false) =~= "create extension if not exists "@ + quoted(
        name,
        '"',
    ) + ";"@);
}

} // verus!
