//! The installed-state file format: a pretty-printed JSON array of package
//! records, rendered and parsed by this module's own verified code.
//!
//! Strings are quoted with `"` and `\` escaped by a backslash; every other
//! character is carried through unchanged. The renderer emits two-space
//! indentation; the parser accepts any whitespace between tokens.

use vstd::prelude::*;
use crate::model::{Package, PackageView};

verus! {

/// How one character appears inside a quoted string.
pub open spec fn escape_char(c: char) -> Seq<char> {
    if c == '"' || c == '\\' {
        seq!['\\', c]
    } else {
        seq![c]
    }
}

/// A string's characters with quote and backslash escaped.
pub open spec fn json_escape(s: Seq<char>) -> Seq<char>
    decreases s.len(),
{
    if s.len() == 0 {
        Seq::empty()
    } else {
        json_escape(s.drop_last()) + escape_char(s.last())
    }
}

/// A quoted, escaped string.
pub open spec fn quoted(s: Seq<char>) -> Seq<char> {
    seq!['"'] + json_escape(s) + seq!['"']
}

/// The items of a non-empty dependency list, joined by a comma and the list's
/// item indentation.
pub open spec fn render_dep_items(deps: Seq<Seq<char>>) -> Seq<char>
    decreases deps.len(),
{
    if deps.len() <= 1 {
        quoted(deps[0])
    } else {
        render_dep_items(deps.drop_last()) + ",\n      "@ + quoted(deps.last())
    }
}

/// A dependency list as a JSON array of strings.
pub open spec fn render_deps(deps: Seq<Seq<char>>) -> Seq<char> {
    if deps.len() == 0 {
        "[]"@
    } else {
        "[\n      "@ + render_dep_items(deps) + "\n    ]"@
    }
}

/// One package record as a JSON object with its four fields in fixed order.
pub open spec fn render_package(p: PackageView) -> Seq<char> {
    "  {\n    \"name\": "@ + quoted(p.name) + ",\n    \"version\": "@ + quoted(p.version)
        + ",\n    \"dependencies\": "@ + render_deps(p.dependencies) + ",\n    \"url\": "@
        + quoted(p.url) + "\n  }"@
}

/// The records of a non-empty catalog, joined by commas.
pub open spec fn render_entries(pkgs: Seq<PackageView>) -> Seq<char>
    decreases pkgs.len(),
{
    if pkgs.len() <= 1 {
        render_package(pkgs[0])
    } else {
        render_entries(pkgs.drop_last()) + ",\n"@ + render_package(pkgs.last())
    }
}

/// The whole state file: a JSON array of the catalog's records, in catalog
/// order.
pub open spec fn render_state(pkgs: Seq<PackageView>) -> Seq<char> {
    if pkgs.len() == 0 {
        "[]"@
    } else {
        "[\n"@ + render_entries(pkgs) + "\n]"@
    }
}

/// Relies on String::push: appends exactly the given character.
#[verifier::external_body]
fn push_char(out: &mut String, c: char)
    ensures
        final(out)@ == old(out)@ + seq![c],
{
    out.push(c);
}

/// Appends `quoted(s@)` to `out`.
fn write_quoted(out: &mut String, s: &str)
    ensures
        final(out)@ == old(out)@ + quoted(s@),
{
    push_char(out, '"');
    let n = s.unicode_len();
    let mut i: usize = 0;
    while i < n
        invariant
            n == s@.len(),
            i <= n,
            out@ == old(out)@ + seq!['"'] + json_escape(s@.take(i as int)),
        decreases n - i,
    {
        let ghost o0 = out@;
        let c = s.get_char(i);
        if c == '"' || c == '\\' {
            push_char(out, '\\');
            push_char(out, c);
        } else {
            push_char(out, c);
        }
        proof {
            assert(out@ =~= o0 + escape_char(s@[i as int]));
            assert(s@.take(i + 1).drop_last() =~= s@.take(i as int));
            assert(s@.take(i + 1).last() == s@[i as int]);
            assert(json_escape(s@.take(i + 1)) == json_escape(s@.take(i as int)) + escape_char(
                s@[i as int],
            ));
            assert(out@ =~= old(out)@ + seq!['"'] + json_escape(s@.take(i + 1)));
        }
        i += 1;
    }
    push_char(out, '"');
    proof {
        assert(s@.take(n as int) =~= s@);
        assert(out@ =~= old(out)@ + quoted(s@));
    }
}

/// Appends `render_deps(deps.deep_view())` to `out`.
fn write_deps(out: &mut String, deps: &Vec<String>)
    ensures
        final(out)@ == old(out)@ + render_deps(deps.deep_view()),
{
    let ghost dv = deps.deep_view();
    if deps.len() == 0 {
        out.append("[]");
    } else {
        out.append("[\n      ");
        let mut i: usize = 0;
        while i < deps.len()
            invariant
                dv == deps.deep_view(),
                i <= deps.len(),
                i == 0 ==> out@ == old(out)@ + "[\n      "@,
                i > 0 ==> out@ == old(out)@ + "[\n      "@ + render_dep_items(dv.take(i as int)),
            decreases deps.len() - i,
        {
            let ghost o0 = out@;
            if i > 0 {
                out.append(",\n      ");
            }
            write_quoted(out, deps[i].as_str());
            proof {
                assert(dv.take(i + 1).drop_last() =~= dv.take(i as int));
                assert(dv.take(i + 1).last() == dv[i as int]);
                if i == 0 {
                    assert(render_dep_items(dv.take(1)) == quoted(dv[0]));
                    assert(out@ =~= old(out)@ + "[\n      "@ + render_dep_items(dv.take(i + 1)));
                } else {
                    assert(render_dep_items(dv.take(i + 1)) == render_dep_items(dv.take(i as int))
                        + ",\n      "@ + quoted(dv[i as int]));
                    assert(out@ =~= old(out)@ + "[\n      "@ + render_dep_items(dv.take(i + 1)));
                }
            }
            i += 1;
        }
        out.append("\n    ]");
        proof {
            assert(dv.take(deps@.len() as int) =~= dv);
            assert(out@ =~= old(out)@ + render_deps(dv));
        }
    }
}

/// Appends `render_package(p@)` to `out`.
fn write_package(out: &mut String, p: &Package)
    ensures
        final(out)@ == old(out)@ + render_package(p@),
{
    out.append("  {\n    \"name\": ");
    write_quoted(out, p.name.as_str());
    out.append(",\n    \"version\": ");
    write_quoted(out, p.version.as_str());
    out.append(",\n    \"dependencies\": ");
    write_deps(out, &p.dependencies);
    out.append(",\n    \"url\": ");
    write_quoted(out, p.url.as_str());
    out.append("\n  }");
    proof {
        assert(out@ =~= old(out)@ + render_package(p@));
    }
}

/// Renders a whole catalog to the state file's text.
pub fn render_packages(pkgs: &Vec<Package>) -> (r: String)
    ensures
        r@ == render_state(pkgs.deep_view()),
{
    let ghost pv = pkgs.deep_view();
    let mut out = String::new();
    if pkgs.len() == 0 {
        out.append("[]");
        proof {
            assert(out@ =~= render_state(pv));
        }
    } else {
        out.append("[\n");
        let mut i: usize = 0;
        while i < pkgs.len()
            invariant
                pv == pkgs.deep_view(),
                i <= pkgs.len(),
                i == 0 ==> out@ == "[\n"@,
                i > 0 ==> out@ == "[\n"@ + render_entries(pv.take(i as int)),
            decreases pkgs.len() - i,
        {
            if i > 0 {
                out.append(",\n");
            }
            write_package(&mut out, &pkgs[i]);
            proof {
                assert(pv.take(i + 1).drop_last() =~= pv.take(i as int));
                assert(pv.take(i + 1).last() == pv[i as int]);
                if i == 0 {
                    assert(render_entries(pv.take(1)) == render_package(pv[0]));
                    assert(out@ =~= "[\n"@ + render_entries(pv.take(i + 1)));
                } else {
                    assert(render_entries(pv.take(i + 1)) == render_entries(pv.take(i as int))
                        + ",\n"@ + render_package(pv[i as int]));
                    assert(out@ =~= "[\n"@ + render_entries(pv.take(i + 1)));
                }
            }
            i += 1;
        }
        out.append("\n]");
        proof {
            assert(pv.take(pkgs@.len() as int) =~= pv);
            assert(out@ =~= render_state(pv));
        }
    }
    out
}

} // verus!

verus! {

/// JSON insignificant whitespace.
pub open spec fn is_ws(c: char) -> bool {
    c == ' ' || c == '\n' || c == '\t' || c == '\r'
}

/// The text with its leading whitespace removed.
pub open spec fn skip_ws(t: Seq<char>) -> Seq<char>
    decreases t.len(),
{
    if t.len() > 0 && is_ws(t[0]) {
        skip_ws(t.drop_first())
    } else {
        t
    }
}

/// After optional whitespace, the expected character; the rest on success.
pub open spec fn parse_char(t: Seq<char>, c: char) -> Option<Seq<char>> {
    let t1 = skip_ws(t);
    if t1.len() > 0 && t1[0] == c {
        Some(t1.drop_first())
    } else {
        None
    }
}

/// The inside of a quoted string up to and beyond its closing quote: the
/// unescaped characters and the rest of the text.
pub open spec fn parse_string_body(t: Seq<char>) -> Option<(Seq<char>, Seq<char>)>
    decreases t.len(),
{
    if t.len() == 0 {
        None
    } else if t[0] == '"' {
        Some((Seq::empty(), t.drop_first()))
    } else if t[0] == '\\' {
        if t.len() >= 2 && (t[1] == '"' || t[1] == '\\') {
            match parse_string_body(t.skip(2)) {
                Some((s, r)) => Some((seq![t[1]] + s, r)),
                None => None,
            }
        } else {
            None
        }
    } else {
        match parse_string_body(t.drop_first()) {
            Some((s, r)) => Some((seq![t[0]] + s, r)),
            None => None,
        }
    }
}

/// A whole quoted string after optional whitespace.
pub open spec fn parse_string(t: Seq<char>) -> Option<(Seq<char>, Seq<char>)> {
    match parse_char(t, '"') {
        Some(r) => parse_string_body(r),
        None => None,
    }
}

/// Skipping whitespace never lengthens the text.
pub proof fn lemma_skip_ws_le(t: Seq<char>)
    ensures
        skip_ws(t).len() <= t.len(),
    decreases t.len(),
{
    if t.len() > 0 && is_ws(t[0]) {
        lemma_skip_ws_le(t.drop_first());
    }
}

/// A matched character consumes at least one character.
pub proof fn lemma_parse_char_lt(t: Seq<char>, c: char)
    requires
        parse_char(t, c) is Some,
    ensures
        parse_char(t, c)->Some_0.len() < t.len(),
{
    lemma_skip_ws_le(t);
}

/// A parsed string body consumes at least its closing quote.
pub proof fn lemma_parse_string_body_lt(t: Seq<char>)
    requires
        parse_string_body(t) is Some,
    ensures
        parse_string_body(t)->Some_0.1.len() < t.len(),
    decreases t.len(),
{
    if t.len() == 0 {
    } else if t[0] == '"' {
    } else if t[0] == '\\' {
        lemma_parse_string_body_lt(t.skip(2));
    } else {
        lemma_parse_string_body_lt(t.drop_first());
    }
}

/// A parsed string consumes at least its two quotes.
pub proof fn lemma_parse_string_lt(t: Seq<char>)
    requires
        parse_string(t) is Some,
    ensures
        parse_string(t)->Some_0.1.len() < t.len(),
{
    lemma_parse_char_lt(t, '"');
    lemma_parse_string_body_lt(parse_char(t, '"')->Some_0);
}

/// A quoted key that must match, then a colon; the rest on success.
pub open spec fn parse_key(t: Seq<char>, key: Seq<char>) -> Option<Seq<char>> {
    match parse_string(t) {
        Some((s, r)) => if s == key {
            parse_char(r, ':')
        } else {
            None
        },
        None => None,
    }
}

/// A matched key and colon consume at least three characters.
pub proof fn lemma_parse_key_lt(t: Seq<char>, key: Seq<char>)
    requires
        parse_key(t, key) is Some,
    ensures
        parse_key(t, key)->Some_0.len() < t.len(),
{
    lemma_parse_string_lt(t);
    lemma_parse_char_lt(parse_string(t)->Some_0.1, ':');
}

/// The items of a non-empty JSON string array, after its opening bracket:
/// strings separated by commas, ended by the closing bracket.
pub open spec fn parse_string_items(t: Seq<char>) -> Option<(Seq<Seq<char>>, Seq<char>)>
    decreases t.len(),
{
    match parse_string(t) {
        Some((s, r)) => {
            proof {
                lemma_parse_string_lt(t);
            }
            match parse_char(r, ',') {
                Some(r2) => {
                    proof {
                        lemma_parse_char_lt(r, ',');
                    }
                    match parse_string_items(r2) {
                        Some((rest, r3)) => Some((seq![s] + rest, r3)),
                        None => None,
                    }
                },
                None => match parse_char(r, ']') {
                    Some(r3) => Some((seq![s], r3)),
                    None => None,
                },
            }
        },
        None => None,
    }
}

/// A JSON array of strings: empty brackets, or bracketed items.
pub open spec fn parse_deps(t: Seq<char>) -> Option<(Seq<Seq<char>>, Seq<char>)> {
    match parse_char(t, '[') {
        Some(r) => match parse_char(r, ']') {
            Some(r2) => Some((Seq::empty(), r2)),
            None => parse_string_items(r),
        },
        None => None,
    }
}

/// A parsed dependency list consumes at least its brackets.
pub proof fn lemma_parse_deps_lt(t: Seq<char>)
    requires
        parse_deps(t) is Some,
    ensures
        parse_deps(t)->Some_0.1.len() < t.len(),
    decreases t.len(),
{
    lemma_parse_char_lt(t, '[');
    let r = parse_char(t, '[')->Some_0;
    if parse_char(r, ']') is Some {
        lemma_parse_char_lt(r, ']');
    } else {
        lemma_parse_string_items_lt(r);
    }
}

/// Parsed array items consume at least the closing bracket.
pub proof fn lemma_parse_string_items_lt(t: Seq<char>)
    requires
        parse_string_items(t) is Some,
    ensures
        parse_string_items(t)->Some_0.1.len() < t.len(),
    decreases t.len(),
{
    lemma_parse_string_lt(t);
    let r = parse_string(t)->Some_0.1;
    match parse_char(r, ',') {
        Some(r2) => {
            lemma_parse_char_lt(r, ',');
            lemma_parse_string_items_lt(r2);
        },
        None => {
            lemma_parse_char_lt(r, ']');
        },
    }
}

/// One package object: brace, the four keyed fields in fixed order, brace.
pub open spec fn parse_package(t: Seq<char>) -> Option<(PackageView, Seq<char>)> {
    match parse_char(t, '{') {
        Some(r0) => match parse_key(r0, "name"@) {
            Some(r1) => match parse_string(r1) {
                Some((name, r2)) => match parse_char(r2, ',') {
                    Some(r3) => match parse_key(r3, "version"@) {
                        Some(r4) => match parse_string(r4) {
                            Some((version, r5)) => match parse_char(r5, ',') {
                                Some(r6) => match parse_key(r6, "dependencies"@) {
                                    Some(r7) => match parse_deps(r7) {
                                        Some((deps, r8)) => match parse_char(r8, ',') {
                                            Some(r9) => match parse_key(r9, "url"@) {
                                                Some(r10) => match parse_string(r10) {
                                                    Some((url, r11)) => match parse_char(r11, '}') {
                                                        Some(r12) => Some(
                                                            (
                                                                PackageView {
                                                                    name,
                                                                    version,
                                                                    dependencies: deps,
                                                                    url,
                                                                },
                                                                r12,
                                                            ),
                                                        ),
                                                        None => None,
                                                    },
                                                    None => None,
                                                },
                                                None => None,
                                            },
                                            None => None,
                                        },
                                        None => None,
                                    },
                                    None => None,
                                },
                                None => None,
                            },
                            None => None,
                        },
                        None => None,
                    },
                    None => None,
                },
                None => None,
            },
            None => None,
        },
        None => None,
    }
}

/// A parsed package object consumes at least its braces.
pub proof fn lemma_parse_package_lt(t: Seq<char>)
    requires
        parse_package(t) is Some,
    ensures
        parse_package(t)->Some_0.1.len() < t.len(),
{
    lemma_parse_char_lt(t, '{');
    let r0 = parse_char(t, '{')->Some_0;
    lemma_parse_key_lt(r0, "name"@);
    let r1 = parse_key(r0, "name"@)->Some_0;
    lemma_parse_string_lt(r1);
    let r2 = parse_string(r1)->Some_0.1;
    lemma_parse_char_lt(r2, ',');
    let r3 = parse_char(r2, ',')->Some_0;
    lemma_parse_key_lt(r3, "version"@);
    let r4 = parse_key(r3, "version"@)->Some_0;
    lemma_parse_string_lt(r4);
    let r5 = parse_string(r4)->Some_0.1;
    lemma_parse_char_lt(r5, ',');
    let r6 = parse_char(r5, ',')->Some_0;
    lemma_parse_key_lt(r6, "dependencies"@);
    let r7 = parse_key(r6, "dependencies"@)->Some_0;
    lemma_parse_deps_lt(r7);
    let r8 = parse_deps(r7)->Some_0.1;
    lemma_parse_char_lt(r8, ',');
    let r9 = parse_char(r8, ',')->Some_0;
    lemma_parse_key_lt(r9, "url"@);
    let r10 = parse_key(r9, "url"@)->Some_0;
    lemma_parse_string_lt(r10);
    let r11 = parse_string(r10)->Some_0.1;
    lemma_parse_char_lt(r11, '}');
}

/// The records of a non-empty state file, after its opening bracket.
pub open spec fn parse_package_items(t: Seq<char>) -> Option<(Seq<PackageView>, Seq<char>)>
    decreases t.len(),
{
    match parse_package(t) {
        Some((p, r)) => {
            proof {
                lemma_parse_package_lt(t);
            }
            match parse_char(r, ',') {
                Some(r2) => {
                    proof {
                        lemma_parse_char_lt(r, ',');
                    }
                    match parse_package_items(r2) {
                        Some((rest, r3)) => Some((seq![p] + rest, r3)),
                        None => None,
                    }
                },
                None => match parse_char(r, ']') {
                    Some(r3) => Some((seq![p], r3)),
                    None => None,
                },
            }
        },
        None => None,
    }
}

/// The whole state file: a JSON array of package objects with nothing but
/// whitespace after it.
pub open spec fn parse_state(t: Seq<char>) -> Option<Seq<PackageView>> {
    let outcome = match parse_char(t, '[') {
        Some(r) => match parse_char(r, ']') {
            Some(r2) => Some((Seq::<PackageView>::empty(), r2)),
            None => parse_package_items(r),
        },
        None => None,
    };
    match outcome {
        Some((pkgs, r)) => if skip_ws(r).len() == 0 {
            Some(pkgs)
        } else {
            None
        },
        None => None,
    }
}

} // verus!

use crate::model::PkgError;

verus! {

/// The characters of `s`, as a vector.
fn chars_of(s: &str) -> (r: Vec<char>)
    ensures
        r@ == s@,
{
    let n = s.unicode_len();
    let mut r: Vec<char> = Vec::new();
    let mut i: usize = 0;
    while i < n
        invariant
            n == s@.len(),
            i <= n,
            r@ == s@.take(i as int),
        decreases n - i,
    {
        r.push(s.get_char(i));
        proof {
            assert(r@ =~= s@.take(i + 1));
        }
        i += 1;
    }
    proof {
        assert(s@.take(n as int) =~= s@);
    }
    r
}

/// Whether `c` is JSON whitespace.
fn is_ws_exec(c: char) -> (r: bool)
    ensures
        r == is_ws(c),
{
    c == ' ' || c == '\n' || c == '\t' || c == '\r'
}

/// Advances past leading whitespace.
fn p_ws(t: &Vec<char>, i: usize) -> (j: usize)
    requires
        i <= t.len(),
    ensures
        i <= j <= t.len(),
        t@.skip(j as int) == skip_ws(t@.skip(i as int)),
{
    let mut j = i;
    while j < t.len() && is_ws_exec(t[j])
        invariant
            i <= j <= t.len(),
            skip_ws(t@.skip(i as int)) == skip_ws(t@.skip(j as int)),
        decreases t.len() - j,
    {
        proof {
            assert(t@.skip(j as int)[0] == t@[j as int]);
            assert(t@.skip(j as int).drop_first() =~= t@.skip(j as int + 1));
        }
        j += 1;
    }
    proof {
        if j < t.len() {
            assert(t@.skip(j as int)[0] == t@[j as int]);
        }
        assert(skip_ws(t@.skip(j as int)) == t@.skip(j as int));
    }
    j
}

/// Matches one expected character after optional whitespace.
fn p_char(t: &Vec<char>, i: usize, c: char) -> (r: Option<usize>)
    requires
        i <= t.len(),
    ensures
        match r {
            Some(j) => i <= j <= t.len() && parse_char(t@.skip(i as int), c) == Some(
                t@.skip(j as int),
            ),
            None => parse_char(t@.skip(i as int), c) is None,
        },
{
    let j = p_ws(t, i);
    if j < t.len() && t[j] == c {
        proof {
            assert(t@.skip(j as int)[0] == t@[j as int]);
            assert(t@.skip(j as int).drop_first() =~= t@.skip(j as int + 1));
        }
        Some(j + 1)
    } else {
        proof {
            if j < t.len() {
                assert(t@.skip(j as int)[0] == t@[j as int]);
            }
        }
        None
    }
}

/// Parses one quoted string after optional whitespace.
fn p_string(t: &Vec<char>, i: usize) -> (r: Option<(String, usize)>)
    requires
        i <= t.len(),
    ensures
        match r {
            Some(sj) => i <= sj.1 <= t.len() && parse_string(t@.skip(i as int)) == Some(
                (sj.0@, t@.skip(sj.1 as int)),
            ),
            None => parse_string(t@.skip(i as int)) is None,
        },
{
    let start = match p_char(t, i, '"') {
        Some(j) => j,
        None => {
            return None;
        },
    };
    let ghost body0 = t@.skip(start as int);
    let mut s = String::new();
    let mut j = start;
    loop
        invariant
            start <= j <= t.len(),
            i <= start <= t.len(),
            body0 == t@.skip(start as int),
            parse_char(t@.skip(i as int), '"') == Some(body0),
            (match parse_string_body(t@.skip(j as int)) {
                Some((s2, r2)) => parse_string_body(body0) == Some((s@ + s2, r2)),
                None => parse_string_body(body0) is None,
            }),
        decreases t.len() - j,
    {
        if j >= t.len() {
            proof {
                assert(t@.skip(j as int).len() == 0);
                assert(parse_string_body(t@.skip(j as int)) is None);
            }
            return None;
        }
        let c = t[j];
        proof {
            assert(t@.skip(j as int)[0] == t@[j as int]);
        }
        if c == '"' {
            proof {
                assert(t@.skip(j as int).drop_first() =~= t@.skip(j as int + 1));
                assert(parse_string_body(t@.skip(j as int)) == Some(
                    (Seq::<char>::empty(), t@.skip(j as int + 1)),
                ));
                assert(s@ + Seq::<char>::empty() =~= s@);
            }
            return Some((s, j + 1));
        } else if c == '\\' {
            if j + 1 < t.len() {
                let c2 = t[j + 1];
                proof {
                    assert(t@.skip(j as int)[1] == t@[j as int + 1]);
                }
                if c2 == '"' || c2 == '\\' {
                    let ghost s0 = s@;
                    push_char(&mut s, c2);
                    proof {
                        assert(t@.skip(j as int).skip(2) =~= t@.skip(j as int + 2));
                        assert(s@ =~= s0 + seq![c2]);
                        assert forall|s2: Seq<char>| true implies (s0 + seq![c2]) + s2 =~= s0 + (
                        seq![c2] + s2) by {}
                    }
                    j += 2;
                } else {
                    proof {
                        assert(parse_string_body(t@.skip(j as int)) is None);
                    }
                    return None;
                }
            } else {
                proof {
                    assert(t@.skip(j as int).len() < 2);
                    assert(parse_string_body(t@.skip(j as int)) is None);
                }
                return None;
            }
        } else {
            let ghost s0 = s@;
            push_char(&mut s, c);
            proof {
                assert(t@.skip(j as int).drop_first() =~= t@.skip(j as int + 1));
                assert(s@ =~= s0 + seq![c]);
                assert forall|s2: Seq<char>| true implies (s0 + seq![c]) + s2 =~= s0 + (seq![c]
                    + s2) by {}
            }
            j += 1;
        }
    }
}

/// Parses a key that must equal `key`, then its colon.
fn p_key(t: &Vec<char>, i: usize, key: &str) -> (r: Option<usize>)
    requires
        i <= t.len(),
    ensures
        match r {
            Some(j) => i <= j <= t.len() && parse_key(t@.skip(i as int), key@) == Some(
                t@.skip(j as int),
            ),
            None => parse_key(t@.skip(i as int), key@) is None,
        },
{
    match p_string(t, i) {
        Some((s, j)) => {
            let k = key.to_owned();
            if s == k {
                p_char(t, j, ':')
            } else {
                None
            }
        },
        None => None,
    }
}

} // verus!

verus! {

/// Parses a JSON array of strings.
fn p_deps(t: &Vec<char>, i: usize) -> (r: Option<(Vec<String>, usize)>)
    requires
        i <= t.len(),
    ensures
        match r {
            Some(vj) => i <= vj.1 <= t.len() && parse_deps(t@.skip(i as int)) == Some(
                (vj.0.deep_view(), t@.skip(vj.1 as int)),
            ),
            None => parse_deps(t@.skip(i as int)) is None,
        },
{
    let a = match p_char(t, i, '[') {
        Some(a) => a,
        None => {
            return None;
        },
    };
    match p_char(t, a, ']') {
        Some(b) => {
            let v: Vec<String> = Vec::new();
            proof {
                assert(v.deep_view() =~= Seq::<Seq<char>>::empty());
            }
            return Some((v, b));
        },
        None => {},
    }
    let ghost items0 = t@.skip(a as int);
    let mut v: Vec<String> = Vec::new();
    let mut j = a;
    loop
        invariant
            a <= j <= t.len(),
            i <= a <= t.len(),
            items0 == t@.skip(a as int),
            parse_char(t@.skip(i as int), '[') == Some(items0),
            parse_char(items0, ']') is None,
            (match parse_string_items(t@.skip(j as int)) {
                Some((rest, r2)) => parse_string_items(items0) == Some(
                    (v.deep_view() + rest, r2),
                ),
                None => parse_string_items(items0) is None,
            }),
        decreases t.len() - j,
    {
        let (s, j2) = match p_string(t, j) {
            Some(sj) => sj,
            None => {
                return None;
            },
        };
        proof {
            lemma_parse_string_lt(t@.skip(j as int));
        }
        let ghost v0 = v.deep_view();
        v.push(s);
        proof {
            assert(v.deep_view() =~= v0.push(s@));
        }
        match p_char(t, j2, ',') {
            Some(j3) => {
                proof {
                    lemma_parse_char_lt(t@.skip(j2 as int), ',');
                    assert forall|rest2: Seq<Seq<char>>| true implies v0 + (seq![s@] + rest2) =~= (
                    v0.push(s@)) + rest2 by {}
                }
                j = j3;
            },
            None => {
                match p_char(t, j2, ']') {
                    Some(j4) => {
                        proof {
                            assert(parse_string_items(t@.skip(j as int)) == Some(
                                (seq![s@], t@.skip(j4 as int)),
                            ));
                            assert(v0 + seq![s@] =~= v0.push(s@));
                        }
                        return Some((v, j4));
                    },
                    None => {
                        return None;
                    },
                }
            },
        }
    }
}

/// Parses one package object.
fn p_package(t: &Vec<char>, i: usize) -> (r: Option<(Package, usize)>)
    requires
        i <= t.len(),
    ensures
        match r {
            Some(pj) => i <= pj.1 <= t.len() && parse_package(t@.skip(i as int)) == Some(
                (pj.0@, t@.skip(pj.1 as int)),
            ),
            None => parse_package(t@.skip(i as int)) is None,
        },
{
    let r0 = match p_char(t, i, '{') {
        Some(j) => j,
        None => {
            return None;
        },
    };
    let r1 = match p_key(t, r0, "name") {
        Some(j) => j,
        None => {
            return None;
        },
    };
    let (name, r2) = match p_string(t, r1) {
        Some(sj) => sj,
        None => {
            return None;
        },
    };
    let r3 = match p_char(t, r2, ',') {
        Some(j) => j,
        None => {
            return None;
        },
    };
    let r4 = match p_key(t, r3, "version") {
        Some(j) => j,
        None => {
            return None;
        },
    };
    let (version, r5) = match p_string(t, r4) {
        Some(sj) => sj,
        None => {
            return None;
        },
    };
    let r6 = match p_char(t, r5, ',') {
        Some(j) => j,
        None => {
            return None;
        },
    };
    let r7 = match p_key(t, r6, "dependencies") {
        Some(j) => j,
        None => {
            return None;
        },
    };
    let (deps, r8) = match p_deps(t, r7) {
        Some(vj) => vj,
        None => {
            return None;
        },
    };
    let r9 = match p_char(t, r8, ',') {
        Some(j) => j,
        None => {
            return None;
        },
    };
    let r10 = match p_key(t, r9, "url") {
        Some(j) => j,
        None => {
            return None;
        },
    };
    let (url, r11) = match p_string(t, r10) {
        Some(sj) => sj,
        None => {
            return None;
        },
    };
    let r12 = match p_char(t, r11, '}') {
        Some(j) => j,
        None => {
            return None;
        },
    };
    let p = Package { name, version, dependencies: deps, url };
    proof {
        assert(p@ =~~= parse_package(t@.skip(i as int))->Some_0.0);
    }
    Some((p, r12))
}

/// Parses the whole state file; a malformed file is a serialization error.
pub fn parse_packages(text: &str) -> (r: Result<Vec<Package>, PkgError>)
    ensures
        match r {
            Ok(v) => parse_state(text@) == Some(v.deep_view()),
            Err(e) => e == PkgError::Serialization && parse_state(text@) is None,
        },
{
    let t = chars_of(text);
    proof {
        assert(t@.skip(0) =~= text@);
    }
    let a = match p_char(&t, 0, '[') {
        Some(a) => a,
        None => {
            return Err(PkgError::Serialization);
        },
    };
    match p_char(&t, a, ']') {
        Some(b) => {
            let end = p_ws(&t, b);
            if end == t.len() {
                let v: Vec<Package> = Vec::new();
                proof {
                    assert(t@.skip(end as int).len() == 0);
                    assert(v.deep_view() =~= Seq::<PackageView>::empty());
                }
                return Ok(v);
            } else {
                proof {
                    assert(skip_ws(t@.skip(b as int)) == t@.skip(end as int));
                    assert(end < t.len());
                    assert(t@.skip(end as int).len() > 0);
                    assert(parse_char(text@, '[') == Some(t@.skip(a as int)));
                    assert(parse_char(t@.skip(a as int), ']') == Some(t@.skip(b as int)));
                    assert(parse_state(text@) is None);
                }
                return Err(PkgError::Serialization);
            }
        },
        None => {},
    }
    let ghost items0 = t@.skip(a as int);
    let mut v: Vec<Package> = Vec::new();
    let mut j = a;
    loop
        invariant
            a <= j <= t.len(),
            t@ == text@,
            items0 == t@.skip(a as int),
            parse_char(text@, '[') == Some(items0),
            parse_char(items0, ']') is None,
            (match parse_package_items(t@.skip(j as int)) {
                Some((rest, r2)) => parse_package_items(items0) == Some(
                    (v.deep_view() + rest, r2),
                ),
                None => parse_package_items(items0) is None,
            }),
        decreases t.len() - j,
    {
        let (p, j2) = match p_package(&t, j) {
            Some(pj) => pj,
            None => {
                proof {
                    assert(parse_package_items(t@.skip(j as int)) is None);
                    assert(parse_state(text@) is None);
                }
                return Err(PkgError::Serialization);
            },
        };
        proof {
            lemma_parse_package_lt(t@.skip(j as int));
        }
        let ghost v0 = v.deep_view();
        v.push(p);
        proof {
            assert(v.deep_view() =~= v0.push(p@));
        }
        match p_char(&t, j2, ',') {
            Some(j3) => {
                proof {
                    lemma_parse_char_lt(t@.skip(j2 as int), ',');
                    assert forall|rest2: Seq<PackageView>| true implies v0 + (seq![p@] + rest2)
                        =~= (v0.push(p@)) + rest2 by {}
                }
                j = j3;
            },
            None => {
                match p_char(&t, j2, ']') {
                    Some(j4) => {
                        proof {
                            assert(parse_package_items(t@.skip(j as int)) == Some(
                                (seq![p@], t@.skip(j4 as int)),
                            ));
                            assert(v0 + seq![p@] =~= v0.push(p@));
                        }
                        let end = p_ws(&t, j4);
                        if end == t.len() {
                            proof {
                                assert(t@.skip(end as int).len() == 0);
                            }
                            return Ok(v);
                        } else {
                            proof {
                                assert(end < t.len());
                                assert(t@.skip(end as int).len() > 0);
                                assert(skip_ws(t@.skip(j4 as int)) == t@.skip(end as int));
                                assert(parse_package_items(items0) == Some(
                                    (v.deep_view(), t@.skip(j4 as int)),
                                ));
                                assert(parse_char(text@, '[') == Some(items0));
                                assert(parse_state(text@) is None);
                            }
                            return Err(PkgError::Serialization);
                        }
                    },
                    None => {
                        proof {
                            assert(parse_package_items(t@.skip(j as int)) is None);
                            assert(parse_state(text@) is None);
                        }
                        return Err(PkgError::Serialization);
                    },
                }
            },
        }
    }
}

} // verus!

verus! {

/// Every character is whitespace.
pub open spec fn ws_all(w: Seq<char>) -> bool {
    forall|k: int| 0 <= k < w.len() ==> is_ws(#[trigger] w[k])
}

/// Skipping whitespace runs through a whitespace prefix and stops at the
/// first non-whitespace character.
proof fn lemma_skip_ws_concat(w: Seq<char>, t: Seq<char>)
    requires
        ws_all(w),
        t.len() == 0 || !is_ws(t[0]),
    ensures
        skip_ws(w + t) == t,
    decreases w.len(),
{
    if w.len() == 0 {
        assert(w + t =~= t);
    } else {
        assert((w + t)[0] == w[0]);
        assert((w + t).drop_first() =~= w.drop_first() + t);
        lemma_skip_ws_concat(w.drop_first(), t);
    }
}

/// Escaping, unfolded at the front.
proof fn lemma_escape_unfold(s: Seq<char>)
    requires
        s.len() > 0,
    ensures
        json_escape(s) == escape_char(s[0]) + json_escape(s.drop_first()),
    decreases s.len(),
{
    if s.len() == 1 {
        assert(s.drop_last().len() == 0);
        assert(s.last() == s[0]);
        assert(s.drop_first().len() == 0);
        assert(json_escape(s.drop_last()) =~= Seq::<char>::empty());
        assert(json_escape(s.drop_first()) =~= Seq::<char>::empty());
        assert(json_escape(s) =~= escape_char(s[0]) + json_escape(s.drop_first()));
    } else {
        lemma_escape_unfold(s.drop_last());
        assert(s.drop_last()[0] == s[0]);
        assert(s.drop_last().drop_first() =~= s.drop_first().drop_last());
        assert(s.drop_first().last() == s.last());
        assert(json_escape(s.drop_first()) == json_escape(s.drop_first().drop_last())
            + escape_char(s.drop_first().last()));
        assert(json_escape(s) =~= escape_char(s[0]) + json_escape(s.drop_first()));
    }
}

/// Parsing a string body undoes escaping exactly.
proof fn lemma_rt_body(s: Seq<char>, u: Seq<char>)
    ensures
        parse_string_body(json_escape(s) + (seq!['"'] + u)) == Some((s, u)),
    decreases s.len(),
{
    let t = json_escape(s) + (seq!['"'] + u);
    if s.len() == 0 {
        assert(t =~= seq!['"'] + u);
        assert(t[0] == '"');
        assert(t.drop_first() =~= u);
        assert(s =~= Seq::<char>::empty());
    } else {
        lemma_escape_unfold(s);
        lemma_rt_body(s.drop_first(), u);
        let c = s[0];
        if c == '"' || c == '\\' {
            assert(t =~= seq!['\\', c] + (json_escape(s.drop_first()) + (seq!['"'] + u)));
            assert(t[0] == '\\');
            assert(t[1] == c);
            assert(t.len() >= 2);
            assert(t.skip(2) =~= json_escape(s.drop_first()) + (seq!['"'] + u));
            assert(seq![c] + s.drop_first() =~= s);
        } else {
            assert(t =~= seq![c] + (json_escape(s.drop_first()) + (seq!['"'] + u)));
            assert(t[0] == c);
            assert(t.drop_first() =~= json_escape(s.drop_first()) + (seq!['"'] + u));
            assert(seq![c] + s.drop_first() =~= s);
        }
    }
}

/// Parsing one expected character after a whitespace prefix.
proof fn lemma_pc(w: Seq<char>, c: char, u: Seq<char>)
    requires
        ws_all(w),
        !is_ws(c),
    ensures
        parse_char(w + (seq![c] + u), c) == Some(u),
{
    lemma_skip_ws_concat(w, seq![c] + u);
    assert((seq![c] + u)[0] == c);
    assert((seq![c] + u).drop_first() =~= u);
}

/// Parsing a rendered string after a whitespace prefix yields the string back.
proof fn lemma_ps(w: Seq<char>, s: Seq<char>, u: Seq<char>)
    requires
        ws_all(w),
    ensures
        parse_string(w + (quoted(s) + u)) == Some((s, u)),
{
    let t = w + (quoted(s) + u);
    assert(t =~= w + (seq!['"'] + (json_escape(s) + (seq!['"'] + u))));
    lemma_pc(w, '"', json_escape(s) + (seq!['"'] + u));
    lemma_rt_body(s, u);
}

/// A string free of quotes and backslashes escapes to itself.
proof fn lemma_escape_free(s: Seq<char>)
    requires
        forall|k: int| 0 <= k < s.len() ==> s[k] != '"' && s[k] != '\\',
    ensures
        json_escape(s) == s,
    decreases s.len(),
{
    if s.len() > 0 {
        lemma_escape_free(s.drop_last());
        assert(json_escape(s) =~= s);
    }
}

/// Parsing a rendered key and its colon.
proof fn lemma_pk(w: Seq<char>, key: Seq<char>, u: Seq<char>)
    requires
        ws_all(w),
        forall|k: int| 0 <= k < key.len() ==> key[k] != '"' && key[k] != '\\',
    ensures
        parse_key(w + (quoted(key) + (seq![':'] + u)), key) == Some(u),
{
    lemma_ps(w, key, seq![':'] + u);
    lemma_pc(Seq::empty(), ':', u);
    assert(Seq::<char>::empty() + (seq![':'] + u) =~= seq![':'] + u);
}

} // verus!

verus! {

/// The dependency items, unfolded at the front.
proof fn lemma_rdi_unfold(deps: Seq<Seq<char>>)
    requires
        deps.len() >= 1,
    ensures
        deps.len() == 1 ==> render_dep_items(deps) == quoted(deps[0]),
        deps.len() > 1 ==> render_dep_items(deps) == quoted(deps[0]) + (",\n      "@
            + render_dep_items(deps.drop_first())),
    decreases deps.len(),
{
    if deps.len() == 2 {
        assert(deps.drop_last()[0] == deps[0]);
        assert(deps.drop_first()[0] == deps[1]);
        assert(deps.last() == deps[1]);
        assert(deps.drop_last().len() == 1);
        assert(deps.drop_first().len() == 1);
        assert(render_dep_items(deps.drop_last()) == quoted(deps[0]));
        assert(render_dep_items(deps.drop_first()) == quoted(deps[1]));
        assert(render_dep_items(deps) =~= quoted(deps[0]) + (",\n      "@ + render_dep_items(
            deps.drop_first(),
        )));
    } else if deps.len() > 2 {
        lemma_rdi_unfold(deps.drop_last());
        assert(deps.drop_last()[0] == deps[0]);
        assert(deps.drop_last().drop_first() =~= deps.drop_first().drop_last());
        assert(deps.drop_first().last() == deps.last());
        assert(deps.drop_first().len() > 1);
        assert(render_dep_items(deps.drop_first()) == render_dep_items(
            deps.drop_first().drop_last(),
        ) + ",\n      "@ + quoted(deps.drop_first().last()));
        assert(render_dep_items(deps) =~= quoted(deps[0]) + (",\n      "@ + render_dep_items(
            deps.drop_first(),
        )));
    }
}

/// The catalog entries, unfolded at the front.
proof fn lemma_re_unfold(pkgs: Seq<PackageView>)
    requires
        pkgs.len() >= 1,
    ensures
        pkgs.len() == 1 ==> render_entries(pkgs) == render_package(pkgs[0]),
        pkgs.len() > 1 ==> render_entries(pkgs) == render_package(pkgs[0]) + (",\n"@
            + render_entries(pkgs.drop_first())),
    decreases pkgs.len(),
{
    if pkgs.len() == 2 {
        assert(pkgs.drop_last()[0] == pkgs[0]);
        assert(pkgs.drop_first()[0] == pkgs[1]);
        assert(pkgs.last() == pkgs[1]);
        assert(pkgs.drop_last().len() == 1);
        assert(pkgs.drop_first().len() == 1);
        assert(render_entries(pkgs.drop_last()) == render_package(pkgs[0]));
        assert(render_entries(pkgs.drop_first()) == render_package(pkgs[1]));
        assert(render_entries(pkgs) =~= render_package(pkgs[0]) + (",\n"@ + render_entries(
            pkgs.drop_first(),
        )));
    } else if pkgs.len() > 2 {
        lemma_re_unfold(pkgs.drop_last());
        assert(pkgs.drop_last()[0] == pkgs[0]);
        assert(pkgs.drop_last().drop_first() =~= pkgs.drop_first().drop_last());
        assert(pkgs.drop_first().last() == pkgs.last());
        assert(pkgs.drop_first().len() > 1);
        assert(render_entries(pkgs.drop_first()) == render_entries(pkgs.drop_first().drop_last())
            + ",\n"@ + render_package(pkgs.drop_first().last()));
        assert(render_entries(pkgs) =~= render_package(pkgs[0]) + (",\n"@ + render_entries(
            pkgs.drop_first(),
        )));
    }
}

/// Parsing rendered dependency items up to their closing bracket.
proof fn lemma_rt_items(w: Seq<char>, deps: Seq<Seq<char>>, u: Seq<char>)
    requires
        ws_all(w),
        deps.len() >= 1,
    ensures
        parse_string_items(w + (render_dep_items(deps) + ("\n    ]"@ + u))) == Some((deps, u)),
    decreases deps.len(),
{
    let t = w + (render_dep_items(deps) + ("\n    ]"@ + u));
    lemma_rdi_unfold(deps);
    reveal_strlit("\n    ]");
    reveal_strlit(",\n      ");
    let ws5 = seq!['\n', ' ', ' ', ' ', ' '];
    let ws7 = seq!['\n', ' ', ' ', ' ', ' ', ' ', ' '];
    assert(ws_all(ws5));
    assert(ws_all(ws7));
    assert("\n    ]"@ =~= ws5 + seq![']']);
    assert(",\n      "@ =~= seq![','] + ws7);
    if deps.len() == 1 {
        let x = ws5 + (seq![']'] + u);
        assert(t =~= w + (quoted(deps[0]) + x));
        lemma_ps(w, deps[0], x);
        lemma_skip_ws_concat(ws5, seq![']'] + u);
        assert((seq![']'] + u)[0] == ']');
        assert(parse_char(x, ',') is None);
        lemma_pc(ws5, ']', u);
        assert(seq![deps[0]] =~= deps);
        assert(parse_string_items(t) == Some((deps, u)));
    } else {
        let rest = deps.drop_first();
        let x2 = ws7 + (render_dep_items(rest) + ("\n    ]"@ + u));
        let x1 = seq![','] + x2;
        assert(t =~= w + (quoted(deps[0]) + x1));
        lemma_ps(w, deps[0], x1);
        lemma_pc(Seq::empty(), ',', x2);
        assert(Seq::<char>::empty() + x1 =~= x1);
        lemma_rt_items(ws7, rest, u);
        assert(seq![deps[0]] + rest =~= deps);
        assert(parse_string_items(t) == Some((deps, u)));
    }
}

/// Parsing a rendered dependency list yields the list back.
proof fn lemma_rt_deps(w: Seq<char>, deps: Seq<Seq<char>>, u: Seq<char>)
    requires
        ws_all(w),
    ensures
        parse_deps(w + (render_deps(deps) + u)) == Some((deps, u)),
{
    let t = w + (render_deps(deps) + u);
    if deps.len() == 0 {
        reveal_strlit("[]");
        assert("[]"@ =~= seq!['['] + seq![']']);
        assert(t =~= w + (seq!['['] + (seq![']'] + u)));
        lemma_pc(w, '[', seq![']'] + u);
        lemma_pc(Seq::empty(), ']', u);
        assert(Seq::<char>::empty() + (seq![']'] + u) =~= seq![']'] + u);
        assert(parse_deps(t) == Some((Seq::<Seq<char>>::empty(), u)));
        assert(deps =~= Seq::<Seq<char>>::empty());
    } else {
        reveal_strlit("[\n      ");
        let ws7 = seq!['\n', ' ', ' ', ' ', ' ', ' ', ' '];
        assert(ws_all(ws7));
        assert("[\n      "@ =~= seq!['['] + ws7);
        let m = render_dep_items(deps) + ("\n    ]"@ + u);
        assert(t =~= w + (seq!['['] + (ws7 + m)));
        lemma_pc(w, '[', ws7 + m);
        lemma_rdi_unfold(deps);
        assert(render_dep_items(deps)[0] == '"');
        assert(m[0] == '"');
        lemma_skip_ws_concat(ws7, m);
        assert(parse_char(ws7 + m, ']') is None);
        lemma_rt_items(ws7, deps, u);
        assert(parse_deps(t) == Some((deps, u)));
    }
}

} // verus!

verus! {

/// Parsing a rendered package object yields the record back.
#[verifier::rlimit(100)]
proof fn lemma_rt_package(w: Seq<char>, p: PackageView, u: Seq<char>)
    requires
        ws_all(w),
    ensures
        parse_package(w + (render_package(p) + u)) == Some((p, u)),
{
    let t = w + (render_package(p) + u);
    reveal_strlit("  {\n    \"name\": ");
    reveal_strlit(",\n    \"version\": ");
    reveal_strlit(",\n    \"dependencies\": ");
    reveal_strlit(",\n    \"url\": ");
    reveal_strlit("\n  }");
    reveal_strlit("name");
    reveal_strlit("version");
    reveal_strlit("dependencies");
    reveal_strlit("url");
    assert(forall|k: int| 0 <= k < "name"@.len() ==> "name"@[k] != '"' && "name"@[k] != '\\');
    assert(forall|k: int|
        0 <= k < "version"@.len() ==> "version"@[k] != '"' && "version"@[k] != '\\');
    assert(forall|k: int|
        0 <= k < "dependencies"@.len() ==> "dependencies"@[k] != '"' && "dependencies"@[k] != '\\');
    assert(forall|k: int| 0 <= k < "url"@.len() ==> "url"@[k] != '"' && "url"@[k] != '\\');
    lemma_escape_free("name"@);
    lemma_escape_free("version"@);
    lemma_escape_free("dependencies"@);
    lemma_escape_free("url"@);
    let ws2 = seq![' ', ' '];
    let ws3 = seq!['\n', ' ', ' '];
    let ws5 = seq!['\n', ' ', ' ', ' ', ' '];
    let sp = seq![' '];
    assert(ws_all(w + ws2));
    assert(ws_all(ws5));
    assert(ws_all(ws3));
    assert(ws_all(sp));
    let t11 = ws3 + (seq!['}'] + u);
    let t10 = sp + (quoted(p.url) + t11);
    let t9 = ws5 + (quoted("url"@) + (seq![':'] + t10));
    let t8 = seq![','] + t9;
    let t7 = sp + (render_deps(p.dependencies) + t8);
    let t6 = ws5 + (quoted("dependencies"@) + (seq![':'] + t7));
    let t5 = seq![','] + t6;
    let t4 = sp + (quoted(p.version) + t5);
    let t3 = ws5 + (quoted("version"@) + (seq![':'] + t4));
    let t2 = seq![','] + t3;
    let t1b = sp + (quoted(p.name) + t2);
    let t1 = ws5 + (quoted("name"@) + (seq![':'] + t1b));
    assert(t =~= (w + ws2) + (seq!['{'] + t1));
    lemma_pc(w + ws2, '{', t1);
    lemma_pk(ws5, "name"@, t1b);
    lemma_ps(sp, p.name, t2);
    assert(t2 =~= Seq::<char>::empty() + (seq![','] + t3));
    lemma_pc(Seq::empty(), ',', t3);
    lemma_pk(ws5, "version"@, t4);
    lemma_ps(sp, p.version, t5);
    assert(t5 =~= Seq::<char>::empty() + (seq![','] + t6));
    lemma_pc(Seq::empty(), ',', t6);
    lemma_pk(ws5, "dependencies"@, t7);
    lemma_rt_deps(sp, p.dependencies, t8);
    assert(t8 =~= Seq::<char>::empty() + (seq![','] + t9));
    lemma_pc(Seq::empty(), ',', t9);
    lemma_pk(ws5, "url"@, t10);
    lemma_ps(sp, p.url, t11);
    lemma_pc(ws3, '}', u);
    assert(parse_package(t)->Some_0.0 =~~= p);
    assert(parse_package(t) == Some((p, u)));
}

/// Parsing rendered catalog entries up to the closing bracket.
proof fn lemma_rt_pkg_items(w: Seq<char>, pkgs: Seq<PackageView>, u: Seq<char>)
    requires
        ws_all(w),
        pkgs.len() >= 1,
    ensures
        parse_package_items(w + (render_entries(pkgs) + (seq!['\n', ']'] + u))) == Some((pkgs, u)),
    decreases pkgs.len(),
{
    let t = w + (render_entries(pkgs) + (seq!['\n', ']'] + u));
    lemma_re_unfold(pkgs);
    let nl = seq!['\n'];
    assert(ws_all(nl));
    if pkgs.len() == 1 {
        let x = nl + (seq![']'] + u);
        assert(t =~= w + (render_package(pkgs[0]) + x));
        lemma_rt_package(w, pkgs[0], x);
        lemma_skip_ws_concat(nl, seq![']'] + u);
        assert((seq![']'] + u)[0] == ']');
        assert(parse_char(x, ',') is None);
        lemma_pc(nl, ']', u);
        assert(seq![pkgs[0]] =~= pkgs);
        assert(parse_package_items(t) == Some((pkgs, u)));
    } else {
        let rest = pkgs.drop_first();
        reveal_strlit(",\n");
        assert(",\n"@ =~= seq![','] + nl);
        let x2 = nl + (render_entries(rest) + (seq!['\n', ']'] + u));
        let x1 = seq![','] + x2;
        assert(t =~= w + (render_package(pkgs[0]) + x1));
        lemma_rt_package(w, pkgs[0], x1);
        assert(x1 =~= Seq::<char>::empty() + (seq![','] + x2));
        lemma_pc(Seq::empty(), ',', x2);
        lemma_rt_pkg_items(nl, rest, u);
        assert(seq![pkgs[0]] + rest =~= pkgs);
        assert(parse_package_items(t) == Some((pkgs, u)));
    }
}

/// Round trip: the state file rendered from any catalog parses back to
/// exactly that catalog's records, every field equal, in the same order.
pub proof fn lemma_state_round_trip(pkgs: Seq<PackageView>)
    ensures
        parse_state(render_state(pkgs)) == Some(pkgs),
{
    let t = render_state(pkgs);
    if pkgs.len() == 0 {
        reveal_strlit("[]");
        assert(t =~= Seq::<char>::empty() + (seq!['['] + (seq![']'] + Seq::<char>::empty())));
        assert(ws_all(Seq::<char>::empty()));
        lemma_pc(Seq::empty(), '[', seq![']'] + Seq::<char>::empty());
        assert(seq![']'] + Seq::<char>::empty() =~= Seq::<char>::empty() + (seq![']']
            + Seq::<char>::empty()));
        lemma_pc(Seq::empty(), ']', Seq::empty());
        assert(skip_ws(Seq::<char>::empty()).len() == 0);
        assert(parse_state(t) == Some(Seq::<PackageView>::empty()));
        assert(pkgs =~= Seq::<PackageView>::empty());
    } else {
        reveal_strlit("[\n");
        reveal_strlit("\n]");
        reveal_strlit("  {\n    \"name\": ");
        let nl = seq!['\n'];
        let ws2 = seq![' ', ' '];
        assert(ws_all(Seq::<char>::empty()));
        assert(ws_all(nl));
        assert(ws_all(nl + ws2));
        let body = nl + (render_entries(pkgs) + (seq!['\n', ']'] + Seq::<char>::empty()));
        assert(t =~= Seq::<char>::empty() + (seq!['['] + body));
        lemma_pc(Seq::empty(), '[', body);
        lemma_re_unfold(pkgs);
        assert(render_package(pkgs[0])[0] == ' ');
        assert(render_package(pkgs[0])[1] == ' ');
        assert(render_package(pkgs[0])[2] == '{');
        let mid = render_entries(pkgs) + (seq!['\n', ']'] + Seq::<char>::empty());
        assert(body =~= (nl + ws2) + mid.skip(2));
        assert(mid.skip(2).len() > 0 && mid.skip(2)[0] == '{');
        lemma_skip_ws_concat(nl + ws2, mid.skip(2));
        assert(parse_char(body, ']') is None);
        lemma_rt_pkg_items(nl, pkgs, Seq::empty());
        assert(skip_ws(Seq::<char>::empty()).len() == 0);
        assert(parse_state(t) == Some(pkgs));
    }
}

} // verus!

use crate::resolve::{add_all, distinct, lemma_add_all_fresh, names};

verus! {

/// Round trip at the catalog level: save a catalog with distinct names, load
/// the text into an empty catalog, and the records come back exactly, every
/// field equal, in the same order.
pub proof fn lemma_round_trip_into_empty(pkgs: Seq<PackageView>)
    requires
        distinct(names(pkgs)),
    ensures
        parse_state(render_state(pkgs)) is Some,
        add_all(Seq::empty(), parse_state(render_state(pkgs))->Some_0) == pkgs,
{
    lemma_state_round_trip(pkgs);
    assert(forall|i: int|
        0 <= i < pkgs.len() ==> !crate::resolve::has_name(
            Seq::<PackageView>::empty(),
            (#[trigger] pkgs[i]).name,
        ));
    lemma_add_all_fresh(Seq::empty(), pkgs);
    assert(Seq::<PackageView>::empty() + pkgs =~= pkgs);
}

} // verus!
