//! Which dependencies a project declares, read from the contents of its
//! `setup.cfg`, `pyproject.toml` and Home Assistant component manifests,
//! with typing stubs substituted and coverage plugins left out.

use vstd::prelude::*;

use crate::assoc::{find_key, lemma_find_key, lookup};
use crate::doc::{get_opt, opt_get, str_items, strings_in, DocEntry, DocValue};
use crate::ini::{ini_get, ini_of, parse_ini, Ini};
use crate::precommit::string_views;
use crate::text::{
    is_ws, lemma_trim_edges, chars_of, lines, lines_of, lowercase, lowercase_chars, slice_chars, string_of, to_lowercase_str,
    trim, trim_chars, views,
};

verus! {

/// A character that ends the name part of a requirement such as
/// `mypy>=1.0` or `mypy[extra]`.
pub open spec fn is_name_end(c: char) -> bool {
    c == '>' || c == '<' || c == '=' || c == '!' || c == '~' || c == '^' || c == ',' || c == ';'
        || c == ' ' || c == '['
}

/// The index of the first name-ending character at or after `i`.
pub open spec fn name_end_from(s: Seq<char>, i: int) -> int
    decreases s.len() - i,
{
    if 0 <= i < s.len() && !is_name_end(s[i]) {
        name_end_from(s, i + 1)
    } else {
        i
    }
}

/// The package name of a requirement: everything before its first
/// name-ending character.
pub open spec fn dep_name_of(dep: Seq<char>) -> Seq<char> {
    dep.take(name_end_from(dep, 0))
}

/// `-`, `_` and `.` all become `-`.
pub open spec fn dash(c: char) -> char {
    if c == '-' || c == '_' || c == '.' {
        '-'
    } else {
        c
    }
}

/// A package name in normal form: lowercased, with `_` and `.` as `-`.
pub open spec fn normalized(name: Seq<char>) -> Seq<char> {
    lowercase(name).map_values(|c: char| dash(c))
}

/// The trimmed lines of `ls` that are not empty once trimmed.
pub open spec fn trimmed_nonempty(ls: Seq<Seq<char>>) -> Seq<Seq<char>>
    decreases ls.len(),
{
    if ls.len() == 0 {
        Seq::empty()
    } else {
        trimmed_nonempty(ls.drop_last()) + if trim(ls.last()).len() > 0 {
            seq![trim(ls.last())]
        } else {
            Seq::<Seq<char>>::empty()
        }
    }
}

/// The lines of `s`, trimmed, without the empty ones.
pub open spec fn nonempty_lines_of(s: Seq<char>) -> Seq<Seq<char>> {
    trimmed_nonempty(lines(s))
}

pub proof fn lemma_name_end_from(s: Seq<char>, i: int)
    requires
        0 <= i <= s.len(),
    ensures
        i <= name_end_from(s, i) <= s.len(),
        forall|k: int| i <= k < name_end_from(s, i) ==> !is_name_end(#[trigger] s[k]),
        name_end_from(s, i) < s.len() ==> is_name_end(s[name_end_from(s, i)]),
    decreases s.len() - i,
{
    if i < s.len() && !is_name_end(s[i]) {
        lemma_name_end_from(s, i + 1);
    }
}

/// The package name of the requirement `dep` (see [`dep_name_of`]).
pub fn dep_name(dep: &str) -> (r: String)
    ensures
        r@ == dep_name_of(dep@),
{
    let s = chars_of(dep);
    let mut i: usize = 0;
    while i < s.len() && !(s[i] == '>' || s[i] == '<' || s[i] == '=' || s[i] == '!' || s[i] == '~'
        || s[i] == '^' || s[i] == ',' || s[i] == ';' || s[i] == ' ' || s[i] == '[')
        invariant
            i <= s@.len(),
            name_end_from(s@, 0) == name_end_from(s@, i as int),
        decreases s@.len() - i,
    {
        i = i + 1;
    }
    let name = slice_chars(s.as_slice(), 0, i);
    assert(name@ =~= dep@.take(i as int));
    string_of(name.as_slice())
}

/// The normal form of a package name (see [`normalized`]).
pub fn normalize_pkg_name(name: &str) -> (r: String)
    ensures
        r@ == normalized(name@),
{
    let low = to_lowercase_str(name);
    let cs = chars_of(low.as_str());
    let mut out: Vec<char> = Vec::new();
    let mut i: usize = 0;
    while i < cs.len()
        invariant
            i <= cs@.len(),
            out@ == cs@.take(i as int).map_values(|c: char| dash(c)),
        decreases cs@.len() - i,
    {
        let c = cs[i];
        if c == '-' || c == '_' || c == '.' {
            out.push('-');
        } else {
            out.push(c);
        }
        i = i + 1;
        assert(out@ =~= cs@.take(i as int).map_values(|c: char| dash(c)));
    }
    assert(cs@.take(cs@.len() as int) =~= cs@);
    string_of(out.as_slice())
}

/// The non-empty lines of `s`, trimmed (see [`nonempty_lines_of`]).
pub fn nonempty_lines(s: &str) -> (r: Vec<String>)
    ensures
        string_views(r@) == nonempty_lines_of(s@),
{
    let cs = chars_of(s);
    let ls = lines_of(cs.as_slice());
    let mut out: Vec<String> = Vec::new();
    let mut i: usize = 0;
    while i < ls.len()
        invariant
            i <= ls@.len(),
            views(ls@) == lines(s@),
            string_views(out@) == trimmed_nonempty(views(ls@).take(i as int)),
        decreases ls@.len() - i,
    {
        assert(views(ls@).take(i + 1).drop_last() =~= views(ls@).take(i as int));
        let t = trim_chars(ls[i].as_slice());
        let ghost before = out@;
        if t.len() > 0 {
            out.push(string_of(t.as_slice()));
            assert(string_views(out@) =~= string_views(before).push(t@));
        }
        i = i + 1;
        assert(string_views(out@) =~= trimmed_nonempty(views(ls@).take(i as int)));
    }
    assert(views(ls@).take(ls@.len() as int) =~= views(ls@));
    out
}

/// The lines of `v` when present (see [`nonempty_lines_of`]).
pub open spec fn value_lines(v: Option<Seq<char>>) -> Seq<Seq<char>> {
    match v {
        Some(s) => nonempty_lines_of(s),
        None => Seq::empty(),
    }
}

/// The lines of every value of `entries`, in order.
pub open spec fn all_value_lines(entries: Seq<(Seq<char>, Seq<char>)>) -> Seq<Seq<char>>
    decreases entries.len(),
{
    if entries.len() == 0 {
        Seq::empty()
    } else {
        all_value_lines(entries.drop_last()) + nonempty_lines_of(entries.last().1)
    }
}

/// The requirements of a `setup.cfg`: the lines of `install_requires` in
/// `[options]`, then those of every extra in `[options.extras_require]`.
pub open spec fn setup_cfg_deps(content: Seq<char>) -> Seq<Seq<char>> {
    let ini = ini_of(content);
    value_lines(ini_get(ini, "options"@, "install_requires"@)) + match lookup(
        ini,
        "options.extras_require"@,
    ) {
        Some(entries) => all_value_lines(entries),
        None => Seq::empty(),
    }
}

/// The requirements of a `setup.cfg` (see [`setup_cfg_deps`]). The extras
/// come in the order in which the file names them.
pub fn parse_setup_cfg(content: &str) -> (r: Vec<String>)
    ensures
        string_views(r@) == setup_cfg_deps(content@),
{
    let ini = parse_ini(content);
    let mut deps: Vec<String> = match ini.get("options", "install_requires") {
        Some(v) => nonempty_lines(v.as_str()),
        None => Vec::new(),
    };
    let ghost first = string_views(deps@);
    assert(first == value_lines(ini_get(ini@, "options"@, "install_requires"@)));
    match ini.section_position("options.extras_require") {
        Some(i) => {
            proof {
                lemma_find_key(ini@, "options.extras_require"@);
            }
            let entries = &ini.sections[i].entries;
            let ghost em = ini@[i as int].1;
            assert(em =~= entries.view().map_values(|e: crate::ini::IniEntry| e.model()));
            assert(all_value_lines(em.take(0)) =~= Seq::<Seq<char>>::empty());
            assert(string_views(deps@) =~= first + all_value_lines(em.take(0)));
            let mut j: usize = 0;
            while j < entries.len()
                invariant
                    em == entries@.map_values(|e: crate::ini::IniEntry| e.model()),
                    j <= em.len(),
                    string_views(deps@) == first + all_value_lines(em.take(j as int)),
                decreases em.len() - j,
            {
                assert(em.take(j + 1).drop_last() =~= em.take(j as int));
                let mut more = nonempty_lines(entries[j].value.as_str());
                let ghost before = deps@;
                let ghost more_v = more@;
                deps.append(&mut more);
                assert(string_views(deps@) =~= string_views(before) + string_views(more_v));
                j = j + 1;
                assert(string_views(deps@) =~= first + all_value_lines(em.take(j as int)));
            }
            assert(em.take(em.len() as int) =~= em);
        },
        None => {
            assert(string_views(deps@) =~= first + Seq::<Seq<char>>::empty());
        },
    }
    deps
}

/// What one `[tool.poetry]` dependency contributes: nothing for `python`
/// (in any case); the name alone when its version is `*` or not a string;
/// otherwise the name followed by the version.
pub open spec fn poetry_entry(e: DocEntry) -> Seq<Seq<char>> {
    if lowercase(e.key@) == "python"@ {
        Seq::empty()
    } else {
        match e.value {
            DocValue::Str(v) => if v@ == "*"@ {
                seq![e.key@]
            } else {
                seq![e.key@ + v@]
            },
            _ => seq![e.key@],
        }
    }
}

/// What the entries of a poetry dependency table contribute, in order.
pub open spec fn poetry_entries(es: Seq<DocEntry>) -> Seq<Seq<char>>
    decreases es.len(),
{
    if es.len() == 0 {
        Seq::empty()
    } else {
        poetry_entries(es.drop_last()) + poetry_entry(es.last())
    }
}

/// What a poetry dependency table contributes; nothing if `v` is no table.
pub open spec fn poetry_of(v: Option<DocValue>) -> Seq<Seq<char>> {
    match v {
        Some(DocValue::Table(es)) => poetry_entries(es@),
        _ => Seq::empty(),
    }
}

/// The dependencies of a poetry dependency table (see [`poetry_of`]).
pub fn poetry_deps(v: Option<&DocValue>) -> (r: Vec<String>)
    ensures
        string_views(r@) == poetry_of(
            match v {
                Some(x) => Some(*x),
                None => None,
            },
        ),
{
    let mut out: Vec<String> = Vec::new();
    match v {
        Some(DocValue::Table(es)) => {
            let python = "python".to_owned();
            let star = "*".to_owned();
            let mut i: usize = 0;
            while i < es.len()
                invariant
                    i <= es@.len(),
                    python@ == "python"@,
                    star@ == "*"@,
                    string_views(out@) == poetry_entries(es@.take(i as int)),
                decreases es@.len() - i,
            {
                assert(es@.take(i + 1).drop_last() =~= es@.take(i as int));
                let e = &es[i];
                let ghost before = out@;
                let low = to_lowercase_str(e.key.as_str());
                if !(low == python) {
                    match &e.value {
                        DocValue::Str(ver) => {
                            if *ver == star {
                                out.push(e.key.clone());
                            } else {
                                let mut d = e.key.clone();
                                d.append(ver.as_str());
                                out.push(d);
                            }
                        },
                        _ => {
                            out.push(e.key.clone());
                        },
                    }
                }
                assert(string_views(out@) =~= string_views(before) + poetry_entry(es@[i as int]));
                i = i + 1;
            }
            assert(es@.take(es@.len() as int) =~= es@);
        },
        _ => {},
    }
    out
}

/// The requirements of a `pyproject.toml`, in this order: `[project]
/// dependencies`; `[dependency-groups]` `dev` and `test`;
/// `[project.optional-dependencies]` `dev` and `test`;
/// `[tool.poetry.dev-dependencies]`; `[tool.poetry.group.dev.dependencies]`;
/// `[build-system] requires`. Items that are not strings are skipped.
pub open spec fn pyproject_deps(doc: DocValue) -> Seq<Seq<char>> {
    let d = Some(doc);
    let groups = opt_get(d, "dependency-groups"@);
    let extras = opt_get(opt_get(d, "project"@), "optional-dependencies"@);
    let poetry = opt_get(opt_get(d, "tool"@), "poetry"@);
    str_items(opt_get(opt_get(d, "project"@), "dependencies"@)) + str_items(
        opt_get(groups, "dev"@),
    ) + str_items(opt_get(groups, "test"@)) + str_items(opt_get(extras, "dev"@)) + str_items(
        opt_get(extras, "test"@),
    ) + poetry_of(opt_get(poetry, "dev-dependencies"@)) + poetry_of(
        opt_get(opt_get(opt_get(poetry, "group"@), "dev"@), "dependencies"@),
    ) + str_items(opt_get(opt_get(d, "build-system"@), "requires"@))
}

/// Appends `more` to `deps`.
pub fn append_strings(deps: &mut Vec<String>, more: Vec<String>)
    ensures
        string_views(final(deps)@) == string_views(old(deps)@) + string_views(more@),
{
    let mut more = more;
    let ghost before = deps@;
    let ghost m = more@;
    deps.append(&mut more);
    assert(string_views(deps@) =~= string_views(before) + string_views(m));
}

/// The requirements of a parsed `pyproject.toml` (see [`pyproject_deps`]).
#[verifier::rlimit(30)]
pub fn parse_pyproject_toml(doc: &DocValue) -> (r: Vec<String>)
    ensures
        string_views(r@) == pyproject_deps(*doc),
{
    let d = Some(doc);
    let project = get_opt(d, "project");
    let groups = get_opt(d, "dependency-groups");
    let extras = get_opt(project, "optional-dependencies");
    let poetry = get_opt(get_opt(d, "tool"), "poetry");
    let mut deps = strings_in(get_opt(project, "dependencies"));
    assert(string_views(deps@) =~= deps@.map_values(|s: String| s@));
    append_strings(&mut deps, strings_in(get_opt(groups, "dev")));
    append_strings(&mut deps, strings_in(get_opt(groups, "test")));
    append_strings(&mut deps, strings_in(get_opt(extras, "dev")));
    append_strings(&mut deps, strings_in(get_opt(extras, "test")));
    append_strings(&mut deps, poetry_deps(get_opt(poetry, "dev-dependencies")));
    let group_dev = get_opt(get_opt(poetry, "group"), "dev");
    append_strings(&mut deps, poetry_deps(get_opt(group_dev, "dependencies")));
    append_strings(&mut deps, strings_in(get_opt(get_opt(d, "build-system"), "requires")));
    deps
}

/// The requirements of a Home Assistant component manifest: the strings of
/// its `requirements` array.
pub open spec fn manifest_deps(doc: DocValue) -> Seq<Seq<char>> {
    str_items(doc_get_requirements(doc))
}

/// The `requirements` value of a manifest.
pub open spec fn doc_get_requirements(doc: DocValue) -> Option<DocValue> {
    opt_get(Some(doc), "requirements"@)
}

/// The requirements of a parsed component manifest (see [`manifest_deps`]).
pub fn parse_manifest_json(doc: &DocValue) -> (r: Vec<String>)
    ensures
        string_views(r@) == manifest_deps(*doc),
{
    let v = strings_in(get_opt(Some(doc), "requirements"));
    assert(string_views(v@) =~= v@.map_values(|s: String| s@));
    v
}

/// The packages that ship no inline types, with the stub package that
/// stands in for each.
pub open spec fn substitution_table() -> Seq<(Seq<char>, Seq<char>)> {
    seq![
        ("cachetools"@, "types-cachetools"@),
        ("croniter"@, "types-croniter"@),
        ("decorator"@, "types-decorator"@),
        ("defusedxml"@, "types-defusedxml"@),
        ("docutils"@, "types-docutils"@),
        ("homeassistant"@, "homeassistant-stubs"@),
        ("html5lib"@, "types-html5lib"@),
        ("httplib2"@, "types-httplib2"@),
        ("jsonschema"@, "types-jsonschema"@),
        ("Markdown"@, "types-Markdown"@),
        ("mock"@, "types-mock"@),
        ("paramiko"@, "types-paramiko"@),
        ("pexpect"@, "types-pexpect"@),
        ("protobuf"@, "types-protobuf"@),
        ("psycopg2"@, "types-psycopg2"@),
        ("pycurl"@, "types-pycurl"@),
        ("PyMySQL"@, "types-PyMySQL"@),
        ("pynput"@, "types-pynput"@),
        ("pyserial"@, "types-pyserial"@),
        ("python-dateutil"@, "types-python-dateutil"@),
        ("pytz"@, "types-pytz"@),
        ("PyYAML"@, "types-PyYAML"@),
        ("regex"@, "types-regex"@),
        ("Send2Trash"@, "types-Send2Trash"@),
        ("setuptools"@, "types-setuptools"@),
        ("simplejson"@, "types-simplejson"@),
        ("six"@, "types-six"@),
        ("tabulate"@, "types-tabulate"@),
        ("toml"@, "types-toml"@),
        ("waitress"@, "types-waitress"@),
        ("xmltodict"@, "types-xmltodict"@)
    ]
}

/// The views of pairs of strings.
pub open spec fn pair_views(v: Seq<(String, String)>) -> Seq<(Seq<char>, Seq<char>)> {
    v.map_values(|p: (String, String)| (p.0@, p.1@))
}

/// The table of stub packages (see [`substitution_table`]).
pub fn substitutions() -> (r: Vec<(String, String)>)
    ensures
        pair_views(r@) == substitution_table(),
{
    let mut t: Vec<(String, String)> = Vec::new();
    t.push(("cachetools".to_owned(), "types-cachetools".to_owned()));
    t.push(("croniter".to_owned(), "types-croniter".to_owned()));
    t.push(("decorator".to_owned(), "types-decorator".to_owned()));
    t.push(("defusedxml".to_owned(), "types-defusedxml".to_owned()));
    t.push(("docutils".to_owned(), "types-docutils".to_owned()));
    t.push(("homeassistant".to_owned(), "homeassistant-stubs".to_owned()));
    t.push(("html5lib".to_owned(), "types-html5lib".to_owned()));
    t.push(("httplib2".to_owned(), "types-httplib2".to_owned()));
    t.push(("jsonschema".to_owned(), "types-jsonschema".to_owned()));
    t.push(("Markdown".to_owned(), "types-Markdown".to_owned()));
    t.push(("mock".to_owned(), "types-mock".to_owned()));
    t.push(("paramiko".to_owned(), "types-paramiko".to_owned()));
    t.push(("pexpect".to_owned(), "types-pexpect".to_owned()));
    t.push(("protobuf".to_owned(), "types-protobuf".to_owned()));
    t.push(("psycopg2".to_owned(), "types-psycopg2".to_owned()));
    t.push(("pycurl".to_owned(), "types-pycurl".to_owned()));
    t.push(("PyMySQL".to_owned(), "types-PyMySQL".to_owned()));
    t.push(("pynput".to_owned(), "types-pynput".to_owned()));
    t.push(("pyserial".to_owned(), "types-pyserial".to_owned()));
    t.push(("python-dateutil".to_owned(), "types-python-dateutil".to_owned()));
    t.push(("pytz".to_owned(), "types-pytz".to_owned()));
    t.push(("PyYAML".to_owned(), "types-PyYAML".to_owned()));
    t.push(("regex".to_owned(), "types-regex".to_owned()));
    t.push(("Send2Trash".to_owned(), "types-Send2Trash".to_owned()));
    t.push(("setuptools".to_owned(), "types-setuptools".to_owned()));
    t.push(("simplejson".to_owned(), "types-simplejson".to_owned()));
    t.push(("six".to_owned(), "types-six".to_owned()));
    t.push(("tabulate".to_owned(), "types-tabulate".to_owned()));
    t.push(("toml".to_owned(), "types-toml".to_owned()));
    t.push(("waitress".to_owned(), "types-waitress".to_owned()));
    t.push(("xmltodict".to_owned(), "types-xmltodict".to_owned()));
    assert(pair_views(t@) =~= substitution_table());
    t
}

/// The stub package of the first entry of `t`, from `i` on, whose package
/// normalizes to `name`.
pub open spec fn stub_from(t: Seq<(Seq<char>, Seq<char>)>, name: Seq<char>, i: int) -> Option<
    Seq<char>,
>
    decreases t.len() - i,
{
    if i < 0 || i >= t.len() {
        None
    } else if normalized(t[i].0) == name {
        Some(t[i].1)
    } else {
        stub_from(t, name, i + 1)
    }
}

/// The stub package for the normalized package name `name`: packages in the
/// table match case-insensitively, and with `-`, `_` and `.` alike.
pub open spec fn stub_for(name: Seq<char>) -> Option<Seq<char>> {
    stub_from(substitution_table(), name, 0)
}

/// A requirement as it goes into the hooks: a package listed in the
/// substitution table is replaced by its stub package.
pub open spec fn substituted(dep: Seq<char>) -> Seq<char> {
    match stub_for(normalized(dep_name_of(dep))) {
        Some(stub) => stub,
        None => dep,
    }
}

/// `dep` after substitution (see [`substituted`]); `table` is the table of
/// [`substitutions`].
pub fn substitute(dep: &String, table: &Vec<(String, String)>) -> (r: String)
    requires
        pair_views(table@) == substitution_table(),
    ensures
        r@ == substituted(dep@),
{
    let name = normalize_pkg_name(dep_name(dep.as_str()).as_str());
    let mut i: usize = 0;
    while i < table.len()
        invariant
            pair_views(table@) == substitution_table(),
            name@ == normalized(dep_name_of(dep@)),
            i <= table@.len(),
            stub_for(name@) == stub_from(substitution_table(), name@, i as int),
        decreases table@.len() - i,
    {
        let package = normalize_pkg_name(table[i].0.as_str());
        assert(substitution_table()[i as int] == (table@[i as int].0@, table@[i as int].1@));
        if package == name {
            return table[i].1.clone();
        }
        i = i + 1;
    }
    dep.clone()
}

/// The sources that a project's dependencies are read from: the contents
/// of `setup.cfg`, `.coveragerc` and `tox.ini`, the parsed
/// `pyproject.toml`, and the parsed manifests of `custom_components/*`.
pub struct ProjectSources {
    pub setup_cfg: Option<String>,
    pub pyproject: Option<DocValue>,
    pub manifests: Vec<DocValue>,
    pub coveragerc: Option<String>,
    pub tox_ini: Option<String>,
}

/// The coverage plugins that an INI file names under `plugins` in section
/// `section`, normalized.
pub open spec fn ini_plugins(content: Option<String>, section: Seq<char>) -> Seq<Seq<char>> {
    match content {
        Some(c) => value_lines(ini_get(ini_of(c@), section, "plugins"@)).map_values(
            |p: Seq<char>| normalized(p),
        ),
        None => Seq::empty(),
    }
}

/// The coverage plugins of `[tool.coverage.run] plugins`, normalized.
pub open spec fn pyproject_plugins(doc: Option<DocValue>) -> Seq<Seq<char>> {
    str_items(
        opt_get(opt_get(opt_get(opt_get(doc, "tool"@), "coverage"@), "run"@), "plugins"@),
    ).map_values(|p: Seq<char>| normalized(p))
}

/// Every coverage plugin that the project names: in `.coveragerc` `[run]`,
/// in `setup.cfg` and `tox.ini` `[coverage:run]`, and in `pyproject.toml`
/// `[tool.coverage.run]`.
pub open spec fn coverage_plugins(src: ProjectSources) -> Seq<Seq<char>> {
    ini_plugins(src.coveragerc, "run"@) + ini_plugins(src.setup_cfg, "coverage:run"@)
        + ini_plugins(src.tox_ini, "coverage:run"@) + pyproject_plugins(src.pyproject)
}

/// Each name normalized.
fn normalize_all(v: Vec<String>) -> (r: Vec<String>)
    ensures
        string_views(r@) == string_views(v@).map_values(|p: Seq<char>| normalized(p)),
{
    let mut out: Vec<String> = Vec::new();
    let mut i: usize = 0;
    while i < v.len()
        invariant
            i <= v@.len(),
            string_views(out@) == string_views(v@).take(i as int).map_values(
                |p: Seq<char>| normalized(p),
            ),
        decreases v@.len() - i,
    {
        let n = normalize_pkg_name(v[i].as_str());
        let ghost before = out@;
        out.push(n);
        assert(string_views(out@) =~= string_views(before).push(normalized(v@[i as int]@)));
        i = i + 1;
        assert(string_views(out@) =~= string_views(v@).take(i as int).map_values(
            |p: Seq<char>| normalized(p),
        ));
    }
    assert(string_views(v@).take(v@.len() as int) =~= string_views(v@));
    out
}

/// The plugins that an INI text names (see [`ini_plugins`]).
fn plugins_in_ini(content: &Option<String>, section: &str) -> (r: Vec<String>)
    ensures
        string_views(r@) == ini_plugins(*content, section@),
{
    match content {
        Some(c) => {
            let ini = parse_ini(c.as_str());
            match ini.get(section, "plugins") {
                Some(v) => normalize_all(nonempty_lines(v.as_str())),
                None => {
                    let r: Vec<String> = Vec::new();
                    assert(string_views(r@) =~= ini_plugins(*content, section@));
                    r
                },
            }
        },
        None => {
            let r: Vec<String> = Vec::new();
            assert(string_views(r@) =~= Seq::<Seq<char>>::empty());
            r
        },
    }
}

/// Every coverage plugin that the project names (see [`coverage_plugins`]).
pub fn find_coverage_plugins(src: &ProjectSources) -> (r: Vec<String>)
    ensures
        string_views(r@) == coverage_plugins(*src),
{
    let mut plugins = plugins_in_ini(&src.coveragerc, "run");
    append_strings(&mut plugins, plugins_in_ini(&src.setup_cfg, "coverage:run"));
    append_strings(&mut plugins, plugins_in_ini(&src.tox_ini, "coverage:run"));
    let d = match &src.pyproject {
        Some(doc) => Some(doc),
        None => None,
    };
    let run = get_opt(get_opt(get_opt(d, "tool"), "coverage"), "run");
    let listed = strings_in(get_opt(run, "plugins"));
    assert(string_views(listed@) =~= listed@.map_values(|s: String| s@));
    append_strings(&mut plugins, normalize_all(listed));
    plugins
}

/// The requirements of every manifest, in order.
pub open spec fn manifests_deps(ms: Seq<DocValue>) -> Seq<Seq<char>>
    decreases ms.len(),
{
    if ms.len() == 0 {
        Seq::empty()
    } else {
        manifests_deps(ms.drop_last()) + manifest_deps(ms.last())
    }
}

/// Every requirement that the project declares, in this order: `setup.cfg`,
/// `pyproject.toml`, then the manifests.
pub open spec fn declared_deps(src: ProjectSources) -> Seq<Seq<char>> {
    (match src.setup_cfg {
        Some(c) => setup_cfg_deps(c@),
        None => Seq::empty(),
    }) + (match src.pyproject {
        Some(d) => pyproject_deps(d),
        None => Seq::empty(),
    }) + manifests_deps(src.manifests@)
}

/// Whether `dep` names one of `plugins`.
pub open spec fn names_plugin(dep: Seq<char>, plugins: Seq<Seq<char>>) -> bool {
    plugins.contains(normalized(dep_name_of(dep)))
}

/// The requirements of `ds` that name none of `plugins`, in order.
pub open spec fn without_plugins(ds: Seq<Seq<char>>, plugins: Seq<Seq<char>>) -> Seq<Seq<char>>
    decreases ds.len(),
{
    if ds.len() == 0 {
        Seq::empty()
    } else {
        without_plugins(ds.drop_last(), plugins) + if names_plugin(ds.last(), plugins) {
            Seq::<Seq<char>>::empty()
        } else {
            seq![ds.last()]
        }
    }
}

/// The dependencies that go into the typing hooks: every declared
/// requirement after substitution, except those that name a coverage
/// plugin.
pub open spec fn project_deps(src: ProjectSources) -> Seq<Seq<char>> {
    without_plugins(
        declared_deps(src).map_values(|d: Seq<char>| substituted(d)),
        coverage_plugins(src),
    )
}

/// Whether `name` is among `names`.
fn contains_string(names: &Vec<String>, name: &String) -> (r: bool)
    ensures
        r == string_views(names@).contains(name@),
{
    let mut i: usize = 0;
    while i < names.len()
        invariant
            i <= names@.len(),
            forall|k: int| 0 <= k < i ==> names@[k]@ != name@,
        decreases names@.len() - i,
    {
        if names[i] == *name {
            assert(string_views(names@)[i as int] == name@);
            return true;
        }
        i = i + 1;
    }
    assert(!string_views(names@).contains(name@)) by {
        if string_views(names@).contains(name@) {
            let k = choose|k: int| 0 <= k < names@.len() && string_views(names@)[k] == name@;
            assert(names@[k]@ == name@);
        }
    }
    false
}

/// The dependencies that go into the typing hooks (see [`project_deps`]).
pub fn collect_deps(src: &ProjectSources) -> (r: Vec<String>)
    ensures
        string_views(r@) == project_deps(*src),
{
    let mut deps: Vec<String> = match &src.setup_cfg {
        Some(c) => parse_setup_cfg(c.as_str()),
        None => Vec::new(),
    };
    assert(string_views(deps@) =~= match src.setup_cfg {
        Some(c) => setup_cfg_deps(c@),
        None => Seq::<Seq<char>>::empty(),
    });
    match &src.pyproject {
        Some(doc) => append_strings(&mut deps, parse_pyproject_toml(doc)),
        None => append_strings(&mut deps, Vec::new()),
    }
    let ghost head = string_views(deps@);
    let mut m: usize = 0;
    while m < src.manifests.len()
        invariant
            m <= src.manifests@.len(),
            string_views(deps@) == head + manifests_deps(src.manifests@.take(m as int)),
        decreases src.manifests@.len() - m,
    {
        assert(src.manifests@.take(m + 1).drop_last() =~= src.manifests@.take(m as int));
        append_strings(&mut deps, parse_manifest_json(&src.manifests[m]));
        m = m + 1;
        assert(string_views(deps@) =~= head + manifests_deps(src.manifests@.take(m as int)));
    }
    assert(src.manifests@.take(src.manifests@.len() as int) =~= src.manifests@);
    assert(string_views(deps@) =~= declared_deps(*src));
    let ghost declared = declared_deps(*src);
    let table = substitutions();
    let plugins = find_coverage_plugins(src);
    let mut out: Vec<String> = Vec::new();
    let mut i: usize = 0;
    while i < deps.len()
        invariant
            i <= deps@.len(),
            string_views(deps@) == declared,
            pair_views(table@) == substitution_table(),
            string_views(plugins@) == coverage_plugins(*src),
            string_views(out@) == without_plugins(
                declared.take(i as int).map_values(|d: Seq<char>| substituted(d)),
                coverage_plugins(*src),
            ),
        decreases deps@.len() - i,
    {
        let ghost subs = declared.map_values(|d: Seq<char>| substituted(d));
        assert(declared.take(i + 1).map_values(|d: Seq<char>| substituted(d)).drop_last()
            =~= declared.take(i as int).map_values(|d: Seq<char>| substituted(d)));
        let d = substitute(&deps[i], &table);
        let key = normalize_pkg_name(dep_name(d.as_str()).as_str());
        let ghost before = out@;
        if !contains_string(&plugins, &key) {
            out.push(d);
            assert(string_views(out@) =~= string_views(before).push(substituted(declared[i as int])));
        }
        i = i + 1;
    }
    assert(declared.take(deps@.len() as int) =~= declared);
    out
}

/// Substitution goes by the normalized package name alone: two
/// requirements whose names normalize alike get the same stub package when
/// the name matches the table, and a requirement whose name matches no
/// package of the table is kept as written.
pub proof fn law_substitution_by_normalized_name(a: Seq<char>, b: Seq<char>)
    ensures
        normalized(dep_name_of(a)) == normalized(dep_name_of(b)) && stub_for(
            normalized(dep_name_of(a)),
        ) is Some ==> substituted(a) == substituted(b),
        stub_for(normalized(dep_name_of(a))) is None ==> substituted(a) == a,
{
}

/// The package name of a requirement is a prefix of it that holds none of
/// the characters that end a name.
pub proof fn law_dep_name_is_plain_prefix(dep: Seq<char>)
    ensures
        dep_name_of(dep).len() <= dep.len(),
        dep_name_of(dep) == dep.take(dep_name_of(dep).len() as int),
        forall|k: int| 0 <= k < dep_name_of(dep).len() ==> !is_name_end(#[trigger] dep_name_of(dep)[k]),
        dep_name_of(dep).len() < dep.len() ==> is_name_end(dep[dep_name_of(dep).len() as int]),
{
    lemma_name_end_from(dep, 0);
    let n = name_end_from(dep, 0);
    assert forall|k: int| 0 <= k < dep_name_of(dep).len() implies !is_name_end(
        #[trigger] dep_name_of(dep)[k],
    ) by {
        assert(dep_name_of(dep)[k] == dep[k]);
    }
}

/// Normalized names hold no `_` and no `.`: the three separators `-`, `_`
/// and `.` all read as `-`.
pub proof fn law_normalized_has_single_separator(name: Seq<char>)
    ensures
        forall|k: int| 0 <= k < normalized(name).len() ==> #[trigger] normalized(name)[k] != '_'
            && normalized(name)[k] != '.',
        normalized(name).len() == lowercase(name).len(),
{
}

pub proof fn lemma_trimmed_nonempty(ls: Seq<Seq<char>>)
    ensures
        forall|k: int|
            0 <= k < trimmed_nonempty(ls).len() ==> {
                let l = #[trigger] trimmed_nonempty(ls)[k];
                &&& l.len() > 0
                &&& !is_ws(l[0])
                &&& !is_ws(l.last())
                &&& exists|j: int| 0 <= j < ls.len() && l == trim(#[trigger] ls[j])
            },
    decreases ls.len(),
{
    if ls.len() > 0 {
        lemma_trimmed_nonempty(ls.drop_last());
        lemma_trim_edges(ls.last());
        let r = trimmed_nonempty(ls);
        let p = trimmed_nonempty(ls.drop_last());
        assert forall|k: int| 0 <= k < r.len() implies {
            let l = #[trigger] r[k];
            &&& l.len() > 0
            &&& !is_ws(l[0])
            &&& !is_ws(l.last())
            &&& exists|j: int| 0 <= j < ls.len() && l == trim(#[trigger] ls[j])
        } by {
            if k < p.len() {
                assert(r[k] == p[k]);
                let j = choose|j: int| 0 <= j < ls.drop_last().len() && p[k] == trim(
                    #[trigger] ls.drop_last()[j],
                );
                assert(ls[j] == ls.drop_last()[j]);
            } else {
                assert(r[k] == trim(ls.last()));
                assert(ls[ls.len() - 1] == ls.last());
            }
        }
    }
}

/// Every line that `nonempty_lines` gives is one of the text's lines,
/// trimmed: it is not empty and neither begins nor ends with whitespace.
pub proof fn law_nonempty_lines_trimmed(s: Seq<char>)
    ensures
        forall|k: int|
            0 <= k < nonempty_lines_of(s).len() ==> {
                let l = #[trigger] nonempty_lines_of(s)[k];
                &&& l.len() > 0
                &&& !is_ws(l[0])
                &&& !is_ws(l.last())
                &&& exists|j: int| 0 <= j < lines(s).len() && l == trim(#[trigger] lines(s)[j])
            },
{
    lemma_trimmed_nonempty(lines(s));
}

pub proof fn lemma_without_plugins(ds: Seq<Seq<char>>, plugins: Seq<Seq<char>>)
    ensures
        forall|k: int|
            0 <= k < without_plugins(ds, plugins).len() ==> !names_plugin(
                #[trigger] without_plugins(ds, plugins)[k],
                plugins,
            ) && ds.contains(without_plugins(ds, plugins)[k]),
    decreases ds.len(),
{
    if ds.len() > 0 {
        lemma_without_plugins(ds.drop_last(), plugins);
        let r = without_plugins(ds, plugins);
        let p = without_plugins(ds.drop_last(), plugins);
        assert forall|k: int| 0 <= k < r.len() implies !names_plugin(#[trigger] r[k], plugins)
            && ds.contains(r[k]) by {
            if k < p.len() {
                assert(r[k] == p[k]);
                let j = choose|j: int| 0 <= j < ds.drop_last().len() && ds.drop_last()[j] == p[k];
                assert(ds[j] == ds.drop_last()[j]);
            } else {
                assert(r[k] == ds.last());
                assert(ds[ds.len() - 1] == ds.last());
            }
        }
    }
}

/// No dependency that goes into the hooks names a coverage plugin, and each
/// one is a declared requirement after substitution.
pub proof fn law_project_deps_exclude_plugins(src: ProjectSources)
    ensures
        forall|k: int|
            0 <= k < project_deps(src).len() ==> !names_plugin(
                #[trigger] project_deps(src)[k],
                coverage_plugins(src),
            ),
        forall|k: int|
            0 <= k < project_deps(src).len() ==> exists|j: int|
                0 <= j < declared_deps(src).len() && #[trigger] project_deps(src)[k] == substituted(
                    declared_deps(src)[j],
                ),
{
    let subs = declared_deps(src).map_values(|d: Seq<char>| substituted(d));
    lemma_without_plugins(subs, coverage_plugins(src));
    assert forall|k: int| 0 <= k < project_deps(src).len() implies exists|j: int|
        0 <= j < declared_deps(src).len() && #[trigger] project_deps(src)[k] == substituted(
            declared_deps(src)[j],
        ) by {
        let j = choose|j: int| 0 <= j < subs.len() && subs[j] == project_deps(src)[k];
        assert(subs[j] == substituted(declared_deps(src)[j]));
    }
}


proof fn lemma_without_plugins_filter(ds: Seq<Seq<char>>, plugins: Seq<Seq<char>>)
    ensures
        without_plugins(ds, plugins) == ds.filter(|d: Seq<char>| !names_plugin(d, plugins)),
    decreases ds.len(),
{
    reveal(Seq::filter);
    if ds.len() > 0 {
        lemma_without_plugins_filter(ds.drop_last(), plugins);
        let sub = ds.drop_last().filter(|d: Seq<char>| !names_plugin(d, plugins));
        assert(sub + Seq::<Seq<char>>::empty() =~= sub);
        assert(sub + seq![ds.last()] =~= sub.push(ds.last()));
    }
}

/// The dependencies for the hooks are exactly the declared ones, in their
/// order, each substituted, and without those that name a coverage plugin:
/// nothing else is added or dropped.
pub proof fn law_project_deps_are_declared_filtered(src: ProjectSources)
    ensures
        project_deps(src) == declared_deps(src).map_values(|d: Seq<char>| substituted(d)).filter(
            |d: Seq<char>| !names_plugin(d, coverage_plugins(src)),
        ),
{
    lemma_without_plugins_filter(
        declared_deps(src).map_values(|d: Seq<char>| substituted(d)),
        coverage_plugins(src),
    );
}


/// One of the characters that end a package name in a requirement:
/// `>`, `<`, `=`, `!`, `~`, `^`, `,`, `;`, a space or `[`.
pub open spec fn ends_package_name(c: char) -> bool {
    ||| c == '>'
    ||| c == '<'
    ||| c == '='
    ||| c == '!'
    ||| c == '~'
    ||| c == '^'
    ||| c == ','
    ||| c == ';'
    ||| c == ' '
    ||| c == '['
}

/// The package name of a requirement is the longest prefix of it that holds
/// none of `>`, `<`, `=`, `!`, `~`, `^`, `,`, `;`, space and `[`: so
/// `pkg==1.0`, `pkg>=1`, `pkg[extra]` and `pkg ; marker` all name `pkg`.
pub proof fn law_dep_name_stops_at_specifier(dep: Seq<char>)
    ensures
        dep_name_of(dep).len() <= dep.len(),
        dep_name_of(dep) == dep.take(dep_name_of(dep).len() as int),
        forall|k: int|
            0 <= k < dep_name_of(dep).len() ==> !ends_package_name(#[trigger] dep_name_of(dep)[k]),
        dep_name_of(dep).len() < dep.len() ==> ends_package_name(
            dep[dep_name_of(dep).len() as int],
        ),
{
    law_dep_name_is_plain_prefix(dep);
    assert forall|k: int| 0 <= k < dep_name_of(dep).len() implies !ends_package_name(
        #[trigger] dep_name_of(dep)[k],
    ) by {
        assert(!is_name_end(dep_name_of(dep)[k]));
    }
}

/// Substitution replaces a requirement only by the stub of a table entry
/// whose package normalizes to exactly the requirement's normalized package
/// name, the first such entry; a requirement whose name matches no entry
/// exactly is kept as written.
pub proof fn law_substitution_is_exact(dep: Seq<char>)
    ensures
        forall|i: int|
            0 <= i < substitution_table().len() && normalized(substitution_table()[i].0)
                == normalized(dep_name_of(dep)) && (forall|j: int|
                0 <= j < i ==> normalized(#[trigger] substitution_table()[j].0) != normalized(
                    dep_name_of(dep),
                )) ==> substituted(dep) == #[trigger] substitution_table()[i].1,
        (forall|i: int|
            0 <= i < substitution_table().len() ==> normalized(#[trigger] substitution_table()[i].0)
                != normalized(dep_name_of(dep))) ==> substituted(dep) == dep,
{
    let t = substitution_table();
    let name = normalized(dep_name_of(dep));
    lemma_stub_from(t, name, 0);
}

proof fn lemma_stub_from(t: Seq<(Seq<char>, Seq<char>)>, name: Seq<char>, a: int)
    requires
        0 <= a,
    ensures
        forall|i: int|
            a <= i < t.len() && normalized(t[i].0) == name && (forall|j: int|
                a <= j < i ==> normalized(#[trigger] t[j].0) != name) ==> stub_from(t, name, a)
                == Some(#[trigger] t[i].1),
        (forall|i: int| a <= i < t.len() ==> normalized(#[trigger] t[i].0) != name) ==> stub_from(
            t,
            name,
            a,
        ) is None,
    decreases t.len() - a,
{
    if a < t.len() {
        lemma_stub_from(t, name, a + 1);
        assert forall|i: int|
            a <= i < t.len() && normalized(t[i].0) == name && (forall|j: int|
                a <= j < i ==> normalized(#[trigger] t[j].0) != name) implies stub_from(t, name, a)
            == Some(#[trigger] t[i].1) by {
            if i > a {
                assert(normalized(t[a].0) != name);
            }
        }
        if forall|i: int| a <= i < t.len() ==> normalized(#[trigger] t[i].0) != name {
            assert(normalized(t[a].0) != name);
        }
    }
}

/// One poetry dependency contributes nothing exactly when its name is
/// `python` in any case; any other name contributes one requirement, which
/// is the name followed by the version (nothing for `*` or a non-string).
pub proof fn law_poetry_entry_skips_only_python(e: DocEntry)
    ensures
        poetry_entry(e).len() == 0 <==> lowercase(e.key@) == "python"@,
        lowercase(e.key@) != "python"@ ==> poetry_entry(e).len() == 1 && poetry_entry(e)[0].take(
            e.key@.len() as int,
        ) == e.key@,
        lowercase(e.key@) != "python"@ ==> (poetry_entry(e)[0] == e.key@ || exists|v: String|
            e.value == DocValue::Str(v) && poetry_entry(e)[0] == e.key@ + v@),
{
    if lowercase(e.key@) != "python"@ {
        match e.value {
            DocValue::Str(v) => {
                assert((e.key@ + v@).take(e.key@.len() as int) =~= e.key@);
                assert(e.key@.take(e.key@.len() as int) =~= e.key@);
            },
            _ => {
                assert(e.key@.take(e.key@.len() as int) =~= e.key@);
            },
        }
    }
}

/// A poetry dependency table gives one requirement per dependency that is
/// not `python`, in the table's order.
pub proof fn law_poetry_entries_count(es: Seq<DocEntry>)
    ensures
        poetry_entries(es).len() == es.filter(|e: DocEntry| lowercase(e.key@) != "python"@).len(),
        forall|j: int|
            0 <= j < es.len() && lowercase(es[j].key@) != "python"@ ==> exists|o: int|
                0 <= o < poetry_entries(es).len() && poetry_entries(es)[o].take(
                    es[j].key@.len() as int,
                ) == (#[trigger] es[j]).key@,
    decreases es.len(),
{
    reveal(Seq::filter);
    if es.len() > 0 {
        let p = es.drop_last();
        law_poetry_entries_count(p);
        law_poetry_entry_skips_only_python(es.last());
        let r = poetry_entries(es);
        assert(r == poetry_entries(p) + poetry_entry(es.last()));
        assert forall|j: int|
            0 <= j < es.len() && lowercase(es[j].key@) != "python"@ implies exists|o: int|
                0 <= o < r.len() && r[o].take(es[j].key@.len() as int) == (#[trigger] es[j]).key@ by {
            if j < p.len() {
                assert(es[j] == p[j]);
                let o = choose|o: int|
                    0 <= o < poetry_entries(p).len() && poetry_entries(p)[o].take(
                        p[j].key@.len() as int,
                    ) == (#[trigger] p[j]).key@;
                assert(r[o] == poetry_entries(p)[o]);
            } else {
                let o = poetry_entries(p).len() as int;
                assert(r[o] == poetry_entry(es.last())[0]);
            }
        }
    }
}

/// The lines of the first `m` entries begin the lines of all entries.
proof fn lemma_all_value_lines_prefix(entries: Seq<(Seq<char>, Seq<char>)>, m: int)
    requires
        0 <= m <= entries.len(),
    ensures
        all_value_lines(entries.take(m)).len() <= all_value_lines(entries).len(),
        all_value_lines(entries).take(all_value_lines(entries.take(m)).len() as int)
            == all_value_lines(entries.take(m)),
    decreases entries.len() - m,
{
    let a = all_value_lines(entries.take(m));
    if m == entries.len() {
        assert(entries.take(m) =~= entries);
        assert(all_value_lines(entries).take(a.len() as int) =~= a);
    } else {
        lemma_all_value_lines_prefix(entries, m + 1);
        assert(entries.take(m + 1).drop_last() =~= entries.take(m));
        assert(entries.take(m + 1).last() == entries[m]);
        let b = all_value_lines(entries.take(m + 1));
        assert(b == a + nonempty_lines_of(entries[m].1));
        let all = all_value_lines(entries);
        assert(all.take(a.len() as int) =~= all.take(b.len() as int).take(a.len() as int));
        assert(b.take(a.len() as int) =~= a);
    }
}

/// The lines of `install_requires` in `[options]` come first in what
/// `setup.cfg` gives.
pub proof fn law_setup_cfg_install_requires_first(content: Seq<char>)
    ensures
        setup_cfg_deps(content).take(
            value_lines(ini_get(ini_of(content), "options"@, "install_requires"@)).len() as int,
        ) == value_lines(ini_get(ini_of(content), "options"@, "install_requires"@)),
{
    let head = value_lines(ini_get(ini_of(content), "options"@, "install_requires"@));
    assert(setup_cfg_deps(content).take(head.len() as int) =~= head);
}

/// Every extra of `[options.extras_require]`, whatever its name, gives all
/// its lines: for the entry `j` of that section, the non-empty trimmed
/// lines of its value stand, in order and together, in what `setup.cfg`
/// gives.
pub proof fn law_setup_cfg_reads_every_extra(
    content: Seq<char>,
    entries: Seq<(Seq<char>, Seq<char>)>,
    j: int,
)
    requires
        lookup(ini_of(content), "options.extras_require"@) == Some(entries),
        0 <= j < entries.len(),
    ensures
        exists|o: int|
            0 <= o && o + nonempty_lines_of(entries[j].1).len() <= setup_cfg_deps(content).len()
                && #[trigger] setup_cfg_deps(content).subrange(
                o,
                o + nonempty_lines_of(entries[j].1).len(),
            ) == nonempty_lines_of(entries[j].1),
{
    let ini = ini_of(content);
    let head = value_lines(ini_get(ini, "options"@, "install_requires"@));
    let r = setup_cfg_deps(content);
    lemma_all_value_lines_prefix(entries, j + 1);
    assert(entries.take(j + 1).drop_last() =~= entries.take(j));
    assert(entries.take(j + 1).last() == entries[j]);
    let n = nonempty_lines_of(entries[j].1);
    let pre = all_value_lines(entries.take(j));
    let all = all_value_lines(entries);
    assert(all_value_lines(entries.take(j + 1)) == pre + n);
    assert(r == head + all);
    let o = (head.len() + pre.len()) as int;
    assert forall|x: int| 0 <= x < n.len() implies r.subrange(o, o + n.len())[x] == n[x] by {
        assert(r[o + x] == all[pre.len() + x]);
        assert(all[pre.len() + x] == all.take((pre.len() + n.len()) as int)[pre.len() + x]);
        assert((pre + n)[pre.len() + x] == n[x]);
    }
    assert(r.subrange(o, o + n.len()) =~= n);
}

} // verus!
