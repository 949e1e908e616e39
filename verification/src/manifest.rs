use std::path::PathBuf;
use vstd::prelude::*;
use vstd::string::*;

use crate::order::{insert_sorted, str_eq, lemma_orders_strict_total, name_order, strict_total, strictly_sorted};

verus! {

/// std's `PathBuf`, declared so that a crate can carry where its manifest
/// lives; nothing is claimed of its contents, which no logic here reads.
#[verifier::external_type_specification]
#[verifier::external_body]
pub struct ExPathBuf(PathBuf);

/// std's `Clone` for `PathBuf`: its documentation promises a copy holding
/// the same path, which is all that is claimed here.
pub assume_specification[ <PathBuf as Clone>::clone ](p: &PathBuf) -> (r: PathBuf)
    ensures
        r == *p,
;

/// The `toml` crate's dynamically typed value, declared so that its parser
/// can be called; its contents are read only through [`TomlValue`].
#[verifier::external_type_specification]
#[verifier::external_body]
pub struct ExTomlValue(toml::Value);

/// One crate discovered on disk: its declared package name, where its
/// manifest lives, and the names it lists under `[dependencies]`.
///
/// Only `[dependencies]` is read: `[dev-dependencies]` and
/// `[build-dependencies]` are left out, since the question answered is what
/// a crate needs to build and ship.
#[derive(Debug, Clone, PartialEq, Eq)]
pub struct CrateInfo {
    pub name: String,
    pub manifest_path: PathBuf,
    pub dependencies: Vec<String>,
}

/// A parsed TOML value, as far as manifests are read: strings, arrays and
/// tables keep their contents; other scalars only their kind.
#[derive(Debug)]
pub enum TomlValue {
    String(String),
    Integer(i64),
    Float,
    Boolean(bool),
    Datetime(String),
    Array(Vec<TomlValue>),
    Table(Vec<(String, TomlValue)>),
}

/// Why a manifest could not be read into a crate.
#[derive(Debug, PartialEq, Eq, Structural)]
pub enum ManifestError {
    /// The manifest text is not a TOML document.
    InvalidToml,
    /// The manifest has no string at `[package].name`.
    MissingPackageName,
    /// The workspace root manifest has no array at `[workspace].members`.
    MissingWorkspaceMembers,
}

/// The document that the `toml` crate reads from `text`, in the form of a
/// [`TomlValue`]; `None` where it refuses the text.
pub uninterp spec fn toml_document(text: Seq<char>) -> Option<TomlValue>;

/// Converts a value of the `toml` crate into a [`TomlValue`], variant for
/// variant and entry for entry (a datetime by its TOML text). The parser's
/// result is a tree, so the conversion recurses; nothing is claimed of it
/// beyond what [`parse_toml`] states.
#[verifier::external_body]
fn toml_model(value: toml::Value) -> TomlValue {
    match value {
        toml::Value::String(s) => TomlValue::String(s),
        toml::Value::Integer(i) => TomlValue::Integer(i),
        toml::Value::Float(_) => TomlValue::Float,
        toml::Value::Boolean(b) => TomlValue::Boolean(b),
        toml::Value::Datetime(d) => TomlValue::Datetime(d.to_string()),
        toml::Value::Array(items) => TomlValue::Array(items.into_iter().map(toml_model).collect()),
        toml::Value::Table(t) => TomlValue::Table(t.into_iter().map(|(k, v)| (k, toml_model(v))).collect()),
    }
}

/// Parses `text` with the `toml` crate (`FromStr` for `toml::Value`, which
/// is `toml::from_str`). The contract claims that the result depends on the
/// text alone, named [`toml_document`]; the TOML grammar itself is not
/// restated.
#[verifier::external_body]
fn parse_toml(text: &str) -> (r: Option<TomlValue>)
    ensures
        r == toml_document(text@),
{
    match text.parse::<toml::Value>() {
        Ok(v) => Some(toml_model(v)),
        Err(_) => None,
    }
}

/// The value of the first entry with key `key`, from position `i` on.
pub open spec fn entries_get_from(es: Seq<(String, TomlValue)>, key: Seq<char>, i: int) -> Option<TomlValue>
    decreases es.len() - i,
{
    if i < 0 || i >= es.len() {
        None
    } else if es[i].0@ == key {
        Some(es[i].1)
    } else {
        entries_get_from(es, key, i + 1)
    }
}

/// The value under `key` when `v` is a table; a TOML table holds each key
/// once.
pub open spec fn value_get(v: TomlValue, key: Seq<char>) -> Option<TomlValue> {
    match v {
        TomlValue::Table(es) => entries_get_from(es@, key, 0),
        _ => None,
    }
}

/// The string at `[package].name`, if there is one.
pub open spec fn package_name(doc: TomlValue) -> Option<Seq<char>> {
    match value_get(doc, "package"@) {
        Some(p) => match value_get(p, "name"@) {
            Some(TomlValue::String(s)) => Some(s@),
            _ => None,
        },
        None => None,
    }
}

/// The keys of the `[dependencies]` table; none if there is no such table.
pub open spec fn dependency_names(doc: TomlValue) -> Set<Seq<char>> {
    match value_get(doc, "dependencies"@) {
        Some(TomlValue::Table(es)) => Set::new(|k: Seq<char>| exists|i: int| 0 <= i < es@.len() && #[trigger] es@[i].0@ == k),
        _ => Set::empty(),
    }
}

/// The entries of `[workspace].members`, if it is an array.
pub open spec fn workspace_member_list(doc: TomlValue) -> Option<Seq<TomlValue>> {
    match value_get(doc, "workspace"@) {
        Some(w) => match value_get(w, "members"@) {
            Some(TomlValue::Array(xs)) => Some(xs@),
            _ => None,
        },
        None => None,
    }
}

/// The value under `key` in a table.
pub fn toml_get<'a>(v: &'a TomlValue, key: &str) -> (r: Option<&'a TomlValue>)
    ensures
        match r {
            Some(x) => value_get(*v, key@) == Some(*x),
            None => value_get(*v, key@) is None,
        },
{
    match v {
        TomlValue::Table(es) => {
            let mut i: usize = 0;
            while i < es.len()
                invariant
                    i <= es.len(),
                    value_get(*v, key@) == entries_get_from(es@, key@, 0),
                    entries_get_from(es@, key@, 0) == entries_get_from(es@, key@, i as int),
                decreases es.len() - i,
            {
                if str_eq(es[i].0.as_str(), key) {
                    assert(es@[i as int].0@ == key@);
                    assert(entries_get_from(es@, key@, i as int) == Some(es@[i as int].1));
                    assert(value_get(*v, key@) == entries_get_from(es@, key@, 0));
                    return Some(&es[i].1);
                }
                i = i + 1;
            }
            None
        },
        _ => None,
    }
}

/// `r` is what a manifest document `doc` reads as: the crate named at
/// `[package].name`, with the keys of `[dependencies]` sorted and each once,
/// or the missing name.
pub open spec fn crate_info_read(doc: TomlValue, manifest_path: PathBuf, r: Result<CrateInfo, ManifestError>) -> bool {
    match r {
        Ok(info) => {
            &&& package_name(doc) == Some(info.name@)
            &&& info.manifest_path == manifest_path
            &&& strictly_sorted(info.dependencies.deep_view(), name_order())
            &&& info.dependencies.deep_view().to_set() == dependency_names(doc)
        },
        Err(e) => e == ManifestError::MissingPackageName && package_name(doc) is None,
    }
}

/// Reads a manifest's parsed document into a [`CrateInfo`]: the package
/// name from `[package].name`, and the keys of `[dependencies]`, sorted,
/// each once (no table there means no dependencies). A missing name is an
/// error.
pub fn crate_info_from_document(doc: &TomlValue, manifest_path: PathBuf) -> (r: Result<CrateInfo, ManifestError>)
    ensures
        crate_info_read(*doc, manifest_path, r),
{
    proof {
        lemma_orders_strict_total();
    }
    let name = match toml_get(doc, "package") {
        Some(p) => match toml_get(p, "name") {
            Some(TomlValue::String(s)) => s.clone(),
            _ => {
                return Err(ManifestError::MissingPackageName);
            },
        },
        None => {
            return Err(ManifestError::MissingPackageName);
        },
    };
    let mut dependencies: Vec<String> = Vec::new();
    match toml_get(doc, "dependencies") {
        Some(TomlValue::Table(es)) => {
            let ghost keys = dependency_names(*doc);
            let mut i: usize = 0;
            while i < es.len()
                invariant
                    i <= es.len(),
                    strict_total(name_order()),
                    strictly_sorted(dependencies.deep_view(), name_order()),
                    keys == Set::new(|k: Seq<char>| exists|j: int| 0 <= j < es@.len() && #[trigger] es@[j].0@ == k),
                    forall|k: Seq<char>| #[trigger] dependencies.deep_view().to_set().contains(k) <==> exists|j: int|
                        0 <= j < i && #[trigger] es@[j].0@ == k,
                decreases es.len() - i,
            {
                let ghost before = dependencies.deep_view().to_set();
                insert_sorted(&mut dependencies, es[i].0.clone());
                proof {
                    assert forall|k: Seq<char>| #[trigger] dependencies.deep_view().to_set().contains(k) <==> exists|j: int|
                        0 <= j < i + 1 && #[trigger] es@[j].0@ == k by {
                        if exists|j: int| 0 <= j < i + 1 && #[trigger] es@[j].0@ == k {
                            let j = choose|j: int| 0 <= j < i + 1 && #[trigger] es@[j].0@ == k;
                            if j < i {
                                assert(before.contains(k));
                            }
                        }
                        if before.contains(k) {
                            let j = choose|j: int| 0 <= j < i && #[trigger] es@[j].0@ == k;
                            assert(0 <= j < i + 1);
                        }
                        if k == es@[i as int].0@ {
                            assert(0 <= i < i + 1 && es@[i as int].0@ == k);
                        }
                    }
                }
                i = i + 1;
            }
            assert(dependencies.deep_view().to_set() =~= keys);
        },
        _ => {
            assert(dependencies.deep_view().to_set() =~= Set::<Seq<char>>::empty());
        },
    }
    Ok(CrateInfo { name, manifest_path, dependencies })
}

/// Reads a manifest's text into a [`CrateInfo`]: text that is not TOML is
/// an error, and a document is read by [`crate_info_from_document`].
pub fn crate_info_from_text(text: &str, manifest_path: PathBuf) -> (r: Result<CrateInfo, ManifestError>)
    ensures
        match toml_document(text@) {
            Some(doc) => crate_info_read(doc, manifest_path, r),
            None => r matches Err(ManifestError::InvalidToml),
        },
{
    match parse_toml(text) {
        Some(doc) => crate_info_from_document(&doc, manifest_path),
        None => Err(ManifestError::InvalidToml),
    }
}

/// One entry of `[workspace].members`.
#[derive(Debug, PartialEq, Eq)]
pub enum WorkspaceMember {
    /// `"<prefix>/*"`: every immediate subdirectory of `<prefix>` that holds
    /// a manifest.
    Glob(String),
    /// A plain relative path to a member directory.
    Path(String),
    /// An entry that is not a string.
    NotString,
}

/// `s` ends in `/*`.
pub open spec fn is_glob(s: Seq<char>) -> bool {
    s.len() >= 2 && s[s.len() - 2] == '/' && s[s.len() - 1] == '*'
}

/// How a members entry `v` is read.
pub open spec fn member_reads_as(m: WorkspaceMember, v: TomlValue) -> bool {
    match v {
        TomlValue::String(s) => if is_glob(s@) {
            m matches WorkspaceMember::Glob(p) && p@ == s@.subrange(0, s@.len() - 2)
        } else {
            m matches WorkspaceMember::Path(p) && p@ == s@
        },
        _ => m is NotString,
    }
}

/// Reads a members entry: a string ending in `/*` names a directory whose
/// subdirectories are members, any other string names one member.
pub fn member_pattern(v: &TomlValue) -> (m: WorkspaceMember)
    ensures
        member_reads_as(m, *v),
{
    match v {
        TomlValue::String(s) => {
            let t = s.as_str();
            let len = t.unicode_len();
            if len >= 2 && t.get_char(len - 2) == '/' && t.get_char(len - 1) == '*' {
                let prefix = t.substring_char(0, len - 2);
                WorkspaceMember::Glob(prefix.to_owned())
            } else {
                WorkspaceMember::Path(s.clone())
            }
        },
        _ => WorkspaceMember::NotString,
    }
}

/// `ms` reads the entries of `[workspace].members` of `doc` one for one.
pub open spec fn members_read(doc: TomlValue, ms: Seq<WorkspaceMember>) -> bool {
    workspace_member_list(doc) matches Some(xs) && ms.len() == xs.len() && forall|i: int|
        0 <= i < xs.len() ==> member_reads_as(#[trigger] ms[i], xs[i])
}

/// The entries of a workspace root's `[workspace].members`, each read by
/// [`member_pattern`]; `None` when there is no such array.
pub fn workspace_members(doc: &TomlValue) -> (r: Option<Vec<WorkspaceMember>>)
    ensures
        match r {
            Some(ms) => members_read(*doc, ms@),
            None => workspace_member_list(*doc) is None,
        },
{
    let xs = match toml_get(doc, "workspace") {
        Some(w) => match toml_get(w, "members") {
            Some(TomlValue::Array(xs)) => xs,
            _ => {
                return None;
            },
        },
        None => {
            return None;
        },
    };
    let mut ms: Vec<WorkspaceMember> = Vec::new();
    let mut i: usize = 0;
    while i < xs.len()
        invariant
            i <= xs.len(),
            ms.len() == i,
            forall|j: int| 0 <= j < i ==> member_reads_as(#[trigger] ms@[j], xs@[j]),
        decreases xs.len() - i,
    {
        ms.push(member_pattern(&xs[i]));
        i = i + 1;
    }
    Some(ms)
}

/// The members of a workspace from its root manifest's text: text that is
/// not TOML is an error, and so is a document without an array at
/// `[workspace].members`.
pub fn workspace_members_from_text(text: &str) -> (r: Result<Vec<WorkspaceMember>, ManifestError>)
    ensures
        match toml_document(text@) {
            Some(doc) => match r {
                Ok(ms) => members_read(doc, ms@),
                Err(e) => e == ManifestError::MissingWorkspaceMembers && workspace_member_list(doc) is None,
            },
            None => r matches Err(ManifestError::InvalidToml),
        },
{
    match parse_toml(text) {
        Some(doc) => match workspace_members(&doc) {
            Some(ms) => Ok(ms),
            None => Err(ManifestError::MissingWorkspaceMembers),
        },
        None => Err(ManifestError::InvalidToml),
    }
}

/// A manifest read into a crate lists as its dependencies exactly the keys
/// of its `[dependencies]` table, whatever the value under each key.
pub proof fn lemma_dependencies_are_table_keys(
    doc: TomlValue,
    manifest_path: PathBuf,
    info: CrateInfo,
    ds: Vec<(String, TomlValue)>,
    k: Seq<char>,
)
    requires
        crate_info_read(doc, manifest_path, Ok(info)),
        value_get(doc, "dependencies"@) == Some(TomlValue::Table(ds)),
    ensures
        info.dependencies.deep_view().contains(k) <==> exists|q: int| 0 <= q < ds@.len() && #[trigger] ds@[q].0@ == k,
{
    let d = info.dependencies.deep_view();
    if d.contains(k) {
        assert(d.to_set().contains(k));
    }
    if exists|q: int| 0 <= q < ds@.len() && #[trigger] ds@[q].0@ == k {
        assert(dependency_names(doc).contains(k));
        assert(d.to_set().contains(k));
    }
}

/// A manifest without a `[dependencies]` table reads as a crate with no
/// dependencies.
pub proof fn lemma_no_dependency_table(doc: TomlValue, manifest_path: PathBuf, info: CrateInfo)
    requires
        crate_info_read(doc, manifest_path, Ok(info)),
        !(value_get(doc, "dependencies"@) matches Some(TomlValue::Table(_))),
    ensures
        info.dependencies@.len() == 0,
{
    let d = info.dependencies.deep_view();
    if d.len() > 0 {
        assert(d.to_set().contains(d[0]));
    }
}

/// A members entry ending in `/*` is a glob over the directory it names
/// without those two characters: the prefix followed by `/*` gives back the
/// entry. Any other string is a plain path, kept whole.
pub proof fn lemma_member_glob_prefix(m: WorkspaceMember, s: String)
    requires
        member_reads_as(m, TomlValue::String(s)),
    ensures
        s@.len() >= 2 && s@[s@.len() - 2] == '/' && s@[s@.len() - 1] == '*' ==> (m matches WorkspaceMember::Glob(p)
            && p@ + seq!['/', '*'] == s@),
        !(s@.len() >= 2 && s@[s@.len() - 2] == '/' && s@[s@.len() - 1] == '*') ==> (m matches WorkspaceMember::Path(
            p,
        ) && p@ == s@),
{
    if is_glob(s@) {
        let p = m->Glob_0;
        assert(p@ + seq!['/', '*'] =~= s@);
    }
}

/// Every entry of a read members list follows [`lemma_member_glob_prefix`]:
/// a string ending in `/*` gives the glob over its prefix.
pub proof fn lemma_members_glob_prefix(doc: TomlValue, ms: Seq<WorkspaceMember>, i: int, s: String)
    requires
        members_read(doc, ms),
        workspace_member_list(doc) matches Some(xs) && 0 <= i < xs.len() && xs[i] == TomlValue::String(s),
        s@.len() >= 2,
        s@[s@.len() - 2] == '/',
        s@[s@.len() - 1] == '*',
    ensures
        ms[i] matches WorkspaceMember::Glob(p) && p@ + seq!['/', '*'] == s@,
{
    lemma_member_glob_prefix(ms[i], s);
}

/// A manifest reads as a crate exactly when `[package].name` holds a
/// string, and the crate carries that string as its name and the path it
/// was read from.
pub proof fn lemma_crate_name_from_package(
    doc: TomlValue,
    manifest_path: PathBuf,
    r: Result<CrateInfo, ManifestError>,
    pk: TomlValue,
)
    requires
        crate_info_read(doc, manifest_path, r),
        value_get(doc, "package"@) == Some(pk),
    ensures
        value_get(pk, "name"@) matches Some(TomlValue::String(s)) ==> (r matches Ok(info) && info.name@ == s@
            && info.manifest_path == manifest_path),
        !(value_get(pk, "name"@) matches Some(TomlValue::String(_))) ==> r == Err::<CrateInfo, ManifestError>(
            ManifestError::MissingPackageName,
        ),
{
}

/// A manifest without a `[package]` table is refused for its missing name.
pub proof fn lemma_no_package_table(doc: TomlValue, manifest_path: PathBuf, r: Result<CrateInfo, ManifestError>)
    requires
        crate_info_read(doc, manifest_path, r),
        value_get(doc, "package"@) is None,
    ensures
        r == Err::<CrateInfo, ManifestError>(ManifestError::MissingPackageName),
{
}

} // verus!
