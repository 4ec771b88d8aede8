//! Walking the input tree: which directories are entered, which files are
//! picked up, and how a mod identifier is read off a path — from the
//! filesystem path's components for loose files, and from the `/`-separated
//! entry name for archive members.

use vstd::prelude::*;
use vstd::string::StringExecFns;
use crate::text::{chars_of, string_of};

verus! {

/// The components of a `/`-separated path; the separators are not part of
/// any component.
pub open spec fn split_slash(s: Seq<char>) -> Seq<Seq<char>>
    decreases s.len(),
{
    if s.len() == 0 {
        seq![Seq::empty()]
    } else if s.last() == '/' {
        split_slash(s.drop_last()).push(Seq::empty())
    } else {
        let r = split_slash(s.drop_last());
        r.update(r.len() - 1, r.last().push(s.last()))
    }
}

/// `w` occurs at position `i` of `parts` and nowhere earlier.
pub open spec fn is_first_at(parts: Seq<Seq<char>>, w: Seq<char>, i: int) -> bool {
    0 <= i < parts.len() && parts[i] == w && forall|j: int| 0 <= j < i ==> parts[j] != w
}

/// The position of the first component equal to `needle`, if any.
fn find_component(parts: &Vec<String>, needle: &str) -> (r: Option<usize>)
    ensures
        match r {
            Some(i) => is_first_at(parts.deep_view(), needle@, i as int),
            None => forall|j: int|
                0 <= j < parts.deep_view().len() ==> parts.deep_view()[j] != needle@,
        },
{
    let pat = String::from_str(needle);
    let mut i: usize = 0;
    while i < parts.len()
        invariant
            0 <= i <= parts@.len(),
            pat@ == needle@,
            forall|j: int| 0 <= j < i ==> parts.deep_view()[j] != needle@,
        decreases parts@.len() - i,
    {
        if parts[i] == pat {
            proof {
                assert(parts.deep_view()[i as int] == needle@);
            }
            return Some(i);
        }
        proof {
            assert(parts.deep_view()[i as int] == parts@[i as int]@);
        }
        i = i + 1;
    }
    None
}

/// The identifier a source file's path carries: the component before the
/// first `lang` component; when there is no `lang`, the component before the
/// first `data` component; `unknown_mod` when neither gives one.
pub open spec fn spec_extract_mod_id(parts: Seq<Seq<char>>) -> Seq<char> {
    if exists|i: int| is_first_at(parts, "lang"@, i) {
        let i = choose|i: int| is_first_at(parts, "lang"@, i);
        if i > 0 {
            parts[i - 1]
        } else {
            "unknown_mod"@
        }
    } else if exists|i: int| is_first_at(parts, "data"@, i) {
        let i = choose|i: int| is_first_at(parts, "data"@, i);
        if i > 0 {
            parts[i - 1]
        } else {
            "unknown_mod"@
        }
    } else {
        "unknown_mod"@
    }
}

proof fn lemma_first_at_unique(parts: Seq<Seq<char>>, w: Seq<char>, i: int)
    requires
        is_first_at(parts, w, i),
    ensures
        (choose|t: int| is_first_at(parts, w, t)) == i,
{
    let t = choose|t: int| is_first_at(parts, w, t);
    if t != i {
        assert(parts[t] == w && parts[i] == w);
    }
}

/// Reads the mod identifier off a path, given as its components in order.
pub fn extract_mod_id(parts: &Vec<String>) -> (r: String)
    ensures
        r@ == spec_extract_mod_id(parts.deep_view()),
{
    let lang_pos = find_component(parts, "lang");
    match lang_pos {
        Some(i) => {
            proof {
                lemma_first_at_unique(parts.deep_view(), "lang"@, i as int);
            }
            if i > 0 {
                proof {
                    assert(parts.deep_view()[i - 1] == parts@[i - 1]@);
                }
                return parts[i - 1].clone();
            }
            return String::from_str("unknown_mod");
        },
        None => {
            let data_pos = find_component(parts, "data");
            match data_pos {
                Some(i) => {
                    proof {
                        lemma_first_at_unique(parts.deep_view(), "data"@, i as int);
                    }
                    if i > 0 {
                        proof {
                            assert(parts.deep_view()[i - 1] == parts@[i - 1]@);
                        }
                        return parts[i - 1].clone();
                    }
                    return String::from_str("unknown_mod");
                },
                None => {
                    return String::from_str("unknown_mod");
                },
            }
        },
    }
}

/// The identifier an archive entry's name carries: the component after the
/// first `assets` component of its `/`-separated path, `unknown` when there
/// is none.
pub open spec fn spec_archive_mod_id(s: Seq<char>) -> Seq<char> {
    let parts = split_slash(s);
    if exists|i: int| is_first_at(parts, "assets"@, i) {
        let i = choose|i: int| is_first_at(parts, "assets"@, i);
        if i + 1 < parts.len() {
            parts[i + 1]
        } else {
            "unknown"@
        }
    } else {
        "unknown"@
    }
}

/// Splits a `/`-separated path into its components.
pub fn split_path_components(s: &str) -> (r: Vec<String>)
    ensures
        r.deep_view() == split_slash(s@),
{
    let v = chars_of(s);
    let mut out: Vec<String> = Vec::new();
    let mut cur: Vec<char> = Vec::new();
    let ghost mut done: Seq<Seq<char>> = Seq::empty();
    let mut i: usize = 0;
    proof {
        assert(v@.take(0) =~= Seq::<char>::empty());
        assert(split_slash(v@.take(0)) =~= done.push(cur@));
        assert(out.deep_view() =~= done);
    }
    while i < v.len()
        invariant
            0 <= i <= v@.len(),
            v@ == s@,
            split_slash(v@.take(i as int)) == done.push(cur@),
            out.deep_view() == done,
        decreases v@.len() - i,
    {
        let c = v[i];
        proof {
            assert(v@.take(i + 1).drop_last() =~= v@.take(i as int));
            assert(v@.take(i + 1).last() == v@[i as int]);
        }
        if c == '/' {
            out.push(string_of(&cur));
            proof {
                done = done.push(cur@);
                assert(out.deep_view() =~= done);
            }
            cur = Vec::new();
            proof {
                assert(split_slash(v@.take(i + 1)) =~~= done.push(cur@));
            }
        } else {
            let ghost prev = done.push(cur@);
            cur.push(c);
            proof {
                assert(split_slash(v@.take(i + 1)) == prev.update(
                    prev.len() - 1,
                    prev.last().push(c),
                ));
                assert(prev.update(prev.len() - 1, prev.last().push(c)) =~~= done.push(cur@));
            }
        }
        i = i + 1;
    }
    proof {
        assert(v@.take(i as int) =~= v@);
    }
    out.push(string_of(&cur));
    proof {
        assert(out.deep_view() =~= done.push(cur@));
    }
    out
}

/// Reads the mod identifier off an archive entry's `/`-separated name.
pub fn archive_mod_id(entry_path: &str) -> (r: String)
    ensures
        r@ == spec_archive_mod_id(entry_path@),
{
    let parts = split_path_components(entry_path);
    let pos = find_component(&parts, "assets");
    match pos {
        Some(i) => {
            proof {
                lemma_first_at_unique(parts.deep_view(), "assets"@, i as int);
            }
            if i < parts.len() - 1 {
                proof {
                    assert(parts.deep_view()[i + 1] == parts@[i + 1]@);
                }
                return parts[i + 1].clone();
            }
            return String::from_str("unknown");
        },
        None => {
            return String::from_str("unknown");
        },
    }
}

/// `c` stands at position `i` of `s` and nowhere later.
pub open spec fn is_last_at(s: Seq<char>, c: char, i: int) -> bool {
    0 <= i < s.len() && s[i] == c && forall|j: int| i < j < s.len() ==> s[j] != c
}

/// The name of an archive entry's sibling: the entry's directory part (up to
/// and including the last `'/'`) followed by `file_name`, or `file_name`
/// alone for an entry at the archive root.
pub fn archive_sibling_path(entry_path: &str, file_name: &str) -> (r: String)
    ensures
        r@ == if exists|i: int| is_last_at(entry_path@, '/', i) {
            entry_path@.take((choose|i: int| is_last_at(entry_path@, '/', i)) + 1) + file_name@
        } else {
            file_name@
        },
{
    let v = chars_of(entry_path);
    let mut i: usize = v.len();
    while i > 0
        invariant
            0 <= i <= v@.len(),
            v@ == entry_path@,
            forall|j: int| i <= j < v@.len() ==> v@[j] != '/',
        decreases i,
    {
        if v[i - 1] == '/' {
            proof {
                assert(is_last_at(entry_path@, '/', i - 1));
                let w = choose|w: int| is_last_at(entry_path@, '/', w);
                if w != i - 1 {
                    assert(entry_path@[w] == '/' && entry_path@[i - 1] == '/');
                }
                assert(w == i - 1);
            }
            let mut out = crate::text::sub_vec(&v, 0, i);
            crate::text::push_all(&mut out, &chars_of(file_name));
            proof {
                assert(out@ =~= entry_path@.take(i as int) + file_name@);
            }
            return string_of(&out);
        }
        i = i - 1;
    }
    proof {
        if exists|w: int| is_last_at(entry_path@, '/', w) {
            let w = choose|w: int| is_last_at(entry_path@, '/', w);
            assert(entry_path@[w] == '/');
        }
    }
    String::from_str(file_name)
}

/// The ASCII case fold `eq_ignore_ascii_case` compares by.
pub open spec fn ascii_fold(c: char) -> int {
    if 65 <= c as u32 && c as u32 <= 90 {
        c as u32 + 32
    } else {
        c as u32 as int
    }
}

pub open spec fn eq_ignore_ascii_case_spec(a: Seq<char>, b: Seq<char>) -> bool {
    a.len() == b.len() && forall|i: int| 0 <= i < a.len() ==> ascii_fold(a[i]) == ascii_fold(b[i])
}

fn eq_ignore_ascii_case(a: &Vec<char>, b: &Vec<char>) -> (r: bool)
    ensures
        r == eq_ignore_ascii_case_spec(a@, b@),
{
    if a.len() != b.len() {
        return false;
    }
    let mut i: usize = 0;
    while i < a.len()
        invariant
            0 <= i <= a@.len(),
            a@.len() == b@.len(),
            forall|j: int| 0 <= j < i ==> ascii_fold(a@[j]) == ascii_fold(b@[j]),
        decreases a@.len() - i,
    {
        let ca = a[i] as u32;
        let cb = b[i] as u32;
        let fa = if 65 <= ca && ca <= 90 {
            ca + 32
        } else {
            ca
        };
        let fb = if 65 <= cb && cb <= 90 {
            cb + 32
        } else {
            cb
        };
        if fa != fb {
            return false;
        }
        i = i + 1;
    }
    true
}

/// The directory names the walk enters below the input root.
pub open spec fn spec_is_allowed_dir_name(name: Seq<char>) -> bool {
    eq_ignore_ascii_case_spec(name, "resources"@) || eq_ignore_ascii_case_spec(name, "mods"@)
        || eq_ignore_ascii_case_spec(name, "kubejs"@) || eq_ignore_ascii_case_spec(name, "assets"@)
        || eq_ignore_ascii_case_spec(name, "lang"@)
}

pub fn is_allowed_dir_name(name: &str) -> (r: bool)
    ensures
        r == spec_is_allowed_dir_name(name@),
{
    let n = chars_of(name);
    eq_ignore_ascii_case(&n, &chars_of("resources")) || eq_ignore_ascii_case(&n, &chars_of("mods"))
        || eq_ignore_ascii_case(&n, &chars_of("kubejs")) || eq_ignore_ascii_case(
        &n,
        &chars_of("assets"),
    ) || eq_ignore_ascii_case(&n, &chars_of("lang"))
}

/// Whether the walk descends into an entry: files always pass, the root
/// itself passes, and a directory passes when its first component below the
/// root — or failing that the root's own name — is on the allow-list.
pub fn is_allowed_entry(
    is_dir: bool,
    is_root: bool,
    first_rel_component: Option<&String>,
    root_name: &str,
) -> (r: bool)
    ensures
        r == (!is_dir || is_root || (match first_rel_component {
            Some(c) => spec_is_allowed_dir_name(c@),
            None => false,
        }) || spec_is_allowed_dir_name(root_name@)),
{
    if !is_dir || is_root {
        return true;
    }
    match first_rel_component {
        Some(c) => {
            if is_allowed_dir_name(c.as_str()) {
                return true;
            }
        },
        None => {},
    }
    is_allowed_dir_name(root_name)
}

/// What the dispatcher does with a file, by extension.
#[derive(Clone, Copy, PartialEq, Eq, Structural)]
pub enum FileKind {
    Jar,
    Json,
    Lang,
    Quest,
    Unsupported,
}

/// Classifies a file by its extension: `jar`, `json` and `lang` mapping
/// artifacts, and `snbt` quest documents for the locator.
pub fn classify_file(extension: &str) -> (r: FileKind)
    ensures
        r == (if extension@ == "jar"@ {
            FileKind::Jar
        } else if extension@ == "json"@ {
            FileKind::Json
        } else if extension@ == "lang"@ {
            FileKind::Lang
        } else if extension@ == "snbt"@ {
            FileKind::Quest
        } else {
            FileKind::Unsupported
        }),
{
    let ext = String::from_str(extension);
    if ext == String::from_str("jar") {
        FileKind::Jar
    } else if ext == String::from_str("json") {
        FileKind::Json
    } else if ext == String::from_str("lang") {
        FileKind::Lang
    } else if ext == String::from_str("snbt") {
        FileKind::Quest
    } else {
        FileKind::Unsupported
    }
}

/// Whether an archive entry is a source language file worth processing: a
/// `.json` or `.lang` under some `assets` path whose name mentions the
/// source language tag.
pub fn is_archive_target(entry_name: &str, source_lang: &str) -> (r: bool)
    ensures
        r == (crate::text::contains_seq(entry_name@, "assets"@) && crate::text::contains_seq(
            entry_name@,
            source_lang@,
        ) && (crate::text::ends_with_seq(entry_name@, ".json"@) || crate::text::ends_with_seq(
            entry_name@,
            ".lang"@,
        ))),
{
    let name = chars_of(entry_name);
    crate::text::contains_chars(&name, &chars_of("assets")) && crate::text::contains_chars(
        &name,
        &chars_of(source_lang),
    ) && (crate::text::ends_with_chars(&name, &chars_of(".json")) || crate::text::ends_with_chars(
        &name,
        &chars_of(".lang"),
    ))
}

} // verus!
