//! The `key=value` language-file format: parsing its lines into a mapping
//! (blank lines and `#` comments skipped, keys and values trimmed, a later
//! duplicate key winning) and rendering a mapping back, with raw newlines
//! escaped and carriage returns dropped from values.

use vstd::prelude::*;
use crate::mapping::{insert_entries, EntryValue, Mapping, ValueModel};
use crate::text::{
    chars_of, find_from, match_at, push_all, replace_chars, replace_spec, string_of, sub_vec,
    trim_chars, trimmed,
};

verus! {

/// The lines of a text, split at every `'\n'`; the separators are not part
/// of any line.
pub open spec fn split_lines(s: Seq<char>) -> Seq<Seq<char>>
    decreases s.len(),
{
    if s.len() == 0 {
        seq![Seq::empty()]
    } else if s.last() == '\n' {
        split_lines(s.drop_last()).push(Seq::empty())
    } else {
        let r = split_lines(s.drop_last());
        r.update(r.len() - 1, r.last().push(s.last()))
    }
}

pub open spec fn is_first_eq(line: Seq<char>, i: int) -> bool {
    0 <= i < line.len() && line[i] == '=' && forall|j: int| 0 <= j < i ==> line[j] != '='
}

/// The split of a line at its first `'='`, if it has one.
pub open spec fn eq_split(line: Seq<char>) -> Option<(Seq<char>, Seq<char>)> {
    if exists|i: int| is_first_eq(line, i) {
        let i = choose|i: int| is_first_eq(line, i);
        Some((line.take(i), line.skip(i + 1)))
    } else {
        None
    }
}

/// What one line contributes: nothing when it is blank or a `#` comment or
/// has no `'='`; otherwise its trimmed key and trimmed value.
pub open spec fn parse_lang_line(line: Seq<char>) -> Option<(Seq<char>, Seq<char>)> {
    let t = trimmed(line);
    if t.len() == 0 || t[0] == '#' {
        None
    } else {
        match eq_split(line) {
            Some(kv) => Some((trimmed(kv.0), trimmed(kv.1))),
            None => None,
        }
    }
}

/// The entries of a sequence of lines, in line order, as text values.
pub open spec fn entries_of_lines(lines: Seq<Seq<char>>) -> Seq<(Seq<char>, ValueModel)>
    decreases lines.len(),
{
    if lines.len() == 0 {
        Seq::empty()
    } else {
        let rest = entries_of_lines(lines.drop_last());
        match parse_lang_line(lines.last()) {
            Some(kv) => rest.push((kv.0, ValueModel::Text(kv.1))),
            None => rest,
        }
    }
}

/// The mapping described by a language file.
pub open spec fn parse_lang_spec(s: Seq<char>) -> Map<Seq<char>, ValueModel> {
    insert_entries(Map::empty(), entries_of_lines(split_lines(s)))
}

/// Parses one line into `m`: inserts its trimmed key and value when the line
/// carries an entry, leaves `m` alone otherwise.
fn take_line(m: &mut Mapping, line: &Vec<char>)
    requires
        old(m).wf(),
    ensures
        final(m).wf(),
        final(m)@ == match parse_lang_line(line@) {
            Some(kv) => old(m)@.insert(kv.0, ValueModel::Text(kv.1)),
            None => old(m)@,
        },
{
    let t = trim_chars(line);
    if t.len() == 0 {
        return;
    }
    if t[0] == '#' {
        return;
    }
    let eq = chars_of("=");
    proof {
        reveal_strlit("=");
    }
    let found = find_from(line, &eq, 0);
    match found {
        Some(i) => {
            proof {
                assert(line@.subrange(i as int, i + 1)[0] == line@[i as int]);
                assert(line@[i as int] == '=');
                assert forall|j: int| 0 <= j < i implies line@[j] != '=' by {
                    if line@[j] == '=' {
                        assert(line@.subrange(j, j + 1) =~= "="@);
                        assert(match_at(line@, "="@, j));
                    }
                }
                assert(is_first_eq(line@, i as int));
                let w = choose|w: int| is_first_eq(line@, w);
                if w != i as int {
                    assert(line@[w] == '=' && line@[i as int] == '=');
                }
                assert(w == i as int);
            }
            proof {
                assert(i < line@.len() && line@.len() == line.len());
            }
            let key_part = sub_vec(line, 0, i);
            let val_part = sub_vec(line, i + 1, line.len());
            proof {
                assert(key_part@ =~= line@.take(i as int));
                assert(val_part@ =~= line@.skip(i + 1));
            }
            let kt = trim_chars(&key_part);
            let vt = trim_chars(&val_part);
            m.insert(string_of(&kt), EntryValue::Text(string_of(&vt)));
        },
        None => {
            proof {
                if exists|w: int| is_first_eq(line@, w) {
                    let w = choose|w: int| is_first_eq(line@, w);
                    assert(line@.subrange(w, w + 1) =~= "="@);
                    assert(match_at(line@, "="@, w));
                }
            }
        },
    }
}

proof fn lemma_lines_step(done: Seq<Seq<char>>, cur: Seq<char>)
    ensures
        entries_of_lines(done.push(cur)) == (match parse_lang_line(cur) {
            Some(kv) => entries_of_lines(done).push((kv.0, ValueModel::Text(kv.1))),
            None => entries_of_lines(done),
        }),
{
    assert(done.push(cur).drop_last() =~~= done);
    assert(done.push(cur).last() == cur);
}

proof fn lemma_insert_entries_push(
    m: Map<Seq<char>, ValueModel>,
    es: Seq<(Seq<char>, ValueModel)>,
    e: (Seq<char>, ValueModel),
)
    ensures
        insert_entries(m, es.push(e)) == insert_entries(m, es).insert(e.0, e.1),
{
    assert(es.push(e).drop_last() =~= es);
    assert(es.push(e).last() == e);
}

/// Parses a whole language file: every line's entry inserted in line order,
/// so a key repeated later in the file wins.
pub fn parse_lang_content(text: &str) -> (r: Mapping)
    ensures
        r.wf(),
        r@ == parse_lang_spec(text@),
{
    let v = chars_of(text);
    let mut m = Mapping::new();
    let mut cur: Vec<char> = Vec::new();
    let ghost mut lines_done: Seq<Seq<char>> = Seq::empty();
    let mut i: usize = 0;
    proof {
        assert(v@.take(0) =~= Seq::<char>::empty());
        assert(split_lines(v@.take(0)) =~= lines_done.push(cur@));
        assert(entries_of_lines(lines_done) =~= Seq::<(Seq<char>, ValueModel)>::empty());
    }
    while i < v.len()
        invariant
            0 <= i <= v@.len(),
            v@ == text@,
            split_lines(v@.take(i as int)) == lines_done.push(cur@),
            m.wf(),
            m@ == insert_entries(Map::empty(), entries_of_lines(lines_done)),
        decreases v@.len() - i,
    {
        let c = v[i];
        proof {
            assert(v@.take(i + 1).drop_last() =~= v@.take(i as int));
            assert(v@.take(i + 1).last() == v@[i as int]);
        }
        if c == '\n' {
            let ghost done0 = lines_done;
            take_line(&mut m, &cur);
            proof {
                lemma_lines_step(done0, cur@);
                match parse_lang_line(cur@) {
                    Some(kv) => {
                        lemma_insert_entries_push(
                            Map::empty(),
                            entries_of_lines(done0),
                            (kv.0, ValueModel::Text(kv.1)),
                        );
                    },
                    None => {},
                }
                lines_done = done0.push(cur@);
                assert(m@ == insert_entries(Map::empty(), entries_of_lines(lines_done)));
            }
            cur = Vec::new();
            proof {
                assert(split_lines(v@.take(i + 1)) == split_lines(v@.take(i as int)).push(
                    Seq::<char>::empty(),
                ));
                assert(split_lines(v@.take(i + 1)) =~~= lines_done.push(cur@));
            }
        } else {
            let ghost old_last = cur@;
            cur.push(c);
            proof {
                let prev = lines_done.push(old_last);
                assert(split_lines(v@.take(i + 1)) == prev.update(
                    prev.len() - 1,
                    prev.last().push(c),
                ));
                assert(prev.update(prev.len() - 1, prev.last().push(c)) =~~= lines_done.push(cur@));
            }
        }
        i = i + 1;
    }
    proof {
        assert(v@.take(i as int) =~= v@);
    }
    let ghost done0 = lines_done;
    take_line(&mut m, &cur);
    proof {
        lemma_lines_step(done0, cur@);
        match parse_lang_line(cur@) {
            Some(kv) => {
                lemma_insert_entries_push(
                    Map::empty(),
                    entries_of_lines(done0),
                    (kv.0, ValueModel::Text(kv.1)),
                );
            },
            None => {},
        }
        assert(split_lines(text@) == done0.push(cur@));
        assert(m@ == insert_entries(Map::empty(), entries_of_lines(done0.push(cur@))));
    }
    m
}

/// A value as the lang format stores it: raw newlines become the two
/// characters `\n`, carriage returns are dropped.
pub open spec fn lang_escaped(v: Seq<char>) -> Seq<char> {
    replace_spec(replace_spec(v, seq!['\n'], seq!['\\', 'n']), seq!['\r'], Seq::empty())
}

/// The rendered lines of a mapping, entry order kept: one `key=value` line
/// per text entry, opaque entries left out (they have no lang form).
pub open spec fn render_lines(es: Seq<(Seq<char>, ValueModel)>) -> Seq<char>
    decreases es.len(),
{
    if es.len() == 0 {
        Seq::empty()
    } else {
        render_lines(es.drop_last()) + (match es.last().1 {
            ValueModel::Text(t) => es.last().0 + seq!['='] + lang_escaped(t) + seq!['\n'],
            ValueModel::Opaque(_) => Seq::empty(),
        })
    }
}

/// Renders a mapping in the lang format.
pub fn render_lang_content(m: &Mapping) -> (r: String)
    ensures
        r@ == render_lines(m.entries()),
{
    let mut out: Vec<char> = Vec::new();
    let n = m.len();
    let mut i: usize = 0;
    let nl_pat = chars_of("\n");
    let nl_rep = chars_of("\\n");
    let cr_pat = chars_of("\r");
    let empty_rep = chars_of("");
    proof {
        reveal_strlit("\n");
        reveal_strlit("\\n");
        reveal_strlit("\r");
        reveal_strlit("");
        assert(nl_pat@ =~= seq!['\n']);
        assert(nl_rep@ =~= seq!['\\', 'n']);
        assert(cr_pat@ =~= seq!['\r']);
        assert(empty_rep@ =~= Seq::<char>::empty());
        assert(m.entries().take(0) =~= Seq::<(Seq<char>, ValueModel)>::empty());
        assert(out@ =~= render_lines(m.entries().take(0)));
    }
    while i < n
        invariant
            0 <= i <= n,
            n == m.entries().len(),
            nl_pat@ == seq!['\n'],
            nl_rep@ == seq!['\\', 'n'],
            cr_pat@ == seq!['\r'],
            empty_rep@ == Seq::<char>::empty(),
            out@ == render_lines(m.entries().take(i as int)),
        decreases n - i,
    {
        proof {
            assert(m.entries().take(i + 1).drop_last() =~= m.entries().take(i as int));
            assert(m.entries().take(i + 1).last() == m.entries()[i as int]);
        }
        let v = m.value_at(i);
        match v {
            EntryValue::Text(t) => {
                let key_chars = chars_of(m.key_at(i).as_str());
                push_all(&mut out, &key_chars);
                out.push('=');
                let tv = chars_of(t.as_str());
                let esc = replace_chars(&replace_chars(&tv, &nl_pat, &nl_rep), &cr_pat, &empty_rep);
                push_all(&mut out, &esc);
                out.push('\n');
                proof {
                    assert(out@ =~= render_lines(m.entries().take(i + 1)));
                }
            },
            EntryValue::Opaque(_) => {
                proof {
                    assert(out@ =~= render_lines(m.entries().take(i + 1)));
                }
            },
        }
        i = i + 1;
    }
    proof {
        assert(m.entries().take(n as int) =~= m.entries());
    }
    string_of(&out)
}

} // verus!
