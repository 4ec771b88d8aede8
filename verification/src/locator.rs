//! The structured-text locator: finds the translatable spans of a
//! semi-structured quest document (single-line `title`/`subtitle` fields and
//! the quoted strings of `desc`/`description` list blocks), keys them by a
//! running index, and splices translated text back over the recorded byte
//! ranges without disturbing anything around them.

use vstd::prelude::*;
use crate::mapping::{EntryValue, Mapping, ValueModel};
use crate::text::{dec_of, dec_val, lemma_dec_of_value, to_decimal};
use crate::text::{is_blank, is_blank_chars, match_at, matches_at, string_of, sub_vec};

verus! {

/// One extractable span: the document range `[start, end)` it covers and the
/// synthetic key its text travels under.
pub struct SpanRec {
    pub start: usize,
    pub end: usize,
    pub key: String,
}

/// The spans are within the document, each is a proper range, and they are
/// in strictly left-to-right order without overlap.
pub open spec fn spans_wf(spans: Seq<SpanRec>, doc_len: int) -> bool {
    &&& forall|i: int|
        0 <= i < spans.len() ==> (#[trigger] spans[i]).start <= spans[i].end <= doc_len
    &&& forall|i: int|
        0 <= i < spans.len() - 1 ==> (#[trigger] spans[i]).end <= spans[i + 1].start
}

pub open spec fn hex_digit(d: int) -> char {
    if d < 10 {
        crate::text::dec_digit(d)
    } else if d == 10 {
        'a'
    } else if d == 11 {
        'b'
    } else if d == 12 {
        'c'
    } else if d == 13 {
        'd'
    } else if d == 14 {
        'e'
    } else {
        'f'
    }
}

/// How one character is written inside a JSON string, the document's quoting
/// rule for spliced-in text.
pub open spec fn json_escape_char(c: char) -> Seq<char> {
    if c == '"' {
        seq!['\\', '"']
    } else if c == '\\' {
        seq!['\\', '\\']
    } else if c == '\n' {
        seq!['\\', 'n']
    } else if c == '\r' {
        seq!['\\', 'r']
    } else if c == '\t' {
        seq!['\\', 't']
    } else if c == '\u{08}' {
        seq!['\\', 'b']
    } else if c == '\u{0c}' {
        seq!['\\', 'f']
    } else if (c as u32) < 0x20 {
        seq!['\\', 'u', '0', '0', hex_digit(c as u32 as int / 16), hex_digit(c as u32 as int % 16)]
    } else {
        seq![c]
    }
}

pub open spec fn json_escape(s: Seq<char>) -> Seq<char>
    decreases s.len(),
{
    if s.len() == 0 {
        Seq::empty()
    } else {
        json_escape(s.drop_last()) + json_escape_char(s.last())
    }
}

fn hex_digit_exec(d: u32) -> (c: char)
    requires
        d < 16,
    ensures
        c == hex_digit(d as int),
{
    if d == 0 {
        '0'
    } else if d == 1 {
        '1'
    } else if d == 2 {
        '2'
    } else if d == 3 {
        '3'
    } else if d == 4 {
        '4'
    } else if d == 5 {
        '5'
    } else if d == 6 {
        '6'
    } else if d == 7 {
        '7'
    } else if d == 8 {
        '8'
    } else if d == 9 {
        '9'
    } else if d == 10 {
        'a'
    } else if d == 11 {
        'b'
    } else if d == 12 {
        'c'
    } else if d == 13 {
        'd'
    } else if d == 14 {
        'e'
    } else {
        'f'
    }
}

/// Escapes a text for splicing into a quoted position of the document.
pub fn json_escape_chars(s: &Vec<char>) -> (r: Vec<char>)
    ensures
        r@ == json_escape(s@),
{
    let mut out: Vec<char> = Vec::new();
    let mut i: usize = 0;
    proof {
        assert(out@ =~= json_escape(s@.take(0)));
    }
    while i < s.len()
        invariant
            0 <= i <= s@.len(),
            out@ == json_escape(s@.take(i as int)),
        decreases s@.len() - i,
    {
        let c = s[i];
        proof {
            assert(s@.take(i + 1).drop_last() =~= s@.take(i as int));
            assert(s@.take(i + 1).last() == s@[i as int]);
        }
        if c == '"' {
            out.push('\\');
            out.push('"');
        } else if c == '\\' {
            out.push('\\');
            out.push('\\');
        } else if c == '\n' {
            out.push('\\');
            out.push('n');
        } else if c == '\r' {
            out.push('\\');
            out.push('r');
        } else if c == '\t' {
            out.push('\\');
            out.push('t');
        } else if c == '\u{08}' {
            out.push('\\');
            out.push('b');
        } else if c == '\u{0c}' {
            out.push('\\');
            out.push('f');
        } else if (c as u32) < 0x20 {
            let u = c as u32;
            out.push('\\');
            out.push('u');
            out.push('0');
            out.push('0');
            out.push(hex_digit_exec(u / 16));
            out.push(hex_digit_exec(u % 16));
        } else {
            out.push(c);
        }
        proof {
            assert(out@ =~= json_escape(s@.take(i + 1)));
        }
        i = i + 1;
    }
    proof {
        assert(s@.take(s@.len() as int) =~= s@);
    }
    out
}

/// The document after replacing, from `pos` on, each span's range by its
/// replacement when it has one, and by the range's own text when it has
/// none.
pub open spec fn splice_from(
    doc: Seq<char>,
    spans: Seq<SpanRec>,
    reps: Seq<Option<Seq<char>>>,
    pos: int,
) -> Seq<char>
    decreases spans.len(),
{
    if spans.len() == 0 {
        doc.skip(pos)
    } else {
        doc.subrange(pos, spans[0].start as int) + (match reps[0] {
            Some(t) => t,
            None => doc.subrange(spans[0].start as int, spans[0].end as int),
        }) + splice_from(doc, spans.drop_first(), reps.drop_first(), spans[0].end as int)
    }
}

/// The whole document with every replaced span spliced in.
pub open spec fn splice_spec(
    doc: Seq<char>,
    spans: Seq<SpanRec>,
    reps: Seq<Option<Seq<char>>>,
) -> Seq<char> {
    splice_from(doc, spans, reps, 0)
}

/// Splices replacements over the recorded spans. A span whose replacement is
/// absent keeps its original text; everything between and around the spans
/// is carried over unchanged, whatever the replacements' lengths.
pub fn splice_document(
    doc: &Vec<char>,
    spans: &Vec<SpanRec>,
    reps: &Vec<Option<Vec<char>>>,
) -> (r: Vec<char>)
    requires
        spans_wf(spans@, doc@.len() as int),
        reps@.len() == spans@.len(),
    ensures
        r@ == splice_spec(doc@, spans@, reps.deep_view()),
{
    let mut out: Vec<char> = Vec::new();
    let mut pos: usize = 0;
    let mut i: usize = 0;
    proof {
        assert(spans@.skip(0) =~= spans@);
        assert(reps.deep_view().skip(0) =~= reps.deep_view());
        assert(reps.deep_view().len() == reps@.len());
    }
    while i < spans.len()
        invariant
            0 <= i <= spans@.len(),
            reps@.len() == spans@.len(),
            reps.deep_view().len() == spans@.len(),
            spans_wf(spans@, doc@.len() as int),
            pos <= doc@.len(),
            i < spans@.len() ==> pos <= spans@[i as int].start,
            splice_spec(doc@, spans@, reps.deep_view()) == out@ + splice_from(
                doc@,
                spans@.skip(i as int),
                reps.deep_view().skip(i as int),
                pos as int,
            ),
        decreases spans@.len() - i,
    {
        let ghost tail_spans = spans@.skip(i as int);
        let ghost tail_reps = reps.deep_view().skip(i as int);
        proof {
            assert(tail_spans[0] == spans@[i as int]);
            assert(tail_reps[0] == reps.deep_view()[i as int]);
            assert(tail_spans.drop_first() =~= spans@.skip(i + 1));
            assert(tail_reps.drop_first() =~= reps.deep_view().skip(i + 1));
            assert(reps.deep_view()[i as int] == reps@[i as int].deep_view());
        }
        let s = spans[i].start;
        let e = spans[i].end;
        let gap = sub_vec(doc, pos, s);
        crate::text::push_all(&mut out, &gap);
        match &reps[i] {
            Some(t) => {
                crate::text::push_all(&mut out, t);
            },
            None => {
                let orig = sub_vec(doc, s, e);
                crate::text::push_all(&mut out, &orig);
            },
        }
        pos = e;
        proof {
            if i + 1 < spans@.len() {
                assert(spans@[i as int].end <= spans@[i + 1].start);
            }
        }
        i = i + 1;
    }
    let rest = sub_vec(doc, pos, doc.len());
    crate::text::push_all(&mut out, &rest);
    proof {
        assert(spans@.skip(i as int) =~= Seq::<SpanRec>::empty());
        assert(doc@.subrange(pos as int, doc@.len() as int) =~= doc@.skip(pos as int));
    }
    out
}

pub open spec fn is_word_char(c: char) -> bool {
    (97 <= c as u32 && c as u32 <= 122) || (65 <= c as u32 && c as u32 <= 90) || (48 <= c as u32
        && c as u32 <= 57) || c == '_'
}

/// A dotted localization key, such as `item.mod.name`: two or more groups of
/// word characters separated by single dots. A document whose first
/// candidate value has this shape references external keys and is skipped.
pub open spec fn is_dotted_key(s: Seq<char>) -> bool {
    &&& s.len() > 0
    &&& is_word_char(s[0])
    &&& is_word_char(s.last())
    &&& forall|i: int| 0 <= i < s.len() ==> (is_word_char(#[trigger] s[i]) || s[i] == '.')
    &&& exists|i: int| 0 <= i < s.len() && s[i] == '.'
    &&& forall|i: int| 0 <= i < s.len() - 1 ==> !((#[trigger] s[i]) == '.' && s[i + 1] == '.')
}

fn is_word_char_exec(c: char) -> (r: bool)
    ensures
        r == is_word_char(c),
{
    let u = c as u32;
    (97 <= u && u <= 122) || (65 <= u && u <= 90) || (48 <= u && u <= 57) || c == '_'
}

pub fn is_dotted_key_chars(s: &Vec<char>) -> (r: bool)
    ensures
        r == is_dotted_key(s@),
{
    if s.len() == 0 {
        return false;
    }
    if !is_word_char_exec(s[0]) {
        return false;
    }
    if !is_word_char_exec(s[s.len() - 1]) {
        return false;
    }
    let mut has_dot: bool = false;
    let mut i: usize = 0;
    while i < s.len()
        invariant
            0 <= i <= s@.len(),
            forall|j: int| 0 <= j < i ==> (is_word_char(#[trigger] s@[j]) || s@[j] == '.'),
            forall|j: int| 0 <= j < i - 1 ==> !((#[trigger] s@[j]) == '.' && s@[j + 1] == '.'),
            has_dot == exists|j: int| 0 <= j < i && s@[j] == '.',
        decreases s@.len() - i,
    {
        let c = s[i];
        if !is_word_char_exec(c) && c != '.' {
            return false;
        }
        if i > 0 && c == '.' && s[i - 1] == '.' {
            return false;
        }
        if c == '.' {
            has_dot = true;
        }
        i = i + 1;
    }
    has_dot
}

/// What the translation run hands back for a span's key: the escaped text
/// when the key came back with non-empty text, nothing otherwise — an absent
/// or empty translation leaves the original text in place.
pub open spec fn replacement_for(
    m: Map<Seq<char>, ValueModel>,
    key: Seq<char>,
) -> Option<Seq<char>> {
    if m.contains_key(key) && (m[key] matches ValueModel::Text(t) && t.len() > 0) {
        Some(json_escape(text_of_model(m[key])))
    } else {
        None
    }
}

pub open spec fn text_of_model(v: ValueModel) -> Seq<char> {
    match v {
        ValueModel::Text(t) => t,
        ValueModel::Opaque(t) => t,
    }
}

/// Splices every translated span of `spans` back into the document: each
/// span with a non-empty translation under its key gets that translation,
/// escaped for the document's quoting rules; every other span keeps its
/// original text.
pub fn apply_translations(doc: &Vec<char>, spans: &Vec<SpanRec>, translated: &Mapping) -> (r: Vec<
    char,
>)
    requires
        spans_wf(spans@, doc@.len() as int),
        translated.wf(),
    ensures
        r@ == splice_spec(
            doc@,
            spans@,
            Seq::new(spans@.len(), |i: int| replacement_for(translated@, spans@[i].key@)),
        ),
{
    let mut reps: Vec<Option<Vec<char>>> = Vec::new();
    let mut i: usize = 0;
    while i < spans.len()
        invariant
            0 <= i <= spans@.len(),
            translated.wf(),
            reps@.len() == i,
            forall|j: int|
                0 <= j < i ==> (#[trigger] reps@[j]).deep_view() == replacement_for(
                    translated@,
                    spans@[j].key@,
                ),
        decreases spans@.len() - i,
    {
        let hit = translated.get(spans[i].key.as_str());
        let ghost expected = replacement_for(translated@, spans@[i as int].key@);
        let mut rep: Option<Vec<char>> = None;
        match hit {
            Some(v) => {
                match v {
                    EntryValue::Text(t) => {
                        if t.as_str().unicode_len() > 0 {
                            let tv = crate::text::chars_of(t.as_str());
                            let esc = json_escape_chars(&tv);
                            proof {
                                assert(esc.deep_view() =~= esc@);
                            }
                            rep = Some(esc);
                        }
                    },
                    EntryValue::Opaque(_) => {},
                }
            },
            None => {},
        }
        proof {
            assert(rep.deep_view() == expected);
        }
        reps.push(rep);
        i = i + 1;
    }
    proof {
        assert forall|j: int| 0 <= j < spans@.len() implies reps.deep_view()[j]
            == replacement_for(translated@, spans@[j].key@) by {
            assert(reps.deep_view()[j] == reps@[j].deep_view());
        }
    }
    let out = splice_document(doc, spans, &reps);
    proof {
        assert(reps.deep_view() =~= Seq::new(
            spans@.len(),
            |i: int| replacement_for(translated@, spans@[i].key@),
        ));
    }
    out
}

/// Merges two span lists, each ordered and disjoint, into one ordered
/// disjoint list. A span that overlaps one already placed is dropped: the
/// pattern-based extraction can only produce such spans from pathologically
/// nested documents, a known limitation it fails safe on.
pub fn merge_spans(a: &Vec<SpanRec>, b: &Vec<SpanRec>, doc_len: usize) -> (r: Vec<SpanRec>)
    requires
        spans_wf(a@, doc_len as int),
        spans_wf(b@, doc_len as int),
    ensures
        spans_wf(r@, doc_len as int),
        forall|t: int|
            0 <= t < r@.len() ==> span_in(#[trigger] r@[t], a@) || span_in(r@[t], b@),
        cross_disjoint(a@, b@) && spans_nonempty(a@) && spans_nonempty(b@) ==> r@.len() == a@.len()
            + b@.len(),
{
    let ghost clean = cross_disjoint(a@, b@) && spans_nonempty(a@) && spans_nonempty(b@);
    let mut out: Vec<SpanRec> = Vec::new();
    let mut ia: usize = 0;
    let mut ib: usize = 0;
    let mut last_end: usize = 0;
    while ia < a.len() || ib < b.len()
        invariant
            0 <= ia <= a@.len(),
            0 <= ib <= b@.len(),
            spans_wf(a@, doc_len as int),
            spans_wf(b@, doc_len as int),
            spans_wf(out@, doc_len as int),
            last_end <= doc_len,
            out@.len() > 0 ==> out@.last().end <= last_end,
            forall|t: int|
                0 <= t < out@.len() ==> span_in(#[trigger] out@[t], a@) || span_in(out@[t], b@),
            clean == (cross_disjoint(a@, b@) && spans_nonempty(a@) && spans_nonempty(b@)),
            clean ==> out@.len() == ia + ib,
            clean && ia < a@.len() ==> last_end <= a@[ia as int].start,
            clean && ib < b@.len() ==> last_end <= b@[ib as int].start,
        decreases (a@.len() - ia) + (b@.len() - ib),
    {
        let take_a: bool = if ib >= b.len() {
            true
        } else if ia >= a.len() {
            false
        } else {
            a[ia].start <= b[ib].start
        };
        if take_a {
            let s = a[ia].start;
            let e = a[ia].end;
            if s >= last_end {
                let rec = SpanRec { start: s, end: e, key: a[ia].key.clone() };
                proof {
                    assert(span_in(rec, a@)) by {
                        assert(a@[ia as int].start == rec.start && a@[ia as int].end == rec.end
                            && a@[ia as int].key@ == rec.key@);
                    }
                }
                out.push(rec);
                last_end = e;
            }
            proof {
                if clean && ib < b@.len() {
                    assert(a@[ia as int].end <= b@[ib as int].start || b@[ib as int].end
                        <= a@[ia as int].start);
                    assert(b@[ib as int].start < b@[ib as int].end);
                }
            }
            ia = ia + 1;
        } else {
            let s = b[ib].start;
            let e = b[ib].end;
            if s >= last_end {
                let rec = SpanRec { start: s, end: e, key: b[ib].key.clone() };
                proof {
                    assert(span_in(rec, b@)) by {
                        assert(b@[ib as int].start == rec.start && b@[ib as int].end == rec.end
                            && b@[ib as int].key@ == rec.key@);
                    }
                }
                out.push(rec);
                last_end = e;
            }
            proof {
                if clean && ia < a@.len() {
                    assert(a@[ia as int].end <= b@[ib as int].start || b@[ib as int].end
                        <= a@[ia as int].start);
                    assert(a@[ia as int].start < a@[ia as int].end);
                }
            }
            ib = ib + 1;
        }
    }
    out
}

/// No span of one list overlaps a span of the other.
pub open spec fn cross_disjoint(a: Seq<SpanRec>, b: Seq<SpanRec>) -> bool {
    forall|i: int, j: int|
        0 <= i < a.len() && 0 <= j < b.len() ==> ((#[trigger] a[i]).end <= (#[trigger] b[j]).start
            || b[j].end <= a[i].start)
}

pub open spec fn spans_nonempty(a: Seq<SpanRec>) -> bool {
    forall|i: int| 0 <= i < a.len() ==> (#[trigger] a[i]).start < a[i].end
}

/// The span occurs, field for field, in the list.
pub open spec fn span_in(s: SpanRec, xs: Seq<SpanRec>) -> bool {
    exists|j: int|
        0 <= j < xs.len() && (#[trigger] xs[j]).start == s.start && xs[j].end == s.end
            && xs[j].key@ == s.key@
}

/// Whether a character has the Unicode `Alphabetic` property; a span without
/// one is formatting only and not worth a remote call.
pub uninterp spec fn is_alpha(c: char) -> bool;

/// Relies on `char::is_alphabetic`: the property depends on the character
/// alone, and the ASCII letters have it.
#[verifier::external_body]
fn is_alphabetic_char(c: char) -> (r: bool)
    ensures
        r == is_alpha(c),
        (65 <= c as u32 && c as u32 <= 90) || (97 <= c as u32 && c as u32 <= 122) ==> r,
{
    c.is_alphabetic()
}

/// Some character of the text is alphabetic.
pub open spec fn has_alpha_in(s: Seq<char>) -> bool {
    exists|i: int| 0 <= i < s.len() && is_alpha(#[trigger] s[i])
}

fn has_alpha(s: &Vec<char>) -> (r: bool)
    ensures
        r == has_alpha_in(s@),
{
    let mut i: usize = 0;
    while i < s.len()
        invariant
            0 <= i <= s@.len(),
            forall|j: int| 0 <= j < i ==> !is_alpha(#[trigger] s@[j]),
        decreases s@.len() - i,
    {
        if is_alphabetic_char(s[i]) {
            return true;
        }
        i = i + 1;
    }
    false
}

/// The first position at or after `i` that does not hold white space.
pub open spec fn spec_skip_spaces(doc: Seq<char>, i: int) -> int
    decreases doc.len() - i,
{
    if 0 <= i < doc.len() && crate::text::is_space(doc[i]) {
        spec_skip_spaces(doc, i + 1)
    } else {
        i
    }
}

/// Skips the white space the field patterns allow around `:`.
fn skip_spaces(doc: &Vec<char>, from: usize) -> (r: usize)
    requires
        from <= doc@.len(),
    ensures
        from <= r <= doc@.len(),
        r == spec_skip_spaces(doc@, from as int),
{
    let mut i: usize = from;
    while i < doc.len() && crate::text::is_space_char(doc[i])
        invariant
            from <= i <= doc@.len(),
            spec_skip_spaces(doc@, from as int) == spec_skip_spaces(doc@, i as int),
        decreases doc@.len() - i,
    {
        i = i + 1;
    }
    i
}

/// The first position in `[from, limit)` holding `c`, or `limit` when none
/// does.
pub open spec fn spec_find_char(doc: Seq<char>, from: int, limit: int, c: char) -> int
    decreases limit - from,
{
    if from < limit {
        if 0 <= from < doc.len() && doc[from] == c {
            from
        } else {
            spec_find_char(doc, from + 1, limit, c)
        }
    } else {
        limit
    }
}

/// Where a quoted string whose content starts at `j` closes: the first
/// `'"'`, with a backslash escaping the character after it; `None` when the
/// quote never closes before `limit`.
pub open spec fn spec_close_quote(doc: Seq<char>, j: int, limit: int) -> Option<int>
    decreases limit - j,
{
    if j < 0 || j >= limit || limit > doc.len() {
        None
    } else if doc[j] == '"' {
        Some(j)
    } else if doc[j] == '\\' {
        if j + 1 < limit {
            spec_close_quote(doc, j + 2, limit)
        } else {
            None
        }
    } else {
        spec_close_quote(doc, j + 1, limit)
    }
}

/// The content range of the next complete quoted string at or after `from`
/// and closed before `limit`.
pub open spec fn spec_scan_quoted(doc: Seq<char>, from: int, limit: int) -> Option<(int, int)> {
    let i = spec_find_char(doc, from, limit, '"');
    if i >= limit {
        None
    } else {
        match spec_close_quote(doc, i + 1, limit) {
            Some(ce) => Some((i + 1, ce)),
            None => None,
        }
    }
}

/// The next complete quoted string at or after `from`, closed before
/// `limit`: a `'"'` opens it, a backslash escapes the following character,
/// and the first unescaped `'"'` closes it. The returned range holds the
/// content between the quotes.
fn scan_quoted_bounded(doc: &Vec<char>, from: usize, limit: usize) -> (r: Option<(usize, usize)>)
    requires
        from <= limit <= doc@.len(),
    ensures
        match r {
            Some(range) => from < range.0 <= range.1 < limit && doc@[range.0 - 1] == '"'
                && doc@[range.1 as int] == '"' && spec_scan_quoted(
                doc@,
                from as int,
                limit as int,
            ) == Some((range.0 as int, range.1 as int)),
            None => spec_scan_quoted(doc@, from as int, limit as int) is None,
        },
{
    let mut i: usize = from;
    while i < limit && doc[i] != '"'
        invariant
            from <= i <= limit,
            limit <= doc@.len(),
            spec_find_char(doc@, from as int, limit as int, '"') == spec_find_char(
                doc@,
                i as int,
                limit as int,
                '"',
            ),
        decreases limit - i,
    {
        i = i + 1;
    }
    if i >= limit {
        return None;
    }
    proof {
        assert(spec_find_char(doc@, i as int, limit as int, '"') == i);
    }
    let cs = i + 1;
    let mut j: usize = cs;
    while j < limit
        invariant
            cs <= j <= limit,
            cs == i + 1,
            from <= i < limit <= doc@.len(),
            doc@[i as int] == '"',
            spec_find_char(doc@, from as int, limit as int, '"') == i,
            spec_close_quote(doc@, cs as int, limit as int) == spec_close_quote(
                doc@,
                j as int,
                limit as int,
            ),
        decreases limit - j,
    {
        let c = doc[j];
        if c == '"' {
            return Some((cs, j));
        }
        if c == '\\' {
            if j + 1 < limit {
                j = j + 2;
            } else {
                return None;
            }
        } else {
            j = j + 1;
        }
    }
    None
}

/// A fresh running key cannot already be in the mapping whose keys are the
/// decimals of the smaller numbers.
proof fn lemma_fresh_counter_key(texts: Mapping, counter: int)
    requires
        texts.wf(),
        counter >= 0,
        texts.entries().len() == counter,
        forall|t: int| 0 <= t < counter ==> (#[trigger] texts.entries()[t]).0 == dec_of(t as nat),
    ensures
        !texts@.contains_key(dec_of(counter as nat)),
{
    crate::mapping::lemma_map_of_contains(texts.entries(), dec_of(counter as nat));
    if texts@.contains_key(dec_of(counter as nat)) {
        let t = choose|t: int|
            0 <= t < texts.entries().len() && texts.entries()[t].0 == dec_of(counter as nat);
        lemma_dec_of_value(t as nat);
        lemma_dec_of_value(counter as nat);
        assert(dec_val(dec_of(t as nat)) == dec_val(dec_of(counter as nat)));
    }
}

/// What the scanners accept: a span sitting between two quote characters
/// whose text is not blank and holds at least one alphabetic character.
pub open spec fn accepted_span(doc: Seq<char>, s: SpanRec) -> bool {
    &&& 1 <= s.start
    &&& s.end < doc.len()
    &&& doc[s.start - 1] == '"'
    &&& doc[s.end as int] == '"'
    &&& !crate::text::is_blank(doc.subrange(s.start as int, s.end as int))
    &&& has_alpha_in(doc.subrange(s.start as int, s.end as int))
}

/// Whether the single-line field pattern matches at `p`, and its quoted
/// value's content range when it does: a `title` or `subtitle` keyword,
/// optional white space, `':'`, optional white space, then a quoted string.
pub open spec fn field_match_at(doc: Seq<char>, p: int) -> Option<(int, int)> {
    if match_at(doc, "subtitle"@, p) || match_at(doc, "title"@, p) {
        let kwlen: int = if match_at(doc, "subtitle"@, p) {
            8
        } else {
            5
        };
        let q = spec_skip_spaces(doc, p + kwlen);
        if q >= doc.len() || doc[q] != ':' {
            None
        } else {
            let q2 = spec_skip_spaces(doc, q + 1);
            if q2 >= doc.len() || doc[q2] != '"' {
                None
            } else {
                spec_scan_quoted(doc, q2, doc.len() as int)
            }
        }
    } else {
        None
    }
}

/// The content ranges the field scan accepts from position `p` on, given how
/// many spans were accepted before; `None` when the indirection guard fires,
/// which it can only do while nothing has been accepted yet.
pub open spec fn field_scan_from(doc: Seq<char>, p: int, accepted: nat) -> Option<Seq<(int, int)>>
    decreases doc.len() - p,
{
    if p >= doc.len() || p < 0 {
        Some(Seq::empty())
    } else {
        match field_match_at(doc, p) {
            None => field_scan_from(doc, p + 1, accepted),
            Some(r) => {
                if !(p < r.0 <= r.1 < doc.len()) {
                    // the pattern only ever yields ordered in-range positions
                    field_scan_from(doc, p + 1, accepted)
                } else {
                    let content = doc.subrange(r.0, r.1);
                    if accepted == 0 && is_dotted_key(content) {
                        None
                    } else if is_blank(content) || !has_alpha_in(content) {
                        field_scan_from(doc, r.1 + 1, accepted)
                    } else {
                        match field_scan_from(doc, r.1 + 1, (accepted + 1) as nat) {
                            Some(rest) => Some(seq![(r.0, r.1)] + rest),
                            None => None,
                        }
                    }
                }
            },
        }
    }
}

/// Whether the list-block pattern matches at `p`, and the block's content
/// range when it does: `desc` or `description`, optional white space, `':'`,
/// optional white space, `'['`, then everything up to the first `']'`.
pub open spec fn block_match_at(doc: Seq<char>, p: int) -> Option<(int, int)> {
    if match_at(doc, "desc"@, p) {
        let q0: int = p + 4 + (if match_at(doc, "ription"@, p + 4) {
            7int
        } else {
            0int
        });
        let q1 = spec_skip_spaces(doc, q0);
        if q1 >= doc.len() || doc[q1] != ':' {
            None
        } else {
            let q2 = spec_skip_spaces(doc, q1 + 1);
            if q2 >= doc.len() || doc[q2] != '[' {
                None
            } else {
                let be = spec_find_char(doc, q2 + 1, doc.len() as int, ']');
                if be >= doc.len() {
                    None
                } else {
                    Some((q2 + 1, be))
                }
            }
        }
    } else {
        None
    }
}

/// The content ranges of the quoted strings inside one block, scanned from
/// `pos` up to the block's closing bracket at `be`; `None` when the
/// indirection guard fires.
pub open spec fn strings_in_block(doc: Seq<char>, pos: int, be: int, accepted: nat) -> Option<
    Seq<(int, int)>,
>
    decreases be - pos,
{
    match spec_scan_quoted(doc, pos, be) {
        None => Some(Seq::empty()),
        Some(r) => {
            if !(pos < r.0 <= r.1 < be) {
                Some(Seq::empty())
            } else {
                let content = doc.subrange(r.0, r.1);
                if accepted == 0 && is_dotted_key(content) {
                    None
                } else if is_blank(content) || !has_alpha_in(content) {
                    strings_in_block(doc, r.1 + 1, be, accepted)
                } else {
                    match strings_in_block(doc, r.1 + 1, be, (accepted + 1) as nat) {
                        Some(rest) => Some(seq![(r.0, r.1)] + rest),
                        None => None,
                    }
                }
            }
        },
    }
}

/// The content ranges the block scan accepts from position `p` on.
pub open spec fn block_scan_from(doc: Seq<char>, p: int, accepted: nat) -> Option<Seq<(int, int)>>
    decreases doc.len() - p,
{
    if p >= doc.len() || p < 0 {
        Some(Seq::empty())
    } else {
        match block_match_at(doc, p) {
            None => block_scan_from(doc, p + 1, accepted),
            Some(r) => {
                if !(p < r.0 <= r.1 < doc.len()) {
                    block_scan_from(doc, p + 1, accepted)
                } else {
                    match strings_in_block(doc, r.0, r.1, accepted) {
                        None => None,
                        Some(inner) => match block_scan_from(
                            doc,
                            r.1 + 1,
                            (accepted + inner.len()) as nat,
                        ) {
                            None => None,
                            Some(rest) => Some(inner + rest),
                        },
                    }
                }
            },
        }
    }
}

/// What the locator makes of a whole document: `None` when the indirection
/// guard fires during either pass, else the field ranges and the block
/// ranges, each in document order.
pub open spec fn spec_extract(doc: Seq<char>) -> Option<(Seq<(int, int)>, Seq<(int, int)>)> {
    match field_scan_from(doc, 0, 0) {
        None => None,
        Some(fr) => match block_scan_from(doc, 0, fr.len() as nat) {
            None => None,
            Some(br) => Some((fr, br)),
        },
    }
}

/// The start/end ranges of a span list.
pub open spec fn ranges_of(spans: Seq<SpanRec>) -> Seq<(int, int)> {
    Seq::new(spans.len(), |t: int| (spans[t].start as int, spans[t].end as int))
}

pub open spec fn prepend_ranges(a: Seq<(int, int)>, o: Option<Seq<(int, int)>>) -> Option<
    Seq<(int, int)>,
> {
    match o {
        Some(r) => Some(a + r),
        None => None,
    }
}

/// What is still owed once a block has been entered: the rest of its inner
/// strings, then the blocks after it, appended to what `done` already holds.
pub open spec fn block_tail(
    doc: Seq<char>,
    done: Seq<(int, int)>,
    pos: int,
    be: int,
    n: nat,
) -> Option<Seq<(int, int)>> {
    match strings_in_block(doc, pos, be, n) {
        None => None,
        Some(inner) => match block_scan_from(doc, be + 1, (n + inner.len()) as nat) {
            None => None,
            Some(rest) => Some(done + inner + rest),
        },
    }
}

/// Attempts the single-line field pattern at `p`.
fn try_field_at(
    doc: &Vec<char>,
    p: usize,
    subtitle_pat: &Vec<char>,
    title_pat: &Vec<char>,
) -> (r: Option<(usize, usize)>)
    requires
        p < doc@.len(),
        subtitle_pat@ == "subtitle"@,
        title_pat@ == "title"@,
    ensures
        match r {
            Some(range) => field_match_at(doc@, p as int) == Some(
                (range.0 as int, range.1 as int),
            ) && p < range.0 <= range.1 < doc@.len() && doc@[range.0 - 1] == '"'
                && doc@[range.1 as int] == '"',
            None => field_match_at(doc@, p as int) is None,
        },
{
    proof {
        reveal_strlit("subtitle");
        reveal_strlit("title");
    }
    let hit_len: usize = if matches_at(doc, subtitle_pat, p) {
        subtitle_pat.len()
    } else if matches_at(doc, title_pat, p) {
        title_pat.len()
    } else {
        return None;
    };
    proof {
        assert(p + hit_len <= doc.len());
    }
    let q = skip_spaces(doc, p + hit_len);
    if q >= doc.len() {
        return None;
    }
    if doc[q] != ':' {
        return None;
    }
    let q2 = skip_spaces(doc, q + 1);
    if q2 >= doc.len() {
        return None;
    }
    if doc[q2] != '"' {
        return None;
    }
    scan_quoted_bounded(doc, q2, doc.len())
}

/// Attempts the list-block pattern at `p`.
fn try_block_at(
    doc: &Vec<char>,
    p: usize,
    desc_pat: &Vec<char>,
    ription_pat: &Vec<char>,
) -> (r: Option<(usize, usize)>)
    requires
        p < doc@.len(),
        desc_pat@ == "desc"@,
        ription_pat@ == "ription"@,
    ensures
        match r {
            Some(range) => block_match_at(doc@, p as int) == Some(
                (range.0 as int, range.1 as int),
            ) && p < range.0 <= range.1 < doc@.len(),
            None => block_match_at(doc@, p as int) is None,
        },
{
    proof {
        reveal_strlit("desc");
        reveal_strlit("ription");
    }
    if !matches_at(doc, desc_pat, p) {
        return None;
    }
    proof {
        assert(p + desc_pat.len() <= doc.len());
    }
    let mut q0 = p + desc_pat.len();
    if matches_at(doc, ription_pat, q0) {
        proof {
            assert(q0 + ription_pat.len() <= doc.len());
        }
        q0 = q0 + ription_pat.len();
    }
    let q1 = skip_spaces(doc, q0);
    if q1 >= doc.len() {
        return None;
    }
    if doc[q1] != ':' {
        return None;
    }
    let q2 = skip_spaces(doc, q1 + 1);
    if q2 >= doc.len() {
        return None;
    }
    if doc[q2] != '[' {
        return None;
    }
    let bs = q2 + 1;
    let mut be: usize = bs;
    while be < doc.len() && doc[be] != ']'
        invariant
            bs <= be <= doc@.len(),
            spec_find_char(doc@, bs as int, doc@.len() as int, ']') == spec_find_char(
                doc@,
                be as int,
                doc@.len() as int,
                ']',
            ),
        decreases doc@.len() - be,
    {
        be = be + 1;
    }
    if be >= doc.len() {
        return None;
    }
    proof {
        assert(spec_find_char(doc@, be as int, doc@.len() as int, ']') == be);
    }
    Some((bs, be))
}

/// Scans the whole document for single-line `title: "..."` and
/// `subtitle: "..."` fields, left to right, accepting exactly the ranges
/// `field_scan_from` describes. Returns false exactly when the indirection
/// guard fires: a dotted-key value seen while nothing was accepted yet.
#[verifier::rlimit(50)]
fn scan_fields(doc: &Vec<char>, texts: &mut Mapping, spans: &mut Vec<SpanRec>) -> (ok: bool)
    requires
        old(texts).wf(),
        old(texts).entries().len() == 0,
        old(spans)@.len() == 0,
    ensures
        final(texts).wf(),
        ok <==> field_scan_from(doc@, 0, 0) is Some,
        ok ==> {
            &&& ranges_of(final(spans)@) == field_scan_from(doc@, 0, 0)->Some_0
            &&& spans_wf(final(spans)@, doc@.len() as int)
            &&& final(spans)@.len() <= doc@.len()
            &&& final(texts).entries().len() == final(spans)@.len()
            &&& forall|t: int|
                0 <= t < final(spans)@.len() ==> accepted_span(doc@, #[trigger] final(spans)@[t])
            &&& forall|t: int|
                0 <= t < final(spans)@.len() ==> (#[trigger] final(spans)@[t]).key@ == dec_of(
                    t as nat,
                )
            &&& forall|t: int|
                0 <= t < final(spans)@.len() ==> #[trigger] final(texts).entries()[t] == (
                dec_of(t as nat),
                ValueModel::Text(
                    doc@.subrange(
                        final(spans)@[t].start as int,
                        final(spans)@[t].end as int,
                    ),
                ),
            )
        },
{
    let title_pat = crate::text::chars_of("title");
    let subtitle_pat = crate::text::chars_of("subtitle");
    let mut p: usize = 0;
    proof {
        assert(ranges_of(spans@) =~= Seq::<(int, int)>::empty());
        match field_scan_from(doc@, 0, 0) {
            Some(r) => {
                assert(Seq::<(int, int)>::empty() + r =~= r);
            },
            None => {},
        }
    }
    while p < doc.len()
        invariant
            0 <= p <= doc@.len(),
            subtitle_pat@ == "subtitle"@,
            title_pat@ == "title"@,
            texts.wf(),
            spans_wf(spans@, doc@.len() as int),
            spans@.len() <= p,
            texts.entries().len() == spans@.len(),
            field_scan_from(doc@, 0, 0) == prepend_ranges(
                ranges_of(spans@),
                field_scan_from(doc@, p as int, spans@.len() as nat),
            ),
            forall|t: int| 0 <= t < spans@.len() ==> (#[trigger] spans@[t]).end < p,
            forall|t: int| 0 <= t < spans@.len() ==> accepted_span(doc@, #[trigger] spans@[t]),
            forall|t: int|
                0 <= t < spans@.len() ==> (#[trigger] spans@[t]).key@ == dec_of(t as nat),
            forall|t: int|
                0 <= t < spans@.len() ==> #[trigger] texts.entries()[t] == (
                dec_of(t as nat),
                ValueModel::Text(
                    doc@.subrange(spans@[t].start as int, spans@[t].end as int),
                ),
            ),
        decreases doc@.len() - p,
    {
        let ghost n0 = spans@.len() as nat;
        let attempt = try_field_at(doc, p, &subtitle_pat, &title_pat);
        match attempt {
            None => {
                proof {
                    assert(field_scan_from(doc@, p as int, n0) == field_scan_from(
                        doc@,
                        p + 1,
                        n0,
                    ));
                }
                p = p + 1;
            },
            Some((cs, ce)) => {
                let content = sub_vec(doc, cs, ce);
                if spans.len() == 0 && is_dotted_key_chars(&content) {
                    proof {
                        assert(field_scan_from(doc@, p as int, n0) is None);
                    }
                    return false;
                }
                if is_blank_chars(&content) || !has_alpha(&content) {
                    proof {
                        assert(field_scan_from(doc@, p as int, n0) == field_scan_from(
                            doc@,
                            ce + 1,
                            n0,
                        ));
                    }
                    p = ce + 1;
                } else {
                    let idx = spans.len();
                    proof {
                        lemma_fresh_counter_key(*texts, idx as int);
                    }
                    let key_chars = to_decimal(idx);
                    let key = string_of(&key_chars);
                    let ghost ranges0 = ranges_of(spans@);
                    texts.insert(key.clone(), EntryValue::Text(string_of(&content)));
                    spans.push(SpanRec { start: cs, end: ce, key });
                    proof {
                        assert(ranges_of(spans@) =~= ranges0.push((cs as int, ce as int)));
                        assert(field_scan_from(doc@, p as int, n0) == (
                        match field_scan_from(doc@, ce + 1, (n0 + 1) as nat) {
                            Some(rest) => Some(seq![(cs as int, ce as int)] + rest),
                            None => None,
                        }));
                        match field_scan_from(doc@, ce + 1, (n0 + 1) as nat) {
                            Some(rest) => {
                                assert(ranges0 + (seq![(cs as int, ce as int)] + rest)
                                    =~= ranges_of(spans@) + rest);
                            },
                            None => {},
                        }
                    }
                    p = ce + 1;
                }
            },
        }
    }
    proof {
        assert(field_scan_from(doc@, p as int, spans@.len() as nat) == Some(
            Seq::<(int, int)>::empty(),
        ));
        assert(ranges_of(spans@) + Seq::<(int, int)>::empty() =~= ranges_of(spans@));
    }
    true
}

/// Scans the whole document for `desc`/`description` list blocks and every
/// quoted string inside them, continuing the running key at `base` and
/// accepting exactly the ranges `block_scan_from` describes. Returns false
/// exactly when the indirection guard fires, which is only possible while no
/// span at all has been accepted (`base == 0` included).
#[verifier::rlimit(80)]
fn scan_blocks(doc: &Vec<char>, texts: &mut Mapping, spans: &mut Vec<SpanRec>, base: usize) -> (ok:
    bool)
    requires
        old(texts).wf(),
        old(texts).entries().len() == base,
        base + doc@.len() + 1 < usize::MAX,
        forall|t: int|
            0 <= t < base ==> (#[trigger] old(texts).entries()[t]).0 == dec_of(t as nat),
        old(spans)@.len() == 0,
    ensures
        final(texts).wf(),
        ok <==> block_scan_from(doc@, 0, base as nat) is Some,
        ok ==> {
            &&& ranges_of(final(spans)@) == block_scan_from(doc@, 0, base as nat)->Some_0
            &&& spans_wf(final(spans)@, doc@.len() as int)
            &&& final(texts).entries().len() == base + final(spans)@.len()
            &&& final(texts).entries().take(base as int) == old(texts).entries()
            &&& forall|t: int|
                0 <= t < final(spans)@.len() ==> accepted_span(doc@, #[trigger] final(spans)@[t])
            &&& forall|t: int|
                0 <= t < final(spans)@.len() ==> (#[trigger] final(spans)@[t]).key@ == dec_of(
                    (base + t) as nat,
                )
            &&& forall|t: int|
                0 <= t < final(spans)@.len() ==> #[trigger] final(texts).entries()[base + t] == (
                dec_of((base + t) as nat),
                ValueModel::Text(
                    doc@.subrange(
                        final(spans)@[t].start as int,
                        final(spans)@[t].end as int,
                    ),
                ),
            )
        },
{
    let desc_pat = crate::text::chars_of("desc");
    let ription_pat = crate::text::chars_of("ription");
    let mut p: usize = 0;
    proof {
        assert(ranges_of(spans@) =~= Seq::<(int, int)>::empty());
        match block_scan_from(doc@, 0, base as nat) {
            Some(r) => {
                assert(Seq::<(int, int)>::empty() + r =~= r);
            },
            None => {},
        }
    }
    while p < doc.len()
        invariant
            0 <= p <= doc@.len(),
            desc_pat@ == "desc"@,
            ription_pat@ == "ription"@,
            base + doc@.len() + 1 < usize::MAX,
            texts.wf(),
            spans_wf(spans@, doc@.len() as int),
            spans@.len() <= p,
            texts.entries().len() == base + spans@.len(),
            texts.entries().take(base as int) == old(texts).entries(),
            block_scan_from(doc@, 0, base as nat) == prepend_ranges(
                ranges_of(spans@),
                block_scan_from(doc@, p as int, (base + spans@.len()) as nat),
            ),
            forall|t: int| 0 <= t < spans@.len() ==> (#[trigger] spans@[t]).end < p,
            forall|t: int| 0 <= t < spans@.len() ==> accepted_span(doc@, #[trigger] spans@[t]),
            forall|t: int|
                0 <= t < base + spans@.len() ==> (#[trigger] texts.entries()[t]).0 == dec_of(
                    t as nat,
                ),
            forall|t: int|
                0 <= t < spans@.len() ==> (#[trigger] spans@[t]).key@ == dec_of((base + t) as nat),
            forall|t: int|
                0 <= t < spans@.len() ==> #[trigger] texts.entries()[base + t] == (
                dec_of((base + t) as nat),
                ValueModel::Text(
                    doc@.subrange(spans@[t].start as int, spans@[t].end as int),
                ),
            ),
        decreases doc@.len() - p,
    {
        let ghost n0 = (base + spans@.len()) as nat;
        let attempt = try_block_at(doc, p, &desc_pat, &ription_pat);
        let (bs, be) = match attempt {
            None => {
                proof {
                    assert(block_scan_from(doc@, p as int, n0) == block_scan_from(
                        doc@,
                        p + 1,
                        n0,
                    ));
                }
                p = p + 1;
                continue ;
            },
            Some(range) => range,
        };
        proof {
            let bt = block_tail(doc@, ranges_of(spans@), bs as int, be as int, n0);
            match strings_in_block(doc@, bs as int, be as int, n0) {
                None => {},
                Some(inner) => {
                    match block_scan_from(doc@, be + 1, (n0 + inner.len()) as nat) {
                        None => {},
                        Some(rest) => {
                            assert(ranges_of(spans@) + (inner + rest) =~= ranges_of(spans@)
                                + inner + rest);
                        },
                    }
                },
            }
            assert(block_scan_from(doc@, 0, base as nat) == bt);
        }
        // the block content is doc[bs..be]; scan its quoted strings
        let mut pos: usize = bs;
        let mut more: bool = true;
        while more
            invariant
                bs <= pos,
                p < bs,
                pos <= be < doc@.len(),
                base + doc@.len() + 1 < usize::MAX,
                texts.wf(),
                spans_wf(spans@, doc@.len() as int),
                spans@.len() <= pos,
                texts.entries().len() == base + spans@.len(),
                texts.entries().take(base as int) == old(texts).entries(),
                more ==> block_scan_from(doc@, 0, base as nat) == block_tail(
                    doc@,
                    ranges_of(spans@),
                    pos as int,
                    be as int,
                    (base + spans@.len()) as nat,
                ),
                !more ==> block_scan_from(doc@, 0, base as nat) == prepend_ranges(
                    ranges_of(spans@),
                    block_scan_from(doc@, be + 1, (base + spans@.len()) as nat),
                ),
                forall|t: int| 0 <= t < spans@.len() ==> (#[trigger] spans@[t]).end < pos,
                forall|t: int| 0 <= t < spans@.len() ==> accepted_span(doc@, #[trigger] spans@[t]),
                forall|t: int|
                    0 <= t < base + spans@.len() ==> (#[trigger] texts.entries()[t]).0 == dec_of(
                        t as nat,
                    ),
                forall|t: int|
                    0 <= t < spans@.len() ==> (#[trigger] spans@[t]).key@ == dec_of(
                        (base + t) as nat,
                    ),
                forall|t: int|
                    0 <= t < spans@.len() ==> #[trigger] texts.entries()[base + t] == (
                    dec_of((base + t) as nat),
                    ValueModel::Text(
                        doc@.subrange(spans@[t].start as int, spans@[t].end as int),
                    ),
                ),
            decreases be - pos + (if more {
                1int
            } else {
                0int
            }),
        {
            let ghost n1 = (base + spans@.len()) as nat;
            let found = scan_quoted_bounded(doc, pos, be);
            match found {
                None => {
                    proof {
                        assert(strings_in_block(doc@, pos as int, be as int, n1) == Some(
                            Seq::<(int, int)>::empty(),
                        ));
                        assert((n1 + Seq::<(int, int)>::empty().len()) as nat == n1);
                        match block_scan_from(doc@, be + 1, n1) {
                            Some(rest) => {
                                assert(ranges_of(spans@) + Seq::<(int, int)>::empty() + rest
                                    =~= ranges_of(spans@) + rest);
                            },
                            None => {},
                        }
                    }
                    more = false;
                },
                Some((cs, ce)) => {
                    let content = sub_vec(doc, cs, ce);
                    if base == 0 && spans.len() == 0 && is_dotted_key_chars(&content) {
                        proof {
                            assert(strings_in_block(doc@, pos as int, be as int, n1) is None);
                            assert(block_scan_from(doc@, 0, base as nat) is None);
                        }
                        return false;
                    }
                    if is_blank_chars(&content) || !has_alpha(&content) {
                        proof {
                            assert(strings_in_block(doc@, pos as int, be as int, n1)
                                == strings_in_block(doc@, ce + 1, be as int, n1));
                        }
                        pos = ce + 1;
                    } else {
                        let idx = base + spans.len();
                        proof {
                            lemma_fresh_counter_key(*texts, idx as int);
                        }
                        let key_chars = to_decimal(idx);
                        let key = string_of(&key_chars);
                        let ghost ranges0 = ranges_of(spans@);
                        texts.insert(key.clone(), EntryValue::Text(string_of(&content)));
                        spans.push(SpanRec { start: cs, end: ce, key });
                        proof {
                            assert(ranges_of(spans@) =~= ranges0.push((cs as int, ce as int)));
                            assert(strings_in_block(doc@, pos as int, be as int, n1) == (
                            match strings_in_block(doc@, ce + 1, be as int, (n1 + 1) as nat) {
                                Some(rest) => Some(seq![(cs as int, ce as int)] + rest),
                                None => None,
                            }));
                            match strings_in_block(doc@, ce + 1, be as int, (n1 + 1) as nat) {
                                Some(rest) => {
                                    assert((n1 + (seq![(cs as int, ce as int)] + rest).len())
                                        as nat == ((n1 + 1) + rest.len()) as nat);
                                    match block_scan_from(
                                        doc@,
                                        be + 1,
                                        ((n1 + 1) + rest.len()) as nat,
                                    ) {
                                        Some(tail) => {
                                            assert(ranges0 + (seq![(cs as int, ce as int)] + rest)
                                                + tail =~= ranges_of(spans@) + rest + tail);
                                        },
                                        None => {},
                                    }
                                },
                                None => {},
                            }
                        }
                        pos = ce + 1;
                    }
                },
            }
        }
        p = be + 1;
    }
    proof {
        assert(block_scan_from(doc@, p as int, (base + spans@.len()) as nat) == Some(
            Seq::<(int, int)>::empty(),
        ));
        assert(ranges_of(spans@) + Seq::<(int, int)>::empty() =~= ranges_of(spans@));
    }
    true
}

/// What the locator found in one document.
pub struct Extraction {
    /// The `title`/`subtitle` field spans, left to right.
    pub field_spans: Vec<SpanRec>,
    /// The quoted strings of the `desc`/`description` blocks, left to right.
    pub block_spans: Vec<SpanRec>,
    /// The synthetic mapping submitted for translation: each span's text
    /// under its running decimal index.
    pub texts: Mapping,
}

pub enum ExtractOutcome {
    /// The first candidate value is a dotted localization key: the document
    /// references external keys and must be left alone wholesale.
    Indirect,
    Extracted(Extraction),
}

/// Extracts the translatable spans of a quest document: the allow-listed
/// single-line fields, then every quoted string of the description blocks.
/// Each accepted span's text is keyed by its running index, rendered in
/// decimal; each list of spans is in document order without overlap.
pub fn extract_document(doc: &Vec<char>) -> (r: ExtractOutcome)
    requires
        doc@.len() + doc@.len() + 2 < usize::MAX,
    ensures
        r is Indirect <==> spec_extract(doc@) is None,
        r matches ExtractOutcome::Extracted(x) ==> {
            &&& spec_extract(doc@) == Some(
                (ranges_of(x.field_spans@), ranges_of(x.block_spans@)),
            )
            &&& spans_wf(x.field_spans@, doc@.len() as int)
            &&& spans_wf(x.block_spans@, doc@.len() as int)
            &&& x.texts.wf()
            &&& x.texts.entries().len() == x.field_spans@.len() + x.block_spans@.len()
            &&& forall|t: int|
                0 <= t < x.field_spans@.len() ==> accepted_span(
                    doc@,
                    #[trigger] x.field_spans@[t],
                )
            &&& forall|t: int|
                0 <= t < x.block_spans@.len() ==> accepted_span(
                    doc@,
                    #[trigger] x.block_spans@[t],
                )
            &&& forall|t: int|
                0 <= t < x.field_spans@.len() ==> (#[trigger] x.field_spans@[t]).key@ == dec_of(
                    t as nat,
                )
            &&& forall|t: int|
                0 <= t < x.field_spans@.len() ==> #[trigger] x.texts.entries()[t] == (
                dec_of(t as nat),
                ValueModel::Text(
                    doc@.subrange(
                        x.field_spans@[t].start as int,
                        x.field_spans@[t].end as int,
                    ),
                ),
            )
            &&& forall|t: int|
                0 <= t < x.block_spans@.len() ==> (#[trigger] x.block_spans@[t]).key@ == dec_of(
                    (x.field_spans@.len() + t) as nat,
                )
            &&& forall|t: int|
                0 <= t < x.block_spans@.len() ==> #[trigger] x.texts.entries()[x.field_spans@.len()
                    + t] == (
                dec_of((x.field_spans@.len() + t) as nat),
                ValueModel::Text(
                    doc@.subrange(
                        x.block_spans@[t].start as int,
                        x.block_spans@[t].end as int,
                    ),
                ),
            )
        },
{
    let mut texts = Mapping::new();
    let mut field_spans: Vec<SpanRec> = Vec::new();
    let ok = scan_fields(doc, &mut texts, &mut field_spans);
    if !ok {
        return ExtractOutcome::Indirect;
    }
    let base = field_spans.len();
    proof {
        assert(ranges_of(field_spans@).len() == base);
    }
    let mut block_spans: Vec<SpanRec> = Vec::new();
    let ok2 = scan_blocks(doc, &mut texts, &mut block_spans, base);
    if !ok2 {
        return ExtractOutcome::Indirect;
    }
    proof {
        assert(forall|t: int|
            0 <= t < base ==> #[trigger] texts.entries()[t] == texts.entries().take(base as int)[t]);
    }
    ExtractOutcome::Extracted(Extraction { field_spans, block_spans, texts })
}

/// Splice correctness for a document with three spans in increasing
/// positions, the first and third replaced and the second not: the
/// replacements land exactly over their own ranges, the second span and all
/// text around the spans stay byte-identical, whatever the replacements'
/// lengths.
pub proof fn lemma_splice_three(
    doc: Seq<char>,
    s1: SpanRec,
    s2: SpanRec,
    s3: SpanRec,
    r1: Seq<char>,
    r3: Seq<char>,
)
    requires
        s1.start <= s1.end <= s2.start,
        s2.start <= s2.end <= s3.start,
        s3.start <= s3.end <= doc.len(),
    ensures
        splice_spec(doc, seq![s1, s2, s3], seq![Some(r1), None, Some(r3)]) == doc.take(
            s1.start as int,
        ) + r1 + doc.subrange(s1.end as int, s2.start as int) + doc.subrange(
            s2.start as int,
            s2.end as int,
        ) + doc.subrange(s2.end as int, s3.start as int) + r3 + doc.skip(s3.end as int),
{
    let spans = seq![s1, s2, s3];
    let reps = seq![Some(r1), None, Some(r3)];
    let sp3 = seq![s3];
    let rp3 = seq![Some(r3)];
    let sp2 = seq![s2, s3];
    let rp2 = seq![None, Some(r3)];
    assert(sp3.drop_first() =~= Seq::<SpanRec>::empty());
    assert(rp3.drop_first() =~= Seq::<Option<Seq<char>>>::empty());
    assert(sp2.drop_first() =~= sp3);
    assert(rp2.drop_first() =~= rp3);
    assert(spans.drop_first() =~= sp2);
    assert(reps.drop_first() =~= rp2);
    assert(splice_from(
        doc,
        Seq::<SpanRec>::empty(),
        Seq::<Option<Seq<char>>>::empty(),
        s3.end as int,
    ) == doc.skip(s3.end as int));
    let part3 = doc.subrange(s2.end as int, s3.start as int) + r3 + doc.skip(s3.end as int);
    assert(splice_from(doc, sp3, rp3, s2.end as int) =~= part3);
    let part2 = doc.subrange(s1.end as int, s2.start as int) + doc.subrange(
        s2.start as int,
        s2.end as int,
    ) + part3;
    assert(splice_from(doc, sp2, rp2, s1.end as int) =~= part2);
    assert(splice_from(doc, spans, reps, 0) =~= doc.subrange(0, s1.start as int) + r1 + part2);
    assert(doc.subrange(0, s1.start as int) =~= doc.take(s1.start as int));
    assert(splice_spec(doc, spans, reps) =~= doc.take(s1.start as int) + r1 + doc.subrange(
        s1.end as int,
        s2.start as int,
    ) + doc.subrange(s2.start as int, s2.end as int) + doc.subrange(
        s2.end as int,
        s3.start as int,
    ) + r3 + doc.skip(s3.end as int));
}

} // verus!
