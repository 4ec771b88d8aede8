//! Cleaning of almost-JSON language files before parsing: drops a leading
//! BOM, `//` and `#` comments outside strings, and normalises what strings
//! hold — raw newlines and tabs become their escapes, carriage returns and
//! other control characters are dropped, and a backslash before a raw
//! newline becomes the `\n` escape.

use vstd::prelude::*;
use crate::text::{chars_of, string_of};

verus! {

/// Where the scan stands: outside strings, after a lone `'/'` outside
/// strings, inside a string, inside a string right after a backslash, or
/// inside a comment.
#[derive(Clone, Copy, PartialEq, Eq, Structural)]
pub enum SanState {
    Out,
    PendingSlash,
    InStr,
    InStrEsc,
    Comment,
}

/// The Unicode control characters (category `Cc`), the set `char::is_control`
/// goes by.
pub open spec fn is_control_char(c: char) -> bool {
    (c as u32) < 0x20 || (0x7f <= c as u32 && c as u32 <= 0x9f)
}

pub open spec fn san_next(st: SanState, c: char) -> SanState {
    match st {
        SanState::Out => {
            if c == '/' {
                SanState::PendingSlash
            } else if c == '#' {
                SanState::Comment
            } else if c == '"' {
                SanState::InStr
            } else {
                SanState::Out
            }
        },
        SanState::PendingSlash => {
            if c == '/' {
                SanState::Comment
            } else if c == '#' {
                SanState::Comment
            } else if c == '"' {
                SanState::InStr
            } else {
                SanState::Out
            }
        },
        SanState::InStr => {
            if c == '\\' {
                SanState::InStrEsc
            } else if c == '"' {
                SanState::Out
            } else {
                SanState::InStr
            }
        },
        SanState::InStrEsc => SanState::InStr,
        SanState::Comment => {
            if c == '\n' || c == '\r' {
                SanState::Out
            } else {
                SanState::Comment
            }
        },
    }
}

pub open spec fn san_emit(st: SanState, c: char) -> Seq<char> {
    match st {
        SanState::Out => {
            if c == '/' || c == '#' {
                Seq::empty()
            } else {
                seq![c]
            }
        },
        SanState::PendingSlash => {
            if c == '/' {
                Seq::empty()
            } else if c == '#' {
                seq!['/']
            } else {
                seq!['/', c]
            }
        },
        SanState::InStr => {
            if c == '\\' || c == '"' {
                seq![c]
            } else if c == '\n' {
                seq!['\\', 'n']
            } else if c == '\t' {
                seq!['\\', 't']
            } else if is_control_char(c) {
                Seq::empty()
            } else {
                seq![c]
            }
        },
        SanState::InStrEsc => {
            if c == '\n' {
                seq!['n']
            } else if c == '\r' {
                Seq::empty()
            } else {
                seq![c]
            }
        },
        SanState::Comment => {
            if c == '\n' || c == '\r' {
                seq![c]
            } else {
                Seq::empty()
            }
        },
    }
}

/// What a scan that ends in `st` still owes the output: a lone slash that
/// never became a comment.
pub open spec fn san_tail(st: SanState) -> Seq<char> {
    if st is PendingSlash {
        seq!['/']
    } else {
        Seq::empty()
    }
}

pub open spec fn sanitize_seq(s: Seq<char>, st: SanState) -> Seq<char>
    decreases s.len(),
{
    if s.len() == 0 {
        san_tail(st)
    } else {
        san_emit(st, s[0]) + sanitize_seq(s.drop_first(), san_next(st, s[0]))
    }
}

pub open spec fn strip_bom(s: Seq<char>) -> Seq<char> {
    if s.len() > 0 && s[0] == '\u{feff}' {
        s.skip(1)
    } else {
        s
    }
}

/// The sanitised form of a document: the BOM dropped, then the scan run from
/// the outside-strings state.
pub open spec fn sanitize_spec(s: Seq<char>) -> Seq<char> {
    sanitize_seq(strip_bom(s), SanState::Out)
}

fn is_control_exec(c: char) -> (r: bool)
    ensures
        r == is_control_char(c),
{
    let u = c as u32;
    u < 0x20 || (0x7f <= u && u <= 0x9f)
}

/// One scan step: pushes what `st` emits for `c` and returns the next state.
fn san_step(st: SanState, c: char, out: &mut Vec<char>) -> (r: SanState)
    ensures
        r == san_next(st, c),
        final(out)@ == old(out)@ + san_emit(st, c),
{
    let ghost emitted = san_emit(st, c);
    let next = match st {
        SanState::Out => {
            if c == '/' {
                SanState::PendingSlash
            } else if c == '#' {
                SanState::Comment
            } else if c == '"' {
                out.push(c);
                SanState::InStr
            } else {
                out.push(c);
                SanState::Out
            }
        },
        SanState::PendingSlash => {
            if c == '/' {
                SanState::Comment
            } else if c == '#' {
                // the pending slash was ordinary text; only `//` opens a comment
                out.push('/');
                SanState::Comment
            } else if c == '"' {
                out.push('/');
                out.push(c);
                SanState::InStr
            } else {
                out.push('/');
                out.push(c);
                SanState::Out
            }
        },
        SanState::InStr => {
            if c == '\\' {
                out.push(c);
                SanState::InStrEsc
            } else if c == '"' {
                out.push(c);
                SanState::Out
            } else if c == '\n' {
                out.push('\\');
                out.push('n');
                SanState::InStr
            } else if c == '\t' {
                out.push('\\');
                out.push('t');
                SanState::InStr
            } else if is_control_exec(c) {
                SanState::InStr
            } else {
                out.push(c);
                SanState::InStr
            }
        },
        SanState::InStrEsc => {
            if c == '\n' {
                out.push('n');
            } else if c == '\r' {
            } else {
                out.push(c);
            }
            SanState::InStr
        },
        SanState::Comment => {
            if c == '\n' || c == '\r' {
                out.push(c);
                SanState::Out
            } else {
                SanState::Comment
            }
        },
    };
    proof {
        assert(out@ =~= old(out)@ + emitted);
    }
    next
}

/// Sanitises an almost-JSON document so that it parses: strips a leading
/// BOM and the comments outside strings, and re-escapes or drops raw control
/// characters inside strings.
pub fn sanitize_json_content(content: &str) -> (r: String)
    ensures
        r@ == sanitize_spec(content@),
{
    let v = chars_of(content);
    let start: usize = if v.len() > 0 && v[0] == '\u{feff}' {
        1
    } else {
        0
    };
    let ghost body = strip_bom(content@);
    let mut out: Vec<char> = Vec::new();
    let mut st = SanState::Out;
    let mut i: usize = start;
    proof {
        assert(body =~= v@.skip(start as int));
        assert(body.skip(0) =~= body);
        assert(out@ + sanitize_seq(body.skip(0), st) =~= sanitize_seq(body, SanState::Out));
    }
    while i < v.len()
        invariant
            start <= i <= v@.len(),
            v@ == content@,
            body == strip_bom(content@),
            body =~= v@.skip(start as int),
            start <= 1,
            sanitize_spec(content@) == out@ + sanitize_seq(body.skip(i - start), st),
        decreases v@.len() - i,
    {
        let ghost rest = body.skip(i - start);
        proof {
            assert(rest.len() == v@.len() - i);
            assert(rest[0] == v@[i as int]);
            assert(rest.drop_first() =~= body.skip(i + 1 - start));
        }
        st = san_step(st, v[i], &mut out);
        proof {
            assert(out@ + sanitize_seq(body.skip(i + 1 - start), st) =~= sanitize_spec(content@));
        }
        i = i + 1;
    }
    proof {
        assert(body.skip(i - start) =~= Seq::<char>::empty());
    }
    match st {
        SanState::PendingSlash => {
            out.push('/');
            proof {
                assert(out@ =~= sanitize_spec(content@));
            }
        },
        _ => {
            proof {
                assert(out@ + san_tail(st) =~= out@);
            }
        },
    }
    string_of(&out)
}

} // verus!
