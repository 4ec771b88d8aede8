//! Character-level text utilities shared by the pipeline: whitespace and
//! blankness tests, substring search and replacement, trimming, and decimal
//! rendering/parsing. Text is processed as `Vec<char>`, whose view is the
//! same `Seq<char>` as the view of the `String` it came from.

use vstd::prelude::*;

verus! {

/// The Unicode `White_Space` characters, the set that `str::trim` and
/// `char::is_whitespace` go by.
pub open spec fn is_space(c: char) -> bool {
    c == ' ' || c == '\t' || c == '\n' || c == '\r' || c == '\u{0b}' || c == '\u{0c}'
        || c == '\u{85}' || c == '\u{a0}' || c == '\u{1680}'
        || (0x2000 <= c as u32 && c as u32 <= 0x200a)
        || c == '\u{2028}' || c == '\u{2029}' || c == '\u{202f}' || c == '\u{205f}'
        || c == '\u{3000}'
}

/// A sequence is blank when every character is white space (so the empty
/// sequence is blank).
pub open spec fn is_blank(s: Seq<char>) -> bool {
    forall|i: int| 0 <= i < s.len() ==> is_space(s[i])
}

pub fn is_space_char(c: char) -> (r: bool)
    ensures
        r == is_space(c),
{
    c == ' ' || c == '\t' || c == '\n' || c == '\r' || c == '\u{0b}' || c == '\u{0c}'
        || c == '\u{85}' || c == '\u{a0}' || c == '\u{1680}'
        || (0x2000 <= c as u32 && c as u32 <= 0x200a)
        || c == '\u{2028}' || c == '\u{2029}' || c == '\u{202f}' || c == '\u{205f}'
        || c == '\u{3000}'
}

pub fn is_blank_chars(s: &Vec<char>) -> (r: bool)
    ensures
        r == is_blank(s@),
{
    let mut i: usize = 0;
    while i < s.len()
        invariant
            0 <= i <= s@.len(),
            forall|j: int| 0 <= j < i ==> is_space(s@[j]),
        decreases s@.len() - i,
    {
        if !is_space_char(s[i]) {
            return false;
        }
        i = i + 1;
    }
    true
}

/// The characters of a string, one `char` per element, so that the vector's
/// view equals the string's view.
pub fn chars_of(s: &str) -> (r: Vec<char>)
    ensures
        r@ == s@,
{
    let n: usize = s.unicode_len();
    let mut r: Vec<char> = Vec::new();
    let mut i: usize = 0;
    while i < n
        invariant
            0 <= i <= n,
            n == s@.len(),
            r@ == s@.take(i as int),
        decreases n - i,
    {
        r.push(s.get_char(i));
        proof {
            assert(r@ =~= s@.take(i + 1 as int));
        }
        i = i + 1;
    }
    proof {
        assert(r@ =~= s@);
    }
    r
}

/// Relies on `String::from_iter` over `char`s: the collected string holds
/// exactly the characters of the vector, in order.
#[verifier::external_body]
pub fn string_of(v: &Vec<char>) -> (r: String)
    ensures
        r@ == v@,
{
    v.iter().collect()
}

/// The pattern `pat` occurs in `s` starting at position `i`.
pub open spec fn match_at(s: Seq<char>, pat: Seq<char>, i: int) -> bool {
    0 <= i && i + pat.len() <= s.len() && s.subrange(i, i + pat.len()) == pat
}

pub open spec fn contains_seq(s: Seq<char>, pat: Seq<char>) -> bool {
    exists|i: int| match_at(s, pat, i)
}

pub fn matches_at(s: &Vec<char>, pat: &Vec<char>, i: usize) -> (r: bool)
    ensures
        r == match_at(s@, pat@, i as int),
{
    if pat.len() > s.len() || i > s.len() - pat.len() {
        return false;
    }
    let mut j: usize = 0;
    while j < pat.len()
        invariant
            0 <= j <= pat@.len(),
            i + pat.len() <= s.len(),
            forall|k: int| 0 <= k < j ==> s@[i + k] == pat@[k],
        decreases pat@.len() - j,
    {
        if s[i + j] != pat[j] {
            proof {
                assert(s@.subrange(i as int, i + pat@.len())[j as int] == s@[i + j]);
            }
            return false;
        }
        j = j + 1;
    }
    proof {
        assert(s@.subrange(i as int, i + pat@.len()) =~= pat@);
    }
    true
}

/// Position of the first occurrence of `pat` at or after `from`, if any.
pub fn find_from(s: &Vec<char>, pat: &Vec<char>, from: usize) -> (r: Option<usize>)
    ensures
        match r {
            Some(j) => from <= j && match_at(s@, pat@, j as int) && forall|k: int|
                from <= k < j ==> !match_at(s@, pat@, k),
            None => forall|k: int| from <= k ==> !match_at(s@, pat@, k),
        },
{
    if pat.len() == 0 {
        if from <= s.len() {
            proof {
                assert(s@.subrange(from as int, from as int) =~= pat@);
            }
            return Some(from);
        } else {
            return None;
        }
    }
    if pat.len() > s.len() {
        return None;
    }
    let last = s.len() - pat.len();
    if from > last {
        return None;
    }
    let mut i: usize = from;
    while i <= last
        invariant
            from <= i,
            pat@.len() >= 1,
            last == s.len() - pat.len(),
            pat.len() <= s.len(),
            forall|k: int| from <= k < i ==> !match_at(s@, pat@, k),
        decreases last + 1 - i,
    {
        if matches_at(s, pat, i) {
            return Some(i);
        }
        i = i + 1;
    }
    None
}

pub fn contains_chars(s: &Vec<char>, pat: &Vec<char>) -> (r: bool)
    ensures
        r == contains_seq(s@, pat@),
{
    let r = find_from(s, pat, 0);
    match r {
        Some(_) => true,
        None => false,
    }
}

pub open spec fn ends_with_seq(s: Seq<char>, suffix: Seq<char>) -> bool {
    s.len() >= suffix.len() && s.subrange(s.len() - suffix.len(), s.len() as int) == suffix
}

pub fn ends_with_chars(s: &Vec<char>, suffix: &Vec<char>) -> (r: bool)
    ensures
        r == ends_with_seq(s@, suffix@),
{
    if suffix.len() > s.len() {
        return false;
    }
    matches_at(s, suffix, s.len() - suffix.len())
}

/// A copy of `s[lo..hi]`.
pub fn sub_vec(s: &Vec<char>, lo: usize, hi: usize) -> (r: Vec<char>)
    requires
        lo <= hi <= s@.len(),
    ensures
        r@ == s@.subrange(lo as int, hi as int),
{
    let mut r: Vec<char> = Vec::new();
    let mut i: usize = lo;
    while i < hi
        invariant
            lo <= i <= hi <= s@.len(),
            r@ == s@.subrange(lo as int, i as int),
        decreases hi - i,
    {
        r.push(s[i]);
        proof {
            assert(r@ =~= s@.subrange(lo as int, i + 1 as int));
        }
        i = i + 1;
    }
    r
}

pub fn push_all(dst: &mut Vec<char>, src: &Vec<char>)
    ensures
        final(dst)@ == old(dst)@ + src@,
{
    let mut i: usize = 0;
    while i < src.len()
        invariant
            0 <= i <= src@.len(),
            dst@ == old(dst)@ + src@.take(i as int),
        decreases src@.len() - i,
    {
        dst.push(src[i]);
        proof {
            assert(old(dst)@ + src@.take(i + 1 as int) =~= (old(dst)@ + src@.take(i as int)).push(
                src@[i as int],
            ));
        }
        i = i + 1;
    }
    proof {
        assert(src@.take(src@.len() as int) =~= src@);
    }
}

/// Replacement of every occurrence of `pat` by `rep`, scanning left to right
/// over non-overlapping matches. An empty pattern replaces nothing.
pub open spec fn replace_spec(s: Seq<char>, pat: Seq<char>, rep: Seq<char>) -> Seq<char>
    decreases s.len(),
{
    if pat.len() == 0 || s.len() < pat.len() {
        s
    } else if s.subrange(0, pat.len() as int) == pat {
        rep + replace_spec(s.skip(pat.len() as int), pat, rep)
    } else {
        seq![s[0]] + replace_spec(s.skip(1), pat, rep)
    }
}

pub fn replace_chars(s: &Vec<char>, pat: &Vec<char>, rep: &Vec<char>) -> (r: Vec<char>)
    ensures
        r@ == replace_spec(s@, pat@, rep@),
{
    if pat.len() == 0 {
        return sub_vec(s, 0, s.len());
    }
    let mut out: Vec<char> = Vec::new();
    let mut i: usize = 0;
    proof {
        assert(s@.skip(0) =~= s@);
    }
    while i < s.len()
        invariant
            0 <= i <= s.len(),
            pat@.len() >= 1,
            replace_spec(s@, pat@, rep@) == out@ + replace_spec(s@.skip(i as int), pat@, rep@),
        decreases s@.len() - i,
    {
        let ghost pre = out@;
        if matches_at(s, pat, i) {
            push_all(&mut out, rep);
            proof {
                let tail = s@.skip(i as int);
                assert(tail.subrange(0, pat@.len() as int) =~= s@.subrange(
                    i as int,
                    i + pat@.len(),
                ));
                assert(tail.skip(pat@.len() as int) =~= s@.skip(i + pat@.len()));
                assert(out@ + replace_spec(s@.skip(i + pat@.len()), pat@, rep@) =~= pre + (rep@
                    + replace_spec(s@.skip(i + pat@.len()), pat@, rep@)));
            }
            i = i + pat.len();
        } else {
            out.push(s[i]);
            proof {
                let tail = s@.skip(i as int);
                if tail.len() >= pat@.len() {
                    assert(tail.subrange(0, pat@.len() as int) =~= s@.subrange(
                        i as int,
                        i + pat@.len(),
                    ));
                    assert(tail.subrange(0, pat@.len() as int) != pat@);
                }
                assert(tail.skip(1) =~= s@.skip(i + 1));
                assert(tail =~= seq![s@[i as int]] + s@.skip(i + 1));
                assert(out@ + replace_spec(s@.skip(i + 1), pat@, rep@) =~= pre + (seq![
                    s@[i as int],
                ] + replace_spec(s@.skip(i + 1), pat@, rep@)));
            }
            i = i + 1;
        }
    }
    proof {
        assert(s@.skip(i as int) =~= Seq::<char>::empty());
        assert(out@ + Seq::<char>::empty() =~= out@);
    }
    out
}

/// What is left of `s` after dropping white space from both ends.
pub open spec fn trim_front(s: Seq<char>) -> Seq<char>
    decreases s.len(),
{
    if s.len() > 0 && is_space(s[0]) {
        trim_front(s.skip(1))
    } else {
        s
    }
}

pub open spec fn trim_back(s: Seq<char>) -> Seq<char>
    decreases s.len(),
{
    if s.len() > 0 && is_space(s.last()) {
        trim_back(s.drop_last())
    } else {
        s
    }
}

pub open spec fn trimmed(s: Seq<char>) -> Seq<char> {
    trim_back(trim_front(s))
}

pub fn trim_chars(s: &Vec<char>) -> (r: Vec<char>)
    ensures
        r@ == trimmed(s@),
{
    let mut lo: usize = 0;
    proof {
        assert(s@.skip(0) =~= s@);
    }
    while lo < s.len() && is_space_char(s[lo])
        invariant
            0 <= lo <= s.len(),
            trim_front(s@) == trim_front(s@.skip(lo as int)),
        decreases s@.len() - lo,
    {
        proof {
            assert(s@.skip(lo as int).skip(1) =~= s@.skip(lo + 1));
        }
        lo = lo + 1;
    }
    proof {
        if lo == s@.len() {
            assert(s@.skip(lo as int) =~= Seq::<char>::empty());
        }
        assert(trim_front(s@) == s@.skip(lo as int));
        assert(s@.skip(lo as int) =~= s@.subrange(lo as int, s@.len() as int));
    }
    let mut hi: usize = s.len();
    while hi > lo && is_space_char(s[hi - 1])
        invariant
            lo <= hi <= s.len(),
            trim_back(s@.subrange(lo as int, s@.len() as int)) == trim_back(
                s@.subrange(lo as int, hi as int),
            ),
        decreases hi,
    {
        proof {
            assert(s@.subrange(lo as int, hi as int).drop_last() =~= s@.subrange(
                lo as int,
                hi - 1,
            ));
        }
        hi = hi - 1;
    }
    proof {
        assert(trim_back(s@.subrange(lo as int, hi as int)) == s@.subrange(lo as int, hi as int));
    }
    sub_vec(s, lo, hi)
}

pub fn is_blank_str(s: &str) -> (r: bool)
    ensures
        r == is_blank(s@),
{
    let v = chars_of(s);
    is_blank_chars(&v)
}

/// Repeatedly drops `pat` from the front while it is a prefix, as
/// `str::trim_start_matches` does.
pub open spec fn strip_prefix_all(s: Seq<char>, pat: Seq<char>) -> Seq<char>
    decreases s.len(),
{
    if pat.len() > 0 && s.len() >= pat.len() && s.subrange(0, pat.len() as int) == pat {
        strip_prefix_all(s.skip(pat.len() as int), pat)
    } else {
        s
    }
}

/// Repeatedly drops `pat` from the back while it is a suffix, as
/// `str::trim_end_matches` does.
pub open spec fn strip_suffix_all(s: Seq<char>, pat: Seq<char>) -> Seq<char>
    decreases s.len(),
{
    if pat.len() > 0 && s.len() >= pat.len() && s.subrange(s.len() - pat.len(), s.len() as int)
        == pat {
        strip_suffix_all(s.take(s.len() - pat.len()), pat)
    } else {
        s
    }
}

pub fn strip_prefix_all_chars(s: &Vec<char>, pat: &Vec<char>) -> (r: Vec<char>)
    ensures
        r@ == strip_prefix_all(s@, pat@),
{
    if pat.len() == 0 {
        return sub_vec(s, 0, s.len());
    }
    let mut lo: usize = 0;
    proof {
        assert(s@.skip(0) =~= s@);
    }
    while matches_at(s, pat, lo)
        invariant
            0 <= lo <= s.len(),
            pat@.len() >= 1,
            strip_prefix_all(s@, pat@) == strip_prefix_all(s@.skip(lo as int), pat@),
        decreases s@.len() - lo,
    {
        proof {
            let tail = s@.skip(lo as int);
            assert(tail.subrange(0, pat@.len() as int) =~= s@.subrange(lo as int, lo + pat@.len()));
            assert(tail.skip(pat@.len() as int) =~= s@.skip(lo + pat@.len()));
        }
        lo = lo + pat.len();
    }
    proof {
        let tail = s@.skip(lo as int);
        if tail.len() >= pat@.len() {
            assert(tail.subrange(0, pat@.len() as int) =~= s@.subrange(lo as int, lo + pat@.len()));
        }
        assert(strip_prefix_all(tail, pat@) == tail);
        assert(tail =~= s@.subrange(lo as int, s@.len() as int));
    }
    sub_vec(s, lo, s.len())
}

pub fn strip_suffix_all_chars(s: &Vec<char>, pat: &Vec<char>) -> (r: Vec<char>)
    ensures
        r@ == strip_suffix_all(s@, pat@),
{
    if pat.len() == 0 {
        return sub_vec(s, 0, s.len());
    }
    let mut hi: usize = s.len();
    proof {
        assert(s@.take(s@.len() as int) =~= s@);
    }
    while hi >= pat.len() && matches_at(s, pat, hi - pat.len())
        invariant
            0 <= hi <= s.len(),
            pat@.len() >= 1,
            strip_suffix_all(s@, pat@) == strip_suffix_all(s@.take(hi as int), pat@),
        decreases hi,
    {
        proof {
            let head = s@.take(hi as int);
            assert(head.subrange(head.len() - pat@.len(), head.len() as int) =~= s@.subrange(
                hi - pat@.len(),
                hi as int,
            ));
            assert(head.take(head.len() - pat@.len()) =~= s@.take(hi - pat@.len()));
        }
        hi = hi - pat.len();
    }
    proof {
        let head = s@.take(hi as int);
        if head.len() >= pat@.len() {
            assert(head.subrange(head.len() - pat@.len(), head.len() as int) =~= s@.subrange(
                hi - pat@.len(),
                hi as int,
            ));
        }
        assert(strip_suffix_all(head, pat@) == head);
        assert(head =~= s@.subrange(0, hi as int));
    }
    sub_vec(s, 0, hi)
}

pub open spec fn dec_digit(d: int) -> char {
    if d == 0 {
        '0'
    } else if d == 1 {
        '1'
    } else if d == 2 {
        '2'
    } else if d == 3 {
        '3'
    } else if d == 4 {
        '4'
    } else if d == 5 {
        '5'
    } else if d == 6 {
        '6'
    } else if d == 7 {
        '7'
    } else if d == 8 {
        '8'
    } else {
        '9'
    }
}

/// The decimal digits of `n`, most significant first, with no sign and no
/// leading zero (a single `'0'` for zero).
pub open spec fn dec_of(n: nat) -> Seq<char>
    decreases n,
{
    if n < 10 {
        seq![dec_digit(n as int)]
    } else {
        dec_of(n / 10).push(dec_digit((n % 10) as int))
    }
}

fn digit_char(d: usize) -> (c: char)
    requires
        d < 10,
    ensures
        c == dec_digit(d as int),
{
    if d == 0 {
        '0'
    } else if d == 1 {
        '1'
    } else if d == 2 {
        '2'
    } else if d == 3 {
        '3'
    } else if d == 4 {
        '4'
    } else if d == 5 {
        '5'
    } else if d == 6 {
        '6'
    } else if d == 7 {
        '7'
    } else if d == 8 {
        '8'
    } else {
        '9'
    }
}

pub fn to_decimal(n: usize) -> (r: Vec<char>)
    ensures
        r@ == dec_of(n as nat),
    decreases n,
{
    if n < 10 {
        let mut v: Vec<char> = Vec::new();
        v.push(digit_char(n));
        proof {
            assert(v@ =~= dec_of(n as nat));
        }
        v
    } else {
        let mut v = to_decimal(n / 10);
        v.push(digit_char(n % 10));
        v
    }
}

/// Rendering a number gives digits whose value is the number back, so two
/// different numbers never render alike.
pub proof fn lemma_dec_of_value(n: nat)
    ensures
        all_digits(dec_of(n)),
        dec_val(dec_of(n)) == n,
    decreases n,
{
    assert forall|m: int| 0 <= m < 10 implies digit_val(dec_digit(m)) == m by {
        if m == 0 {
            assert(digit_val('0') == 0);
        } else if m == 1 {
            assert(digit_val('1') == 1);
        } else if m == 2 {
            assert(digit_val('2') == 2);
        } else if m == 3 {
            assert(digit_val('3') == 3);
        } else if m == 4 {
            assert(digit_val('4') == 4);
        } else if m == 5 {
            assert(digit_val('5') == 5);
        } else if m == 6 {
            assert(digit_val('6') == 6);
        } else if m == 7 {
            assert(digit_val('7') == 7);
        } else if m == 8 {
            assert(digit_val('8') == 8);
        } else {
            assert(digit_val('9') == 9);
        }
    }
    if n < 10 {
        assert(dec_of(n) =~= seq![dec_digit(n as int)]);
        assert(dec_of(n).drop_last() =~= Seq::<char>::empty());
        assert(dec_val(dec_of(n)) == dec_val(Seq::<char>::empty()) * 10 + digit_val(
            dec_digit(n as int),
        ));
    } else {
        lemma_dec_of_value(n / 10);
        let d = dec_of(n / 10);
        assert(dec_of(n) == d.push(dec_digit((n % 10) as int)));
        assert(d.push(dec_digit((n % 10) as int)).drop_last() =~= d);
        assert(all_digits(dec_of(n))) by {
            assert(forall|i: int| 0 <= i < d.len() ==> dec_of(n)[i] == d[i]);
        }
    }
}

pub open spec fn is_dec_digit(c: char) -> bool {
    48 <= c as u32 && c as u32 <= 57
}

pub open spec fn digit_val(c: char) -> int {
    c as u32 - 48
}

pub open spec fn all_digits(s: Seq<char>) -> bool {
    forall|i: int| 0 <= i < s.len() ==> is_dec_digit(s[i])
}

/// The value of a digit string, most significant digit first.
pub open spec fn dec_val(s: Seq<char>) -> int
    decreases s.len(),
{
    if s.len() == 0 {
        0
    } else {
        dec_val(s.drop_last()) * 10 + digit_val(s.last())
    }
}

/// What `str::parse::<u64>` accepts: an optional leading `'+'`, then one or
/// more decimal digits whose value fits in a `u64`.
pub open spec fn parse_u64_spec(s: Seq<char>) -> Option<u64> {
    let body = if s.len() > 0 && s[0] == '+' {
        s.skip(1)
    } else {
        s
    };
    if body.len() > 0 && all_digits(body) && dec_val(body) <= u64::MAX as int {
        Some(dec_val(body) as u64)
    } else {
        None
    }
}

proof fn lemma_dec_val_nonneg(s: Seq<char>)
    requires
        all_digits(s),
    ensures
        dec_val(s) >= 0,
    decreases s.len(),
{
    if s.len() > 0 {
        assert(all_digits(s.drop_last()));
        lemma_dec_val_nonneg(s.drop_last());
    }
}

proof fn lemma_dec_val_prefix(s: Seq<char>, k: int)
    requires
        all_digits(s),
        0 <= k <= s.len(),
    ensures
        dec_val(s) >= dec_val(s.take(k)),
    decreases s.len() - k,
{
    if k < s.len() {
        lemma_dec_val_prefix(s, k + 1);
        assert(s.take(k + 1).drop_last() =~= s.take(k));
        assert(s.take(k + 1).last() == s[k]);
        assert(all_digits(s.take(k)));
        lemma_dec_val_nonneg(s.take(k));
        assert(dec_val(s.take(k + 1)) == dec_val(s.take(k)) * 10 + digit_val(s[k]));
        assert(dec_val(s.take(k)) * 10 >= dec_val(s.take(k))) by (nonlinear_arith)
            requires
                dec_val(s.take(k)) >= 0,
        ;
    } else {
        assert(s.take(k) =~= s);
    }
}

pub fn parse_u64_decimal(s: &Vec<char>) -> (r: Option<u64>)
    ensures
        r == parse_u64_spec(s@),
{
    let start: usize = if s.len() > 0 && s[0] == '+' {
        1
    } else {
        0
    };
    let ghost body = if s@.len() > 0 && s@[0] == '+' {
        s@.skip(1)
    } else {
        s@
    };
    if s.len() == start {
        return None;
    }
    let mut acc: u64 = 0;
    let mut i: usize = start;
    proof {
        assert(body.take(0) =~= Seq::<char>::empty());
    }
    while i < s.len()
        invariant
            start <= i <= s.len(),
            start <= 1,
            start == 1 <==> s@.len() > 0 && s@[0] == '+',
            body == s@.skip(start as int),
            body.len() == s@.len() - start,
            all_digits(body.take(i - start)),
            acc as int == dec_val(body.take(i - start)),
        decreases s@.len() - i,
    {
        let c = s[i];
        let u = c as u32;
        if u < 48 || u > 57 {
            proof {
                assert(body[i - start] == s@[i as int]);
                assert(!is_dec_digit(body[i - start]));
                assert(!all_digits(body));
                assert(parse_u64_spec(s@) is None);
            }
            return None;
        }
        let d: u64 = (u - 48) as u64;
        proof {
            assert(body.take(i - start + 1).drop_last() =~= body.take(i - start));
            assert(body.take(i - start + 1).last() == s@[i as int]);
            assert(all_digits(body.take(i - start + 1)));
        }
        if acc > (u64::MAX - d) / 10 {
            proof {
                let ext = body.take(i - start + 1);
                assert(dec_val(ext) == acc as int * 10 + d);
                assert(acc as int * 10 + d > u64::MAX as int) by (nonlinear_arith)
                    requires
                        acc as int > (u64::MAX as int - d) / 10,
                        0 <= d <= 9,
                ;
                if all_digits(body) {
                    lemma_dec_val_prefix(body, i - start + 1);
                    assert(dec_val(body) > u64::MAX as int);
                }
                assert(s@.skip(0) =~= s@);
                assert(parse_u64_spec(s@) is None);
            }
            return None;
        }
        proof {
            assert(acc as int * 10 + d <= u64::MAX as int) by (nonlinear_arith)
                requires
                    acc as int <= (u64::MAX as int - d) / 10,
                    0 <= d <= 9,
            ;
        }
        acc = acc * 10 + d;
        i = i + 1;
    }
    proof {
        assert(body.take(i - start) =~= body);
    }
    Some(acc)
}

} // verus!
