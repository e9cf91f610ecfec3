//! Character-level helpers shared by the index, the filters and the web
//! request checks.

use vstd::prelude::*;

verus! {

/// `char::is_control`: the Unicode general category Cc, which is exactly
/// U+0000..=U+001F and U+007F..=U+009F.
pub open spec fn is_control(c: char) -> bool {
    (c as u32) <= 0x1f || (0x7f <= (c as u32) && (c as u32) <= 0x9f)
}

/// Terminal-safe replacement of one character: control characters become a
/// space, except that multiline text keeps its line breaks and tabs.
pub open spec fn clean_char(c: char, multiline: bool) -> char {
    if is_control(c) && !(multiline && (c == '\n' || c == '\t')) {
        ' '
    } else {
        c
    }
}

/// Terminal-safe metadata: every character replaced by `clean_char`.
pub open spec fn clean(s: Seq<char>, multiline: bool) -> Seq<char> {
    s.map_values(|c: char| clean_char(c, multiline))
}

/// True when a text contains nothing that `clean` would replace.
pub open spec fn is_clean(s: Seq<char>, multiline: bool) -> bool {
    clean(s, multiline) == s
}

/// Cleaning twice changes nothing more than cleaning once.
pub proof fn lemma_clean_idempotent(s: Seq<char>, multiline: bool)
    ensures
        clean(clean(s, multiline), multiline) == clean(s, multiline),
{
    assert(clean(clean(s, multiline), multiline) =~= clean(s, multiline));
}

/// The characters of a string, in order.
pub fn chars_of(s: &str) -> (r: Vec<char>)
    ensures
        r@ == s@,
{
    let mut out: Vec<char> = Vec::new();
    for c in it: s.chars()
        invariant
            out@ == it.seq().take(it.index() as int),
            it.seq() == s@,
    {
        out.push(c);
    }
    out
}

/// `String::push`: appends one character.
#[verifier::external_body]
pub(crate) fn push_char(s: &mut String, c: char)
    ensures
        final(s)@ == old(s)@.push(c),
{
    s.push(c);
}

/// A string holding exactly the given characters.
pub fn string_from_chars(cs: &[char]) -> (r: String)
    ensures
        r@ == cs@,
{
    let mut out = String::new();
    let mut i: usize = 0;
    while i < cs.len()
        invariant
            i <= cs@.len(),
            out@ == cs@.take(i as int),
        decreases cs@.len() - i,
    {
        push_char(&mut out, cs[i]);
        assert(cs@.take(i as int).push(cs@[i as int]) =~= cs@.take(i + 1));
        i += 1;
    }
    assert(cs@.take(cs@.len() as int) =~= cs@);
    out
}

/// Exec form of `clean_char`.
pub fn clean_char_exec(c: char, multiline: bool) -> (r: char)
    ensures
        r == clean_char(c, multiline),
{
    let u = c as u32;
    if (u <= 0x1f || (0x7f <= u && u <= 0x9f)) && !(multiline && (c == '\n' || c == '\t')) {
        ' '
    } else {
        c
    }
}

/// Replace control characters so the text can be shown in a terminal.
pub fn clean_text(text: &str, multiline: bool) -> (r: String)
    ensures
        r@ == clean(text@, multiline),
{
    let cs = chars_of(text);
    let mut out = String::new();
    let mut i: usize = 0;
    while i < cs.len()
        invariant
            i <= cs@.len(),
            cs@ == text@,
            out@ == clean(cs@.take(i as int), multiline),
        decreases cs@.len() - i,
    {
        let c = clean_char_exec(cs[i], multiline);
        push_char(&mut out, c);
        assert(clean(cs@.take(i as int), multiline).push(c) =~= clean(cs@.take(i + 1), multiline));
        i += 1;
    }
    assert(cs@.take(cs@.len() as int) =~= cs@);
    out
}

/// String equality on character sequences.
#[verifier::external_body]
pub(crate) fn str_eq(a: &str, b: &str) -> (r: bool)
    ensures
        r == (a@ == b@),
{
    a == b
}

/// An ASCII decimal digit.
pub open spec fn is_digit(c: char) -> bool {
    '0' <= c && c <= '9'
}

/// The value of a string of decimal digits.
pub open spec fn digits_value(s: Seq<char>) -> int
    decreases s.len(),
{
    if s.len() == 0 {
        0
    } else {
        digits_value(s.drop_last()) * 10 + ((s.last() as u32) - 48)
    }
}

/// The text after an optional leading `+`.
pub open spec fn unsigned_part(s: Seq<char>) -> Seq<char> {
    if s.len() > 0 && s[0] == '+' {
        s.drop_first()
    } else {
        s
    }
}

/// A non-empty string of decimal digits whose value fits in 64 bits.
pub open spec fn decimal_digits(d: Seq<char>) -> Option<u64> {
    if d.len() > 0 && (forall|i: int| 0 <= i < d.len() ==> is_digit(#[trigger] d[i])) && digits_value(d)
        <= u64::MAX {
        Some(digits_value(d) as u64)
    } else {
        None
    }
}

/// `u64::from_str`: an optional `+`, then at least one decimal digit, the
/// value fitting in 64 bits.
pub open spec fn decimal_u64(s: Seq<char>) -> Option<u64> {
    decimal_digits(unsigned_part(s))
}

pub proof fn lemma_digits_value_grows(d: Seq<char>, j: int)
    requires
        0 <= j <= d.len(),
        forall|i: int| 0 <= i < d.len() ==> is_digit(#[trigger] d[i]),
    ensures
        digits_value(d.take(j)) <= digits_value(d),
        0 <= digits_value(d.take(j)),
    decreases d.len() - j,
{
    if j < d.len() {
        assert(d.take(j + 1).drop_last() =~= d.take(j));
        assert(is_digit(d[j]));
        lemma_digits_value_grows(d, j + 1);
    } else {
        assert(d.take(j) =~= d);
        lemma_digits_value_nonneg(d);
    }
}

proof fn lemma_digits_value_nonneg(d: Seq<char>)
    requires
        forall|i: int| 0 <= i < d.len() ==> is_digit(#[trigger] d[i]),
    ensures
        0 <= digits_value(d),
    decreases d.len(),
{
    if d.len() > 0 {
        assert(is_digit(d[d.len() - 1]));
        lemma_digits_value_nonneg(d.drop_last());
    }
}

proof fn lemma_digits_value_overflow(d: Seq<char>, j: int)
    requires
        0 <= j <= d.len(),
        digits_value(d.take(j)) > u64::MAX,
    ensures
        decimal_digits_overflow(d),
{
    if forall|q: int| 0 <= q < d.len() ==> is_digit(#[trigger] d[q]) {
        lemma_digits_value_grows(d, j);
    }
}

/// Some character is not a digit, or the value does not fit in 64 bits.
pub open spec fn decimal_digits_overflow(d: Seq<char>) -> bool {
    !(forall|q: int| 0 <= q < d.len() ==> is_digit(#[trigger] d[q])) || digits_value(d) > u64::MAX
}

/// Parse a decimal `u64` as `u64::from_str` does; `None` on any error.
pub fn parse_decimal_u64(s: &str) -> (r: Option<u64>)
    ensures
        r == decimal_u64(s@),
{
    let cs = chars_of(s);
    let mut start: usize = 0;
    if cs.len() > 0 && cs[0] == '+' {
        start = 1;
    }
    let ghost d = unsigned_part(s@);
    assert(d =~= cs@.skip(start as int));
    if start == cs.len() {
        return None;
    }
    let mut v: u64 = 0;
    let mut i: usize = start;
    while i < cs.len()
        invariant
            cs@ == s@,
            d == unsigned_part(s@),
            start <= i <= cs@.len(),
            d == cs@.skip(start as int),
            forall|q: int| 0 <= q < i - start ==> is_digit(#[trigger] d[q]),
            v as int == digits_value(d.take(i - start)),
        decreases cs@.len() - i,
    {
        let c = cs[i];
        assert(c == d[i - start]);
        if !('0' <= c && c <= '9') {
            assert(!is_digit(d[i - start]));
            return None;
        }
        let dig: u64 = ((c as u32) - 48) as u64;
        assert(d.take(i - start + 1).drop_last() =~= d.take(i - start));
        assert(d.take(i - start + 1).last() == c);
        assert(digits_value(d.take(i - start + 1)) == v * 10 + dig);
        match v.checked_mul(10) {
            None => {
                proof {
                    lemma_digits_value_overflow(d, i - start + 1);
                }
                return None;
            },
            Some(w) => match w.checked_add(dig) {
                None => {
                    proof {
                        lemma_digits_value_overflow(d, i - start + 1);
                    }
                    return None;
                },
                Some(x) => {
                    v = x;
                },
            },
        }
        i += 1;
    }
    assert(d.take(d.len() as int) =~= d);
    Some(v)
}

/// `char::is_whitespace`: the Unicode White_Space property.
pub open spec fn is_whitespace(c: char) -> bool {
    let u = c as u32;
    (0x09 <= u && u <= 0x0d) || u == 0x20 || u == 0x85 || u == 0xa0 || u == 0x1680 || (0x2000 <= u
        && u <= 0x200a) || u == 0x2028 || u == 0x2029 || u == 0x202f || u == 0x205f || u == 0x3000
}

pub fn is_whitespace_exec(c: char) -> (r: bool)
    ensures
        r == is_whitespace(c),
{
    let u = c as u32;
    (0x09 <= u && u <= 0x0d) || u == 0x20 || u == 0x85 || u == 0xa0 || u == 0x1680 || (0x2000 <= u
        && u <= 0x200a) || u == 0x2028 || u == 0x2029 || u == 0x202f || u == 0x205f || u == 0x3000
}

/// `str::split_whitespace`: the maximal runs of non-whitespace characters.
pub open spec fn words(s: Seq<char>) -> Seq<Seq<char>>
    decreases s.len(),
{
    if s.len() == 0 {
        Seq::empty()
    } else {
        let w = words(s.drop_last());
        let c = s.last();
        if is_whitespace(c) {
            w
        } else if s.len() >= 2 && !is_whitespace(s[s.len() - 2]) {
            w.drop_last().push(w.last().push(c))
        } else {
            w.push(seq![c])
        }
    }
}

/// A text made only of whitespace has no words; other texts have some.
pub open spec fn is_blank(s: Seq<char>) -> bool {
    forall|i: int| 0 <= i < s.len() ==> is_whitespace(#[trigger] s[i])
}

/// The words of a text, as `str::split_whitespace` gives them.
pub fn split_words(s: &str) -> (r: Vec<String>)
    ensures
        r@.map_values(|w: String| w@) == words(s@),
{
    let cs = chars_of(s);
    let mut out: Vec<String> = Vec::new();
    let mut cur: Vec<char> = Vec::new();
    let mut i: usize = 0;
    while i < cs.len()
        invariant
            cs@ == s@,
            i <= cs@.len(),
            cur@.len() > 0 <==> (i > 0 && !is_whitespace(cs@[i - 1])),
            words(cs@.take(i as int)) == (if cur@.len() > 0 {
                out@.map_values(|w: String| w@).push(cur@)
            } else {
                out@.map_values(|w: String| w@)
            }),
        decreases cs@.len() - i,
    {
        let c = cs[i];
        let ghost before = out@.map_values(|w: String| w@);
        let ghost cur0 = cur@;
        let ghost s1 = cs@.take(i + 1);
        assert(s1.drop_last() =~= cs@.take(i as int));
        assert(s1.last() == c);
        proof {
            if i > 0 {
                assert(s1[i - 1] == cs@[i - 1]);
            }
        }
        if is_whitespace_exec(c) {
            assert(words(s1) == words(cs@.take(i as int)));
            if cur.len() > 0 {
                let w = string_from_chars(cur.as_slice());
                out.push(w);
                cur = Vec::new();
                assert(out@.map_values(|w: String| w@) =~= before.push(cur0));
            }
        } else {
            cur.push(c);
            proof {
                if cur0.len() > 0 {
                    let w0 = words(cs@.take(i as int));
                    assert(w0 == before.push(cur0));
                    assert(w0.drop_last() =~= before);
                    assert(w0.last() == cur0);
                    assert(words(s1) == w0.drop_last().push(w0.last().push(c)));
                } else {
                    assert(words(s1) == before.push(seq![c]));
                    assert(cur@ =~= seq![c]);
                }
            }
        }
        i += 1;
    }
    assert(cs@.take(cs@.len() as int) =~= cs@);
    if cur.len() > 0 {
        let ghost before = out@.map_values(|w: String| w@);
        let w = string_from_chars(cur.as_slice());
        out.push(w);
        assert(out@.map_values(|w: String| w@) =~= before.push(cur@));
    }
    out
}

/// Whether a text is made only of whitespace.
pub fn blank(s: &str) -> (r: bool)
    ensures
        r == is_blank(s@),
{
    let cs = chars_of(s);
    let mut i: usize = 0;
    while i < cs.len()
        invariant
            cs@ == s@,
            i <= cs@.len(),
            forall|q: int| 0 <= q < i ==> is_whitespace(#[trigger] cs@[q]),
        decreases cs@.len() - i,
    {
        if !is_whitespace_exec(cs[i]) {
            return false;
        }
        i += 1;
    }
    true
}

/// `t` occurs in `hay` as a contiguous run.
pub open spec fn contains_text(hay: Seq<char>, t: Seq<char>) -> bool {
    exists|i: int| 0 <= i && i + t.len() <= hay.len() && #[trigger] hay.subrange(i, i + t.len()) == t
}

fn matches_at(hay: &[char], t: &[char], i: usize) -> (r: bool)
    requires
        i + t@.len() <= hay@.len(),
    ensures
        r == (hay@.subrange(i as int, i + t@.len()) == t@),
{
    let mut j: usize = 0;
    while j < t.len()
        invariant
            i + t@.len() <= hay@.len(),
            hay@.len() == hay.len(),
            j <= t@.len(),
            forall|q: int| 0 <= q < j ==> hay@[i + q] == t@[q],
        decreases t@.len() - j,
    {
        if hay[i + j] != t[j] {
            assert(hay@.subrange(i as int, i + t@.len())[j as int] != t@[j as int]);
            return false;
        }
        j += 1;
    }
    assert(hay@.subrange(i as int, i + t@.len()) =~= t@);
    true
}

/// Whether `t` occurs in `hay`.
pub fn chars_contain(hay: &[char], t: &[char]) -> (r: bool)
    ensures
        r == contains_text(hay@, t@),
{
    if t.len() > hay.len() {
        return false;
    }
    let last = hay.len() - t.len();
    let mut i: usize = 0;
    while i < last
        invariant
            last == hay@.len() - t@.len(),
            i <= last,
            forall|q: int| 0 <= q < i ==> #[trigger] hay@.subrange(q, q + t@.len()) != t@,
        decreases last - i,
    {
        if matches_at(hay, t, i) {
            return true;
        }
        i += 1;
    }
    if matches_at(hay, t, last) {
        return true;
    }
    proof {
        if contains_text(hay@, t@) {
            let q = choose|q: int| 0 <= q && q + t@.len() <= hay@.len() && #[trigger] hay@.subrange(q, q + t@.len()) == t@;
            assert(hay@.subrange(q, q + t@.len()) != t@);
        }
    }
    false
}

/// The lowercase form of a text, as `str::to_lowercase` maps it.
pub uninterp spec fn lowercase_text(s: Seq<char>) -> Seq<char>;

/// `str::to_lowercase`: the Unicode lowercase mapping of the text; it is a
/// function of the text alone.
#[verifier::external_body]
pub(crate) fn lowercase(s: &str) -> (r: String)
    ensures
        r@ == lowercase_text(s@),
{
    s.to_lowercase()
}

/// Words one after another, with nothing between them.
pub open spec fn joined(ws: Seq<Seq<char>>) -> Seq<char>
    decreases ws.len(),
{
    if ws.len() == 0 {
        Seq::empty()
    } else {
        joined(ws.drop_last()) + ws.last()
    }
}

/// The characters of a text that are not whitespace, in order.
pub open spec fn non_blank(s: Seq<char>) -> Seq<char>
    decreases s.len(),
{
    if s.len() == 0 {
        Seq::empty()
    } else if is_whitespace(s.last()) {
        non_blank(s.drop_last())
    } else {
        non_blank(s.drop_last()).push(s.last())
    }
}

/// The words of a text are non-empty and hold no whitespace; together they
/// hold every other character of the text, in order; and a word ends where
/// the text ends or a whitespace character follows, so two characters with
/// no whitespace between them are in the same word.
pub proof fn law_words(s: Seq<char>)
    ensures
        forall|i: int| 0 <= i < words(s).len() ==> (#[trigger] words(s)[i]).len() > 0,
        forall|i: int, j: int|
            0 <= i < words(s).len() && 0 <= j < words(s)[i].len() ==> !is_whitespace(#[trigger] words(s)[i][j]),
        joined(words(s)) == non_blank(s),
        s.len() > 0 && !is_whitespace(s.last()) ==> words(s).len() > 0 && words(s).last().last() == s.last(),
        s.len() >= 2 && !is_whitespace(s.last()) && !is_whitespace(s[s.len() - 2]) ==> words(s).len() == words(
            s.drop_last(),
        ).len(),
    decreases s.len(),
{
    if s.len() > 0 {
        let d = s.drop_last();
        law_words(d);
        let w = words(d);
        let c = s.last();
        if is_whitespace(c) {
        } else if s.len() >= 2 && !is_whitespace(s[s.len() - 2]) {
            assert(d.last() == s[s.len() - 2]);
            let w2 = w.drop_last().push(w.last().push(c));
            assert(words(s) == w2);
            assert forall|i: int| 0 <= i < w2.len() implies (#[trigger] w2[i]).len() > 0 by {
                if i < w.len() - 1 {
                    assert(w2[i] == w[i]);
                }
            }
            assert forall|i: int, j: int| 0 <= i < w2.len() && 0 <= j < w2[i].len() implies !is_whitespace(#[trigger] w2[i][j]) by {
                if i < w.len() - 1 {
                    assert(w2[i] == w[i]);
                } else if j < w.last().len() {
                    assert(w2[i][j] == w[w.len() - 1][j]);
                }
            }
            assert(w2.drop_last() =~= w.drop_last());
            assert(w.drop_last().push(w.last()) =~= w);
            assert(joined(w) == joined(w.drop_last()) + w.last());
            assert(joined(w2) =~= joined(w).push(c));
        } else {
            let w2 = w.push(seq![c]);
            assert(words(s) == w2);
            assert forall|i: int| 0 <= i < w2.len() implies (#[trigger] w2[i]).len() > 0 by {
                if i < w.len() {
                    assert(w2[i] == w[i]);
                }
            }
            assert forall|i: int, j: int| 0 <= i < w2.len() && 0 <= j < w2[i].len() implies !is_whitespace(#[trigger] w2[i][j]) by {
                if i < w.len() {
                    assert(w2[i] == w[i]);
                }
            }
            assert(w2.drop_last() =~= w);
            assert(joined(w2) =~= joined(w).push(c));
        }
    }
}

} // verus!
