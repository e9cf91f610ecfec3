//! The decisions of the local web server: which requests it serves (only
//! its own loopback origin), when it compresses, and which query
//! parameters it accepts. The server itself lives outside.

use vstd::prelude::*;

use crate::graph::{Dir, NODE_BUDGET};
use crate::text::{chars_of, digits_value, is_digit, is_whitespace, is_whitespace_exec, string_from_chars};

verus! {

/// A character folded to ASCII lower case, as a code.
pub open spec fn ascii_fold(c: char) -> u32 {
    if 'A' <= c && c <= 'Z' {
        (c as u32 + 32) as u32
    } else {
        c as u32
    }
}

/// Equal up to ASCII case.
pub open spec fn eq_ignore_case(a: Seq<char>, b: Seq<char>) -> bool {
    a.len() == b.len() && forall|i: int| 0 <= i < a.len() ==> #[trigger] ascii_fold(a[i]) == ascii_fold(b[i])
}

fn ascii_fold_exec(c: char) -> (r: u32)
    ensures
        r == ascii_fold(c),
{
    if 'A' <= c && c <= 'Z' {
        c as u32 + 32
    } else {
        c as u32
    }
}

fn eq_ignore_case_exec(a: &[char], b: &[char]) -> (r: bool)
    ensures
        r == eq_ignore_case(a@, b@),
{
    if a.len() != b.len() {
        return false;
    }
    let mut i: usize = 0;
    while i < a.len()
        invariant
            a@.len() == b@.len(),
            i <= a@.len(),
            forall|q: int| 0 <= q < i ==> #[trigger] ascii_fold(a@[q]) == ascii_fold(b@[q]),
        decreases a@.len() - i,
    {
        if ascii_fold_exec(a[i]) != ascii_fold_exec(b[i]) {
            return false;
        }
        i += 1;
    }
    true
}

fn chars_equal(a: &[char], b: &[char]) -> (r: bool)
    ensures
        r == (a@ == b@),
{
    if a.len() != b.len() {
        return false;
    }
    let mut i: usize = 0;
    while i < a.len()
        invariant
            a@.len() == b@.len(),
            i <= a@.len(),
            forall|q: int| 0 <= q < i ==> a@[q] == b@[q],
        decreases a@.len() - i,
    {
        if a[i] != b[i] {
            return false;
        }
        i += 1;
    }
    assert(a@ =~= b@);
    true
}

/// The position of the first occurrence of a character.
pub open spec fn first_index(s: Seq<char>, c: char) -> Option<int>
    decreases s.len(),
{
    if s.len() == 0 {
        None
    } else {
        match first_index(s.drop_last(), c) {
            Some(i) => Some(i),
            None => if s.last() == c {
                Some(s.len() - 1)
            } else {
                None
            },
        }
    }
}

proof fn lemma_first_index(s: Seq<char>, c: char)
    ensures
        match first_index(s, c) {
            Some(i) => 0 <= i < s.len() && s[i] == c && forall|q: int| 0 <= q < i ==> s[q] != c,
            None => forall|q: int| 0 <= q < s.len() ==> s[q] != c,
        },
    decreases s.len(),
{
    if s.len() > 0 {
        lemma_first_index(s.drop_last(), c);
        assert forall|q: int| 0 <= q < s.len() - 1 implies s[q] == s.drop_last()[q] by {}
    }
}

fn first_index_exec(s: &[char], c: char) -> (r: Option<usize>)
    ensures
        match r {
            Some(i) => first_index(s@, c) == Some(i as int),
            None => first_index(s@, c) is None,
        },
{
    proof {
        lemma_first_index(s@, c);
    }
    let mut i: usize = 0;
    while i < s.len()
        invariant
            i <= s@.len(),
            forall|q: int| 0 <= q < i ==> s@[q] != c,
            match first_index(s@, c) {
                Some(j) => 0 <= j < s@.len() && s@[j] == c && forall|q: int| 0 <= q < j ==> s@[q] != c,
                None => forall|q: int| 0 <= q < s@.len() ==> s@[q] != c,
            },
        decreases s@.len() - i,
    {
        if s[i] == c {
            return Some(i);
        }
        i += 1;
    }
    None
}

fn take_chars(s: &[char], n: usize) -> (r: Vec<char>)
    requires
        n <= s@.len(),
    ensures
        r@ == s@.take(n as int),
{
    let mut out: Vec<char> = Vec::new();
    let mut i: usize = 0;
    while i < n
        invariant
            n <= s@.len(),
            i <= n,
            out@ == s@.take(i as int),
        decreases n - i,
    {
        out.push(s[i]);
        assert(s@.take(i + 1) =~= s@.take(i as int).push(s@[i as int]));
        i += 1;
    }
    out
}

fn skip_chars(s: &[char], n: usize) -> (r: Vec<char>)
    requires
        n <= s@.len(),
    ensures
        r@ == s@.skip(n as int),
{
    let mut out: Vec<char> = Vec::new();
    let mut i: usize = n;
    while i < s.len()
        invariant
            n <= i <= s@.len(),
            out@ == s@.subrange(n as int, i as int),
        decreases s@.len() - i,
    {
        out.push(s[i]);
        assert(s@.subrange(n as int, i + 1) =~= s@.subrange(n as int, i as int).push(s@[i as int]));
        i += 1;
    }
    assert(s@.subrange(n as int, s@.len() as int) =~= s@.skip(n as int));
    out
}

pub open spec fn localhost_text() -> Seq<char> {
    seq!['l', 'o', 'c', 'a', 'l', 'h', 'o', 's', 't']
}

pub open spec fn loopback_v4_text() -> Seq<char> {
    seq!['1', '2', '7', '.', '0', '.', '0', '.', '1']
}

pub open spec fn loopback_v6_text() -> Seq<char> {
    seq!['[', ':', ':', '1', ']']
}

/// An authority split into its host and what follows it: a bracketed
/// IPv6 host runs to its closing bracket, any other host to the first
/// colon.
pub open spec fn authority_parts(v: Seq<char>) -> Option<(Seq<char>, Seq<char>)> {
    if v.len() > 0 && v[0] == '[' {
        match first_index(v, ']') {
            Some(i) => Some((v.take(i + 1), v.skip(i + 1))),
            None => None,
        }
    } else {
        match first_index(v, ':') {
            Some(c) => Some((v.take(c), v.skip(c))),
            None => Some((v, Seq::empty())),
        }
    }
}

/// A host name of this machine's loopback interface.
pub open spec fn is_local_host(h: Seq<char>) -> bool {
    eq_ignore_case(h, localhost_text()) || h == loopback_v4_text() || h == loopback_v6_text()
}

/// The port after a host: 80 when none is given, else a colon and a
/// decimal port number that fits in 16 bits.
pub open spec fn port_of(suffix: Seq<char>) -> Option<u16> {
    if suffix.len() == 0 {
        Some(80)
    } else if suffix[0] != ':' {
        None
    } else {
        let p = suffix.drop_first();
        if p.len() > 0 && (forall|i: int| 0 <= i < p.len() ==> is_digit(#[trigger] p[i]))
            && digits_value(p) <= u16::MAX {
            Some(digits_value(p) as u16)
        } else {
            None
        }
    }
}

/// A whole authority naming this machine's loopback interface, with its
/// port; anything else (userinfo, a path, a malformed port) is refused.
pub open spec fn local_authority_of(v: Seq<char>) -> Option<(Seq<char>, u16)> {
    match authority_parts(v) {
        None => None,
        Some((host, suffix)) => if !is_local_host(host) {
            None
        } else {
            match port_of(suffix) {
                Some(port) => Some((host, port)),
                None => None,
            }
        },
    }
}

fn port_exec(suffix: &[char]) -> (r: Option<u16>)
    ensures
        r == port_of(suffix@),
{
    if suffix.len() == 0 {
        return Some(80);
    }
    if suffix[0] != ':' {
        return None;
    }
    let p = skip_chars(suffix, 1);
    assert(p@ =~= suffix@.drop_first());
    if p.len() == 0 {
        return None;
    }
    let mut v: u32 = 0;
    let mut i: usize = 0;
    while i < p.len()
        invariant
            suffix@.len() > 0,
            suffix@[0] == ':',
            p@ == suffix@.drop_first(),
            p@.len() > 0,
            i <= p@.len(),
            forall|q: int| 0 <= q < i ==> is_digit(#[trigger] p@[q]),
            v == digits_value(p@.take(i as int)),
            v <= u16::MAX,
        decreases p@.len() - i,
    {
        let c = p[i];
        if !('0' <= c && c <= '9') {
            assert(!is_digit(p@[i as int]));
            assert(!(forall|q: int| 0 <= q < p@.len() ==> is_digit(#[trigger] p@[q])));
            return None;
        }
        assert(p@.take(i + 1).drop_last() =~= p@.take(i as int));
        assert(p@.take(i + 1).last() == c);
        let d = c as u32 - 48;
        let nv = v * 10 + d;
        assert(digits_value(p@.take(i + 1)) == nv);
        if nv > 65535 {
            proof {
                if forall|q: int| 0 <= q < p@.len() ==> is_digit(#[trigger] p@[q]) {
                    crate::text::lemma_digits_value_grows(p@, i + 1);
                }
            }
            return None;
        }
        v = nv;
        i += 1;
    }
    assert(p@.take(p@.len() as int) =~= p@);
    Some(v as u16)
}

fn local_authority_chars(v: &[char]) -> (r: Option<(Vec<char>, u16)>)
    ensures
        match r {
            Some((h, p)) => local_authority_of(v@) == Some((h@, p)),
            None => local_authority_of(v@) is None,
        },
{
    let (host, suffix) = if v.len() > 0 && v[0] == '[' {
        match first_index_exec(v, ']') {
            Some(i) => {
                proof {
                    lemma_first_index(v@, ']');
                }
                (take_chars(v, i + 1), skip_chars(v, i + 1))
            },
            None => {
                return None;
            },
        }
    } else {
        match first_index_exec(v, ':') {
            Some(c) => {
                proof {
                    lemma_first_index(v@, ':');
                }
                (take_chars(v, c), skip_chars(v, c))
            },
            None => (take_chars(v, v.len()), Vec::new()),
        }
    };
    assert(v@.take(v@.len() as int) =~= v@);
    let local = eq_ignore_case_exec(host.as_slice(), &['l', 'o', 'c', 'a', 'l', 'h', 'o', 's', 't'])
        || chars_equal(host.as_slice(), &['1', '2', '7', '.', '0', '.', '0', '.', '1'])
        || chars_equal(host.as_slice(), &['[', ':', ':', '1', ']']);
    assert(['l', 'o', 'c', 'a', 'l', 'h', 'o', 's', 't']@ =~= localhost_text());
    assert(['1', '2', '7', '.', '0', '.', '0', '.', '1']@ =~= loopback_v4_text());
    assert(['[', ':', ':', '1', ']']@ =~= loopback_v6_text());
    if !local {
        return None;
    }
    match port_exec(suffix.as_slice()) {
        Some(port) => Some((host, port)),
        None => None,
    }
}

/// The host and port of an authority naming this machine's loopback
/// interface.
pub fn local_authority(value: &str) -> (r: Option<(String, u16)>)
    ensures
        match r {
            Some((h, p)) => local_authority_of(value@) == Some((h@, p)),
            None => local_authority_of(value@) is None,
        },
{
    let cs = chars_of(value);
    match local_authority_chars(cs.as_slice()) {
        Some((h, p)) => Some((string_from_chars(h.as_slice()), p)),
        None => None,
    }
}

pub open spec fn http_scheme() -> Seq<char> {
    seq!['h', 't', 't', 'p', ':', '/', '/']
}

/// Only this server's exact origin may reach it from a browser: an
/// `http://` origin whose loopback host matches the request's host (up to
/// case) and whose port is the same.
pub open spec fn origin_matches(origin: Seq<char>, host: Seq<char>) -> bool {
    if origin.len() >= 7 && origin.take(7) == http_scheme() {
        match (local_authority_of(origin.skip(7)), local_authority_of(host)) {
            (Some((oh, op)), Some((hh, hp))) => eq_ignore_case(hh, oh) && hp == op,
            _ => false,
        }
    } else {
        false
    }
}

/// Whether a browser origin is this server's own.
pub fn origin_matches_host(origin: &str, host: &str) -> (r: bool)
    ensures
        r == origin_matches(origin@, host@),
{
    let o = chars_of(origin);
    if o.len() < 7 {
        return false;
    }
    let scheme = take_chars(o.as_slice(), 7);
    assert(['h', 't', 't', 'p', ':', '/', '/']@ =~= http_scheme());
    if !chars_equal(scheme.as_slice(), &['h', 't', 't', 'p', ':', '/', '/']) {
        return false;
    }
    let rest = skip_chars(o.as_slice(), 7);
    let h = chars_of(host);
    match (local_authority_chars(rest.as_slice()), local_authority_chars(h.as_slice())) {
        (Some((oh, op)), Some((hh, hp))) => eq_ignore_case_exec(hh.as_slice(), oh.as_slice()) && hp
            == op,
        _ => false,
    }
}

pub open spec fn all_digits(s: Seq<char>) -> bool {
    forall|i: int| 0 <= i < s.len() ==> is_digit(#[trigger] s[i])
}

/// A `q` value split at its first dot into the whole part and the
/// decimals.
pub open spec fn q_parts(v: Seq<char>) -> (Seq<char>, Seq<char>) {
    match first_index(v, '.') {
        Some(i) => (v.take(i), v.skip(i + 1)),
        None => (v, Seq::empty()),
    }
}

/// `1` with up to three zero decimals, or `0` with up to three decimals
/// not all zero.
pub open spec fn q_value_ok(whole: Seq<char>, fraction: Seq<char>) -> bool {
    if fraction.len() > 3 || !all_digits(fraction) {
        false
    } else if whole == seq!['1'] {
        forall|i: int| 0 <= i < fraction.len() ==> #[trigger] fraction[i] == '0'
    } else if whole == seq!['0'] {
        exists|i: int| 0 <= i < fraction.len() && #[trigger] fraction[i] != '0'
    } else {
        false
    }
}

/// A `q` value that admits an encoding.
pub open spec fn positive_q(v: Seq<char>) -> bool {
    q_value_ok(q_parts(v).0, q_parts(v).1)
}

fn positive_quality_chars(v: &[char]) -> (r: bool)
    ensures
        r == positive_q(v@),
{
    let (whole, fraction) = match first_index_exec(v, '.') {
        Some(i) => {
            proof {
                lemma_first_index(v@, '.');
            }
            assert(i < v.len());
            (take_chars(v, i), skip_chars(v, i + 1))
        },
        None => (take_chars(v, v.len()), Vec::new()),
    };
    assert(v@.take(v@.len() as int) =~= v@);
    let ghost spec_parts = q_parts(v@);
    assert(whole@ == spec_parts.0);
    assert(fraction@ =~= spec_parts.1);
    if fraction.len() > 3 {
        return false;
    }
    let mut i: usize = 0;
    let mut all_zero = true;
    while i < fraction.len()
        invariant
            fraction@ == spec_parts.1,
            fraction@.len() <= 3,
            spec_parts == q_parts(v@),
            i <= fraction@.len(),
            forall|q: int| 0 <= q < i ==> is_digit(#[trigger] fraction@[q]),
            all_zero <==> forall|q: int| 0 <= q < i ==> #[trigger] fraction@[q] == '0',
        decreases fraction@.len() - i,
    {
        let c = fraction[i];
        if !('0' <= c && c <= '9') {
            assert(!is_digit(fraction@[i as int]));
            assert(!all_digits(fraction@));
            return false;
        }
        if c != '0' {
            all_zero = false;
        }
        i += 1;
    }
    assert(all_digits(fraction@));
    assert(!all_zero ==> exists|q: int| 0 <= q < fraction@.len() && #[trigger] fraction@[q] != '0');
    let one = whole.len() == 1 && whole[0] == '1';
    let zero = whole.len() == 1 && whole[0] == '0';
    assert(one <==> whole@ =~= seq!['1']);
    assert(zero <==> whole@ =~= seq!['0']);
    assert(whole@ == spec_parts.0);
    assert(fraction@ == spec_parts.1);
    assert(all_zero <==> forall|q: int| 0 <= q < fraction@.len() ==> #[trigger] fraction@[q] == '0');
    if one {
        all_zero
    } else if zero {
        !all_zero
    } else {
        false
    }
}

/// Whether a `q` parameter value admits its encoding.
pub fn positive_quality(value: &str) -> (r: bool)
    ensures
        r == positive_q(value@),
{
    let cs = chars_of(value);
    positive_quality_chars(cs.as_slice())
}

/// A character Guix package names use.
pub open spec fn name_char(c: char) -> bool {
    ('a' <= c && c <= 'z') || ('A' <= c && c <= 'Z') || ('0' <= c && c <= '9') || c == '+' || c
        == '-' || c == '.' || c == '_'
}

/// Package names from a URL: one to 128 characters, each one Guix uses.
pub open spec fn valid_name(name: Seq<char>) -> bool {
    0 < name.len() <= 128 && forall|i: int| 0 <= i < name.len() ==> name_char(#[trigger] name[i])
}

/// Whether a package name from a URL may reach the index.
pub fn valid_package_name(name: &str) -> (r: bool)
    ensures
        r == valid_name(name@),
{
    let cs = chars_of(name);
    if cs.len() == 0 || cs.len() > 128 {
        return false;
    }
    let mut i: usize = 0;
    while i < cs.len()
        invariant
            cs@ == name@,
            i <= cs@.len(),
            forall|q: int| 0 <= q < i ==> name_char(#[trigger] cs@[q]),
        decreases cs@.len() - i,
    {
        let c = cs[i];
        if !(('a' <= c && c <= 'z') || ('A' <= c && c <= 'Z') || ('0' <= c && c <= '9') || c == '+'
            || c == '-' || c == '.' || c == '_') {
            return false;
        }
        i += 1;
    }
    true
}

/// `str::split` on one character: the texts between separators, empty
/// ones included.
pub open spec fn pieces(s: Seq<char>, sep: char) -> Seq<Seq<char>>
    decreases s.len(),
{
    if s.len() == 0 {
        seq![Seq::empty()]
    } else {
        let p = pieces(s.drop_last(), sep);
        if s.last() == sep {
            p.push(Seq::empty())
        } else {
            p.update(p.len() - 1, p.last().push(s.last()))
        }
    }
}

proof fn lemma_pieces_nonempty(s: Seq<char>, sep: char)
    ensures
        pieces(s, sep).len() >= 1,
    decreases s.len(),
{
    if s.len() > 0 {
        lemma_pieces_nonempty(s.drop_last(), sep);
    }
}

/// Leading whitespace removed.
pub open spec fn trim_start(s: Seq<char>) -> Seq<char>
    decreases s.len(),
{
    if s.len() > 0 && is_whitespace(s[0]) {
        trim_start(s.drop_first())
    } else {
        s
    }
}

/// Trailing whitespace removed.
pub open spec fn trim_end(s: Seq<char>) -> Seq<char>
    decreases s.len(),
{
    if s.len() > 0 && is_whitespace(s.last()) {
        trim_end(s.drop_last())
    } else {
        s
    }
}

/// `str::trim`.
pub open spec fn trim(s: Seq<char>) -> Seq<char> {
    trim_end(trim_start(s))
}

fn split_chars(s: &[char], sep: char) -> (r: Vec<Vec<char>>)
    ensures
        r@.map_values(|p: Vec<char>| p@) == pieces(s@, sep),
{
    let mut out: Vec<Vec<char>> = Vec::new();
    let mut cur: Vec<char> = Vec::new();
    let mut i: usize = 0;
    while i < s.len()
        invariant
            i <= s@.len(),
            pieces(s@.take(i as int), sep) == out@.map_values(|p: Vec<char>| p@).push(cur@),
        decreases s@.len() - i,
    {
        let c = s[i];
        let ghost before = out@.map_values(|p: Vec<char>| p@);
        assert(s@.take(i + 1).drop_last() =~= s@.take(i as int));
        assert(s@.take(i + 1).last() == c);
        if c == sep {
            let done = cur;
            let ghost d = done@;
            out.push(done);
            cur = Vec::new();
            assert(out@.map_values(|p: Vec<char>| p@) =~= before.push(d));
            assert(pieces(s@.take(i + 1), sep) =~= out@.map_values(|p: Vec<char>| p@).push(cur@));
        } else {
            let ghost c0 = cur@;
            cur.push(c);
            assert(pieces(s@.take(i + 1), sep) =~= before.push(c0).update(before.len() as int, c0.push(c)));
            assert(before.push(c0).update(before.len() as int, c0.push(c)) =~= before.push(cur@));
        }
        i += 1;
    }
    assert(s@.take(s@.len() as int) =~= s@);
    let ghost before = out@.map_values(|p: Vec<char>| p@);
    out.push(cur);
    assert(out@.map_values(|p: Vec<char>| p@) =~= before.push(out@.last()@));
    out
}

pub(crate) fn trim_chars(s: &[char]) -> (r: Vec<char>)
    ensures
        r@ == trim(s@),
{
    let mut a: usize = 0;
    assert(s@.skip(0) =~= s@);
    while a < s.len() && is_whitespace_exec(s[a])
        invariant
            a <= s@.len(),
            trim_start(s@) == trim_start(s@.skip(a as int)),
        decreases s@.len() - a,
    {
        assert(s@.skip(a as int).drop_first() =~= s@.skip(a + 1));
        a += 1;
    }
    let mid = skip_chars(s, a);
    assert(trim_start(s@) == mid@);
    let mut b: usize = mid.len();
    assert(mid@.take(mid@.len() as int) =~= mid@);
    while b > 0 && is_whitespace_exec(mid[b - 1])
        invariant
            b <= mid@.len(),
            trim_end(mid@) == trim_end(mid@.take(b as int)),
        decreases b,
    {
        assert(mid@.take(b as int).drop_last() =~= mid@.take(b - 1));
        b -= 1;
    }
    assert(mid@.take(mid@.len() as int) =~= mid@);
    take_chars(mid.as_slice(), b)
}

/// A `q=value` parameter whose value admits the encoding.
pub open spec fn q_param_ok(p: Seq<char>) -> bool {
    let t = trim(p);
    match first_index(t, '=') {
        None => false,
        Some(i) => eq_ignore_case(trim(t.take(i)), seq!['q']) && positive_q(trim(t.skip(i + 1))),
    }
}

/// The parameters of an encoding admit it: none at all, or a single
/// positive `q`.
pub open spec fn params_ok(ps: Seq<Seq<char>>) -> bool {
    ps.len() == 0 || (ps.len() == 1 && q_param_ok(ps[0]))
}

/// The encoding an `Accept-Encoding` entry names.
pub open spec fn entry_coding(e: Seq<char>) -> Seq<char> {
    trim(pieces(e, ';')[0])
}

/// Whether an entry admits its encoding.
pub open spec fn entry_ok(e: Seq<char>) -> bool {
    params_ok(pieces(e, ';').drop_first())
}

pub open spec fn gzip_text() -> Seq<char> {
    seq!['g', 'z', 'i', 'p']
}

pub open spec fn x_gzip_text() -> Seq<char> {
    seq!['x', '-', 'g', 'z', 'i', 'p']
}

/// An entry for gzip (`gzip` or `x-gzip`, in any case), or, for `gzip`
/// false, the wildcard `*`.
pub open spec fn entry_is(e: Seq<char>, gzip: bool) -> bool {
    let c = entry_coding(e);
    let is_gzip = eq_ignore_case(c, gzip_text()) || eq_ignore_case(c, x_gzip_text());
    if gzip {
        is_gzip
    } else {
        !is_gzip && c == seq!['*']
    }
}

/// The verdict of the entries of one kind: none when there are none,
/// otherwise whether every one of them admits the encoding.
pub open spec fn slot_of(es: Seq<Seq<char>>, gzip: bool) -> Option<bool>
    decreases es.len(),
{
    if es.len() == 0 {
        None
    } else {
        let r = slot_of(es.drop_last(), gzip);
        if entry_is(es.last(), gzip) {
            Some(
                match r {
                    Some(b) => b,
                    None => true,
                } && entry_ok(es.last()),
            )
        } else {
            r
        }
    }
}

/// The entries of all `Accept-Encoding` headers, in order.
pub open spec fn entries_of(hs: Seq<Seq<char>>) -> Seq<Seq<char>>
    decreases hs.len(),
{
    if hs.len() == 0 {
        Seq::empty()
    } else {
        entries_of(hs.drop_last()) + pieces(hs.last(), ',')
    }
}

/// Whether the client accepts gzip: an explicit gzip entry decides over
/// the wildcard, repeated entries must all admit it, and a header that is
/// not visible text refuses it.
pub open spec fn accepts_gzip_of(headers: Seq<Option<Seq<char>>>) -> bool {
    if exists|k: int| 0 <= k < headers.len() && #[trigger] headers[k] is None {
        false
    } else {
        let es = entries_of(headers.map_values(|h: Option<Seq<char>>| h->0));
        match slot_of(es, true) {
            Some(b) => b,
            None => match slot_of(es, false) {
                Some(b) => b,
                None => false,
            },
        }
    }
}

fn q_param_ok_exec(p: &[char]) -> (r: bool)
    ensures
        r == q_param_ok(p@),
{
    let t = trim_chars(p);
    match first_index_exec(t.as_slice(), '=') {
        None => false,
        Some(i) => {
            proof {
                lemma_first_index(t@, '=');
            }
            assert(i < t.len());
            let name = take_chars(t.as_slice(), i);
            let value = skip_chars(t.as_slice(), i + 1);
            let tn = trim_chars(name.as_slice());
            let tv = trim_chars(value.as_slice());
            let is_q = tn.len() == 1 && ascii_fold_exec(tn[0]) == 113;
            assert(is_q == eq_ignore_case(tn@, seq!['q'])) by {
                assert(ascii_fold(seq!['q'][0]) == 113);
            }
            is_q && positive_quality_chars(tv.as_slice())
        },
    }
}

fn entry_info(e: &[char]) -> (r: (bool, bool, bool))
    ensures
        r.0 == entry_is(e@, true),
        r.1 == entry_is(e@, false),
        r.2 == entry_ok(e@),
{
    let parts = split_chars(e, ';');
    let ghost pv = parts@.map_values(|p: Vec<char>| p@);
    proof {
        lemma_pieces_nonempty(e@, ';');
    }
    assert(pv.len() >= 1);
    let coding = trim_chars(parts[0].as_slice());
    assert(coding@ == entry_coding(e@));
    let g = eq_ignore_case_exec(coding.as_slice(), &['g', 'z', 'i', 'p'])
        || eq_ignore_case_exec(coding.as_slice(), &['x', '-', 'g', 'z', 'i', 'p']);
    assert(['g', 'z', 'i', 'p']@ =~= gzip_text());
    assert(['x', '-', 'g', 'z', 'i', 'p']@ =~= x_gzip_text());
    let star = coding.len() == 1 && coding[0] == '*';
    assert(star == (coding@ == seq!['*'])) by {
        if coding@.len() == 1 && coding@[0] == '*' {
            assert(coding@ =~= seq!['*']);
        }
    }
    let ok = if parts.len() == 1 {
        true
    } else if parts.len() == 2 {
        q_param_ok_exec(parts[1].as_slice())
    } else {
        false
    };
    assert(pv.drop_first().len() == pv.len() - 1);
    proof {
        if parts@.len() == 2 {
            assert(pv.drop_first()[0] == parts@[1]@);
        }
    }
    (g, !g && star, ok)
}

/// Whether the client accepts a gzip-encoded response, given the values of
/// its `Accept-Encoding` headers (`None` for a value that is not visible
/// text).
pub fn accepts_gzip(headers: &Vec<Option<String>>) -> (r: bool)
    ensures
        r == accepts_gzip_of(headers@.map_values(|h: Option<String>| match h {
            Some(s) => Some(s@),
            None => None,
        })),
{
    let ghost hv = headers@.map_values(|h: Option<String>| match h {
        Some(s) => Some(s@),
        None => None,
    });
    let ghost texts = hv.map_values(|h: Option<Seq<char>>| h->0);
    let mut gzip: Option<bool> = None;
    let mut wildcard: Option<bool> = None;
    let mut k: usize = 0;
    while k < headers.len()
        invariant
            k <= headers@.len(),
            hv == headers@.map_values(|h: Option<String>| match h {
                Some(s) => Some(s@),
                None => None,
            }),
            hv.len() == headers@.len(),
            texts.len() == headers@.len(),
            forall|q: int| 0 <= q < headers@.len() ==> #[trigger] hv[q] == match headers@[q] {
                Some(s) => Some(s@),
                None => None::<Seq<char>>,
            },
            forall|q: int| 0 <= q < headers@.len() ==> #[trigger] texts[q] == hv[q]->0,
            forall|q: int| 0 <= q < k ==> #[trigger] hv[q] is Some,
            gzip == slot_of(entries_of(texts.take(k as int)), true),
            wildcard == slot_of(entries_of(texts.take(k as int)), false),
        decreases headers@.len() - k,
    {
        let h = match &headers[k] {
            Some(h) => h,
            None => {
                assert(hv[k as int] is None);
                return false;
            },
        };
        let cs = chars_of(h.as_str());
        assert(texts[k as int] == cs@);
        let entries = split_chars(cs.as_slice(), ',');
        let ghost ev = entries@.map_values(|p: Vec<char>| p@);
        let ghost base = entries_of(texts.take(k as int));
        assert(texts.take(k + 1).drop_last() =~= texts.take(k as int));
        assert(texts.take(k + 1).last() == cs@);
        assert(entries_of(texts.take(k + 1)) == base + ev);
        let mut m: usize = 0;
        while m < entries.len()
            invariant
                ev == entries@.map_values(|p: Vec<char>| p@),
                m <= entries@.len(),
                gzip == slot_of(base + ev.take(m as int), true),
                wildcard == slot_of(base + ev.take(m as int), false),
            decreases entries@.len() - m,
        {
            let (g, star, ok) = entry_info(entries[m].as_slice());
            assert((base + ev.take(m + 1)).drop_last() =~= base + ev.take(m as int));
            assert((base + ev.take(m + 1)).last() == entries@[m as int]@);
            if g {
                gzip = Some(
                    match gzip {
                        Some(b) => b,
                        None => true,
                    } && ok,
                );
            } else if star {
                wildcard = Some(
                    match wildcard {
                        Some(b) => b,
                        None => true,
                    } && ok,
                );
            }
            m += 1;
        }
        assert(ev.take(ev.len() as int) =~= ev);
        k += 1;
    }
    assert(texts.take(headers@.len() as int) =~= texts);
    assert(!exists|q: int| 0 <= q < hv.len() && #[trigger] hv[q] is None);
    match gzip {
        Some(b) => b,
        None => match wildcard {
            Some(b) => b,
            None => false,
        },
    }
}

pub open spec fn texts_of(hs: Seq<Option<String>>) -> Seq<Option<Seq<char>>> {
    hs.map_values(|h: Option<String>| match h {
        Some(s) => Some(s@),
        None => None,
    })
}

/// A browser's own classification of a request that the server accepts.
pub open spec fn same_site_value(s: Seq<char>) -> bool {
    s == seq!['s', 'a', 'm', 'e', '-', 'o', 'r', 'i', 'g', 'i', 'n'] || s == seq![
        's',
        'a',
        'm',
        'e',
        '-',
        's',
        'i',
        't',
        'e',
    ] || s == seq!['n', 'o', 'n', 'e']
}

/// Which requests the server answers: exactly one `Host` header naming
/// this machine's loopback interface, a loopback peer, at most a single
/// `Origin` that is this server's own, and at most a single
/// `Sec-Fetch-Site` that is not cross-site.
pub open spec fn request_allowed_of(
    hosts: Seq<Option<Seq<char>>>,
    peer_loopback: bool,
    origins: Seq<Option<Seq<char>>>,
    sites: Seq<Option<Seq<char>>>,
) -> bool {
    let host_ok = hosts.len() == 1 && match hosts[0] {
        Some(h) => local_authority_of(h) is Some,
        None => false,
    };
    let origin_ok = origins.len() == 0 || (origins.len() == 1 && match origins[0] {
        Some(o) => origin_matches(o, hosts[0]->0),
        None => false,
    });
    let site_ok = sites.len() == 0 || (sites.len() == 1 && match sites[0] {
        Some(s) => same_site_value(s),
        None => false,
    });
    host_ok && peer_loopback && origin_ok && site_ok
}

fn same_site_exec(s: &str) -> (r: bool)
    ensures
        r == same_site_value(s@),
{
    let cs = chars_of(s);
    let a = ['s', 'a', 'm', 'e', '-', 'o', 'r', 'i', 'g', 'i', 'n'];
    let b = ['s', 'a', 'm', 'e', '-', 's', 'i', 't', 'e'];
    let c = ['n', 'o', 'n', 'e'];
    assert(a@ =~= seq!['s', 'a', 'm', 'e', '-', 'o', 'r', 'i', 'g', 'i', 'n']);
    assert(b@ =~= seq!['s', 'a', 'm', 'e', '-', 's', 'i', 't', 'e']);
    assert(c@ =~= seq!['n', 'o', 'n', 'e']);
    chars_equal(cs.as_slice(), &a) || chars_equal(cs.as_slice(), &b) || chars_equal(cs.as_slice(), &c)
}

/// Whether the server answers a request, given the values of its `Host`,
/// `Origin` and `Sec-Fetch-Site` headers (`None` for a value that is not
/// visible text) and whether the peer is on loopback.
pub fn request_allowed(
    hosts: &Vec<Option<String>>,
    peer_loopback: bool,
    origins: &Vec<Option<String>>,
    sites: &Vec<Option<String>>,
) -> (r: bool)
    ensures
        r == request_allowed_of(texts_of(hosts@), peer_loopback, texts_of(origins@), texts_of(sites@)),
{
    let ghost (hv, ov, sv) = (texts_of(hosts@), texts_of(origins@), texts_of(sites@));
    if hosts.len() != 1 || !peer_loopback {
        return false;
    }
    let host = match &hosts[0] {
        Some(h) => h,
        None => {
            assert(hv[0] is None);
            return false;
        },
    };
    assert(hv[0] == Some(host@));
    if local_authority(host.as_str()).is_none() {
        return false;
    }
    if origins.len() > 0 {
        if origins.len() != 1 {
            return false;
        }
        match &origins[0] {
            Some(o) => {
                assert(ov[0] == Some(o@));
                if !origin_matches_host(o.as_str(), host.as_str()) {
                    return false;
                }
            },
            None => {
                assert(ov[0] is None);
                return false;
            },
        }
    }
    if sites.len() > 0 {
        if sites.len() != 1 {
            return false;
        }
        match &sites[0] {
            Some(x) => {
                assert(sv[0] == Some(x@));
                if !same_site_exec(x.as_str()) {
                    return false;
                }
            },
            None => {
                assert(sv[0] is None);
                return false;
            },
        }
    }
    true
}

/// The longest query the search endpoint takes, in characters.
pub const MAX_QUERY_CHARS: usize = 200;

/// Whether a search query is over the length limit.
pub fn query_too_long(q: &str) -> (r: bool)
    ensures
        r == (q@.len() > MAX_QUERY_CHARS),
{
    let cs = chars_of(q);
    cs.len() > MAX_QUERY_CHARS
}

/// The result count of a search request: 50 unless given, and between 1
/// and 500.
pub open spec fn search_limit_of(limit: Option<usize>) -> usize {
    let l = match limit {
        Some(l) => l,
        None => 50,
    };
    if l < 1 {
        1
    } else if l > 500 {
        500
    } else {
        l
    }
}

pub fn search_limit(limit: Option<usize>) -> (r: usize)
    ensures
        r == search_limit_of(limit),
{
    let l = match limit {
        Some(l) => l,
        None => 50,
    };
    if l < 1 {
        1
    } else if l > 500 {
        500
    } else {
        l
    }
}

/// The direction a graph request names: dependencies unless `reverse` or
/// `dependents` is asked for; `None` for anything else.
pub open spec fn graph_dir_of(dir: Option<Seq<char>>) -> Option<Dir> {
    match dir {
        None => Some(Dir::Deps),
        Some(d) => if d == seq!['d', 'e', 'p', 's'] {
            Some(Dir::Deps)
        } else if d == seq!['r', 'e', 'v', 'e', 'r', 's', 'e'] || d == seq![
            'd',
            'e',
            'p',
            'e',
            'n',
            'd',
            'e',
            'n',
            't',
            's',
        ] {
            Some(Dir::Dependents)
        } else {
            None
        },
    }
}

pub fn graph_dir(dir: &Option<String>) -> (r: Option<Dir>)
    ensures
        r == graph_dir_of(match dir {
            Some(s) => Some(s@),
            None => None,
        }),
{
    match dir {
        None => Some(Dir::Deps),
        Some(d) => {
            let cs = chars_of(d.as_str());
            let deps = ['d', 'e', 'p', 's'];
            let reverse = ['r', 'e', 'v', 'e', 'r', 's', 'e'];
            let dependents = ['d', 'e', 'p', 'e', 'n', 'd', 'e', 'n', 't', 's'];
            assert(deps@ =~= seq!['d', 'e', 'p', 's']);
            assert(reverse@ =~= seq!['r', 'e', 'v', 'e', 'r', 's', 'e']);
            assert(dependents@ =~= seq!['d', 'e', 'p', 'e', 'n', 'd', 'e', 'n', 't', 's']);
            if chars_equal(cs.as_slice(), &deps) {
                Some(Dir::Deps)
            } else if chars_equal(cs.as_slice(), &reverse) || chars_equal(
                cs.as_slice(),
                &dependents,
            ) {
                Some(Dir::Dependents)
            } else {
                None
            }
        },
    }
}

/// The depth of a graph request: 2 unless given; `None` outside 1 to 8.
pub open spec fn graph_depth_of(depth: Option<u8>) -> Option<u8> {
    let d = match depth {
        Some(d) => d,
        None => 2,
    };
    if 1 <= d && d <= 8 {
        Some(d)
    } else {
        None
    }
}

pub fn graph_depth(depth: Option<u8>) -> (r: Option<u8>)
    ensures
        r == graph_depth_of(depth),
{
    let d = match depth {
        Some(d) => d,
        None => 2,
    };
    if 1 <= d && d <= 8 {
        Some(d)
    } else {
        None
    }
}

/// The node budget of a graph request: the drawing budget unless a
/// smaller one is asked for.
pub fn graph_budget(budget: Option<usize>) -> (r: usize)
    ensures
        r == match budget {
            Some(b) => if b < NODE_BUDGET {
                b
            } else {
                NODE_BUDGET
            },
            None => NODE_BUDGET,
        },
{
    match budget {
        Some(b) => if b < NODE_BUDGET {
            b
        } else {
            NODE_BUDGET
        },
        None => NODE_BUDGET,
    }
}


/// Some entry is for gzip (`gzip` true) or is the wildcard (`gzip` false).
pub open spec fn has_entry(es: Seq<Seq<char>>, gzip: bool) -> bool {
    exists|k: int| 0 <= k < es.len() && entry_is(#[trigger] es[k], gzip)
}

/// Every entry for gzip (or every wildcard entry) admits the encoding.
pub open spec fn all_admit(es: Seq<Seq<char>>, gzip: bool) -> bool {
    forall|k: int| 0 <= k < es.len() && entry_is(#[trigger] es[k], gzip) ==> entry_ok(es[k])
}

proof fn lemma_slot_of(es: Seq<Seq<char>>, gzip: bool)
    ensures
        slot_of(es, gzip) == if has_entry(es, gzip) {
            Some(all_admit(es, gzip))
        } else {
            None
        },
    decreases es.len(),
{
    if es.len() > 0 {
        let d = es.drop_last();
        lemma_slot_of(d, gzip);
        let last = es.len() - 1;
        assert(es.last() == es[last]);
        assert forall|k: int| 0 <= k < d.len() implies d[k] == es[k] by {}
        if has_entry(d, gzip) {
            let k = choose|k: int| 0 <= k < d.len() && entry_is(#[trigger] d[k], gzip);
            assert(entry_is(es[k], gzip));
        }
        if has_entry(es, gzip) && !entry_is(es[last], gzip) {
            let k = choose|k: int| 0 <= k < es.len() && entry_is(#[trigger] es[k], gzip);
            assert(entry_is(d[k], gzip));
        }
        if all_admit(es, gzip) {
            assert forall|k: int| 0 <= k < d.len() && entry_is(#[trigger] d[k], gzip) implies entry_ok(d[k]) by {
                assert(entry_is(es[k], gzip));
            }
        }
        if all_admit(d, gzip) && (!entry_is(es[last], gzip) || entry_ok(es[last])) {
            assert forall|k: int| 0 <= k < es.len() && entry_is(#[trigger] es[k], gzip) implies entry_ok(es[k]) by {
                if k < last {
                    assert(entry_is(d[k], gzip));
                }
            }
        }
        if !all_admit(d, gzip) {
            let k = choose|k: int| 0 <= k < d.len() && entry_is(#[trigger] d[k], gzip) && !entry_ok(d[k]);
            assert(entry_is(es[k], gzip) && !entry_ok(es[k]));
        }
    }
}

/// Whether gzip is accepted does not depend on the order of the entries:
/// an explicit gzip entry decides over the wildcard, and then every gzip
/// entry must admit it; without one, every wildcard entry must; a single
/// refusal among repeated entries refuses.
pub proof fn law_gzip_verdict(headers: Seq<Option<Seq<char>>>)
    requires
        forall|k: int| 0 <= k < headers.len() ==> (#[trigger] headers[k]) is Some,
    ensures
        ({
            let es = entries_of(headers.map_values(|h: Option<Seq<char>>| h->0));
            accepts_gzip_of(headers) == if has_entry(es, true) {
                all_admit(es, true)
            } else {
                has_entry(es, false) && all_admit(es, false)
            }
        }),
{
    let es = entries_of(headers.map_values(|h: Option<Seq<char>>| h->0));
    lemma_slot_of(es, true);
    lemma_slot_of(es, false);
    assert(!exists|k: int| 0 <= k < headers.len() && #[trigger] headers[k] is None);
}

/// Only local requests are answered: the peer is on loopback, there is
/// exactly one `Host` header and it names this machine's loopback
/// interface; an `Origin`, when sent, is that same host and port, and a
/// `Sec-Fetch-Site`, when sent, is not cross-site.
pub proof fn law_only_local_requests(
    hosts: Seq<Option<Seq<char>>>,
    peer_loopback: bool,
    origins: Seq<Option<Seq<char>>>,
    sites: Seq<Option<Seq<char>>>,
)
    requires
        request_allowed_of(hosts, peer_loopback, origins, sites),
    ensures
        peer_loopback,
        hosts.len() == 1,
        hosts[0] is Some,
        local_authority_of(hosts[0]->0) is Some,
        is_local_host((local_authority_of(hosts[0]->0)->0).0),
        origins.len() > 0 ==> origins.len() == 1 && origins[0] is Some && origin_matches(
            origins[0]->0,
            hosts[0]->0,
        ),
        sites.len() > 0 ==> sites.len() == 1 && sites[0] is Some && same_site_value(sites[0]->0),
{
}

/// A graph request walks forward dependencies when no direction is given,
/// and for an explicit value exactly when that value is `deps`; it walks
/// dependents exactly for `reverse` and `dependents`, which name the other
/// direction; every other value is refused.
pub proof fn law_graph_direction(d: Seq<char>)
    ensures
        graph_dir_of(None) == Some(Dir::Deps),
        graph_dir_of(Some(d)) == graph_dir_of(None) <==> d == seq!['d', 'e', 'p', 's'],
        graph_dir_of(Some(d)) == Some(Dir::Dependents) <==> (d == seq!['r', 'e', 'v', 'e', 'r', 's', 'e'] || d
            == seq!['d', 'e', 'p', 'e', 'n', 'd', 'e', 'n', 't', 's']),
        Dir::Deps != Dir::Dependents,
        graph_dir_of(Some(d)) is None <==> !(d == seq!['d', 'e', 'p', 's'] || d == seq![
            'r',
            'e',
            'v',
            'e',
            'r',
            's',
            'e',
        ] || d == seq!['d', 'e', 'p', 'e', 'n', 'd', 'e', 'n', 't', 's']),
{
    assert(seq!['d', 'e', 'p', 's'] != seq!['r', 'e', 'v', 'e', 'r', 's', 'e']) by {
        assert(seq!['d', 'e', 'p', 's'].len() != seq!['r', 'e', 'v', 'e', 'r', 's', 'e'].len());
    }
    assert(seq!['d', 'e', 'p', 's'] != seq!['d', 'e', 'p', 'e', 'n', 'd', 'e', 'n', 't', 's']) by {
        assert(seq!['d', 'e', 'p', 's'].len() != seq!['d', 'e', 'p', 'e', 'n', 'd', 'e', 'n', 't', 's'].len());
    }
}

} // verus!
