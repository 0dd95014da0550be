//! Sim scripts: the API they are documented against, the module paths they
//! `require`, and a lint for the one operator that isn't the same on every
//! machine.
use vstd::prelude::*;
use crate::text::{chars_of, string_of};

verus! {

/// One member of the engine's `rim` table, declared where it's registered:
/// the single source for the Luau type definitions and the API reference.
#[derive(Clone, Debug, PartialEq, Eq)]
pub struct ApiDoc {
    pub name: &'static str,
    /// A Luau type: `(x: number) -> number`, or a value's type.
    pub sig: &'static str,
    pub doc: &'static str,
}

// ---------------------------------------------------------------- the `^` lint

/// The byte at `i`, if there is one.
pub open spec fn at(b: Seq<u8>, i: int) -> Option<u8> {
    if 0 <= i < b.len() { Some(b[i]) } else { None }
}

/// How many `=` follow position `i`.
pub open spec fn equals_from(b: Seq<u8>, i: int) -> nat
    decreases b.len() - i,
{
    if 0 <= i < b.len() && b[i] == 61 {
        1 + equals_from(b, i + 1)
    } else {
        0
    }
}

/// A long bracket opens at `i` (an opening square bracket, any number of
/// `=`, another opening square bracket): its level, the number of `=` in it.
pub open spec fn long_open(b: Seq<u8>, i: int) -> Option<nat> {
    if at(b, i) == Some(91u8) && at(b, i + 1 + equals_from(b, i + 1)) == Some(91u8) {
        Some(equals_from(b, i + 1))
    } else {
        None
    }
}

/// The long bracket of level `lv` closes at `i`: a closing square bracket,
/// `lv` times `=`, another closing square bracket.
pub open spec fn closes_at(b: Seq<u8>, i: int, lv: nat) -> bool {
    &&& 0 <= i
    &&& i + lv + 2 <= b.len()
    &&& b[i] == 93
    &&& forall|k: int| i + 1 <= k < i + 1 + lv ==> #[trigger] b[k] == 61
    &&& b[i + 1 + lv] == 93
}

/// Newlines among the bytes from `i` up to `j`.
pub open spec fn newlines(b: Seq<u8>, i: int, j: int) -> int
    decreases j - i,
{
    if j <= i {
        0
    } else {
        newlines(b, i, j - 1) + (if 0 <= j - 1 < b.len() && b[j - 1] == 10 { 1int } else { 0int })
    }
}

/// Where a long bracket of level `lv`, searched for from `i`, closes; the
/// end of the text when it never does.
pub open spec fn long_close_from(b: Seq<u8>, i: int, lv: nat) -> int
    decreases b.len() - i,
{
    if i < 0 || i >= b.len() {
        i
    } else if closes_at(b, i, lv) {
        i
    } else {
        long_close_from(b, i + 1, lv)
    }
}

/// Where a string quoted by `q` that started before `i` ends: at its closing
/// quote, stepping over escapes; the end of the text if it never closes.
pub open spec fn quote_end(b: Seq<u8>, i: int, q: u8) -> int
    decreases (if i < b.len() { b.len() - i } else { 0 }),
{
    if i < 0 {
        i
    } else if i >= b.len() {
        b.len() as int
    } else if b[i] == q {
        i
    } else if b[i] == 92 {
        quote_end(b, i + 2, q)
    } else {
        quote_end(b, i + 1, q)
    }
}

/// Newlines a quoted string counts from `i`: the byte after each escape, and
/// every byte that is not escaped, up to the closing quote.
pub open spec fn quote_lines(b: Seq<u8>, i: int, q: u8) -> int
    decreases (if i < b.len() { b.len() - i } else { 0 }),
{
    if i < 0 || i >= b.len() || b[i] == q {
        0
    } else if b[i] == 92 {
        (if at(b, i + 1) == Some(10u8) { 1int } else { 0int }) + quote_lines(b, i + 2, q)
    } else {
        (if b[i] == 10 { 1int } else { 0int }) + quote_lines(b, i + 1, q)
    }
}

/// Where a line comment that started before `i` ends: at the newline.
pub open spec fn line_end(b: Seq<u8>, i: int) -> int
    decreases b.len() - i,
{
    if i < 0 || i >= b.len() || b[i] == 10 {
        i
    } else {
        line_end(b, i + 1)
    }
}

/// Spaces and tabs from `i` on.
pub open spec fn blanks_end(b: Seq<u8>, i: int) -> int
    decreases b.len() - i,
{
    if 0 <= i < b.len() && (b[i] == 32 || b[i] == 9) {
        blanks_end(b, i + 1)
    } else {
        i
    }
}

/// An ASCII letter or digit, `.` or `_`: what a number literal is made of.
pub open spec fn lit_byte(c: u8) -> bool {
    (48 <= c <= 57) || (65 <= c <= 90) || (97 <= c <= 122) || c == 46 || c == 95
}

/// The literal from `i` on.
pub open spec fn lit_from(b: Seq<u8>, i: int) -> Seq<u8>
    decreases b.len() - i,
{
    if 0 <= i < b.len() && lit_byte(b[i]) {
        seq![b[i]] + lit_from(b, i + 1)
    } else {
        Seq::empty()
    }
}

/// Exponents Luau computes exactly: 2, 3 and 0.5.
pub open spec fn exact_exponent(lit: Seq<u8>) -> bool {
    lit == seq![50u8] || lit == seq![51u8] || lit == seq![48u8, 46u8, 53u8] || lit == seq![50u8, 46u8, 48u8]
        || lit == seq![51u8, 46u8, 48u8]
}

/// The lines, each once and in order, where `^` is used with an exponent
/// that isn't computed exactly, scanning from byte `i` on line `line` with
/// `out` found so far. Comments and strings (quoted, or in long brackets)
/// are skipped.
pub open spec fn pow_scan(b: Seq<u8>, i: int, line: int, out: Seq<int>) -> Seq<int>
    decreases (if 0 <= i < b.len() { b.len() - i } else { 0 }) * 2 + 1,
{
    proof {
        lemma_scan_ends(b, i);
    }
    if i < 0 || i >= b.len() {
        out
    } else if b[i] == 10 {
        pow_scan(b, i + 1, line + 1, out)
    } else if b[i] == 45 && at(b, i + 1) == Some(45u8) {
        pow_comment(b, i + 2, line, out)
    } else if long_open(b, i) is Some {
        let lv = long_open(b, i)->0;
        let e = long_close_from(b, i, lv);
        pow_scan(b, e + lv + 2, line + newlines(b, i, e), out)
    } else if b[i] == 34 || b[i] == 39 || b[i] == 96 {
        proof {
            lemma_quote_end_ge(b, i + 1, b[i]);
        }
        pow_scan(b, quote_end(b, i + 1, b[i]) + 1, line + quote_lines(b, i + 1, b[i]), out)
    } else if b[i] == 94 {
        let lit = lit_from(b, blanks_end(b, i + 1));
        pow_scan(b, i + 1, line, if !exact_exponent(lit) && !out.contains(line) { out.push(line) } else { out })
    } else {
        pow_scan(b, i + 1, line, out)
    }
}

pub proof fn lemma_quote_end_ge(b: Seq<u8>, i: int, q: u8)
    ensures
        0 <= i <= b.len() ==> i <= quote_end(b, i, q) <= b.len(),
    decreases (if i < b.len() { b.len() - i } else { 0 }),
{
    if 0 <= i < b.len() && b[i] != q {
        if b[i] == 92 {
            if i + 2 <= b.len() {
                lemma_quote_end_ge(b, i + 2, q);
            } else {
                assert(quote_end(b, i + 2, q) == b.len());
            }
        } else {
            lemma_quote_end_ge(b, i + 1, q);
        }
    }
}

pub proof fn lemma_long_close_ge(b: Seq<u8>, i: int, lv: nat)
    ensures
        long_close_from(b, i, lv) >= i,
    decreases b.len() - i,
{
    if 0 <= i < b.len() && !closes_at(b, i, lv) {
        lemma_long_close_ge(b, i + 1, lv);
    }
}

pub proof fn lemma_line_end_ge(b: Seq<u8>, i: int)
    ensures
        line_end(b, i) >= i,
    decreases b.len() - i,
{
    if 0 <= i < b.len() && b[i] != 10 {
        lemma_line_end_ge(b, i + 1);
    }
}

/// Every end the scan jumps to lies at or past where it started looking.
pub proof fn lemma_scan_ends(b: Seq<u8>, i: int)
    ensures
        forall|lv: nat| #[trigger] long_close_from(b, i, lv) >= i,
        line_end(b, i) >= i,
{
    assert forall|lv: nat| #[trigger] long_close_from(b, i, lv) >= i by {
        lemma_long_close_ge(b, i, lv);
    }
    lemma_line_end_ge(b, i);
}

/// The scan after a comment's `--`, at `i`.
pub open spec fn pow_comment(b: Seq<u8>, i: int, line: int, out: Seq<int>) -> Seq<int>
    decreases (if 0 <= i < b.len() { b.len() - i } else { 0 }) * 2 + 2,
{
    proof {
        lemma_scan_ends(b, i);
    }
    if i < 2 {
        out
    } else if long_open(b, i) is Some {
        let lv = long_open(b, i)->0;
        let e = long_close_from(b, i, lv);
        pow_scan(b, e + lv + 2, line + newlines(b, i, e), out)
    } else {
        pow_scan(b, line_end(b, i), line, out)
    }
}


/// How many `=` follow position `j`.
fn equals_count(b: &[u8], j: usize) -> (r: usize)
    requires
        j <= b@.len(),
    ensures
        r == equals_from(b@, j as int),
        j + r <= b@.len(),
{
    let mut k = j;
    while k < b.len() && b[k] == 61
        invariant
            j <= k <= b@.len(),
            equals_from(b@, j as int) == (k - j) + equals_from(b@, k as int),
        decreases b@.len() - k,
    {
        k += 1;
    }
    k - j
}

/// The level of a long bracket opening at `i`, if one does.
fn long_open_at(b: &[u8], i: usize) -> (r: Option<usize>)
    requires
        i <= b@.len(),
    ensures
        match r {
            Some(lv) => long_open(b@, i as int) == Some(lv as nat),
            None => long_open(b@, i as int) is None,
        },
{
    if i < b.len() && b[i] == 91 {
        let lv = equals_count(b, i + 1);
        let j = i + 1 + lv;
        if j < b.len() && b[j] == 91 {
            return Some(lv);
        }
    }
    None
}

/// Whether the long bracket of level `lv` closes at `i`.
fn closes(b: &[u8], i: usize, lv: usize) -> (r: bool)
    requires
        i < b@.len(),
    ensures
        r == closes_at(b@, i as int, lv as nat),
{
    let n = b.len();
    let room = n - i;
    if lv >= room || room - lv < 2 {
        return false;
    }
    if b[i] != 93 {
        return false;
    }
    let mut k: usize = i + 1;
    while k < i + 1 + lv
        invariant
            n == b@.len(),
            i + 1 <= k <= i + 1 + lv,
            i + lv + 2 <= n,
            forall|t: int| i + 1 <= t < k ==> #[trigger] b@[t] == 61,
        decreases i + 1 + lv - k,
    {
        if b[k] != 61 {
            return false;
        }
        k += 1;
    }
    b[i + 1 + lv] == 93
}

/// Where the long bracket of level `lv` searched for from `i` closes, and
/// the newlines on the way.
fn skip_long(b: &[u8], i: usize, lv: usize) -> (r: (usize, usize))
    requires
        i <= b@.len(),
    ensures
        r.0 == long_close_from(b@, i as int, lv as nat),
        r.1 == newlines(b@, i as int, r.0 as int),
        i <= r.0 <= b@.len(),
        r.1 <= r.0 - i,
{
    let mut k = i;
    let mut nl: usize = 0;
    while k < b.len() && !closes(b, k, lv)
        invariant
            i <= k <= b@.len(),
            long_close_from(b@, i as int, lv as nat) == long_close_from(b@, k as int, lv as nat),
            nl == newlines(b@, i as int, k as int),
            nl <= k - i,
        decreases b@.len() - k,
    {
        if b[k] == 10 {
            nl += 1;
        }
        k += 1;
    }
    (k, nl)
}

/// Where a quoted string continued from `i` ends, and the newlines it
/// counts on the way.
fn skip_quote(b: &[u8], i: usize, q: u8) -> (r: (usize, usize))
    requires
        i <= b@.len(),
    ensures
        r.0 == quote_end(b@, i as int, q),
        r.1 == quote_lines(b@, i as int, q),
        i <= r.0 <= b@.len(),
        r.1 <= r.0 - i,
{
    let n = b.len();
    let mut k = i;
    let mut nl: usize = 0;
    while k < n && b[k] != q
        invariant
            n == b@.len(),
            i <= k <= n,
            quote_end(b@, i as int, q) == quote_end(b@, k as int, q),
            quote_lines(b@, i as int, q) == nl + quote_lines(b@, k as int, q),
            nl <= k - i,
        decreases n - k,
    {
        if b[k] == 92 {
            if k + 1 < n {
                if b[k + 1] == 10 {
                    nl += 1;
                }
                k += 2;
            } else {
                proof {
                    assert(quote_end(b@, k + 2, q) == n);
                    assert(quote_lines(b@, k + 2, q) == 0);
                    assert(quote_lines(b@, n as int, q) == 0);
                }
                k = n;
            }
        } else {
            if b[k] == 10 {
                nl += 1;
            }
            k += 1;
        }
    }
    (k, nl)
}

/// Whether the exponent literal after a `^` at `i` is one Luau computes
/// exactly.
fn exact_after(b: &[u8], i: usize) -> (r: bool)
    requires
        i < b@.len(),
    ensures
        r == exact_exponent(lit_from(b@, blanks_end(b@, i + 1))),
{
    let n = b.len();
    let mut j = i + 1;
    while j < b.len() && (b[j] == 32 || b[j] == 9)
        invariant
            i + 1 <= j <= b@.len(),
            blanks_end(b@, i + 1) == blanks_end(b@, j as int),
        decreases b@.len() - j,
    {
        j += 1;
    }
    let mut lit: Vec<u8> = Vec::new();
    let mut k = j;
    while k < b.len() && lit.len() < 4 && ((48 <= b[k] && b[k] <= 57) || (65 <= b[k] && b[k] <= 90) || (97 <= b[k] && b[k] <= 122)
        || b[k] == 46 || b[k] == 95)
        invariant
            j <= k <= b@.len(),
            j == blanks_end(b@, i + 1),
            lit@.len() <= 4,
            lit_from(b@, j as int) == lit@ + lit_from(b@, k as int),
        decreases b@.len() - k,
    {
        proof {
            assert(lit_from(b@, k as int) == seq![b@[k as int]] + lit_from(b@, k + 1));
        }
        lit.push(b[k]);
        k += 1;
        assert(lit_from(b@, j as int) =~= lit@ + lit_from(b@, k as int));
    }
    let ghost full = lit_from(b@, j as int);
    if lit.len() == 4 && k < b.len() && lit_byte_exec(b[k]) {
        proof {
            assert(full.len() > 4) by {
                assert(lit_from(b@, k as int) == seq![b@[k as int]] + lit_from(b@, k + 1));
            }
        }
        return false;
    }
    proof {
        if lit.len() < 4 || k >= b.len() || !lit_byte(b@[k as int]) {
            assert(lit_from(b@, k as int) =~= Seq::<u8>::empty());
        }
        assert(full =~= lit@);
    }
    proof {
        let l = lit@;
        if l.len() == 1 {
            assert(l =~= seq![l[0]]);
        }
        if l.len() == 3 {
            assert(l =~= seq![l[0], l[1], l[2]]);
        }
    }
    let n = lit.len();
    (n == 1 && (lit[0] == 50 || lit[0] == 51)) || (n == 3 && ((lit[0] == 48 && lit[1] == 46 && lit[2] == 53) || (lit[0] == 50
        && lit[1] == 46 && lit[2] == 48) || (lit[0] == 51 && lit[1] == 46 && lit[2] == 48)))
}

fn lit_byte_exec(c: u8) -> (r: bool)
    ensures
        r == lit_byte(c),
{
    (48 <= c && c <= 57) || (65 <= c && c <= 90) || (97 <= c && c <= 122) || c == 46 || c == 95
}

/// Line numbers as the scan's spec counts them.
pub open spec fn as_ints(v: Seq<usize>) -> Seq<int> {
    v.map_values(|x: usize| x as int)
}

/// Lines where a script uses `^` with an exponent Luau hands to the
/// platform's `pow` (anything but a literal 2, 3 or 0.5, which it computes
/// exactly). Strings and comments are skipped.
pub fn pow_operator_lines(src: &str) -> (r: Vec<usize>)
    ensures
        as_ints(r@) == pow_scan(vstd::utf8::encode_utf8(src@), 0, 1, Seq::empty()),
{
    let b = src.as_bytes();
    let n = b.len();
    let ghost target = pow_scan(b@, 0, 1, Seq::empty());
    let mut out: Vec<usize> = Vec::new();
    let mut i: usize = 0;
    // Newlines passed so far: the current line is one more.
    let mut nl: usize = 0;
    proof {
        assert(as_ints(out@) =~= Seq::<int>::empty());
    }
    while i < n
        invariant
            n == b@.len(),
            b@ == vstd::utf8::encode_utf8(src@),
            i <= n,
            nl <= i,
            target == pow_scan(b@, i as int, nl + 1, as_ints(out@)),
        decreases n - i,
    {
        let c = b[i];
        let ghost o0 = as_ints(out@);
        let ghost l0 = nl + 1;
        if c == 10 {
            nl += 1;
            i += 1;
        } else if c == 45 && i + 1 < n && b[i + 1] == 45 {
            let j = i + 2;
            assert(pow_scan(b@, i as int, l0, o0) == pow_comment(b@, j as int, l0, o0));
            match long_open_at(b, j) {
                Some(lv) => {
                    let (e, more) = skip_long(b, j, lv);
                    nl += more;
                    if lv + 2 > n - e {
                        assert(pow_scan(b@, e + lv + 2, nl + 1, o0) == o0);
                        assert(pow_scan(b@, n as int, nl + 1, o0) == o0);
                        i = n;
                    } else {
                        i = e + lv + 2;
                    }
                },
                None => {
                    let mut k = j;
                    while k < n && b[k] != 10
                        invariant
                            n == b@.len(),
                            j <= k <= n,
                            line_end(b@, j as int) == line_end(b@, k as int),
                        decreases n - k,
                    {
                        k += 1;
                    }
                    assert(line_end(b@, k as int) == k);
                    i = k;
                },
            }
        } else {
            match long_open_at(b, i) {
                Some(lv) => {
                    let (e, more) = skip_long(b, i, lv);
                    nl += more;
                    if lv + 2 > n - e {
                        assert(pow_scan(b@, e + lv + 2, nl + 1, o0) == o0);
                        assert(pow_scan(b@, n as int, nl + 1, o0) == o0);
                        i = n;
                    } else {
                        i = e + lv + 2;
                    }
                },
                None => {
                    if c == 34 || c == 39 || c == 96 {
                        let (e, more) = skip_quote(b, i + 1, c);
                        nl += more;
                        if e >= n {
                            assert(pow_scan(b@, e + 1, nl + 1, o0) == o0);
                            assert(pow_scan(b@, n as int, nl + 1, o0) == o0);
                            i = n;
                        } else {
                            i = e + 1;
                        }
                    } else if c == 94 {
                        if !exact_after(b, i) {
                            let line = nl + 1;
                            let ghost o0 = as_ints(out@);
                            let mut seen = false;
                            let mut t: usize = 0;
                            while t < out.len()
                                invariant
                                    t <= out@.len(),
                                    o0 == as_ints(out@),
                                    seen == o0.take(t as int).contains(line as int),
                                decreases out@.len() - t,
                            {
                                let ghost s0 = o0.take(t as int);
                                let ghost s1 = o0.take(t as int + 1);
                                proof {
                                    assert(s1 =~= s0.push(out@[t as int] as int));
                                    if s1.contains(line as int) {
                                        let q = choose|q: int| 0 <= q < s1.len() && s1[q] == line as int;
                                        if q < t {
                                            assert(s0[q] == line as int);
                                        }
                                    }
                                    if s0.contains(line as int) {
                                        let q = choose|q: int| 0 <= q < s0.len() && s0[q] == line as int;
                                        assert(s1[q] == line as int);
                                    }
                                    if out@[t as int] == line {
                                        assert(s1[t as int] == line as int);
                                    }
                                }
                                if out[t] == line {
                                    seen = true;
                                }
                                t += 1;
                            }
                            proof {
                                assert(o0.take(t as int) =~= o0);
                            }
                            if !seen {
                                out.push(line);
                                proof {
                                    assert(as_ints(out@) =~= o0.push(line as int));
                                }
                            }
                        }
                        i += 1;
                    } else {
                        i += 1;
                    }
                },
            }
        }
    }
    out
}

// ------------------------------------------------------------ `require` paths

/// The pieces of `s` between the separators, as `str::split` gives them:
/// always at least one, empty ones included.
pub open spec fn split_on(s: Seq<char>, sep: char) -> Seq<Seq<char>>
    decreases s.len(),
{
    if s.len() == 0 {
        seq![Seq::empty()]
    } else {
        let prev = split_on(s.drop_last(), sep);
        if s.last() == sep {
            prev.push(Seq::empty())
        } else {
            prev.update(prev.len() - 1, prev.last().push(s.last()))
        }
    }
}

pub proof fn lemma_split_on_len(s: Seq<char>, sep: char)
    ensures
        split_on(s, sep).len() >= 1,
    decreases s.len(),
{
    if s.len() > 0 {
        lemma_split_on_len(s.drop_last(), sep);
    }
}

/// What comes before the last `/` of a path; nothing when it has none.
pub open spec fn dir_of(p: Seq<char>) -> Seq<char>
    decreases p.len(),
{
    if p.len() == 0 {
        p
    } else if p.last() == '/' {
        p.drop_last()
    } else {
        dir_of(p.drop_last())
    }
}

/// The path a `require` names, before it is normalised: `@` paths as they
/// stand, `./` and `../` ones after the requiring script's folder.
pub open spec fn joined_path(from: Seq<char>, path: Seq<char>) -> Option<Seq<char>> {
    if path.len() >= 1 && path[0] == '@' {
        Some(path.drop_first())
    } else if (path.len() >= 2 && path.take(2) == seq!['.', '/']) || (path.len() >= 3 && path.take(3) == seq![
        '.',
        '.',
        '/',
    ]) {
        Some(dir_of(from) + seq!['/'] + path)
    } else {
        None
    }
}

/// One path component applied to the ones kept so far: empty ones and `.`
/// are dropped, `..` goes up (never above a mod's scripts folder, the first
/// two), anything else goes down.
pub open spec fn norm_step(parts: Seq<Seq<char>>, c: Seq<char>) -> Option<Seq<Seq<char>>> {
    if c.len() == 0 || c == seq!['.'] {
        Some(parts)
    } else if c == seq!['.', '.'] {
        if parts.len() > 2 {
            Some(parts.drop_last())
        } else {
            None
        }
    } else {
        Some(parts.push(c))
    }
}

/// The components left after applying all of `comps` in order; `None` if a
/// `..` leaves the scripts folder.
pub open spec fn normalize(comps: Seq<Seq<char>>) -> Option<Seq<Seq<char>>>
    decreases comps.len(),
{
    if comps.len() == 0 {
        Some(Seq::empty())
    } else {
        match normalize(comps.drop_last()) {
            None => None,
            Some(parts) => norm_step(parts, comps.last()),
        }
    }
}

/// Components joined by `/`.
pub open spec fn join_slash(ps: Seq<Seq<char>>) -> Seq<char>
    decreases ps.len(),
{
    if ps.len() == 0 {
        Seq::empty()
    } else if ps.len() == 1 {
        ps[0]
    } else {
        join_slash(ps.drop_last()) + seq!['/'] + ps.last()
    }
}

pub open spec fn require_prefix(path: Seq<char>) -> Seq<char> {
    "require(\""@ + path
}

/// What `require(path)` in the script `from` resolves to: the mod, and the
/// module's path without its extension; or the error.
pub open spec fn resolve_spec(from: Seq<char>, path: Seq<char>) -> Result<(Seq<char>, Seq<char>), Seq<char>> {
    match joined_path(from, path) {
        None => Err(
            require_prefix(path) + "\"): use \"@<mod>/scripts/<name>\", or \"./<name>\" within your own mod"@,
        ),
        Some(j) => match normalize(split_on(j, '/')) {
            None => Err(require_prefix(path) + "\"): leaves the mod's scripts folder"@),
            Some(parts) => if parts.len() < 3 || parts[1] != "scripts"@ {
                Err(
                    require_prefix(path)
                        + "\"): sim modules live in a mod's scripts folder: \"@<mod>/scripts/<name>\""@,
                )
            } else {
                Ok((parts[0], join_slash(parts)))
            },
        },
    }
}

/// The views of a list of character vectors.
pub open spec fn views(v: Seq<Vec<char>>) -> Seq<Seq<char>> {
    v.map_values(|x: Vec<char>| x@)
}

fn chars_eq(a: &[char], b: &[char]) -> (r: bool)
    ensures
        r == (a@ == b@),
{
    if a.len() != b.len() {
        return false;
    }
    let mut i: usize = 0;
    while i < a.len()
        invariant
            i <= a@.len(),
            a@.len() == b@.len(),
            forall|k: int| 0 <= k < i ==> a@[k] == b@[k],
        decreases a@.len() - i,
    {
        if a[i] != b[i] {
            return false;
        }
        i += 1;
    }
    assert(a@ =~= b@);
    true
}

/// `dir_of` of a path's first `n` characters.
fn dir_len(p: &Vec<char>) -> (r: usize)
    ensures
        r <= p@.len(),
        dir_of(p@) == p@.take(r as int),
{
    let mut n = p.len();
    assert(p@.take(n as int) =~= p@);
    while n > 0 && p[n - 1] != '/'
        invariant
            n <= p@.len(),
            dir_of(p@) == dir_of(p@.take(n as int)),
        decreases n,
    {
        assert(p@.take(n - 1) =~= p@.take(n as int).drop_last());
        n -= 1;
    }
    if n == 0 {
        assert(p@.take(0) =~= Seq::<char>::empty());
        0
    } else {
        assert(p@.take(n - 1) =~= p@.take(n as int).drop_last());
        n - 1
    }
}

/// Applies one finished path component to the ones kept so far; false,
/// changing nothing, when a `..` would leave the scripts folder.
fn apply_component(parts: &mut Vec<Vec<char>>, c: Vec<char>) -> (ok: bool)
    ensures
        ok == norm_step(views(old(parts)@), c@) is Some,
        ok ==> norm_step(views(old(parts)@), c@) == Some(views(final(parts)@)),
{
    let ghost before = views(parts@);
    let is_dot = c.len() == 1 && c[0] == '.';
    let is_up = c.len() == 2 && c[0] == '.' && c[1] == '.';
    proof {
        if c@.len() == 1 && c@[0] == '.' {
            assert(c@ =~= seq!['.']);
        }
        if c@.len() == 2 && c@[0] == '.' && c@[1] == '.' {
            assert(c@ =~= seq!['.', '.']);
        }
        if c@ == seq!['.'] {
            assert(c@.len() == 1 && c@[0] == '.');
        }
        if c@ == seq!['.', '.'] {
            assert(c@.len() == 2 && c@[0] == '.' && c@[1] == '.');
        }
    }
    if c.len() == 0 || is_dot {
        true
    } else if is_up {
        if parts.len() > 2 {
            parts.pop();
            assert(views(parts@) =~= before.drop_last());
            true
        } else {
            false
        }
    } else {
        let ghost cv = c@;
        parts.push(c);
        assert(views(parts@) =~= before.push(cv));
        true
    }
}

/// Where `require(path)` in the script `from` points: its mod, and its path
/// without the extension ("core/scripts/storyteller"). `@mod/scripts/x`
/// names any mod's script; `./x` and `../x` are relative to `from`, within
/// its mod.
pub fn resolve_require(from: &str, path: &str) -> (r: Result<(String, String), String>)
    ensures
        match r {
            Ok((m, k)) => resolve_spec(from@, path@) == Ok::<(Seq<char>, Seq<char>), Seq<char>>((m@, k@)),
            Err(e) => resolve_spec(from@, path@) == Err::<(Seq<char>, Seq<char>), Seq<char>>(e@),
        },
{
    let p = chars_of(path);
    let f = chars_of(from);
    let mut joined: Vec<char> = Vec::new();
    if p.len() >= 1 && p[0] == '@' {
        let mut k: usize = 1;
        while k < p.len()
            invariant
                1 <= k <= p@.len(),
                joined@ == p@.subrange(1, k as int),
            decreases p@.len() - k,
        {
            joined.push(p[k]);
            assert(p@.subrange(1, k + 1) =~= p@.subrange(1, k as int).push(p@[k as int]));
            k += 1;
        }
        assert(joined@ =~= p@.drop_first());
    } else if (p.len() >= 2 && p[0] == '.' && p[1] == '/') || (p.len() >= 3 && p[0] == '.' && p[1] == '.' && p[2]
        == '/') {
        let d = dir_len(&f);
        let mut k: usize = 0;
        while k < d
            invariant
                d <= f@.len(),
                k <= d,
                joined@ == f@.take(k as int),
            decreases d - k,
        {
            joined.push(f[k]);
            assert(f@.take(k + 1) =~= f@.take(k as int).push(f@[k as int]));
            k += 1;
        }
        joined.push('/');
        let ghost base = joined@;
        let mut k: usize = 0;
        while k < p.len()
            invariant
                k <= p@.len(),
                joined@ == base + p@.take(k as int),
            decreases p@.len() - k,
        {
            joined.push(p[k]);
            assert(p@.take(k + 1) =~= p@.take(k as int).push(p@[k as int]));
            k += 1;
        }
        assert(p@.take(p@.len() as int) =~= p@);
        proof {
            if p@.len() >= 2 && p@[0] == '.' && p@[1] == '/' {
                assert(p@.take(2) =~= seq!['.', '/']);
            } else {
                assert(p@.take(3) =~= seq!['.', '.', '/']);
            }
        }
    } else {
        proof {
            if p@.len() >= 2 && p@.take(2) == seq!['.', '/'] {
                assert(p@.take(2)[0] == '.' && p@.take(2)[1] == '/');
            }
            if p@.len() >= 3 && p@.take(3) == seq!['.', '.', '/'] {
                assert(p@.take(3)[0] == '.' && p@.take(3)[1] == '.' && p@.take(3)[2] == '/');
            }
        }
        let mut e = String::from_str("require(\"");
        e.append(path);
        e.append("\"): use \"@<mod>/scripts/<name>\", or \"./<name>\" within your own mod");
        return Err(e);
    }
    let ghost j = joined@;
    assert(joined_path(from@, path@) == Some(j));
    // Walk the components, keeping what they leave.
    let n = joined.len();
    let mut parts: Vec<Vec<char>> = Vec::new();
    let mut cur: Vec<char> = Vec::new();
    let mut i: usize = 0;
    proof {
        assert(j.take(0) =~= Seq::<char>::empty());
        assert(split_on(j.take(0), '/').drop_last() =~= Seq::<Seq<char>>::empty());
        assert(views(parts@) =~= Seq::<Seq<char>>::empty());
    }
    while i < n
        invariant
            j == joined@,
            joined_path(from@, path@) == Some(j),
            n == j.len(),
            i <= n,
            normalize(split_on(j.take(i as int), '/').drop_last()) == Some(views(parts@)),
            split_on(j.take(i as int), '/').last() == cur@,
        decreases n - i,
    {
        let ghost sp = split_on(j.take(i as int), '/');
        proof {
            lemma_split_on_len(j.take(i as int), '/');
            assert(sp.drop_last().push(sp.last()) =~= sp);
            assert(j.take(i + 1).drop_last() =~= j.take(i as int));
        }
        let ch = joined[i];
        if ch == '/' {
            let mut c: Vec<char> = Vec::new();
            std::mem::swap(&mut c, &mut cur);
            let ok = apply_component(&mut parts, c);
            if !ok {
                let mut e = String::from_str("require(\"");
                e.append(path);
                e.append("\"): leaves the mod's scripts folder");
                proof {
                    assert(normalize(sp) is None);
                    lemma_normalize_none(j, i as int);
                }
                return Err(e);
            }
            proof {
                let sp1 = split_on(j.take(i + 1), '/');
                assert(sp1 == sp.push(Seq::<char>::empty()));
                assert(sp1.drop_last() =~= sp);
            }
        } else {
            cur.push(ch);
            proof {
                let sp1 = split_on(j.take(i + 1), '/');
                assert(sp1 == sp.update(sp.len() - 1, sp.last().push(ch)));
                assert(sp1.drop_last() =~= sp.drop_last());
            }
        }
        i += 1;
    }
    proof {
        assert(j.take(n as int) =~= j);
        lemma_split_on_len(j, '/');
        let sp = split_on(j, '/');
        assert(sp.drop_last().push(sp.last()) =~= sp);
    }
    let mut c: Vec<char> = Vec::new();
    std::mem::swap(&mut c, &mut cur);
    let ok = apply_component(&mut parts, c);
    if !ok {
        let mut e = String::from_str("require(\"");
        e.append(path);
        e.append("\"): leaves the mod's scripts folder");
        proof {
            lemma_normalize_none(j, n as int);
        }
        return Err(e);
    }
    let ghost fin = views(parts@);
    if parts.len() < 3 {
        let mut e = String::from_str("require(\"");
        e.append(path);
        e.append("\"): sim modules live in a mod's scripts folder: \"@<mod>/scripts/<name>\"");
        return Err(e);
    }
    let scripts = chars_of("scripts");
    if !chars_eq(parts[1].as_slice(), scripts.as_slice()) {
        let mut e = String::from_str("require(\"");
        e.append(path);
        e.append("\"): sim modules live in a mod's scripts folder: \"@<mod>/scripts/<name>\"");
        return Err(e);
    }
    let m = string_of(parts[0].as_slice());
    let mut acc: Vec<char> = Vec::new();
    let mut k: usize = 0;
    while k < parts.len()
        invariant
            k <= parts@.len(),
            fin == views(parts@),
            acc@ == join_slash(fin.take(k as int)),
        decreases parts@.len() - k,
    {
        let ghost a0 = acc@;
        if k > 0 {
            acc.push('/');
        }
        let mut t: usize = 0;
        let ghost a1 = acc@;
        while t < parts[k].len()
            invariant
                k < parts@.len(),
                t <= parts@[k as int]@.len(),
                acc@ == a1 + parts@[k as int]@.take(t as int),
            decreases parts@[k as int]@.len() - t,
        {
            acc.push(parts[k][t]);
            assert(parts@[k as int]@.take(t + 1) =~= parts@[k as int]@.take(t as int).push(parts@[k as int]@[t as int]));
            t += 1;
        }
        proof {
            assert(parts@[k as int]@.take(t as int) =~= parts@[k as int]@);
            assert(fin.take(k + 1).drop_last() =~= fin.take(k as int));
            assert(fin.take(k + 1).last() == parts@[k as int]@);
            if k == 0 {
                assert(fin.take(0) =~= Seq::<Seq<char>>::empty());
                assert(acc@ =~= fin.take(1)[0]);
            } else {
                assert(acc@ =~= a0 + seq!['/'] + parts@[k as int]@);
            }
        }
        k += 1;
    }
    assert(fin.take(k as int) =~= fin);
    let key = string_of(acc.as_slice());
    Ok((m, key))
}

/// Once a `..` has left the scripts folder, the rest of the path changes
/// nothing: the whole path fails.
proof fn lemma_normalize_none(j: Seq<char>, i: int)
    requires
        0 <= i <= j.len(),
        i == j.len() || j[i] == '/',
        normalize(split_on(j.take(i), '/')) is None,
    ensures
        normalize(split_on(j, '/')) is None,
{
    if i == j.len() {
        assert(j.take(i) =~= j);
    } else {
        assert(j.take(i + 1).drop_last() =~= j.take(i));
        let sp = split_on(j.take(i), '/');
        let sp1 = split_on(j.take(i + 1), '/');
        assert(sp1 == sp.push(Seq::<char>::empty()));
        assert(sp1.drop_last() =~= sp);
        lemma_normalize_none_after(j, i + 1);
    }
}

/// A failure among the finished components of a prefix stays a failure.
proof fn lemma_normalize_none_after(j: Seq<char>, k: int)
    requires
        0 <= k <= j.len(),
        normalize(split_on(j.take(k), '/').drop_last()) is None,
    ensures
        normalize(split_on(j, '/')) is None,
    decreases j.len() - k,
{
    let sp = split_on(j.take(k), '/');
    lemma_split_on_len(j.take(k), '/');
    assert(sp.drop_last().push(sp.last()) =~= sp);
    assert(normalize(sp) is None);
    if k == j.len() {
        assert(j.take(k) =~= j);
    } else {
        assert(j.take(k + 1).drop_last() =~= j.take(k));
        let sp1 = split_on(j.take(k + 1), '/');
        if j[k] == '/' {
            assert(sp1 == sp.push(Seq::<char>::empty()));
            assert(sp1.drop_last() =~= sp);
        } else {
            assert(sp1 == sp.update(sp.len() - 1, sp.last().push(j[k])));
            assert(sp1.drop_last() =~= sp.drop_last());
        }
        lemma_normalize_none_after(j, k + 1);
    }
}

// ---------------------------------------------------------------- hooks

/// When a hook registered with `rim.every` runs: its interval, at least one
/// tick, and its phase. The `count`-th hook registered is put `count * 37`
/// ticks along, so hooks registered together don't all land on one tick.
pub fn hook_timing(count: u64, interval: u64) -> (r: (u64, u64))
    requires
        count * 37 <= u64::MAX,
    ensures
        r.0 == crate::max_int(interval as int, 1),
        r.1 == (count * 37) % (r.0 as int),
        r.1 < r.0,
{
    let interval = if interval < 1 { 1 } else { interval };
    (interval, count * 37 % interval)
}

/// Whether a hook with this phase and interval runs on `tick`.
pub fn hook_due(tick: u64, phase: u64, interval: u64) -> (r: bool)
    requires
        interval >= 1,
        tick + phase <= u64::MAX,
    ensures
        r == ((tick + phase) % (interval as int) == 0),
{
    (tick + phase) % interval == 0
}

/// A hook that runs on a tick runs again `interval` ticks later, and on
/// none of the ticks between.
pub proof fn law_hook_runs_every_interval(tick: nat, phase: nat, interval: nat)
    requires
        interval >= 1,
        (tick + phase) % interval == 0,
    ensures
        (tick + interval + phase) % interval == 0,
        forall|k: nat| 0 < k < interval ==> #[trigger] ((tick + k + phase) % interval) != 0,
{
    let m = interval as int;
    let a = (tick + phase) as int;
    vstd::arithmetic::div_mod::lemma_add_mod_noop(a, m, m);
    vstd::arithmetic::div_mod::lemma_mod_self_0(m);
    assert forall|k: nat| 0 < k < interval implies #[trigger] ((tick + k + phase) % interval) != 0 by {
        vstd::arithmetic::div_mod::lemma_add_mod_noop(a, k as int, m);
        vstd::arithmetic::div_mod::lemma_small_mod(k, interval);
        vstd::arithmetic::div_mod::lemma_small_mod(k, interval);
        assert(tick + k + phase == a + k);
    }
    vstd::arithmetic::div_mod::lemma_small_mod(0, interval);
    assert(a % m == 0);
    assert((a + m) % m == 0);
    assert(tick + interval + phase == a + m);
}

/// What `rim.on_migrate` answers a mod that registers one after loading, or
/// a second time: `None` where the registration stands.
pub fn migrator_refusal(mod_id: &str, loaded: bool, registered: bool) -> (r: Option<String>)
    ensures
        r matches Some(e) ==> e@ == if loaded {
            "mod '"@ + mod_id@ + "': register on_migrate at load time"@
        } else {
            "mod '"@ + mod_id@ + "' registered on_migrate twice"@
        },
        r is Some <==> (loaded || registered),
{
    if loaded {
        let mut e = String::from_str("mod '");
        e.append(mod_id);
        e.append("': register on_migrate at load time");
        Some(e)
    } else if registered {
        let mut e = String::from_str("mod '");
        e.append(mod_id);
        e.append("' registered on_migrate twice");
        Some(e)
    } else {
        None
    }
}

} // verus!
