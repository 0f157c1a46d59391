//! Text primitives: what trimming, splitting and searching mean on sequences
//! of characters, and the functions that do it on string slices.

use vstd::prelude::*;
use vstd::string::*;
use vstd::utf8::*;

verus! {

// ---------------------------------------------------------------- white space
/// A character with the Unicode property `White_Space`.
pub open spec fn is_white(c: char) -> bool {
    ||| '\u{9}' <= c <= '\u{d}'
    ||| c == ' '
    ||| c == '\u{85}'
    ||| c == '\u{a0}'
    ||| c == '\u{1680}'
    ||| '\u{2000}' <= c <= '\u{200a}'
    ||| c == '\u{2028}'
    ||| c == '\u{2029}'
    ||| c == '\u{202f}'
    ||| c == '\u{205f}'
    ||| c == '\u{3000}'
}

/// `s` without its leading white space.
pub open spec fn trimmed_start(s: Seq<char>) -> Seq<char>
    decreases s.len(),
{
    if s.len() > 0 && is_white(s[0]) {
        trimmed_start(s.skip(1))
    } else {
        s
    }
}

/// `s` without its trailing white space.
pub open spec fn trimmed_end(s: Seq<char>) -> Seq<char>
    decreases s.len(),
{
    if s.len() > 0 && is_white(s.last()) {
        trimmed_end(s.drop_last())
    } else {
        s
    }
}

/// `s` without leading and trailing white space.
pub open spec fn trimmed(s: Seq<char>) -> Seq<char> {
    trimmed_end(trimmed_start(s))
}

// ------------------------------------------------------------------ searching
/// How many characters stand before the first `c`; all of them where `c` does
/// not occur.
pub open spec fn until(s: Seq<char>, c: char) -> int
    decreases s.len(),
{
    if s.len() == 0 || s[0] == c {
        0
    } else {
        1 + until(s.skip(1), c)
    }
}

/// How many characters stand before the first occurrence of `pat`, if there is
/// one.
pub open spec fn until_text(s: Seq<char>, pat: Seq<char>) -> Option<int>
    decreases s.len(),
{
    if pat.is_prefix_of(s) {
        Some(0)
    } else if s.len() == 0 {
        None
    } else {
        match until_text(s.skip(1), pat) {
            Some(k) => Some(k + 1),
            None => None,
        }
    }
}

/// What follows the last `c`; all of `s` where `c` does not occur.
pub open spec fn after_last(s: Seq<char>, c: char) -> Seq<char>
    decreases s.len(),
{
    if s.len() == 0 || s.last() == c {
        Seq::empty()
    } else {
        after_last(s.drop_last(), c).push(s.last())
    }
}

// ------------------------------------------------------------------ splitting
/// The stretches of `s` between occurrences of `sep`.
pub open spec fn pieces(s: Seq<char>, sep: char) -> Seq<Seq<char>>
    decreases s.len(),
{
    let k = until(s, sep);
    if 0 <= k < s.len() {
        seq![s.take(k)] + pieces(s.skip(k + 1), sep)
    } else {
        seq![s]
    }
}

/// As `pieces`, but at most `n` of them: the last one holds the rest of `s`.
pub open spec fn pieces_at_most(s: Seq<char>, sep: char, n: nat) -> Seq<Seq<char>>
    decreases n,
{
    let k = until(s, sep);
    if n == 0 {
        Seq::empty()
    } else if n == 1 || k >= s.len() {
        seq![s]
    } else {
        seq![s.take(k)] + pieces_at_most(s.skip(k + 1), sep, (n - 1) as nat)
    }
}

/// A line whose end was `\n`, without the `\r` that belongs to that end.
pub open spec fn without_cr(s: Seq<char>) -> Seq<char> {
    if s.len() > 0 && s.last() == '\r' {
        s.drop_last()
    } else {
        s
    }
}

/// The lines of `s`: each ends with `\n` or `\r\n`, the last one also with the
/// end of the text.
pub open spec fn lines_of(s: Seq<char>) -> Seq<Seq<char>>
    decreases s.len(),
{
    let k = until(s, '\n');
    if s.len() == 0 {
        Seq::empty()
    } else if 0 <= k < s.len() {
        seq![without_cr(s.take(k))] + lines_of(s.skip(k + 1))
    } else {
        seq![s]
    }
}

/// The texts that a sequence of string slices holds.
pub open spec fn texts(v: Seq<&str>) -> Seq<Seq<char>> {
    v.map_values(|l: &str| l@)
}

// --------------------------------------------------------------------- lemmas
pub proof fn lemma_until(s: Seq<char>, c: char)
    ensures
        0 <= until(s, c) <= s.len(),
        forall|j: int| 0 <= j < until(s, c) ==> s[j] != c,
        until(s, c) < s.len() ==> s[until(s, c)] == c,
    decreases s.len(),
{
    if s.len() > 0 && s[0] != c {
        lemma_until(s.skip(1), c);
        assert forall|j: int| 0 <= j < until(s, c) implies s[j] != c by {
            if j > 0 {
                assert(s.skip(1)[j - 1] == s[j]);
            }
        }
    }
}

pub proof fn lemma_until_is(s: Seq<char>, c: char, k: int)
    requires
        0 <= k <= s.len(),
        forall|j: int| 0 <= j < k ==> s[j] != c,
        k < s.len() ==> s[k] == c,
    ensures
        until(s, c) == k,
{
    lemma_until(s, c);
    if until(s, c) < k {
        assert(s[until(s, c)] == c);
    }
}

/// A text has no more characters than bytes.
pub proof fn lemma_shorter(s: Seq<char>)
    ensures
        s.len() <= encode_utf8(s).len(),
    decreases s.len(),
{
    if s.len() > 0 {
        lemma_shorter(s.drop_first());
    }
}

/// What trimming the end leaves is a prefix that does not end in white space.
pub proof fn lemma_trimmed_end(s: Seq<char>)
    ensures
        trimmed_end(s).len() <= s.len(),
        trimmed_end(s) == s.take(trimmed_end(s).len() as int),
        trimmed_end(s).len() > 0 ==> !is_white(trimmed_end(s).last()),
        forall|j: int| trimmed_end(s).len() <= j < s.len() ==> is_white(s[j]),
    decreases s.len(),
{
    if s.len() > 0 && is_white(s.last()) {
        lemma_trimmed_end(s.drop_last());
        let n = trimmed_end(s).len() as int;
        assert(s.drop_last().take(n) =~= s.take(n));
        assert forall|j: int| n <= j < s.len() implies is_white(s[j]) by {
            if j < s.len() - 1 {
                assert(s.drop_last()[j] == s[j]);
            }
        }
    } else {
        assert(s.take(s.len() as int) =~= s);
    }
}

/// What trimming the start leaves is a suffix that does not begin with white
/// space.
pub proof fn lemma_trimmed_start(s: Seq<char>)
    ensures
        trimmed_start(s).len() <= s.len(),
        trimmed_start(s) == s.skip(s.len() - trimmed_start(s).len()),
        trimmed_start(s).len() > 0 ==> !is_white(trimmed_start(s)[0]),
        forall|j: int| 0 <= j < s.len() - trimmed_start(s).len() ==> is_white(s[j]),
    decreases s.len(),
{
    if s.len() > 0 && is_white(s[0]) {
        lemma_trimmed_start(s.skip(1));
        let n = s.len() - trimmed_start(s).len();
        assert(s.skip(1).skip(n - 1) =~= s.skip(n));
        assert forall|j: int| 0 <= j < n implies is_white(s[j]) by {
            if j > 0 {
                assert(s.skip(1)[j - 1] == s[j]);
            }
        }
    } else {
        assert(s.skip(0) =~= s);
    }
}

/// A text that neither begins nor ends with white space is its own trimming.
pub proof fn lemma_trimmed_same(s: Seq<char>)
    requires
        s.len() > 0 ==> !is_white(s[0]) && !is_white(s.last()),
    ensures
        trimmed_start(s) == s,
        trimmed_end(s) == s,
        trimmed(s) == s,
{
}

/// A trimming neither begins nor ends with white space.
pub proof fn lemma_trimmed_ends(s: Seq<char>)
    ensures
        trimmed(s).len() <= s.len(),
        trimmed(s).len() > 0 ==> !is_white(trimmed(s)[0]) && !is_white(trimmed(s).last()),
        forall|c: char| trimmed(s).contains(c) ==> s.contains(c),
{
    lemma_trimmed_start(s);
    lemma_trimmed_end(trimmed_start(s));
    let t = trimmed_start(s);
    let u = trimmed(s);
    if u.len() > 0 {
        assert(u[0] == t[0]);
    }
    assert forall|c: char| u.contains(c) implies s.contains(c) by {
        let j = choose|j: int| 0 <= j < u.len() && u[j] == c;
        assert(t[j] == c);
        assert(s[j + (s.len() - t.len())] == c);
    }
}

/// The lines of a text behind whole lines.
pub proof fn lemma_lines_concat(a: Seq<char>, b: Seq<char>)
    requires
        a.len() > 0 ==> a.last() == '\n',
    ensures
        lines_of(a + b) == lines_of(a) + lines_of(b),
    decreases a.len(),
{
    let all = a + b;
    if a.len() == 0 {
        assert(all =~= b);
        assert(lines_of(a) + lines_of(b) =~= lines_of(b));
    } else {
        lemma_until(a, '\n');
        let k = until(a, '\n');
        if k == a.len() {
            assert(a[a.len() - 1] == '\n');
        }
        lemma_until_is(all, '\n', k);
        assert(all.take(k) =~= a.take(k));
        assert(all.skip(k + 1) =~= a.skip(k + 1) + b);
        lemma_lines_concat(a.skip(k + 1), b);
        assert(lines_of(all) =~= lines_of(a) + lines_of(b));
    }
}

/// The one line of a text that ends its only line.
pub proof fn lemma_one_line(body: Seq<char>)
    requires
        !body.contains('\n'),
    ensures
        lines_of(body.push('\n')) == seq![without_cr(body)],
{
    let b = body.push('\n');
    let k = body.len() as int;
    assert forall|j: int| 0 <= j < k implies b[j] != '\n' by {
        assert(body[j] == b[j]);
    }
    lemma_until_is(b, '\n', k);
    assert(b.take(k) =~= body);
    assert(b.skip(k + 1) =~= Seq::<char>::empty());
    assert(lines_of(b) =~= seq![without_cr(body)] + lines_of(Seq::<char>::empty()));
}

// ----------------------------------------------------------------------- laws
/// Trimming takes the white space at both ends off, all of it and nothing else.
pub proof fn law_trimming_takes_white_space_off(a: Seq<char>, t: Seq<char>, b: Seq<char>)
    requires
        forall|i: int| 0 <= i < a.len() ==> is_white(#[trigger] a[i]),
        forall|i: int| 0 <= i < b.len() ==> is_white(#[trigger] b[i]),
        t.len() > 0 ==> !is_white(t[0]) && !is_white(t.last()),
    ensures
        t.len() > 0 ==> trimmed(a + t + b) == t,
        t.len() == 0 ==> trimmed(a + t + b).len() == 0,
        t.len() > 0 ==> trimmed_end(a + t + b) == a + t,
{
    let s = a + t + b;
    lemma_trimmed_end(s);
    let e = trimmed_end(s);
    if t.len() > 0 {
        assert(s[a.len() + t.len() - 1] == t.last());
        if e.len() > a.len() + t.len() {
            assert(e.last() == b[e.len() - 1 - a.len() - t.len()]);
        }
        assert(e =~= a + t);
    }
    lemma_trimmed_start(s);
    let u = trimmed_start(s);
    if t.len() > 0 {
        assert(s[a.len() as int] == t[0]);
        let k = s.len() - u.len();
        if k < a.len() {
            assert(u[0] == a[k]);
        }
        assert(u =~= t + b);
        lemma_trimmed_end(u);
        let w = trimmed_end(u);
        assert(u[t.len() - 1] == t.last());
        if w.len() > t.len() {
            assert(w.last() == b[w.len() - 1 - t.len()]);
        }
        assert(w =~= t);
    } else if u.len() > 0 {
        let k = s.len() - u.len();
        if k < a.len() {
            assert(u[0] == a[k]);
        } else {
            assert(u[0] == b[k - a.len()]);
        }
    }
}

/// A text is split at each separator and nowhere else: before the first one stands
/// the first piece, and a text without one is the only piece.
pub proof fn law_pieces_stand_between_separators(a: Seq<char>, b: Seq<char>, sep: char, n: nat)
    requires
        !a.contains(sep),
        n > 0,
    ensures
        pieces(a, sep) == seq![a],
        pieces(a + seq![sep] + b, sep) == seq![a] + pieces(b, sep),
        pieces_at_most(a, sep, n) == seq![a],
        n > 1 ==> pieces_at_most(a + seq![sep] + b, sep, n) == seq![a] + pieces_at_most(
            b,
            sep,
            (n - 1) as nat,
        ),
        pieces_at_most(b, sep, 1) == seq![b],
{
    lemma_until(a, sep);
    if until(a, sep) < a.len() {
        assert(a.contains(a[until(a, sep)]));
    }
    let s = a + seq![sep] + b;
    let k = a.len() as int;
    assert forall|j: int| 0 <= j < k implies s[j] != sep by {
        assert(a.contains(a[j]));
    }
    lemma_until_is(s, sep, k);
    assert(s.take(k) =~= a);
    assert(s.skip(k + 1) =~= b);
}

/// A line ends with the first `\n` behind it, which may have a `\r` before it; what
/// stands behind the last `\n` is a line of its own, and as it is, unless it is
/// empty.
pub proof fn law_lines_end_with_their_break(a: Seq<char>, b: Seq<char>)
    requires
        !a.contains('\n'),
    ensures
        lines_of(Seq::empty()).len() == 0,
        a.len() > 0 ==> lines_of(a) == seq![a],
        lines_of(a + seq!['\r', '\n'] + b) == seq![a] + lines_of(b),
        a.len() == 0 || a.last() != '\r' ==> lines_of(a + seq!['\n'] + b) == seq![a] + lines_of(b),
{
    lemma_until(a, '\n');
    if until(a, '\n') < a.len() {
        assert(a.contains(a[until(a, '\n')]));
    }
    assert(a.push('\n') =~= a + seq!['\n']);
    lemma_one_line(a);
    lemma_lines_concat(a + seq!['\n'], b);
    let c = a.push('\r');
    assert forall|i: int| 0 <= i < c.len() implies c[i] != '\n' by {
        if i < a.len() {
            assert(a.contains(a[i]));
        }
    }
    assert(c.push('\n') =~= a + seq!['\r', '\n']);
    lemma_one_line(c);
    lemma_lines_concat(a + seq!['\r', '\n'], b);
    assert(c.drop_last() =~= a);
}

/// `pat` stands in `s` at `k`.
pub open spec fn stands_at(s: Seq<char>, pat: Seq<char>, k: int) -> bool {
    0 <= k && k + pat.len() <= s.len() && s.subrange(k, k + pat.len()) == pat
}

/// A search finds the first place at which the pattern stands, and none where it
/// stands nowhere.
pub proof fn law_search_finds_the_first(s: Seq<char>, pat: Seq<char>, j: int)
    ensures
        until_text(s, pat) matches Some(k) ==> stands_at(s, pat, k) && (j < k ==> !stands_at(
            s,
            pat,
            j,
        )),
        until_text(s, pat) is None ==> !stands_at(s, pat, j),
    decreases s.len(),
{
    if pat.is_prefix_of(s) {
        assert(s.subrange(0, pat.len() as int) =~= pat);
    } else {
        if stands_at(s, pat, 0) {
            assert(pat =~= s.take(pat.len() as int));
        }
        if s.len() > 0 {
            let t = s.skip(1);
            law_search_finds_the_first(t, pat, j - 1);
            if let Some(k) = until_text(t, pat) {
                assert(s.subrange(k + 1, k + 1 + pat.len()) =~= t.subrange(k, k + pat.len()));
            }
            if j > 0 && j + pat.len() <= s.len() {
                assert(s.subrange(j, j + pat.len()) =~= t.subrange(j - 1, j - 1 + pat.len()));
            }
        }
    }
}

/// What follows the last `c` is what stands behind a `c` behind which no other
/// stands; of a text without one it is all.
pub proof fn law_last_piece_follows_the_last(a: Seq<char>, b: Seq<char>, c: char)
    requires
        !b.contains(c),
    ensures
        after_last(a + seq![c] + b, c) == b,
        after_last(b, c) == b,
    decreases b.len(),
{
    let s = a + seq![c] + b;
    if b.len() == 0 {
        assert(s.last() == c);
        assert(after_last(s, c) =~= b);
        assert(after_last(b, c) =~= b);
    } else {
        assert(b.contains(b.last()));
        let t = b.drop_last();
        assert forall|x: char| t.contains(x) implies b.contains(x) by {
            let i = choose|i: int| 0 <= i < t.len() && t[i] == x;
            assert(b[i] == x);
        }
        law_last_piece_follows_the_last(a, t, c);
        assert(s.drop_last() =~= a + seq![c] + t);
        assert(t.push(b.last()) =~= b);
    }
}

/// A text can be cut behind any of its characters, and what is before the cut is
/// left; inside a character it cannot be cut.
pub proof fn law_cut_falls_behind_a_character(a: Seq<char>, b: Seq<char>, n: int)
    requires
        n >= 0,
    ensures
        cuts_at(a + b, encode_utf8(a).len() as int),
        first_bytes(a + b, encode_utf8(a).len() as int) == a,
        cuts_at(a, n) && n < encode_utf8(a).len() ==> exists|k: int|
            0 <= k <= a.len() && encode_utf8(#[trigger] a.take(k)).len() == n,
{
    let s = a + b;
    let m = encode_utf8(a).len() as int;
    lemma_cut(s, a.len() as int);
    assert(s.take(a.len() as int) =~= a);
    encode_utf8_decode_utf8(a);
    assert(encode_utf8(s).take(m) =~= encode_utf8(a));
    if encode_utf8(s).len() <= m {
        assert(encode_utf8(s.skip(a.len() as int)).len() == 0);
        if b.len() > 0 {
            assert(s.skip(a.len() as int) =~= b);
            encode_utf8_first_scalar(b);
        }
        assert(s =~= a);
    }
    if cuts_at(a, n) && n < m {
        let bytes = encode_utf8(a);
        encode_utf8_valid_utf8(a);
        valid_utf8_split(bytes, n);
        let t = decode_utf8(bytes.take(n));
        decode_utf8_encode_utf8(bytes.take(n));
        let u = decode_utf8(bytes.skip(n));
        assert(bytes.subrange(0, n) =~= bytes.take(n));
        assert(bytes.subrange(n, bytes.len() as int) =~= bytes.skip(n));
        decode_utf8_encode_utf8(bytes.skip(n));
        let k = t.len() as int;
        lemma_cut(t + u, k);
        assert((t + u).take(k) =~= t);
        assert((t + u).skip(k) =~= u);
        assert(encode_utf8(t + u) =~= bytes);
        encode_utf8_decode_utf8(t + u);
        encode_utf8_decode_utf8(a);
        assert(a == t + u);
        assert(encode_utf8(a.take(k)).len() == n);
    }
}

/// A text that is cut behind `n` bytes has no more than these bytes, and the same as
/// the text; one that has no more is not cut.
pub proof fn law_cut_keeps_the_first_bytes(s: Seq<char>, n: int)
    requires
        n >= 0,
        cuts_at(s, n),
    ensures
        encode_utf8(s).len() <= n ==> first_bytes(s, n) == s,
        encode_utf8(s).len() > n ==> encode_utf8(first_bytes(s, n)) == encode_utf8(s).take(n),
{
    encode_utf8_valid_utf8(s);
    if encode_utf8(s).len() > n {
        let b = encode_utf8(s);
        assert(b.subrange(0, n) =~= b.take(n));
        valid_utf8_split(b, n);
        decode_utf8_encode_utf8(b.take(n));
    }
}

// ------------------------------------------------------------------ functions
/// Whether `c` has the Unicode property `White_Space`.
pub fn white(c: char) -> (r: bool)
    ensures
        r == is_white(c),
{
    ('\u{9}' <= c && c <= '\u{d}') || c == ' ' || c == '\u{85}' || c == '\u{a0}' || c == '\u{1680}'
        || ('\u{2000}' <= c && c <= '\u{200a}') || c == '\u{2028}' || c == '\u{2029}' || c
        == '\u{202f}' || c == '\u{205f}' || c == '\u{3000}'
}

/// The characters of `s`, one by one.
pub fn chars_of(s: &str) -> (r: Vec<char>)
    ensures
        r@ == s@,
{
    let mut out: Vec<char> = Vec::new();
    for c in it: s.chars()
        invariant
            out@ == s@.take(it.index()),
            it.seq() == s@,
    {
        proof {
            assert(s@.take(it.index() + 1) =~= s@.take(it.index()).push(s@[it.index()]));
        }
        out.push(c);
    }
    proof {
        assert(s@.take(s@.len() as int) =~= s@);
    }
    out
}

/// Whether two slices hold the same text.
pub fn same(a: &str, b: &str) -> (r: bool)
    ensures
        r == (a@ == b@),
{
    let x = a.as_bytes();
    let y = b.as_bytes();
    proof {
        encode_utf8_decode_utf8(a@);
        encode_utf8_decode_utf8(b@);
    }
    if x.len() != y.len() {
        return false;
    }
    let mut i: usize = 0;
    while i < x.len()
        invariant
            i <= x.len(),
            x.len() == y.len(),
            x@ == a.spec_bytes(),
            y@ == b.spec_bytes(),
            forall|j: int| 0 <= j < i ==> x@[j] == y@[j],
        decreases x.len() - i,
    {
        if x[i] != y[i] {
            return false;
        }
        i += 1;
    }
    assert(x@ =~= y@);
    true
}

/// Cutting a text between two characters cuts its encoding between two bytes.
proof fn lemma_cut(s: Seq<char>, k: int)
    requires
        0 <= k <= s.len(),
    ensures
        is_char_boundary(encode_utf8(s), encode_utf8(s.take(k)).len() as int),
        encode_utf8(s) == encode_utf8(s.take(k)) + encode_utf8(s.skip(k)),
    decreases k,
{
    encode_utf8_valid_utf8(s);
    if k == 0 {
        assert(s.skip(0) =~= s);
        assert(encode_utf8(s.take(0)) =~= Seq::<u8>::empty());
        assert(encode_utf8(s) =~= encode_utf8(s.take(k)) + encode_utf8(s.skip(k)));
    } else {
        let t = s.drop_first();
        lemma_cut(t, k - 1);
        assert(s.take(k).drop_first() =~= t.take(k - 1));
        assert(s.skip(k) =~= t.skip(k - 1));
        let first = encode_scalar(s[0] as u32);
        assert(encode_utf8(s) =~= first + encode_utf8(t));
        assert(encode_utf8(s.take(k)) =~= first + encode_utf8(t.take(k - 1)));
        assert(encode_utf8(s) =~= encode_utf8(s.take(k)) + encode_utf8(s.skip(k)));
        encode_utf8_first_scalar(s);
        assert(pop_first_scalar(encode_utf8(s)) =~= encode_utf8(t));
    }
}

/// How many bytes `c` takes in UTF-8.
fn width(c: char) -> (r: usize)
    ensures
        r == encode_scalar(c as u32).len(),
        1 <= r <= 4,
{
    let u: u32 = c as u32;
    if u <= 0x7f {
        1
    } else if u <= 0x7ff {
        2
    } else if u <= 0xffff {
        3
    } else {
        4
    }
}

/// The first `k` characters of `s`, and what follows them.
pub fn cut<'a>(s: &'a str, k: usize) -> (r: (&'a str, &'a str))
    requires
        k <= s@.len(),
    ensures
        r.0@ == s@.take(k as int),
        r.1@ == s@.skip(k as int),
{
    let total = s.as_bytes().len();
    let mut at: usize = 0;
    let mut i: usize = 0;
    let mut it = s.chars();
    assert(s@.skip(0) =~= s@);
    assert(encode_utf8(s@.take(0)) =~= Seq::<u8>::empty());
    while i < k
        invariant
            i <= k <= s@.len(),
            vstd::std_specs::iter::IteratorSpec::remaining(&it) == s@.skip(i as int),
            vstd::std_specs::iter::IteratorSpec::obeys_prophetic_iter_laws(&it),
            at == encode_utf8(s@.take(i as int)).len(),
            encode_utf8(s@).len() == total,
        decreases k - i,
    {
        match it.next() {
            Some(c) => {
                proof {
                    assert(c == s@[i as int]);
                    assert(s@.skip(i as int).drop_first() =~= s@.skip(i + 1));
                    let t = s@.take(i + 1);
                    lemma_cut(s@, i + 1);
                    lemma_cut(t, i as int);
                    assert(t.take(i as int) =~= s@.take(i as int));
                    assert(t.skip(i as int) =~= seq![c]);
                    reveal_with_fuel(encode_utf8, 2);
                    assert(encode_utf8(seq![c]) =~= encode_scalar(c as u32));
                }
                at += width(c);
            },
            None => {},
        }
        i += 1;
    }
    proof {
        lemma_cut(s@, k as int);
    }
    let parts = s.split_at(at);
    proof {
        let x = encode_utf8(s@.take(k as int));
        let y = encode_utf8(s@.skip(k as int));
        assert((x + y).subrange(0, at as int) =~= x);
        assert((x + y).subrange(at as int, (x + y).len() as int) =~= y);
        encode_utf8_decode_utf8(parts.0@);
        encode_utf8_decode_utf8(parts.1@);
        encode_utf8_decode_utf8(s@.take(k as int));
        encode_utf8_decode_utf8(s@.skip(k as int));
    }
    parts
}

/// The first `n` characters of `s`.
pub fn head<'a>(s: &'a str, n: usize) -> (r: &'a str)
    requires
        n <= s@.len(),
    ensures
        r@ == s@.take(n as int),
{
    cut(s, n).0
}

/// What follows the first `n` characters of `s`.
pub fn tail<'a>(s: &'a str, n: usize) -> (r: &'a str)
    requires
        n <= s@.len(),
    ensures
        r@ == s@.skip(n as int),
{
    cut(s, n).1
}

/// Where `s` takes more than `n` bytes, its first `n` bytes are whole characters.
pub open spec fn cuts_at(s: Seq<char>, n: int) -> bool {
    encode_utf8(s).len() > n ==> is_char_boundary(encode_utf8(s), n)
}

/// The characters in the first `n` bytes of `s`, which may have fewer.
pub open spec fn first_bytes(s: Seq<char>, n: int) -> Seq<char> {
    if encode_utf8(s).len() > n {
        decode_utf8(encode_utf8(s).take(n))
    } else {
        s
    }
}

/// Whether the first `n` bytes of `s` are whole characters.
pub fn can_cut(s: &str, n: usize) -> (r: bool)
    ensures
        r == cuts_at(s@, n as int),
{
    s.as_bytes().len() <= n || s.is_char_boundary(n)
}

/// The characters in the first `n` bytes of `s`, which may have fewer.
pub fn cut_bytes<'a>(s: &'a str, n: usize) -> (r: &'a str)
    requires
        cuts_at(s@, n as int),
    ensures
        r@ == first_bytes(s@, n as int),
{
    if s.as_bytes().len() <= n {
        return s;
    }
    let front = s.split_at(n).0;
    proof {
        encode_utf8_decode_utf8(front@);
        assert(encode_utf8(s@).subrange(0, n as int) =~= encode_utf8(s@).take(n as int));
    }
    front
}

/// In a text of ASCII characters a byte is a character: it can be cut anywhere.
pub proof fn law_ascii_cut(s: Seq<char>, n: int)
    requires
        is_ascii_chars(s),
        n >= 0,
    ensures
        cuts_at(s, n),
        first_bytes(s, n) == s.take(if n < s.len() { n } else { s.len() as int }),
{
    is_ascii_chars_encode_utf8(s);
    assert(s.take(s.len() as int) =~= s);
    if n < s.len() {
        let t = s.take(n);
        lemma_cut(s, n);
        assert(is_ascii_chars(t));
        is_ascii_chars_encode_utf8(t);
        assert(encode_utf8(s).take(n) =~= encode_utf8(t));
        encode_utf8_decode_utf8(t);
    }
}

/// `s` without its trailing white space.
pub fn trim_end<'a>(s: &'a str) -> (r: &'a str)
    ensures
        r@ == trimmed_end(s@),
{
    let v = chars_of(s);
    let mut hi: usize = v.len();
    assert(s@.take(hi as int) =~= s@);
    while hi > 0 && white(v[hi - 1])
        invariant
            v@ == s@,
            hi <= v.len(),
            trimmed_end(s@.take(hi as int)) == trimmed_end(s@),
        decreases hi,
    {
        assert(s@.take(hi as int).drop_last() =~= s@.take(hi - 1));
        hi -= 1;
    }
    head(s, hi)
}

/// `s` without its leading white space.
pub fn trim_start<'a>(s: &'a str) -> (r: &'a str)
    ensures
        r@ == trimmed_start(s@),
{
    let v = chars_of(s);
    let mut lo: usize = 0;
    assert(s@.skip(0) =~= s@);
    while lo < v.len() && white(v[lo])
        invariant
            v@ == s@,
            lo <= v.len(),
            trimmed_start(s@.skip(lo as int)) == trimmed_start(s@),
        decreases v.len() - lo,
    {
        assert(s@.skip(lo as int).skip(1) =~= s@.skip(lo + 1));
        lo += 1;
    }
    tail(s, lo)
}

/// `s` without leading and trailing white space.
pub fn trim<'a>(s: &'a str) -> (r: &'a str)
    ensures
        r@ == trimmed(s@),
{
    trim_end(trim_start(s))
}

/// The place of the first `c` in `s`.
pub fn find(s: &str, c: char) -> (r: Option<usize>)
    ensures
        match r {
            Some(k) => k < s@.len() <= usize::MAX && k == until(s@, c),
            None => until(s@, c) == s@.len(),
        },
{
    proof {
        lemma_shorter(s@);
    }
    let total = s.as_bytes().len();
    let mut i: usize = 0;
    for d in it: s.chars()
        invariant
            it.seq() == s@,
            i == it.index(),
            s@.len() <= total,
            forall|j: int| 0 <= j < i ==> s@[j] != c,
    {
        if d == c {
            proof {
                lemma_until_is(s@, c, i as int);
            }
            return Some(i);
        }
        i += 1;
    }
    proof {
        lemma_until_is(s@, c, i as int);
    }
    None
}

/// Whether `s` begins with `prefix`.
pub fn starts_with(s: &str, prefix: &str) -> (r: bool)
    ensures
        r == prefix@.is_prefix_of(s@),
{
    let mut it = s.chars();
    assert(s@.skip(0) =~= s@);
    let ghost mut n: int = 0;
    for d in want: prefix.chars()
        invariant
            want.seq() == prefix@,
            n == want.index(),
            n <= s@.len(),
            vstd::std_specs::iter::IteratorSpec::remaining(&it) == s@.skip(n),
            vstd::std_specs::iter::IteratorSpec::obeys_prophetic_iter_laws(&it),
            forall|j: int| 0 <= j < n ==> s@[j] == prefix@[j],
    {
        match it.next() {
            Some(c) => {
                if c != d {
                    assert(c == s@[n]);
                    return false;
                }
                assert(s@.skip(n).drop_first() =~= s@.skip(n + 1));
            },
            None => {
                return false;
            },
        }
        proof {
            n = n + 1;
        }
    }
    assert(prefix@ =~= s@.take(n));
    true
}

/// What follows `prefix` in `s`, where `s` begins with it.
pub fn strip_prefix<'a>(s: &'a str, prefix: &str) -> (r: Option<&'a str>)
    ensures
        r is Some <==> prefix@.is_prefix_of(s@),
        r matches Some(t) ==> t@ == s@.skip(prefix@.len() as int),
{
    if starts_with(s, prefix) {
        Some(tail(s, prefix.unicode_len()))
    } else {
        None
    }
}

/// The place of the first occurrence of `pat` in `s`.
pub fn find_text(s: &str, pat: &str) -> (r: Option<usize>)
    ensures
        match r {
            Some(k) => until_text(s@, pat@) == Some(k as int) && k + pat@.len() <= s@.len()
                <= usize::MAX,
            None => until_text(s@, pat@) is None,
        },
{
    let mut rest: &str = s;
    let mut i: usize = 0;
    assert(s@.skip(0) =~= s@);
    let n = s.unicode_len();
    loop
        invariant
            i <= n,
            n == s@.len(),
            rest@ == s@.skip(i as int),
            match until_text(rest@, pat@) {
                Some(k) => until_text(s@, pat@) == Some(k + i),
                None => until_text(s@, pat@) is None,
            },
        decreases n - i,
    {
        if starts_with(rest, pat) {
            return Some(i);
        }
        if i == n {
            return None;
        }
        assert(rest@.skip(1) =~= s@.skip(i + 1));
        rest = tail(rest, 1);
        i += 1;
    }
}

/// What follows the last `c` in `s`; all of `s` where `c` does not occur.
pub fn last_piece<'a>(s: &'a str, c: char) -> (r: &'a str)
    ensures
        r@ == after_last(s@, c),
{
    let v = chars_of(s);
    let n: usize = v.len();
    let mut lo: usize = n;
    assert(s@.subrange(n as int, n as int) =~= Seq::<char>::empty());
    assert(s@.take(n as int) =~= s@);
    while lo > 0 && v[lo - 1] != c
        invariant
            v@ == s@,
            lo <= n,
            n == v.len(),
            after_last(s@, c) == after_last(s@.take(lo as int), c) + s@.subrange(
                lo as int,
                n as int,
            ),
        decreases lo,
    {
        proof {
            let t = s@.take(lo as int);
            assert(t.drop_last() =~= s@.take(lo - 1));
            assert(after_last(t.drop_last(), c).push(t.last()) + s@.subrange(lo as int, n as int)
                =~= after_last(s@.take(lo - 1), c) + s@.subrange(lo - 1, n as int));
        }
        lo -= 1;
    }
    assert(after_last(s@.take(lo as int), c) =~= Seq::<char>::empty());
    assert(s@.subrange(lo as int, n as int) =~= s@.skip(lo as int));
    tail(s, lo)
}

/// The stretches of `s` between occurrences of `sep`.
pub fn split<'a>(s: &'a str, sep: char) -> (r: Vec<&'a str>)
    ensures
        texts(r@) == pieces(s@, sep),
{
    let mut out: Vec<&'a str> = Vec::new();
    let mut rest: &'a str = s;
    loop
        invariant
            pieces(s@, sep) == texts(out@) + pieces(rest@, sep),
        decreases rest@.len(),
    {
        match find(rest, sep) {
            Some(k) => {
                let piece = head(rest, k);
                let next = tail(rest, k + 1);
                let ghost before = texts(out@);
                out.push(piece);
                assert(texts(out@) =~= before.push(piece@));
                assert(before + (seq![piece@] + pieces(next@, sep)) =~= texts(out@) + pieces(
                    next@,
                    sep,
                ));
                rest = next;
            },
            None => {
                let ghost before = texts(out@);
                out.push(rest);
                assert(texts(out@) =~= before + seq![rest@]);
                return out;
            },
        }
    }
}

/// As `split`, but into at most `n` pieces, the last of which holds the rest.
pub fn split_at_most<'a>(s: &'a str, sep: char, n: usize) -> (r: Vec<&'a str>)
    ensures
        texts(r@) == pieces_at_most(s@, sep, n as nat),
{
    let mut out: Vec<&'a str> = Vec::new();
    let mut rest: &'a str = s;
    let mut left: usize = n;
    while left > 0
        invariant
            pieces_at_most(s@, sep, n as nat) == texts(out@) + pieces_at_most(
                rest@,
                sep,
                left as nat,
            ),
        decreases left,
    {
        let place = find(rest, sep);
        let ghost before = texts(out@);
        if left == 1 || place.is_none() {
            out.push(rest);
            assert(texts(out@) =~= before + seq![rest@]);
            return out;
        }
        let k = place.unwrap();
        let piece = head(rest, k);
        let next = tail(rest, k + 1);
        out.push(piece);
        assert(texts(out@) =~= before.push(piece@));
        assert(before + (seq![piece@] + pieces_at_most(next@, sep, (left - 1) as nat))
            =~= texts(out@) + pieces_at_most(next@, sep, (left - 1) as nat));
        rest = next;
        left -= 1;
    }
    assert(texts(out@) + pieces_at_most(rest@, sep, 0) =~= texts(out@));
    out
}

/// `line` without a `\r` at its end.
fn drop_cr<'a>(line: &'a str) -> (r: &'a str)
    ensures
        r@ == without_cr(line@),
{
    let n = line.unicode_len();
    if n > 0 && line.get_char(n - 1) == '\r' {
        assert(line@.take(n - 1) =~= line@.drop_last());
        head(line, n - 1)
    } else {
        line
    }
}

/// The lines of `s`.
pub fn lines<'a>(s: &'a str) -> (r: Vec<&'a str>)
    ensures
        texts(r@) == lines_of(s@),
{
    let mut out: Vec<&'a str> = Vec::new();
    let mut rest: &'a str = s;
    loop
        invariant
            lines_of(s@) == texts(out@) + lines_of(rest@),
        decreases rest@.len(),
    {
        if rest.is_empty() {
            assert(texts(out@) + lines_of(rest@) =~= texts(out@));
            return out;
        }
        match find(rest, '\n') {
            Some(k) => {
                let line = drop_cr(head(rest, k));
                let next = tail(rest, k + 1);
                let ghost before = texts(out@);
                out.push(line);
                assert(texts(out@) =~= before.push(line@));
                assert(before + (seq![line@] + lines_of(next@)) =~= texts(out@) + lines_of(next@));
                rest = next;
            },
            None => {
                let ghost before = texts(out@);
                out.push(rest);
                assert(texts(out@) =~= before + seq![rest@]);
                return out;
            },
        }
    }
}

} // verus!
