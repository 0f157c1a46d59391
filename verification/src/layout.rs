//! How documents are laid out, and the laws of reading them: what is written in
//! this layout is read back, and comments and empty lines say nothing.

use vstd::prelude::*;
use vstd::string::*;

use crate::report::spaces;
use crate::text::{
    is_white, lemma_lines_concat, lemma_one_line, lemma_trimmed_end, lemma_trimmed_ends,
    lemma_trimmed_same, lemma_until, lemma_until_is, lines_of, trimmed, trimmed_end, trimmed_start,
    until, without_cr,
};
use crate::yaml::{
    comment_from, document, entries, entry_of, has_key, indent_fits, indents_fit, is_end_of,
    is_item, key_of, leading_spaces, lemma_inline_shrinks, lemma_leading_spaces,
    lemma_map_shrinks, lemma_seq_shrinks, lone_quote, opens_block, opens_comment, quoting,
    read_inline, read_map, read_seq, readable, rest_of, scalar_pair, uncommented, unquoted, Entry,
    Quoting, YamlView,
};

verus! {

// ---------------------------------------------------------------------- layout
/// No comment begins in `s`.
pub open spec fn clean(s: Seq<char>) -> bool {
    comment_from(s, 0) == s.len()
}

/// A scalar that stands as it is.
pub open spec fn bare(s: Seq<char>) -> bool {
    &&& s.len() > 0
    &&& clean(s)
    &&& trimmed(s) == s
    &&& unquoted(s) == s
    &&& !lone_quote(s)
}

/// A scalar that can be written behind a key, if need be in quotes.
pub open spec fn scalar_ok(s: Seq<char>) -> bool {
    &&& !s.contains('\n')
    &&& bare(s) || !s.contains('"') || !s.contains('\'')
}

/// A scalar as it is written behind a key.
pub open spec fn scalar_form(s: Seq<char>) -> Seq<char> {
    if bare(s) {
        s
    } else if !s.contains('"') {
        seq!['"'] + s + seq!['"']
    } else {
        seq!['\''] + s + seq!['\'']
    }
}

/// A scalar that can be written as an item: items have no quotes and no keys.
pub open spec fn item_ok(s: Seq<char>) -> bool {
    &&& s.len() > 0
    &&& clean(s)
    &&& trimmed(s) == s
    &&& !s.contains(':')
    &&& !s.contains('\n')
}

/// A key that can be written.
pub open spec fn key_ok(key: Seq<char>) -> bool {
    &&& clean(key)
    &&& quoting(key) is Bare
    &&& trimmed(key) == key
    &&& key.len() > 0 ==> key[0] != '-'
    &&& !key.contains(':')
    &&& !key.contains('\n')
}

/// Pairs that can be written as a block.
pub open spec fn pairs_ok(pairs: Seq<(Seq<char>, YamlView)>) -> bool
    decreases pairs,
{
    pairs.len() > 0 ==> {
        &&& key_ok(pairs[0].0)
        &&& value_ok(pairs[0].1)
        &&& pairs_ok(pairs.subrange(1, pairs.len() as int))
    }
}

/// A value that can be written behind a key: a map or a list there is not empty.
pub open spec fn value_ok(v: YamlView) -> bool
    decreases v,
{
    match v {
        YamlView::Scalar(s) => scalar_ok(s),
        YamlView::Mapping(pairs) => pairs.len() > 0 && pairs_ok(pairs),
        YamlView::Sequence(items) => items.len() > 0 && items_ok(items),
    }
}

/// Items that can be written as a block.
pub open spec fn items_ok(items: Seq<YamlView>) -> bool
    decreases items,
{
    items.len() > 0 ==> {
        &&& item_value_ok(items[0])
        &&& items_ok(items.subrange(1, items.len() as int))
    }
}

/// A value that can be written as an item: a list there is not empty.
pub open spec fn item_value_ok(v: YamlView) -> bool
    decreases v,
{
    match v {
        YamlView::Scalar(s) => item_ok(s),
        YamlView::Mapping(pairs) => pairs_ok(pairs),
        YamlView::Sequence(inner) => inner.len() > 0 && items_ok(inner),
    }
}

/// How deep the blocks of pairs are nested.
pub open spec fn pairs_depth(pairs: Seq<(Seq<char>, YamlView)>) -> nat
    decreases pairs,
{
    if pairs.len() == 0 {
        0
    } else {
        let first = value_depth(pairs[0].1);
        let more = pairs_depth(pairs.subrange(1, pairs.len() as int));
        if first < more {
            more
        } else {
            first
        }
    }
}

/// How deep the blocks of a value are nested.
pub open spec fn value_depth(v: YamlView) -> nat
    decreases v,
{
    match v {
        YamlView::Scalar(s) => 0,
        YamlView::Mapping(pairs) => 1 + pairs_depth(pairs),
        YamlView::Sequence(items) => 1 + items_depth(items),
    }
}

/// How deep the blocks of items are nested.
pub open spec fn items_depth(items: Seq<YamlView>) -> nat
    decreases items,
{
    if items.len() == 0 {
        0
    } else {
        let first = value_depth(items[0]);
        let more = items_depth(items.subrange(1, items.len() as int));
        if first < more {
            more
        } else {
            first
        }
    }
}

/// Pairs whose values are scalars.
pub open spec fn all_scalars(pairs: Seq<(Seq<char>, YamlView)>) -> bool {
    forall|i: int| 0 <= i < pairs.len() ==> (#[trigger] pairs[i]).1 is Scalar
}

/// A key and its scalar on one line.
pub open spec fn pair_content(p: (Seq<char>, YamlView)) -> Seq<char> {
    p.0 + seq![':', ' '] + scalar_form(p.1->Scalar_0)
}

/// A block of pairs at the indentation `n`.
pub open spec fn pairs_entries(pairs: Seq<(Seq<char>, YamlView)>, n: int) -> Seq<Entry>
    decreases pairs,
{
    if pairs.len() == 0 {
        Seq::empty()
    } else {
        let first = match pairs[0].1 {
            YamlView::Scalar(s) => seq![Entry { indent: n, content: pair_content(pairs[0]) }],
            YamlView::Mapping(inner) => seq![
                Entry { indent: n, content: pairs[0].0 + seq![':'] },
            ] + pairs_entries(inner, n + 2),
            YamlView::Sequence(items) => seq![
                Entry { indent: n, content: pairs[0].0 + seq![':'] },
            ] + items_entries(items, n + 2),
        };
        first + pairs_entries(pairs.subrange(1, pairs.len() as int), n)
    }
}

/// A block of items at the indentation `n`. A small map stands with its first
/// pair behind the dash and the others below it; other values that are no
/// scalars stand below the dash.
pub open spec fn items_entries(items: Seq<YamlView>, n: int) -> Seq<Entry>
    decreases items,
{
    if items.len() == 0 {
        Seq::empty()
    } else {
        let first = match items[0] {
            YamlView::Scalar(s) => seq![Entry { indent: n, content: seq!['-', ' '] + s }],
            YamlView::Mapping(pairs) => if pairs.len() > 0 && all_scalars(pairs) {
                small_entries(pairs, n)
            } else {
                seq![Entry { indent: n, content: seq!['-'] }] + pairs_entries(pairs, n + 2)
            },
            YamlView::Sequence(inner) => seq![
                Entry { indent: n, content: seq!['-'] },
            ] + items_entries(inner, n + 2),
        };
        first + items_entries(items.subrange(1, items.len() as int), n)
    }
}

/// A small map as an item at the indentation `n`.
pub open spec fn small_entries(pairs: Seq<(Seq<char>, YamlView)>, n: int) -> Seq<Entry> {
    seq![Entry { indent: n, content: seq!['-', ' '] + pair_content(pairs[0]) }] + further_entries(
        pairs,
        1,
        n + 2,
    )
}

/// The pairs from the one at `i` on, one line each.
pub open spec fn further_entries(
    pairs: Seq<(Seq<char>, YamlView)>,
    i: int,
    n: int,
) -> Seq<Entry> {
    Seq::new(
        (pairs.len() - i) as nat,
        |j: int| Entry { indent: n, content: pair_content(pairs[i + j]) },
    )
}

/// The lines of entries, each with its end.
pub open spec fn text_of(es: Seq<Entry>) -> Seq<char>
    decreases es.len(),
{
    if es.len() == 0 {
        Seq::empty()
    } else {
        (spaces(es[0].indent as nat) + es[0].content).push('\n') + text_of(es.skip(1))
    }
}

/// The document that holds `pairs`.
pub open spec fn document_text(pairs: Seq<(Seq<char>, YamlView)>) -> Seq<char> {
    text_of(pairs_entries(pairs, 0))
}

// --------------------------------------------------------------- single lines
/// The first comment stands behind everything that opens none.
pub proof fn lemma_comment_is(s: Seq<char>, i: int, k: int)
    requires
        0 <= i <= k <= s.len(),
        forall|j: int| i <= j < k ==> !opens_comment(s, j),
        k < s.len() ==> opens_comment(s, k),
    ensures
        comment_from(s, i) == k,
    decreases k - i,
{
    if i < k {
        lemma_comment_is(s, i + 1, k);
    }
}

proof fn lemma_comment_at(s: Seq<char>, i: int)
    requires
        0 <= i <= s.len(),
    ensures
        i <= comment_from(s, i) <= s.len(),
        forall|j: int| i <= j < comment_from(s, i) ==> !opens_comment(s, j),
        comment_from(s, i) < s.len() ==> opens_comment(s, comment_from(s, i)),
    decreases s.len() - i,
{
    if i < s.len() && !opens_comment(s, i) {
        lemma_comment_at(s, i + 1);
    }
}

/// Behind a text that leaves no quote open, quotes are counted afresh.
pub proof fn lemma_quoting_concat(a: Seq<char>, b: Seq<char>)
    requires
        quoting(a) is Bare,
    ensures
        quoting(a + b) == quoting(b),
    decreases b.len(),
{
    if b.len() == 0 {
        assert(a + b =~= a);
    } else {
        assert((a + b).drop_last() =~= a + b.drop_last());
        assert((a + b).last() == b.last());
        lemma_quoting_concat(a, b.drop_last());
    }
}

/// Two stretches without comments are one.
proof fn lemma_clean_concat(a: Seq<char>, b: Seq<char>)
    requires
        clean(a),
        quoting(a) is Bare,
        clean(b),
    ensures
        clean(a + b),
        quoting(a + b) == quoting(b),
{
    let s = a + b;
    lemma_comment_at(a, 0);
    lemma_comment_at(b, 0);
    lemma_quoting_concat(a, b);
    assert forall|i: int| 0 <= i < s.len() implies !opens_comment(s, i) by {
        if i < a.len() {
            assert(s.take(i) =~= a.take(i));
            assert(!opens_comment(a, i));
        } else {
            let j = i - a.len();
            assert(s.take(i) =~= a + b.take(j));
            lemma_quoting_concat(a, b.take(j));
            assert(!opens_comment(b, j));
        }
    }
    lemma_comment_is(s, 0, s.len() as int);
}

/// A text without quotes and without `#` is clean and leaves no quote open.
proof fn lemma_plain(s: Seq<char>)
    requires
        forall|i: int| 0 <= i < s.len() ==> s[i] != '#' && s[i] != '"' && s[i] != '\'',
    ensures
        clean(s),
        quoting(s) is Bare,
    decreases s.len(),
{
    lemma_comment_is(s, 0, s.len() as int);
    if s.len() > 0 {
        lemma_plain(s.drop_last());
    }
}

/// Inside a quote that nothing closes.
pub proof fn lemma_inside(q: char, s: Seq<char>)
    requires
        q == '"' || q == '\'',
        !s.contains(q),
    ensures
        quoting(seq![q] + s) == if q == '"' {
            Quoting::Double
        } else {
            Quoting::Single
        },
    decreases s.len(),
{
    let t = seq![q] + s;
    if s.len() == 0 {
        assert(t.drop_last() =~= Seq::<char>::empty());
        assert(quoting(t.drop_last()) is Bare);
    } else {
        assert(t.drop_last() =~= seq![q] + s.drop_last());
        assert(s.contains(s.last()));
        assert forall|c: char| s.drop_last().contains(c) implies s.contains(c) by {
            let i = choose|i: int| 0 <= i < s.drop_last().len() && s.drop_last()[i] == c;
            assert(s[i] == c);
        }
        lemma_inside(q, s.drop_last());
    }
}

/// A text in quotes: no comment begins in it, and it is read without them.
proof fn lemma_quoted(q: char, s: Seq<char>)
    requires
        q == '"' || q == '\'',
        !s.contains(q),
    ensures
        ({
            let f = seq![q] + s + seq![q];
            &&& clean(f)
            &&& unquoted(f) == s
            &&& !lone_quote(f)
            &&& f.len() > 0 && !is_white(f[0]) && !is_white(f.last())
        }),
{
    let f = seq![q] + s + seq![q];
    assert forall|i: int| 0 <= i < f.len() implies !opens_comment(f, i) by {
        if 0 < i < f.len() - 1 {
            let t = s.take(i - 1);
            assert(f.take(i) =~= seq![q] + t);
            assert forall|c: char| t.contains(c) implies s.contains(c) by {
                let j = choose|j: int| 0 <= j < t.len() && t[j] == c;
                assert(s[j] == c);
            }
            lemma_inside(q, t);
        }
    }
    lemma_comment_is(f, 0, f.len() as int);
    lemma_trimmed_same(f);
    assert(f.subrange(1, f.len() - 1) =~= s);
}

/// A scalar in its written form is read as the scalar.
proof fn lemma_scalar_form(s: Seq<char>)
    requires
        scalar_ok(s),
    ensures
        ({
            let f = scalar_form(s);
            &&& clean(f)
            &&& unquoted(f) == s
            &&& !lone_quote(f)
            &&& f.len() > 0 && !is_white(f[0]) && !is_white(f.last())
            &&& !f.contains('\n')
        }),
{
    let f = scalar_form(s);
    if bare(s) {
        lemma_ends(s);
    } else {
        let q = if !s.contains('"') {
            '"'
        } else {
            '\''
        };
        lemma_quoted(q, s);
        assert forall|i: int| 0 <= i < f.len() implies f[i] != '\n' by {
            if 0 < i < f.len() - 1 {
                assert(s.contains(s[i - 1]));
            }
        }
    }
}

/// A trimmed text neither begins nor ends with white space.
proof fn lemma_ends(s: Seq<char>)
    requires
        trimmed(s) == s,
    ensures
        s.len() > 0 ==> !is_white(s[0]) && !is_white(s.last()),
{
    lemma_trimmed_ends(s);
}

/// Trimming takes a leading space off.
proof fn lemma_trim_space(f: Seq<char>)
    requires
        f.len() > 0 ==> !is_white(f[0]) && !is_white(f.last()),
    ensures
        trimmed(seq![' '] + f) == f,
{
    let t = seq![' '] + f;
    assert(t.skip(1) =~= f);
    assert(is_white(' '));
    lemma_trimmed_same(f);
    assert(trimmed_start(t) == trimmed_start(f));
}

/// A key and a text that follows it.
proof fn lemma_key(key: Seq<char>, f: Seq<char>)
    requires
        key_ok(key),
        f.len() > 0 ==> !is_white(f[0]) && !is_white(f.last()),
    ensures
        ({
            let c = key + seq![':', ' '] + f;
            &&& has_key(c)
            &&& key_of(c) == key
            &&& rest_of(c) == f
        }),
        ({
            let c = key + seq![':'];
            &&& has_key(c)
            &&& key_of(c) == key
            &&& rest_of(c) == Seq::<char>::empty()
        }),
{
    let k = key.len() as int;
    let c = key + seq![':', ' '] + f;
    assert forall|j: int| 0 <= j < k implies c[j] != ':' by {
        assert(key.contains(key[j]));
    }
    lemma_until_is(c, ':', k);
    assert(c.take(k) =~= key);
    assert(c.skip(k + 1) =~= seq![' '] + f);
    lemma_trim_space(f);
    let c = key + seq![':'];
    assert forall|j: int| 0 <= j < k implies c[j] != ':' by {
        assert(key.contains(key[j]));
    }
    lemma_until_is(c, ':', k);
    assert(c.take(k) =~= key);
    assert(c.skip(k + 1) =~= Seq::<char>::empty());
    assert(trimmed(Seq::<char>::empty()) =~= Seq::<char>::empty());
}

/// A pair on one line is read as the pair.
proof fn lemma_pair(p: (Seq<char>, YamlView))
    requires
        key_ok(p.0),
        p.1 is Scalar,
        value_ok(p.1),
    ensures
        has_key(pair_content(p)),
        scalar_pair(pair_content(p)) == p,
        !lone_quote(rest_of(pair_content(p))),
        !is_white(pair_content(p)[0]),
        pair_content(p)[0] != '-',
        !is_white(pair_content(p).last()),
        clean(pair_content(p)),
        !pair_content(p).contains('\n'),
{
    let s = p.1->Scalar_0;
    let f = scalar_form(s);
    lemma_scalar_form(s);
    lemma_key(p.0, f);
    lemma_ends(p.0);
    let c = pair_content(p);
    if p.0.len() == 0 {
        assert(c[0] == ':');
    } else {
        assert(c[0] == p.0[0]);
    }
    assert(c.last() == f.last());
    lemma_plain(seq![':', ' ']);
    lemma_clean_concat(p.0, seq![':', ' ']);
    lemma_clean_concat(p.0 + seq![':', ' '], f);
    assert forall|i: int| 0 <= i < c.len() implies c[i] != '\n' by {
        if i < p.0.len() {
            assert(p.0.contains(p.0[i]));
        } else if i >= p.0.len() + 2 {
            assert(f.contains(f[i - p.0.len() - 2]));
        }
    }
}

/// A key above a block.
proof fn lemma_block_key(key: Seq<char>)
    requires
        key_ok(key),
    ensures
        ({
            let c = key + seq![':'];
            &&& has_key(c)
            &&& key_of(c) == key
            &&& unquoted(rest_of(c)).len() == 0
            &&& !lone_quote(rest_of(c))
            &&& !is_white(c[0])
            &&& c[0] != '-'
            &&& !is_white(c.last())
            &&& clean(c)
            &&& !c.contains('\n')
        }),
{
    let c = key + seq![':'];
    lemma_key(key, Seq::empty());
    assert(trimmed(Seq::<char>::empty()) =~= Seq::<char>::empty());
    lemma_ends(key);
    if key.len() == 0 {
        assert(c[0] == ':');
    } else {
        assert(c[0] == key[0]);
    }
    lemma_plain(seq![':']);
    lemma_clean_concat(key, seq![':']);
    assert forall|i: int| 0 <= i < c.len() implies c[i] != '\n' by {
        if i < key.len() {
            assert(key.contains(key[i]));
        }
    }
}

/// A text behind a dash.
proof fn lemma_dash(s: Seq<char>)
    requires
        s.len() > 0,
        !is_white(s[0]) && !is_white(s.last()),
        clean(s),
        !s.contains('\n'),
    ensures
        ({
            let c = seq!['-', ' '] + s;
            &&& c[0] == '-'
            &&& trimmed(c.skip(1)) == s
            &&& !is_white(c.last())
            &&& clean(c)
            &&& !c.contains('\n')
        }),
{
    let c = seq!['-', ' '] + s;
    assert(c.skip(1) =~= seq![' '] + s);
    lemma_trim_space(s);
    assert(c.last() == s.last());
    lemma_plain(seq!['-', ' ']);
    lemma_clean_concat(seq!['-', ' '], s);
    assert forall|i: int| 0 <= i < c.len() implies c[i] != '\n' by {
        if i >= 2 {
            assert(s.contains(s[i - 2]));
        }
    }
}

// ---------------------------------------------------------------------- blocks
/// The block before `rest` ends there: nothing indented deeper than `parent`
/// follows at once.
pub open spec fn ends_at(rest: Seq<Entry>, parent: int) -> bool {
    rest.len() == 0 || rest[0].indent <= parent
}

/// What a block of pairs begins with.
proof fn lemma_pairs_begin(pairs: Seq<(Seq<char>, YamlView)>, n: int)
    requires
        pairs.len() > 0,
        pairs_ok(pairs),
    ensures
        pairs_entries(pairs, n).len() > 0,
        pairs_entries(pairs, n)[0].indent == n,
        !is_item(pairs_entries(pairs, n)[0]),
{
    match pairs[0].1 {
        YamlView::Scalar(s) => {
            lemma_pair(pairs[0]);
        },
        _ => {
            lemma_block_key(pairs[0].0);
        },
    }
}

/// What a block of items begins with.
proof fn lemma_items_begin(items: Seq<YamlView>, n: int)
    requires
        items.len() > 0,
    ensures
        items_entries(items, n).len() > 0,
        items_entries(items, n)[0].indent == n,
        is_item(items_entries(items, n)[0]),
{
}

/// A block of pairs is read as those pairs.
proof fn lemma_read_pairs(
    pairs: Seq<(Seq<char>, YamlView)>,
    n: int,
    parent: int,
    acc: Seq<(Seq<char>, YamlView)>,
    rest: Seq<Entry>,
)
    requires
        pairs_ok(pairs),
        parent < n,
        ends_at(rest, parent),
    ensures
        read_map(pairs_entries(pairs, n) + rest, parent, acc) == Some(
            (YamlView::Mapping(acc + pairs), rest),
        ),
    decreases pairs,
{
    let es = pairs_entries(pairs, n) + rest;
    if pairs.len() == 0 {
        assert(es =~= rest);
        assert(acc + pairs =~= acc);
    } else {
        let more = pairs.subrange(1, pairs.len() as int);
        let tail = pairs_entries(more, n) + rest;
        if more.len() > 0 {
            lemma_pairs_begin(more, n);
        } else {
            assert(tail =~= rest);
        }
        assert(ends_at(tail, n));
        let p = pairs[0];
        assert(value_ok(p.1));
        lemma_read_pairs(more, n, parent, acc.push(p), rest);
        assert(acc.push(p) + more =~= acc + pairs);
        match p.1 {
            YamlView::Scalar(s) => {
                lemma_pair(p);
                assert(es.skip(1) =~= tail);
                assert(!opens_block(es));
            },
            YamlView::Mapping(inner) => {
                lemma_block_key(p.0);
                lemma_pairs_begin(inner, n + 2);
                assert(es.skip(1) =~= pairs_entries(inner, n + 2) + tail);
                assert(es[1] == pairs_entries(inner, n + 2)[0]);
                lemma_read_pairs(inner, n + 2, n, Seq::empty(), tail);
                assert(Seq::<(Seq<char>, YamlView)>::empty() + inner =~= inner);
            },
            YamlView::Sequence(items) => {
                lemma_block_key(p.0);
                lemma_items_begin(items, n + 2);
                assert(es.skip(1) =~= items_entries(items, n + 2) + tail);
                assert(es[1] == items_entries(items, n + 2)[0]);
                lemma_read_items(items, n + 2, n, Seq::empty(), tail);
                assert(Seq::<YamlView>::empty() + items =~= items);
            },
        }
    }
}

/// The further pairs of a small map are read behind the first ones.
proof fn lemma_read_further(
    pairs: Seq<(Seq<char>, YamlView)>,
    i: int,
    n: int,
    rest: Seq<Entry>,
)
    requires
        0 <= i <= pairs.len(),
        all_scalars(pairs),
        forall|j: int|
            0 <= j < pairs.len() ==> key_ok((#[trigger] pairs[j]).0) && value_ok(pairs[j].1),
        ends_at(rest, n - 1),
    ensures
        read_inline(further_entries(pairs, i, n) + rest, n, pairs.take(i)) == Some((pairs, rest)),
    decreases pairs.len() - i,
{
    let es = further_entries(pairs, i, n) + rest;
    if i == pairs.len() {
        assert(es =~= rest);
        assert(pairs.take(i) =~= pairs);
    } else {
        lemma_pair(pairs[i]);
        assert(es[0] == (Entry { indent: n, content: pair_content(pairs[i]) }));
        assert(es.skip(1) =~= further_entries(pairs, i + 1, n) + rest);
        assert(pairs.take(i).push(pairs[i]) =~= pairs.take(i + 1));
        lemma_read_further(pairs, i + 1, n, rest);
    }
}

proof fn lemma_pairs_ok_at(pairs: Seq<(Seq<char>, YamlView)>, j: int)
    requires
        pairs_ok(pairs),
        0 <= j < pairs.len(),
    ensures
        key_ok(pairs[j].0),
        value_ok(pairs[j].1),
    decreases j,
{
    if j > 0 {
        lemma_pairs_ok_at(pairs.subrange(1, pairs.len() as int), j - 1);
    }
}

/// Pairs can be written where each of them can.
pub proof fn lemma_pairs_ok(pairs: Seq<(Seq<char>, YamlView)>)
    requires
        forall|i: int|
            0 <= i < pairs.len() ==> key_ok((#[trigger] pairs[i]).0) && value_ok(pairs[i].1),
    ensures
        pairs_ok(pairs),
    decreases pairs.len(),
{
    if pairs.len() > 0 {
        let more = pairs.subrange(1, pairs.len() as int);
        assert forall|i: int| 0 <= i < more.len() implies key_ok((#[trigger] more[i]).0)
            && value_ok(more[i].1) by {
            assert(key_ok(pairs[i + 1].0));
        }
        lemma_pairs_ok(more);
    }
}

/// Items can be written where each of them can.
pub proof fn lemma_items_ok(items: Seq<YamlView>)
    requires
        forall|i: int| 0 <= i < items.len() ==> item_value_ok(#[trigger] items[i]),
    ensures
        items_ok(items),
    decreases items.len(),
{
    if items.len() > 0 {
        let more = items.subrange(1, items.len() as int);
        assert forall|i: int| 0 <= i < more.len() implies item_value_ok(#[trigger] more[i]) by {
            assert(item_value_ok(items[i + 1]));
        }
        lemma_items_ok(more);
    }
}

/// Pairs are nested as deep as the deepest of them.
pub proof fn lemma_pairs_depth(pairs: Seq<(Seq<char>, YamlView)>, d: nat)
    requires
        forall|i: int| 0 <= i < pairs.len() ==> value_depth((#[trigger] pairs[i]).1) <= d,
    ensures
        pairs_depth(pairs) <= d,
    decreases pairs.len(),
{
    if pairs.len() > 0 {
        let more = pairs.subrange(1, pairs.len() as int);
        assert forall|i: int| 0 <= i < more.len() implies value_depth((#[trigger] more[i]).1) <= d by {
            assert(value_depth(pairs[i + 1].1) <= d);
        }
        lemma_pairs_depth(more, d);
        assert(value_depth(pairs[0].1) <= d);
    }
}

/// Items are nested as deep as the deepest of them.
pub proof fn lemma_items_depth(items: Seq<YamlView>, d: nat)
    requires
        forall|i: int| 0 <= i < items.len() ==> value_depth(#[trigger] items[i]) <= d,
    ensures
        items_depth(items) <= d,
    decreases items.len(),
{
    if items.len() > 0 {
        let more = items.subrange(1, items.len() as int);
        assert forall|i: int| 0 <= i < more.len() implies value_depth(#[trigger] more[i]) <= d by {
            assert(value_depth(items[i + 1]) <= d);
        }
        lemma_items_depth(more, d);
        assert(value_depth(items[0]) <= d);
    }
}

/// A text without `#` that does not begin with a quote, and neither begins nor
/// ends with white space, stands as it is.
pub proof fn lemma_bare(s: Seq<char>)
    requires
        s.len() > 1,
        forall|i: int| 0 <= i < s.len() ==> s[i] != '#',
        s[0] != '"' && s[0] != '\'',
        !is_white(s[0]) && !is_white(s.last()),
    ensures
        bare(s),
{
    lemma_comment_is(s, 0, s.len() as int);
    lemma_trimmed_same(s);
}

/// A word of small letters can be a key.
pub proof fn lemma_word(key: Seq<char>)
    requires
        forall|i: int| 0 <= i < key.len() ==> 'a' <= #[trigger] key[i] <= 'z',
    ensures
        key_ok(key),
{
    lemma_plain(key);
    lemma_trimmed_same(key);
}

/// A block of items is read as those items.
proof fn lemma_read_items(
    items: Seq<YamlView>,
    n: int,
    parent: int,
    acc: Seq<YamlView>,
    rest: Seq<Entry>,
)
    requires
        items_ok(items),
        parent < n,
        ends_at(rest, parent),
    ensures
        read_seq(items_entries(items, n) + rest, parent, acc) == Some(
            (YamlView::Sequence(acc + items), rest),
        ),
    decreases items,
{
    let es = items_entries(items, n) + rest;
    if items.len() == 0 {
        assert(es =~= rest);
        assert(acc + items =~= acc);
    } else {
        let more = items.subrange(1, items.len() as int);
        let tail = items_entries(more, n) + rest;
        if more.len() > 0 {
            lemma_items_begin(more, n);
        } else {
            assert(tail =~= rest);
        }
        assert(ends_at(tail, n));
        assert(item_value_ok(items[0]));
        lemma_read_items(more, n, parent, acc.push(items[0]), rest);
        assert(acc.push(items[0]) + more =~= acc + items);
        match items[0] {
            YamlView::Scalar(s) => {
                lemma_ends(s);
                lemma_dash(s);
                assert(es.skip(1) =~= tail);
                assert forall|j: int| 0 <= j < s.len() implies s[j] != ':' by {
                    assert(s.contains(s[j]));
                }
                lemma_until_is(s, ':', s.len() as int);
            },
            YamlView::Mapping(pairs) => {
                if pairs.len() > 0 && all_scalars(pairs) {
                    assert forall|j: int| 0 <= j < pairs.len() implies key_ok(
                        (#[trigger] pairs[j]).0,
                    ) && value_ok(pairs[j].1) by {
                        lemma_pairs_ok_at(pairs, j);
                    }
                    lemma_pair(pairs[0]);
                    lemma_dash(pair_content(pairs[0]));
                    assert(es.skip(1) =~= further_entries(pairs, 1, n + 2) + tail);
                    lemma_read_further(pairs, 1, n + 2, tail);
                    assert(pairs.take(1) =~= seq![pairs[0]]);
                    assert(read_inline(es.skip(1), n + 2, seq![pairs[0]]) == Some((pairs, tail)));
                } else {
                    lemma_lone_dash();
                    assert(es.skip(1) =~= pairs_entries(pairs, n + 2) + tail);
                    lemma_read_pairs(pairs, n + 2, n, Seq::empty(), tail);
                    assert(Seq::<(Seq<char>, YamlView)>::empty() + pairs =~= pairs);
                    assert(read_map(es.skip(1), n, Seq::empty()) == Some((items[0], tail)));
                }
            },
            YamlView::Sequence(inner) => {
                lemma_lone_dash();
                assert(es.skip(1) =~= items_entries(inner, n + 2) + tail);
                lemma_items_begin(inner, n + 2);
                assert(es.skip(1)[0] == items_entries(inner, n + 2)[0]);
                lemma_read_items(inner, n + 2, n, Seq::empty(), tail);
                assert(Seq::<YamlView>::empty() + inner =~= inner);
                assert(read_map(es.skip(1), n, Seq::empty()) == Some((items[0], tail)));
            },
        }
    }
}

/// Nothing stands behind a lone dash.
proof fn lemma_lone_dash()
    ensures
        trimmed(seq!['-'].skip(1)).len() == 0,
        clean(seq!['-']),
{
    assert(seq!['-'].skip(1) =~= Seq::<char>::empty());
    lemma_plain(seq!['-']);
}

// ------------------------------------------------------------------- documents
/// An entry that its line gives back.
pub open spec fn sound(e: Entry) -> bool {
    &&& e.indent >= 0
    &&& e.content.len() > 0
    &&& e.content[0] != ' '
    &&& !is_white(e.content.last())
    &&& clean(e.content)
    &&& !e.content.contains('\n')
}

pub open spec fn all_sound(es: Seq<Entry>) -> bool {
    forall|i: int| 0 <= i < es.len() ==> sound(#[trigger] es[i])
}

proof fn lemma_sound_concat(a: Seq<Entry>, b: Seq<Entry>)
    requires
        all_sound(a),
        all_sound(b),
    ensures
        all_sound(a + b),
{
    assert forall|i: int| 0 <= i < (a + b).len() implies sound(#[trigger] (a + b)[i]) by {
        if i < a.len() {
            assert(sound(a[i]));
        } else {
            assert(sound(b[i - a.len()]));
        }
    }
}

pub proof fn lemma_pairs_sound(pairs: Seq<(Seq<char>, YamlView)>, n: int)
    requires
        pairs_ok(pairs),
        n >= 0,
    ensures
        all_sound(pairs_entries(pairs, n)),
    decreases pairs,
{
    if pairs.len() > 0 {
        let more = pairs.subrange(1, pairs.len() as int);
        lemma_pairs_sound(more, n);
        let p = pairs[0];
        assert(value_ok(p.1));
        let head = seq![Entry { indent: n, content: p.0 + seq![':'] }];
        match p.1 {
            YamlView::Scalar(s) => {
                lemma_pair(p);
                lemma_sound_concat(
                    seq![Entry { indent: n, content: pair_content(p) }],
                    pairs_entries(more, n),
                );
            },
            YamlView::Mapping(inner) => {
                lemma_block_key(p.0);
                lemma_pairs_sound(inner, n + 2);
                lemma_sound_concat(head, pairs_entries(inner, n + 2));
                lemma_sound_concat(head + pairs_entries(inner, n + 2), pairs_entries(more, n));
            },
            YamlView::Sequence(items) => {
                lemma_block_key(p.0);
                lemma_items_sound(items, n + 2);
                lemma_sound_concat(head, items_entries(items, n + 2));
                lemma_sound_concat(head + items_entries(items, n + 2), pairs_entries(more, n));
            },
        }
    }
}

proof fn lemma_items_sound(items: Seq<YamlView>, n: int)
    requires
        items_ok(items),
        n >= 0,
    ensures
        all_sound(items_entries(items, n)),
    decreases items,
{
    if items.len() > 0 {
        let more = items.subrange(1, items.len() as int);
        lemma_items_sound(more, n);
        let rest = items_entries(more, n);
        let head = seq![Entry { indent: n, content: seq!['-'] }];
        lemma_lone_dash();
        assert(all_sound(head));
        assert(item_value_ok(items[0]));
        match items[0] {
            YamlView::Scalar(s) => {
                lemma_ends(s);
                lemma_dash(s);
                lemma_sound_concat(seq![Entry { indent: n, content: seq!['-', ' '] + s }], rest);
            },
            YamlView::Mapping(pairs) => {
                if pairs.len() > 0 && all_scalars(pairs) {
                    let es = small_entries(pairs, n);
                    assert forall|i: int| 0 <= i < es.len() implies sound(#[trigger] es[i]) by {
                        lemma_pairs_ok_at(pairs, i);
                        lemma_pair(pairs[i]);
                        if i == 0 {
                            lemma_dash(pair_content(pairs[0]));
                        }
                    }
                    lemma_sound_concat(es, rest);
                } else {
                    lemma_pairs_sound(pairs, n + 2);
                    lemma_sound_concat(head, pairs_entries(pairs, n + 2));
                    lemma_sound_concat(head + pairs_entries(pairs, n + 2), rest);
                }
            },
            YamlView::Sequence(inner) => {
                lemma_items_sound(inner, n + 2);
                lemma_sound_concat(head, items_entries(inner, n + 2));
                lemma_sound_concat(head + items_entries(inner, n + 2), rest);
            },
        }
    }
}

pub proof fn lemma_indented(n: nat, c: Seq<char>)
    requires
        c.len() > 0,
        c[0] != ' ',
    ensures
        leading_spaces(spaces(n) + c) == n,
        (spaces(n) + c).skip(n as int) == c,
{
    let s = spaces(n) + c;
    lemma_leading_spaces(s);
    let k = leading_spaces(s);
    if k < n {
        assert(s[k] == ' ');
    } else if k > n {
        assert(s[n as int] == c[0]);
    }
    assert(s.skip(n as int) =~= c);
}

/// The line of an entry says what the entry says.
pub proof fn lemma_entry_line(e: Entry)
    requires
        sound(e),
    ensures
        ({
            let line = spaces(e.indent as nat) + e.content;
            &&& !line.contains('\n')
            &&& without_cr(line) == line
            &&& uncommented(line) == line
            &&& entry_of(line) == e
            &&& line.len() > 0
        }),
{
    let n = e.indent as nat;
    let line = spaces(n) + e.content;
    lemma_plain(spaces(n));
    lemma_clean_concat(spaces(n), e.content);
    assert(line.last() == e.content.last());
    assert(is_white('\r'));
    assert(line.take(line.len() as int) =~= line);
    lemma_indented(n, e.content);
    assert forall|i: int| 0 <= i < line.len() implies line[i] != '\n' by {
        if i >= n {
            assert(e.content.contains(e.content[i - n]));
        }
    }
}

/// The lines of entries hold those entries.
pub proof fn lemma_text(es: Seq<Entry>)
    requires
        all_sound(es),
    ensures
        entries(lines_of(text_of(es))) == es,
    decreases es.len(),
{
    if es.len() == 0 {
        assert(entries(lines_of(text_of(es))) =~= es);
    } else {
        let more = es.skip(1);
        assert forall|i: int| 0 <= i < more.len() implies sound(#[trigger] more[i]) by {
            assert(sound(es[i + 1]));
        }
        lemma_text(more);
        assert(sound(es[0]));
        lemma_entry_line(es[0]);
        let line = spaces(es[0].indent as nat) + es[0].content;
        lemma_one_line(line);
        lemma_lines_concat(line.push('\n'), text_of(more));
        let all = lines_of(text_of(es));
        assert(all == seq![line] + lines_of(text_of(more)));
        assert(all.skip(1) =~= lines_of(text_of(more)));
        assert(entries(all) =~= es);
    }
}

/// All entries stand at indentations from `a` to `b`.
spec fn indented_within(es: Seq<Entry>, a: int, b: int) -> bool {
    forall|i: int| 0 <= i < es.len() ==> a <= (#[trigger] es[i]).indent <= b
}

proof fn lemma_within_concat(x: Seq<Entry>, y: Seq<Entry>, a: int, b: int, c: int, d: int)
    requires
        indented_within(x, a, b),
        indented_within(y, c, d),
    ensures
        forall|lo: int, hi: int|
            lo <= a && lo <= c && b <= hi && d <= hi ==> #[trigger] indented_within(x + y, lo, hi),
{
    assert forall|lo: int, hi: int|
        lo <= a && lo <= c && b <= hi && d <= hi implies #[trigger] indented_within(x + y, lo, hi) by {
        assert forall|i: int| 0 <= i < (x + y).len() implies lo <= (#[trigger] (x + y)[i]).indent
            <= hi by {
            if i < x.len() {
                assert(a <= x[i].indent <= b);
            } else {
                assert(c <= y[i - x.len()].indent <= d);
            }
        }
    }
}

/// Each block is indented by two more than the one round it.
proof fn lemma_pairs_within(pairs: Seq<(Seq<char>, YamlView)>, n: int)
    ensures
        indented_within(pairs_entries(pairs, n), n, n + 2 * pairs_depth(pairs)),
    decreases pairs,
{
    if pairs.len() > 0 {
        let more = pairs.subrange(1, pairs.len() as int);
        lemma_pairs_within(more, n);
        let p = pairs[0];
        let d = value_depth(p.1);
        let head = seq![Entry { indent: n, content: p.0 + seq![':'] }];
        assert(indented_within(head, n, n));
        let first = match p.1 {
            YamlView::Scalar(s) => seq![Entry { indent: n, content: pair_content(p) }],
            YamlView::Mapping(inner) => head + pairs_entries(inner, n + 2),
            YamlView::Sequence(items) => head + items_entries(items, n + 2),
        };
        match p.1 {
            YamlView::Scalar(s) => {},
            YamlView::Mapping(inner) => {
                lemma_pairs_within(inner, n + 2);
                let e = n + 2 + 2 * pairs_depth(inner);
                lemma_within_concat(head, pairs_entries(inner, n + 2), n, n, n + 2, e);
            },
            YamlView::Sequence(items) => {
                lemma_items_within(items, n + 2);
                let e = n + 2 + 2 * items_depth(items);
                lemma_within_concat(head, items_entries(items, n + 2), n, n, n + 2, e);
            },
        }
        assert(indented_within(first, n, n + 2 * d));
        lemma_within_concat(
            first,
            pairs_entries(more, n),
            n,
            n + 2 * d,
            n,
            n + 2 * pairs_depth(more),
        );
    }
}

proof fn lemma_items_within(items: Seq<YamlView>, n: int)
    ensures
        indented_within(items_entries(items, n), n, n + 2 * items_depth(items)),
    decreases items,
{
    if items.len() > 0 {
        let more = items.subrange(1, items.len() as int);
        lemma_items_within(more, n);
        let d = value_depth(items[0]);
        let head = seq![Entry { indent: n, content: seq!['-'] }];
        assert(indented_within(head, n, n));
        let first = match items[0] {
            YamlView::Scalar(s) => seq![Entry { indent: n, content: seq!['-', ' '] + s }],
            YamlView::Mapping(pairs) => if pairs.len() > 0 && all_scalars(pairs) {
                small_entries(pairs, n)
            } else {
                head + pairs_entries(pairs, n + 2)
            },
            YamlView::Sequence(inner) => head + items_entries(inner, n + 2),
        };
        match items[0] {
            YamlView::Scalar(s) => {},
            YamlView::Mapping(pairs) => {
                if !(pairs.len() > 0 && all_scalars(pairs)) {
                    lemma_pairs_within(pairs, n + 2);
                    let e = n + 2 + 2 * pairs_depth(pairs);
                    lemma_within_concat(head, pairs_entries(pairs, n + 2), n, n, n + 2, e);
                }
            },
            YamlView::Sequence(inner) => {
                lemma_items_within(inner, n + 2);
                let e = n + 2 + 2 * items_depth(inner);
                lemma_within_concat(head, items_entries(inner, n + 2), n, n, n + 2, e);
            },
        }
        assert(indented_within(first, n, n + 2 * d));
        lemma_within_concat(
            first,
            items_entries(more, n),
            n,
            n + 2 * d,
            n,
            n + 2 * items_depth(more),
        );
    }
}

/// The indentations of all entries fit.
pub open spec fn all_fit(es: Seq<Entry>) -> bool {
    forall|i: int| 0 <= i < es.len() ==> indent_fits(#[trigger] es[i])
}

/// Whether indentations fit is a matter of the entries alone.
proof fn lemma_fit(lines: Seq<Seq<char>>)
    ensures
        indents_fit(lines) <==> all_fit(entries(lines)),
    decreases lines.len(),
{
    if lines.len() > 0 {
        let more = lines.skip(1);
        let es = entries(lines);
        lemma_fit(more);
        let line = uncommented(lines[0]);
        let rest = entries(more);
        assert(indents_fit(lines) ==> indents_fit(more) && indent_fits(entry_of(line)));
        if indents_fit(more) && indent_fits(entry_of(line)) {
            assert forall|i: int| 0 <= i < lines.len() implies indent_fits(
                entry_of(uncommented(#[trigger] lines[i])),
            ) by {
                if i > 0 {
                    assert(lines[i] == more[i - 1]);
                }
            }
        }
        if line.len() == 0 {
            assert(indent_fits(entry_of(line)));
        } else {
            assert(es[0] == entry_of(line));
            if all_fit(es) {
                assert(indent_fits(es[0]));
                assert forall|i: int| 0 <= i < rest.len() implies indent_fits(
                    #[trigger] rest[i],
                ) by {
                    assert(es[i + 1] == rest[i]);
                }
            }
            if all_fit(rest) && indent_fits(entry_of(line)) {
                assert forall|i: int| 0 <= i < es.len() implies indent_fits(#[trigger] es[i]) by {
                    if i > 0 {
                        assert(es[i] == rest[i - 1]);
                    }
                }
            }
        }
    }
}

/// Texts with the same entries are the same document.
pub proof fn lemma_same_entries(a: Seq<char>, b: Seq<char>)
    requires
        entries(lines_of(a)) == entries(lines_of(b)),
    ensures
        document(a) == document(b),
        readable(a) == readable(b),
{
    lemma_fit(lines_of(a));
    lemma_fit(lines_of(b));
}

/// A document that is written in the layout is read as what was written. It can
/// be read as long as its deepest indentation is a number that fits.
pub proof fn law_document_round_trip(pairs: Seq<(Seq<char>, YamlView)>)
    requires
        pairs_ok(pairs),
    ensures
        document(document_text(pairs)) == Some(YamlView::Mapping(pairs)),
        2 * pairs_depth(pairs) <= i32::MAX - 2 ==> readable(document_text(pairs)),
{
    lemma_pairs_within(pairs, 0);
    lemma_fit(lines_of(document_text(pairs)));
    let es = pairs_entries(pairs, 0);
    lemma_pairs_sound(pairs, 0);
    lemma_text(es);
    lemma_read_pairs(pairs, 0, -1, Seq::empty(), Seq::empty());
    assert(es + Seq::empty() =~= es);
    assert(Seq::<(Seq<char>, YamlView)>::empty() + pairs =~= pairs);
}

// -------------------------------------------------------------------- comments
proof fn lemma_entries_concat(a: Seq<Seq<char>>, b: Seq<Seq<char>>)
    ensures
        entries(a + b) == entries(a) + entries(b),
    decreases a.len(),
{
    if a.len() == 0 {
        assert(a + b =~= b);
        assert(entries(a) + entries(b) =~= entries(b));
    } else {
        assert((a + b).skip(1) =~= a.skip(1) + b);
        lemma_entries_concat(a.skip(1), b);
        assert(entries(a + b) =~= entries(a) + entries(b));
    }
}

/// The end of a line by `\r\n` says no more than that by `\n`.
proof fn lemma_uncommented_cr(s: Seq<char>)
    ensures
        uncommented(without_cr(s)) == uncommented(s),
{
    if s.len() > 0 && s.last() == '\r' {
        let t = s.drop_last();
        lemma_comment_at(s, 0);
        let k = comment_from(s, 0);
        assert forall|i: int| 0 <= i < t.len() implies opens_comment(t, i) == opens_comment(s, i) by {
            assert(t.take(i) =~= s.take(i));
        }
        if k < s.len() {
            lemma_comment_is(t, 0, k);
            assert(t.take(k) =~= s.take(k));
        } else {
            lemma_comment_is(t, 0, t.len() as int);
            assert(t.take(t.len() as int) =~= t);
            assert(s.take(k) =~= s);
            assert(is_white('\r'));
        }
    }
}

/// The entries of a text, one line of which is `line`.
pub proof fn lemma_line_between(a: Seq<char>, line: Seq<char>, b: Seq<char>)
    requires
        a.len() > 0 ==> a.last() == '\n',
        !line.contains('\n'),
    ensures
        entries(lines_of(a + line.push('\n') + b)) == entries(lines_of(a)) + (if uncommented(
            line,
        ).len() == 0 {
            Seq::empty()
        } else {
            seq![entry_of(uncommented(line))]
        }) + entries(lines_of(b)),
{
    let l = line.push('\n');
    lemma_lines_concat(a, l);
    lemma_lines_concat(a + l, b);
    lemma_one_line(line);
    lemma_uncommented_cr(line);
    let one = seq![without_cr(line)];
    lemma_entries_concat(lines_of(a), one);
    lemma_entries_concat(lines_of(a) + one, lines_of(b));
    lemma_single(without_cr(line));
}

/// A line that holds only white space or a comment does not change a document.
pub proof fn law_empty_line_says_nothing(a: Seq<char>, line: Seq<char>, b: Seq<char>)
    requires
        a.len() > 0 ==> a.last() == '\n',
        !line.contains('\n'),
        uncommented(line).len() == 0,
    ensures
        document(a + line.push('\n') + b) == document(a + b),
        readable(a + line.push('\n') + b) == readable(a + b),
{
    lemma_line_between(a, line, b);
    lemma_lines_concat(a, b);
    lemma_entries_concat(lines_of(a), lines_of(b));
    assert(entries(lines_of(a + line.push('\n') + b)) =~= entries(lines_of(a + b)));
    lemma_same_entries(a + line.push('\n') + b, a + b);
}

/// A comment behind a line that leaves no quote open does not change a document.
pub proof fn law_comment_says_nothing(
    a: Seq<char>,
    line: Seq<char>,
    comment: Seq<char>,
    b: Seq<char>,
)
    requires
        a.len() > 0 ==> a.last() == '\n',
        !line.contains('\n'),
        !comment.contains('\n'),
        quoting(line) is Bare,
    ensures
        uncommented(line + seq![' ', '#'] + comment) == uncommented(line),
        document(a + (line + seq![' ', '#'] + comment).push('\n') + b) == document(
            a + line.push('\n') + b,
        ),
        readable(a + (line + seq![' ', '#'] + comment).push('\n') + b) == readable(
            a + line.push('\n') + b,
        ),
{
    let s = line + seq![' ', '#'] + comment;
    let n = line.len() as int;
    lemma_comment_at(line, 0);
    let k = comment_from(line, 0);
    assert forall|i: int| 0 <= i < n implies opens_comment(s, i) == opens_comment(line, i) by {
        assert(s.take(i) =~= line.take(i));
    }
    if k < n {
        lemma_comment_is(s, 0, k);
        assert(s.take(k) =~= line.take(k));
    } else {
        assert(s.take(n + 1) =~= line.push(' '));
        assert(line.push(' ').drop_last() =~= line);
        assert(quoting(line.push(' ')) is Bare);
        assert(opens_comment(s, n + 1));
        lemma_comment_is(s, 0, n + 1);
        assert(is_white(' '));
        assert(line.take(n) =~= line);
    }
    assert forall|i: int| 0 <= i < s.len() implies s[i] != '\n' by {
        if i < n {
            assert(line.contains(line[i]));
        } else if i >= n + 2 {
            assert(comment.contains(comment[i - n - 2]));
        }
    }
    lemma_line_between(a, s, b);
    lemma_line_between(a, line, b);
    lemma_same_entries(a + s.push('\n') + b, a + line.push('\n') + b);
}

/// A line that begins with `#`, behind spaces or not, holds only a comment.
pub proof fn law_comment_line_is_empty(n: nat, comment: Seq<char>)
    ensures
        uncommented(spaces(n) + seq!['#'] + comment).len() == 0,
{
    let s = spaces(n) + seq!['#'] + comment;
    assert(s.take(n as int) =~= spaces(n));
    lemma_plain(spaces(n));
    lemma_comment_is(s, 0, n as int);
    lemma_trimmed_end(spaces(n));
    let t = trimmed_end(spaces(n));
    if t.len() > 0 {
        assert(t.last() == ' ');
        assert(is_white(' '));
    }
}

// -------------------------------------------------------------------- shifting
/// `text` with `n` spaces put before each of its lines.
pub open spec fn shifted(text: Seq<char>, n: nat) -> Seq<char>
    decreases text.len(),
{
    let k = until(text, '\n');
    if text.len() == 0 {
        Seq::empty()
    } else if 0 <= k < text.len() {
        (spaces(n) + text.take(k)).push('\n') + shifted(text.skip(k + 1), n)
    } else {
        spaces(n) + text
    }
}

/// Entries indented by `n` more.
pub open spec fn shift(es: Seq<Entry>, n: nat) -> Seq<Entry> {
    Seq::new(
        es.len(),
        |i: int| Entry { indent: es[i].indent + n, content: es[i].content },
    )
}

proof fn lemma_trimmed_end_shift(t: Seq<char>, n: nat)
    ensures
        trimmed_end(t).len() == 0 ==> trimmed_end(spaces(n) + t).len() == 0,
        trimmed_end(t).len() > 0 ==> trimmed_end(spaces(n) + t) == spaces(n) + trimmed_end(t),
    decreases t.len() + n,
{
    let s = spaces(n) + t;
    assert(is_white(' '));
    if t.len() > 0 {
        if is_white(t.last()) {
            assert(s.drop_last() =~= spaces(n) + t.drop_last());
            lemma_trimmed_end_shift(t.drop_last(), n);
        }
    } else if n > 0 {
        assert(s.drop_last() =~= spaces((n - 1) as nat) + t);
        lemma_trimmed_end_shift(t, (n - 1) as nat);
    }
}

/// A line with `n` more spaces before it says the same, at an indentation of `n`
/// more.
proof fn lemma_uncommented_shift(line: Seq<char>, n: nat)
    ensures
        uncommented(line).len() == 0 ==> uncommented(spaces(n) + line).len() == 0,
        uncommented(line).len() > 0 ==> {
            let e = entry_of(uncommented(line));
            &&& uncommented(spaces(n) + line).len() > 0
            &&& entry_of(uncommented(spaces(n) + line)) == (Entry {
                indent: e.indent + n,
                content: e.content,
            })
        },
{
    let s = spaces(n) + line;
    let k = comment_from(line, 0);
    lemma_plain(spaces(n));
    lemma_comment_at(line, 0);
    assert forall|i: int| 0 <= i < s.len() implies opens_comment(s, i) == (i >= n && opens_comment(
        line,
        i - n,
    )) by {
        if i >= n {
            assert(s.take(i) =~= spaces(n) + line.take(i - n));
            lemma_quoting_concat(spaces(n), line.take(i - n));
        }
    }
    lemma_comment_is(s, 0, n + k);
    assert(s.take(n + k) =~= spaces(n) + line.take(k));
    lemma_trimmed_end_shift(line.take(k), n);
    let u = uncommented(line);
    if u.len() > 0 {
        let w = spaces(n) + u;
        lemma_trimmed_end(line.take(k));
        lemma_leading_spaces(u);
        let a = leading_spaces(u);
        if a == u.len() {
            assert(u.last() == ' ');
        }
        lemma_indented((n + a) as nat, u.skip(a));
        assert(w =~= spaces((n + a) as nat) + u.skip(a));
    }
}

/// The entries of one line.
proof fn lemma_single(line: Seq<char>)
    ensures
        entries(seq![line]) == if uncommented(line).len() == 0 {
            Seq::empty()
        } else {
            seq![entry_of(uncommented(line))]
        },
{
    let one = seq![line];
    assert(one.skip(1) =~= Seq::empty());
    assert(entries(one.skip(1)) =~= Seq::empty());
    assert(entries(one) =~= if uncommented(line).len() == 0 {
        Seq::empty()
    } else {
        seq![entry_of(uncommented(line))]
    });
}

/// The entries of a shifted text are those of the text, indented by as much more.
proof fn lemma_shifted_entries(text: Seq<char>, n: nat)
    ensures
        entries(lines_of(shifted(text, n))) == shift(entries(lines_of(text)), n),
    decreases text.len(),
{
    let k = until(text, '\n');
    lemma_until(text, '\n');
    if text.len() == 0 {
        assert(entries(lines_of(shifted(text, n))) =~= shift(entries(lines_of(text)), n));
    } else {
        let line = text.take(k);
        let more = spaces(n) + line;
        lemma_uncommented_shift(line, n);
        assert forall|i: int| 0 <= i < more.len() implies more[i] != '\n' by {
            if i >= n {
                assert(text[i - n] != '\n');
            }
        }
        if k < text.len() {
            let rest = text.skip(k + 1);
            lemma_shifted_entries(rest, n);
            let none = Seq::<char>::empty();
            lemma_line_between(none, line, rest);
            lemma_line_between(none, more, shifted(rest, n));
            assert(none + line.push('\n') + rest =~= text);
            assert(none + more.push('\n') + shifted(rest, n) =~= shifted(text, n));
            assert(entries(lines_of(none)) =~= Seq::empty());
        } else {
            assert(line =~= text);
            lemma_single(text);
            lemma_until_is(more, '\n', more.len() as int);
            assert(lines_of(more) =~= seq![more]);
            lemma_single(more);
        }
        assert(entries(lines_of(shifted(text, n))) =~= shift(entries(lines_of(text)), n));
    }
}

/// `q` divides the shifted entries as `p` divides the entries.
spec fn divides_alike(es: Seq<Entry>, n: nat, p: int, q: int) -> bool {
    forall|i: int| 0 <= i < es.len() ==> ((#[trigger] es[i]).indent <= p <==> es[i].indent + n <= q)
}

proof fn lemma_divides_end(rest: Seq<Entry>, es: Seq<Entry>, n: nat, p: int, q: int)
    requires
        is_end_of(rest, es),
        divides_alike(es, n, p, q),
    ensures
        divides_alike(rest, n, p, q),
{
    assert forall|i: int| 0 <= i < rest.len() implies ((#[trigger] rest[i]).indent <= p
        <==> rest[i].indent + n <= q) by {
        assert(rest[i] == es[i + (es.len() - rest.len())]);
    }
}

proof fn lemma_shift_inline(
    es: Seq<Entry>,
    least: int,
    acc: Seq<(Seq<char>, YamlView)>,
    n: nat,
)
    ensures
        read_inline(shift(es, n), least + n, acc) == match read_inline(es, least, acc) {
            Some((pairs, rest)) => Some((pairs, shift(rest, n))),
            None => None,
        },
    decreases es.len(),
{
    if es.len() > 0 {
        assert(shift(es, n).skip(1) =~= shift(es.skip(1), n));
        lemma_shift_inline(es.skip(1), least, acc.push(scalar_pair(es[0].content)), n);
    }
}

proof fn lemma_shift_map(
    es: Seq<Entry>,
    p: int,
    q: int,
    acc: Seq<(Seq<char>, YamlView)>,
    n: nat,
)
    requires
        divides_alike(es, n, p, q),
    ensures
        read_map(shift(es, n), q, acc) == match read_map(es, p, acc) {
            Some((value, rest)) => Some((value, shift(rest, n))),
            None => None,
        },
    decreases es.len(), 1int,
{
    let ss = shift(es, n);
    if es.len() > 0 {
        let next = es.skip(1);
        assert(ss.skip(1) =~= shift(next, n));
        assert(is_end_of(next, es));
        lemma_divides_end(next, es, n, p, q);
        assert(ss[0].indent == es[0].indent + n && ss[0].content == es[0].content);
        assert(es[0].indent <= p <==> ss[0].indent <= q);
        assert(is_item(ss[0]) == is_item(es[0]));
        if es[0].indent <= p {
        } else if is_item(es[0]) {
            lemma_shift_seq(es, p, q, Seq::empty(), n);
        } else if !has_key(es[0].content) {
            lemma_shift_map(next, p, q, acc, n);
        } else if lone_quote(rest_of(es[0].content)) {
        } else {
            assert(opens_block(ss) == opens_block(es)) by {
                if es.len() > 1 {
                    assert(ss[1].indent == es[1].indent + n);
                }
            }
            if opens_block(es) {
                let a = es[0].indent;
                assert(is_item(ss[1]) == is_item(es[1]));
                lemma_shift_seq(next, a, a + n, Seq::empty(), n);
                lemma_shift_map(next, a, a + n, Seq::empty(), n);
                lemma_seq_shrinks(next, a, Seq::empty());
                lemma_map_shrinks(next, a, Seq::empty());
                let block = if is_item(es[1]) {
                    read_seq(next, a, Seq::empty())
                } else {
                    read_map(next, a, Seq::empty())
                };
                if let Some((value, rest)) = block {
                    lemma_divides_end(rest, next, n, p, q);
                    lemma_shift_map(rest, p, q, acc.push((key_of(es[0].content), value)), n);
                }
            } else {
                lemma_shift_map(next, p, q, acc.push(scalar_pair(es[0].content)), n);
            }
        }
    } else {
        assert(ss =~= es);
    }
}

proof fn lemma_shift_seq(es: Seq<Entry>, p: int, q: int, acc: Seq<YamlView>, n: nat)
    requires
        divides_alike(es, n, p, q),
    ensures
        read_seq(shift(es, n), q, acc) == match read_seq(es, p, acc) {
            Some((value, rest)) => Some((value, shift(rest, n))),
            None => None,
        },
    decreases es.len(), 0int,
{
    let ss = shift(es, n);
    if es.len() > 0 {
        let next = es.skip(1);
        assert(ss.skip(1) =~= shift(next, n));
        assert(is_end_of(next, es));
        lemma_divides_end(next, es, n, p, q);
        assert(ss[0].indent == es[0].indent + n && ss[0].content == es[0].content);
        assert(es[0].indent <= p <==> ss[0].indent <= q);
        assert(is_item(ss[0]) == is_item(es[0]));
        if es[0].indent <= p || !is_item(es[0]) {
        } else {
            let a = es[0].indent;
            let item = trimmed(es[0].content.skip(1));
            if item.len() == 0 {
                lemma_shift_map(next, a, a + n, Seq::empty(), n);
                lemma_map_shrinks(next, a, Seq::empty());
                if let Some((value, rest)) = read_map(next, a, Seq::empty()) {
                    lemma_divides_end(rest, next, n, p, q);
                    lemma_shift_seq(rest, p, q, acc.push(value), n);
                }
            } else if has_key(item) {
                let first = seq![scalar_pair(item)];
                lemma_shift_inline(next, a + 2, first, n);
                lemma_inline_shrinks(next, a + 2, first);
                assert(ss[0].indent + 2 == a + 2 + n);
                if let Some((pairs, rest)) = read_inline(next, a + 2, first) {
                    lemma_divides_end(rest, next, n, p, q);
                    lemma_shift_seq(rest, p, q, acc.push(YamlView::Mapping(pairs)), n);
                }
            } else {
                lemma_shift_seq(next, p, q, acc.push(YamlView::Scalar(item)), n);
            }
        }
    } else {
        assert(ss =~= es);
    }
}

proof fn lemma_indents_count(lines: Seq<Seq<char>>, i: int)
    requires
        0 <= i < entries(lines).len(),
    ensures
        entries(lines)[i].indent >= 0,
    decreases lines.len(),
{
    let line = uncommented(lines[0]);
    lemma_leading_spaces(line);
    if line.len() == 0 {
        lemma_indents_count(lines.skip(1), i);
    } else if i > 0 {
        lemma_indents_count(lines.skip(1), i - 1);
    }
}

/// Only differences of indentation matter: a text with the same number of spaces
/// put before each of its lines is the same document. It can be read as long as
/// the indentations still fit.
pub proof fn law_shift_says_nothing(text: Seq<char>, n: nat)
    ensures
        document(shifted(text, n)) == document(text),
        readable(shifted(text, n)) <==> document(text) is Some && all_fit(
            shift(entries(lines_of(text)), n),
        ),
        readable(shifted(text, n)) ==> readable(text),
{
    let es = entries(lines_of(text));
    lemma_shifted_entries(text, n);
    assert forall|i: int| 0 <= i < es.len() implies ((#[trigger] es[i]).indent <= -1
        <==> es[i].indent + n <= -1) by {
        lemma_indents_count(lines_of(text), i);
    }
    lemma_shift_map(es, -1, -1, Seq::empty(), n);
    lemma_fit(lines_of(text));
    lemma_fit(lines_of(shifted(text, n)));
    if all_fit(shift(es, n)) {
        assert forall|i: int| 0 <= i < es.len() implies indent_fits(#[trigger] es[i]) by {
            assert(indent_fits(shift(es, n)[i]));
        }
    }
}

} // verus!
