//! The laws of single lines and single entries: where comments and quotes begin
//! and end, what a line says, and what each entry adds to the block it stands in.

use vstd::prelude::*;

use crate::layout::{
    bare, item_ok, key_ok, lemma_comment_is, lemma_indented, lemma_inside, lemma_quoting_concat,
    scalar_form,
};
use crate::report::spaces;
use crate::text::{
    is_white, law_trimming_takes_white_space_off, lemma_trimmed_ends, lemma_trimmed_same,
    lemma_until, lemma_until_is, lines_of, trimmed, trimmed_end, until,
};
use crate::yaml::{
    document, entries, entry_of, has_key, is_end_of, is_item, key_of, lemma_inline_shrinks,
    lemma_map_shrinks, lemma_seq_shrinks, lone_quote, opens_block, opens_comment, quoting,
    read_inline, read_map, read_seq, rest_of, scalar_pair, uncommented, unquoted, Entry, YamlView,
};

verus! {

// ---------------------------------------------------------------------- quotes
/// No quote of either kind stands in `s`.
pub open spec fn no_quotes(s: Seq<char>) -> bool {
    !s.contains('"') && !s.contains('\'')
}

proof fn lemma_no_quotes(s: Seq<char>)
    requires
        no_quotes(s),
    ensures
        quoting(s) is Bare,
    decreases s.len(),
{
    if s.len() > 0 {
        let t = s.drop_last();
        assert(s.contains(s.last()));
        assert forall|c: char| t.contains(c) implies s.contains(c) by {
            let i = choose|i: int| 0 <= i < t.len() && t[i] == c;
            assert(s[i] == c);
        }
        lemma_no_quotes(t);
    }
}

/// A quote is open from its first mark to the next mark of its kind; marks of the
/// other kind between them are text. Before the first mark none is open, and behind
/// a quote that was closed none.
pub proof fn law_quotes_open_and_close(a: Seq<char>, q: char, b: Seq<char>)
    requires
        no_quotes(a),
        q == '"' || q == '\'',
        !b.contains(q),
    ensures
        quoting(a) is Bare,
        q == '"' ==> quoting(a + seq![q] + b) is Double,
        q == '\'' ==> quoting(a + seq![q] + b) is Single,
        quoting(a + seq![q] + b + seq![q]) is Bare,
{
    lemma_no_quotes(a);
    lemma_inside(q, b);
    lemma_quoting_concat(a, seq![q] + b);
    assert(a + seq![q] + b =~= a + (seq![q] + b));
    let s = a + seq![q] + b + seq![q];
    assert(s.drop_last() =~= a + seq![q] + b);
}

/// What follows a closed quote, or no quote, is read as if it stood alone.
pub proof fn law_closed_quotes_are_over(a: Seq<char>, b: Seq<char>)
    requires
        quoting(a) is Bare,
    ensures
        quoting(a + b) == quoting(b),
{
    lemma_quoting_concat(a, b);
}

// -------------------------------------------------------------------- comments
/// No `#` opens `s` or follows a space in it.
pub open spec fn hashes_are_text(s: Seq<char>) -> bool {
    forall|i: int| 0 <= i < s.len() && #[trigger] s[i] == '#' ==> i > 0 && s[i - 1] != ' '
}

/// A `#` that neither opens the line nor follows a space is text.
pub proof fn law_hash_inside_a_word_is_text(s: Seq<char>)
    requires
        hashes_are_text(s),
    ensures
        uncommented(s) == trimmed_end(s),
{
    assert forall|i: int| 0 <= i < s.len() implies !opens_comment(s, i) by {}
    lemma_comment_is(s, 0, s.len() as int);
    assert(s.take(s.len() as int) =~= s);
}

/// A `#` inside quotes is text, also where nothing closes them.
pub proof fn law_hash_in_quotes_is_text(a: Seq<char>, q: char, b: Seq<char>, c: Seq<char>)
    requires
        no_quotes(a) && !a.contains('#'),
        q == '"' || q == '\'',
        !b.contains(q),
        no_quotes(c) && !c.contains('#'),
    ensures
        uncommented(a + seq![q] + b) == trimmed_end(a + seq![q] + b),
        uncommented(a + seq![q] + b + seq![q] + c) == trimmed_end(a + seq![q] + b + seq![q] + c),
{
    let open = a + seq![q] + b;
    let s = open + seq![q] + c;
    let n = a.len() as int;
    let m = open.len() as int;
    assert forall|i: int| 0 <= i < s.len() implies !opens_comment(s, i) by {
        if i < n {
            assert(a.contains(a[i]));
            assert(s[i] == a[i]);
        } else if n < i < m {
            let t = b.take(i - n - 1);
            assert forall|x: char| t.contains(x) implies b.contains(x) by {
                let j = choose|j: int| 0 <= j < t.len() && t[j] == x;
                assert(b[j] == x);
            }
            law_quotes_open_and_close(a, q, t);
            assert(s.take(i) =~= a + seq![q] + t);
        } else if i > m {
            assert(c.contains(c[i - m - 1]));
            assert(s[i] == c[i - m - 1]);
        }
    }
    lemma_comment_is(s, 0, s.len() as int);
    assert(s.take(s.len() as int) =~= s);
    assert forall|i: int| 0 <= i < open.len() implies !opens_comment(open, i) by {
        assert(open.take(i) =~= s.take(i));
        assert(open[i] == s[i]);
        if i > 0 {
            assert(open[i - 1] == s[i - 1]);
        }
        assert(!opens_comment(s, i));
    }
    lemma_comment_is(open, 0, m);
    assert(open.take(m) =~= open);
}

/// A `#` that opens the line, or follows a space, outside quotes begins a comment:
/// what stands from there on says nothing, whatever it is.
pub proof fn law_hash_begins_a_comment(a: Seq<char>, q: char, b: Seq<char>, comment: Seq<char>)
    requires
        no_quotes(a) && !a.contains('#'),
        q == '"' || q == '\'',
        !b.contains(q),
    ensures
        uncommented(seq!['#'] + comment).len() == 0,
        uncommented(a + seq![' ', '#'] + comment) == trimmed_end(a),
        uncommented(a + seq![q] + b + seq![q] + seq![' ', '#'] + comment) == a + seq![q] + b
            + seq![q],
{
    let l = seq!['#'] + comment;
    assert(l.take(0) =~= Seq::empty());
    assert(opens_comment(l, 0));
    assert(l.take(0).len() == 0);
    lemma_no_quotes(a);
    let s = a + seq![' ', '#'] + comment;
    let n = a.len() as int;
    assert forall|i: int| 0 <= i < n + 1 implies !opens_comment(s, i) by {
        if i < n {
            assert(a.contains(a[i]));
            assert(s[i] == a[i]);
        }
    }
    assert(s.take(n + 1) =~= a.push(' '));
    assert(a.push(' ').drop_last() =~= a);
    assert(opens_comment(s, n + 1));
    lemma_comment_is(s, 0, n + 1);
    assert(is_white(' '));
    let closed = a + seq![q] + b + seq![q];
    let m = closed.len() as int;
    law_quotes_open_and_close(a, q, b);
    law_hash_in_quotes_is_text(a, q, b, Seq::empty());
    assert(closed + Seq::<char>::empty() =~= closed);
    let t = closed + seq![' ', '#'] + comment;
    assert forall|i: int| 0 <= i < m + 1 implies !opens_comment(t, i) by {
        if i < n {
            assert(a.contains(a[i]));
            assert(t[i] == a[i]);
        } else if n < i < m - 1 {
            let u = b.take(i - n - 1);
            assert forall|x: char| u.contains(x) implies b.contains(x) by {
                let j = choose|j: int| 0 <= j < u.len() && u[j] == x;
                assert(b[j] == x);
            }
            law_quotes_open_and_close(a, q, u);
            assert(t.take(i) =~= a + seq![q] + u);
        }
    }
    assert(t.take(m + 1) =~= closed.push(' '));
    assert(closed.push(' ').drop_last() =~= closed);
    assert(opens_comment(t, m + 1));
    lemma_comment_is(t, 0, m + 1);
    lemma_trimmed_end_quote(closed);
}

proof fn lemma_trimmed_end_quote(s: Seq<char>)
    requires
        s.len() > 0,
        s.last() == '"' || s.last() == '\'',
    ensures
        trimmed_end(s.push(' ')) == s,
{
    assert(s.push(' ').drop_last() =~= s);
    assert(is_white(' '));
    assert(!is_white(s.last()));
    assert(trimmed_end(s) == s);
}

// ----------------------------------------------------------------- lines, words
/// The text of a line without a comment: how many spaces stand before it, and the
/// text itself.
pub proof fn law_line_says_its_text(n: nat, s: Seq<char>)
    requires
        s.len() > 0 && !is_white(s[0]) && !is_white(s.last()),
        hashes_are_text(s),
    ensures
        uncommented(spaces(n) + s) == spaces(n) + s,
        entry_of(spaces(n) + s).indent == n,
        entry_of(spaces(n) + s).content == s,
{
    let l = spaces(n) + s;
    assert(is_white(' '));
    lemma_indented(n, s);
    assert(l.last() == s.last());
    assert forall|i: int| 0 <= i < l.len() && #[trigger] l[i] == '#' implies i > 0 && l[i - 1]
        != ' ' by {
        assert(s[i - n] == '#');
        assert(l[i - 1] == s[i - n - 1]);
    }
    law_hash_inside_a_word_is_text(l);
}

/// A text that does not begin with a quote and in which no `#` opens it or follows
/// a space stands as it is: as a value behind a key it needs no quotes. Without a
/// colon it can be an item, and without quotes and a dash before it a key.
pub proof fn law_plain_text_stands_as_it_is(s: Seq<char>)
    requires
        s.len() > 0 && !is_white(s[0]) && !is_white(s.last()),
        s[0] != '"' && s[0] != '\'',
        hashes_are_text(s),
    ensures
        bare(s),
        scalar_form(s) == s,
        !s.contains(':') && !s.contains('\n') ==> item_ok(s),
        no_quotes(s) && s[0] != '-' && !s.contains(':') && !s.contains('\n') ==> key_ok(s),
{
    assert forall|i: int| 0 <= i < s.len() implies !opens_comment(s, i) by {}
    lemma_comment_is(s, 0, s.len() as int);
    lemma_trimmed_same(s);
    if no_quotes(s) {
        lemma_no_quotes(s);
    }
}

/// White space round a value says nothing; the quotes round a value are taken off
/// it, one pair and no more; anything else stands as it is.
pub proof fn law_value_loses_its_quotes(a: Seq<char>, q: char, s: Seq<char>, b: Seq<char>)
    requires
        forall|i: int| 0 <= i < a.len() ==> is_white(#[trigger] a[i]),
        forall|i: int| 0 <= i < b.len() ==> is_white(#[trigger] b[i]),
        q == '"' || q == '\'',
    ensures
        unquoted(a + (seq![q] + s + seq![q]) + b) == s,
        s.len() > 0 && !is_white(s[0]) && !is_white(s.last()) && !(s[0] == s.last() && (s[0] == '"'
            || s[0] == '\'')) ==> unquoted(a + s + b) == s,
        unquoted(a + b).len() == 0,
        lone_quote(a + seq![q] + b),
        !lone_quote(a + (seq![q] + s + seq![q]) + b),
        !lone_quote(a + b),
        s.len() > 0 && !is_white(s[0]) && !is_white(s.last()) && s != seq!['"'] && s != seq!['\'']
            ==> !lone_quote(a + s + b),
{
    let f = seq![q] + s + seq![q];
    law_trimming_takes_white_space_off(a, f, b);
    assert(f.subrange(1, f.len() - 1) =~= s);
    law_trimming_takes_white_space_off(a, seq![q], b);
    law_trimming_takes_white_space_off(a, Seq::empty(), b);
    assert(a + Seq::<char>::empty() + b =~= a + b);
    if s.len() > 0 && !is_white(s[0]) && !is_white(s.last()) {
        law_trimming_takes_white_space_off(a, s, b);
        if s.len() == 1 {
            assert(s =~= seq![s[0]]);
        }
    }
}

/// A text is split at its first colon: the key before it and the value behind it,
/// with or without white space round them.
pub proof fn law_first_colon_splits(k: Seq<char>, v: Seq<char>)
    requires
        !k.contains(':'),
    ensures
        has_key(k + seq![':'] + v),
        scalar_pair(k + seq![':'] + v) == (trimmed(k), YamlView::Scalar(unquoted(v))),
        lone_quote(rest_of(k + seq![':'] + v)) == lone_quote(v),
        key_of(k + seq![':'] + v) == trimmed(k),
        rest_of(k + seq![':'] + v) == trimmed(v),
        !has_key(k),
{
    let s = k + seq![':'] + v;
    let n = k.len() as int;
    assert forall|j: int| 0 <= j < n implies s[j] != ':' by {
        assert(k.contains(k[j]));
    }
    lemma_until_is(s, ':', n);
    assert(s.take(n) =~= k);
    assert(s.skip(n + 1) =~= v);
    lemma_trimmed_ends(v);
    lemma_trimmed_same(trimmed(v));
    lemma_until(k, ':');
    if until(k, ':') < n {
        assert(k.contains(k[until(k, ':')]));
    }
}

// --------------------------------------------------------------------- entries
/// Blocks end where an entry is not indented deeper than what they belong to.
pub proof fn law_shallow_entry_ends_a_block(
    es: Seq<Entry>,
    parent: int,
    pairs: Seq<(Seq<char>, YamlView)>,
    items: Seq<YamlView>,
)
    requires
        es.len() > 0 ==> es[0].indent <= parent,
    ensures
        read_map(es, parent, pairs) == Some((YamlView::Mapping(pairs), es)),
        read_seq(es, parent, items) == Some((YamlView::Sequence(items), es)),
        read_inline(es, parent + 1, pairs) == Some((pairs, es)),
{
}

/// In a map a line that is neither an item nor has a colon says nothing.
pub proof fn law_line_without_colon_says_nothing(
    e: Entry,
    rest: Seq<Entry>,
    parent: int,
    pairs: Seq<(Seq<char>, YamlView)>,
)
    requires
        e.indent > parent,
        e.content.len() > 0 && e.content[0] != '-',
        !e.content.contains(':'),
    ensures
        read_map(seq![e] + rest, parent, pairs) == read_map(rest, parent, pairs),
{
    law_first_colon_splits(e.content, Seq::empty());
    assert((seq![e] + rest).skip(1) =~= rest);
}

/// In a map a line `key: value` adds that pair, however deep it is indented and
/// whatever follows it.
pub proof fn law_pair_is_added(
    e: Entry,
    k: Seq<char>,
    v: Seq<char>,
    rest: Seq<Entry>,
    parent: int,
    pairs: Seq<(Seq<char>, YamlView)>,
)
    requires
        e.indent > parent,
        e.content == k + seq![':'] + v,
        e.content[0] != '-',
        !k.contains(':'),
        unquoted(v).len() > 0,
        !lone_quote(v),
    ensures
        read_map(seq![e] + rest, parent, pairs) == read_map(
            rest,
            parent,
            pairs.push((trimmed(k), YamlView::Scalar(unquoted(v)))),
        ),
{
    law_first_colon_splits(k, v);
    lemma_unquoted_trimmed(v);
    assert((seq![e] + rest).skip(1) =~= rest);
}

proof fn lemma_unquoted_trimmed(v: Seq<char>)
    ensures
        unquoted(trimmed(v)) == unquoted(v),
{
    lemma_trimmed_ends(v);
    lemma_trimmed_same(trimmed(v));
}

/// A key without a value, below which nothing is indented deeper, has the empty
/// text as its value; so has one with empty quotes.
pub proof fn law_key_without_value_is_empty(
    e: Entry,
    k: Seq<char>,
    v: Seq<char>,
    rest: Seq<Entry>,
    parent: int,
    pairs: Seq<(Seq<char>, YamlView)>,
)
    requires
        e.indent > parent,
        e.content == k + seq![':'] + v,
        e.content[0] != '-',
        !k.contains(':'),
        unquoted(v).len() == 0,
        !lone_quote(v),
        rest.len() > 0 ==> rest[0].indent <= e.indent,
    ensures
        read_map(seq![e] + rest, parent, pairs) == read_map(
            rest,
            parent,
            pairs.push((trimmed(k), YamlView::Scalar(Seq::empty()))),
        ),
{
    law_first_colon_splits(k, v);
    lemma_unquoted_trimmed(v);
    let es = seq![e] + rest;
    assert(es.skip(1) =~= rest);
    assert(es.len() > 1 ==> es[1] == rest[0]);
    assert(unquoted(v) =~= Seq::<char>::empty());
}

/// What is indented deeper below a key without a value is its value, read as it
/// would be read alone: a list where it begins with a dash and a map where it does
/// not. The pairs go on behind it.
pub proof fn law_block_is_the_value_of_its_key(
    e: Entry,
    k: Seq<char>,
    v: Seq<char>,
    rest: Seq<Entry>,
    parent: int,
    pairs: Seq<(Seq<char>, YamlView)>,
)
    requires
        e.indent > parent,
        e.content == k + seq![':'] + v,
        e.content[0] != '-',
        !k.contains(':'),
        unquoted(v).len() == 0,
        !lone_quote(v),
        rest.len() > 0 && rest[0].indent > e.indent,
    ensures
        read_map(rest, e.indent, Seq::empty()) is None ==> read_map(
            seq![e] + rest,
            parent,
            pairs,
        ) is None,
        read_map(rest, e.indent, Seq::empty()) matches Some((value, left)) ==> read_map(
            seq![e] + rest,
            parent,
            pairs,
        ) == read_map(left, parent, pairs.push((trimmed(k), value))),
        rest[0].content.len() > 0 && rest[0].content[0] == '-' ==> read_map(
            rest,
            e.indent,
            Seq::empty(),
        ) == read_seq(rest, e.indent, Seq::empty()),
{
    law_first_colon_splits(k, v);
    lemma_unquoted_trimmed(v);
    let es = seq![e] + rest;
    assert(es.skip(1) =~= rest);
    assert(es[1] == rest[0]);
    assert(opens_block(es));
    lemma_map_shrinks(rest, e.indent, Seq::empty());
}

/// Below a list an item without a colon is a text, as it stands behind the dash:
/// quotes are part of it.
pub proof fn law_text_item_is_added(
    e: Entry,
    s: Seq<char>,
    rest: Seq<Entry>,
    parent: int,
    items: Seq<YamlView>,
)
    requires
        e.indent > parent,
        e.content == seq!['-'] + s,
        !s.contains(':'),
        trimmed(s).len() > 0,
    ensures
        read_seq(seq![e] + rest, parent, items) == read_seq(
            rest,
            parent,
            items.push(YamlView::Scalar(trimmed(s))),
        ),
{
    assert(e.content.skip(1) =~= s);
    assert((seq![e] + rest).skip(1) =~= rest);
    lemma_trimmed_ends(s);
    law_first_colon_splits(trimmed(s), Seq::empty());
}

/// An item that begins with a pair is the map of that pair and of the pairs on the
/// lines below it that are indented two deeper or more, up to the first line that
/// is none; the list goes on there.
pub proof fn law_item_with_pairs_is_added(
    e: Entry,
    s: Seq<char>,
    k: Seq<char>,
    v: Seq<char>,
    rest: Seq<Entry>,
    parent: int,
    items: Seq<YamlView>,
)
    requires
        e.indent > parent,
        e.content == seq!['-'] + s,
        trimmed(s) == k + seq![':'] + v,
        !k.contains(':'),
        !lone_quote(v),
    ensures
        ({
            let first = seq![(trimmed(k), YamlView::Scalar(unquoted(v)))];
            &&& read_inline(rest, e.indent + 2, first) is None ==> read_seq(
                seq![e] + rest,
                parent,
                items,
            ) is None
            &&& read_inline(rest, e.indent + 2, first) is Some ==> read_seq(
                seq![e] + rest,
                parent,
                items,
            ) == read_seq(
                (read_inline(rest, e.indent + 2, first)->0).1,
                parent,
                items.push(YamlView::Mapping((read_inline(rest, e.indent + 2, first)->0).0)),
            )
        }),
{
    assert(e.content.skip(1) =~= s);
    assert((seq![e] + rest).skip(1) =~= rest);
    law_first_colon_splits(k, v);
    let first = seq![(trimmed(k), YamlView::Scalar(unquoted(v)))];
    lemma_inline_shrinks(rest, e.indent + 2, first);
}

/// A further pair of an item is added to it, unless the line begins another item,
/// has no colon or is not indented deep enough: there the item ends.
pub proof fn law_further_pair_is_added(
    e: Entry,
    k: Seq<char>,
    v: Seq<char>,
    rest: Seq<Entry>,
    least: int,
    pairs: Seq<(Seq<char>, YamlView)>,
)
    requires
        e.content.len() > 0,
        !k.contains(':'),
        !lone_quote(v),
    ensures
        e.indent < least || e.content[0] == '-' || !e.content.contains(':') ==> read_inline(
            seq![e] + rest,
            least,
            pairs,
        ) == Some((pairs, seq![e] + rest)),
        e.indent >= least && e.content[0] != '-' && e.content == k + seq![':'] + v ==> read_inline(
            seq![e] + rest,
            least,
            pairs,
        ) == read_inline(
            rest,
            least,
            pairs.push((trimmed(k), YamlView::Scalar(unquoted(v)))),
        ),
{
    assert((seq![e] + rest).skip(1) =~= rest);
    law_first_colon_splits(k, v);
    if !e.content.contains(':') {
        law_first_colon_splits(e.content, Seq::empty());
    }
}

/// A dash alone begins an item that is what is indented deeper below it.
pub proof fn law_dash_alone_holds_a_block(
    e: Entry,
    s: Seq<char>,
    rest: Seq<Entry>,
    parent: int,
    items: Seq<YamlView>,
)
    requires
        e.indent > parent,
        e.content == seq!['-'] + s,
        trimmed(s).len() == 0,
    ensures
        read_map(rest, e.indent, Seq::empty()) is None ==> read_seq(
            seq![e] + rest,
            parent,
            items,
        ) is None,
        read_map(rest, e.indent, Seq::empty()) matches Some((value, left)) ==> read_seq(
            seq![e] + rest,
            parent,
            items,
        ) == read_seq(left, parent, items.push(value)),
{
    assert(e.content.skip(1) =~= s);
    assert((seq![e] + rest).skip(1) =~= rest);
    lemma_map_shrinks(rest, e.indent, Seq::empty());
}

/// A list ends before a line that is no item.
pub proof fn law_list_ends_behind_its_items(
    e: Entry,
    rest: Seq<Entry>,
    parent: int,
    items: Seq<YamlView>,
)
    requires
        e.content.len() > 0 && e.content[0] != '-',
    ensures
        read_seq(seq![e] + rest, parent, items) == Some(
            (YamlView::Sequence(items), seq![e] + rest),
        ),
{
}

// ----------------------------------------------------------------- lone quotes
/// What an entry says, behind its dash where it is an item.
pub open spec fn said(e: Entry) -> Seq<char> {
    if e.content.len() > 0 && e.content[0] == '-' {
        trimmed(e.content.skip(1))
    } else {
        e.content
    }
}

/// The value of the entry is a lone quote.
pub open spec fn has_lone_quote(e: Entry) -> bool {
    has_key(said(e)) && lone_quote(rest_of(said(e)))
}

pub open spec fn no_lone_quotes(es: Seq<Entry>) -> bool {
    forall|i: int| 0 <= i < es.len() ==> !has_lone_quote(#[trigger] es[i])
}

proof fn lemma_end_has_none(rest: Seq<Entry>, es: Seq<Entry>)
    requires
        is_end_of(rest, es),
        no_lone_quotes(es),
    ensures
        no_lone_quotes(rest),
{
    assert forall|i: int| 0 <= i < rest.len() implies !has_lone_quote(#[trigger] rest[i]) by {
        assert(rest[i] == es[i + es.len() - rest.len()]);
    }
}

proof fn lemma_inline_is_read(es: Seq<Entry>, least: int, acc: Seq<(Seq<char>, YamlView)>)
    requires
        no_lone_quotes(es),
    ensures
        read_inline(es, least, acc) is Some,
    decreases es.len(),
{
    if !(es.len() == 0 || es[0].indent < least || is_item(es[0]) || !has_key(es[0].content)) {
        assert(!has_lone_quote(es[0]));
        assert(es.skip(1) =~= es.skip(es.len() - es.skip(1).len()));
        lemma_end_has_none(es.skip(1), es);
        lemma_inline_is_read(es.skip(1), least, acc.push(scalar_pair(es[0].content)));
    }
}

proof fn lemma_map_is_read(es: Seq<Entry>, parent: int, acc: Seq<(Seq<char>, YamlView)>)
    requires
        no_lone_quotes(es),
    ensures
        read_map(es, parent, acc) is Some,
    decreases es.len(), 1int,
{
    if es.len() == 0 || es[0].indent <= parent {
    } else if is_item(es[0]) {
        lemma_seq_is_read(es, parent, Seq::empty());
    } else {
        assert(!has_lone_quote(es[0]));
        let tail = es.skip(1);
        assert(tail =~= es.skip(es.len() - tail.len()));
        lemma_end_has_none(tail, es);
        if !has_key(es[0].content) {
            lemma_map_is_read(tail, parent, acc);
        } else if opens_block(es) {
            lemma_seq_is_read(tail, es[0].indent, Seq::empty());
            lemma_map_is_read(tail, es[0].indent, Seq::empty());
            lemma_seq_shrinks(tail, es[0].indent, Seq::empty());
            lemma_map_shrinks(tail, es[0].indent, Seq::empty());
            let block = if is_item(es[1]) {
                read_seq(tail, es[0].indent, Seq::empty())
            } else {
                read_map(tail, es[0].indent, Seq::empty())
            };
            if let Some((value, rest)) = block {
                lemma_end_has_none(rest, tail);
                lemma_map_is_read(rest, parent, acc.push((key_of(es[0].content), value)));
            }
        } else {
            lemma_map_is_read(tail, parent, acc.push(scalar_pair(es[0].content)));
        }
    }
}

proof fn lemma_seq_is_read(es: Seq<Entry>, parent: int, acc: Seq<YamlView>)
    requires
        no_lone_quotes(es),
    ensures
        read_seq(es, parent, acc) is Some,
    decreases es.len(), 0int,
{
    if !(es.len() == 0 || es[0].indent <= parent || !is_item(es[0])) {
        assert(!has_lone_quote(es[0]));
        let tail = es.skip(1);
        assert(tail =~= es.skip(es.len() - tail.len()));
        lemma_end_has_none(tail, es);
        let item = trimmed(es[0].content.skip(1));
        if item.len() == 0 {
            lemma_map_is_read(tail, es[0].indent, Seq::empty());
            lemma_map_shrinks(tail, es[0].indent, Seq::empty());
            if let Some((value, rest)) = read_map(tail, es[0].indent, Seq::empty()) {
                lemma_end_has_none(rest, tail);
                lemma_seq_is_read(rest, parent, acc.push(value));
            }
        } else if has_key(item) {
            let first = seq![scalar_pair(item)];
            lemma_inline_is_read(tail, es[0].indent + 2, first);
            lemma_inline_shrinks(tail, es[0].indent + 2, first);
            if let Some((pairs, rest)) = read_inline(tail, es[0].indent + 2, first) {
                lemma_end_has_none(rest, tail);
                lemma_seq_is_read(rest, parent, acc.push(YamlView::Mapping(pairs)));
            }
        } else {
            lemma_seq_is_read(tail, parent, acc.push(YamlView::Scalar(item)));
        }
    }
}

/// Every text is a document in which no value is a lone quote.
pub proof fn law_only_lone_quotes_are_refused(text: Seq<char>)
    requires
        no_lone_quotes(entries(lines_of(text))),
    ensures
        document(text) is Some,
{
    lemma_map_is_read(entries(lines_of(text)), -1, Seq::empty());
}

/// A lone quote behind a key, where its value is read, is refused.
pub proof fn law_lone_quote_is_refused(
    e: Entry,
    k: Seq<char>,
    v: Seq<char>,
    rest: Seq<Entry>,
    parent: int,
    pairs: Seq<(Seq<char>, YamlView)>,
    items: Seq<YamlView>,
)
    requires
        e.indent > parent,
        e.content.len() > 0,
        said(e) == k + seq![':'] + v,
        !k.contains(':'),
        lone_quote(v),
    ensures
        e.content[0] != '-' ==> read_map(seq![e] + rest, parent, pairs) is None,
        e.content[0] != '-' ==> read_inline(seq![e] + rest, parent + 1, pairs) is None,
        e.content[0] == '-' ==> read_seq(seq![e] + rest, parent, items) is None,
{
    law_first_colon_splits(k, v);
    assert((seq![e] + rest).skip(1) =~= rest);
}

} // verus!
