//! A reader for the subset of YAML that pipeline files use: scalars behind a
//! key, maps with indented children, lists of scalars or of small maps, and
//! `#` comments.

use vstd::prelude::*;
use vstd::string::*;

use crate::text::{
    chars_of, find, head, is_white, lemma_trimmed_end, lines, lines_of, same, tail, texts, trim,
    trim_end, trimmed, trimmed_end, until,
};

verus! {

// --------------------------------------------------------------------- values
/// A value of a document. A map keeps its pairs in the order of the document.
#[derive(Debug)]
pub enum YamlValue {
    Scalar(String),
    Mapping(Vec<(String, YamlValue)>),
    Sequence(Vec<YamlValue>),
}

/// What a `YamlValue` holds.
pub enum YamlView {
    Scalar(Seq<char>),
    Mapping(Seq<(Seq<char>, YamlView)>),
    Sequence(Seq<YamlView>),
}

impl YamlValue {
    pub open spec fn view(&self) -> YamlView
        decreases self,
    {
        match self {
            YamlValue::Scalar(s) => YamlView::Scalar(s@),
            YamlValue::Mapping(m) => YamlView::Mapping(
                Seq::new(
                    m@.len(),
                    |i: int|
                        if 0 <= i < m@.len() {
                            (m@[i].0@, m@[i].1.view())
                        } else {
                            arbitrary()
                        },
                ),
            ),
            YamlValue::Sequence(v) => YamlView::Sequence(
                Seq::new(
                    v@.len(),
                    |i: int|
                        if 0 <= i < v@.len() {
                            v@[i].view()
                        } else {
                            arbitrary()
                        },
                ),
            ),
        }
    }
}

/// What a sequence of pairs holds.
pub open spec fn pairs_view(s: Seq<(String, YamlValue)>) -> Seq<(Seq<char>, YamlView)> {
    s.map_values(|p: (String, YamlValue)| (p.0@, p.1.view()))
}

/// What a sequence of values holds.
pub open spec fn values_view(s: Seq<YamlValue>) -> Seq<YamlView> {
    s.map_values(|v: YamlValue| v.view())
}

proof fn lemma_map_view(m: Vec<(String, YamlValue)>)
    ensures
        YamlValue::Mapping(m).view() == YamlView::Mapping(pairs_view(m@)),
{
    assert(YamlValue::Mapping(m).view()->Mapping_0 =~= pairs_view(m@));
}

proof fn lemma_seq_view(v: Vec<YamlValue>)
    ensures
        YamlValue::Sequence(v).view() == YamlView::Sequence(values_view(v@)),
{
    assert(YamlValue::Sequence(v).view()->Sequence_0 =~= values_view(v@));
}

// ---------------------------------------------------------- lines and entries
/// What the quotes of a stretch of text leave open at its end.
pub enum Quoting {
    Bare,
    Single,
    Double,
}

/// The quoting behind `s`: a quote of one kind hides those of the other.
pub open spec fn quoting(s: Seq<char>) -> Quoting
    decreases s.len(),
{
    if s.len() == 0 {
        Quoting::Bare
    } else {
        match quoting(s.drop_last()) {
            Quoting::Bare => if s.last() == '\'' {
                Quoting::Single
            } else if s.last() == '"' {
                Quoting::Double
            } else {
                Quoting::Bare
            },
            Quoting::Single => if s.last() == '\'' {
                Quoting::Bare
            } else {
                Quoting::Single
            },
            Quoting::Double => if s.last() == '"' {
                Quoting::Bare
            } else {
                Quoting::Double
            },
        }
    }
}

/// A comment begins at a `#` outside quotes that opens the line or follows a
/// space.
pub open spec fn opens_comment(s: Seq<char>, i: int) -> bool {
    &&& s[i] == '#'
    &&& quoting(s.take(i)) is Bare
    &&& i == 0 || s[i - 1] == ' '
}

/// Where the first comment at or behind `i` begins; the end of the line where
/// there is none.
pub open spec fn comment_from(s: Seq<char>, i: int) -> int
    decreases s.len() - i,
{
    if i >= s.len() {
        s.len() as int
    } else if opens_comment(s, i) {
        i
    } else {
        comment_from(s, i + 1)
    }
}

/// A line without its comment and the white space at its end.
pub open spec fn uncommented(s: Seq<char>) -> Seq<char> {
    trimmed_end(s.take(comment_from(s, 0)))
}

/// How many spaces a line begins with.
pub open spec fn leading_spaces(s: Seq<char>) -> int
    decreases s.len(),
{
    if s.len() > 0 && s[0] == ' ' {
        1 + leading_spaces(s.skip(1))
    } else {
        0
    }
}

/// A line that says something: how far it is indented, and what it says.
pub struct Entry {
    pub indent: int,
    pub content: Seq<char>,
}

pub open spec fn entry_of(line: Seq<char>) -> Entry {
    Entry { indent: leading_spaces(line), content: line.skip(leading_spaces(line)) }
}

/// The lines that hold more than white space and comments.
pub open spec fn entries(lines: Seq<Seq<char>>) -> Seq<Entry>
    decreases lines.len(),
{
    if lines.len() == 0 {
        Seq::empty()
    } else {
        let line = uncommented(lines[0]);
        let rest = entries(lines.skip(1));
        if line.len() == 0 {
            rest
        } else {
            seq![entry_of(line)] + rest
        }
    }
}

/// The entries at and behind the line at `from`.
pub open spec fn entries_from(lines: Seq<Seq<char>>, from: int) -> Seq<Entry> {
    if 0 <= from <= lines.len() {
        entries(lines.skip(from))
    } else {
        Seq::empty()
    }
}

/// The indentation of an entry is a number that an `i32` can hold, and so is that
/// of the further pairs of an item.
pub open spec fn indent_fits(e: Entry) -> bool {
    &&& e.indent <= i32::MAX
    &&& is_item(e) && has_key(trimmed(e.content.skip(1))) ==> e.indent <= i32::MAX - 2
}

/// The indentations of all lines fit.
pub open spec fn indents_fit(lines: Seq<Seq<char>>) -> bool {
    forall|i: int|
        0 <= i < lines.len() ==> indent_fits(entry_of(uncommented(#[trigger] lines[i])))
}

// -------------------------------------------------------------------- grammar
/// `s` is a single quote mark: it opens what nothing closes.
pub open spec fn lone_quote(s: Seq<char>) -> bool {
    let t = trimmed(s);
    t.len() == 1 && (t[0] == '"' || t[0] == '\'')
}

/// `s` trimmed, and without the pair of equal quotes round it.
pub open spec fn unquoted(s: Seq<char>) -> Seq<char> {
    let t = trimmed(s);
    if t.len() > 0 && t[0] == t.last() && (t[0] == '"' || t[0] == '\'') {
        t.subrange(1, t.len() - 1)
    } else {
        t
    }
}

pub open spec fn is_item(e: Entry) -> bool {
    e.content.len() > 0 && e.content[0] == '-'
}

/// `s` has the form `key: value`.
pub open spec fn has_key(s: Seq<char>) -> bool {
    until(s, ':') < s.len()
}

pub open spec fn key_of(s: Seq<char>) -> Seq<char> {
    trimmed(s.take(until(s, ':')))
}

pub open spec fn rest_of(s: Seq<char>) -> Seq<char> {
    trimmed(s.skip(until(s, ':') + 1))
}

/// The pair that a `key: value` text stands for.
pub open spec fn scalar_pair(s: Seq<char>) -> (Seq<char>, YamlView) {
    (key_of(s), YamlView::Scalar(unquoted(rest_of(s))))
}

/// Reads a map whose entries are indented deeper than `parent`, behind the
/// pairs `acc` that are read already. The result is the value and the entries
/// behind it; there is none where a value is a lone quote. A list item among
/// the entries turns the value into the list that begins there.
pub open spec fn read_map(
    es: Seq<Entry>,
    parent: int,
    acc: Seq<(Seq<char>, YamlView)>,
) -> Option<(YamlView, Seq<Entry>)>
    decreases es.len(), 1int,
{
    if es.len() == 0 || es[0].indent <= parent {
        Some((YamlView::Mapping(acc), es))
    } else if is_item(es[0]) {
        read_seq(es, parent, Seq::empty())
    } else if !has_key(es[0].content) {
        read_map(es.skip(1), parent, acc)
    } else if lone_quote(rest_of(es[0].content)) {
        None
    } else if opens_block(es) {
        let block = if is_item(es[1]) {
            read_seq(es.skip(1), es[0].indent, Seq::empty())
        } else {
            read_map(es.skip(1), es[0].indent, Seq::empty())
        };
        match block {
            // the entries behind the block are among those behind the key
            Some((value, rest)) => if rest.len() < es.len() {
                read_map(rest, parent, acc.push((key_of(es[0].content), value)))
            } else {
                None
            },
            None => None,
        }
    } else {
        read_map(es.skip(1), parent, acc.push(scalar_pair(es[0].content)))
    }
}

/// The first entry is a key without a value, and deeper entries follow.
pub open spec fn opens_block(es: Seq<Entry>) -> bool {
    &&& unquoted(rest_of(es[0].content)).len() == 0
    &&& es.len() > 1
    &&& es[1].indent > es[0].indent
}

/// Reads a list whose items are indented deeper than `parent`, behind the items
/// `acc`.
pub open spec fn read_seq(es: Seq<Entry>, parent: int, acc: Seq<YamlView>) -> Option<
    (YamlView, Seq<Entry>),
>
    decreases es.len(), 0int,
{
    if es.len() == 0 || es[0].indent <= parent || !is_item(es[0]) {
        Some((YamlView::Sequence(acc), es))
    } else {
        let item = trimmed(es[0].content.skip(1));
        if item.len() == 0 {
            match read_map(es.skip(1), es[0].indent, Seq::empty()) {
                Some((value, rest)) => if rest.len() < es.len() {
                    read_seq(rest, parent, acc.push(value))
                } else {
                    None
                },
                None => None,
            }
        } else if has_key(item) {
            if lone_quote(rest_of(item)) {
                None
            } else {
                match read_inline(es.skip(1), es[0].indent + 2, seq![scalar_pair(item)]) {
                    Some((pairs, rest)) => if rest.len() < es.len() {
                        read_seq(rest, parent, acc.push(YamlView::Mapping(pairs)))
                    } else {
                        None
                    },
                    None => None,
                }
            }
        } else {
            read_seq(es.skip(1), parent, acc.push(YamlView::Scalar(item)))
        }
    }
}

/// Reads the further `key: value` entries of a list item, which are indented by
/// at least `least`, behind the pairs `acc`.
pub open spec fn read_inline(
    es: Seq<Entry>,
    least: int,
    acc: Seq<(Seq<char>, YamlView)>,
) -> Option<(Seq<(Seq<char>, YamlView)>, Seq<Entry>)>
    decreases es.len(),
{
    if es.len() == 0 || es[0].indent < least || is_item(es[0]) || !has_key(es[0].content) {
        Some((acc, es))
    } else if lone_quote(rest_of(es[0].content)) {
        None
    } else {
        read_inline(es.skip(1), least, acc.push(scalar_pair(es[0].content)))
    }
}

/// The value of a document, unless a lone quote stands where a value is read.
pub open spec fn document(text: Seq<char>) -> Option<YamlView> {
    match read_map(entries(lines_of(text)), -1, Seq::empty()) {
        Some((value, rest)) => Some(value),
        None => None,
    }
}

/// A text that can be read as a document.
pub open spec fn readable(text: Seq<char>) -> bool {
    indents_fit(lines_of(text)) && document(text) is Some
}

// --------------------------------------------------------------------- lemmas
/// `rest` is what is left of `es` when some of the first ones are taken off.
pub open spec fn is_end_of(rest: Seq<Entry>, es: Seq<Entry>) -> bool {
    rest.len() <= es.len() && rest == es.skip(es.len() - rest.len())
}

proof fn lemma_end_of_end(a: Seq<Entry>, b: Seq<Entry>, es: Seq<Entry>)
    requires
        is_end_of(a, b),
        is_end_of(b, es),
    ensures
        is_end_of(a, es),
{
    assert(a =~= es.skip(es.len() - a.len()));
}

proof fn lemma_comment_from(s: Seq<char>, i: int)
    requires
        0 <= i <= s.len(),
    ensures
        i <= comment_from(s, i) <= s.len(),
    decreases s.len() - i,
{
    if i < s.len() && !opens_comment(s, i) {
        lemma_comment_from(s, i + 1);
    }
}

pub proof fn lemma_leading_spaces(s: Seq<char>)
    ensures
        0 <= leading_spaces(s) <= s.len(),
        forall|j: int| 0 <= j < leading_spaces(s) ==> s[j] == ' ',
        leading_spaces(s) < s.len() ==> s[leading_spaces(s)] != ' ',
    decreases s.len(),
{
    if s.len() > 0 && s[0] == ' ' {
        lemma_leading_spaces(s.skip(1));
        assert forall|j: int| 0 <= j < leading_spaces(s) implies s[j] == ' ' by {
            if j > 0 {
                assert(s.skip(1)[j - 1] == s[j]);
            }
        }
    }
}

/// An entry says something: its content is not empty and does not end in white
/// space.
proof fn lemma_entry(line: Seq<char>)
    requires
        uncommented(line).len() > 0,
    ensures
        0 <= entry_of(uncommented(line)).indent < uncommented(line).len(),
        entry_of(uncommented(line)).content.len() > 0,
        !is_white(entry_of(uncommented(line)).content.last()),
{
    let u = uncommented(line);
    lemma_trimmed_end(line.take(comment_from(line, 0)));
    lemma_leading_spaces(u);
    if leading_spaces(u) == u.len() {
        assert(u.last() == ' ');
    }
}

proof fn lemma_entries_step(lines: Seq<Seq<char>>, p: int)
    requires
        0 <= p < lines.len(),
    ensures
        uncommented(lines[p]).len() == 0 ==> entries_from(lines, p) == entries_from(lines, p + 1),
        uncommented(lines[p]).len() > 0 ==> {
            &&& entries_from(lines, p).len() > 0
            &&& entries_from(lines, p)[0] == entry_of(uncommented(lines[p]))
            &&& entries_from(lines, p).skip(1) == entries_from(lines, p + 1)
        },
{
    assert(lines.skip(p).skip(1) =~= lines.skip(p + 1));
    let es = entries_from(lines, p);
    if uncommented(lines[p]).len() > 0 {
        assert(es.skip(1) =~= entries_from(lines, p + 1));
    }
}

proof fn lemma_entries_end(lines: Seq<Seq<char>>, p: int)
    requires
        p >= lines.len(),
    ensures
        entries_from(lines, p) == Seq::<Entry>::empty(),
{
    if p == lines.len() {
        assert(lines.skip(p) =~= Seq::empty());
    }
}

/// What reading leaves is the end of the entries that it was given.
pub proof fn lemma_inline_shrinks(es: Seq<Entry>, least: int, acc: Seq<(Seq<char>, YamlView)>)
    ensures
        read_inline(es, least, acc) matches Some((pairs, rest)) ==> is_end_of(rest, es),
    decreases es.len(),
{
    assert(es.skip(0) =~= es);
    if !(es.len() == 0 || es[0].indent < least || is_item(es[0]) || !has_key(es[0].content))
        && !lone_quote(rest_of(es[0].content)) {
        let more = acc.push(scalar_pair(es[0].content));
        lemma_inline_shrinks(es.skip(1), least, more);
        if let Some((pairs, rest)) = read_inline(es.skip(1), least, more) {
            lemma_end_of_end(rest, es.skip(1), es);
        }
    }
}

pub proof fn lemma_map_shrinks(es: Seq<Entry>, parent: int, acc: Seq<(Seq<char>, YamlView)>)
    ensures
        read_map(es, parent, acc) matches Some((value, rest)) ==> is_end_of(rest, es),
    decreases es.len(), 1int,
{
    assert(es.skip(0) =~= es);
    if es.len() == 0 || es[0].indent <= parent {
    } else if is_item(es[0]) {
        lemma_seq_shrinks(es, parent, Seq::empty());
    } else if !has_key(es[0].content) {
        lemma_map_shrinks(es.skip(1), parent, acc);
        if let Some((value, rest)) = read_map(es.skip(1), parent, acc) {
            lemma_end_of_end(rest, es.skip(1), es);
        }
    } else if lone_quote(rest_of(es[0].content)) {
    } else if opens_block(es) {
        let block = if is_item(es[1]) {
            read_seq(es.skip(1), es[0].indent, Seq::empty())
        } else {
            read_map(es.skip(1), es[0].indent, Seq::empty())
        };
        lemma_seq_shrinks(es.skip(1), es[0].indent, Seq::empty());
        lemma_map_shrinks(es.skip(1), es[0].indent, Seq::empty());
        if let Some((value, rest)) = block {
            let more = acc.push((key_of(es[0].content), value));
            lemma_end_of_end(rest, es.skip(1), es);
            lemma_map_shrinks(rest, parent, more);
            if let Some((whole, left)) = read_map(rest, parent, more) {
                lemma_end_of_end(left, rest, es);
            }
        }
    } else {
        let more = acc.push(scalar_pair(es[0].content));
        lemma_map_shrinks(es.skip(1), parent, more);
        if let Some((value, rest)) = read_map(es.skip(1), parent, more) {
            lemma_end_of_end(rest, es.skip(1), es);
        }
    }
}

pub proof fn lemma_seq_shrinks(es: Seq<Entry>, parent: int, acc: Seq<YamlView>)
    ensures
        read_seq(es, parent, acc) matches Some((value, rest)) ==> is_end_of(rest, es),
    decreases es.len(), 0int,
{
    assert(es.skip(0) =~= es);
    if es.len() == 0 || es[0].indent <= parent || !is_item(es[0]) {
    } else {
        let item = trimmed(es[0].content.skip(1));
        if item.len() == 0 {
            lemma_map_shrinks(es.skip(1), es[0].indent, Seq::empty());
            if let Some((value, rest)) = read_map(es.skip(1), es[0].indent, Seq::empty()) {
                lemma_end_of_end(rest, es.skip(1), es);
                lemma_seq_shrinks(rest, parent, acc.push(value));
                if let Some((whole, left)) = read_seq(rest, parent, acc.push(value)) {
                    lemma_end_of_end(left, rest, es);
                }
            }
        } else if has_key(item) {
            let first = seq![scalar_pair(item)];
            lemma_inline_shrinks(es.skip(1), es[0].indent + 2, first);
            if let Some((pairs, rest)) = read_inline(es.skip(1), es[0].indent + 2, first) {
                let more = acc.push(YamlView::Mapping(pairs));
                lemma_end_of_end(rest, es.skip(1), es);
                lemma_seq_shrinks(rest, parent, more);
                if let Some((whole, left)) = read_seq(rest, parent, more) {
                    lemma_end_of_end(left, rest, es);
                }
            }
        } else {
            let more = acc.push(YamlView::Scalar(item));
            lemma_seq_shrinks(es.skip(1), parent, more);
            if let Some((value, rest)) = read_seq(es.skip(1), parent, more) {
                lemma_end_of_end(rest, es.skip(1), es);
            }
        }
    }
}

// -------------------------------------------------------------- line functions
/// How many spaces `line` begins with.
pub fn indent_of(line: &str) -> (r: i32)
    ensures
        r == leading_spaces(line@) as i32,
{
    let n = spaces(line);
    n as i32
}

fn spaces(line: &str) -> (r: usize)
    ensures
        r == leading_spaces(line@),
        r <= line@.len(),
{
    let v = chars_of(line);
    let mut i: usize = 0;
    assert(line@.skip(0) =~= line@);
    while i < v.len() && v[i] == ' '
        invariant
            v@ == line@,
            i <= v.len(),
            leading_spaces(line@) == i + leading_spaces(line@.skip(i as int)),
        decreases v.len() - i,
    {
        assert(line@.skip(i as int).skip(1) =~= line@.skip(i + 1));
        i += 1;
    }
    i
}

/// `line` without its comment and the white space at its end.
pub fn strip_comment<'a>(line: &'a str) -> (r: &'a str)
    ensures
        r@ == uncommented(line@),
{
    let v = chars_of(line);
    let mut in_sq = false;
    let mut in_dq = false;
    let mut i: usize = 0;
    assert(line@.take(0) =~= Seq::<char>::empty());
    while i < v.len()
        invariant
            v@ == line@,
            i <= v.len(),
            comment_from(line@, 0) == comment_from(line@, i as int),
            in_sq == (quoting(line@.take(i as int)) is Single),
            in_dq == (quoting(line@.take(i as int)) is Double),
        decreases v.len() - i,
    {
        let c = v[i];
        assert(line@.take(i + 1).drop_last() =~= line@.take(i as int));
        if c == '\'' && !in_dq {
            in_sq = !in_sq;
        } else if c == '"' && !in_sq {
            in_dq = !in_dq;
        } else if c == '#' && !in_sq && !in_dq && (i == 0 || v[i - 1] == ' ') {
            return trim_end(head(line, i));
        }
        i += 1;
    }
    assert(line@.take(i as int) =~= line@);
    trim_end(line)
}

/// `s` trimmed, and without the pair of equal quotes round it.
pub fn unquote<'a>(s: &'a str) -> (r: &'a str)
    requires
        !lone_quote(s@),
    ensures
        r@ == unquoted(s@),
{
    let t = trim(s);
    let n = t.unicode_len();
    if n == 0 {
        return t;
    }
    let a = t.get_char(0);
    let b = t.get_char(n - 1);
    if a == b && (a == '"' || a == '\'') {
        let inner = head(tail(t, 1), n - 2);
        assert(inner@ =~= t@.subrange(1, t@.len() - 1));
        inner
    } else {
        t
    }
}

/// Whether `s` is a single quote mark.
fn is_lone_quote(s: &str) -> (r: bool)
    ensures
        r == lone_quote(s@),
{
    let t = trim(s);
    t.unicode_len() == 1 && (t.get_char(0) == '"' || t.get_char(0) == '\'')
}

/// What a line says behind its indentation.
fn content_of<'a>(line: &'a str) -> (r: &'a str)
    ensures
        r@ == entry_of(line@).content,
{
    let n = spaces(line);
    tail(line, n)
}

/// The indentation of the first entry at or behind the line at `from`; -1 where
/// there is none.
pub fn peek_indent(lines: &[&str], from: usize) -> (r: i32)
    ensures
        ({
            let es = entries_from(texts(lines@), from as int);
            r == if es.len() > 0 {
                es[0].indent as i32
            } else {
                -1i32
            }
        }),
{
    let mut i: usize = from;
    let ghost all = texts(lines@);
    while i < lines.len()
        invariant
            from <= i,
            all == texts(lines@),
            all.len() == lines@.len(),
            entries_from(all, from as int) == entries_from(all, i as int),
        decreases lines.len() - i,
    {
        let line = strip_comment(lines[i]);
        proof {
            assert(all[i as int] == lines@[i as int]@);
            lemma_entries_step(all, i as int);
        }
        if !line.is_empty() {
            return indent_of(line);
        }
        i += 1;
    }
    proof {
        lemma_entries_end(all, i as int);
    }
    -1
}

/// What the first entry at or behind the line at `from` says; nothing where
/// there is none.
pub fn peek_content<'a>(lines: &[&'a str], from: usize) -> (r: &'a str)
    ensures
        ({
            let es = entries_from(texts(lines@), from as int);
            r@ == if es.len() > 0 {
                es[0].content
            } else {
                Seq::empty()
            }
        }),
{
    let mut i: usize = from;
    let ghost all = texts(lines@);
    while i < lines.len()
        invariant
            from <= i,
            all == texts(lines@),
            all.len() == lines@.len(),
            entries_from(all, from as int) == entries_from(all, i as int),
        decreases lines.len() - i,
    {
        let line = strip_comment(lines[i]);
        proof {
            assert(all[i as int] == lines@[i as int]@);
            lemma_entries_step(all, i as int);
        }
        if !line.is_empty() {
            return content_of(line);
        }
        i += 1;
    }
    proof {
        lemma_entries_end(all, i as int);
        reveal_strlit("");
        assert(""@ =~= Seq::<char>::empty());
    }
    ""
}

// --------------------------------------------------------------------- reading
/// A place at which reading stops: the end, or a line that is an entry.
pub open spec fn at_entry(lines: Seq<Seq<char>>, p: int) -> bool {
    p < lines.len() ==> uncommented(lines[p]).len() > 0
}

/// The first line at or behind `from` that is an entry; the end where there is
/// none.
fn skip_blank(lines: &[&str], from: usize) -> (r: usize)
    ensures
        from <= r,
        from <= lines@.len() ==> r <= lines@.len(),
        from > lines@.len() ==> r == from,
        at_entry(texts(lines@), r as int),
        entries_from(texts(lines@), r as int) == entries_from(texts(lines@), from as int),
{
    let mut i: usize = from;
    let ghost all = texts(lines@);
    while i < lines.len()
        invariant
            from <= i,
            from <= lines@.len() ==> i <= lines@.len(),
            from > lines@.len() ==> i == from,
            all == texts(lines@),
            all.len() == lines@.len(),
            entries_from(all, from as int) == entries_from(all, i as int),
        decreases lines.len() - i,
    {
        let line = strip_comment(lines[i]);
        proof {
            assert(all[i as int] == lines@[i as int]@);
            lemma_entries_step(all, i as int);
        }
        if !line.is_empty() {
            return i;
        }
        i += 1;
    }
    i
}

/// The key and the value of a `key: value` text, with what the text stands for.
/// There is none where the value is a lone quote.
fn split_pair(s: &str, colon: usize) -> (r: Option<(String, String)>)
    requires
        colon == until(s@, ':'),
        colon < s@.len() <= usize::MAX,
    ensures
        r is None <==> lone_quote(rest_of(s@)),
        r matches Some((key, value)) ==> key@ == key_of(s@) && value@ == unquoted(rest_of(s@)),
{
    let key = trim(head(s, colon)).to_string();
    let rest = trim(tail(s, colon + 1));
    if is_lone_quote(rest) {
        None
    } else {
        Some((key, unquote(rest).to_string()))
    }
}

proof fn lemma_push_pair(pairs: Seq<(String, YamlValue)>, p: (String, YamlValue))
    ensures
        pairs_view(pairs.push(p)) == pairs_view(pairs).push((p.0@, p.1.view())),
{
    assert(pairs_view(pairs.push(p)) =~= pairs_view(pairs).push((p.0@, p.1.view())));
}

proof fn lemma_push_value(items: Seq<YamlValue>, v: YamlValue)
    ensures
        values_view(items.push(v)) == values_view(items).push(v.view()),
{
    assert(values_view(items.push(v)) =~= values_view(items).push(v.view()));
}

/// Reads the further pairs of a list item that begins with `first`.
fn take_inline(lines: &[&str], from: usize, least: i32, first: (String, String)) -> (r: Option<
    (Vec<(String, YamlValue)>, usize),
>)
    requires
        indents_fit(texts(lines@)),
        from <= lines@.len(),
    ensures
        ({
            let read = read_inline(
                entries_from(texts(lines@), from as int),
                least as int,
                seq![(first.0@, YamlView::Scalar(first.1@))],
            );
            match r {
                Some((pairs, p)) => {
                    &&& read == Some((pairs_view(pairs@), entries_from(texts(lines@), p as int)))
                    &&& from <= p <= lines@.len()
                    &&& at_entry(texts(lines@), p as int)
                },
                None => read is None,
            }
        }),
{
    let ghost all = texts(lines@);
    let ghost start = seq![(first.0@, YamlView::Scalar(first.1@))];
    let mut pairs: Vec<(String, YamlValue)> = Vec::new();
    pairs.push((first.0, YamlValue::Scalar(first.1)));
    assert(pairs_view(pairs@) =~= start);
    let mut p: usize = skip_blank(lines, from);
    while p < lines.len()
        invariant
            all == texts(lines@),
            all.len() == lines@.len(),
            start == seq![(first.0@, YamlView::Scalar(first.1@))],
            indents_fit(all),
            from <= p <= lines@.len(),
            at_entry(all, p as int),
            read_inline(entries_from(all, from as int), least as int, start) == read_inline(
                entries_from(all, p as int),
                least as int,
                pairs_view(pairs@),
            ),
        ensures
            from <= p <= lines@.len(),
            at_entry(all, p as int),
            read_inline(entries_from(all, from as int), least as int, start) == Some(
                (pairs_view(pairs@), entries_from(all, p as int)),
            ),
        decreases lines.len() - p,
    {
        let line = strip_comment(lines[p]);
        proof {
            assert(all[p as int] == lines@[p as int]@);
            lemma_entries_step(all, p as int);
            lemma_entry(all[p as int]);
        }
        let ghost es = entries_from(all, p as int);
        let ind = indent_of(line);
        let content = content_of(line);
        if ind < least || content.get_char(0) == '-' {
            break;
        }
        match find(content, ':') {
            Some(colon) => {
                match split_pair(content, colon) {
                    Some((key, value)) => {
                        let pair = (key, YamlValue::Scalar(value));
                        proof {
                            lemma_push_pair(pairs@, pair);
                        }
                        pairs.push(pair);
                        p = skip_blank(lines, p + 1);
                    },
                    None => {
                        return None;
                    },
                }
            },
            None => {
                break;
            },
        }
    }
    proof {
        if p >= lines@.len() {
            lemma_entries_end(all, p as int);
        }
    }
    Some((pairs, p))
}

/// Where reading from the line at `from` may stop.
pub open spec fn stops_at(lines: Seq<Seq<char>>, from: int, p: int) -> bool {
    &&& from <= p
    &&& from <= lines.len() ==> p <= lines.len()
    &&& from > lines.len() ==> p == from
    &&& at_entry(lines, p)
}

/// Reads a map whose entries are indented deeper than `parent`.
fn take_map(lines: &[&str], from: usize, parent: i32) -> (r: Option<(YamlValue, usize)>)
    requires
        indents_fit(texts(lines@)),
    ensures
        ({
            let all = texts(lines@);
            let read = read_map(entries_from(all, from as int), parent as int, Seq::empty());
            match r {
                Some((value, p)) => {
                    &&& read == Some((value.view(), entries_from(all, p as int)))
                    &&& stops_at(all, from as int, p as int)
                },
                None => read is None,
            }
        }),
    decreases lines@.len() - from, 1int,
{
    let ghost all = texts(lines@);
    let ghost whole = read_map(entries_from(all, from as int), parent as int, Seq::empty());
    let mut pairs: Vec<(String, YamlValue)> = Vec::new();
    assert(pairs_view(pairs@) =~= Seq::empty());
    let mut p: usize = skip_blank(lines, from);
    while p < lines.len()
        invariant
            all == texts(lines@),
            all.len() == lines@.len(),
            indents_fit(all),
            stops_at(all, from as int, p as int),
            whole == read_map(entries_from(all, from as int), parent as int, Seq::empty()),
            whole == read_map(
                entries_from(all, p as int),
                parent as int,
                pairs_view(pairs@),
            ),
        ensures
            stops_at(all, from as int, p as int),
            whole == Some((YamlView::Mapping(pairs_view(pairs@)), entries_from(all, p as int))),
        decreases lines.len() - p,
    {
        let line = strip_comment(lines[p]);
        proof {
            assert(all[p as int] == lines@[p as int]@);
            lemma_entries_step(all, p as int);
            lemma_entry(all[p as int]);
        }
        let ghost es = entries_from(all, p as int);
        let ind = indent_of(line);
        if ind <= parent {
            break;
        }
        let content = content_of(line);
        if content.get_char(0) == '-' {
            return take_seq(lines, p, parent);
        }
        match find(content, ':') {
            Some(colon) => {
                match split_pair(content, colon) {
                    Some((key, rest)) => {
                        let next = skip_blank(lines, p + 1);
                        if rest.as_str().is_empty() && peek_indent(lines, next) > ind {
                            let ghost tail_es = entries_from(all, next as int);
                            proof {
                                if next >= lines@.len() {
                                    lemma_entries_end(all, next as int);
                                } else {
                                    lemma_entries_step(all, next as int);
                                    lemma_entry(all[next as int]);
                                }
                                assert(es.skip(1)[0] == es[1]);
                                lemma_seq_shrinks(tail_es, ind as int, Seq::empty());
                                lemma_map_shrinks(tail_es, ind as int, Seq::empty());
                            }
                            let block = if peek_content(lines, next).get_char(0) == '-' {
                                take_seq(lines, next, ind)
                            } else {
                                take_map(lines, next, ind)
                            };
                            match block {
                                Some((value, q)) => {
                                    let pair = (key, value);
                                    proof {
                                        lemma_push_pair(pairs@, pair);
                                    }
                                    pairs.push(pair);
                                    p = q;
                                },
                                None => {
                                    return None;
                                },
                            }
                        } else {
                            proof {
                                if next >= lines@.len() {
                                    lemma_entries_end(all, next as int);
                                } else {
                                    lemma_entries_step(all, next as int);
                                    lemma_entry(all[next as int]);
                                    assert(es.skip(1)[0] == es[1]);
                                }
                                assert(!opens_block(es));
                            }
                            let pair = (key, YamlValue::Scalar(rest));
                            proof {
                                lemma_push_pair(pairs@, pair);
                            }
                            pairs.push(pair);
                            p = next;
                        }
                    },
                    None => {
                        return None;
                    },
                }
            },
            None => {
                p = skip_blank(lines, p + 1);
            },
        }
    }
    proof {
        if p >= lines@.len() {
            lemma_entries_end(all, p as int);
        }
        lemma_map_view(pairs);
    }
    Some((YamlValue::Mapping(pairs), p))
}

/// Reads a list whose items are indented deeper than `parent`.
fn take_seq(lines: &[&str], from: usize, parent: i32) -> (r: Option<(YamlValue, usize)>)
    requires
        indents_fit(texts(lines@)),
    ensures
        ({
            let all = texts(lines@);
            let read = read_seq(entries_from(all, from as int), parent as int, Seq::empty());
            match r {
                Some((value, p)) => {
                    &&& read == Some((value.view(), entries_from(all, p as int)))
                    &&& stops_at(all, from as int, p as int)
                },
                None => read is None,
            }
        }),
    decreases lines@.len() - from, 0int,
{
    let ghost all = texts(lines@);
    let ghost whole = read_seq(entries_from(all, from as int), parent as int, Seq::empty());
    let mut items: Vec<YamlValue> = Vec::new();
    assert(values_view(items@) =~= Seq::empty());
    let mut p: usize = skip_blank(lines, from);
    while p < lines.len()
        invariant
            all == texts(lines@),
            all.len() == lines@.len(),
            indents_fit(all),
            stops_at(all, from as int, p as int),
            whole == read_seq(entries_from(all, from as int), parent as int, Seq::empty()),
            whole == read_seq(
                entries_from(all, p as int),
                parent as int,
                values_view(items@),
            ),
        ensures
            stops_at(all, from as int, p as int),
            whole == Some((YamlView::Sequence(values_view(items@)), entries_from(all, p as int))),
        decreases lines.len() - p,
    {
        let line = strip_comment(lines[p]);
        proof {
            assert(all[p as int] == lines@[p as int]@);
            lemma_entries_step(all, p as int);
            lemma_entry(all[p as int]);
        }
        let ghost es = entries_from(all, p as int);
        let ind = indent_of(line);
        if ind <= parent {
            break;
        }
        let content = content_of(line);
        if content.get_char(0) != '-' {
            break;
        }
        let item = trim(tail(content, 1));
        let next = p + 1;
        if item.is_empty() {
            proof {
                lemma_map_shrinks(es.skip(1), ind as int, Seq::empty());
            }
            match take_map(lines, next, ind) {
                Some((value, q)) => {
                    proof {
                        lemma_push_value(items@, value);
                    }
                    items.push(value);
                    p = q;
                },
                None => {
                    return None;
                },
            }
        } else {
            match find(item, ':') {
                Some(colon) => {
                    match split_pair(item, colon) {
                        Some((key, rest)) => {
                            proof {
                                lemma_inline_shrinks(
                                    es.skip(1),
                                    ind + 2,
                                    seq![scalar_pair(item@)],
                                );
                            }
                            match take_inline(lines, next, ind + 2, (key, rest)) {
                                Some((pairs, q)) => {
                                    let value = YamlValue::Mapping(pairs);
                                    proof {
                                        lemma_map_view(pairs);
                                        lemma_push_value(items@, value);
                                    }
                                    items.push(value);
                                    p = q;
                                },
                                None => {
                                    return None;
                                },
                            }
                        },
                        None => {
                            return None;
                        },
                    }
                },
                None => {
                    let value = YamlValue::Scalar(item.to_string());
                    proof {
                        lemma_push_value(items@, value);
                    }
                    items.push(value);
                    p = skip_blank(lines, next);
                },
            }
        }
    }
    proof {
        if p >= lines@.len() {
            lemma_entries_end(all, p as int);
        }
        lemma_seq_view(items);
    }
    Some((YamlValue::Sequence(items), p))
}

/// Reads a map at the line `*pos`, whose entries are indented deeper than
/// `parent_indent`, and moves `*pos` behind it.
pub fn parse_map(lines: &[&str], pos: &mut usize, parent_indent: i32) -> (r: Result<
    YamlValue,
    String,
>)
    requires
        indents_fit(texts(lines@)),
        read_map(
            entries_from(texts(lines@), *old(pos) as int),
            parent_indent as int,
            Seq::empty(),
        ) is Some,
    ensures
        r matches Ok(value) && read_map(
            entries_from(texts(lines@), *old(pos) as int),
            parent_indent as int,
            Seq::empty(),
        ) == Some((value.view(), entries_from(texts(lines@), *final(pos) as int))),
        stops_at(texts(lines@), *old(pos) as int, *final(pos) as int),
{
    match take_map(lines, *pos, parent_indent) {
        Some((value, p)) => {
            *pos = p;
            Ok(value)
        },
        None => Err(String::new()),
    }
}

/// Reads a list at the line `*pos`, whose items are indented deeper than
/// `parent_indent`, and moves `*pos` behind it.
pub fn parse_seq(lines: &[&str], pos: &mut usize, parent_indent: i32) -> (r: Result<
    YamlValue,
    String,
>)
    requires
        indents_fit(texts(lines@)),
        read_seq(
            entries_from(texts(lines@), *old(pos) as int),
            parent_indent as int,
            Seq::empty(),
        ) is Some,
    ensures
        r matches Ok(value) && read_seq(
            entries_from(texts(lines@), *old(pos) as int),
            parent_indent as int,
            Seq::empty(),
        ) == Some((value.view(), entries_from(texts(lines@), *final(pos) as int))),
        stops_at(texts(lines@), *old(pos) as int, *final(pos) as int),
{
    match take_seq(lines, *pos, parent_indent) {
        Some((value, p)) => {
            *pos = p;
            Ok(value)
        },
        None => Err(String::new()),
    }
}

/// Reads a document.
pub fn yaml_parse(text: &str) -> (r: Result<YamlValue, String>)
    requires
        readable(text@),
    ensures
        r matches Ok(value) && document(text@) == Some(value.view()),
{
    let all = lines(text);
    let mut pos: usize = 0;
    assert(texts(all@).skip(0) =~= texts(all@));
    parse_map(all.as_slice(), &mut pos, -1)
}

/// Whether the indentation of a line fits.
fn fits(line: &str) -> (r: bool)
    ensures
        r == indent_fits(entry_of(line@)),
{
    let n = spaces(line);
    if n <= 0x7fff_fffd {
        return true;
    }
    if n > 0x7fff_ffff {
        return false;
    }
    let content = content_of(line);
    if content.unicode_len() == 0 || content.get_char(0) != '-' {
        return true;
    }
    find(trim(tail(content, 1)), ':').is_none()
}

/// Whether `text` can be read as a document.
pub fn is_readable(text: &str) -> (r: bool)
    ensures
        r == readable(text@),
{
    let all = lines(text);
    let ghost seen = texts(all@);
    let mut i: usize = 0;
    while i < all.len()
        invariant
            i <= all.len(),
            seen == texts(all@),
            seen == lines_of(text@),
            forall|j: int| 0 <= j < i ==> indent_fits(entry_of(uncommented(#[trigger] seen[j]))),
        decreases all.len() - i,
    {
        assert(seen[i as int] == all@[i as int]@);
        if !fits(strip_comment(all[i])) {
            return false;
        }
        i += 1;
    }
    assert(seen.skip(0) =~= seen);
    take_map(all.as_slice(), 0, -1).is_some()
}

// -------------------------------------------------------------------- accessors
/// The place of the first pair with the key `key`; the number of pairs where
/// there is none.
pub open spec fn key_index(pairs: Seq<(Seq<char>, YamlView)>, key: Seq<char>) -> int
    decreases pairs.len(),
{
    if pairs.len() == 0 || pairs[0].0 == key {
        0
    } else {
        1 + key_index(pairs.skip(1), key)
    }
}

/// The value of the first pair with the key `key`, where `v` is a map that has
/// one.
pub open spec fn lookup(v: YamlView, key: Seq<char>) -> Option<YamlView> {
    match v {
        YamlView::Mapping(pairs) => if key_index(pairs, key) < pairs.len() {
            Some(pairs[key_index(pairs, key)].1)
        } else {
            None
        },
        _ => None,
    }
}

/// The scalar behind the key `key`; `default` where there is none.
pub open spec fn text_or(v: YamlView, key: Seq<char>, default: Seq<char>) -> Seq<char> {
    match lookup(v, key) {
        Some(YamlView::Scalar(s)) => s,
        _ => default,
    }
}

/// The value behind a key is that of the first pair with this key. A map without
/// such a pair has none, and neither has a scalar or a list.
pub proof fn law_first_key_counts(
    pairs: Seq<(Seq<char>, YamlView)>,
    key: Seq<char>,
    other: Seq<char>,
    v: YamlView,
)
    requires
        key != other,
    ensures
        lookup(YamlView::Mapping(seq![(key, v)] + pairs), key) == Some(v),
        lookup(YamlView::Mapping(seq![(other, v)] + pairs), key) == lookup(
            YamlView::Mapping(pairs),
            key,
        ),
        lookup(YamlView::Mapping(Seq::empty()), key) is None,
        v is Scalar || v is Sequence ==> lookup(v, key) is None,
{
    assert((seq![(other, v)] + pairs).skip(1) =~= pairs);
    lemma_key_index(pairs, key);
}

pub proof fn lemma_key_index(pairs: Seq<(Seq<char>, YamlView)>, key: Seq<char>)
    ensures
        0 <= key_index(pairs, key) <= pairs.len(),
    decreases pairs.len(),
{
    if pairs.len() > 0 {
        lemma_key_index(pairs.skip(1), key);
    }
}

/// The text behind a key is that of its scalar; where there is no value, or one that
/// is no scalar, the default stands for it.
pub proof fn law_text_behind_a_key(v: YamlView, key: Seq<char>, default: Seq<char>)
    ensures
        lookup(v, key) matches Some(YamlView::Scalar(s)) ==> text_or(v, key, default) == s,
        !(lookup(v, key) is Some && lookup(v, key)->0 is Scalar) ==> text_or(v, key, default)
            == default,
{
}

impl YamlValue {
    /// The value behind the key `key` of a map.
    pub fn get(&self, key: &str) -> (r: Option<&YamlValue>)
        ensures
            match r {
                Some(value) => lookup(self.view(), key@) == Some(value.view()),
                None => lookup(self.view(), key@) is None,
            },
    {
        if let YamlValue::Mapping(pairs) = self {
            let ghost all = pairs_view(pairs@);
            proof {
                lemma_map_view(*pairs);
            }
            let mut i: usize = 0;
            assert(all.skip(0) =~= all);
            while i < pairs.len()
                invariant
                    i <= pairs.len(),
                    all == pairs_view(pairs@),
                    self.view() == YamlView::Mapping(all),
                    key_index(all, key@) == i + key_index(all.skip(i as int), key@),
                decreases pairs.len() - i,
            {
                assert(all.skip(i as int).skip(1) =~= all.skip(i + 1));
                assert(all.skip(i as int)[0] == all[i as int]);
                if same(pairs[i].0.as_str(), key) {
                    return Some(&pairs[i].1);
                }
                i += 1;
            }
            None
        } else {
            None
        }
    }

    /// The text of a scalar.
    pub fn as_str(&self) -> (r: Option<&str>)
        ensures
            match r {
                Some(s) => self.view() == YamlView::Scalar(s@),
                None => !(self.view() is Scalar),
            },
    {
        if let YamlValue::Scalar(s) = self {
            Some(s.as_str())
        } else {
            None
        }
    }

    /// The pairs of a map.
    pub fn as_map(&self) -> (r: Option<&Vec<(String, YamlValue)>>)
        ensures
            match r {
                Some(m) => self == YamlValue::Mapping(*m) && self.view() == YamlView::Mapping(
                    pairs_view(m@),
                ),
                None => !(self.view() is Mapping),
            },
    {
        if let YamlValue::Mapping(m) = self {
            proof {
                lemma_map_view(*m);
            }
            Some(m)
        } else {
            None
        }
    }

    /// The items of a list.
    pub fn as_seq(&self) -> (r: Option<&Vec<YamlValue>>)
        ensures
            match r {
                Some(v) => self == YamlValue::Sequence(*v) && self.view() == YamlView::Sequence(
                    values_view(v@),
                ),
                None => !(self.view() is Sequence),
            },
    {
        if let YamlValue::Sequence(v) = self {
            proof {
                lemma_seq_view(*v);
            }
            Some(v)
        } else {
            None
        }
    }

    /// The scalar behind the key `key`; `default` where there is none.
    pub fn str_or<'a>(&'a self, key: &str, default: &'a str) -> (r: &'a str)
        ensures
            r@ == text_or(self.view(), key@, default@),
    {
        match self.get(key) {
            Some(value) => match value.as_str() {
                Some(s) => s,
                None => default,
            },
            None => default,
        }
    }
}

} // verus!
