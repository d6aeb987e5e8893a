//! Text as sequences of characters: trimming, lines, order, replacement.
//!
//! Every string of the library is reasoned about through its view, the sequence
//! of its characters.

use vstd::prelude::*;
use vstd::utf8::{decode_utf8, encode_utf8, valid_utf8};

verus! {

broadcast use vstd::seq_lib::group_to_multiset_ensures;

/// The characters of each string of a list.
pub open spec fn texts(v: Seq<String>) -> Seq<Seq<char>> {
    v.map_values(|s: String| s@)
}

// ---------------------------------------------------------------------------
// What the standard library does with text
// ---------------------------------------------------------------------------

/// Trusted: `String::push` appends one character.
pub assume_specification[ String::push ](s: &mut String, c: char)
    ensures
        final(s)@ == old(s)@.push(c),
;

/// What `String::from_utf8` says of bytes that are not UTF-8.
pub uninterp spec fn utf8_fault(bytes: Seq<u8>) -> Seq<char>;

/// Trusted: `String::from_utf8` decodes the bytes when they are valid UTF-8 and
/// refuses them otherwise. On refusal only the wording of its error is kept.
#[verifier::external_body]
pub(crate) fn from_utf8(bytes: Vec<u8>) -> (r: Result<String, String>)
    ensures
        r is Ok <==> valid_utf8(bytes@),
        r matches Ok(s) ==> s@ == decode_utf8(bytes@),
        r matches Err(e) ==> e@ == utf8_fault(bytes@),
{
    String::from_utf8(bytes).map_err(|e| e.to_string())
}

/// What `String::from_utf8_lossy` makes of a byte sequence.
pub uninterp spec fn utf8_lossy(bytes: Seq<u8>) -> Seq<char>;

/// Trusted: `String::from_utf8_lossy` is a function of the bytes, and on valid
/// UTF-8 it is the plain decoding. Where replacement characters go on other
/// input is not stated.
#[verifier::external_body]
pub(crate) fn from_utf8_lossy(bytes: &Vec<u8>) -> (r: String)
    ensures
        r@ == utf8_lossy(bytes@),
        valid_utf8(bytes@) ==> r@ == decode_utf8(bytes@),
{
    String::from_utf8_lossy(bytes).into_owned()
}

/// Bytes as text: decoded where they are valid UTF-8, and what
/// `String::from_utf8_lossy` makes of them otherwise.
pub open spec fn lossy_text(bytes: Seq<u8>) -> Seq<char> {
    if valid_utf8(bytes) {
        decode_utf8(bytes)
    } else {
        utf8_lossy(bytes)
    }
}

/// The `{:?}` form of a string.
pub uninterp spec fn quoted(s: Seq<char>) -> Seq<char>;

/// Trusted: the standard `Debug` form of a `str` is a function of its characters.
#[verifier::external_body]
pub(crate) fn quote(s: &str) -> (r: String)
    ensures
        r@ == quoted(s@),
{
    format!("{:?}", s)
}

// ---------------------------------------------------------------------------
// Characters in and out
// ---------------------------------------------------------------------------

/// The characters of a string, one by one.
pub fn chars_of(s: &str) -> (r: Vec<char>)
    ensures
        r@ == s@,
{
    let mut v: Vec<char> = Vec::new();
    for c in it: s.chars()
        invariant
            it.seq() == s@,
            v@ == s@.take(it.index() as int),
    {
        v.push(c);
    }
    v
}

/// The characters `from..to` of a list, as a string.
pub fn string_of(chars: &Vec<char>, from: usize, to: usize) -> (r: String)
    requires
        from <= to <= chars@.len(),
    ensures
        r@ == chars@.subrange(from as int, to as int),
{
    let mut s: String = String::new();
    let mut i: usize = from;
    while i < to
        invariant
            from <= i <= to <= chars@.len(),
            s@ == chars@.subrange(from as int, i as int),
        decreases to - i,
    {
        s.push(chars[i]);
        i = i + 1;
    }
    s
}

/// Two pieces of text, one behind the other.
pub fn joined(a: &str, b: &str) -> (r: String)
    ensures
        r@ == a@ + b@,
{
    let mut s = a.to_owned();
    s.append(b);
    s
}

/// A copy of a list of strings.
pub fn copy_list(list: &Vec<String>) -> (r: Vec<String>)
    ensures
        r@ == list@,
{
    let mut v: Vec<String> = Vec::new();
    for i in 0..list.len()
        invariant
            v@ == list@.take(i as int),
    {
        v.push(list[i].clone());
    }
    v
}

/// Texts with a separator between them.
pub open spec fn separated(list: Seq<Seq<char>>, by: Seq<char>) -> Seq<char>
    decreases list.len(),
{
    if list.len() == 0 {
        Seq::empty()
    } else if list.len() == 1 {
        list[0]
    } else {
        separated(list.drop_last(), by) + by + list.last()
    }
}

/// Joins texts with a separator between them.
pub fn separate(list: &Vec<String>, by: &str) -> (r: String)
    ensures
        r@ == separated(texts(list@), by@),
{
    let mut s: String = String::new();
    for i in 0..list.len()
        invariant
            s@ == separated(texts(list@).take(i as int), by@),
    {
        let ghost sofar = texts(list@).take(i + 1);
        assert(sofar.drop_last() =~= texts(list@).take(i as int));
        assert(sofar.last() == list@[i as int]@);
        if i == 0 {
            s = list[i].clone();
        } else {
            s.append(by);
            s.append(list[i].as_str());
        }
    }
    assert(texts(list@).take(list@.len() as int) =~= texts(list@));
    s
}

/// The `{:?}` form of a list of strings: that of each, in square brackets.
pub open spec fn quoted_list(list: Seq<Seq<char>>) -> Seq<char> {
    "["@ + separated(list.map_values(|s: Seq<char>| quoted(s)), ", "@) + "]"@
}

/// The `{:?}` form of a list of strings.
pub fn quote_list(list: &Vec<String>) -> (r: String)
    ensures
        r@ == quoted_list(texts(list@)),
{
    let ghost forms = texts(list@).map_values(|s: Seq<char>| quoted(s));
    let mut each: Vec<String> = Vec::new();
    for i in 0..list.len()
        invariant
            forms == texts(list@).map_values(|s: Seq<char>| quoted(s)),
            texts(each@) =~= forms.take(i as int),
    {
        let ghost before = texts(each@);
        each.push(quote(list[i].as_str()));
        assert(texts(each@) =~= before.push(quoted(list@[i as int]@)));
        assert(forms[i as int] == quoted(texts(list@)[i as int]));
    }
    assert(texts(each@) =~= forms);
    let mut s = joined("[", separate(&each, ", ").as_str());
    s.append("]");
    s
}

/// Whether two strings have the same characters.
pub fn same(a: &str, b: &str) -> (r: bool)
    ensures
        r == (a@ == b@),
{
    a.to_owned() == b.to_owned()
}

/// Whether a list holds a string.
pub fn has(list: &Vec<String>, s: &str) -> (r: bool)
    ensures
        r == texts(list@).contains(s@),
{
    let wanted = s.to_owned();
    for i in 0..list.len()
        invariant
            wanted@ == s@,
            forall|j: int| 0 <= j < i ==> texts(list@)[j] != s@,
    {
        if list[i] == wanted {
            assert(texts(list@)[i as int] == s@);
            return true;
        }
    }
    false
}

/// Whether a string starts with a prefix.
pub fn starts_with(s: &str, prefix: &str) -> (r: bool)
    ensures
        r == prefix@.is_prefix_of(s@),
{
    let a = chars_of(s);
    let b = chars_of(prefix);
    if b.len() > a.len() {
        return false;
    }
    for i in 0..b.len()
        invariant
            a@ == s@,
            b@ == prefix@,
            b@.len() <= a@.len(),
            forall|j: int| 0 <= j < i ==> a@[j] == b@[j],
    {
        if a[i] != b[i] {
            assert(s@.subrange(0, b@.len() as int)[i as int] != prefix@[i as int]);
            return false;
        }
    }
    assert(s@.subrange(0, b@.len() as int) =~= prefix@);
    true
}

// ---------------------------------------------------------------------------
// Replacement
// ---------------------------------------------------------------------------

/// `s` with every `from` replaced by `to`.
pub open spec fn replaced(s: Seq<char>, from: char, to: Seq<char>) -> Seq<char>
    decreases s.len(),
{
    if s.len() == 0 {
        Seq::empty()
    } else {
        (if s[0] == from { to } else { seq![s[0]] }) + replaced(s.drop_first(), from, to)
    }
}

/// Replaces every occurrence of one character by a string.
pub fn replace(s: &str, from: char, to: &str) -> (r: String)
    ensures
        r@ == replaced(s@, from, to@),
{
    let chars = chars_of(s);
    let mut out: String = String::new();
    assert(chars@.skip(0) =~= s@);
    for i in 0..chars.len()
        invariant
            chars@ == s@,
            replaced(s@, from, to@) == out@ + replaced(chars@.skip(i as int), from, to@),
    {
        let ghost before = out@;
        if chars[i] == from {
            out.append(to);
            assert(out@ =~= before + to@);
        } else {
            out.push(chars[i]);
            assert(out@ =~= before + seq![chars@[i as int]]);
        }
        assert(chars@.skip(i as int).drop_first() =~= chars@.skip(i + 1));
        assert(replaced(s@, from, to@) =~= out@ + replaced(chars@.skip(i + 1), from, to@));
    }
    assert(chars@.skip(chars@.len() as int) =~= Seq::<char>::empty());
    assert(out@ + Seq::<char>::empty() =~= out@);
    out
}

// ---------------------------------------------------------------------------
// Numbers and times
// ---------------------------------------------------------------------------

/// A decimal digit.
pub open spec fn digit(c: char) -> bool {
    '0' <= c <= '9'
}

/// Two digits at `i` of `s` that make a number from `least` to `most`.
pub open spec fn two_digits(s: Seq<char>, i: int, least: int, most: int) -> bool {
    &&& 0 <= i && i + 2 <= s.len()
    &&& digit(s[i])
    &&& digit(s[i + 1])
    &&& least <= (s[i] as int - '0' as int) * 10 + (s[i + 1] as int - '0' as int) <= most
}

/// A year as times show it: four digits, or a plus sign and five digits or more.
pub open spec fn year_form(s: Seq<char>) -> bool {
    &&& s.len() == 4 || (s.len() >= 6 && s[0] == '+')
    &&& forall|i: int|
        (if s.len() == 4 { 0int } else { 1int }) <= i < s.len() ==> digit(#[trigger] s[i])
}

// ---------------------------------------------------------------------------
// White space and trimming
// ---------------------------------------------------------------------------

/// The Unicode `White_Space` property.
pub open spec fn white_space(c: char) -> bool {
    let u = c as u32;
    ||| 0x09 <= u <= 0x0d
    ||| u == 0x20
    ||| u == 0x85
    ||| u == 0xa0
    ||| u == 0x1680
    ||| 0x2000 <= u <= 0x200a
    ||| u == 0x2028
    ||| u == 0x2029
    ||| u == 0x202f
    ||| u == 0x205f
    ||| u == 0x3000
}

/// Whether a character is white space.
pub fn is_white_space(c: char) -> (r: bool)
    ensures
        r == white_space(c),
{
    let u: u32 = c as u32;
    (0x09 <= u && u <= 0x0d) || u == 0x20 || u == 0x85 || u == 0xa0 || u == 0x1680 || (0x2000 <= u
        && u <= 0x200a) || u == 0x2028 || u == 0x2029 || u == 0x202f || u == 0x205f || u == 0x3000
}

/// `s` without its leading white space.
pub open spec fn trimmed_start(s: Seq<char>) -> Seq<char>
    decreases s.len(),
{
    if s.len() > 0 && white_space(s[0]) {
        trimmed_start(s.drop_first())
    } else {
        s
    }
}

/// `s` without its trailing white space.
pub open spec fn trimmed_end(s: Seq<char>) -> Seq<char>
    decreases s.len(),
{
    if s.len() > 0 && white_space(s.last()) {
        trimmed_end(s.drop_last())
    } else {
        s
    }
}

/// `s` without white space at either end.
pub open spec fn trimmed(s: Seq<char>) -> Seq<char> {
    trimmed_end(trimmed_start(s))
}

/// Removes white space from both ends.
pub fn trim(s: &str) -> (r: String)
    ensures
        r@ == trimmed(s@),
{
    let chars = chars_of(s);
    let mut from: usize = 0;
    assert(chars@.skip(0) =~= s@);
    while from < chars.len() && is_white_space(chars[from])
        invariant
            chars@ == s@,
            from <= chars@.len(),
            trimmed_start(s@) == trimmed_start(chars@.skip(from as int)),
        decreases chars@.len() - from,
    {
        assert(chars@.skip(from as int).drop_first() =~= chars@.skip(from + 1));
        from = from + 1;
    }
    let ghost rest = chars@.skip(from as int);
    assert(from < chars@.len() ==> rest[0] == chars@[from as int]);
    assert(trimmed_start(s@) == rest);
    let mut to: usize = chars.len();
    assert(chars@.subrange(from as int, to as int) =~= rest);
    while to > from && is_white_space(chars[to - 1])
        invariant
            chars@ == s@,
            from <= to <= chars@.len(),
            trimmed_end(rest) == trimmed_end(chars@.subrange(from as int, to as int)),
        decreases to - from,
    {
        assert(chars@.subrange(from as int, to as int).drop_last() =~= chars@.subrange(
            from as int,
            to - 1,
        ));
        to = to - 1;
    }
    let ghost kept = chars@.subrange(from as int, to as int);
    assert(to > from ==> kept.last() == chars@[to - 1]);
    string_of(&chars, from, to)
}

/// Trimming leaves text alone that has no white space at its ends.
pub proof fn lemma_trim_keeps(s: Seq<char>)
    requires
        s.len() > 0,
        !white_space(s[0]),
        !white_space(s.last()),
    ensures
        trimmed(s) == s,
{
}

// ---------------------------------------------------------------------------
// Lines
// ---------------------------------------------------------------------------

/// The index of the first line feed, or the length where there is none.
pub open spec fn line_end(s: Seq<char>) -> int
    decreases s.len(),
{
    if s.len() == 0 || s[0] == '\n' {
        0
    } else {
        1 + line_end(s.drop_first())
    }
}

/// A line ends at the first line feed, or with the text.
pub proof fn lemma_line_end(s: Seq<char>)
    ensures
        0 <= line_end(s) <= s.len(),
        forall|i: int| 0 <= i < line_end(s) ==> s[i] != '\n',
        line_end(s) < s.len() ==> s[line_end(s)] == '\n',
    decreases s.len(),
{
    if s.len() > 0 && s[0] != '\n' {
        lemma_line_end(s.drop_first());
        assert forall|i: int| 0 <= i < line_end(s) implies s[i] != '\n' by {
            if i > 0 {
                assert(s.drop_first()[i - 1] != '\n');
            }
        }
    }
}

/// A line without the carriage return that its line feed may carry.
pub open spec fn without_return(line: Seq<char>) -> Seq<char> {
    if line.len() > 0 && line.last() == '\r' {
        line.drop_last()
    } else {
        line
    }
}

/// The lines of a text. A line ends at a line feed, which may carry a carriage
/// return before it; the text after the last line feed is a line of its own
/// where it is not empty.
pub open spec fn lines_of(s: Seq<char>) -> Seq<Seq<char>>
    decreases s.len(),
{
    if s.len() == 0 {
        Seq::empty()
    } else if line_end(s) >= s.len() {
        seq![s]
    } else {
        proof {
            lemma_line_end(s);
        }
        seq![without_return(s.take(line_end(s)))] + lines_of(s.skip(line_end(s) + 1))
    }
}

/// Splits a text into lines.
pub fn lines(s: &str) -> (r: Vec<String>)
    ensures
        texts(r@) == lines_of(s@),
{
    let chars = chars_of(s);
    let mut out: Vec<String> = Vec::new();
    let mut pos: usize = 0;
    assert(chars@.skip(0) =~= s@);
    assert(texts(out@) =~= Seq::<Seq<char>>::empty());
    while pos < chars.len()
        invariant
            chars@ == s@,
            pos <= chars@.len(),
            lines_of(s@) =~= texts(out@) + lines_of(chars@.skip(pos as int)),
        decreases chars@.len() - pos,
    {
        let ghost rest = chars@.skip(pos as int);
        let ghost sofar = texts(out@);
        let mut end: usize = pos;
        assert(chars@.skip(end as int) == rest);
        while end < chars.len() && chars[end] != '\n'
            invariant
                pos <= end <= chars@.len(),
                rest == chars@.skip(pos as int),
                line_end(rest) == (end - pos) + line_end(chars@.skip(end as int)),
            decreases chars@.len() - end,
        {
            assert(chars@.skip(end as int).drop_first() =~= chars@.skip(end + 1));
            end = end + 1;
        }
        assert(line_end(chars@.skip(end as int)) == 0);
        assert(line_end(rest) == end - pos);
        if end == chars.len() {
            out.push(string_of(&chars, pos, end));
            assert(chars@.subrange(pos as int, end as int) =~= rest);
            assert(texts(out@) =~= sofar + seq![rest]);
            assert(chars@.skip(end as int) =~= Seq::<char>::empty());
            pos = end;
        } else {
            let ghost line = chars@.subrange(pos as int, end as int);
            assert(line =~= rest.take(line_end(rest)));
            let stop: usize = if end > pos && chars[end - 1] == '\r' {
                assert(line.last() == '\r');
                end - 1
            } else {
                assert(line.len() > 0 ==> line.last() == chars@[end - 1]);
                end
            };
            out.push(string_of(&chars, pos, stop));
            assert(chars@.subrange(pos as int, stop as int) =~= without_return(line));
            assert(texts(out@) =~= sofar + seq![without_return(line)]);
            assert(rest.skip(line_end(rest) + 1) =~= chars@.skip(end + 1));
            assert(lines_of(rest) == seq![without_return(line)] + lines_of(chars@.skip(end + 1)));
            assert(texts(out@) + lines_of(chars@.skip(end + 1)) =~= sofar + lines_of(rest));
            pos = end + 1;
        }
    }
    assert(chars@.skip(pos as int) =~= Seq::<char>::empty());
    out
}

// ---------------------------------------------------------------------------
// Order
// ---------------------------------------------------------------------------

/// The order of strings: by the first character in which they differ, a proper
/// prefix first.
pub open spec fn before(a: Seq<char>, b: Seq<char>) -> bool
    decreases a.len(),
{
    if b.len() == 0 {
        false
    } else if a.len() == 0 {
        true
    } else if a[0] != b[0] {
        a[0] < b[0]
    } else {
        before(a.drop_first(), b.drop_first())
    }
}

/// No string comes before itself.
pub proof fn lemma_before_irreflexive(a: Seq<char>)
    ensures
        !before(a, a),
    decreases a.len(),
{
    if a.len() > 0 {
        lemma_before_irreflexive(a.drop_first());
    }
}

/// Of two strings that differ, one comes before the other.
pub proof fn lemma_before_total(a: Seq<char>, b: Seq<char>)
    ensures
        a == b || before(a, b) || before(b, a),
    decreases a.len(),
{
    if a.len() == 0 || b.len() == 0 {
        assert(a.len() == b.len() ==> a =~= b);
    } else if a[0] == b[0] {
        lemma_before_total(a.drop_first(), b.drop_first());
        if a.drop_first() == b.drop_first() {
            assert(a =~= seq![a[0]] + a.drop_first());
            assert(b =~= seq![b[0]] + b.drop_first());
        }
    }
}

/// The order of strings is transitive.
pub proof fn lemma_before_transitive(a: Seq<char>, b: Seq<char>, c: Seq<char>)
    requires
        before(a, b),
        before(b, c),
    ensures
        before(a, c),
    decreases a.len(),
{
    if a.len() > 0 && b.len() > 0 && c.len() > 0 && a[0] == b[0] && b[0] == c[0] {
        lemma_before_transitive(a.drop_first(), b.drop_first(), c.drop_first());
    }
}

/// Whether one string comes before another.
pub fn is_before(a: &str, b: &str) -> (r: bool)
    ensures
        r == before(a@, b@),
{
    let x = chars_of(a);
    let y = chars_of(b);
    let mut i: usize = 0;
    assert(x@.skip(0) =~= a@);
    assert(y@.skip(0) =~= b@);
    while i < x.len() && i < y.len()
        invariant
            i <= x@.len(),
            i <= y@.len(),
            before(a@, b@) == before(x@.skip(i as int), y@.skip(i as int)),
        decreases x@.len() - i,
    {
        if x[i] != y[i] {
            return x[i] < y[i];
        }
        assert(x@.skip(i as int).drop_first() =~= x@.skip(i + 1));
        assert(y@.skip(i as int).drop_first() =~= y@.skip(i + 1));
        i = i + 1;
    }
    i < y.len()
}

/// No string of the list comes before an earlier one.
pub open spec fn in_order(list: Seq<Seq<char>>) -> bool {
    forall|i: int, j: int| 0 <= i < j < list.len() ==> !before(list[j], list[i])
}

/// Each string of the list comes before all later ones.
pub open spec fn strictly_in_order(list: Seq<Seq<char>>) -> bool {
    forall|i: int, j: int| 0 <= i < j < list.len() ==> before(list[i], list[j])
}

/// `r` holds what `list` holds, in order.
pub open spec fn sorting(r: Seq<Seq<char>>, list: Seq<Seq<char>>) -> bool {
    &&& in_order(r)
    &&& r.to_multiset() == list.to_multiset()
}

/// What a list holds, in order.
pub open spec fn sorted(list: Seq<Seq<char>>) -> Seq<Seq<char>> {
    choose|r: Seq<Seq<char>>| sorting(r, list)
}

/// A sorting holds what the list holds.
pub proof fn lemma_sorting_holds_same(r: Seq<Seq<char>>, list: Seq<Seq<char>>, s: Seq<char>)
    requires
        sorting(r, list),
    ensures
        r.contains(s) <==> list.contains(s),
{
    assert(r.contains(s) <==> r.to_multiset().count(s) > 0);
    assert(list.contains(s) <==> list.to_multiset().count(s) > 0);
}

/// There is one sorting of a list, so `sorting` fixes its result.
pub proof fn lemma_sorting_unique(a: Seq<Seq<char>>, b: Seq<Seq<char>>)
    requires
        in_order(a),
        in_order(b),
        a.to_multiset() == b.to_multiset(),
    ensures
        a == b,
    decreases a.len(),
{
    assert(a.len() == a.to_multiset().len());
    assert(b.len() == b.to_multiset().len());
    if a.len() > 0 {
        let x = a[0];
        let y = b[0];
        assert(a.contains(x));
        assert(b.contains(y));
        assert(b.to_multiset().count(x) > 0);
        assert(a.to_multiset().count(y) > 0);
        let i = choose|i: int| 0 <= i < b.len() && b[i] == x;
        let j = choose|j: int| 0 <= j < a.len() && a[j] == y;
        assert(!before(x, y)) by {
            if i == 0 {
                lemma_before_irreflexive(x);
            }
        }
        assert(!before(y, x)) by {
            if j == 0 {
                lemma_before_irreflexive(x);
            }
        }
        lemma_before_total(x, y);
        assert(a.remove(0) =~= a.drop_first());
        assert(b.remove(0) =~= b.drop_first());
        assert forall|i: int, j: int| 0 <= i < j < a.drop_first().len() implies !before(
            a.drop_first()[j],
            a.drop_first()[i],
        ) by {
            assert(!before(a[j + 1], a[i + 1]));
        }
        assert forall|i: int, j: int| 0 <= i < j < b.drop_first().len() implies !before(
            b.drop_first()[j],
            b.drop_first()[i],
        ) by {
            assert(!before(b[j + 1], b[i + 1]));
        }
        lemma_sorting_unique(a.drop_first(), b.drop_first());
        assert(a =~= seq![x] + a.drop_first());
        assert(b =~= seq![y] + b.drop_first());
    } else {
        assert(a =~= b);
    }
}

/// Every list has a sorting, so `sorted` holds what the list holds, in order.
pub proof fn lemma_sorting_exists(list: Seq<Seq<char>>)
    ensures
        sorting(sorted(list), list),
{
    let r = lemma_sorting_witness(list);
    assert(sorting(r, list));
}

proof fn lemma_sorting_witness(list: Seq<Seq<char>>) -> (r: Seq<Seq<char>>)
    ensures
        sorting(r, list),
    decreases list.len(),
{
    if list.len() == 0 {
        assert(sorting(list, list));
        list
    } else {
        let s = list.last();
        let rest = list.drop_last();
        let done = lemma_sorting_witness(rest);
        let at = lemma_sorting_place(done, s);
        let now = done.insert(at, s);
        lemma_inserted_in_order(done, at, s);
        assert(list =~= rest.push(s));
        now
    }
}

/// Where a string goes in a list that is in order.
proof fn lemma_sorting_place(r: Seq<Seq<char>>, s: Seq<char>) -> (at: int)
    requires
        in_order(r),
    ensures
        0 <= at <= r.len(),
        forall|i: int| 0 <= i < at ==> !before(s, #[trigger] r[i]),
        forall|i: int| at <= i < r.len() ==> before(s, #[trigger] r[i]),
    decreases r.len(),
{
    if r.len() == 0 {
        0
    } else {
        let l = r.last();
        let q = r.drop_last();
        assert(r[r.len() - 1] == l);
        if before(s, l) {
            assert forall|i: int, j: int| 0 <= i < j < q.len() implies !before(q[j], q[i]) by {
                assert(!before(r[j], r[i]));
            }
            let at = lemma_sorting_place(q, s);
            assert forall|i: int| 0 <= i < at implies !before(s, #[trigger] r[i]) by {
                assert(q[i] == r[i]);
            }
            assert forall|i: int| at <= i < r.len() implies before(s, #[trigger] r[i]) by {
                if i < q.len() {
                    assert(q[i] == r[i]);
                }
            }
            at
        } else {
            assert forall|i: int| 0 <= i < r.len() implies !before(s, #[trigger] r[i]) by {
                if i < r.len() - 1 && before(s, r[i]) {
                    assert(!before(r[r.len() - 1], r[i]));
                    lemma_before_total(r[i], l);
                    if before(r[i], l) {
                        lemma_before_transitive(s, r[i], l);
                    }
                }
            }
            r.len() as int
        }
    }
}

/// A list that is in order stays so with a string put in its place.
proof fn lemma_inserted_in_order(done: Seq<Seq<char>>, at: int, s: Seq<char>)
    requires
        in_order(done),
        0 <= at <= done.len(),
        forall|i: int| 0 <= i < at ==> !before(s, #[trigger] done[i]),
        forall|i: int| at <= i < done.len() ==> before(s, #[trigger] done[i]),
    ensures
        in_order(done.insert(at, s)),
{
    let now = done.insert(at, s);
    assert forall|i: int, j: int| 0 <= i < j < now.len() implies !before(now[j], now[i]) by {
        if j == at {
            assert(now[i] == done[i]);
        } else if i == at {
            assert(now[j] == done[j - 1]);
            if before(now[j], s) {
                lemma_before_transitive(now[j], s, now[j]);
                lemma_before_irreflexive(now[j]);
            }
        } else {
            let i0 = if i < at { i } else { i - 1 };
            let j0 = if j < at { j } else { j - 1 };
            assert(!before(done[j0], done[i0]));
        }
    }
}

/// Where a string goes in a list that is in order: behind all that do not come
/// after it.
fn place_of(list: &Vec<String>, s: &str) -> (at: usize)
    requires
        in_order(texts(list@)),
    ensures
        at <= list@.len(),
        forall|i: int| 0 <= i < at ==> !before(s@, #[trigger] texts(list@)[i]),
        forall|i: int| at <= i < list@.len() ==> before(s@, #[trigger] texts(list@)[i]),
{
    let mut at: usize = 0;
    while at < list.len() && !is_before(s, list[at].as_str())
        invariant
            at <= list@.len(),
            forall|i: int| 0 <= i < at ==> !before(s@, #[trigger] texts(list@)[i]),
        decreases list@.len() - at,
    {
        at = at + 1;
    }
    proof {
        assert forall|i: int| at <= i < list@.len() implies before(
            s@,
            #[trigger] texts(list@)[i],
        ) by {
            if i > at {
                let x = texts(list@)[at as int];
                let y = texts(list@)[i];
                assert(!before(y, x));
                lemma_before_total(x, y);
                if before(x, y) {
                    lemma_before_transitive(s@, x, y);
                }
            }
        }
    }
    at
}

/// Sorts a list of strings.
pub fn sort(list: Vec<String>) -> (r: Vec<String>)
    ensures
        sorting(texts(r@), texts(list@)),
        texts(r@) == sorted(texts(list@)),
{
    let mut out: Vec<String> = Vec::new();
    assert(texts(out@) =~= texts(list@.take(0)));
    for k in 0..list.len()
        invariant
            sorting(texts(out@), texts(list@.take(k as int))),
    {
        let ghost done = texts(out@);
        let s = list[k].clone();
        let at = place_of(&out, s.as_str());
        out.insert(at, s);
        proof {
            assert(texts(out@) =~= done.insert(at as int, s@));
            assert(texts(list@.take(k + 1)) =~= texts(list@.take(k as int)).push(s@));
            lemma_inserted_in_order(done, at as int, s@);
        }
    }
    assert(list@.take(list@.len() as int) =~= list@);
    proof {
        lemma_sorting_exists(texts(list@));
        lemma_sorting_unique(texts(out@), sorted(texts(list@)));
    }
    out
}

/// `r` holds each string that `list` holds, once, in order.
pub open spec fn distinct_sorting(r: Seq<Seq<char>>, list: Seq<Seq<char>>) -> bool {
    &&& strictly_in_order(r)
    &&& forall|s: Seq<char>| r.contains(s) <==> list.contains(s)
}

/// Each string that a list holds, once, in order.
pub open spec fn sorted_distinct(list: Seq<Seq<char>>) -> Seq<Seq<char>> {
    choose|r: Seq<Seq<char>>| distinct_sorting(r, list)
}

/// There is one distinct sorting of a list.
pub proof fn lemma_distinct_sorting_unique(
    a: Seq<Seq<char>>,
    b: Seq<Seq<char>>,
    list: Seq<Seq<char>>,
)
    requires
        distinct_sorting(a, list),
        distinct_sorting(b, list),
    ensures
        a == b,
{
    assert forall|s: Seq<char>| a.contains(s) <==> b.contains(s) by {
        assert(a.contains(s) <==> list.contains(s));
    }
    lemma_strictly_in_order_unique(a, b);
}

proof fn lemma_strictly_in_order_unique(a: Seq<Seq<char>>, b: Seq<Seq<char>>)
    requires
        strictly_in_order(a),
        strictly_in_order(b),
        forall|s: Seq<char>| a.contains(s) <==> b.contains(s),
    ensures
        a == b,
    decreases a.len(),
{
    if a.len() == 0 {
        if b.len() > 0 {
            assert(b.contains(b[0]));
        }
        assert(a =~= b);
    } else {
        assert(a.contains(a[0]));
        assert(b.len() > 0);
        assert(b.contains(b[0]));
        let i = choose|i: int| 0 <= i < b.len() && b[i] == a[0];
        let j = choose|j: int| 0 <= j < a.len() && a[j] == b[0];
        if i > 0 && j > 0 {
            assert(before(b[0], b[i]));
            assert(before(a[0], a[j]));
            lemma_before_transitive(a[0], b[0], a[0]);
            lemma_before_irreflexive(a[0]);
        }
        assert(a[0] == b[0]);
        let x = a.drop_first();
        let y = b.drop_first();
        assert forall|i: int, j: int| 0 <= i < j < x.len() implies before(x[i], x[j]) by {
            assert(before(a[i + 1], a[j + 1]));
        }
        assert forall|i: int, j: int| 0 <= i < j < y.len() implies before(y[i], y[j]) by {
            assert(before(b[i + 1], b[j + 1]));
        }
        assert forall|s: Seq<char>| x.contains(s) <==> y.contains(s) by {
            if x.contains(s) {
                let k = choose|k: int| 0 <= k < x.len() && x[k] == s;
                assert(a[k + 1] == s);
                assert(a.contains(s));
                assert(before(a[0], a[k + 1]));
                let m = choose|m: int| 0 <= m < b.len() && b[m] == s;
                if m == 0 {
                    lemma_before_irreflexive(s);
                }
                assert(y[m - 1] == s);
            }
            if y.contains(s) {
                let k = choose|k: int| 0 <= k < y.len() && y[k] == s;
                assert(b[k + 1] == s);
                assert(b.contains(s));
                assert(before(b[0], b[k + 1]));
                let m = choose|m: int| 0 <= m < a.len() && a[m] == s;
                if m == 0 {
                    lemma_before_irreflexive(s);
                }
                assert(x[m - 1] == s);
            }
        }
        lemma_strictly_in_order_unique(x, y);
        assert(a =~= seq![a[0]] + x);
        assert(b =~= seq![b[0]] + y);
    }
}

/// Sorts a list of strings and drops repetitions.
pub fn sort_distinct(list: Vec<String>) -> (r: Vec<String>)
    ensures
        distinct_sorting(texts(r@), texts(list@)),
        texts(r@) == sorted_distinct(texts(list@)),
{
    let ghost given = texts(list@);
    let all = sort(list);
    let ghost run = texts(all@);
    let mut out: Vec<String> = Vec::new();
    for k in 0..all.len()
        invariant
            run == texts(all@),
            in_order(run),
            strictly_in_order(texts(out@)),
            forall|s: Seq<char>| texts(out@).contains(s) <==> run.take(k as int).contains(s),
            k > 0 ==> out@.len() > 0 && texts(out@).last() == run[k - 1],
    {
        let s = all[k].clone();
        let ghost done = texts(out@);
        assert(run[k as int] == s@);
        let ghost more = run.take(k + 1);
        let ghost part = run.take(k as int);
        assert(more =~= part.push(s@));
        if out.len() > 0 && is_last(&out, s.as_str()) {
            assert(done.contains(s@)) by {
                assert(done[done.len() - 1] == s@);
            }
            assert forall|x: Seq<char>| done.contains(x) <==> more.contains(x) by {
                if more.contains(x) {
                    let m = choose|m: int| 0 <= m <= k && more[m] == x;
                    if m < k {
                        assert(part[m] == x);
                    }
                }
                if done.contains(x) {
                    assert(part.contains(x));
                    let m = choose|m: int| 0 <= m < k && part[m] == x;
                    assert(more[m] == x);
                }
            }
        } else {
            out.push(s);
            proof {
                let now = texts(out@);
                assert(now =~= done.push(s@));
                assert(k == 0 ==> done.len() == 0) by {
                    if k == 0 && done.len() > 0 {
                        assert(done.contains(done[0]));
                        assert(run.take(0).contains(done[0]));
                    }
                }
                assert forall|i: int, j: int| 0 <= i < j < now.len() implies before(
                    now[i],
                    now[j],
                ) by {
                    if j == done.len() {
                        let l = done.last();
                        assert(!before(run[k as int], run[k - 1]));
                        lemma_before_total(l, s@);
                        if i < done.len() - 1 {
                            assert(before(done[i], done[done.len() - 1]));
                            lemma_before_transitive(done[i], l, s@);
                        }
                    } else {
                        assert(before(done[i], done[j]));
                    }
                }
                assert forall|x: Seq<char>| now.contains(x) <==> more.contains(x) by {
                    if now.contains(x) {
                        let m = choose|m: int| 0 <= m < now.len() && now[m] == x;
                        if m < done.len() {
                            assert(done[m] == x);
                            assert(done.contains(x));
                            assert(part.contains(x));
                            let n = choose|n: int| 0 <= n < k && part[n] == x;
                            assert(more[n] == x);
                        } else {
                            assert(more[k as int] == x);
                        }
                    }
                    if more.contains(x) {
                        let m = choose|m: int| 0 <= m <= k && more[m] == x;
                        if m < k {
                            assert(part[m] == x);
                            assert(done.contains(x));
                            let n = choose|n: int| 0 <= n < done.len() && done[n] == x;
                            assert(now[n] == x);
                        } else {
                            assert(now[done.len() as int] == x);
                        }
                    }
                }
            }
        }
    }
    proof {
        assert(run.take(run.len() as int) =~= run);
        assert forall|s: Seq<char>| texts(out@).contains(s) <==> given.contains(s) by {
            assert(run.contains(s) <==> run.to_multiset().count(s) > 0);
            assert(given.contains(s) <==> given.to_multiset().count(s) > 0);
        }
        assert(distinct_sorting(texts(out@), given));
        lemma_distinct_sorting_exists(given);
        lemma_distinct_sorting_unique(texts(out@), sorted_distinct(given), given);
    }
    out
}

fn is_last(list: &Vec<String>, s: &str) -> (r: bool)
    requires
        list@.len() > 0,
    ensures
        r == (texts(list@).last() == s@),
{
    same(list[list.len() - 1].as_str(), s)
}

/// Every list has a distinct sorting.
pub proof fn lemma_distinct_sorting_exists(list: Seq<Seq<char>>)
    ensures
        distinct_sorting(sorted_distinct(list), list),
{
    let r = lemma_distinct_sorting_witness(list);
    assert(distinct_sorting(r, list));
}

proof fn lemma_distinct_sorting_witness(list: Seq<Seq<char>>) -> (r: Seq<Seq<char>>)
    ensures
        distinct_sorting(r, list),
    decreases list.len(),
{
    if list.len() == 0 {
        assert(distinct_sorting(list, list));
        list
    } else {
        let s = list.last();
        let rest = list.drop_last();
        let r = lemma_distinct_sorting_witness(rest);
        assert forall|x: Seq<char>| list.contains(x) <==> rest.contains(x) || x == s by {
            if list.contains(x) {
                let i = choose|i: int| 0 <= i < list.len() && list[i] == x;
                if i < rest.len() {
                    assert(rest[i] == x);
                }
            }
            if rest.contains(x) {
                let i = choose|i: int| 0 <= i < rest.len() && rest[i] == x;
                assert(list[i] == x);
            }
            assert(list[list.len() - 1] == s);
        }
        if r.contains(s) {
            assert forall|x: Seq<char>| r.contains(x) <==> list.contains(x) by {
                assert(r.contains(x) <==> rest.contains(x));
            }
            r
        } else {
            let at = lemma_place(r, s);
            let now = r.insert(at, s);
            assert forall|i: int, j: int| 0 <= i < j < now.len() implies before(
                now[i],
                now[j],
            ) by {
                if j == at {
                    assert(now[i] == r[i]);
                } else if i == at {
                    assert(now[j] == r[j - 1]);
                } else {
                    let i0 = if i < at { i } else { i - 1 };
                    let j0 = if j < at { j } else { j - 1 };
                    assert(before(r[i0], r[j0]));
                }
            }
            assert forall|x: Seq<char>| now.contains(x) <==> list.contains(x) by {
                assert(r.contains(x) <==> rest.contains(x));
                if now.contains(x) {
                    let i = choose|i: int| 0 <= i < now.len() && now[i] == x;
                    if i < at {
                        assert(r[i] == x);
                    } else if i > at {
                        assert(r[i - 1] == x);
                    }
                }
                if r.contains(x) {
                    let i = choose|i: int| 0 <= i < r.len() && r[i] == x;
                    if i < at {
                        assert(now[i] == x);
                    } else {
                        assert(now[i + 1] == x);
                    }
                }
                assert(now[at] == s);
            }
            now
        }
    }
}

proof fn lemma_place(r: Seq<Seq<char>>, s: Seq<char>) -> (at: int)
    requires
        strictly_in_order(r),
        !r.contains(s),
    ensures
        0 <= at <= r.len(),
        forall|i: int| 0 <= i < at ==> before(#[trigger] r[i], s),
        forall|i: int| at <= i < r.len() ==> before(s, #[trigger] r[i]),
    decreases r.len(),
{
    if r.len() == 0 {
        0
    } else {
        let l = r.last();
        assert(r[r.len() - 1] == l);
        lemma_before_total(l, s);
        if before(l, s) {
            assert forall|i: int| 0 <= i < r.len() implies before(#[trigger] r[i], s) by {
                if i < r.len() - 1 {
                    assert(before(r[i], r[r.len() - 1]));
                    lemma_before_transitive(r[i], l, s);
                }
            }
            r.len() as int
        } else {
            let q = r.drop_last();
            assert forall|i: int, j: int| 0 <= i < j < q.len() implies before(q[i], q[j]) by {
                assert(before(r[i], r[j]));
            }
            assert(!q.contains(s)) by {
                if q.contains(s) {
                    let i = choose|i: int| 0 <= i < q.len() && q[i] == s;
                    assert(r[i] == s);
                }
            }
            let at = lemma_place(q, s);
            assert forall|i: int| 0 <= i < at implies before(#[trigger] r[i], s) by {
                assert(q[i] == r[i]);
            }
            assert forall|i: int| at <= i < r.len() implies before(s, #[trigger] r[i]) by {
                if i < q.len() {
                    assert(q[i] == r[i]);
                }
            }
            at
        }
    }
}

// ---------------------------------------------------------------------------
// What the operations on text come to
// ---------------------------------------------------------------------------

/// The characters of a list of strings are those of each, one for one.
pub proof fn lemma_texts(v: Seq<String>)
    ensures
        texts(v).len() == v.len(),
        forall|i: int| 0 <= i < v.len() ==> #[trigger] texts(v)[i] == v[i]@,
{
}

/// Replacing goes character by character: the replacement of a text is that of its
/// pieces, a character that is looked for becomes the new text, and every other
/// stays.
pub proof fn lemma_replace_by_character(a: Seq<char>, b: Seq<char>, from: char, to: Seq<char>)
    ensures
        replaced(a + b, from, to) == replaced(a, from, to) + replaced(b, from, to),
        replaced(Seq::empty(), from, to) == Seq::<char>::empty(),
        replaced(seq![from], from, to) == to,
        forall|c: char| c != from ==> #[trigger] replaced(seq![c], from, to) == seq![c],
    decreases a.len(),
{
    assert forall|c: char| #[trigger] replaced(seq![c], from, to) == if c == from {
        to
    } else {
        seq![c]
    } by {
        assert(seq![c].drop_first() =~= Seq::<char>::empty());
        assert(replaced(seq![c].drop_first(), from, to) =~= Seq::<char>::empty());
        assert(replaced(seq![c], from, to) =~= if c == from {
            to
        } else {
            seq![c]
        });
    }
    if a.len() == 0 {
        assert(a + b =~= b);
        assert(replaced(a + b, from, to) =~= replaced(a, from, to) + replaced(b, from, to));
    } else {
        lemma_replace_by_character(a.drop_first(), b, from, to);
        assert((a + b).drop_first() =~= a.drop_first() + b);
        assert(replaced(a + b, from, to) =~= replaced(a, from, to) + replaced(b, from, to));
    }
}

/// Trimming cuts out the stretch of a text that has white space only around it and
/// none at its own ends.
pub proof fn lemma_trim_cuts_ends(s: Seq<char>)
    ensures
        exists|i: int, j: int|
            0 <= i <= j <= s.len() && trimmed(s) == #[trigger] s.subrange(i, j) && (forall|k: int|
                0 <= k < i || j <= k < s.len() ==> white_space(#[trigger] s[k])) && (i < j
                ==> !white_space(s[i]) && !white_space(s[j - 1])),
        trimmed(s).len() == 0 <==> forall|k: int| 0 <= k < s.len() ==> white_space(#[trigger] s[k]),
{
    let i = lemma_trim_start(s);
    let rest = s.skip(i);
    let j = lemma_trim_end(rest);
    assert(rest.take(j) =~= s.subrange(i, i + j));
    assert forall|k: int| 0 <= k < i || i + j <= k < s.len() implies white_space(
        #[trigger] s[k],
    ) by {
        if i + j <= k {
            assert(rest[k - i] == s[k]);
        }
    }
    if j > 0 {
        assert(rest[0] == s[i]);
        assert(rest[j - 1] == s[i + j - 1]);
    }
    if trimmed(s).len() != 0 {
        assert(!white_space(s[i]));
    }
}

proof fn lemma_trim_start(s: Seq<char>) -> (i: int)
    ensures
        0 <= i <= s.len(),
        trimmed_start(s) == s.skip(i),
        forall|k: int| 0 <= k < i ==> white_space(#[trigger] s[k]),
        i < s.len() ==> !white_space(s[i]),
    decreases s.len(),
{
    if s.len() > 0 && white_space(s[0]) {
        let i = lemma_trim_start(s.drop_first());
        assert(s.drop_first().skip(i) =~= s.skip(i + 1));
        assert forall|k: int| 0 <= k < i + 1 implies white_space(#[trigger] s[k]) by {
            if k > 0 {
                assert(s.drop_first()[k - 1] == s[k]);
            }
        }
        if i < s.drop_first().len() {
            assert(s.drop_first()[i] == s[i + 1]);
        }
        i + 1
    } else {
        assert(s.skip(0) =~= s);
        0
    }
}

/// As `lemma_trim_start`, at the end: the rest has no white space at its start.
proof fn lemma_trim_end(s: Seq<char>) -> (j: int)
    requires
        s.len() > 0 ==> !white_space(s[0]),
    ensures
        0 <= j <= s.len(),
        trimmed_end(s) == s.take(j),
        forall|k: int| j <= k < s.len() ==> white_space(#[trigger] s[k]),
        j > 0 ==> !white_space(s[0]) && !white_space(s[j - 1]),
        s.len() > 0 ==> j > 0,
    decreases s.len(),
{
    if s.len() > 0 && white_space(s.last()) {
        let t = s.drop_last();
        assert(t.len() > 0 ==> t[0] == s[0]);
        let j = lemma_trim_end(t);
        assert(t.take(j) =~= s.take(j));
        assert forall|k: int| j <= k < s.len() implies white_space(#[trigger] s[k]) by {
            if k < t.len() {
                assert(t[k] == s[k]);
            }
        }
        if j > 0 {
            assert(t[j - 1] == s[j - 1]);
        }
        j
    } else {
        assert(s.take(s.len() as int) =~= s);
        s.len() as int
    }
}

/// How a text falls into lines: a stretch without a line feed, then a line feed, is
/// a line, before the lines of the rest; a carriage return before the line feed
/// goes with it; and what follows the last line feed is a line if it is anything.
pub proof fn lemma_lines(line: Seq<char>, rest: Seq<char>)
    requires
        !line.contains('\n'),
    ensures
        line.len() == 0 || line.last() != '\r' ==> lines_of(line + seq!['\n'] + rest) == seq![line]
            + lines_of(rest),
        lines_of(line + seq!['\r', '\n'] + rest) == seq![line] + lines_of(rest),
        line.len() > 0 ==> lines_of(line) == seq![line],
        lines_of(Seq::empty()) == Seq::<Seq<char>>::empty(),
{
    let n = line.len() as int;
    let s = line + seq!['\n'] + rest;
    lemma_line_end(s);
    assert forall|i: int| 0 <= i < n implies line[i] != '\n' by {
        assert(line.contains(line[i]));
    }
    assert(s[n] == '\n');
    assert(line_end(s) == n) by {
        if line_end(s) < n {
            assert(s[line_end(s)] == line[line_end(s)]);
        }
    }
    assert(s.take(n) =~= line);
    assert(s.skip(n + 1) =~= rest);
    let t = line + seq!['\r', '\n'] + rest;
    lemma_line_end(t);
    assert(t[n] == '\r' && t[n + 1] == '\n');
    assert(line_end(t) == n + 1) by {
        if line_end(t) < n {
            assert(t[line_end(t)] == line[line_end(t)]);
        }
    }
    assert(t.take(n + 1) =~= line.push('\r'));
    assert(t.take(n + 1).drop_last() =~= line);
    assert(t.skip(n + 2) =~= rest);
    lemma_line_end(line);
    if line_end(line) < n {
        assert(line[line_end(line)] != '\n');
    }
}

/// The order of strings: the first character in which two differ decides, by code
/// point, whatever follows; and a string comes before every longer one that starts
/// with it.
pub proof fn lemma_before_by_first_difference(
    start: Seq<char>,
    a: char,
    b: char,
    x: Seq<char>,
    y: Seq<char>,
)
    ensures
        (a as u32) < (b as u32) ==> before(start + seq![a] + x, start + seq![b] + y) && !before(
            start + seq![b] + y,
            start + seq![a] + x,
        ),
        before(start, start + seq![b] + y),
        !before(start + seq![b] + y, start),
    decreases start.len(),
{
    let p = start + seq![a] + x;
    let q = start + seq![b] + y;
    if start.len() > 0 {
        let rest = start.drop_first();
        lemma_before_by_first_difference(rest, a, b, x, y);
        assert(p.drop_first() =~= rest + seq![a] + x);
        assert(q.drop_first() =~= rest + seq![b] + y);
    }
}

/// What sorting comes to: the same strings as often as before, none before an
/// earlier one.
pub proof fn lemma_sorted(list: Seq<Seq<char>>)
    ensures
        sorted(list).len() == list.len(),
        sorted(list).to_multiset() == list.to_multiset(),
        forall|s: Seq<char>| #[trigger] sorted(list).contains(s) <==> list.contains(s),
        forall|i: int, j: int|
            0 <= i < j < list.len() ==> !before(#[trigger] sorted(list)[j], #[trigger] sorted(list)[i]),
{
    lemma_sorting_exists(list);
    assert(sorted(list).len() == sorted(list).to_multiset().len());
    assert(list.len() == list.to_multiset().len());
    assert forall|s: Seq<char>| #[trigger] sorted(list).contains(s) <==> list.contains(s) by {
        lemma_sorting_holds_same(sorted(list), list, s);
    }
}

/// What distinct sorting comes to: the same strings, each before all later ones.
pub proof fn lemma_sorted_distinct(list: Seq<Seq<char>>)
    ensures
        forall|s: Seq<char>| #[trigger] sorted_distinct(list).contains(s) <==> list.contains(s),
        forall|i: int, j: int|
            0 <= i < j < sorted_distinct(list).len() ==> before(
                #[trigger] sorted_distinct(list)[i],
                #[trigger] sorted_distinct(list)[j],
            ),
{
    lemma_distinct_sorting_exists(list);
}

/// Texts are joined with the separator between each two of them and nowhere else.
pub proof fn lemma_separated(list: Seq<Seq<char>>, last: Seq<char>, by: Seq<char>)
    ensures
        separated(list.push(last), by) == if list.len() == 0 {
            last
        } else {
            separated(list, by) + by + last
        },
        separated(Seq::empty(), by) == Seq::<char>::empty(),
{
    assert(list.push(last).drop_last() =~= list);
}

/// Bytes are shown as the text that they encode, wherever they encode one.
pub proof fn lemma_lossy_text(s: Seq<char>)
    ensures
        lossy_text(encode_utf8(s)) == s,
{
    vstd::utf8::encode_utf8_valid_utf8(s);
    vstd::utf8::encode_utf8_decode_utf8(s);
}

/// The `{:?}` form of a list names each string in it, in order, between brackets and
/// with commas between.
pub proof fn lemma_quoted_list(list: Seq<Seq<char>>, last: Seq<char>)
    ensures
        quoted_list(Seq::empty()) == "["@ + "]"@,
        quoted_list(seq![last]) == "["@ + quoted(last) + "]"@,
        list.len() > 0 ==> quoted_list(list.push(last)) == quoted_list(list).drop_last() + ", "@
            + quoted(last) + "]"@,
{
    reveal_strlit("[");
    reveal_strlit("]");
    let form = |s: Seq<char>| quoted(s);
    let none = Seq::<Seq<char>>::empty();
    assert(none.map_values(form) =~= none);
    assert(quoted_list(none) =~= "["@ + "]"@);
    assert(seq![last].map_values(form) =~= seq![quoted(last)]);
    assert(quoted_list(seq![last]) =~= "["@ + quoted(last) + "]"@);
    if list.len() > 0 {
        assert(list.push(last).map_values(form) =~= list.map_values(form).push(quoted(last)));
        lemma_separated(list.map_values(form), quoted(last), ", "@);
        assert(quoted_list(list).drop_last() =~= "["@ + separated(list.map_values(form), ", "@));
        assert(quoted_list(list.push(last)) =~= quoted_list(list).drop_last() + ", "@ + quoted(last)
            + "]"@);
    }
}

} // verus!
