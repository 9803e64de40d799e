//! Text: the few string operations that the rest of the library is built on.

use vstd::prelude::*;
use vstd::string::StringExecFns;

verus! {

/// `String::push` appends one character.
pub assume_specification[ String::push ](s: &mut String, c: char)
    ensures
        final(s)@ == old(s)@.push(c),
;

pub open spec fn starts_with(s: Seq<char>, prefix: Seq<char>) -> bool {
    prefix.len() <= s.len() && s.take(prefix.len() as int) == prefix
}

pub open spec fn ends_with(s: Seq<char>, suffix: Seq<char>) -> bool {
    suffix.len() <= s.len() && s.skip(s.len() - suffix.len()) == suffix
}

/// The parts of `parts`, in order, with `separator` between neighbours.
pub open spec fn joined(parts: Seq<Seq<char>>, separator: Seq<char>) -> Seq<char>
    decreases parts.len(),
{
    if parts.len() == 0 {
        Seq::empty()
    } else if parts.len() == 1 {
        parts[0]
    } else {
        joined(parts.drop_last(), separator) + separator + parts.last()
    }
}

/// What stands between the separators of `s`, in order; one part more than there
/// are separators.
pub open spec fn split(s: Seq<char>, separator: char) -> Seq<Seq<char>>
    decreases s.len(),
{
    if s.len() == 0 {
        seq![Seq::empty()]
    } else {
        let before = split(s.drop_last(), separator);
        if s.last() == separator {
            before.push(Seq::empty())
        } else {
            before.drop_last().push(before.last().push(s.last()))
        }
    }
}

pub open spec fn digit(d: nat) -> char {
    (48 + d) as char
}

/// The decimal digits of `n`, without leading zeros.
pub open spec fn decimal(n: nat) -> Seq<char>
    decreases n,
{
    if n < 10 {
        seq![digit(n)]
    } else {
        decimal(n / 10).push(digit(n % 10))
    }
}

/// Where `needle` first begins in `s`.
pub open spec fn first_occurrence(s: Seq<char>, needle: Seq<char>) -> Option<int>
    decreases s.len(),
{
    if starts_with(s, needle) {
        Some(0)
    } else if s.len() == 0 {
        None
    } else {
        match first_occurrence(s.drop_first(), needle) {
            Some(i) => Some(i + 1),
            None => None,
        }
    }
}

/// Whether `needle` stands in `s` at `i`.
pub open spec fn occurs_at(s: Seq<char>, needle: Seq<char>, i: int) -> bool {
    0 <= i && i + needle.len() <= s.len() && s.subrange(i, i + needle.len()) == needle
}

/// Whether `needle` stands in `s`.
pub open spec fn occurs(s: Seq<char>, needle: Seq<char>) -> bool {
    exists|i: int| occurs_at(s, needle, i)
}

/// A name between double braces.
pub open spec fn is_placeholder(p: Seq<char>) -> bool {
    &&& p.len() >= 4
    &&& p[0] == '{' && p[1] == '{'
    &&& p[p.len() - 2] == '}' && p[p.len() - 1] == '}'
    &&& forall|k: int| 2 <= k < p.len() - 2 ==> (#[trigger] p[k]) != '{' && p[k] != '}'
}

/// `s` with the first occurrence of `needle` replaced by `value`; `s` itself where
/// there is none.
pub open spec fn replaced_first(s: Seq<char>, needle: Seq<char>, value: Seq<char>) -> Seq<char> {
    match first_occurrence(s, needle) {
        Some(i) => s.take(i) + value + s.skip(i + needle.len()),
        None => s,
    }
}

pub open spec fn ascii_lower(c: char) -> char {
    if 'A' <= c && c <= 'Z' {
        (c as u32 + 32) as char
    } else {
        c
    }
}

pub open spec fn ascii_lowered(s: Seq<char>) -> Seq<char> {
    s.map_values(|c: char| ascii_lower(c))
}

/// `s` without the endings `suffix` that it has, however many.
pub open spec fn without_suffixes(s: Seq<char>, suffix: Seq<char>) -> Seq<char>
    decreases s.len(),
{
    if suffix.len() > 0 && ends_with(s, suffix) {
        without_suffixes(s.take(s.len() - suffix.len()), suffix)
    } else {
        s
    }
}

/// The characters of Unicode's `White_Space` property.
pub open spec fn white_space(c: char) -> bool {
    ||| '\u{9}' <= c && c <= '\u{d}'
    ||| c == ' '
    ||| c == '\u{85}'
    ||| c == '\u{a0}'
    ||| c == '\u{1680}'
    ||| '\u{2000}' <= c && c <= '\u{200a}'
    ||| c == '\u{2028}'
    ||| c == '\u{2029}'
    ||| c == '\u{202f}'
    ||| c == '\u{205f}'
    ||| c == '\u{3000}'
}

pub open spec fn is_quote(c: char) -> bool {
    c == '\'' || c == '"'
}

/// `s` without the longest beginning made only of characters that `drop` takes.
pub open spec fn trimmed_start(s: Seq<char>, drop: spec_fn(char) -> bool) -> Seq<char>
    decreases s.len(),
{
    if s.len() > 0 && drop(s[0]) {
        trimmed_start(s.drop_first(), drop)
    } else {
        s
    }
}

/// `s` without the longest ending made only of characters that `drop` takes.
pub open spec fn trimmed_end(s: Seq<char>, drop: spec_fn(char) -> bool) -> Seq<char>
    decreases s.len(),
{
    if s.len() > 0 && drop(s.last()) {
        trimmed_end(s.drop_last(), drop)
    } else {
        s
    }
}

/// `s` without white space around it.
pub open spec fn trimmed(s: Seq<char>) -> Seq<char> {
    trimmed_end(
        trimmed_start(s, |c: char| white_space(c)),
        |c: char| white_space(c),
    )
}

/// `s` without the quotes around it.
pub open spec fn unquoted(s: Seq<char>) -> Seq<char> {
    trimmed_end(trimmed_start(s, |c: char| is_quote(c)), |c: char| is_quote(c))
}

/// The characters of `s`.
pub fn chars_of(s: &str) -> (r: Vec<char>)
    ensures
        r@ == s@,
{
    let mut chars: Vec<char> = Vec::new();
    for c in it: s.chars()
        invariant
            it.seq() == s@,
            chars@ == s@.take(it.index()),
    {
        chars.push(c);
    }
    assert(s@.take(s@.len() as int) == s@);
    chars
}

/// The string whose characters are `chars[from..to]`.
pub fn string_of(chars: &Vec<char>, from: usize, to: usize) -> (r: String)
    requires
        from <= to <= chars@.len(),
    ensures
        r@ == chars@.subrange(from as int, to as int),
{
    let mut s: String = String::new();
    let mut i: usize = from;
    while i < to
        invariant
            from <= i <= to <= chars@.len(),
            s@ == chars@.subrange(from as int, i as int),
        decreases to - i,
    {
        s.push(chars[i]);
        i += 1;
        assert(chars@.subrange(from as int, i as int) == chars@.subrange(
            from as int,
            i - 1,
        ).push(chars@[i - 1]));
    }
    s
}

pub fn same_text(a: &str, b: &str) -> (r: bool)
    ensures
        r == (a@ == b@),
{
    a.to_owned() == b.to_owned()
}

fn is_white_space(c: char) -> (r: bool)
    ensures
        r == white_space(c),
{
    ('\u{9}' <= c && c <= '\u{d}') || c == ' ' || c == '\u{85}' || c == '\u{a0}' || c == '\u{1680}'
        || ('\u{2000}' <= c && c <= '\u{200a}') || c == '\u{2028}' || c == '\u{2029}' || c
        == '\u{202f}' || c == '\u{205f}' || c == '\u{3000}'
}

fn is_quote_char(c: char) -> (r: bool)
    ensures
        r == is_quote(c),
{
    c == '\'' || c == '"'
}

/// `s` without white space around it.
pub fn trim(s: &str) -> (r: String)
    ensures
        r@ == trimmed(s@),
{
    let chars = chars_of(s);
    let ghost drop = |c: char| white_space(c);
    let mut from: usize = 0;
    assert(chars@.subrange(0, chars@.len() as int) == chars@);
    while from < chars.len() && is_white_space(chars[from])
        invariant
            from <= chars@.len(),
            drop == (|c: char| white_space(c)),
            trimmed_start(chars@.subrange(from as int, chars@.len() as int), drop)
                == trimmed_start(chars@, drop),
        decreases chars@.len() - from,
    {
        assert(chars@.subrange(from as int, chars@.len() as int).drop_first() == chars@.subrange(
            from + 1,
            chars@.len() as int,
        ));
        from += 1;
    }
    let ghost front = chars@.subrange(from as int, chars@.len() as int);
    assert(front == trimmed_start(chars@, drop));
    let mut to: usize = chars.len();
    while from < to && is_white_space(chars[to - 1])
        invariant
            from <= to <= chars@.len(),
            drop == (|c: char| white_space(c)),
            trimmed_end(chars@.subrange(from as int, to as int), drop) == trimmed_end(front, drop),
        decreases to,
    {
        assert(chars@.subrange(from as int, to as int).drop_last() == chars@.subrange(
            from as int,
            to - 1,
        ));
        to -= 1;
    }
    string_of(&chars, from, to)
}

/// `s` without the quotes around it.
pub fn unquote(s: &str) -> (r: String)
    ensures
        r@ == unquoted(s@),
{
    let chars = chars_of(s);
    let ghost drop = |c: char| is_quote(c);
    let mut from: usize = 0;
    assert(chars@.subrange(0, chars@.len() as int) == chars@);
    while from < chars.len() && is_quote_char(chars[from])
        invariant
            from <= chars@.len(),
            drop == (|c: char| is_quote(c)),
            trimmed_start(chars@.subrange(from as int, chars@.len() as int), drop)
                == trimmed_start(chars@, drop),
        decreases chars@.len() - from,
    {
        assert(chars@.subrange(from as int, chars@.len() as int).drop_first() == chars@.subrange(
            from + 1,
            chars@.len() as int,
        ));
        from += 1;
    }
    let ghost front = chars@.subrange(from as int, chars@.len() as int);
    assert(front == trimmed_start(chars@, drop));
    let mut to: usize = chars.len();
    while from < to && is_quote_char(chars[to - 1])
        invariant
            from <= to <= chars@.len(),
            drop == (|c: char| is_quote(c)),
            trimmed_end(chars@.subrange(from as int, to as int), drop) == trimmed_end(front, drop),
        decreases to,
    {
        assert(chars@.subrange(from as int, to as int).drop_last() == chars@.subrange(
            from as int,
            to - 1,
        ));
        to -= 1;
    }
    string_of(&chars, from, to)
}

pub fn ascii_lowercase(s: &str) -> (r: String)
    ensures
        r@ == ascii_lowered(s@),
{
    let mut out: String = String::new();
    for c in it: s.chars()
        invariant
            it.seq() == s@,
            out@ == ascii_lowered(s@.take(it.index())),
    {
        if 'A' <= c && c <= 'Z' {
            let lowered: u8 = c as u8 + 32;
            out.push(lowered as char);
        } else {
            out.push(c);
        }
        assert(out@ =~= ascii_lowered(s@.take(it.index() + 1)));
    }
    assert(s@.take(s@.len() as int) == s@);
    out
}

/// Whether the first `to` characters end with `suffix`.
fn ends_at(chars: &Vec<char>, to: usize, suffix: &Vec<char>) -> (r: bool)
    requires
        to <= chars@.len(),
    ensures
        r == ends_with(chars@.take(to as int), suffix@),
{
    if suffix.len() > to {
        return false;
    }
    let from: usize = to - suffix.len();
    let ghost end = chars@.take(to as int).skip(from as int);
    let mut i: usize = 0;
    while i < suffix.len()
        invariant
            i <= suffix@.len(),
            from + suffix@.len() == to,
            to <= chars@.len(),
            end == chars@.take(to as int).skip(from as int),
            forall|j: int| 0 <= j < i ==> end[j] == #[trigger] suffix@[j],
        decreases suffix@.len() - i,
    {
        assert(end[i as int] == chars@[from + i]);
        if chars[from + i] != suffix[i] {
            return false;
        }
        i += 1;
    }
    assert(end =~= suffix@);
    true
}

pub fn has_suffix(s: &str, suffix: &str) -> (r: bool)
    ensures
        r == ends_with(s@, suffix@),
{
    let chars = chars_of(s);
    assert(chars@.take(chars@.len() as int) == s@);
    ends_at(&chars, chars.len(), &chars_of(suffix))
}

/// `s` without the endings `suffix` that it has, however many.
pub fn drop_suffixes(s: &str, suffix: &str) -> (r: String)
    ensures
        r@ == without_suffixes(s@, suffix@),
{
    let chars = chars_of(s);
    let ending = chars_of(suffix);
    let mut to: usize = chars.len();
    assert(chars@.take(to as int) == s@);
    while ending.len() > 0 && ends_at(&chars, to, &ending)
        invariant
            to <= chars@.len(),
            ending@ == suffix@,
            without_suffixes(chars@.take(to as int), suffix@) == without_suffixes(s@, suffix@),
        decreases to,
    {
        assert(chars@.take(to as int).take(to - ending@.len()) == chars@.take(to - ending@.len()));
        to -= ending.len();
    }
    assert(chars@.take(to as int) == chars@.subrange(0, to as int));
    string_of(&chars, 0, to)
}

/// Whether one of `items` is `text`.
pub fn contains_text(items: &[String], text: &str) -> (r: bool)
    ensures
        r == items.deep_view().contains(text@),
{
    let mut i: usize = 0;
    while i < items.len()
        invariant
            i <= items@.len(),
            forall|j: int| 0 <= j < i ==> items.deep_view()[j] != text@,
        decreases items@.len() - i,
    {
        if same_text(items[i].as_str(), text) {
            assert(items.deep_view()[i as int] == text@);
            return true;
        }
        i += 1;
    }
    false
}

pub fn clone_strings(items: &Vec<String>) -> (r: Vec<String>)
    ensures
        r@ == items@,
        r.deep_view() == items.deep_view(),
{
    let r = items.clone();
    assert(r@ =~= items@);
    r
}

pub fn copy_strings(items: &[String]) -> (r: Vec<String>)
    ensures
        r.deep_view() == items.deep_view(),
{
    let mut copies: Vec<String> = Vec::new();
    let mut i: usize = 0;
    while i < items.len()
        invariant
            i <= items@.len(),
            copies@ == items@.take(i as int),
        decreases items@.len() - i,
    {
        copies.push(items[i].clone());
        i += 1;
        assert(copies@ =~= items@.take(i as int));
    }
    assert(copies.deep_view() =~= items.deep_view());
    copies
}

pub fn clone_optional(item: &Option<String>) -> (r: Option<String>)
    ensures
        r.deep_view() == item.deep_view(),
{
    match item {
        Some(text) => Some(text.clone()),
        None => None,
    }
}

/// The strings of `parts`, in order, with `separator` between neighbours.
pub fn join(parts: &[String], separator: &str) -> (r: String)
    ensures
        r@ == joined(parts.deep_view(), separator@),
{
    let mut out: String = String::new();
    let mut i: usize = 0;
    while i < parts.len()
        invariant
            i <= parts@.len(),
            out@ == joined(parts.deep_view().take(i as int), separator@),
        decreases parts@.len() - i,
    {
        if i > 0 {
            out.append(separator);
        }
        out.append(parts[i].as_str());
        proof {
            let done = parts.deep_view().take(i + 1);
            assert(done.drop_last() == parts.deep_view().take(i as int));
            assert(done.last() == parts@[i as int]@);
            assert(out@ =~= joined(done, separator@));
        }
        i += 1;
    }
    assert(parts.deep_view().take(i as int) == parts.deep_view());
    out
}

/// The decimal digits of `n`.
pub fn decimal_text(n: usize) -> (r: String)
    ensures
        r@ == decimal(n as nat),
{
    let mut out: String = String::new();
    push_decimal(&mut out, n as u64);
    assert(out@ =~= decimal(n as nat));
    out
}

/// Whether `needle` stands in `chars` at `from`.
fn stands_at(chars: &Vec<char>, from: usize, needle: &Vec<char>) -> (r: bool)
    requires
        from <= chars@.len(),
    ensures
        r == starts_with(chars@.skip(from as int), needle@),
{
    if chars.len() - from < needle.len() {
        return false;
    }
    let ghost rest = chars@.skip(from as int);
    let length: usize = chars.len();
    let mut i: usize = 0;
    while i < needle.len()
        invariant
            i <= needle@.len(),
            from + needle@.len() <= chars@.len(),
            length == chars@.len(),
            rest == chars@.skip(from as int),
            forall|j: int| 0 <= j < i ==> rest[j] == #[trigger] needle@[j],
        decreases needle@.len() - i,
    {
        assert(rest[i as int] == chars@[from + i]);
        if chars[from + i] != needle[i] {
            assert(rest.take(needle@.len() as int)[i as int] != needle@[i as int]);
            return false;
        }
        i += 1;
    }
    assert(rest.take(needle@.len() as int) =~= needle@);
    true
}

/// Replaces the first occurrence of `placeholder`, where there is one.
pub fn replace_placeholder(template: &mut String, placeholder: &str, value: &str)
    ensures
        final(template)@ == replaced_first(old(template)@, placeholder@, value@),
{
    let chars = chars_of(template.as_str());
    let needle = chars_of(placeholder);
    let length: usize = chars.len();
    let mut i: usize = 0;
    assert(chars@.skip(0) == chars@);
    loop
        invariant_except_break
            template@ == chars@,
        invariant
            i <= chars@.len(),
            length == chars@.len(),
            needle@ == placeholder@,
            first_occurrence(chars@, needle@) == (match first_occurrence(
                chars@.skip(i as int),
                needle@,
            ) {
                Some(j) => Some(i + j),
                None => None,
            }),
        ensures
            template@ == replaced_first(chars@, placeholder@, value@),
        decreases chars@.len() - i,
    {
        if stands_at(&chars, i, &needle) {
            let mut out = string_of(&chars, 0, i);
            out.append(value);
            out.append(string_of(&chars, i + needle.len(), chars.len()).as_str());
            assert(chars@.take(i as int) == chars@.subrange(0, i as int));
            assert(chars@.skip(i + needle@.len()) == chars@.subrange(
                i + needle@.len(),
                chars@.len() as int,
            ));
            *template = out;
            break ;
        }
        if i == chars.len() {
            break ;
        }
        assert(chars@.skip(i as int).drop_first() == chars@.skip(i + 1));
        i += 1;
    }
}

pub fn push_decimal(out: &mut String, n: u64)
    ensures
        final(out)@ == old(out)@ + decimal(n as nat),
    decreases n,
{
    if n >= 10 {
        push_decimal(out, n / 10);
    }
    let d: u8 = (n % 10) as u8;
    out.push((48 + d) as char);
    assert(out@ =~= old(out)@ + decimal(n as nat));
}

pub proof fn lemma_split_is_inhabited(s: Seq<char>, separator: char)
    ensures
        split(s, separator).len() > 0,
    decreases s.len(),
{
    if s.len() > 0 {
        lemma_split_is_inhabited(s.drop_last(), separator);
    }
}

/// No part of a split text holds the separator.
pub proof fn lemma_split_parts_are_plain(s: Seq<char>, separator: char)
    ensures
        forall|i: int|
            0 <= i < split(s, separator).len() ==> !(#[trigger] split(s, separator)[i]).contains(
                separator,
            ),
    decreases s.len(),
{
    if s.len() > 0 {
        lemma_split_parts_are_plain(s.drop_last(), separator);
        lemma_split_is_inhabited(s.drop_last(), separator);
        let before = split(s.drop_last(), separator);
        assert forall|i: int| 0 <= i < split(s, separator).len() implies !(#[trigger] split(
            s,
            separator,
        )[i]).contains(separator) by {
            if i < before.len() {
                assert(!before[i].contains(separator));
            }
            if s.last() != separator && i == before.len() - 1 {
                let part = before.last().push(s.last());
                assert(split(s, separator)[i] == part);
                assert forall|j: int| 0 <= j < part.len() implies part[j] != separator by {
                    if j < before.last().len() {
                        assert(part[j] == before.last()[j]);
                    }
                }
            }
        }
    }
}

pub proof fn lemma_split_plain(part: Seq<char>, separator: char)
    requires
        !part.contains(separator),
    ensures
        split(part, separator) == seq![part],
    decreases part.len(),
{
    if part.len() > 0 {
        let init = part.drop_last();
        assert forall|j: int| 0 <= j < init.len() implies init[j] != separator by {
            assert(init[j] == part[j]);
        }
        lemma_split_plain(init, separator);
        assert(part.last() != separator) by {
            assert(part[part.len() - 1] == part.last());
        }
        assert(init.push(part.last()) == part);
        assert(split(part, separator) =~= seq![part]);
    } else {
        assert(part == Seq::<char>::empty());
    }
}

pub proof fn lemma_split_after_separator(front: Seq<char>, part: Seq<char>, separator: char)
    requires
        !part.contains(separator),
    ensures
        split(front.push(separator) + part, separator) == split(front, separator).push(part),
    decreases part.len(),
{
    let whole = front.push(separator) + part;
    if part.len() == 0 {
        assert(whole == front.push(separator));
        assert(whole.drop_last() == front);
        assert(part == Seq::<char>::empty());
    } else {
        let init = part.drop_last();
        assert forall|j: int| 0 <= j < init.len() implies init[j] != separator by {
            assert(init[j] == part[j]);
        }
        lemma_split_after_separator(front, init, separator);
        assert(whole.drop_last() == front.push(separator) + init);
        assert(whole.last() == part.last());
        assert(part.last() != separator) by {
            assert(part[part.len() - 1] == part.last());
        }
        assert(init.push(part.last()) == part);
        assert(split(whole, separator) =~= split(front, separator).push(part));
    }
}

/// Splitting gives back what was joined.
pub proof fn lemma_split_undoes_join(parts: Seq<Seq<char>>, separator: char)
    requires
        parts.len() > 0,
        forall|i: int| 0 <= i < parts.len() ==> !(#[trigger] parts[i]).contains(separator),
    ensures
        split(joined(parts, seq![separator]), separator) == parts,
    decreases parts.len(),
{
    if parts.len() == 1 {
        lemma_split_plain(parts[0], separator);
        assert(parts =~= seq![parts[0]]);
    } else {
        let init = parts.drop_last();
        assert forall|i: int| 0 <= i < init.len() implies !(#[trigger] init[i]).contains(
            separator,
        ) by {
            assert(init[i] == parts[i]);
        }
        lemma_split_undoes_join(init, separator);
        let front = joined(init, seq![separator]);
        lemma_split_after_separator(front, parts.last(), separator);
        assert(front + seq![separator] == front.push(separator));
        assert(init.push(parts.last()) == parts);
    }
}

pub proof fn lemma_join_with_first(first: Seq<char>, rest: Seq<Seq<char>>, separator: Seq<char>)
    requires
        rest.len() > 0,
    ensures
        joined(seq![first] + rest, separator) == first + separator + joined(rest, separator),
    decreases rest.len(),
{
    let all = seq![first] + rest;
    if rest.len() == 1 {
        assert(all.drop_last() == seq![first]);
        assert(all.last() == rest[0]);
        assert(joined(seq![first], separator) == first);
    } else {
        lemma_join_with_first(first, rest.drop_last(), separator);
        assert(all.drop_last() == seq![first] + rest.drop_last());
        assert(all.last() == rest.last());
        assert(joined(all, separator) =~= first + separator + joined(rest, separator));
    }
}

/// The first occurrence of a text is one, and none stands before it; where there is no
/// first one there is none.
pub proof fn lemma_first_occurrence(s: Seq<char>, needle: Seq<char>)
    ensures
        match first_occurrence(s, needle) {
            Some(i) => occurs_at(s, needle, i) && forall|j: int|
                #[trigger] occurs_at(s, needle, j) ==> i <= j,
            None => !occurs(s, needle),
        },
    decreases s.len(),
{
    let n = needle.len() as int;
    if starts_with(s, needle) {
        assert(s.subrange(0, n) == s.take(n));
        assert(occurs_at(s, needle, 0));
    } else {
        assert(!occurs_at(s, needle, 0)) by {
            if occurs_at(s, needle, 0) {
                assert(s.subrange(0, n) == s.take(n));
            }
        }
        if s.len() > 0 {
            let rest = s.drop_first();
            lemma_first_occurrence(rest, needle);
            assert forall|j: int| #[trigger] occurs_at(s, needle, j) implies occurs_at(
                rest,
                needle,
                j - 1,
            ) by {
                assert(rest.subrange(j - 1, j - 1 + n) =~= s.subrange(j, j + n));
            }
            if let Some(i) = first_occurrence(rest, needle) {
                assert(s.subrange(i + 1, i + 1 + n) =~= rest.subrange(i, i + n));
                assert(occurs_at(s, needle, i + 1));
                assert forall|j: int| #[trigger] occurs_at(s, needle, j) implies i + 1 <= j by {
                    assert(occurs_at(rest, needle, j - 1));
                }
            } else {
                assert forall|j: int| !#[trigger] occurs_at(s, needle, j) by {
                    if occurs_at(s, needle, j) {
                        assert(occurs_at(rest, needle, j - 1));
                    }
                }
            }
        }
    }
}

/// Replacing a text that occurs puts the value in, as it is.
pub proof fn replaced_text_holds_the_value(s: Seq<char>, needle: Seq<char>, value: Seq<char>)
    requires
        occurs(s, needle),
    ensures
        occurs(replaced_first(s, needle, value), value),
{
    lemma_first_occurrence(s, needle);
    let i = first_occurrence(s, needle)->0;
    let r = replaced_first(s, needle, value);
    assert(r.subrange(i, i + value.len()) =~= value);
    assert(occurs_at(r, value, i));
}

proof fn lemma_placeholders_apart(s: Seq<char>, a: Seq<char>, b: Seq<char>, i: int, j: int)
    requires
        is_placeholder(a),
        is_placeholder(b),
        a != b,
        occurs_at(s, a, i),
        occurs_at(s, b, j),
    ensures
        i + a.len() <= j || j + b.len() <= i,
{
    assert forall|k: int| 0 <= k < a.len() implies a[k] == #[trigger] s[i + k] by {
        assert(s.subrange(i, i + a.len())[k] == s[i + k]);
    }
    assert forall|k: int| 0 <= k < b.len() implies b[k] == #[trigger] s[j + k] by {
        assert(s.subrange(j, j + b.len())[k] == s[j + k]);
    }
    if i < j < i + a.len() {
        assert(a[j - i] == s[i + (j - i)]);
        assert(b[0] == s[j + 0]);
        assert(b[1] == s[j + 1]);
        if j == i + 1 {
            assert(a[2] == s[i + 2]);
        }
    } else if j < i < j + b.len() {
        assert(b[i - j] == s[j + (i - j)]);
        assert(a[0] == s[i + 0]);
        assert(a[1] == s[i + 1]);
        if i == j + 1 {
            assert(b[2] == s[j + 2]);
        }
    } else if i == j {
        if a.len() < b.len() {
            assert(a[a.len() - 2] == s[i + (a.len() - 2)]);
            assert(b[a.len() - 2] == s[j + (a.len() - 2)]);
        } else if b.len() < a.len() {
            assert(b[b.len() - 2] == s[j + (b.len() - 2)]);
            assert(a[b.len() - 2] == s[i + (b.len() - 2)]);
        } else {
            assert forall|k: int| 0 <= k < a.len() implies a[k] == b[k] by {
                assert(a[k] == s[i + k] && b[k] == s[j + k]);
            }
            assert(a =~= b);
        }
    }
}

/// Replacing one placeholder leaves every other where it stands in the text.
pub proof fn other_placeholders_stay(
    s: Seq<char>,
    needle: Seq<char>,
    value: Seq<char>,
    other: Seq<char>,
)
    requires
        is_placeholder(needle),
        is_placeholder(other),
        needle != other,
        occurs(s, other),
    ensures
        occurs(replaced_first(s, needle, value), other),
{
    lemma_first_occurrence(s, needle);
    let j = choose|j: int| occurs_at(s, other, j);
    let n = other.len();
    if let Some(i) = first_occurrence(s, needle) {
        let r = replaced_first(s, needle, value);
        lemma_placeholders_apart(s, needle, other, i, j);
        if j + n <= i {
            assert(r.subrange(j, j + n) =~= s.subrange(j, j + n));
            assert(occurs_at(r, other, j));
        } else {
            let k = j - needle.len() + value.len();
            assert(r.subrange(k, k + n) =~= s.subrange(j, j + n));
            assert(occurs_at(r, other, k));
        }
    }
}

/// Splitting around a separator: what is before it, then what is after it.
pub proof fn lemma_split_around_separator(front: Seq<char>, back: Seq<char>, separator: char)
    ensures
        split(front.push(separator) + back, separator) == split(front, separator) + split(
            back,
            separator,
        ),
    decreases back.len(),
{
    let whole = front.push(separator) + back;
    if back.len() == 0 {
        assert(whole == front.push(separator));
        assert(whole.drop_last() == front);
        assert(split(whole, separator) =~= split(front, separator) + split(back, separator));
    } else {
        let init = back.drop_last();
        lemma_split_around_separator(front, init, separator);
        lemma_split_is_inhabited(init, separator);
        assert(whole.drop_last() == front.push(separator) + init);
        assert(whole.last() == back.last());
        assert(split(whole, separator) =~= split(front, separator) + split(back, separator));
    }
}

/// The number that a row of decimal digits stands for.
pub open spec fn number(digits: Seq<char>) -> nat
    decreases digits.len(),
{
    if digits.len() == 0 {
        0
    } else {
        10 * number(digits.drop_last()) + (digits.last() as u32 - '0' as u32) as nat
    }
}

/// The decimal form of a number is made of digits, begins with a zero only for zero, and
/// stands for the number.
pub proof fn decimals_stand_for_their_number(n: nat)
    ensures
        number(decimal(n)) == n,
        decimal(n).len() > 0,
        n > 0 ==> decimal(n)[0] != '0',
        n == 0 ==> decimal(n).len() == 1,
        forall|i: int| 0 <= i < decimal(n).len() ==> '0' <= #[trigger] decimal(n)[i] <= '9',
    decreases n,
{
    let digits = decimal(n);
    if n < 10 {
        assert(digits.drop_last() == Seq::<char>::empty());
        assert(number(digits.drop_last()) == 0);
    } else {
        decimals_stand_for_their_number(n / 10);
        assert(digits.drop_last() == decimal(n / 10));
        assert(digits[0] == decimal(n / 10)[0]);
    }
}

/// Joined parts: nothing of none, the part itself of one, and of more the first ones and
/// the others with the separator between.
pub proof fn parts_are_joined_by_the_separator(
    first: Seq<Seq<char>>,
    second: Seq<Seq<char>>,
    part: Seq<char>,
    separator: Seq<char>,
)
    requires
        first.len() > 0,
        second.len() > 0,
    ensures
        joined(Seq::empty(), separator) == Seq::<char>::empty(),
        joined(seq![part], separator) == part,
        joined(first + second, separator) == joined(first, separator) + separator + joined(
            second,
            separator,
        ),
    decreases second.len(),
{
    let all = first + second;
    assert(all.last() == second.last());
    if second.len() == 1 {
        assert(all.drop_last() == first);
    } else {
        parts_are_joined_by_the_separator(first, second.drop_last(), part, separator);
        assert(all.drop_last() == first + second.drop_last());
        assert(joined(all, separator) =~= joined(first, separator) + separator + joined(
            second,
            separator,
        ));
    }
}

/// The text is what was trimmed in front, then what is left, then what was trimmed
/// behind.
proof fn lemma_trimmed_parts(s: Seq<char>, drop: spec_fn(char) -> bool) -> (cut: (int, int))
    ensures
        0 <= cut.0 <= cut.1 <= s.len(),
        trimmed_end(trimmed_start(s, drop), drop) == s.subrange(cut.0, cut.1),
        forall|i: int| 0 <= i < cut.0 ==> drop(#[trigger] s[i]),
        forall|i: int| cut.1 <= i < s.len() ==> drop(#[trigger] s[i]),
        cut.0 < cut.1 ==> !drop(s[cut.0]) && !drop(s[cut.1 - 1]),
    decreases s.len(),
{
    if s.len() == 0 {
        assert(s.subrange(0, 0) =~= s);
        (0, 0)
    } else if drop(s[0]) {
        let rest = s.drop_first();
        let cut = lemma_trimmed_parts(rest, drop);
        assert(s.subrange(cut.0 + 1, cut.1 + 1) =~= rest.subrange(cut.0, cut.1));
        assert forall|i: int| 0 <= i < cut.0 + 1 implies drop(#[trigger] s[i]) by {
            if i > 0 {
                assert(rest[i - 1] == s[i]);
            }
        }
        assert forall|i: int| cut.1 + 1 <= i < s.len() implies drop(#[trigger] s[i]) by {
            assert(rest[i - 1] == s[i]);
        }
        (cut.0 + 1, cut.1 + 1)
    } else if drop(s.last()) {
        let init = s.drop_last();
        assert(init.len() > 0 && init[0] == s[0]);
        let cut = lemma_trimmed_parts(init, drop);
        assert(cut.0 == 0) by {
            if cut.0 > 0 {
                assert(drop(init[0]));
            }
        }
        assert(s.subrange(cut.0, cut.1) =~= init.subrange(cut.0, cut.1));
        assert forall|i: int| cut.1 <= i < s.len() implies drop(#[trigger] s[i]) by {
            if i < init.len() {
                assert(init[i] == s[i]);
            }
        }
        (cut.0, cut.1)
    } else {
        assert(s.subrange(0, s.len() as int) =~= s);
        (0, s.len() as int)
    }
}

/// Trimming takes white space away on both sides, and nothing else: what is left neither
/// begins nor ends with white space, and stood between white space alone.
pub proof fn trimming_takes_white_space_alone(front: Seq<char>, inner: Seq<char>, back: Seq<char>)
    requires
        forall|i: int| 0 <= i < front.len() ==> white_space(#[trigger] front[i]),
        forall|i: int| 0 <= i < back.len() ==> white_space(#[trigger] back[i]),
        inner.len() > 0 ==> !white_space(inner[0]) && !white_space(inner.last()),
    ensures
        trimmed(front + inner + back) == inner,
{
    let s = front + inner + back;
    let drop = |c: char| white_space(c);
    let cut = lemma_trimmed_parts(s, drop);
    lemma_cut_is_inner(front, inner, back, drop, cut);
}

/// Unquoting takes quotes away on both sides, and nothing else.
pub proof fn unquoting_takes_quotes_alone(front: Seq<char>, inner: Seq<char>, back: Seq<char>)
    requires
        forall|i: int| 0 <= i < front.len() ==> (#[trigger] front[i]) == '\'' || front[i] == '"',
        forall|i: int| 0 <= i < back.len() ==> (#[trigger] back[i]) == '\'' || back[i] == '"',
        inner.len() > 0 ==> inner[0] != '\'' && inner[0] != '"' && inner.last() != '\''
            && inner.last() != '"',
    ensures
        unquoted(front + inner + back) == inner,
{
    let s = front + inner + back;
    let drop = |c: char| is_quote(c);
    let cut = lemma_trimmed_parts(s, drop);
    lemma_cut_is_inner(front, inner, back, drop, cut);
}

proof fn lemma_cut_is_inner(
    front: Seq<char>,
    inner: Seq<char>,
    back: Seq<char>,
    drop: spec_fn(char) -> bool,
    cut: (int, int),
)
    requires
        ({
            let s = front + inner + back;
            &&& 0 <= cut.0 <= cut.1 <= s.len()
            &&& forall|i: int| 0 <= i < cut.0 ==> drop(#[trigger] s[i])
            &&& forall|i: int| cut.1 <= i < s.len() ==> drop(#[trigger] s[i])
            &&& cut.0 < cut.1 ==> !drop(s[cut.0]) && !drop(s[cut.1 - 1])
        }),
        forall|i: int| 0 <= i < front.len() ==> drop(#[trigger] front[i]),
        forall|i: int| 0 <= i < back.len() ==> drop(#[trigger] back[i]),
        inner.len() > 0 ==> !drop(inner[0]) && !drop(inner.last()),
    ensures
        (front + inner + back).subrange(cut.0, cut.1) == inner,
{
    let s = front + inner + back;
    assert forall|i: int| 0 <= i < front.len() implies drop(#[trigger] s[i]) by {
        assert(s[i] == front[i]);
    }
    assert forall|i: int| front.len() + inner.len() <= i < s.len() implies drop(
        #[trigger] s[i],
    ) by {
        assert(s[i] == back[i - front.len() - inner.len()]);
    }
    if inner.len() > 0 {
        let first = front.len() as int;
        let last = front.len() + inner.len() - 1;
        assert(s[first] == inner[0]);
        assert(s[last] == inner.last());
        assert(cut.0 <= first && last < cut.1);
        assert(cut.0 == first);
        assert(cut.1 == last + 1);
    } else if cut.0 < cut.1 {
        assert(drop(s[cut.0]));
    }
    assert(s.subrange(cut.0, cut.1) =~= inner);
}

/// `suffix`, `k` times over.
pub open spec fn repeated(suffix: Seq<char>, k: nat) -> Seq<char>
    decreases k,
{
    if k == 0 {
        Seq::empty()
    } else {
        repeated(suffix, (k - 1) as nat) + suffix
    }
}

/// Dropping an ending takes it away as often as it stands there, and no more.
pub proof fn endings_are_dropped_however_many(s: Seq<char>, suffix: Seq<char>, k: nat)
    requires
        suffix.len() > 0,
        !ends_with(s, suffix),
    ensures
        without_suffixes(s + repeated(suffix, k), suffix) == s,
    decreases k,
{
    let whole = s + repeated(suffix, k);
    if k == 0 {
        assert(whole == s);
    } else {
        let shorter = s + repeated(suffix, (k - 1) as nat);
        assert(whole =~= shorter + suffix);
        assert(whole.skip(whole.len() - suffix.len()) =~= suffix);
        assert(whole.take(whole.len() - suffix.len()) =~= shorter);
        endings_are_dropped_however_many(s, suffix, (k - 1) as nat);
    }
}

/// A text whose end was replaced once: what stood before it and after it stays.
pub proof fn only_the_first_occurrence_is_replaced(
    before: Seq<char>,
    needle: Seq<char>,
    after: Seq<char>,
    value: Seq<char>,
)
    requires
        forall|j: int| 0 <= j < before.len() ==> !occurs_at(before + needle + after, needle, j),
    ensures
        replaced_first(before + needle + after, needle, value) == before + value + after,
{
    let s = before + needle + after;
    let at = before.len() as int;
    assert(s.subrange(at, at + needle.len()) =~= needle);
    assert(occurs_at(s, needle, at));
    lemma_first_occurrence(s, needle);
    assert(first_occurrence(s, needle) == Some(at));
    assert(s.take(at) =~= before);
    assert(s.skip(at + needle.len()) =~= after);
}

/// A text in which nothing is to be replaced stays as it is.
pub proof fn nothing_is_replaced_where_nothing_stands(
    s: Seq<char>,
    needle: Seq<char>,
    value: Seq<char>,
)
    requires
        forall|j: int| !occurs_at(s, needle, j),
    ensures
        replaced_first(s, needle, value) == s,
{
    lemma_first_occurrence(s, needle);
}

/// What stands in a text stands in every longer one that holds it, and every text stands
/// in itself.
pub proof fn a_sum_holds_its_parts()
    ensures
        forall|s: Seq<char>, t: Seq<char>, part: Seq<char>|
            occurs(s, part) || occurs(t, part) ==> #[trigger] occurs(s + t, part),
        forall|s: Seq<char>| #[trigger] occurs(s, s),
{
    assert forall|s: Seq<char>, t: Seq<char>, part: Seq<char>|
        occurs(s, part) || occurs(t, part) implies #[trigger] occurs(s + t, part) by {
        if occurs(s, part) {
            let i = choose|i: int| occurs_at(s, part, i);
            assert((s + t).subrange(i, i + part.len()) =~= s.subrange(i, i + part.len()));
            assert(occurs_at(s + t, part, i));
        } else {
            let i = choose|i: int| occurs_at(t, part, i);
            let at = s.len() + i;
            assert((s + t).subrange(at, at + part.len()) =~= t.subrange(i, i + part.len()));
            assert(occurs_at(s + t, part, at));
        }
    }
    assert forall|s: Seq<char>| #[trigger] occurs(s, s) by {
        assert(s.subrange(0, s.len() as int) =~= s);
        assert(occurs_at(s, s, 0));
    }
}

/// What stands in a text that stands in another stands in the other.
pub proof fn a_part_of_a_part_is_a_part(whole: Seq<char>, part: Seq<char>, inner: Seq<char>)
    requires
        occurs(whole, part),
        occurs(part, inner),
    ensures
        occurs(whole, inner),
{
    let i = choose|i: int| occurs_at(whole, part, i);
    let j = choose|j: int| occurs_at(part, inner, j);
    assert(whole.subrange(i + j, i + j + inner.len()) =~= part.subrange(j, j + inner.len()));
    assert(occurs_at(whole, inner, i + j));
}

/// In a text whose only braces are those of one placeholder, that placeholder alone can be
/// replaced.
pub proof fn a_lone_placeholder_is_replaced(
    before: Seq<char>,
    placeholder: Seq<char>,
    after: Seq<char>,
    needle: Seq<char>,
    value: Seq<char>,
)
    requires
        is_placeholder(placeholder),
        is_placeholder(needle),
        !before.contains('{'),
        !after.contains('{'),
    ensures
        replaced_first(before + placeholder + after, needle, value) == (if needle == placeholder {
            before + value + after
        } else {
            before + placeholder + after
        }),
{
    let s = before + placeholder + after;
    let at = before.len() as int;
    assert(s.subrange(at, at + placeholder.len()) =~= placeholder);
    assert(occurs_at(s, placeholder, at));
    assert forall|j: int| #[trigger] occurs_at(s, needle, j) implies at <= j < at
        + placeholder.len() by {
        assert(s.subrange(j, j + needle.len())[0] == s[j]);
        assert(s[j] == '{');
        if j < at {
            assert(before[j] == '{');
        } else if j >= at + placeholder.len() {
            assert(after[j - at - placeholder.len()] == '{');
        }
    }
    if needle == placeholder {
        only_the_first_occurrence_is_replaced(before, placeholder, after, value);
    } else {
        assert forall|j: int| !occurs_at(s, needle, j) by {
            if occurs_at(s, needle, j) {
                lemma_placeholders_apart(s, placeholder, needle, at, j);
            }
        }
        nothing_is_replaced_where_nothing_stands(s, needle, value);
    }
}

/// In a text without braces no placeholder is replaced.
pub proof fn no_placeholder_is_replaced_without_braces(
    s: Seq<char>,
    needle: Seq<char>,
    value: Seq<char>,
)
    requires
        is_placeholder(needle),
        !s.contains('{'),
    ensures
        replaced_first(s, needle, value) == s,
{
    assert forall|j: int| !occurs_at(s, needle, j) by {
        if occurs_at(s, needle, j) {
            assert(s.subrange(j, j + needle.len())[0] == s[j]);
        }
    }
    nothing_is_replaced_where_nothing_stands(s, needle, value);
}

/// White space is what Unicode counts as such, told by its code.
pub proof fn white_space_is_told_by_its_code(c: char)
    ensures
        ({
            let code = c as u32;
            white_space(c) <==> 0x9 <= code <= 0xd || code == 0x20 || code == 0x85 || code == 0xa0
                || code == 0x1680 || 0x2000 <= code <= 0x200a || code == 0x2028 || code == 0x2029
                || code == 0x202f || code == 0x205f || code == 0x3000
        }),
{
}

}
