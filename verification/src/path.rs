//! Paths as text: normalisation, resolution of imports, file extensions.

use vstd::prelude::*;
use vstd::string::StringExecFns;

use crate::text;
use crate::text::{ascii_lowercase, chars_of, join, same_text, string_of};

verus! {

/// `s` with every `\` turned into `/`.
pub open spec fn slashed(s: Seq<char>) -> Seq<char> {
    s.map_values(|c: char| if c == '\\' { '/' } else { c })
}

/// `s` without the `./` that stand at its beginning.
pub open spec fn without_dot_slash(s: Seq<char>) -> Seq<char>
    decreases s.len(),
{
    if s.len() >= 2 && s[0] == '.' && s[1] == '/' {
        without_dot_slash(s.skip(2))
    } else {
        s
    }
}

pub open spec fn normalized(s: Seq<char>) -> Seq<char> {
    without_dot_slash(slashed(s))
}

/// A part of a path that names something: neither empty nor `.`.
pub open spec fn names_entry(part: Seq<char>) -> bool {
    part.len() > 0 && part != seq!['.']
}

pub open spec fn entries(parts: Seq<Seq<char>>) -> Seq<Seq<char>>
    decreases parts.len(),
{
    if parts.len() == 0 {
        Seq::empty()
    } else if names_entry(parts.last()) {
        entries(parts.drop_last()).push(parts.last())
    } else {
        entries(parts.drop_last())
    }
}

/// The parts of a path that name something, `..` among them.
pub open spec fn segments(path: Seq<char>) -> Seq<Seq<char>> {
    entries(text::split(path, '/'))
}

/// Where the segments lead: each `..` takes back the one before it, or nothing at
/// the start.
pub open spec fn climbed(segments: Seq<Seq<char>>) -> Seq<Seq<char>>
    decreases segments.len(),
{
    if segments.len() == 0 {
        Seq::empty()
    } else {
        let before = climbed(segments.drop_last());
        if segments.last() != seq!['.', '.'] {
            before.push(segments.last())
        } else if before.len() == 0 {
            before
        } else {
            before.drop_last()
        }
    }
}

pub open spec fn slash_joined(segments: Seq<Seq<char>>) -> Seq<char> {
    text::joined(segments, seq!['/'])
}

/// A path that starts at the root.
pub open spec fn rooted(path: Seq<char>) -> bool {
    path.len() > 0 && path[0] == '/'
}

/// A path whose first part is `.`.
pub open spec fn starts_here(path: Seq<char>) -> bool {
    path.len() > 0 && path[0] == '.' && (path.len() == 1 || path[1] == '/')
}

/// A path has a parent unless it is empty or only the root.
pub open spec fn has_parent(path: Seq<char>) -> bool {
    segments(path).len() > 0 || starts_here(path)
}

/// The segments of the directory that holds `path`.
pub open spec fn parent_segments(path: Seq<char>) -> Seq<Seq<char>> {
    if segments(path).len() > 0 {
        segments(path).drop_last()
    } else {
        Seq::empty()
    }
}

/// The module that an import names: one that starts with `.` is taken from the
/// importing file's directory, one that starts with `/` from the project root; any
/// other names a package.
pub open spec fn resolved_import(file_path: Seq<char>, import_path: Seq<char>) -> Option<
    Seq<char>,
> {
    if import_path.len() > 0 && import_path[0] == '.' {
        if has_parent(file_path) {
            Some(slash_joined(climbed(parent_segments(file_path) + segments(import_path))))
        } else {
            None
        }
    } else if rooted(import_path) {
        Some(slash_joined(climbed(segments(import_path))))
    } else {
        None
    }
}

/// The last segment of a path, where that is a name.
pub open spec fn file_name(path: Seq<char>) -> Option<Seq<char>> {
    if segments(path).len() > 0 && segments(path).last() != seq!['.', '.'] {
        Some(segments(path).last())
    } else {
        None
    }
}

/// Where the last `.` of `name` stands.
pub open spec fn last_dot(name: Seq<char>) -> Option<int>
    decreases name.len(),
{
    if name.len() == 0 {
        None
    } else if name.last() == '.' {
        Some(name.len() - 1)
    } else {
        last_dot(name.drop_last())
    }
}

/// What follows the last `.` of a path's file name; none where the name has no `.`
/// or begins with its only one.
pub open spec fn extension(path: Seq<char>) -> Option<Seq<char>> {
    match file_name(path) {
        Some(name) => match last_dot(name) {
            Some(i) => if i > 0 {
                Some(name.skip(i + 1))
            } else {
                None
            },
            None => None,
        },
        None => None,
    }
}

/// The one spelling of all paths with the same root, the same leading `.` and the
/// same segments.
pub open spec fn identity(path: Seq<char>) -> Seq<char> {
    if rooted(path) {
        seq!['/'] + slash_joined(segments(path))
    } else if !starts_here(path) {
        slash_joined(segments(path))
    } else if segments(path).len() == 0 {
        seq!['.']
    } else {
        seq!['.', '/'] + slash_joined(segments(path))
    }
}

/// Normalize paths for glob matching: forward slashes, no leading `./`.
pub fn normalize_path(path: &str) -> (r: String)
    ensures
        r@ == normalized(path@),
{
    let chars = chars_of(path);
    let mut unified: Vec<char> = Vec::new();
    let mut i: usize = 0;
    while i < chars.len()
        invariant
            i <= chars@.len(),
            unified@ == slashed(chars@.take(i as int)),
        decreases chars@.len() - i,
    {
        let c = chars[i];
        unified.push(if c == '\\' { '/' } else { c });
        i += 1;
        assert(unified@ =~= slashed(chars@.take(i as int)));
    }
    assert(chars@.take(i as int) == chars@);
    let mut start: usize = 0;
    assert(unified@.skip(0) == unified@);
    while unified.len() - start >= 2 && unified[start] == '.' && unified[start + 1] == '/'
        invariant
            start <= unified@.len(),
            without_dot_slash(unified@.skip(start as int)) == without_dot_slash(unified@),
        decreases unified@.len() - start,
    {
        assert(unified@.skip(start as int).skip(2) == unified@.skip(start + 2));
        start += 2;
    }
    assert(unified@.skip(start as int) == unified@.subrange(start as int, unified@.len() as int));
    string_of(&unified, start, unified.len())
}

/// The segments of `path`.
pub fn path_segments(path: &str) -> (r: Vec<String>)
    ensures
        r.deep_view() == segments(path@),
{
    let chars = chars_of(path);
    let mut done: Vec<String> = Vec::new();
    let mut current: String = String::new();
    let ghost mut closed: Seq<Seq<char>> = Seq::empty();
    let mut i: usize = 0;
    proof {
        assert(text::split(chars@.take(0), '/') == closed.push(current@));
        assert(done.deep_view() == entries(closed));
    }
    while i < chars.len()
        invariant
            i <= chars@.len(),
            text::split(chars@.take(i as int), '/') == closed.push(current@),
            done.deep_view() == entries(closed),
        decreases chars@.len() - i,
    {
        let c = chars[i];
        let ghost before = closed.push(current@);
        proof {
            let upto = chars@.take(i + 1);
            assert(upto.drop_last() == chars@.take(i as int));
            assert(upto.last() == c);
            assert(before.drop_last() == closed);
            assert(before.last() == current@);
        }
        if c == '/' {
            let part = current;
            keep_entry(&mut done, part);
            proof {
                closed = before;
            }
            current = String::new();
        } else {
            current.push(c);
        }
        i += 1;
    }
    assert(chars@.take(i as int) == chars@);
    proof {
        assert(closed.push(current@).drop_last() == closed);
    }
    keep_entry(&mut done, current);
    done
}

fn keep_entry(done: &mut Vec<String>, part: String)
    ensures
        final(done).deep_view() == (if names_entry(part@) {
            old(done).deep_view().push(part@)
        } else {
            old(done).deep_view()
        }),
{
    proof {
        reveal_strlit(".");
        assert("."@ == seq!['.']);
    }
    if !part.as_str().is_empty() && !same_text(part.as_str(), ".") {
        done.push(part);
        assert(done.deep_view() =~= old(done).deep_view().push(part@));
    }
}

/// Where `segments` lead.
fn climb(segments: Vec<String>) -> (r: Vec<String>)
    ensures
        r.deep_view() == climbed(segments.deep_view()),
{
    let mut parts: Vec<String> = Vec::new();
    let mut i: usize = 0;
    proof {
        reveal_strlit("..");
        assert(".."@ == seq!['.', '.']);
        assert(parts.deep_view() == climbed(segments.deep_view().take(0)));
    }
    while i < segments.len()
        invariant
            i <= segments@.len(),
            ".."@ == seq!['.', '.'],
            parts.deep_view() == climbed(segments.deep_view().take(i as int)),
        decreases segments@.len() - i,
    {
        let ghost before = parts.deep_view();
        proof {
            let upto = segments.deep_view().take(i + 1);
            assert(upto.drop_last() == segments.deep_view().take(i as int));
            assert(upto.last() == segments@[i as int]@);
        }
        if same_text(segments[i].as_str(), "..") {
            parts.pop();
            assert(parts.deep_view() =~= (if before.len() == 0 { before } else { before.drop_last() }));
        } else {
            parts.push(segments[i].clone());
            assert(parts.deep_view() =~= before.push(segments@[i as int]@));
        }
        i += 1;
    }
    assert(segments.deep_view().take(i as int) == segments.deep_view());
    parts
}

fn slash_join(parts: &Vec<String>) -> (r: String)
    ensures
        r@ == slash_joined(parts.deep_view()),
{
    proof {
        reveal_strlit("/");
        assert("/"@ == seq!['/']);
    }
    let slice = parts.as_slice();
    assert(slice.deep_view() =~= parts.deep_view());
    join(slice, "/")
}

/// Drops `.` and repeated separators, and follows `..`.
pub fn normalize_path_components(path: &str) -> (r: String)
    ensures
        r@ == slash_joined(climbed(segments(path@))),
{
    slash_join(&climb(path_segments(path)))
}

/// Resolve a relative or project-root import path against the importing file.
pub fn resolve_import_path(file_path: &str, import_path: &str) -> (r: Option<String>)
    ensures
        r.deep_view() == resolved_import(file_path@, import_path@),
{
    let import = chars_of(import_path);
    if import.len() > 0 && import[0] == '.' {
        let mut parts = path_segments(file_path);
        if parts.len() > 0 {
            parts.pop();
        } else {
            let file = chars_of(file_path);
            let here = file.len() > 0 && file[0] == '.' && (file.len() == 1 || file[1] == '/');
            if !here {
                return None;
            }
        }
        assert(parts.deep_view() =~= parent_segments(file_path@));
        let ghost base = parts.deep_view();
        let mut rest = path_segments(import_path);
        let ghost tail = rest.deep_view();
        parts.append(&mut rest);
        assert(parts.deep_view() =~= base + tail);
        return Some(slash_join(&climb(parts)));
    }
    if import.len() > 0 && import[0] == '/' {
        return Some(normalize_path_components(import_path));
    }
    None
}

/// Whether `path` starts at the root.
pub fn is_rooted(path: &str) -> (r: bool)
    ensures
        r == rooted(path@),
{
    let chars = chars_of(path);
    chars.len() > 0 && chars[0] == '/'
}

/// Whether the last segment of `path` is a name.
pub fn has_file_name(path: &str) -> (r: bool)
    ensures
        r == (file_name(path@) is Some),
{
    let parts = path_segments(path);
    if parts.len() == 0 {
        return false;
    }
    proof {
        reveal_strlit("..");
        assert(".."@ == seq!['.', '.']);
        assert(parts.deep_view().last() == parts@.last()@);
    }
    !same_text(parts[parts.len() - 1].as_str(), "..")
}

/// The extension of a path, as far as it has one.
pub fn path_extension(path: &str) -> (r: Option<String>)
    ensures
        r.deep_view() == extension(path@),
{
    let parts = path_segments(path);
    if parts.len() == 0 {
        return None;
    }
    let last: &String = &parts[parts.len() - 1];
    proof {
        reveal_strlit("..");
        assert(".."@ == seq!['.', '.']);
        assert(parts.deep_view().last() == last@);
    }
    if same_text(last.as_str(), "..") {
        return None;
    }
    let name = chars_of(last.as_str());
    let mut i: usize = name.len();
    assert(name@.take(i as int) == name@);
    while i > 0
        invariant
            i <= name@.len(),
            last_dot(name@.take(i as int)) == last_dot(name@),
            name@ == last@,
            file_name(path@) == Some(last@),
        decreases i,
    {
        i -= 1;
        assert(name@.take(i + 1).drop_last() == name@.take(i as int));
        assert(name@.take(i + 1).last() == name@[i as int]);
        if name[i] == '.' {
            if i == 0 {
                return None;
            }
            assert(name@.skip(i + 1) == name@.subrange(i + 1, name@.len() as int));
            return Some(string_of(&name, i + 1, name.len()));
        }
    }
    None
}

/// Whether `path` names a TSX file, in whatever case its extension is written.
pub open spec fn names_tsx(path: Seq<char>) -> bool {
    extension(path) matches Some(e) && text::ascii_lowered(e) == seq!['t', 's', 'x']
}

/// Whether `path` names a TypeScript or TSX file.
pub open spec fn names_source(path: Seq<char>) -> bool {
    names_tsx(path) || (extension(path) matches Some(e) && text::ascii_lowered(e) == seq!['t', 's'])
}

pub fn is_tsx_path(path: &str) -> (r: bool)
    ensures
        r == names_tsx(path@),
{
    match path_extension(path) {
        Some(ext) => {
            proof {
                reveal_strlit("tsx");
                assert("tsx"@ == seq!['t', 's', 'x']);
            }
            same_text(ascii_lowercase(ext.as_str()).as_str(), "tsx")
        },
        None => false,
    }
}

pub fn is_supported_source(path: &str) -> (r: bool)
    ensures
        r == names_source(path@),
{
    match path_extension(path) {
        Some(ext) => {
            proof {
                reveal_strlit("ts");
                reveal_strlit("tsx");
                assert("ts"@ == seq!['t', 's']);
                assert("tsx"@ == seq!['t', 's', 'x']);
            }
            let lowered = ascii_lowercase(ext.as_str());
            same_text(lowered.as_str(), "ts") || same_text(lowered.as_str(), "tsx")
        },
        None => false,
    }
}

/// The one spelling of `path`: two paths have the same exactly where they have the
/// same root, leading `.` and segments.
pub fn path_identity(path: &str) -> (r: String)
    ensures
        r@ == identity(path@),
{
    let chars = chars_of(path);
    let parts = path_segments(path);
    let rest = slash_join(&parts);
    let mut out: String = String::new();
    if chars.len() > 0 && chars[0] == '/' {
        out.push('/');
    } else if chars.len() > 0 && chars[0] == '.' && (chars.len() == 1 || chars[1] == '/') {
        out.push('.');
        if parts.len() > 0 {
            out.push('/');
        }
    }
    out.append(rest.as_str());
    assert(out@ =~= identity(path@));
    out
}

proof fn lemma_entries_of_entries(parts: Seq<Seq<char>>)
    requires
        forall|i: int| 0 <= i < parts.len() ==> names_entry(#[trigger] parts[i]),
    ensures
        entries(parts) == parts,
    decreases parts.len(),
{
    if parts.len() > 0 {
        let init = parts.drop_last();
        assert forall|i: int| 0 <= i < init.len() implies names_entry(#[trigger] init[i]) by {
            assert(init[i] == parts[i]);
        }
        lemma_entries_of_entries(init);
        assert(names_entry(parts[parts.len() - 1]));
        assert(init.push(parts.last()) == parts);
    }
}

proof fn lemma_no_entry_in(part: Seq<char>)
    requires
        !names_entry(part),
    ensures
        entries(seq![part]) == Seq::<Seq<char>>::empty(),
{
    reveal_with_fuel(entries, 2);
    assert(seq![part].drop_last() == Seq::<Seq<char>>::empty());
}

proof fn lemma_entries_skip_first(first: Seq<char>, rest: Seq<Seq<char>>)
    requires
        !names_entry(first),
    ensures
        entries(seq![first] + rest) == entries(rest),
    decreases rest.len(),
{
    let all = seq![first] + rest;
    if rest.len() == 0 {
        assert(all == seq![first]);
        lemma_no_entry_in(first);
    } else {
        lemma_entries_skip_first(first, rest.drop_last());
        assert(all.drop_last() == seq![first] + rest.drop_last());
        assert(all.last() == rest.last());
    }
}

proof fn lemma_entries_are_parts(parts: Seq<Seq<char>>)
    ensures
        forall|i: int|
            0 <= i < entries(parts).len() ==> names_entry(#[trigger] entries(parts)[i])
                && parts.contains(entries(parts)[i]),
    decreases parts.len(),
{
    if parts.len() > 0 {
        let init = parts.drop_last();
        lemma_entries_are_parts(init);
        assert forall|i: int| 0 <= i < entries(parts).len() implies names_entry(
            #[trigger] entries(parts)[i],
        ) && parts.contains(entries(parts)[i]) by {
            if i < entries(init).len() {
                assert(entries(parts)[i] == entries(init)[i]);
                let j = choose|j: int| 0 <= j < init.len() && init[j] == entries(init)[i];
                assert(parts[j] == entries(parts)[i]);
            } else {
                assert(parts[parts.len() - 1] == entries(parts)[i]);
            }
        }
    }
}

/// A segment: a name or `..`, without separators.
pub open spec fn is_segment(part: Seq<char>) -> bool {
    names_entry(part) && !part.contains('/')
}

/// Every segment of a path names something and holds no separator.
pub proof fn segments_are_plain(path: Seq<char>)
    ensures
        forall|i: int| 0 <= i < segments(path).len() ==> is_segment(#[trigger] segments(path)[i]),
{
    let parts = text::split(path, '/');
    text::lemma_split_parts_are_plain(path, '/');
    lemma_entries_are_parts(parts);
    assert forall|i: int| 0 <= i < segments(path).len() implies is_segment(
        #[trigger] segments(path)[i],
    ) by {
        let j = choose|j: int| 0 <= j < parts.len() && parts[j] == segments(path)[i];
        assert(!parts[j].contains('/'));
    }
}

/// A path written from segments has those segments.
pub proof fn joined_segments_split_again(parts: Seq<Seq<char>>)
    requires
        forall|i: int| 0 <= i < parts.len() ==> is_segment(#[trigger] parts[i]),
    ensures
        segments(slash_joined(parts)) == parts,
{
    if parts.len() == 0 {
        assert(slash_joined(parts) == Seq::<char>::empty());
        lemma_no_entry_in(Seq::empty());
        assert(parts == Seq::<Seq<char>>::empty());
    } else {
        text::lemma_split_undoes_join(parts, '/');
        lemma_entries_of_entries(parts);
    }
}

proof fn lemma_climbed_are_names(segs: Seq<Seq<char>>)
    requires
        forall|i: int| 0 <= i < segs.len() ==> is_segment(#[trigger] segs[i]),
    ensures
        forall|i: int|
            0 <= i < climbed(segs).len() ==> is_segment(#[trigger] climbed(segs)[i])
                && climbed(segs)[i] != seq!['.', '.'],
    decreases segs.len(),
{
    if segs.len() > 0 {
        let init = segs.drop_last();
        assert forall|i: int| 0 <= i < init.len() implies is_segment(#[trigger] init[i]) by {
            assert(init[i] == segs[i]);
        }
        lemma_climbed_are_names(init);
        assert(is_segment(segs[segs.len() - 1]));
        assert forall|i: int| 0 <= i < climbed(segs).len() implies is_segment(
            #[trigger] climbed(segs)[i],
        ) && climbed(segs)[i] != seq!['.', '.'] by {
            if i < climbed(init).len() {
                assert(climbed(segs)[i] == climbed(init)[i]);
            }
        }
    }
}

proof fn lemma_climbed_names_stay(segs: Seq<Seq<char>>)
    requires
        forall|i: int| 0 <= i < segs.len() ==> (#[trigger] segs[i]) != seq!['.', '.'],
    ensures
        climbed(segs) == segs,
    decreases segs.len(),
{
    if segs.len() > 0 {
        let init = segs.drop_last();
        assert forall|i: int| 0 <= i < init.len() implies (#[trigger] init[i]) != seq!['.', '.'] by {
            assert(init[i] == segs[i]);
        }
        lemma_climbed_names_stay(init);
        assert(segs[segs.len() - 1] != seq!['.', '.']);
        assert(init.push(segs.last()) == segs);
    }
}

proof fn lemma_no_dot_slash_left(s: Seq<char>)
    ensures
        ({
            let r = without_dot_slash(s);
            !(r.len() >= 2 && r[0] == '.' && r[1] == '/') && (!s.contains('\\') ==> !r.contains(
                '\\',
            ))
        }),
    decreases s.len(),
{
    if s.len() >= 2 && s[0] == '.' && s[1] == '/' {
        lemma_no_dot_slash_left(s.skip(2));
        if !s.contains('\\') {
            assert forall|i: int| 0 <= i < s.skip(2).len() implies s.skip(2)[i] != '\\' by {
                assert(s.skip(2)[i] == s[i + 2]);
            }
        }
    }
}

/// A normalized path holds no `\` and does not begin with `./`.
pub proof fn normalized_path_is_plain(path: Seq<char>)
    ensures
        !normalized(path).contains('\\'),
        !text::starts_with(normalized(path), seq!['.', '/']),
{
    lemma_no_dot_slash_left(slashed(path));
    assert(!slashed(path).contains('\\'));
    let r = normalized(path);
    if text::starts_with(r, seq!['.', '/']) {
        assert(r.take(2)[0] == r[0] && r.take(2)[1] == r[1]);
    }
}

/// Normalizing a normalized path changes nothing.
pub proof fn normalizing_twice_is_normalizing_once(path: Seq<char>)
    ensures
        normalized(normalized(path)) == normalized(path),
{
    let r = normalized(path);
    lemma_no_dot_slash_left(slashed(path));
    assert(!slashed(path).contains('\\'));
    assert forall|i: int| 0 <= i < r.len() implies slashed(r)[i] == r[i] by {
        assert(r.contains(r[i]));
    }
    assert(slashed(r) =~= r);
}

/// A resolved import is made of names alone: no `.`, no `..`, no empty part; and
/// resolving it from the project root leads back to it.
pub proof fn resolved_import_is_canonical(file_path: Seq<char>, import_path: Seq<char>)
    requires
        resolved_import(file_path, import_path) is Some,
    ensures
        ({
            let r = resolved_import(file_path, import_path)->0;
            &&& forall|i: int|
                0 <= i < segments(r).len() ==> is_segment(#[trigger] segments(r)[i])
                    && segments(r)[i] != seq!['.', '.']
            &&& r == slash_joined(segments(r))
            &&& climbed(segments(r)) == segments(r)
        }),
{
    let segs = if rooted(import_path) {
        segments(import_path)
    } else {
        parent_segments(file_path) + segments(import_path)
    };
    segments_are_plain(import_path);
    segments_are_plain(file_path);
    assert forall|i: int| 0 <= i < segs.len() implies is_segment(#[trigger] segs[i]) by {
        if !rooted(import_path) {
            let base = parent_segments(file_path);
            if i < base.len() {
                assert(segs[i] == segments(file_path)[i]);
            } else {
                assert(segs[i] == segments(import_path)[i - base.len()]);
            }
        }
    }
    lemma_climbed_are_names(segs);
    joined_segments_split_again(climbed(segs));
    lemma_climbed_names_stay(climbed(segs));
}

/// A resolved import, written from the project root, resolves to itself from
/// whatever file.
pub proof fn resolved_import_resolves_to_itself(
    file_path: Seq<char>,
    import_path: Seq<char>,
    other_file: Seq<char>,
)
    requires
        resolved_import(file_path, import_path) is Some,
    ensures
        ({
            let r = resolved_import(file_path, import_path)->0;
            resolved_import(other_file, seq!['/'] + r) == Some(r)
        }),
{
    let r = resolved_import(file_path, import_path)->0;
    resolved_import_is_canonical(file_path, import_path);
    lemma_segments_after_root(segments(r));
}

proof fn lemma_segments_after_root(parts: Seq<Seq<char>>)
    requires
        forall|i: int| 0 <= i < parts.len() ==> is_segment(#[trigger] parts[i]),
    ensures
        segments(seq!['/'] + slash_joined(parts)) == parts,
{
    let none = Seq::<char>::empty();
    if parts.len() == 0 {
        let root = seq!['/'];
        assert(root + slash_joined(parts) == root);
        assert(root.drop_last() == none);
        assert(text::split(none, '/') == seq![none]);
        let halves = text::split(root, '/');
        assert(halves == seq![none].push(none));
        assert(halves.drop_last() == seq![none]);
        lemma_no_entry_in(none);
        assert(parts == Seq::<Seq<char>>::empty());
    } else {
        lemma_segments_after_prefix(none, parts);
        assert(none + seq!['/'] + slash_joined(parts) == seq!['/'] + slash_joined(parts));
    }
}

proof fn lemma_segments_after_prefix(first: Seq<char>, parts: Seq<Seq<char>>)
    requires
        parts.len() > 0,
        !first.contains('/'),
        !names_entry(first),
        forall|i: int| 0 <= i < parts.len() ==> is_segment(#[trigger] parts[i]),
    ensures
        segments(first + seq!['/'] + slash_joined(parts)) == parts,
{
    let all = seq![first] + parts;
    text::lemma_join_with_first(first, parts, seq!['/']);
    assert forall|i: int| 0 <= i < all.len() implies !(#[trigger] all[i]).contains('/') by {
        if i > 0 {
            assert(all[i] == parts[i - 1]);
        }
    }
    text::lemma_split_undoes_join(all, '/');
    lemma_entries_skip_first(first, parts);
    lemma_entries_of_entries(parts);
}

proof fn lemma_joined_start(parts: Seq<Seq<char>>)
    requires
        forall|i: int| 0 <= i < parts.len() ==> is_segment(#[trigger] parts[i]),
    ensures
        !rooted(slash_joined(parts)),
        !starts_here(slash_joined(parts)),
        parts.len() > 0 ==> slash_joined(parts).len() > 0,
{
    if parts.len() > 0 {
        let first = parts[0];
        let text = slash_joined(parts);
        assert(is_segment(first));
        if parts.len() == 1 {
            assert(text == first);
        } else {
            let rest = parts.skip(1);
            assert(seq![first] + rest == parts);
            text::lemma_join_with_first(first, rest, seq!['/']);
            assert(text == first + seq!['/'] + slash_joined(rest));
        }
        assert(text[0] == first[0]);
        assert(first.contains(first[0]));
        if first.len() == 1 {
            if first[0] == '.' {
                assert(first == seq!['.']);
            }
        } else {
            assert(text[1] == first[1]);
            assert(first.contains(first[1]));
        }
    }
}

/// A path's one spelling keeps its root, its leading `.` and its segments.
pub proof fn identity_keeps_components(path: Seq<char>)
    ensures
        rooted(identity(path)) == rooted(path),
        starts_here(identity(path)) == starts_here(path),
        segments(identity(path)) == segments(path),
{
    let parts = segments(path);
    segments_are_plain(path);
    lemma_joined_start(parts);
    joined_segments_split_again(parts);
    if rooted(path) {
        lemma_segments_after_root(parts);
        assert(identity(path)[0] == '/');
    } else if starts_here(path) {
        let dot = seq!['.'];
        assert(!dot.contains('/')) by {
            assert forall|i: int| 0 <= i < dot.len() implies dot[i] != '/' by {}
        }
        if parts.len() == 0 {
            text::lemma_split_plain(dot, '/');
            lemma_no_entry_in(dot);
            assert(parts == Seq::<Seq<char>>::empty());
        } else {
            lemma_segments_after_prefix(dot, parts);
            assert(dot + seq!['/'] == seq!['.', '/']);
        }
    }
}

/// Two paths have one spelling exactly where they have the same root, the same
/// leading `.` and the same segments.
pub proof fn identity_tells_paths_apart(a: Seq<char>, b: Seq<char>)
    ensures
        identity(a) == identity(b) <==> (rooted(a) == rooted(b) && starts_here(a) == starts_here(b)
            && segments(a) == segments(b)),
{
    identity_keeps_components(a);
    identity_keeps_components(b);
}

/// What names a package is never resolved; what is taken from the project root does
/// not depend on the importing file.
pub proof fn only_relative_imports_depend_on_the_file(
    file_path: Seq<char>,
    other_file: Seq<char>,
    import_path: Seq<char>,
)
    requires
        import_path.len() == 0 || import_path[0] != '.',
    ensures
        resolved_import(file_path, import_path) == resolved_import(other_file, import_path),
        resolved_import(file_path, import_path) is Some <==> rooted(import_path),
{
}

/// Every TSX path is a source path.
pub proof fn tsx_is_source(path: Seq<char>)
    ensures
        names_tsx(path) ==> names_source(path),
{
}

/// A path written from segments, without `\`, from the root or not, is normalized and
/// its own one spelling.
pub proof fn a_path_of_segments_is_plain(parts: Seq<Seq<char>>)
    requires
        forall|i: int| 0 <= i < parts.len() ==> is_segment(#[trigger] parts[i]),
        !slash_joined(parts).contains('\\'),
    ensures
        normalized(slash_joined(parts)) == slash_joined(parts),
        identity(slash_joined(parts)) == slash_joined(parts),
        normalized(seq!['/'] + slash_joined(parts)) == seq!['/'] + slash_joined(parts),
        identity(seq!['/'] + slash_joined(parts)) == seq!['/'] + slash_joined(parts),
{
    let written = slash_joined(parts);
    lemma_joined_start(parts);
    joined_segments_split_again(parts);
    assert forall|i: int| 0 <= i < written.len() implies slashed(written)[i] == written[i] by {
        assert(written.contains(written[i]));
    }
    assert(slashed(written) =~= written);
    let from_root = seq!['/'] + written;
    lemma_segments_after_root(parts);
    assert forall|i: int| 0 <= i < from_root.len() implies slashed(from_root)[i]
        == from_root[i] by {
        if i > 0 {
            assert(from_root[i] == written[i - 1]);
            assert(written.contains(written[i - 1]));
        }
    }
    assert(slashed(from_root) =~= from_root);
    assert(from_root[0] == '/');
}

/// A path written from segments has the same ones from the root.
pub proof fn a_root_adds_no_segment(parts: Seq<Seq<char>>)
    requires
        forall|i: int| 0 <= i < parts.len() ==> is_segment(#[trigger] parts[i]),
    ensures
        segments(seq!['/'] + slash_joined(parts)) == segments(slash_joined(parts)),
{
    lemma_segments_after_root(parts);
    joined_segments_split_again(parts);
}

/// A leading `./` adds no segment and is lost in normalizing.
pub proof fn a_leading_dot_adds_nothing(path: Seq<char>)
    ensures
        segments(seq!['.', '/'] + path) == segments(path),
        normalized(seq!['.', '/'] + path) == normalized(path),
{
    let dot = seq!['.'];
    let whole = seq!['.', '/'] + path;
    assert(whole == dot.push('/') + path);
    text::lemma_split_around_separator(dot, path, '/');
    assert forall|i: int| 0 <= i < dot.len() implies dot[i] != '/' by {}
    text::lemma_split_plain(dot, '/');
    lemma_entries_skip_first(dot, text::split(path, '/'));
    assert(slashed(whole).skip(2) =~= slashed(path));
    assert(slashed(whole)[0] == '.' && slashed(whole)[1] == '/');
}

/// A leading `./` on a file's path leads its imports nowhere else, so long as the path
/// has a parent without it.
pub proof fn a_leading_dot_leads_nowhere_else(file_path: Seq<char>, import_path: Seq<char>)
    requires
        has_parent(file_path),
    ensures
        resolved_import(seq!['.', '/'] + file_path, import_path) == resolved_import(
            file_path,
            import_path,
        ),
{
    let whole = seq!['.', '/'] + file_path;
    a_leading_dot_adds_nothing(file_path);
    assert(whole[0] == '.' && whole[1] == '/');
    assert(parent_segments(whole) =~= parent_segments(file_path));
}

/// A relative import, and the same way written out from the project root, resolve
/// alike, whichever file holds the second.
pub proof fn relative_and_root_imports_meet(
    file_path: Seq<char>,
    import_path: Seq<char>,
    other_file: Seq<char>,
)
    requires
        import_path.len() > 0,
        import_path[0] == '.',
        has_parent(file_path),
    ensures
        resolved_import(
            other_file,
            seq!['/'] + slash_joined(parent_segments(file_path) + segments(import_path)),
        ) == resolved_import(file_path, import_path),
{
    let base = parent_segments(file_path);
    let way = base + segments(import_path);
    segments_are_plain(file_path);
    segments_are_plain(import_path);
    assert forall|i: int| 0 <= i < way.len() implies is_segment(#[trigger] way[i]) by {
        if i < base.len() {
            assert(way[i] == segments(file_path)[i]);
        } else {
            assert(way[i] == segments(import_path)[i - base.len()]);
        }
    }
    lemma_segments_after_root(way);
    assert((seq!['/'] + slash_joined(way))[0] == '/');
}

/// A separator parts a path: its segments are those before it, then those after it.
pub proof fn a_separator_parts_the_segments(front: Seq<char>, back: Seq<char>)
    ensures
        segments(front + seq!['/'] + back) == segments(front) + segments(back),
{
    assert(front + seq!['/'] + back == front.push('/') + back);
    text::lemma_split_around_separator(front, back, '/');
    lemma_entries_of_sum(text::split(front, '/'), text::split(back, '/'));
}

proof fn lemma_entries_of_sum(a: Seq<Seq<char>>, b: Seq<Seq<char>>)
    ensures
        entries(a + b) == entries(a) + entries(b),
    decreases b.len(),
{
    if b.len() == 0 {
        assert(a + b == a);
        assert(entries(a) + entries(b) == entries(a));
    } else {
        lemma_entries_of_sum(a, b.drop_last());
        assert((a + b).drop_last() == a + b.drop_last());
        assert((a + b).last() == b.last());
        assert(entries(a + b) =~= entries(a) + entries(b));
    }
}

/// What holds no separator is one segment, but for nothing and for `.`, which are none.
pub proof fn a_plain_part_is_one_segment(part: Seq<char>)
    requires
        !part.contains('/'),
    ensures
        segments(part) == (if part.len() == 0 || (part.len() == 1 && part[0] == '.') {
            Seq::empty()
        } else {
            seq![part]
        }),
{
    text::lemma_split_plain(part, '/');
    if part.len() == 0 || (part.len() == 1 && part[0] == '.') {
        if part.len() == 1 {
            assert(part =~= seq!['.']);
        }
        lemma_no_entry_in(part);
    } else {
        reveal_with_fuel(entries, 2);
        assert(seq![part].drop_last() == Seq::<Seq<char>>::empty());
        assert(seq![part].last() == part);
        assert(entries(seq![part]) =~= seq![part]);
    }
}

/// One more name leads one deeper, and one more `..` back to where the last name began,
/// or nowhere from the start, whatever came before.
pub proof fn each_step_leads_on_or_back(way: Seq<Seq<char>>, name: Seq<char>)
    ensures
        name != seq!['.', '.'] ==> climbed(way.push(name)) == climbed(way).push(name),
        climbed(way.push(seq!['.', '.'])) == climbed(way).take(
            if climbed(way).len() == 0 {
                0
            } else {
                climbed(way).len() - 1
            },
        ),
        climbed(Seq::empty()) == Seq::<Seq<char>>::empty(),
{
    assert(way.push(name).drop_last() == way);
    assert(way.push(seq!['.', '.']).drop_last() == way);
    if climbed(way).len() == 0 {
        assert(climbed(way).take(0) =~= climbed(way));
    } else {
        assert(climbed(way).take(climbed(way).len() - 1) =~= climbed(way).drop_last());
    }
}

/// Going one way and then another is going the second from where the first leads.
pub proof fn a_way_is_gone_in_stages(first: Seq<Seq<char>>, second: Seq<Seq<char>>)
    ensures
        climbed(first + second) == climbed(climbed(first) + second),
    decreases second.len(),
{
    if second.len() == 0 {
        assert(first + second == first);
        assert(climbed(first) + second == climbed(first));
        lemma_climbed_holds_no_way_up(first);
        lemma_climbed_names_stay(climbed(first));
    } else {
        a_way_is_gone_in_stages(first, second.drop_last());
        assert((first + second).drop_last() == first + second.drop_last());
        assert((climbed(first) + second).drop_last() == climbed(first) + second.drop_last());
        assert((first + second).last() == second.last());
        assert((climbed(first) + second).last() == second.last());
    }
}

proof fn lemma_climbed_holds_no_way_up(way: Seq<Seq<char>>)
    ensures
        forall|i: int| 0 <= i < climbed(way).len() ==> (#[trigger] climbed(way)[i]) != seq!['.', '.'],
    decreases way.len(),
{
    if way.len() > 0 {
        lemma_climbed_holds_no_way_up(way.drop_last());
        let before = climbed(way.drop_last());
        assert forall|i: int| 0 <= i < climbed(way).len() implies (#[trigger] climbed(way)[i])
            != seq!['.', '.'] by {
            if i < before.len() {
                assert(climbed(way)[i] == before[i]);
            }
        }
    }
}

/// `..`, `k` times over.
pub open spec fn ways_up(k: nat) -> Seq<Seq<char>> {
    Seq::new(k, |i: int| seq!['.', '.'])
}

/// From names, `k` times `..` leads back past the last `k` of them, and no further than
/// the start.
pub proof fn ways_up_take_names_back(names: Seq<Seq<char>>, k: nat)
    requires
        forall|i: int| 0 <= i < names.len() ==> (#[trigger] names[i]) != seq!['.', '.'],
    ensures
        climbed(names + ways_up(k)) == names.take(
            if k <= names.len() {
                names.len() - k
            } else {
                0
            },
        ),
    decreases k,
{
    let left = |n: nat| if n <= names.len() { names.len() - n } else { 0 };
    if k == 0 {
        assert(names + ways_up(k) == names);
        lemma_climbed_names_stay(names);
        assert(names.take(names.len() as int) == names);
    } else {
        let fewer = (k - 1) as nat;
        ways_up_take_names_back(names, fewer);
        assert(ways_up(k) =~= ways_up(fewer).push(seq!['.', '.']));
        assert(names + ways_up(k) =~= (names + ways_up(fewer)).push(seq!['.', '.']));
        each_step_leads_on_or_back(names + ways_up(fewer), seq!['.']);
        let before = names.take(left(fewer));
        if k <= names.len() {
            assert(before.take(before.len() - 1) =~= names.take(names.len() - k));
        } else {
            assert(before.take(0) =~= names.take(0));
        }
    }
}

/// `../`, `k` times over.
pub open spec fn up_text(k: nat) -> Seq<char>
    decreases k,
{
    if k == 0 {
        Seq::empty()
    } else {
        up_text((k - 1) as nat) + seq!['.', '.', '/']
    }
}

proof fn lemma_segments_of_up_text(k: nat, rest: Seq<char>)
    ensures
        segments(up_text(k) + rest) == ways_up(k) + segments(rest),
    decreases k,
{
    if k == 0 {
        assert(up_text(k) + rest == rest);
        assert(ways_up(k) + segments(rest) =~= segments(rest));
    } else {
        let fewer = (k - 1) as nat;
        let up = seq!['.', '.'];
        assert(up_text(k) + rest =~= up_text(fewer) + (up + seq!['/'] + rest));
        lemma_segments_of_up_text(fewer, up + seq!['/'] + rest);
        a_separator_parts_the_segments(up, rest);
        assert forall|i: int| 0 <= i < up.len() implies up[i] != '/' by {}
        a_plain_part_is_one_segment(up);
        assert(ways_up(k) =~= ways_up(fewer) + seq![up]);
        assert(ways_up(fewer) + (seq![up] + segments(rest)) =~= ways_up(k) + segments(rest));
    }
}

/// A name that is a segment and leads no way up.
pub open spec fn is_name(part: Seq<char>) -> bool {
    is_segment(part) && part != seq!['.', '.']
}

/// From a file in the directory `dirs`, `./` and `k` times `../` lead out of the last
/// `k` directories, and the names behind them down from there.
pub proof fn relative_imports_climb_and_descend(
    dirs: Seq<Seq<char>>,
    name: Seq<char>,
    k: nat,
    names: Seq<Seq<char>>,
)
    requires
        forall|i: int| 0 <= i < dirs.len() ==> is_name(#[trigger] dirs[i]),
        is_name(name),
        forall|i: int| 0 <= i < names.len() ==> is_name(#[trigger] names[i]),
    ensures
        ({
            let kept = dirs.take(
                if k <= dirs.len() {
                    dirs.len() - k
                } else {
                    0
                },
            );
            let target = Some(slash_joined(kept + names));
            &&& resolved_import(
                slash_joined(dirs.push(name)),
                seq!['.', '/'] + up_text(k) + slash_joined(names),
            ) == target
            &&& k > 0 ==> resolved_import(
                slash_joined(dirs.push(name)),
                up_text(k) + slash_joined(names),
            ) == target
        }),
{
    let file = slash_joined(dirs.push(name));
    let rest = slash_joined(names);
    let plain = up_text(k) + rest;
    let dotted = seq!['.', '/'] + up_text(k) + rest;
    assert(dotted == seq!['.', '/'] + plain);
    assert forall|i: int| 0 <= i < dirs.push(name).len() implies is_segment(
        #[trigger] dirs.push(name)[i],
    ) by {
        if i < dirs.len() {
            assert(is_name(dirs[i]));
        }
    }
    assert forall|i: int| 0 <= i < names.len() implies is_segment(#[trigger] names[i]) by {
        assert(is_name(names[i]));
    }
    joined_segments_split_again(dirs.push(name));
    joined_segments_split_again(names);
    assert(dirs.push(name).drop_last() == dirs);
    lemma_segments_of_up_text(k, rest);
    a_leading_dot_adds_nothing(plain);
    let way = dirs + (ways_up(k) + names);
    assert(way =~= dirs + ways_up(k) + names);
    a_way_is_gone_in_stages(dirs + ways_up(k), names);
    assert forall|i: int| 0 <= i < dirs.len() implies (#[trigger] dirs[i]) != seq!['.', '.'] by {
        assert(is_name(dirs[i]));
    }
    ways_up_take_names_back(dirs, k);
    let kept = climbed(dirs + ways_up(k));
    assert forall|i: int| 0 <= i < (kept + names).len() implies (#[trigger] (kept + names)[i])
        != seq!['.', '.'] by {
        if i < kept.len() {
            assert(kept[i] == dirs[i]);
        } else {
            assert(is_name(names[i - kept.len()]));
        }
    }
    lemma_climbed_names_stay(kept + names);
    assert(dotted[0] == '.');
    if k > 0 {
        lemma_up_text_begins_with_a_dot(k);
        assert(plain[0] == '.');
    }
}

proof fn lemma_up_text_begins_with_a_dot(k: nat)
    requires
        k > 0,
    ensures
        up_text(k).len() > 0,
        up_text(k)[0] == '.',
    decreases k,
{
    if k > 1 {
        lemma_up_text_begins_with_a_dot((k - 1) as nat);
    } else {
        assert(up_text(0) == Seq::<char>::empty());
    }
}

/// An import from the project root names the module by its path from there.
pub proof fn root_imports_name_their_module(file_path: Seq<char>, names: Seq<Seq<char>>)
    requires
        forall|i: int| 0 <= i < names.len() ==> is_name(#[trigger] names[i]),
    ensures
        resolved_import(file_path, seq!['/'] + slash_joined(names)) == Some(slash_joined(names)),
{
    assert forall|i: int| 0 <= i < names.len() implies is_segment(#[trigger] names[i])
        && names[i] != seq!['.', '.'] by {
        assert(is_name(names[i]));
    }
    lemma_segments_after_root(names);
    lemma_climbed_names_stay(names);
}

/// A relative import is resolved from every file but one at the root itself or without
/// a path.
pub proof fn relative_imports_need_a_directory(file_path: Seq<char>, import_path: Seq<char>)
    requires
        import_path.len() > 0,
        import_path[0] == '.',
    ensures
        file_path.len() > 0 && file_path[0] != '/' ==> resolved_import(file_path, import_path)
            is Some,
        file_path.len() > 0 && file_path[0] == '/' ==> (resolved_import(file_path, import_path)
            is Some <==> segments(file_path).len() > 0),
        file_path.len() == 0 ==> resolved_import(file_path, import_path) is None,
{
    let parts = text::split(file_path, '/');
    if file_path.len() == 0 {
        a_plain_part_is_one_segment(file_path);
    } else if file_path[0] != '/' && !starts_here(file_path) {
        let end = lemma_first_part_end(file_path);
        let first = file_path.take(end);
        a_plain_part_is_one_segment(first);
        assert(first[0] == file_path[0]);
        if end < file_path.len() {
            assert(file_path =~= first + seq!['/'] + file_path.skip(end + 1));
            a_separator_parts_the_segments(first, file_path.skip(end + 1));
            if end == 1 {
                assert(file_path[1] == '/');
            }
        } else {
            assert(first == file_path);
        }
    }
}

/// Where the first part of a path ends.
proof fn lemma_first_part_end(s: Seq<char>) -> (end: int)
    requires
        s.len() > 0,
        s[0] != '/',
    ensures
        0 < end <= s.len(),
        !s.take(end).contains('/'),
        end < s.len() ==> s[end] == '/',
    decreases s.len(),
{
    if s.len() == 1 {
        assert(s.take(1) == s);
        assert forall|i: int| 0 <= i < s.len() implies s[i] != '/' by {}
        1
    } else {
        let end = lemma_first_part_end(s.drop_last());
        assert(s.drop_last().take(end) =~= s.take(end));
        if end < s.len() - 1 || s.last() == '/' {
            end
        } else {
            let whole = s.take(s.len() as int);
            assert forall|i: int| 0 <= i < whole.len() implies whole[i] != '/' by {
                if i < s.len() - 1 {
                    assert(s.take(end)[i] == whole[i]);
                    assert(s.take(end).contains(whole[i]));
                }
            }
            s.len() as int
        }
    }
}

proof fn lemma_last_dot_of(stem: Seq<char>, ext: Seq<char>)
    requires
        !ext.contains('.'),
    ensures
        last_dot(stem + seq!['.'] + ext) == Some(stem.len() as int),
    decreases ext.len(),
{
    let name = stem + seq!['.'] + ext;
    if ext.len() == 0 {
        assert(name.last() == '.');
    } else {
        let init = ext.drop_last();
        assert(ext[ext.len() - 1] == ext.last());
        assert(ext.contains(ext.last()));
        assert forall|i: int| 0 <= i < init.len() implies init[i] != '.' by {
            assert(ext[i] == init[i]);
            assert(ext.contains(init[i]));
        }
        lemma_last_dot_of(stem, init);
        assert(name.drop_last() =~= stem + seq!['.'] + init);
        assert(name.last() == ext.last());
    }
}

proof fn lemma_no_dot(name: Seq<char>)
    requires
        !name.contains('.'),
    ensures
        last_dot(name) is None,
    decreases name.len(),
{
    if name.len() > 0 {
        assert(name[name.len() - 1] == name.last());
        assert(name.contains(name.last()));
        let init = name.drop_last();
        assert forall|i: int| 0 <= i < init.len() implies init[i] != '.' by {
            assert(name[i] == init[i]);
            assert(name.contains(init[i]));
        }
        lemma_no_dot(init);
    }
}

/// The extension of a file is what follows the last dot of its name, in whatever
/// directory it lies.
pub proof fn an_extension_follows_the_last_dot(dir: Seq<char>, stem: Seq<char>, ext: Seq<char>)
    requires
        stem.len() > 0,
        !stem.contains('/'),
        !ext.contains('/'),
        !ext.contains('.'),
        ext.len() > 0,
    ensures
        extension(stem + seq!['.'] + ext) == Some(ext),
        extension(dir + seq!['/'] + stem + seq!['.'] + ext) == Some(ext),
{
    let name = stem + seq!['.'] + ext;
    assert forall|i: int| 0 <= i < name.len() implies name[i] != '/' by {
        if i < stem.len() {
            assert(stem.contains(name[i]));
        } else if i > stem.len() {
            assert(ext[i - stem.len() - 1] == name[i]);
            assert(ext.contains(name[i]));
        }
    }
    a_plain_part_is_one_segment(name);
    assert(name.last() == ext.last());
    assert(ext.contains(ext.last()));
    if name == seq!['.', '.'] {
        assert(name.last() == '.');
    }
    lemma_last_dot_of(stem, ext);
    assert(name.skip(stem.len() as int + 1) =~= ext);
    let whole = dir + seq!['/'] + stem + seq!['.'] + ext;
    assert(whole =~= dir + seq!['/'] + name);
    a_separator_parts_the_segments(dir, name);
    assert(segments(whole).last() == name);
}

/// A name without a dot, or with none but a leading one, has no extension.
pub proof fn names_without_dots_have_no_extension(dir: Seq<char>, name: Seq<char>)
    requires
        !name.contains('/'),
        !name.contains('.'),
        name.len() > 0,
    ensures
        extension(name) is None,
        extension(dir + seq!['/'] + name) is None,
        extension(seq!['.'] + name) is None,
{
    a_plain_part_is_one_segment(name);
    lemma_no_dot(name);
    a_separator_parts_the_segments(dir, name);
    assert(segments(dir + seq!['/'] + name).last() == name);
    let hidden = seq!['.'] + name;
    assert forall|i: int| 0 <= i < hidden.len() implies hidden[i] != '/' by {
        if i > 0 {
            assert(name.contains(hidden[i]));
        }
    }
    a_plain_part_is_one_segment(hidden);
    let none = Seq::<char>::empty();
    lemma_last_dot_of(none, name);
    assert(none + seq!['.'] + name =~= hidden);
}

/// Whether `ext` is `ts`, in whatever case.
pub open spec fn spells_ts(ext: Seq<char>) -> bool {
    ext.len() == 2 && (ext[0] == 't' || ext[0] == 'T') && (ext[1] == 's' || ext[1] == 'S')
}

/// Whether `ext` is `tsx`, in whatever case.
pub open spec fn spells_tsx(ext: Seq<char>) -> bool {
    ext.len() == 3 && spells_ts(ext.take(2)) && (ext[2] == 'x' || ext[2] == 'X')
}

/// A file is a source exactly where its extension is `ts` or `tsx`, and a TSX file where
/// it is `tsx`, in whatever case they are written.
pub proof fn sources_are_told_by_their_extension(dir: Seq<char>, stem: Seq<char>, ext: Seq<char>)
    requires
        stem.len() > 0,
        !stem.contains('/'),
        !ext.contains('/'),
        !ext.contains('.'),
        ext.len() > 0,
    ensures
        names_source(dir + seq!['/'] + stem + seq!['.'] + ext) <==> spells_ts(ext) || spells_tsx(
            ext,
        ),
        names_tsx(dir + seq!['/'] + stem + seq!['.'] + ext) <==> spells_tsx(ext),
        names_source(stem + seq!['.'] + ext) <==> spells_ts(ext) || spells_tsx(ext),
        names_tsx(stem + seq!['.'] + ext) <==> spells_tsx(ext),
{
    an_extension_follows_the_last_dot(dir, stem, ext);
    let lowered = text::ascii_lowered(ext);
    let ts = seq!['t', 's'];
    let tsx = seq!['t', 's', 'x'];
    if spells_ts(ext) {
        assert(lowered =~= ts);
    }
    if spells_tsx(ext) {
        assert(ext.take(2)[0] == ext[0] && ext.take(2)[1] == ext[1]);
        assert(lowered =~= tsx);
    }
    if lowered == ts {
        assert(lowered.len() == 2 && lowered[0] == 't' && lowered[1] == 's');
        assert(text::ascii_lower(ext[0]) == 't' && text::ascii_lower(ext[1]) == 's');
    }
    if lowered == tsx {
        assert(lowered.len() == 3 && lowered[0] == 't' && lowered[1] == 's' && lowered[2] == 'x');
        assert(text::ascii_lower(ext[0]) == 't' && text::ascii_lower(ext[1]) == 's'
            && text::ascii_lower(ext[2]) == 'x');
        assert(ext.take(2)[0] == ext[0] && ext.take(2)[1] == ext[1]);
    }
}

/// A path without `\` that does not begin with `./` is normalized; a `\` is a `/`.
pub proof fn normalizing_changes_nothing_else(
    path: Seq<char>,
    front: Seq<char>,
    back: Seq<char>,
)
    requires
        !path.contains('\\'),
        !(path.len() >= 2 && path[0] == '.' && path[1] == '/'),
    ensures
        normalized(path) == path,
        normalized(front + seq!['\\'] + back) == normalized(front + seq!['/'] + back),
{
    assert forall|i: int| 0 <= i < path.len() implies slashed(path)[i] == path[i] by {
        assert(path.contains(path[i]));
    }
    assert(slashed(path) =~= path);
    assert(slashed(front + seq!['\\'] + back) =~= slashed(front + seq!['/'] + back));
}

/// An ending that starts with a dot and holds no separator stays in normalizing.
pub proof fn an_ending_stays_in_normalizing(path: Seq<char>, ending: Seq<char>)
    requires
        ending.len() >= 2,
        ending[0] == '.',
        !ending.contains('/'),
        !ending.contains('\\'),
    ensures
        normalized(path + ending) == normalized(path) + ending,
{
    assert(slashed(path + ending) =~= slashed(path) + ending) by {
        assert forall|i: int| 0 <= i < ending.len() implies ending[i] != '\\' by {
            assert(ending.contains(ending[i]));
        }
    }
    assert(ending[1] != '/') by {
        assert(ending.contains(ending[1]));
    }
    lemma_ending_stays(slashed(path), ending);
}

proof fn lemma_ending_stays(s: Seq<char>, ending: Seq<char>)
    requires
        ending.len() >= 2,
        ending[0] == '.',
        ending[1] != '/',
    ensures
        without_dot_slash(s + ending) == without_dot_slash(s) + ending,
    decreases s.len(),
{
    if s.len() >= 2 && s[0] == '.' && s[1] == '/' {
        lemma_ending_stays(s.skip(2), ending);
        assert((s + ending).skip(2) =~= s.skip(2) + ending);
    } else if s.len() == 1 {
        assert((s + ending)[1] == '.');
    } else if s.len() == 0 {
        assert(s + ending =~= ending);
    }
}

}
