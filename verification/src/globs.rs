//! Glob patterns, matched by the `globset` crate.
//!
//! What a pattern matches is the crate's business: here it has a name,
//! `glob_matches`, and so have the texts with which patterns are refused. The names
//! stand for the crate's answers on platforms where `/` alone separates paths.

use globset::{Glob, GlobSet, GlobSetBuilder};
use vstd::prelude::*;

verus! {

#[verifier::external_type_specification]
#[verifier::external_body]
pub struct ExGlob(globset::Glob);

#[verifier::external_type_specification]
#[verifier::external_body]
pub struct ExGlobError(globset::Error);

#[verifier::external_type_specification]
#[verifier::external_body]
pub struct ExGlobSet(globset::GlobSet);

#[verifier::external_type_specification]
#[verifier::external_body]
pub struct ExGlobSetBuilder(globset::GlobSetBuilder);

/// Whether a set that holds `pattern` alone matches `path`.
pub uninterp spec fn glob_matches(pattern: Seq<char>, path: Seq<char>) -> bool;

/// The text of the error with which `Glob::new` refuses `pattern`, if it does.
pub uninterp spec fn glob_error(pattern: Seq<char>) -> Option<Seq<char>>;

/// The text of the error with which a set of `patterns`, each of them a glob, fails
/// to build, if it does.
pub uninterp spec fn glob_set_error(patterns: Seq<Seq<char>>) -> Option<Seq<char>>;

/// The text of a `globset` error.
pub uninterp spec fn glob_error_text(error: globset::Error) -> Seq<char>;

/// The pattern from which a glob was made.
pub uninterp spec fn glob_pattern(glob: Glob) -> Seq<char>;

/// The patterns that a builder holds, in the order in which they were added.
pub uninterp spec fn builder_patterns(builder: GlobSetBuilder) -> Seq<Seq<char>>;

/// The patterns that a set holds, in order.
pub uninterp spec fn set_patterns(set: GlobSet) -> Seq<Seq<char>>;

/// `globset::Glob::new`: a glob made of `glob`, or the error that its text decides.
pub assume_specification[ globset::Glob::new ](glob: &str) -> (r: Result<Glob, globset::Error>)
    ensures
        match r {
            Ok(made) => glob_error(glob@) is None && glob_pattern(made) == glob@,
            Err(error) => glob_error(glob@) == Some(glob_error_text(error)),
        },
;

/// `globset::GlobSetBuilder::new`: a builder that holds nothing.
pub assume_specification[ globset::GlobSetBuilder::new ]() -> (r: GlobSetBuilder)
    ensures
        builder_patterns(r) == Seq::<Seq<char>>::empty(),
;

/// `globset::GlobSetBuilder::add`: the glob goes behind those already there.
#[verifier::external_body]
fn add_glob(builder: &mut GlobSetBuilder, glob: Glob)
    ensures
        builder_patterns(*final(builder)) == builder_patterns(*old(builder)).push(
            glob_pattern(glob),
        ),
{
    builder.add(glob);
}

/// `globset::GlobSetBuilder::build`: the set of the builder's patterns, or the error
/// that they decide. A builder that holds nothing builds.
pub assume_specification[ globset::GlobSetBuilder::build ](builder: &GlobSetBuilder) -> (r: Result<
    GlobSet,
    globset::Error,
>)
    ensures
        match r {
            Ok(set) => glob_set_error(builder_patterns(*builder)) is None && set_patterns(set)
                == builder_patterns(*builder),
            Err(error) => glob_set_error(builder_patterns(*builder)) == Some(
                glob_error_text(error),
            ) && builder_patterns(*builder).len() > 0,
        },
;

/// `globset::GlobSet::is_match`: whether any glob of the set matches the path.
#[verifier::external_body]
pub(crate) fn glob_set_matches(set: &GlobSet, path: &str) -> (r: bool)
    ensures
        r == (exists|i: int|
            0 <= i < set_patterns(*set).len() && glob_matches(
                #[trigger] set_patterns(*set)[i],
                path@,
            )),
{
    set.is_match(path)
}

/// `GlobSet`'s `clone`: a set of the same patterns.
pub assume_specification[ <globset::GlobSet as std::clone::Clone>::clone ](set: &GlobSet) -> (r:
    GlobSet)
    ensures
        set_patterns(r) == set_patterns(*set),
;

/// `globset::Error`'s `to_string`: the error's text.
#[verifier::external_body]
pub(crate) fn describe_glob_error(error: &globset::Error) -> (r: String)
    ensures
        r@ == glob_error_text(*error),
{
    error.to_string()
}

/// Whether one of `patterns` matches `path`.
pub open spec fn matches_any(patterns: Seq<Seq<char>>, path: Seq<char>) -> bool {
    exists|i: int| 0 <= i < patterns.len() && glob_matches(#[trigger] patterns[i], path)
}

/// The error of the first of `patterns` that is no glob.
pub open spec fn first_glob_error(patterns: Seq<Seq<char>>) -> Option<Seq<char>>
    decreases patterns.len(),
{
    if patterns.len() == 0 {
        None
    } else {
        match first_glob_error(patterns.drop_last()) {
            Some(error) => Some(error),
            None => glob_error(patterns.last()),
        }
    }
}

/// Why no set can be made of `patterns`.
pub open spec fn patterns_error(patterns: Seq<Seq<char>>) -> Option<Seq<char>> {
    match first_glob_error(patterns) {
        Some(error) => Some(error),
        None => glob_set_error(patterns),
    }
}

proof fn lemma_first_glob_error_stays(patterns: Seq<Seq<char>>, n: int)
    requires
        0 <= n <= patterns.len(),
        first_glob_error(patterns.take(n)) is Some,
    ensures
        first_glob_error(patterns) == first_glob_error(patterns.take(n)),
    decreases patterns.len(),
{
    if n == patterns.len() {
        assert(patterns.take(n) == patterns);
    } else {
        assert(patterns.drop_last().take(n) == patterns.take(n));
        lemma_first_glob_error_stays(patterns.drop_last(), n);
    }
}

/// The set of `patterns`.
pub fn build_glob_set(patterns: &[String]) -> (r: Result<GlobSet, globset::Error>)
    ensures
        match r {
            Ok(set) => patterns_error(patterns.deep_view()) is None && set_patterns(set)
                == patterns.deep_view(),
            Err(error) => patterns_error(patterns.deep_view()) == Some(glob_error_text(error)),
        },
{
    let mut builder = GlobSetBuilder::new();
    let mut i: usize = 0;
    while i < patterns.len()
        invariant
            i <= patterns@.len(),
            builder_patterns(builder) == patterns.deep_view().take(i as int),
            first_glob_error(patterns.deep_view().take(i as int)) is None,
        decreases patterns@.len() - i,
    {
        proof {
            let upto = patterns.deep_view().take(i + 1);
            assert(upto.drop_last() == patterns.deep_view().take(i as int));
            assert(upto.last() == patterns@[i as int]@);
            assert(patterns.deep_view().take(i as int).push(patterns@[i as int]@) == upto);
        }
        match Glob::new(patterns[i].as_str()) {
            Ok(glob) => add_glob(&mut builder, glob),
            Err(error) => {
                proof {
                    lemma_first_glob_error_stays(patterns.deep_view(), i + 1);
                }
                return Err(error);
            },
        }
        i += 1;
    }
    assert(patterns.deep_view().take(i as int) == patterns.deep_view());
    builder.build()
}

/// A set matches whatever one of its patterns matches, so more patterns match no
/// less.
pub proof fn more_patterns_match_no_less(
    patterns: Seq<Seq<char>>,
    more: Seq<Seq<char>>,
    path: Seq<char>,
)
    requires
        forall|i: int| 0 <= i < patterns.len() ==> more.contains(#[trigger] patterns[i]),
    ensures
        matches_any(patterns, path) ==> matches_any(more, path),
{
    if matches_any(patterns, path) {
        let i = choose|i: int|
            0 <= i < patterns.len() && glob_matches(#[trigger] patterns[i], path);
        let j = choose|j: int| 0 <= j < more.len() && more[j] == patterns[i];
        assert(glob_matches(more[j], path));
    }
}

/// No pattern matches nothing; one matches what its glob matches; more match what the
/// first ones or the others match.
pub proof fn patterns_match_one_by_one(
    pattern: Seq<char>,
    first: Seq<Seq<char>>,
    second: Seq<Seq<char>>,
    path: Seq<char>,
)
    ensures
        !matches_any(Seq::empty(), path),
        matches_any(seq![pattern], path) <==> glob_matches(pattern, path),
        matches_any(first + second, path) <==> matches_any(first, path) || matches_any(
            second,
            path,
        ),
{
    assert(seq![pattern][0] == pattern);
    let all = first + second;
    if matches_any(first, path) {
        let i = choose|i: int| 0 <= i < first.len() && glob_matches(#[trigger] first[i], path);
        assert(glob_matches(all[i], path));
    }
    if matches_any(second, path) {
        let i = choose|i: int| 0 <= i < second.len() && glob_matches(#[trigger] second[i], path);
        assert(glob_matches(all[first.len() + i], path));
    }
    if matches_any(all, path) {
        let i = choose|i: int| 0 <= i < all.len() && glob_matches(#[trigger] all[i], path);
        if i < first.len() {
            assert(glob_matches(first[i], path));
        } else {
            assert(glob_matches(second[i - first.len()], path));
        }
    }
}

/// A set can be made exactly where every pattern is a glob and the globs make a set.
pub proof fn sets_are_made_of_globs(patterns: Seq<Seq<char>>)
    ensures
        patterns_error(patterns) is None <==> (forall|i: int|
            0 <= i < patterns.len() ==> glob_error(#[trigger] patterns[i]) is None)
            && glob_set_error(patterns) is None,
{
    lemma_no_glob_error(patterns);
}

proof fn lemma_no_glob_error(patterns: Seq<Seq<char>>)
    ensures
        first_glob_error(patterns) is None <==> forall|i: int|
            0 <= i < patterns.len() ==> glob_error(#[trigger] patterns[i]) is None,
    decreases patterns.len(),
{
    if patterns.len() > 0 {
        let init = patterns.drop_last();
        lemma_no_glob_error(init);
        assert(patterns[patterns.len() - 1] == patterns.last());
        assert forall|i: int| 0 <= i < init.len() implies init[i] == #[trigger] patterns[i] by {}
        if first_glob_error(patterns) is None {
            assert forall|i: int| 0 <= i < patterns.len() implies glob_error(
                #[trigger] patterns[i],
            ) is None by {
                if i < init.len() {
                    assert(glob_error(init[i]) is None);
                }
            }
        }
        if forall|i: int| 0 <= i < patterns.len() ==> glob_error(#[trigger] patterns[i]) is None {
            assert forall|i: int| 0 <= i < init.len() implies glob_error(#[trigger] init[i])
                is None by {
                assert(init[i] == patterns[i]);
            }
        }
    }
}

/// Where patterns are no globs, the first of them is the one that is told.
pub proof fn the_first_that_is_no_glob_is_told(patterns: Seq<Seq<char>>, k: int)
    requires
        0 <= k < patterns.len(),
        glob_error(patterns[k]) is Some,
        forall|i: int| 0 <= i < k ==> glob_error(#[trigger] patterns[i]) is None,
    ensures
        patterns_error(patterns) == glob_error(patterns[k]),
{
    let upto = patterns.take(k + 1);
    assert(upto.drop_last() == patterns.take(k));
    assert(upto.last() == patterns[k]);
    lemma_no_glob_error(patterns.take(k));
    assert forall|i: int| 0 <= i < k implies glob_error(#[trigger] patterns.take(k)[i]) is None by {
        assert(patterns.take(k)[i] == patterns[i]);
    }
    lemma_first_glob_error_stays(patterns, k + 1);
}

}
