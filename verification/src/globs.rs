//! Glob filters over hit paths, matched by the `ignore` crate.

use vstd::prelude::*;
use crate::error::{Error, ErrorView};
use crate::text::{chars_of, texts};

verus! {

#[verifier::external_type_specification]
#[verifier::external_body]
pub struct ExOverrideBuilder(ignore::overrides::OverrideBuilder);

#[verifier::external_type_specification]
#[verifier::external_body]
pub struct ExOverride(ignore::overrides::Override);

/// The globs a builder has been given.
pub uninterp spec fn builder_globs(b: ignore::overrides::OverrideBuilder) -> Seq<Seq<char>>;

/// The directory a builder was made for.
pub uninterp spec fn builder_root(b: ignore::overrides::OverrideBuilder) -> Seq<char>;

/// The globs a matcher was built from.
pub uninterp spec fn override_globs(o: ignore::overrides::Override) -> Seq<Seq<char>>;

/// The directory a matcher was built for.
pub uninterp spec fn override_root(o: ignore::overrides::Override) -> Seq<char>;

/// What `OverrideBuilder::add` finds wrong with a glob, as its error reads.
pub uninterp spec fn glob_fault(glob: Seq<char>) -> Option<Seq<char>>;

/// What `OverrideBuilder::build` finds wrong with the globs it was given
/// taken together, as its error reads.
pub uninterp spec fn set_fault(globs: Seq<Seq<char>>) -> Option<Seq<char>>;

/// What `Override::matched` says of a file under the globs of a directory:
/// whether it is wanted, or nothing.
pub uninterp spec fn glob_verdict(root: Seq<char>, globs: Seq<Seq<char>>, path: Seq<char>) -> Option<
    bool,
>;

/// `OverrideBuilder::new`: a builder for a directory, with no globs.
#[verifier::external_body]
fn new_builder(root: &str) -> (r: ignore::overrides::OverrideBuilder)
    ensures
        builder_root(r) == root@,
        builder_globs(r) == Seq::<Seq<char>>::empty(),
{
    ignore::overrides::OverrideBuilder::new(root)
}

/// `OverrideBuilder::add`: takes one glob more, or says what is wrong with it
/// and takes nothing. Which of the two is a function of the glob.
#[verifier::external_body]
fn add_glob(b: &mut ignore::overrides::OverrideBuilder, glob: &str) -> (r: Result<(), String>)
    ensures
        builder_root(*final(b)) == builder_root(*old(b)),
        match r {
            Ok(_) => glob_fault(glob@) is None && builder_globs(*final(b)) == builder_globs(
                *old(b),
            ).push(glob@),
            Err(e) => glob_fault(glob@) == Some(e@) && builder_globs(*final(b)) == builder_globs(
                *old(b),
            ),
        },
{
    match b.add(glob) {
        Ok(_) => Ok(()),
        Err(e) => Err(e.to_string()),
    }
}

/// `OverrideBuilder::build`: a matcher for the globs given so far, or what is
/// wrong with them. Which of the two is a function of the globs.
#[verifier::external_body]
fn build_matcher(b: &ignore::overrides::OverrideBuilder) -> (r: Result<
    ignore::overrides::Override,
    String,
>)
    ensures
        match r {
            Ok(o) => set_fault(builder_globs(*b)) is None && override_globs(o) == builder_globs(*b)
                && override_root(o) == builder_root(*b),
            Err(e) => set_fault(builder_globs(*b)) == Some(e@),
        },
{
    b.build().map_err(|e| e.to_string())
}

/// `Override::matched` for a file: wanted, not wanted, or not spoken of. The
/// answer is a function of the directory, the globs and the path.
#[verifier::external_body]
fn verdict(o: &ignore::overrides::Override, path: &str) -> (r: Option<bool>)
    ensures
        r == glob_verdict(override_root(*o), override_globs(*o), path@),
{
    match o.matched(path, false) {
        ignore::Match::None => None,
        ignore::Match::Ignore(_) => Some(false),
        ignore::Match::Whitelist(_) => Some(true),
    }
}

/// The first of the first `n` globs that is malformed, as its error reads.
pub open spec fn first_fault(globs: Seq<Seq<char>>, n: int) -> Option<Seq<char>>
    decreases n,
{
    if n <= 0 {
        None
    } else {
        match first_fault(globs, n - 1) {
            Some(e) => Some(e),
            None => glob_fault(globs[n - 1]),
        }
    }
}

/// What is wrong with a list of globs; nothing is wrong with an empty one.
pub open spec fn globs_fault(globs: Seq<Seq<char>>) -> Option<Seq<char>> {
    if globs.len() == 0 {
        None
    } else {
        match first_fault(globs, globs.len() as int) {
            Some(e) => Some(e),
            None => set_fault(globs),
        }
    }
}

/// Whether a glob asks for paths rather than excluding them.
pub open spec fn asks_for(glob: Seq<char>) -> bool {
    !(glob.len() > 0 && glob[0] == '!')
}

/// Whether some glob asks for paths.
pub open spec fn any_asks(globs: Seq<Seq<char>>) -> bool {
    exists|i: int| 0 <= i < globs.len() && asks_for(#[trigger] globs[i])
}

/// What a filter decides from the verdict on a path: an excluded path fails,
/// a path that a glob asks for passes, and any other passes unless globs
/// that ask for paths exist.
pub open spec fn passes(verdict: Option<bool>, asks: bool) -> bool {
    match verdict {
        Some(wanted) => wanted,
        None => !asks,
    }
}

/// Whether a path passes the globs of a directory.
pub open spec fn survives(root: Seq<char>, globs: Seq<Seq<char>>, path: Seq<char>) -> bool {
    globs.len() == 0 || passes(glob_verdict(root, globs, path), any_asks(globs))
}

/// What a filter decides from the verdict on a path.
pub fn keep_verdict(verdict: Option<bool>, asks: bool) -> (r: bool)
    ensures
        r == passes(verdict, asks),
{
    match verdict {
        Some(wanted) => wanted,
        None => !asks,
    }
}

/// Post-retrieval glob filter with the same whitelist semantics as the walker
/// overrides: a hit passes unless ignored, and when positive globs exist it
/// must match one. `!`-prefixed globs exclude.
pub struct GlobFilter {
    matcher: Option<ignore::overrides::Override>,
    positive: bool,
}

impl GlobFilter {
    /// The globs of the filter.
    pub closed spec fn globs(&self) -> Seq<Seq<char>> {
        match self.matcher {
            Some(o) => override_globs(o),
            None => Seq::empty(),
        }
    }

    /// The directory of the filter, where it has globs.
    pub closed spec fn root(&self) -> Seq<char> {
        match self.matcher {
            Some(o) => override_root(o),
            None => Seq::empty(),
        }
    }

    /// The filter remembers whether one of its globs asks for paths, and has
    /// a matcher when it has globs.
    #[verifier::type_invariant]
    closed spec fn valid(&self) -> bool {
        &&& self.positive == any_asks(self.globs())
        &&& self.matcher is Some <==> self.globs().len() > 0
    }

    /// Build from caller globs. Empty input matches everything.
    pub fn build(root: &str, globs: &[String]) -> (r: Result<GlobFilter, Error>)
        ensures
            match r {
                Ok(f) => globs_fault(texts(globs@)) is None && f.globs() == texts(globs@) && (
                globs@.len() > 0 ==> f.root() == root@),
                Err(e) => globs_fault(texts(globs@)) matches Some(m) && e@ == ErrorView::Walk(m),
            },
    {
        let ghost gs = texts(globs@);
        if globs.len() == 0 {
            proof {
                assert(gs =~= Seq::<Seq<char>>::empty());
            }
            return Ok(GlobFilter { matcher: None, positive: false });
        }
        let mut builder = new_builder(root);
        let mut positive = false;
        let mut i: usize = 0;
        proof {
            assert(gs.take(0) =~= Seq::<Seq<char>>::empty());
        }
        while i < globs.len()
            invariant
                i <= globs@.len(),
                gs == texts(globs@),
                globs@.len() > 0,
                first_fault(gs, i as int) is None,
                builder_root(builder) == root@,
                builder_globs(builder) == gs.take(i as int),
                positive == exists|j: int| 0 <= j < i && asks_for(#[trigger] gs[j]),
            decreases globs@.len() - i,
        {
            proof {
                assert(gs[i as int] == globs@[i as int]@);
            }
            if let Err(e) = add_glob(&mut builder, globs[i].as_str()) {
                proof {
                    lemma_first_fault(gs, i + 1, gs.len() as int);
                }
                return Err(Error::Walk(e));
            }
            let cs = chars_of(globs[i].as_str());
            if !(cs.len() > 0 && cs[0] == '!') {
                positive = true;
                proof {
                    assert(asks_for(gs[i as int]));
                }
            }
            proof {
                assert(gs.take(i + 1) =~= gs.take(i as int).push(gs[i as int]));
            }
            i += 1;
        }
        proof {
            assert(gs.take(i as int) =~= gs);
        }
        match build_matcher(&builder) {
            Err(e) => Err(Error::Walk(e)),
            Ok(o) => Ok(GlobFilter { matcher: Some(o), positive }),
        }
    }

    /// Whether a hit path survives the filter.
    pub fn keep(&self, path: &str) -> (r: bool)
        ensures
            r == (self.globs().len() == 0 || passes(
                glob_verdict(self.root(), self.globs(), path@),
                any_asks(self.globs()),
            )),
            r == survives(self.root(), self.globs(), path@),
    {
        proof {
            use_type_invariant(self);
        }
        match &self.matcher {
            None => true,
            Some(o) => keep_verdict(verdict(o, path), self.positive),
        }
    }
}

/// A fault among the first globs is a fault of the whole list.
proof fn lemma_first_fault(globs: Seq<Seq<char>>, i: int, n: int)
    requires
        0 <= i <= n,
        first_fault(globs, i) is Some,
    ensures
        first_fault(globs, n) == first_fault(globs, i),
    decreases n,
{
    if i < n {
        lemma_first_fault(globs, i, n - 1);
    }
}

/// Without globs every path passes. With globs, an excluded path never passes
/// and one that a glob asks for always does; a path that no glob speaks of
/// passes if and only if every glob is one that excludes.
pub proof fn globs_decide_what_passes(root: Seq<char>, globs: Seq<Seq<char>>, path: Seq<char>)
    ensures
        globs.len() == 0 ==> survives(root, globs, path),
        globs.len() > 0 && glob_verdict(root, globs, path) == Some(false) ==> !survives(
            root,
            globs,
            path,
        ),
        globs.len() > 0 && glob_verdict(root, globs, path) == Some(true) ==> survives(
            root,
            globs,
            path,
        ),
        globs.len() > 0 && glob_verdict(root, globs, path) is None ==> (survives(root, globs, path)
            <==> forall|i: int|
            0 <= i < globs.len() ==> (#[trigger] globs[i]).len() > 0 && globs[i][0] == '!'),
{
    if globs.len() > 0 && glob_verdict(root, globs, path) is None {
        if survives(root, globs, path) {
            assert forall|i: int| 0 <= i < globs.len() implies (#[trigger] globs[i]).len() > 0
                && globs[i][0] == '!' by {
                assert(!asks_for(globs[i]));
            }
        } else {
            let i = choose|i: int| 0 <= i < globs.len() && asks_for(#[trigger] globs[i]);
            assert(!(globs[i].len() > 0 && globs[i][0] == '!'));
        }
    }
}

/// The first malformed glob of a list is what is wrong with it, and a list
/// with nothing wrong holds no malformed glob.
pub proof fn the_first_malformed_glob_is_named(globs: Seq<Seq<char>>, i: int)
    requires
        0 <= i < globs.len(),
    ensures
        glob_fault(globs[i]) is Some && (forall|j: int|
            0 <= j < i ==> glob_fault(#[trigger] globs[j]) is None) ==> globs_fault(globs)
            == glob_fault(globs[i]),
        globs_fault(globs) is None ==> glob_fault(globs[i]) is None,
{
    if forall|j: int| 0 <= j < i ==> glob_fault(#[trigger] globs[j]) is None {
        lemma_no_fault(globs, i);
        if glob_fault(globs[i]) is Some {
            lemma_first_fault(globs, i + 1, globs.len() as int);
        }
    }
    if glob_fault(globs[i]) is Some {
        assert(first_fault(globs, i + 1) is Some);
        lemma_first_fault(globs, i + 1, globs.len() as int);
    }
}

proof fn lemma_no_fault(globs: Seq<Seq<char>>, n: int)
    requires
        0 <= n <= globs.len(),
        forall|j: int| 0 <= j < n ==> glob_fault(#[trigger] globs[j]) is None,
    ensures
        first_fault(globs, n) is None,
    decreases n,
{
    if n > 0 {
        lemma_no_fault(globs, n - 1);
        assert(glob_fault(globs[n - 1]) is None);
    }
}

} // verus!
