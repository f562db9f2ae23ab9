//! The settings a vault is built from: its source directory and the ignore
//! patterns of the directory walker.

use vstd::prelude::*;
use crate::context::{CommonMarkHandler, WikilinkHandler};
use crate::text::{chars_of, string_of};

verus! {

/// The errors of building a vault.
pub enum Error {
    /// The source of a vault is not a directory.
    VaultSourceNotDir,
    /// A path does not exist.
    PathNotFound(String),
    /// The destination of an arc is not found.
    InvalidArcDestination(String),
    /// An ignore pattern is not a valid glob.
    IgnorePatternError(String),
}

/// Whether the directory walker's override builder accepts `glob` as a line
/// of its override list.
pub uninterp spec fn override_accepted(glob: Seq<char>) -> bool;

/// Adds `glob` to a fresh `ignore::overrides::OverrideBuilder` and tells
/// whether it was accepted.  What `add` accepts depends on the glob alone
/// (the builder's root plays no part in it); its contract claims only that.
#[verifier::external_body]
fn check_override(glob: &str) -> (ok: bool)
    ensures
        ok == override_accepted(glob@),
{
    ignore::overrides::OverrideBuilder::new("").add(glob).is_ok()
}

/// The override line for the ignore pattern `ignore`: overrides whitelist
/// what they match unless they start with `!`, so the sense of the pattern
/// is turned around.
pub open spec fn toggled(ignore: Seq<char>) -> Seq<char> {
    if ignore.len() > 0 && ignore[0] == '!' {
        ignore.drop_first()
    } else {
        seq!['!'] + ignore
    }
}

fn toggle(ignore: &str) -> (r: String)
    ensures
        r@ == toggled(ignore@),
{
    let s = chars_of(ignore);
    let mut out: Vec<char> = Vec::new();
    if s.len() > 0 && s[0] == '!' {
        let mut k: usize = 1;
        while k < s.len()
            invariant
                1 <= k <= s@.len(),
                out@ == s@.subrange(1, k as int),
            decreases s@.len() - k,
        {
            out.push(s[k]);
            k = k + 1;
            assert(out@ =~= s@.subrange(1, k as int));
        }
        assert(out@ =~= s@.drop_first());
    } else {
        out.push('!');
        let mut k: usize = 0;
        while k < s.len()
            invariant
                k <= s@.len(),
                out@ == seq!['!'] + s@.subrange(0, k as int),
            decreases s@.len() - k,
        {
            out.push(s[k]);
            k = k + 1;
            assert(out@ =~= seq!['!'] + s@.subrange(0, k as int));
        }
        assert(s@.subrange(0, s@.len() as int) =~= s@);
    }
    string_of(&out)
}

/// What a vault is built from: a source directory, the override lines of
/// the directory walker, and the handlers that rewrite wikilinks.
pub struct VaultBuilder {
    source: String,
    overrides: Vec<String>,
    handlers: Vec<Box<dyn WikilinkHandler>>,
}

impl VaultBuilder {
    /// The source directory.
    pub closed spec fn source_path(&self) -> Seq<char> {
        self.source@
    }

    /// The override lines, in the order they were added.
    pub closed spec fn override_lines(&self) -> Seq<Seq<char>> {
        self.overrides@.map_values(|s: String| s@)
    }

    /// The wikilink handlers, in the order they run.
    pub closed spec fn handler_list(&self) -> Seq<Box<dyn WikilinkHandler>> {
        self.handlers@
    }

    /// Sets the source directory.  Whether it is a directory is checked when
    /// the vault is built.
    pub fn source(self, source: &str) -> (r: VaultBuilder)
        ensures
            r.source_path() == source@,
            r.override_lines() == self.override_lines(),
            r.handler_list() == self.handler_list(),
    {
        VaultBuilder { source: source.to_string(), overrides: self.overrides, handlers: self.handlers }
    }

    /// Replaces the wikilink handlers with `handlers`.
    pub fn wikilink_handlers(self, handlers: Vec<Box<dyn WikilinkHandler>>) -> (r: VaultBuilder)
        ensures
            r.source_path() == self.source_path(),
            r.override_lines() == self.override_lines(),
            r.handler_list() == handlers@,
    {
        VaultBuilder { source: self.source, overrides: self.overrides, handlers }
    }

    /// Adds a wikilink handler, to run after the others.
    pub fn add_wikilink_handler(&mut self, handler: Box<dyn WikilinkHandler>)
        ensures
            final(self).source_path() == old(self).source_path(),
            final(self).override_lines() == old(self).override_lines(),
            final(self).handler_list() == old(self).handler_list().push(handler),
    {
        self.handlers.push(handler);
    }

    /// The wikilink handlers, in the order they run.
    pub fn handlers(&self) -> (r: &[Box<dyn WikilinkHandler>])
        ensures
            r@ == self.handler_list(),
    {
        self.handlers.as_slice()
    }

    /// Adds an ignore pattern (in the gitignore format) for the directory
    /// walker; an invalid pattern is refused.
    pub fn add_ignore(&mut self, ignore: &str) -> (r: Result<(), Error>)
        ensures
            final(self).source_path() == old(self).source_path(),
            final(self).handler_list() == old(self).handler_list(),
            override_accepted(toggled(ignore@)) ==> r is Ok && final(self).override_lines() == old(
                self,
            ).override_lines().push(toggled(ignore@)),
            !override_accepted(toggled(ignore@)) ==> (r matches Err(Error::IgnorePatternError(p)) && p@
                == ignore@ && final(self).override_lines() == old(self).override_lines()),
    {
        let line = toggle(ignore);
        if check_override(line.as_str()) {
            let ghost before = self.overrides@;
            self.overrides.push(line);
            assert(self.overrides@.map_values(|s: String| s@) =~= before.map_values(|s: String| s@).push(
                toggled(ignore@),
            ));
            Ok(())
        } else {
            Err(Error::IgnorePatternError(ignore.to_string()))
        }
    }

    /// Adds the ignore patterns `ignores`, each of which must be valid.
    pub fn ignores(self, ignores: Vec<&str>) -> (r: VaultBuilder)
        requires
            forall|i: int| 0 <= i < ignores@.len() ==> override_accepted(toggled((#[trigger] ignores@[i])@)),
        ensures
            r.source_path() == self.source_path(),
            r.handler_list() == self.handler_list(),
            r.override_lines() == self.override_lines() + ignores@.map_values(|s: &str| toggled(s@)),
    {
        let mut b = self;
        let ghost start = b.override_lines();
        let mut k: usize = 0;
        while k < ignores.len()
            invariant
                k <= ignores@.len(),
                forall|i: int| 0 <= i < ignores@.len() ==> override_accepted(toggled((#[trigger] ignores@[i])@)),
                b.source_path() == self.source_path(),
                b.handler_list() == self.handler_list(),
                b.override_lines() == start + ignores@.subrange(0, k as int).map_values(|s: &str| toggled(s@)),
            decreases ignores@.len() - k,
        {
            let _ = b.add_ignore(ignores[k]);
            k = k + 1;
            assert(ignores@.subrange(0, k as int).map_values(|s: &str| toggled(s@)) =~= ignores@.subrange(
                0,
                k - 1,
            ).map_values(|s: &str| toggled(s@)).push(toggled(ignores@[k - 1]@)));
        }
        assert(ignores@.subrange(0, ignores@.len() as int) =~= ignores@);
        b
    }

    /// Adds the ignore patterns `ignores`, or refuses the first invalid one.
    pub fn try_ignores(self, ignores: Vec<&str>) -> (r: Result<VaultBuilder, Error>)
        ensures
            match r {
                Ok(b) => (forall|i: int| 0 <= i < ignores@.len() ==> override_accepted(toggled((#[trigger] ignores@[i])@)))
                    && b.source_path() == self.source_path() && b.handler_list() == self.handler_list()
                    && b.override_lines() == self.override_lines()
                    + ignores@.map_values(|s: &str| toggled(s@)),
                Err(Error::IgnorePatternError(p)) => exists|i: int|
                    0 <= i < ignores@.len() && (#[trigger] ignores@[i])@ == p@ && !override_accepted(toggled(p@)),
                Err(_) => false,
            },
    {
        let mut k: usize = 0;
        while k < ignores.len()
            invariant
                k <= ignores@.len(),
                forall|i: int| 0 <= i < k ==> override_accepted(toggled((#[trigger] ignores@[i])@)),
            decreases ignores@.len() - k,
        {
            let line = toggle(ignores[k]);
            if !check_override(line.as_str()) {
                let p = ignores[k].to_string();
                assert(ignores@[k as int]@ == p@);
                return Err(Error::IgnorePatternError(p));
            }
            k = k + 1;
        }
        Ok(self.ignores(ignores))
    }

    /// The source directory.
    pub fn source_dir(&self) -> (r: &String)
        ensures
            r@ == self.source_path(),
    {
        &self.source
    }

    /// The override lines of the directory walker, in the order they were added.
    pub fn overrides(&self) -> (r: &Vec<String>)
        ensures
            r@.map_values(|s: String| s@) == self.override_lines(),
    {
        &self.overrides
    }
}

impl Default for VaultBuilder {
    /// No source directory, no ignore patterns, and one wikilink handler: the
    /// one that writes CommonMark links.
    fn default() -> (r: VaultBuilder)
        ensures
            r.source_path() == Seq::<char>::empty(),
            r.override_lines() == Seq::<Seq<char>>::empty(),
    {
        let commonmark: Box<dyn WikilinkHandler> = Box::new(CommonMarkHandler);
        let mut handlers: Vec<Box<dyn WikilinkHandler>> = Vec::new();
        handlers.push(commonmark);
        let r = VaultBuilder { source: String::new(), overrides: Vec::new(), handlers };
        assert(r.overrides@.map_values(|s: String| s@) =~= Seq::<Seq<char>>::empty());
        r
    }
}

} // verus!
