//! The reference classifier: given a library-reference string from a
//! binary's load commands, decide what kind of dependency it names and where
//! it canonically lives.

use vstd::prelude::*;
use crate::index::{index_map_of, BasenameIndex};
use crate::text::{basename, basename_of, starts_with, str_eq};
use crate::Resolution;

verus! {

/// The classifier's lookup state: the sysroot prefix, the sysroot binaries
/// (the traversal roots), and one basename index per library universe.
pub struct Resolver {
    /// The sysroot path prefix; a reference that opens with it is in-tree.
    pub sysroot: String,
    /// Every dynamic library found under the sysroot, in scan order.
    pub sysroot_dylibs: Vec<String>,
    /// Basename index over the sysroot libraries.
    pub sysroot_lookup: BasenameIndex,
    /// Basename index over the system library directory.
    pub usr_lib_lookup: BasenameIndex,
    /// Basename index over the package-cache (Homebrew cellar) libraries.
    pub homebrew_lookup: BasenameIndex,
}

impl Resolver {
    /// What [`Resolver::resolve_rpath`] returns, stated over sequences and
    /// maps.  The rules are tried in order and the first match wins:
    ///
    /// 1. a reference that opens with the sysroot prefix is `Sysroot`,
    ///    kept as it stands;
    /// 2. an absolute reference under a system prefix (`/System`,
    ///    `/Library`, `/usr/lib`) is `System`, kept as it stands;
    /// 3. an absolute reference under the package-cache root resolves by
    ///    basename in the package-cache index to `Required`, or is
    ///    `Missing` when the basename is absent;
    /// 4. one known-benign legacy absolute path is `System`;
    /// 5. a relocation-marker reference (`@...`) resolves by basename,
    ///    probing the sysroot index (`Sysroot`), then the system index
    ///    (`System`), then the package-cache index (`Required`); failing
    ///    all three, two allowlisted benign basenames are `System`;
    /// 6. anything else is `Unknown`, kept as it stands.
    pub open spec fn spec_resolve(self, r: Seq<char>) -> (Resolution, Seq<char>) {
        if self.sysroot@.is_prefix_of(r) {
            (Resolution::Sysroot, r)
        } else if "/"@.is_prefix_of(r) {
            if "/System"@.is_prefix_of(r) || "/Library"@.is_prefix_of(r) || "/usr/lib"@.is_prefix_of(r) {
                (Resolution::System, r)
            } else if "/opt/homebrew"@.is_prefix_of(r) {
                if self.homebrew_lookup@.contains_key(basename_of(r)) {
                    (Resolution::Required, self.homebrew_lookup@[basename_of(r)])
                } else {
                    (Resolution::Missing, r)
                }
            } else if r == "/usr/local/lib/libobjc-env.dylib"@ {
                (Resolution::System, r)
            } else {
                (Resolution::Unknown, r)
            }
        } else if "@"@.is_prefix_of(r) {
            if self.sysroot_lookup@.contains_key(basename_of(r)) {
                (Resolution::Sysroot, self.sysroot_lookup@[basename_of(r)])
            } else if self.usr_lib_lookup@.contains_key(basename_of(r)) {
                (Resolution::System, self.usr_lib_lookup@[basename_of(r)])
            } else if self.homebrew_lookup@.contains_key(basename_of(r)) {
                (Resolution::Required, self.homebrew_lookup@[basename_of(r)])
            } else if basename_of(r) == "libc++.1.dylib"@ || basename_of(r) == "libz.1.dylib"@ {
                (Resolution::System, r)
            } else {
                (Resolution::Unknown, r)
            }
        } else {
            (Resolution::Unknown, r)
        }
    }

    /// Build the classifier state from the sysroot prefix and the library
    /// paths enumerated in each universe.  Each list is indexed by
    /// basename, a later path shadowing an earlier one with the same
    /// basename.
    pub fn new(
        sysroot: String,
        sysroot_dylibs: Vec<String>,
        homebrew_dylibs: &Vec<String>,
        usr_lib_dylibs: &Vec<String>,
    ) -> (r: Self)
        ensures
            r.sysroot@ == sysroot@,
            r.sysroot_dylibs@ == sysroot_dylibs@,
            r.sysroot_lookup@ == index_map_of(sysroot_dylibs@.map_values(|p: String| p@)),
            r.homebrew_lookup@ == index_map_of(homebrew_dylibs@.map_values(|p: String| p@)),
            r.usr_lib_lookup@ == index_map_of(usr_lib_dylibs@.map_values(|p: String| p@)),
    {
        let sysroot_lookup = BasenameIndex::from_paths(&sysroot_dylibs);
        let homebrew_lookup = BasenameIndex::from_paths(homebrew_dylibs);
        let usr_lib_lookup = BasenameIndex::from_paths(usr_lib_dylibs);
        Resolver { sysroot, sysroot_dylibs, sysroot_lookup, usr_lib_lookup, homebrew_lookup }
    }

    /// The sysroot binaries this resolver was built from: the traversal
    /// roots of the graph collector.
    pub fn sysroot_dylibs(&self) -> (r: &Vec<String>)
        ensures
            r@ == self.sysroot_dylibs@,
    {
        &self.sysroot_dylibs
    }

    /// Classify one library reference.  The result is exactly
    /// [`Resolver::spec_resolve`] of the reference's characters.
    pub fn resolve_rpath(&self, file_path: &str) -> (res: (Resolution, String))
        ensures
            res.0 == self.spec_resolve(file_path@).0,
            res.1@ == self.spec_resolve(file_path@).1,
    {
        if starts_with(file_path, self.sysroot.as_str()) {
            return (Resolution::Sysroot, file_path.to_owned());
        }

        if starts_with(file_path, "/") {
            if starts_with(file_path, "/System") || starts_with(file_path, "/Library")
                || starts_with(file_path, "/usr/lib") {
                return (Resolution::System, file_path.to_owned());
            }

            if starts_with(file_path, "/opt/homebrew") {
                let file_name = basename(file_path);
                return match self.homebrew_lookup.get(file_name) {
                    Some(path) => (Resolution::Required, path.clone()),
                    None => (Resolution::Missing, file_path.to_owned()),
                };
            }

            if str_eq(file_path, "/usr/local/lib/libobjc-env.dylib") {
                return (Resolution::System, file_path.to_owned());
            }
        } else if starts_with(file_path, "@") {
            let file_name = basename(file_path);

            if let Some(path) = self.sysroot_lookup.get(file_name) {
                return (Resolution::Sysroot, path.clone());
            }

            if let Some(path) = self.usr_lib_lookup.get(file_name) {
                return (Resolution::System, path.clone());
            }

            if let Some(path) = self.homebrew_lookup.get(file_name) {
                return (Resolution::Required, path.clone());
            }

            if str_eq(file_name, "libc++.1.dylib") || str_eq(file_name, "libz.1.dylib") {
                return (Resolution::System, file_path.to_owned());
            }
        }

        (Resolution::Unknown, file_path.to_owned())
    }
}

/// An in-tree reference is always kept: whenever the sysroot prefix opens
/// the reference, classification is `Sysroot` with the reference unchanged.
pub proof fn lemma_resolve_sysroot_prefix(res: Resolver, r: Seq<char>)
    requires
        res.sysroot@.is_prefix_of(r),
    ensures
        res.spec_resolve(r) == (Resolution::Sysroot, r),
{
}

/// An absolute reference under a system prefix, and the allowlisted legacy
/// path, classify as `System` with the reference unchanged — provided the
/// sysroot prefix does not claim it first.
pub proof fn lemma_resolve_system(res: Resolver, r: Seq<char>)
    requires
        !res.sysroot@.is_prefix_of(r),
        "/System"@.is_prefix_of(r) || "/Library"@.is_prefix_of(r) || "/usr/lib"@.is_prefix_of(r)
            || r == "/usr/local/lib/libobjc-env.dylib"@,
    ensures
        res.spec_resolve(r) == (Resolution::System, r),
{
    if "/System"@.is_prefix_of(r) {
        reveal_strlit("/System");
        reveal_strlit("/");
        crate::text::lemma_prefix_char("/System"@, r, 0);
        assert("/"@.is_prefix_of(r)) by {
            assert(r.subrange(0, 1) =~= "/"@);
        }
    } else if "/Library"@.is_prefix_of(r) {
        reveal_strlit("/Library");
        reveal_strlit("/");
        crate::text::lemma_prefix_char("/Library"@, r, 0);
        assert("/"@.is_prefix_of(r)) by {
            assert(r.subrange(0, 1) =~= "/"@);
        }
    } else if "/usr/lib"@.is_prefix_of(r) {
        reveal_strlit("/usr/lib");
        reveal_strlit("/");
        crate::text::lemma_prefix_char("/usr/lib"@, r, 0);
        assert("/"@.is_prefix_of(r)) by {
            assert(r.subrange(0, 1) =~= "/"@);
        }
    } else {
        reveal_strlit("/usr/local/lib/libobjc-env.dylib");
        reveal_strlit("/");
        reveal_strlit("/opt/homebrew");
        reveal_strlit("/System");
        reveal_strlit("/Library");
        reveal_strlit("/usr/lib");
        assert("/"@.is_prefix_of(r)) by {
            assert(r.subrange(0, 1) =~= "/"@);
        }
        if "/opt/homebrew"@.is_prefix_of(r) {
            crate::text::lemma_prefix_char("/opt/homebrew"@, r, 1);
            assert(false);
        }
        if "/System"@.is_prefix_of(r) {
            crate::text::lemma_prefix_char("/System"@, r, 1);
            assert(false);
        }
        if "/Library"@.is_prefix_of(r) {
            crate::text::lemma_prefix_char("/Library"@, r, 1);
            assert(false);
        }
        if "/usr/lib"@.is_prefix_of(r) {
            crate::text::lemma_prefix_char("/usr/lib"@, r, 6);
            assert(false);
        }
    }
}

/// An absolute package-cache reference resolves by basename in the
/// package-cache index: `Required` with the indexed canonical path when the
/// basename is present, `Missing` with the reference unchanged when not.
pub proof fn lemma_resolve_package_cache(res: Resolver, r: Seq<char>)
    requires
        !res.sysroot@.is_prefix_of(r),
        "/opt/homebrew"@.is_prefix_of(r),
    ensures
        res.homebrew_lookup@.contains_key(basename_of(r)) ==> res.spec_resolve(r) == (
            Resolution::Required,
            res.homebrew_lookup@[basename_of(r)],
        ),
        !res.homebrew_lookup@.contains_key(basename_of(r)) ==> res.spec_resolve(r) == (
            Resolution::Missing,
            r,
        ),
{
    reveal_strlit("/opt/homebrew");
    reveal_strlit("/");
    reveal_strlit("/System");
    reveal_strlit("/Library");
    reveal_strlit("/usr/lib");
    crate::text::lemma_prefix_char("/opt/homebrew"@, r, 0);
    crate::text::lemma_prefix_char("/opt/homebrew"@, r, 1);
    assert("/"@.is_prefix_of(r)) by {
        assert(r.subrange(0, 1) =~= "/"@);
    }
    if "/System"@.is_prefix_of(r) {
        crate::text::lemma_prefix_char("/System"@, r, 1);
        assert(false);
    }
    if "/Library"@.is_prefix_of(r) {
        crate::text::lemma_prefix_char("/Library"@, r, 1);
        assert(false);
    }
    if "/usr/lib"@.is_prefix_of(r) {
        crate::text::lemma_prefix_char("/usr/lib"@, r, 1);
        assert(false);
    }
}

/// For a relocation-marker reference the probe order is sysroot index, then
/// system index, then package-cache index, then the benign-basename
/// allowlist; in particular a basename present in both the sysroot and the
/// package-cache indices is `Sysroot`, never `Required`.
pub proof fn lemma_resolve_marker_precedence(res: Resolver, r: Seq<char>)
    requires
        !res.sysroot@.is_prefix_of(r),
        "@"@.is_prefix_of(r),
    ensures
        res.sysroot_lookup@.contains_key(basename_of(r)) ==> res.spec_resolve(r) == (
            Resolution::Sysroot,
            res.sysroot_lookup@[basename_of(r)],
        ),
        !res.sysroot_lookup@.contains_key(basename_of(r))
            && res.usr_lib_lookup@.contains_key(basename_of(r)) ==> res.spec_resolve(r) == (
            Resolution::System,
            res.usr_lib_lookup@[basename_of(r)],
        ),
        !res.sysroot_lookup@.contains_key(basename_of(r))
            && !res.usr_lib_lookup@.contains_key(basename_of(r))
            && res.homebrew_lookup@.contains_key(basename_of(r)) ==> res.spec_resolve(r) == (
            Resolution::Required,
            res.homebrew_lookup@[basename_of(r)],
        ),
        !res.sysroot_lookup@.contains_key(basename_of(r))
            && !res.usr_lib_lookup@.contains_key(basename_of(r))
            && !res.homebrew_lookup@.contains_key(basename_of(r))
            && !(basename_of(r) == "libc++.1.dylib"@ || basename_of(r) == "libz.1.dylib"@)
            ==> res.spec_resolve(r) == (Resolution::Unknown, r),
{
    reveal_strlit("@");
    reveal_strlit("/");
    if "/"@.is_prefix_of(r) {
        crate::text::lemma_prefix_char("/"@, r, 0);
        crate::text::lemma_prefix_char("@"@, r, 0);
        assert(false);
    }
}

/// Classification is a pure function of the reference and the index state:
/// two classifications of the same reference against the same resolver
/// agree.
pub proof fn lemma_resolve_deterministic(
    res: Resolver,
    r: Seq<char>,
    a: (Resolution, Seq<char>),
    b: (Resolution, Seq<char>),
)
    requires
        a == res.spec_resolve(r),
        b == res.spec_resolve(r),
    ensures
        a == b,
{
}

} // verus!
