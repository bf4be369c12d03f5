//! The package metadata the build pipeline hands over: a package with its
//! targets, and the rules that pick a library target and the name a crate
//! is documented under.

use crate::text::{chars_of, str_eq};
use vstd::prelude::*;
use vstd::string::StringExecFns;

verus! {

/// One build target of a package.
pub struct Target {
    pub name: String,
    pub crate_types: Vec<String>,
    pub src_path: Option<String>,
}

/// One package: its identity and its build targets.
pub struct Package {
    pub id: String,
    pub name: String,
    pub targets: Vec<Target>,
}

/// A target that builds anything but a plain binary.
pub open spec fn is_lib_target(t: Target) -> bool {
    exists|i: int| 0 <= i < t.crate_types.deep_view().len() && t.crate_types.deep_view()[i]
        != "bin"@
}

/// The first library target, in target order.
pub open spec fn first_lib(ts: Seq<Target>) -> Option<Target>
    decreases ts.len(),
{
    if ts.len() == 0 {
        None
    } else if is_lib_target(ts[0]) {
        Some(ts[0])
    } else {
        first_lib(ts.skip(1))
    }
}

/// A package name normalized the way the compiler does: every `-` as `_`.
pub open spec fn normalized(s: Seq<char>) -> Seq<char> {
    s.map_values(
        |c: char|
            if c == '-' {
                '_'
            } else {
                c
            },
    )
}

fn target_is_lib(t: &Target) -> (r: bool)
    ensures
        r == is_lib_target(*t),
{
    let n = t.crate_types.len();
    let mut i: usize = 0;
    while i < n
        invariant
            i <= n,
            n == t.crate_types@.len(),
            forall|j: int| 0 <= j < i ==> t.crate_types.deep_view()[j] == "bin"@,
        decreases n - i,
    {
        if !str_eq(t.crate_types[i].as_str(), "bin") {
            proof {
                assert(t.crate_types.deep_view()[i as int] != "bin"@);
            }
            return true;
        }
        proof {
            assert(t.crate_types.deep_view()[i as int] == t.crate_types@[i as int]@);
        }
        i += 1;
    }
    proof {
        if is_lib_target(*t) {
            let i = choose|i: int|
                0 <= i < t.crate_types.deep_view().len() && t.crate_types.deep_view()[i]
                    != "bin"@;
            assert(t.crate_types.deep_view()[i] == "bin"@);
        }
    }
    false
}

/// The normalized form of a name, built character by character.
pub fn normalize_name(name: &str) -> (r: String)
    ensures
        r@ == normalized(name@),
{
    let cs = chars_of(name);
    let n = cs.len();
    let mut r = String::new();
    let mut i: usize = 0;
    proof {
        assert(r@ =~= normalized(name@.subrange(0, 0)));
    }
    while i < n
        invariant
            i <= n,
            n == name@.len(),
            cs@ == name@,
            r@ == normalized(name@.subrange(0, i as int)),
        decreases n - i,
    {
        let c = cs[i];
        if c == '-' {
            r.push('_');
        } else {
            r.push(c);
        }
        proof {
            assert(r@ =~= normalized(name@.subrange(0, (i + 1) as int)));
        }
        i += 1;
    }
    proof {
        assert(name@.subrange(0, n as int) =~= name@);
    }
    r
}

impl Package {
    /// The first target that builds a library, if any.
    pub fn library_target(&self) -> (r: Option<&Target>)
        ensures
            match r {
                Some(t) => first_lib(self.targets@) == Some(*t),
                None => first_lib(self.targets@) is None,
            },
    {
        let n = self.targets.len();
        let mut i: usize = 0;
        proof {
            assert(self.targets@.skip(0) =~= self.targets@);
        }
        while i < n
            invariant
                i <= n,
                n == self.targets@.len(),
                first_lib(self.targets@) == first_lib(self.targets@.skip(i as int)),
            decreases n - i,
        {
            let ghost suffix = self.targets@.skip(i as int);
            proof {
                assert(suffix[0] == self.targets@[i as int]);
                assert(suffix.skip(1) =~= self.targets@.skip((i + 1) as int));
            }
            if target_is_lib(&self.targets[i]) {
                return Some(&self.targets[i]);
            }
            i += 1;
        }
        proof {
            assert(self.targets@.skip(n as int) =~= Seq::<Target>::empty());
        }
        None
    }

    /// Whether the package builds a library at all.
    pub fn is_library(&self) -> (r: bool)
        ensures
            r == (first_lib(self.targets@) is Some),
    {
        self.library_target().is_some()
    }

    /// A name normalized the way the compiler does: every `-` as `_`.
    pub fn normalize_package_name(&self, name: &str) -> (r: String)
        ensures
            r@ == normalized(name@),
    {
        normalize_name(name)
    }

    /// The name the crate is documented under: its library's normalized
    /// name, or the first target's normalized name if it builds none.
    pub fn package_name(&self) -> (r: String)
        requires
            self.targets@.len() > 0,
        ensures
            r@ == match first_lib(self.targets@) {
                Some(t) => normalized(t.name@),
                None => normalized(self.targets@[0].name@),
            },
    {
        match self.library_name() {
            Some(name) => name,
            None => self.normalize_package_name(self.targets[0].name.as_str()),
        }
    }

    /// The normalized name of the library target, if one exists.
    pub fn library_name(&self) -> (r: Option<String>)
        ensures
            match r {
                Some(s) => first_lib(self.targets@) is Some && s@ == normalized(
                    first_lib(self.targets@)->0.name@,
                ),
                None => first_lib(self.targets@) is None,
            },
    {
        match self.library_target() {
            Some(t) => Some(normalize_name(t.name.as_str())),
            None => None,
        }
    }
}

/// The package metadata with its root package resolved.
pub struct CargoMetadata {
    root: Package,
}

impl CargoMetadata {
    /// The resolved root package.
    pub closed spec fn spec_root(self) -> Package {
        self.root
    }

    /// Metadata whose root package is already known.
    pub fn from_root(root: Package) -> (r: CargoMetadata)
        ensures
            r.spec_root() == root,
    {
        CargoMetadata { root }
    }

    /// The root package of the workspace the metadata was read from.
    pub fn root(&self) -> (r: &Package)
        ensures
            *r == self.spec_root(),
    {
        &self.root
    }
}

impl Target {
    /// A stand-in library target with the given name and source path.
    pub fn dummy_lib(name: String, src_path: Option<String>) -> (r: Target)
        ensures
            r.name == name,
            r.crate_types.deep_view() =~= seq!["lib"@],
            r.src_path == src_path,
            is_lib_target(r),
    {
        let mut crate_types: Vec<String> = Vec::new();
        crate_types.push(String::from_str("lib"));
        let r = Target { name, crate_types, src_path };
        proof {
            assert(r.crate_types.deep_view() =~= seq!["lib"@]);
            assert(r.crate_types.deep_view()[0] == "lib"@);
            assert("lib"@ != "bin"@) by {
                reveal_strlit("lib");
                reveal_strlit("bin");
                assert("lib"@[0] == 'l');
                assert("bin"@[0] == 'b');
            }
        }
        r
    }
}

} // verus!
