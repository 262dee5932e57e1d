//! Package records as they are read from a lockfile.
use vstd::prelude::*;

verus! {

/// One package entry of a lockfile.
#[derive(Debug)]
pub struct Package {
    pub name: String,
    pub version: String,
    /// Keys of the form `"name version"` of the packages this one depends on.
    pub dependencies: Option<Vec<String>>,
}

/// The whole lockfile: its package entries in file order.
#[derive(Debug)]
pub struct Lockfile {
    pub package: Vec<Package>,
}

/// The character sequences held by a sequence of strings.
pub open spec fn string_views(strings: Seq<String>) -> Seq<Seq<char>> {
    Seq::new(strings.len(), |i: int| strings[i]@)
}

impl Package {
    /// The dependency keys of this package; a package without a dependency
    /// list has none.
    pub open spec fn dependency_keys(&self) -> Seq<Seq<char>> {
        match self.dependencies {
            Some(deps) => string_views(deps@),
            None => Seq::empty(),
        }
    }

    /// The key under which this package is indexed: name, one space, version.
    pub open spec fn key(&self) -> Seq<char> {
        package_key(self.name@, self.version@)
    }
}

/// The lookup key of a package: its name, one space, its version.
pub open spec fn package_key(name: Seq<char>, version: Seq<char>) -> Seq<char> {
    name + seq![' '] + version
}

/// Two packages whose names hold no space have one key only where they have
/// one name and one version.
pub proof fn lemma_package_key_injective(
    name: Seq<char>,
    version: Seq<char>,
    other_name: Seq<char>,
    other_version: Seq<char>,
)
    requires
        !name.contains(' '),
        !other_name.contains(' '),
        package_key(name, version) == package_key(other_name, other_version),
    ensures
        name == other_name,
        version == other_version,
{
    let key = package_key(name, version);
    let other = package_key(other_name, other_version);
    if name.len() < other_name.len() {
        assert(key[name.len() as int] == ' ');
        assert(other[name.len() as int] == other_name[name.len() as int]);
    } else if other_name.len() < name.len() {
        assert(other[other_name.len() as int] == ' ');
        assert(key[other_name.len() as int] == name[other_name.len() as int]);
    }
    assert(name =~= other_name) by {
        assert forall|i: int| 0 <= i < name.len() implies name[i] == other_name[i] by {
            assert(key[i] == name[i]);
            assert(other[i] == other_name[i]);
        }
    }
    assert(version =~= other_version) by {
        assert(key.len() == name.len() + 1 + version.len());
        assert(other.len() == other_name.len() + 1 + other_version.len());
        assert forall|i: int| 0 <= i < version.len() implies version[i] == other_version[i] by {
            assert(key[name.len() + 1 + i] == version[i]);
            assert(other[other_name.len() + 1 + i] == other_version[i]);
        }
    }
}

} // verus!
