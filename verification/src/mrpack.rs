//! The modpack index record and its builder.
//!
//! The index lists the files a pack ships (with their sizes and digests),
//! the dependency versions it needs, and its own identity.  The builder
//! accumulates those pieces; dependencies are keyed by id, a later id
//! overwriting the earlier version, as a map insert would.

use vstd::prelude::*;

verus! {

/// One downloadable file of a pack: its sources, target path, size,
/// digests and environment applicability.
#[derive(Debug, Clone, PartialEq, Eq, Hash)]
pub struct File {
    pub downloads: Vec<String>,
    pub env: Environment,
    pub file_size: u64,
    pub hashes: Hashes,
    pub path: String,
}

/// Which sides a file applies to.
#[derive(Debug, Clone, PartialEq, Eq, Hash)]
pub struct Environment {
    pub client: String,
    pub server: String,
}

/// The digests of one file.
#[derive(Debug, Clone, PartialEq, Eq, Hash)]
pub struct Hashes {
    pub sha1: String,
    pub sha512: String,
}

/// A finished pack index.
#[derive(Debug, Clone, PartialEq, Eq)]
pub struct ModrinthIndex {
    pub dependencies: Vec<(String, String)>,
    pub files: Vec<File>,
    pub format_version: u32,
    pub game: String,
    pub name: String,
    pub version_id: String,
}

/// An index under construction.
pub struct ModrinthIndexBuilder {
    pub dependencies: Vec<(String, String)>,
    pub files: Vec<File>,
    pub format_version: u32,
    pub game: String,
    pub name: String,
    pub version_id: String,
}

/// The position of the first dependency whose id reads `k`, at or after
/// `i`.
pub open spec fn dep_idx(m: Seq<(String, String)>, k: Seq<char>, i: int) -> Option<int>
    decreases m.len() - i,
{
    if i < 0 || i >= m.len() {
        None
    } else if m[i].0@ == k {
        Some(i)
    } else {
        dep_idx(m, k, i + 1)
    }
}

/// What [`dep_idx`] returns: the first position under the id, or `None`.
pub proof fn lemma_dep_idx(m: Seq<(String, String)>, k: Seq<char>, i: int)
    requires
        0 <= i <= m.len(),
    ensures
        match dep_idx(m, k, i) {
            None => forall|j: int| i <= j < m.len() ==> (#[trigger] m[j].0@) != k,
            Some(p) => i <= p < m.len() && m[p].0@ == k && forall|j: int|
                i <= j < p ==> (#[trigger] m[j].0@) != k,
        },
    decreases m.len() - i,
{
    if i < m.len() && m[i].0@ != k {
        lemma_dep_idx(m, k, i + 1);
    }
}

/// A dependency list with `(id, version)` written into `m`: the version
/// under an existing id is replaced in place, a new id is appended.
pub open spec fn dep_upsert(m: Seq<(String, String)>, id: String, version: String) -> Seq<
    (String, String),
> {
    match dep_idx(m, id@, 0) {
        None => m.push((id, version)),
        Some(p) => m.update(p, (id, version)),
    }
}

/// Position of the first dependency with the given id, if any.
fn dep_find(deps: &Vec<(String, String)>, id: &String) -> (r: Option<usize>)
    ensures
        match dep_idx(deps@, id@, 0) {
            None => r is None,
            Some(p) => r matches Some(u) && u as int == p,
        },
{
    let mut i: usize = 0;
    while i < deps.len()
        invariant
            i <= deps@.len(),
            forall|j: int| 0 <= j < i ==> (#[trigger] deps@[j].0@) != id@,
        decreases deps@.len() - i,
    {
        if deps[i].0.eq(id) {
            proof {
                lemma_dep_idx(deps@, id@, 0);
            }
            return Some(i);
        }
        i = i + 1;
    }
    proof {
        lemma_dep_idx(deps@, id@, 0);
    }
    None
}

impl ModrinthIndexBuilder {
    /// A fresh builder: no dependencies, no files, format version 1, for
    /// the game `minecraft`.
    pub fn new(name: String, version_id: String) -> (r: Self)
        ensures
            r.dependencies@ == Seq::<(String, String)>::empty(),
            r.files@ == Seq::<File>::empty(),
            r.format_version == 1u32,
            r.game@ == "minecraft"@,
            r.name == name,
            r.version_id == version_id,
    {
        ModrinthIndexBuilder {
            dependencies: Vec::new(),
            files: Vec::new(),
            format_version: 1,
            game: "minecraft".to_owned(),
            name,
            version_id,
        }
    }

    /// Record that the pack needs `id` at `version`; a repeated id keeps
    /// its place and takes the new version.
    pub fn add_dependency(self, id: String, version: String) -> (r: Self)
        ensures
            r.dependencies@ == dep_upsert(self.dependencies@, id, version),
            r.files == self.files,
            r.format_version == self.format_version,
            r.game == self.game,
            r.name == self.name,
            r.version_id == self.version_id,
    {
        let ModrinthIndexBuilder { dependencies, files, format_version, game, name, version_id } =
            self;
        let mut deps = dependencies;
        match dep_find(&deps, &id) {
            Some(p) => {
                proof {
                    lemma_dep_idx(deps@, id@, 0);
                }
                deps.set(p, (id, version));
            },
            None => {
                deps.push((id, version));
            },
        }
        ModrinthIndexBuilder { dependencies: deps, files, format_version, game, name, version_id }
    }

    /// Append one file to the pack.
    pub fn add_file(self, file: File) -> (r: Self)
        ensures
            r.files@ == self.files@.push(file),
            r.dependencies == self.dependencies,
            r.format_version == self.format_version,
            r.game == self.game,
            r.name == self.name,
            r.version_id == self.version_id,
    {
        let ModrinthIndexBuilder { dependencies, files, format_version, game, name, version_id } =
            self;
        let mut files = files;
        files.push(file);
        ModrinthIndexBuilder { dependencies, files, format_version, game, name, version_id }
    }

    /// Override the index format version.
    pub fn format_version(self, version: u32) -> (r: Self)
        ensures
            r.format_version == version,
            r.dependencies == self.dependencies,
            r.files == self.files,
            r.game == self.game,
            r.name == self.name,
            r.version_id == self.version_id,
    {
        let ModrinthIndexBuilder { dependencies, files, format_version: _, game, name, version_id } =
            self;
        ModrinthIndexBuilder {
            dependencies,
            files,
            format_version: version,
            game,
            name,
            version_id,
        }
    }

    /// The finished index, carrying every accumulated field over.
    pub fn build(self) -> (r: ModrinthIndex)
        ensures
            r.dependencies == self.dependencies,
            r.files == self.files,
            r.format_version == self.format_version,
            r.game == self.game,
            r.name == self.name,
            r.version_id == self.version_id,
    {
        let ModrinthIndexBuilder { dependencies, files, format_version, game, name, version_id } =
            self;
        ModrinthIndex { dependencies, files, format_version, game, name, version_id }
    }
}

impl ModrinthIndex {
    /// A fresh builder, as [`ModrinthIndexBuilder::new`] gives it.
    pub fn new_builder(name: String, version_id: String) -> (r: ModrinthIndexBuilder)
        ensures
            r.dependencies@ == Seq::<(String, String)>::empty(),
            r.files@ == Seq::<File>::empty(),
            r.format_version == 1u32,
            r.game@ == "minecraft"@,
            r.name == name,
            r.version_id == version_id,
    {
        ModrinthIndexBuilder::new(name, version_id)
    }
}

} // verus!
