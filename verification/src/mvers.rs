//! Installed-version records and manifest data.
//!
//! [`Version`] is the launch metadata of one installed version: paths,
//! launch arguments, classpath and extra key/value data, held as plain
//! values.  [`Manifest`] is what the logic reads of a version manifest:
//! the version ids it lists and the latest release and snapshot ids.
//! Fetching and storing these records is the surrounding application's
//! work; the lookups here are verified.

use vstd::prelude::*;

verus! {

/// Launch metadata of one installed version.
#[derive(Debug, Clone, PartialEq)]
pub struct Version {
    pub pwd: String,
    pub version: String,
    pub assets: String,
    pub main: String,
    pub java: String,
    pub jvm_args: Vec<String>,
    pub game_args: Vec<String>,
    pub data: Vec<(String, String)>,
    pub version_type: String,
    pub natives: String,
    pub libraries: String,
    pub classpath: String,
    pub java_version: usize,
}

/// The latest release and snapshot ids of a manifest.
#[derive(Debug, Clone, PartialEq, Eq)]
pub struct Latest {
    pub release: String,
    pub snapshot: String,
}

/// What the logic reads of a version manifest.
#[derive(Debug, Clone, PartialEq, Eq)]
pub struct Manifest {
    pub latest: Latest,
    pub versions: Vec<String>,
}

/// A copy of a string vector, element for element.
fn copy_strings(v: &Vec<String>) -> (r: Vec<String>)
    ensures
        r@ == v@,
{
    let mut r: Vec<String> = Vec::new();
    let mut i: usize = 0;
    while i < v.len()
        invariant
            i <= v@.len(),
            r@ == v@.take(i as int),
        decreases v@.len() - i,
    {
        r.push(v[i].clone());
        i = i + 1;
        proof {
            assert(r@ =~= v@.take(i as int));
        }
    }
    proof {
        assert(r@ =~= v@);
    }
    r
}

/// A copy of a string-pair vector, element for element.
fn copy_pairs(v: &Vec<(String, String)>) -> (r: Vec<(String, String)>)
    ensures
        r@ == v@,
{
    let mut r: Vec<(String, String)> = Vec::new();
    let mut i: usize = 0;
    while i < v.len()
        invariant
            i <= v@.len(),
            r@ == v@.take(i as int),
        decreases v@.len() - i,
    {
        r.push((v[i].0.clone(), v[i].1.clone()));
        i = i + 1;
        proof {
            assert(r@ =~= v@.take(i as int));
        }
    }
    proof {
        assert(r@ =~= v@);
    }
    r
}

/// Records that agree on every field, vectors compared by contents.
pub open spec fn eq_version(a: Version, b: Version) -> bool {
    &&& a.pwd == b.pwd
    &&& a.version == b.version
    &&& a.assets == b.assets
    &&& a.main == b.main
    &&& a.java == b.java
    &&& a.jvm_args@ == b.jvm_args@
    &&& a.game_args@ == b.game_args@
    &&& a.data@ == b.data@
    &&& a.version_type == b.version_type
    &&& a.natives == b.natives
    &&& a.libraries == b.libraries
    &&& a.classpath == b.classpath
    &&& a.java_version == b.java_version
}

impl Version {
    /// A copy equal to this record, field for field.
    pub fn duplicate(&self) -> (r: Version)
        ensures
            eq_version(r, *self),
    {
        Version {
            pwd: self.pwd.clone(),
            version: self.version.clone(),
            assets: self.assets.clone(),
            main: self.main.clone(),
            java: self.java.clone(),
            jvm_args: copy_strings(&self.jvm_args),
            game_args: copy_strings(&self.game_args),
            data: copy_pairs(&self.data),
            version_type: self.version_type.clone(),
            natives: self.natives.clone(),
            libraries: self.libraries.clone(),
            classpath: self.classpath.clone(),
            java_version: self.java_version,
        }
    }
}

/// The position of the first record whose id reads `id`, at or after `i`.
pub open spec fn version_idx(vs: Seq<Version>, id: Seq<char>, i: int) -> Option<int>
    decreases vs.len() - i,
{
    if i < 0 || i >= vs.len() {
        None
    } else if vs[i].version@ == id {
        Some(i)
    } else {
        version_idx(vs, id, i + 1)
    }
}

/// The installed version with the given id, if any: the first record
/// whose `version` field reads `version`.
pub fn get(versions: &Vec<Version>, version: &str) -> (r: Option<Version>)
    ensures
        match version_idx(versions@, version@, 0) {
            None => r is None,
            Some(p) => r matches Some(v) && eq_version(v, versions@[p]),
        },
{
    let vkey = String::from_str(version);
    let mut i: usize = 0;
    while i < versions.len()
        invariant
            i <= versions@.len(),
            vkey@ == version@,
            forall|j: int| 0 <= j < i ==> (#[trigger] versions@[j].version@) != version@,
        decreases versions@.len() - i,
    {
        if versions[i].version.eq(&vkey) {
            proof {
                lemma_version_idx(versions@, version@, 0);
            }
            return Some(versions[i].duplicate());
        }
        i = i + 1;
    }
    proof {
        lemma_version_idx(versions@, version@, 0);
    }
    None
}

/// What [`version_idx`] returns: the first matching position, or `None`.
proof fn lemma_version_idx(vs: Seq<Version>, id: Seq<char>, i: int)
    requires
        0 <= i <= vs.len(),
    ensures
        match version_idx(vs, id, i) {
            None => forall|j: int| i <= j < vs.len() ==> (#[trigger] vs[j].version@) != id,
            Some(p) => i <= p < vs.len() && vs[p].version@ == id && forall|j: int|
                i <= j < p ==> (#[trigger] vs[j].version@) != id,
        },
    decreases vs.len() - i,
{
    if i < vs.len() && vs[i].version@ != id {
        lemma_version_idx(vs, id, i + 1);
    }
}

/// Every version id the manifest lists, in order.
pub fn list_manifest(m: &Manifest) -> (r: Vec<String>)
    ensures
        r@ == m.versions@,
{
    copy_strings(&m.versions)
}

/// The manifest's latest release and snapshot ids.
pub fn manifest_latest(m: &Manifest) -> (r: Latest)
    ensures
        r == m.latest,
{
    Latest { release: m.latest.release.clone(), snapshot: m.latest.snapshot.clone() }
}

/// The manifest's latest release id.
pub fn manifest_latest_release(m: &Manifest) -> (r: String)
    ensures
        r == m.latest.release,
{
    m.latest.release.clone()
}

/// The manifest's latest snapshot id.
pub fn manifest_latest_snapshot(m: &Manifest) -> (r: String)
    ensures
        r == m.latest.snapshot,
{
    m.latest.snapshot.clone()
}

} // verus!
