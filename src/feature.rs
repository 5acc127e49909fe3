//! The closed set of feature kinds, and what each one provides and requires.
use vstd::prelude::*;

use crate::item::FileType;
use crate::item::FsEntry;
use crate::item::Group;
use crate::item::Item;
use crate::item::ItemKey;
use crate::item::KeyId;
use crate::item::PathItem;
use crate::item::User;
use crate::phase::Phase;
use crate::validator::Validator;
use vstd::string::StringExecFns;
use vstd::utf8::encode_utf8;

verus! {

/// A declarative unit of image-build work, attributed to the target that
/// declared it.
#[derive(Debug, Clone)]
pub struct Feature {
    pub label: String,
    pub data: Data,
}

/// One variant per kind of feature.
#[derive(Debug, Clone)]
pub enum Data {
    EnsureDirExists(EnsureDirExists),
    Extract(Extract),
    Genrule(Genrule),
    Antlir1NoEquivalent(Antlir1NoEquivalent),
    Remove(Remove),
    Requires(Requires),
    Rpm(Rpm),
    User(UserAdd),
    Group(GroupAdd),
}

/// Make sure that a directory exists, with the given owner and mode.
#[derive(Debug, Clone)]
pub struct EnsureDirExists {
    pub group: String,
    pub dir: String,
    pub mode: u32,
    pub user: String,
}

/// Copy binaries, with the libraries they load, into the layer.
#[derive(Debug, Clone)]
pub enum Extract {
    Buck(ExtractBuckBinary),
    Layer(ExtractLayerBinaries),
}

/// Extract one binary built by the build system to `dst`.
#[derive(Debug, Clone)]
pub struct ExtractBuckBinary {
    pub src: String,
    pub dst: String,
}

/// Extract binaries from another layer, each to the same path in this one.
#[derive(Debug, Clone)]
pub struct ExtractLayerBinaries {
    pub layer: String,
    pub binaries: Vec<String>,
}

/// Run a command inside the layer; what it produces is not known ahead of
/// time.
#[derive(Debug, Clone)]
pub struct Genrule {
    pub cmd: Vec<String>,
    pub user: String,
    pub boot: bool,
    pub bind_repo_ro: bool,
}

/// A feature of the older build system with no counterpart here: it can
/// neither declare what it provides nor what it requires.
#[derive(Debug, Clone)]
pub struct Antlir1NoEquivalent;

/// Remove whatever is at a path.
#[derive(Debug, Clone)]
pub struct Remove {
    pub path: String,
}

/// Require that paths, users and groups exist, without providing anything.
#[derive(Debug, Clone)]
pub struct Requires {
    pub files: Vec<String>,
    pub users: Vec<String>,
    pub groups: Vec<String>,
}

/// Install OS packages; the files they bring are found only afterwards.
#[derive(Debug, Clone)]
pub struct Rpm {
    pub items: Vec<String>,
}

/// Create a user whose primary group and home directory must exist.
#[derive(Debug, Clone)]
pub struct UserAdd {
    pub name: String,
    pub primary_group: String,
    pub home_dir: String,
}

/// Create a group.
#[derive(Debug, Clone)]
pub struct GroupAdd {
    pub name: String,
}

/// A precondition of a feature: the item under `key` must satisfy
/// `validator`.
#[derive(Debug, Clone)]
pub struct Requirement {
    pub key: ItemKey,
    pub validator: Validator,
}

/// Whether `path` begins with the components of `base`, as
/// `std::path::Path::starts_with` decides it.
pub uninterp spec fn path_starts_with(path: Seq<char>, base: Seq<char>) -> bool;

/// Relies on `std::path::Path::starts_with`: whether the components of
/// `base` begin `path`; depends on the two texts alone.
#[verifier::external_body]
fn starts_with_path(path: &str, base: &str) -> (r: bool)
    ensures
        r == path_starts_with(path@, base@),
{
    std::path::Path::new(path).starts_with(base)
}

/// Libraries under `/lib` or `/lib64` are moved under `/usr`, where those
/// directories usually point: the path with `/usr` in front; any other path
/// is kept.
pub fn ensure_usr(path: &str) -> (r: String)
    ensures
        r@ == if path_starts_with(path@, seq!['/', 'l', 'i', 'b']) || path_starts_with(
            path@,
            seq!['/', 'l', 'i', 'b', '6', '4'],
        ) {
            seq!['/', 'u', 's', 'r'] + path@
        } else {
            path@
        },
{
    proof {
        reveal_strlit("/lib");
        reveal_strlit("/lib64");
        reveal_strlit("/usr");
        assert("/lib"@ =~= seq!['/', 'l', 'i', 'b']);
        assert("/lib64"@ =~= seq!['/', 'l', 'i', 'b', '6', '4']);
        assert("/usr"@ =~= seq!['/', 'u', 's', 'r']);
    }
    if starts_with_path(path, "/lib") || starts_with_path(path, "/lib64") {
        let mut r = "/usr".to_owned();
        r.append(path);
        r
    } else {
        path.to_owned()
    }
}

/// The parent directory of a path, as `std::path::Path::parent` computes it.
pub uninterp spec fn parent_of(path: Seq<char>) -> Option<Seq<char>>;

/// Relies on `std::path::Path::parent`: the parent directory of `path`, or
/// `None` for a root or an empty path; the result depends on the text alone.
#[verifier::external_body]
fn parent_path(path: &String) -> (r: Option<String>)
    ensures
        match r {
            Some(p) => parent_of(path@) == Some(p@),
            None => parent_of(path@) is None,
        },
{
    std::path::Path::new(path.as_str()).parent().map(|p| p.to_string_lossy().into_owned())
}

pub open spec fn exists_req(id: KeyId) -> (KeyId, Validator) {
    (id, Validator::Exists)
}

/// The requirement that the parent of `path`, if it has one, is a directory.
pub open spec fn parent_dir_req(path: Seq<char>) -> Seq<(KeyId, Validator)> {
    match parent_of(path) {
        Some(p) => seq![((0int, p), Validator::FileType(FileType::Directory))],
        None => seq![],
    }
}

pub open spec fn file_entry(path: String) -> Item {
    Item::Path(PathItem::Entry(FsEntry { path, file_type: FileType::File, mode: 0o555 }))
}

pub open spec fn binary_reqs(layer: Seq<char>, bin: String) -> Seq<(KeyId, Validator)> {
    seq![
        ((3int, layer), Validator::ItemInLayer {
            key: ItemKey::Path(bin),
            validator: Box::new(Validator::Exists),
        }),
    ] + parent_dir_req(bin@)
}

pub open spec fn layer_reqs(layer: Seq<char>, bins: Seq<String>) -> Seq<(KeyId, Validator)>
    decreases bins.len(),
{
    if bins.len() == 0 {
        seq![]
    } else {
        layer_reqs(layer, bins.drop_last()) + binary_reqs(layer, bins.last())
    }
}

pub open spec fn all_exist(kind: int, names: Seq<String>) -> Seq<(KeyId, Validator)> {
    Seq::new(names.len(), |i: int| exists_req((kind, names[i]@)))
}

/// Whether a list of requirements states exactly the given keys and
/// validators, in order.
pub open spec fn reqs_match(r: Seq<Requirement>, s: Seq<(KeyId, Validator)>) -> bool {
    r.len() == s.len() && forall|i: int|
        0 <= i < r.len() ==> (#[trigger] r[i]).key.id() == s[i].0 && r[i].validator == s[i].1
}

/// Whether the first byte string sorts before the second, comparing from
/// position `i` on.
pub open spec fn bytes_lt_from(a: Seq<u8>, b: Seq<u8>, i: int) -> bool
    decreases a.len() - i,
{
    if i < 0 || i >= b.len() {
        false
    } else if i >= a.len() {
        true
    } else if a[i] != b[i] {
        a[i] < b[i]
    } else {
        bytes_lt_from(a, b, i + 1)
    }
}

pub proof fn lemma_bytes_lt_irreflexive(a: Seq<u8>, i: int)
    ensures
        !bytes_lt_from(a, a, i),
    decreases a.len() - i,
{
    if 0 <= i < a.len() {
        lemma_bytes_lt_irreflexive(a, i + 1);
    }
}

pub proof fn lemma_bytes_lt_transitive(a: Seq<u8>, b: Seq<u8>, c: Seq<u8>, i: int)
    requires
        bytes_lt_from(a, b, i),
        bytes_lt_from(b, c, i),
    ensures
        bytes_lt_from(a, c, i),
    decreases a.len() - i,
{
    if 0 <= i < a.len() && i < b.len() && i < c.len() && a[i] == b[i] && b[i] == c[i] {
        lemma_bytes_lt_transitive(a, b, c, i + 1);
    }
}

fn bytes_less(a: &[u8], b: &[u8]) -> (r: bool)
    ensures
        r == bytes_lt_from(a@, b@, 0),
{
    let mut i: usize = 0;
    while i < a.len() && i < b.len()
        invariant
            i <= a.len(),
            i <= b.len(),
            bytes_lt_from(a@, b@, 0) == bytes_lt_from(a@, b@, i as int),
        decreases a.len() - i,
    {
        if a[i] != b[i] {
            return a[i] < b[i];
        }
        i = i + 1;
    }
    i < b.len()
}

fn copy_strings(v: &Vec<String>) -> (r: Vec<String>)
    ensures
        r@ == v@,
{
    let mut r: Vec<String> = Vec::new();
    let mut i: usize = 0;
    while i < v.len()
        invariant
            i <= v@.len(),
            r@ =~= v@.subrange(0, i as int),
        decreases v.len() - i,
    {
        r.push(v[i].clone());
        i = i + 1;
    }
    proof {
        assert(v@.subrange(0, v@.len() as int) =~= v@);
    }
    r
}

/// Whether two feature kinds hold the same values, comparing lists by their
/// contents.
pub open spec fn same_data(a: Data, b: Data) -> bool {
    match (a, b) {
        (Data::EnsureDirExists(x), Data::EnsureDirExists(y)) => x == y,
        (Data::Extract(Extract::Buck(x)), Data::Extract(Extract::Buck(y))) => x == y,
        (Data::Extract(Extract::Layer(x)), Data::Extract(Extract::Layer(y))) => x.layer == y.layer
            && x.binaries@ == y.binaries@,
        (Data::Genrule(x), Data::Genrule(y)) => x.cmd@ == y.cmd@ && x.user == y.user && x.boot == y.boot
            && x.bind_repo_ro == y.bind_repo_ro,
        (Data::Antlir1NoEquivalent(_), Data::Antlir1NoEquivalent(_)) => true,
        (Data::Remove(x), Data::Remove(y)) => x == y,
        (Data::Requires(x), Data::Requires(y)) => x.files@ == y.files@ && x.users@ == y.users@ && x.groups@
            == y.groups@,
        (Data::Rpm(x), Data::Rpm(y)) => x.items@ == y.items@,
        (Data::User(x), Data::User(y)) => x == y,
        (Data::Group(x), Data::Group(y)) => x == y,
        _ => false,
    }
}

/// Whether two features are the same feature.
pub open spec fn same_feature(a: Feature, b: Feature) -> bool {
    a.label == b.label && same_data(a.data, b.data)
}

impl Data {
    /// A copy of this value.
    pub fn duplicate(&self) -> (r: Data)
        ensures
            same_data(r, *self),
    {
        match self {
            Data::EnsureDirExists(d) => Data::EnsureDirExists(
                EnsureDirExists { group: d.group.clone(), dir: d.dir.clone(), mode: d.mode, user: d.user.clone() },
            ),
            Data::Extract(Extract::Buck(b)) => Data::Extract(
                Extract::Buck(ExtractBuckBinary { src: b.src.clone(), dst: b.dst.clone() }),
            ),
            Data::Extract(Extract::Layer(l)) => Data::Extract(
                Extract::Layer(ExtractLayerBinaries { layer: l.layer.clone(), binaries: copy_strings(&l.binaries) }),
            ),
            Data::Genrule(g) => Data::Genrule(
                Genrule { cmd: copy_strings(&g.cmd), user: g.user.clone(), boot: g.boot, bind_repo_ro: g.bind_repo_ro },
            ),
            Data::Antlir1NoEquivalent(_) => Data::Antlir1NoEquivalent(Antlir1NoEquivalent),
            Data::Remove(r) => Data::Remove(Remove { path: r.path.clone() }),
            Data::Requires(r) => Data::Requires(
                Requires { files: copy_strings(&r.files), users: copy_strings(&r.users), groups: copy_strings(&r.groups) },
            ),
            Data::Rpm(r) => Data::Rpm(Rpm { items: copy_strings(&r.items) }),
            Data::User(u) => Data::User(
                UserAdd { name: u.name.clone(), primary_group: u.primary_group.clone(), home_dir: u.home_dir.clone() },
            ),
            Data::Group(g) => Data::Group(GroupAdd { name: g.name.clone() }),
        }
    }
}

impl Feature {
    /// A copy of this feature.
    pub fn duplicate(&self) -> (r: Feature)
        ensures
            same_feature(r, *self),
            r.spec_rank() == self.spec_rank(),
    {
        Feature { label: self.label.clone(), data: self.data.duplicate() }
    }

    /// The position of the feature's kind in the order of kinds.
    pub open spec fn spec_rank(&self) -> nat {
        match self.data {
            Data::EnsureDirExists(_) => 0,
            Data::Extract(_) => 1,
            Data::Genrule(_) => 2,
            Data::Antlir1NoEquivalent(_) => 3,
            Data::Remove(_) => 4,
            Data::Requires(_) => 5,
            Data::Rpm(_) => 6,
            Data::User(_) => 7,
            Data::Group(_) => 8,
        }
    }

    fn rank(&self) -> (r: u8)
        ensures
            r == self.spec_rank(),
    {
        match self.data {
            Data::EnsureDirExists(_) => 0,
            Data::Extract(_) => 1,
            Data::Genrule(_) => 2,
            Data::Antlir1NoEquivalent(_) => 3,
            Data::Remove(_) => 4,
            Data::Requires(_) => 5,
            Data::Rpm(_) => 6,
            Data::User(_) => 7,
            Data::Group(_) => 8,
        }
    }

    /// Features sort by label (byte-wise), then by kind.
    pub open spec fn spec_lt(&self, other: &Feature) -> bool {
        let a = encode_utf8(self.label@);
        let b = encode_utf8(other.label@);
        bytes_lt_from(a, b, 0) || (a == b && self.spec_rank() < other.spec_rank())
    }

    /// Whether this feature sorts before `other`.
    pub fn lt(&self, other: &Feature) -> (r: bool)
        ensures
            r == self.spec_lt(other),
    {
        let a = self.label.as_str().as_bytes();
        let b = other.label.as_str().as_bytes();
        if bytes_less(a, b) {
            true
        } else if bytes_less(b, a) {
            false
        } else {
            proof {
                assert(a@.subrange(0, 0) =~= b@.subrange(0, 0));
                lemma_bytes_equal(a@, b@, 0);
            }
            self.rank() < other.rank()
        }
    }

    pub open spec fn spec_phase(&self) -> Phase {
        match self.data {
            Data::Rpm(_) => Phase::OsPackage,
            _ => Phase::Compile,
        }
    }

    /// The phase that the feature belongs to, by its kind.
    pub fn phase(&self) -> (r: Phase)
        ensures
            r == self.spec_phase(),
    {
        match self.data {
            Data::Rpm(_) => Phase::OsPackage,
            _ => Phase::Compile,
        }
    }
}

/// Builds the key of the given kind (path, user, group, layer) for `name`.
fn key_of(kind: u8, name: String) -> (r: ItemKey)
    requires
        kind < 4,
    ensures
        r.id() == (kind as int, name@),
{
    if kind == 0 {
        ItemKey::Path(name)
    } else if kind == 1 {
        ItemKey::User(name)
    } else if kind == 2 {
        ItemKey::Group(name)
    } else {
        ItemKey::Layer(name)
    }
}

fn push_exists(v: &mut Vec<Requirement>, kind: u8, name: &String, Ghost(s): Ghost<Seq<(KeyId, Validator)>>)
    requires
        kind < 4,
        reqs_match(old(v)@, s),
    ensures
        reqs_match(final(v)@, s.push(exists_req((kind as int, name@)))),
{
    v.push(Requirement { key: key_of(kind, name.clone()), validator: Validator::Exists });
    proof {
        let t = s.push(exists_req((kind as int, name@)));
        assert forall|i: int| 0 <= i < final(v)@.len() implies (#[trigger] final(v)@[i]).key.id() == t[i].0
            && final(v)@[i].validator == t[i].1 by {
            if i < old(v)@.len() {
                assert(old(v)@[i] == final(v)@[i]);
            }
        }
    }
}

fn push_parent_dir(v: &mut Vec<Requirement>, path: &String, Ghost(s): Ghost<Seq<(KeyId, Validator)>>)
    requires
        reqs_match(old(v)@, s),
    ensures
        reqs_match(final(v)@, s + parent_dir_req(path@)),
{
    match parent_path(path) {
        Some(p) => {
            v.push(
                Requirement { key: ItemKey::Path(p), validator: Validator::FileType(FileType::Directory) },
            );
            proof {
                let t = s + parent_dir_req(path@);
                assert forall|i: int| 0 <= i < final(v)@.len() implies (#[trigger] final(v)@[i]).key.id()
                    == t[i].0 && final(v)@[i].validator == t[i].1 by {
                    if i < old(v)@.len() {
                        assert(old(v)@[i] == final(v)@[i]);
                    }
                }
            }
        },
        None => {
            proof {
                assert(s + parent_dir_req(path@) =~= s);
            }
        },
    }
}

fn push_all_exist(v: &mut Vec<Requirement>, kind: u8, names: &Vec<String>, Ghost(s): Ghost<Seq<(KeyId, Validator)>>)
    requires
        kind < 4,
        reqs_match(old(v)@, s),
    ensures
        reqs_match(final(v)@, s + all_exist(kind as int, names@)),
{
    let mut i: usize = 0;
    while i < names.len()
        invariant
            kind < 4,
            i <= names.len(),
            reqs_match(v@, s + all_exist(kind as int, names@.subrange(0, i as int))),
        decreases names.len() - i,
    {
        proof {
            assert(s + all_exist(kind as int, names@.subrange(0, i as int + 1)) =~= (s + all_exist(
                kind as int,
                names@.subrange(0, i as int),
            )).push(exists_req((kind as int, names@[i as int]@))));
        }
        push_exists(v, kind, &names[i], Ghost(s + all_exist(kind as int, names@.subrange(0, i as int))));
        i = i + 1;
    }
    proof {
        assert(names@.subrange(0, names@.len() as int) =~= names@);
    }
}

fn push_layer_reqs(v: &mut Vec<Requirement>, l: &ExtractLayerBinaries, Ghost(s): Ghost<Seq<(KeyId, Validator)>>)
    requires
        reqs_match(old(v)@, s),
    ensures
        reqs_match(final(v)@, s + layer_reqs(l.layer@, l.binaries@)),
{
    let mut i: usize = 0;
    while i < l.binaries.len()
        invariant
            i <= l.binaries.len(),
            reqs_match(v@, s + layer_reqs(l.layer@, l.binaries@.subrange(0, i as int))),
        decreases l.binaries.len() - i,
    {
        let ghost before = s + layer_reqs(l.layer@, l.binaries@.subrange(0, i as int));
        let bin = &l.binaries[i];
        let ghost with_layer = before.push(
            ((3int, l.layer@), Validator::ItemInLayer {
                key: ItemKey::Path(*bin),
                validator: Box::new(Validator::Exists),
            }),
        );
        v.push(
            Requirement {
                key: ItemKey::Layer(l.layer.clone()),
                validator: Validator::ItemInLayer {
                    key: ItemKey::Path(bin.clone()),
                    validator: Box::new(Validator::Exists),
                },
            },
        );
        proof {
            assert forall|j: int| 0 <= j < v@.len() implies (#[trigger] v@[j]).key.id() == with_layer[j].0
                && v@[j].validator == with_layer[j].1 by {}
        }
        push_parent_dir(v, bin, Ghost(with_layer));
        proof {
            let sub = l.binaries@.subrange(0, i as int + 1);
            assert(sub.drop_last() =~= l.binaries@.subrange(0, i as int));
            assert(sub.last() == *bin);
            assert(s + layer_reqs(l.layer@, sub) =~= before + binary_reqs(l.layer@, *bin));
        }
        i = i + 1;
    }
    proof {
        assert(l.binaries@.subrange(0, l.binaries@.len() as int) =~= l.binaries@);
    }
}

fn entry_item(path: &String, file_type: FileType, mode: u32) -> (r: Item)
    ensures
        r == Item::Path(PathItem::Entry(FsEntry { path: *path, file_type, mode })),
{
    Item::Path(PathItem::Entry(FsEntry { path: path.clone(), file_type, mode }))
}

impl Feature {
    /// What the feature provides, or `None` where its kind cannot say.
    pub open spec fn spec_provides(&self) -> Option<Seq<Item>> {
        match self.data {
            Data::EnsureDirExists(d) => Some(
                seq![Item::Path(PathItem::Entry(FsEntry { path: d.dir, file_type: FileType::Directory, mode: d.mode }))],
            ),
            Data::Extract(Extract::Buck(b)) => Some(seq![file_entry(b.dst)]),
            Data::Extract(Extract::Layer(l)) => Some(
                Seq::new(l.binaries@.len(), |i: int| file_entry(l.binaries@[i])),
            ),
            Data::Genrule(_) => Some(seq![]),
            Data::Antlir1NoEquivalent(_) => None,
            Data::Remove(r) => Some(seq![Item::Path(PathItem::Removed(r.path))]),
            Data::Requires(_) => Some(seq![]),
            Data::Rpm(_) => Some(seq![]),
            Data::User(u) => Some(seq![Item::User(User { name: u.name })]),
            Data::Group(g) => Some(seq![Item::Group(Group { name: g.name })]),
        }
    }

    /// What the feature requires, as keys and validators, or `None` where its
    /// kind cannot say.
    pub open spec fn spec_requires(&self) -> Option<Seq<(KeyId, Validator)>> {
        match self.data {
            Data::EnsureDirExists(d) => Some(
                seq![exists_req((1int, d.user@)), exists_req((2int, d.group@))] + parent_dir_req(d.dir@),
            ),
            Data::Extract(Extract::Buck(b)) => Some(parent_dir_req(b.dst@)),
            Data::Extract(Extract::Layer(l)) => Some(layer_reqs(l.layer@, l.binaries@)),
            Data::Genrule(_) => Some(seq![]),
            Data::Antlir1NoEquivalent(_) => None,
            Data::Remove(_) => Some(seq![]),
            Data::Requires(r) => Some(
                all_exist(0, r.files@) + all_exist(1, r.users@) + all_exist(2, r.groups@),
            ),
            Data::Rpm(_) => Some(seq![]),
            Data::User(u) => Some(
                seq![exists_req((2int, u.primary_group@)), ((0int, u.home_dir@), Validator::FileType(FileType::Directory))],
            ),
            Data::Group(_) => Some(seq![]),
        }
    }

    /// The items that this feature will create.
    pub fn provides(&self) -> (r: Result<Vec<Item>, String>)
        ensures
            match r {
                Ok(v) => self.spec_provides() == Some(v@),
                Err(_) => self.spec_provides() is None,
            },
    {
        match &self.data {
            Data::EnsureDirExists(d) => {
                let v = vec![entry_item(&d.dir, FileType::Directory, d.mode)];
                Ok(v)
            },
            Data::Extract(Extract::Buck(b)) => Ok(vec![entry_item(&b.dst, FileType::File, 0o555)]),
            Data::Extract(Extract::Layer(l)) => {
                let mut v: Vec<Item> = Vec::new();
                let mut i: usize = 0;
                while i < l.binaries.len()
                    invariant
                        i <= l.binaries.len(),
                        v@ =~= Seq::new(i as nat, |j: int| file_entry(l.binaries@[j])),
                    decreases l.binaries.len() - i,
                {
                    v.push(entry_item(&l.binaries[i], FileType::File, 0o555));
                    i = i + 1;
                }
                Ok(v)
            },
            Data::Genrule(_) => Ok(Vec::new()),
            Data::Antlir1NoEquivalent(_) => Err("Antlir1NoEquivalent cannot declare what it provides".to_owned()),
            Data::Remove(r) => Ok(vec![Item::Path(PathItem::Removed(r.path.clone()))]),
            Data::Requires(_) => Ok(Vec::new()),
            Data::Rpm(_) => Ok(Vec::new()),
            Data::User(u) => Ok(vec![Item::User(User { name: u.name.clone() })]),
            Data::Group(g) => Ok(vec![Item::Group(Group { name: g.name.clone() })]),
        }
    }

    /// The preconditions of this feature, each with the predicate that the
    /// item under its key must satisfy.
    pub fn requirements(&self) -> (r: Result<Vec<Requirement>, String>)
        ensures
            match r {
                Ok(v) => self.spec_requires() is Some && reqs_match(v@, self.spec_requires()->Some_0),
                Err(_) => self.spec_requires() is None,
            },
    {
        let mut v: Vec<Requirement> = Vec::new();
        match &self.data {
            Data::EnsureDirExists(d) => {
                push_exists(&mut v, 1, &d.user, Ghost(Seq::empty()));
                push_exists(&mut v, 2, &d.group, Ghost(Seq::empty().push(exists_req((1int, d.user@)))));
                push_parent_dir(&mut v, &d.dir, Ghost(Seq::empty().push(exists_req((1int, d.user@))).push(exists_req((2int, d.group@)))));
                proof {
                    assert(seq![exists_req((1int, d.user@))] =~= seq![].push(exists_req((1int, d.user@))));
                    assert(seq![exists_req((1int, d.user@)), exists_req((2int, d.group@))] =~= seq![exists_req((1int, d.user@))].push(exists_req((2int, d.group@))));
                }
            },
            Data::Extract(Extract::Buck(b)) => {
                push_parent_dir(&mut v, &b.dst, Ghost(Seq::empty()));
                proof {
                    assert(seq![] + parent_dir_req(b.dst@) =~= parent_dir_req(b.dst@));
                }
            },
            Data::Extract(Extract::Layer(l)) => {
                push_layer_reqs(&mut v, l, Ghost(Seq::empty()));
                proof {
                    assert(seq![] + layer_reqs(l.layer@, l.binaries@) =~= layer_reqs(l.layer@, l.binaries@));
                }
            },
            Data::Antlir1NoEquivalent(_) => {
                return Err("Antlir1NoEquivalent cannot declare what it requires".to_owned());
            },
            Data::Requires(r) => {
                push_all_exist(&mut v, 0, &r.files, Ghost(Seq::empty()));
                push_all_exist(&mut v, 1, &r.users, Ghost(Seq::empty() + all_exist(0, r.files@)));
                push_all_exist(&mut v, 2, &r.groups, Ghost(Seq::empty() + all_exist(0, r.files@) + all_exist(1, r.users@)));
                proof {
                    assert(seq![] + all_exist(0, r.files@) =~= all_exist(0, r.files@));
                }
            },
            Data::User(u) => {
                push_exists(&mut v, 2, &u.primary_group, Ghost(Seq::empty()));
                v.push(
                    Requirement {
                        key: ItemKey::Path(u.home_dir.clone()),
                        validator: Validator::FileType(FileType::Directory),
                    },
                );
                proof {
                    let t = seq![exists_req((2int, u.primary_group@)), ((0int, u.home_dir@), Validator::FileType(FileType::Directory))];
                    assert(seq![exists_req((2int, u.primary_group@))] =~= seq![].push(exists_req((2int, u.primary_group@))));
                    assert(v@.len() == 2);
                    assert(v@[0].key.id() == t[0].0);
                }
            },
            _ => {},
        }
        Ok(v)
    }
}

pub proof fn lemma_bytes_equal(a: Seq<u8>, b: Seq<u8>, i: int)
    requires
        0 <= i <= a.len(),
        i <= b.len(),
        a.subrange(0, i) == b.subrange(0, i),
        !bytes_lt_from(a, b, i),
        !bytes_lt_from(b, a, i),
    ensures
        a == b,
    decreases a.len() - i,
{
    if i < a.len() && i < b.len() {
        assert(a.subrange(0, i + 1) =~= a.subrange(0, i).push(a[i]));
        assert(b.subrange(0, i + 1) =~= b.subrange(0, i).push(b[i]));
        lemma_bytes_equal(a, b, i + 1);
    } else {
        assert(a =~= a.subrange(0, i));
        assert(b =~= b.subrange(0, i));
    }
}

/// The strict order of features is irreflexive and transitive.
pub proof fn lemma_feature_order(a: Feature, b: Feature, c: Feature)
    ensures
        !a.spec_lt(&a),
        a.spec_lt(&b) && b.spec_lt(&c) ==> a.spec_lt(&c),
{
    let (x, y, z) = (encode_utf8(a.label@), encode_utf8(b.label@), encode_utf8(c.label@));
    lemma_bytes_lt_irreflexive(x, 0);
    if bytes_lt_from(x, y, 0) && bytes_lt_from(y, z, 0) {
        lemma_bytes_lt_transitive(x, y, z, 0);
    }
}

} // verus!
