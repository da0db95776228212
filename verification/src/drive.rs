use vstd::prelude::*;
use std::path::Component;
use std::path::Component::RootDir;
use std::path::Prefix::{DeviceNS, Disk, Verbatim, VerbatimDisk, VerbatimUNC, UNC};

verus! {

/// A Windows path prefix, as `std::path::Prefix` tells its kinds apart.
pub enum PathPrefix {
    Verbatim(String),
    VerbatimUNC(String, String),
    VerbatimDisk(u8),
    DeviceNS(String),
    UNC(String, String),
    Disk(u8),
}

/// The first component of a path, as far as the drive comparison needs it.
pub enum PathRoot {
    Prefix(PathPrefix),
    RootDir,
    Other,
    Empty,
}

/// A path prefix as plain values.
pub enum PrefixModel {
    Verbatim(Seq<char>),
    VerbatimUNC(Seq<char>, Seq<char>),
    VerbatimDisk(u8),
    DeviceNS(Seq<char>),
    UNC(Seq<char>, Seq<char>),
    Disk(u8),
}

/// The first component of a path as plain values.
pub enum RootModel {
    Prefix(PrefixModel),
    RootDir,
    Other,
    Empty,
}

impl PathPrefix {
    pub open spec fn model(&self) -> PrefixModel {
        match self {
            PathPrefix::Verbatim(a) => PrefixModel::Verbatim(a@),
            PathPrefix::VerbatimUNC(a, b) => PrefixModel::VerbatimUNC(a@, b@),
            PathPrefix::VerbatimDisk(d) => PrefixModel::VerbatimDisk(*d),
            PathPrefix::DeviceNS(a) => PrefixModel::DeviceNS(a@),
            PathPrefix::UNC(a, b) => PrefixModel::UNC(a@, b@),
            PathPrefix::Disk(d) => PrefixModel::Disk(*d),
        }
    }
}

impl PathRoot {
    pub open spec fn model(&self) -> RootModel {
        match self {
            PathRoot::Prefix(p) => RootModel::Prefix(p.model()),
            PathRoot::RootDir => RootModel::RootDir,
            PathRoot::Other => RootModel::Other,
            PathRoot::Empty => RootModel::Empty,
        }
    }
}

/// The path begins at the root directory on every platform: a `/` that is not
/// followed by a second separator (two leading separators begin a Windows UNC
/// prefix).
pub open spec fn starts_at_plain_root(p: Seq<char>) -> bool {
    p.len() >= 1 && p[0] == '/' && (p.len() == 1 || (p[1] != '/' && p[1] != '\\'))
}

/// The path is relative on every platform: not empty, not starting with a
/// separator, and without a `:` (every Windows prefix starts with two
/// separators or is a drive letter and a colon).
pub open spec fn plain_relative_text(p: Seq<char>) -> bool {
    p.len() >= 1 && p[0] != '/' && p[0] != '\\' && !p.contains(':')
}

/// The first component that std's path parser reports for `path`, as plain
/// values. It is a function of the text alone for a given build of the
/// library: which prefixes the parser knows depends on the platform the
/// library is built for (Windows knows drive, UNC, verbatim and device
/// prefixes; other platforms know none), not on anything at run time.
pub uninterp spec fn first_component_of(path: Seq<char>) -> RootModel;

/// The first component of `path` (`Path::new(path).components().next()`),
/// with a prefix's kind and text carried over as plain values; the result is
/// `first_component_of` the text. What std documents on every platform is
/// also stated: an empty path has no component; a path that begins with a
/// single `/` has no prefix and has a root, so its first component is the
/// root directory; a relative path without a colon has neither prefix nor
/// root, so its first component is something else. Which prefix std reports
/// for other paths depends on the platform the library is built for and is
/// left to the name.
#[verifier::external_body]
fn first_path_root(path: &str) -> (r: PathRoot)
    ensures
        r.model() == first_component_of(path@),
        path@.len() == 0 ==> r is Empty,
        starts_at_plain_root(path@) ==> r is RootDir,
        plain_relative_text(path@) ==> r is Other,
{
    match std::path::Path::new(path).components().next() {
        Some(Component::Prefix(p)) => PathRoot::Prefix(match p.kind() {
            Verbatim(a) => PathPrefix::Verbatim(a.to_string_lossy().into_owned()),
            VerbatimUNC(a, b) => PathPrefix::VerbatimUNC(a.to_string_lossy().into_owned(), b.to_string_lossy().into_owned()),
            VerbatimDisk(d) => PathPrefix::VerbatimDisk(d),
            DeviceNS(a) => PathPrefix::DeviceNS(a.to_string_lossy().into_owned()),
            UNC(a, b) => PathPrefix::UNC(a.to_string_lossy().into_owned(), b.to_string_lossy().into_owned()),
            Disk(d) => PathPrefix::Disk(d),
        }),
        Some(RootDir) => PathRoot::RootDir,
        Some(_) => PathRoot::Other,
        None => PathRoot::Empty,
    }
}

/// Two paths are on the same drive, by their text alone, when both start with
/// the same prefix (same kind, same text) or both start at the root directory.
pub open spec fn same_lexical_drive(a: RootModel, b: RootModel) -> bool {
    match (a, b) {
        (RootModel::Prefix(x), RootModel::Prefix(y)) => x == y,
        (RootModel::RootDir, RootModel::RootDir) => true,
        _ => false,
    }
}

fn same_prefix(a: &PathPrefix, b: &PathPrefix) -> (r: bool)
    ensures
        r == (a.model() == b.model()),
{
    match a {
        PathPrefix::Verbatim(x) => match b {
            PathPrefix::Verbatim(y) => x.eq(y),
            _ => false,
        },
        PathPrefix::VerbatimUNC(x1, x2) => match b {
            PathPrefix::VerbatimUNC(y1, y2) => x1.eq(y1) && x2.eq(y2),
            _ => false,
        },
        PathPrefix::VerbatimDisk(x) => match b {
            PathPrefix::VerbatimDisk(y) => *x == *y,
            _ => false,
        },
        PathPrefix::DeviceNS(x) => match b {
            PathPrefix::DeviceNS(y) => x.eq(y),
            _ => false,
        },
        PathPrefix::UNC(x1, x2) => match b {
            PathPrefix::UNC(y1, y2) => x1.eq(y1) && x2.eq(y2),
            _ => false,
        },
        PathPrefix::Disk(x) => match b {
            PathPrefix::Disk(y) => *x == *y,
            _ => false,
        },
    }
}

/// Whether two first components put their paths on the same drive: the same
/// prefix, or both the root directory.
pub fn same_lexical_drive_of(a: &PathRoot, b: &PathRoot) -> (r: bool)
    ensures
        r == same_lexical_drive(a.model(), b.model()),
        a.model() is Prefix && b.model() is Prefix ==> (r <==> a.model() == b.model()),
        a.model() is RootDir && b.model() is RootDir ==> r,
        r ==> a.model() == b.model(),
{
    match (a, b) {
        (PathRoot::Prefix(x), PathRoot::Prefix(y)) => same_prefix(x, y),
        (PathRoot::RootDir, PathRoot::RootDir) => true,
        _ => false,
    }
}

/// Whether two paths start on the same drive, judged from their text: the
/// first components that std's path parser reports for them are compared by
/// `same_lexical_drive_of` (the same prefix, or both the root directory). An
/// empty path, and a relative path without a drive, is on no drive; two paths
/// that both begin at the root directory are on the same one.
pub fn rs_is_same_lexical_drive(a: &str, b: &str) -> (r: bool)
    ensures
        r == same_lexical_drive(first_component_of(a@), first_component_of(b@)),
        first_component_of(a@) is Prefix && first_component_of(b@) is Prefix ==> (r <==> first_component_of(a@)
            == first_component_of(b@)),
        r ==> first_component_of(a@) == first_component_of(b@),
        a@.len() == 0 || b@.len() == 0 ==> !r,
        plain_relative_text(a@) || plain_relative_text(b@) ==> !r,
        starts_at_plain_root(a@) && starts_at_plain_root(b@) ==> r,
{
    let root_a = first_path_root(a);
    let root_b = first_path_root(b);
    same_lexical_drive_of(&root_a, &root_b)
}

/// Two prefixes put their paths on the same drive exactly when they are the
/// same prefix: the same kind and the same drive letter, server, share or
/// text (so `\\?\C:` and `\\?\D:` differ, and so do shares of the same name
/// on two servers). Two root directories are the same drive, and a prefix and
/// anything that is not the same prefix are not; in every case the same drive
/// means the same first component.
pub proof fn law_same_drive_means_same_prefix(x: RootModel, y: RootModel)
    ensures
        x is Prefix && y is Prefix ==> (same_lexical_drive(x, y) <==> x == y),
        x is RootDir && y is RootDir ==> same_lexical_drive(x, y),
        same_lexical_drive(x, y) ==> x == y && (x is Prefix || x is RootDir),
{
}

/// Whether two paths are on the same drive does not depend on their order.
pub proof fn law_same_lexical_drive_symmetric(a: Seq<char>, b: Seq<char>)
    ensures
        same_lexical_drive(first_component_of(a), first_component_of(b)) == same_lexical_drive(
            first_component_of(b),
            first_component_of(a),
        ),
{
}

} // verus!
