//! Store paths and the metadata that the store keeps of them.

use crate::text::after_last;
use crate::text::before_first;
use crate::text::chars;
use crate::text::lemma_last_index_is;
use crate::text::split_before_first;
use vstd::prelude::*;
use vstd::string::StrSliceExecFns;
use vstd::string::StringExecFns;

verus! {

/// The views of a sequence of strings.
pub open spec fn views(strings: Seq<String>) -> Seq<Seq<char>> {
    strings.map_values(|s: String| s@)
}

/// The view of an optional string.
pub open spec fn option_view(s: Option<String>) -> Option<Seq<char>> {
    match s {
        Some(s) => Some(s@),
        None => None,
    }
}

/// What the store knows of one store path.
#[derive(Debug)]
pub struct NixPathInfo {
    /// The store path itself.
    pub path: String,
    /// Digest of the uncompressed archive.
    pub nar_hash: String,
    /// Length of the uncompressed archive.
    pub nar_size: u64,
    /// The store paths that this one refers to.
    pub references: Vec<String>,
    /// The store path of the derivation that built this one.
    pub deriver: Option<String>,
    /// Signatures over the path.
    pub signatures: Option<Vec<String>>,
    /// Content-address tag.
    pub ca: Option<String>,
}

/// A `NixPathInfo` as plain values.
pub struct NixPathInfoView {
    pub path: Seq<char>,
    pub nar_hash: Seq<char>,
    pub nar_size: u64,
    pub references: Seq<Seq<char>>,
    pub deriver: Option<Seq<char>>,
    pub signatures: Option<Seq<Seq<char>>>,
    pub ca: Option<Seq<char>>,
}

impl View for NixPathInfo {
    type V = NixPathInfoView;

    open spec fn view(&self) -> NixPathInfoView {
        NixPathInfoView {
            path: self.path@,
            nar_hash: self.nar_hash@,
            nar_size: self.nar_size,
            references: views(self.references@),
            deriver: option_view(self.deriver),
            signatures: match self.signatures {
                Some(signatures) => Some(views(signatures@)),
                None => None,
            },
            ca: option_view(self.ca),
        }
    }
}

/// The views of a sequence with one more string.
pub proof fn lemma_views_push(strings: Seq<String>, s: String)
    ensures
        views(strings.push(s)) == views(strings).push(s@),
{
    assert(views(strings.push(s)) =~= views(strings).push(s@));
}

/// A copy of a list of strings.
pub fn copy_strings(strings: &Vec<String>) -> (copy: Vec<String>)
    ensures
        views(copy@) == views(strings@),
{
    let mut copy: Vec<String> = Vec::new();
    let mut i: usize = 0;
    while i < strings.len()
        invariant
            i <= strings.len(),
            views(copy@) == views(strings@.take(i as int)),
        decreases strings.len() - i,
    {
        let ghost before = copy@;
        let s = strings[i].clone();
        assert(s@ == strings@[i as int]@);
        copy.push(s);
        i = i + 1;
        proof {
            lemma_views_push(before, s);
            lemma_views_push(strings@.take(i - 1), strings@[i - 1]);
            assert(strings@.take(i as int) == strings@.take(i - 1).push(strings@[i - 1]));
        }
    }
    assert(strings@.take(strings.len() as int) == strings@);
    copy
}

/// A copy of an optional string.
pub fn copy_option(s: &Option<String>) -> (copy: Option<String>)
    ensures
        option_view(copy) == option_view(*s),
{
    match s {
        Some(s) => Some(s.clone()),
        None => None,
    }
}

impl NixPathInfo {
    /// A copy with the same contents.
    pub fn duplicate(&self) -> (copy: NixPathInfo)
        ensures
            copy@ == self@,
    {
        NixPathInfo {
            path: self.path.clone(),
            nar_hash: self.nar_hash.clone(),
            nar_size: self.nar_size,
            references: copy_strings(&self.references),
            deriver: copy_option(&self.deriver),
            signatures: match &self.signatures {
                Some(signatures) => Some(copy_strings(signatures)),
                None => None,
            },
            ca: copy_option(&self.ca),
        }
    }
}

/// Why a string is no store path.
#[derive(Debug, Clone, Copy, PartialEq, Eq)]
pub enum StorePathError {
    /// The path has no final component: it is empty, or ends in the root, in
    /// `.` alone, or in `..`.
    InvalidStorePath,
}

/// The final component of a path: its last segment between `/` that is
/// neither empty nor `.`. There is none where that segment is `..`, or where
/// no such segment exists.
pub open spec fn file_name(path: Seq<char>) -> Option<Seq<char>>
    decreases path.len(),
{
    let name = after_last(path, '/');
    if name.len() == 0 || name == seq!['.'] {
        if name.len() >= path.len() {
            None
        } else {
            file_name(path.take(path.len() - name.len() - 1))
        }
    } else if name == seq!['.', '.'] {
        None
    } else {
        Some(name)
    }
}

/// The hash part of a store path: what stands in its final component
/// before the first `-`.
pub open spec fn store_path_hash(path: Seq<char>) -> Option<Seq<char>> {
    match file_name(path) {
        Some(name) => Some(before_first(name, '-')),
        None => None,
    }
}

/// The final component of `path`, if it has one.
pub fn final_component<'a>(path: &'a str) -> (name: Option<&'a str>)
    ensures
        match name {
            Some(name) => file_name(path@) == Some(name@),
            None => file_name(path@) is None,
        },
{
    let v = chars(path);
    let mut end: usize = v.len();
    assert(v@.take(end as int) == v@);
    loop
        invariant
            end <= v.len(),
            v@ == path@,
            file_name(path@) == file_name(v@.take(end as int)),
        decreases end,
    {
        let mut start: usize = end;
        while start > 0 && v[start - 1] != '/'
            invariant
                start <= end <= v.len(),
                forall|k: int| start <= k < end ==> v@[k] != '/',
            decreases start,
        {
            start = start - 1;
        }
        let ghost prefix = v@.take(end as int);
        proof {
            lemma_last_index_is(prefix, '/', start - 1);
            assert(after_last(prefix, '/') =~= v@.subrange(start as int, end as int));
        }
        let width: usize = end - start;
        let skip: bool = width == 0 || (width == 1 && v[start] == '.');
        let parent: bool = width == 2 && v[start] == '.' && v[start + 1] == '.';
        proof {
            let name = v@.subrange(start as int, end as int);
            if width == 1 && v[start as int] == '.' {
                assert(name =~= seq!['.']);
            }
            if width == 1 && v[start as int] != '.' {
                assert(name[0] != seq!['.'][0]);
            }
            if parent {
                assert(name =~= seq!['.', '.']);
            }
            if width == 2 && !parent {
                assert(name[0] != seq!['.', '.'][0] || name[1] != seq!['.', '.'][1]);
            }
        }
        if skip {
            if start == 0 {
                return None;
            }
            assert(prefix.take(prefix.len() - width - 1) =~= v@.take(start - 1));
            end = start - 1;
        } else if parent {
            return None;
        } else {
            let name = path.substring_char(start, end);
            return Some(name);
        }
    }
}

/// The hash part of a store path: what stands in its final component
/// before the first `-`. A path without a final component is refused.
pub fn get_store_path_hash(store_path: &str) -> (hash: Result<String, StorePathError>)
    ensures
        match hash {
            Ok(hash) => store_path_hash(store_path@) == Some(hash@),
            Err(e) => store_path_hash(store_path@) is None && e == StorePathError::InvalidStorePath,
        },
{
    match final_component(store_path) {
        Some(name) => Ok(String::from_str(split_before_first(name, '-'))),
        None => Err(StorePathError::InvalidStorePath),
    }
}

/// The arguments with which the store is asked for the metadata of
/// `store_paths` and of all that they refer to, as one JSON document.
pub fn path_info_arguments(store_paths: &Vec<String>) -> (arguments: Vec<String>)
    ensures
        views(arguments@) == seq![
            "--extra-experimental-features"@,
            "nix-command"@,
            "path-info"@,
            "--recursive"@,
            "--json"@,
        ] + views(store_paths@),
{
    let mut arguments: Vec<String> = Vec::new();
    arguments.push(String::from_str("--extra-experimental-features"));
    arguments.push(String::from_str("nix-command"));
    arguments.push(String::from_str("path-info"));
    arguments.push(String::from_str("--recursive"));
    arguments.push(String::from_str("--json"));
    let ghost head = views(arguments@);
    let mut i: usize = 0;
    while i < store_paths.len()
        invariant
            i <= store_paths.len(),
            views(arguments@) == head + views(store_paths@.take(i as int)),
        decreases store_paths.len() - i,
    {
        let ghost before = arguments@;
        let path = store_paths[i].clone();
        arguments.push(path);
        i = i + 1;
        proof {
            lemma_views_push(before, path);
            lemma_views_push(store_paths@.take(i - 1), store_paths@[i - 1]);
            assert(store_paths@.take(i as int) == store_paths@.take(i - 1).push(
                store_paths@[i - 1],
            ));
            assert(views(arguments@) =~= head + views(store_paths@.take(i as int)));
        }
    }
    assert(store_paths@.take(store_paths.len() as int) == store_paths@);
    assert(head =~= seq![
        "--extra-experimental-features"@,
        "nix-command"@,
        "path-info"@,
        "--recursive"@,
        "--json"@,
    ]);
    arguments
}

/// The records of a metadata document, each told the store path under which
/// the document lists it.
pub fn with_paths(records: Vec<(String, NixPathInfo)>) -> (infos: Vec<NixPathInfo>)
    ensures
        infos@.len() == records@.len(),
        forall|i: int|
            0 <= i < records@.len() ==> (#[trigger] infos@[i])@ == (NixPathInfoView {
                path: records@[i].0@,
                ..records@[i].1@
            }),
{
    let mut infos: Vec<NixPathInfo> = Vec::new();
    let mut i: usize = 0;
    while i < records.len()
        invariant
            i <= records.len(),
            infos@.len() == i,
            forall|k: int|
                0 <= k < i ==> (#[trigger] infos@[k])@ == (NixPathInfoView {
                    path: records@[k].0@,
                    ..records@[k].1@
                }),
        decreases records.len() - i,
    {
        let mut info = records[i].1.duplicate();
        info.path = records[i].0.clone();
        infos.push(info);
        i = i + 1;
    }
    infos
}

} // verus!
