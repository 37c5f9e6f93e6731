//! What a push decides: which objects a closure is made of, which of them
//! are sent, in which order, and when the push has failed. Talking to the
//! service and to the filesystem is left to the caller, who hands back what
//! came of it.

use crate::narinfo::create_narinfo;
use crate::narinfo::narinfo_text;
use crate::nix_store::NixPathInfo;
use crate::nix_store::NixPathInfoView;
use crate::nix_store::StorePathError;
use crate::nix_store::get_store_path_hash;
use crate::nix_store::lemma_views_push;
use crate::nix_store::store_path_hash;
use crate::nix_store::views;
use crate::string_map::StringMap;
use crate::string_map::lemma_put_map_entries;
use crate::string_map::map_entries;
use crate::string_map::map_of;
use crate::string_map::pairs_view;
use crate::string_map::put;
use crate::string_map::put_all;
use crate::text::join;
use crate::text::strip_prefix;
use crate::text::strip_suffix;
use crate::upload::CreatePendingClosureResponse;
use crate::upload::ObjectWithRefs;
use crate::upload::ObjectWithRefsView;
use crate::upload::PendingObject;
use vstd::prelude::*;
use vstd::string::StrSliceExecFns;
use vstd::string::StringExecFns;

verus! {

/// The key of the record of the store path with hash part `hash`.
pub open spec fn narinfo_key(hash: Seq<char>) -> Seq<char> {
    hash + ".narinfo"@
}

/// The name under which the compressed archive of that store path is kept.
pub open spec fn nar_filename(hash: Seq<char>) -> Seq<char> {
    hash + ".nar.zst"@
}

/// The key of the compressed archive of that store path.
pub open spec fn nar_key(hash: Seq<char>) -> Seq<char> {
    "nar/"@ + nar_filename(hash)
}

/// The keys of the records of `references`; none where one of them is no
/// store path.
pub open spec fn reference_keys(references: Seq<Seq<char>>) -> Option<Seq<Seq<char>>>
    decreases references.len(),
{
    if references.len() == 0 {
        Some(Seq::empty())
    } else {
        match (reference_keys(references.drop_last()), store_path_hash(references.last())) {
            (Some(keys), Some(hash)) => Some(keys.push(narinfo_key(hash))),
            _ => None,
        }
    }
}

/// A closure as plain values: the key it is negotiated under, and its objects.
pub struct ClosureView {
    pub key: Seq<char>,
    pub objects: Seq<ObjectWithRefsView>,
}

/// The objects as plain values.
pub open spec fn objects_view(objects: Seq<ObjectWithRefs>) -> Seq<ObjectWithRefsView> {
    objects.map_values(|object: ObjectWithRefs| object@)
}

/// The closure as plain values.
pub open spec fn closure_view(closure: (String, Vec<ObjectWithRefs>)) -> ClosureView {
    ClosureView { key: closure.0@, objects: objects_view(closure.1@) }
}

/// The closure of one store path: it is negotiated under the key of the
/// path's record, and holds two objects. The record depends on the records
/// of the path's references and on the path's own archive; the archive
/// depends on nothing. There is none where the path or one of its references
/// is no store path.
pub open spec fn closure_of(info: NixPathInfoView) -> Option<ClosureView> {
    match (store_path_hash(info.path), reference_keys(info.references)) {
        (Some(hash), Some(keys)) => Some(
            ClosureView {
                key: narinfo_key(hash),
                objects: seq![
                    ObjectWithRefsView { key: narinfo_key(hash), refs: keys.push(nar_key(hash)) },
                    ObjectWithRefsView { key: nar_key(hash), refs: Seq::empty() },
                ],
            },
        ),
        _ => None,
    }
}

/// The store paths by their hash parts; of two with one hash part, the
/// later counts.
pub open spec fn info_table(infos: Seq<NixPathInfo>) -> Map<Seq<char>, NixPathInfoView>
    decreases infos.len(),
{
    if infos.len() == 0 {
        Map::empty()
    } else {
        match store_path_hash(infos.last().path@) {
            Some(hash) => info_table(infos.drop_last()).insert(hash, infos.last()@),
            None => info_table(infos.drop_last()),
        }
    }
}

/// The store paths under their hash parts, in the order in which the hash
/// parts first come.
pub open spec fn info_entries(infos: Seq<NixPathInfo>) -> Seq<(Seq<char>, NixPathInfoView)>
    decreases infos.len(),
{
    if infos.len() == 0 {
        Seq::empty()
    } else {
        match store_path_hash(infos.last().path@) {
            Some(hash) => put(info_entries(infos.drop_last()), hash, infos.last()@),
            None => info_entries(infos.drop_last()),
        }
    }
}

/// A store path's metadata as plain values.
pub open spec fn info_view() -> spec_fn(NixPathInfo) -> NixPathInfoView {
    |info: NixPathInfo| info@
}

/// The values of a table as plain values.
pub open spec fn table_view(table: Map<Seq<char>, NixPathInfo>) -> Map<Seq<char>, NixPathInfoView> {
    table.map_values(|info: NixPathInfo| info@)
}

/// What is negotiated for a set of store paths, and the paths by hash part.
pub struct PreparedClosures {
    pub closures: Vec<(String, Vec<ObjectWithRefs>)>,
    pub path_info_by_hash: StringMap<NixPathInfo>,
}

/// The key of the record of the store path with hash part `hash`.
pub fn narinfo_key_of(hash: &str) -> (key: String)
    ensures
        key@ == narinfo_key(hash@),
{
    join(hash, ".narinfo")
}

/// The name under which the compressed archive of that store path is kept.
pub fn nar_filename_of(hash: &str) -> (name: String)
    ensures
        name@ == nar_filename(hash@),
{
    join(hash, ".nar.zst")
}

/// The key of the compressed archive of that store path.
pub fn nar_key_of(hash: &str) -> (key: String)
    ensures
        key@ == nar_key(hash@),
{
    let name = nar_filename_of(hash);
    join("nar/", name.as_str())
}

/// The keys of the records of `references`.
fn dependency_keys(references: &Vec<String>) -> (keys: Result<Vec<String>, StorePathError>)
    ensures
        match keys {
            Ok(keys) => reference_keys(views(references@)) == Some(views(keys@)),
            Err(_) => reference_keys(views(references@)) is None,
        },
{
    let mut keys: Vec<String> = Vec::new();
    let mut i: usize = 0;
    assert(views(references@).take(0) =~= Seq::<Seq<char>>::empty());
    assert(views(keys@) =~= Seq::<Seq<char>>::empty());
    while i < references.len()
        invariant
            i <= references.len(),
            reference_keys(views(references@).take(i as int)) == Some(views(keys@)),
        decreases references.len() - i,
    {
        let ghost done = views(references@).take(i + 1);
        proof {
            assert(done.drop_last() =~= views(references@).take(i as int));
            assert(done.last() == references@[i as int]@);
        }
        match get_store_path_hash(references[i].as_str()) {
            Ok(hash) => {
                let key = narinfo_key_of(hash.as_str());
                proof {
                    lemma_views_push(keys@, key);
                }
                keys.push(key);
            },
            Err(e) => {
                proof {
                    lemma_reference_keys_prefix(views(references@), i + 1);
                }
                return Err(e);
            },
        }
        i = i + 1;
    }
    assert(views(references@).take(references.len() as int) =~= views(references@));
    Ok(keys)
}

/// Where the keys of some leading references cannot be had, those of all
/// cannot.
proof fn lemma_reference_keys_prefix(references: Seq<Seq<char>>, upto: int)
    requires
        0 <= upto <= references.len(),
        reference_keys(references.take(upto)) is None,
    ensures
        reference_keys(references) is None,
    decreases references.len() - upto,
{
    if upto < references.len() {
        assert(references.take(upto + 1).drop_last() =~= references.take(upto));
        lemma_reference_keys_prefix(references, upto + 1);
    } else {
        assert(references.take(upto) =~= references);
    }
}

/// The closure of each store path, in the order of `path_infos`, and the
/// paths by hash part. A path or a reference that is no store path fails
/// the whole.
pub fn prepare_closures(path_infos: &Vec<NixPathInfo>) -> (prepared: Result<
    PreparedClosures,
    StorePathError,
>)
    ensures
        match prepared {
            Ok(prepared) => {
                &&& prepared.closures@.len() == path_infos@.len()
                &&& forall|i: int|
                    0 <= i < path_infos@.len() ==> closure_of(path_infos@[i]@) == Some(
                        closure_view(#[trigger] prepared.closures@[i]),
                    )
                &&& prepared.path_info_by_hash.wf()
                &&& table_view(prepared.path_info_by_hash@) == info_table(path_infos@)
                &&& map_entries(prepared.path_info_by_hash.entries(), info_view()) == info_entries(
                    path_infos@,
                )
            },
            Err(_) => exists|i: int|
                0 <= i < path_infos@.len() && closure_of(#[trigger] path_infos@[i]@) is None,
        },
{
    let mut closures: Vec<(String, Vec<ObjectWithRefs>)> = Vec::new();
    let mut path_info_by_hash: StringMap<NixPathInfo> = StringMap::new();
    let mut i: usize = 0;
    assert(path_infos@.take(0) =~= Seq::<NixPathInfo>::empty());
    assert(table_view(path_info_by_hash@) =~= info_table(path_infos@.take(0)));
    assert(map_entries(path_info_by_hash.entries(), info_view()) =~= info_entries(
        path_infos@.take(0),
    ));
    while i < path_infos.len()
        invariant
            i <= path_infos.len(),
            closures@.len() == i,
            forall|k: int|
                0 <= k < i ==> closure_of(path_infos@[k]@) == Some(
                    closure_view(#[trigger] closures@[k]),
                ),
            path_info_by_hash.wf(),
            table_view(path_info_by_hash@) == info_table(path_infos@.take(i as int)),
            map_entries(path_info_by_hash.entries(), info_view()) == info_entries(
                path_infos@.take(i as int),
            ),
        decreases path_infos.len() - i,
    {
        let info = &path_infos[i];
        let hash = match get_store_path_hash(info.path.as_str()) {
            Ok(hash) => hash,
            Err(e) => {
                assert(closure_of(path_infos@[i as int]@) is None);
                return Err(e);
            },
        };
        let mut refs = match dependency_keys(&info.references) {
            Ok(keys) => keys,
            Err(e) => {
                assert(closure_of(path_infos@[i as int]@) is None);
                return Err(e);
            },
        };
        let ghost table = path_info_by_hash@;
        let copy = info.duplicate();
        proof {
            lemma_put_map_entries(path_info_by_hash.entries(), hash@, copy, info_view());
        }
        path_info_by_hash.insert(hash.clone(), copy);
        let nar_key = nar_key_of(hash.as_str());
        let narinfo_key = narinfo_key_of(hash.as_str());
        proof {
            lemma_views_push(refs@, nar_key);
        }
        refs.push(nar_key.clone());
        let mut objects: Vec<ObjectWithRefs> = Vec::new();
        objects.push(ObjectWithRefs { key: narinfo_key.clone(), refs });
        objects.push(ObjectWithRefs { key: nar_key, refs: Vec::new() });
        proof {
            assert(views(Seq::<String>::empty()) =~= Seq::<Seq<char>>::empty());
            assert(objects_view(objects@) =~= closure_of(info@)->0.objects);
            let done = path_infos@.take(i + 1);
            assert(done.drop_last() =~= path_infos@.take(i as int));
            assert(done.last() == path_infos@[i as int]);
            assert(table_view(table.insert(hash@, copy)) =~= table_view(table).insert(
                hash@,
                copy@,
            ));
        }
        closures.push((narinfo_key, objects));
        i = i + 1;
    }
    assert(path_infos@.take(path_infos.len() as int) =~= path_infos@);
    Ok(PreparedClosures { closures, path_info_by_hash })
}

/// The transaction of `response` is noted, and the objects that it reports
/// as missing join those of earlier answers. An object reported twice is
/// kept once, with the address that came last.
pub fn record_pending_closure(
    pending_objects: &mut StringMap<PendingObject>,
    pending_ids: &mut Vec<String>,
    response: CreatePendingClosureResponse,
)
    requires
        old(pending_objects).wf(),
    ensures
        final(pending_objects).wf(),
        final(pending_objects).entries() == put_all(
            old(pending_objects).entries(),
            response.pending_objects.entries(),
        ),
        final(pending_objects)@ == old(pending_objects)@.union_prefer_right(
            response.pending_objects@,
        ),
        final(pending_ids)@ == old(pending_ids)@.push(response.id),
{
    pending_ids.push(response.id);
    let ghost entries = response.pending_objects.entries();
    let pairs = response.pending_objects.into_pairs();
    assert(entries.take(0) =~= Seq::<(Seq<char>, PendingObject)>::empty());
    assert(pending_objects@ =~= old(pending_objects)@.union_prefer_right(
        map_of(entries.take(0)),
    ));
    for pair in it: pairs
        invariant
            pairs_view(pairs@) == entries,
            pending_objects.wf(),
            pending_objects.entries() == put_all(
                old(pending_objects).entries(),
                entries.take(it.index() as int),
            ),
            pending_objects@ == old(pending_objects)@.union_prefer_right(
                map_of(entries.take(it.index() as int)),
            ),
            pending_ids@ == old(pending_ids)@.push(response.id),
    {
        let ghost i = it.index() as int;
        proof {
            assert(entries.take(i + 1).drop_last() =~= entries.take(i));
            assert(entries.take(i + 1).last() == (pair.0@, pair.1));
        }
        pending_objects.insert(pair.0, pair.1);
        assert(pending_objects@ =~= old(pending_objects)@.union_prefer_right(
            map_of(entries.take(i + 1)),
        ));
    }
    assert(entries.take(entries.len() as int) =~= entries);
}

/// Whether `key` is the key of a record.
pub open spec fn is_narinfo_key(key: Seq<char>) -> bool {
    ".narinfo"@.is_suffix_of(key)
}

/// The hash part that the key of an archive names: what stands between
/// `nar/` and `.nar.zst`.
pub open spec fn hash_of_nar_key(key: Seq<char>) -> Option<Seq<char>> {
    let rest = key.skip("nar/"@.len() as int);
    if "nar/"@.is_prefix_of(key) && ".nar.zst"@.is_suffix_of(rest) {
        Some(rest.take(rest.len() - ".nar.zst"@.len()))
    } else {
        None
    }
}

/// The hash part that the key of a record names: what stands before
/// `.narinfo`.
pub open spec fn hash_of_narinfo_key(key: Seq<char>) -> Option<Seq<char>> {
    if is_narinfo_key(key) {
        Some(key.take(key.len() - ".narinfo"@.len()))
    } else {
        None
    }
}

/// The hash part that the key of an archive names.
pub fn nar_key_hash<'a>(key: &'a str) -> (hash: Option<&'a str>)
    ensures
        match hash {
            Some(hash) => hash_of_nar_key(key@) == Some(hash@),
            None => hash_of_nar_key(key@) is None,
        },
{
    match strip_prefix(key, "nar/") {
        Some(rest) => strip_suffix(rest, ".nar.zst"),
        None => None,
    }
}

/// The hash part that the key of a record names.
pub fn narinfo_key_hash<'a>(key: &'a str) -> (hash: Option<&'a str>)
    ensures
        match hash {
            Some(hash) => hash_of_narinfo_key(key@) == Some(hash@),
            None => hash_of_narinfo_key(key@) is None,
        },
{
    strip_suffix(key, ".narinfo")
}

/// Why a pending object cannot be served.
#[derive(Debug, Clone, Copy, PartialEq, Eq)]
pub enum Reason {
    /// Its key is neither that of a record nor that of an archive.
    UnknownKey,
    /// Its key names no store path of the closure.
    UnknownPath,
    /// It is a record, and the length and digest of its compressed archive
    /// are not known: the archive is not sent in this push, or no outcome
    /// of sending it was handed in.
    ArchiveUnknown,
}

/// A pending object that cannot be served. A push that meets one fails: no
/// transaction is closed while an object of it has not been sent.
#[derive(Debug)]
pub struct Unserved {
    pub key: String,
    pub reason: Reason,
}

/// An `Unserved` as plain values.
pub struct UnservedView {
    pub key: Seq<char>,
    pub reason: Reason,
}

impl View for Unserved {
    type V = UnservedView;

    open spec fn view(&self) -> UnservedView {
        UnservedView { key: self.key@, reason: self.reason }
    }
}

/// An archive to compress and send.
#[derive(Debug)]
pub struct NarUpload {
    pub object_key: String,
    pub pending_object: PendingObject,
    /// The store path to archive.
    pub store_path: String,
    /// Its hash part.
    pub hash: String,
}

/// A `NarUpload` as plain values.
pub struct NarUploadView {
    pub object_key: Seq<char>,
    pub presigned_url: Seq<char>,
    pub store_path: Seq<char>,
    pub hash: Seq<char>,
}

impl View for NarUpload {
    type V = NarUploadView;

    open spec fn view(&self) -> NarUploadView {
        NarUploadView {
            object_key: self.object_key@,
            presigned_url: self.pending_object.presigned_url@,
            store_path: self.store_path@,
            hash: self.hash@,
        }
    }
}

/// The uploads as plain values.
pub open spec fn nar_uploads_view(uploads: Seq<NarUpload>) -> Seq<NarUploadView> {
    uploads.map_values(|upload: NarUpload| upload@)
}

/// What is done with one pending object.
pub enum Served {
    /// It is an archive: the store path is archived, compressed and sent.
    Archive(NarUploadView),
    /// It is a record: it is written and sent once its archive has been.
    Record,
    /// It cannot be served.
    No(Reason),
}

/// What is done with the pending object `entry`, where `pending` are all the
/// pending objects and `table` the store paths of the closure by hash part.
/// A record is served only where its store path is known and its archive is
/// pending too; an archive only where its store path is known.
pub open spec fn served(
    entry: (Seq<char>, PendingObject),
    pending: Map<Seq<char>, PendingObject>,
    table: Map<Seq<char>, NixPathInfo>,
) -> Served {
    match hash_of_narinfo_key(entry.0) {
        Some(hash) => if !table.contains_key(hash) {
            Served::No(Reason::UnknownPath)
        } else if !pending.contains_key(nar_key(hash)) {
            Served::No(Reason::ArchiveUnknown)
        } else {
            Served::Record
        },
        None => match hash_of_nar_key(entry.0) {
            Some(hash) => if table.contains_key(hash) {
                Served::Archive(
                    NarUploadView {
                        object_key: entry.0,
                        presigned_url: entry.1.presigned_url@,
                        store_path: table[hash].path@,
                        hash,
                    },
                )
            } else {
                Served::No(Reason::UnknownPath)
            },
            None => Served::No(Reason::UnknownKey),
        },
    }
}

/// What a push sends: its archives, and then its records.
pub struct UploadPlan {
    pub archives: Seq<NarUploadView>,
    pub records: Seq<(Seq<char>, PendingObject)>,
}

/// What is sent for the pending objects `entries`, each part in their order;
/// or the first of them that cannot be served.
pub open spec fn plan_of(
    entries: Seq<(Seq<char>, PendingObject)>,
    pending: Map<Seq<char>, PendingObject>,
    table: Map<Seq<char>, NixPathInfo>,
) -> Result<UploadPlan, UnservedView>
    decreases entries.len(),
{
    if entries.len() == 0 {
        Ok(UploadPlan { archives: Seq::empty(), records: Seq::empty() })
    } else {
        match plan_of(entries.drop_last(), pending, table) {
            Ok(plan) => match served(entries.last(), pending, table) {
                Served::Archive(upload) => Ok(
                    UploadPlan { archives: plan.archives.push(upload), records: plan.records },
                ),
                Served::Record => Ok(
                    UploadPlan {
                        archives: plan.archives,
                        records: plan.records.push(entries.last()),
                    },
                ),
                Served::No(reason) => Err(UnservedView { key: entries.last().0, reason }),
            },
            Err(unserved) => Err(unserved),
        }
    }
}

/// What cannot be served among the first objects cannot be served among all.
pub proof fn lemma_plan_of_prefix(
    entries: Seq<(Seq<char>, PendingObject)>,
    pending: Map<Seq<char>, PendingObject>,
    table: Map<Seq<char>, NixPathInfo>,
    upto: int,
)
    requires
        0 <= upto <= entries.len(),
        plan_of(entries.take(upto), pending, table) is Err,
    ensures
        plan_of(entries, pending, table) == plan_of(entries.take(upto), pending, table),
    decreases entries.len() - upto,
{
    if upto < entries.len() {
        assert(entries.take(upto + 1).drop_last() =~= entries.take(upto));
        lemma_plan_of_prefix(entries, pending, table, upto + 1);
    } else {
        assert(entries.take(upto) =~= entries);
    }
}

/// A plan covers every pending object: it holds one item for each of them,
/// a record for each record and an upload under its key for each archive.
pub proof fn lemma_plan_covers(
    entries: Seq<(Seq<char>, PendingObject)>,
    pending: Map<Seq<char>, PendingObject>,
    table: Map<Seq<char>, NixPathInfo>,
)
    requires
        plan_of(entries, pending, table) is Ok,
    ensures
        ({
            let plan = plan_of(entries, pending, table)->Ok_0;
            &&& plan.archives.len() + plan.records.len() == entries.len()
            &&& forall|i: int|
                0 <= i < entries.len() ==> if is_narinfo_key((#[trigger] entries[i]).0) {
                    plan.records.contains(entries[i])
                } else {
                    exists|j: int|
                        0 <= j < plan.archives.len() && (#[trigger] plan.archives[j]).object_key
                            == entries[i].0 && plan.archives[j].presigned_url
                            == entries[i].1.presigned_url@
                }
        }),
    decreases entries.len(),
{
    if entries.len() > 0 {
        let front = entries.drop_last();
        let last = entries.last();
        lemma_plan_covers(front, pending, table);
        let before = plan_of(front, pending, table)->Ok_0;
        let plan = plan_of(entries, pending, table)->Ok_0;
        assert forall|i: int| 0 <= i < entries.len() implies if is_narinfo_key(
            (#[trigger] entries[i]).0,
        ) {
            plan.records.contains(entries[i])
        } else {
            exists|j: int|
                0 <= j < plan.archives.len() && (#[trigger] plan.archives[j]).object_key
                    == entries[i].0 && plan.archives[j].presigned_url
                    == entries[i].1.presigned_url@
        } by {
            if i < front.len() {
                assert(front[i] == entries[i]);
                if is_narinfo_key(entries[i].0) {
                    let at = choose|at: int|
                        0 <= at < before.records.len() && before.records[at] == entries[i];
                    assert(plan.records[at] == entries[i]);
                } else {
                    let j = choose|j: int|
                        0 <= j < before.archives.len() && (#[trigger] before.archives[j]).object_key
                            == entries[i].0 && before.archives[j].presigned_url
                            == entries[i].1.presigned_url@;
                    assert(plan.archives[j] == before.archives[j]);
                }
            } else {
                if is_narinfo_key(last.0) {
                    assert(plan.records[plan.records.len() - 1] == last);
                } else {
                    assert(plan.archives[plan.archives.len() - 1].object_key == last.0);
                }
            }
        }
    }
}

/// What is sent for the pending objects: the archives to compress and send,
/// and the records that wait for them, each part in the order in which the
/// objects were first reported. A pending object that cannot be served
/// fails the whole, and the first such is named.
pub fn plan_uploads(
    pending_objects: &StringMap<PendingObject>,
    path_info_by_hash: &StringMap<NixPathInfo>,
) -> (plan: Result<(Vec<NarUpload>, Vec<(String, PendingObject)>), Unserved>)
    requires
        pending_objects.wf(),
        path_info_by_hash.wf(),
    ensures
        match plan {
            Ok(parts) => plan_of(
                pending_objects.entries(),
                pending_objects@,
                path_info_by_hash@,
            ) == Ok::<UploadPlan, UnservedView>(
                UploadPlan { archives: nar_uploads_view(parts.0@), records: pairs_view(parts.1@) },
            ),
            Err(unserved) => plan_of(
                pending_objects.entries(),
                pending_objects@,
                path_info_by_hash@,
            ) == Err::<UploadPlan, UnservedView>(unserved@),
        },
{
    let ghost entries = pending_objects.entries();
    let mut uploads: Vec<NarUpload> = Vec::new();
    let mut records: Vec<(String, PendingObject)> = Vec::new();
    let mut i: usize = 0;
    assert(entries.take(0) =~= Seq::<(Seq<char>, PendingObject)>::empty());
    assert(nar_uploads_view(uploads@) =~= Seq::<NarUploadView>::empty());
    assert(pairs_view(records@) =~= Seq::<(Seq<char>, PendingObject)>::empty());
    while i < pending_objects.len()
        invariant
            i <= entries.len(),
            entries == pending_objects.entries(),
            pending_objects.wf(),
            path_info_by_hash.wf(),
            plan_of(entries.take(i as int), pending_objects@, path_info_by_hash@) == Ok::<
                UploadPlan,
                UnservedView,
            >(UploadPlan { archives: nar_uploads_view(uploads@), records: pairs_view(records@) }),
        decreases entries.len() - i,
    {
        let key = pending_objects.key(i);
        let object = pending_objects.value(i);
        let ghost before_uploads = uploads@;
        let ghost before_records = records@;
        proof {
            assert(entries.take(i + 1).drop_last() =~= entries.take(i as int));
            assert(entries.take(i + 1).last() == (key@, *object));
        }
        let refused: Option<Reason> = match narinfo_key_hash(key.as_str()) {
            Some(hash) => {
                let hash = String::from_str(hash);
                if !path_info_by_hash.contains_key(&hash) {
                    Some(Reason::UnknownPath)
                } else if !pending_objects.contains_key(&nar_key_of(hash.as_str())) {
                    Some(Reason::ArchiveUnknown)
                } else {
                    let copy = PendingObject { presigned_url: object.presigned_url.clone() };
                    let pair = (key.clone(), copy);
                    records.push(pair);
                    assert(pairs_view(records@) =~= pairs_view(before_records).push(
                        (key@, *object),
                    ));
                    None
                }
            },
            None => match nar_key_hash(key.as_str()) {
                Some(hash) => {
                    let hash = String::from_str(hash);
                    match path_info_by_hash.get(&hash) {
                        Some(info) => {
                            let upload = NarUpload {
                                object_key: key.clone(),
                                pending_object: PendingObject {
                                    presigned_url: object.presigned_url.clone(),
                                },
                                store_path: info.path.clone(),
                                hash,
                            };
                            uploads.push(upload);
                            assert(nar_uploads_view(uploads@) =~= nar_uploads_view(
                                before_uploads,
                            ).push(upload@));
                            None
                        },
                        None => Some(Reason::UnknownPath),
                    }
                },
                None => Some(Reason::UnknownKey),
            },
        };
        match refused {
            Some(reason) => {
                proof {
                    lemma_plan_of_prefix(entries, pending_objects@, path_info_by_hash@, i + 1);
                }
                return Err(Unserved { key: key.clone(), reason });
            },
            None => {},
        }
        i = i + 1;
    }
    assert(entries.take(entries.len() as int) =~= entries);
    Ok((uploads, records))
}

/// Why a batch of transfers failed: how many of them did, and the failure
/// that stands first among the outcomes.
#[derive(Debug)]
pub struct BatchFailure<E> {
    pub failed: usize,
    pub total: usize,
    pub first: E,
}

/// The number of failures among `outcomes`.
pub open spec fn failures<T, E>(outcomes: Seq<Result<T, E>>) -> nat
    decreases outcomes.len(),
{
    if outcomes.len() == 0 {
        0
    } else {
        failures(outcomes.drop_last()) + (if outcomes.last() is Err {
            1nat
        } else {
            0nat
        })
    }
}

/// Whether `i` is where the first failure stands among `outcomes`.
pub open spec fn first_failure_at<T, E>(outcomes: Seq<Result<T, E>>, i: int) -> bool {
    &&& 0 <= i < outcomes.len()
    &&& outcomes[i] is Err
    &&& forall|j: int| 0 <= j < i ==> (#[trigger] outcomes[j]) is Ok
}

/// Where nothing failed, nothing is counted.
pub proof fn lemma_failures_none<T, E>(outcomes: Seq<Result<T, E>>)
    ensures
        failures(outcomes) == 0 <==> forall|i: int|
            0 <= i < outcomes.len() ==> (#[trigger] outcomes[i]) is Ok,
        failures(outcomes) <= outcomes.len(),
    decreases outcomes.len(),
{
    if outcomes.len() > 0 {
        let front = outcomes.drop_last();
        lemma_failures_none(front);
        if failures(outcomes) == 0 {
            assert forall|i: int| 0 <= i < outcomes.len() implies (#[trigger] outcomes[i]) is Ok by {
                if i < front.len() {
                    assert(front[i] is Ok);
                }
            }
        } else if failures(front) == 0 {
            assert(outcomes[outcomes.len() - 1] is Err);
        } else {
            let i = choose|i: int| 0 <= i < front.len() && !((#[trigger] front[i]) is Ok);
            assert(outcomes[i] == front[i]);
        }
    }
}

/// The outcomes of a batch taken together. The batch has succeeded only
/// where every transfer has: one failure fails the whole, however many
/// transfers succeeded beside it.
pub fn collect_results<T, E>(results: Vec<Result<T, E>>) -> (collected: Result<
    Vec<T>,
    BatchFailure<E>,
>)
    ensures
        match collected {
            Ok(values) => {
                &&& values@.len() == results@.len()
                &&& forall|i: int|
                    0 <= i < results@.len() ==> (#[trigger] results@[i]) == Ok::<T, E>(values@[i])
            },
            Err(failure) => {
                &&& failure.total == results@.len()
                &&& failure.failed == failures(results@)
                &&& failure.failed > 0
                &&& exists|i: int|
                    first_failure_at(results@, i) && results@[i] == Err::<T, E>(failure.first)
            },
        },
        collected is Ok <==> forall|i: int|
            0 <= i < results@.len() ==> (#[trigger] results@[i]) is Ok,
{
    let total: usize = results.len();
    let mut values: Vec<T> = Vec::new();
    let mut first: Option<E> = None;
    let mut failed: usize = 0;
    let ghost mut first_at: int = 0;
    assert(results@.take(0) =~= Seq::<Result<T, E>>::empty());
    for result in it: results
        invariant
            total == results@.len(),
            failed == failures(results@.take(it.index() as int)),
            failed <= it.index(),
            first is None <==> failed == 0,
            first is None ==> values@.len() == it.index() && forall|k: int|
                0 <= k < it.index() ==> (#[trigger] results@[k]) == Ok::<T, E>(values@[k]),
            first matches Some(e) ==> first_failure_at(results@, first_at) && first_at
                < it.index() && results@[first_at] == Err::<T, E>(e),
    {
        let ghost i = it.index() as int;
        proof {
            assert(results@.take(i + 1).drop_last() =~= results@.take(i));
            assert(results@.take(i + 1).last() == result);
        }
        match result {
            Ok(value) => {
                if first.is_none() {
                    values.push(value);
                }
            },
            Err(e) => {
                failed = failed + 1;
                if first.is_none() {
                    first = Some(e);
                    proof {
                        first_at = i;
                    }
                }
            },
        }
    }
    proof {
        assert(results@.take(results@.len() as int) =~= results@);
        lemma_failures_none(results@);
    }
    match first {
        Some(first) => Err(BatchFailure { failed, total, first }),
        None => Ok(values),
    }
}

/// What came of compressing and sending one archive.
#[derive(Debug)]
pub struct NarUploaded {
    /// Hash part of the store path.
    pub hash: String,
    /// Length of the compressed archive.
    pub size: u64,
    /// Digest of the compressed archive.
    pub file_hash: String,
}

/// Length and digest of the compressed archives, by hash part of their
/// store paths; of two for one hash part, the later counts, and one
/// without a hash part is left out.
pub open spec fn compressed_table(uploaded: Seq<NarUploaded>) -> Map<Seq<char>, (u64, Seq<char>)>
    decreases uploaded.len(),
{
    if uploaded.len() == 0 {
        Map::empty()
    } else {
        let before = compressed_table(uploaded.drop_last());
        let last = uploaded.last();
        if last.hash@.len() == 0 {
            before
        } else {
            before.insert(last.hash@, (last.size, last.file_hash@))
        }
    }
}

/// Length and digest of the compressed archives under the hash parts of
/// their store paths, in the order in which the hash parts first come.
pub open spec fn compressed_entries(uploaded: Seq<NarUploaded>) -> Seq<
    (Seq<char>, (u64, Seq<char>)),
>
    decreases uploaded.len(),
{
    if uploaded.len() == 0 {
        Seq::empty()
    } else {
        let before = compressed_entries(uploaded.drop_last());
        let last = uploaded.last();
        if last.hash@.len() == 0 {
            before
        } else {
            put(before, last.hash@, (last.size, last.file_hash@))
        }
    }
}

/// Length and digest of a compressed archive as plain values.
pub open spec fn known_view() -> spec_fn((u64, String)) -> (u64, Seq<char>) {
    |value: (u64, String)| (value.0, value.1@)
}

/// The values of a table of compressed archives as plain values.
pub open spec fn compressed_view(table: Map<Seq<char>, (u64, String)>) -> Map<
    Seq<char>,
    (u64, Seq<char>),
> {
    table.map_values(|value: (u64, String)| (value.0, value.1@))
}

/// What the batch of archives came to: length and digest of each compressed
/// archive by hash part, or the failure of the batch.
pub fn collect_nar_results<E>(results: Vec<Result<NarUploaded, E>>) -> (collected: Result<
    StringMap<(u64, String)>,
    BatchFailure<E>,
>)
    ensures
        collected is Ok <==> forall|i: int|
            0 <= i < results@.len() ==> (#[trigger] results@[i]) is Ok,
        match collected {
            Ok(table) => {
                &&& table.wf()
                &&& exists|uploaded: Seq<NarUploaded>|
                    {
                        &&& uploaded.len() == results@.len()
                        &&& forall|i: int|
                            0 <= i < results@.len() ==> (#[trigger] results@[i]) == Ok::<
                                NarUploaded,
                                E,
                            >(uploaded[i])
                        &&& compressed_view(table@) == compressed_table(uploaded)
                        &&& map_entries(table.entries(), known_view()) == compressed_entries(
                            uploaded,
                        )
                    }
            },
            Err(failure) => {
                &&& failure.total == results@.len()
                &&& failure.failed == failures(results@)
                &&& failure.failed > 0
                &&& exists|i: int|
                    first_failure_at(results@, i) && results@[i] == Err::<NarUploaded, E>(
                        failure.first,
                    )
            },
        },
{
    match collect_results(results) {
        Ok(uploaded) => {
            let table = compressed_info(uploaded);
            Ok(table)
        },
        Err(failure) => Err(failure),
    }
}

/// Length and digest of the compressed archives by hash part.
pub fn compressed_info(uploaded: Vec<NarUploaded>) -> (table: StringMap<(u64, String)>)
    ensures
        table.wf(),
        compressed_view(table@) == compressed_table(uploaded@),
        map_entries(table.entries(), known_view()) == compressed_entries(uploaded@),
{
    let mut table: StringMap<(u64, String)> = StringMap::new();
    assert(uploaded@.take(0) =~= Seq::<NarUploaded>::empty());
    assert(compressed_view(table@) =~= compressed_table(uploaded@.take(0)));
    assert(map_entries(table.entries(), known_view()) =~= compressed_entries(uploaded@.take(0)));
    for done in it: uploaded
        invariant
            table.wf(),
            compressed_view(table@) == compressed_table(uploaded@.take(it.index() as int)),
            map_entries(table.entries(), known_view()) == compressed_entries(
                uploaded@.take(it.index() as int),
            ),
    {
        let ghost i = it.index() as int;
        let ghost before = table@;
        proof {
            assert(uploaded@.take(i + 1).drop_last() =~= uploaded@.take(i));
            assert(uploaded@.take(i + 1).last() == done);
        }
        if done.hash.as_str().unicode_len() != 0 {
            let value = (done.size, done.file_hash);
            proof {
                lemma_put_map_entries(table.entries(), done.hash@, value, known_view());
            }
            table.insert(done.hash, value);
            assert(compressed_view(before.insert(done.hash@, value)) =~= compressed_view(
                before,
            ).insert(done.hash@, (value.0, value.1@)));
        }
    }
    assert(uploaded@.take(uploaded@.len() as int) =~= uploaded@);
    table
}

/// A record to send.
#[derive(Debug)]
pub struct NarinfoUpload {
    pub object_key: String,
    pub pending_object: PendingObject,
    /// The text of the record.
    pub content: String,
}

/// A `NarinfoUpload` as plain values.
pub struct NarinfoUploadView {
    pub object_key: Seq<char>,
    pub presigned_url: Seq<char>,
    pub content: Seq<char>,
}

impl View for NarinfoUpload {
    type V = NarinfoUploadView;

    open spec fn view(&self) -> NarinfoUploadView {
        NarinfoUploadView {
            object_key: self.object_key@,
            presigned_url: self.pending_object.presigned_url@,
            content: self.content@,
        }
    }
}

/// The uploads as plain values.
pub open spec fn narinfo_uploads_view(uploads: Seq<NarinfoUpload>) -> Seq<NarinfoUploadView> {
    uploads.map_values(|upload: NarinfoUpload| upload@)
}

/// What is sent for one pending record: its text, which tells length and
/// digest of the compressed archive as the batch of archives gave them. A
/// record whose archive was not in that batch is not written: what it would
/// tell is not known.
pub open spec fn narinfo_upload_of(
    entry: (Seq<char>, PendingObject),
    table: Map<Seq<char>, NixPathInfo>,
    compressed: Map<Seq<char>, (u64, Seq<char>)>,
) -> Result<NarinfoUploadView, Reason> {
    match hash_of_narinfo_key(entry.0) {
        Some(hash) => if !table.contains_key(hash) {
            Err(Reason::UnknownPath)
        } else if !compressed.contains_key(hash) {
            Err(Reason::ArchiveUnknown)
        } else {
            Ok(
                NarinfoUploadView {
                    object_key: entry.0,
                    presigned_url: entry.1.presigned_url@,
                    content: narinfo_text(
                        table[hash]@,
                        nar_filename(hash),
                        compressed[hash].0,
                        compressed[hash].1,
                    ),
                },
            )
        },
        None => Err(Reason::UnknownKey),
    }
}

/// What is sent for the pending records, in their order; or the first of
/// them that cannot be served.
pub open spec fn narinfo_uploads_of(
    entries: Seq<(Seq<char>, PendingObject)>,
    table: Map<Seq<char>, NixPathInfo>,
    compressed: Map<Seq<char>, (u64, Seq<char>)>,
) -> Result<Seq<NarinfoUploadView>, UnservedView>
    decreases entries.len(),
{
    if entries.len() == 0 {
        Ok(Seq::empty())
    } else {
        match narinfo_uploads_of(entries.drop_last(), table, compressed) {
            Ok(before) => match narinfo_upload_of(entries.last(), table, compressed) {
                Ok(upload) => Ok(before.push(upload)),
                Err(reason) => Err(UnservedView { key: entries.last().0, reason }),
            },
            Err(unserved) => Err(unserved),
        }
    }
}

/// What cannot be served among the first records cannot be served among all.
pub proof fn lemma_narinfo_uploads_of_prefix(
    entries: Seq<(Seq<char>, PendingObject)>,
    table: Map<Seq<char>, NixPathInfo>,
    compressed: Map<Seq<char>, (u64, Seq<char>)>,
    upto: int,
)
    requires
        0 <= upto <= entries.len(),
        narinfo_uploads_of(entries.take(upto), table, compressed) is Err,
    ensures
        narinfo_uploads_of(entries, table, compressed) == narinfo_uploads_of(
            entries.take(upto),
            table,
            compressed,
        ),
    decreases entries.len() - upto,
{
    if upto < entries.len() {
        assert(entries.take(upto + 1).drop_last() =~= entries.take(upto));
        lemma_narinfo_uploads_of_prefix(entries, table, compressed, upto + 1);
    } else {
        assert(entries.take(upto) =~= entries);
    }
}

/// The records sent are the pending records, one for one.
pub proof fn lemma_narinfo_uploads_cover(
    entries: Seq<(Seq<char>, PendingObject)>,
    table: Map<Seq<char>, NixPathInfo>,
    compressed: Map<Seq<char>, (u64, Seq<char>)>,
)
    requires
        narinfo_uploads_of(entries, table, compressed) is Ok,
    ensures
        ({
            let uploads = narinfo_uploads_of(entries, table, compressed)->Ok_0;
            &&& uploads.len() == entries.len()
            &&& forall|i: int|
                0 <= i < entries.len() ==> (#[trigger] uploads[i]).object_key == entries[i].0
                    && uploads[i].presigned_url == entries[i].1.presigned_url@
        }),
    decreases entries.len(),
{
    if entries.len() > 0 {
        let front = entries.drop_last();
        lemma_narinfo_uploads_cover(front, table, compressed);
        let before = narinfo_uploads_of(front, table, compressed)->Ok_0;
        let uploads = narinfo_uploads_of(entries, table, compressed)->Ok_0;
        assert forall|i: int| 0 <= i < entries.len() implies (#[trigger] uploads[i]).object_key
            == entries[i].0 && uploads[i].presigned_url == entries[i].1.presigned_url@ by {
            if i < front.len() {
                assert(uploads[i] == before[i]);
                assert(front[i] == entries[i]);
            }
        }
    }
}

/// Whether the outcome of the archive that the record under `key` tells of is
/// among `uploaded`.
pub open spec fn archive_done(key: Seq<char>, uploaded: Seq<NarUploaded>) -> bool {
    exists|j: int|
        0 <= j < uploaded.len() && hash_of_narinfo_key(key) == Some((#[trigger] uploaded[j]).hash@)
}

/// Length and digest are known only of an archive whose outcome was handed
/// in.
pub proof fn lemma_compressed_table_known(uploaded: Seq<NarUploaded>, hash: Seq<char>)
    requires
        compressed_table(uploaded).contains_key(hash),
    ensures
        exists|j: int| 0 <= j < uploaded.len() && (#[trigger] uploaded[j]).hash@ == hash,
    decreases uploaded.len(),
{
    if uploaded.len() > 0 {
        let front = uploaded.drop_last();
        if uploaded.last().hash@ == hash {
            assert(uploaded[uploaded.len() - 1].hash@ == hash);
        } else {
            lemma_compressed_table_known(front, hash);
            let j = choose|j: int| 0 <= j < front.len() && (#[trigger] front[j]).hash@ == hash;
            assert(uploaded[j] == front[j]);
        }
    }
}

/// No record before its archive: where records are written from the
/// outcomes `uploaded`, the outcome of the archive of each of them is among
/// these.
pub proof fn lemma_records_follow_archives(
    entries: Seq<(Seq<char>, PendingObject)>,
    table: Map<Seq<char>, NixPathInfo>,
    uploaded: Seq<NarUploaded>,
)
    requires
        narinfo_uploads_of(entries, table, compressed_table(uploaded)) is Ok,
    ensures
        forall|i: int| 0 <= i < entries.len() ==> archive_done((#[trigger] entries[i]).0, uploaded),
    decreases entries.len(),
{
    if entries.len() > 0 {
        let front = entries.drop_last();
        let last = entries.last();
        lemma_records_follow_archives(front, table, uploaded);
        let hash = hash_of_narinfo_key(last.0)->Some_0;
        lemma_compressed_table_known(uploaded, hash);
        assert forall|i: int| 0 <= i < entries.len() implies archive_done(
            (#[trigger] entries[i]).0,
            uploaded,
        ) by {
            if i < front.len() {
                assert(front[i] == entries[i]);
            }
        }
    }
}

/// The records to send, in the order of `narinfo_uploads`, each written with
/// what `compressed_info` tells of its archive. A record that names no store
/// path of the closure, or of whose archive `compressed_info` tells nothing,
/// fails the whole, and the first such is named.
pub fn plan_narinfo_uploads(
    narinfo_uploads: Vec<(String, PendingObject)>,
    path_info_by_hash: &StringMap<NixPathInfo>,
    compressed_info: &StringMap<(u64, String)>,
) -> (plan: Result<Vec<NarinfoUpload>, Unserved>)
    requires
        path_info_by_hash.wf(),
        compressed_info.wf(),
    ensures
        match plan {
            Ok(uploads) => narinfo_uploads_of(
                pairs_view(narinfo_uploads@),
                path_info_by_hash@,
                compressed_view(compressed_info@),
            ) == Ok::<Seq<NarinfoUploadView>, UnservedView>(narinfo_uploads_view(uploads@)),
            Err(unserved) => narinfo_uploads_of(
                pairs_view(narinfo_uploads@),
                path_info_by_hash@,
                compressed_view(compressed_info@),
            ) == Err::<Seq<NarinfoUploadView>, UnservedView>(unserved@),
        },
{
    let ghost entries = pairs_view(narinfo_uploads@);
    let mut uploads: Vec<NarinfoUpload> = Vec::new();
    assert(entries.take(0) =~= Seq::<(Seq<char>, PendingObject)>::empty());
    assert(narinfo_uploads_view(uploads@) =~= Seq::<NarinfoUploadView>::empty());
    for pair in it: narinfo_uploads
        invariant
            path_info_by_hash.wf(),
            compressed_info.wf(),
            entries == pairs_view(narinfo_uploads@),
            narinfo_uploads_of(
                entries.take(it.index() as int),
                path_info_by_hash@,
                compressed_view(compressed_info@),
            ) == Ok::<Seq<NarinfoUploadView>, UnservedView>(narinfo_uploads_view(uploads@)),
    {
        let ghost i = it.index() as int;
        let ghost before = uploads@;
        proof {
            assert(entries.take(i + 1).drop_last() =~= entries.take(i));
            assert(entries.take(i + 1).last() == (pair.0@, pair.1));
        }
        let written: Result<String, Reason> = match narinfo_key_hash(pair.0.as_str()) {
            Some(hash) => {
                let hash = String::from_str(hash);
                match path_info_by_hash.get(&hash) {
                    Some(info) => match compressed_info.get(&hash) {
                        Some(known) => {
                            let name = nar_filename_of(hash.as_str());
                            Ok(create_narinfo(info, name.as_str(), known.0, known.1.as_str()))
                        },
                        None => Err(Reason::ArchiveUnknown),
                    },
                    None => Err(Reason::UnknownPath),
                }
            },
            None => Err(Reason::UnknownKey),
        };
        match written {
            Ok(content) => {
                let upload = NarinfoUpload { object_key: pair.0, pending_object: pair.1, content };
                uploads.push(upload);
                assert(narinfo_uploads_view(uploads@) =~= narinfo_uploads_view(before).push(
                    upload@,
                ));
            },
            Err(reason) => {
                proof {
                    lemma_narinfo_uploads_of_prefix(
                        entries,
                        path_info_by_hash@,
                        compressed_view(compressed_info@),
                        i + 1,
                    );
                }
                return Err(Unserved { key: pair.0, reason });
            },
        }
    }
    assert(entries.take(entries.len() as int) =~= entries);
    Ok(uploads)
}

/// Why a stage of a push failed.
#[derive(Debug)]
pub enum StageFailure<E> {
    /// Not every outcome was handed in, or more than were owed.
    Incomplete { expected: usize, handed: usize },
    /// A transfer failed.
    Batch(BatchFailure<E>),
    /// A pending object cannot be served.
    Unserved(Unserved),
}

/// A push that is finding out what the service lacks. It can only go on to
/// its archives, these only to its records, and these only to the closing
/// of its transactions: no record is handed out before the outcome of every
/// archive has been handed in, and no transaction before that of every
/// record.
pub struct Negotiation {
    path_info_by_hash: StringMap<NixPathInfo>,
    pending_objects: StringMap<PendingObject>,
    pending_ids: Vec<String>,
}

/// A push whose archives are being sent.
pub struct ArchiveStage {
    path_info_by_hash: StringMap<NixPathInfo>,
    narinfo_uploads: Vec<(String, PendingObject)>,
    pending_ids: Vec<String>,
    expected: usize,
}

/// A push whose records are being sent.
pub struct RecordStage {
    pending_ids: Vec<String>,
    expected: usize,
}

impl Negotiation {
    /// Whether the push is in order.
    pub closed spec fn wf(&self) -> bool {
        self.path_info_by_hash.wf() && self.pending_objects.wf()
    }

    /// The store paths of the push by hash part.
    pub closed spec fn table(&self) -> Map<Seq<char>, NixPathInfo> {
        self.path_info_by_hash@
    }

    /// The objects that the service lacks, in the order in which it first
    /// reported them.
    pub closed spec fn pending(&self) -> Seq<(Seq<char>, PendingObject)> {
        self.pending_objects.entries()
    }

    /// The transactions that were opened, in order.
    pub closed spec fn ids(&self) -> Seq<String> {
        self.pending_ids@
    }

    /// A push of the given store paths, and the closures to negotiate for
    /// it: one for each path, in order. A path or a reference that is no
    /// store path fails the whole.
    pub fn begin(path_infos: &Vec<NixPathInfo>) -> (begun: Result<
        (Negotiation, Vec<(String, Vec<ObjectWithRefs>)>),
        StorePathError,
    >)
        ensures
            match begun {
                Ok((negotiation, closures)) => {
                    &&& negotiation.wf()
                    &&& table_view(negotiation.table()) == info_table(path_infos@)
                    &&& negotiation.pending().len() == 0
                    &&& negotiation.ids().len() == 0
                    &&& closures@.len() == path_infos@.len()
                    &&& forall|i: int|
                        0 <= i < path_infos@.len() ==> closure_of(path_infos@[i]@) == Some(
                            closure_view(#[trigger] closures@[i]),
                        )
                },
                Err(_) => exists|i: int|
                    0 <= i < path_infos@.len() && closure_of(#[trigger] path_infos@[i]@) is None,
            },
    {
        match prepare_closures(path_infos) {
            Ok(prepared) => Ok(
                (
                    Negotiation {
                        path_info_by_hash: prepared.path_info_by_hash,
                        pending_objects: StringMap::new(),
                        pending_ids: Vec::new(),
                    },
                    prepared.closures,
                ),
            ),
            Err(e) => Err(e),
        }
    }

    /// Notes the service's answer for one closure.
    pub fn record(&mut self, response: CreatePendingClosureResponse)
        requires
            old(self).wf(),
        ensures
            final(self).wf(),
            final(self).table() == old(self).table(),
            final(self).pending() == put_all(
                old(self).pending(),
                response.pending_objects.entries(),
            ),
            final(self).ids() == old(self).ids().push(response.id),
    {
        record_pending_closure(&mut self.pending_objects, &mut self.pending_ids, response);
    }

    /// Ends the negotiation: the archives to compress and send, of which
    /// every one's outcome is owed to the stage that is returned. Every
    /// pending object is either among them or a record kept for the next
    /// stage; a pending object that cannot be served fails the push before
    /// anything is sent.
    pub fn archives(self) -> (next: Result<(ArchiveStage, Vec<NarUpload>), Unserved>)
        requires
            self.wf(),
        ensures
            match next {
                Ok((stage, uploads)) => {
                    &&& stage.wf()
                    &&& stage.table() == self.table()
                    &&& stage.ids() == self.ids()
                    &&& stage.expected() == uploads@.len()
                    &&& uploads@.len() + stage.records().len() == self.pending().len()
                    &&& plan_of(self.pending(), map_of(self.pending()), self.table()) == Ok::<
                        UploadPlan,
                        UnservedView,
                    >(
                        UploadPlan {
                            archives: nar_uploads_view(uploads@),
                            records: stage.records(),
                        },
                    )
                },
                Err(unserved) => plan_of(self.pending(), map_of(self.pending()), self.table())
                    == Err::<UploadPlan, UnservedView>(unserved@),
            },
    {
        proof {
            if plan_of(self.pending(), map_of(self.pending()), self.table()) is Ok {
                lemma_plan_covers(self.pending(), map_of(self.pending()), self.table());
            }
        }
        match plan_uploads(&self.pending_objects, &self.path_info_by_hash) {
            Ok((uploads, narinfo_uploads)) => {
                let expected: usize = uploads.len();
                Ok(
                    (
                        ArchiveStage {
                            path_info_by_hash: self.path_info_by_hash,
                            narinfo_uploads,
                            pending_ids: self.pending_ids,
                            expected,
                        },
                        uploads,
                    ),
                )
            },
            Err(unserved) => Err(unserved),
        }
    }
}

impl ArchiveStage {
    /// Whether the push is in order.
    pub closed spec fn wf(&self) -> bool {
        self.path_info_by_hash.wf()
    }

    /// The store paths of the push by hash part.
    pub closed spec fn table(&self) -> Map<Seq<char>, NixPathInfo> {
        self.path_info_by_hash@
    }

    /// The records that the service lacks.
    pub closed spec fn records(&self) -> Seq<(Seq<char>, PendingObject)> {
        pairs_view(self.narinfo_uploads@)
    }

    /// The transactions that were opened, in order.
    pub closed spec fn ids(&self) -> Seq<String> {
        self.pending_ids@
    }

    /// The number of archives whose outcome is owed.
    pub closed spec fn expected(&self) -> nat {
        self.expected as nat
    }

    /// The number of archives whose outcome is owed.
    pub fn outcomes_owed(&self) -> (n: usize)
        ensures
            n == self.expected(),
    {
        self.expected
    }

    /// Takes the outcomes of the archives. The records are handed out only
    /// where an outcome was handed in for every archive, every archive was
    /// sent, and the outcomes tell length and digest of the archive of every
    /// pending record. Otherwise the push has failed, and no record is
    /// handed out: one archive that failed fails the push, however many were
    /// sent beside it, and no record is sent before its archive.
    pub fn finish<E>(self, results: Vec<Result<NarUploaded, E>>) -> (next: Result<
        (RecordStage, Vec<NarinfoUpload>),
        StageFailure<E>,
    >)
        requires
            self.wf(),
        ensures
            next is Ok ==> results@.len() == self.expected() && forall|i: int|
                0 <= i < results@.len() ==> (#[trigger] results@[i]) is Ok,
            match next {
                Ok((stage, uploads)) => {
                    &&& results@.len() == self.expected()
                    &&& stage.ids() == self.ids()
                    &&& stage.expected() == uploads@.len()
                    &&& exists|uploaded: Seq<NarUploaded>|
                        {
                            &&& uploaded.len() == results@.len()
                            &&& forall|i: int|
                                0 <= i < results@.len() ==> (#[trigger] results@[i]) == Ok::<
                                    NarUploaded,
                                    E,
                                >(uploaded[i])
                            &&& narinfo_uploads_of(
                                self.records(),
                                self.table(),
                                compressed_table(uploaded),
                            ) == Ok::<Seq<NarinfoUploadView>, UnservedView>(
                                narinfo_uploads_view(uploads@),
                            )
                            &&& forall|i: int|
                                0 <= i < uploads@.len() ==> archive_done(
                                    (#[trigger] uploads@[i]).object_key@,
                                    uploaded,
                                )
                        }
                },
                Err(StageFailure::Incomplete { expected, handed }) => {
                    &&& expected == self.expected()
                    &&& handed == results@.len()
                    &&& handed != expected
                },
                Err(StageFailure::Batch(failure)) => {
                    &&& results@.len() == self.expected()
                    &&& failure.total == results@.len()
                    &&& failure.failed == failures(results@)
                    &&& failure.failed > 0
                    &&& exists|i: int|
                        first_failure_at(results@, i) && results@[i] == Err::<NarUploaded, E>(
                            failure.first,
                        )
                },
                Err(StageFailure::Unserved(unserved)) => {
                    &&& results@.len() == self.expected()
                    &&& exists|uploaded: Seq<NarUploaded>|
                        {
                            &&& uploaded.len() == results@.len()
                            &&& forall|i: int|
                                0 <= i < results@.len() ==> (#[trigger] results@[i]) == Ok::<
                                    NarUploaded,
                                    E,
                                >(uploaded[i])
                            &&& narinfo_uploads_of(
                                self.records(),
                                self.table(),
                                compressed_table(uploaded),
                            ) == Err::<Seq<NarinfoUploadView>, UnservedView>(unserved@)
                        }
                },
            },
    {
        if results.len() != self.expected {
            return Err(StageFailure::Incomplete { expected: self.expected, handed: results.len() });
        }
        let ghost records = self.records();
        let ghost table = self.table();
        match collect_nar_results(results) {
            Ok(compressed_info) => {
                match plan_narinfo_uploads(
                    self.narinfo_uploads,
                    &self.path_info_by_hash,
                    &compressed_info,
                ) {
                    Ok(uploads) => {
                        let expected: usize = uploads.len();
                        proof {
                            let uploaded = choose|uploaded: Seq<NarUploaded>|
                                {
                                    &&& uploaded.len() == results@.len()
                                    &&& forall|i: int|
                                        0 <= i < results@.len() ==> (#[trigger] results@[i])
                                            == Ok::<NarUploaded, E>(uploaded[i])
                                    &&& compressed_view(compressed_info@) == compressed_table(
                                        uploaded,
                                    )
                                    &&& map_entries(compressed_info.entries(), known_view())
                                        == compressed_entries(uploaded)
                                };
                            lemma_records_follow_archives(records, table, uploaded);
                            lemma_narinfo_uploads_cover(records, table, compressed_table(uploaded));
                            assert forall|i: int| 0 <= i < uploads@.len() implies archive_done(
                                (#[trigger] uploads@[i]).object_key@,
                                uploaded,
                            ) by {
                                assert(narinfo_uploads_view(uploads@)[i] == uploads@[i]@);
                                assert(uploads@[i].object_key@ == records[i].0);
                            }
                        }
                        Ok((RecordStage { pending_ids: self.pending_ids, expected }, uploads))
                    },
                    Err(unserved) => Err(StageFailure::Unserved(unserved)),
                }
            },
            Err(failure) => Err(StageFailure::Batch(failure)),
        }
    }
}

impl RecordStage {
    /// The transactions that were opened, in order.
    pub closed spec fn ids(&self) -> Seq<String> {
        self.pending_ids@
    }

    /// The number of records whose outcome is owed.
    pub closed spec fn expected(&self) -> nat {
        self.expected as nat
    }

    /// The number of records whose outcome is owed.
    pub fn outcomes_owed(&self) -> (n: usize)
        ensures
            n == self.expected(),
    {
        self.expected
    }

    /// Takes the outcomes of the records. The transactions to close are
    /// handed out, in the order in which they were opened, only where an
    /// outcome was handed in for every record and every record was sent.
    /// Otherwise the push has failed, and no transaction is closed.
    pub fn finish<E>(self, results: Vec<Result<(), E>>) -> (next: Result<
        Vec<String>,
        StageFailure<E>,
    >)
        ensures
            next is Ok <==> results@.len() == self.expected() && forall|i: int|
                0 <= i < results@.len() ==> (#[trigger] results@[i]) is Ok,
            match next {
                Ok(ids) => ids@ == self.ids(),
                Err(StageFailure::Incomplete { expected, handed }) => {
                    &&& expected == self.expected()
                    &&& handed == results@.len()
                    &&& handed != expected
                },
                Err(StageFailure::Batch(failure)) => {
                    &&& results@.len() == self.expected()
                    &&& failure.total == results@.len()
                    &&& failure.failed == failures(results@)
                    &&& failure.failed > 0
                    &&& exists|i: int|
                        first_failure_at(results@, i) && results@[i] == Err::<(), E>(failure.first)
                },
                Err(StageFailure::Unserved(_)) => false,
            },
    {
        if results.len() != self.expected {
            return Err(StageFailure::Incomplete { expected: self.expected, handed: results.len() });
        }
        match collect_results(results) {
            Ok(_) => Ok(self.pending_ids),
            Err(failure) => Err(StageFailure::Batch(failure)),
        }
    }
}

} // verus!
