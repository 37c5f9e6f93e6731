use niks3::nix_store::NixPathInfo;
use niks3::nix_store::StorePathError;
use niks3::push::NarUploaded;
use niks3::push::Negotiation;
use niks3::push::collect_nar_results;
use niks3::push::collect_results;
use niks3::push::compressed_info;
use niks3::push::nar_filename_of;
use niks3::push::nar_key_hash;
use niks3::push::nar_key_of;
use niks3::push::narinfo_key_hash;
use niks3::push::narinfo_key_of;
use niks3::push::plan_narinfo_uploads;
use niks3::push::plan_uploads;
use niks3::push::Reason;
use niks3::push::StageFailure;
use niks3::push::prepare_closures;
use niks3::push::record_pending_closure;
use niks3::string_map::StringMap;
use niks3::upload::CreatePendingClosureResponse;
use niks3::upload::Payload;
use niks3::upload::PendingObject;
use niks3::upload::Request;
use niks3::upload::UploadClient;

const A: &str = "/nix/store/aaaa1111-app-1.0";
const B: &str = "/nix/store/bbbb2222-lib-2.0";

fn info(path: &str, nar_hash: &str, nar_size: u64, references: &[&str]) -> NixPathInfo {
    NixPathInfo {
        path: path.to_string(),
        nar_hash: nar_hash.to_string(),
        nar_size,
        references: references.iter().map(|r| r.to_string()).collect(),
        deriver: None,
        signatures: None,
        ca: None,
    }
}

fn closure() -> Vec<NixPathInfo> {
    vec![info(A, "h1", 100, &[B]), info(B, "h2", 50, &[])]
}

fn pending(url: &str) -> PendingObject {
    PendingObject { presigned_url: url.to_string() }
}

fn response(id: &str, keys: &[&str]) -> CreatePendingClosureResponse {
    let mut pending_objects = StringMap::new();
    for key in keys {
        pending_objects.insert(key.to_string(), pending(&format!("https://s3/{}", key)));
    }
    CreatePendingClosureResponse {
        id: id.to_string(),
        started_at: "2024-01-01T00:00:00Z".to_string(),
        pending_objects,
    }
}

/// A service that remembers what it was sent, and holds records to the rule
/// that their archive must have come first.
struct FakeService {
    stored: Vec<String>,
    transactions: Vec<(String, Vec<String>)>,
    completed: Vec<String>,
    negotiated: Vec<String>,
    violations: usize,
}

impl FakeService {
    fn new() -> FakeService {
        FakeService {
            stored: Vec::new(),
            transactions: Vec::new(),
            completed: Vec::new(),
            negotiated: Vec::new(),
            violations: 0,
        }
    }

    fn negotiate(&mut self, request: Request) -> CreatePendingClosureResponse {
        assert!(request.url.ends_with("/api/pending_closures"));
        let body = match request.payload {
            Payload::Closure(body) => body,
            _ => panic!("not a negotiation"),
        };
        self.negotiated.push(body.closure.clone());
        let id = format!("tx{}", self.transactions.len());
        let mut missing = Vec::new();
        let mut pending_objects = StringMap::new();
        for object in body.objects {
            if !self.stored.contains(&object.key) {
                pending_objects.insert(object.key.clone(), pending(&format!("https://s3/{}", object.key)));
                missing.push(object.key);
            }
        }
        self.transactions.push((id.clone(), missing));
        CreatePendingClosureResponse { id, started_at: String::new(), pending_objects }
    }

    fn put(&mut self, url: &str) -> Result<(), String> {
        let key = url.strip_prefix("https://s3/").unwrap().to_string();
        if let Some(hash) = key.strip_suffix(".narinfo") {
            let asked = self
                .transactions
                .iter()
                .any(|(_, missing)| missing.contains(&nar_key_of(hash)));
            if asked && !self.stored.contains(&nar_key_of(hash)) {
                self.violations += 1;
                return Err(format!("{} came before its archive", key));
            }
        }
        self.stored.push(key);
        Ok(())
    }

    fn complete(&mut self, request: Request) {
        let id = request
            .url
            .strip_suffix("/complete")
            .and_then(|u| u.rsplit('/').next())
            .unwrap()
            .to_string();
        let (_, missing) = self.transactions.iter().find(|(tx, _)| *tx == id).unwrap();
        for key in missing {
            assert!(self.stored.contains(key), "{} closed without {}", id, key);
        }
        self.completed.push(id);
    }
}

fn told(failure: StageFailure<String>) -> String {
    match failure {
        StageFailure::Incomplete { expected, handed } => format!("{} of {} handed in", handed, expected),
        StageFailure::Batch(failure) => {
            format!("{} of {}: {}", failure.failed, failure.total, failure.first)
        }
        StageFailure::Unserved(unserved) => format!("{:?}: {}", unserved.reason, unserved.key),
    }
}

/// Pushes `infos` to `service`; `fail` names an object whose transfer fails.
fn push(service: &mut FakeService, infos: &Vec<NixPathInfo>, fail: Option<&str>) -> Result<Vec<String>, String> {
    let client = UploadClient::new("https://cache.example.org", "token".to_string()).unwrap();
    let (mut negotiation, closures) = Negotiation::begin(infos).unwrap();
    for (key, objects) in closures {
        let request = client.create_pending_closure(key, objects).unwrap();
        negotiation.record(service.negotiate(request));
    }
    let (stage, uploads) = match negotiation.archives() {
        Ok(next) => next,
        Err(unserved) => return Err(format!("{:?}: {}", unserved.reason, unserved.key)),
    };
    assert_eq!(stage.outcomes_owed(), uploads.len());
    let mut results = Vec::new();
    for upload in uploads {
        if fail == Some(upload.object_key.as_str()) {
            results.push(Err(format!("cannot send {}", upload.object_key)));
            continue;
        }
        let sent = service.put(&upload.pending_object.presigned_url);
        results.push(sent.map(|_| NarUploaded {
            hash: upload.hash.clone(),
            size: 40 + upload.hash.len() as u64,
            file_hash: format!("sha256:{}", upload.hash),
        }));
    }
    let (stage, uploads) = match stage.finish(results) {
        Ok(next) => next,
        Err(failure) => return Err(told(failure)),
    };
    assert_eq!(stage.outcomes_owed(), uploads.len());
    let mut results = Vec::new();
    let mut sent = Vec::new();
    for upload in uploads {
        if fail == Some(upload.object_key.as_str()) {
            results.push(Err(format!("cannot send {}", upload.object_key)));
            continue;
        }
        let request = client.upload_bytes_to_presigned_url(
            &upload.pending_object.presigned_url,
            upload.content.clone().into_bytes(),
            &upload.object_key,
        );
        assert_eq!(request.content_length, Some(upload.content.len().to_string()));
        results.push(service.put(&request.url));
        sent.push(upload.content);
    }
    let ids = match stage.finish(results) {
        Ok(ids) => ids,
        Err(failure) => return Err(told(failure)),
    };
    for id in &ids {
        service.complete(client.complete_pending_closure(id).unwrap());
    }
    Ok(sent)
}

#[test]
fn keys_are_made_from_hash_parts() {
    assert_eq!(narinfo_key_of("abc"), "abc.narinfo");
    assert_eq!(nar_filename_of("abc"), "abc.nar.zst");
    assert_eq!(nar_key_of("abc"), "nar/abc.nar.zst");
    assert_eq!(nar_key_hash("nar/abc.nar.zst"), Some("abc"));
    assert_eq!(nar_key_hash("nar/.nar.zst"), Some(""));
    assert_eq!(nar_key_hash("nar/abc.nar"), None);
    assert_eq!(nar_key_hash("abc.nar.zst"), None);
    assert_eq!(nar_key_hash("nar/.nar.zs"), None);
    assert_eq!(narinfo_key_hash("abc.narinfo"), Some("abc"));
    assert_eq!(narinfo_key_hash(".narinfo"), Some(""));
    assert_eq!(narinfo_key_hash("abc.narinf"), None);
}

#[test]
fn prepare_closures_builds_two_objects_for_each_path() {
    let prepared = prepare_closures(&closure()).unwrap();
    assert_eq!(prepared.closures.len(), 2);

    let (key, objects) = &prepared.closures[0];
    assert_eq!(key, "aaaa1111.narinfo");
    assert_eq!(objects.len(), 2);
    assert_eq!(objects[0].key, "aaaa1111.narinfo");
    assert_eq!(objects[0].refs, vec!["bbbb2222.narinfo", "nar/aaaa1111.nar.zst"]);
    assert_eq!(objects[1].key, "nar/aaaa1111.nar.zst");
    assert!(objects[1].refs.is_empty());

    let (key, objects) = &prepared.closures[1];
    assert_eq!(key, "bbbb2222.narinfo");
    assert_eq!(objects[0].key, "bbbb2222.narinfo");
    assert_eq!(objects[0].refs, vec!["nar/bbbb2222.nar.zst"]);
    assert_eq!(objects[1].key, "nar/bbbb2222.nar.zst");
    assert!(objects[1].refs.is_empty());

    let table = prepared.path_info_by_hash;
    assert_eq!(table.len(), 2);
    assert_eq!(table.get(&"aaaa1111".to_string()).unwrap().path, A);
    assert_eq!(table.get(&"bbbb2222".to_string()).unwrap().nar_size, 50);
    assert!(table.get(&"cccc".to_string()).is_none());
}

#[test]
fn prepare_closures_of_nothing() {
    let prepared = prepare_closures(&Vec::new()).unwrap();
    assert!(prepared.closures.is_empty());
    assert_eq!(prepared.path_info_by_hash.len(), 0);
}

#[test]
fn prepare_closures_refuses_what_is_no_store_path() {
    let bad_path = vec![info(A, "h", 1, &[]), info("/", "h", 1, &[])];
    assert!(matches!(prepare_closures(&bad_path), Err(StorePathError::InvalidStorePath)));
    let bad_reference = vec![info(A, "h", 1, &[B, ".."])];
    assert!(matches!(prepare_closures(&bad_reference), Err(StorePathError::InvalidStorePath)));
    assert!(Negotiation::begin(&bad_reference).is_err());
}

#[test]
fn prepare_closures_of_two_paths_with_one_hash_keeps_the_later() {
    let infos = vec![
        info("/nix/store/same-one", "h1", 1, &[]),
        info("/nix/store/same-two", "h2", 2, &[]),
    ];
    let prepared = prepare_closures(&infos).unwrap();
    assert_eq!(prepared.closures.len(), 2);
    assert_eq!(prepared.path_info_by_hash.len(), 1);
    assert_eq!(
        prepared.path_info_by_hash.get(&"same".to_string()).unwrap().path,
        "/nix/store/same-two"
    );
}

#[test]
fn pending_objects_of_several_answers_are_merged() {
    let mut objects = StringMap::new();
    let mut ids = Vec::new();
    record_pending_closure(&mut objects, &mut ids, response("t1", &["a.narinfo", "nar/a.nar.zst"]));
    record_pending_closure(&mut objects, &mut ids, response("t2", &[]));
    let mut third = response("t3", &["b.narinfo"]);
    third.pending_objects.insert("nar/a.nar.zst".to_string(), pending("https://other/a"));
    record_pending_closure(&mut objects, &mut ids, third);
    assert_eq!(ids, vec!["t1", "t2", "t3"]);
    assert_eq!(objects.len(), 3);
    assert_eq!(objects.key(0), "a.narinfo");
    assert_eq!(objects.key(1), "nar/a.nar.zst");
    assert_eq!(objects.key(2), "b.narinfo");
    assert_eq!(objects.value(1).presigned_url, "https://other/a");
}

fn pending_map(keys: &[&str]) -> StringMap<PendingObject> {
    response("t", keys).pending_objects
}

#[test]
fn pending_objects_are_parted_into_archives_and_records() {
    let prepared = prepare_closures(&closure()).unwrap();
    let pending = pending_map(&[
        "aaaa1111.narinfo",
        "nar/bbbb2222.nar.zst",
        "nar/aaaa1111.nar.zst",
        "bbbb2222.narinfo",
    ]);
    let (uploads, records) = plan_uploads(&pending, &prepared.path_info_by_hash).unwrap();
    assert_eq!(uploads.len(), 2);
    assert_eq!(uploads[0].object_key, "nar/bbbb2222.nar.zst");
    assert_eq!(uploads[0].pending_object.presigned_url, "https://s3/nar/bbbb2222.nar.zst");
    assert_eq!(uploads[0].store_path, B);
    assert_eq!(uploads[0].hash, "bbbb2222");
    assert_eq!(uploads[1].object_key, "nar/aaaa1111.nar.zst");
    assert_eq!(uploads[1].store_path, A);
    assert_eq!(uploads[1].hash, "aaaa1111");
    let record_keys: Vec<&str> = records.iter().map(|(k, _)| k.as_str()).collect();
    assert_eq!(record_keys, vec!["aaaa1111.narinfo", "bbbb2222.narinfo"]);
    assert_eq!(records[1].1.presigned_url, "https://s3/bbbb2222.narinfo");
    assert_eq!(uploads.len() + records.len(), pending.len());
}

#[test]
fn nothing_pending_plans_nothing() {
    let prepared = prepare_closures(&closure()).unwrap();
    let (uploads, records) = plan_uploads(&pending_map(&[]), &prepared.path_info_by_hash).unwrap();
    assert!(uploads.is_empty());
    assert!(records.is_empty());
}

#[test]
fn a_pending_object_that_cannot_be_served_fails_the_plan() {
    let prepared = prepare_closures(&closure()).unwrap();
    let table = &prepared.path_info_by_hash;
    let cases: [(&[&str], &str, Reason); 7] = [
        (&["nar/aaaa1111.nar.zst", "stray"], "stray", Reason::UnknownKey),
        (&["nar/aaaa1111.nar"], "nar/aaaa1111.nar", Reason::UnknownKey),
        (&["aaaa1111.nar.zst"], "aaaa1111.nar.zst", Reason::UnknownKey),
        (&["nar/unknown.nar.zst"], "nar/unknown.nar.zst", Reason::UnknownPath),
        (
            &["nar/aaaa1111.nar.zst", "aaaa1111.narinfo", "unknown.narinfo"],
            "unknown.narinfo",
            Reason::UnknownPath,
        ),
        (&["nar/aaaa1111.nar.zst", "bbbb2222.narinfo"], "bbbb2222.narinfo", Reason::ArchiveUnknown),
        (
            &["stray", "bbbb2222.narinfo", "nar/unknown.nar.zst"],
            "stray",
            Reason::UnknownKey,
        ),
    ];
    for (keys, key, reason) in cases {
        let unserved = plan_uploads(&pending_map(keys), table).unwrap_err();
        assert_eq!(unserved.key, key);
        assert_eq!(unserved.reason, reason);
    }
}

#[test]
fn records_are_written_with_what_is_known_of_their_archives() {
    let prepared = prepare_closures(&closure()).unwrap();
    let compressed = compressed_info(vec![
        NarUploaded { hash: "aaaa1111".to_string(), size: 77, file_hash: "sha256:AA".to_string() },
        NarUploaded { hash: String::new(), size: 1, file_hash: "ignored".to_string() },
        NarUploaded { hash: "bbbb2222".to_string(), size: 5, file_hash: "sha256:BB".to_string() },
    ]);
    assert_eq!(compressed.len(), 2);
    let narinfos = vec![
        ("aaaa1111.narinfo".to_string(), pending("u1")),
        ("bbbb2222.narinfo".to_string(), pending("u3")),
    ];
    let uploads =
        plan_narinfo_uploads(narinfos, &prepared.path_info_by_hash, &compressed).unwrap();
    assert_eq!(uploads.len(), 2);
    assert_eq!(uploads[0].object_key, "aaaa1111.narinfo");
    assert_eq!(uploads[0].pending_object.presigned_url, "u1");
    assert_eq!(
        uploads[0].content,
        "StorePath: /nix/store/aaaa1111-app-1.0\n\
         URL: nar/aaaa1111.nar.zst\n\
         Compression: zstd\n\
         FileHash: sha256:AA\n\
         FileSize: 77\n\
         NarHash: h1\n\
         NarSize: 100\n\
         References: bbbb2222-lib-2.0\n"
    );
    assert_eq!(uploads[1].object_key, "bbbb2222.narinfo");
    assert_eq!(
        uploads[1].content,
        "StorePath: /nix/store/bbbb2222-lib-2.0\n\
         URL: nar/bbbb2222.nar.zst\n\
         Compression: zstd\n\
         FileHash: sha256:BB\n\
         FileSize: 5\n\
         NarHash: h2\n\
         NarSize: 50\n"
    );
}

#[test]
fn a_record_is_not_written_without_the_outcome_of_its_archive() {
    let prepared = prepare_closures(&closure()).unwrap();
    let table = &prepared.path_info_by_hash;
    let only_a = || {
        compressed_info(vec![NarUploaded {
            hash: "aaaa1111".to_string(),
            size: 77,
            file_hash: "sha256:AA".to_string(),
        }])
    };
    let cases: [(&[&str], &str, Reason); 4] = [
        (&["aaaa1111.narinfo", "bbbb2222.narinfo"], "bbbb2222.narinfo", Reason::ArchiveUnknown),
        (&["bbbb2222.narinfo", "unknown.narinfo"], "bbbb2222.narinfo", Reason::ArchiveUnknown),
        (&["aaaa1111.narinfo", "unknown.narinfo"], "unknown.narinfo", Reason::UnknownPath),
        (&["nar/aaaa1111.nar.zst"], "nar/aaaa1111.nar.zst", Reason::UnknownKey),
    ];
    for (keys, key, reason) in cases {
        let narinfos = keys.iter().map(|k| (k.to_string(), pending("u"))).collect();
        let unserved = plan_narinfo_uploads(narinfos, table, &only_a()).unwrap_err();
        assert_eq!(unserved.key, key);
        assert_eq!(unserved.reason, reason);
    }
    let none = compressed_info(Vec::new());
    let narinfos = vec![("aaaa1111.narinfo".to_string(), pending("u"))];
    let unserved = plan_narinfo_uploads(narinfos, table, &none).unwrap_err();
    assert_eq!(unserved.reason, Reason::ArchiveUnknown);
}

#[test]
fn a_stage_takes_as_many_outcomes_as_it_owes() {
    let client = UploadClient::new("https://cache.example.org", "token".to_string()).unwrap();
    let mut service = FakeService::new();
    let (mut negotiation, closures) = Negotiation::begin(&closure()).unwrap();
    for (key, objects) in closures {
        negotiation.record(service.negotiate(client.create_pending_closure(key, objects).unwrap()));
    }
    let (stage, uploads) = negotiation.archives().ok().unwrap();
    assert_eq!(uploads.len(), 2);
    let one: Vec<Result<NarUploaded, String>> = vec![Ok(NarUploaded {
        hash: "aaaa1111".to_string(),
        size: 1,
        file_hash: "f".to_string(),
    })];
    assert!(matches!(
        stage.finish(one),
        Err(StageFailure::Incomplete { expected: 2, handed: 1 })
    ));
}

#[test]
fn outcomes_that_do_not_tell_of_an_archive_fail_the_stage() {
    let client = UploadClient::new("https://cache.example.org", "token".to_string()).unwrap();
    let mut service = FakeService::new();
    let (mut negotiation, closures) = Negotiation::begin(&closure()).unwrap();
    for (key, objects) in closures {
        negotiation.record(service.negotiate(client.create_pending_closure(key, objects).unwrap()));
    }
    let (stage, _uploads) = negotiation.archives().ok().unwrap();
    let twice: Vec<Result<NarUploaded, String>> = vec![
        Ok(NarUploaded { hash: "aaaa1111".to_string(), size: 1, file_hash: "f".to_string() }),
        Ok(NarUploaded { hash: "aaaa1111".to_string(), size: 1, file_hash: "f".to_string() }),
    ];
    match stage.finish(twice) {
        Err(StageFailure::Unserved(unserved)) => {
            assert_eq!(unserved.key, "bbbb2222.narinfo");
            assert_eq!(unserved.reason, Reason::ArchiveUnknown);
        }
        _ => panic!("records were handed out"),
    }
}

#[test]
fn compressed_info_keeps_the_later_of_two() {
    let table = compressed_info(vec![
        NarUploaded { hash: "h".to_string(), size: 1, file_hash: "one".to_string() },
        NarUploaded { hash: "g".to_string(), size: 2, file_hash: "two".to_string() },
        NarUploaded { hash: "h".to_string(), size: 3, file_hash: "three".to_string() },
    ]);
    assert_eq!(table.len(), 2);
    assert_eq!(table.get(&"h".to_string()), Some(&(3, "three".to_string())));
    assert_eq!(table.get(&"g".to_string()), Some(&(2, "two".to_string())));
}

#[test]
fn a_batch_succeeds_only_where_every_transfer_does() {
    let all: Vec<Result<u32, String>> = vec![Ok(1), Ok(2), Ok(3)];
    assert_eq!(collect_results(all).unwrap(), vec![1, 2, 3]);
    let none: Vec<Result<u32, String>> = Vec::new();
    assert_eq!(collect_results(none).unwrap(), Vec::<u32>::new());

    for k in [1usize, 2, 5, 30] {
        for bad in 0..k {
            let results: Vec<Result<usize, String>> = (0..k)
                .map(|i| if i == bad { Err(format!("failed {}", i)) } else { Ok(i) })
                .collect();
            let failure = collect_results(results).unwrap_err();
            assert_eq!(failure.failed, 1);
            assert_eq!(failure.total, k);
            assert_eq!(failure.first, format!("failed {}", bad));
        }
    }
}

#[test]
fn a_failed_batch_tells_its_first_failure_and_how_many() {
    let results: Vec<Result<(), &str>> = vec![Ok(()), Err("second"), Ok(()), Err("fourth"), Err("fifth")];
    let failure = collect_results(results).unwrap_err();
    assert_eq!(failure.failed, 3);
    assert_eq!(failure.total, 5);
    assert_eq!(failure.first, "second");

    let results: Vec<Result<NarUploaded, &str>> = vec![
        Ok(NarUploaded { hash: "h".to_string(), size: 1, file_hash: "f".to_string() }),
        Err("broken"),
    ];
    let failure = collect_nar_results(results).err().unwrap();
    assert_eq!(failure.failed, 1);
    assert_eq!(failure.total, 2);
    assert_eq!(failure.first, "broken");

    let results: Vec<Result<NarUploaded, &str>> = vec![Ok(NarUploaded {
        hash: "h".to_string(),
        size: 9,
        file_hash: "f".to_string(),
    })];
    let table = collect_nar_results(results).ok().unwrap();
    assert_eq!(table.get(&"h".to_string()), Some(&(9, "f".to_string())));
}

#[test]
fn pushing_a_root_and_its_dependency() {
    let mut service = FakeService::new();
    let records = push(&mut service, &closure(), None).unwrap();

    assert_eq!(service.negotiated, vec!["aaaa1111.narinfo", "bbbb2222.narinfo"]);
    assert_eq!(service.violations, 0);
    assert_eq!(service.completed, vec!["tx0", "tx1"]);

    let archive_b = service.stored.iter().position(|k| k == "nar/bbbb2222.nar.zst").unwrap();
    let record_b = service.stored.iter().position(|k| k == "bbbb2222.narinfo").unwrap();
    let archive_a = service.stored.iter().position(|k| k == "nar/aaaa1111.nar.zst").unwrap();
    let record_a = service.stored.iter().position(|k| k == "aaaa1111.narinfo").unwrap();
    assert!(archive_b < record_b);
    assert!(archive_a < record_a);
    assert_eq!(service.stored.len(), 4);

    assert_eq!(records.len(), 2);
    let record_of_a = records.iter().find(|r| r.contains("StorePath: /nix/store/aaaa1111-app-1.0\n")).unwrap();
    let record_of_b = records.iter().find(|r| r.contains("StorePath: /nix/store/bbbb2222-lib-2.0\n")).unwrap();
    assert!(record_of_a.contains("References: bbbb2222-lib-2.0\n"));
    assert!(!record_of_b.contains("References:"));
    assert!(record_of_a.contains("NarHash: h1\n"));
    assert!(record_of_a.contains("NarSize: 100\n"));
    assert!(record_of_a.contains("FileHash: sha256:aaaa1111\n"));
    assert!(record_of_a.contains("FileSize: 48\n"));
    assert!(record_of_b.contains("NarHash: h2\n"));
    assert!(record_of_b.contains("NarSize: 50\n"));
    assert!(record_of_b.contains("FileHash: sha256:bbbb2222\n"));
}

#[test]
fn what_was_pushed_is_not_pending_again() {
    let mut service = FakeService::new();
    push(&mut service, &closure(), None).unwrap();
    let stored = service.stored.len();

    let client = UploadClient::new("https://cache.example.org", "token".to_string()).unwrap();
    let (mut negotiation, closures) = Negotiation::begin(&closure()).unwrap();
    for (key, objects) in closures {
        let answer = service.negotiate(client.create_pending_closure(key, objects).unwrap());
        assert_eq!(answer.pending_objects.len(), 0);
        negotiation.record(answer);
    }
    let (stage, uploads) = negotiation.archives().ok().unwrap();
    assert!(uploads.is_empty());
    assert_eq!(stage.outcomes_owed(), 0);
    let none: Vec<Result<NarUploaded, String>> = Vec::new();
    let (stage, uploads) = stage.finish(none).ok().unwrap();
    assert!(uploads.is_empty());
    let none: Vec<Result<(), String>> = Vec::new();
    assert_eq!(stage.finish(none).ok().unwrap().len(), 2);
    assert_eq!(service.stored.len(), stored);
}

#[test]
fn a_shared_dependency_is_sent_once() {
    let c = "/nix/store/cccc3333-tool-3.0";
    let infos = vec![info(A, "h1", 100, &[B]), info(c, "h3", 10, &[B]), info(B, "h2", 50, &[])];
    let mut service = FakeService::new();
    push(&mut service, &infos, None).unwrap();
    assert_eq!(service.stored.iter().filter(|k| *k == "nar/bbbb2222.nar.zst").count(), 1);
    assert_eq!(service.stored.iter().filter(|k| *k == "bbbb2222.narinfo").count(), 1);
    assert_eq!(service.stored.len(), 6);
    assert_eq!(service.violations, 0);
    assert_eq!(service.completed.len(), 3);
}

#[test]
fn no_record_is_sent_before_its_archive() {
    for n in [1usize, 2, 7, 40] {
        let mut infos = Vec::new();
        for i in 0..n {
            let path = format!("/nix/store/hash{}-pkg", i);
            let reference = format!("/nix/store/hash{}-pkg", (i + 1) % n);
            infos.push(info(&path, "h", i as u64, &[reference.as_str()]));
        }
        let mut service = FakeService::new();
        push(&mut service, &infos, None).unwrap();
        assert_eq!(service.violations, 0);
        assert_eq!(service.stored.len(), 2 * n);
        let first_record = service.stored.iter().position(|k| k.ends_with(".narinfo")).unwrap();
        assert!(service.stored[..first_record].iter().all(|k| k.starts_with("nar/")));
        assert_eq!(first_record, n);
    }
}

#[test]
fn one_failed_transfer_fails_the_push() {
    for failing in ["nar/bbbb2222.nar.zst", "nar/aaaa1111.nar.zst", "aaaa1111.narinfo", "bbbb2222.narinfo"] {
        let mut service = FakeService::new();
        let outcome = push(&mut service, &closure(), Some(failing));
        let message = outcome.unwrap_err();
        assert!(message.starts_with("1 of 2: cannot send "), "{}", message);
        assert!(message.ends_with(failing));
        assert!(service.completed.is_empty());
        if failing.starts_with("nar/") {
            assert!(service.stored.iter().all(|k| k.starts_with("nar/")));
            assert_eq!(service.stored.len(), 1);
        } else {
            assert_eq!(service.stored.len(), 3);
        }
    }
}

#[test]
fn pushing_again_after_archives_failed_sends_what_is_left() {
    let mut service = FakeService::new();
    assert!(push(&mut service, &closure(), Some("nar/aaaa1111.nar.zst")).is_err());
    assert_eq!(service.stored, vec!["nar/bbbb2222.nar.zst"]);
    // The archive of the dependency is held now, its record is not: what the
    // record would tell of the archive is not known in this push.
    let again = push(&mut service, &closure(), None).unwrap_err();
    assert_eq!(again, "ArchiveUnknown: bbbb2222.narinfo");
    assert_eq!(service.stored.len(), 1);
    assert!(service.completed.is_empty());
    assert_eq!(service.violations, 0);
}

#[test]
fn a_record_left_behind_is_not_sent_with_made_up_values() {
    let mut service = FakeService::new();
    assert!(push(&mut service, &closure(), Some("aaaa1111.narinfo")).is_err());
    assert_eq!(service.stored.len(), 3);
    let again = push(&mut service, &closure(), None).unwrap_err();
    assert_eq!(again, "ArchiveUnknown: aaaa1111.narinfo");
    assert_eq!(service.stored.len(), 3);
    assert!(service.completed.is_empty());
}
