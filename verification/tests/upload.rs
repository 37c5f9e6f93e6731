use niks3::upload::CompressedFile;
use niks3::upload::Method;
use niks3::upload::ObjectWithRefs;
use niks3::upload::Operation;
use niks3::upload::Payload;
use niks3::upload::UploadClient;
use niks3::upload::UploadError;

fn client(base: &str) -> UploadClient {
    UploadClient::new(base, "secret".to_string()).unwrap()
}

#[test]
fn client_refuses_what_is_no_url() {
    assert!(matches!(
        UploadClient::new("not a url", "t".to_string()),
        Err(UploadError::InvalidUrl)
    ));
    assert!(matches!(
        UploadClient::new("", "t".to_string()),
        Err(UploadError::InvalidUrl)
    ));
    assert!(matches!(
        UploadClient::new("/relative/path", "t".to_string()),
        Err(UploadError::InvalidUrl)
    ));
    assert!(UploadClient::new("https://cache.example.org", "t".to_string()).is_ok());
}

#[test]
fn create_pending_closure_posts_to_the_service() {
    let objects = vec![
        ObjectWithRefs {
            key: "abc.narinfo".to_string(),
            refs: vec!["nar/abc.nar.zst".to_string()],
        },
        ObjectWithRefs { key: "nar/abc.nar.zst".to_string(), refs: Vec::new() },
    ];
    let request = client("https://cache.example.org")
        .create_pending_closure("abc.narinfo".to_string(), objects)
        .unwrap();
    assert_eq!(request.operation, Operation::CreatePendingClosure);
    assert_eq!(request.method, Method::Post);
    assert_eq!(request.url, "https://cache.example.org/api/pending_closures");
    assert_eq!(request.authorization.as_deref(), Some("Bearer secret"));
    assert_eq!(request.content_length, None);
    assert_eq!(request.object_key, "");
    match request.payload {
        Payload::Closure(body) => {
            assert_eq!(body.closure, "abc.narinfo");
            assert_eq!(body.objects.len(), 2);
            assert_eq!(body.objects[0].key, "abc.narinfo");
            assert_eq!(body.objects[0].refs, vec!["nar/abc.nar.zst"]);
            assert_eq!(body.objects[1].key, "nar/abc.nar.zst");
            assert!(body.objects[1].refs.is_empty());
        }
        _ => panic!("not a closure"),
    }
}

#[test]
fn endpoints_are_joined_to_the_base() {
    let request = client("https://cache.example.org/prefix/")
        .complete_pending_closure("42")
        .unwrap();
    assert_eq!(
        request.url,
        "https://cache.example.org/prefix/api/pending_closures/42/complete"
    );
    let request = client("https://cache.example.org/prefix/leaf")
        .complete_pending_closure("42")
        .unwrap();
    assert_eq!(
        request.url,
        "https://cache.example.org/prefix/api/pending_closures/42/complete"
    );
    let request = client("http://localhost:8080")
        .create_pending_closure("c".to_string(), Vec::new())
        .unwrap();
    assert_eq!(request.url, "http://localhost:8080/api/pending_closures");
}

#[test]
fn complete_pending_closure_posts_nothing() {
    let request = client("https://cache.example.org")
        .complete_pending_closure("tx-7")
        .unwrap();
    assert_eq!(request.operation, Operation::CompletePendingClosure);
    assert_eq!(request.method, Method::Post);
    assert_eq!(
        request.url,
        "https://cache.example.org/api/pending_closures/tx-7/complete"
    );
    assert_eq!(request.authorization.as_deref(), Some("Bearer secret"));
    assert_eq!(request.content_length, None);
    assert!(matches!(request.payload, Payload::Empty));
}

#[test]
fn upload_bytes_announces_their_length() {
    let request = client("https://cache.example.org").upload_bytes_to_presigned_url(
        "https://s3.example.org/bucket/abc.narinfo?sig=1",
        b"StorePath: x\n".to_vec(),
        "abc.narinfo",
    );
    assert_eq!(request.operation, Operation::Upload);
    assert_eq!(request.method, Method::Put);
    assert_eq!(request.url, "https://s3.example.org/bucket/abc.narinfo?sig=1");
    assert_eq!(request.authorization, None);
    assert_eq!(request.content_length.as_deref(), Some("13"));
    assert_eq!(request.object_key, "abc.narinfo");
    assert!(matches!(&request.payload, Payload::Bytes(b) if b == b"StorePath: x\n"));

    let empty = client("https://cache.example.org").upload_bytes_to_presigned_url(
        "u",
        Vec::new(),
        "k",
    );
    assert_eq!(empty.content_length.as_deref(), Some("0"));
}

#[test]
fn upload_compressed_file_announces_the_staged_length() {
    let staged = CompressedFile {
        path: "/tmp/upload/0".to_string(),
        size: 1234567890123,
        hash: "sha256:abc=".to_string(),
    };
    let request = client("https://cache.example.org").upload_compressed_file(
        "https://s3.example.org/bucket/nar/abc.nar.zst",
        &staged,
        "nar/abc.nar.zst",
    );
    assert_eq!(request.operation, Operation::Upload);
    assert_eq!(request.method, Method::Put);
    assert_eq!(request.url, "https://s3.example.org/bucket/nar/abc.nar.zst");
    assert_eq!(request.authorization, None);
    assert_eq!(request.content_length.as_deref(), Some("1234567890123"));
    assert_eq!(request.object_key, "nar/abc.nar.zst");
    assert!(matches!(&request.payload, Payload::File(p) if p == "/tmp/upload/0"));
}

#[test]
fn a_status_from_200_to_299_is_success() {
    let request = client("https://cache.example.org").upload_bytes_to_presigned_url(
        "u",
        Vec::new(),
        "abc.narinfo",
    );
    for status in [200u16, 201, 204, 299] {
        assert!(request.check_response(status, String::new()).is_ok());
    }
    for status in [0u16, 100, 199, 300, 301, 400, 403, 404, 500, 503, 65535] {
        match request.check_response(status, "body".to_string()) {
            Err(UploadError::Protocol { operation, object_key, status: reported, body }) => {
                assert_eq!(operation, Operation::Upload);
                assert_eq!(object_key, "abc.narinfo");
                assert_eq!(reported, status);
                assert_eq!(body, "body");
            }
            _ => panic!("status {} passed", status),
        }
    }
}

#[test]
fn failures_are_told_in_words() {
    assert_eq!(UploadError::InvalidUrl.message(), "Invalid server URL");
    let failure = UploadError::Protocol {
        operation: Operation::CreatePendingClosure,
        object_key: String::new(),
        status: 500,
        body: "boom".to_string(),
    };
    assert_eq!(failure.message(), "Failed to create pending closure: 500 - boom");
    let failure = UploadError::Protocol {
        operation: Operation::Upload,
        object_key: "nar/abc.nar.zst".to_string(),
        status: 403,
        body: "denied".to_string(),
    };
    assert_eq!(failure.message(), "Failed to upload nar/abc.nar.zst: 403 - denied");
    let failure = UploadError::Protocol {
        operation: Operation::CompletePendingClosure,
        object_key: String::new(),
        status: 404,
        body: String::new(),
    };
    assert_eq!(failure.message(), "Failed to complete pending closure: 404 - ");
}

#[test]
fn authorized_post_carries_the_token() {
    let request = niks3::upload::Request::authorized_post(
        Operation::CompletePendingClosure,
        "https://cache.example.org/x".to_string(),
        "t0k3n",
        Payload::Empty,
    );
    assert_eq!(request.operation, Operation::CompletePendingClosure);
    assert_eq!(request.method, Method::Post);
    assert_eq!(request.url, "https://cache.example.org/x");
    assert_eq!(request.authorization.as_deref(), Some("Bearer t0k3n"));
    assert_eq!(request.content_length, None);
    assert_eq!(request.object_key, "");
    assert!(matches!(request.payload, Payload::Empty));
}

#[test]
fn complete_path_names_the_transaction() {
    assert_eq!(niks3::upload::complete_path_of("42"), "api/pending_closures/42/complete");
    assert_eq!(niks3::upload::complete_path_of(""), "api/pending_closures//complete");
}
