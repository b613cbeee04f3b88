use base64::engine::general_purpose::STANDARD;
use base64::Engine;
use encrypt::crypto::{recover_key_from_password, CryptoError, StreamDecryptor};
use encrypt::web::guard::origin_host;
use encrypt::web::respond::encrypted_reply;
use encrypt::web::sanitize::{is_control, is_white_space};
use encrypt::web::settings::{bind_address, invalid_bind, listening_line};
use encrypt::web::upload::{accept_upload, upload_failure};
use encrypt::web::{
    answer_upload, check_same_origin, config, constant_time_eq, encrypt_handler,
    encrypt_in_memory, env_usize, handle, healthcheck, interruption, read_upload, refuse_root, request_guard, request_length,
    sanitize_filename, security_headers, settings, ApiError, Interruption, RequestHead, Upload,
    UploadAsk, UploadEvent, UploadForm, UploadStep,
};

fn head(post: bool) -> RequestHead {
    RequestHead { is_post: post, site: None, origin: None, host: None, token: None }
}

fn bytes(text: &str) -> Option<Vec<u8>> {
    Some(text.as_bytes().to_vec())
}

fn sanitized(raw: &str) -> String {
    sanitize_filename(raw).unwrap()
}

fn sanitized_by_std(raw: &str) -> String {
    let base = raw.rsplit(['/', '\\']).next().unwrap_or("").trim().trim_matches('.');
    let cleaned: String = base.chars().filter(|c| !c.is_control()).take(200).collect();
    let cleaned = cleaned.trim().to_string();
    if cleaned.is_empty() || cleaned == "." || cleaned == ".." {
        return "upload.bin".to_string();
    }
    cleaned
}

#[test]
fn character_classes_are_those_of_std() {
    for n in 0..=0x10ffffu32 {
        if let Some(c) = char::from_u32(n) {
            assert_eq!(is_white_space(c), c.is_whitespace(), "{:x}", n);
            assert_eq!(is_control(c), c.is_control(), "{:x}", n);
        }
    }
}

#[test]
fn hostile_names_are_reduced() {
    assert_eq!(sanitized("report.pdf"), "report.pdf");
    assert_eq!(sanitized("../../etc/passwd"), "passwd");
    assert_eq!(sanitized("C:\\Users\\me\\notes.txt"), "notes.txt");
    assert_eq!(sanitized("  spaced.txt  "), "spaced.txt");
    assert_eq!(sanitized("...dots..."), "dots");
    assert_eq!(sanitized("a\u{0}b\nc.txt"), "abc.txt");
    assert_eq!(sanitized("naïve 🦀.txt"), "naïve 🦀.txt");
}

#[test]
fn names_of_which_nothing_is_left_are_replaced() {
    for raw in ["", ".", "..", "/", "dir/", "   ", "\u{1}", "\u{1}.\u{1}", "\u{1}..\u{2}", "a/.."] {
        assert_eq!(sanitized(raw), "upload.bin", "{:?}", raw);
    }
}

#[test]
fn names_are_cut_at_200_characters() {
    assert_eq!(sanitized(&"é".repeat(300)), "é".repeat(200));
    let spaced = format!("{} {}", "a".repeat(199), "b".repeat(50));
    assert_eq!(sanitized(&spaced), "a".repeat(199));
}

#[test]
fn names_are_reduced_as_std_would() {
    let pieces = ["", "a", ".", "..", " ", "\u{7}", "/", "\\", "b c", "\u{2003}", ".x", "y.", "é"];
    for a in pieces {
        for b in pieces {
            for c in pieces {
                let raw = format!("{}{}{}", a, b, c);
                assert_eq!(sanitized(&raw), sanitized_by_std(&raw), "{:?}", raw);
            }
        }
    }
}

#[test]
fn refusals_are_json() {
    let e = ApiError::new(400, "File is empty");
    assert_eq!(e.status, 400);
    let reply = e.into_response();
    assert_eq!(reply.body, "{\"error\":\"File is empty\"}");
    assert_eq!(reply.content_type, "application/json; charset=utf-8");
}

#[test]
fn environment_numbers_fall_back() {
    assert_eq!(env_usize(Some("7"), 3), 7);
    assert_eq!(env_usize(Some("+7"), 3), 7);
    assert_eq!(env_usize(Some("seven"), 3), 3);
    assert_eq!(env_usize(Some(""), 3), 3);
    assert_eq!(env_usize(Some("-1"), 3), 3);
    assert_eq!(env_usize(None, 3), 3);
    assert_eq!(env_usize(Some(&usize::MAX.to_string()), 3), usize::MAX);
    assert_eq!(env_usize(Some("99999999999999999999999"), 3), 3);
}

#[test]
fn settings_are_kept_in_bounds() {
    let s = settings(None, None, None);
    assert_eq!((s.max_upload_mb, s.max_upload_bytes, s.concurrency), (64, 67108864, 2));
    assert!(s.token.is_none());
    let s = settings(Some("0"), Some("0"), Some(String::new()));
    assert_eq!((s.max_upload_mb, s.concurrency), (1, 1));
    assert!(s.token.is_none());
    let s = settings(Some("4000"), Some("99"), Some("secret".to_string()));
    assert_eq!((s.max_upload_mb, s.max_upload_bytes, s.concurrency), (512, 536870912, 16));
    assert_eq!(s.token.as_deref(), Some("secret"));
}

#[test]
fn address_has_a_default() {
    assert_eq!(bind_address(None), "127.0.0.1:8080");
    assert_eq!(bind_address(Some("0.0.0.0:1".to_string())), "0.0.0.0:1");
    assert_eq!(invalid_bind("x"), "Invalid ENCRYPT_WEB_BIND value: x");
}

#[test]
fn root_is_refused_unless_allowed() {
    assert!(refuse_root(1000, None).is_ok());
    assert!(refuse_root(0, Some("1")).is_ok());
    let text = "Refusing to run as root. Run as an unprivileged user, or set \
                ENCRYPT_WEB_ALLOW_ROOT=1 if you fully understand the consequences.";
    assert_eq!(refuse_root(0, None), Err(text.to_string()));
    assert_eq!(refuse_root(0, Some("yes")), Err(text.to_string()));
}

#[test]
fn listening_line_names_the_settings() {
    let s = settings(None, None, Some("t".to_string()));
    assert_eq!(
        listening_line("127.0.0.1:8080", 65532, &s),
        "encrypt-web listening on http://127.0.0.1:8080 (uid 65532, max upload 64 MiB, workers 2, token auth on)"
    );
    let s = settings(None, None, None);
    assert!(listening_line("a", 0, &s).ends_with("token auth off)"));
}

#[test]
fn limits_are_told_in_json() {
    let reply = config(67108864);
    assert_eq!(reply.body, "{\"max_upload_bytes\":67108864,\"min_password_length\":12}");
    assert_eq!(reply.content_type, "application/json; charset=utf-8");
}

#[test]
fn origins_have_hosts() {
    assert_eq!(origin_host(b"http://127.0.0.1:8085"), b"127.0.0.1:8085");
    assert_eq!(origin_host(b"http://host//"), b"host");
    assert_eq!(origin_host(b"null"), b"");
    assert_eq!(origin_host(b""), b"");
    assert_eq!(origin_host(b"http://"), b"");
    assert_eq!(origin_host(b"http://a://b"), b"a");
    assert_eq!(origin_host(b"://x"), b"x");
}

#[test]
fn own_pages_are_let_through() {
    let mut h = head(true);
    assert!(check_same_origin(&h).is_ok());
    h.site = bytes("same-origin");
    h.origin = bytes("http://127.0.0.1:8085");
    h.host = bytes("127.0.0.1:8085");
    assert!(check_same_origin(&h).is_ok());
    h.site = bytes("none");
    assert!(check_same_origin(&h).is_ok());
}

#[test]
fn other_sites_are_refused() {
    for site in ["cross-site", "same-site", ""] {
        let mut h = head(true);
        h.site = bytes(site);
        let e = check_same_origin(&h).unwrap_err();
        assert_eq!((e.status, e.message), (403, "Cross-origin requests are not allowed"));
    }
    for origin in ["https://example.com", "null", "http://127.0.0.1:8086", "http://"] {
        let mut h = head(true);
        h.origin = bytes(origin);
        h.host = bytes("127.0.0.1:8085");
        assert_eq!(check_same_origin(&h).unwrap_err().status, 403, "{}", origin);
    }
    let mut h = head(true);
    h.origin = bytes("http://host");
    assert_eq!(check_same_origin(&h).unwrap_err().status, 403);
}

#[test]
fn header_that_is_no_text_counts_as_missing() {
    let mut h = head(true);
    h.site = Some(vec![0xff]);
    h.origin = Some(vec![0x7f]);
    assert!(check_same_origin(&h).is_ok());
    h.origin = bytes("http://a\tb");
    h.host = bytes("a\tb");
    assert!(check_same_origin(&h).is_ok());
}

#[test]
fn tokens_are_compared_whole() {
    assert!(constant_time_eq(b"", b""));
    assert!(constant_time_eq(b"abc", b"abc"));
    assert!(!constant_time_eq(b"abc", b"abd"));
    assert!(!constant_time_eq(b"xbc", b"abc"));
    assert!(!constant_time_eq(b"abc", b"ab"));
}

#[test]
fn token_is_asked_of_posts_only() {
    let mut h = head(true);
    let e = handle(&h, Some("secret")).unwrap_err();
    assert_eq!((e.status, e.message), (401, "Invalid or missing token"));
    h.token = bytes("wrong");
    assert_eq!(handle(&h, Some("secret")).unwrap_err().status, 401);
    h.token = bytes("secret");
    assert!(handle(&h, Some("secret")).is_ok());
    assert!(handle(&head(false), Some("secret")).is_ok());
    assert!(handle(&head(true), None).is_ok());
    h.site = bytes("cross-site");
    assert_eq!(handle(&h, Some("secret")).unwrap_err().status, 403);
    h.is_post = false;
    assert!(handle(&h, Some("secret")).is_ok());
}

#[test]
fn answers_carry_eight_security_headers() {
    let headers = security_headers();
    assert_eq!(headers.len(), 8);
    assert_eq!(headers[0].0, "content-security-policy");
    assert_eq!(
        headers[0].1,
        "default-src 'none'; script-src 'self'; style-src 'self'; connect-src 'self'; \
         img-src 'self' data:; form-action 'none'; frame-ancestors 'none'; base-uri 'none'"
    );
    let rest: Vec<(&str, &str)> =
        headers[1..].iter().map(|(n, v)| (n.as_str(), v.as_str())).collect();
    assert_eq!(
        rest,
        vec![
            ("x-content-type-options", "nosniff"),
            ("x-frame-options", "DENY"),
            ("referrer-policy", "no-referrer"),
            ("cache-control", "no-store"),
            ("cross-origin-resource-policy", "same-origin"),
            ("cross-origin-opener-policy", "same-origin"),
            ("permissions-policy", "geolocation=(), camera=(), microphone=(), interest-cohort=()"),
        ]
    );
}

#[test]
fn requests_leave_one_line() {
    assert_eq!(
        request_guard("POST", "/api/encrypt", 200, 3145992, 214),
        "POST /api/encrypt -> 200 in=3145992B 214ms"
    );
    assert_eq!(request_length(&bytes("3145992")), 3145992);
    assert_eq!(request_length(&bytes("many")), 0);
    assert_eq!(request_length(&Some(vec![0x31, 0xff])), 0);
    assert_eq!(request_length(&None), 0);
}

#[test]
fn health_is_a_status_of_200() {
    assert!(healthcheck(b"HTTP/1.1 200 OK\r\n"));
    assert!(healthcheck(b"HTTP/1.0 200"));
    assert!(!healthcheck(b"HTTP/1.1 503 Busy"));
    assert!(!healthcheck(b"HTTP/1.1 20"));
    assert!(!healthcheck(b""));
}

fn field(name: &str, filename: Option<&str>) -> UploadEvent<String, Vec<u8>> {
    UploadEvent::FieldBegins { name: name.to_string(), filename: filename.map(|s| s.to_string()) }
}

fn run(events: Vec<UploadEvent<String, Vec<u8>>>) -> Result<Upload<String, Vec<u8>>, ApiError> {
    let mut form = UploadForm::begin();
    for event in events {
        match read_upload(form, event) {
            UploadStep::Reading(next) => form = next,
            UploadStep::Finished(r) => return r,
        }
    }
    panic!("the form goes on")
}

fn text(t: &str) -> UploadEvent<String, Vec<u8>> {
    UploadEvent::TextRead(Some(t.to_string()))
}

fn refused(events: Vec<UploadEvent<String, Vec<u8>>>) -> (u16, &'static str) {
    let e = run(events).unwrap_err();
    (e.status, e.message)
}

#[test]
fn form_is_read_field_by_field() {
    let form = UploadForm::begin();
    assert_eq!(form.asked, UploadAsk::NextField);
    let step = read_upload(form, field("password", None));
    assert!(matches!(step, UploadStep::Reading(UploadForm { asked: UploadAsk::ReadText, .. })));
    let step = read_upload(UploadForm::begin(), field("file", Some("a")));
    assert!(matches!(step, UploadStep::Reading(UploadForm { asked: UploadAsk::ReadBytes, .. })));
    let step = read_upload(UploadForm::begin(), field("other", None));
    assert!(matches!(step, UploadStep::Reading(UploadForm { asked: UploadAsk::Drain, .. })));
}

#[test]
fn complete_form_is_accepted() {
    let upload = run(vec![
        field("extra", None),
        UploadEvent::Drained,
        field("password", None),
        text("a password long enough"),
        field("file", Some("../secret.txt")),
        UploadEvent::BytesRead(Ok(b"content".to_vec())),
        UploadEvent::End,
    ])
    .unwrap();
    assert_eq!(upload.password, "a password long enough");
    assert_eq!(upload.filename, "secret.txt");
    assert_eq!(upload.data, b"content");
}

#[test]
fn last_field_of_a_name_counts() {
    let upload = run(vec![
        field("password", None),
        text("first password"),
        field("password", None),
        text("second password"),
        field("file", Some("a.txt")),
        UploadEvent::BytesRead(Ok(b"1".to_vec())),
        field("file", None),
        UploadEvent::BytesRead(Ok(b"2".to_vec())),
        UploadEvent::End,
    ])
    .unwrap();
    assert_eq!(upload.password, "second password");
    assert_eq!(upload.filename, "upload.bin");
    assert_eq!(upload.data, b"2");
}

#[test]
fn incomplete_forms_are_refused() {
    assert_eq!(refused(vec![UploadEvent::End]), (400, "Password is required"));
    assert_eq!(
        refused(vec![field("password", None), text("éééééééééé1"), UploadEvent::End]),
        (400, "Password must be at least 12 characters")
    );
    assert_eq!(
        refused(vec![field("password", None), text(&"é".repeat(257)), UploadEvent::End]),
        (400, "Password is too long")
    );
    assert_eq!(
        refused(vec![field("password", None), text(&"é".repeat(256)), UploadEvent::End]),
        (400, "File is required")
    );
    assert_eq!(
        refused(vec![
            field("password", None),
            text("twelve chars"),
            field("file", Some("a")),
            UploadEvent::BytesRead(Ok(Vec::new())),
            UploadEvent::End,
        ]),
        (400, "File is empty")
    );
}

#[test]
fn unreadable_forms_are_refused() {
    assert_eq!(
        refused(vec![UploadEvent::Failed(413)]),
        (413, "File exceeds the configured upload limit")
    );
    assert_eq!(refused(vec![UploadEvent::Failed(400)]), (400, "Malformed upload"));
    assert_eq!(
        refused(vec![field("password", None), UploadEvent::TextRead(None)]),
        (400, "Malformed upload")
    );
    assert_eq!(
        refused(vec![field("file", None), UploadEvent::BytesRead(Err(413))]),
        (413, "File exceeds the configured upload limit")
    );
    assert_eq!(upload_failure(422).status, 422);
}

#[test]
fn form_is_judged_as_a_whole() {
    let mut form = UploadForm::begin();
    form.password = Some("twelve chars".to_string());
    form.data = Some(vec![1]);
    assert_eq!(accept_upload(form).unwrap().filename, "upload.bin");
}

#[test]
fn upload_comes_back_with_the_password() {
    let password = "a password long enough";
    let (ciphertext, key_file) = encrypt_in_memory(password, "photo.jpg", b"pixels").unwrap();
    let key = recover_key_from_password(&key_file, password).unwrap();
    let (decryptor, name, used) = StreamDecryptor::open(&ciphertext, &key).ok().unwrap();
    assert_eq!(name, "photo.jpg");
    let mut out = Vec::new();
    decryptor.decrypt_body(&ciphertext[used..], &mut out, &mut Vec::new()).unwrap();
    assert_eq!(out, b"pixels");
    assert!(!ciphertext.windows(5).any(|w| w == b"photo"));
}

#[test]
fn name_that_does_not_fit_is_not_encrypted() {
    let r = encrypt_in_memory("password", &"n".repeat(5000), b"x");
    assert!(matches!(r, Err(CryptoError::FilenameTooLong)));
}

#[test]
fn answer_carries_both_downloads() {
    let reply = encrypted_reply("stem", b"cipher".to_vec(), b"\x00\xff\x10key");
    assert_eq!(reply.body, b"cipher");
    let expected = vec![
        ("content-type".to_string(), "application/octet-stream".to_string()),
        ("content-disposition".to_string(), "attachment; filename=\"stem.enc\"".to_string()),
        ("x-encrypt-key".to_string(), "AP8Qa2V5".to_string()),
        ("x-encrypt-key-filename".to_string(), "stem.key".to_string()),
    ];
    assert_eq!(reply.headers, expected);
}

#[test]
fn key_is_carried_in_padded_base64() {
    let all: Vec<u8> = (0..=255).collect();
    for n in [0usize, 1, 2, 3, 4, 100, 256] {
        let reply = encrypted_reply("s", Vec::new(), &all[..n]);
        assert_eq!(STANDARD.decode(&reply.headers[2].1).unwrap(), &all[..n]);
        assert_eq!(reply.headers[2].1.len(), (n + 2) / 3 * 4);
    }
    assert_eq!(encrypted_reply("s", Vec::new(), b"a").headers[2].1, "YQ==");
    assert_eq!(encrypted_reply("s", Vec::new(), b"ab").headers[2].1, "YWI=");
    assert_eq!(encrypted_reply("s", Vec::new(), &[251, 255]).headers[2].1, "+/8=");
}

#[test]
fn downloads_share_a_random_stem() {
    let reply = encrypt_handler(Ok((b"c".to_vec(), b"k".to_vec()))).unwrap();
    let stem = reply.headers[3].1.strip_suffix(".key").unwrap().to_string();
    assert_eq!(stem.len(), 16);
    assert_eq!(reply.headers[1].1, format!("attachment; filename=\"{}.enc\"", stem));
    let other = encrypt_handler(Ok((b"c".to_vec(), b"k".to_vec()))).unwrap();
    assert_ne!(other.headers[3].1, reply.headers[3].1);
}

#[test]
fn failures_are_answered() {
    let e = encrypt_handler(Err(CryptoError::KdfEmpty)).unwrap_err();
    assert_eq!((e.status, e.message), (500, "Encryption failed"));
    let of = |why| {
        let e = interruption(why);
        (e.status, e.message)
    };
    assert_eq!(of(Interruption::Busy), (503, "Server busy, retry shortly"));
    assert_eq!(of(Interruption::ShuttingDown), (503, "Server is shutting down"));
    assert_eq!(of(Interruption::TimedOut), (408, "Upload timed out"));
    assert_eq!(of(Interruption::TaskFailed), (500, "Encryption task failed"));
}

#[test]
fn accepted_upload_is_answered() {
    let upload = Upload {
        password: "long enough password".to_string(),
        filename: "photo.jpg".to_string(),
        data: b"pixels".to_vec(),
    };
    let reply = answer_upload(upload).unwrap();
    assert_eq!(reply.body.len(), 9 + 6 + 21 + 86);
    let value = |name: &str| {
        let found = reply.headers.iter().find(|h| h.0 == name);
        found.unwrap().1.clone()
    };
    let key_file = STANDARD.decode(value("x-encrypt-key")).unwrap();
    let stem = value("x-encrypt-key-filename").strip_suffix(".key").unwrap().to_string();
    assert_eq!(stem.len(), 16);
    assert_eq!(
        value("content-disposition"),
        format!("attachment; filename=\"{}.enc\"", stem)
    );
    let key = recover_key_from_password(&key_file, "long enough password").unwrap();
    let (decryptor, name, used) = StreamDecryptor::open(&reply.body, &key).unwrap();
    assert_eq!(name, "photo.jpg");
    let mut data = Vec::new();
    let mut progress = Vec::new();
    decryptor.decrypt_body(&reply.body[used..], &mut data, &mut progress).unwrap();
    assert_eq!(data, b"pixels");
    assert_eq!(progress, vec![6]);
    let upload = Upload {
        password: "long enough password".to_string(),
        filename: "n".repeat(4081),
        data: b"x".to_vec(),
    };
    let e = answer_upload(upload).unwrap_err();
    assert_eq!((e.status, e.message), (500, "Encryption failed"));
}
