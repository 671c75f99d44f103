use agit_selfhost::git::GitError;
use agit_selfhost::http::Request;
use agit_selfhost::smart::{check_encoding, read_head, receives, smart_http, CgiHead, GitBody};
use agit_selfhost::space::{Policy, UploadBudget, MIB};
use agit_selfhost::state::{DataDirectory, Repository, State};

fn hub() -> State {
    State::initialize(
        "/data",
        "ada".to_owned(),
        &None,
        "https://h.example",
        64,
        1,
        Policy::default(),
        DataDirectory { initialized: false, occupied: false },
    )
    .unwrap()
}

fn request(headers: &[(&str, &str)]) -> Request {
    Request {
        method: "POST".to_owned(),
        target: "/".to_owned(),
        headers: headers.iter().map(|(a, b)| (a.to_string(), b.to_string())).collect(),
    }
}

fn why(bytes: &[u8]) -> String {
    read_head(bytes).err().unwrap().message()
}

#[test]
fn published_bodies_are_not_compressed() {
    let gzip = request(&[("content-encoding", "gzip")]);
    assert!(receives("git-receive-pack"));
    assert!(!receives("git-upload-pack"));
    let e = check_encoding("git-receive-pack", &gzip).err().unwrap();
    assert_eq!(
        (e.status, e.message.as_str()),
        (415, "Compressed receive-pack requests are unsupported")
    );
    assert!(check_encoding("git-upload-pack", &gzip).is_ok());
    assert!(check_encoding("git-receive-pack", &request(&[])).is_ok());
    let identity = request(&[("Content-Encoding", "identity")]);
    assert!(check_encoding("git-receive-pack", &identity).is_ok());
}

#[test]
fn bodies_are_bounded_and_published_ones_have_a_budget() {
    let state = hub();
    let mut reading = GitBody::new(&state, None);
    assert!(reading.part(MIB as usize, 0).is_ok());
    assert_eq!(reading.copied, MIB);
    let e = reading.part(1, 0).err().unwrap();
    assert_eq!((e.status, e.message.as_str()), (413, "Git request exceeds upload limit"));
    let mut publishing =
        GitBody::new(&state, Some(UploadBudget { remaining: 10, reserve: 100 }));
    assert!(publishing.part(6, 200).is_ok());
    assert_eq!(publishing.part(5, 200).err().unwrap().status, 507);
    assert_eq!(publishing.part(4, 103).err().unwrap().status, 507);
    assert!(publishing.part(4, 104).is_ok());
    assert_eq!(publishing.copied, 10);
}

#[test]
fn git_runs_in_its_environment() {
    let repo =
        Repository { id: "id-1".to_owned(), owner: "ada".to_owned(), name: "notes".to_owned() };
    let asked = request(&[("Content-Type", "application/x-git"), ("git-protocol", "version=2")]);
    let env =
        smart_http(&hub(), "/srv/repos", &repo, "git-upload-pack", "a=b", &asked, 42, &None)
            .ok()
            .unwrap();
    let want = [
        ("GIT_PROJECT_ROOT", "/srv/repos"),
        ("GIT_HTTP_EXPORT_ALL", "1"),
        ("PATH_INFO", "/id-1.git/git-upload-pack"),
        ("QUERY_STRING", "a=b"),
        ("REQUEST_METHOD", "POST"),
        ("CONTENT_TYPE", "application/x-git"),
        ("CONTENT_LENGTH", "42"),
        ("REMOTE_USER", "ada"),
        ("GIT_PROTOCOL", "version=2"),
        ("HTTP_CONTENT_ENCODING", ""),
    ];
    let env: Vec<_> = env.iter().map(|(a, b)| (a.as_str(), b.as_str())).collect();
    assert_eq!(env, want);
}

#[test]
fn heads_give_a_status_and_headers() {
    let head = read_head(b"Expires: Fri\r\nstatus: 403 Forbidden\r\nA:b:c\r\n\r\nbody").ok().unwrap();
    assert_eq!(head.status, 403);
    assert_eq!(
        head.headers,
        vec![("Expires".to_owned(), "Fri".to_owned()), ("A".to_owned(), "b:c".to_owned())]
    );
    assert_eq!(head.offset, 46);
    let plain = read_head(b"\n").ok().unwrap();
    assert_eq!((plain.status, plain.offset), (200, 1));
}

#[test]
fn broken_heads_are_refused() {
    assert_eq!(why(b""), "Invalid Git CGI headers");
    assert_eq!(why(b"A: b\n"), "Invalid Git CGI headers");
    assert_eq!(why(b"no colon\n\n"), "Malformed Git CGI header");
    assert_eq!(why(b"A: \xff\n\n"), "stream did not contain valid UTF-8");
    assert_eq!(why(b"Status: x\n\n"), "invalid digit found in string");
    assert_eq!(why(b"Status: 65536\n\n"), "number too large to fit in target type");
    assert_eq!(why(b"Status:\n\n"), "cannot parse integer from empty string");
    let mut long = b"A: ".to_vec();
    long.extend(vec![b'x'; 16384]);
    long.extend_from_slice(b"\n\n");
    assert_eq!(why(&long), "Invalid Git CGI headers");
    long[16388] = 0xff;
    assert_eq!(why(&long), "Invalid Git CGI headers");
    long[16386] = 0xff;
    assert_eq!(why(&long), "stream did not contain valid UTF-8");
    assert_eq!(why("A: \u{e9}\n\n".as_bytes()), "Invalid CGI header");
    assert_eq!(why("\u{e9}: b\n\n".as_bytes()), "Invalid CGI header");
    let mut fits = b"A: ".to_vec();
    fits.extend(vec![b'x'; 16379]);
    fits.extend_from_slice(b"\n\n");
    assert_eq!(read_head(&fits).ok().unwrap().offset, 16384);
}

#[test]
fn requests_are_refused_in_order_before_git_runs() {
    let repo =
        Repository { id: "id-1".to_owned(), owner: "ada".to_owned(), name: "notes".to_owned() };
    let run = |suffix: &str, encoding: &str, copied: u64, fault: Option<GitError>| {
        let asked = request(&[("Content-Encoding", encoding)]);
        smart_http(&hub(), "/srv/repos", &repo, suffix, "", &asked, copied, &fault)
            .err()
            .map(|e| (e.status, e.message))
    };
    let fault = || Some(GitError::NotAtomic);
    let (push, fetch) = ("git-receive-pack", "git-upload-pack");
    assert_eq!(run(push, "gzip", MIB + 1, fault()).unwrap().0, 415);
    assert_eq!(
        run(push, "identity", MIB + 1, fault()).unwrap(),
        (413, "Git request exceeds upload limit".to_owned())
    );
    assert_eq!(
        run(push, "identity", MIB, fault()).unwrap(),
        (422, "Multiple ref updates require git push --atomic".to_owned())
    );
    assert_eq!(run(push, "identity", MIB, None), None);
    assert_eq!(run(fetch, "gzip", MIB + 1, None).unwrap().0, 413);
    assert_eq!(run(fetch, "gzip", MIB, fault()), None);
}

#[test]
fn heads_are_read_line_by_line() {
    let mut head = CgiHead::start();
    assert_eq!(head.take(b"Status: 404 Not Found\r\n"), Ok(false));
    assert_eq!(head.take(b"A: b\r\n"), Ok(false));
    assert_eq!(head.take(b"no colon\n").unwrap_err().message(), "Malformed Git CGI header");
    assert_eq!(head.take(b"\r\n"), Ok(true));
    assert_eq!((head.status, head.offset), (404, 31));
    assert_eq!(head.headers, vec![("A".to_owned(), "b".to_owned())]);
    assert_eq!(CgiHead::start().take(b"").unwrap_err().message(), "Invalid Git CGI headers");
}
