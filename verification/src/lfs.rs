//! Attachments that are stored beside a repository's history, by the hash of their content.
use crate::http::{body_json, error, json_body, json_reply, member_text, nothing_json, refusal,
    storage_error, string, ApiError, Refusal, Reply};
use crate::json::{as_natural, as_text, decoded, flag, get, items_in, items_under, json_of, jsons,
    lemma_not_in_object, lemma_object_of, list, member, members, natural, natural_in, object,
    object_of, pair, text, text_in, Json};
use crate::outside::{hex, hex_text, is_hex, sha256, taken, ContentHash};
use crate::space::{UploadBudget, UploadCopy, MIB};
use crate::state::{clone_url, Config, Repository, RepositoryView, State};
use crate::text::{after, append, before, chars_of, law_prefixes_and_suffixes_come_off, same,
    strip_prefix, strip_suffix};
use serde_json::Value;
use vstd::prelude::*;

verus! {

/// Whether a text names an object: the 64 lower-case hexadecimal digits of a SHA-256 hash.
pub open spec fn is_oid(oid: Seq<char>) -> bool {
    oid.len() == 64 && forall|i: int| 0 <= i < 64 ==> is_hex(#[trigger] oid[i])
}

/// Tells whether a text names an object.
pub fn valid_oid(oid: &str) -> (r: bool)
    ensures
        r == is_oid(oid@),
{
    let v = chars_of(oid);
    if v.len() != 64 {
        return false;
    }
    let mut i: usize = 0;
    while i < 64
        invariant
            i <= 64,
            v@ == oid@,
            v@.len() == 64,
            forall|k: int| 0 <= k < i ==> is_hex(#[trigger] oid@[k]),
        decreases 64 - i,
    {
        let c: char = v[i];
        if !(('0' <= c && c <= '9') || ('a' <= c && c <= 'f')) {
            assert(!is_hex(oid@[i as int]));
            return false;
        }
        i = i + 1;
    }
    true
}

/// Whether an upload of a size stays within the limit of the configuration.
pub open spec fn within_limit(config: Config, size: int) -> bool {
    size <= config.max_upload_mib * MIB
}

/// Tells whether an upload of a size stays within the limit of the configuration.
pub fn fits_limit(config: &Config, size: u64) -> (r: bool)
    ensures
        r == within_limit(*config, size as int),
{
    assert(config.max_upload_mib * MIB <= u64::MAX * MIB) by (nonlinear_arith)
        requires
            config.max_upload_mib <= u64::MAX,
            MIB == 1048576,
    ;
    size as u128 <= config.max_upload_mib as u128 * MIB as u128
}

// ---------------------------------------------------------------------------
// Routes
// ---------------------------------------------------------------------------

/// What a request below a repository's LFS path asks for.
#[derive(Debug)]
pub enum LfsRoute {
    Locking,
    Batch,
    Verify(String),
    Download(String),
    Upload(String),
}

/// What a request asks for, seen through its characters.
pub enum LfsRouteView {
    Locking,
    Batch,
    Verify(Seq<char>),
    Download(Seq<char>),
    Upload(Seq<char>),
}

impl View for LfsRoute {
    type V = LfsRouteView;

    open spec fn view(&self) -> LfsRouteView {
        match self {
            LfsRoute::Locking => LfsRouteView::Locking,
            LfsRoute::Batch => LfsRouteView::Batch,
            LfsRoute::Verify(oid) => LfsRouteView::Verify(oid@),
            LfsRoute::Download(oid) => LfsRouteView::Download(oid@),
            LfsRoute::Upload(oid) => LfsRouteView::Upload(oid@),
        }
    }
}

/// What a request asks for, or why it is refused.
pub open spec fn route_of(method: Seq<char>, path: Seq<char>) -> Result<LfsRouteView, Refusal> {
    if path == "info/lfs/locks/verify"@ {
        Ok(LfsRouteView::Locking)
    } else if path == "info/lfs/objects/batch"@ && method == "POST"@ {
        Ok(LfsRouteView::Batch)
    } else {
        match after(path, "info/lfs/objects/"@) {
            None => Err(refusal(404, "Unsupported LFS route"@)),
            Some(rest) => match before(rest, "/verify"@) {
                Some(oid) => if !is_oid(oid) {
                    Err(refusal(400, "Invalid LFS object id"@))
                } else if method == "POST"@ {
                    Ok(LfsRouteView::Verify(oid))
                } else {
                    Err(refusal(405, "Unsupported LFS method"@))
                },
                None => if !is_oid(rest) {
                    Err(refusal(400, "Invalid LFS object id"@))
                } else if method == "GET"@ {
                    Ok(LfsRouteView::Download(rest))
                } else if method == "PUT"@ {
                    Ok(LfsRouteView::Upload(rest))
                } else {
                    Err(refusal(405, "Unsupported LFS method"@))
                },
            },
        }
    }
}

/// Tells what a request below a repository's LFS path asks for.
pub fn lfs(method: &str, path: &str) -> (r: Result<LfsRoute, ApiError>)
    ensures
        match route_of(method@, path@) {
            Ok(route) => r is Ok && r->Ok_0@ == route,
            Err(e) => r is Err && r->Err_0@ == e,
        },
{
    if same(path, "info/lfs/locks/verify") {
        return Ok(LfsRoute::Locking);
    }
    if same(path, "info/lfs/objects/batch") && same(method, "POST") {
        return Ok(LfsRoute::Batch);
    }
    let rest = match strip_prefix(path, "info/lfs/objects/") {
        Some(rest) => rest,
        None => {
            return Err(error(404, "Unsupported LFS route"));
        },
    };
    match strip_suffix(rest.as_str(), "/verify") {
        Some(oid) => {
            if !valid_oid(oid.as_str()) {
                return Err(error(400, "Invalid LFS object id"));
            }
            if same(method, "POST") {
                Ok(LfsRoute::Verify(oid))
            } else {
                Err(error(405, "Unsupported LFS method"))
            }
        },
        None => {
            if !valid_oid(rest.as_str()) {
                return Err(error(400, "Invalid LFS object id"));
            }
            if same(method, "GET") {
                Ok(LfsRoute::Download(rest))
            } else if same(method, "PUT") {
                Ok(LfsRoute::Upload(rest))
            } else {
                Err(error(405, "Unsupported LFS method"))
            }
        },
    }
}

/// The reply to a request for a lock.
pub fn locking_reply() -> (r: Reply)
    ensures
        r@ == json_reply(
            404,
            Json::Object(object_of(seq![("message"@, Json::Text("locking is not supported"@))])),
        ),
{
    let pairs = vec![pair("message", text("locking is not supported"))];
    assert(members(pairs@) == seq![("message"@, Json::Text("locking is not supported"@))]);
    Reply::json(404, &object(pairs))
}

/// Refuses the download of an object that is not stored.
pub fn missing_object() -> (r: ApiError)
    ensures
        r@ == refusal(404, "LFS object not found"@),
{
    error(404, "LFS object not found")
}

// ---------------------------------------------------------------------------
// Batches
// ---------------------------------------------------------------------------

/// How many objects one batch may name.
pub const MAX_OBJECTS: usize = 1000;

/// The objects that a client wants to upload or to download.
pub struct Batch {
    pub upload: bool,
    pub objects: Vec<(String, u64)>,
}

/// The objects, seen through their characters.
pub open spec fn object_views(v: Seq<(String, u64)>) -> Seq<(Seq<char>, u64)> {
    Seq::new(v.len(), |i: int| (v[i].0@, v[i].1))
}

/// The object that an item of a batch names, or why the batch is refused.
pub open spec fn object_in(config: Config, item: Json) -> Result<(Seq<char>, u64), Refusal> {
    match member_text(item, "oid"@) {
        Err(e) => Err(e),
        Ok(oid) => match as_natural(member(item, "size"@)) {
            None => Err(refusal(400, "Invalid LFS size"@)),
            Some(size) => if !is_oid(oid) || !within_limit(config, size as int) {
                Err(refusal(413, "Invalid or oversized LFS object"@))
            } else {
                Ok((oid, size))
            },
        },
    }
}

/// The objects that the items of a batch name, or why the first unfit one is refused.
pub open spec fn objects_in(config: Config, items: Seq<Json>) -> Result<
    Seq<(Seq<char>, u64)>,
    Refusal,
>
    decreases items.len(),
{
    if items.len() == 0 {
        Ok(Seq::empty())
    } else {
        match objects_in(config, items.drop_last()) {
            Err(e) => Err(e),
            Ok(objects) => match object_in(config, items.last()) {
                Err(e) => Err(e),
                Ok(one) => Ok(objects.push(one)),
            },
        }
    }
}

/// What a batch asks for: whether to upload, and which objects; or why it is refused.
pub open spec fn batch_in(config: Config, body: Seq<u8>) -> Result<
    (bool, Seq<(Seq<char>, u64)>),
    Refusal,
> {
    match body_json(body) {
        Err(e) => Err(e),
        Ok(j) => match member_text(j, "operation"@) {
            Err(e) => Err(e),
            Ok(operation) => if operation != "upload"@ && operation != "download"@ {
                Err(refusal(422, "Unsupported LFS operation"@))
            } else {
                match member(j, "objects"@) {
                    Some(Json::List(items)) => if items.len() > MAX_OBJECTS {
                        Err(refusal(413, "Too many LFS objects"@))
                    } else {
                        match objects_in(config, items) {
                            Err(e) => Err(e),
                            Ok(objects) => Ok((operation == "upload"@, objects)),
                        }
                    },
                    _ => Err(refusal(400, "Missing LFS objects"@)),
                }
            },
        },
    }
}

proof fn lemma_objects_error_stays(config: Config, items: Seq<Json>, n: int)
    requires
        0 <= n <= items.len(),
        objects_in(config, items.take(n)) is Err,
    ensures
        objects_in(config, items) == objects_in(config, items.take(n)),
    decreases items.len(),
{
    if n == items.len() {
        assert(items.take(n) == items);
    } else {
        assert(items.drop_last().take(n) == items.take(n));
        lemma_objects_error_stays(config, items.drop_last(), n);
    }
}

fn read_object(config: &Config, item: &Value) -> (r: Result<(String, u64), ApiError>)
    ensures
        match object_in(*config, json_of(*item)) {
            Ok((oid, size)) => r is Ok && r->Ok_0.0@ == oid && r->Ok_0.1 == size,
            Err(e) => r is Err && r->Err_0@ == e,
        },
{
    let oid = match string(item, "oid") {
        Ok(oid) => oid,
        Err(e) => {
            return Err(e);
        },
    };
    let size: Option<u64> = match get(item, "size") {
        Some(v) => natural_in(v),
        None => None,
    };
    match size {
        None => Err(error(400, "Invalid LFS size")),
        Some(n) => if !valid_oid(oid.as_str()) || !fits_limit(config, n) {
            Err(error(413, "Invalid or oversized LFS object"))
        } else {
            Ok((oid, n))
        },
    }
}

/// Reads what a batch asks for.
pub fn read_batch(config: &Config, body: &[u8]) -> (r: Result<Batch, ApiError>)
    ensures
        match batch_in(*config, body@) {
            Ok((upload, objects)) => r is Ok && r->Ok_0.upload == upload && object_views(
                r->Ok_0.objects@,
            ) == objects,
            Err(e) => r is Err && r->Err_0@ == e,
        },
{
    let value = match json_body(body) {
        Ok(v) => v,
        Err(e) => {
            return Err(e);
        },
    };
    let operation = match string(&value, "operation") {
        Ok(o) => o,
        Err(e) => {
            return Err(e);
        },
    };
    let upload = same(operation.as_str(), "upload");
    if !upload && !same(operation.as_str(), "download") {
        return Err(error(422, "Unsupported LFS operation"));
    }
    let items = match get(&value, "objects") {
        Some(v) => match items_in(v) {
            Some(items) => items,
            None => {
                return Err(error(400, "Missing LFS objects"));
            },
        },
        None => {
            return Err(error(400, "Missing LFS objects"));
        },
    };
    if items.len() > MAX_OBJECTS {
        return Err(error(413, "Too many LFS objects"));
    }
    let ghost all = jsons(items@);
    let mut objects: Vec<(String, u64)> = Vec::new();
    let mut i: usize = 0;
    assert(object_views(objects@) == Seq::<(Seq<char>, u64)>::empty());
    while i < items.len()
        invariant
            i <= items@.len(),
            all == jsons(items@),
            all.len() <= MAX_OBJECTS,
            upload == (operation@ == "upload"@),
            batch_in(*config, body@) == (match objects_in(*config, all) {
                Err(e) => Err::<(bool, Seq<(Seq<char>, u64)>), Refusal>(e),
                Ok(o) => Ok((operation@ == "upload"@, o)),
            }),
            objects_in(*config, all.take(i as int)) == Ok::<Seq<(Seq<char>, u64)>, Refusal>(
                object_views(objects@),
            ),
        decreases items@.len() - i,
    {
        assert(all.take(i + 1).drop_last() == all.take(i as int));
        assert(all.take(i + 1).last() == json_of(items@[i as int]));
        match read_object(config, &items[i]) {
            Ok(one) => {
                let ghost past = objects@;
                objects.push(one);
                assert(object_views(objects@) == object_views(past).push((one.0@, one.1)));
            },
            Err(e) => {
                proof {
                    lemma_objects_error_stays(*config, all, i + 1);
                }
                return Err(e);
            },
        }
        i = i + 1;
    }
    assert(all.take(i as int) == all);
    Ok(Batch { upload, objects })
}

/// Where an object is uploaded to and downloaded from.
pub open spec fn object_url(config: Config, repo: RepositoryView, oid: Seq<char>) -> Seq<char> {
    clone_url(config, repo) + "/info/lfs/objects/"@ + oid
}

/// The headers that a client sends with an object's data.
pub open spec fn transfer_headers(repo: RepositoryView, access: Seq<char>) -> Json {
    Json::Object(
        object_of(
            seq![
                ("Authorization"@, Json::Text("Bearer "@ + access)),
                ("X-AgentGit-Expected-Agent-Id"@, Json::Text(repo.id)),
            ],
        ),
    )
}

/// One step of a transfer: where it goes, and with which headers.
pub open spec fn step_json(href: Seq<char>, headers: Json) -> Json {
    Json::Object(object_of(seq![("href"@, Json::Text(href)), ("header"@, headers)]))
}

/// What a batch answers for one object. An object that is stored is downloaded and not uploaded
/// again; one that is not stored is uploaded, and is missing for a download.
pub open spec fn object_json(
    config: Config,
    repo: RepositoryView,
    access: Seq<char>,
    upload: bool,
    oid: Seq<char>,
    size: u64,
    stored: bool,
) -> Json {
    let href = object_url(config, repo, oid);
    let headers = transfer_headers(repo, access);
    let named = seq![("oid"@, Json::Text(oid)), ("size"@, Json::Natural(size))];
    Json::Object(
        object_of(
            if !upload && stored {
                named + seq![
                    ("authenticated"@, Json::Flag(true)),
                    (
                        "actions"@,
                        Json::Object(object_of(seq![("download"@, step_json(href, headers))])),
                    ),
                ]
            } else if !upload {
                named + seq![
                    (
                        "error"@,
                        Json::Object(
                            object_of(
                                seq![
                                    ("code"@, Json::Natural(404)),
                                    ("message"@, Json::Text("LFS object is missing"@)),
                                ],
                            ),
                        ),
                    ),
                ]
            } else if stored {
                named
            } else {
                named + seq![
                    ("authenticated"@, Json::Flag(true)),
                    (
                        "actions"@,
                        Json::Object(
                            object_of(
                                seq![
                                    ("upload"@, step_json(href, headers)),
                                    ("verify"@, step_json(href + "/verify"@, headers)),
                                ],
                            ),
                        ),
                    ),
                ]
            },
        ),
    )
}

fn write_headers(repo: &Repository, access: &str) -> (r: Value)
    ensures
        json_of(r) == transfer_headers(repo@, access@),
{
    let mut bearer = "Bearer ".to_owned();
    append(&mut bearer, access);
    let pairs = vec![
        pair("Authorization", text(bearer.as_str())),
        pair("X-AgentGit-Expected-Agent-Id", text(repo.id.as_str())),
    ];
    assert(members(pairs@) == seq![
        ("Authorization"@, Json::Text("Bearer "@ + access@)),
        ("X-AgentGit-Expected-Agent-Id"@, Json::Text(repo@.id)),
    ]);
    object(pairs)
}

fn write_step(href: &str, headers: Value) -> (r: Value)
    ensures
        json_of(r) == step_json(href@, json_of(headers)),
{
    let pairs = vec![pair("href", text(href)), pair("header", headers)];
    assert(members(pairs@) == seq![("href"@, Json::Text(href@)), ("header"@, json_of(headers))]);
    object(pairs)
}

fn write_object(
    state: &State,
    repo: &Repository,
    access: &str,
    upload: bool,
    oid: &str,
    size: u64,
    stored: bool,
) -> (r: Value)
    ensures
        json_of(r) == object_json(state.config, repo@, access@, upload, oid@, size, stored),
{
    let mut href = state.repo_url(repo);
    append(&mut href, "/info/lfs/objects/");
    append(&mut href, oid);
    let ghost url = object_url(state.config, repo@, oid@);
    let ghost headers = transfer_headers(repo@, access@);
    let ghost named = seq![("oid"@, Json::Text(oid@)), ("size"@, Json::Natural(size))];
    let mut pairs = vec![pair("oid", text(oid)), pair("size", natural(size))];
    assert(members(pairs@) == named);
    if !upload && stored {
        let steps = vec![
            pair("download", write_step(href.as_str(), write_headers(repo, access))),
        ];
        assert(members(steps@) == seq![("download"@, step_json(url, headers))]);
        pairs.push(pair("authenticated", flag(true)));
        pairs.push(pair("actions", object(steps)));
        assert(members(pairs@) == named + seq![
            ("authenticated"@, Json::Flag(true)),
            (
                "actions"@,
                Json::Object(object_of(seq![("download"@, step_json(url, headers))])),
            ),
        ]);
    } else if !upload {
        let why = vec![
            pair("code", natural(404)),
            pair("message", text("LFS object is missing")),
        ];
        assert(members(why@) == seq![
            ("code"@, Json::Natural(404)),
            ("message"@, Json::Text("LFS object is missing"@)),
        ]);
        pairs.push(pair("error", object(why)));
        assert(members(pairs@) == named + seq![
            (
                "error"@,
                Json::Object(
                    object_of(
                        seq![
                            ("code"@, Json::Natural(404)),
                            ("message"@, Json::Text("LFS object is missing"@)),
                        ],
                    ),
                ),
            ),
        ]);
    } else if !stored {
        let mut verify = href.clone();
        append(&mut verify, "/verify");
        let steps = vec![
            pair("upload", write_step(href.as_str(), write_headers(repo, access))),
            pair("verify", write_step(verify.as_str(), write_headers(repo, access))),
        ];
        assert(members(steps@) == seq![
            ("upload"@, step_json(url, headers)),
            ("verify"@, step_json(url + "/verify"@, headers)),
        ]);
        pairs.push(pair("authenticated", flag(true)));
        pairs.push(pair("actions", object(steps)));
        assert(members(pairs@) == named + seq![
            ("authenticated"@, Json::Flag(true)),
            (
                "actions"@,
                Json::Object(
                    object_of(
                        seq![
                            ("upload"@, step_json(url, headers)),
                            ("verify"@, step_json(url + "/verify"@, headers)),
                        ],
                    ),
                ),
            ),
        ]);
    }
    object(pairs)
}

/// The answer to a batch.
pub open spec fn batch_json(
    config: Config,
    repo: RepositoryView,
    access: Seq<char>,
    upload: bool,
    objects: Seq<(Seq<char>, u64)>,
    stored: Seq<bool>,
) -> Json {
    Json::Object(
        object_of(
            seq![
                ("transfer"@, Json::Text("basic"@)),
                ("hash_algo"@, Json::Text("sha256"@)),
                (
                    "objects"@,
                    Json::List(
                        Seq::new(
                            objects.len(),
                            |i: int|
                                object_json(
                                    config,
                                    repo,
                                    access,
                                    upload,
                                    objects[i].0,
                                    objects[i].1,
                                    stored[i],
                                ),
                        ),
                    ),
                ),
            ],
        ),
    )
}

/// Answers a batch. `stored` tells of each object whether it is stored with its size.
pub fn batch_reply(
    state: &State,
    repo: &Repository,
    access: &str,
    batch: &Batch,
    stored: &Vec<bool>,
) -> (r: Reply)
    requires
        stored@.len() == batch.objects@.len(),
    ensures
        r@ == json_reply(
            200,
            batch_json(
                state.config,
                repo@,
                access@,
                batch.upload,
                object_views(batch.objects@),
                stored@,
            ),
        ),
{
    let ghost all = object_views(batch.objects@);
    let mut items: Vec<Value> = Vec::new();
    let mut i: usize = 0;
    while i < batch.objects.len()
        invariant
            i <= batch.objects@.len(),
            stored@.len() == batch.objects@.len(),
            all == object_views(batch.objects@),
            items@.len() == i,
            forall|k: int|
                0 <= k < i ==> json_of(#[trigger] items@[k]) == object_json(
                    state.config,
                    repo@,
                    access@,
                    batch.upload,
                    all[k].0,
                    all[k].1,
                    stored@[k],
                ),
        decreases batch.objects@.len() - i,
    {
        let oid = batch.objects[i].0.as_str();
        let size: u64 = batch.objects[i].1;
        items.push(write_object(state, repo, access, batch.upload, oid, size, stored[i]));
        i = i + 1;
    }
    let pairs = vec![
        pair("transfer", text("basic")),
        pair("hash_algo", text("sha256")),
        pair("objects", list(items)),
    ];
    assert(jsons(items@) == Seq::new(
        all.len(),
        |k: int|
            object_json(
                state.config,
                repo@,
                access@,
                batch.upload,
                all[k].0,
                all[k].1,
                stored@[k],
            ),
    ));
    assert(members(pairs@) == seq![
        ("transfer"@, Json::Text("basic"@)),
        ("hash_algo"@, Json::Text("sha256"@)),
        ("objects"@, Json::List(jsons(items@))),
    ]);
    Reply::json(200, &object(pairs))
}

// ---------------------------------------------------------------------------
// Verification and upload
// ---------------------------------------------------------------------------

/// Why an object is not verified: the request names another one, or the object is not stored with
/// the size that the request gives. `stored` is the size of what is stored.
pub open spec fn verification(body: Seq<u8>, oid: Seq<char>, stored: Option<u64>) -> Result<
    (),
    Refusal,
> {
    match body_json(body) {
        Err(e) => Err(e),
        Ok(j) => match as_natural(member(j, "size"@)) {
            None => Err(refusal(400, "Missing object size"@)),
            Some(size) => if as_text(member(j, "oid"@)) != Some(oid) || stored != Some(size) {
                Err(refusal(422, "LFS verification failed"@))
            } else {
                Ok(())
            },
        },
    }
}

/// Verifies that an object is stored.
pub fn verify_reply(body: &[u8], oid: &str, stored: Option<u64>) -> (r: Result<Reply, ApiError>)
    ensures
        match verification(body@, oid@, stored) {
            Ok(_) => r is Ok && r->Ok_0@ == json_reply(200, nothing_json()),
            Err(e) => r is Err && r->Err_0@ == e,
        },
{
    let value = match json_body(body) {
        Ok(v) => v,
        Err(e) => {
            return Err(e);
        },
    };
    let size: Option<u64> = match get(&value, "size") {
        Some(v) => natural_in(v),
        None => None,
    };
    let size: u64 = match size {
        Some(n) => n,
        None => {
            return Err(error(400, "Missing object size"));
        },
    };
    let named = match get(&value, "oid") {
        Some(v) => match text_in(v) {
            Some(s) => same(s, oid),
            None => false,
        },
        None => false,
    };
    let present = match stored {
        Some(n) => n == size,
        None => false,
    };
    if !named || !present {
        return Err(error(422, "LFS verification failed"));
    }
    Ok(crate::http::empty_reply(200))
}

/// An object that is being uploaded part by part.
pub struct LfsUpload {
    pub oid: String,
    pub max_upload_mib: u64,
    pub copy: UploadCopy,
    pub hash: ContentHash,
}

impl LfsUpload {
    /// What was taken is counted, and within the limit.
    pub open spec fn wf(self) -> bool {
        &&& self.copy.wf()
        &&& self.copy.total == taken(self.hash).len()
        &&& taken(self.hash).len() <= self.max_upload_mib * MIB
    }

    /// Starts an upload of an object within a budget.
    pub fn new(config: &Config, oid: String, budget: UploadBudget) -> (r: Self)
        ensures
            r.wf(),
            r.oid == oid,
            r.max_upload_mib == config.max_upload_mib,
            r.copy.budget == budget,
            taken(r.hash) == Seq::<u8>::empty(),
    {
        assert(0 <= config.max_upload_mib * MIB) by (nonlinear_arith)
            requires
                0 <= config.max_upload_mib,
                MIB == 1048576,
        ;
        LfsUpload {
            oid,
            max_upload_mib: config.max_upload_mib,
            copy: UploadCopy::new(budget),
            hash: ContentHash::new(),
        }
    }

    /// Why the next part of an upload is refused, given the free bytes of the filesystem.
    pub open spec fn part_refusal(self, size: int, available: int) -> Option<Refusal> {
        if taken(self.hash).len() + size > self.max_upload_mib * MIB {
            Some(refusal(413, "LFS object exceeds upload limit"@))
        } else if !self.copy.budget.fits(size, available) {
            Some(
                refusal(
                    507,
                    "Upload stopped before writing: Hub quota or filesystem reserve would be exceeded"@,
                ),
            )
        } else {
            None
        }
    }

    /// Takes the next part; it may be written only if this succeeds.
    pub fn part(&mut self, bytes: &[u8], available: u64) -> (r: Result<(), ApiError>)
        requires
            old(self).wf(),
        ensures
            final(self).wf(),
            final(self).oid == old(self).oid,
            final(self).max_upload_mib == old(self).max_upload_mib,
            match old(self).part_refusal(bytes@.len() as int, available as int) {
                None => r is Ok && taken(final(self).hash) == taken(old(self).hash) + bytes@
                    && final(self).copy.budget.remaining == old(self).copy.budget.remaining
                    - bytes@.len(),
                Some(e) => r is Err && r->Err_0@ == e && taken(final(self).hash) == taken(
                    old(self).hash,
                ) && final(self).copy.budget.remaining == old(self).copy.budget.remaining,
            },
            final(self).copy.budget.reserve == old(self).copy.budget.reserve,
    {
        assert(self.max_upload_mib * MIB <= u64::MAX * MIB) by (nonlinear_arith)
            requires
                self.max_upload_mib <= u64::MAX,
                MIB == 1048576,
        ;
        let limit: u128 = self.max_upload_mib as u128 * MIB as u128;
        if self.copy.total as u128 + bytes.len() as u128 > limit {
            return Err(error(413, "LFS object exceeds upload limit"));
        }
        match self.copy.copy_upload(bytes.len(), available) {
            Ok(_) => {},
            Err(e) => {
                return Err(storage_error(&e));
            },
        }
        self.hash.update(bytes);
        Ok(())
    }

    /// Ends the upload. The object is accepted if and only if its content has the hash that it is
    /// named by.
    pub fn finish(self) -> (r: Result<(), ApiError>)
        ensures
            if hex_text(sha256(taken(self.hash))) == self.oid@ {
                r is Ok
            } else {
                r is Err && r->Err_0@ == refusal(422, "LFS SHA-256 mismatch"@)
            },
    {
        let digest = self.hash.finish();
        let name = hex(digest.as_slice());
        if same(name.as_str(), self.oid.as_str()) {
            Ok(())
        } else {
            Err(error(422, "LFS SHA-256 mismatch"))
        }
    }
}

// ---------------------------------------------------------------------------
// Laws
// ---------------------------------------------------------------------------

proof fn lemma_oid_has_no_slash(oid: Seq<char>)
    requires
        is_oid(oid),
    ensures
        oid.len() == 64,
        before(oid, "/verify"@) is None,
        forall|i: int| 0 <= i < 64 ==> #[trigger] oid[i] != '/',
{
    reveal_strlit("/verify");
    assert forall|i: int| 0 <= i < 64 implies #[trigger] oid[i] != '/' by {
        assert(is_hex(oid[i]));
    }
    if "/verify"@.is_suffix_of(oid) {
        let end = oid.subrange(oid.len() - "/verify"@.len(), oid.len() as int);
        assert(end[0] == '/');
        assert(oid[57] == '/');
    }
}

/// Objects are served under their names: they are read, written and verified there. A name has
/// sixty-four lower-case hexadecimal digits, and no other one is served.
pub proof fn law_objects_are_served(oid: Seq<char>)
    ensures
        is_oid(oid) <==> oid.len() == 64 && forall|i: int|
            0 <= i < 64 ==> "0123456789abcdef"@.contains(#[trigger] oid[i]),
        is_oid(oid) ==> {
            &&& route_of("GET"@, "info/lfs/objects/"@ + oid) == Ok::<LfsRouteView, Refusal>(
                LfsRouteView::Download(oid),
            )
            &&& route_of("PUT"@, "info/lfs/objects/"@ + oid) == Ok::<LfsRouteView, Refusal>(
                LfsRouteView::Upload(oid),
            )
            &&& route_of("POST"@, "info/lfs/objects/"@ + oid + "/verify"@) == Ok::<
                LfsRouteView,
                Refusal,
            >(LfsRouteView::Verify(oid))
        },
        oid.len() != 5 && !is_oid(oid) && before(oid, "/verify"@) is None ==> forall|
            method: Seq<char>,
        | (#[trigger] route_of(method, "info/lfs/objects/"@ + oid)) is Err,
{
    reveal_strlit("0123456789abcdef");
    reveal_strlit("info/lfs/objects/");
    reveal_strlit("info/lfs/locks/verify");
    reveal_strlit("info/lfs/objects/batch");
    reveal_strlit("/verify");
    reveal_strlit("GET");
    reveal_strlit("PUT");
    reveal_strlit("POST");
    assert("GET"@.len() == 3 && "PUT"@.len() == 3 && "GET"@[0] != "PUT"@[0] && "POST"@.len() == 4);
    assert forall|c: char| is_hex(c) == #[trigger] "0123456789abcdef"@.contains(c) by {
        lemma_hex_digits(c);
    }
    if oid.len() == 64 {
        assert forall|i: int| 0 <= i < 64 implies is_hex(#[trigger] oid[i])
            == "0123456789abcdef"@.contains(oid[i]) by {}
    }
    let path = "info/lfs/objects/"@ + oid;
    law_prefixes_and_suffixes_come_off("info/lfs/objects/"@, oid, path);
    assert(path != "info/lfs/locks/verify"@) by {
        assert(path[9] == 'o');
        assert("info/lfs/locks/verify"@[9] == 'l');
    }
    assert(path.len() == 17 + oid.len());
    assert("info/lfs/objects/batch"@.len() == 22);
    if is_oid(oid) {
        lemma_oid_has_no_slash(oid);
        let behind = oid + "/verify"@;
        assert(path + "/verify"@ =~= "info/lfs/objects/"@ + behind);
        law_prefixes_and_suffixes_come_off("info/lfs/objects/"@, behind, path + "/verify"@);
        law_prefixes_and_suffixes_come_off(oid, "/verify"@, behind);
        assert((path + "/verify"@)[9] == 'o');
        assert((path + "/verify"@).len() == 88);
    }
}

proof fn lemma_hex_digits(c: char)
    ensures
        is_hex(c) == "0123456789abcdef"@.contains(c),
{
    reveal_strlit("0123456789abcdef");
    let all = "0123456789abcdef"@;
    if all.contains(c) {
        let i = choose|i: int| 0 <= i < all.len() && all[i] == c;
        assert(i == 0 || i == 1 || i == 2 || i == 3 || i == 4 || i == 5 || i == 6 || i == 7 || i
            == 8 || i == 9 || i == 10 || i == 11 || i == 12 || i == 13 || i == 14 || i == 15);
    }
    if is_hex(c) {
        assert(all[0] == '0' && all[1] == '1' && all[2] == '2' && all[3] == '3' && all[4] == '4'
            && all[5] == '5' && all[6] == '6' && all[7] == '7' && all[8] == '8' && all[9] == '9'
            && all[10] == 'a' && all[11] == 'b' && all[12] == 'c' && all[13] == 'd' && all[14]
            == 'e' && all[15] == 'f');
        assert(c == '0' || c == '1' || c == '2' || c == '3' || c == '4' || c == '5' || c == '6' || c
            == '7' || c == '8' || c == '9' || c == 'a' || c == 'b' || c == 'c' || c == 'd' || c
            == 'e' || c == 'f');
    }
}

/// Batches and the question for locks have their own places.
pub proof fn law_batches_and_locks_are_served(method: Seq<char>)
    ensures
        route_of(method, "info/lfs/locks/verify"@) == Ok::<LfsRouteView, Refusal>(
            LfsRouteView::Locking,
        ),
        route_of("POST"@, "info/lfs/objects/batch"@) == Ok::<LfsRouteView, Refusal>(
            LfsRouteView::Batch,
        ),
        method != "POST"@ ==> route_of(method, "info/lfs/objects/batch"@) is Err,
{
    reveal_strlit("info/lfs/locks/verify");
    reveal_strlit("info/lfs/objects/batch");
    reveal_strlit("info/lfs/objects/");
    reveal_strlit("/verify");
    assert("info/lfs/objects/batch"@[9] == 'o' && "info/lfs/locks/verify"@[9] == 'l');
    let rest = after("info/lfs/objects/batch"@, "info/lfs/objects/"@);
    if rest is Some {
        assert(rest->0.len() == 5);
    }
}

/// The object that an item names: its name and its size are taken from it as they are, where the
/// name is one and the size is within the limit; else the batch is refused.
pub proof fn law_batch_items_name_objects(config: Config, item: Json)
    ensures
        match object_in(config, item) {
            Ok((oid, size)) => {
                &&& member(item, "oid"@) == Some(Json::Text(oid))
                &&& member(item, "size"@) == Some(Json::Natural(size))
                &&& is_oid(oid)
                &&& size <= config.max_upload_mib * 1048576
            },
            Err(_) => forall|oid: Seq<char>, size: u64|
                member(item, "oid"@) == Some(Json::Text(oid)) && member(item, "size"@) == Some(
                    Json::Natural(size),
                ) ==> !(#[trigger] is_oid(oid)) || #[trigger] within_limit(config, size as int)
                    == false,
        },
        forall|size: int| #[trigger]
            within_limit(config, size) <==> size <= config.max_upload_mib * 1048576,
{
}

/// The objects of a batch are those of its items, each in its place; a bad one spoils it.
pub proof fn law_batches_name_their_objects(config: Config, items: Seq<Json>)
    ensures
        match objects_in(config, items) {
            Ok(objects) => objects.len() == items.len() && forall|i: int|
                0 <= i < items.len() ==> object_in(config, #[trigger] items[i]) == Ok::<
                    (Seq<char>, u64),
                    Refusal,
                >(objects[i]),
            Err(e) => exists|i: int|
                0 <= i < items.len() && object_in(config, #[trigger] items[i]) == Err::<
                    (Seq<char>, u64),
                    Refusal,
                >(e),
        },
    decreases items.len(),
{
    if items.len() > 0 {
        let init = items.drop_last();
        law_batches_name_their_objects(config, init);
        assert(items[items.len() - 1] == items.last());
        match objects_in(config, init) {
            Ok(past) => {
                if objects_in(config, items) is Ok {
                    let all = objects_in(config, items)->Ok_0;
                    assert forall|i: int| 0 <= i < items.len() implies object_in(
                        config,
                        #[trigger] items[i],
                    ) == Ok::<(Seq<char>, u64), Refusal>(all[i]) by {
                        if i < init.len() {
                            assert(init[i] == items[i]);
                            assert(all[i] == past[i]);
                        }
                    }
                }
            },
            Err(e) => {
                let i = choose|i: int|
                    0 <= i < init.len() && object_in(config, #[trigger] init[i]) == Err::<
                        (Seq<char>, u64),
                        Refusal,
                    >(e);
                assert(items[i] == init[i]);
            },
        }
    }
}

/// A batch is what its body says: uploads or downloads of at most a thousand objects.
pub proof fn law_batches_are_read(config: Config, body: Seq<u8>)
    ensures
        batch_in(config, body) matches Ok((upload, objects)) ==> {
            &&& body.len() <= 65536
            &&& decoded(body) is Some
            &&& member(decoded(body)->0, "operation"@) == Some(
                Json::Text(
                    if upload {
                        "upload"@
                    } else {
                        "download"@
                    },
                ),
            )
            &&& items_under(decoded(body)->0, "objects"@).len() <= 1000
            &&& objects_in(config, items_under(decoded(body)->0, "objects"@)) == Ok::<
                Seq<(Seq<char>, u64)>,
                Refusal,
            >(objects)
        },
{
    reveal_strlit("upload");
    reveal_strlit("download");
    assert("upload"@.len() == 6 && "download"@.len() == 8);
}

/// What a client is told of an object: where to bring it and have it verified, if it is to be
/// uploaded and is not there; where to get it, if it is to be downloaded and is there; that it is
/// missing, if it is to be downloaded and is not; and nothing more, if it is to be uploaded and is
/// there already. What it is told goes to the repository with the identity and the token.
pub proof fn law_what_a_client_is_told_of_an_object(
    config: Config,
    repo: RepositoryView,
    access: Seq<char>,
    upload: bool,
    oid: Seq<char>,
    size: u64,
    stored: bool,
)
    ensures
        ({
            let item = object_json(config, repo, access, upload, oid, size, stored);
            let actions = member(item, "actions"@);
            let place = config.public_url@ + "/"@ + repo.owner + "/"@ + repo.name
                + ".git/info/lfs/objects/"@ + oid;
            &&& member(item, "oid"@) == Some(Json::Text(oid))
            &&& member(item, "size"@) == Some(Json::Natural(size))
            &&& member(item, "error"@) is Some <==> !upload && !stored
            &&& actions is Some <==> upload != stored
            &&& upload && !stored ==> {
                &&& leads_to(member(actions->0, "upload"@), place, repo.id, access)
                &&& leads_to(member(actions->0, "verify"@), place + "/verify"@, repo.id, access)
                &&& member(actions->0, "download"@) is None
            }
            &&& !upload && stored ==> {
                &&& leads_to(member(actions->0, "download"@), place, repo.id, access)
                &&& member(actions->0, "upload"@) is None
            }
        }),
{
    reveal_strlit("oid");
    reveal_strlit("size");
    reveal_strlit("authenticated");
    reveal_strlit("actions");
    reveal_strlit("error");
    reveal_strlit("upload");
    reveal_strlit("verify");
    reveal_strlit("download");
    reveal_strlit(".git");
    reveal_strlit("/info/lfs/objects/");
    reveal_strlit(".git/info/lfs/objects/");
    let place = config.public_url@ + "/"@ + repo.owner + "/"@ + repo.name
        + ".git/info/lfs/objects/"@ + oid;
    let href = object_url(config, repo, oid);
    assert(".git"@ + "/info/lfs/objects/"@ =~= ".git/info/lfs/objects/"@);
    assert(href =~= place);
    let headers = transfer_headers(repo, access);
    lemma_step_json(href, repo, access);
    lemma_step_json(href + "/verify"@, repo, access);
    let down = seq![("download"@, step_json(href, headers))];
    let up = seq![
        ("upload"@, step_json(href, headers)),
        ("verify"@, step_json(href + "/verify"@, headers)),
    ];
    assert("upload"@.len() == 6 && "verify"@.len() == 6 && "upload"@[0] != "verify"@[0]
        && "download"@.len() == 8);
    lemma_object_of(down, 0);
    lemma_object_of(up, 0);
    lemma_object_of(up, 1);
    lemma_not_in_object(down, "upload"@);
    lemma_not_in_object(up, "download"@);
    let named = seq![("oid"@, Json::Text(oid)), ("size"@, Json::Natural(size))];
    assert("oid"@.len() == 3 && "size"@.len() == 4 && "authenticated"@.len() == 13 && "actions"@.len()
        == 7 && "error"@.len() == 5);
    let last = if !upload && !stored {
        seq![
            (
                "error"@,
                Json::Object(
                    object_of(
                        seq![
                            ("code"@, Json::Natural(404)),
                            ("message"@, Json::Text("LFS object is missing"@)),
                        ],
                    ),
                ),
            ),
        ]
    } else if !upload {
        seq![
            ("authenticated"@, Json::Flag(true)),
            ("actions"@, Json::Object(object_of(down))),
        ]
    } else if stored {
        Seq::<(Seq<char>, Json)>::empty()
    } else {
        seq![("authenticated"@, Json::Flag(true)), ("actions"@, Json::Object(object_of(up)))]
    };
    let pairs = named + last;
    assert(named + Seq::<(Seq<char>, Json)>::empty() =~= named);
    assert(object_json(config, repo, access, upload, oid, size, stored) == Json::Object(
        object_of(pairs),
    ));
    assert(pairs[0] == named[0] && pairs[1] == named[1]);
    lemma_object_of(pairs, 0);
    lemma_object_of(pairs, 1);
    if !upload && !stored {
        assert(pairs[2].0 == "error"@);
        lemma_object_of(pairs, 2);
        lemma_not_in_object(pairs, "actions"@);
    } else {
        lemma_not_in_object(pairs, "error"@);
        if upload != stored {
            assert(pairs[2].0 == "authenticated"@ && pairs[3].0 == "actions"@);
            lemma_object_of(pairs, 3);
        } else {
            lemma_not_in_object(pairs, "actions"@);
        }
    }
}

/// Whether a step leads to a place with the identity of a repository and an access token.
pub open spec fn leads_to(
    step: Option<Json>,
    place: Seq<char>,
    id: Seq<char>,
    access: Seq<char>,
) -> bool {
    &&& step is Some
    &&& member(step->0, "href"@) == Some(Json::Text(place))
    &&& member(step->0, "header"@) is Some
    &&& member(member(step->0, "header"@)->0, "Authorization"@) == Some(
        Json::Text("Bearer "@ + access),
    )
    &&& member(member(step->0, "header"@)->0, "X-AgentGit-Expected-Agent-Id"@) == Some(
        Json::Text(id),
    )
}

proof fn lemma_step_json(href: Seq<char>, repo: RepositoryView, access: Seq<char>)
    ensures
        leads_to(
            Some(step_json(href, transfer_headers(repo, access))),
            href,
            repo.id,
            access,
        ),
{
    reveal_strlit("href");
    reveal_strlit("header");
    reveal_strlit("Authorization");
    reveal_strlit("X-AgentGit-Expected-Agent-Id");
    let headers = seq![
        ("Authorization"@, Json::Text("Bearer "@ + access)),
        ("X-AgentGit-Expected-Agent-Id"@, Json::Text(repo.id)),
    ];
    let step = seq![("href"@, Json::Text(href)), ("header"@, transfer_headers(repo, access))];
    assert(headers[0].0.len() == 13 && headers[1].0.len() == 28);
    assert(step[0].0.len() == 4 && step[1].0.len() == 6);
    lemma_object_of(headers, 0);
    lemma_object_of(headers, 1);
    lemma_object_of(step, 0);
    lemma_object_of(step, 1);
}

/// The answer to a batch tells of each object, in the order of the batch.
pub proof fn law_batches_are_answered(
    config: Config,
    repo: RepositoryView,
    access: Seq<char>,
    upload: bool,
    objects: Seq<(Seq<char>, u64)>,
    stored: Seq<bool>,
)
    ensures
        ({
            let told = items_under(
                batch_json(config, repo, access, upload, objects, stored),
                "objects"@,
            );
            &&& told.len() == objects.len()
            &&& forall|i: int|
                0 <= i < objects.len() ==> #[trigger] told[i] == object_json(
                    config,
                    repo,
                    access,
                    upload,
                    objects[i].0,
                    objects[i].1,
                    stored[i],
                )
        }),
{
    let items = Seq::new(
        objects.len(),
        |i: int|
            object_json(config, repo, access, upload, objects[i].0, objects[i].1, stored[i]),
    );
    let pairs = seq![
        ("transfer"@, Json::Text("basic"@)),
        ("hash_algo"@, Json::Text("sha256"@)),
        ("objects"@, Json::List(items)),
    ];
    lemma_object_of(pairs, 2);
}

/// An object is verified exactly where the request names it, and it is stored with the size that
/// the request gives.
pub proof fn law_what_is_verified(body: Seq<u8>, oid: Seq<char>, stored: Option<u64>)
    ensures
        verification(body, oid, stored) is Ok <==> {
            &&& body.len() <= 65536
            &&& decoded(body) is Some
            &&& member(decoded(body)->0, "oid"@) == Some(Json::Text(oid))
            &&& stored is Some
            &&& member(decoded(body)->0, "size"@) == Some(Json::Natural(stored->0))
        },
{
}

/// An upload is refused by its next part exactly where that would exceed the limit of an object,
/// the quota or the reserve.
pub proof fn law_which_parts_are_refused(upload: LfsUpload, size: int, available: int)
    requires
        size > 0,
    ensures
        upload.part_refusal(size, available) is None <==> {
            &&& taken(upload.hash).len() + size <= upload.max_upload_mib * 1048576
            &&& size <= upload.copy.budget.remaining
            &&& available - size >= upload.copy.budget.reserve
        },
{
}

/// An upload is kept where its bytes hash to its name, and refused as unprocessable otherwise.
pub proof fn law_uploads_are_kept_by_their_hash(upload: LfsUpload, r: Result<(), ApiError>)
    requires
        call_ensures(LfsUpload::finish, (upload,), r),
    ensures
        r is Ok <==> upload.oid@ == hex_text(sha256(taken(upload.hash))),
        r matches Err(e) ==> e.status == 422,
{
}

/// An upload begins with nothing taken, under its own name and within its own bounds.
pub proof fn law_how_an_upload_begins(
    config: Config,
    oid: String,
    budget: UploadBudget,
    r: LfsUpload,
)
    requires
        call_ensures(LfsUpload::new, (&config, oid, budget), r),
    ensures
        taken(r.hash).len() == 0,
        r.oid@ == oid@,
        r.max_upload_mib == config.max_upload_mib,
        r.copy.budget.remaining == budget.remaining,
        r.copy.budget.reserve == budget.reserve,
{
}

/// Neither a lock nor an object that is not there is found.
pub proof fn law_what_is_not_found(locks: Reply, object: ApiError)
    requires
        call_ensures(locking_reply, (), locks),
        call_ensures(missing_object, (), object),
    ensures
        locks@.status == 404,
        object.status == 404,
{
}

} // verus!
