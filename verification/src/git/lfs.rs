//! The Git LFS batch API. An LFS object is a blob at its SHA-256 address.

use vstd::prelude::*;

use crate::store::memory::InMemoryStore;
use crate::store::state::StoreState;
use crate::text::{decimal, decimal_text, joined, joined3, same_text};

verus! {

/// A batch request.
#[derive(Debug)]
pub struct BatchRequest {
    pub operation: String,
    pub objects: Vec<LfsObject>,
    pub transfers: Vec<String>,
    pub r_ref: Option<LfsRef>,
}

/// An object that a request asks for.
#[derive(Debug)]
pub struct LfsObject {
    pub oid: String,
    pub size: u64,
}

/// The ref that a request is about.
#[derive(Debug)]
pub struct LfsRef {
    pub name: String,
}

/// The answer to a batch request.
#[derive(Debug)]
pub struct BatchResponse {
    pub transfer: String,
    pub objects: Vec<LfsObjectResponse>,
}

/// What to do with one object.
#[derive(Debug)]
pub struct LfsObjectResponse {
    pub oid: String,
    pub size: u64,
    pub actions: Option<LfsActions>,
    pub error: Option<LfsError>,
}

/// Where to get an object from or bring it to.
#[derive(Debug)]
pub struct LfsActions {
    pub download: Option<LfsAction>,
    pub upload: Option<LfsAction>,
    pub verify: Option<LfsAction>,
}

/// One place to go.
#[derive(Debug)]
pub struct LfsAction {
    pub href: String,
    pub expires_at: Option<String>,
}

/// Why nothing can be done with an object.
#[derive(Debug)]
pub struct LfsError {
    pub code: u16,
    pub message: String,
}

/// The address of an LFS object.
pub open spec fn lfs_kappa(oid: Seq<char>) -> Seq<char> {
    "sha256:"@ + oid
}

/// Where the content of an object is.
pub open spec fn blob_href(base_url: Seq<char>, repo: Seq<char>, oid: Seq<char>) -> Seq<char> {
    base_url + "/v2/"@ + repo + "/blobs/sha256:"@ + oid
}

/// Where an upload is verified.
pub open spec fn verify_href(base_url: Seq<char>, repo: Seq<char>) -> Seq<char> {
    base_url + "/"@ + repo + ".git/info/lfs/objects/verify"@
}

/// Whether an action leads to a place, without an expiry.
pub open spec fn leads_to(action: Option<LfsAction>, href: Seq<char>) -> bool {
    action matches Some(a) && a.href@ == href && a.expires_at is None
}

/// The answer for one object.
pub open spec fn answers(
    st: StoreState,
    base_url: Seq<char>,
    repo: Seq<char>,
    operation: Seq<char>,
    object: LfsObject,
    r: LfsObjectResponse,
) -> bool {
    let exists_now = st.blobs.dom().contains(lfs_kappa(object.oid@));
    &&& r.oid@ == object.oid@
    &&& r.size == object.size
    &&& if operation == "download"@ {
        if exists_now {
            &&& r.error is None
            &&& r.actions matches Some(a) && leads_to(
                a.download,
                blob_href(base_url, repo, object.oid@),
            ) && a.upload is None && a.verify is None
        } else {
            &&& r.actions is None
            &&& r.error matches Some(e) && e.code == 404 && e.message@ == "object not found"@
        }
    } else if operation == "upload"@ {
        if exists_now {
            r.actions is None && r.error is None
        } else {
            &&& r.error is None
            &&& r.actions matches Some(a) && a.download is None && leads_to(
                a.upload,
                blob_href(base_url, repo, object.oid@),
            ) && leads_to(a.verify, verify_href(base_url, repo))
        }
    } else {
        &&& r.actions is None
        &&& r.error matches Some(e) && e.code == 400 && e.message@ == "unsupported operation: "@
            + operation
    }
}

fn href_of(base_url: &str, repo: &str, oid: &str) -> (out: String)
    ensures
        out@ == blob_href(base_url@, repo@, oid@),
{
    let head = joined3(base_url, "/v2/", repo);
    joined3(head.as_str(), "/blobs/sha256:", oid)
}

fn answer(store: &InMemoryStore, base_url: &str, repo: &str, operation: &str, object: &LfsObject) -> (r: LfsObjectResponse)
    requires
        store.wf(),
    ensures
        answers(store.state(), base_url@, repo@, operation@, *object, r),
{
    proof {
        reveal_strlit("download");
        reveal_strlit("upload");
    }
    assert("download"@.len() != "upload"@.len());
    let kappa = joined("sha256:", object.oid.as_str());
    let exists_now = match store.blob_exists(kappa.as_str()) {
        Ok(b) => b,
        Err(_) => false,
    };
    let oid = object.oid.clone();
    let size: u64 = object.size;
    if same_text(operation, "download") {
        if exists_now {
            let action = LfsAction {
                href: href_of(base_url, repo, object.oid.as_str()),
                expires_at: None,
            };
            LfsObjectResponse {
                oid,
                size,
                actions: Some(LfsActions { download: Some(action), upload: None, verify: None }),
                error: None,
            }
        } else {
            LfsObjectResponse {
                oid,
                size,
                actions: None,
                error: Some(LfsError { code: 404, message: "object not found".to_owned() }),
            }
        }
    } else if same_text(operation, "upload") {
        if exists_now {
            LfsObjectResponse { oid, size, actions: None, error: None }
        } else {
            let upload = LfsAction {
                href: href_of(base_url, repo, object.oid.as_str()),
                expires_at: None,
            };
            let head = joined3(base_url, "/", repo);
            let verify = LfsAction {
                href: joined(head.as_str(), ".git/info/lfs/objects/verify"),
                expires_at: None,
            };
            LfsObjectResponse {
                oid,
                size,
                actions: Some(
                    LfsActions { download: None, upload: Some(upload), verify: Some(verify) },
                ),
                error: None,
            }
        }
    } else {
        LfsObjectResponse {
            oid,
            size,
            actions: None,
            error: Some(
                LfsError { code: 400, message: joined("unsupported operation: ", operation) },
            ),
        }
    }
}

/// Answers a batch request.
pub fn process_batch(store: &InMemoryStore, base_url: &str, repo: &str, request: &BatchRequest) -> (out: BatchResponse)
    requires
        store.wf(),
    ensures
        out.transfer@ == "basic"@,
        out.objects@.len() == request.objects@.len(),
        forall|i: int|
            0 <= i < out.objects@.len() ==> answers(
                store.state(),
                base_url@,
                repo@,
                request.operation@,
                request.objects@[i],
                #[trigger] out.objects@[i],
            ),
{
    let mut objects: Vec<LfsObjectResponse> = Vec::new();
    let mut i: usize = 0;
    while i < request.objects.len()
        invariant
            store.wf(),
            i <= request.objects@.len(),
            objects@.len() == i,
            forall|k: int|
                0 <= k < i ==> answers(
                    store.state(),
                    base_url@,
                    repo@,
                    request.operation@,
                    request.objects@[k],
                    #[trigger] objects@[k],
                ),
        decreases request.objects@.len() - i,
    {
        objects.push(
            answer(store, base_url, repo, request.operation.as_str(), &request.objects[i]),
        );
        i += 1;
    }
    BatchResponse { transfer: "basic".to_owned(), objects }
}

/// Checks that an object is there and has the expected size.
pub fn verify_object(store: &InMemoryStore, oid: &str, expected_size: u64) -> (out: Result<(), LfsError>)
    requires
        store.wf(),
    ensures
        ({
            let blobs = store.state().blobs;
            let k = lfs_kappa(oid@);
            match out {
                Ok(_) => blobs.dom().contains(k) && blobs[k].len() == expected_size,
                Err(e) => if !blobs.dom().contains(k) {
                    e.code == 404 && e.message@ == "object not found"@
                } else {
                    e.code == 422 && blobs[k].len() != expected_size && e.message@
                        == "size mismatch: expected "@ + decimal(expected_size as nat)
                        + ", actual "@ + decimal(blobs[k].len())
                },
            }
        }),
{
    let kappa = joined("sha256:", oid);
    let size: u64 = match store.blob_size(kappa.as_str()) {
        Ok(n) => n,
        Err(_) => return Err(LfsError { code: 404, message: "object not found".to_owned() }),
    };
    if size != expected_size {
        let want = decimal_text(expected_size);
        let is = decimal_text(size);
        let head = joined3("size mismatch: expected ", want.as_str(), ", actual ");
        return Err(LfsError { code: 422, message: joined(head.as_str(), is.as_str()) });
    }
    Ok(())
}

// -- Laws ---------------------------------------------------------------------------

/// A client that downloads is led to the content of every object that is stored,
/// and is told of every other that it is not found.
pub proof fn law_lfs_download(
    st: StoreState,
    base_url: Seq<char>,
    repo: Seq<char>,
    object: LfsObject,
    r: LfsObjectResponse,
)
    requires
        answers(st, base_url, repo, "download"@, object, r),
    ensures
        r.oid@ == object.oid@ && r.size == object.size,
        r.error is None <==> st.blobs.dom().contains("sha256:"@ + object.oid@),
        r.actions is Some <==> st.blobs.dom().contains("sha256:"@ + object.oid@),
        r.actions matches Some(a) ==> a.upload is None && (a.download matches Some(d) && d.href@
            == base_url + "/v2/"@ + repo + "/blobs/sha256:"@ + object.oid@),
        r.error matches Some(e) ==> e.code == 404,
{
}

/// A client that uploads is led to where every object goes that is not stored
/// yet, and where to have it verified; one that is stored needs nothing.
pub proof fn law_lfs_upload(
    st: StoreState,
    base_url: Seq<char>,
    repo: Seq<char>,
    object: LfsObject,
    r: LfsObjectResponse,
)
    requires
        answers(st, base_url, repo, "upload"@, object, r),
    ensures
        r.oid@ == object.oid@ && r.size == object.size,
        r.error is None,
        r.actions is None <==> st.blobs.dom().contains("sha256:"@ + object.oid@),
        r.actions matches Some(a) ==> a.download is None && (a.upload matches Some(u) && u.href@
            == base_url + "/v2/"@ + repo + "/blobs/sha256:"@ + object.oid@) && (
        a.verify matches Some(v) && v.href@ == base_url + "/"@ + repo
            + ".git/info/lfs/objects/verify"@),
{
    reveal_strlit("download");
    reveal_strlit("upload");
    assert("download"@.len() != "upload"@.len());
}

} // verus!
