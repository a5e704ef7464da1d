//! Server-side hooks: where their scripts are kept, what they are fed, and
//! what their exit means.

use vstd::prelude::*;
use vstd::string::*;
use vstd::utf8::encode_utf8;

use crate::bytes::append_bytes;
use crate::kappa::{kappa_from_bytes, kappa_of};
use crate::store::memory::InMemoryStore;
use crate::store::state::StoreState;
use crate::text::joined;
use crate::types::{NamespaceRef, StoreError};

verus! {

/// Why a hook did not accept.
#[derive(Debug)]
pub enum HookError {
    Rejected(String),
    Timeout(u64),
    NotFound(String),
    ExecutionFailed(String),
    Store(StoreError),
}

/// A ref that a push wants to move.
#[derive(Debug)]
pub struct RefUpdate {
    pub old_oid: String,
    pub new_oid: String,
    pub ref_name: String,
}

/// What became of a hook's process.
pub enum HookExit {
    /// It ended with this status, and wrote this to its error output.
    Ended { success: bool, status: String, stderr: String },
    /// It was still running when its time was up.
    TimedOut,
    /// It could not be run or waited for.
    Failed(String),
}

/// The tag that a hook's script is kept under.
pub open spec fn hook_tag(hook: Seq<char>) -> Seq<char> {
    "_hooks/"@ + hook
}

/// The script of a hook: absent, missing from the blobs, or there.
pub open spec fn hook_script(st: StoreState, ns: NamespaceRef, hook: Seq<char>) -> Option<
    Option<Seq<u8>>,
> {
    let k = StoreState::filed(ns, hook_tag(hook));
    if !st.tags.dom().contains(k) {
        None
    } else if !st.blobs.dom().contains(st.tags[k].kappa) {
        Some(None)
    } else {
        Some(Some(st.blobs[st.tags[k].kappa]))
    }
}

/// One line of a hook's input.
pub open spec fn hook_line(u: RefUpdate) -> Seq<u8> {
    encode_utf8(u.old_oid@) + seq![32u8] + encode_utf8(u.new_oid@) + seq![32u8] + encode_utf8(
        u.ref_name@,
    ) + seq![10u8]
}

/// A hook's input: one line per ref.
pub open spec fn hook_input(updates: Seq<RefUpdate>) -> Seq<u8>
    decreases updates.len(),
{
    if updates.len() == 0 {
        Seq::empty()
    } else {
        hook_input(updates.drop_last()) + hook_line(updates.last())
    }
}

/// Loads the script of a hook.
pub fn load_hook(store: &InMemoryStore, namespace: &NamespaceRef, hook_name: &str) -> (out: Result<
    Vec<u8>,
    HookError,
>)
    requires
        store.wf(),
    ensures
        match (out, hook_script(store.state(), *namespace, hook_name@)) {
            (Ok(script), Some(Some(s))) => script@ == s,
            (Err(HookError::NotFound(n)), None) => n@ == hook_name@,
            (Err(HookError::Store(StoreError::NotFound(_))), Some(None)) => true,
            _ => false,
        },
{
    let tag = joined("_hooks/", hook_name);
    let entry = match store.tag_get(namespace, tag.as_str()) {
        Ok(entry) => entry,
        Err(_) => return Err(HookError::NotFound(hook_name.to_owned())),
    };
    match store.blob_get(entry.kappa.as_str()) {
        Ok(script) => Ok(script),
        Err(e) => Err(HookError::Store(e)),
    }
}

/// The pre-receive script to run; none where there is none, which accepts.
pub fn pre_receive_script(store: &InMemoryStore, namespace: &NamespaceRef) -> (out: Result<
    Option<Vec<u8>>,
    HookError,
>)
    requires
        store.wf(),
    ensures
        match (out, hook_script(store.state(), *namespace, "pre-receive"@)) {
            (Ok(Some(script)), Some(Some(s))) => script@ == s,
            (Ok(None), None) => true,
            (Err(HookError::Store(_)), Some(None)) => true,
            _ => false,
        },
{
    match load_hook(store, namespace, "pre-receive") {
        Ok(script) => Ok(Some(script)),
        Err(HookError::NotFound(_)) => Ok(None),
        Err(e) => Err(e),
    }
}

/// The post-receive script to run; none where there is none to be had.
pub fn post_receive_script(store: &InMemoryStore, namespace: &NamespaceRef) -> (out: Option<Vec<u8>>)
    requires
        store.wf(),
    ensures
        match (out, hook_script(store.state(), *namespace, "post-receive"@)) {
            (Some(script), Some(Some(s))) => script@ == s,
            (None, Some(Some(_))) => false,
            (None, _) => true,
            _ => false,
        },
{
    match load_hook(store, namespace, "post-receive") {
        Ok(script) => Some(script),
        Err(_) => None,
    }
}

/// The input that a hook reads.
pub fn hook_stdin(updates: &[RefUpdate]) -> (out: Vec<u8>)
    ensures
        out@ == hook_input(updates@),
{
    let mut out: Vec<u8> = Vec::new();
    let mut i: usize = 0;
    assert(out@ =~= hook_input(updates@.take(0)));
    while i < updates.len()
        invariant
            i <= updates@.len(),
            out@ == hook_input(updates@.take(i as int)),
        decreases updates@.len() - i,
    {
        let ghost had = out@;
        let u = &updates[i];
        append_bytes(&mut out, u.old_oid.as_str().as_bytes());
        out.push(32);
        append_bytes(&mut out, u.new_oid.as_str().as_bytes());
        out.push(32);
        append_bytes(&mut out, u.ref_name.as_str().as_bytes());
        out.push(10);
        proof {
            assert(out@ =~= had + hook_line(*u));
            assert(updates@.take(i + 1).drop_last() =~= updates@.take(i as int));
            assert(updates@.take(i + 1).last() == updates@[i as int]);
        }
        i += 1;
    }
    assert(updates@.take(i as int) =~= updates@);
    out
}

/// What a pre-receive hook's exit means: success accepts, anything else does
/// not, with the error output as the reason where there is any.
pub fn hook_verdict(exit: HookExit, timeout_secs: u64) -> (out: Result<(), HookError>)
    ensures
        match (exit, out) {
            (HookExit::Ended { success, status, stderr }, Ok(_)) => success,
            (HookExit::Ended { success, status, stderr }, Err(HookError::Rejected(m))) => !success
                && m@ == (if stderr@.len() == 0 {
                "hook exited with status "@ + status@
            } else {
                stderr@
            }),
            (HookExit::TimedOut, Err(HookError::Timeout(t))) => t == timeout_secs,
            (HookExit::Failed(why), Err(HookError::ExecutionFailed(m))) => m@ == why@,
            _ => false,
        },
{
    match exit {
        HookExit::Ended { success, status, stderr } => {
            if success {
                Ok(())
            } else if stderr.as_str().is_empty() {
                Err(HookError::Rejected(joined("hook exited with status ", status.as_str())))
            } else {
                Err(HookError::Rejected(stderr))
            }
        },
        HookExit::TimedOut => Err(HookError::Timeout(timeout_secs)),
        HookExit::Failed(why) => Err(HookError::ExecutionFailed(why)),
    }
}

/// Stores the script of a hook.
pub fn store_hook(store: &mut InMemoryStore, namespace: &NamespaceRef, hook_name: &str, script: &[u8]) -> (out: Result<
    (),
    HookError,
>)
    requires
        old(store).wf(),
    ensures
        final(store).wf(),
        ({
            let stored = old(store).state().put_blob(kappa_of(script@), script@);
            match out {
                Ok(_) => stored.tag_version(*namespace, hook_tag(hook_name@)) < u64::MAX && final(
                    store).state() == stored.tag_set(
                    *namespace,
                    hook_tag(hook_name@),
                    kappa_of(script@),
                ),
                Err(e) => e is Store && stored.tag_version(*namespace, hook_tag(hook_name@))
                    == u64::MAX && final(store).state() == stored.ensured(*namespace),
            }
        }),
{
    let kappa = kappa_from_bytes(script);
    let _ = store.blob_put(kappa.as_str(), script);
    let tag = joined("_hooks/", hook_name);
    match store.tag_set(namespace, tag.as_str(), kappa.as_str()) {
        Ok(_) => Ok(()),
        Err(e) => Err(HookError::Store(e)),
    }
}

/// Deletes a hook.
pub fn delete_hook(store: &mut InMemoryStore, namespace: &NamespaceRef, hook_name: &str) -> (out: Result<
    (),
    HookError,
>)
    requires
        old(store).wf(),
    ensures
        final(store).wf(),
        final(store).state() == old(store).state().unbound(*namespace, hook_tag(hook_name@)),
        out is Ok,
{
    let tag = joined("_hooks/", hook_name);
    match store.tag_delete(namespace, tag.as_str()) {
        Ok(_) => Ok(()),
        Err(e) => Err(HookError::Store(e)),
    }
}

/// A hook that was stored is loaded, unless its address held something else.
pub proof fn law_hook_roundtrip(st: StoreState, ns: NamespaceRef, hook: Seq<char>, script: Seq<u8>)
    requires
        st.blobs.dom().contains(kappa_of(script)) ==> st.blobs[kappa_of(script)] == script,
    ensures
        hook_script(
            st.put_blob(kappa_of(script), script).tag_set(ns, hook_tag(hook), kappa_of(script)),
            ns,
            hook,
        ) == Some(Some(script)),
        hook_script(st.unbound(ns, hook_tag(hook)), ns, hook) is None,
{
}

/// A hook reads one line for each update, in their order: the old name, the new
/// name and the ref, with spaces between them.
pub proof fn law_hook_input(first: Seq<RefUpdate>, second: Seq<RefUpdate>, u: RefUpdate)
    ensures
        hook_input(seq![u]) == encode_utf8(u.old_oid@) + seq![32u8] + encode_utf8(u.new_oid@)
            + seq![32u8] + encode_utf8(u.ref_name@) + seq![10u8],
        hook_input(first + second) == hook_input(first) + hook_input(second),
    decreases second.len(),
{
    assert(seq![u].drop_last() =~= Seq::<RefUpdate>::empty());
    assert(hook_input(Seq::<RefUpdate>::empty()) + hook_line(u) =~= hook_line(u));
    if second.len() == 0 {
        assert(first + second =~= first);
        assert(hook_input(first) + Seq::<u8>::empty() =~= hook_input(first));
    } else {
        law_hook_input(first, second.drop_last(), u);
        assert((first + second).drop_last() =~= first + second.drop_last());
        assert((first + second).last() == second.last());
        assert(hook_input(first) + hook_input(second.drop_last()) + hook_line(second.last())
            =~= hook_input(first) + (hook_input(second.drop_last()) + hook_line(second.last())));
    }
}

} // verus!
