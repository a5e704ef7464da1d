//! The epoch root of a namespace, and where a tag stands in it.

use vstd::prelude::*;

use crate::store::memory::InMemoryStore;
use crate::store::state::StoreState;
use crate::text::{joined3, same_text, text_begins_with};
use crate::types::{NamespaceRef, StoreError, TagEntry, TagView};

verus! {

/// Whether a tag is public: its name does not begin with an underscore.
pub open spec fn is_public(tag: TagView) -> bool {
    !"_"@.is_prefix_of(tag.name)
}

/// The names of the public tags of a list, in their order.
pub open spec fn public_names(tags: Seq<TagView>) -> Seq<Seq<char>>
    decreases tags.len(),
{
    if tags.len() == 0 {
        Seq::empty()
    } else {
        let before = public_names(tags.drop_last());
        if is_public(tags.last()) {
            before.push(tags.last().name)
        } else {
            before
        }
    }
}

fn list_public(tags: &Vec<TagEntry>) -> (out: Vec<String>)
    ensures
        out.deep_view() == public_names(tags.deep_view()),
{
    let ghost all = tags.deep_view();
    let mut out: Vec<String> = Vec::new();
    let mut i: usize = 0;
    assert(all.take(0) =~= Seq::<TagView>::empty());
    assert(out.deep_view() =~= Seq::<Seq<char>>::empty());
    while i < tags.len()
        invariant
            i <= tags@.len(),
            all == tags.deep_view(),
            all.len() == tags@.len(),
            out.deep_view() == public_names(all.take(i as int)),
        decreases tags@.len() - i,
    {
        let ghost had = out.deep_view();
        proof {
            assert(all[i as int] == tags@[i as int].deep_view());
            assert(all.take(i + 1).drop_last() =~= all.take(i as int));
            assert(all.take(i + 1).last() == all[i as int]);
        }
        if !text_begins_with(tags[i].name.as_str(), "_") {
            out.push(tags[i].name.clone());
            assert(out.deep_view() =~= had.push(all[i as int].name));
        }
        i += 1;
    }
    assert(all.take(all.len() as int) =~= all);
    out
}

/// The latest epoch of a namespace, and the number of its public tags.
pub fn namespace_root(store: &InMemoryStore, ns: &NamespaceRef) -> (out: (Option<String>, usize))
    requires
        store.wf(),
    ensures
        out.0.deep_view() == store.state().epoch_current(*ns),
        exists|tags: Seq<TagView>| #[trigger]
            store.state().is_listing(*ns, Seq::empty(), tags) && out.1 == public_names(tags).len(),
{
    let root = match store.epoch_current(ns) {
        Ok(root) => root,
        Err(_) => None,
    };
    let tags = match store.tag_list(ns) {
        Ok(tags) => tags,
        Err(_) => Vec::new(),
    };
    let names = list_public(&tags);
    assert(names.deep_view().len() == names@.len());
    (root, names.len())
}

/// What a node signs of a root: the namespace, the root and the time, on a line
/// each.
pub fn root_message(ns: &NamespaceRef, root: &str, timestamp: &str) -> (out: String)
    ensures
        out@ == ns.shown() + "\n"@ + root@ + "\n"@ + timestamp@,
{
    let head = joined3(ns.as_str().as_str(), "\n", root);
    joined3(head.as_str(), "\n", timestamp)
}

/// Where a tag stands in the latest epoch of its namespace.
#[derive(Debug)]
pub struct TagPosition {
    pub root: String,
    pub epoch_number: u64,
    pub tag_index: usize,
    pub timestamp_ms: u64,
}

/// Where a tag stands in the latest epoch of its namespace: its position among
/// the public tags.
pub fn tag_position(store: &InMemoryStore, ns: &NamespaceRef, name: &str) -> (out: Result<
    TagPosition,
    StoreError,
>)
    requires
        store.wf(),
    ensures
        exists|tags: Seq<TagView>| #[trigger]
            store.state().is_listing(*ns, Seq::empty(), tags) && tag_placed(
                store.state(),
                *ns,
                tags,
                name@,
                out,
            ),
{
    let tags = match store.tag_list(ns) {
        Ok(tags) => tags,
        Err(_) => Vec::new(),
    };
    assert(store.state().is_listing(*ns, Seq::empty(), tags.deep_view()));
    let root = match store.epoch_current(ns) {
        Ok(Some(root)) => root,
        _ => return Err(StoreError::NotFound("no epoch root".to_owned())),
    };
    let epoch = match store.epoch_get(root.as_str()) {
        Ok(epoch) => epoch,
        Err(e) => return Err(e),
    };
    let names = list_public(&tags);
    let ghost all = names.deep_view();
    let mut i: usize = 0;
    while i < names.len()
        invariant
            i <= names@.len(),
            all == names.deep_view(),
            all.len() == names@.len(),
            all == public_names(tags.deep_view()),
            store.state().is_listing(*ns, Seq::empty(), tags.deep_view()),
            store.state().epoch_current(*ns) == Some(root@),
            store.state().epochs.dom().contains(root@),
            epoch.deep_view() == store.state().epochs[root@],
            forall|j: int| 0 <= j < i ==> #[trigger] all[j] != name@,
        decreases names@.len() - i,
    {
        assert(all[i as int] == names@[i as int]@);
        if same_text(names[i].as_str(), name) {
            return Ok(
                TagPosition {
                    root,
                    epoch_number: epoch.epoch_number,
                    tag_index: i,
                    timestamp_ms: epoch.timestamp_ms,
                },
            );
        }
        i += 1;
    }
    Err(StoreError::NotFound(joined3("tag ", name, " not found")))
}

/// Whether the position of a tag is as it should be, given the tags of the
/// namespace.
pub open spec fn tag_placed(
    st: StoreState,
    ns: NamespaceRef,
    tags: Seq<TagView>,
    name: Seq<char>,
    out: Result<TagPosition, StoreError>,
) -> bool {
    let names = public_names(tags);
    match st.epoch_current(ns) {
        None => out matches Err(StoreError::NotFound(m)) && m@ == "no epoch root"@,
        Some(root) => if !st.epochs.dom().contains(root) {
            out matches Err(StoreError::NotFound(m)) && m@ == root
        } else if !names.contains(name) {
            out matches Err(StoreError::NotFound(m)) && m@ == "tag "@ + name + " not found"@
        } else {
            out matches Ok(p) && p.root@ == root && p.epoch_number
                == st.epochs[root].epoch_number && p.timestamp_ms == st.epochs[root].timestamp_ms
                && p.tag_index < names.len() && names[p.tag_index as int] == name && (forall|j: int|
                0 <= j < p.tag_index ==> #[trigger] names[j] != name)
        },
    }
}

/// The names that count in an epoch root are those of the tags whose names do not
/// begin with an underscore.
pub proof fn law_public_names(tags: Seq<TagView>, name: Seq<char>)
    ensures
        public_names(tags).contains(name) <==> !"_"@.is_prefix_of(name) && exists|i: int|
            0 <= i < tags.len() && (#[trigger] tags[i]).name == name,
    decreases tags.len(),
{
    if tags.len() > 0 {
        let front = tags.drop_last();
        law_public_names(front, name);
        crate::git::walk::lemma_push_contains(public_names(front), tags.last().name, name);
        if exists|i: int| 0 <= i < tags.len() && (#[trigger] tags[i]).name == name {
            let i = choose|i: int| 0 <= i < tags.len() && (#[trigger] tags[i]).name == name;
            if i < front.len() {
                assert(front[i].name == name);
            }
        }
        if exists|i: int| 0 <= i < front.len() && (#[trigger] front[i]).name == name {
            let i = choose|i: int| 0 <= i < front.len() && (#[trigger] front[i]).name == name;
            assert(tags[i].name == name);
        }
        if tags.last().name == name {
            assert(tags[tags.len() - 1].name == name);
        }
    }
}

} // verus!
