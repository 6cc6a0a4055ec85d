//! The engine's backing store: content heads, revisions, field schema,
//! field values, comments, the per-item comment summary and user
//! accounts, with the operations of the revision store, the dynamic
//! field engine and the comment thread engine.
//!
//! Every operation takes a well-formed store to a well-formed store; the
//! well-formedness predicate `store_wf` pins down the engine's
//! invariants: unique identifiers, a head pointer that always references
//! one of its item's own revisions, unique thread paths per item, a
//! comment summary that equals the fresh aggregate, and contiguous
//! repeat indices for field values.

use vstd::prelude::*;

use crate::records::{
    Comment, CommentMode, CommentStatus, CommentView, CommentWithAuthor,
    CommentWithAuthorView, FieldInstanceJoined, FieldInstanceWithValue,
    FieldInstanceJoinedView, FieldValueRowView, FieldValueRow, Node, NodeCommentStatistics,
    NodeCommentStatisticsView, NodeField, NodeFieldInstance, NodeFieldInstanceView, NodeFieldView,
    NodeRevision, NodeRevisionView, NodeType, NodeTypeView, NodeView, NodeWithBody,
    NodeWithBodyView, User,
    UserView, clone_opt_string, opt_str,
};
use crate::thread::fresh_stats;
use crate::vancode::{lex_le, lex_lt};
use crate::CoreError;

verus! {

/// Mathematical image of the whole store.
#[verifier::ext_equal]
pub struct StoreView {
    pub node_types: Seq<NodeTypeView>,
    pub nodes: Seq<NodeView>,
    pub revisions: Seq<NodeRevisionView>,
    pub fields: Seq<NodeFieldView>,
    pub instances: Seq<NodeFieldInstanceView>,
    pub values: Seq<FieldValueRowView>,
    pub comments: Seq<CommentView>,
    pub stats: Seq<NodeCommentStatisticsView>,
    pub users: Seq<UserView>,
    pub next_nid: int,
    pub next_vid: int,
    pub next_cid: int,
    pub next_uid: int,
    pub next_iid: int,
}

/// The backing store of one site: an in-memory image of the engine's
/// tables, owned by the caller and passed into every operation.
pub struct Store {
    node_types: Vec<NodeType>,
    nodes: Vec<Node>,
    revisions: Vec<NodeRevision>,
    fields: Vec<NodeField>,
    instances: Vec<NodeFieldInstance>,
    values: Vec<FieldValueRow>,
    comments: Vec<Comment>,
    stats: Vec<NodeCommentStatistics>,
    users: Vec<User>,
    next_nid: u32,
    next_vid: u32,
    next_cid: u32,
    next_uid: u32,
    next_iid: u32,
}

impl View for Store {
    type V = StoreView;

    closed spec fn view(&self) -> StoreView {
        StoreView {
            node_types: self.node_types@.map_values(|x: NodeType| x@),
            nodes: self.nodes@.map_values(|x: Node| x@),
            revisions: self.revisions@.map_values(|x: NodeRevision| x@),
            fields: self.fields@.map_values(|x: NodeField| x@),
            instances: self.instances@.map_values(|x: NodeFieldInstance| x@),
            values: self.values@.map_values(|x: FieldValueRow| x@),
            comments: self.comments@.map_values(|x: Comment| x@),
            stats: self.stats@.map_values(|x: NodeCommentStatistics| x@),
            users: self.users@.map_values(|x: User| x@),
            next_nid: self.next_nid as int,
            next_vid: self.next_vid as int,
            next_cid: self.next_cid as int,
            next_uid: self.next_uid as int,
            next_iid: self.next_iid as int,
        }
    }
}

/// Sort key order of the comment table: by item, then by thread path
/// with the trailing `/` stripped, so the table is always in tree order.
pub open spec fn comment_le(a: CommentView, b: CommentView) -> bool {
    a.nid < b.nid || (a.nid == b.nid && lex_le(
        crate::thread::strip_slashes(a.thread),
        crate::thread::strip_slashes(b.thread),
    ))
}

/// Field instances are kept sorted by display weight, then label.
pub open spec fn instance_le(a: NodeFieldInstanceView, b: NodeFieldInstanceView) -> bool {
    a.weight < b.weight || (a.weight == b.weight && lex_le(a.label, b.label))
}

/// All identifiers are pairwise distinct.
pub open spec fn wf_unique(v: StoreView) -> bool {
    &&& forall|i: int, j: int|
        #![trigger v.node_types[i], v.node_types[j]]
        0 <= i < j < v.node_types.len() ==> v.node_types[i].type_key != v.node_types[j].type_key
    &&& forall|i: int, j: int|
        #![trigger v.nodes[i], v.nodes[j]]
        0 <= i < j < v.nodes.len() ==> v.nodes[i].nid != v.nodes[j].nid
    &&& forall|i: int, j: int|
        #![trigger v.revisions[i], v.revisions[j]]
        0 <= i < j < v.revisions.len() ==> v.revisions[i].vid != v.revisions[j].vid
    &&& forall|i: int, j: int|
        #![trigger v.fields[i], v.fields[j]]
        0 <= i < j < v.fields.len() ==> v.fields[i].field_name != v.fields[j].field_name
    &&& forall|i: int, j: int|
        #![trigger v.instances[i], v.instances[j]]
        0 <= i < j < v.instances.len() ==> !(v.instances[i].field_name
            == v.instances[j].field_name && v.instances[i].node_type == v.instances[j].node_type)
    &&& forall|i: int, j: int|
        #![trigger v.values[i], v.values[j]]
        0 <= i < j < v.values.len() ==> !(v.values[i].vid == v.values[j].vid
            && v.values[i].field_name == v.values[j].field_name && v.values[i].delta
            == v.values[j].delta)
    &&& forall|i: int, j: int|
        #![trigger v.comments[i], v.comments[j]]
        0 <= i < j < v.comments.len() ==> v.comments[i].cid != v.comments[j].cid
    &&& forall|i: int, j: int|
        #![trigger v.stats[i], v.stats[j]]
        0 <= i < j < v.stats.len() ==> v.stats[i].nid != v.stats[j].nid
    &&& forall|i: int, j: int|
        #![trigger v.users[i], v.users[j]]
        0 <= i < j < v.users.len() ==> v.users[i].uid != v.users[j].uid
}

/// Every assigned identifier lies below its high-water mark.
pub open spec fn wf_bounds(v: StoreView) -> bool {
    &&& 1 <= v.next_nid <= u32::MAX
    &&& 1 <= v.next_vid <= u32::MAX
    &&& 1 <= v.next_cid <= u32::MAX
    &&& 1 <= v.next_uid <= u32::MAX
    &&& 1 <= v.next_iid <= u32::MAX
    &&& forall|i: int| 0 <= i < v.nodes.len() ==> 1 <= #[trigger] v.nodes[i].nid < v.next_nid
    &&& forall|i: int|
        0 <= i < v.revisions.len() ==> 1 <= #[trigger] v.revisions[i].vid < v.next_vid
    &&& forall|i: int| 0 <= i < v.comments.len() ==> 1 <= #[trigger] v.comments[i].cid < v.next_cid
    &&& forall|i: int| 0 <= i < v.users.len() ==> 1 <= #[trigger] v.users[i].uid < v.next_uid
    &&& forall|i: int| 0 <= i < v.instances.len() ==> 1 <= #[trigger] v.instances[i].id < v.next_iid
}

/// Some revision in the list carries the given ids.
pub open spec fn has_revision(rs: Seq<NodeRevisionView>, vid: int, nid: int) -> bool {
    exists|j: int|
        0 <= j < rs.len() && (#[trigger] rs[j]).vid == vid && rs[j].nid == nid
}

/// The head pointer of every content item references one of its own
/// revisions.
pub open spec fn wf_heads(v: StoreView) -> bool {
    forall|i: int|
        0 <= i < v.nodes.len() ==> has_revision(
            v.revisions,
            (#[trigger] v.nodes[i]).vid,
            v.nodes[i].nid,
        )
}

/// No two comments of one content item share a thread path.
pub open spec fn wf_threads(v: StoreView) -> bool {
    forall|i: int, j: int|
        #![trigger v.comments[i], v.comments[j]]
        0 <= i < j < v.comments.len() ==> !(v.comments[i].nid == v.comments[j].nid
            && v.comments[i].thread == v.comments[j].thread)
}

/// The comment table is in sort key order: tree order per item.
pub open spec fn wf_comment_order(v: StoreView) -> bool {
    forall|i: int, j: int|
        #![trigger v.comments[i], v.comments[j]]
        0 <= i < j < v.comments.len() ==> comment_le(v.comments[i], v.comments[j])
}

/// The field instance table is in display order.
pub open spec fn wf_instance_order(v: StoreView) -> bool {
    forall|i: int, j: int|
        #![trigger v.instances[i], v.instances[j]]
        0 <= i < j < v.instances.len() ==> instance_le(v.instances[i], v.instances[j])
}

/// Every summary row equals the fresh aggregate over the comment table.
pub open spec fn wf_stats(v: StoreView) -> bool {
    forall|i: int|
        0 <= i < v.stats.len() ==> #[trigger] v.stats[i] == fresh_stats(
            v.comments,
            v.stats[i].nid,
        )
}

/// Repeat indices of stored field values are contiguous from zero and
/// below the engine's fixed cap.
pub open spec fn wf_deltas(v: StoreView) -> bool {
    &&& forall|i: int| 0 <= i < v.values.len() ==> 0 <= (#[trigger] v.values[i]).delta < 10
    &&& forall|i: int|
        0 <= i < v.values.len() && (#[trigger] v.values[i]).delta > 0 ==> exists|j: int|
            0 <= j < v.values.len() && (#[trigger] v.values[j]).vid == v.values[i].vid
                && v.values[j].field_name == v.values[i].field_name && v.values[j].delta
                == v.values[i].delta - 1
}

/// The store's full invariant.
pub open spec fn store_wf(v: StoreView) -> bool {
    &&& wf_unique(v)
    &&& wf_bounds(v)
    &&& wf_heads(v)
    &&& wf_threads(v)
    &&& wf_comment_order(v)
    &&& wf_instance_order(v)
    &&& wf_stats(v)
    &&& wf_deltas(v)
}

/// The empty store.
pub open spec fn empty_store() -> StoreView {
    StoreView {
        node_types: Seq::empty(),
        nodes: Seq::empty(),
        revisions: Seq::empty(),
        fields: Seq::empty(),
        instances: Seq::empty(),
        values: Seq::empty(),
        comments: Seq::empty(),
        stats: Seq::empty(),
        users: Seq::empty(),
        next_nid: 1,
        next_vid: 1,
        next_cid: 1,
        next_uid: 1,
        next_iid: 1,
    }
}

/// First content type with the given key.
pub open spec fn find_type(ts: Seq<NodeTypeView>, key: Seq<char>) -> Option<NodeTypeView>
    decreases ts.len(),
{
    if ts.len() == 0 {
        None
    } else if ts[0].type_key == key {
        Some(ts[0])
    } else {
        find_type(ts.drop_first(), key)
    }
}

/// First field definition with the given name.
pub open spec fn find_field_def(fs: Seq<NodeFieldView>, name: Seq<char>) -> Option<NodeFieldView>
    decreases fs.len(),
{
    if fs.len() == 0 {
        None
    } else if fs[0].field_name == name {
        Some(fs[0])
    } else {
        find_field_def(fs.drop_first(), name)
    }
}

/// First content head with the given id.
pub open spec fn find_node(ns: Seq<NodeView>, nid: int) -> Option<NodeView>
    decreases ns.len(),
{
    if ns.len() == 0 {
        None
    } else if ns[0].nid == nid {
        Some(ns[0])
    } else {
        find_node(ns.drop_first(), nid)
    }
}

/// First revision with the given id.
pub open spec fn find_revision(rs: Seq<NodeRevisionView>, vid: int) -> Option<NodeRevisionView>
    decreases rs.len(),
{
    if rs.len() == 0 {
        None
    } else if rs[0].vid == vid {
        Some(rs[0])
    } else {
        find_revision(rs.drop_first(), vid)
    }
}

/// First comment with the given id.
pub open spec fn find_comment_v(cs: Seq<CommentView>, cid: int) -> Option<CommentView>
    decreases cs.len(),
{
    if cs.len() == 0 {
        None
    } else if cs[0].cid == cid {
        Some(cs[0])
    } else {
        find_comment_v(cs.drop_first(), cid)
    }
}

/// First user account with the given id.
pub open spec fn find_user(us: Seq<UserView>, uid: int) -> Option<UserView>
    decreases us.len(),
{
    if us.len() == 0 {
        None
    } else if us[0].uid == uid {
        Some(us[0])
    } else {
        find_user(us.drop_first(), uid)
    }
}

impl Store {
    /// The store's invariant, over its mathematical image.
    pub open spec fn wf(&self) -> bool {
        store_wf(self@)
    }

    /// A fresh, empty store.
    pub fn new() -> (r: Store)
        ensures
            r@ == empty_store(),
            r.wf(),
    {
        let r = Store {
            node_types: Vec::new(),
            nodes: Vec::new(),
            revisions: Vec::new(),
            fields: Vec::new(),
            instances: Vec::new(),
            values: Vec::new(),
            comments: Vec::new(),
            stats: Vec::new(),
            users: Vec::new(),
            next_nid: 1,
            next_vid: 1,
            next_cid: 1,
            next_uid: 1,
            next_iid: 1,
        };
        proof {
            assert(r@ =~= empty_store());
        }
        r
    }
}


/// Head validity carries over between stores with the same heads and
/// revisions.
proof fn lemma_heads_same(v1: StoreView, v2: StoreView)
    requires
        wf_heads(v1),
        v2.nodes == v1.nodes,
        v2.revisions == v1.revisions,
    ensures
        wf_heads(v2),
{
    assert forall|i: int| 0 <= i < v2.nodes.len() implies has_revision(
        v2.revisions,
        (#[trigger] v2.nodes[i]).vid,
        v2.nodes[i].nid,
    ) by {
        assert(0 <= i < v1.nodes.len());
        assert(has_revision(v1.revisions, v1.nodes[i].vid, v1.nodes[i].nid));
    }
}

proof fn lemma_find_type_none(ts: Seq<NodeTypeView>, key: Seq<char>)
    ensures
        (find_type(ts, key) is None) <==> (forall|i: int|
            0 <= i < ts.len() ==> (#[trigger] ts[i]).type_key != key),
    decreases ts.len(),
{
    if ts.len() > 0 {
        let t = ts.drop_first();
        lemma_find_type_none(t, key);
        if find_type(ts, key) is None {
            assert forall|i: int| 0 <= i < ts.len() implies (#[trigger] ts[i]).type_key != key by {
                if i > 0 {
                    assert(t[i - 1] == ts[i]);
                }
            }
        }
        if forall|i: int| 0 <= i < ts.len() ==> (#[trigger] ts[i]).type_key != key {
            assert forall|j: int| 0 <= j < t.len() implies (#[trigger] t[j]).type_key != key by {
                assert(t[j] == ts[j + 1]);
            }
            assert(ts[0].type_key != key);
        }
    }
}

proof fn lemma_find_field_none(fs: Seq<NodeFieldView>, name: Seq<char>)
    ensures
        (find_field_def(fs, name) is None) <==> (forall|i: int|
            0 <= i < fs.len() ==> (#[trigger] fs[i]).field_name != name),
    decreases fs.len(),
{
    if fs.len() > 0 {
        let t = fs.drop_first();
        lemma_find_field_none(t, name);
        if find_field_def(fs, name) is None {
            assert forall|i: int| 0 <= i < fs.len() implies (#[trigger] fs[i]).field_name != name
                by {
                if i > 0 {
                    assert(t[i - 1] == fs[i]);
                }
            }
        }
        if forall|i: int| 0 <= i < fs.len() ==> (#[trigger] fs[i]).field_name != name {
            assert forall|j: int| 0 <= j < t.len() implies (#[trigger] t[j]).field_name != name by {
                assert(t[j] == fs[j + 1]);
            }
            assert(fs[0].field_name != name);
        }
    }
}

proof fn lemma_find_node_none(ns: Seq<NodeView>, nid: int)
    ensures
        (find_node(ns, nid) is None) <==> (forall|i: int|
            0 <= i < ns.len() ==> (#[trigger] ns[i]).nid != nid),
    decreases ns.len(),
{
    if ns.len() > 0 {
        let t = ns.drop_first();
        lemma_find_node_none(t, nid);
        if find_node(ns, nid) is None {
            assert forall|i: int| 0 <= i < ns.len() implies (#[trigger] ns[i]).nid != nid by {
                if i > 0 {
                    assert(t[i - 1] == ns[i]);
                }
            }
        }
        if forall|i: int| 0 <= i < ns.len() ==> (#[trigger] ns[i]).nid != nid {
            assert forall|j: int| 0 <= j < t.len() implies (#[trigger] t[j]).nid != nid by {
                assert(t[j] == ns[j + 1]);
            }
            assert(ns[0].nid != nid);
        }
    }
}

proof fn lemma_find_comment_none(cs: Seq<CommentView>, cid: int)
    ensures
        (find_comment_v(cs, cid) is None) <==> (forall|i: int|
            0 <= i < cs.len() ==> (#[trigger] cs[i]).cid != cid),
    decreases cs.len(),
{
    if cs.len() > 0 {
        let t = cs.drop_first();
        lemma_find_comment_none(t, cid);
        if find_comment_v(cs, cid) is None {
            assert forall|i: int| 0 <= i < cs.len() implies (#[trigger] cs[i]).cid != cid by {
                if i > 0 {
                    assert(t[i - 1] == cs[i]);
                }
            }
        }
        if forall|i: int| 0 <= i < cs.len() ==> (#[trigger] cs[i]).cid != cid {
            assert forall|j: int| 0 <= j < t.len() implies (#[trigger] t[j]).cid != cid by {
                assert(t[j] == cs[j + 1]);
            }
            assert(cs[0].cid != cid);
        }
    }
}

impl Store {
    fn type_index(&self, type_key: &str) -> (r: Option<usize>)
        ensures
            match r {
                Some(i) => i < self@.node_types.len() && self@.node_types[i as int].type_key
                    == type_key@ && find_type(self@.node_types, type_key@) == Some(
                    self@.node_types[i as int],
                ),
                None => find_type(self@.node_types, type_key@) is None,
            },
    {
        let ghost ts = self@.node_types;
        let n = self.node_types.len();
        let mut i: usize = 0;
        proof {
            assert(ts.skip(0) =~= ts);
        }
        while i < n
            invariant
                0 <= i <= n,
                n == self.node_types@.len(),
                ts == self@.node_types,
                find_type(ts, type_key@) == find_type(ts.skip(i as int), type_key@),
            decreases n - i,
        {
            proof {
                assert(ts.skip(i as int)[0] == ts[i as int]);
                assert(ts.skip(i as int).drop_first() =~= ts.skip(i as int + 1));
            }
            if crate::strutil::str_eq(self.node_types[i].type_key.as_str(), type_key) {
                return Some(i);
            }
            i = i + 1;
        }
        proof {
            assert(ts.skip(n as int).len() == 0);
        }
        None
    }

    /// Look a content type up by its key.
    pub fn find_node_type(&self, type_key: &str) -> (r: Option<NodeType>)
        ensures
            match r {
                Some(t) => find_type(self@.node_types, type_key@) == Some(t@),
                None => find_type(self@.node_types, type_key@) is None,
            },
    {
        match self.type_index(type_key) {
            Some(i) => Some(self.node_types[i].duplicate()),
            None => None,
        }
    }

    /// Register a content type. Rejects a key that is already taken.
    pub fn create_node_type(
        &mut self,
        type_key: &str,
        name: &str,
        description: &str,
        help: &str,
    ) -> (r: Result<(), CoreError>)
        requires
            old(self).wf(),
        ensures
            final(self).wf(),
            match r {
                Ok(()) => find_type(old(self)@.node_types, type_key@) is None && final(self)@
                    == (StoreView {
                    node_types: old(self)@.node_types.push(
                        NodeTypeView {
                            type_key: type_key@,
                            name: name@,
                            description: Some(description@),
                            help: Some(help@),
                        },
                    ),
                    ..old(self)@
                }),
                Err(e) => e == CoreError::ValidationError && find_type(
                    old(self)@.node_types,
                    type_key@,
                ) is Some && final(self)@ == old(self)@,
            },
    {
        if let Some(_) = self.type_index(type_key) {
            return Err(CoreError::ValidationError);
        }
        let ghost before = self@;
        self.node_types.push(
            NodeType {
                type_key: String::from_str(type_key),
                name: String::from_str(name),
                description: Some(String::from_str(description)),
                help: Some(String::from_str(help)),
            },
        );
        proof {
            let ntv = NodeTypeView {
                type_key: type_key@,
                name: name@,
                description: Some(description@),
                help: Some(help@),
            };
            assert(self@ =~= (StoreView { node_types: before.node_types.push(ntv), ..before }));
            lemma_find_type_none(before.node_types, type_key@);
            let ts = self@.node_types;
            assert forall|i: int, j: int| 0 <= i < j < ts.len() implies ts[i].type_key
                != ts[j].type_key by {
                if j < before.node_types.len() {
                    assert(ts[i] == before.node_types[i]);
                    assert(ts[j] == before.node_types[j]);
                } else {
                    assert(ts[i] == before.node_types[i]);
                    assert(ts[j] == ntv);
                }
            }
            lemma_heads_same(before, self@);
            assert(store_wf(self@));
        }
        Ok(())
    }

    /// Change a content type's display data. `NotFound` for an unknown key.
    pub fn update_node_type(
        &mut self,
        type_key: &str,
        name: &str,
        description: &str,
        help: &str,
    ) -> (r: Result<(), CoreError>)
        requires
            old(self).wf(),
        ensures
            final(self).wf(),
            match r {
                Ok(()) => exists|i: int|
                    0 <= i < old(self)@.node_types.len() && (#[trigger] old(
                        self,
                    )@.node_types[i]).type_key == type_key@ && final(self)@ == (StoreView {
                        node_types: old(self)@.node_types.update(
                            i,
                            NodeTypeView {
                                type_key: type_key@,
                                name: name@,
                                description: Some(description@),
                                help: Some(help@),
                            },
                        ),
                        ..old(self)@
                    }),
                Err(e) => e == CoreError::NotFound && find_type(
                    old(self)@.node_types,
                    type_key@,
                ) is None && final(self)@ == old(self)@,
            },
    {
        let i = match self.type_index(type_key) {
            Some(i) => i,
            None => {
                return Err(CoreError::NotFound);
            },
        };
        let ghost before = self@;
        let nt = NodeType {
            type_key: String::from_str(type_key),
            name: String::from_str(name),
            description: Some(String::from_str(description)),
            help: Some(String::from_str(help)),
        };
        self.node_types.set(i, nt);
        proof {
            let ntv = NodeTypeView {
                type_key: type_key@,
                name: name@,
                description: Some(description@),
                help: Some(help@),
            };
            assert(self@ =~= (StoreView {
                node_types: before.node_types.update(i as int, ntv),
                ..before
            }));
            let ts = self@.node_types;
            assert forall|a: int, b: int| 0 <= a < b < ts.len() implies ts[a].type_key
                != ts[b].type_key by {
                assert(before.node_types[a].type_key != before.node_types[b].type_key);
                assert(ts[a].type_key == before.node_types[a].type_key);
                assert(ts[b].type_key == before.node_types[b].type_key);
            }
            lemma_heads_same(before, self@);
            assert(store_wf(self@));
        }
        Ok(())
    }

    fn field_index(&self, field_name: &str) -> (r: Option<usize>)
        ensures
            match r {
                Some(i) => i < self@.fields.len() && self@.fields[i as int].field_name
                    == field_name@ && find_field_def(self@.fields, field_name@) == Some(
                    self@.fields[i as int],
                ),
                None => find_field_def(self@.fields, field_name@) is None,
            },
    {
        let ghost fs = self@.fields;
        let n = self.fields.len();
        let mut i: usize = 0;
        proof {
            assert(fs.skip(0) =~= fs);
        }
        while i < n
            invariant
                0 <= i <= n,
                n == self.fields@.len(),
                fs == self@.fields,
                find_field_def(fs, field_name@) == find_field_def(fs.skip(i as int), field_name@),
            decreases n - i,
        {
            proof {
                assert(fs.skip(i as int)[0] == fs[i as int]);
                assert(fs.skip(i as int).drop_first() =~= fs.skip(i as int + 1));
            }
            if crate::strutil::str_eq(self.fields[i].field_name.as_str(), field_name) {
                return Some(i);
            }
            i = i + 1;
        }
        proof {
            assert(fs.skip(n as int).len() == 0);
        }
        None
    }

    /// Look a field definition up by name.
    pub fn find_field(&self, field_name: &str) -> (r: Option<NodeField>)
        ensures
            match r {
                Some(f) => find_field_def(self@.fields, field_name@) == Some(f@),
                None => find_field_def(self@.fields, field_name@) is None,
            },
    {
        match self.field_index(field_name) {
            Some(i) => Some(self.fields[i].duplicate()),
            None => None,
        }
    }

    /// Define a field. Rejects a name that is already taken.
    pub fn create_field(
        &mut self,
        field_name: &str,
        field_type: &str,
        cardinality: i32,
        settings: Option<&str>,
    ) -> (r: Result<(), CoreError>)
        requires
            old(self).wf(),
        ensures
            final(self).wf(),
            match r {
                Ok(()) => find_field_def(old(self)@.fields, field_name@) is None && final(self)@
                    == (StoreView {
                    fields: old(self)@.fields.push(
                        NodeFieldView {
                            field_name: field_name@,
                            field_type: field_type@,
                            cardinality: cardinality as int,
                            settings: match settings {
                                Some(s) => Some(s@),
                                None => None,
                            },
                        },
                    ),
                    ..old(self)@
                }),
                Err(e) => e == CoreError::ValidationError && find_field_def(
                    old(self)@.fields,
                    field_name@,
                ) is Some && final(self)@ == old(self)@,
            },
    {
        if let Some(_) = self.field_index(field_name) {
            return Err(CoreError::ValidationError);
        }
        let ghost before = self@;
        let st: Option<String> = match settings {
            Some(s) => Some(String::from_str(s)),
            None => None,
        };
        self.fields.push(
            NodeField {
                field_name: String::from_str(field_name),
                field_type: String::from_str(field_type),
                cardinality: cardinality,
                settings: st,
            },
        );
        proof {
            let fv = NodeFieldView {
                field_name: field_name@,
                field_type: field_type@,
                cardinality: cardinality as int,
                settings: match settings {
                    Some(s) => Some(s@),
                    None => None,
                },
            };
            assert(self@ =~= (StoreView { fields: before.fields.push(fv), ..before }));
            lemma_find_field_none(before.fields, field_name@);
            let fs = self@.fields;
            assert forall|i: int, j: int| 0 <= i < j < fs.len() implies fs[i].field_name
                != fs[j].field_name by {
                if j < before.fields.len() {
                    assert(fs[i] == before.fields[i]);
                    assert(fs[j] == before.fields[j]);
                } else {
                    assert(fs[i] == before.fields[i]);
                    assert(fs[j] == fv);
                }
            }
            lemma_heads_same(before, self@);
            assert(store_wf(self@));
        }
        Ok(())
    }

    /// Create a user account and return its id.
    pub fn create_user(&mut self, name: &str, pass: &str, mail: &str, now: i64) -> (r: Result<
        u32,
        CoreError,
    >)
        requires
            old(self).wf(),
        ensures
            final(self).wf(),
            match r {
                Ok(uid) => old(self)@.next_uid < u32::MAX && uid == old(self)@.next_uid
                    && final(self)@ == (StoreView {
                    users: old(self)@.users.push(
                        UserView {
                            uid: old(self)@.next_uid,
                            name: name@,
                            pass: pass@,
                            mail: Some(mail@),
                            status: 1,
                            created: now as int,
                            login: 0,
                        },
                    ),
                    next_uid: old(self)@.next_uid + 1,
                    ..old(self)@
                }),
                Err(e) => e == CoreError::StorageFailure && old(self)@.next_uid == u32::MAX
                    && final(self)@ == old(self)@,
            },
    {
        if self.next_uid == u32::MAX {
            return Err(CoreError::StorageFailure);
        }
        let ghost before = self@;
        let uid = self.next_uid;
        self.users.push(
            User {
                uid: uid,
                name: String::from_str(name),
                pass: String::from_str(pass),
                mail: Some(String::from_str(mail)),
                status: 1,
                created: now,
                login: 0,
            },
        );
        self.next_uid = uid + 1;
        proof {
            let uv = UserView {
                uid: before.next_uid,
                name: name@,
                pass: pass@,
                mail: Some(mail@),
                status: 1,
                created: now as int,
                login: 0,
            };
            assert(self@ =~= (StoreView {
                users: before.users.push(uv),
                next_uid: before.next_uid + 1,
                ..before
            }));
            let us = self@.users;
            assert forall|i: int, j: int| 0 <= i < j < us.len() implies us[i].uid != us[j].uid by {
                if j < before.users.len() {
                    assert(us[i] == before.users[i]);
                    assert(us[j] == before.users[j]);
                } else {
                    assert(us[i] == before.users[i]);
                    assert(us[j] == uv);
                }
            }
            assert forall|i: int| 0 <= i < us.len() implies 1 <= #[trigger] us[i].uid
                < self@.next_uid by {
                if i < before.users.len() {
                    assert(us[i] == before.users[i]);
                }
            }
            lemma_heads_same(before, self@);
            assert(store_wf(self@));
        }
        Ok(uid)
    }
}


proof fn lemma_has_revision_push(rs: Seq<NodeRevisionView>, x: NodeRevisionView, vid: int, nid: int)
    requires
        has_revision(rs, vid, nid),
    ensures
        has_revision(rs.push(x), vid, nid),
{
    let j = choose|j: int| 0 <= j < rs.len() && (#[trigger] rs[j]).vid == vid && rs[j].nid == nid;
    assert(rs.push(x)[j] == rs[j]);
}

impl Store {
    fn node_index(&self, nid: u32) -> (r: Option<usize>)
        ensures
            match r {
                Some(i) => i < self@.nodes.len() && self@.nodes[i as int].nid == nid as int
                    && find_node(self@.nodes, nid as int) == Some(self@.nodes[i as int]),
                None => find_node(self@.nodes, nid as int) is None,
            },
    {
        let ghost ns = self@.nodes;
        let n = self.nodes.len();
        let mut i: usize = 0;
        proof {
            assert(ns.skip(0) =~= ns);
        }
        while i < n
            invariant
                0 <= i <= n,
                n == self.nodes@.len(),
                ns == self@.nodes,
                find_node(ns, nid as int) == find_node(ns.skip(i as int), nid as int),
            decreases n - i,
        {
            proof {
                assert(ns.skip(i as int)[0] == ns[i as int]);
                assert(ns.skip(i as int).drop_first() =~= ns.skip(i as int + 1));
            }
            if self.nodes[i].nid == nid {
                return Some(i);
            }
            i = i + 1;
        }
        proof {
            assert(ns.skip(n as int).len() == 0);
        }
        None
    }

    fn revision_index(&self, vid: u32) -> (r: Option<usize>)
        ensures
            match r {
                Some(i) => i < self@.revisions.len() && self@.revisions[i as int].vid == vid as int
                    && find_revision(self@.revisions, vid as int) == Some(
                    self@.revisions[i as int],
                ),
                None => find_revision(self@.revisions, vid as int) is None && forall|j: int|
                    0 <= j < self@.revisions.len() ==> (#[trigger] self@.revisions[j]).vid
                        != vid as int,
            },
    {
        let ghost rs = self@.revisions;
        let n = self.revisions.len();
        let mut i: usize = 0;
        proof {
            assert(rs.skip(0) =~= rs);
        }
        while i < n
            invariant
                0 <= i <= n,
                n == self.revisions@.len(),
                rs == self@.revisions,
                find_revision(rs, vid as int) == find_revision(rs.skip(i as int), vid as int),
                forall|j: int| 0 <= j < i ==> (#[trigger] rs[j]).vid != vid as int,
            decreases n - i,
        {
            proof {
                assert(rs.skip(i as int)[0] == rs[i as int]);
                assert(rs.skip(i as int).drop_first() =~= rs.skip(i as int + 1));
            }
            if self.revisions[i].vid == vid {
                return Some(i);
            }
            i = i + 1;
        }
        proof {
            assert(rs.skip(n as int).len() == 0);
        }
        None
    }

    fn user_index(&self, uid: u32) -> (r: Option<usize>)
        ensures
            match r {
                Some(i) => i < self@.users.len() && self@.users[i as int].uid == uid as int
                    && find_user(self@.users, uid as int) == Some(self@.users[i as int]),
                None => find_user(self@.users, uid as int) is None,
            },
    {
        let ghost us = self@.users;
        let n = self.users.len();
        let mut i: usize = 0;
        proof {
            assert(us.skip(0) =~= us);
        }
        while i < n
            invariant
                0 <= i <= n,
                n == self.users@.len(),
                us == self@.users,
                find_user(us, uid as int) == find_user(us.skip(i as int), uid as int),
            decreases n - i,
        {
            proof {
                assert(us.skip(i as int)[0] == us[i as int]);
                assert(us.skip(i as int).drop_first() =~= us.skip(i as int + 1));
            }
            if self.users[i].uid == uid {
                return Some(i);
            }
            i = i + 1;
        }
        proof {
            assert(us.skip(n as int).len() == 0);
        }
        None
    }

    /// Look a content head up by its id.
    pub fn find_by_nid(&self, nid: u32) -> (r: Option<Node>)
        ensures
            match r {
                Some(n) => find_node(self@.nodes, nid as int) == Some(n@),
                None => find_node(self@.nodes, nid as int) is None,
            },
    {
        match self.node_index(nid) {
            Some(i) => Some(self.nodes[i].duplicate()),
            None => None,
        }
    }

    /// Create a content item: the head record and its first revision, the
    /// head pointed at it. The teaser is derived from the excerpt source.
    ///
    /// Rejects an unknown content type before any write; fails only when
    /// the identifier space is exhausted.
    pub fn create_content(
        &mut self,
        node_type: &str,
        title: &str,
        body: &str,
        excerpt_source: &str,
        uid: u32,
        promote: bool,
        sticky: bool,
        now: i64,
    ) -> (r: Result<(u32, u32), CoreError>)
        requires
            old(self).wf(),
        ensures
            final(self).wf(),
            match r {
                Ok(ids) => {
                    &&& find_type(old(self)@.node_types, node_type@) is Some
                    &&& ids.0 == old(self)@.next_nid
                    &&& ids.1 == old(self)@.next_vid
                    &&& old(self)@.next_nid < u32::MAX
                    &&& old(self)@.next_vid < u32::MAX
                    &&& final(self)@ == (StoreView {
                        nodes: old(self)@.nodes.push(
                            NodeView {
                                nid: ids.0 as int,
                                vid: ids.1 as int,
                                node_type: node_type@,
                                title: title@,
                                uid: uid as int,
                                published: true,
                                created: now as int,
                                changed: now as int,
                                promote: promote,
                                sticky: sticky,
                                comment: CommentMode::ReadWrite,
                            },
                        ),
                        revisions: old(self)@.revisions.push(
                            NodeRevisionView {
                                vid: ids.1 as int,
                                nid: ids.0 as int,
                                uid: uid as int,
                                title: title@,
                                body: body@,
                                teaser: crate::text::teaser_chars(excerpt_source@),
                                timestamp: now as int,
                            },
                        ),
                        next_nid: old(self)@.next_nid + 1,
                        next_vid: old(self)@.next_vid + 1,
                        ..old(self)@
                    })
                },
                Err(e) => final(self)@ == old(self)@ && ((e == CoreError::ValidationError
                    && find_type(old(self)@.node_types, node_type@) is None) || (e
                    == CoreError::StorageFailure && find_type(
                    old(self)@.node_types,
                    node_type@,
                ) is Some && (old(self)@.next_nid == u32::MAX || old(self)@.next_vid
                    == u32::MAX))),
            },
    {
        if let None = self.type_index(node_type) {
            return Err(CoreError::ValidationError);
        }
        if self.next_nid == u32::MAX || self.next_vid == u32::MAX {
            return Err(CoreError::StorageFailure);
        }
        let ghost before = self@;
        let nid = self.next_nid;
        let vid = self.next_vid;
        let teaser = crate::text::teaser_excerpt(excerpt_source);
        self.nodes.push(
            Node {
                nid: nid,
                vid: vid,
                node_type: String::from_str(node_type),
                title: String::from_str(title),
                uid: uid,
                published: true,
                created: now,
                changed: now,
                promote: promote,
                sticky: sticky,
                comment: CommentMode::ReadWrite,
            },
        );
        self.revisions.push(
            NodeRevision {
                vid: vid,
                nid: nid,
                uid: uid,
                title: String::from_str(title),
                body: String::from_str(body),
                teaser: teaser,
                timestamp: now,
            },
        );
        self.next_nid = nid + 1;
        self.next_vid = vid + 1;
        proof {
            let nv = NodeView {
                nid: nid as int,
                vid: vid as int,
                node_type: node_type@,
                title: title@,
                uid: uid as int,
                published: true,
                created: now as int,
                changed: now as int,
                promote: promote,
                sticky: sticky,
                comment: CommentMode::ReadWrite,
            };
            let rv = NodeRevisionView {
                vid: vid as int,
                nid: nid as int,
                uid: uid as int,
                title: title@,
                body: body@,
                teaser: crate::text::teaser_chars(excerpt_source@),
                timestamp: now as int,
            };
            assert(self@ =~= (StoreView {
                nodes: before.nodes.push(nv),
                revisions: before.revisions.push(rv),
                next_nid: before.next_nid + 1,
                next_vid: before.next_vid + 1,
                ..before
            }));
            let ns = self@.nodes;
            let rs = self@.revisions;
            assert forall|i: int, j: int| 0 <= i < j < ns.len() implies ns[i].nid != ns[j].nid by {
                if j < before.nodes.len() {
                    assert(ns[i] == before.nodes[i]);
                    assert(ns[j] == before.nodes[j]);
                } else {
                    assert(ns[i] == before.nodes[i]);
                    assert(ns[j] == nv);
                }
            }
            assert forall|i: int, j: int| 0 <= i < j < rs.len() implies rs[i].vid != rs[j].vid by {
                if j < before.revisions.len() {
                    assert(rs[i] == before.revisions[i]);
                    assert(rs[j] == before.revisions[j]);
                } else {
                    assert(rs[i] == before.revisions[i]);
                    assert(rs[j] == rv);
                }
            }
            assert forall|i: int| 0 <= i < ns.len() implies 1 <= #[trigger] ns[i].nid
                < self@.next_nid by {
                if i < before.nodes.len() {
                    assert(ns[i] == before.nodes[i]);
                }
            }
            assert forall|i: int| 0 <= i < rs.len() implies 1 <= #[trigger] rs[i].vid
                < self@.next_vid by {
                if i < before.revisions.len() {
                    assert(rs[i] == before.revisions[i]);
                }
            }
            assert forall|i: int| 0 <= i < ns.len() implies has_revision(
                rs,
                (#[trigger] ns[i]).vid,
                ns[i].nid,
            ) by {
                if i < before.nodes.len() {
                    assert(ns[i] == before.nodes[i]);
                    assert(has_revision(before.revisions, ns[i].vid, ns[i].nid));
                    lemma_has_revision_push(before.revisions, rv, ns[i].vid, ns[i].nid);
                } else {
                    assert(ns[i] == nv);
                    assert(rs[rs.len() - 1] == rv);
                }
            }
            assert(store_wf(self@));
        }
        Ok((nid, vid))
    }

    /// Commit an edit: a new revision is created and the head repointed;
    /// no existing revision is touched. `NotFound` for an unknown item.
    pub fn update_content(
        &mut self,
        nid: u32,
        title: &str,
        body: &str,
        excerpt_source: &str,
        uid: u32,
        promote: bool,
        sticky: bool,
        now: i64,
    ) -> (r: Result<u32, CoreError>)
        requires
            old(self).wf(),
        ensures
            final(self).wf(),
            match r {
                Ok(vid) => {
                    &&& vid == old(self)@.next_vid
                    &&& old(self)@.next_vid < u32::MAX
                    &&& exists|i: int|
                        0 <= i < old(self)@.nodes.len() && (#[trigger] old(self)@.nodes[i]).nid
                            == nid as int && final(self)@ == (StoreView {
                            nodes: old(self)@.nodes.update(
                                i,
                                NodeView {
                                    vid: vid as int,
                                    title: title@,
                                    changed: now as int,
                                    promote: promote,
                                    sticky: sticky,
                                    ..old(self)@.nodes[i]
                                },
                            ),
                            revisions: old(self)@.revisions.push(
                                NodeRevisionView {
                                    vid: vid as int,
                                    nid: nid as int,
                                    uid: uid as int,
                                    title: title@,
                                    body: body@,
                                    teaser: crate::text::teaser_chars(excerpt_source@),
                                    timestamp: now as int,
                                },
                            ),
                            next_vid: old(self)@.next_vid + 1,
                            ..old(self)@
                        })
                },
                Err(e) => final(self)@ == old(self)@ && ((e == CoreError::NotFound && find_node(
                    old(self)@.nodes,
                    nid as int,
                ) is None) || (e == CoreError::StorageFailure && old(self)@.next_vid
                    == u32::MAX)),
            },
    {
        let i = match self.node_index(nid) {
            Some(i) => i,
            None => {
                return Err(CoreError::NotFound);
            },
        };
        if self.next_vid == u32::MAX {
            return Err(CoreError::StorageFailure);
        }
        let ghost before = self@;
        let vid = self.next_vid;
        let teaser = crate::text::teaser_excerpt(excerpt_source);
        let updated = Node {
            vid: vid,
            title: String::from_str(title),
            changed: now,
            promote: promote,
            sticky: sticky,
            ..self.nodes[i].duplicate()
        };
        self.nodes.set(i, updated);
        self.revisions.push(
            NodeRevision {
                vid: vid,
                nid: nid,
                uid: uid,
                title: String::from_str(title),
                body: String::from_str(body),
                teaser: teaser,
                timestamp: now,
            },
        );
        self.next_vid = vid + 1;
        proof {
            let nv = NodeView {
                vid: vid as int,
                title: title@,
                changed: now as int,
                promote: promote,
                sticky: sticky,
                ..before.nodes[i as int]
            };
            let rv = NodeRevisionView {
                vid: vid as int,
                nid: nid as int,
                uid: uid as int,
                title: title@,
                body: body@,
                teaser: crate::text::teaser_chars(excerpt_source@),
                timestamp: now as int,
            };
            assert(self@.nodes[i as int] =~= nv);
            assert(self@ =~= (StoreView {
                nodes: before.nodes.update(i as int, nv),
                revisions: before.revisions.push(rv),
                next_vid: before.next_vid + 1,
                ..before
            }));
            let ns = self@.nodes;
            let rs = self@.revisions;
            assert forall|a: int, b: int| 0 <= a < b < ns.len() implies ns[a].nid != ns[b].nid by {
                assert(before.nodes[a].nid != before.nodes[b].nid);
                assert(ns[a].nid == before.nodes[a].nid);
                assert(ns[b].nid == before.nodes[b].nid);
            }
            assert forall|a: int, b: int| 0 <= a < b < rs.len() implies rs[a].vid != rs[b].vid by {
                if b < before.revisions.len() {
                    assert(rs[a] == before.revisions[a]);
                    assert(rs[b] == before.revisions[b]);
                } else {
                    assert(rs[a] == before.revisions[a]);
                    assert(rs[b] == rv);
                }
            }
            assert forall|a: int| 0 <= a < ns.len() implies 1 <= #[trigger] ns[a].nid
                < self@.next_nid by {
                if a != i {
                    assert(ns[a] == before.nodes[a]);
                }
            }
            assert forall|a: int| 0 <= a < rs.len() implies 1 <= #[trigger] rs[a].vid
                < self@.next_vid by {
                if a < before.revisions.len() {
                    assert(rs[a] == before.revisions[a]);
                }
            }
            assert forall|a: int| 0 <= a < ns.len() implies has_revision(
                rs,
                (#[trigger] ns[a]).vid,
                ns[a].nid,
            ) by {
                if a != i {
                    assert(ns[a] == before.nodes[a]);
                    assert(has_revision(before.revisions, ns[a].vid, ns[a].nid));
                    lemma_has_revision_push(before.revisions, rv, ns[a].vid, ns[a].nid);
                } else {
                    assert(ns[a] == nv);
                    assert(rs[rs.len() - 1] == rv);
                }
            }
            assert(store_wf(self@));
        }
        Ok(vid)
    }

    /// Publish or unpublish a content item. `NotFound` for an unknown id.
    pub fn set_published(&mut self, nid: u32, published: bool) -> (r: Result<(), CoreError>)
        requires
            old(self).wf(),
        ensures
            final(self).wf(),
            match r {
                Ok(()) => exists|i: int|
                    0 <= i < old(self)@.nodes.len() && (#[trigger] old(self)@.nodes[i]).nid
                        == nid as int && final(self)@ == (StoreView {
                        nodes: old(self)@.nodes.update(
                            i,
                            NodeView { published: published, ..old(self)@.nodes[i] },
                        ),
                        ..old(self)@
                    }),
                Err(e) => e == CoreError::NotFound && find_node(old(self)@.nodes, nid as int)
                    is None && final(self)@ == old(self)@,
            },
    {
        let i = match self.node_index(nid) {
            Some(i) => i,
            None => {
                return Err(CoreError::NotFound);
            },
        };
        let ghost before = self@;
        let updated = Node { published: published, ..self.nodes[i].duplicate() };
        self.nodes.set(i, updated);
        proof {
            let nv = NodeView { published: published, ..before.nodes[i as int] };
            assert(self@.nodes[i as int] =~= nv);
            assert(self@ =~= (StoreView { nodes: before.nodes.update(i as int, nv), ..before }));
            let ns = self@.nodes;
            assert forall|a: int, b: int| 0 <= a < b < ns.len() implies ns[a].nid != ns[b].nid by {
                assert(before.nodes[a].nid != before.nodes[b].nid);
                assert(ns[a].nid == before.nodes[a].nid);
                assert(ns[b].nid == before.nodes[b].nid);
            }
            assert forall|a: int| 0 <= a < ns.len() implies 1 <= #[trigger] ns[a].nid
                < self@.next_nid by {
                if a != i {
                    assert(ns[a] == before.nodes[a]);
                }
            }
            assert forall|a: int| 0 <= a < ns.len() implies has_revision(
                self@.revisions,
                (#[trigger] ns[a]).vid,
                ns[a].nid,
            ) by {
                assert(ns[a].vid == before.nodes[a].vid && ns[a].nid == before.nodes[a].nid);
                assert(has_revision(before.revisions, before.nodes[a].vid, before.nodes[a].nid));
            }
            assert(store_wf(self@));
        }
        Ok(())
    }

    /// Set whether and how comments may be written on a content item.
    /// `NotFound` for an unknown id.
    pub fn set_comment_mode(&mut self, nid: u32, mode: CommentMode) -> (r: Result<(), CoreError>)
        requires
            old(self).wf(),
        ensures
            final(self).wf(),
            match r {
                Ok(()) => exists|i: int|
                    0 <= i < old(self)@.nodes.len() && (#[trigger] old(self)@.nodes[i]).nid
                        == nid as int && final(self)@ == (StoreView {
                        nodes: old(self)@.nodes.update(
                            i,
                            NodeView { comment: mode, ..old(self)@.nodes[i] },
                        ),
                        ..old(self)@
                    }),
                Err(e) => e == CoreError::NotFound && find_node(old(self)@.nodes, nid as int)
                    is None && final(self)@ == old(self)@,
            },
    {
        let i = match self.node_index(nid) {
            Some(i) => i,
            None => {
                return Err(CoreError::NotFound);
            },
        };
        let ghost before = self@;
        let updated = Node { comment: mode, ..self.nodes[i].duplicate() };
        self.nodes.set(i, updated);
        proof {
            let nv = NodeView { comment: mode, ..before.nodes[i as int] };
            assert(self@.nodes[i as int] =~= nv);
            assert(self@ =~= (StoreView { nodes: before.nodes.update(i as int, nv), ..before }));
            let ns = self@.nodes;
            assert forall|a: int, b: int| 0 <= a < b < ns.len() implies ns[a].nid != ns[b].nid by {
                assert(before.nodes[a].nid != before.nodes[b].nid);
                assert(ns[a].nid == before.nodes[a].nid);
                assert(ns[b].nid == before.nodes[b].nid);
            }
            assert forall|a: int| 0 <= a < ns.len() implies 1 <= #[trigger] ns[a].nid
                < self@.next_nid by {
                if a != i {
                    assert(ns[a] == before.nodes[a]);
                }
            }
            assert forall|a: int| 0 <= a < ns.len() implies has_revision(
                self@.revisions,
                (#[trigger] ns[a]).vid,
                ns[a].nid,
            ) by {
                assert(ns[a].vid == before.nodes[a].vid && ns[a].nid == before.nodes[a].nid);
                assert(has_revision(before.revisions, before.nodes[a].vid, before.nodes[a].nid));
            }
            assert(store_wf(self@));
        }
        Ok(())
    }

    /// A content head joined with its current revision and the author's
    /// account name.
    pub fn find_with_body(&self, nid: u32) -> (r: Option<NodeWithBody>)
        requires
            self.wf(),
        ensures
            match r {
                Some(w) => match find_node(self@.nodes, nid as int) {
                    Some(n) => {
                        &&& find_revision(self@.revisions, n.vid) is Some
                        &&& {
                            let rev = find_revision(self@.revisions, n.vid).unwrap();
                            w@ == (NodeWithBodyView {
                                nid: n.nid,
                                vid: n.vid,
                                node_type: n.node_type,
                                title: n.title,
                                uid: n.uid,
                                published: n.published,
                                created: n.created,
                                changed: n.changed,
                                promote: n.promote,
                                sticky: n.sticky,
                                comment: n.comment,
                                body: rev.body,
                                teaser: rev.teaser,
                                author_name: match find_user(self@.users, n.uid) {
                                    Some(u) => Some(u.name),
                                    None => None,
                                },
                            })
                        }
                    },
                    None => false,
                },
                None => find_node(self@.nodes, nid as int) is None,
            },
    {
        let i = match self.node_index(nid) {
            Some(i) => i,
            None => {
                return None;
            },
        };
        let node = &self.nodes[i];
        let j = match self.revision_index(node.vid) {
            Some(j) => j,
            None => {
                proof {
                    assert(has_revision(self@.revisions, self@.nodes[i as int].vid, self@.nodes[
                        i as int].nid));
                    let w = choose|w: int|
                        0 <= w < self@.revisions.len() && (#[trigger] self@.revisions[w]).vid
                            == self@.nodes[i as int].vid && self@.revisions[w].nid == self@.nodes[
                            i as int].nid;
                    assert(false);
                }
                return None;
            },
        };
        let rev = &self.revisions[j];
        let author_name: Option<String> = match self.user_index(node.uid) {
            Some(k) => Some(self.users[k].name.clone()),
            None => None,
        };
        let w = NodeWithBody {
            nid: node.nid,
            vid: node.vid,
            node_type: node.node_type.clone(),
            title: node.title.clone(),
            uid: node.uid,
            published: node.published,
            created: node.created,
            changed: node.changed,
            promote: node.promote,
            sticky: node.sticky,
            comment: node.comment,
            body: rev.body.clone(),
            teaser: rev.teaser.clone(),
            author_name: author_name,
        };
        proof {
            assert(find_revision(self@.revisions, self@.nodes[i as int].vid) == Some(
                self@.revisions[j as int],
            ));
        }
        Some(w)
    }
}


/// A pairwise property of a sequence carries to any filtered
/// subsequence, whose elements all come from the sequence.
proof fn lemma_filter_pairwise<A>(s: Seq<A>, pred: spec_fn(A) -> bool, p: spec_fn(A, A) -> bool)
    requires
        forall|i: int, j: int| 0 <= i < j < s.len() ==> #[trigger] p(s[i], s[j]),
    ensures
        forall|i: int, j: int|
            0 <= i < j < s.filter(pred).len() ==> #[trigger] p(
                s.filter(pred)[i],
                s.filter(pred)[j],
            ),
        forall|i: int| 0 <= i < s.filter(pred).len() ==> s.contains(#[trigger] s.filter(pred)[i]),
    decreases s.len(),
{
    reveal(Seq::filter);
    broadcast use vstd::seq_lib::group_filter_ensures;

    if s.len() > 0 {
        let t = s.drop_last();
        assert forall|i: int, j: int| 0 <= i < j < t.len() implies #[trigger] p(t[i], t[j]) by {
            assert(t[i] == s[i]);
            assert(t[j] == s[j]);
            assert(p(s[i], s[j]));
        }
        lemma_filter_pairwise(t, pred, p);
        let f = s.filter(pred);
        let ft = t.filter(pred);
        if pred(s.last()) {
            assert(f == ft.push(s.last()));
            assert forall|i: int, j: int| 0 <= i < j < f.len() implies #[trigger] p(f[i], f[j]) by {
                if j < ft.len() {
                    assert(f[i] == ft[i]);
                    assert(f[j] == ft[j]);
                    assert(p(ft[i], ft[j]));
                } else {
                    assert(f[j] == s.last());
                    assert(f[i] == ft[i]);
                    assert(t.contains(ft[i]));
                    let k = choose|k: int| 0 <= k < t.len() && t[k] == ft[i];
                    assert(t[k] == s[k]);
                    assert(p(s[k], s.last()));
                }
            }
            assert forall|i: int| 0 <= i < f.len() implies s.contains(#[trigger] f[i]) by {
                if i < ft.len() {
                    assert(f[i] == ft[i]);
                    assert(t.contains(ft[i]));
                    let k = choose|k: int| 0 <= k < t.len() && t[k] == ft[i];
                    assert(s[k] == f[i]);
                } else {
                    assert(f[i] == s.last());
                    assert(s[s.len() - 1] == s.last());
                }
            }
        } else {
            assert(f == ft);
            assert forall|i: int, j: int| 0 <= i < j < f.len() implies #[trigger] p(f[i], f[j]) by {
                assert(p(ft[i], ft[j]));
            }
            assert forall|i: int| 0 <= i < f.len() implies s.contains(#[trigger] f[i]) by {
                assert(t.contains(ft[i]));
                let k = choose|k: int| 0 <= k < t.len() && t[k] == ft[i];
                assert(s[k] == f[i]);
            }
        }
    }
}


impl Store {
    fn revision_of_node(&self, vid: u32, nid: u32) -> (r: bool)
        ensures
            r == has_revision(self@.revisions, vid as int, nid as int),
    {
        let ghost rs = self@.revisions;
        let n = self.revisions.len();
        let mut i: usize = 0;
        while i < n
            invariant
                0 <= i <= n,
                n == self.revisions@.len(),
                rs == self@.revisions,
                forall|j: int|
                    0 <= j < i ==> !((#[trigger] rs[j]).vid == vid as int && rs[j].nid
                        == nid as int),
            decreases n - i,
        {
            if self.revisions[i].vid == vid && self.revisions[i].nid == nid {
                proof {
                    assert(rs[i as int].vid == vid as int && rs[i as int].nid == nid as int);
                }
                return true;
            }
            i = i + 1;
        }
        false
    }

    /// Remove a content item with all its revisions and all field values
    /// referencing any of those revisions; comments are left in place.
    /// `NotFound` for an unknown id. Irreversible.
    #[verifier::rlimit(50)]
    pub fn delete_content(&mut self, nid: u32) -> (r: Result<(), CoreError>)
        requires
            old(self).wf(),
        ensures
            final(self).wf(),
            match r {
                Ok(()) => find_node(old(self)@.nodes, nid as int) is Some && final(self)@
                    == (StoreView {
                    nodes: old(self)@.nodes.filter(|n: NodeView| n.nid != nid as int),
                    revisions: old(self)@.revisions.filter(
                        |rv: NodeRevisionView| rv.nid != nid as int,
                    ),
                    values: old(self)@.values.filter(
                        |row: FieldValueRowView|
                            !has_revision(old(self)@.revisions, row.vid, nid as int),
                    ),
                    ..old(self)@
                }),
                Err(e) => e == CoreError::NotFound && find_node(old(self)@.nodes, nid as int)
                    is None && final(self)@ == old(self)@,
            },
    {
        if let None = self.node_index(nid) {
            return Err(CoreError::NotFound);
        }
        let ghost before = self@;
        let ghost predv = |row: FieldValueRowView| !has_revision(
            before.revisions,
            row.vid,
            nid as int,
        );
        let ghost predr = |rv: NodeRevisionView| rv.nid != nid as int;
        let ghost predn = |n: NodeView| n.nid != nid as int;

        let mut kept_values: Vec<FieldValueRow> = Vec::new();
        let mut i: usize = 0;
        proof {
            reveal(Seq::filter);
            assert(before.values.take(0) =~= Seq::<FieldValueRowView>::empty());
        }
        while i < self.values.len()
            invariant
                0 <= i <= self.values@.len(),
                self@ == before,
                predv == (|row: FieldValueRowView| !has_revision(
                    before.revisions,
                    row.vid,
                    nid as int,
                )),
                kept_values@.map_values(|x: FieldValueRow| x@) =~= before.values.take(
                    i as int,
                ).filter(predv),
            decreases self.values@.len() - i,
        {
            let keep = !self.revision_of_node(self.values[i].vid, nid);
            let ghost kv_before = kept_values@.map_values(|x: FieldValueRow| x@);
            if keep {
                kept_values.push(self.values[i].duplicate());
            }
            proof {
                reveal(Seq::filter);
                let t = before.values.take(i as int + 1);
                assert(t.drop_last() =~= before.values.take(i as int));
                assert(t.last() == before.values[i as int]);
                assert(predv(before.values[i as int]) == keep);
                if keep {
                    let kv = kept_values@.map_values(|x: FieldValueRow| x@);
                    assert(kv.drop_last() =~= kv_before);
                    assert(kv =~= kv_before.push(before.values[i as int]));
                }
            }
            i = i + 1;
        }
        proof {
            assert(before.values.take(self.values@.len() as int) =~= before.values);
        }
        self.values = kept_values;

        let mut kept_revisions: Vec<NodeRevision> = Vec::new();
        let mut j: usize = 0;
        proof {
            reveal(Seq::filter);
            assert(before.revisions.take(0) =~= Seq::<NodeRevisionView>::empty());
        }
        while j < self.revisions.len()
            invariant
                0 <= j <= self.revisions@.len(),
                self@.revisions == before.revisions,
                predr == (|rv: NodeRevisionView| rv.nid != nid as int),
                kept_revisions@.map_values(|x: NodeRevision| x@) =~= before.revisions.take(
                    j as int,
                ).filter(predr),
            decreases self.revisions@.len() - j,
        {
            let keep = self.revisions[j].nid != nid;
            let ghost kr_before = kept_revisions@.map_values(|x: NodeRevision| x@);
            if keep {
                kept_revisions.push(self.revisions[j].duplicate());
            }
            proof {
                reveal(Seq::filter);
                let t = before.revisions.take(j as int + 1);
                assert(t.drop_last() =~= before.revisions.take(j as int));
                assert(t.last() == before.revisions[j as int]);
                assert(predr(before.revisions[j as int]) == keep);
                if keep {
                    let kr = kept_revisions@.map_values(|x: NodeRevision| x@);
                    assert(kr.drop_last() =~= kr_before);
                    assert(kr =~= kr_before.push(before.revisions[j as int]));
                }
            }
            j = j + 1;
        }
        proof {
            assert(before.revisions.take(self.revisions@.len() as int) =~= before.revisions);
        }
        self.revisions = kept_revisions;

        let mut kept_nodes: Vec<Node> = Vec::new();
        let mut k: usize = 0;
        proof {
            reveal(Seq::filter);
            assert(before.nodes.take(0) =~= Seq::<NodeView>::empty());
        }
        while k < self.nodes.len()
            invariant
                0 <= k <= self.nodes@.len(),
                self@.nodes == before.nodes,
                predn == (|n: NodeView| n.nid != nid as int),
                kept_nodes@.map_values(|x: Node| x@) =~= before.nodes.take(k as int).filter(predn),
            decreases self.nodes@.len() - k,
        {
            let keep = self.nodes[k].nid != nid;
            let ghost kn_before = kept_nodes@.map_values(|x: Node| x@);
            if keep {
                kept_nodes.push(self.nodes[k].duplicate());
            }
            proof {
                reveal(Seq::filter);
                let t = before.nodes.take(k as int + 1);
                assert(t.drop_last() =~= before.nodes.take(k as int));
                assert(t.last() == before.nodes[k as int]);
                assert(predn(before.nodes[k as int]) == keep);
                if keep {
                    let kn = kept_nodes@.map_values(|x: Node| x@);
                    assert(kn.drop_last() =~= kn_before);
                    assert(kn =~= kn_before.push(before.nodes[k as int]));
                }
            }
            k = k + 1;
        }
        proof {
            assert(before.nodes.take(self.nodes@.len() as int) =~= before.nodes);
        }
        self.nodes = kept_nodes;

        proof {
            broadcast use vstd::seq_lib::group_filter_ensures;

            assert(self@ =~= (StoreView {
                nodes: before.nodes.filter(predn),
                revisions: before.revisions.filter(predr),
                values: before.values.filter(predv),
                ..before
            }));
            let ns = self@.nodes;
            let rs = self@.revisions;
            let vs = self@.values;
            let pn = |a: NodeView, b: NodeView| a.nid != b.nid;
            let pr = |a: NodeRevisionView, b: NodeRevisionView| a.vid != b.vid;
            let pv = |a: FieldValueRowView, b: FieldValueRowView|
                !(a.vid == b.vid && a.field_name == b.field_name && a.delta == b.delta);
            lemma_filter_pairwise(before.nodes, predn, pn);
            lemma_filter_pairwise(before.revisions, predr, pr);
            lemma_filter_pairwise(before.values, predv, pv);
            assert forall|a: int, b: int| 0 <= a < b < ns.len() implies ns[a].nid != ns[b].nid by {
                assert(pn(ns[a], ns[b]));
            }
            assert forall|a: int, b: int| 0 <= a < b < rs.len() implies rs[a].vid != rs[b].vid by {
                assert(pr(rs[a], rs[b]));
            }
            assert forall|a: int, b: int| 0 <= a < b < vs.len() implies !(vs[a].vid == vs[b].vid
                && vs[a].field_name == vs[b].field_name && vs[a].delta == vs[b].delta) by {
                assert(pv(vs[a], vs[b]));
            }
            assert forall|a: int| 0 <= a < ns.len() implies 1 <= (#[trigger] ns[a]).nid
                < self@.next_nid by {
                assert(before.nodes.contains(ns[a]));
                let w = choose|w: int| 0 <= w < before.nodes.len() && before.nodes[w] == ns[a];
            }
            assert forall|a: int| 0 <= a < rs.len() implies 1 <= (#[trigger] rs[a]).vid
                < self@.next_vid by {
                assert(before.revisions.contains(rs[a]));
                let w = choose|w: int|
                    0 <= w < before.revisions.len() && before.revisions[w] == rs[a];
            }
            assert forall|a: int| 0 <= a < ns.len() implies has_revision(
                rs,
                (#[trigger] ns[a]).vid,
                ns[a].nid,
            ) by {
                assert(before.nodes.contains(ns[a]));
                assert(predn(ns[a]));
                let w = choose|w: int| 0 <= w < before.nodes.len() && before.nodes[w] == ns[a];
                assert(has_revision(before.revisions, ns[a].vid, ns[a].nid));
                let m = choose|m: int|
                    0 <= m < before.revisions.len() && (#[trigger] before.revisions[m]).vid
                        == ns[a].vid && before.revisions[m].nid == ns[a].nid;
                assert(predr(before.revisions[m]));
                assert(rs.contains(before.revisions[m]));
                let q = choose|q: int| 0 <= q < rs.len() && rs[q] == before.revisions[m];
                assert(rs[q].vid == ns[a].vid && rs[q].nid == ns[a].nid);
            }
            assert forall|a: int| 0 <= a < vs.len() implies 0 <= (#[trigger] vs[a]).delta < 10 by {
                assert(before.values.contains(vs[a]));
                let w = choose|w: int| 0 <= w < before.values.len() && before.values[w] == vs[a];
            }
            assert forall|a: int| 0 <= a < vs.len() && (#[trigger] vs[a]).delta > 0 implies exists|
                b: int,
            |
                0 <= b < vs.len() && (#[trigger] vs[b]).vid == vs[a].vid && vs[b].field_name
                    == vs[a].field_name && vs[b].delta == vs[a].delta - 1 by {
                assert(before.values.contains(vs[a]));
                let w = choose|w: int| 0 <= w < before.values.len() && before.values[w] == vs[a];
                let m = choose|m: int|
                    0 <= m < before.values.len() && (#[trigger] before.values[m]).vid == vs[a].vid
                        && before.values[m].field_name == vs[a].field_name
                        && before.values[m].delta == vs[a].delta - 1;
                assert(predv(vs[a]));
                assert(predv(before.values[m]));
                assert(vs.contains(before.values[m]));
                let q = choose|q: int| 0 <= q < vs.len() && vs[q] == before.values[m];
                assert(vs[q].vid == vs[a].vid && vs[q].field_name == vs[a].field_name && vs[q].delta
                    == vs[a].delta - 1);
            }
            assert(store_wf(self@));
        }
        Ok(())
    }
}


/// Some instance binds the given field name to the given content type.
pub open spec fn has_instance(
    insts: Seq<NodeFieldInstanceView>,
    nt: Seq<char>,
    name: Seq<char>,
) -> bool {
    exists|i: int|
        0 <= i < insts.len() && (#[trigger] insts[i]).node_type == nt && insts[i].field_name
            == name
}

/// Strict counterpart of the instance display order.
pub open spec fn instance_lt(a: NodeFieldInstanceView, b: NodeFieldInstanceView) -> bool {
    a.weight < b.weight || (a.weight == b.weight && lex_lt(a.label, b.label))
}

/// Where a new instance lands in the display-ordered table: before the
/// first entry it sorts strictly below.
pub open spec fn insert_pos(insts: Seq<NodeFieldInstanceView>, nv: NodeFieldInstanceView) -> int
    decreases insts.len(),
{
    if insts.len() == 0 {
        0
    } else if instance_lt(nv, insts[0]) {
        0
    } else {
        1 + insert_pos(insts.drop_first(), nv)
    }
}

proof fn lemma_insert_pos_bounds(insts: Seq<NodeFieldInstanceView>, nv: NodeFieldInstanceView)
    ensures
        0 <= insert_pos(insts, nv) <= insts.len(),
    decreases insts.len(),
{
    if insts.len() > 0 && !instance_lt(nv, insts[0]) {
        lemma_insert_pos_bounds(insts.drop_first(), nv);
    }
}

proof fn lemma_instance_order_total(a: NodeFieldInstanceView, b: NodeFieldInstanceView)
    ensures
        instance_lt(a, b) || instance_le(b, a),
{
    crate::vancode::lemma_lex_total(a.label, b.label);
}

proof fn lemma_instance_le_trans(
    a: NodeFieldInstanceView,
    b: NodeFieldInstanceView,
    c: NodeFieldInstanceView,
)
    requires
        instance_le(a, b),
        instance_le(b, c),
    ensures
        instance_le(a, c),
{
    if a.weight == b.weight && b.weight == c.weight {
        crate::vancode::lemma_lex_le_trans(a.label, b.label, c.label);
    }
}

proof fn lemma_insert_instance_wf(
    before: StoreView,
    after: StoreView,
    nv: NodeFieldInstanceView,
    pos: int,
)
    requires
        store_wf(before),
        0 <= pos <= before.instances.len(),
        after == (StoreView {
            instances: before.instances.insert(pos, nv),
            next_iid: before.next_iid + 1,
            ..before
        }),
        forall|i: int| 0 <= i < pos ==> !instance_lt(nv, #[trigger] before.instances[i]),
        pos == before.instances.len() || instance_lt(nv, before.instances[pos]),
        !has_instance(before.instances, nv.node_type, nv.field_name),
        nv.id == before.next_iid,
        before.next_iid < u32::MAX,
    ensures
        store_wf(after),
{
    let is = after.instances;
    let n = before.instances.len() as int;
    assert forall|a: int, b: int| 0 <= a < b < is.len() implies !(is[a].field_name
        == is[b].field_name && is[a].node_type == is[b].node_type) by {
        if a < pos && b < pos {
            assert(is[a] == before.instances[a]);
            assert(is[b] == before.instances[b]);
        } else if a < pos && b == pos {
            assert(is[a] == before.instances[a]);
            assert(is[b] == nv);
        } else if a < pos && b > pos {
            assert(is[a] == before.instances[a]);
            assert(is[b] == before.instances[b - 1]);
        } else if a == pos {
            assert(is[a] == nv);
            assert(is[b] == before.instances[b - 1]);
        } else {
            assert(is[a] == before.instances[a - 1]);
            assert(is[b] == before.instances[b - 1]);
        }
    }
    assert forall|a: int, b: int| 0 <= a < b < is.len() implies instance_le(is[a], is[b]) by {
        if a < pos && b < pos {
            assert(is[a] == before.instances[a]);
            assert(is[b] == before.instances[b]);
        } else if a < pos && b == pos {
            assert(is[a] == before.instances[a]);
            assert(is[b] == nv);
            assert(!instance_lt(nv, before.instances[a]));
            lemma_instance_order_total(nv, before.instances[a]);
        } else if a < pos && b > pos {
            assert(is[a] == before.instances[a]);
            assert(is[b] == before.instances[b - 1]);
        } else if a == pos {
            assert(is[a] == nv);
            assert(is[b] == before.instances[b - 1]);
            assert(pos < n);
            assert(instance_lt(nv, before.instances[pos]));
            assert(instance_le(before.instances[pos], before.instances[b - 1]));
            lemma_instance_le_trans(nv, before.instances[pos], before.instances[b - 1]);
        } else {
            assert(is[a] == before.instances[a - 1]);
            assert(is[b] == before.instances[b - 1]);
        }
    }
    assert forall|a: int| 0 <= a < is.len() implies 1 <= (#[trigger] is[a]).id
        < after.next_iid by {
        if a < pos {
            assert(is[a] == before.instances[a]);
        } else if a > pos {
            assert(is[a] == before.instances[a - 1]);
        } else {
            assert(is[a] == nv);
        }
    }
    assert(store_wf(after));
}

impl Store {
    fn instance_exists(&self, node_type: &str, field_name: &str) -> (r: bool)
        ensures
            r == has_instance(self@.instances, node_type@, field_name@),
    {
        let ghost is = self@.instances;
        let n = self.instances.len();
        let mut i: usize = 0;
        while i < n
            invariant
                0 <= i <= n,
                n == self.instances@.len(),
                is == self@.instances,
                forall|j: int|
                    0 <= j < i ==> !((#[trigger] is[j]).node_type == node_type@ && is[j].field_name
                        == field_name@),
            decreases n - i,
        {
            if crate::strutil::str_eq(self.instances[i].node_type.as_str(), node_type)
                && crate::strutil::str_eq(self.instances[i].field_name.as_str(), field_name) {
                proof {
                    assert(is[i as int].node_type == node_type@ && is[i as int].field_name
                        == field_name@);
                }
                return true;
            }
            i = i + 1;
        }
        false
    }

    fn insert_instance_at(&mut self, p: usize, inst: NodeFieldInstance)
        requires
            old(self).wf(),
            p <= old(self)@.instances.len(),
            forall|i: int| 0 <= i < p ==> !instance_lt(inst@, #[trigger] old(self)@.instances[i]),
            p == old(self)@.instances.len() || instance_lt(inst@, old(self)@.instances[p as int]),
            !has_instance(old(self)@.instances, inst@.node_type, inst@.field_name),
            inst@.id == old(self)@.next_iid,
            old(self)@.next_iid < u32::MAX,
        ensures
            final(self).wf(),
            final(self)@ == (StoreView {
                instances: old(self)@.instances.insert(p as int, inst@),
                next_iid: old(self)@.next_iid + 1,
                ..old(self)@
            }),
    {
        let ghost before = self@;
        let ghost nv = inst@;
        let id = self.next_iid;
        self.instances.insert(p, inst);
        self.next_iid = id + 1;
        proof {
            assert(self@ =~= (StoreView {
                instances: before.instances.insert(p as int, nv),
                next_iid: before.next_iid + 1,
                ..before
            }));
            lemma_insert_instance_wf(before, self@, nv, p as int);
        }
    }

    /// Bind a field definition to a content type, keeping the instance
    /// table in display order (weight, then label). Rejects an unknown
    /// field and a binding that already exists.
    pub fn create_field_instance(
        &mut self,
        field_name: &str,
        node_type: &str,
        label: &str,
        description: Option<&str>,
        required: bool,
        weight: i32,
        widget_type: &str,
    ) -> (r: Result<u32, CoreError>)
        requires
            old(self).wf(),
        ensures
            final(self).wf(),
            match r {
                Ok(id) => ({
                    let dv = match description {
                        Some(d) => Some(d@),
                        None => None,
                    };
                    &&& id == old(self)@.next_iid
                    &&& old(self)@.next_iid < u32::MAX
                    &&& find_field_def(old(self)@.fields, field_name@) is Some
                    &&& !has_instance(old(self)@.instances, node_type@, field_name@)
                    &&& ({
                        let nv = NodeFieldInstanceView {
                            id: id as int,
                            field_name: field_name@,
                            node_type: node_type@,
                            label: label@,
                            description: dv,
                            required: required,
                            weight: weight as int,
                            widget_type: Some(widget_type@),
                        };
                        final(self)@ == (StoreView {
                            instances: old(self)@.instances.insert(
                                insert_pos(old(self)@.instances, nv),
                                nv,
                            ),
                            next_iid: old(self)@.next_iid + 1,
                            ..old(self)@
                        })
                    })
                }),
                Err(e) => final(self)@ == old(self)@ && ((e == CoreError::ValidationError && (
                find_field_def(old(self)@.fields, field_name@) is None || has_instance(
                    old(self)@.instances,
                    node_type@,
                    field_name@,
                ))) || (e == CoreError::StorageFailure && old(self)@.next_iid == u32::MAX)),
            },
    {
        if let None = self.field_index(field_name) {
            return Err(CoreError::ValidationError);
        }
        if self.instance_exists(node_type, field_name) {
            return Err(CoreError::ValidationError);
        }
        if self.next_iid == u32::MAX {
            return Err(CoreError::StorageFailure);
        }
        let ghost before = self@;
        let id = self.next_iid;
        let ghost nv = NodeFieldInstanceView {
            id: id as int,
            field_name: field_name@,
            node_type: node_type@,
            label: label@,
            description: match description {
                Some(d) => Some(d@),
                None => None,
            },
            required: required,
            weight: weight as int,
            widget_type: Some(widget_type@),
        };
        let n = self.instances.len();
        let mut p: usize = 0;
        proof {
            assert(before.instances.skip(0) =~= before.instances);
        }
        while p < n
            invariant
                0 <= p <= n,
                n == self.instances@.len(),
                self@ == before,
                nv.weight == weight as int,
                nv.label == label@,
                forall|i: int| 0 <= i < p ==> !instance_lt(nv, #[trigger] before.instances[i]),
                insert_pos(before.instances, nv) == p + insert_pos(
                    before.instances.skip(p as int),
                    nv,
                ),
            ensures
                0 <= p <= n,
                forall|i: int| 0 <= i < p ==> !instance_lt(nv, #[trigger] before.instances[i]),
                p == n || instance_lt(nv, before.instances[p as int]),
                insert_pos(before.instances, nv) == p,
            decreases n - p,
        {
            let e = &self.instances[p];
            let less = if weight < e.weight {
                true
            } else if weight == e.weight {
                crate::thread::lex_lt_str(label, e.label.as_str())
            } else {
                false
            };
            proof {
                assert(less == instance_lt(nv, before.instances[p as int]));
                let sk = before.instances.skip(p as int);
                assert(sk[0] == before.instances[p as int]);
                assert(sk.drop_first() =~= before.instances.skip(p as int + 1));
                if less {
                    assert(insert_pos(sk, nv) == 0);
                } else {
                    assert(insert_pos(sk, nv) == 1 + insert_pos(
                        before.instances.skip(p as int + 1),
                        nv,
                    ));
                }
            }
            if less {
                break;
            }
            p = p + 1;
        }
        proof {
            if p == n {
                assert(before.instances.skip(n as int).len() == 0);
                assert(insert_pos(before.instances.skip(n as int), nv) == 0);
            }
        }
        let ghost pos = p as int;
        let desc: Option<String> = match description {
            Some(d) => Some(String::from_str(d)),
            None => None,
        };
        let inst = NodeFieldInstance {
            id: id,
            field_name: String::from_str(field_name),
            node_type: String::from_str(node_type),
            label: String::from_str(label),
            description: desc,
            required: required,
            weight: weight,
            widget_type: Some(String::from_str(widget_type)),
        };
        proof {
            assert(inst@ =~= nv);
        }
        self.insert_instance_at(p, inst);
        Ok(id)
    }
}


/// Strict counterpart of the comment sort key order.
pub open spec fn comment_lt(a: CommentView, b: CommentView) -> bool {
    a.nid < b.nid || (a.nid == b.nid && lex_lt(
        crate::thread::strip_slashes(a.thread),
        crate::thread::strip_slashes(b.thread),
    ))
}

/// Where a new comment lands in the tree-ordered table.
pub open spec fn comment_insert_pos(cs: Seq<CommentView>, cv: CommentView) -> int
    decreases cs.len(),
{
    if cs.len() == 0 {
        0
    } else if comment_lt(cv, cs[0]) {
        0
    } else {
        1 + comment_insert_pos(cs.drop_first(), cv)
    }
}

proof fn lemma_comment_insert_pos_bounds(cs: Seq<CommentView>, cv: CommentView)
    ensures
        0 <= comment_insert_pos(cs, cv) <= cs.len(),
    decreases cs.len(),
{
    if cs.len() > 0 && !comment_lt(cv, cs[0]) {
        lemma_comment_insert_pos_bounds(cs.drop_first(), cv);
    }
}

proof fn lemma_comment_order_total(a: CommentView, b: CommentView)
    ensures
        comment_lt(a, b) || comment_le(b, a),
{
    crate::vancode::lemma_lex_total(
        crate::thread::strip_slashes(a.thread),
        crate::thread::strip_slashes(b.thread),
    );
}

proof fn lemma_comment_le_trans(a: CommentView, b: CommentView, c: CommentView)
    requires
        comment_le(a, b),
        comment_le(b, c),
    ensures
        comment_le(a, c),
{
    if a.nid == b.nid && b.nid == c.nid {
        crate::vancode::lemma_lex_le_trans(
            crate::thread::strip_slashes(a.thread),
            crate::thread::strip_slashes(b.thread),
            crate::thread::strip_slashes(c.thread),
        );
    }
}

/// Index of the summary row of one content item, or -1 when absent.
pub open spec fn stats_pos(ss: Seq<NodeCommentStatisticsView>, nid: int) -> int
    decreases ss.len(),
{
    if ss.len() == 0 {
        -1
    } else if ss[0].nid == nid {
        0
    } else {
        let r = stats_pos(ss.drop_first(), nid);
        if r == -1 {
            -1
        } else {
            1 + r
        }
    }
}

proof fn lemma_stats_pos(ss: Seq<NodeCommentStatisticsView>, nid: int)
    ensures
        stats_pos(ss, nid) == -1 ==> forall|i: int|
            0 <= i < ss.len() ==> (#[trigger] ss[i]).nid != nid,
        stats_pos(ss, nid) != -1 ==> 0 <= stats_pos(ss, nid) < ss.len() && ss[stats_pos(
            ss,
            nid,
        )].nid == nid,
    decreases ss.len(),
{
    if ss.len() > 0 && ss[0].nid != nid {
        let t = ss.drop_first();
        lemma_stats_pos(t, nid);
        if stats_pos(ss, nid) == -1 {
            assert forall|i: int| 0 <= i < ss.len() implies (#[trigger] ss[i]).nid != nid by {
                if i > 0 {
                    assert(t[i - 1] == ss[i]);
                }
            }
        } else {
            assert(ss[stats_pos(ss, nid)] == t[stats_pos(t, nid)]);
        }
    }
}

/// The summary table after one item's row is replaced or appended.
pub open spec fn upsert_stats(
    ss: Seq<NodeCommentStatisticsView>,
    row: NodeCommentStatisticsView,
) -> Seq<NodeCommentStatisticsView> {
    if stats_pos(ss, row.nid) == -1 {
        ss.push(row)
    } else {
        ss.update(stats_pos(ss, row.nid), row)
    }
}

/// Inserting a comment another predicate rejects does not change the
/// predicate's selection.
proof fn lemma_filter_insert_frame(
    cs: Seq<CommentView>,
    pos: int,
    c: CommentView,
    pred: spec_fn(CommentView) -> bool,
)
    requires
        0 <= pos <= cs.len(),
        !pred(c),
    ensures
        cs.insert(pos, c).filter(pred) == cs.filter(pred),
{
    reveal(Seq::filter);
    let t1 = cs.take(pos);
    let t2 = cs.skip(pos);
    assert(cs.insert(pos, c) =~= t1 + (seq![c] + t2));
    assert(cs =~= t1 + t2);
    Seq::filter_distributes_over_add(t1, seq![c] + t2, pred);
    Seq::filter_distributes_over_add(seq![c], t2, pred);
    Seq::filter_distributes_over_add(t1, t2, pred);
    assert(seq![c].drop_last() =~= Seq::<CommentView>::empty());
    assert(seq![c].last() == c);
    assert(Seq::<CommentView>::empty().filter(pred) =~= Seq::<CommentView>::empty());
    assert(seq![c].filter(pred) =~= Seq::<CommentView>::empty());
    assert(cs.insert(pos, c).filter(pred) =~= cs.filter(pred));
}

/// Removing a comment another predicate rejects does not change the
/// predicate's selection.
proof fn lemma_filter_remove_frame(cs: Seq<CommentView>, pos: int, pred: spec_fn(CommentView) -> bool)
    requires
        0 <= pos < cs.len(),
        !pred(cs[pos]),
    ensures
        cs.remove(pos).filter(pred) == cs.filter(pred),
{
    reveal(Seq::filter);
    let t1 = cs.take(pos);
    let t2 = cs.skip(pos + 1);
    let c = cs[pos];
    assert(cs.remove(pos) =~= t1 + t2);
    assert(cs =~= t1 + (seq![c] + t2));
    Seq::filter_distributes_over_add(t1, seq![c] + t2, pred);
    Seq::filter_distributes_over_add(seq![c], t2, pred);
    Seq::filter_distributes_over_add(t1, t2, pred);
    assert(seq![c].drop_last() =~= Seq::<CommentView>::empty());
    assert(seq![c].last() == c);
    assert(Seq::<CommentView>::empty().filter(pred) =~= Seq::<CommentView>::empty());
    assert(seq![c].filter(pred) =~= Seq::<CommentView>::empty());
    assert(cs.remove(pos).filter(pred) =~= cs.filter(pred));
}

/// Replacing a comment by another one the predicate likewise rejects does
/// not change the predicate's selection.
proof fn lemma_filter_update_frame(
    cs: Seq<CommentView>,
    pos: int,
    c: CommentView,
    pred: spec_fn(CommentView) -> bool,
)
    requires
        0 <= pos < cs.len(),
        !pred(cs[pos]),
        !pred(c),
    ensures
        cs.update(pos, c).filter(pred) == cs.filter(pred),
{
    reveal(Seq::filter);
    let t1 = cs.take(pos);
    let t2 = cs.skip(pos + 1);
    assert(cs.update(pos, c) =~= t1 + (seq![c] + t2));
    assert(cs =~= t1 + (seq![cs[pos]] + t2));
    Seq::filter_distributes_over_add(t1, seq![c] + t2, pred);
    Seq::filter_distributes_over_add(seq![c], t2, pred);
    Seq::filter_distributes_over_add(t1, seq![cs[pos]] + t2, pred);
    Seq::filter_distributes_over_add(seq![cs[pos]], t2, pred);
    assert(seq![c].drop_last() =~= Seq::<CommentView>::empty());
    assert(seq![c].last() == c);
    assert(Seq::<CommentView>::empty().filter(pred) =~= Seq::<CommentView>::empty());
    assert(seq![c].filter(pred) =~= Seq::<CommentView>::empty());
    assert(seq![cs[pos]].drop_last() =~= Seq::<CommentView>::empty());
    assert(seq![cs[pos]].last() == cs[pos]);
    assert(seq![cs[pos]].filter(pred) =~= Seq::<CommentView>::empty());
    assert(cs.update(pos, c).filter(pred) =~= cs.filter(pred));
}

/// After one item's comments change and its row is recomputed, the whole
/// summary table is fresh again, provided the other items' published
/// selections did not change.
proof fn lemma_stats_wf_after(
    orig: Seq<NodeCommentStatisticsView>,
    cs_old: Seq<CommentView>,
    cs_new: Seq<CommentView>,
    nid: int,
)
    requires
        forall|i: int, j: int|
            #![trigger orig[i], orig[j]]
            0 <= i < j < orig.len() ==> orig[i].nid != orig[j].nid,
        forall|i: int|
            0 <= i < orig.len() ==> #[trigger] orig[i] == fresh_stats(cs_old, orig[i].nid),
        forall|n: int|
            n != nid ==> #[trigger] crate::thread::published_of(cs_new, n)
                == crate::thread::published_of(cs_old, n),
    ensures
        ({
            let ss = upsert_stats(orig, fresh_stats(cs_new, nid));
            &&& forall|i: int|
                0 <= i < ss.len() ==> #[trigger] ss[i] == fresh_stats(cs_new, ss[i].nid)
            &&& forall|i: int, j: int|
                #![trigger ss[i], ss[j]]
                0 <= i < j < ss.len() ==> ss[i].nid != ss[j].nid
        }),
{
    let row = fresh_stats(cs_new, nid);
    assert(row.nid == nid);
    let p = stats_pos(orig, nid);
    lemma_stats_pos(orig, nid);
    let ss = upsert_stats(orig, row);
    assert forall|i: int| 0 <= i < ss.len() implies #[trigger] ss[i] == fresh_stats(
        cs_new,
        ss[i].nid,
    ) by {
        if p == -1 {
            if i < orig.len() {
                assert(ss[i] == orig[i]);
                assert(orig[i].nid != nid);
                assert(crate::thread::published_of(cs_new, orig[i].nid)
                    == crate::thread::published_of(cs_old, orig[i].nid));
            } else {
                assert(ss[i] == row);
            }
        } else {
            if i != p {
                assert(ss[i] == orig[i]);
                if orig[i].nid == nid {
                    if i < p {
                        assert(orig[i].nid != orig[p].nid);
                    } else {
                        assert(orig[p].nid != orig[i].nid);
                    }
                }
                assert(orig[i].nid != nid);
                assert(crate::thread::published_of(cs_new, orig[i].nid)
                    == crate::thread::published_of(cs_old, orig[i].nid));
            } else {
                assert(ss[i] == row);
            }
        }
    }
    assert forall|i: int, j: int| 0 <= i < j < ss.len() implies ss[i].nid != ss[j].nid by {
        if p == -1 {
            if j < orig.len() {
                assert(ss[i] == orig[i]);
                assert(ss[j] == orig[j]);
            } else {
                assert(ss[i] == orig[i]);
                assert(ss[j] == row);
            }
        } else {
            if i != p {
                assert(ss[i] == orig[i]);
            } else {
                assert(ss[i] == row);
            }
            if j != p {
                assert(ss[j] == orig[j]);
            } else {
                assert(ss[j] == row);
            }
            assert(orig[i].nid != orig[j].nid);
        }
    }
}

/// Some comment of the item already carries this thread path.
pub open spec fn thread_taken(cs: Seq<CommentView>, nid: int, t: Seq<char>) -> bool {
    exists|i: int| 0 <= i < cs.len() && (#[trigger] cs[i]).nid == nid && cs[i].thread == t
}


impl Store {
    fn comment_index(&self, cid: u32) -> (r: Option<usize>)
        ensures
            match r {
                Some(i) => i < self@.comments.len() && self@.comments[i as int].cid == cid as int
                    && find_comment_v(self@.comments, cid as int) == Some(
                    self@.comments[i as int],
                ),
                None => find_comment_v(self@.comments, cid as int) is None,
            },
    {
        let ghost cs = self@.comments;
        let n = self.comments.len();
        let mut i: usize = 0;
        proof {
            assert(cs.skip(0) =~= cs);
        }
        while i < n
            invariant
                0 <= i <= n,
                n == self.comments@.len(),
                cs == self@.comments,
                find_comment_v(cs, cid as int) == find_comment_v(cs.skip(i as int), cid as int),
            decreases n - i,
        {
            proof {
                assert(cs.skip(i as int)[0] == cs[i as int]);
                assert(cs.skip(i as int).drop_first() =~= cs.skip(i as int + 1));
            }
            if self.comments[i].cid == cid {
                return Some(i);
            }
            i = i + 1;
        }
        proof {
            assert(cs.skip(n as int).len() == 0);
        }
        None
    }

    fn thread_exists(&self, nid: u32, thread: &str) -> (r: bool)
        ensures
            r == thread_taken(self@.comments, nid as int, thread@),
    {
        let ghost cs = self@.comments;
        let n = self.comments.len();
        let mut i: usize = 0;
        while i < n
            invariant
                0 <= i <= n,
                n == self.comments@.len(),
                cs == self@.comments,
                forall|j: int|
                    0 <= j < i ==> !((#[trigger] cs[j]).nid == nid as int && cs[j].thread
                        == thread@),
            decreases n - i,
        {
            if self.comments[i].nid == nid && crate::strutil::str_eq(
                self.comments[i].thread.as_str(),
                thread,
            ) {
                proof {
                    assert(cs[i as int].nid == nid as int && cs[i as int].thread == thread@);
                }
                return true;
            }
            i = i + 1;
        }
        false
    }

    /// Recompute one item's summary row from the comment table.
    fn refresh_stats(&mut self, nid: u32)
        requires
            forall|i: int, j: int|
                #![trigger old(self)@.stats[i], old(self)@.stats[j]]
                0 <= i < j < old(self)@.stats.len() ==> old(self)@.stats[i].nid != old(
                    self,
                )@.stats[j].nid,
        ensures
            final(self)@ == (StoreView {
                stats: upsert_stats(
                    old(self)@.stats,
                    fresh_stats(old(self)@.comments, nid as int),
                ),
                ..old(self)@
            }),
    {
        let ghost before = self@;
        let ghost cs = self@.comments;
        let n = self.comments.len();
        let mut count: usize = 0;
        let mut has_latest = false;
        let mut best_ts: i64 = 0;
        let mut best_uid: u32 = 0;
        let mut best_name: Option<String> = None;
        let mut i: usize = 0;
        proof {
            reveal(Seq::filter);
            assert(cs.take(0) =~= Seq::<CommentView>::empty());
        }
        while i < n
            invariant
                0 <= i <= n,
                n == self.comments@.len(),
                self@ == before,
                cs == self@.comments,
                count <= i,
                count == crate::thread::published_of(cs.take(i as int), nid as int).len(),
                match crate::thread::latest_of(
                    crate::thread::published_of(cs.take(i as int), nid as int),
                ) {
                    Option::None => !has_latest,
                    Option::Some(c) => has_latest && best_ts as int == c.timestamp && best_uid as int
                        == c.uid && opt_str(best_name) == c.name,
                },
            decreases n - i,
        {
            let c = &self.comments[i];
            let ghost pub_pre = crate::thread::published_of(cs.take(i as int), nid as int);
            let is_pub = c.nid == nid && match c.status {
                CommentStatus::Published => true,
                CommentStatus::AwaitingModeration => false,
            };
            proof {
                reveal(Seq::filter);
                let t = cs.take(i as int + 1);
                assert(t.drop_last() =~= cs.take(i as int));
                assert(t.last() == cs[i as int]);
                assert(is_pub == (cs[i as int].nid == nid as int && cs[i as int].status
                    == CommentStatus::Published));
                if is_pub {
                    assert(crate::thread::published_of(t, nid as int) == pub_pre.push(
                        cs[i as int],
                    ));
                    assert(crate::thread::published_of(t, nid as int).drop_last() =~= pub_pre);
                } else {
                    assert(crate::thread::published_of(t, nid as int) == pub_pre);
                }
            }
            if is_pub {
                count = count + 1;
                if !has_latest || c.timestamp > best_ts {
                    has_latest = true;
                    best_ts = c.timestamp;
                    best_uid = c.uid;
                    best_name = clone_opt_string(&c.name);
                }
            }
            i = i + 1;
        }
        proof {
            assert(cs.take(n as int) =~= cs);
        }
        let row = NodeCommentStatistics {
            nid: nid,
            last_comment_timestamp: if has_latest {
                best_ts
            } else {
                0
            },
            last_comment_name: if has_latest {
                best_name
            } else {
                None
            },
            last_comment_uid: if has_latest {
                best_uid
            } else {
                0
            },
            comment_count: count as u64,
        };
        proof {
            assert(row@ =~= fresh_stats(cs, nid as int));
        }
        let ghost ss = self@.stats;
        let m = self.stats.len();
        let mut k: usize = 0;
        proof {
            assert(ss.skip(0) =~= ss);
        }
        while k < m
            invariant
                0 <= k <= m,
                m == self.stats@.len(),
                self@ == before,
                ss == self@.stats,
                stats_pos(ss.skip(k as int), nid as int) == -1 ==> stats_pos(ss, nid as int)
                    == -1,
                stats_pos(ss.skip(k as int), nid as int) != -1 ==> stats_pos(ss, nid as int) == k
                    + stats_pos(ss.skip(k as int), nid as int),
            ensures
                0 <= k <= m,
                m == self.stats@.len(),
                self@ == before,
                ss == self@.stats,
                k < m ==> stats_pos(ss, nid as int) == k && ss[k as int].nid == nid as int,
                k == m ==> stats_pos(ss, nid as int) == -1,
            decreases m - k,
        {
            proof {
                let sk = ss.skip(k as int);
                assert(sk[0] == ss[k as int]);
                assert(sk.drop_first() =~= ss.skip(k as int + 1));
            }
            if self.stats[k].nid == nid {
                break;
            }
            proof {
                let sk = ss.skip(k as int);
                assert(ss[k as int].nid != nid as int);
                lemma_stats_pos(ss.skip(k as int + 1), nid as int);
                if stats_pos(ss.skip(k as int + 1), nid as int) == -1 {
                    assert(stats_pos(sk, nid as int) == -1);
                } else {
                    assert(stats_pos(sk, nid as int) == 1 + stats_pos(
                        ss.skip(k as int + 1),
                        nid as int,
                    ));
                }
            }
            k = k + 1;
        }
        proof {
            if k == m {
                assert(ss.skip(m as int).len() == 0);
            }
        }
        if k < self.stats.len() {
            self.stats.set(k, row);
        } else {
            self.stats.push(row);
        }
        proof {
            let rv = fresh_stats(before.comments, nid as int);
            if stats_pos(before.stats, nid as int) == -1 {
                assert(self@.stats =~= before.stats.push(rv));
            } else {
                assert(self@.stats =~= before.stats.update(stats_pos(before.stats, nid as int), rv));
            }
            assert(self@ =~= (StoreView { stats: upsert_stats(before.stats, rv), ..before }));
        }
    }
}


proof fn lemma_insert_comment_wf(before: StoreView, after: StoreView, cv: CommentView, pos: int)
    requires
        store_wf(before),
        0 <= pos <= before.comments.len(),
        forall|i: int| 0 <= i < pos ==> !comment_lt(cv, #[trigger] before.comments[i]),
        pos == before.comments.len() || comment_lt(cv, before.comments[pos]),
        !thread_taken(before.comments, cv.nid, cv.thread),
        cv.cid == before.next_cid,
        before.next_cid < u32::MAX,
        after == (StoreView {
            comments: before.comments.insert(pos, cv),
            stats: upsert_stats(
                before.stats,
                fresh_stats(before.comments.insert(pos, cv), cv.nid),
            ),
            next_cid: before.next_cid + 1,
            ..before
        }),
    ensures
        store_wf(after),
{
    let cs = after.comments;
    let n = before.comments.len() as int;
    assert forall|a: int, b: int| 0 <= a < b < cs.len() implies cs[a].cid != cs[b].cid by {
        if a < pos && b < pos {
            assert(cs[a] == before.comments[a]);
            assert(cs[b] == before.comments[b]);
        } else if a < pos && b == pos {
            assert(cs[a] == before.comments[a]);
            assert(cs[b] == cv);
        } else if a < pos && b > pos {
            assert(cs[a] == before.comments[a]);
            assert(cs[b] == before.comments[b - 1]);
        } else if a == pos {
            assert(cs[a] == cv);
            assert(cs[b] == before.comments[b - 1]);
        } else {
            assert(cs[a] == before.comments[a - 1]);
            assert(cs[b] == before.comments[b - 1]);
        }
    }
    assert forall|a: int, b: int| 0 <= a < b < cs.len() implies !(cs[a].nid == cs[b].nid
        && cs[a].thread == cs[b].thread) by {
        if a < pos && b < pos {
            assert(cs[a] == before.comments[a]);
            assert(cs[b] == before.comments[b]);
        } else if a < pos && b == pos {
            assert(cs[a] == before.comments[a]);
            assert(cs[b] == cv);
        } else if a < pos && b > pos {
            assert(cs[a] == before.comments[a]);
            assert(cs[b] == before.comments[b - 1]);
        } else if a == pos {
            assert(cs[a] == cv);
            assert(cs[b] == before.comments[b - 1]);
        } else {
            assert(cs[a] == before.comments[a - 1]);
            assert(cs[b] == before.comments[b - 1]);
        }
    }
    assert forall|a: int, b: int| 0 <= a < b < cs.len() implies comment_le(cs[a], cs[b]) by {
        if a < pos && b < pos {
            assert(cs[a] == before.comments[a]);
            assert(cs[b] == before.comments[b]);
        } else if a < pos && b == pos {
            assert(cs[a] == before.comments[a]);
            assert(cs[b] == cv);
            assert(!comment_lt(cv, before.comments[a]));
            lemma_comment_order_total(cv, before.comments[a]);
        } else if a < pos && b > pos {
            assert(cs[a] == before.comments[a]);
            assert(cs[b] == before.comments[b - 1]);
        } else if a == pos {
            assert(cs[a] == cv);
            assert(cs[b] == before.comments[b - 1]);
            assert(pos < n);
            assert(comment_lt(cv, before.comments[pos]));
            assert(comment_le(before.comments[pos], before.comments[b - 1]));
            lemma_comment_le_trans(cv, before.comments[pos], before.comments[b - 1]);
        } else {
            assert(cs[a] == before.comments[a - 1]);
            assert(cs[b] == before.comments[b - 1]);
        }
    }
    assert forall|a: int| 0 <= a < cs.len() implies 1 <= (#[trigger] cs[a]).cid
        < after.next_cid by {
        if a < pos {
            assert(cs[a] == before.comments[a]);
        } else if a > pos {
            assert(cs[a] == before.comments[a - 1]);
        } else {
            assert(cs[a] == cv);
        }
    }
    assert forall|m: int| m != cv.nid implies #[trigger] crate::thread::published_of(cs, m)
        == crate::thread::published_of(before.comments, m) by {
        lemma_filter_insert_frame(
            before.comments,
            pos,
            cv,
            |c: CommentView| c.nid == m && c.status == CommentStatus::Published,
        );
    }
    lemma_stats_wf_after(before.stats, before.comments, cs, cv.nid);
    lemma_heads_same(before, after);
    assert(store_wf(after));
}

impl Store {
    /// Insert a comment with a given thread path and refresh the item's
    /// summary. The storage layer's uniqueness guard: a path the item
    /// already holds is refused with `Conflict` and nothing changes.
    pub fn insert_comment_with_path(
        &mut self,
        nid: u32,
        pid: u32,
        uid: u32,
        subject: &str,
        body: &str,
        hostname: &str,
        name: Option<&str>,
        mail: Option<&str>,
        homepage: Option<&str>,
        status: CommentStatus,
        thread: &str,
        now: i64,
    ) -> (r: Result<u32, CoreError>)
        requires
            old(self).wf(),
        ensures
            final(self).wf(),
            match r {
                Ok(cid) => ({
                    let cv = CommentView {
                        cid: cid as int,
                        pid: pid as int,
                        nid: nid as int,
                        uid: uid as int,
                        subject: subject@,
                        comment: body@,
                        hostname: hostname@,
                        timestamp: now as int,
                        status: status,
                        thread: thread@,
                        name: match name {
                            Some(s) => Some(s@),
                            None => None,
                        },
                        mail: match mail {
                            Some(s) => Some(s@),
                            None => None,
                        },
                        homepage: match homepage {
                            Some(s) => Some(s@),
                            None => None,
                        },
                    };
                    let cs2 = old(self)@.comments.insert(
                        comment_insert_pos(old(self)@.comments, cv),
                        cv,
                    );
                    &&& !thread_taken(old(self)@.comments, nid as int, thread@)
                    &&& old(self)@.next_cid < u32::MAX
                    &&& cid == old(self)@.next_cid
                    &&& final(self)@ == (StoreView {
                        comments: cs2,
                        stats: upsert_stats(old(self)@.stats, fresh_stats(cs2, nid as int)),
                        next_cid: old(self)@.next_cid + 1,
                        ..old(self)@
                    })
                }),
                Err(e) => final(self)@ == old(self)@ && ((e == CoreError::Conflict
                    && thread_taken(old(self)@.comments, nid as int, thread@)) || (e
                    == CoreError::StorageFailure && !thread_taken(
                    old(self)@.comments,
                    nid as int,
                    thread@,
                ) && old(self)@.next_cid == u32::MAX)),
            },
    {
        if self.thread_exists(nid, thread) {
            return Err(CoreError::Conflict);
        }
        if self.next_cid == u32::MAX {
            return Err(CoreError::StorageFailure);
        }
        let ghost before = self@;
        let cid = self.next_cid;
        let nm: Option<String> = match name {
            Some(s) => Some(String::from_str(s)),
            None => None,
        };
        let ml: Option<String> = match mail {
            Some(s) => Some(String::from_str(s)),
            None => None,
        };
        let hp: Option<String> = match homepage {
            Some(s) => Some(String::from_str(s)),
            None => None,
        };
        let rec = Comment {
            cid: cid,
            pid: pid,
            nid: nid,
            uid: uid,
            subject: String::from_str(subject),
            comment: String::from_str(body),
            hostname: String::from_str(hostname),
            timestamp: now,
            status: status,
            thread: String::from_str(thread),
            name: nm,
            mail: ml,
            homepage: hp,
        };
        let ghost cv = rec@;
        let stripped = crate::thread::strip_slashes_str(thread);
        let n = self.comments.len();
        let mut p: usize = 0;
        proof {
            assert(before.comments.skip(0) =~= before.comments);
        }
        while p < n
            invariant
                0 <= p <= n,
                n == self.comments@.len(),
                self@ == before,
                cv.nid == nid as int,
                cv.thread == thread@,
                stripped@ == crate::thread::strip_slashes(cv.thread),
                forall|i: int| 0 <= i < p ==> !comment_lt(cv, #[trigger] before.comments[i]),
                comment_insert_pos(before.comments, cv) == p + comment_insert_pos(
                    before.comments.skip(p as int),
                    cv,
                ),
            ensures
                0 <= p <= n,
                forall|i: int| 0 <= i < p ==> !comment_lt(cv, #[trigger] before.comments[i]),
                p == n || comment_lt(cv, before.comments[p as int]),
                comment_insert_pos(before.comments, cv) == p,
            decreases n - p,
        {
            let e = &self.comments[p];
            let less = if nid < e.nid {
                true
            } else if nid == e.nid {
                let es = crate::thread::strip_slashes_str(e.thread.as_str());
                crate::thread::lex_lt_str(stripped.as_str(), es.as_str())
            } else {
                false
            };
            proof {
                assert(less == comment_lt(cv, before.comments[p as int]));
                let sk = before.comments.skip(p as int);
                assert(sk[0] == before.comments[p as int]);
                assert(sk.drop_first() =~= before.comments.skip(p as int + 1));
                if less {
                    assert(comment_insert_pos(sk, cv) == 0);
                } else {
                    assert(comment_insert_pos(sk, cv) == 1 + comment_insert_pos(
                        before.comments.skip(p as int + 1),
                        cv,
                    ));
                }
            }
            if less {
                break;
            }
            p = p + 1;
        }
        proof {
            if p == n {
                assert(before.comments.skip(n as int).len() == 0);
            }
        }
        self.comments.insert(p, rec);
        self.next_cid = cid + 1;
        proof {
            assert(self@ =~= (StoreView {
                comments: before.comments.insert(p as int, cv),
                next_cid: before.next_cid + 1,
                ..before
            }));
        }
        self.refresh_stats(nid);
        proof {
            let cs2 = before.comments.insert(p as int, cv);
            assert(self@ =~= (StoreView {
                comments: cs2,
                stats: upsert_stats(before.stats, fresh_stats(cs2, nid as int)),
                next_cid: before.next_cid + 1,
                ..before
            }));
            lemma_insert_comment_wf(before, self@, cv, p as int);
        }
        Ok(cid)
    }
}


/// Image of a computed-path result.
pub open spec fn path_result(r: Result<String, CoreError>) -> Result<Seq<char>, CoreError> {
    match r {
        Ok(s) => Ok(s@),
        Err(e) => Err(e),
    }
}

/// The digit value the next top-level comment of an item receives.
pub open spec fn next_root_value(cs: Seq<CommentView>, nid: int) -> nat {
    match crate::thread::max_root_val(crate::thread::roots(cs, nid)) {
        None => 0,
        Some(m) => m + 1,
    }
}

/// What computing a thread path yields over a given comment table: the
/// next free top-level group for a top-level comment, or the parent's
/// path extended by the next free child group; `NotFound` for a missing
/// parent, `Conflict` when a digit group cannot grow any further.
pub open spec fn computed_path(cs: Seq<CommentView>, nid: int, pid: int) -> Result<
    Seq<char>,
    CoreError,
> {
    if pid == 0 {
        let next = next_root_value(cs, nid);
        if next > u32::MAX {
            Err(CoreError::Conflict)
        } else {
            Ok(crate::vancode::vancode(next).push('/'))
        }
    } else {
        match find_comment_v(cs, pid) {
            None => Err(CoreError::NotFound),
            Some(parent) => {
                let prefix = crate::thread::strip_slashes(parent.thread);
                let cands = crate::thread::descendants(cs, nid, prefix, parent.thread);
                match crate::thread::max_thread(cands) {
                    None => Ok(
                        prefix + seq!['.'] + crate::vancode::vancode(0) + seq!['/'],
                    ),
                    Some(m) => {
                        let next = crate::vancode::decode_chars(crate::thread::last_group(m)) + 1;
                        if next > u32::MAX {
                            Err(CoreError::Conflict)
                        } else {
                            Ok(prefix + seq!['.'] + crate::vancode::vancode(next) + seq!['/'])
                        }
                    },
                }
            },
        }
    }
}

/// The largest top-level value over a prefix of the table never exceeds
/// the one over the whole table.
proof fn lemma_max_root_take(cs: Seq<CommentView>, nid: int, i: int)
    requires
        0 <= i <= cs.len(),
    ensures
        match crate::thread::max_root_val(crate::thread::roots(cs.take(i), nid)) {
            Some(m) => crate::thread::max_root_val(crate::thread::roots(cs, nid)) is Some
                && crate::thread::max_root_val(crate::thread::roots(cs, nid)).unwrap() >= m,
            None => true,
        },
    decreases cs.len() - i,
{
    reveal(Seq::filter);
    if i == cs.len() {
        assert(cs.take(i) =~= cs);
    } else {
        let t = cs.take(i + 1);
        assert(t.drop_last() =~= cs.take(i));
        assert(t.last() == cs[i]);
        let r1 = crate::thread::roots(cs.take(i), nid);
        let r2 = crate::thread::roots(t, nid);
        if cs[i].nid == nid && cs[i].pid == 0 {
            assert(r2 == r1.push(cs[i]));
            assert(r2.drop_last() =~= r1);
            assert(r2.last() == cs[i]);
            assert(match crate::thread::max_root_val(r2) {
                Some(m2) => match crate::thread::max_root_val(r1) {
                    Some(m1) => m2 >= m1,
                    None => true,
                },
                None => r2.len() == 0,
            });
        } else {
            assert(r2 == r1);
        }
        lemma_max_root_take(cs, nid, i + 1);
    }
}

impl Store {
    /// Compute the thread path a new comment of the item receives: for a
    /// top-level comment the next free top-level group; for a reply the
    /// parent's path extended by the next free child group, read off the
    /// lexicographically greatest existing descendant.
    ///
    /// This read and the following insert are not one atomic step: the
    /// insert re-checks uniqueness and refuses a duplicate with
    /// `Conflict`.
    pub fn compute_thread_path(&self, nid: u32, pid: u32) -> (r: Result<String, CoreError>)
        ensures
            path_result(r) == computed_path(self@.comments, nid as int, pid as int),
    {
        let ghost cs = self@.comments;
        if pid == 0 {
            let n = self.comments.len();
            let mut has_root = false;
            let mut maxv: u32 = 0;
            let mut i: usize = 0;
            proof {
                reveal(Seq::filter);
                assert(cs.take(0) =~= Seq::<CommentView>::empty());
            }
            while i < n
                invariant
                    0 <= i <= n,
                    pid == 0,
                    n == self.comments@.len(),
                    cs == self@.comments,
                    match crate::thread::max_root_val(
                        crate::thread::roots(cs.take(i as int), nid as int),
                    ) {
                        Option::None => !has_root,
                        Option::Some(m) => has_root && maxv as nat == m,
                    },
                decreases n - i,
            {
                let c = &self.comments[i];
                let ghost pre = crate::thread::roots(cs.take(i as int), nid as int);
                let is_root = c.nid == nid && c.pid == 0;
                proof {
                    reveal(Seq::filter);
                    let t = cs.take(i as int + 1);
                    assert(t.drop_last() =~= cs.take(i as int));
                    assert(t.last() == cs[i as int]);
                    if is_root {
                        assert(crate::thread::roots(t, nid as int) == pre.push(cs[i as int]));
                        assert(crate::thread::roots(t, nid as int).drop_last() =~= pre);
                    } else {
                        assert(crate::thread::roots(t, nid as int) == pre);
                    }
                }
                if is_root {
                    let stripped = crate::thread::strip_slashes_str(c.thread.as_str());
                    proof {
                        assert(stripped@ == crate::thread::strip_slashes(cs[i as int].thread));
                        assert(crate::thread::root_val(cs[i as int]) == crate::vancode::decode_chars(
                            stripped@,
                        ));
                    }
                    match crate::vancode::vancode_to_int_checked(stripped.as_str()) {
                        None => {
                            proof {
                                let t = cs.take(i as int + 1);
                                let r2 = crate::thread::roots(t, nid as int);
                                assert(r2.drop_last() =~= pre);
                                assert(r2.last() == cs[i as int]);
                                assert(match crate::thread::max_root_val(r2) {
                                    Some(m2) => m2 >= crate::thread::root_val(cs[i as int]),
                                    None => false,
                                });
                                lemma_max_root_take(cs, nid as int, i as int + 1);
                                assert(next_root_value(cs, nid as int) > u32::MAX);
                            }
                            return Err(CoreError::Conflict);
                        },
                        Some(v) => {
                            if !has_root || v > maxv {
                                has_root = true;
                                maxv = v;
                            }
                        },
                    }
                }
                i = i + 1;
            }
            proof {
                assert(cs.take(n as int) =~= cs);
            }
            let next: u32 = if !has_root {
                0
            } else if maxv == u32::MAX {
                return Err(CoreError::Conflict);
            } else {
                maxv + 1
            };
            let mut path = crate::vancode::int_to_vancode(next);
            crate::strutil::push_char(&mut path, '/');
            proof {
                assert(next as nat == next_root_value(cs, nid as int));
            }
            Ok(path)
        } else {
            let pidx = match self.comment_index(pid) {
                Some(i) => i,
                None => {
                    return Err(CoreError::NotFound);
                },
            };
            let pthread = self.comments[pidx].thread.clone();
            let ghost parent = find_comment_v(cs, pid as int).unwrap();
            proof {
                assert(pthread@ == parent.thread);
            }
            let prefix = crate::thread::strip_slashes_str(pthread.as_str());
            let n = self.comments.len();
            let mut best: Option<String> = None;
            let mut i: usize = 0;
            proof {
                reveal(Seq::filter);
                assert(cs.take(0) =~= Seq::<CommentView>::empty());
            }
            while i < n
                invariant
                    0 <= i <= n,
                    pid != 0,
                    n == self.comments@.len(),
                    cs == self@.comments,
                    find_comment_v(cs, pid as int) == Some(parent),
                    pthread@ == parent.thread,
                    prefix@ == crate::thread::strip_slashes(parent.thread),
                    match crate::thread::max_thread(
                        crate::thread::descendants(
                            cs.take(i as int),
                            nid as int,
                            prefix@,
                            parent.thread,
                        ),
                    ) {
                        Option::None => best is None,
                        Option::Some(m) => best is Some && best.unwrap()@ == m,
                    },
                decreases n - i,
            {
                let c = &self.comments[i];
                let ghost pre = crate::thread::descendants(
                    cs.take(i as int),
                    nid as int,
                    prefix@,
                    parent.thread,
                );
                let is_cand = c.nid == nid && crate::thread::extends_prefix_str(
                    c.thread.as_str(),
                    prefix.as_str(),
                ) && !crate::strutil::str_eq(c.thread.as_str(), pthread.as_str());
                proof {
                    reveal(Seq::filter);
                    let t = cs.take(i as int + 1);
                    assert(t.drop_last() =~= cs.take(i as int));
                    assert(t.last() == cs[i as int]);
                    if is_cand {
                        assert(crate::thread::descendants(t, nid as int, prefix@, parent.thread)
                            == pre.push(cs[i as int]));
                        assert(crate::thread::descendants(
                            t,
                            nid as int,
                            prefix@,
                            parent.thread,
                        ).drop_last() =~= pre);
                    } else {
                        assert(crate::thread::descendants(t, nid as int, prefix@, parent.thread)
                            == pre);
                    }
                }
                if is_cand {
                    let take_it = match &best {
                        None => true,
                        Some(b) => crate::thread::lex_lt_str(b.as_str(), c.thread.as_str()),
                    };
                    if take_it {
                        best = Some(c.thread.clone());
                    }
                }
                i = i + 1;
            }
            proof {
                assert(cs.take(n as int) =~= cs);
            }
            let next: u32 = match &best {
                None => 0,
                Some(m) => {
                    let sm = crate::thread::strip_slashes_str(m.as_str());
                    proof {
                        crate::thread::lemma_rfind_bounds(sm@);
                    }
                    let k = crate::thread::after_last_dot(sm.as_str());
                    let smlen = sm.as_str().unicode_len();
                    let seg = sm.as_str().substring_char(k, smlen);
                    proof {
                        assert(seg@ == crate::thread::last_group(m@));
                    }
                    match crate::vancode::vancode_to_int_checked(seg) {
                        None => {
                            return Err(CoreError::Conflict);
                        },
                        Some(v) => {
                            if v == u32::MAX {
                                return Err(CoreError::Conflict);
                            }
                            v + 1
                        },
                    }
                },
            };
            let mut path = prefix;
            crate::strutil::push_char(&mut path, '.');
            let enc = crate::vancode::int_to_vancode(next);
            path.append(enc.as_str());
            crate::strutil::push_char(&mut path, '/');
            proof {
                assert(path@ =~= crate::thread::strip_slashes(parent.thread) + seq!['.']
                    + crate::vancode::vancode(next as nat) + seq!['/']);
            }
            Ok(path)
        }
    }
}


impl Store {
    /// Create a comment: the comment-mode gate, subject fallback, thread
    /// path computation, insert and summary refresh as one step.
    ///
    /// Writing is rejected while the item's mode is `Disabled`, and a
    /// reply (but not a top-level comment) while it is `ReadOnly`; a
    /// blank body is rejected; all before any write happens.
    pub fn create_comment(
        &mut self,
        nid: u32,
        pid: u32,
        uid: u32,
        subject: &str,
        body: &str,
        hostname: &str,
        name: Option<&str>,
        mail: Option<&str>,
        homepage: Option<&str>,
        status: CommentStatus,
        now: i64,
    ) -> (r: Result<u32, CoreError>)
        requires
            old(self).wf(),
        ensures
            final(self).wf(),
            match r {
                Ok(cid) => ({
                    let node = find_node(old(self)@.nodes, nid as int).unwrap();
                    let subj = if crate::text::trim_chars(subject@).len() == 0 {
                        crate::text::subject_chars(body@)
                    } else {
                        subject@
                    };
                    let path = computed_path(
                        old(self)@.comments,
                        nid as int,
                        pid as int,
                    ).unwrap();
                    let cv = CommentView {
                        cid: cid as int,
                        pid: pid as int,
                        nid: nid as int,
                        uid: uid as int,
                        subject: subj,
                        comment: body@,
                        hostname: hostname@,
                        timestamp: now as int,
                        status: status,
                        thread: path,
                        name: match name {
                            Some(s) => Some(s@),
                            None => None,
                        },
                        mail: match mail {
                            Some(s) => Some(s@),
                            None => None,
                        },
                        homepage: match homepage {
                            Some(s) => Some(s@),
                            None => None,
                        },
                    };
                    let cs2 = old(self)@.comments.insert(
                        comment_insert_pos(old(self)@.comments, cv),
                        cv,
                    );
                    &&& find_node(old(self)@.nodes, nid as int) is Some
                    &&& node.comment != CommentMode::Disabled
                    &&& !(node.comment == CommentMode::ReadOnly && pid != 0)
                    &&& crate::text::trim_chars(body@).len() > 0
                    &&& computed_path(old(self)@.comments, nid as int, pid as int) is Ok
                    &&& !thread_taken(old(self)@.comments, nid as int, path)
                    &&& cid == old(self)@.next_cid
                    &&& old(self)@.next_cid < u32::MAX
                    &&& final(self)@ == (StoreView {
                        comments: cs2,
                        stats: upsert_stats(old(self)@.stats, fresh_stats(cs2, nid as int)),
                        next_cid: old(self)@.next_cid + 1,
                        ..old(self)@
                    })
                }),
                Err(e) => final(self)@ == old(self)@ && (match find_node(
                    old(self)@.nodes,
                    nid as int,
                ) {
                    None => e == CoreError::NotFound,
                    Some(node) => {
                        if node.comment == CommentMode::Disabled || (node.comment
                            == CommentMode::ReadOnly && pid != 0) {
                            e == CoreError::ValidationError
                        } else if crate::text::trim_chars(body@).len() == 0 {
                            e == CoreError::ValidationError
                        } else {
                            match computed_path(old(self)@.comments, nid as int, pid as int) {
                                Err(pe) => e == pe,
                                Ok(path) => (e == CoreError::Conflict && thread_taken(
                                    old(self)@.comments,
                                    nid as int,
                                    path,
                                )) || (e == CoreError::StorageFailure && !thread_taken(
                                    old(self)@.comments,
                                    nid as int,
                                    path,
                                ) && old(self)@.next_cid == u32::MAX),
                            }
                        }
                    },
                }),
            },
    {
        let i = match self.node_index(nid) {
            Some(i) => i,
            None => {
                return Err(CoreError::NotFound);
            },
        };
        let mode = self.nodes[i].comment;
        let forbidden = match mode {
            CommentMode::Disabled => true,
            CommentMode::ReadOnly => pid != 0,
            CommentMode::ReadWrite => false,
        };
        if forbidden {
            return Err(CoreError::ValidationError);
        }
        if crate::text::is_blank(body) {
            return Err(CoreError::ValidationError);
        }
        let subj: String = if crate::text::is_blank(subject) {
            crate::text::truncate_subject(body)
        } else {
            String::from_str(subject)
        };
        let path = match self.compute_thread_path(nid, pid) {
            Ok(p) => p,
            Err(e) => {
                return Err(e);
            },
        };
        self.insert_comment_with_path(
            nid,
            pid,
            uid,
            subj.as_str(),
            body,
            hostname,
            name,
            mail,
            homepage,
            status,
            path.as_str(),
            now,
        )
    }

    /// Replace a comment's subject and body; its status, author, time and
    /// thread position stay as they are. A blank subject falls back to
    /// one derived from the body. `NotFound` for an unknown comment.
    pub fn update_comment(&mut self, cid: u32, subject: &str, body: &str) -> (r: Result<
        (),
        CoreError,
    >)
        requires
            old(self).wf(),
        ensures
            final(self).wf(),
            match r {
                Ok(()) => ({
                    let subj = if crate::text::trim_chars(subject@).len() == 0 {
                        crate::text::subject_chars(body@)
                    } else {
                        subject@
                    };
                    exists|k: int|
                        #![trigger old(self)@.comments[k]]
                        0 <= k < old(self)@.comments.len() && old(self)@.comments[k].cid
                            == cid as int && final(self)@ == ({
                            let cs2 = old(self)@.comments.update(
                                k,
                                CommentView {
                                    subject: subj,
                                    comment: body@,
                                    ..old(self)@.comments[k]
                                },
                            );
                            StoreView {
                                comments: cs2,
                                stats: upsert_stats(
                                    old(self)@.stats,
                                    fresh_stats(cs2, old(self)@.comments[k].nid),
                                ),
                                ..old(self)@
                            }
                        })
                }),
                Err(e) => e == CoreError::NotFound && find_comment_v(
                    old(self)@.comments,
                    cid as int,
                ) is None && final(self)@ == old(self)@,
            },
    {
        let k = match self.comment_index(cid) {
            Some(k) => k,
            None => {
                return Err(CoreError::NotFound);
            },
        };
        let ghost before = self@;
        let subj: String = if crate::text::is_blank(subject) {
            crate::text::truncate_subject(body)
        } else {
            String::from_str(subject)
        };
        let updated = Comment {
            subject: subj,
            comment: String::from_str(body),
            ..self.comments[k].duplicate()
        };
        let ghost cv = updated@;
        let nid = self.comments[k].nid;
        self.comments.set(k, updated);
        proof {
            let oldc = before.comments[k as int];
            assert(cv =~= (CommentView { subject: cv.subject, comment: body@, ..oldc }));
            assert(self@ =~= (StoreView {
                comments: before.comments.update(k as int, cv),
                ..before
            }));
        }
        self.refresh_stats(nid);
        proof {
            let oldc = before.comments[k as int];
            let cs = before.comments.update(k as int, cv);
            assert(self@ =~= (StoreView {
                comments: cs,
                stats: upsert_stats(before.stats, fresh_stats(cs, oldc.nid)),
                ..before
            }));
            assert forall|a: int, b: int| 0 <= a < b < cs.len() implies cs[a].cid != cs[b].cid
                && !(cs[a].nid == cs[b].nid && cs[a].thread == cs[b].thread) && comment_le(
                cs[a],
                cs[b],
            ) by {
                assert(cs[a].cid == before.comments[a].cid && cs[a].nid == before.comments[a].nid
                    && cs[a].thread == before.comments[a].thread);
                assert(cs[b].cid == before.comments[b].cid && cs[b].nid == before.comments[b].nid
                    && cs[b].thread == before.comments[b].thread);
                assert(before.comments[a].cid != before.comments[b].cid);
                assert(!(before.comments[a].nid == before.comments[b].nid
                    && before.comments[a].thread == before.comments[b].thread));
                assert(comment_le(before.comments[a], before.comments[b]));
            }
            assert forall|a: int| 0 <= a < cs.len() implies 1 <= (#[trigger] cs[a]).cid
                < self@.next_cid by {
                if a != k {
                    assert(cs[a] == before.comments[a]);
                }
            }
            assert forall|m: int| m != oldc.nid implies #[trigger] crate::thread::published_of(
                cs,
                m,
            ) == crate::thread::published_of(before.comments, m) by {
                lemma_filter_update_frame(
                    before.comments,
                    k as int,
                    cv,
                    |c: CommentView| c.nid == m && c.status == CommentStatus::Published,
                );
            }
            lemma_stats_wf_after(before.stats, before.comments, cs, oldc.nid);
            lemma_heads_same(before, self@);
            assert(store_wf(self@));
        }
        Ok(())
    }
}


/// The account name shown for an author id; none for the anonymous id or
/// a missing account.
pub open spec fn author_of(us: Seq<UserView>, uid: int) -> Option<Seq<char>> {
    match find_user(us, uid) {
        Some(u) => Some(u.name),
        None => None,
    }
}

/// A comment joined with its author's account name and its depth.
pub open spec fn with_author(us: Seq<UserView>, c: CommentView) -> CommentWithAuthorView {
    CommentWithAuthorView {
        cid: c.cid,
        pid: c.pid,
        nid: c.nid,
        uid: c.uid,
        subject: c.subject,
        comment: c.comment,
        hostname: c.hostname,
        timestamp: c.timestamp,
        status: c.status,
        thread: c.thread,
        name: c.name,
        mail: c.mail,
        homepage: c.homepage,
        author_name: author_of(us, c.uid),
        depth: crate::thread::dot_count(c.thread) as int,
    }
}

/// The thread listing of one item: its comments in tree order, joined
/// with author names and depths; unpublished ones only when asked for.
pub open spec fn listed(v: StoreView, nid: int, include_unpublished: bool) -> Seq<
    CommentWithAuthorView,
> {
    v.comments.filter(
        |c: CommentView|
            c.nid == nid && (include_unpublished || c.status == CommentStatus::Published),
    ).map_values(|c: CommentView| with_author(v.users, c))
}

/// The summary row of one item, if present.
pub open spec fn stats_of(ss: Seq<NodeCommentStatisticsView>, nid: int) -> Option<
    NodeCommentStatisticsView,
> {
    if stats_pos(ss, nid) == -1 {
        None
    } else {
        Some(ss[stats_pos(ss, nid)])
    }
}

impl Store {
    /// Delete a comment and refresh its item's summary. Children are not
    /// cascaded: they stay addressable under their paths. `NotFound` for
    /// an unknown comment. Irreversible.
    pub fn delete_comment(&mut self, cid: u32) -> (r: Result<(), CoreError>)
        requires
            old(self).wf(),
        ensures
            final(self).wf(),
            match r {
                Ok(()) => exists|k: int|
                    #![trigger old(self)@.comments[k]]
                    0 <= k < old(self)@.comments.len() && old(self)@.comments[k].cid == cid as int
                        && final(self)@ == ({
                        let cs2 = old(self)@.comments.remove(k);
                        StoreView {
                            comments: cs2,
                            stats: upsert_stats(
                                old(self)@.stats,
                                fresh_stats(cs2, old(self)@.comments[k].nid),
                            ),
                            ..old(self)@
                        }
                    }),
                Err(e) => e == CoreError::NotFound && find_comment_v(
                    old(self)@.comments,
                    cid as int,
                ) is None && final(self)@ == old(self)@,
            },
    {
        let k = match self.comment_index(cid) {
            Some(k) => k,
            None => {
                return Err(CoreError::NotFound);
            },
        };
        let ghost before = self@;
        let nid = self.comments[k].nid;
        self.comments.remove(k);
        proof {
            assert(self@ =~= (StoreView {
                comments: before.comments.remove(k as int),
                ..before
            }));
        }
        self.refresh_stats(nid);
        proof {
            let oldc = before.comments[k as int];
            let cs = before.comments.remove(k as int);
            assert(self@ =~= (StoreView {
                comments: cs,
                stats: upsert_stats(before.stats, fresh_stats(cs, oldc.nid)),
                ..before
            }));
            assert forall|a: int, b: int| 0 <= a < b < cs.len() implies cs[a].cid != cs[b].cid
                && !(cs[a].nid == cs[b].nid && cs[a].thread == cs[b].thread) && comment_le(
                cs[a],
                cs[b],
            ) by {
                let a0 = if a < k {
                    a
                } else {
                    a + 1
                };
                let b0 = if b < k {
                    b
                } else {
                    b + 1
                };
                assert(cs[a] == before.comments[a0]);
                assert(cs[b] == before.comments[b0]);
                assert(before.comments[a0].cid != before.comments[b0].cid);
                assert(!(before.comments[a0].nid == before.comments[b0].nid
                    && before.comments[a0].thread == before.comments[b0].thread));
                assert(comment_le(before.comments[a0], before.comments[b0]));
            }
            assert forall|a: int| 0 <= a < cs.len() implies 1 <= (#[trigger] cs[a]).cid
                < self@.next_cid by {
                let a0 = if a < k {
                    a
                } else {
                    a + 1
                };
                assert(cs[a] == before.comments[a0]);
            }
            assert forall|m: int| m != oldc.nid implies #[trigger] crate::thread::published_of(
                cs,
                m,
            ) == crate::thread::published_of(before.comments, m) by {
                lemma_filter_remove_frame(
                    before.comments,
                    k as int,
                    |c: CommentView| c.nid == m && c.status == CommentStatus::Published,
                );
            }
            lemma_stats_wf_after(before.stats, before.comments, cs, oldc.nid);
            lemma_heads_same(before, self@);
            assert(store_wf(self@));
        }
        Ok(())
    }

    /// The thread listing of one item: its comments ordered by thread
    /// path (trailing `/` stripped), so a parent stands right before all
    /// of its descendants; joined with author names and depths.
    pub fn list_thread(&self, nid: u32, include_unpublished: bool) -> (r: Vec<CommentWithAuthor>)
        requires
            self.wf(),
        ensures
            r@.map_values(|x: CommentWithAuthor| x@) == listed(
                self@,
                nid as int,
                include_unpublished,
            ),
    {
        let ghost cs = self@.comments;
        let n = self.comments.len();
        let mut out: Vec<CommentWithAuthor> = Vec::new();
        let mut i: usize = 0;
        proof {
            reveal(Seq::filter);
            assert(cs.take(0) =~= Seq::<CommentView>::empty());
            assert(out@.map_values(|x: CommentWithAuthor| x@) =~= listed_take(
                self@,
                nid as int,
                include_unpublished,
                0,
            ));
        }
        while i < n
            invariant
                0 <= i <= n,
                n == self.comments@.len(),
                cs == self@.comments,
                self.wf(),
                out@.map_values(|x: CommentWithAuthor| x@) =~= listed_take(
                    self@,
                    nid as int,
                    include_unpublished,
                    i as int,
                ),
            decreases n - i,
        {
            let c = &self.comments[i];
            let ghost pre = cs.take(i as int).filter(
                |cc: CommentView|
                    cc.nid == nid as int && (include_unpublished || cc.status
                        == CommentStatus::Published),
            );
            let keep = c.nid == nid && (include_unpublished || match c.status {
                CommentStatus::Published => true,
                CommentStatus::AwaitingModeration => false,
            });
            proof {
                reveal(Seq::filter);
                let t = cs.take(i as int + 1);
                assert(t.drop_last() =~= cs.take(i as int));
                assert(t.last() == cs[i as int]);
            }
            if keep {
                let author_name: Option<String> = match self.user_index(c.uid) {
                    Some(u) => Some(self.users[u].name.clone()),
                    None => None,
                };
                let depth = crate::thread::dot_count_str(c.thread.as_str());
                let ghost out_pre = out@.map_values(|x: CommentWithAuthor| x@);
                let row = CommentWithAuthor {
                    cid: c.cid,
                    pid: c.pid,
                    nid: c.nid,
                    uid: c.uid,
                    subject: c.subject.clone(),
                    comment: c.comment.clone(),
                    hostname: c.hostname.clone(),
                    timestamp: c.timestamp,
                    status: c.status,
                    thread: c.thread.clone(),
                    name: clone_opt_string(&c.name),
                    mail: clone_opt_string(&c.mail),
                    homepage: clone_opt_string(&c.homepage),
                    author_name: author_name,
                    depth: depth,
                };
                proof {
                    assert(row@ =~= with_author(self@.users, cs[i as int]));
                }
                out.push(row);
                proof {
                    let ov = out@.map_values(|x: CommentWithAuthor| x@);
                    assert(ov.drop_last() =~= out_pre);
                    assert(ov =~= out_pre.push(with_author(self@.users, cs[i as int])));
                }
            }
            i = i + 1;
        }
        proof {
            assert(cs.take(n as int) =~= cs);
        }
        out
    }

    /// The summary row of one item, if one has been written.
    pub fn thread_stats(&self, nid: u32) -> (r: Option<NodeCommentStatistics>)
        ensures
            match r {
                Some(st) => stats_of(self@.stats, nid as int) == Some(st@),
                None => stats_of(self@.stats, nid as int) is None,
            },
    {
        let ghost ss = self@.stats;
        let m = self.stats.len();
        let mut k: usize = 0;
        proof {
            assert(ss.skip(0) =~= ss);
        }
        while k < m
            invariant
                0 <= k <= m,
                m == self.stats@.len(),
                ss == self@.stats,
                stats_pos(ss.skip(k as int), nid as int) == -1 ==> stats_pos(ss, nid as int)
                    == -1,
                stats_pos(ss.skip(k as int), nid as int) != -1 ==> stats_pos(ss, nid as int) == k
                    + stats_pos(ss.skip(k as int), nid as int),
            decreases m - k,
        {
            proof {
                let sk = ss.skip(k as int);
                assert(sk[0] == ss[k as int]);
                assert(sk.drop_first() =~= ss.skip(k as int + 1));
                lemma_stats_pos(ss.skip(k as int + 1), nid as int);
            }
            if self.stats[k].nid == nid {
                proof {
                    assert(stats_pos(ss.skip(k as int), nid as int) == 0);
                }
                return Some(self.stats[k].duplicate());
            }
            k = k + 1;
        }
        proof {
            assert(ss.skip(m as int).len() == 0);
        }
        None
    }

    /// Count of published comments on one item.
    pub fn count_for_node(&self, nid: u32) -> (r: u64)
        ensures
            r as int == crate::thread::published_of(self@.comments, nid as int).len(),
    {
        let ghost cs = self@.comments;
        let n = self.comments.len();
        let mut count: usize = 0;
        let mut i: usize = 0;
        proof {
            reveal(Seq::filter);
            assert(cs.take(0) =~= Seq::<CommentView>::empty());
        }
        while i < n
            invariant
                0 <= i <= n,
                n == self.comments@.len(),
                cs == self@.comments,
                count <= i,
                count == crate::thread::published_of(cs.take(i as int), nid as int).len(),
            decreases n - i,
        {
            let c = &self.comments[i];
            let is_pub = c.nid == nid && match c.status {
                CommentStatus::Published => true,
                CommentStatus::AwaitingModeration => false,
            };
            proof {
                reveal(Seq::filter);
                let t = cs.take(i as int + 1);
                assert(t.drop_last() =~= cs.take(i as int));
                assert(t.last() == cs[i as int]);
            }
            if is_pub {
                count = count + 1;
            }
            i = i + 1;
        }
        proof {
            assert(cs.take(n as int) =~= cs);
        }
        count as u64
    }

    /// Look a comment up by its id.
    pub fn find_comment(&self, cid: u32) -> (r: Option<Comment>)
        ensures
            match r {
                Some(c) => find_comment_v(self@.comments, cid as int) == Some(c@),
                None => find_comment_v(self@.comments, cid as int) is None,
            },
    {
        match self.comment_index(cid) {
            Some(i) => Some(self.comments[i].duplicate()),
            None => None,
        }
    }
}

/// The listing restricted to a prefix of the comment table.
pub open spec fn listed_take(v: StoreView, nid: int, include_unpublished: bool, i: int) -> Seq<
    CommentWithAuthorView,
> {
    v.comments.take(i).filter(
        |c: CommentView|
            c.nid == nid && (include_unpublished || c.status == CommentStatus::Published),
    ).map_values(|c: CommentView| with_author(v.users, c))
}


/// The input key a single-value field reads.
pub open spec fn field_key1(name: Seq<char>) -> Seq<char> {
    "field_"@ + name
}

/// The input key one repeat slot of a multi-value field reads.
pub open spec fn field_key2(name: Seq<char>, d: nat) -> Seq<char> {
    "field_"@ + name + "_"@ + seq![crate::vancode::digit_char(d)]
}

/// Whether the key is bound to a non-empty raw value.
pub open spec fn nonempty_at(inputs: Map<Seq<char>, Seq<char>>, key: Seq<char>) -> bool {
    inputs.contains_key(key) && inputs[key].len() > 0
}

/// Values a single-cardinality field derives from the raw inputs.
pub open spec fn single_contents(
    ft: Seq<char>,
    name: Seq<char>,
    inputs: Map<Seq<char>, Seq<char>>,
) -> Seq<crate::parse::FieldContentView> {
    if nonempty_at(inputs, field_key1(name)) {
        match crate::parse::parsed_value(ft, inputs[field_key1(name)]) {
            Some(c) => seq![c],
            None => seq![],
        }
    } else {
        seq![]
    }
}

/// Values a multi-cardinality field derives from repeat slots `d` and up,
/// compacted in slot order; the cap is ten slots.
pub open spec fn multi_contents(
    ft: Seq<char>,
    name: Seq<char>,
    inputs: Map<Seq<char>, Seq<char>>,
    d: int,
) -> Seq<crate::parse::FieldContentView>
    decreases 10 - d,
{
    if d < 0 || d >= 10 {
        seq![]
    } else {
        let rest = multi_contents(ft, name, inputs, d + 1);
        if nonempty_at(inputs, field_key2(name, d as nat)) {
            match crate::parse::parsed_value(ft, inputs[field_key2(name, d as nat)]) {
                Some(c) => seq![c] + rest,
                None => rest,
            }
        } else {
            rest
        }
    }
}

/// All values one field instance derives from the raw inputs.
pub open spec fn derived_contents(
    ft: Seq<char>,
    card: int,
    name: Seq<char>,
    inputs: Map<Seq<char>, Seq<char>>,
) -> Seq<crate::parse::FieldContentView> {
    if card == 1 {
        single_contents(ft, name, inputs)
    } else {
        multi_contents(ft, name, inputs, 0)
    }
}

/// The stored rows of one field: derived values under contiguous repeat
/// indices from zero.
pub open spec fn rows_of(
    nid: int,
    vid: int,
    name: Seq<char>,
    cvs: Seq<crate::parse::FieldContentView>,
) -> Seq<FieldValueRowView> {
    Seq::new(
        cvs.len(),
        |d: int|
            FieldValueRowView {
                nid: nid,
                vid: vid,
                field_name: name,
                delta: d,
                content: cvs[d],
            },
    )
}

/// The rows one field instance stores; none when its definition is gone.
pub open spec fn head_rows(
    fields: Seq<NodeFieldView>,
    inst: NodeFieldInstanceView,
    nid: int,
    vid: int,
    inputs: Map<Seq<char>, Seq<char>>,
) -> Seq<FieldValueRowView> {
    match find_field_def(fields, inst.field_name) {
        Some(f) => rows_of(
            nid,
            vid,
            inst.field_name,
            derived_contents(f.field_type, f.cardinality, inst.field_name, inputs),
        ),
        None => seq![],
    }
}

/// The rows a list of field instances stores, in instance order.
pub open spec fn appended_rows(
    fields: Seq<NodeFieldView>,
    insts: Seq<NodeFieldInstanceView>,
    nid: int,
    vid: int,
    inputs: Map<Seq<char>, Seq<char>>,
) -> Seq<FieldValueRowView>
    decreases insts.len(),
{
    if insts.len() == 0 {
        seq![]
    } else {
        head_rows(fields, insts[0], nid, vid, inputs) + appended_rows(
            fields,
            insts.drop_first(),
            nid,
            vid,
            inputs,
        )
    }
}

proof fn lemma_appended_push(
    fields: Seq<NodeFieldView>,
    insts: Seq<NodeFieldInstanceView>,
    x: NodeFieldInstanceView,
    nid: int,
    vid: int,
    inputs: Map<Seq<char>, Seq<char>>,
)
    ensures
        appended_rows(fields, insts.push(x), nid, vid, inputs) =~= appended_rows(
            fields,
            insts,
            nid,
            vid,
            inputs,
        ) + head_rows(fields, x, nid, vid, inputs),
    decreases insts.len(),
{
    let p = insts.push(x);
    if insts.len() == 0 {
        assert(p[0] == x);
        assert(p.drop_first() =~= Seq::<NodeFieldInstanceView>::empty());
        assert(appended_rows(fields, p.drop_first(), nid, vid, inputs) =~= Seq::<
            FieldValueRowView,
        >::empty());
    } else {
        assert(p[0] == insts[0]);
        assert(p.drop_first() =~= insts.drop_first().push(x));
        lemma_appended_push(fields, insts.drop_first(), x, nid, vid, inputs);
    }
}

/// The field instances bound to one content type, in display order.
pub open spec fn type_instances(v: StoreView, nt: Seq<char>) -> Seq<NodeFieldInstanceView> {
    v.instances.filter(|x: NodeFieldInstanceView| x.node_type == nt)
}

/// Whether saving values for the type clears this stored row first.
pub open spec fn cleared(v: StoreView, nt: Seq<char>, vid: int, row: FieldValueRowView) -> bool {
    row.vid == vid && has_instance(v.instances, nt, row.field_name) && find_field_def(
        v.fields,
        row.field_name,
    ) is Some
}

/// The whole store after one revision's field values are replaced from
/// raw inputs.
pub open spec fn saved_store(
    v: StoreView,
    nid: int,
    vid: int,
    nt: Seq<char>,
    inputs: Map<Seq<char>, Seq<char>>,
) -> StoreView {
    StoreView {
        values: v.values.filter(|row: FieldValueRowView| !cleared(v, nt, vid, row))
            + appended_rows(v.fields, type_instances(v, nt), nid, vid, inputs),
        ..v
    }
}

proof fn lemma_multi_len(
    ft: Seq<char>,
    name: Seq<char>,
    inputs: Map<Seq<char>, Seq<char>>,
    d: int,
)
    ensures
        multi_contents(ft, name, inputs, d).len() <= 10,
        0 <= d < 10 ==> multi_contents(ft, name, inputs, d).len() <= 10 - d,
    decreases 10 - d,
{
    if 0 <= d < 10 {
        lemma_multi_len(ft, name, inputs, d + 1);
    }
}

/// Shape of the rows a list of instances with pairwise distinct field
/// names stores: they carry the given ids, caps and contiguity, names
/// drawn from the instances, and no two share a name and repeat index.
proof fn lemma_appended_props(
    fields: Seq<NodeFieldView>,
    insts: Seq<NodeFieldInstanceView>,
    nid: int,
    vid: int,
    inputs: Map<Seq<char>, Seq<char>>,
)
    requires
        forall|i: int, j: int|
            #![trigger insts[i], insts[j]]
            0 <= i < j < insts.len() ==> insts[i].field_name != insts[j].field_name,
    ensures
        ({
            let a = appended_rows(fields, insts, nid, vid, inputs);
            &&& forall|k: int|
                0 <= k < a.len() ==> (#[trigger] a[k]).vid == vid && a[k].nid == nid && 0
                    <= a[k].delta < 10 && find_field_def(fields, a[k].field_name) is Some
                    && exists|i: int|
                    0 <= i < insts.len() && (#[trigger] insts[i]).field_name == a[k].field_name
            &&& forall|k1: int, k2: int|
                #![trigger a[k1], a[k2]]
                0 <= k1 < k2 < a.len() ==> !(a[k1].field_name == a[k2].field_name && a[k1].delta
                    == a[k2].delta)
            &&& forall|k: int|
                0 <= k < a.len() && (#[trigger] a[k]).delta > 0 ==> exists|k0: int|
                    0 <= k0 < a.len() && (#[trigger] a[k0]).vid == a[k].vid && a[k0].field_name
                        == a[k].field_name && a[k0].delta == a[k].delta - 1
        }),
    decreases insts.len(),
{
    if insts.len() > 0 {
        let t = insts.drop_first();
        assert forall|i: int, j: int| 0 <= i < j < t.len() implies (#[trigger] t[i]).field_name
            != (#[trigger] t[j]).field_name by {
            assert(t[i] == insts[i + 1]);
            assert(t[j] == insts[j + 1]);
        }
        lemma_appended_props(fields, t, nid, vid, inputs);
        let a = appended_rows(fields, insts, nid, vid, inputs);
        let rest = appended_rows(fields, t, nid, vid, inputs);
        let head = head_rows(fields, insts[0], nid, vid, inputs);
        assert(a =~= head + rest);
        let hl = head.len() as int;
        if find_field_def(fields, insts[0].field_name) is Some {
            let f = find_field_def(fields, insts[0].field_name).unwrap();
            let cvs = derived_contents(f.field_type, f.cardinality, insts[0].field_name, inputs);
            lemma_multi_len(f.field_type, insts[0].field_name, inputs, 0);
            assert(cvs.len() <= 10);
        }
        assert forall|k: int| 0 <= k < a.len() implies (#[trigger] a[k]).vid == vid && a[k].nid
            == nid && 0 <= a[k].delta < 10 && find_field_def(fields, a[k].field_name) is Some
            && exists|i: int|
            0 <= i < insts.len() && (#[trigger] insts[i]).field_name == a[k].field_name by {
            if k < hl {
                assert(a[k] == head[k]);
                assert(insts[0].field_name == a[k].field_name);
            } else {
                assert(a[k] == rest[k - hl]);
                let i0 = choose|i0: int|
                    0 <= i0 < t.len() && (#[trigger] t[i0]).field_name == rest[k - hl].field_name;
                assert(insts[i0 + 1].field_name == a[k].field_name);
            }
        }
        assert forall|k1: int, k2: int| 0 <= k1 < k2 < a.len() implies !((#[trigger] a[k1]).field_name
            == (#[trigger] a[k2]).field_name && a[k1].delta == a[k2].delta) by {
            if k1 < hl && k2 < hl {
                assert(a[k1] == head[k1]);
                assert(a[k2] == head[k2]);
            } else if k1 < hl {
                assert(a[k1] == head[k1]);
                assert(a[k2] == rest[k2 - hl]);
                if a[k1].field_name == a[k2].field_name {
                    let i0 = choose|i0: int|
                        0 <= i0 < t.len() && (#[trigger] t[i0]).field_name == rest[k2
                            - hl].field_name;
                    assert(insts[0].field_name != insts[i0 + 1].field_name);
                    assert(false);
                }
            } else {
                assert(a[k1] == rest[k1 - hl]);
                assert(a[k2] == rest[k2 - hl]);
            }
        }
        assert forall|k: int| 0 <= k < a.len() && (#[trigger] a[k]).delta > 0 implies exists|
            k0: int,
        |
            0 <= k0 < a.len() && (#[trigger] a[k0]).vid == a[k].vid && a[k0].field_name
                == a[k].field_name && a[k0].delta == a[k].delta - 1 by {
            if k < hl {
                assert(a[k] == head[k]);
                assert(a[k - 1] == head[k - 1]);
            } else {
                assert(a[k] == rest[k - hl]);
                let k0 = choose|k0: int|
                    0 <= k0 < rest.len() && (#[trigger] rest[k0]).vid == rest[k - hl].vid
                        && rest[k0].field_name == rest[k - hl].field_name && rest[k0].delta
                        == rest[k - hl].delta - 1;
                assert(a[k0 + hl] == rest[k0]);
            }
        }
    }
}


/// A replaced value table keeps the store well formed.
proof fn lemma_save_wf(before: StoreView, after: StoreView, nid: int, vid: int, nt: Seq<char>, inputs: Map<Seq<char>, Seq<char>>)
    requires
        store_wf(before),
        after == saved_store(before, nid, vid, nt, inputs),
    ensures
        store_wf(after),
{
    broadcast use vstd::seq_lib::group_filter_ensures;

    let predk = |row: FieldValueRowView| !cleared(before, nt, vid, row);
    let predi = |x: NodeFieldInstanceView| x.node_type == nt;
    let insts = type_instances(before, nt);
    let fvs = before.values.filter(predk);
    let a = appended_rows(before.fields, insts, nid, vid, inputs);
    let vs = after.values;
    assert(vs == fvs + a);
    let fl = fvs.len() as int;
    let pv = |x: FieldValueRowView, y: FieldValueRowView|
        !(x.vid == y.vid && x.field_name == y.field_name && x.delta == y.delta);
    lemma_filter_pairwise(before.values, predk, pv);
    let pi = |x: NodeFieldInstanceView, y: NodeFieldInstanceView|
        !(x.field_name == y.field_name && x.node_type == y.node_type);
    lemma_filter_pairwise(before.instances, predi, pi);
    assert forall|i: int, j: int| 0 <= i < j < insts.len() implies (#[trigger] insts[i]).field_name
        != (#[trigger] insts[j]).field_name by {
        assert(pi(insts[i], insts[j]));
        assert(predi(insts[i]) && predi(insts[j]));
    }
    lemma_appended_props(before.fields, insts, nid, vid, inputs);
    // every appended row is one the clearing removed
    assert forall|k: int| 0 <= k < a.len() implies !predk(#[trigger] a[k]) by {
        let i = choose|i: int|
            0 <= i < insts.len() && (#[trigger] insts[i]).field_name == a[k].field_name;
        assert(before.instances.contains(insts[i]));
        let w = choose|w: int|
            0 <= w < before.instances.len() && before.instances[w] == insts[i];
        assert(has_instance(before.instances, nt, a[k].field_name));
    }
    assert forall|x: int, y: int| 0 <= x < y < vs.len() implies !((#[trigger] vs[x]).vid
        == (#[trigger] vs[y]).vid && vs[x].field_name == vs[y].field_name && vs[x].delta
        == vs[y].delta) by {
        if x < fl && y < fl {
            assert(pv(fvs[x], fvs[y]));
            assert(vs[x] == fvs[x] && vs[y] == fvs[y]);
        } else if x < fl {
            assert(vs[x] == fvs[x] && vs[y] == a[y - fl]);
            if vs[x].vid == vs[y].vid && vs[x].field_name == vs[y].field_name {
                assert(predk(fvs[x]));
                assert(!predk(a[y - fl]));
                assert(cleared(before, nt, vid, a[y - fl]));
                assert(cleared(before, nt, vid, fvs[x]));
                assert(false);
            }
        } else {
            assert(vs[x] == a[x - fl] && vs[y] == a[y - fl]);
        }
    }
    assert forall|k: int| 0 <= k < vs.len() implies 0 <= (#[trigger] vs[k]).delta < 10 by {
        if k < fl {
            assert(vs[k] == fvs[k]);
            assert(before.values.contains(fvs[k]));
            let w = choose|w: int| 0 <= w < before.values.len() && before.values[w] == fvs[k];
        } else {
            assert(vs[k] == a[k - fl]);
        }
    }
    assert forall|k: int| 0 <= k < vs.len() && (#[trigger] vs[k]).delta > 0 implies exists|k0: int|
        0 <= k0 < vs.len() && (#[trigger] vs[k0]).vid == vs[k].vid && vs[k0].field_name
            == vs[k].field_name && vs[k0].delta == vs[k].delta - 1 by {
        if k < fl {
            assert(vs[k] == fvs[k]);
            assert(before.values.contains(fvs[k]));
            let w = choose|w: int| 0 <= w < before.values.len() && before.values[w] == fvs[k];
            let m = choose|m: int|
                0 <= m < before.values.len() && (#[trigger] before.values[m]).vid
                    == before.values[w].vid && before.values[m].field_name
                    == before.values[w].field_name && before.values[m].delta == before.values[
                w].delta - 1;
            assert(predk(fvs[k]));
            assert(predk(before.values[m]));
            assert(fvs.contains(before.values[m]));
            let q = choose|q: int| 0 <= q < fvs.len() && fvs[q] == before.values[m];
            assert(vs[q] == fvs[q]);
            assert(vs[q].vid == vs[k].vid && vs[q].field_name == vs[k].field_name && vs[q].delta
                == vs[k].delta - 1);
        } else {
            assert(vs[k] == a[k - fl]);
            let k0 = choose|k0: int|
                0 <= k0 < a.len() && (#[trigger] a[k0]).vid == a[k - fl].vid && a[k0].field_name
                    == a[k - fl].field_name && a[k0].delta == a[k - fl].delta - 1;
            assert(vs[k0 + fl] == a[k0]);
        }
    }
    lemma_heads_same(before, after);
    assert(store_wf(after));
}

impl Store {
    fn key_single(&self, name: &str) -> (r: String)
        ensures
            r@ == field_key1(name@),
    {
        let mut s = String::from_str("field_");
        s.append(name);
        s
    }

    fn key_multi(&self, name: &str, d: u32) -> (r: String)
        requires
            d < 10,
        ensures
            r@ == field_key2(name@, d as nat),
    {
        let mut s = String::from_str("field_");
        s.append(name);
        s.append("_");
        let ch8: u8 = 48 + d as u8;
        let c = ch8 as char;
        proof {
            assert(c == crate::vancode::digit_char(d as nat));
        }
        crate::strutil::push_char(&mut s, c);
        proof {
            assert(s@ =~= field_key2(name@, d as nat));
        }
        s
    }

    /// Replace one revision's stored values for every field of the
    /// content type: all prior rows of those fields are cleared, then the
    /// raw inputs are re-derived per field under contiguous repeat
    /// indices. Single-value fields read key `field_{name}`; multi-value
    /// fields read `field_{name}_{slot}` for ten slots. Empty inputs are
    /// skipped; the coercion policy decides what is stored.
    #[verifier::rlimit(30)]
    pub fn save_values(&mut self, nid: u32, vid: u32, node_type: &str, inputs: &crate::inputs::StringMap)
        requires
            old(self).wf(),
        ensures
            final(self).wf(),
            final(self)@ == saved_store(
                old(self)@,
                nid as int,
                vid as int,
                node_type@,
                inputs@,
            ),
    {
        let ghost before = self@;
        let ghost predk = |row: FieldValueRowView| !cleared(before, node_type@, vid as int, row);
        let mut out: Vec<FieldValueRow> = Vec::new();
        let nvals = self.values.len();
        let mut i: usize = 0;
        proof {
            reveal(Seq::filter);
            assert(before.values.take(0) =~= Seq::<FieldValueRowView>::empty());
        }
        while i < nvals
            invariant
                0 <= i <= nvals,
                nvals == self.values@.len(),
                self@ == before,
                predk == (|row: FieldValueRowView| !cleared(
                    before,
                    node_type@,
                    vid as int,
                    row,
                )),
                out@.map_values(|x: FieldValueRow| x@) =~= before.values.take(i as int).filter(
                    predk,
                ),
            decreases nvals - i,
        {
            let row = &self.values[i];
            let inst_hit = self.instance_exists(node_type, row.field_name.as_str());
            let def_hit = match self.field_index(row.field_name.as_str()) {
                Some(_) => true,
                None => false,
            };
            let keep = !(row.vid == vid && inst_hit && def_hit);
            let ghost out_pre = out@.map_values(|x: FieldValueRow| x@);
            if keep {
                out.push(self.values[i].duplicate());
            }
            proof {
                reveal(Seq::filter);
                let t = before.values.take(i as int + 1);
                assert(t.drop_last() =~= before.values.take(i as int));
                assert(t.last() == before.values[i as int]);
                assert(keep == predk(before.values[i as int]));
                if keep {
                    let ov = out@.map_values(|x: FieldValueRow| x@);
                    assert(ov.drop_last() =~= out_pre);
                    assert(ov =~= out_pre.push(before.values[i as int]));
                }
            }
            i = i + 1;
        }
        proof {
            assert(before.values.take(nvals as int) =~= before.values);
        }
        let ghost fvs = before.values.filter(predk);
        let ghost predi = |x: NodeFieldInstanceView| x.node_type == node_type@;
        let ninst = self.instances.len();
        let mut j: usize = 0;
        proof {
            reveal(Seq::filter);
            assert(before.instances.take(0) =~= Seq::<NodeFieldInstanceView>::empty());
            assert(appended_rows(
                before.fields,
                before.instances.take(0).filter(predi),
                nid as int,
                vid as int,
                inputs@,
            ) =~= Seq::<FieldValueRowView>::empty());
        }
        while j < ninst
            invariant
                0 <= j <= ninst,
                ninst == self.instances@.len(),
                self@ == before,
                predk == (|row: FieldValueRowView| !cleared(
                    before,
                    node_type@,
                    vid as int,
                    row,
                )),
                predi == (|x: NodeFieldInstanceView| x.node_type == node_type@),
                fvs == before.values.filter(predk),
                out@.map_values(|x: FieldValueRow| x@) =~= fvs + appended_rows(
                    before.fields,
                    before.instances.take(j as int).filter(predi),
                    nid as int,
                    vid as int,
                    inputs@,
                ),
            decreases ninst - j,
        {
            let ghost ipre = before.instances.take(j as int).filter(predi);
            let is_type = crate::strutil::str_eq(
                self.instances[j].node_type.as_str(),
                node_type,
            );
            proof {
                reveal(Seq::filter);
                let t = before.instances.take(j as int + 1);
                assert(t.drop_last() =~= before.instances.take(j as int));
                assert(t.last() == before.instances[j as int]);
                assert(is_type == predi(before.instances[j as int]));
                if is_type {
                    assert(t.filter(predi) == ipre.push(before.instances[j as int]));
                    lemma_appended_push(
                        before.fields,
                        ipre,
                        before.instances[j as int],
                        nid as int,
                        vid as int,
                        inputs@,
                    );
                } else {
                    assert(t.filter(predi) == ipre);
                }
            }
            if is_type {
                let name = self.instances[j].field_name.clone();
                let ghost iv = before.instances[j as int];
                match self.field_index(name.as_str()) {
                    None => {
                        proof {
                            assert(head_rows(
                                before.fields,
                                iv,
                                nid as int,
                                vid as int,
                                inputs@,
                            ) =~= Seq::<FieldValueRowView>::empty());
                        }
                    },
                    Some(fi) => {
                        let ghost fv = before.fields[fi as int];
                        let card = self.fields[fi].cardinality;
                        let ftype = self.fields[fi].field_type.clone();
                        let mut contents: Vec<crate::parse::FieldContent> = Vec::new();
                        if card == 1 {
                            let k1 = self.key_single(name.as_str());
                            match inputs.get(k1.as_str()) {
                                Some(val) => {
                                    if val.as_str().unicode_len() > 0 {
                                        match crate::parse::parse_field_value(
                                            ftype.as_str(),
                                            val.as_str(),
                                        ) {
                                            Some(c) => {
                                                contents.push(c);
                                            },
                                            None => {},
                                        }
                                    }
                                },
                                None => {},
                            }
                            proof {
                                assert(contents@.map_values(|x: crate::parse::FieldContent| x@)
                                    =~= single_contents(fv.field_type, iv.field_name, inputs@));
                            }
                        } else {
                            let mut d: u32 = 0;
                            while d < 10
                                invariant
                                    0 <= d <= 10,
                                    fv == before.fields[fi as int],
                                    iv.field_name == name@,
                                    ftype@ == fv.field_type,
                                    contents@.map_values(|x: crate::parse::FieldContent| x@)
                                        + multi_contents(
                                        fv.field_type,
                                        iv.field_name,
                                        inputs@,
                                        d as int,
                                    ) =~= multi_contents(
                                        fv.field_type,
                                        iv.field_name,
                                        inputs@,
                                        0,
                                    ),
                                decreases 10 - d,
                            {
                                let k2 = self.key_multi(name.as_str(), d);
                                let ghost c_pre = contents@.map_values(
                                    |x: crate::parse::FieldContent| x@,
                                );
                                match inputs.get(k2.as_str()) {
                                    Some(val) => {
                                        if val.as_str().unicode_len() > 0 {
                                            match crate::parse::parse_field_value(
                                                ftype.as_str(),
                                                val.as_str(),
                                            ) {
                                                Some(c) => {
                                                    contents.push(c);
                                                },
                                                None => {},
                                            }
                                        }
                                    },
                                    None => {},
                                }
                                proof {
                                    let cv2 = contents@.map_values(
                                        |x: crate::parse::FieldContent| x@,
                                    );
                                    if cv2.len() > c_pre.len() {
                                        assert(cv2.drop_last() =~= c_pre);
                                        assert(seq![cv2.last()] + multi_contents(
                                            fv.field_type,
                                            iv.field_name,
                                            inputs@,
                                            d as int + 1,
                                        ) =~= multi_contents(
                                            fv.field_type,
                                            iv.field_name,
                                            inputs@,
                                            d as int,
                                        ));
                                        assert(c_pre + (seq![cv2.last()] + multi_contents(
                                            fv.field_type,
                                            iv.field_name,
                                            inputs@,
                                            d as int + 1,
                                        )) =~= cv2 + multi_contents(
                                            fv.field_type,
                                            iv.field_name,
                                            inputs@,
                                            d as int + 1,
                                        ));
                                    }
                                }
                                d = d + 1;
                            }
                            proof {
                                assert(multi_contents(
                                    fv.field_type,
                                    iv.field_name,
                                    inputs@,
                                    10,
                                ) =~= Seq::<crate::parse::FieldContentView>::empty());
                                assert(contents@.map_values(|x: crate::parse::FieldContent| x@)
                                    =~= multi_contents(fv.field_type, iv.field_name, inputs@, 0));
                            }
                        }
                        let ghost cvs = derived_contents(
                            fv.field_type,
                            fv.cardinality,
                            iv.field_name,
                            inputs@,
                        );
                        proof {
                            assert(contents@.map_values(|x: crate::parse::FieldContent| x@)
                                =~= cvs);
                        }
                        let ghost base = out@.map_values(|x: FieldValueRow| x@);
                        let ncon = contents.len();
                        proof {
                            lemma_multi_len(fv.field_type, iv.field_name, inputs@, 0);
                            assert(cvs.len() <= 10);
                        }
                        let mut q: usize = 0;
                        while q < ncon
                            invariant
                                0 <= q <= ncon,
                                ncon == contents@.len(),
                                ncon <= 10,
                                nid == nid,
                                vid == vid,
                                name@ == iv.field_name,
                                contents@.map_values(|x: crate::parse::FieldContent| x@) == cvs,
                                out@.map_values(|x: FieldValueRow| x@) =~= base + rows_of(
                                    nid as int,
                                    vid as int,
                                    iv.field_name,
                                    cvs,
                                ).take(q as int),
                            decreases ncon - q,
                        {
                            let ghost out_pre = out@.map_values(|x: FieldValueRow| x@);
                            out.push(
                                FieldValueRow {
                                    nid: nid,
                                    vid: vid,
                                    field_name: name.clone(),
                                    delta: q as u32,
                                    content: contents[q].duplicate(),
                                },
                            );
                            proof {
                                let rws = rows_of(nid as int, vid as int, iv.field_name, cvs);
                                let ov = out@.map_values(|x: FieldValueRow| x@);
                                assert(ov.drop_last() =~= out_pre);
                                assert(ov.last() == rws[q as int]);
                                assert(rws.take(q as int + 1) =~= rws.take(q as int).push(
                                    rws[q as int],
                                ));
                                assert(ov =~= out_pre.push(rws[q as int]));
                                assert(out_pre.push(rws[q as int]) =~= base + rws.take(
                                    q as int,
                                ).push(rws[q as int]));
                                assert(ov =~= base + rws.take(q as int + 1));
                            }
                            q = q + 1;
                        }
                        proof {
                            lemma_multi_len(fv.field_type, iv.field_name, inputs@, 0);
                            assert(rows_of(nid as int, vid as int, iv.field_name, cvs).take(
                                ncon as int,
                            ) =~= rows_of(nid as int, vid as int, iv.field_name, cvs));
                            assert(find_field_def(before.fields, iv.field_name) == Some(fv));
                            assert(head_rows(before.fields, iv, nid as int, vid as int, inputs@)
                                == rows_of(nid as int, vid as int, iv.field_name, cvs));
                        }
                    },
                }
            }
            j = j + 1;
        }
        proof {
            assert(before.instances.take(ninst as int) =~= before.instances);
        }
        self.values = out;
        proof {
            assert(self@ =~= saved_store(
                before,
                nid as int,
                vid as int,
                node_type@,
                inputs@,
            ));
            lemma_save_wf(before, self@, nid as int, vid as int, node_type@, inputs@);
        }
    }
}


/// An instance joined with its definition.
pub open spec fn joined_view(
    i: NodeFieldInstanceView,
    f: NodeFieldView,
) -> FieldInstanceJoinedView {
    FieldInstanceJoinedView {
        id: i.id,
        field_name: i.field_name,
        node_type: i.node_type,
        label: i.label,
        description: i.description,
        required: i.required,
        weight: i.weight,
        widget_type: i.widget_type,
        field_type: f.field_type,
        cardinality: f.cardinality,
        settings: f.settings,
    }
}

/// The schema listing of one content type: its instances (already in
/// display order) joined with their definitions; an instance whose
/// definition is gone is dropped.
pub open spec fn joined_list(
    fields: Seq<NodeFieldView>,
    insts: Seq<NodeFieldInstanceView>,
    nt: Seq<char>,
) -> Seq<FieldInstanceJoinedView>
    decreases insts.len(),
{
    if insts.len() == 0 {
        seq![]
    } else {
        let rest = joined_list(fields, insts.drop_first(), nt);
        if insts[0].node_type == nt {
            match find_field_def(fields, insts[0].field_name) {
                Some(f) => seq![joined_view(insts[0], f)] + rest,
                None => rest,
            }
        } else {
            rest
        }
    }
}

/// The first stored value of a field at one repeat index.
pub open spec fn value_at(
    vs: Seq<FieldValueRowView>,
    vid: int,
    name: Seq<char>,
    d: int,
) -> Option<crate::parse::FieldContentView>
    decreases vs.len(),
{
    if vs.len() == 0 {
        None
    } else if vs[0].vid == vid && vs[0].field_name == name && vs[0].delta == d {
        Some(vs[0].content)
    } else {
        value_at(vs.drop_first(), vid, name, d)
    }
}

/// The stored values of a field on one revision, repeat indices read
/// upward from `d` until the first gap, ten slots at most.
pub open spec fn values_list(
    vs: Seq<FieldValueRowView>,
    vid: int,
    name: Seq<char>,
    d: int,
) -> Seq<crate::records::FieldValueView>
    decreases 10 - d,
{
    if d < 0 || d >= 10 {
        seq![]
    } else {
        match value_at(vs, vid, name, d) {
            None => seq![],
            Some(c) => seq![crate::records::FieldValueView { delta: d, content: c }]
                + values_list(vs, vid, name, d + 1),
        }
    }
}

/// A joined schema entry together with one revision's values for it.
pub open spec fn with_values(
    v: StoreView,
    j: FieldInstanceJoinedView,
    vid: int,
) -> crate::records::FieldInstanceWithValueView {
    crate::records::FieldInstanceWithValueView {
        field_name: j.field_name,
        field_type: j.field_type,
        label: j.label,
        description: j.description,
        required: j.required,
        weight: j.weight,
        widget_type: j.widget_type,
        cardinality: j.cardinality,
        settings: j.settings,
        values: values_list(v.values, vid, j.field_name, 0),
    }
}

impl Store {
    /// The field schema of one content type: instances joined with their
    /// definitions, in display order (weight, then label).
    pub fn list_fields(&self, node_type: &str) -> (r: Vec<FieldInstanceJoined>)
        ensures
            r@.map_values(|x: FieldInstanceJoined| x@) == joined_list(
                self@.fields,
                self@.instances,
                node_type@,
            ),
    {
        let ghost is = self@.instances;
        let n = self.instances.len();
        let mut out: Vec<FieldInstanceJoined> = Vec::new();
        let mut i: usize = 0;
        proof {
            assert(is.skip(0) =~= is);
            assert(out@.map_values(|x: FieldInstanceJoined| x@) =~= Seq::<
                FieldInstanceJoinedView,
            >::empty());
        }
        while i < n
            invariant
                0 <= i <= n,
                n == self.instances@.len(),
                is == self@.instances,
                out@.map_values(|x: FieldInstanceJoined| x@) + joined_list(
                    self@.fields,
                    is.skip(i as int),
                    node_type@,
                ) =~= joined_list(self@.fields, is, node_type@),
            decreases n - i,
        {
            let ghost sk = is.skip(i as int);
            proof {
                assert(sk[0] == is[i as int]);
                assert(sk.drop_first() =~= is.skip(i as int + 1));
            }
            let inst = &self.instances[i];
            if crate::strutil::str_eq(inst.node_type.as_str(), node_type) {
                match self.field_index(inst.field_name.as_str()) {
                    Some(fi) => {
                        let f = &self.fields[fi];
                        let ghost out_pre = out@.map_values(|x: FieldInstanceJoined| x@);
                        let row = FieldInstanceJoined {
                            id: inst.id,
                            field_name: inst.field_name.clone(),
                            node_type: inst.node_type.clone(),
                            label: inst.label.clone(),
                            description: clone_opt_string(&inst.description),
                            required: inst.required,
                            weight: inst.weight,
                            widget_type: clone_opt_string(&inst.widget_type),
                            field_type: f.field_type.clone(),
                            cardinality: f.cardinality,
                            settings: clone_opt_string(&f.settings),
                        };
                        proof {
                            assert(row@ =~= joined_view(
                                is[i as int],
                                find_field_def(self@.fields, is[i as int].field_name).unwrap(),
                            ));
                        }
                        out.push(row);
                        proof {
                            let ov = out@.map_values(|x: FieldInstanceJoined| x@);
                            assert(ov.drop_last() =~= out_pre);
                            assert(ov + joined_list(
                                self@.fields,
                                is.skip(i as int + 1),
                                node_type@,
                            ) =~= out_pre + joined_list(self@.fields, sk, node_type@));
                        }
                    },
                    None => {},
                }
            }
            i = i + 1;
        }
        proof {
            assert(is.skip(n as int).len() == 0);
            assert(out@.map_values(|x: FieldInstanceJoined| x@) =~= joined_list(
                self@.fields,
                is,
                node_type@,
            ));
        }
        out
    }

    fn find_value(&self, vid: u32, name: &str, d: u32) -> (r: Option<crate::records::FieldValue>)
        ensures
            match r {
                Some(fv) => value_at(self@.values, vid as int, name@, d as int) == Some(
                    fv@.content,
                ) && fv@.delta == d as int,
                None => value_at(self@.values, vid as int, name@, d as int) is None,
            },
    {
        let ghost vs = self@.values;
        let n = self.values.len();
        let mut i: usize = 0;
        proof {
            assert(vs.skip(0) =~= vs);
        }
        while i < n
            invariant
                0 <= i <= n,
                n == self.values@.len(),
                vs == self@.values,
                value_at(vs, vid as int, name@, d as int) == value_at(
                    vs.skip(i as int),
                    vid as int,
                    name@,
                    d as int,
                ),
            decreases n - i,
        {
            proof {
                assert(vs.skip(i as int)[0] == vs[i as int]);
                assert(vs.skip(i as int).drop_first() =~= vs.skip(i as int + 1));
            }
            let row = &self.values[i];
            if row.vid == vid && row.delta == d && crate::strutil::str_eq(
                row.field_name.as_str(),
                name,
            ) {
                return Some(
                    crate::records::FieldValue { delta: d, content: row.content.duplicate() },
                );
            }
            i = i + 1;
        }
        proof {
            assert(vs.skip(n as int).len() == 0);
        }
        None
    }

    /// The field schema of one content type joined with the values one
    /// revision stores: every field appears, with an empty value list
    /// when nothing is stored for it.
    pub fn load_values(&self, node_type: &str, vid: u32) -> (r: Vec<FieldInstanceWithValue>)
        ensures
            r@.map_values(|x: FieldInstanceWithValue| x@) == joined_list(
                self@.fields,
                self@.instances,
                node_type@,
            ).map_values(|j: FieldInstanceJoinedView| with_values(self@, j, vid as int)),
    {
        let fields = self.list_fields(node_type);
        let ghost js = joined_list(self@.fields, self@.instances, node_type@);
        let m = fields.len();
        let mut out: Vec<FieldInstanceWithValue> = Vec::new();
        let mut k: usize = 0;
        proof {
            assert(out@.map_values(|x: FieldInstanceWithValue| x@) =~= js.map_values(
                |j: FieldInstanceJoinedView| with_values(self@, j, vid as int),
            ).take(0));
        }
        while k < m
            invariant
                0 <= k <= m,
                m == fields@.len(),
                fields@.map_values(|x: FieldInstanceJoined| x@) == js,
                out@.map_values(|x: FieldInstanceWithValue| x@) =~= js.map_values(
                    |j: FieldInstanceJoinedView| with_values(self@, j, vid as int),
                ).take(k as int),
            decreases m - k,
        {
            let fj = &fields[k];
            let ghost jv = js[k as int];
            let mut vals: Vec<crate::records::FieldValue> = Vec::new();
            let mut d: u32 = 0;
            let mut stop = false;
            proof {
                assert(vals@.map_values(|x: crate::records::FieldValue| x@) =~= Seq::<
                    crate::records::FieldValueView,
                >::empty());
            }
            while !stop && d < 10
                invariant
                    0 <= d <= 10,
                    jv == js[k as int],
                    k < m,
                    m == fields@.len(),
                    fields@.map_values(|x: FieldInstanceJoined| x@) == js,
                    fj.field_name@ == jv.field_name,
                    !stop ==> vals@.map_values(|x: crate::records::FieldValue| x@)
                        + values_list(self@.values, vid as int, jv.field_name, d as int)
                        =~= values_list(self@.values, vid as int, jv.field_name, 0),
                    stop ==> vals@.map_values(|x: crate::records::FieldValue| x@)
                        =~= values_list(self@.values, vid as int, jv.field_name, 0),
                decreases 10 - d, if stop { 0int } else { 1int },
            {
                let ghost v_pre = vals@.map_values(|x: crate::records::FieldValue| x@);
                match self.find_value(vid, fj.field_name.as_str(), d) {
                    Some(fv) => {
                        vals.push(fv);
                        proof {
                            let vv = vals@.map_values(|x: crate::records::FieldValue| x@);
                            assert(vv.drop_last() =~= v_pre);
                            assert(seq![vv.last()] + values_list(
                                self@.values,
                                vid as int,
                                jv.field_name,
                                d as int + 1,
                            ) =~= values_list(
                                self@.values,
                                vid as int,
                                jv.field_name,
                                d as int,
                            ));
                            assert(v_pre + (seq![vv.last()] + values_list(
                                self@.values,
                                vid as int,
                                jv.field_name,
                                d as int + 1,
                            )) =~= vv + values_list(
                                self@.values,
                                vid as int,
                                jv.field_name,
                                d as int + 1,
                            ));
                        }
                        d = d + 1;
                    },
                    None => {
                        proof {
                            assert(values_list(
                                self@.values,
                                vid as int,
                                jv.field_name,
                                d as int,
                            ) =~= Seq::<crate::records::FieldValueView>::empty());
                        }
                        stop = true;
                    },
                }
            }
            proof {
                if !stop {
                    assert(values_list(self@.values, vid as int, jv.field_name, 10) =~= Seq::<
                        crate::records::FieldValueView,
                    >::empty());
                }
                assert(vals@.map_values(|x: crate::records::FieldValue| x@) =~= values_list(
                    self@.values,
                    vid as int,
                    jv.field_name,
                    0,
                ));
            }
            let ghost out_pre = out@.map_values(|x: FieldInstanceWithValue| x@);
            let row = FieldInstanceWithValue {
                field_name: fj.field_name.clone(),
                field_type: fj.field_type.clone(),
                label: fj.label.clone(),
                description: clone_opt_string(&fj.description),
                required: fj.required,
                weight: fj.weight,
                widget_type: clone_opt_string(&fj.widget_type),
                cardinality: fj.cardinality,
                settings: clone_opt_string(&fj.settings),
                values: vals,
            };
            proof {
                assert(fields@[k as int]@ == jv);
                assert(row@ =~= with_values(self@, jv, vid as int));
            }
            out.push(row);
            proof {
                let ov = out@.map_values(|x: FieldInstanceWithValue| x@);
                let target = js.map_values(
                    |j: FieldInstanceJoinedView| with_values(self@, j, vid as int),
                );
                assert(ov.drop_last() =~= out_pre);
                assert(ov.last() == target[k as int]);
                assert(target.take(k as int + 1) =~= target.take(k as int).push(
                    target[k as int],
                ));
                assert(ov =~= target.take(k as int + 1));
            }
            k = k + 1;
        }
        proof {
            let target = js.map_values(
                |j: FieldInstanceJoinedView| with_values(self@, j, vid as int),
            );
            assert(target.take(m as int) =~= target);
        }
        out
    }
}


/// A filter that rejects every element yields the empty sequence.
proof fn lemma_filter_none<A>(s: Seq<A>, pred: spec_fn(A) -> bool)
    requires
        forall|k: int| 0 <= k < s.len() ==> !pred(#[trigger] s[k]),
    ensures
        s.filter(pred) =~= Seq::<A>::empty(),
    decreases s.len(),
{
    reveal(Seq::filter);
    if s.len() > 0 {
        let t = s.drop_last();
        assert forall|k: int| 0 <= k < t.len() implies !pred(#[trigger] t[k]) by {
            assert(t[k] == s[k]);
        }
        lemma_filter_none(t, pred);
        assert(!pred(s.last()));
    }
}

/// A filter that accepts every element changes nothing.
proof fn lemma_filter_all<A>(s: Seq<A>, pred: spec_fn(A) -> bool)
    requires
        forall|k: int| 0 <= k < s.len() ==> pred(#[trigger] s[k]),
    ensures
        s.filter(pred) =~= s,
    decreases s.len(),
{
    reveal(Seq::filter);
    if s.len() > 0 {
        let t = s.drop_last();
        assert forall|k: int| 0 <= k < t.len() implies pred(#[trigger] t[k]) by {
            assert(t[k] == s[k]);
        }
        lemma_filter_all(t, pred);
        assert(pred(s.last()));
    }
}

/// Every element of a filtered sequence comes from the sequence.
proof fn lemma_filter_subset<A>(s: Seq<A>, pred: spec_fn(A) -> bool)
    ensures
        forall|k: int| 0 <= k < s.filter(pred).len() ==> s.contains(#[trigger] s.filter(pred)[k]),
    decreases s.len(),
{
    reveal(Seq::filter);
    if s.len() > 0 {
        let t = s.drop_last();
        lemma_filter_subset(t, pred);
        let f = s.filter(pred);
        let ft = t.filter(pred);
        assert forall|k: int| 0 <= k < f.len() implies s.contains(#[trigger] f[k]) by {
            if k < ft.len() {
                assert(f[k] == ft[k]);
                assert(t.contains(ft[k]));
                let w = choose|w: int| 0 <= w < t.len() && t[w] == ft[k];
                assert(s[w] == f[k]);
            } else {
                assert(f[k] == s.last());
                assert(s[s.len() - 1] == s.last());
            }
        }
    }
}

/// Every row a list of instances of the type stores is one the next save
/// for the type clears again.
proof fn lemma_appended_all_cleared(
    v: StoreView,
    insts: Seq<NodeFieldInstanceView>,
    nt: Seq<char>,
    nid: int,
    vid: int,
    inputs: Map<Seq<char>, Seq<char>>,
)
    requires
        forall|i: int|
            0 <= i < insts.len() ==> has_instance(v.instances, nt, (#[trigger] insts[i]).field_name),
    ensures
        forall|k: int|
            0 <= k < appended_rows(v.fields, insts, nid, vid, inputs).len() ==> cleared(
                v,
                nt,
                vid,
                #[trigger] appended_rows(v.fields, insts, nid, vid, inputs)[k],
            ),
    decreases insts.len(),
{
    if insts.len() > 0 {
        let t = insts.drop_first();
        assert forall|i: int| 0 <= i < t.len() implies has_instance(
            v.instances,
            nt,
            (#[trigger] t[i]).field_name,
        ) by {
            assert(t[i] == insts[i + 1]);
        }
        lemma_appended_all_cleared(v, t, nt, nid, vid, inputs);
        let a = appended_rows(v.fields, insts, nid, vid, inputs);
        let head = head_rows(v.fields, insts[0], nid, vid, inputs);
        let rest = appended_rows(v.fields, t, nid, vid, inputs);
        assert(a =~= head + rest);
        assert forall|k: int| 0 <= k < a.len() implies cleared(v, nt, vid, #[trigger] a[k]) by {
            if k < head.len() {
                assert(a[k] == head[k]);
                assert(find_field_def(v.fields, insts[0].field_name) is Some);
            } else {
                assert(a[k] == rest[k - head.len()]);
            }
        }
    }
}

/// Saving a revision's values twice leaves exactly what the second set of
/// inputs derives: no stale rows, no duplicated repeat indices.
pub proof fn lemma_save_values_last_wins(
    v: StoreView,
    nid: int,
    vid: int,
    nt: Seq<char>,
    in1: Map<Seq<char>, Seq<char>>,
    in2: Map<Seq<char>, Seq<char>>,
)
    ensures
        saved_store(saved_store(v, nid, vid, nt, in1), nid, vid, nt, in2).values == saved_store(
            v,
            nid,
            vid,
            nt,
            in2,
        ).values,
{
    broadcast use vstd::seq_lib::group_filter_ensures;

    let v1 = saved_store(v, nid, vid, nt, in1);
    let predk = |row: FieldValueRowView| !cleared(v, nt, vid, row);
    let predk1 = |row: FieldValueRowView| !cleared(v1, nt, vid, row);
    let insts = type_instances(v, nt);
    assert(v1.instances == v.instances);
    assert(v1.fields == v.fields);
    assert(type_instances(v1, nt) == insts);
    let f0 = v.values.filter(predk);
    let a1 = appended_rows(v.fields, insts, nid, vid, in1);
    let a2 = appended_rows(v.fields, insts, nid, vid, in2);
    assert(v1.values == f0 + a1);
    assert forall|row: FieldValueRowView| #[trigger] predk1(row) == predk(row) by {
        assert(cleared(v1, nt, vid, row) == cleared(v, nt, vid, row));
    }
    Seq::filter_distributes_over_add(f0, a1, predk1);
    lemma_filter_subset(v.values, predk);
    assert forall|k: int| 0 <= k < f0.len() implies #[trigger] predk1(f0[k]) by {
        assert(predk(f0[k]));
    }
    lemma_filter_all(f0, predk1);
    lemma_filter_subset(v.instances, |x: NodeFieldInstanceView| x.node_type == nt);
    assert forall|i: int| 0 <= i < insts.len() implies has_instance(
        v.instances,
        nt,
        (#[trigger] insts[i]).field_name,
    ) by {
        assert(v.instances.contains(insts[i]));
        let w = choose|w: int| 0 <= w < v.instances.len() && v.instances[w] == insts[i];
        assert(v.instances[w].node_type == nt);
    }
    lemma_appended_all_cleared(v, insts, nt, nid, vid, in1);
    assert forall|k: int| 0 <= k < a1.len() implies !predk1(#[trigger] a1[k]) by {
        assert(cleared(v, nt, vid, a1[k]));
    }
    lemma_filter_none(a1, predk1);
    assert(v1.values.filter(predk1) =~= f0);
    assert forall|k: int| 0 <= k < v.values.len() implies #[trigger] predk1(v.values[k]) == predk(
        v.values[k],
    ) by {}
    assert(saved_store(v1, nid, vid, nt, in2).values =~= f0 + a2);
    assert(v.values.filter(predk1) =~= v.values.filter(predk)) by {
        lemma_filter_pred_same(v.values, predk1, predk);
    }
    assert(saved_store(v, nid, vid, nt, in2).values =~= f0 + a2);
}

/// Two predicates that agree on every element filter alike.
proof fn lemma_filter_pred_same<A>(s: Seq<A>, p: spec_fn(A) -> bool, q: spec_fn(A) -> bool)
    requires
        forall|k: int| 0 <= k < s.len() ==> p(#[trigger] s[k]) == q(s[k]),
    ensures
        s.filter(p) =~= s.filter(q),
    decreases s.len(),
{
    reveal(Seq::filter);
    if s.len() > 0 {
        let t = s.drop_last();
        assert forall|k: int| 0 <= k < t.len() implies p(#[trigger] t[k]) == q(t[k]) by {
            assert(t[k] == s[k]);
        }
        lemma_filter_pred_same(t, p, q);
        assert(p(s.last()) == q(s.last()));
    }
}

/// However two reply computations interleave, the comment table of a
/// well-formed store never holds two comments of one item with the same
/// thread path: the insert step refuses the duplicate with `Conflict`
/// before it is stored.
pub proof fn lemma_no_duplicate_paths(v: StoreView)
    requires
        store_wf(v),
    ensures
        forall|i: int, j: int|
            #![trigger v.comments[i], v.comments[j]]
            0 <= i < j < v.comments.len() ==> !(v.comments[i].nid == v.comments[j].nid
                && v.comments[i].thread == v.comments[j].thread),
{
}


/// The label of the first required field (in display order) whose
/// single-value input key holds nothing.
pub open spec fn missing_required(
    js: Seq<FieldInstanceJoinedView>,
    inputs: Map<Seq<char>, Seq<char>>,
) -> Option<Seq<char>>
    decreases js.len(),
{
    if js.len() == 0 {
        None
    } else if js[0].required && !nonempty_at(inputs, field_key1(js[0].field_name)) {
        Some(js[0].label)
    } else {
        missing_required(js.drop_first(), inputs)
    }
}

impl Store {
    /// Pre-write validation of a form: the label of the first required
    /// field of the type that got no input, or nothing when the form may
    /// be saved. Runs before any write, so a rejected form changes
    /// nothing.
    pub fn first_missing_required(&self, node_type: &str, inputs: &crate::inputs::StringMap) -> (r:
        Option<String>)
        ensures
            r is Some ==> missing_required(
                joined_list(self@.fields, self@.instances, node_type@),
                inputs@,
            ) == Some(r.unwrap()@),
            r is None ==> missing_required(
                joined_list(self@.fields, self@.instances, node_type@),
                inputs@,
            ) is None,
    {
        let fields = self.list_fields(node_type);
        let ghost js = joined_list(self@.fields, self@.instances, node_type@);
        let m = fields.len();
        let mut k: usize = 0;
        proof {
            assert(js.skip(0) =~= js);
        }
        while k < m
            invariant
                0 <= k <= m,
                m == fields@.len(),
                js == joined_list(self@.fields, self@.instances, node_type@),
                fields@.map_values(|x: FieldInstanceJoined| x@) == js,
                missing_required(js, inputs@) == missing_required(js.skip(k as int), inputs@),
            decreases m - k,
        {
            proof {
                assert(js.skip(k as int)[0] == js[k as int]);
                assert(js.skip(k as int).drop_first() =~= js.skip(k as int + 1));
                assert(fields@[k as int]@ == js[k as int]);
            }
            let fj = &fields[k];
            if fj.required {
                let k1 = self.key_single(fj.field_name.as_str());
                if !inputs.has_nonempty(k1.as_str()) {
                    proof {
                        assert(fj@ == js[k as int]);
                        assert(k1@ == field_key1(js[k as int].field_name));
                        assert(!nonempty_at(inputs@, field_key1(js[k as int].field_name)));
                        assert(missing_required(js.skip(k as int), inputs@) == Some(
                            js[k as int].label,
                        ));
                    }
                    let lbl = fj.label.clone();
                    proof {
                        assert(lbl@ == js[k as int].label);
                        assert(missing_required(js, inputs@) == Some(lbl@));
                    }
                    return Some(lbl);
                }
            }
            k = k + 1;
        }
        proof {
            assert(js.skip(m as int).len() == 0);
        }
        None
    }
}

} // verus!
