//! The records of the revisioning and discussion engine: content heads,
//! immutable revisions, field schema, field values, comments and the
//! per-item comment summary.

use vstd::prelude::*;

use crate::parse::{FieldContent, FieldContentView};

verus! {

/// Image of an optional string.
pub open spec fn opt_str(o: Option<String>) -> Option<Seq<char>> {
    match o {
        Some(s) => Some(s@),
        None => None,
    }
}

/// Copy an optional string.
pub fn clone_opt_string(o: &Option<String>) -> (r: Option<String>)
    ensures
        opt_str(r) == opt_str(*o),
{
    match o {
        Some(s) => Some(s.clone()),
        None => None,
    }
}

/// Per-item comment setting: whether new comments may be written.
#[derive(Clone, Copy, Debug, PartialEq, Eq, Structural)]
pub enum CommentMode {
    Disabled,
    ReadOnly,
    ReadWrite,
}

/// A comment is published or held for moderation; decided once at
/// creation, never changed by an edit.
#[derive(Clone, Copy, Debug, PartialEq, Eq, Structural)]
pub enum CommentStatus {
    Published,
    AwaitingModeration,
}

/// A content type: schema key plus display data.
#[derive(Debug, Clone)]
pub struct NodeType {
    pub type_key: String,
    pub name: String,
    pub description: Option<String>,
    pub help: Option<String>,
}

#[verifier::ext_equal]
pub struct NodeTypeView {
    pub type_key: Seq<char>,
    pub name: Seq<char>,
    pub description: Option<Seq<char>>,
    pub help: Option<Seq<char>>,
}

impl View for NodeType {
    type V = NodeTypeView;

    open spec fn view(&self) -> NodeTypeView {
        NodeTypeView {
            type_key: self.type_key@,
            name: self.name@,
            description: opt_str(self.description),
            help: opt_str(self.help),
        }
    }
}

/// A content item's head record; `vid` always points at the latest
/// committed revision.
#[derive(Debug, Clone)]
pub struct Node {
    pub nid: u32,
    pub vid: u32,
    pub node_type: String,
    pub title: String,
    pub uid: u32,
    pub published: bool,
    pub created: i64,
    pub changed: i64,
    pub promote: bool,
    pub sticky: bool,
    pub comment: CommentMode,
}

#[verifier::ext_equal]
pub struct NodeView {
    pub nid: int,
    pub vid: int,
    pub node_type: Seq<char>,
    pub title: Seq<char>,
    pub uid: int,
    pub published: bool,
    pub created: int,
    pub changed: int,
    pub promote: bool,
    pub sticky: bool,
    pub comment: CommentMode,
}

impl View for Node {
    type V = NodeView;

    open spec fn view(&self) -> NodeView {
        NodeView {
            nid: self.nid as int,
            vid: self.vid as int,
            node_type: self.node_type@,
            title: self.title@,
            uid: self.uid as int,
            published: self.published,
            created: self.created as int,
            changed: self.changed as int,
            promote: self.promote,
            sticky: self.sticky,
            comment: self.comment,
        }
    }
}

/// One immutable snapshot of a content item's editable fields.
#[derive(Debug, Clone)]
pub struct NodeRevision {
    pub vid: u32,
    pub nid: u32,
    pub uid: u32,
    pub title: String,
    pub body: String,
    pub teaser: String,
    pub timestamp: i64,
}

#[verifier::ext_equal]
pub struct NodeRevisionView {
    pub vid: int,
    pub nid: int,
    pub uid: int,
    pub title: Seq<char>,
    pub body: Seq<char>,
    pub teaser: Seq<char>,
    pub timestamp: int,
}

impl View for NodeRevision {
    type V = NodeRevisionView;

    open spec fn view(&self) -> NodeRevisionView {
        NodeRevisionView {
            vid: self.vid as int,
            nid: self.nid as int,
            uid: self.uid as int,
            title: self.title@,
            body: self.body@,
            teaser: self.teaser@,
            timestamp: self.timestamp as int,
        }
    }
}

/// A content head joined with its current revision and author name.
#[derive(Debug, Clone)]
pub struct NodeWithBody {
    pub nid: u32,
    pub vid: u32,
    pub node_type: String,
    pub title: String,
    pub uid: u32,
    pub published: bool,
    pub created: i64,
    pub changed: i64,
    pub promote: bool,
    pub sticky: bool,
    pub comment: CommentMode,
    pub body: String,
    pub teaser: String,
    pub author_name: Option<String>,
}

#[verifier::ext_equal]
pub struct NodeWithBodyView {
    pub nid: int,
    pub vid: int,
    pub node_type: Seq<char>,
    pub title: Seq<char>,
    pub uid: int,
    pub published: bool,
    pub created: int,
    pub changed: int,
    pub promote: bool,
    pub sticky: bool,
    pub comment: CommentMode,
    pub body: Seq<char>,
    pub teaser: Seq<char>,
    pub author_name: Option<Seq<char>>,
}

impl View for NodeWithBody {
    type V = NodeWithBodyView;

    open spec fn view(&self) -> NodeWithBodyView {
        NodeWithBodyView {
            nid: self.nid as int,
            vid: self.vid as int,
            node_type: self.node_type@,
            title: self.title@,
            uid: self.uid as int,
            published: self.published,
            created: self.created as int,
            changed: self.changed as int,
            promote: self.promote,
            sticky: self.sticky,
            comment: self.comment,
            body: self.body@,
            teaser: self.teaser@,
            author_name: opt_str(self.author_name),
        }
    }
}

/// A field definition: one named, typed, cardinality-aware attribute.
#[derive(Debug, Clone)]
pub struct NodeField {
    pub field_name: String,
    pub field_type: String,
    pub cardinality: i32,
    pub settings: Option<String>,
}

#[verifier::ext_equal]
pub struct NodeFieldView {
    pub field_name: Seq<char>,
    pub field_type: Seq<char>,
    pub cardinality: int,
    pub settings: Option<Seq<char>>,
}

impl View for NodeField {
    type V = NodeFieldView;

    open spec fn view(&self) -> NodeFieldView {
        NodeFieldView {
            field_name: self.field_name@,
            field_type: self.field_type@,
            cardinality: self.cardinality as int,
            settings: opt_str(self.settings),
        }
    }
}

/// A binding of a field definition to a content type.
#[derive(Debug, Clone)]
pub struct NodeFieldInstance {
    pub id: u32,
    pub field_name: String,
    pub node_type: String,
    pub label: String,
    pub description: Option<String>,
    pub required: bool,
    pub weight: i32,
    pub widget_type: Option<String>,
}

#[verifier::ext_equal]
pub struct NodeFieldInstanceView {
    pub id: int,
    pub field_name: Seq<char>,
    pub node_type: Seq<char>,
    pub label: Seq<char>,
    pub description: Option<Seq<char>>,
    pub required: bool,
    pub weight: int,
    pub widget_type: Option<Seq<char>>,
}

impl View for NodeFieldInstance {
    type V = NodeFieldInstanceView;

    open spec fn view(&self) -> NodeFieldInstanceView {
        NodeFieldInstanceView {
            id: self.id as int,
            field_name: self.field_name@,
            node_type: self.node_type@,
            label: self.label@,
            description: opt_str(self.description),
            required: self.required,
            weight: self.weight as int,
            widget_type: opt_str(self.widget_type),
        }
    }
}

/// A field instance joined with its definition.
#[derive(Debug, Clone)]
pub struct FieldInstanceJoined {
    pub id: u32,
    pub field_name: String,
    pub node_type: String,
    pub label: String,
    pub description: Option<String>,
    pub required: bool,
    pub weight: i32,
    pub widget_type: Option<String>,
    pub field_type: String,
    pub cardinality: i32,
    pub settings: Option<String>,
}

#[verifier::ext_equal]
pub struct FieldInstanceJoinedView {
    pub id: int,
    pub field_name: Seq<char>,
    pub node_type: Seq<char>,
    pub label: Seq<char>,
    pub description: Option<Seq<char>>,
    pub required: bool,
    pub weight: int,
    pub widget_type: Option<Seq<char>>,
    pub field_type: Seq<char>,
    pub cardinality: int,
    pub settings: Option<Seq<char>>,
}

impl View for FieldInstanceJoined {
    type V = FieldInstanceJoinedView;

    open spec fn view(&self) -> FieldInstanceJoinedView {
        FieldInstanceJoinedView {
            id: self.id as int,
            field_name: self.field_name@,
            node_type: self.node_type@,
            label: self.label@,
            description: opt_str(self.description),
            required: self.required,
            weight: self.weight as int,
            widget_type: opt_str(self.widget_type),
            field_type: self.field_type@,
            cardinality: self.cardinality as int,
            settings: opt_str(self.settings),
        }
    }
}

/// One stored field value row, keyed by revision, field name and repeat
/// index.
#[derive(Debug, Clone)]
pub struct FieldValueRow {
    pub nid: u32,
    pub vid: u32,
    pub field_name: String,
    pub delta: u32,
    pub content: FieldContent,
}

#[verifier::ext_equal]
pub struct FieldValueRowView {
    pub nid: int,
    pub vid: int,
    pub field_name: Seq<char>,
    pub delta: int,
    pub content: FieldContentView,
}

impl View for FieldValueRow {
    type V = FieldValueRowView;

    open spec fn view(&self) -> FieldValueRowView {
        FieldValueRowView {
            nid: self.nid as int,
            vid: self.vid as int,
            field_name: self.field_name@,
            delta: self.delta as int,
            content: self.content@,
        }
    }
}

/// One value of a field on one revision, with its repeat index.
#[derive(Debug, Clone)]
pub struct FieldValue {
    pub delta: u32,
    pub content: FieldContent,
}

#[verifier::ext_equal]
pub struct FieldValueView {
    pub delta: int,
    pub content: FieldContentView,
}

impl View for FieldValue {
    type V = FieldValueView;

    open spec fn view(&self) -> FieldValueView {
        FieldValueView { delta: self.delta as int, content: self.content@ }
    }
}

/// A field instance joined with its definition and the values one
/// revision stores for it; `values` is empty when none are stored.
#[derive(Debug, Clone)]
pub struct FieldInstanceWithValue {
    pub field_name: String,
    pub field_type: String,
    pub label: String,
    pub description: Option<String>,
    pub required: bool,
    pub weight: i32,
    pub widget_type: Option<String>,
    pub cardinality: i32,
    pub settings: Option<String>,
    pub values: Vec<FieldValue>,
}

#[verifier::ext_equal]
pub struct FieldInstanceWithValueView {
    pub field_name: Seq<char>,
    pub field_type: Seq<char>,
    pub label: Seq<char>,
    pub description: Option<Seq<char>>,
    pub required: bool,
    pub weight: int,
    pub widget_type: Option<Seq<char>>,
    pub cardinality: int,
    pub settings: Option<Seq<char>>,
    pub values: Seq<FieldValueView>,
}

impl View for FieldInstanceWithValue {
    type V = FieldInstanceWithValueView;

    open spec fn view(&self) -> FieldInstanceWithValueView {
        FieldInstanceWithValueView {
            field_name: self.field_name@,
            field_type: self.field_type@,
            label: self.label@,
            description: opt_str(self.description),
            required: self.required,
            weight: self.weight as int,
            widget_type: opt_str(self.widget_type),
            cardinality: self.cardinality as int,
            settings: opt_str(self.settings),
            values: self.values@.map_values(|x: FieldValue| x@),
        }
    }
}

/// One comment in a discussion thread.
#[derive(Debug, Clone)]
pub struct Comment {
    pub cid: u32,
    pub pid: u32,
    pub nid: u32,
    pub uid: u32,
    pub subject: String,
    pub comment: String,
    pub hostname: String,
    pub timestamp: i64,
    pub status: CommentStatus,
    pub thread: String,
    pub name: Option<String>,
    pub mail: Option<String>,
    pub homepage: Option<String>,
}

#[verifier::ext_equal]
pub struct CommentView {
    pub cid: int,
    pub pid: int,
    pub nid: int,
    pub uid: int,
    pub subject: Seq<char>,
    pub comment: Seq<char>,
    pub hostname: Seq<char>,
    pub timestamp: int,
    pub status: CommentStatus,
    pub thread: Seq<char>,
    pub name: Option<Seq<char>>,
    pub mail: Option<Seq<char>>,
    pub homepage: Option<Seq<char>>,
}

impl View for Comment {
    type V = CommentView;

    open spec fn view(&self) -> CommentView {
        CommentView {
            cid: self.cid as int,
            pid: self.pid as int,
            nid: self.nid as int,
            uid: self.uid as int,
            subject: self.subject@,
            comment: self.comment@,
            hostname: self.hostname@,
            timestamp: self.timestamp as int,
            status: self.status,
            thread: self.thread@,
            name: opt_str(self.name),
            mail: opt_str(self.mail),
            homepage: opt_str(self.homepage),
        }
    }
}

/// A comment joined with its author's account name and its depth in the
/// thread tree.
#[derive(Debug, Clone)]
pub struct CommentWithAuthor {
    pub cid: u32,
    pub pid: u32,
    pub nid: u32,
    pub uid: u32,
    pub subject: String,
    pub comment: String,
    pub hostname: String,
    pub timestamp: i64,
    pub status: CommentStatus,
    pub thread: String,
    pub name: Option<String>,
    pub mail: Option<String>,
    pub homepage: Option<String>,
    pub author_name: Option<String>,
    pub depth: usize,
}

#[verifier::ext_equal]
pub struct CommentWithAuthorView {
    pub cid: int,
    pub pid: int,
    pub nid: int,
    pub uid: int,
    pub subject: Seq<char>,
    pub comment: Seq<char>,
    pub hostname: Seq<char>,
    pub timestamp: int,
    pub status: CommentStatus,
    pub thread: Seq<char>,
    pub name: Option<Seq<char>>,
    pub mail: Option<Seq<char>>,
    pub homepage: Option<Seq<char>>,
    pub author_name: Option<Seq<char>>,
    pub depth: int,
}

impl View for CommentWithAuthor {
    type V = CommentWithAuthorView;

    open spec fn view(&self) -> CommentWithAuthorView {
        CommentWithAuthorView {
            cid: self.cid as int,
            pid: self.pid as int,
            nid: self.nid as int,
            uid: self.uid as int,
            subject: self.subject@,
            comment: self.comment@,
            hostname: self.hostname@,
            timestamp: self.timestamp as int,
            status: self.status,
            thread: self.thread@,
            name: opt_str(self.name),
            mail: opt_str(self.mail),
            homepage: opt_str(self.homepage),
            author_name: opt_str(self.author_name),
            depth: self.depth as int,
        }
    }
}

/// The denormalized per-item comment summary: a cache of one aggregate.
#[derive(Debug, Clone)]
pub struct NodeCommentStatistics {
    pub nid: u32,
    pub last_comment_timestamp: i64,
    pub last_comment_name: Option<String>,
    pub last_comment_uid: u32,
    pub comment_count: u64,
}

#[verifier::ext_equal]
pub struct NodeCommentStatisticsView {
    pub nid: int,
    pub last_comment_timestamp: int,
    pub last_comment_name: Option<Seq<char>>,
    pub last_comment_uid: int,
    pub comment_count: int,
}

impl View for NodeCommentStatistics {
    type V = NodeCommentStatisticsView;

    open spec fn view(&self) -> NodeCommentStatisticsView {
        NodeCommentStatisticsView {
            nid: self.nid as int,
            last_comment_timestamp: self.last_comment_timestamp as int,
            last_comment_name: opt_str(self.last_comment_name),
            last_comment_uid: self.last_comment_uid as int,
            comment_count: self.comment_count as int,
        }
    }
}

/// A user account; id 0 stands for the anonymous visitor.
#[derive(Debug, Clone)]
pub struct User {
    pub uid: u32,
    pub name: String,
    pub pass: String,
    pub mail: Option<String>,
    pub status: i8,
    pub created: i64,
    pub login: i64,
}

#[verifier::ext_equal]
pub struct UserView {
    pub uid: int,
    pub name: Seq<char>,
    pub pass: Seq<char>,
    pub mail: Option<Seq<char>>,
    pub status: int,
    pub created: int,
    pub login: int,
}

impl View for User {
    type V = UserView;

    open spec fn view(&self) -> UserView {
        UserView {
            uid: self.uid as int,
            name: self.name@,
            pass: self.pass@,
            mail: opt_str(self.mail),
            status: self.status as int,
            created: self.created as int,
            login: self.login as int,
        }
    }
}

impl User {
    /// Whether this account is the anonymous visitor.
    pub fn is_anonymous(&self) -> (r: bool)
        ensures
            r == (self.uid == 0),
    {
        self.uid == 0
    }

    /// Whether this account belongs to a signed-in user.
    pub fn is_authenticated(&self) -> (r: bool)
        ensures
            r == (self.uid > 0),
    {
        self.uid > 0
    }
}


impl NodeType {
    /// A field-for-field copy.
    pub fn duplicate(&self) -> (r: NodeType)
        ensures
            r@ == self@,
    {
        NodeType {
            type_key: self.type_key.clone(),
            name: self.name.clone(),
            description: clone_opt_string(&self.description),
            help: clone_opt_string(&self.help),
        }
    }
}

impl Node {
    /// A field-for-field copy.
    pub fn duplicate(&self) -> (r: Node)
        ensures
            r@ == self@,
    {
        Node {
            nid: self.nid,
            vid: self.vid,
            node_type: self.node_type.clone(),
            title: self.title.clone(),
            uid: self.uid,
            published: self.published,
            created: self.created,
            changed: self.changed,
            promote: self.promote,
            sticky: self.sticky,
            comment: self.comment,
        }
    }
}

impl NodeRevision {
    /// A field-for-field copy.
    pub fn duplicate(&self) -> (r: NodeRevision)
        ensures
            r@ == self@,
    {
        NodeRevision {
            vid: self.vid,
            nid: self.nid,
            uid: self.uid,
            title: self.title.clone(),
            body: self.body.clone(),
            teaser: self.teaser.clone(),
            timestamp: self.timestamp,
        }
    }
}

impl NodeField {
    /// A field-for-field copy.
    pub fn duplicate(&self) -> (r: NodeField)
        ensures
            r@ == self@,
    {
        NodeField {
            field_name: self.field_name.clone(),
            field_type: self.field_type.clone(),
            cardinality: self.cardinality,
            settings: clone_opt_string(&self.settings),
        }
    }
}

impl FieldValueRow {
    /// A field-for-field copy.
    pub fn duplicate(&self) -> (r: FieldValueRow)
        ensures
            r@ == self@,
    {
        FieldValueRow {
            nid: self.nid,
            vid: self.vid,
            field_name: self.field_name.clone(),
            delta: self.delta,
            content: self.content.duplicate(),
        }
    }
}

impl Comment {
    /// A field-for-field copy.
    pub fn duplicate(&self) -> (r: Comment)
        ensures
            r@ == self@,
    {
        Comment {
            cid: self.cid,
            pid: self.pid,
            nid: self.nid,
            uid: self.uid,
            subject: self.subject.clone(),
            comment: self.comment.clone(),
            hostname: self.hostname.clone(),
            timestamp: self.timestamp,
            status: self.status,
            thread: self.thread.clone(),
            name: clone_opt_string(&self.name),
            mail: clone_opt_string(&self.mail),
            homepage: clone_opt_string(&self.homepage),
        }
    }
}

impl NodeCommentStatistics {
    /// A field-for-field copy.
    pub fn duplicate(&self) -> (r: NodeCommentStatistics)
        ensures
            r@ == self@,
    {
        NodeCommentStatistics {
            nid: self.nid,
            last_comment_timestamp: self.last_comment_timestamp,
            last_comment_name: clone_opt_string(&self.last_comment_name),
            last_comment_uid: self.last_comment_uid,
            comment_count: self.comment_count,
        }
    }
}

} // verus!
