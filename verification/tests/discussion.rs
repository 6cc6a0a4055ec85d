//! The comment thread engine: paths, ordering, the summary cache and the
//! uniqueness guard, plus the small account and site helpers.

use cms_core::records::{CommentMode, CommentStatus, User};
use cms_core::site::{ProfileField, SystemItem};
use cms_core::store::Store;
use cms_core::CoreError;

fn store_with_item() -> (Store, u32) {
    let mut store = Store::new();
    store
        .create_node_type("story", "Story", "", "")
        .unwrap();
    let (nid, _) = store
        .create_content("story", "Title", "Body", "Body", 1, false, false, 100)
        .unwrap();
    (store, nid)
}

fn post(store: &mut Store, nid: u32, pid: u32, body: &str, now: i64) -> u32 {
    store
        .create_comment(
            nid,
            pid,
            1,
            "",
            body,
            "127.0.0.1",
            None,
            None,
            None,
            CommentStatus::Published,
            now,
        )
        .unwrap()
}

#[test]
fn thread_paths_follow_the_tree() {
    let (mut store, nid) = store_with_item();
    let top = post(&mut store, nid, 0, "top", 110);
    assert_eq!(store.find_comment(top).unwrap().thread, "00/");
    let reply1 = post(&mut store, nid, top, "first reply", 120);
    assert_eq!(store.find_comment(reply1).unwrap().thread, "00.00/");
    let reply2 = post(&mut store, nid, top, "second reply", 130);
    assert_eq!(store.find_comment(reply2).unwrap().thread, "00.01/");
    let sibling = post(&mut store, nid, 0, "second top", 140);
    assert_eq!(store.find_comment(sibling).unwrap().thread, "01/");
}

#[test]
fn deep_reply_extends_the_parent_path() {
    let (mut store, nid) = store_with_item();
    let a = post(&mut store, nid, 0, "a", 110);
    let b = post(&mut store, nid, a, "b", 120);
    let c = post(&mut store, nid, b, "c", 130);
    assert_eq!(store.find_comment(c).unwrap().thread, "00.00.00/");
}

#[test]
fn listing_places_parents_before_their_descendants() {
    let (mut store, nid) = store_with_item();
    // depth three, two branches at each level
    let r0 = post(&mut store, nid, 0, "r0", 200);
    let r1 = post(&mut store, nid, 0, "r1", 201);
    let r0a = post(&mut store, nid, r0, "r0a", 202);
    let r0b = post(&mut store, nid, r0, "r0b", 203);
    let r1a = post(&mut store, nid, r1, "r1a", 204);
    let r1b = post(&mut store, nid, r1, "r1b", 205);
    let r0aa = post(&mut store, nid, r0a, "r0aa", 206);
    let r0ab = post(&mut store, nid, r0a, "r0ab", 207);
    let listing = store.list_thread(nid, false);
    let order: Vec<u32> = listing.iter().map(|c| c.cid).collect();
    assert_eq!(order, [r0, r0a, r0aa, r0ab, r0b, r1, r1a, r1b]);
    let depths: Vec<usize> = listing.iter().map(|c| c.depth).collect();
    assert_eq!(depths, [0, 1, 2, 2, 1, 0, 1, 1]);
}

#[test]
fn listing_hides_unpublished_unless_asked() {
    let (mut store, nid) = store_with_item();
    post(&mut store, nid, 0, "seen", 110);
    store
        .create_comment(
            nid,
            0,
            0,
            "held",
            "awaiting body",
            "host",
            Some("visitor"),
            None,
            None,
            CommentStatus::AwaitingModeration,
            120,
        )
        .unwrap();
    assert_eq!(store.list_thread(nid, false).len(), 1);
    assert_eq!(store.list_thread(nid, true).len(), 2);
}

#[test]
fn summary_counts_published_comments_only() {
    let (mut store, nid) = store_with_item();
    post(&mut store, nid, 0, "one", 110);
    post(&mut store, nid, 0, "two", 150);
    store
        .create_comment(
            nid,
            0,
            0,
            "held",
            "pending",
            "host",
            Some("anon"),
            None,
            None,
            CommentStatus::AwaitingModeration,
            200,
        )
        .unwrap();
    let stats = store.thread_stats(nid).unwrap();
    assert_eq!(stats.comment_count, 2);
    assert_eq!(stats.last_comment_timestamp, 150);
    assert_eq!(stats.last_comment_uid, 1);
    assert_eq!(store.count_for_node(nid), 2);
}

#[test]
fn deleting_the_only_comment_resets_the_summary() {
    let (mut store, nid) = store_with_item();
    let cid = post(&mut store, nid, 0, "alone", 110);
    assert_eq!(store.thread_stats(nid).unwrap().comment_count, 1);
    store.delete_comment(cid).unwrap();
    let stats = store.thread_stats(nid).unwrap();
    assert_eq!(stats.comment_count, 0);
    assert_eq!(stats.last_comment_timestamp, 0);
    assert_eq!(stats.last_comment_uid, 0);
    assert!(stats.last_comment_name.is_none());
}

#[test]
fn deleting_a_parent_leaves_children_in_place() {
    let (mut store, nid) = store_with_item();
    let top = post(&mut store, nid, 0, "parent", 110);
    let child = post(&mut store, nid, top, "child", 120);
    store.delete_comment(top).unwrap();
    assert!(store.find_comment(top).is_none());
    let orphan = store.find_comment(child).unwrap();
    assert_eq!(orphan.thread, "00.00/");
    assert_eq!(store.thread_stats(nid).unwrap().comment_count, 1);
}

#[test]
fn interleaved_replies_never_share_a_path() {
    let (mut store, nid) = store_with_item();
    let top = post(&mut store, nid, 0, "parent", 110);
    // two replies compute their paths before either inserts
    let path_a = store.compute_thread_path(nid, top).unwrap();
    let path_b = store.compute_thread_path(nid, top).unwrap();
    assert_eq!(path_a, path_b);
    store
        .insert_comment_with_path(
            nid,
            top,
            1,
            "a",
            "first in",
            "host",
            None,
            None,
            None,
            CommentStatus::Published,
            &path_a,
            120,
        )
        .unwrap();
    // the slower writer hits the uniqueness guard and retries
    let clash = store.insert_comment_with_path(
        nid,
        top,
        2,
        "b",
        "second in",
        "host",
        None,
        None,
        None,
        CommentStatus::Published,
        &path_b,
        121,
    );
    assert!(matches!(clash, Err(CoreError::Conflict)));
    let retry = store.compute_thread_path(nid, top).unwrap();
    assert_ne!(retry, path_b);
    store
        .insert_comment_with_path(
            nid,
            top,
            2,
            "b",
            "second in",
            "host",
            None,
            None,
            None,
            CommentStatus::Published,
            &retry,
            122,
        )
        .unwrap();
    let listing = store.list_thread(nid, true);
    for i in 0..listing.len() {
        for j in 0..listing.len() {
            if i != j {
                assert_ne!(listing[i].thread, listing[j].thread);
            }
        }
    }
}

#[test]
fn comment_mode_gates_writing() {
    let (mut store, nid) = store_with_item();
    let top = post(&mut store, nid, 0, "while open", 110);
    store.set_comment_mode(nid, CommentMode::ReadOnly).unwrap();
    let reply = store.create_comment(
        nid,
        top,
        1,
        "",
        "a reply",
        "host",
        None,
        None,
        None,
        CommentStatus::Published,
        120,
    );
    assert!(matches!(reply, Err(CoreError::ValidationError)));
    // a top-level comment is still taken while the item is read-only
    let top_under_read_only = post(&mut store, nid, 0, "still top", 125);
    assert!(store.find_comment(top_under_read_only).is_some());
    store.set_comment_mode(nid, CommentMode::Disabled).unwrap();
    let another_top = store.create_comment(
        nid,
        0,
        1,
        "",
        "a top",
        "host",
        None,
        None,
        None,
        CommentStatus::Published,
        130,
    );
    assert!(matches!(another_top, Err(CoreError::ValidationError)));
}

#[test]
fn blank_comment_body_is_rejected() {
    let (mut store, nid) = store_with_item();
    let got = store.create_comment(
        nid,
        0,
        1,
        "subject",
        "   \n  ",
        "host",
        None,
        None,
        None,
        CommentStatus::Published,
        110,
    );
    assert!(matches!(got, Err(CoreError::ValidationError)));
    assert!(store.thread_stats(nid).is_none());
}

#[test]
fn comment_on_unknown_item_is_not_found() {
    let mut store = Store::new();
    let got = store.create_comment(
        77,
        0,
        1,
        "s",
        "b",
        "host",
        None,
        None,
        None,
        CommentStatus::Published,
        110,
    );
    assert!(matches!(got, Err(CoreError::NotFound)));
}

#[test]
fn blank_subject_falls_back_to_the_body() {
    let (mut store, nid) = store_with_item();
    let cid = post(&mut store, nid, 0, "a body that becomes the subject", 110);
    assert_eq!(
        store.find_comment(cid).unwrap().subject,
        "a body that becomes the subject"
    );
    let mut long = String::new();
    for _ in 0..70 {
        long.push('w');
    }
    let cid2 = post(&mut store, nid, 0, &long, 120);
    let subject = store.find_comment(cid2).unwrap().subject;
    assert_eq!(subject.chars().count(), 60);
    assert!(subject.ends_with("..."));
}

#[test]
fn editing_keeps_status_and_thread() {
    let (mut store, nid) = store_with_item();
    store
        .create_comment(
            nid,
            0,
            0,
            "old subject",
            "old body",
            "host",
            Some("anon"),
            None,
            None,
            CommentStatus::AwaitingModeration,
            110,
        )
        .unwrap();
    let cid = store.list_thread(nid, true)[0].cid;
    store.update_comment(cid, "new subject", "new body").unwrap();
    let edited = store.find_comment(cid).unwrap();
    assert_eq!(edited.subject, "new subject");
    assert_eq!(edited.comment, "new body");
    assert_eq!(edited.status, CommentStatus::AwaitingModeration);
    assert_eq!(edited.thread, "00/");
    assert!(matches!(
        store.update_comment(999, "s", "b"),
        Err(CoreError::NotFound)
    ));
}

#[test]
fn listing_shows_author_account_names() {
    let (mut store, nid) = store_with_item();
    let uid = store.create_user("maud", "pw-123", "maud@site.example", 90).unwrap();
    store
        .create_comment(
            nid,
            0,
            uid,
            "s",
            "signed body",
            "host",
            None,
            None,
            None,
            CommentStatus::Published,
            110,
        )
        .unwrap();
    store
        .create_comment(
            nid,
            0,
            0,
            "s2",
            "anonymous body",
            "host",
            Some("visitor"),
            None,
            None,
            CommentStatus::Published,
            120,
        )
        .unwrap();
    let listing = store.list_thread(nid, false);
    assert_eq!(listing[0].author_name.as_deref(), Some("maud"));
    assert!(listing[1].author_name.is_none());
    assert_eq!(listing[1].name.as_deref(), Some("visitor"));
}

#[test]
fn summary_name_follows_the_latest_published_comment() {
    let (mut store, nid) = store_with_item();
    store
        .create_comment(
            nid,
            0,
            0,
            "s",
            "body one",
            "host",
            Some("early"),
            None,
            None,
            CommentStatus::Published,
            110,
        )
        .unwrap();
    store
        .create_comment(
            nid,
            0,
            0,
            "s",
            "body two",
            "host",
            Some("late"),
            None,
            None,
            CommentStatus::Published,
            300,
        )
        .unwrap();
    let stats = store.thread_stats(nid).unwrap();
    assert_eq!(stats.last_comment_name.as_deref(), Some("late"));
    assert_eq!(stats.last_comment_timestamp, 300);
}

#[test]
fn account_helpers_tell_anonymous_apart() {
    let anon = User {
        uid: 0,
        name: String::new(),
        pass: String::new(),
        mail: None,
        status: 1,
        created: 0,
        login: 0,
    };
    assert!(anon.is_anonymous());
    assert!(!anon.is_authenticated());
    let member = User { uid: 3, name: String::from("kim"), ..anon };
    assert!(!member.is_anonymous());
    assert!(member.is_authenticated());
}

#[test]
fn required_modules_are_recognised() {
    let mut item = SystemItem {
        filename: String::from("modules/node"),
        name: String::from("node"),
        item_type: String::from("module"),
        description: None,
        status: 1,
        throttle: 0,
        bootstrap: 0,
        schema_version: 1,
        weight: 0,
    };
    assert!(item.is_required_module());
    item.name = String::from("statistics");
    assert!(!item.is_required_module());
}

#[test]
fn profile_options_split_into_trimmed_lines() {
    let field = ProfileField {
        fid: 1,
        title: Some(String::from("Colour")),
        name: String::from("profile_colour"),
        explanation: None,
        category: None,
        page: None,
        field_type: Some(String::from("selection")),
        weight: 0,
        required: 0,
        register: 0,
        visibility: 2,
        options: Some(String::from("  red  \ngreen\r\n\n  blue")),
    };
    let options = field.get_options_list();
    assert_eq!(options, ["red", "green", "blue"]);
    let bare = ProfileField { options: None, ..field };
    assert!(bare.get_options_list().is_empty());
}

#[test]
fn exhausted_sibling_width_surfaces_a_conflict() {
    // Once a two-digit group overflows into three digits, plain string
    // order stops matching numeric order: the widest sibling no longer
    // sorts last, the next path is computed again, and the uniqueness
    // guard refuses it.
    let (mut store, nid) = store_with_item();
    let top = post(&mut store, nid, 0, "parent", 110);
    store
        .insert_comment_with_path(
            nid,
            top,
            1,
            "s",
            "widest two-digit child",
            "host",
            None,
            None,
            None,
            CommentStatus::Published,
            "00.zz/",
            120,
        )
        .unwrap();
    store
        .insert_comment_with_path(
            nid,
            top,
            1,
            "s",
            "first three-digit child",
            "host",
            None,
            None,
            None,
            CommentStatus::Published,
            "00.100/",
            121,
        )
        .unwrap();
    assert_eq!(store.compute_thread_path(nid, top).unwrap(), "00.100/");
    let got = store.create_comment(
        nid,
        top,
        1,
        "s",
        "one child too many",
        "host",
        None,
        None,
        None,
        CommentStatus::Published,
        122,
    );
    assert!(matches!(got, Err(CoreError::Conflict)));
}
