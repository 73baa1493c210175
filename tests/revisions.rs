use mush::commit::{CommitObject, PersonTime, Timestamp};
use mush::config::PartialUser;
use mush::object::Object;
use mush::revision::{Modifier, RevisionError, RevisionSpec, WalkAction};
use mush::status::{ExitType, StagedChangeType, UnstagedChangeType};

#[test]
fn parses_modifiers_left_to_right() {
    let spec = RevisionSpec::parse("abc~2^").ok().unwrap();
    assert_eq!(spec.modifiers(), &vec![Modifier::NthGenerationalParent(2), Modifier::NthParent(1)]);
    assert_eq!(spec.input_text(), "abc~2^");
}

#[test]
fn rejects_bad_modifiers() {
    assert_eq!(RevisionSpec::parse("abc^x").err(), Some(RevisionError::BadRevision));
    assert_eq!(RevisionSpec::parse("^2").err(), Some(RevisionError::BadRevision));
    assert_eq!(RevisionSpec::parse("").err(), Some(RevisionError::BadRevision));
    assert_eq!(
        RevisionSpec::parse("abc~99999999999999999999999").err(),
        Some(RevisionError::BadRevision)
    );
}

#[test]
fn plain_hash_dereferences() {
    let spec = RevisionSpec::parse("d670460b4b4aece5915caf5c68d12f560a9fe3e4").ok().unwrap();
    assert!(spec.modifiers().is_empty());
    assert_eq!(spec.dereference().ok().unwrap().as_str(), "d670460b4b4aece5915caf5c68d12f560a9fe3e4");
    let named = RevisionSpec::parse("master").ok().unwrap();
    assert_eq!(named.dereference().err(), Some(RevisionError::InvalidObjectName));
    assert!(named.try_dereference().is_none());
}

fn commit(parents: Vec<mush::hash::Hash>) -> Object {
    Object::Commit(CommitObject {
        tree_hash: mush::hash::Hash::from_str("4b825dc642cb6eb9a060e54bf8d69288fbee4904").unwrap(),
        parent_hashes: parents,
        author: PersonTime {
            name: "a".to_string(),
            email: "e".to_string(),
            timestamp: Timestamp { seconds: 0, offset: 0 },
        },
        message: String::new(),
    })
}

#[test]
fn walks_first_parents() {
    let root = commit(vec![]);
    let middle = commit(vec![root.hash()]);
    let tip = commit(vec![middle.hash(), root.hash()]);
    let store = vec![root, middle, tip];
    let find = |h: &mush::hash::Hash| store.iter().find(|o| o.hash() == *h).unwrap();

    let spec = RevisionSpec::parse("x~1^").ok().unwrap();
    let mut walk = spec.walk(store[2].hash());
    let result = loop {
        match walk.next_action() {
            WalkAction::Load(h) => walk.advance(find(&h)).ok().unwrap(),
            WalkAction::Done(h) => break h,
        }
    };
    assert!(result == store[0].hash());

    let mut too_far = RevisionSpec::parse("x~3").ok().unwrap().walk(store[2].hash());
    let err = loop {
        match too_far.next_action() {
            WalkAction::Load(h) => {
                if let Err(e) = too_far.advance(find(&h)) {
                    break e;
                }
            }
            WalkAction::Done(_) => panic!("walked too far"),
        }
    };
    assert_eq!(err, RevisionError::RevisionNotFound { reached: 2 });
}

#[test]
fn modifiers_need_commits() {
    let blob = Object::Blob(b"abc\n".to_vec());
    let mut walk = RevisionSpec::parse("x^0").ok().unwrap().walk(blob.hash());
    assert_eq!(walk.advance(&blob), Err(RevisionError::NotACommit));
}

#[test]
fn partial_user_needs_both_parts() {
    let full = PartialUser { name: Some("Bud Weiser".to_string()), email: Some("bud@wiser.org".to_string()) };
    let user = full.try_into_user().unwrap();
    assert_eq!(user.name, "Bud Weiser");
    let half = PartialUser { name: Some("Bud Weiser".to_string()), email: None };
    assert!(half.try_into_user().is_none());
}

#[test]
fn config_paths() {
    assert_eq!(mush::config::config_path("user.name"), "config/user/name");
    assert_eq!(mush::config::config_path("a.b.c"), "config/a/b/c");
    assert_eq!(mush::config::config_path("plain"), "config/plain");
}

#[test]
fn status_labels() {
    assert_eq!(StagedChangeType::Add.label(), "new file");
    assert_eq!(UnstagedChangeType::Delete.label(), "deleted");
    assert_eq!(ExitType::Fatal.code(), 128);
    assert_eq!(ExitType::Success.code(), 0);
}
