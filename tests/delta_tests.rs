use lib_ot::attributes::{Attribute, Attributes};
use lib_ot::builder::{trim, DeltaBuilder};
use lib_ot::checksum::checksum_of_text;
use lib_ot::delta::{Delta, Operation};
use lib_ot::session::{DocumentSession, Revision, SessionError};

fn attrs(pairs: &[(&str, Option<&str>)]) -> Attributes {
    let mut a = Attributes::new();
    for (k, v) in pairs {
        a.set(Attribute { key: k.to_string(), value: v.map(|s| s.to_string()) });
    }
    a
}

fn trimmed(d: &Delta) -> Delta {
    let mut c = d.copy();
    trim(&mut c);
    c
}

fn text_of(d: &Delta) -> String {
    d.text().into_iter().collect()
}

#[test]
fn builder_merges_adjacent_retains_and_inserts() {
    let d = DeltaBuilder::new().retain(2).retain(3).insert("ab").insert("c").build();
    assert_eq!(d.ops.len(), 2);
    assert_eq!(d.ops[0], Operation::Retain(5, Attributes::new()));
    assert_eq!(d.ops[1], Operation::Insert(vec!['a', 'b', 'c'], Attributes::new()));
}

#[test]
fn builder_merges_deletes_but_not_delete_and_insert() {
    let d = DeltaBuilder::new().delete(1).delete(2).insert("x").delete(1).build();
    assert_eq!(d.ops.len(), 3);
    assert_eq!(d.ops[0], Operation::Delete(3));
    assert_eq!(d.ops[2], Operation::Delete(1));
}

#[test]
fn builder_keeps_retains_with_different_attributes_apart() {
    let bold = attrs(&[("bold", Some("true"))]);
    let d = DeltaBuilder::new().retain(1).retain_with_attributes(2, bold).build();
    assert_eq!(d.ops.len(), 2);
}

#[test]
fn builder_ignores_zero_lengths() {
    let d = DeltaBuilder::new().retain(0).delete(0).insert("").build();
    assert_eq!(d.ops.len(), 0);
}

#[test]
fn trim_removes_one_trailing_plain_retain() {
    let d = DeltaBuilder::new().insert("a").retain(4).trim().build();
    assert_eq!(d, DeltaBuilder::new().insert("a").build());
    let mut e = DeltaBuilder::new().insert("a").retain(4).build();
    trim(&mut e);
    assert_eq!(e, d);
}

#[test]
fn trim_keeps_formatted_retain() {
    let bold = attrs(&[("bold", Some("true"))]);
    let d = DeltaBuilder::new().retain_with_attributes(2, bold).trim().build();
    assert_eq!(d.ops.len(), 1);
}

#[test]
fn trim_twice_equals_trim_once() {
    let once = DeltaBuilder::new().insert("ab").retain(3).trim().build();
    let twice = DeltaBuilder::new().insert("ab").retain(3).trim().trim().build();
    assert_eq!(once, twice);
}

#[test]
fn lengths_of_a_delta() {
    let d = DeltaBuilder::new().retain(2).delete(3).insert("xyz").retain(1).build();
    assert_eq!(d.base_len(), 5);
    assert_eq!(d.target_len(), 5);
    let f = DeltaBuilder::new().retain(2).delete(3).insert("xyz").retain_with_attributes(1, attrs(&[("b", None)])).build();
    assert_eq!(f.base_len(), 6);
    assert_eq!(f.target_len(), 6);
    let e = DeltaBuilder::new().insert("hello").build();
    assert_eq!(e.base_len(), 0);
    assert_eq!(e.target_len(), 5);
}

#[test]
fn compose_insert_then_append() {
    let a = DeltaBuilder::new().insert("Hi").build();
    let b = DeltaBuilder::new().retain(2).insert("!").build();
    let c = a.compose(&b).unwrap();
    assert_eq!(c, DeltaBuilder::new().insert("Hi!").build());
}

#[test]
fn compose_lengths() {
    let a = DeltaBuilder::new().retain(3).insert("ab").delete(2).build();
    let b = DeltaBuilder::new().delete(1).retain(4).insert("z").build();
    let c = a.compose(&b).unwrap();
    assert_eq!(c.base_len(), a.base_len());
    assert_eq!(c.target_len(), b.target_len());
}

#[test]
fn compose_delete_cancels_insert() {
    let a = DeltaBuilder::new().insert("abc").build();
    let b = DeltaBuilder::new().retain(1).delete(1).retain(1).build();
    let c = a.compose(&b).unwrap();
    assert_eq!(c, DeltaBuilder::new().insert("ac").build());
}

#[test]
fn compose_merges_attributes_right_biased() {
    let a = DeltaBuilder::new()
        .insert_with_attributes("ab", attrs(&[("bold", Some("true")), ("size", Some("1"))]))
        .build();
    let b = DeltaBuilder::new()
        .retain_with_attributes(2, attrs(&[("size", Some("2")), ("italic", None)]))
        .build();
    let c = a.compose(&b).unwrap();
    let expected = attrs(&[("bold", Some("true")), ("size", Some("2")), ("italic", None)]);
    assert_eq!(c, DeltaBuilder::new().insert_with_attributes("ab", expected).build());
}

#[test]
fn compose_extends_shorter_first_delta() {
    let a = DeltaBuilder::new().insert("Hi").build();
    let b = DeltaBuilder::new().retain(3).insert("x").build();
    let c = a.compose(&b).unwrap();
    assert_eq!(c, DeltaBuilder::new().insert("Hi").retain(1).insert("x").build());
    assert_eq!(c.base_len(), 1);
    assert_eq!(c.target_len(), 4);
}

#[test]
fn compose_is_associative_on_example() {
    let a = DeltaBuilder::new().insert("abc").build();
    let b = DeltaBuilder::new().retain(1).insert("X").retain(2).build();
    let c = DeltaBuilder::new().delete(2).retain(2).insert("Y").build();
    let left = a.compose(&b).unwrap().compose(&c).unwrap();
    let right = a.compose(&b.compose(&c).unwrap()).unwrap();
    assert_eq!(left, right);
    assert_eq!(text_of(&left), "bcY");
}

#[test]
fn transform_shifts_delete_past_concurrent_insert() {
    let a = DeltaBuilder::new().retain(5).delete(3).build();
    let b = DeltaBuilder::new().retain(2).insert("XY").build();
    let t = a.transform(&b, false).unwrap();
    assert_eq!(t, DeltaBuilder::new().retain(7).delete(3).build());
}

#[test]
fn transform_extends_shorter_delta() {
    let a = DeltaBuilder::new().retain(3).delete(2).build();
    let b = DeltaBuilder::new().insert("Z").build();
    let t = a.transform(&b, false).unwrap();
    assert_eq!(t, DeltaBuilder::new().retain(4).delete(2).build());
}

#[test]
fn build_trims_trailing_plain_retain() {
    let d = DeltaBuilder::new().retain(5).build();
    assert_eq!(d.ops.len(), 0);
    let e = DeltaBuilder::new().insert("a").retain(2).build();
    assert_eq!(e.ops.len(), 1);
    assert!(e.is_well_formed());
}

#[test]
fn compose_keeps_rest_of_document_for_trimmed_delta() {
    let doc = DeltaBuilder::new().insert("hello").build();
    let edit = DeltaBuilder::new().retain(1).delete(1).build();
    let c = doc.compose(&edit).unwrap();
    assert_eq!(text_of(&c), "hllo");
}

#[test]
fn transform_priority_orders_inserts() {
    let a = DeltaBuilder::new().insert("A").build();
    let b = DeltaBuilder::new().insert("B").build();
    let mut first = a.transform(&b, true).unwrap();
    assert_eq!(first.ops[1], Operation::Retain(1, Attributes::new()));
    trim(&mut first);
    assert_eq!(first, DeltaBuilder::new().insert("A").build());
    let second = a.transform(&b, false).unwrap();
    assert_eq!(second, DeltaBuilder::new().retain(1).insert("A").build());
}

#[test]
fn transform_converges_on_example() {
    let doc = DeltaBuilder::new().insert("abcdef").build();
    let a = DeltaBuilder::new().retain(2).insert("XY").retain(4).build();
    let b = DeltaBuilder::new().retain(1).delete(2).insert("Q").retain(3).build();
    let left = a.compose(&b.transform(&a, false).unwrap()).unwrap();
    let right = b.compose(&a.transform(&b, true).unwrap()).unwrap();
    assert_eq!(text_of(&doc.compose(&left).unwrap()), "aXYQdef");
    assert_eq!(text_of(&doc.compose(&right).unwrap()), "aXYQdef");
    assert_eq!(left.base_len(), right.base_len());
    assert_eq!(left.target_len(), right.target_len());
}

#[test]
fn transform_retain_attributes_without_priority_yield_to_other() {
    let a = DeltaBuilder::new().retain_with_attributes(2, attrs(&[("bold", Some("true")), ("size", Some("1"))])).build();
    let b = DeltaBuilder::new().retain_with_attributes(2, attrs(&[("bold", None)])).build();
    let t = a.transform(&b, false).unwrap();
    assert_eq!(t, DeltaBuilder::new().retain_with_attributes(2, attrs(&[("size", Some("1"))])).build());
    let p = a.transform(&b, true).unwrap();
    assert_eq!(p, a);
}

#[test]
fn checksum_is_md5_hex() {
    assert_eq!(checksum_of_text(""), "d41d8cd98f00b204e9800998ecf8427e");
    assert_eq!(checksum_of_text("abc"), "900150983cd24fb0d6963f7d28e17f72");
}

fn revision(base: u64, delta: Delta, text: &str) -> Revision {
    Revision { base_revision: base, delta, md5: checksum_of_text(text) }
}

#[test]
fn open_replays_the_log() {
    let log = vec![
        revision(0, DeltaBuilder::new().insert("ab").build(), "ab"),
        revision(1, DeltaBuilder::new().retain(1).insert("X").retain(1).build(), "aXb"),
    ];
    let s = DocumentSession::open("doc".to_string(), &log).unwrap();
    assert_eq!(s.snapshot().into_iter().collect::<String>(), "aXb");
    assert_eq!(s.committed_revision(), 2);
    assert!(s.is_idle());
}

#[test]
fn open_rejects_bad_checksum() {
    let log = vec![revision(0, DeltaBuilder::new().insert("ab").build(), "ba")];
    assert_eq!(DocumentSession::open("doc".to_string(), &log).err(), Some(SessionError::IntegrityError));
}

#[test]
fn open_rejects_length_mismatch() {
    let log = vec![revision(0, DeltaBuilder::new().retain(2).insert("x").build(), "")];
    assert_eq!(DocumentSession::open("doc".to_string(), &log).err(), Some(SessionError::LengthMismatch));
}

#[test]
fn local_edits_then_remote_insert_converge() {
    let mut s = DocumentSession::open("doc".to_string(), &vec![]).unwrap();
    let r1 = s.apply_local_delta(DeltaBuilder::new().insert("A").build()).unwrap();
    assert_eq!(r1.base_revision, 0);
    assert_eq!(r1.md5, checksum_of_text("A"));
    let r2 = s.apply_local_delta(DeltaBuilder::new().retain(1).insert("B").build()).unwrap();
    assert_eq!(r2.base_revision, 1);
    assert_eq!(s.pending_local().len(), 2);
    let remote = revision(0, DeltaBuilder::new().insert("X").build(), "ABX");
    assert_eq!(s.apply_remote_revision(remote), Ok(()));
    assert_eq!(s.snapshot().into_iter().collect::<String>(), "ABX");
    assert_eq!(s.committed_revision(), 1);
    assert_eq!(trimmed(&s.pending_local()[0].delta), DeltaBuilder::new().insert("A").build());
    assert_eq!(trimmed(&s.pending_local()[1].delta), DeltaBuilder::new().retain(1).insert("B").build());
}

#[test]
fn remote_checksum_mismatch_makes_session_unusable() {
    let mut s = DocumentSession::open("doc".to_string(), &vec![]).unwrap();
    s.apply_local_delta(DeltaBuilder::new().insert("A").build()).unwrap();
    let remote = revision(0, DeltaBuilder::new().insert("X").build(), "XA");
    assert_eq!(s.apply_remote_revision(remote), Err(SessionError::IntegrityError));
    assert!(s.is_discarded());
    assert_eq!(s.snapshot().into_iter().collect::<String>(), "A");
    let again = revision(0, DeltaBuilder::new().insert("Y").build(), "AY");
    assert_eq!(s.apply_remote_revision(again), Err(SessionError::Unusable));
    assert_eq!(s.apply_local_delta(DeltaBuilder::new().insert("Z").build()).err(), Some(SessionError::Unusable));
}

#[test]
fn remote_length_mismatch_leaves_session_unchanged() {
    let mut s = DocumentSession::open("doc".to_string(), &vec![]).unwrap();
    let remote = revision(0, DeltaBuilder::new().retain(3).insert("x").build(), "");
    assert_eq!(s.apply_remote_revision(remote), Err(SessionError::LengthMismatch));
    assert!(!s.is_discarded());
    assert_eq!(s.committed_revision(), 0);
}

#[test]
fn acknowledge_pops_oldest_pending() {
    let mut s = DocumentSession::open("doc".to_string(), &vec![]).unwrap();
    assert_eq!(s.acknowledge().err(), Some(SessionError::NotFound));
    s.apply_local_delta(DeltaBuilder::new().insert("A").build()).unwrap();
    s.apply_local_delta(DeltaBuilder::new().retain(1).insert("B").build()).unwrap();
    let r = s.acknowledge().unwrap();
    assert_eq!(r.base_revision, 0);
    assert_eq!(s.committed_revision(), 1);
    assert!(!s.is_idle());
    s.acknowledge().unwrap();
    assert!(s.is_idle());
}

#[test]
fn local_length_mismatch() {
    let mut s = DocumentSession::open("doc".to_string(), &vec![]).unwrap();
    assert_eq!(
        s.apply_local_delta(DeltaBuilder::new().retain(1).insert("x").build()).err(),
        Some(SessionError::LengthMismatch)
    );
    assert!(s.is_idle());
}

#[test]
fn close_reports_unsynced_edits() {
    let mut s = DocumentSession::open("doc".to_string(), &vec![]).unwrap();
    s.apply_local_delta(DeltaBuilder::new().insert("A").build()).unwrap();
    s.apply_local_delta(DeltaBuilder::new().retain(1).insert("B").build()).unwrap();
    assert_eq!(s.close(), Err(SessionError::UnsyncedEditsDiscarded(2)));
    let idle = DocumentSession::open("doc".to_string(), &vec![]).unwrap();
    assert_eq!(idle.close(), Ok(()));
}

#[test]
fn remote_insert_shifts_pending_delete() {
    let log = vec![revision(0, DeltaBuilder::new().insert("abcdefgh").build(), "abcdefgh")];
    let mut s = DocumentSession::open("doc".to_string(), &log).unwrap();
    s.apply_local_delta(DeltaBuilder::new().retain(5).delete(3).build()).unwrap();
    let remote = revision(1, DeltaBuilder::new().retain(2).insert("XY").build(), "abXYcde");
    assert_eq!(s.apply_remote_revision(remote), Ok(()));
    assert_eq!(s.snapshot().into_iter().collect::<String>(), "abXYcde");
    assert_eq!(s.pending_local()[0].delta, DeltaBuilder::new().retain(7).delete(3).build());
    assert_eq!(s.committed_revision(), 2);
}

#[test]
fn stored_revision_matches_returned_one() {
    let mut s = DocumentSession::open("doc".to_string(), &vec![]).unwrap();
    s.apply_local_delta(DeltaBuilder::new().insert("A").build()).unwrap();
    let r = s.apply_local_delta(DeltaBuilder::new().retain(1).insert("B").build()).unwrap();
    let stored = &s.pending_local()[1];
    assert_eq!(stored.base_revision, 1);
    assert_eq!(stored.md5, r.md5);
    assert_eq!(stored.md5, checksum_of_text("AB"));
    assert_eq!(s.pending_local()[0].base_revision, 0);
}
