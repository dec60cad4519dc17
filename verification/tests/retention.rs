//! The retention policy on concrete tags.

use janitor::retention::{tags_to_delete, Tag};

const SECOND: i128 = 1_000_000_000;

fn tag(name: &str, secs: u64) -> Tag {
    Tag {
        name: name.to_string(),
        digest: format!("sha256:{name}"),
        mtime: i128::from(secs) * SECOND,
    }
}

fn names(tags: &[Tag]) -> Vec<&str> {
    tags.iter().map(|t| t.name.as_str()).collect()
}

#[test]
fn keeps_newest_n_by_mtime() {
    let tags = vec![tag("v1", 100), tag("v2", 200), tag("v3", 300), tag("v4", 400)];
    let del = tags_to_delete(&tags, 2);
    // v3 (300) and v4 (400) are newest, so v1 and v2 go.
    assert_eq!(names(&del), vec!["v2", "v1"]);
}

#[test]
fn keep_zero_deletes_everything() {
    let tags = vec![tag("a", 1), tag("b", 2)];
    assert_eq!(tags_to_delete(&tags, 0).len(), 2);
}

#[test]
fn keep_at_or_above_count_deletes_nothing() {
    let tags = vec![tag("a", 1), tag("b", 2)];
    assert!(tags_to_delete(&tags, 2).is_empty());
    assert!(tags_to_delete(&tags, 5).is_empty());
    assert!(tags_to_delete(&[], 3).is_empty());
}

#[test]
fn equal_mtime_is_deterministic_by_name() {
    // All at one time: the names that come last are kept.
    let tags = vec![tag("a", 50), tag("b", 50), tag("c", 50)];
    let del = tags_to_delete(&tags, 1);
    assert_eq!(names(&del), vec!["b", "a"]);
}

#[test]
fn input_order_does_not_change_result() {
    let a = vec![tag("v1", 100), tag("v2", 200), tag("v3", 300)];
    let b = vec![tag("v3", 300), tag("v1", 100), tag("v2", 200)];
    let da: Vec<_> = tags_to_delete(&a, 1).into_iter().map(|t| t.name).collect();
    let db: Vec<_> = tags_to_delete(&b, 1).into_iter().map(|t| t.name).collect();
    assert_eq!(da, db);
}

#[test]
fn names_are_told_apart_by_code_point() {
    // The order of strings: capitals before small letters, a name before its extensions, and
    // code points, not code units.
    let tags = vec![tag("b", 7), tag("B", 7), tag("ab", 7), tag("a", 7), tag("\u{ffff}", 7), tag("\u{10000}", 7)];
    assert_eq!(
        names(&tags_to_delete(&tags, 0)),
        vec!["\u{10000}", "\u{ffff}", "b", "ab", "a", "B"]
    );
}

#[test]
fn the_order_of_names_is_that_of_strings() {
    let words = ["", "a", "A", "aa", "ab", "b", "\u{7f}", "\u{80}", "\u{7ff}", "\u{800}", "\u{d7ff}", "\u{e000}",
        "\u{ffff}", "\u{10000}", "\u{10ffff}", "a\u{10000}", "a\u{ffff}", "v1", "v10", "v2"];
    for a in words {
        for b in words {
            assert_eq!(janitor::names::comes_before(a, b), a < b, "{a:?} {b:?}");
        }
    }
}

#[test]
fn tags_with_one_time_and_name_keep_their_order() {
    let mut first = tag("v", 5);
    first.digest = "sha256:first".to_string();
    let mut second = tag("v", 5);
    second.digest = "sha256:second".to_string();
    let tags = vec![tag("old", 1), first.clone(), second.clone(), tag("new", 9)];
    assert_eq!(tags_to_delete(&tags, 1), vec![first, second, tag("old", 1)]);
}

#[test]
fn times_before_the_epoch_are_older() {
    let mut early = tag("z", 0);
    early.mtime = -1;
    let tags = vec![early.clone(), tag("a", 0)];
    assert_eq!(tags_to_delete(&tags, 1), vec![early]);
}

#[test]
fn many_tags_come_out_sorted() {
    let tags: Vec<Tag> = (0..500u64).map(|i| tag(&format!("t{i}"), (i * 7919) % 101)).collect();
    let mut expected = tags.clone();
    expected.sort_by(|a, b| b.mtime.cmp(&a.mtime).then_with(|| b.name.cmp(&a.name)));
    assert_eq!(tags_to_delete(&tags, 37), expected[37..].to_vec());
}

#[test]
fn a_push_refreshes_its_tag() {
    let mut tags = vec![tag("v1", 100), tag("v2", 200), tag("v3", 300)];
    assert_eq!(names(&tags_to_delete(&tags, 2)), vec!["v1"]);
    tags[0].mtime = 400 * SECOND;
    assert_eq!(names(&tags_to_delete(&tags, 2)), vec!["v2"]);
}

#[test]
fn keeping_more_takes_from_the_front() {
    let tags = vec![tag("v1", 100), tag("v2", 200), tag("v3", 300), tag("v4", 400)];
    let one = tags_to_delete(&tags, 1);
    let three = tags_to_delete(&tags, 3);
    assert_eq!(one[2..].to_vec(), three);
}

#[test]
fn what_stays_stays_the_next_time() {
    let tags = vec![tag("v1", 100), tag("v2", 200), tag("v3", 300), tag("v4", 400)];
    let going = tags_to_delete(&tags, 2);
    let left: Vec<Tag> = tags.into_iter().filter(|t| !going.contains(t)).collect();
    assert_eq!(names(&left), vec!["v3", "v4"]);
    assert!(tags_to_delete(&left, 2).is_empty());
}

#[test]
fn a_tag_goes_if_enough_are_more_recent() {
    let tags = vec![tag("v3", 300), tag("a", 50), tag("b", 50), tag("v1", 100)];
    for keep in 0..6 {
        let going = tags_to_delete(&tags, keep);
        for t in &tags {
            let more_recent = tags.iter().filter(|o| (o.mtime, &o.name) > (t.mtime, &t.name)).count();
            assert_eq!(going.contains(t), more_recent >= keep);
        }
    }
}

#[test]
fn the_digest_plays_no_part() {
    let a: Vec<Tag> = vec![tag("b", 5), tag("a", 5), tag("c", 9), tag("d", 1)];
    let mut b: Vec<Tag> = a.clone();
    for (i, t) in b.iter_mut().enumerate() {
        t.digest = format!("sha256:{i}");
    }
    for keep in 0..5 {
        let (x, y) = (tags_to_delete(&a, keep), tags_to_delete(&b, keep));
        assert_eq!(names(&x), names(&y));
        assert!(x.iter().zip(&y).all(|(t, u)| t.mtime == u.mtime));
    }
}
