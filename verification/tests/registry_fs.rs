//! Tags and paths of a store.

use janitor::registry_fs::{
    join, DeleteAction, DeleteEvent, Layout, Link, TagEntry, TagsAction, TagsEvent, LINK, MANIFESTS,
};
use janitor::retention::{tags_to_delete, Tag};

/// One repository in memory: the entries of its directory of tags.
struct Repo {
    entries: Vec<(String, bool, Option<(String, i128)>)>,
}

impl Repo {
    fn scaffold(&mut self, tag: &str, digest: &str, mtime: i128) {
        self.entries.push((tag.to_string(), true, Some((digest.to_string(), mtime))));
    }

    fn listing(&self) -> Vec<TagEntry> {
        self.entries
            .iter()
            .map(|(name, is_dir, link)| TagEntry {
                name: name.clone(),
                is_dir: *is_dir,
                link: link.as_ref().map(|(content, mtime)| Link {
                    content: content.clone(),
                    mtime: *mtime,
                }),
            })
            .collect()
    }

    fn tags(&self, layout: &Layout) -> Vec<Tag> {
        match layout.tags::<&str>("app", TagsEvent::Start) {
            TagsAction::List(path) => {
                assert_eq!(path, "/data/docker/registry/v2/repositories/app/_manifests/tags")
            }
            _ => panic!("a listing"),
        }
        match layout.tags::<&str>("app", TagsEvent::Listed(self.listing())) {
            TagsAction::Done(tags) => tags,
            _ => panic!("tags"),
        }
    }

    /// Whether the deletion of `tag` succeeded.
    fn delete_tag(&mut self, layout: &Layout, tag: &str) -> bool {
        let event: DeleteEvent<&str> = match layout.delete_tag::<&str>("app", tag, DeleteEvent::Start) {
            DeleteAction::Remove(path) => {
                assert_eq!(
                    path,
                    format!("/data/docker/registry/v2/repositories/app/_manifests/tags/{tag}")
                );
                let before = self.entries.len();
                self.entries.retain(|(name, _, _)| name != tag);
                if self.entries.len() < before {
                    DeleteEvent::Removed
                } else {
                    DeleteEvent::NotFound
                }
            }
            _ => panic!("a removal"),
        };
        matches!(layout.delete_tag("app", tag, event), DeleteAction::Done)
    }
}

fn empty() -> Repo {
    Repo { entries: Vec::new() }
}

#[test]
fn reads_tags_with_digests() {
    let mut repo = empty();
    repo.scaffold("v1", "sha256:111", 1);
    repo.scaffold("v2", "sha256:222", 1);

    let layout = Layout::new("/data");
    let mut tags = repo.tags(&layout);
    tags.sort_by(|a, b| a.name.cmp(&b.name));
    assert_eq!(tags.len(), 2);
    assert_eq!(tags[0].name, "v1");
    assert_eq!(tags[0].digest, "sha256:111");
    assert_eq!(tags[1].digest, "sha256:222");
}

#[test]
fn delete_tag_removes_dir_and_is_idempotent() {
    let mut repo = empty();
    repo.scaffold("v1", "sha256:1", 1);
    let layout = Layout::new("/data");

    assert_eq!(repo.tags(&layout).len(), 1);
    assert!(repo.delete_tag(&layout, "v1"));
    assert_eq!(repo.tags(&layout).len(), 0);
    // Deleting again is no failure.
    assert!(repo.delete_tag(&layout, "v1"));
}

#[test]
fn tag_without_current_link_is_skipped() {
    let mut repo = empty();
    repo.entries.push(("broken".to_string(), true, None));
    repo.scaffold("good", "sha256:ok", 1);

    let tags = repo.tags(&Layout::new("/data"));
    assert_eq!(tags.len(), 1);
    assert_eq!(tags[0].name, "good");
}

#[test]
fn mtime_increases_with_write_order() {
    let mut repo = empty();
    repo.scaffold("old", "sha256:o", 0);
    repo.scaffold("new", "sha256:n", 1_100_000_000);

    let tags = repo.tags(&Layout::new("/data"));
    let old = tags.iter().find(|t| t.name == "old").unwrap();
    let new = tags.iter().find(|t| t.name == "new").unwrap();
    assert!(new.mtime >= old.mtime);
    assert_eq!(new.mtime, 1_100_000_000);
}

#[test]
fn files_among_the_tags_are_skipped() {
    let mut repo = empty();
    repo.entries.push(("stray".to_string(), false, Some(("sha256:x".to_string(), 9))));
    assert!(repo.tags(&Layout::new("/data")).is_empty());
}

#[test]
fn digests_come_without_white_space() {
    let mut repo = empty();
    repo.scaffold("v1", " \tsha256:1 2\r\n", -5);
    let tags = repo.tags(&Layout::new("/data"));
    assert_eq!(
        tags,
        vec![Tag { name: "v1".to_string(), digest: "sha256:1 2".to_string(), mtime: -5 }]
    );
}

#[test]
fn deleting_leaves_the_other_tags() {
    let mut repo = empty();
    repo.scaffold("v1", "sha256:1", 1);
    repo.scaffold("v2", "sha256:2", 2);
    repo.scaffold("v3", "sha256:3", 3);
    let layout = Layout::new("/data");
    assert!(repo.delete_tag(&layout, "v2"));
    let names: Vec<_> = repo.tags(&layout).into_iter().map(|t| t.name).collect();
    assert_eq!(names, vec!["v1", "v3"]);
}

#[test]
fn a_repository_without_tags_directory_has_no_tags() {
    let layout = Layout::new("/data");
    match layout.tags::<&str>("app", TagsEvent::NotDir) {
        TagsAction::Done(tags) => assert!(tags.is_empty()),
        _ => panic!("no tags"),
    }
}

#[test]
fn what_cannot_be_listed_or_removed_fails() {
    let layout = Layout::new("/data");
    assert!(matches!(
        layout.tags("app", TagsEvent::Failed("no permission")),
        TagsAction::Fail("no permission")
    ));
    assert!(matches!(
        layout.delete_tag("app", "v1", DeleteEvent::Failed("disk error")),
        DeleteAction::Fail("disk error")
    ));
}

#[test]
fn a_push_changes_its_own_tag() {
    let mut repo = empty();
    repo.scaffold("v1", "sha256:1", 1);
    repo.scaffold("v2", "sha256:2", 2);
    repo.scaffold("v3", "sha256:3", 3);
    let layout = Layout::new("/data");
    let before = repo.tags(&layout);
    repo.entries[0].2 = Some(("sha256:9".to_string(), 9));
    let after = repo.tags(&layout);
    assert_eq!(after[0].name, "v1");
    assert_eq!(after[0].digest, "sha256:9");
    assert_eq!(after[0].mtime, 9);
    assert_eq!(after[1..], before[1..]);

    let gone = |tags: &[Tag]| -> Vec<String> {
        tags_to_delete(tags, 1).into_iter().map(|t| t.name).collect()
    };
    assert_eq!(gone(&before), vec!["v2", "v1"]);
    assert_eq!(gone(&after), vec!["v3", "v2"]);
}

#[test]
fn a_first_push_adds_its_tag() {
    let mut repo = empty();
    repo.scaffold("v1", "sha256:1", 1);
    repo.entries.push(("v2".to_string(), true, None));
    repo.scaffold("v3", "sha256:3", 3);
    let layout = Layout::new("/data");
    assert_eq!(repo.tags(&layout).len(), 2);
    repo.entries[1].2 = Some(("sha256:2".to_string(), 4));
    let names: Vec<_> = repo.tags(&layout).into_iter().map(|t| t.name).collect();
    assert_eq!(names, vec!["v1", "v2", "v3"]);
}

#[test]
fn names_on_disk() {
    assert_eq!(MANIFESTS, "_manifests");
    assert_eq!(LINK, "current/link");
}

#[test]
fn paths_are_joined_like_those_of_the_system() {
    for base in ["", "/", "/a", "/a/", "a", "a/b", "a//"] {
        for rel in ["", "b", "b/c", "/b", "/", "./b"] {
            let expected = std::path::Path::new(base).join(rel);
            assert_eq!(join(base, rel), expected.to_str().unwrap(), "{base:?} {rel:?}");
        }
    }
}

#[test]
fn layouts_start_at_the_data_directory() {
    for (data_dir, path) in [
        ("/var/lib/registry", "/var/lib/registry/docker/registry/v2/repositories/a/b/_manifests/tags"),
        ("data/", "data/docker/registry/v2/repositories/a/b/_manifests/tags"),
        ("", "docker/registry/v2/repositories/a/b/_manifests/tags"),
    ] {
        match Layout::new(data_dir).tags::<&str>("a/b", TagsEvent::Start) {
            TagsAction::List(dir) => assert_eq!(dir, path),
            _ => panic!("a listing"),
        }
    }
}
