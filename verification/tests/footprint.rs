//! What sweeps and deletions leave untouched, over disks in memory.

use std::collections::BTreeMap;

use janitor::config::Config;
use janitor::registry_fs::{
    join, DeleteAction, DeleteEvent, Layout, Link, TagEntry, TagsAction, TagsEvent,
};
use janitor::retention::Tag;
use janitor::sweep::{sweep, Sweep, SweepAction, SweepEvent};
use janitor::walk::{Walk, WalkAction, WalkEvent};

/// Every path with what stands there: a directory, or a file with its content and its time.
type Disk = BTreeMap<String, Option<(String, i128)>>;

const V2: &str = "/data/docker/registry/v2";

fn put(disk: &mut Disk, path: &str, content: &str, mtime: i128) {
    for (at, _) in path.match_indices('/').filter(|(at, _)| *at > 0) {
        disk.insert(path[..at].to_string(), None);
    }
    disk.insert(path.to_string(), Some((content.to_string(), mtime)));
}

fn push(disk: &mut Disk, repo: &str, tag: &str, mtime: i128) {
    let manifests = format!("{V2}/repositories/{repo}/_manifests");
    let digest = format!("sha256:{tag}");
    put(disk, &format!("{manifests}/tags/{tag}/current/link"), &digest, mtime);
    put(disk, &format!("{manifests}/revisions/sha256/{tag}/link"), &digest, mtime);
    put(disk, &format!("{V2}/blobs/sha256/{tag}/data"), "layer", mtime);
}

fn is_dir(disk: &Disk, path: &str) -> bool {
    disk.get(path) == Some(&None)
}

/// The names in the directory `path`.
fn entries(disk: &Disk, path: &str) -> Vec<String> {
    let below = format!("{path}/");
    disk.keys()
        .filter_map(|p| p.strip_prefix(below.as_str()))
        .filter(|name| !name.contains('/'))
        .map(|name| name.to_string())
        .collect()
}

fn repositories(layout: &Layout, disk: &Disk) -> Vec<String> {
    let mut walk = Walk::new();
    let mut event: WalkEvent<String, String> = WalkEvent::Start;
    let mut at_hand = String::new();
    let mut open: Vec<(String, Vec<String>)> = Vec::new();
    loop {
        event = match layout.repositories(&mut walk, event) {
            WalkAction::CheckRoot(path) => {
                let there = is_dir(disk, &path);
                at_hand = path;
                WalkEvent::IsDir(there)
            }
            WalkAction::Enter => {
                let mut names = entries(disk, &at_hand);
                names.reverse();
                open.push((at_hand.clone(), names));
                WalkEvent::IsDir(is_dir(disk, &format!("{at_hand}/_manifests")))
            }
            WalkAction::Open => WalkEvent::Opened,
            action @ (WalkAction::Next | WalkAction::Leave) => {
                if matches!(action, WalkAction::Leave) {
                    open.pop();
                }
                let (dir, names) = open.last_mut().unwrap();
                match names.pop() {
                    Some(name) => {
                        at_hand = format!("{dir}/{name}");
                        WalkEvent::Entry { name, is_dir: is_dir(disk, &at_hand) }
                    }
                    None => WalkEvent::End,
                }
            }
            WalkAction::Done(names) => return names,
            WalkAction::Fail(_) | WalkAction::Reject => panic!("a readable disk"),
        };
    }
}

fn tags(layout: &Layout, disk: &Disk, repo: &str) -> Vec<Tag> {
    let dir = match layout.tags::<String>(repo, TagsEvent::Start) {
        TagsAction::List(dir) => dir,
        _ => panic!("a listing"),
    };
    let listing = entries(disk, &dir)
        .into_iter()
        .map(|name| {
            let path = format!("{dir}/{name}");
            let link = disk.get(&join(&path, "current/link")).cloned().flatten();
            TagEntry {
                is_dir: is_dir(disk, &path),
                link: link.map(|(content, mtime)| Link { content, mtime }),
                name,
            }
        })
        .collect();
    match layout.tags::<String>(repo, TagsEvent::Listed(listing)) {
        TagsAction::Done(tags) => tags,
        _ => panic!("tags"),
    }
}

/// Deletes a tag. Of `stuck` only the link can be removed.
fn delete(
    layout: &Layout,
    disk: &mut Disk,
    repo: &str,
    tag: &str,
    stuck: &str,
) -> Result<(), String> {
    let event = match layout.delete_tag::<String>(repo, tag, DeleteEvent::Start) {
        DeleteAction::Remove(path) => {
            if tag == stuck {
                disk.remove(&format!("{path}/current/link"));
                DeleteEvent::Failed(format!("{tag} is stuck"))
            } else if disk.contains_key(&path) {
                let below = format!("{path}/");
                disk.retain(|p, _| *p != path && !p.starts_with(&below));
                DeleteEvent::Removed
            } else {
                DeleteEvent::NotFound
            }
        }
        _ => panic!("a removal"),
    };
    match layout.delete_tag(repo, tag, event) {
        DeleteAction::Done => Ok(()),
        DeleteAction::Fail(e) => Err(e),
        DeleteAction::Remove(_) => panic!("an end"),
    }
}

fn run(
    layout: &Layout,
    disk: &mut Disk,
    keep: &str,
    dry_run: &str,
    stuck: &str,
) -> Result<usize, String> {
    let cfg = Config::from_env(&[
        ("KEEP_LAST_N".to_string(), keep.to_string()),
        ("DRY_RUN".to_string(), dry_run.to_string()),
    ]);
    let mut state = Sweep::new();
    let mut event = SweepEvent::Start;
    loop {
        event = match sweep(&cfg, &mut state, event) {
            SweepAction::ListRepositories => SweepEvent::Repositories(repositories(layout, disk)),
            SweepAction::ListTags(repo) => SweepEvent::Tags(tags(layout, disk, &repo)),
            SweepAction::Announce { .. } | SweepAction::Report { .. } => SweepEvent::Done,
            SweepAction::Delete { repo, tag } => {
                match delete(layout, disk, &repo, &tag.name, stuck) {
                    Ok(()) => SweepEvent::Done,
                    Err(e) => SweepEvent::Failed(e),
                }
            }
            SweepAction::Finish(n) => return Ok(n),
            SweepAction::Fail(e) => return Err(e),
            SweepAction::Reject => panic!("an answer to each action"),
        };
    }
}

fn disk() -> Disk {
    let mut disk = Disk::new();
    for (tag, mtime) in [("v1", 1), ("v10", 2), ("v2", 3)] {
        push(&mut disk, "app", tag, mtime);
        push(&mut disk, "team/api", tag, mtime + 10);
    }
    push(&mut disk, "team/app", "latest", 7);
    put(&mut disk, "/data/notes", "keep", 0);
    disk
}

/// The paths that are on `a` and not, or not the same, on `b`.
fn changed(a: &Disk, b: &Disk) -> Vec<String> {
    assert!(b.keys().all(|p| a.contains_key(p)));
    a.iter().filter(|&(p, node)| b.get(p) != Some(node)).map(|(p, _)| p.clone()).collect()
}

/// The tag's directory and what `push` puts into it.
fn tag_paths(repo: &str, tag: &str) -> Vec<String> {
    let dir = format!("{V2}/repositories/{repo}/_manifests/tags/{tag}");
    vec![dir.clone(), format!("{dir}/current"), format!("{dir}/current/link")]
}

#[test]
fn a_deletion_takes_the_directory_of_the_tag_and_nothing_else() {
    let layout = Layout::new("/data");
    let mut after = disk();
    assert_eq!(delete(&layout, &mut after, "app", "v1", ""), Ok(()));
    assert_eq!(changed(&disk(), &after), tag_paths("app", "v1"));
    assert_eq!(repositories(&layout, &after), vec!["app", "team/api", "team/app"]);
}

#[test]
fn a_second_deletion_changes_nothing() {
    let layout = Layout::new("/data");
    let mut once = disk();
    assert_eq!(delete(&layout, &mut once, "app", "v1", ""), Ok(()));
    let mut twice = once.clone();
    assert_eq!(delete(&layout, &mut twice, "app", "v1", ""), Ok(()));
    assert_eq!(once, twice);
}

#[test]
fn a_deletion_that_fails_stays_in_the_directory_of_the_tag() {
    let layout = Layout::new("/data");
    let mut after = disk();
    assert_eq!(
        delete(&layout, &mut after, "app", "v1", "v1"),
        Err("v1 is stuck".to_string())
    );
    assert_eq!(changed(&disk(), &after), vec![tag_paths("app", "v1")[2].clone()]);
    assert_eq!(repositories(&layout, &after), vec!["app", "team/api", "team/app"]);
}

#[test]
fn a_repository_without_its_last_tag_is_still_listed() {
    let layout = Layout::new("/data");
    let mut after = disk();
    assert_eq!(delete(&layout, &mut after, "team/app", "latest", ""), Ok(()));
    assert!(tags(&layout, &after, "team/app").is_empty());
    assert_eq!(repositories(&layout, &after), vec!["app", "team/api", "team/app"]);
}

#[test]
fn a_tag_with_a_backslash_has_a_directory_of_its_own() {
    let layout = Layout::new("/data");
    let mut before = disk();
    push(&mut before, "app", "v1\\x", 4);
    let mut after = before.clone();
    assert_eq!(delete(&layout, &mut after, "app", "v1\\x", ""), Ok(()));
    assert_eq!(changed(&before, &after), tag_paths("app", "v1\\x"));
}

#[test]
fn a_sweep_takes_the_directories_of_the_tags_that_go() {
    let layout = Layout::new("/data");
    let mut after = disk();
    assert_eq!(run(&layout, &mut after, "1", "false", ""), Ok(4));
    let mut gone = Vec::new();
    for repo in ["app", "team/api"] {
        for tag in ["v1", "v10"] {
            gone.extend(tag_paths(repo, tag));
        }
    }
    assert_eq!(changed(&disk(), &after), gone);
}

#[test]
fn a_sweep_that_keeps_none_leaves_repositories_revisions_and_blobs() {
    let layout = Layout::new("/data");
    let mut after = disk();
    assert_eq!(run(&layout, &mut after, "0", "false", ""), Ok(7));
    assert_eq!(repositories(&layout, &after), vec!["app", "team/api", "team/app"]);
    assert!(changed(&disk(), &after).iter().all(|p| p.contains("/_manifests/tags/")));
    assert!(after.contains_key(&format!("{V2}/blobs/sha256/v1/data")));
    assert!(after.contains_key(&format!(
        "{V2}/repositories/app/_manifests/revisions/sha256/v1/link"
    )));
    assert!(is_dir(&after, &format!("{V2}/repositories/app/_manifests/tags")));
}

#[test]
fn a_sweep_that_fails_leaves_what_comes_after() {
    let layout = Layout::new("/data");
    let mut after = disk();
    // The tags of `app` go in the order v2, v10, v1.
    assert_eq!(run(&layout, &mut after, "0", "false", "v10"), Err("v10 is stuck".to_string()));
    let mut gone = vec![tag_paths("app", "v10")[2].clone()];
    gone.extend(tag_paths("app", "v2"));
    assert_eq!(changed(&disk(), &after), gone);
    assert_eq!(repositories(&layout, &after), vec!["app", "team/api", "team/app"]);
}

#[test]
fn a_dry_run_leaves_the_disk() {
    let layout = Layout::new("/data");
    let mut after = disk();
    assert_eq!(run(&layout, &mut after, "1", "true", ""), Ok(4));
    assert_eq!(after, disk());
}
