//! The search for repositories, over stores in memory.

use janitor::registry_fs::Layout;
use janitor::walk::{Walk, WalkAction, WalkEvent};

/// A directory: its subdirectories, and names of things in it that are not directories.
#[derive(Clone, Default)]
struct Dir {
    dirs: Vec<(String, Dir)>,
    files: Vec<String>,
}

impl Dir {
    fn sub(&mut self, name: &str) -> &mut Dir {
        let at = match self.dirs.iter().position(|(n, _)| n == name) {
            Some(at) => at,
            None => {
                self.dirs.push((name.to_string(), Dir::default()));
                self.dirs.len() - 1
            }
        };
        &mut self.dirs[at].1
    }

    fn at(&mut self, path: &str) -> &mut Dir {
        let mut dir = self;
        for name in path.split('/') {
            dir = dir.sub(name);
        }
        dir
    }

    fn holds(&self, name: &str) -> bool {
        self.dirs.iter().any(|(n, _)| n == name)
    }
}

/// A store with the tag `tag` in `repo`; `dir` is the directory of the repositories.
fn scaffold(dir: &mut Dir, repo: &str, tag: &str) {
    let current = dir
        .at(repo)
        .at("_manifests/tags")
        .sub(tag)
        .sub("current");
    current.files.push("link".to_string());
}

/// What a search comes to: the names, or the error.
type Found = Result<Vec<String>, String>;

/// Drives the search over `root` and returns what it comes to, and the directories that it opened.
/// `broken` is the name of a directory that cannot be read.
fn search(layout: &Layout, root: Option<&Dir>, broken: &str) -> (Found, Vec<String>) {
    let mut walk = Walk::new();
    let mut opened = Vec::new();
    let mut at_hand: (String, Dir) = (String::new(), Dir::default());
    let mut stack: Vec<(String, Dir, usize)> = Vec::new();
    let mut event = WalkEvent::Start;
    loop {
        let action = layout.repositories(&mut walk, event);
        event = match action {
            WalkAction::CheckRoot(path) => {
                assert_eq!(path, "/data/docker/registry/v2/repositories");
                match root {
                    Some(dir) => {
                        at_hand = (String::from("/"), dir.clone());
                        WalkEvent::IsDir(true)
                    }
                    None => WalkEvent::IsDir(false),
                }
            }
            WalkAction::Enter => {
                let (name, dir) = at_hand.clone();
                let is_repository = dir.holds("_manifests");
                stack.push((name, dir, 0));
                WalkEvent::IsDir(is_repository)
            }
            WalkAction::Open => {
                let name = stack.last().unwrap().0.clone();
                opened.push(name.clone());
                if name == broken {
                    WalkEvent::Failed(format!("cannot open {name}"))
                } else {
                    WalkEvent::Opened
                }
            }
            WalkAction::Next => next(&mut stack, &mut at_hand),
            WalkAction::Leave => {
                stack.pop();
                next(&mut stack, &mut at_hand)
            }
            WalkAction::Done(names) => return (Ok(names), opened),
            WalkAction::Fail(e) => return (Err(e), opened),
            WalkAction::Reject => panic!("an answer to each action"),
        };
    }
}

fn next(
    stack: &mut [(String, Dir, usize)],
    at_hand: &mut (String, Dir),
) -> WalkEvent<String, String> {
    let (_, dir, i) = stack.last_mut().unwrap();
    let k = *i;
    *i += 1;
    if k < dir.files.len() {
        WalkEvent::Entry { name: dir.files[k].clone(), is_dir: false }
    } else if k < dir.files.len() + dir.dirs.len() {
        *at_hand = dir.dirs[k - dir.files.len()].clone();
        WalkEvent::Entry { name: at_hand.0.clone(), is_dir: true }
    } else {
        WalkEvent::End
    }
}

fn found(root: &Dir) -> Vec<String> {
    search(&Layout::new("/data"), Some(root), "").0.unwrap()
}

#[test]
fn discovers_nested_repositories() {
    let mut root = Dir::default();
    scaffold(&mut root, "alpine", "v1");
    scaffold(&mut root, "mina/daemon", "v1");
    scaffold(&mut root, "mina/archive", "v1");

    let mut repos = found(&root);
    repos.sort();
    assert_eq!(repos, vec!["alpine", "mina/archive", "mina/daemon"]);
}

#[test]
fn repositories_come_in_order() {
    let mut root = Dir::default();
    scaffold(&mut root, "mina/daemon", "v1");
    scaffold(&mut root, "b", "v1");
    scaffold(&mut root, "mina-x", "v1");
    scaffold(&mut root, "B", "v1");
    assert_eq!(found(&root), vec!["B", "b", "mina-x", "mina/daemon"]);
}

#[test]
fn a_repository_is_not_descended_into() {
    let mut root = Dir::default();
    scaffold(&mut root, "app", "v1");
    scaffold(&mut root, "app/inner", "v1");
    root.files.push("readme".to_string());
    let (names, opened) = search(&Layout::new("/data"), Some(&root), "");
    assert_eq!(names.unwrap(), vec!["app"]);
    assert_eq!(opened, vec!["/"]);
}

#[test]
fn directories_without_manifests_are_no_repositories() {
    let mut root = Dir::default();
    root.at("empty/deep/er");
    root.at("half").files.push("_manifests".to_string());
    assert!(found(&root).is_empty());
}

#[test]
fn a_store_without_repositories_directory_is_empty() {
    let (names, opened) = search(&Layout::new("/data"), None, "");
    assert!(names.unwrap().is_empty());
    assert!(opened.is_empty());
}

#[test]
fn the_root_itself_can_be_a_repository() {
    let mut root = Dir::default();
    root.at("_manifests/tags");
    assert_eq!(found(&root), vec![""]);
}

#[test]
fn backslashes_become_slashes() {
    let mut root = Dir::default();
    root.sub("a\\b").sub("\\").sub("_manifests");
    assert_eq!(found(&root), vec!["a/b//"]);
}

#[test]
fn an_unreadable_directory_fails_the_search() {
    let mut root = Dir::default();
    scaffold(&mut root, "ok", "v1");
    root.at("mina/locked");
    scaffold(&mut root, "zebra", "v1");
    let (names, _) = search(&Layout::new("/data"), Some(&root), "locked");
    assert_eq!(names, Err("cannot open locked".to_string()));
}

#[test]
fn an_event_out_of_turn_fails_the_search() {
    let layout = Layout::new("/data");
    let mut walk = Walk::new();
    let end: WalkEvent<String, &str> = WalkEvent::End;
    let start: WalkEvent<String, &str> = WalkEvent::Start;
    assert!(matches!(layout.repositories(&mut walk, end), WalkAction::Reject));
    assert!(matches!(layout.repositories(&mut walk, start), WalkAction::Reject));
    assert!(matches!(
        layout.repositories(&mut walk, WalkEvent::Failed("late")),
        WalkAction::Fail("late")
    ));
}
