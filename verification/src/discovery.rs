//! What a walk through a store finds.

use vstd::prelude::*;

use crate::names::{law_distinct_names_ascend, law_sorted_names, name_before, plain, sorted_names};
use crate::registry_fs::joined;
use crate::walk::{left, repository_name, slash_joined, walk_next, Phase, WalkAction,
    WalkActionView, WalkEvent, WalkEventView, WalkView};

verus! {

/// A directory of a store, as far as a walk can see it.
pub struct Dir {
    /// Whether it holds a directory `_manifests`.
    pub has_manifests: bool,
    pub entries: Seq<Entry>,
}

/// An entry of a directory.
pub struct Entry {
    pub name: Seq<char>,
    /// The directory that it is, if it is one.
    pub dir: Option<Dir>,
}

/// The repositories in `dir`, which stands at `path`: the directory itself, or else those in its
/// subdirectories.
pub open spec fn repositories_in(dir: Dir, path: Seq<Seq<char>>) -> Seq<Seq<char>>
    decreases dir, dir.entries.len() + 1,
{
    if dir.has_manifests {
        seq![repository_name(path)]
    } else {
        repositories_from(dir, path, 0)
    }
}

/// The repositories in the entries of `dir`, which stands at `path`, from the entry `i` on.
pub open spec fn repositories_from(dir: Dir, path: Seq<Seq<char>>, i: nat) -> Seq<Seq<char>>
    decreases dir, dir.entries.len() - i,
{
    if i >= dir.entries.len() {
        Seq::empty()
    } else {
        let entry = dir.entries[i as int];
        let here = match entry.dir {
            Some(sub) => repositories_in(sub, path.push(entry.name)),
            None => Seq::empty(),
        };
        here + repositories_from(dir, path, i + 1)
    }
}

/// The repositories of a store: of the directory of the repositories, where there is one.
pub open spec fn repositories_of(store: Option<Dir>) -> Seq<Seq<char>> {
    match store {
        Some(root) => repositories_in(root, Seq::empty()),
        None => Seq::empty(),
    }
}

/// Where a caller that reads a store is: the open directories from the root on, each with the
/// number of its entries that were reported, and the directory that can be entered.
pub struct Reader {
    pub open: Seq<(Dir, nat)>,
    pub at_hand: Option<Dir>,
}

/// The reader `r`, once it has reported the next entry of the current directory, and the report.
pub open spec fn read_next<E>(r: Reader) -> (Reader, WalkEventView<E>) {
    let (dir, i) = r.open.last();
    if i < dir.entries.len() {
        let entry = dir.entries[i as int];
        (
            Reader { open: r.open.drop_last().push((dir, i + 1)), at_hand: entry.dir },
            WalkEvent::Entry { name: entry.name, is_dir: entry.dir is Some },
        )
    } else {
        (r, WalkEvent::End)
    }
}

/// The directories on a disk, by their paths.
pub type Tree = Map<Seq<char>, Dir>;

/// The directory at `path`, where there is one.
pub open spec fn standing_at(dirs: Tree, path: Seq<char>) -> Option<Dir> {
    if dirs.contains_key(path) {
        Some(dirs[path])
    } else {
        None
    }
}

/// The reader `r` of the directories `dirs`, once it has done what `action` asks for, and its report.
pub open spec fn answer<E>(
    dirs: Tree,
    r: Reader,
    action: WalkActionView<E>,
) -> (Reader, WalkEventView<E>) {
    match action {
        WalkAction::CheckRoot(path) => (
            Reader { at_hand: standing_at(dirs, path), ..r },
            WalkEvent::IsDir(standing_at(dirs, path) is Some),
        ),
        WalkAction::Enter => (
            Reader { open: r.open.push((r.at_hand->0, 0)), ..r },
            WalkEvent::IsDir(r.at_hand->0.has_manifests),
        ),
        WalkAction::Open => (r, WalkEvent::Opened),
        WalkAction::Next => read_next(r),
        WalkAction::Leave => read_next(Reader { open: r.open.drop_last(), ..r }),
        _ => (r, WalkEvent::Start),
    }
}

/// What the walk `w`, which has asked for `action`, returns when the reader `r` of `dirs` answers
/// it up to `limit` times: the repositories, or none where it failed or is not done by then.
pub open spec fn outcome<E>(
    root: Seq<char>,
    dirs: Tree,
    r: Reader,
    w: WalkView,
    action: WalkActionView<E>,
    limit: nat,
) -> Option<Seq<Seq<char>>>
    decreases limit,
{
    match action {
        WalkAction::Done(names) => Some(names),
        WalkAction::Fail(_) | WalkAction::Reject => None,
        _ => if limit == 0 {
            None
        } else {
            let (r2, event) = answer::<E>(dirs, r, action);
            let (w2, action2) = walk_next(root, w, event);
            outcome::<E>(root, dirs, r2, w2, action2, (limit - 1) as nat)
        },
    }
}

/// The number of answers that a walk needs for `dir`.
spec fn cost_in(dir: Dir) -> nat
    decreases dir, dir.entries.len() + 1,
{
    if dir.has_manifests {
        1
    } else {
        2 + cost_from(dir, 0)
    }
}

spec fn cost_from(dir: Dir, i: nat) -> nat
    decreases dir, dir.entries.len() - i,
{
    if i >= dir.entries.len() {
        1
    } else {
        1 + (match dir.entries[i as int].dir {
            Some(sub) => cost_in(sub),
            None => 0,
        }) + cost_from(dir, i + 1)
    }
}

/// The open directories that the reader reads from when it answers `action`.
spec fn settled<E>(r: Reader, action: WalkActionView<E>) -> Seq<(Dir, nat)> {
    if action is Leave {
        r.open.drop_last()
    } else {
        r.open
    }
}

proof fn lemma_visit<E>(root: Seq<char>, dirs: Tree, dir: Dir, r: Reader, w: WalkView) -> (r2:
    Reader)
    requires
        r.at_hand == Some(dir),
        w.phase == Phase::Manifests,
    ensures
        r2.open.len() == r.open.len() + 1,
        r2.open.drop_last() == r.open,
        ({
            let (w2, a2) = left::<E>(WalkView { found: w.found + repositories_in(dir, w.path), ..w });
            forall|limit: nat|
                outcome::<E>(root, dirs, r, w, WalkAction::Enter, limit + cost_in(dir))
                    == #[trigger] outcome::<E>(root, dirs, r2, w2, a2, limit)
        }),
    decreases dir, dir.entries.len() + 1,
{
    let r1 = answer::<E>(dirs, r, WalkAction::Enter).0;
    assert(r1.open.drop_last() =~= r.open);
    if dir.has_manifests {
        assert(w.found.push(repository_name(w.path)) =~= w.found + repositories_in(dir, w.path));
        r1
    } else {
        let w2 = WalkView { phase: Phase::Opening, ..w };
        let w3 = WalkView { phase: Phase::Reading, ..w };
        assert forall|limit: nat|
            outcome::<E>(root, dirs, r, w, WalkAction::Enter, limit + cost_in(dir))
                == #[trigger] outcome::<E>(
                root,
                dirs,
                r1,
                w3,
                WalkAction::Next,
                limit + cost_from(dir, 0),
            ) by {
            reveal_with_fuel(outcome, 3);
        }
        let r2 = lemma_read::<E>(root, dirs, dir, 0, r1, w3, WalkAction::Next);
        let (w4, a4) = left::<E>(WalkView { found: w.found + repositories_in(dir, w.path), ..w });
        assert forall|limit: nat|
            outcome::<E>(root, dirs, r, w, WalkAction::Enter, limit + cost_in(dir))
                == #[trigger] outcome::<E>(root, dirs, r2, w4, a4, limit) by {
            assert(outcome::<E>(root, dirs, r1, w3, WalkAction::Next, limit + cost_from(dir, 0))
                == outcome::<E>(root, dirs, r2, w4, a4, limit));
        }
        r2
    }
}

proof fn lemma_read<E>(
    root: Seq<char>,
    dirs: Tree,
    dir: Dir,
    i: nat,
    r: Reader,
    w: WalkView,
    action: WalkActionView<E>,
) -> (r2: Reader)
    requires
        action is Next || action is Leave,
        settled(r, action).len() > 0,
        settled(r, action).last() == (dir, i),
        w.phase == Phase::Reading,
    ensures
        r2.open.len() == settled(r, action).len(),
        r2.open.drop_last() == settled(r, action).drop_last(),
        ({
            let (w2, a2) = left::<E>(
                WalkView { found: w.found + repositories_from(dir, w.path, i), ..w },
            );
            forall|limit: nat|
                outcome::<E>(root, dirs, r, w, action, limit + cost_from(dir, i))
                    == #[trigger] outcome::<E>(root, dirs, r2, w2, a2, limit)
        }),
    decreases dir, dir.entries.len() - i,
{
    let r1 = answer::<E>(dirs, r, action).0;
    let (w9, a9) = left::<E>(WalkView { found: w.found + repositories_from(dir, w.path, i), ..w });
    if i >= dir.entries.len() {
        assert(w.found + repositories_from(dir, w.path, i) =~= w.found);
        r1
    } else {
        let entry = dir.entries[i as int];
        assert(r1.open.drop_last() =~= settled(r, action).drop_last());
        assert(repositories_from(dir, w.path, i) == (match entry.dir {
            Some(sub) => repositories_in(sub, w.path.push(entry.name)),
            None => Seq::empty(),
        }) + repositories_from(dir, w.path, i + 1));
        match entry.dir {
            None => {
                let r2 = lemma_read::<E>(root, dirs, dir, i + 1, r1, w, WalkAction::Next);
                assert(Seq::empty() + repositories_from(dir, w.path, i + 1)
                    =~= repositories_from(dir, w.path, i + 1));
                assert forall|limit: nat|
                    outcome::<E>(root, dirs, r, w, action, limit + cost_from(dir, i))
                        == #[trigger] outcome::<E>(root, dirs, r2, w9, a9, limit) by {
                    assert(outcome::<E>(root, dirs, r, w, action, limit + cost_from(dir, i))
                        == outcome::<E>(
                        root,
                        dirs,
                        r1,
                        w,
                        WalkAction::Next,
                        limit + cost_from(dir, i + 1),
                    ));
                }
                r2
            },
            Some(sub) => {
                let w1 = WalkView {
                    phase: Phase::Manifests,
                    path: w.path.push(entry.name),
                    ..w
                };
                let r2 = lemma_visit::<E>(root, dirs, sub, r1, w1);
                let w2 = WalkView { found: w.found + repositories_in(sub, w1.path), ..w };
                assert(w1.path.drop_last() =~= w.path);
                let r3 = lemma_read::<E>(root, dirs, dir, i + 1, r2, w2, WalkAction::Leave);
                assert(w2.found + repositories_from(dir, w.path, i + 1) =~= w.found
                    + repositories_from(dir, w.path, i));
                assert forall|limit: nat|
                    outcome::<E>(root, dirs, r, w, action, limit + cost_from(dir, i))
                        == #[trigger] outcome::<E>(root, dirs, r3, w9, a9, limit) by {
                    let rest = limit + cost_from(dir, i + 1);
                    assert(outcome::<E>(root, dirs, r, w, action, limit + cost_from(dir, i))
                        == outcome::<E>(root, dirs, r1, w1, WalkAction::Enter, rest + cost_in(sub)));
                    assert(outcome::<E>(root, dirs, r1, w1, WalkAction::Enter, rest + cost_in(sub))
                        == outcome::<E>(root, dirs, r2, w2, WalkAction::Leave, rest));
                }
                r3
            },
        }
    }
}

/// A walk whose caller reports what is on the disk comes to an end, and returns the names of the
/// repositories of the store that stands at its root, in order, whatever stands elsewhere.
pub proof fn law_walk_finds_the_repositories<E>(root: Seq<char>, dirs: Tree, r: Reader)
    requires
        r.open.len() == 0,
    ensures
        ({
            let w = WalkView { phase: Phase::Idle, path: Seq::empty(), found: Seq::empty() };
            let (w1, a1) = walk_next::<E>(root, w, WalkEvent::Start);
            exists|limit: nat|
                #[trigger] outcome::<E>(root, dirs, r, w1, a1, limit) == Some(
                    sorted_names(repositories_of(standing_at(dirs, root))),
                )
        }),
{
    let w = WalkView { phase: Phase::Idle, path: Seq::empty(), found: Seq::empty() };
    let (w1, a1) = walk_next::<E>(root, w, WalkEvent::Start);
    let r1 = answer::<E>(dirs, r, a1).0;
    match standing_at(dirs, root) {
        None => {
            law_sorted_names(Seq::empty());
            assert(sorted_names(Seq::empty()) =~= Seq::empty());
            reveal_with_fuel(outcome, 2);
            assert(outcome::<E>(root, dirs, r, w1, a1, 1) == Some(
                sorted_names(repositories_of(standing_at(dirs, root))),
            ));
        },
        Some(dir) => {
            let w2 = WalkView { phase: Phase::Manifests, ..w };
            let r2 = lemma_visit::<E>(root, dirs, dir, r1, w2);
            let (w3, a3) = left::<E>(
                WalkView { found: w2.found + repositories_in(dir, w2.path), ..w2 },
            );
            assert(w2.found + repositories_in(dir, w2.path) =~= repositories_in(dir, w2.path));
            let limit = cost_in(dir) + 1;
            assert(outcome::<E>(root, dirs, r, w1, a1, limit) == outcome::<E>(
                root,
                dirs,
                r1,
                w2,
                WalkAction::Enter,
                0 + cost_in(dir),
            ));
            assert(outcome::<E>(root, dirs, r2, w3, a3, 0) == Some(
                sorted_names(repositories_of(standing_at(dirs, root))),
            ));
        },
    }
}

/// Once a directory is known to be a repository, the walk leaves it: it neither opens it nor enters
/// what is in it.
pub proof fn law_never_descends_into_a_repository<E>(root: Seq<char>, w: WalkView)
    requires
        w.phase == Phase::Manifests,
    ensures
        walk_next::<E>(root, w, WalkEvent::IsDir(true)).1 is Leave || walk_next::<E>(
            root,
            w,
            WalkEvent::IsDir(true),
        ).1 is Done,
{
}

/// Whatever cannot be read ends the walk, at once and without a result. The error that the walk ends
/// with is the one that it met, and it ends with none that it did not meet.
pub proof fn law_failure_ends_the_walk<E>(
    root: Seq<char>,
    w: WalkView,
    event: WalkEventView<E>,
    e: E,
)
    ensures
        walk_next(root, w, event).1 == WalkActionView::<E>::Fail(e) <==> event == WalkEventView::<
            E,
        >::Failed(e),
        event is Failed ==> walk_next(root, w, event).0.phase == Phase::Over,
        w.phase == Phase::Over ==> walk_next(root, w, event).1 is Fail || walk_next(
            root,
            w,
            event,
        ).1 is Reject,
{
}

/// A walk takes what answers its last action and nothing else: the start before it has begun,
/// whether a directory is there when it asked after one, that a directory is open when it had it
/// opened, and an entry or the end when it reads one.
pub proof fn law_walk_rejects_what_does_not_answer<E>(
    root: Seq<char>,
    w: WalkView,
    event: WalkEventView<E>,
)
    ensures
        walk_next(root, w, event).1 is Reject <==> !(event is Failed || match w.phase {
            Phase::Idle => event is Start,
            Phase::Root | Phase::Manifests => event is IsDir,
            Phase::Opening => event is Opened,
            Phase::Reading => event is Entry || event is End,
            Phase::Over => false,
        }),
{
}

/// Whether the steps `p` lead from `dir` to a repository, where a step is the number of an entry
/// that is a directory, and no directory on the way is a repository itself.
pub open spec fn is_repository_at(dir: Dir, p: Seq<int>) -> bool
    decreases p.len(),
{
    if p.len() == 0 {
        dir.has_manifests
    } else {
        &&& !dir.has_manifests
        &&& 0 <= p.first() < dir.entries.len()
        &&& dir.entries[p.first()].dir is Some
        &&& is_repository_at(dir.entries[p.first()].dir->0, p.drop_first())
    }
}

/// The names of the entries that the steps `p` from `dir` pass.
pub open spec fn names_along(dir: Dir, p: Seq<int>) -> Seq<Seq<char>>
    decreases p.len(),
{
    if p.len() == 0 {
        Seq::empty()
    } else {
        seq![dir.entries[p.first()].name] + names_along(
            dir.entries[p.first()].dir->0,
            p.drop_first(),
        )
    }
}

/// A name is found if and only if it is that of a directory with a `_manifests` directory that
/// stands in no other such directory.
pub proof fn law_found_iff_repository(dir: Dir, path: Seq<Seq<char>>, name: Seq<char>)
    ensures
        repositories_in(dir, path).contains(name) <==> exists|p: Seq<int>| #[trigger]
            is_repository_at(dir, p) && name == repository_name(path + names_along(dir, p)),
    decreases dir, dir.entries.len() + 1,
{
    let none = Seq::<int>::empty();
    if dir.has_manifests {
        assert(path + names_along(dir, none) =~= path);
        assert(is_repository_at(dir, none));
        if repositories_in(dir, path).contains(name) {
            assert(name == repository_name(path));
        }
        if exists|p: Seq<int>| #[trigger]
            is_repository_at(dir, p) && name == repository_name(path + names_along(dir, p)) {
            let p = choose|p: Seq<int>| #[trigger]
                is_repository_at(dir, p) && name == repository_name(path + names_along(dir, p));
            assert(p =~= none);
            assert(repositories_in(dir, path)[0] == name);
        }
    } else {
        lemma_found_from(dir, path, 0, name);
        if exists|p: Seq<int>| #[trigger]
            is_repository_at(dir, p) && name == repository_name(path + names_along(dir, p)) {
            let p = choose|p: Seq<int>| #[trigger]
                is_repository_at(dir, p) && name == repository_name(path + names_along(dir, p));
            assert(p.len() > 0 && p.first() >= 0);
        }
    }
}

proof fn lemma_found_from(dir: Dir, path: Seq<Seq<char>>, i: nat, name: Seq<char>)
    requires
        !dir.has_manifests,
    ensures
        repositories_from(dir, path, i).contains(name) <==> exists|p: Seq<int>| #[trigger]
            is_repository_at(dir, p) && p.first() >= i && name == repository_name(
                path + names_along(dir, p),
            ),
    decreases dir, dir.entries.len() - i,
{
    if i < dir.entries.len() {
        let entry = dir.entries[i as int];
        lemma_found_from(dir, path, i + 1, name);
        let here = match entry.dir {
            Some(sub) => repositories_in(sub, path.push(entry.name)),
            None => Seq::empty(),
        };
        let rest = repositories_from(dir, path, i + 1);
        let all = repositories_from(dir, path, i);
        assert(all == here + rest);
        assert(all.contains(name) <==> here.contains(name) || rest.contains(name)) by {
            if here.contains(name) {
                let k = choose|k: int| 0 <= k < here.len() && here[k] == name;
                assert(all[k] == name);
            }
            if rest.contains(name) {
                let k = choose|k: int| 0 <= k < rest.len() && rest[k] == name;
                assert(all[here.len() + k] == name);
            }
        }
        if let Some(sub) = entry.dir {
            law_found_iff_repository(sub, path.push(entry.name), name);
            if here.contains(name) {
                let q = choose|q: Seq<int>| #[trigger]
                    is_repository_at(sub, q) && name == repository_name(
                        path.push(entry.name) + names_along(sub, q),
                    );
                let p = seq![i as int] + q;
                assert(p.drop_first() =~= q);
                assert(is_repository_at(dir, p));
                assert(path + names_along(dir, p) =~= path.push(entry.name) + names_along(sub, q));
            }
        }
        if exists|p: Seq<int>| #[trigger]
            is_repository_at(dir, p) && p.first() >= i && name == repository_name(
                path + names_along(dir, p),
            ) {
            let p = choose|p: Seq<int>| #[trigger]
                is_repository_at(dir, p) && p.first() >= i && name == repository_name(
                    path + names_along(dir, p),
                );
            if p.first() == i {
                let sub = entry.dir->0;
                assert(p.len() > 0);
                assert(is_repository_at(sub, p.drop_first()));
                assert(path + names_along(dir, p) =~= path.push(entry.name) + names_along(
                    sub,
                    p.drop_first(),
                ));
                assert(here.contains(name));
            } else {
                assert(rest.contains(name));
            }
        }
    } else {
        if exists|p: Seq<int>| #[trigger]
            is_repository_at(dir, p) && p.first() >= i && name == repository_name(
                path + names_along(dir, p),
            ) {
            let p = choose|p: Seq<int>| #[trigger]
                is_repository_at(dir, p) && p.first() >= i && name == repository_name(
                    path + names_along(dir, p),
                );
            assert(p.len() > 0);
        }
    }
}

/// Whether all names in `path` are plain.
pub open spec fn plain_path(path: Seq<Seq<char>>) -> bool {
    forall|i: int| 0 <= i < path.len() ==> plain(#[trigger] path[i])
}

/// Whether all names in `dir`, at any depth outside repositories, are plain, and no two entries of
/// one directory share a name.
pub open spec fn plain_dir(dir: Dir) -> bool
    decreases dir,
{
    !dir.has_manifests ==> {
        &&& forall|i: int| 0 <= i < dir.entries.len() ==> plain((#[trigger] dir.entries[i]).name)
        &&& forall|i: int, j: int|
            0 <= i < j < dir.entries.len() ==> (#[trigger] dir.entries[i]).name != (
            #[trigger] dir.entries[j]).name
        &&& forall|i: int|
            #![trigger dir.entries[i]]
            0 <= i < dir.entries.len() && dir.entries[i].dir is Some ==> plain_dir(
                dir.entries[i].dir->0,
            )
    }
}

pub(crate) proof fn lemma_slash_joined(path: Seq<Seq<char>>)
    requires
        plain_path(path),
    ensures
        path.len() > 0 ==> slash_joined(path).len() > 0 && slash_joined(path).first() != '/',
        !slash_joined(path).contains('\\'),
        slash_joined(path).contains('/') <==> path.len() > 1,
        repository_name(path) == slash_joined(path),
    decreases path.len(),
{
    let s = slash_joined(path);
    if path.len() == 1 {
        assert(plain(path[0]));
        assert(path[0].contains(path[0][0]));
    } else if path.len() > 1 {
        let front = path.drop_last();
        assert forall|i: int| 0 <= i < front.len() implies plain(#[trigger] front[i]) by {
            assert(path[i] == front[i]);
        }
        lemma_slash_joined(front);
        let a = slash_joined(front);
        assert(plain(path[path.len() - 1]));
        assert(s[a.len() as int] == '/');
        assert(s.first() == a.first());
        assert forall|k: int| 0 <= k < s.len() implies s[k] != '\\' by {
            if k < a.len() {
                assert(a.contains(a[k]));
            } else if k > a.len() {
                assert(path.last().contains(path.last()[k - a.len() - 1]));
            }
        }
    }
    assert(repository_name(path) =~= s) by {
        assert forall|k: int| 0 <= k < s.len() implies s[k] != '\\' by {
            assert(s.contains(s[k]));
        }
    }
}

/// Different plain paths make different repository names.
pub proof fn law_repository_names_are_distinct(a: Seq<Seq<char>>, b: Seq<Seq<char>>)
    requires
        plain_path(a),
        plain_path(b),
        repository_name(a) == repository_name(b),
    ensures
        a == b,
    decreases a.len(),
{
    lemma_slash_joined(a);
    lemma_slash_joined(b);
    let s = slash_joined(a);
    assert(s == slash_joined(b));
    if a.len() == 0 || b.len() == 0 {
        assert(a =~= b);
    } else if a.len() == 1 || b.len() == 1 {
        assert(a =~= b);
    } else {
        let (f, g, x, y) = (a.drop_last(), b.drop_last(), a.last(), b.last());
        let (p, q) = (slash_joined(f), slash_joined(g));
        assert(s == p.push('/') + x && s == q.push('/') + y);
        assert(plain(a[a.len() - 1]) && plain(b[b.len() - 1]));
        assert(p.len() == q.len()) by {
            assert(s[p.len() as int] == '/' && s[q.len() as int] == '/');
            if p.len() > q.len() {
                assert(y[p.len() - q.len() - 1] == '/');
                assert(y.contains('/'));
            }
            if q.len() > p.len() {
                assert(x[q.len() - p.len() - 1] == '/');
                assert(x.contains('/'));
            }
        }
        assert(p =~= s.take(p.len() as int) && q =~= s.take(q.len() as int));
        assert(x =~= s.skip(p.len() as int + 1) && y =~= s.skip(q.len() as int + 1));
        assert forall|i: int| 0 <= i < f.len() implies plain(#[trigger] f[i]) by {
            assert(a[i] == f[i]);
        }
        assert forall|i: int| 0 <= i < g.len() implies plain(#[trigger] g[i]) by {
            assert(b[i] == g[i]);
        }
        lemma_slash_joined(f);
        lemma_slash_joined(g);
        law_repository_names_are_distinct(f, g);
        assert(a =~= f.push(x));
        assert(b =~= g.push(y));
    }
}

pub(crate) proof fn lemma_names_along_plain(dir: Dir, p: Seq<int>)
    requires
        plain_dir(dir),
        is_repository_at(dir, p),
    ensures
        plain_path(names_along(dir, p)),
    decreases p.len(),
{
    if p.len() > 0 {
        let sub = dir.entries[p.first()].dir->0;
        lemma_names_along_plain(sub, p.drop_first());
        let names = names_along(dir, p);
        assert forall|i: int| 0 <= i < names.len() implies plain(#[trigger] names[i]) by {
            if i > 0 {
                assert(names[i] == names_along(sub, p.drop_first())[i - 1]);
            }
        }
    }
}

/// In a store with plain names every repository is found once.
pub proof fn law_each_repository_is_found_once(dir: Dir, path: Seq<Seq<char>>)
    requires
        plain_dir(dir),
        plain_path(path),
    ensures
        repositories_in(dir, path).no_duplicates(),
    decreases dir, dir.entries.len() + 1,
{
    if !dir.has_manifests {
        lemma_found_once_from(dir, path, 0);
    }
}

proof fn lemma_found_once_from(dir: Dir, path: Seq<Seq<char>>, i: nat)
    requires
        !dir.has_manifests,
        plain_dir(dir),
        plain_path(path),
    ensures
        repositories_from(dir, path, i).no_duplicates(),
    decreases dir, dir.entries.len() - i,
{
    if i < dir.entries.len() {
        let entry = dir.entries[i as int];
        let rest = repositories_from(dir, path, i + 1);
        lemma_found_once_from(dir, path, i + 1);
        let deeper = path.push(entry.name);
        let here = match entry.dir {
            Some(sub) => repositories_in(sub, deeper),
            None => Seq::empty(),
        };
        let all = repositories_from(dir, path, i);
        assert(all == here + rest);
        if let Some(sub) = entry.dir {
            assert(plain_path(deeper));
            law_each_repository_is_found_once(sub, deeper);
            assert forall|k: int, m: int|
                0 <= k < here.len() && 0 <= m < rest.len() implies here[k] != rest[m] by {
                let name = here[k];
                if name == rest[m] {
                    assert(here.contains(name) && rest.contains(name));
                    law_found_iff_repository(sub, deeper, name);
                    lemma_found_from(dir, path, i + 1, name);
                    let q = choose|q: Seq<int>| #[trigger]
                        is_repository_at(sub, q) && name == repository_name(
                            deeper + names_along(sub, q),
                        );
                    let p = choose|p: Seq<int>| #[trigger]
                        is_repository_at(dir, p) && p.first() >= i + 1 && name == repository_name(
                            path + names_along(dir, p),
                        );
                    lemma_names_along_plain(sub, q);
                    lemma_names_along_plain(dir, p);
                    let (x, y) = (deeper + names_along(sub, q), path + names_along(dir, p));
                    assert(plain_path(x));
                    assert(plain_path(y));
                    law_repository_names_are_distinct(x, y);
                    assert(p.len() > 0);
                    assert(x[path.len() as int] == entry.name);
                    assert(y[path.len() as int] == dir.entries[p.first()].name);
                    assert(dir.entries[i as int].name != dir.entries[p.first()].name);
                }
            }
        }
        assert(all.no_duplicates());
    }
}

/// In a store with plain names a walk returns a strictly ascending list, and so none with a name
/// twice.
pub proof fn law_walk_returns_an_ascending_list(root: Dir)
    requires
        plain_dir(root),
    ensures
        sorted_names(repositories_of(Some(root))).no_duplicates(),
        forall|k: int, m: int|
            0 <= k < m < sorted_names(repositories_of(Some(root))).len() ==> name_before(
                #[trigger] sorted_names(repositories_of(Some(root)))[k],
                #[trigger] sorted_names(repositories_of(Some(root)))[m],
            ),
{
    let names = repositories_of(Some(root));
    law_each_repository_is_found_once(root, Seq::empty());
    law_distinct_names_ascend(names);
    law_sorted_names(names);
}

/// Whether a walk sees the same of `a` and of `b`: the same repositories and, outside them, the
/// same entries.
pub open spec fn alike_outside_repositories(a: Dir, b: Dir) -> bool
    decreases a,
{
    &&& a.has_manifests == b.has_manifests
    &&& !a.has_manifests ==> {
        &&& a.entries.len() == b.entries.len()
        &&& forall|i: int|
            #![trigger a.entries[i]]
            #![trigger b.entries[i]]
            0 <= i < a.entries.len() ==> {
                &&& a.entries[i].name == b.entries[i].name
                &&& a.entries[i].dir is Some == b.entries[i].dir is Some
                &&& a.entries[i].dir is Some ==> alike_outside_repositories(
                    a.entries[i].dir->0,
                    b.entries[i].dir->0,
                )
            }
    }
}

/// What is in a repository does not matter to the list of repositories.
pub proof fn law_contents_of_repositories_do_not_matter(a: Dir, b: Dir, path: Seq<Seq<char>>)
    requires
        alike_outside_repositories(a, b),
    ensures
        repositories_in(a, path) == repositories_in(b, path),
    decreases a, a.entries.len() + 1,
{
    if !a.has_manifests {
        lemma_alike_from(a, b, path, 0);
    }
}

proof fn lemma_alike_from(a: Dir, b: Dir, path: Seq<Seq<char>>, i: nat)
    requires
        !a.has_manifests,
        alike_outside_repositories(a, b),
    ensures
        repositories_from(a, path, i) == repositories_from(b, path, i),
    decreases a, a.entries.len() - i,
{
    if i < a.entries.len() {
        let entry = a.entries[i as int];
        assert(entry.name == b.entries[i as int].name);
        lemma_alike_from(a, b, path, i + 1);
        if let Some(sub) = entry.dir {
            law_contents_of_repositories_do_not_matter(
                sub,
                b.entries[i as int].dir->0,
                path.push(entry.name),
            );
        }
    }
}

/// The tags of a repository are looked for in the directory where the repository was found.
pub proof fn law_repository_is_where_it_was_found(root: Seq<char>, path: Seq<Seq<char>>)
    requires
        root.len() > 0,
        root.last() != '/',
        path.len() > 0,
        plain_path(path),
    ensures
        joined(root, repository_name(path)) == root.push('/') + slash_joined(path),
{
    lemma_slash_joined(path);
}

} // verus!
