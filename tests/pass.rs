use std::collections::{BTreeMap, BTreeSet};

use file_organizer::organizer::{Action, DirItem, Event, Organizer, Report};

#[derive(Clone, Debug, PartialEq)]
enum Node {
    File,
    Folder(BTreeSet<Vec<u8>>),
}

/// The top level of a target directory, held in memory.
#[derive(Clone, Debug, PartialEq)]
struct Tree {
    top: BTreeMap<Vec<u8>, Node>,
    mutations: usize,
}

impl Tree {
    fn new(files: &[&str], dirs: &[(&str, &[&str])]) -> Tree {
        let mut top = BTreeMap::new();
        for f in files {
            top.insert(f.as_bytes().to_vec(), Node::File);
        }
        for (d, held) in dirs {
            let set = held.iter().map(|h| h.as_bytes().to_vec()).collect();
            top.insert(d.as_bytes().to_vec(), Node::Folder(set));
        }
        Tree { top, mutations: 0 }
    }

    fn listing(&self) -> Vec<Option<DirItem>> {
        self.top
            .iter()
            .map(|(n, node)| Some(DirItem { name: n.clone(), is_dir: matches!(node, Node::Folder(_)) }))
            .collect()
    }

    fn has(&self, key: &str) -> bool {
        key.is_empty() || self.top.contains_key(key.as_bytes())
    }

    fn create(&mut self, key: &str) -> Event {
        if key.is_empty() || self.top.contains_key(key.as_bytes()) {
            return Event::Failed("already exists".to_string());
        }
        self.top.insert(key.as_bytes().to_vec(), Node::Folder(BTreeSet::new()));
        self.mutations += 1;
        Event::Succeeded
    }

    fn rename(&mut self, name: &[u8], key: &str) -> Event {
        if key.is_empty() {
            return Event::Succeeded;
        }
        let d = key.as_bytes().to_vec();
        match self.top.get(&d) {
            Some(Node::Folder(held)) if !held.contains(name) && d != name => {}
            Some(_) => return Event::Failed("not a directory, or taken".to_string()),
            None => return Event::Failed("no such directory".to_string()),
        }
        self.top.remove(name);
        if let Some(Node::Folder(held)) = self.top.get_mut(&d) {
            held.insert(name.to_vec());
        }
        self.mutations += 1;
        Event::Succeeded
    }

    fn is_file(&self, name: &str) -> bool {
        self.top.get(name.as_bytes()) == Some(&Node::File)
    }

    fn holds(&self, dir: &str, name: &str) -> bool {
        match self.top.get(dir.as_bytes()) {
            Some(Node::Folder(held)) => held.contains(name.as_bytes()),
            _ => false,
        }
    }
}

/// Runs a pass to its end; `fail_create` makes every creation fail.
fn drive(tree: &mut Tree, listing: Option<Result<Vec<Option<DirItem>>, String>>, fail_create: bool) -> Organizer {
    let mut org = Organizer::begin(listing);
    loop {
        let event = match org.next_action() {
            Action::Done => break,
            Action::Probe { key } => Event::Probed(tree.has(&key)),
            Action::Create { key } => {
                if fail_create {
                    Event::Failed("permission denied".to_string())
                } else {
                    tree.create(&key)
                }
            }
            Action::Move { index, key } => {
                let name = org.items()[index].as_ref().unwrap().name.clone();
                tree.rename(&name, &key)
            }
        };
        org.handle(event);
    }
    org
}

fn organize(tree: &mut Tree) -> Organizer {
    let listing = tree.listing();
    drive(tree, Some(Ok(listing)), false)
}

fn name_at(org: &Organizer, index: usize) -> String {
    String::from_utf8(org.items()[index].as_ref().unwrap().name.clone()).unwrap()
}

#[test]
fn mixed_directory_is_grouped_by_extension() {
    let mut tree = Tree::new(&["report.PDF", "notes.txt", "image.jpg"], &[("backup", &["old.doc"])]);
    let org = organize(&mut tree);
    assert!(tree.holds("pdf", "report.PDF"));
    assert!(tree.holds("txt", "notes.txt"));
    assert!(tree.holds("jpg", "image.jpg"));
    assert_eq!(tree.top.get("backup".as_bytes()), Some(&Node::Folder(["old.doc".as_bytes().to_vec()].into_iter().collect())));
    assert!(!tree.top.values().any(|n| *n == Node::File));
    assert_eq!(tree.top.len(), 4);
    assert_eq!(org.reports().len(), 1);
    assert!(matches!(org.reports()[0], Report::SkippedDir { index } if name_at(&org, index) == "backup"));
}

#[test]
fn lone_file_without_extension_stays() {
    let mut tree = Tree::new(&["README"], &[]);
    let org = organize(&mut tree);
    assert!(tree.is_file("README"));
    assert_eq!(tree.top.len(), 1);
    assert_eq!(tree.mutations, 0);
    assert_eq!(org.reports().len(), 1);
    assert!(matches!(org.reports()[0], Report::NoExtension { index } if name_at(&org, index) == "README"));
}

#[test]
fn destination_that_is_a_file_fails_the_move() {
    let mut tree = Tree::new(&["a.txt", "txt"], &[]);
    let org = organize(&mut tree);
    assert!(tree.is_file("a.txt"));
    assert!(tree.is_file("txt"));
    assert_eq!(tree.mutations, 0);
    let failed: Vec<&Report> = org.reports().iter().filter(|r| matches!(r, Report::MoveFailed { .. })).collect();
    assert_eq!(failed.len(), 1);
    match failed[0] {
        Report::MoveFailed { index, key, cause } => {
            assert_eq!(name_at(&org, *index), "a.txt");
            assert_eq!(key, "txt");
            assert_eq!(cause, "not a directory, or taken");
        }
        _ => unreachable!(),
    }
}

#[test]
fn same_extension_in_two_cases_shares_a_directory() {
    let mut tree = Tree::new(&["a.TXT", "b.txt"], &[]);
    organize(&mut tree);
    assert!(tree.holds("txt", "a.TXT"));
    assert!(tree.holds("txt", "b.txt"));
    assert_eq!(tree.top.len(), 1);
}

#[test]
fn files_without_extension_match_their_reports() {
    let mut tree = Tree::new(&["README", "LICENSE", ".env", "main.rs"], &[]);
    let org = organize(&mut tree);
    let missing = org.reports().iter().filter(|r| matches!(r, Report::NoExtension { .. })).count();
    assert_eq!(missing, 3);
    assert!(tree.is_file("README"));
    assert!(tree.is_file("LICENSE"));
    assert!(tree.is_file(".env"));
    assert!(tree.holds("rs", "main.rs"));
}

#[test]
fn subdirectories_are_not_entered() {
    let mut tree = Tree::new(&["x.log"], &[("src", &["a.rs", "b.rs"]), ("docs", &[])]);
    let before_src = tree.top.get("src".as_bytes()).cloned();
    let org = organize(&mut tree);
    assert_eq!(tree.top.get("src".as_bytes()).cloned(), before_src);
    assert_eq!(tree.top.get("docs".as_bytes()), Some(&Node::Folder(BTreeSet::new())));
    let skipped = org.reports().iter().filter(|r| matches!(r, Report::SkippedDir { .. })).count();
    assert_eq!(skipped, 2);
}

#[test]
fn empty_directory_does_nothing() {
    let mut tree = Tree::new(&[], &[]);
    let org = organize(&mut tree);
    assert_eq!(tree.mutations, 0);
    assert!(org.reports().is_empty());
}

#[test]
fn missing_directory_reports_once() {
    let mut tree = Tree::new(&["a.txt"], &[]);
    let before = tree.clone();
    let org = drive(&mut tree, None, false);
    assert_eq!(tree, before);
    assert_eq!(org.reports().len(), 1);
    assert!(matches!(org.reports()[0], Report::Missing));
}

#[test]
fn unlistable_directory_reports_the_cause() {
    let mut tree = Tree::new(&["a.txt"], &[]);
    let before = tree.clone();
    let org = drive(&mut tree, Some(Err("permission denied".to_string())), false);
    assert_eq!(tree, before);
    assert_eq!(org.reports().len(), 1);
    assert!(matches!(&org.reports()[0], Report::Unlistable { cause } if cause == "permission denied"));
}

#[test]
fn organizing_twice_changes_nothing_more() {
    let mut tree = Tree::new(
        &["a.TXT", "b.txt", "README", "c.md", "md", "notes."],
        &[("pdf", &["x.pdf"])],
    );
    tree.top.insert(b"x.pdf".to_vec(), Node::File);
    organize(&mut tree);
    let once = tree.top.clone();
    let count = tree.mutations;
    organize(&mut tree);
    assert_eq!(tree.top, once);
    assert_eq!(tree.mutations, count);
    assert!(tree.is_file("x.pdf"));
    assert!(tree.is_file("c.md"));
    assert!(tree.is_file("notes."));
}

#[test]
fn failed_creation_abandons_the_entry() {
    let mut tree = Tree::new(&["a.txt", "b.png"], &[]);
    let org = drive(&mut tree, Some(Ok(Tree::new(&["a.txt", "b.png"], &[]).listing())), true);
    assert_eq!(tree.mutations, 0);
    assert!(tree.is_file("a.txt"));
    assert!(tree.is_file("b.png"));
    let failed = org.reports().iter().filter(|r| matches!(r, Report::CreateFailed { .. })).count();
    assert_eq!(failed, 2);
    assert!(!org.reports().iter().any(|r| matches!(r, Report::MoveFailed { .. })));
}

#[test]
fn existing_destination_directory_is_reused() {
    let mut tree = Tree::new(&["song.MP3"], &[("mp3", &["old.mp3"])]);
    organize(&mut tree);
    assert!(tree.holds("mp3", "song.MP3"));
    assert!(tree.holds("mp3", "old.mp3"));
    assert_eq!(tree.mutations, 1);
}

#[test]
fn taken_name_in_destination_fails_the_move() {
    let mut tree = Tree::new(&["a.txt"], &[("txt", &["a.txt"])]);
    let org = organize(&mut tree);
    assert!(tree.is_file("a.txt"));
    assert!(matches!(&org.reports()[0], Report::MoveFailed { key, .. } if key == "txt"));
    assert!(matches!(&org.reports()[1], Report::SkippedDir { .. }));
}

#[test]
fn unreadable_entries_are_skipped_silently() {
    let mut tree = Tree::new(&["a.txt"], &[]);
    let listing = vec![None, Some(DirItem { name: b"a.txt".to_vec(), is_dir: false }), None];
    let org = drive(&mut tree, Some(Ok(listing)), false);
    assert!(org.reports().is_empty());
    assert!(tree.holds("txt", "a.txt"));
}

#[test]
fn undecodable_extension_is_left_without_report() {
    let mut tree = Tree::new(&[], &[]);
    tree.top.insert(vec![b'a', b'.', 0xff], Node::File);
    let org = organize(&mut tree);
    assert!(org.reports().is_empty());
    assert_eq!(tree.mutations, 0);
}

#[test]
fn actions_follow_probe_create_move() {
    let tree = Tree::new(&["a.Log"], &[]);
    let mut org = Organizer::begin(Some(Ok(tree.listing())));
    assert!(matches!(org.next_action(), Action::Probe { key } if key == "log"));
    org.handle(Event::Probed(false));
    assert!(matches!(org.next_action(), Action::Create { key } if key == "log"));
    org.handle(Event::Succeeded);
    assert!(matches!(org.next_action(), Action::Move { index: 0, key } if key == "log"));
    org.handle(Event::Succeeded);
    assert!(matches!(org.next_action(), Action::Done));
    assert!(org.reports().is_empty());
}
