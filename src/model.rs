//! A model of the target directory, of how the filesystem carries out the
//! actions of a pass, and the laws that a pass obeys against it.

use vstd::prelude::*;
use vstd::utf8::encode_utf8;
use crate::extension::{extension_of, last_dot, DOT};
use crate::key::{class_of, key_of_extension, ClassView};
use crate::organizer::{
    initial, on_event, phase_rank, scan_step, EventView, ItemView, OrganizerView, Phase, ReportView,
};

verus! {

/// A top-level entry of the target directory: a file, or a directory with
/// the names it holds.
pub ghost enum Node {
    File,
    Folder { held: Set<Seq<u8>> },
}

/// The name of the destination directory of a key: its UTF-8 bytes.
pub open spec fn dir_name(key: Seq<char>) -> Seq<u8> {
    encode_utf8(key)
}

/// The file `n` can be renamed to `d/n`: `d` is another entry, a directory
/// that does not yet hold a `n`.
pub open spec fn movable(top: Map<Seq<u8>, Node>, n: Seq<u8>, d: Seq<u8>) -> bool {
    &&& d != n
    &&& top.contains_key(n)
    &&& top[n] is File
    &&& top.contains_key(d)
    &&& top[d] is Folder
    &&& !top[d]->held.contains(n)
}

/// What the filesystem answers to the action that `v` waits on, and the top
/// level after it. The empty key names the target directory itself, so a
/// move into it renames a file onto itself.
pub open spec fn perform(v: OrganizerView, top: Map<Seq<u8>, Node>) -> (EventView, Map<Seq<u8>, Node>) {
    let d = dir_name(v.key);
    match v.phase {
        Phase::Probing => (EventView::Probed(d.len() == 0 || top.contains_key(d)), top),
        Phase::Creating => if d.len() > 0 && !top.contains_key(d) {
            (EventView::Succeeded, top.insert(d, Node::Folder { held: Set::empty() }))
        } else {
            (EventView::Failed(Seq::empty()), top)
        },
        Phase::Moving => {
            let n = v.items[v.index as int]->Some_0.name;
            if d.len() == 0 {
                (EventView::Succeeded, top)
            } else if movable(top, n, d) {
                (
                    EventView::Succeeded,
                    top.remove(n).insert(d, Node::Folder { held: top[d]->held.insert(n) }),
                )
            } else {
                (EventView::Failed(Seq::empty()), top)
            }
        },
        Phase::Scanning => (EventView::Succeeded, top),
    }
}

/// One step of a pass against the model.
pub open spec fn step(v: OrganizerView, top: Map<Seq<u8>, Node>) -> (OrganizerView, Map<Seq<u8>, Node>) {
    if v.phase == Phase::Scanning {
        (scan_step(v), top)
    } else {
        let (e, t) = perform(v, top);
        (on_event(v, e), t)
    }
}

/// A pass run to its end against the model.
pub open spec fn run(v: OrganizerView, top: Map<Seq<u8>, Node>) -> (OrganizerView, Map<Seq<u8>, Node>)
    decreases v.items.len() - v.index, phase_rank(v.phase),
{
    if v.index >= v.items.len() {
        (v, top)
    } else {
        let (v2, t2) = step(v, top);
        run(v2, t2)
    }
}

/// The listing of `top` in the order `names` gives; `None` is an entry that
/// could not be read.
pub open spec fn listing_items(names: Seq<Option<Seq<u8>>>, top: Map<Seq<u8>, Node>) -> Seq<Option<ItemView>> {
    names.map_values(
        |o: Option<Seq<u8>>|
            match o {
                Some(n) => Some(ItemView { name: n, is_dir: top[n] is Folder }),
                None => None,
            },
    )
}

/// The reports and the top level after organizing `top`, listed as `names`
/// gives (`None` where the target directory does not exist).
pub open spec fn organize(names: Option<Seq<Option<Seq<u8>>>>, top: Map<Seq<u8>, Node>) -> (Seq<ReportView>, Map<Seq<u8>, Node>) {
    let start = match names {
        None => initial(None),
        Some(ns) => initial(Some(Ok(listing_items(ns, top)))),
    };
    let (v, t) = run(start, top);
    (v.reports, t)
}

/// `names` lists entries of `top`, each at most once.
pub open spec fn valid_listing(names: Seq<Option<Seq<u8>>>, top: Map<Seq<u8>, Node>) -> bool {
    &&& forall|i: int| 0 <= i < names.len() && names[i] is Some ==> top.contains_key(#[trigger] names[i]->Some_0)
    &&& forall|i: int, j: int|
        0 <= i < names.len() && 0 <= j < names.len() && names[i] is Some && names[j] is Some
            && #[trigger] names[i] == #[trigger] names[j] ==> i == j
}

/// `names` lists every entry of `top`.
pub open spec fn complete_listing(names: Seq<Option<Seq<u8>>>, top: Map<Seq<u8>, Node>) -> bool {
    forall|n: Seq<u8>| #[trigger] top.contains_key(n) ==> exists|i: int| 0 <= i < names.len() && names[i] == Some(n)
}

/// No key of a file in `top` names a directory with a `.` in it. An
/// extension holds no `.`; that lowercasing adds none is not known here, so
/// the laws that need it ask for it.
pub open spec fn well_keyed(top: Map<Seq<u8>, Node>) -> bool {
    forall|n: Seq<u8>| #[trigger] top.contains_key(n) ==> keyed_without_dot(n, top[n] is Folder)
}

pub open spec fn keyed_without_dot(n: Seq<u8>, is_dir: bool) -> bool {
    class_of(n, is_dir) matches ClassView::Key(k) ==> !dir_name(k).contains(DOT)
}

pub open spec fn item_at(v: OrganizerView, j: int) -> ItemView {
    v.items[j]->Some_0
}

/// What holds of every state that a pass reaches from a valid listing.
pub open spec fn coherent(v: OrganizerView, top: Map<Seq<u8>, Node>) -> bool {
    &&& v.index <= v.items.len()
    &&& forall|i: int, j: int|
        0 <= i < v.items.len() && 0 <= j < v.items.len() && v.items[i] is Some && v.items[j] is Some
            && #[trigger] item_at(v, i).name == #[trigger] item_at(v, j).name ==> i == j
    &&& forall|j: int|
        0 <= j < v.items.len() && v.items[j] is Some ==> keyed_without_dot(
            #[trigger] item_at(v, j).name,
            item_at(v, j).is_dir,
        )
    &&& forall|j: int|
        v.index <= j < v.items.len() && v.items[j] is Some ==> {
            &&& top.contains_key(#[trigger] item_at(v, j).name)
            &&& item_at(v, j).is_dir == top[item_at(v, j).name] is Folder
        }
    &&& v.phase != Phase::Scanning ==> {
        &&& v.index < v.items.len()
        &&& v.items[v.index as int] is Some
        &&& class_of(item_at(v, v.index as int).name, item_at(v, v.index as int).is_dir)
            == ClassView::Key(v.key)
    }
    &&& v.phase == Phase::Creating ==> dir_name(v.key).len() > 0 && !top.contains_key(dir_name(v.key))
    &&& v.phase == Phase::Moving ==> dir_name(v.key).len() == 0 || top.contains_key(dir_name(v.key))
}

/// A name with an extension holds a `.`.
proof fn lemma_extension_has_dot(name: Seq<u8>)
    requires
        extension_of(name) is Some,
    ensures
        name.contains(DOT),
{
    crate::extension::lemma_last_dot_bounds(name);
    assert(name[last_dot(name)] == DOT);
}

/// A step keeps a pass coherent.
proof fn lemma_step_coherent(v: OrganizerView, top: Map<Seq<u8>, Node>)
    requires
        coherent(v, top),
        v.index < v.items.len(),
    ensures
        coherent(step(v, top).0, step(v, top).1),
        step(v, top).0.items == v.items,
        step(v, top).0.index >= v.index,
{
    let (v2, t2) = step(v, top);
    let d = dir_name(v.key);
    let pending_kept = forall|j: int| v2.index <= j < v2.items.len() && v2.items[j] is Some ==> {
        &&& t2.contains_key(#[trigger] item_at(v2, j).name)
        &&& item_at(v2, j).is_dir == t2[item_at(v2, j).name] is Folder
    };
    assert(v2.items == v.items);
    if v.phase == Phase::Creating {
        assert forall|j: int| v2.index <= j < v2.items.len() && v2.items[j] is Some implies {
            &&& t2.contains_key(#[trigger] item_at(v2, j).name)
            &&& item_at(v2, j).is_dir == t2[item_at(v2, j).name] is Folder
        } by {
            assert(item_at(v2, j) == item_at(v, j));
            assert(top.contains_key(item_at(v, j).name));
            assert(item_at(v, j).name != d);
        }
        assert(pending_kept);
    } else if v.phase == Phase::Moving {
        let n = item_at(v, v.index as int).name;
        if d.len() > 0 && movable(top, n, d) {
            assert forall|j: int| v2.index <= j < v2.items.len() && v2.items[j] is Some implies {
                &&& t2.contains_key(#[trigger] item_at(v2, j).name)
                &&& item_at(v2, j).is_dir == t2[item_at(v2, j).name] is Folder
            } by {
                assert(item_at(v2, j) == item_at(v, j));
                assert(item_at(v, j).name != n);
                assert(top.contains_key(item_at(v, j).name));
            }
        } else {
            assert(t2 == top);
            assert forall|j: int| v2.index <= j < v2.items.len() && v2.items[j] is Some implies {
                &&& t2.contains_key(#[trigger] item_at(v2, j).name)
                &&& item_at(v2, j).is_dir == t2[item_at(v2, j).name] is Folder
            } by {
                assert(item_at(v2, j) == item_at(v, j));
            }
        }
        assert(pending_kept);
    } else {
        assert(t2 == top);
        assert(v2.index >= v.index);
        assert forall|j: int| v2.index <= j < v2.items.len() && v2.items[j] is Some implies {
            &&& t2.contains_key(#[trigger] item_at(v2, j).name)
            &&& item_at(v2, j).is_dir == t2[item_at(v2, j).name] is Folder
        } by {
            assert(item_at(v2, j) == item_at(v, j));
        }
    }
    assert(pending_kept);
    assert forall|i: int, j: int|
        0 <= i < v2.items.len() && 0 <= j < v2.items.len() && v2.items[i] is Some && v2.items[j] is Some
            && #[trigger] item_at(v2, i).name == #[trigger] item_at(v2, j).name implies i == j by {
        assert(item_at(v2, i) == item_at(v, i));
        assert(item_at(v2, j) == item_at(v, j));
    }
    assert forall|j: int| 0 <= j < v2.items.len() && v2.items[j] is Some implies keyed_without_dot(
        #[trigger] item_at(v2, j).name,
        item_at(v2, j).is_dir,
    ) by {
        assert(item_at(v2, j) == item_at(v, j));
    }
}

/// A pass that starts from a valid listing of a well-keyed directory is
/// coherent.
proof fn lemma_initial_coherent(names: Seq<Option<Seq<u8>>>, top: Map<Seq<u8>, Node>)
    requires
        valid_listing(names, top),
        well_keyed(top),
    ensures
        coherent(initial(Some(Ok(listing_items(names, top)))), top),
{
    let v = initial(Some(Ok(listing_items(names, top))));
    assert forall|j: int| 0 <= j < v.items.len() && v.items[j] is Some implies {
        &&& item_at(v, j).name == names[j]->Some_0
        &&& top.contains_key(item_at(v, j).name)
        &&& item_at(v, j).is_dir == top[item_at(v, j).name] is Folder
        &&& keyed_without_dot(item_at(v, j).name, item_at(v, j).is_dir)
    } by {
        assert(top.contains_key(names[j]->Some_0));
    }
    assert forall|i: int, j: int|
        0 <= i < v.items.len() && 0 <= j < v.items.len() && v.items[i] is Some && v.items[j] is Some
            && #[trigger] item_at(v, i).name == #[trigger] item_at(v, j).name implies i == j by {
        assert(names[i] == names[j]);
    }
}

/// The entries at `v.index` and after that are files named `n` are not
/// moved by the rest of the pass: they have no key.
pub open spec fn never_moved(v: OrganizerView, n: Seq<u8>) -> bool {
    forall|j: int|
        v.index <= j < v.items.len() && v.items[j] is Some && #[trigger] item_at(v, j).name == n
            ==> !(class_of(n, item_at(v, j).is_dir) is Key)
}

/// A file that the rest of a pass does not move stays as it is.
proof fn lemma_run_keeps_file(v: OrganizerView, top: Map<Seq<u8>, Node>, n: Seq<u8>)
    requires
        coherent(v, top),
        top.contains_key(n),
        top[n] is File,
        never_moved(v, n),
    ensures
        run(v, top).1.contains_key(n),
        run(v, top).1[n] == top[n],
    decreases v.items.len() - v.index, phase_rank(v.phase),
{
    if v.index < v.items.len() {
        let (v2, t2) = step(v, top);
        lemma_step_coherent(v, top);
        if v.phase == Phase::Moving {
            assert(item_at(v, v.index as int).name != n);
        }
        assert(t2.contains_key(n) && t2[n] == top[n]);
        assert forall|j: int|
            v2.index <= j < v2.items.len() && v2.items[j] is Some && #[trigger] item_at(v2, j).name == n
                implies !(class_of(n, item_at(v2, j).is_dir) is Key) by {
            assert(item_at(v2, j) == item_at(v, j));
        }
        lemma_run_keeps_file(v2, t2, n);
    }
}

/// No key that the rest of a pass may still use names `d`.
pub open spec fn never_keyed(v: OrganizerView, d: Seq<u8>) -> bool {
    forall|j: int|
        v.index <= j < v.items.len() && v.items[j] is Some
            ==> !(#[trigger] class_of(item_at(v, j).name, item_at(v, j).is_dir) matches ClassView::Key(k)
            && dir_name(k) == d)
}

/// A directory that no remaining key names stays as it is.
proof fn lemma_run_keeps_folder(v: OrganizerView, top: Map<Seq<u8>, Node>, f: Seq<u8>)
    requires
        coherent(v, top),
        top.contains_key(f),
        top[f] is Folder,
        never_keyed(v, f),
    ensures
        run(v, top).1.contains_key(f),
        run(v, top).1[f] == top[f],
    decreases v.items.len() - v.index, phase_rank(v.phase),
{
    if v.index < v.items.len() {
        let (v2, t2) = step(v, top);
        lemma_step_coherent(v, top);
        if v.phase != Phase::Scanning {
            let it = item_at(v, v.index as int);
            assert(class_of(it.name, it.is_dir) == ClassView::Key(v.key));
            assert(dir_name(v.key) != f);
        }
        assert(t2.contains_key(f) && t2[f] == top[f]);
        assert forall|j: int| v2.index <= j < v2.items.len() && v2.items[j] is Some implies !(
        #[trigger] class_of(item_at(v2, j).name, item_at(v2, j).is_dir) matches ClassView::Key(k)
            && dir_name(k) == f) by {
            assert(item_at(v2, j) == item_at(v, j));
        }
        lemma_run_keeps_folder(v2, t2, f);
    }
}

/// The indices of the missing-extension reports among `rs`, in order.
pub open spec fn missing_extension_reports(rs: Seq<ReportView>) -> Seq<nat>
    decreases rs.len(),
{
    if rs.len() == 0 {
        Seq::empty()
    } else {
        let init = missing_extension_reports(rs.drop_last());
        match rs.last() {
            ReportView::NoExtension(i) => init.push(i),
            _ => init,
        }
    }
}

/// The indices of the files without extension among the first `upto`
/// entries of a listing, in order.
pub open spec fn files_without_extension(items: Seq<Option<ItemView>>, upto: int) -> Seq<nat>
    decreases upto,
{
    if upto <= 0 {
        Seq::empty()
    } else {
        let init = files_without_extension(items, upto - 1);
        if items[upto - 1] matches Some(it) && class_of(it.name, it.is_dir) is NoExtension {
            init.push((upto - 1) as nat)
        } else {
            init
        }
    }
}

proof fn lemma_push_report(rs: Seq<ReportView>, r: ReportView)
    ensures
        missing_extension_reports(rs.push(r)) == match r {
            ReportView::NoExtension(i) => missing_extension_reports(rs).push(i),
            _ => missing_extension_reports(rs),
        },
{
    assert(rs.push(r).drop_last() == rs);
}

/// Every entry dealt with so far that is a file without extension has had
/// its report, in listing order, and no other entry has.
proof fn lemma_run_reports_missing(v: OrganizerView, top: Map<Seq<u8>, Node>)
    requires
        coherent(v, top),
        missing_extension_reports(v.reports) == files_without_extension(v.items, v.index as int),
    ensures
        missing_extension_reports(run(v, top).0.reports) == files_without_extension(
            v.items,
            v.items.len() as int,
        ),
        run(v, top).0.items == v.items,
    decreases v.items.len() - v.index, phase_rank(v.phase),
{
    if v.index < v.items.len() {
        let (v2, t2) = step(v, top);
        lemma_step_coherent(v, top);
        if v2.reports.len() > v.reports.len() {
            lemma_push_report(v.reports, v2.reports.last());
            assert(v2.reports == v.reports.push(v2.reports.last()));
        }
        lemma_run_reports_missing(v2, t2);
    }
}

/// Organizing a directory that does not exist yields one report, that it is
/// missing, and changes nothing.
pub proof fn law_missing_directory(top: Map<Seq<u8>, Node>)
    ensures
        organize(None, top) == (seq![ReportView::Missing], top),
{
}

/// Organizing an empty directory changes nothing and reports nothing.
pub proof fn law_empty_directory(top: Map<Seq<u8>, Node>)
    requires
        top.dom() == Set::<Seq<u8>>::empty(),
    ensures
        organize(Some(Seq::empty()), top) == (Seq::<ReportView>::empty(), top),
{
    assert(listing_items(Seq::empty(), top) == Seq::<Option<ItemView>>::empty());
}

/// Files without extension stay where they are, untouched, and each of them
/// has exactly one missing-extension report: the reports name the same
/// entries, in the same order.
pub proof fn law_files_without_extension(names: Seq<Option<Seq<u8>>>, top: Map<Seq<u8>, Node>)
    requires
        valid_listing(names, top),
        well_keyed(top),
    ensures
        missing_extension_reports(organize(Some(names), top).0) == files_without_extension(
            listing_items(names, top),
            names.len() as int,
        ),
        forall|n: Seq<u8>|
            top.contains_key(n) && top[n] is File && extension_of(n) is None ==> {
                &&& #[trigger] organize(Some(names), top).1.contains_key(n)
                &&& organize(Some(names), top).1[n] == Node::File
            },
{
    let v = initial(Some(Ok(listing_items(names, top))));
    lemma_initial_coherent(names, top);
    assert(missing_extension_reports(v.reports) == Seq::<nat>::empty());
    lemma_run_reports_missing(v, top);
    assert forall|n: Seq<u8>| top.contains_key(n) && top[n] is File && extension_of(n) is None implies {
        &&& #[trigger] organize(Some(names), top).1.contains_key(n)
        &&& organize(Some(names), top).1[n] == Node::File
    } by {
        assert forall|j: int|
            v.index <= j < v.items.len() && v.items[j] is Some && #[trigger] item_at(v, j).name == n
                implies !(class_of(n, item_at(v, j).is_dir) is Key) by {
            assert(names[j] == Some(n));
        }
        lemma_run_keeps_file(v, top, n);
    }
}

/// A subdirectory stays as it is, with what it holds, unless a file of the
/// listing has a key that names it.
pub proof fn law_subdirectories_kept(names: Seq<Option<Seq<u8>>>, top: Map<Seq<u8>, Node>, f: Seq<u8>)
    requires
        valid_listing(names, top),
        well_keyed(top),
        top.contains_key(f),
        top[f] is Folder,
        forall|i: int|
            0 <= i < names.len() && names[i] is Some ==> !(#[trigger] class_of(
                names[i]->Some_0,
                top[names[i]->Some_0] is Folder,
            ) matches ClassView::Key(k) && dir_name(k) == f),
    ensures
        organize(Some(names), top).1.contains_key(f),
        organize(Some(names), top).1[f] == top[f],
{
    let v = initial(Some(Ok(listing_items(names, top))));
    lemma_initial_coherent(names, top);
    assert forall|j: int| v.index <= j < v.items.len() && v.items[j] is Some implies !(
    #[trigger] class_of(item_at(v, j).name, item_at(v, j).is_dir) matches ClassView::Key(k)
        && dir_name(k) == f) by {
        assert(item_at(v, j).name == names[j]->Some_0);
        assert(!(class_of(names[j]->Some_0, top[names[j]->Some_0] is Folder) matches ClassView::Key(
            k,
        ) && dir_name(k) == f));
    }
    lemma_run_keeps_folder(v, top, f);
}

/// The name of the destination directory of the file `n`, where it has a
/// key.
pub open spec fn destination(n: Seq<u8>) -> Seq<u8> {
    dir_name(class_of(n, false)->Key_0)
}

/// `n` is no longer at the top level and `d` is a directory that holds it.
pub open spec fn moved_into(top: Map<Seq<u8>, Node>, n: Seq<u8>, d: Seq<u8>) -> bool {
    &&& !top.contains_key(n)
    &&& top.contains_key(d)
    &&& top[d] is Folder
    &&& top[d]->held.contains(n)
}

/// `n` is a file at the top level, and `d` is either missing or a directory
/// that does not hold a `n`.
pub open spec fn ready_to_move(top: Map<Seq<u8>, Node>, n: Seq<u8>, d: Seq<u8>) -> bool {
    &&& top.contains_key(n)
    &&& top[n] is File
    &&& top.contains_key(d) ==> top[d] is Folder && !top[d]->held.contains(n)
}

proof fn lemma_key_has_dot(n: Seq<u8>, is_dir: bool)
    requires
        class_of(n, is_dir) is Key,
    ensures
        n.contains(DOT),
        !is_dir,
{
    lemma_extension_has_dot(n);
}

/// The entry `j`, a file `n` with a key naming `d`, is moved into `d` by the
/// pass, provided it is ready when its turn comes.
proof fn lemma_run_moves(v: OrganizerView, top: Map<Seq<u8>, Node>, j: int, n: Seq<u8>, d: Seq<u8>)
    requires
        coherent(v, top),
        0 <= j < v.items.len(),
        v.items[j] is Some,
        item_at(v, j).name == n,
        class_of(n, item_at(v, j).is_dir) is Key,
        dir_name(class_of(n, item_at(v, j).is_dir)->Key_0) == d,
        d.len() > 0,
        v.index <= j ==> ready_to_move(top, n, d),
        v.index > j ==> moved_into(top, n, d),
    ensures
        moved_into(run(v, top).1, n, d),
    decreases v.items.len() - v.index, phase_rank(v.phase),
{
    lemma_key_has_dot(n, item_at(v, j).is_dir);
    assert(!d.contains(DOT));
    if v.index < v.items.len() {
        let (v2, t2) = step(v, top);
        lemma_step_coherent(v, top);
        let i = v.index as int;
        if v.phase != Phase::Scanning {
            let it = item_at(v, i);
            assert(class_of(it.name, it.is_dir) == ClassView::Key(v.key));
            lemma_key_has_dot(it.name, it.is_dir);
            assert(!dir_name(v.key).contains(DOT));
            assert(dir_name(v.key) != n);
            if i != j {
                assert(it.name != n);
            } else {
                assert(dir_name(v.key) == d);
            }
        }
        lemma_run_moves(v2, t2, j, n, d);
    } else {
        assert(v.index > j);
    }
}

/// A file with a non-empty key, whose destination directory is missing or
/// is a directory without an entry of its name, ends up in that directory
/// and no longer stands at the top level.
pub proof fn law_file_moved(names: Seq<Option<Seq<u8>>>, top: Map<Seq<u8>, Node>, i: int)
    requires
        valid_listing(names, top),
        well_keyed(top),
        0 <= i < names.len(),
        names[i] is Some,
        top[names[i]->Some_0] is File,
        class_of(names[i]->Some_0, false) is Key,
        destination(names[i]->Some_0).len() > 0,
        ready_to_move(top, names[i]->Some_0, destination(names[i]->Some_0)),
    ensures
        moved_into(
            organize(Some(names), top).1,
            names[i]->Some_0,
            destination(names[i]->Some_0),
        ),
{
    let v = initial(Some(Ok(listing_items(names, top))));
    lemma_initial_coherent(names, top);
    let n = names[i]->Some_0;
    assert(top.contains_key(n));
    assert(item_at(v, i) == ItemView { name: n, is_dir: false });
    lemma_run_moves(v, top, i, n, destination(n));
}

/// Organizing would leave `n` where it is: its key is empty, or its
/// destination exists and cannot take it.
pub open spec fn stuck(top: Map<Seq<u8>, Node>, n: Seq<u8>) -> bool {
    let d = destination(n);
    d.len() == 0 || (top.contains_key(d) && !movable(top, n, d))
}

/// Every file with a key at the top level is stuck.
pub open spec fn settled(top: Map<Seq<u8>, Node>) -> bool {
    forall|n: Seq<u8>|
        #[trigger] top.contains_key(n) && top[n] is File && class_of(n, false) is Key ==> stuck(top, n)
}

/// The file `n` is still to come in the pass.
pub open spec fn pending_file(v: OrganizerView, n: Seq<u8>) -> bool {
    exists|j: int| v.index <= j < v.items.len() && v.items[j] == Some(ItemView { name: n, is_dir: false })
}

/// A pass over a settled directory changes nothing.
proof fn lemma_run_settled_unchanged(v: OrganizerView, top: Map<Seq<u8>, Node>)
    requires
        coherent(v, top),
        settled(top),
    ensures
        run(v, top).1 == top,
    decreases v.items.len() - v.index, phase_rank(v.phase),
{
    if v.index < v.items.len() {
        let (v2, t2) = step(v, top);
        lemma_step_coherent(v, top);
        if v.phase != Phase::Scanning {
            let it = item_at(v, v.index as int);
            lemma_key_has_dot(it.name, it.is_dir);
            assert(top.contains_key(it.name));
            assert(destination(it.name) == dir_name(v.key));
            assert(stuck(top, it.name));
        }
        assert(t2 == top);
        lemma_run_settled_unchanged(v2, t2);
    }
}

/// A pass that lists every file with a key leaves a settled directory.
proof fn lemma_run_settles(v: OrganizerView, top: Map<Seq<u8>, Node>)
    requires
        coherent(v, top),
        well_keyed(top),
        forall|n: Seq<u8>|
            #[trigger] top.contains_key(n) && top[n] is File && class_of(n, false) is Key ==> stuck(top, n)
                || pending_file(v, n),
    ensures
        settled(run(v, top).1),
        well_keyed(run(v, top).1),
    decreases v.items.len() - v.index, phase_rank(v.phase),
{
    if v.index >= v.items.len() {
        assert forall|n: Seq<u8>|
            #[trigger] top.contains_key(n) && top[n] is File && class_of(n, false) is Key implies stuck(
                top,
                n,
            ) by {
            if pending_file(v, n) {
                let j = choose|j: int|
                    v.index <= j < v.items.len() && v.items[j] == Some(ItemView { name: n, is_dir: false });
            }
        }
    } else {
        let (v2, t2) = step(v, top);
        lemma_step_coherent(v, top);
        let i = v.index as int;
        assert forall|n: Seq<u8>| #[trigger] t2.contains_key(n) implies keyed_without_dot(
            n,
            t2[n] is Folder,
        ) by {
            if top.contains_key(n) && t2[n] == top[n] {
            } else {
                assert(t2[n] is Folder);
            }
        }
        assert forall|n: Seq<u8>|
            #[trigger] t2.contains_key(n) && t2[n] is File && class_of(n, false) is Key implies stuck(
                t2,
                n,
            ) || pending_file(v2, n) by {
            assert(top.contains_key(n) && top[n] is File && t2[n] == top[n]);
            let dn = destination(n);
            if pending_file(v, n) {
                let j = choose|j: int|
                    v.index <= j < v.items.len() && v.items[j] == Some(ItemView { name: n, is_dir: false });
                if j >= v2.index {
                    assert(v2.items[j] == Some(ItemView { name: n, is_dir: false }));
                } else {
                    assert(j == i);
                    assert(item_at(v, i).name == n);
                    assert(v.phase == Phase::Moving);
                    assert(destination(n) == dir_name(v.key));
                    assert(stuck(t2, n));
                }
            } else {
                assert(stuck(top, n));
                if dn.len() > 0 {
                    assert(keyed_without_dot(n, false));
                    assert(!dn.contains(DOT));
                    if v.phase == Phase::Moving {
                        let it = item_at(v, i);
                        lemma_key_has_dot(it.name, it.is_dir);
                        assert(dn != it.name);
                    }
                    assert(t2.contains_key(dn));
                }
            }
        }
        lemma_run_settles(v2, t2);
    }
}

/// Organizing twice leaves the directory as organizing once does, where the
/// first pass could read every entry.
pub proof fn law_organize_twice(
    names: Seq<Option<Seq<u8>>>,
    top: Map<Seq<u8>, Node>,
    again: Seq<Option<Seq<u8>>>,
)
    requires
        valid_listing(names, top),
        complete_listing(names, top),
        well_keyed(top),
        valid_listing(again, organize(Some(names), top).1),
    ensures
        organize(Some(again), organize(Some(names), top).1).1 == organize(Some(names), top).1,
{
    let v = initial(Some(Ok(listing_items(names, top))));
    lemma_initial_coherent(names, top);
    assert forall|n: Seq<u8>|
        #[trigger] top.contains_key(n) && top[n] is File && class_of(n, false) is Key implies stuck(top, n)
            || pending_file(v, n) by {
        let j = choose|j: int| 0 <= j < names.len() && names[j] == Some(n);
        assert(v.items[j] == Some(ItemView { name: n, is_dir: false }));
    }
    lemma_run_settles(v, top);
    let t1 = organize(Some(names), top).1;
    lemma_initial_coherent(again, t1);
    lemma_run_settled_unchanged(initial(Some(Ok(listing_items(again, t1)))), t1);
}

/// Files whose extensions lowercase to the same text share one destination
/// directory, whatever the case their extensions are written in.
pub proof fn law_same_key_same_destination(a: Seq<u8>, b: Seq<u8>)
    requires
        class_of(a, false) is Key,
        class_of(b, false) is Key,
        key_of_extension(extension_of(a)->Some_0) == key_of_extension(extension_of(b)->Some_0),
    ensures
        destination(a) == destination(b),
{
}

} // verus!
