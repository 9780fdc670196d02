//! One organizing pass over a target directory, as a state machine.
//!
//! The driver asks for the next action (`next_action`), performs it on the
//! filesystem and hands back what happened (`handle`), until the action is
//! `Done`. Everything that is decided in between stands here.

use vstd::prelude::*;
use crate::key::{class_of, classify, Class, ClassView};

verus! {

/// One entry of the listing of the target directory: its file name, as the
/// bytes of the platform's encoding, and whether it is a directory.
pub struct DirItem {
    pub name: Vec<u8>,
    pub is_dir: bool,
}

pub ghost struct ItemView {
    pub name: Seq<u8>,
    pub is_dir: bool,
}

impl View for DirItem {
    type V = ItemView;

    open spec fn view(&self) -> ItemView {
        ItemView { name: self.name@, is_dir: self.is_dir }
    }
}

/// A condition the pass reports. `index` is the entry's place in the listing.
pub enum Report {
    /// The target directory does not exist.
    Missing,
    /// The target directory could not be listed.
    Unlistable { cause: String },
    /// The entry is a directory and was skipped.
    SkippedDir { index: usize },
    /// The file has no extension and was left in place.
    NoExtension { index: usize },
    /// The destination directory `key` could not be created.
    CreateFailed { index: usize, key: String, cause: String },
    /// The file could not be moved into the directory `key`.
    MoveFailed { index: usize, key: String, cause: String },
}

pub ghost enum ReportView {
    Missing,
    Unlistable(Seq<char>),
    SkippedDir(nat),
    NoExtension(nat),
    CreateFailed(nat, Seq<char>, Seq<char>),
    MoveFailed(nat, Seq<char>, Seq<char>),
}

impl View for Report {
    type V = ReportView;

    open spec fn view(&self) -> ReportView {
        match self {
            Report::Missing => ReportView::Missing,
            Report::Unlistable { cause } => ReportView::Unlistable(cause@),
            Report::SkippedDir { index } => ReportView::SkippedDir(*index as nat),
            Report::NoExtension { index } => ReportView::NoExtension(*index as nat),
            Report::CreateFailed { index, key, cause } => ReportView::CreateFailed(
                *index as nat,
                key@,
                cause@,
            ),
            Report::MoveFailed { index, key, cause } => ReportView::MoveFailed(
                *index as nat,
                key@,
                cause@,
            ),
        }
    }
}

/// What the driver is asked to do next.
pub enum Action {
    /// Tell whether `target/key` exists.
    Probe { key: String },
    /// Create the directory `target/key` (that segment alone).
    Create { key: String },
    /// Rename entry `index` to `target/key/<its name>`.
    Move { index: usize, key: String },
    /// The pass is over.
    Done,
}

pub ghost enum ActionView {
    Probe(Seq<char>),
    Create(Seq<char>),
    Move(nat, Seq<char>),
    Done,
}

impl View for Action {
    type V = ActionView;

    open spec fn view(&self) -> ActionView {
        match self {
            Action::Probe { key } => ActionView::Probe(key@),
            Action::Create { key } => ActionView::Create(key@),
            Action::Move { index, key } => ActionView::Move(*index as nat, key@),
            Action::Done => ActionView::Done,
        }
    }
}

/// What came of the last action.
pub enum Event {
    /// The answer to a `Probe`.
    Probed(bool),
    /// The `Create` or `Move` succeeded.
    Succeeded,
    /// The `Create` or `Move` failed, for this cause.
    Failed(String),
}

pub ghost enum EventView {
    Probed(bool),
    Succeeded,
    Failed(Seq<char>),
}

impl View for Event {
    type V = EventView;

    open spec fn view(&self) -> EventView {
        match self {
            Event::Probed(b) => EventView::Probed(*b),
            Event::Succeeded => EventView::Succeeded,
            Event::Failed(c) => EventView::Failed(c@),
        }
    }
}

/// Where the pass stands with the current entry.
#[derive(Clone, Copy, PartialEq, Eq, Structural)]
pub enum Phase {
    /// Looking for the next entry that needs outside work.
    Scanning,
    /// Waiting to learn whether the destination directory exists.
    Probing,
    /// Waiting for the destination directory to be created.
    Creating,
    /// Waiting for the file to be moved.
    Moving,
}

pub ghost struct OrganizerView {
    pub items: Seq<Option<ItemView>>,
    pub index: nat,
    pub key: Seq<char>,
    pub phase: Phase,
    pub reports: Seq<ReportView>,
}

/// The state of one pass.
pub struct Organizer {
    items: Vec<Option<DirItem>>,
    index: usize,
    key: String,
    phase: Phase,
    reports: Vec<Report>,
}

pub open spec fn item_views(items: Seq<Option<DirItem>>) -> Seq<Option<ItemView>> {
    items.map_values(
        |o: Option<DirItem>|
            match o {
                Some(d) => Some(d@),
                None => None,
            },
    )
}

impl View for Organizer {
    type V = OrganizerView;

    closed spec fn view(&self) -> OrganizerView {
        OrganizerView {
            items: item_views(self.items@),
            index: self.index as nat,
            key: self.key@,
            phase: self.phase,
            reports: self.reports@.map_values(|r: Report| r@),
        }
    }
}

/// The state a pass starts in. `listing` is `None` where the target directory
/// does not exist, else the result of listing it.
pub open spec fn initial(listing: Option<Result<Seq<Option<ItemView>>, Seq<char>>>) -> OrganizerView {
    let empty = OrganizerView {
        items: Seq::empty(),
        index: 0,
        key: Seq::empty(),
        phase: Phase::Scanning,
        reports: Seq::empty(),
    };
    match listing {
        None => OrganizerView { reports: seq![ReportView::Missing], ..empty },
        Some(Err(cause)) => OrganizerView { reports: seq![ReportView::Unlistable(cause)], ..empty },
        Some(Ok(items)) => OrganizerView { items: items, ..empty },
    }
}

/// The pass is over: every entry has been dealt with.
pub open spec fn is_done(v: OrganizerView) -> bool {
    v.phase == Phase::Scanning && v.index >= v.items.len()
}

pub open spec fn phase_rank(p: Phase) -> nat {
    match p {
        Phase::Moving => 0,
        Phase::Creating => 1,
        Phase::Probing => 2,
        Phase::Scanning => 3,
    }
}

/// Deals with the entry at `v.index` as far as no outside work is needed:
/// a directory or a file without extension is reported and passed over, an
/// entry that could not be read or whose extension is not text is passed over
/// silently, and a file with a key starts its probe.
pub open spec fn scan_step(v: OrganizerView) -> OrganizerView
    recommends
        v.phase == Phase::Scanning,
        v.index < v.items.len(),
{
    let next = OrganizerView { index: v.index + 1, ..v };
    match v.items[v.index as int] {
        None => next,
        Some(item) => match class_of(item.name, item.is_dir) {
            ClassView::Directory => OrganizerView {
                reports: v.reports.push(ReportView::SkippedDir(v.index)),
                ..next
            },
            ClassView::NoExtension => OrganizerView {
                reports: v.reports.push(ReportView::NoExtension(v.index)),
                ..next
            },
            ClassView::Undecodable => next,
            ClassView::Key(k) => OrganizerView { key: k, phase: Phase::Probing, ..v },
        },
    }
}

/// Scans until an entry needs outside work or the listing is exhausted.
pub open spec fn settle(v: OrganizerView) -> OrganizerView
    decreases v.items.len() - v.index, phase_rank(v.phase),
{
    if v.phase == Phase::Scanning && v.index < v.items.len() {
        settle(scan_step(v))
    } else {
        v
    }
}

/// The action that a settled state asks for.
pub open spec fn action_of(v: OrganizerView) -> ActionView {
    match v.phase {
        Phase::Scanning => ActionView::Done,
        Phase::Probing => ActionView::Probe(v.key),
        Phase::Creating => ActionView::Create(v.key),
        Phase::Moving => ActionView::Move(v.index, v.key),
    }
}

/// The event is an answer to what the phase waits for.
pub open spec fn answers(p: Phase, e: EventView) -> bool {
    match p {
        Phase::Scanning => false,
        Phase::Probing => e is Probed,
        _ => !(e is Probed),
    }
}

/// The decision taken on an event: a missing destination is created, an
/// existing one is moved into; a failed creation is reported and the entry
/// abandoned; a move, done or failed (and reported), ends the entry.
pub open spec fn on_event(v: OrganizerView, e: EventView) -> OrganizerView {
    let finished = OrganizerView { index: v.index + 1, phase: Phase::Scanning, ..v };
    match (v.phase, e) {
        (Phase::Probing, EventView::Probed(true)) => OrganizerView { phase: Phase::Moving, ..v },
        (Phase::Probing, EventView::Probed(false)) => OrganizerView { phase: Phase::Creating, ..v },
        (Phase::Creating, EventView::Succeeded) => OrganizerView { phase: Phase::Moving, ..v },
        (Phase::Creating, EventView::Failed(c)) => OrganizerView {
            reports: v.reports.push(ReportView::CreateFailed(v.index, v.key, c)),
            ..finished
        },
        (Phase::Moving, EventView::Succeeded) => finished,
        (Phase::Moving, EventView::Failed(c)) => OrganizerView {
            reports: v.reports.push(ReportView::MoveFailed(v.index, v.key, c)),
            ..finished
        },
        _ => v,
    }
}

impl Organizer {
    pub closed spec fn wf(&self) -> bool {
        &&& self.index <= self.items.len()
        &&& self.phase != Phase::Scanning ==> self.index < self.items.len()
    }

    /// Starts a pass. `listing` is `None` where the target directory does
    /// not exist, else the result of listing it: an entry that could not be
    /// read is `None`.
    pub fn begin(listing: Option<Result<Vec<Option<DirItem>>, String>>) -> (r: Organizer)
        ensures
            r.wf(),
            r@ == initial(
                match listing {
                    None => None,
                    Some(Ok(items)) => Some(Ok(item_views(items@))),
                    Some(Err(c)) => Some(Err(c@)),
                },
            ),
    {
        let mut reports: Vec<Report> = Vec::new();
        let mut items: Vec<Option<DirItem>> = Vec::new();
        match listing {
            None => reports.push(Report::Missing),
            Some(Err(cause)) => reports.push(Report::Unlistable { cause }),
            Some(Ok(listed)) => items = listed,
        }
        let r = Organizer { items, index: 0, key: String::new(), phase: Phase::Scanning, reports };
        assert(r@.items =~= initial(
            match listing {
                None => None,
                Some(Ok(items)) => Some(Ok(item_views(items@))),
                Some(Err(c)) => Some(Err(c@)),
            },
        ).items);
        assert(r@.reports =~= initial(
            match listing {
                None => None,
                Some(Ok(items)) => Some(Ok(item_views(items@))),
                Some(Err(c)) => Some(Err(c@)),
            },
        ).reports);
        r
    }

    /// Advances to the next entry that needs outside work and says what that
    /// work is; `Done` once the listing is exhausted.
    pub fn next_action(&mut self) -> (a: Action)
        requires
            old(self).wf(),
        ensures
            final(self).wf(),
            final(self)@ == settle(old(self)@),
            a@ == action_of(final(self)@),
            a is Done <==> is_done(final(self)@),
    {
        while self.phase == Phase::Scanning && self.index < self.items.len()
            invariant
                self.wf(),
                settle(self@) == settle(old(self)@),
            decreases self.items.len() - self.index, phase_rank(self.phase),
        {
            let i = self.index;
            let class = match &self.items[i] {
                None => None,
                Some(item) => Some(classify(&item.name, item.is_dir)),
            };
            let ghost before = self@;
            match class {
                None => {
                    self.index = i + 1;
                },
                Some(Class::Directory) => {
                    self.reports.push(Report::SkippedDir { index: i });
                    self.index = i + 1;
                },
                Some(Class::NoExtension) => {
                    self.reports.push(Report::NoExtension { index: i });
                    self.index = i + 1;
                },
                Some(Class::Undecodable) => {
                    self.index = i + 1;
                },
                Some(Class::Key(k)) => {
                    self.key = k;
                    self.phase = Phase::Probing;
                },
            }
            assert(self@.reports =~= scan_step(before).reports);
            assert(self@ == scan_step(before));
        }
        match self.phase {
            Phase::Scanning => Action::Done,
            Phase::Probing => Action::Probe { key: self.key.clone() },
            Phase::Creating => Action::Create { key: self.key.clone() },
            Phase::Moving => Action::Move { index: self.index, key: self.key.clone() },
        }
    }

    /// Takes in what came of the action last asked for.
    pub fn handle(&mut self, event: Event)
        requires
            old(self).wf(),
            answers(old(self)@.phase, event@),
        ensures
            final(self).wf(),
            final(self)@ == on_event(old(self)@, event@),
    {
        let ghost before = self@;
        let i = self.index;
        match (self.phase, event) {
            (Phase::Probing, Event::Probed(true)) => self.phase = Phase::Moving,
            (Phase::Probing, Event::Probed(false)) => self.phase = Phase::Creating,
            (Phase::Creating, Event::Succeeded) => self.phase = Phase::Moving,
            (Phase::Creating, Event::Failed(cause)) => {
                let key = self.key.clone();
                self.reports.push(Report::CreateFailed { index: i, key, cause });
                self.index = i + 1;
                self.phase = Phase::Scanning;
            },
            (Phase::Moving, Event::Succeeded) => {
                self.index = i + 1;
                self.phase = Phase::Scanning;
            },
            (Phase::Moving, Event::Failed(cause)) => {
                let key = self.key.clone();
                self.reports.push(Report::MoveFailed { index: i, key, cause });
                self.index = i + 1;
                self.phase = Phase::Scanning;
            },
            _ => {},
        }
        assert(self@.reports =~= on_event(before, event@).reports);
        assert(self@ == on_event(before, event@));
    }

    /// The reports of the pass so far, in the order they arose.
    pub fn reports(&self) -> (r: &Vec<Report>)
        ensures
            r@.map_values(|x: Report| x@) == self@.reports,
    {
        &self.reports
    }

    /// The listing the pass works through.
    pub fn items(&self) -> (r: &Vec<Option<DirItem>>)
        ensures
            item_views(r@) == self@.items,
    {
        &self.items
    }
}

} // verus!
