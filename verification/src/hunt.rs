//! The hunt for one file in a tree of folders that was unpacked, one listing at a time.

use vstd::prelude::*;
use vstd::string::*;

use crate::ffmpeg_install::is_wanted;
use crate::text;
use crate::text::copy;
use crate::updater;
use crate::updater::installer_named;

verus! {

/// How many levels below its root a tree is searched.
pub const HUNT_DEPTH: u8 = 3;

/// The file that is wanted.
#[derive(Debug)]
pub enum Wanted {
    /// An installer, by the end of its name.
    Installer,
    /// A file of this name, whatever its case.
    Named(String),
}

impl Wanted {
    pub open spec fn takes(self, name: Seq<char>) -> bool {
        match self {
            Wanted::Installer => updater::is_installer(name),
            Wanted::Named(wanted) => text::small_text(name) == text::small_text(wanted@),
        }
    }

    /// Whether a file of this name is the one.
    pub fn accepts(&self, name: &str) -> (r: bool)
        ensures
            r == self.takes(name@),
    {
        match self {
            Wanted::Installer => installer_named(name),
            Wanted::Named(wanted) => is_wanted(name, wanted.as_str()),
        }
    }
}

/// One line of a folder's listing.
#[derive(Debug)]
pub struct TreeEntry {
    pub path: String,
    pub name: String,
    pub folder: bool,
}

/// A line of a listing, in terms of what it spells: its path, its name, and whether it is a
/// folder.
pub type Entry = (Seq<char>, Seq<char>, bool);

pub open spec fn entries_of(v: Seq<TreeEntry>) -> Seq<Entry> {
    v.map_values(|e: TreeEntry| (e.path@, e.name@, e.folder))
}

/// The first file from `i` on that is wanted, or the number of lines.
pub open spec fn match_at(entries: Seq<Entry>, wanted: Wanted, i: int) -> int
    decreases entries.len() - i,
{
    if i >= entries.len() {
        entries.len() as int
    } else if !entries[i].2 && wanted.takes(entries[i].1) {
        i
    } else {
        match_at(entries, wanted, i + 1)
    }
}

/// The folders from `i` on, each with the levels that are left below it.
pub open spec fn folders(entries: Seq<Entry>, depth: u8, i: int) -> Seq<(Seq<char>, u8)>
    decreases entries.len() - i,
{
    if i >= entries.len() {
        Seq::empty()
    } else if entries[i].2 {
        seq![(entries[i].0, depth)] + folders(entries, depth, i + 1)
    } else {
        folders(entries, depth, i + 1)
    }
}

/// A hunt, in terms of what it spells.
pub struct HuntState {
    /// The folders still to look in, the next one first, each with the levels left below it.
    pub todo: Seq<(Seq<char>, u8)>,
    pub found: Option<Seq<char>>,
}

/// Where a hunt goes from the listing of its next folder; `None` where that could not be read. A
/// match in a folder beats any deeper one.
pub open spec fn hunted_on(h: HuntState, listing: Option<Seq<Entry>>, wanted: Wanted) -> HuntState {
    let (_, depth) = h.todo[0];
    let rest = h.todo.skip(1);
    match listing {
        None => HuntState { todo: rest, found: None },
        Some(entries) => if match_at(entries, wanted, 0) < entries.len() {
            HuntState {
                todo: Seq::empty(),
                found: Some(entries[match_at(entries, wanted, 0)].0),
            }
        } else if depth == 0 {
            HuntState { todo: rest, found: None }
        } else {
            HuntState {
                todo: folders(entries, (depth - 1) as u8, 0) + rest,
                found: None,
            }
        },
    }
}

/// A hunt under way.
pub struct Hunt {
    todo: Vec<(String, u8)>,
    found: Option<String>,
}

spec fn waiting(v: Seq<(String, u8)>) -> Seq<(Seq<char>, u8)> {
    v.map_values(|p: (String, u8)| (p.0@, p.1))
}

impl View for Hunt {
    type V = HuntState;

    closed spec fn view(&self) -> HuntState {
        HuntState { todo: waiting(self.todo@), found: text::maybe_text(self.found) }
    }
}

fn find_match(entries: &Vec<TreeEntry>, wanted: &Wanted) -> (r: usize)
    ensures
        r == match_at(entries_of(entries@), *wanted, 0),
        r <= entries.len(),
{
    let ghost all = entries_of(entries@);
    let mut i: usize = 0;
    while i < entries.len()
        invariant
            i <= entries.len(),
            all == entries_of(entries@),
            match_at(all, *wanted, 0) == match_at(all, *wanted, i as int),
        decreases entries.len() - i,
    {
        proof {
            assert(all[i as int] == (
                entries@[i as int].path@,
                entries@[i as int].name@,
                entries@[i as int].folder,
            ));
        }
        if !entries[i].folder && wanted.accepts(entries[i].name.as_str()) {
            return i;
        }
        i += 1;
    }
    i
}

impl Hunt {
    /// A hunt that begins in this folder.
    pub fn new(root: String) -> (r: Hunt)
        ensures
            r@ == (HuntState { todo: seq![(root@, HUNT_DEPTH)], found: None }),
    {
        let ghost spelled = root@;
        let mut todo: Vec<(String, u8)> = Vec::new();
        todo.push((root, HUNT_DEPTH));
        let r = Hunt { todo, found: None };
        proof {
            assert(r@.todo =~= seq![(spelled, HUNT_DEPTH)]);
        }
        r
    }

    /// The folder to list next; `None` when the hunt is over.
    pub fn next_folder(&self) -> (r: Option<String>)
        ensures
            text::maybe_text(r) == (if self@.todo.len() > 0 {
                Some(self@.todo[0].0)
            } else {
                None
            }),
    {
        if self.todo.len() > 0 {
            Some(copy(&self.todo[0].0))
        } else {
            None
        }
    }

    /// Takes in what that folder holds, or that it could not be read.
    pub fn listed(&mut self, listing: Option<Vec<TreeEntry>>, wanted: &Wanted)
        requires
            old(self)@.todo.len() > 0,
        ensures
            final(self)@ == hunted_on(
                old(self)@,
                match listing {
                    Some(v) => Some(entries_of(v@)),
                    None => None,
                },
                *wanted,
            ),
    {
        let ghost before = self@.todo;
        let (_, depth) = self.todo.remove(0);
        proof {
            assert(waiting(self.todo@) =~= before.skip(1));
        }
        self.found = None;
        let entries = match listing {
            Some(v) => v,
            None => {
                return;
            },
        };
        let at = find_match(&entries, wanted);
        if at < entries.len() {
            self.found = Some(copy(&entries[at].path));
            self.todo = Vec::new();
            proof {
                assert(waiting(self.todo@) =~= Seq::empty());
                assert(entries_of(entries@)[at as int].0 == entries@[at as int].path@);
            }
            return;
        }
        if depth == 0 {
            return;
        }
        let ghost all = entries_of(entries@);
        let mut next: Vec<(String, u8)> = Vec::new();
        let mut i: usize = 0;
        proof {
            assert(waiting(next@) =~= Seq::empty());
        }
        while i < entries.len()
            invariant
                i <= entries.len(),
                depth > 0,
                all == entries_of(entries@),
                waiting(next@) + folders(all, (depth - 1) as u8, i as int) =~= folders(
                    all,
                    (depth - 1) as u8,
                    0,
                ),
            decreases entries.len() - i,
        {
            let entry = &entries[i];
            proof {
                assert(all[i as int] == (entry.path@, entry.name@, entry.folder));
            }
            if entry.folder {
                let ghost so_far = next@;
                let path = copy(&entry.path);
                next.push((path, depth - 1));
                proof {
                    assert(waiting(next@) =~= waiting(so_far).push((entry.path@, (depth - 1) as u8)));
                }
            }
            i += 1;
        }
        let ghost ahead = next@;
        let ghost behind = self.todo@;
        next.append(&mut self.todo);
        self.todo = next;
        proof {
            assert(waiting(self.todo@) =~= waiting(ahead) + waiting(behind));
        }
    }

    /// The file that was found, once the hunt is over.
    pub fn found(self) -> (r: Option<String>)
        ensures
            text::maybe_text(r) == self@.found,
    {
        self.found
    }
}

// --- What a hunt comes to ---

/// The first file that is wanted in a folder or below it, where `disk` says what each folder
/// holds: in the folder itself, or else in those it holds, one after the other.
pub open spec fn first_below(
    disk: spec_fn(Seq<char>) -> Option<Seq<Entry>>,
    dir: Seq<char>,
    depth: u8,
    wanted: Wanted,
) -> Option<Seq<char>>
    decreases depth, 0int,
{
    match disk(dir) {
        None => None,
        Some(entries) => if match_at(entries, wanted, 0) < entries.len() {
            Some(entries[match_at(entries, wanted, 0)].0)
        } else if depth == 0 {
            None
        } else {
            first_inside(disk, entries, 0, (depth - 1) as u8, wanted)
        },
    }
}

/// The first file that is wanted in or below the folders from `i` on.
pub open spec fn first_inside(
    disk: spec_fn(Seq<char>) -> Option<Seq<Entry>>,
    entries: Seq<Entry>,
    i: int,
    depth: u8,
    wanted: Wanted,
) -> Option<Seq<char>>
    decreases depth, entries.len() - i,
{
    if i >= entries.len() {
        None
    } else if entries[i].2 && first_below(disk, entries[i].0, depth, wanted) is Some {
        first_below(disk, entries[i].0, depth, wanted)
    } else {
        first_inside(disk, entries, i + 1, depth, wanted)
    }
}

/// The first file that is wanted in or below the folders that wait.
pub open spec fn first_waiting(
    disk: spec_fn(Seq<char>) -> Option<Seq<Entry>>,
    todo: Seq<(Seq<char>, u8)>,
    wanted: Wanted,
) -> Option<Seq<char>>
    decreases todo.len(),
{
    if todo.len() == 0 {
        None
    } else if first_below(disk, todo[0].0, todo[0].1, wanted) is Some {
        first_below(disk, todo[0].0, todo[0].1, wanted)
    } else {
        first_waiting(disk, todo.skip(1), wanted)
    }
}

/// What a hunt will have found when it is over.
pub open spec fn outcome(
    disk: spec_fn(Seq<char>) -> Option<Seq<Entry>>,
    h: HuntState,
    wanted: Wanted,
) -> Option<Seq<char>> {
    if h.found is Some {
        h.found
    } else {
        first_waiting(disk, h.todo, wanted)
    }
}

proof fn lemma_waiting_folders(
    disk: spec_fn(Seq<char>) -> Option<Seq<Entry>>,
    entries: Seq<Entry>,
    i: int,
    depth: u8,
    rest: Seq<(Seq<char>, u8)>,
    wanted: Wanted,
)
    requires
        0 <= i <= entries.len(),
    ensures
        first_waiting(disk, folders(entries, depth, i) + rest, wanted) == (if first_inside(
            disk,
            entries,
            i,
            depth,
            wanted,
        ) is Some {
            first_inside(disk, entries, i, depth, wanted)
        } else {
            first_waiting(disk, rest, wanted)
        }),
    decreases entries.len() - i,
{
    let all = folders(entries, depth, i) + rest;
    if i == entries.len() {
        assert(all =~= rest);
    } else {
        lemma_waiting_folders(disk, entries, i + 1, depth, rest, wanted);
        if entries[i].2 {
            assert(all.skip(1) =~= folders(entries, depth, i + 1) + rest);
            assert(all[0] == (entries[i].0, depth));
        }
    }
}

/// Each step leaves what the hunt comes to as it was, so that listing one folder after another
/// leads to the file that the whole tree has to offer.
pub proof fn law_a_step_keeps_the_outcome(
    disk: spec_fn(Seq<char>) -> Option<Seq<Entry>>,
    h: HuntState,
    wanted: Wanted,
)
    requires
        h.todo.len() > 0,
        h.found is None,
    ensures
        outcome(disk, hunted_on(h, disk(h.todo[0].0), wanted), wanted) == outcome(disk, h, wanted),
{
    let (dir, depth) = h.todo[0];
    if let Some(entries) = disk(dir) {
        if depth > 0 {
            lemma_waiting_folders(disk, entries, 0, (depth - 1) as u8, h.todo.skip(1), wanted);
        }
    }
}

/// What a hunt comes to is a file of a name that is wanted, out of some folder's listing.
pub proof fn law_a_find_is_wanted(
    disk: spec_fn(Seq<char>) -> Option<Seq<Entry>>,
    dir: Seq<char>,
    depth: u8,
    wanted: Wanted,
) -> (found: (Seq<char>, int))
    requires
        first_below(disk, dir, depth, wanted) is Some,
    ensures
        disk(found.0) matches Some(entries) && {
            &&& 0 <= found.1 < entries.len()
            &&& !entries[found.1].2
            &&& wanted.takes(entries[found.1].1)
            &&& first_below(disk, dir, depth, wanted) == Some(entries[found.1].0)
        },
    decreases depth, 0int,
{
    let entries = disk(dir)->0;
    if match_at(entries, wanted, 0) < entries.len() {
        lemma_match(entries, wanted, 0);
        (dir, match_at(entries, wanted, 0))
    } else {
        lemma_find_inside(disk, entries, 0, (depth - 1) as u8, wanted)
    }
}

proof fn lemma_find_inside(
    disk: spec_fn(Seq<char>) -> Option<Seq<Entry>>,
    entries: Seq<Entry>,
    i: int,
    depth: u8,
    wanted: Wanted,
) -> (found: (Seq<char>, int))
    requires
        first_inside(disk, entries, i, depth, wanted) is Some,
    ensures
        disk(found.0) matches Some(there) && {
            &&& 0 <= found.1 < there.len()
            &&& !there[found.1].2
            &&& wanted.takes(there[found.1].1)
            &&& first_inside(disk, entries, i, depth, wanted) == Some(there[found.1].0)
        },
    decreases depth, entries.len() - i,
{
    if entries[i].2 && first_below(disk, entries[i].0, depth, wanted) is Some {
        law_a_find_is_wanted(disk, entries[i].0, depth, wanted)
    } else {
        lemma_find_inside(disk, entries, i + 1, depth, wanted)
    }
}

proof fn lemma_match(entries: Seq<Entry>, wanted: Wanted, i: int)
    requires
        0 <= i,
        match_at(entries, wanted, i) < entries.len(),
    ensures
        i <= match_at(entries, wanted, i),
        !entries[match_at(entries, wanted, i)].2,
        wanted.takes(entries[match_at(entries, wanted, i)].1),
    decreases entries.len() - i,
{
    if !(!entries[i].2 && wanted.takes(entries[i].1)) {
        lemma_match(entries, wanted, i + 1);
    }
}

} // verus!
