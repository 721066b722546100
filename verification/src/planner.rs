//! The run planner.  Given a listing of the directory tree — every entry's
//! path relative to the root, and whether it is a regular file — it decides,
//! entry by entry, where each file goes: the category subdirectory from the
//! file's extension, a collision-free destination name, whether the category
//! directory must first be created, and the two aggregate counters.
//!
//! The planner mirrors a run over the live tree: category directories fill
//! up as earlier files land in them, and a file moved out of a category
//! directory frees its old name for later files.

use vstd::prelude::*;
use crate::categories::Category;
use crate::categories::category_name;
use crate::categories::category_name_chars;
use crate::categories::category_at;
use crate::categories::category_index;
use crate::categories::cat_at;
use crate::categories::cat_index;
use crate::categories::classify;
use crate::categories::classify_spec;
use crate::naming::unique_dest;
use crate::naming::generate_unique_name;
use crate::text::has_extension;
use crate::text::extension_of;
use crate::text::chars_eq;
use crate::text::clone_chars;
use crate::text::split_extension;
use crate::text::lemma_vec_chars_deep_view;
use crate::text::lemma_chars_deep_view;

verus! {

/// One entry of the listing: the path relative to the root being
/// organized, component by component, and whether it is a regular file.
/// The root itself has an empty path; a file `sub/a.txt` has two
/// components.
pub struct Entry {
    pub rel_path: Vec<Vec<char>>,
    pub is_file: bool,
}

/// The mathematical shape of an entry.
pub struct EntryV {
    pub rel: Seq<Seq<char>>,
    pub is_file: bool,
}

impl View for Entry {
    type V = EntryV;

    open spec fn view(&self) -> EntryV {
        EntryV { rel: self.rel_path.deep_view(), is_file: self.is_file }
    }
}

impl DeepView for Entry {
    type V = EntryV;

    open spec fn deep_view(&self) -> EntryV {
        self.view()
    }
}

/// The planned treatment of one entry.
pub enum Action {
    /// The entry is left where it is: a directory, the root itself, or a
    /// file without an extension.
    Skip,
    /// The entry is moved into the category's subdirectory of the root,
    /// under `dest_name`; the subdirectory is created first when
    /// `creates_dir` holds.
    Move { category: Category, creates_dir: bool, dest_name: Vec<char> },
}

/// The mathematical shape of an action.
pub enum ActionV {
    Skip,
    Move { category: Category, creates_dir: bool, dest_name: Seq<char> },
}

impl View for Action {
    type V = ActionV;

    open spec fn view(&self) -> ActionV {
        match self {
            Action::Skip => ActionV::Skip,
            Action::Move { category, creates_dir, dest_name } => ActionV::Move {
                category: *category,
                creates_dir: *creates_dir,
                dest_name: dest_name@,
            },
        }
    }
}

impl DeepView for Action {
    type V = ActionV;

    open spec fn deep_view(&self) -> ActionV {
        self.view()
    }
}

/// What the planner tracks of one category directory: whether it exists
/// at this point of the run, and the names currently occupied in it.
pub struct DirTrack {
    pub present: bool,
    pub names: Vec<Vec<char>>,
}

/// The mathematical shape of a tracked directory.
#[verifier::ext_equal]
pub struct DirStateV {
    pub present: bool,
    pub names: Seq<Seq<char>>,
}

impl View for DirTrack {
    type V = DirStateV;

    open spec fn view(&self) -> DirStateV {
        DirStateV { present: self.present, names: self.names.deep_view() }
    }
}

/// The views of a sequence of tracked directories.
pub open spec fn dirs_view(dirs: Seq<DirTrack>) -> Seq<DirStateV> {
    dirs.map_values(|t: DirTrack| t@)
}

/// The names that the listing shows inside the category directory
/// `root/<c>`: the second component of every two-component entry whose
/// first component is the category's name.  Directories count as well as
/// files: any object there occupies its name.
pub open spec fn names_in(entries: Seq<EntryV>, c: Category) -> Seq<Seq<char>>
    decreases entries.len(),
{
    if entries.len() == 0 {
        Seq::empty()
    } else {
        let prefix = names_in(entries.drop_last(), c);
        let e = entries.last();
        if e.rel.len() == 2 && e.rel[0] == category_name(c) {
            prefix.push(e.rel[1])
        } else {
            prefix
        }
    }
}

/// Whether the listing shows an object named like the category directly
/// under the root, so that `root/<c>` already exists.
pub open spec fn dir_present_in(entries: Seq<EntryV>, c: Category) -> bool
    decreases entries.len(),
{
    if entries.len() == 0 {
        false
    } else {
        let e = entries.last();
        dir_present_in(entries.drop_last(), c) || (e.rel.len() == 1 && e.rel[0]
            == category_name(c))
    }
}

/// The state of all category directories as the listing shows them,
/// before anything is moved.
pub open spec fn init_state(entries: Seq<EntryV>) -> Seq<DirStateV> {
    Seq::new(
        7,
        |i: int|
            DirStateV {
                present: dir_present_in(entries, cat_at(i)),
                names: names_in(entries, cat_at(i)),
            },
    )
}

/// The category an entry's file is sorted into, or `None` for an entry
/// that is skipped: a directory, the root itself, or a file whose name
/// has no extension.
pub open spec fn entry_category(e: EntryV) -> Option<Category> {
    if e.is_file && e.rel.len() >= 1 && has_extension(e.rel.last()) {
        Some(classify_spec(extension_of(e.rel.last())))
    } else {
        None
    }
}

/// When a file is moved out of a category directory, its old name is
/// freed there: a two-component source path loses its second component
/// from the matching category's occupied names.
pub open spec fn remove_source(state: Seq<DirStateV>, rel: Seq<Seq<char>>) -> Seq<DirStateV> {
    if rel.len() == 2 {
        Seq::new(
            state.len(),
            |i: int|
                if rel[0] == category_name(cat_at(i)) {
                    DirStateV {
                        present: state[i].present,
                        names: state[i].names.remove_value(rel[1]),
                    }
                } else {
                    state[i]
                },
        )
    } else {
        state
    }
}

/// One step of the run: how one entry changes the tracked state, and the
/// action planned for it.  The destination name is chosen against the
/// occupied names as they stand *before* the move — the source itself
/// still occupies its old name at that moment.
pub open spec fn step(state: Seq<DirStateV>, e: EntryV) -> (Seq<DirStateV>, ActionV) {
    match entry_category(e) {
        None => (state, ActionV::Skip),
        Some(c) => {
            let ci = cat_index(c);
            let creates = !state[ci].present;
            let dest = unique_dest(e.rel.last(), state[ci].names);
            let removed = remove_source(state, e.rel);
            let placed = removed.update(
                ci,
                DirStateV { present: true, names: removed[ci].names.push(dest) },
            );
            (placed, ActionV::Move { category: c, creates_dir: creates, dest_name: dest })
        },
    }
}

/// What a run accumulates: the action for each entry in order, the final
/// directory state, and the two counters.
pub struct RunV {
    pub actions: Seq<ActionV>,
    pub state: Seq<DirStateV>,
    pub moved: nat,
    pub created: nat,
}

/// The run over a listing from a given starting state.
pub open spec fn run_from(state: Seq<DirStateV>, entries: Seq<EntryV>) -> RunV
    decreases entries.len(),
{
    if entries.len() == 0 {
        RunV { actions: Seq::empty(), state, moved: 0, created: 0 }
    } else {
        let prev = run_from(state, entries.drop_last());
        let sa = step(prev.state, entries.last());
        RunV {
            actions: prev.actions.push(sa.1),
            state: sa.0,
            moved: prev.moved + (if sa.1 is Move {
                1nat
            } else {
                0nat
            }),
            created: prev.created + (if sa.1 is Move && sa.1->creates_dir {
                1nat
            } else {
                0nat
            }),
        }
    }
}

/// The whole run that a confirmed invocation performs on a listing.
pub open spec fn run(entries: Seq<EntryV>) -> RunV {
    run_from(init_state(entries), entries)
}

/// A run plans one action per entry and never counts more moves or
/// creations than it has entries.
pub proof fn lemma_run_from_bounds(state: Seq<DirStateV>, entries: Seq<EntryV>)
    ensures
        run_from(state, entries).actions.len() == entries.len(),
        run_from(state, entries).moved <= entries.len(),
        run_from(state, entries).created <= entries.len(),
    decreases entries.len(),
{
    if entries.len() > 0 {
        lemma_run_from_bounds(state, entries.drop_last());
    }
}

/// The whole plan for a run: one action per listing entry, in the
/// listing's order, and the counters that the run reports at its end.
pub struct Plan {
    pub actions: Vec<Action>,
    pub files_moved: usize,
    pub dirs_created: usize,
}

/// The state of one category directory as the listing shows it.
fn dir_for(entries: &Vec<Entry>, c: Category) -> (t: DirTrack)
    ensures
        t@ == init_dir(entries.deep_view(), c),
{
    broadcast use lemma_vec_chars_deep_view, lemma_chars_deep_view, lemma_vec_entries_deep_view;

    let cname = category_name_chars(c);
    let mut present = false;
    let mut names: Vec<Vec<char>> = Vec::new();
    let mut i: usize = 0;
    while i < entries.len()
        invariant
            i <= entries.len(),
            cname@ == category_name(c),
            present == dir_present_in(entries.deep_view().take(i as int), c),
            names.deep_view() == names_in(entries.deep_view().take(i as int), c),
        decreases entries.len() - i,
    {
        let ghost pre = entries.deep_view().take(i as int);
        let ghost cur = entries.deep_view().take(i as int + 1);
        proof {
            assert(cur.drop_last() =~= pre);
            assert(entries.deep_view()[i as int] == entries@[i as int]@);
            assert(cur.last() == entries@[i as int]@);
        }
        let e = &entries[i];
        let ghost ev = e@;
        proof {
            assert(ev.rel == e.rel_path.deep_view());
            assert(ev.rel.len() == e.rel_path@.len());
            assert forall|j: int| 0 <= j < e.rel_path@.len() implies ev.rel[j]
                == e.rel_path@[j]@ by {
                assert(e.rel_path@[j].deep_view() =~= e.rel_path@[j]@);
            }
        }
        if e.rel_path.len() == 1 && chars_eq(&e.rel_path[0], &cname) {
            present = true;
        }
        proof {
            assert(present == dir_present_in(cur, c));
        }
        if e.rel_path.len() == 2 && chars_eq(&e.rel_path[0], &cname) {
            let ghost before = names.deep_view();
            names.push(clone_chars(&e.rel_path[1]));
            proof {
                assert(names.deep_view() =~= before.push(ev.rel[1]));
                assert(names.deep_view() == names_in(cur, c));
            }
        } else {
            proof {
                assert(!(ev.rel.len() == 2 && ev.rel[0] == category_name(c)));
                assert(names.deep_view() == names_in(cur, c));
            }
        }
        i = i + 1;
    }
    proof {
        assert(entries.deep_view().take(entries.deep_view().len() as int) =~= entries.deep_view());
    }
    DirTrack { present, names }
}

/// What `init_state` holds for one category.
pub open spec fn init_dir(entries: Seq<EntryV>, c: Category) -> DirStateV {
    DirStateV { present: dir_present_in(entries, c), names: names_in(entries, c) }
}

/// The deep view of an entry vector, element by element.
pub broadcast proof fn lemma_vec_entries_deep_view(v: Vec<Entry>)
    ensures
        #[trigger] v.deep_view() =~= v@.map_values(|e: Entry| e@),
{
}

/// The deep view of an action vector, element by element.
pub broadcast proof fn lemma_vec_actions_deep_view(v: Vec<Action>)
    ensures
        #[trigger] v.deep_view() =~= v@.map_values(|a: Action| a@),
{
}

/// The tracked state of all category directories before anything moves.
fn initial_dirs(entries: &Vec<Entry>) -> (dirs: Vec<DirTrack>)
    ensures
        dirs@.len() == 7,
        dirs_view(dirs@) == init_state(entries.deep_view()),
{
    let mut dirs: Vec<DirTrack> = Vec::new();
    let mut ci: usize = 0;
    while ci < 7
        invariant
            ci <= 7,
            dirs@.len() == ci,
            forall|j: int|
                0 <= j < ci ==> dirs_view(dirs@)[j] == init_dir(entries.deep_view(), cat_at(j)),
        decreases 7 - ci,
    {
        let t = dir_for(entries, category_at(ci));
        let ghost before = dirs@;
        dirs.push(t);
        proof {
            assert(dirs_view(dirs@)[ci as int] == t@);
            assert forall|j: int| 0 <= j < ci implies dirs_view(dirs@)[j] == init_dir(
                entries.deep_view(),
                cat_at(j),
            ) by {
                assert(dirs@[j] == before[j]);
                assert(dirs_view(dirs@)[j] == dirs_view(before)[j]);
            }
        }
        ci = ci + 1;
    }
    proof {
        assert(dirs_view(dirs@) =~= init_state(entries.deep_view()));
    }
    dirs
}

/// Frees a name in a directory's occupied set: removes the first
/// occurrence, and leaves the set as it is when the name is absent.
fn remove_name(names: &mut Vec<Vec<char>>, x: &Vec<char>)
    ensures
        final(names).deep_view() == old(names).deep_view().remove_value(x@),
{
    broadcast use lemma_vec_chars_deep_view, lemma_chars_deep_view;

    let ghost orig = old(names).deep_view();
    let mut i: usize = 0;
    while i < names.len()
        invariant
            i <= names@.len(),
            names@ == old(names)@,
            orig == old(names).deep_view(),
            forall|j: int| 0 <= j < i ==> names@[j]@ != x@,
        decreases names@.len() - i,
    {
        if chars_eq(x, &names[i]) {
            proof {
                assert(orig[i as int] == names@[i as int]@);
                assert(orig.contains(x@));
                orig.index_of_first_ensures(x@);
                let idx = orig.index_of_first(x@)->Some_0;
                assert forall|j: int| 0 <= j < i implies orig[j] != x@ by {
                    assert(orig[j] == names@[j]@);
                }
                assert(idx == i as int);
            }
            let ghost before = names@;
            names.remove(i);
            proof {
                orig.remove_ensures(i as int);
                assert(names.deep_view() =~= orig.remove(i as int)) by {
                    assert forall|j: int| 0 <= j < names@.len() implies names.deep_view()[j]
                        == orig.remove(i as int)[j] by {
                        assert(names.deep_view()[j] == names@[j]@);
                        if j < i as int {
                            assert(names@[j] == before[j]);
                            assert(orig.remove(i as int)[j] == orig[j]);
                        } else {
                            assert(names@[j] == before[j + 1]);
                            assert(orig.remove(i as int)[j] == orig[j + 1]);
                        }
                    }
                }
            }
            return ;
        }
        i = i + 1;
    }
    proof {
        assert forall|j: int| 0 <= j < orig.len() implies orig[j] != x@ by {
            assert(orig[j] == names@[j]@);
        }
        assert(!orig.contains(x@));
        orig.index_of_first_ensures(x@);
    }
}

/// Plans a confirmed run over a listing: decides for every entry whether
/// it moves, where it lands, which category directories come into being,
/// and reports the two counters — exactly the run that `run` describes.
pub fn plan_moves(entries: &Vec<Entry>) -> (p: Plan)
    ensures
        p.actions.deep_view() == run(entries.deep_view()).actions,
        p.actions@.len() == entries@.len(),
        p.files_moved as nat == run(entries.deep_view()).moved,
        p.dirs_created as nat == run(entries.deep_view()).created,
{
    broadcast use
        lemma_vec_chars_deep_view,
        lemma_chars_deep_view,
        lemma_vec_entries_deep_view,
        lemma_vec_actions_deep_view,
    ;

    let ghost full = entries.deep_view();
    let mut dirs = initial_dirs(entries);
    let mut actions: Vec<Action> = Vec::new();
    let mut files_moved: usize = 0;
    let mut dirs_created: usize = 0;
    proof {
        assert(full.take(0) =~= Seq::<EntryV>::empty());
        assert(actions.deep_view() =~= run_from(init_state(full), full.take(0)).actions);
    }
    let n = entries.len();
    let mut i: usize = 0;
    while i < n
        invariant
            i <= n,
            n == entries@.len(),
            full == entries.deep_view(),
            full.len() == entries@.len(),
            dirs@.len() == 7,
            actions@.len() == i,
            files_moved <= i,
            dirs_created <= i,
            ({
                let r = run_from(init_state(full), full.take(i as int));
                &&& actions.deep_view() == r.actions
                &&& dirs_view(dirs@) == r.state
                &&& files_moved as nat == r.moved
                &&& dirs_created as nat == r.created
            }),
        decreases n - i,
    {
        let ghost st_pre = dirs_view(dirs@);
        proof {
            assert(full.take(i as int + 1).drop_last() =~= full.take(i as int));
            assert(full[i as int] == entries@[i as int]@);
            assert(full.take(i as int + 1).last() == entries@[i as int]@);
        }
        let e = &entries[i];
        let ghost ev = e@;
        proof {
            assert(ev.rel.len() == e.rel_path@.len());
            assert forall|j: int| 0 <= j < e.rel_path@.len() implies ev.rel[j]
                == e.rel_path@[j]@ by {
                assert(e.rel_path@[j].deep_view() =~= e.rel_path@[j]@);
            }
        }
        let action: Action;
        if !e.is_file || e.rel_path.len() == 0 {
            proof {
                assert(entry_category(ev) is None);
            }
            action = Action::Skip;
        } else {
            let name = &e.rel_path[e.rel_path.len() - 1];
            proof {
                assert(name@ == ev.rel.last());
            }
            match split_extension(name) {
                None => {
                    proof {
                        assert(entry_category(ev) is None);
                    }
                    action = Action::Skip;
                },
                Some(p) => {
                    let ext = p.1;
                    let c = classify(&ext);
                    proof {
                        assert(ext@ == extension_of(ev.rel.last()));
                        assert(entry_category(ev) == Some(c));
                    }
                    let ci = category_index(c);
                    let creates = !dirs[ci].present;
                    let dest = generate_unique_name(name, &dirs[ci].names);
                    proof {
                        assert(dirs_view(dirs@)[ci as int] == dirs@[ci as int]@);
                        assert(dirs@[ci as int]@.names == st_pre[cat_index(c)].names);
                        assert(creates == !st_pre[cat_index(c)].present);
                        assert(dest@ == unique_dest(ev.rel.last(), st_pre[cat_index(c)].names));
                    }
                    if e.rel_path.len() == 2 {
                        let mut cj: usize = 0;
                        while cj < 7
                            invariant
                                cj <= 7,
                                dirs@.len() == 7,
                                st_pre.len() == 7,
                                ev.rel.len() == 2,
                                e.rel_path@.len() == 2,
                                ev.rel[0] == e.rel_path@[0]@,
                                ev.rel[1] == e.rel_path@[1]@,
                                forall|m: int|
                                    0 <= m < 7 ==> dirs_view(dirs@)[m] == (if m < cj && ev.rel[0]
                                        == category_name(cat_at(m)) {
                                        DirStateV {
                                            present: st_pre[m].present,
                                            names: st_pre[m].names.remove_value(ev.rel[1]),
                                        }
                                    } else {
                                        st_pre[m]
                                    }),
                            decreases 7 - cj,
                        {
                            let cat_j = category_at(cj);
                            if chars_eq(&e.rel_path[0], &category_name_chars(cat_j)) {
                                let ghost before = dirs@;
                                let mut t = dirs.remove(cj);
                                proof {
                                    assert(t@ == dirs_view(before)[cj as int]);
                                    assert(t@ == st_pre[cj as int]);
                                }
                                remove_name(&mut t.names, &e.rel_path[1]);
                                dirs.insert(cj, t);
                                proof {
                                    assert(dirs@ =~= before.update(cj as int, t));
                                    assert forall|m: int| 0 <= m < 7 implies dirs_view(dirs@)[m]
                                        == (if m < cj + 1 && ev.rel[0] == category_name(cat_at(m)) {
                                        DirStateV {
                                            present: st_pre[m].present,
                                            names: st_pre[m].names.remove_value(ev.rel[1]),
                                        }
                                    } else {
                                        st_pre[m]
                                    }) by {
                                        if m == cj as int {
                                            assert(dirs@[m] == t);
                                            assert(t@.names =~= st_pre[m].names.remove_value(
                                                ev.rel[1],
                                            ));
                                            assert(t@ =~= DirStateV {
                                                present: st_pre[m].present,
                                                names: st_pre[m].names.remove_value(ev.rel[1]),
                                            });
                                        } else {
                                            assert(dirs@[m] == before[m]);
                                            assert(dirs_view(dirs@)[m] == dirs_view(before)[m]);
                                        }
                                    }
                                }
                            } else {
                                proof {
                                    assert(ev.rel[0] != category_name(cat_at(cj as int)));
                                }
                            }
                            cj = cj + 1;
                        }
                        proof {
                            assert(dirs_view(dirs@) =~~= remove_source(st_pre, ev.rel));
                        }
                    } else {
                        proof {
                            assert(remove_source(st_pre, ev.rel) == st_pre);
                        }
                    }
                    let ghost removed = remove_source(st_pre, ev.rel);
                    let ghost before_place = dirs@;
                    let mut t = dirs.remove(ci);
                    proof {
                        assert(t@ == dirs_view(before_place)[ci as int]);
                        assert(t@ == removed[ci as int]);
                    }
                    let ghost tnames = t.names.deep_view();
                    let ghost tvecs = t.names@;
                    t.present = true;
                    t.names.push(clone_chars(&dest));
                    dirs.insert(ci, t);
                    proof {
                        assert(t.names.deep_view() =~= tnames.push(dest@)) by {
                            assert(t.names@.len() == tvecs.len() + 1);
                            assert forall|j: int| 0 <= j < t.names@.len() implies t.names.deep_view(
                            )[j] == tnames.push(dest@)[j] by {
                                assert(t.names.deep_view()[j] == t.names@[j]@);
                                if j < tvecs.len() {
                                    assert(t.names@[j] == tvecs[j]);
                                    assert(tnames[j] == tvecs[j]@);
                                } else {
                                    assert(t.names@[j]@ == dest@);
                                }
                            }
                        }
                        assert(dirs@ =~= before_place.update(ci as int, t));
                        assert(dirs_view(dirs@) =~~= removed.update(
                            ci as int,
                            DirStateV {
                                present: true,
                                names: removed[ci as int].names.push(dest@),
                            },
                        )) by {
                            assert forall|m: int| 0 <= m < 7 implies dirs_view(dirs@)[m]
                                =~~= removed.update(
                                ci as int,
                                DirStateV {
                                    present: true,
                                    names: removed[ci as int].names.push(dest@),
                                },
                            )[m] by {
                                if m != ci as int {
                                    assert(dirs@[m] == before_place[m]);
                                    assert(dirs_view(dirs@)[m] == dirs_view(before_place)[m]);
                                }
                            }
                        }
                    }
                    files_moved = files_moved + 1;
                    if creates {
                        dirs_created = dirs_created + 1;
                    }
                    action = Action::Move { category: c, creates_dir: creates, dest_name: dest };
                },
            }
        }
        let ghost acts_before = actions@;
        actions.push(action);
        proof {
            let prev = run_from(init_state(full), full.take(i as int));
            let cur = run_from(init_state(full), full.take(i as int + 1));
            let sa = step(st_pre, ev);
            assert(cur.actions == prev.actions.push(sa.1));
            assert(cur.state == sa.0);
            assert(action@ == sa.1);
            assert(actions.deep_view() =~= prev.actions.push(sa.1)) by {
                assert forall|j: int| 0 <= j < actions@.len() implies actions.deep_view()[j]
                    == prev.actions.push(sa.1)[j] by {
                    assert(actions.deep_view()[j] == actions@[j]@);
                    if j < acts_before.len() {
                        assert(actions@[j] == acts_before[j]);
                    }
                }
            }
            assert(dirs_view(dirs@) =~~= sa.0);
        }
        i = i + 1;
    }
    proof {
        assert(full.take(n as int) =~= full);
    }
    Plan { actions, files_moved, dirs_created }
}

} // verus!
