//! What the planner guarantees of every run, stated as proved laws:
//! where each kind of file is sent, how collisions resolve, and what the
//! two counters count.

use vstd::prelude::*;
use crate::categories::Category;
use crate::categories::category_name;
use crate::categories::category_of;
use crate::categories::extensions_of;
use crate::categories::cat_index;
use crate::naming::base_stem;
use crate::naming::base_ext;
use crate::naming::suffixed;
use crate::naming::first_free;
use crate::naming::unique_dest;
use crate::naming::lemma_suffixed_differs;
use crate::naming::lemma_candidates_bound;
use crate::naming::lemma_remove_value_keeps_others;
use crate::planner::ActionV;
use crate::planner::DirStateV;
use crate::planner::EntryV;
use crate::planner::entry_category;
use crate::planner::init_state;
use crate::planner::remove_source;
use crate::planner::run;
use crate::planner::run_from;
use crate::planner::step;
use crate::planner::lemma_run_from_bounds;
use crate::text::extension_of;
use crate::text::has_extension;
use crate::text::lower;

verus! {

/// The directory state just before entry `i` of a run is processed.
pub open spec fn state_at(entries: Seq<EntryV>, i: int) -> Seq<DirStateV> {
    run_from(init_state(entries), entries.take(i)).state
}

/// The action a run plans for entry `i` is the step taken from the state
/// reached after the entries before it.
pub proof fn lemma_run_action_at(state: Seq<DirStateV>, entries: Seq<EntryV>, i: int)
    requires
        0 <= i < entries.len(),
    ensures
        run_from(state, entries).actions[i] == step(
            run_from(state, entries.take(i)).state,
            entries[i],
        ).1,
    decreases entries.len(),
{
    lemma_run_from_bounds(state, entries.drop_last());
    if i == entries.len() - 1 {
        assert(entries.take(i) =~= entries.drop_last());
    } else {
        lemma_run_action_at(state, entries.drop_last(), i);
        assert(entries.drop_last().take(i) =~= entries.take(i));
        assert(run_from(state, entries).actions[i] == run_from(
            state,
            entries.drop_last(),
        ).actions[i]);
    }
}

/// A short fingerprint that tells all the table's extensions apart.
spec fn ext_mark(s: Seq<char>) -> (int, char, char) {
    (s.len() as int, s[0], s[s.len() - 1])
}

/// No extension occurs in two rows of the category table.
pub proof fn lemma_table_disjoint(ext: Seq<char>, c1: Category, c2: Category)
    requires
        extensions_of(c1).contains(ext),
        extensions_of(c2).contains(ext),
    ensures
        c1 == c2,
{
    reveal_strlit("jpg");
    reveal_strlit("jpeg");
    reveal_strlit("png");
    reveal_strlit("gif");
    reveal_strlit("bmp");
    reveal_strlit("pdf");
    reveal_strlit("doc");
    reveal_strlit("docx");
    reveal_strlit("txt");
    reveal_strlit("mp3");
    reveal_strlit("wav");
    reveal_strlit("flac");
    reveal_strlit("mp4");
    reveal_strlit("mkv");
    reveal_strlit("avi");
    reveal_strlit("rs");
    reveal_strlit("py");
    reveal_strlit("js");
    reveal_strlit("html");
    reveal_strlit("css");
    reveal_strlit("zip");
    reveal_strlit("rar");
    reveal_strlit("7z");
    assert(ext_mark("jpg"@) == (3int, 'j', 'g'));
    assert(ext_mark("jpeg"@) == (4int, 'j', 'g'));
    assert(ext_mark("png"@) == (3int, 'p', 'g'));
    assert(ext_mark("gif"@) == (3int, 'g', 'f'));
    assert(ext_mark("bmp"@) == (3int, 'b', 'p'));
    assert(ext_mark("pdf"@) == (3int, 'p', 'f'));
    assert(ext_mark("doc"@) == (3int, 'd', 'c'));
    assert(ext_mark("docx"@) == (4int, 'd', 'x'));
    assert(ext_mark("txt"@) == (3int, 't', 't'));
    assert(ext_mark("mp3"@) == (3int, 'm', '3'));
    assert(ext_mark("wav"@) == (3int, 'w', 'v'));
    assert(ext_mark("flac"@) == (4int, 'f', 'c'));
    assert(ext_mark("mp4"@) == (3int, 'm', '4'));
    assert(ext_mark("mkv"@) == (3int, 'm', 'v'));
    assert(ext_mark("avi"@) == (3int, 'a', 'i'));
    assert(ext_mark("rs"@) == (2int, 'r', 's'));
    assert(ext_mark("py"@) == (2int, 'p', 'y'));
    assert(ext_mark("js"@) == (2int, 'j', 's'));
    assert(ext_mark("html"@) == (4int, 'h', 'l'));
    assert(ext_mark("css"@) == (3int, 'c', 's'));
    assert(ext_mark("zip"@) == (3int, 'z', 'p'));
    assert(ext_mark("rar"@) == (3int, 'r', 'r'));
    assert(ext_mark("7z"@) == (2int, '7', 'z'));
}

/// An extension listed in a table row is classified into exactly that
/// row's category.
pub proof fn lemma_category_of_recognized(ext: Seq<char>, c: Category)
    requires
        extensions_of(c).contains(ext),
    ensures
        category_of(ext) == c,
{
    if extensions_of(Category::Images).contains(ext) {
        lemma_table_disjoint(ext, Category::Images, c);
    } else if extensions_of(Category::Documents).contains(ext) {
        lemma_table_disjoint(ext, Category::Documents, c);
    } else if extensions_of(Category::Audio).contains(ext) {
        lemma_table_disjoint(ext, Category::Audio, c);
    } else if extensions_of(Category::Video).contains(ext) {
        lemma_table_disjoint(ext, Category::Video, c);
    } else if extensions_of(Category::Code).contains(ext) {
        lemma_table_disjoint(ext, Category::Code, c);
    } else if extensions_of(Category::Archives).contains(ext) {
        lemma_table_disjoint(ext, Category::Archives, c);
    } else {
        assert(extensions_of(Category::Others).len() == 0);
        assert(false);
    }
}

/// A file whose case-folded extension a table row lists is planned to
/// move into exactly that row's category; its destination name is the
/// collision-free choice there, and where its own name is still free it
/// keeps it unchanged.
pub proof fn lemma_recognized_extension_moves(entries: Seq<EntryV>, i: int, c: Category)
    requires
        0 <= i < entries.len(),
        entries[i].is_file,
        entries[i].rel.len() >= 1,
        has_extension(entries[i].rel.last()),
        extensions_of(c).contains(lower(extension_of(entries[i].rel.last()))),
    ensures
        ({
            let a = run(entries).actions[i];
            let name = entries[i].rel.last();
            let occupied = state_at(entries, i)[cat_index(c)].names;
            &&& a is Move
            &&& a->category == c
            &&& a->dest_name == unique_dest(name, occupied)
            &&& !occupied.contains(name) ==> a->dest_name == name
        }),
{
    lemma_run_action_at(init_state(entries), entries, i);
    lemma_category_of_recognized(lower(extension_of(entries[i].rel.last())), c);
}

/// A file whose case-folded extension no table row lists is planned to
/// move into the fallback category `Others`, with the same collision-free
/// choice of destination name.
pub proof fn lemma_unrecognized_extension_moves_to_others(entries: Seq<EntryV>, i: int)
    requires
        0 <= i < entries.len(),
        entries[i].is_file,
        entries[i].rel.len() >= 1,
        has_extension(entries[i].rel.last()),
        forall|c: Category|
            !(#[trigger] extensions_of(c)).contains(lower(extension_of(entries[i].rel.last()))),
    ensures
        ({
            let a = run(entries).actions[i];
            let name = entries[i].rel.last();
            let occupied = state_at(entries, i)[cat_index(Category::Others)].names;
            &&& a is Move
            &&& a->category == Category::Others
            &&& a->dest_name == unique_dest(name, occupied)
            &&& !occupied.contains(name) ==> a->dest_name == name
        }),
{
    lemma_run_action_at(init_state(entries), entries, i);
    let l = lower(extension_of(entries[i].rel.last()));
    assert(!extensions_of(Category::Images).contains(l));
    assert(!extensions_of(Category::Documents).contains(l));
    assert(!extensions_of(Category::Audio).contains(l));
    assert(!extensions_of(Category::Video).contains(l));
    assert(!extensions_of(Category::Code).contains(l));
    assert(!extensions_of(Category::Archives).contains(l));
    assert(category_of(l) == Category::Others);
}

/// An entry that is not a file with an extension — a directory, the root
/// itself, or an extensionless file — is skipped, and so never moved.
pub proof fn lemma_skipped_stays(entries: Seq<EntryV>, i: int)
    requires
        0 <= i < entries.len(),
        !(entries[i].is_file && entries[i].rel.len() >= 1 && has_extension(entries[i].rel.last())),
    ensures
        run(entries).actions[i] is Skip,
{
    lemma_run_action_at(init_state(entries), entries, i);
}

/// The search behind the collision law: from counter `k` on, with every
/// earlier candidate occupied, the chosen name is the first free
/// candidate, and everything below it was indeed occupied.
proof fn lemma_first_free_props(name: Seq<char>, names: Seq<Seq<char>>, k: nat)
    requires
        names.contains(name),
        1 <= k <= names.len() + 1,
        forall|j: nat|
            1 <= j < k ==> names.contains(
                #[trigger] suffixed(base_stem(name), base_ext(name), j),
            ),
    ensures
        ({
            let stem = base_stem(name);
            let ext = base_ext(name);
            let d = first_free(stem, ext, names, k);
            exists|m: nat|
                {
                    &&& k <= m
                    &&& d == #[trigger] suffixed(stem, ext, m)
                    &&& !names.contains(suffixed(stem, ext, m))
                    &&& forall|j: nat| 1 <= j < m ==> names.contains(#[trigger] suffixed(stem, ext, j))
                }
        }),
    decreases names.len() + 1 - k,
{
    let stem = base_stem(name);
    let ext = base_ext(name);
    if !names.contains(suffixed(stem, ext, k)) {
        let m = k;
        assert(first_free(stem, ext, names, k) == suffixed(stem, ext, m));
        assert(k <= m && !names.contains(suffixed(stem, ext, m)) && forall|j: nat|
            1 <= j < m ==> names.contains(#[trigger] suffixed(stem, ext, j)));
    } else {
        assert forall|j: nat| 1 <= j <= k implies name != #[trigger] suffixed(stem, ext, j) by {
            lemma_suffixed_differs(name, j);
        }
        lemma_candidates_bound(names, stem, ext, name, k);
        assert(k + 1 <= names.len());
        assert(first_free(stem, ext, names, k) == first_free(stem, ext, names, k + 1));
        lemma_first_free_props(name, names, k + 1);
    }
}

/// The collision law: when the file's own name is occupied in its
/// destination directory, it lands on a suffixed candidate
/// `stem_k.ext` whose counter is the least free one — every candidate
/// below it was occupied, the chosen one was not.
pub proof fn lemma_collision_suffix(name: Seq<char>, names: Seq<Seq<char>>)
    requires
        names.contains(name),
    ensures
        exists|k: nat|
            {
                &&& 1 <= k
                &&& unique_dest(name, names) == #[trigger] suffixed(
                    base_stem(name),
                    base_ext(name),
                    k,
                )
                &&& !names.contains(suffixed(base_stem(name), base_ext(name), k))
                &&& forall|j: nat|
                    1 <= j < k ==> names.contains(
                        #[trigger] suffixed(base_stem(name), base_ext(name), j),
                    )
            },
{
    assert(names.len() >= 1);
    lemma_first_free_props(name, names, 1);
}

/// A move never disturbs the other names of a category directory: every
/// occupied name, other than the moved file's own source name, is still
/// occupied after the step.
pub proof fn lemma_step_keeps_other_names(
    state: Seq<DirStateV>,
    e: EntryV,
    c: Category,
    n: Seq<char>,
)
    requires
        state.len() == 7,
        state[cat_index(c)].names.contains(n),
        (e.rel.len() == 2 && e.rel[0] == category_name(c)) ==> n != e.rel[1],
    ensures
        step(state, e).0[cat_index(c)].names.contains(n),
{
    match entry_category(e) {
        None => {},
        Some(c2) => {
            let ci = cat_index(c);
            let removed = remove_source(state, e.rel);
            if e.rel.len() == 2 && e.rel[0] == category_name(c) {
                lemma_remove_value_keeps_others(state[ci].names, e.rel[1], n);
            }
            assert(removed[ci].names.contains(n));
            let placed = step(state, e).0;
            if ci == cat_index(c2) {
                let witness = choose|w: int|
                    0 <= w < removed[ci].names.len() && removed[ci].names[w] == n;
                assert(placed[ci].names[witness] == n);
            } else {
                assert(placed[ci] == removed[ci]);
            }
        },
    }
}

/// How many of a run's actions are moves.
pub open spec fn count_moves(actions: Seq<ActionV>) -> nat
    decreases actions.len(),
{
    if actions.len() == 0 {
        0
    } else {
        count_moves(actions.drop_last()) + (if actions.last() is Move {
            1nat
        } else {
            0nat
        })
    }
}

/// How many of a run's actions create a directory.
pub open spec fn count_creates(actions: Seq<ActionV>) -> nat
    decreases actions.len(),
{
    if actions.len() == 0 {
        0
    } else {
        count_creates(actions.drop_last()) + (if actions.last() is Move
            && actions.last()->creates_dir {
            1nat
        } else {
            0nat
        })
    }
}

/// The counter law, first half: the files-moved counter counts exactly
/// the planned moves, and the directories-created counter exactly the
/// planned creations.
pub proof fn lemma_counters_count_actions(state: Seq<DirStateV>, entries: Seq<EntryV>)
    ensures
        run_from(state, entries).moved == count_moves(run_from(state, entries).actions),
        run_from(state, entries).created == count_creates(run_from(state, entries).actions),
    decreases entries.len(),
{
    if entries.len() > 0 {
        lemma_counters_count_actions(state, entries.drop_last());
        let prev = run_from(state, entries.drop_last());
        let sa = step(prev.state, entries.last());
        assert(prev.actions.push(sa.1).drop_last() =~= prev.actions);
    }
}

/// Whether some action of a run moves a file into the given category.
pub open spec fn moves_to(actions: Seq<ActionV>, c: Category) -> bool {
    exists|i: int|
        0 <= i < actions.len() && (#[trigger] actions[i]) is Move && actions[i]->category == c
}

proof fn lemma_moves_to_push(actions: Seq<ActionV>, a: ActionV, c: Category)
    ensures
        moves_to(actions.push(a), c) == (moves_to(actions, c) || (a is Move && a->category == c)),
{
    if moves_to(actions, c) {
        let i = choose|i: int|
            0 <= i < actions.len() && (#[trigger] actions[i]) is Move && actions[i]->category == c;
        assert(actions.push(a)[i] == actions[i]);
        assert(moves_to(actions.push(a), c));
    }
    if a is Move && a->category == c {
        assert(actions.push(a)[actions.len() as int] == a);
        assert(moves_to(actions.push(a), c));
    }
    if moves_to(actions.push(a), c) && !(a is Move && a->category == c) {
        let i = choose|i: int|
            0 <= i < actions.push(a).len() && (#[trigger] actions.push(a)[i]) is Move
                && actions.push(a)[i]->category == c;
        assert(i < actions.len());
        assert(actions[i] == actions.push(a)[i]);
        assert(moves_to(actions, c));
    }
}

/// The counter law, second half: a run plans a directory creation for a
/// category exactly at the first move into it, and only when the
/// category's directory was not present at the start — never for one
/// that already existed.  And a category's directory is present after
/// the run exactly when it was present before or some move went there.
pub proof fn lemma_creation_characterized(state: Seq<DirStateV>, entries: Seq<EntryV>)
    requires
        state.len() == 7,
    ensures
        run_from(state, entries).state.len() == 7,
        forall|c: Category|
            #![trigger cat_index(c)]
            run_from(state, entries).state[cat_index(c)].present == (state[cat_index(c)].present
                || moves_to(run_from(state, entries).actions, c)),
        forall|i: int|
            #![trigger run_from(state, entries).actions[i]]
            0 <= i < entries.len() && run_from(state, entries).actions[i] is Move
                ==> run_from(state, entries).actions[i]->creates_dir == (!state[cat_index(
                run_from(state, entries).actions[i]->category,
            )].present && !moves_to(
                run_from(state, entries).actions.take(i),
                run_from(state, entries).actions[i]->category,
            )),
    decreases entries.len(),
{
    if entries.len() > 0 {
        lemma_creation_characterized(state, entries.drop_last());
        lemma_run_from_bounds(state, entries.drop_last());
        let prev = run_from(state, entries.drop_last());
        let e = entries.last();
        let sa = step(prev.state, e);
        let cur = run_from(state, entries);
        assert(cur.actions == prev.actions.push(sa.1));
        assert(cur.state == sa.0);
        match entry_category(e) {
            None => {
                assert forall|c: Category| #![trigger cat_index(c)] cur.state[cat_index(c)].present
                    == (state[cat_index(c)].present || moves_to(cur.actions, c)) by {
                    lemma_moves_to_push(prev.actions, sa.1, c);
                }
            },
            Some(c2) => {
                let ci2 = cat_index(c2);
                let removed = remove_source(prev.state, e.rel);
                assert(removed.len() == 7);
                assert(forall|m: int|
                    0 <= m < 7 ==> (#[trigger] removed[m]).present == prev.state[m].present);
                assert(cur.state.len() == 7);
                assert forall|c: Category| #![trigger cat_index(c)] cur.state[cat_index(c)].present
                    == (state[cat_index(c)].present || moves_to(cur.actions, c)) by {
                    lemma_moves_to_push(prev.actions, sa.1, c);
                    if cat_index(c) == ci2 {
                        assert(c == c2);
                        assert(cur.state[cat_index(c)].present);
                        assert(sa.1 is Move && sa.1->category == c);
                        assert(moves_to(cur.actions, c));
                    } else {
                        assert(cur.state[cat_index(c)] == removed[cat_index(c)]);
                        assert(c != c2);
                    }
                }
            },
        }
        assert forall|i: int|
            #![trigger cur.actions[i]]
            0 <= i < entries.len() && cur.actions[i] is Move implies cur.actions[i]->creates_dir
            == (!state[cat_index(cur.actions[i]->category)].present && !moves_to(
            cur.actions.take(i),
            cur.actions[i]->category,
        )) by {
            if i < entries.len() - 1 {
                assert(cur.actions[i] == prev.actions[i]);
                assert(cur.actions.take(i) =~= prev.actions.take(i));
            } else {
                assert(cur.actions[i] == sa.1);
                if sa.1 is Move {
                    let c2 = entry_category(e)->Some_0;
                    assert(sa.1->category == c2);
                    assert(sa.1->creates_dir == !prev.state[cat_index(c2)].present);
                    assert(prev.state[cat_index(c2)].present == (state[cat_index(c2)].present
                        || moves_to(prev.actions, c2)));
                    assert(cur.actions.take(i) =~= prev.actions);
                }
            }
        }
    }
}

/// The counter law, completing half two: a creation is planned for a
/// category at most once per run, and never for a category whose
/// directory was already present at the start — so the created counter
/// is exactly the number of distinct category directories newly made.
pub proof fn lemma_each_category_created_once(state: Seq<DirStateV>, entries: Seq<EntryV>)
    requires
        state.len() == 7,
    ensures
        forall|i: int, j: int|
            #![trigger run_from(state, entries).actions[i], run_from(state, entries).actions[j]]
            (0 <= i < j < entries.len() && run_from(state, entries).actions[i] is Move
                && run_from(state, entries).actions[i]->creates_dir && run_from(
                state,
                entries,
            ).actions[j] is Move && run_from(state, entries).actions[j]->creates_dir) ==> run_from(
                state,
                entries,
            ).actions[i]->category != run_from(state, entries).actions[j]->category,
        forall|i: int|
            #![trigger run_from(state, entries).actions[i]]
            (0 <= i < entries.len() && run_from(state, entries).actions[i] is Move && run_from(
                state,
                entries,
            ).actions[i]->creates_dir) ==> !state[cat_index(
                run_from(state, entries).actions[i]->category,
            )].present,
{
    lemma_creation_characterized(state, entries);
    lemma_run_from_bounds(state, entries);
    let acts = run_from(state, entries).actions;
    assert forall|i: int, j: int|
        (0 <= i < j < entries.len() && acts[i] is Move && acts[i]->creates_dir && acts[j] is Move
            && acts[j]->creates_dir) implies acts[i]->category != acts[j]->category by {
        if acts[i]->category == acts[j]->category {
            let c = acts[j]->category;
            assert(!moves_to(acts.take(j), c));
            assert(acts.take(j)[i] == acts[i]);
            assert(moves_to(acts.take(j), c));
        }
    }
}

} // verus!
