use file_organizer::categories::Category;
use file_organizer::organize;
use file_organizer::planner::plan_moves;
use file_organizer::planner::Action;
use file_organizer::planner::Entry;

fn chars(s: &str) -> Vec<char> {
    s.chars().collect()
}

fn entry(path: &[&str], is_file: bool) -> Entry {
    Entry { rel_path: path.iter().map(|c| chars(c)).collect(), is_file }
}

fn expect_move(a: &Action, category: Category, creates_dir: bool, dest: &str) {
    match a {
        Action::Move { category: c, creates_dir: cr, dest_name } => {
            assert_eq!(*c, category);
            assert_eq!(*cr, creates_dir);
            let d: String = dest_name.iter().collect();
            assert_eq!(d, dest);
        },
        Action::Skip => panic!("expected a move, found a skip"),
    }
}

#[test]
fn fresh_root_is_organized() {
    // The scenario: the root holds `a.jpg`, `b.txt`, `c.xyz` and `d`.
    let entries = vec![
        entry(&[], false),
        entry(&["a.jpg"], true),
        entry(&["b.txt"], true),
        entry(&["c.xyz"], true),
        entry(&["d"], true),
    ];
    let plan = plan_moves(&entries);
    assert_eq!(plan.actions.len(), 5);
    assert!(matches!(plan.actions[0], Action::Skip));
    expect_move(&plan.actions[1], Category::Images, true, "a.jpg");
    expect_move(&plan.actions[2], Category::Documents, true, "b.txt");
    expect_move(&plan.actions[3], Category::Others, true, "c.xyz");
    assert!(matches!(plan.actions[4], Action::Skip));
    assert_eq!(plan.files_moved, 3);
    assert_eq!(plan.dirs_created, 3);
}

#[test]
fn extension_case_is_folded_for_the_category() {
    let entries = vec![entry(&[], false), entry(&["PHOTO.JPG"], true)];
    let plan = plan_moves(&entries);
    // The original file name is kept as it is; only the lookup folds case.
    expect_move(&plan.actions[1], Category::Images, true, "PHOTO.JPG");
}

#[test]
fn a_category_directory_is_created_only_once() {
    let entries = vec![
        entry(&[], false),
        entry(&["a.jpg"], true),
        entry(&["b.png"], true),
        entry(&["c.txt"], true),
    ];
    let plan = plan_moves(&entries);
    expect_move(&plan.actions[1], Category::Images, true, "a.jpg");
    expect_move(&plan.actions[2], Category::Images, false, "b.png");
    expect_move(&plan.actions[3], Category::Documents, true, "c.txt");
    assert_eq!(plan.files_moved, 3);
    assert_eq!(plan.dirs_created, 2);
}

#[test]
fn an_existing_category_directory_is_not_counted() {
    let entries = vec![
        entry(&[], false),
        entry(&["images"], false),
        entry(&["a.jpg"], true),
    ];
    let plan = plan_moves(&entries);
    expect_move(&plan.actions[2], Category::Images, false, "a.jpg");
    assert_eq!(plan.dirs_created, 0);
    assert_eq!(plan.files_moved, 1);
}

#[test]
fn a_colliding_name_lands_beside_the_untouched_original() {
    // `root/images/photo.jpg` exists (here a directory entry, which still
    // occupies the name); the root file of the same name gets suffix 1.
    let entries = vec![
        entry(&[], false),
        entry(&["photo.jpg"], true),
        entry(&["images"], false),
        entry(&["images", "photo.jpg"], false),
    ];
    let plan = plan_moves(&entries);
    expect_move(&plan.actions[1], Category::Images, false, "photo_1.jpg");
    assert!(matches!(plan.actions[3], Action::Skip));
    assert_eq!(plan.files_moved, 1);
    assert_eq!(plan.dirs_created, 0);
}

#[test]
fn colliding_files_stack_up_suffixes() {
    let entries = vec![
        entry(&[], false),
        entry(&["photo.jpg"], true),
        entry(&["images"], false),
        entry(&["images", "photo.jpg"], true),
    ];
    let plan = plan_moves(&entries);
    // The root file finds `photo.jpg` occupied and becomes `photo_1.jpg`.
    expect_move(&plan.actions[1], Category::Images, false, "photo_1.jpg");
    // The file already inside `images` is moved again: its own name and
    // the newcomer's are both taken, so it becomes `photo_2.jpg`.
    expect_move(&plan.actions[3], Category::Images, false, "photo_2.jpg");
    assert_eq!(plan.files_moved, 2);
    assert_eq!(plan.dirs_created, 0);
}

#[test]
fn a_second_run_is_not_idempotent() {
    // First run: a lone `a.jpg` moves into a fresh `images`.
    let first = vec![entry(&[], false), entry(&["a.jpg"], true)];
    let plan1 = plan_moves(&first);
    expect_move(&plan1.actions[1], Category::Images, true, "a.jpg");

    // Second run over the organized tree: the file inside `images` is
    // picked up again, collides with itself, and gains a suffix.
    let second = vec![
        entry(&[], false),
        entry(&["images"], false),
        entry(&["images", "a.jpg"], true),
    ];
    let plan2 = plan_moves(&second);
    expect_move(&plan2.actions[2], Category::Images, false, "a_1.jpg");
    assert_eq!(plan2.files_moved, 1);
    assert_eq!(plan2.dirs_created, 0);
}

#[test]
fn a_freed_name_can_be_taken_by_a_later_file() {
    // The file inside `images` moves first and frees its name, so the
    // root file of the same name lands on the bare name.
    let entries = vec![
        entry(&[], false),
        entry(&["images"], false),
        entry(&["images", "a.jpg"], true),
        entry(&["a.jpg"], true),
    ];
    let plan = plan_moves(&entries);
    expect_move(&plan.actions[2], Category::Images, false, "a_1.jpg");
    expect_move(&plan.actions[3], Category::Images, false, "a.jpg");
    assert_eq!(plan.files_moved, 2);
}

#[test]
fn extensionless_files_stay_put() {
    let entries = vec![
        entry(&[], false),
        entry(&["README"], true),
        entry(&["d"], true),
        entry(&["sub"], false),
        entry(&["sub", "notes"], true),
    ];
    let plan = plan_moves(&entries);
    for a in &plan.actions {
        assert!(matches!(a, Action::Skip));
    }
    assert_eq!(plan.files_moved, 0);
    assert_eq!(plan.dirs_created, 0);
}

#[test]
fn dotfiles_move_by_their_extension() {
    // A name's extension is what follows its last dot, even when the dot
    // comes first: `.gitignore` has extension `gitignore`.
    let entries = vec![
        entry(&[], false),
        entry(&[".gitignore"], true),
        entry(&[".jpg"], true),
    ];
    let plan = plan_moves(&entries);
    expect_move(&plan.actions[1], Category::Others, true, ".gitignore");
    expect_move(&plan.actions[2], Category::Images, true, ".jpg");
    assert_eq!(plan.files_moved, 2);
    assert_eq!(plan.dirs_created, 2);
}

#[test]
fn a_colliding_dotfile_gets_a_suffix_on_its_empty_stem() {
    let entries = vec![
        entry(&[], false),
        entry(&["images"], false),
        entry(&["images", ".jpg"], false),
        entry(&[".jpg"], true),
    ];
    let plan = plan_moves(&entries);
    expect_move(&plan.actions[3], Category::Images, false, "_1.jpg");
    assert_eq!(plan.files_moved, 1);
    assert_eq!(plan.dirs_created, 0);
}

#[test]
fn nested_files_are_pulled_up_into_categories() {
    let entries = vec![
        entry(&[], false),
        entry(&["sub"], false),
        entry(&["sub", "song.mp3"], true),
        entry(&["sub", "deeper"], false),
        entry(&["sub", "deeper", "clip.mkv"], true),
    ];
    let plan = plan_moves(&entries);
    expect_move(&plan.actions[2], Category::Audio, true, "song.mp3");
    expect_move(&plan.actions[4], Category::Video, true, "clip.mkv");
    assert_eq!(plan.files_moved, 2);
    assert_eq!(plan.dirs_created, 2);
}

#[test]
fn confirmed_run_returns_the_full_plan() {
    let entries = vec![entry(&[], false), entry(&["a.jpg"], true)];
    let plan = organize(&chars("y\n"), &entries).expect("an affirmative answer runs");
    assert_eq!(plan.files_moved, 1);
    assert_eq!(plan.dirs_created, 1);
    expect_move(&plan.actions[1], Category::Images, true, "a.jpg");
}
