use cmake_get_deps::wildcards::{merge_groups, needs_listing, wildcard_groups, DirGroup};

fn strings(v: &[&str]) -> Vec<String> {
    v.iter().map(|s| s.to_string()).collect()
}

#[test]
fn groups_follow_first_appearance() {
    let paths = strings(&["src/a.c", "inc/x.h", "src/b.c", "top.txt", "inc/y.h"]);
    let groups = wildcard_groups(&paths).expect("every path has a directory");
    let seen: Vec<(String, Vec<String>)> = groups.into_iter().map(|g| (g.dir, g.files)).collect();
    assert_eq!(
        seen,
        vec![
            ("src".to_string(), strings(&["src/a.c", "src/b.c"])),
            ("inc".to_string(), strings(&["inc/x.h", "inc/y.h"])),
            ("".to_string(), strings(&["top.txt"])),
        ]
    );
}

#[test]
fn paths_without_a_directory_are_reported() {
    assert!(wildcard_groups(&strings(&["/"])).is_none());
    assert!(wildcard_groups(&strings(&["src/a.c", ""])).is_none());
    assert!(wildcard_groups(&strings(&[])).is_some());
}

#[test]
fn uniform_directory_becomes_a_wildcard() {
    let groups = vec![DirGroup { dir: "src".to_string(), files: strings(&["src/a.c", "src/b.c"]) }];
    let listings = vec![strings(&["src/a.c", "src/b.c", "src/c.c"])];
    assert_eq!(merge_groups(&groups, &listings), strings(&["src/*.c"]));
}

#[test]
fn files_without_extension_give_a_bare_star() {
    let groups = vec![DirGroup { dir: "bin".to_string(), files: strings(&["bin/a", "bin/b"]) }];
    let listings = vec![strings(&["bin/a", "bin/b"])];
    assert_eq!(merge_groups(&groups, &listings), strings(&["bin/*"]));
}

#[test]
fn other_entries_keep_the_files() {
    let groups = vec![
        DirGroup { dir: "inc".to_string(), files: strings(&["inc/x.h", "inc/y.h"]) },
        DirGroup { dir: "src".to_string(), files: strings(&["src/a.c"]) },
    ];
    let listings = vec![strings(&["inc/x.h", "inc/y.h", "inc/z.txt"]), strings(&["src/a.c"])];
    assert_eq!(merge_groups(&groups, &listings), strings(&["src/*.c", "inc/x.h", "inc/y.h"]));
}

#[test]
fn mixed_extensions_keep_the_files() {
    let groups = vec![DirGroup { dir: "src".to_string(), files: strings(&["src/a.c", "src/b.h"]) }];
    let listings = vec![strings(&["src/a.c", "src/b.h"])];
    assert_eq!(merge_groups(&groups, &listings), strings(&["src/a.c", "src/b.h"]));
}

#[test]
fn listing_needed_only_for_one_extension() {
    let same = DirGroup { dir: "src".to_string(), files: strings(&["src/a.c", "src/b.c"]) };
    let mixed = DirGroup { dir: "src".to_string(), files: strings(&["src/a.c", "src/b.h"]) };
    let empty = DirGroup { dir: "src".to_string(), files: vec![] };
    assert!(needs_listing(&same));
    assert!(!needs_listing(&mixed));
    assert!(!needs_listing(&empty));
}

#[test]
fn grouped_then_merged_covers_every_path() {
    let paths = strings(&["src/a.c", "src/b.h", "inc/x.h"]);
    let groups = wildcard_groups(&paths).expect("every path has a directory");
    let listings = vec![vec![], strings(&["inc/x.h"])];
    assert_eq!(merge_groups(&groups, &listings), strings(&["inc/*.h", "src/a.c", "src/b.h"]));
}
