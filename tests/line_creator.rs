use rls::line_creator::{
    arrange_listing, create_permission_string, is_dotfile, render_lines, LineItem, LineItemType,
};
use std::cmp::Ordering;
use std::path::PathBuf;

fn item(item_type: LineItemType, mode: u32, name: &str) -> LineItem {
    LineItem::new(item_type, create_permission_string(mode), name.to_string())
}

fn lines(items: Vec<LineItem>, all: bool) -> Vec<String> {
    render_lines(&arrange_listing(items, all))
}

#[test]
fn constructs_file_item_from_path_buf() {
    let path_buf = PathBuf::from("Cargo.toml");
    let item = LineItem::from_path_buf(path_buf, false, 0o644).expect("");

    assert_eq!(item.item_type, LineItemType::File);
    assert_eq!(item.name, "Cargo.toml");
}

#[test]
fn constructs_dir_item_from_path_buf() {
    let path_buf = PathBuf::from(".git");
    let item = LineItem::from_path_buf(path_buf, true, 0o755).expect("");

    assert_eq!(item.item_type, LineItemType::Directory);
    assert_eq!(item.name, ".git");
}

#[test]
fn from_path_buf_takes_the_final_component() {
    let item = LineItem::from_path_buf(PathBuf::from("some/dir/main.rs"), false, 0o600).unwrap();
    assert_eq!(item.name, "main.rs");
    assert_eq!(item.permissions_string, "rw-------");
    assert_eq!(item.render(), "-rw------- main.rs");
}

#[test]
fn from_path_buf_without_final_component() {
    assert!(LineItem::from_path_buf(PathBuf::from("/"), true, 0o755).is_none());
    assert!(LineItem::from_path_buf(PathBuf::from("a/.."), true, 0o755).is_none());
}

#[test]
fn permission_strings_of_known_modes() {
    assert_eq!(create_permission_string(0o000), "---------");
    assert_eq!(create_permission_string(0o777), "rwxrwxrwx");
    assert_eq!(create_permission_string(0o754), "rwxr-xr--");
    assert_eq!(create_permission_string(0o644), "rw-r--r--");
    assert_eq!(create_permission_string(0o100755), "rwxr-xr-x");
}

#[test]
fn permission_string_positions_follow_bits() {
    let letters = ['r', 'w', 'x', 'r', 'w', 'x', 'r', 'w', 'x'];
    for mode in 0u32..512 {
        let s: Vec<char> = create_permission_string(mode).chars().collect();
        assert_eq!(s.len(), 9);
        for p in 0..9 {
            let expected = if mode & (1 << p) != 0 { letters[8 - p] } else { '-' };
            assert_eq!(s[8 - p], expected);
        }
    }
}

#[test]
fn renders_directory_and_file() {
    assert_eq!(item(LineItemType::Directory, 0o755, ".git").render(), "drwxr-xr-x .git/");
    assert_eq!(item(LineItemType::File, 0o644, "Cargo.toml").render(), "-rw-r--r-- Cargo.toml");
}

#[test]
fn directory_comes_before_file() {
    let d = item(LineItemType::Directory, 0o755, "zzz");
    let f = item(LineItemType::File, 0o644, "aaa");
    assert_eq!(d.compare(&f), Ordering::Less);
    assert_eq!(f.compare(&d), Ordering::Greater);
}

#[test]
fn names_compare_by_bytes() {
    let a = item(LineItemType::File, 0o644, "Zeta");
    let b = item(LineItemType::File, 0o644, "alpha");
    let c = item(LineItemType::File, 0o600, "alpha");
    let d = item(LineItemType::File, 0o644, "alpha.txt");
    assert_eq!(a.compare(&b), Ordering::Less);
    assert_eq!(b.compare(&a), Ordering::Greater);
    assert_eq!(b.compare(&c), Ordering::Equal);
    assert_eq!(b.compare(&d), Ordering::Less);
}

#[test]
fn equality_compares_every_field() {
    let a = item(LineItemType::File, 0o644, "alpha");
    assert!(a == item(LineItemType::File, 0o644, "alpha"));
    assert!(a != item(LineItemType::File, 0o600, "alpha"));
    assert!(a != item(LineItemType::File, 0o644, "beta"));
    assert!(a != item(LineItemType::Directory, 0o644, "alpha"));
}

#[test]
fn dotfile_names() {
    assert!(is_dotfile(".hidden"));
    assert!(is_dotfile("."));
    assert!(!is_dotfile("visible.txt"));
    assert!(!is_dotfile(""));
}

fn base_entries() -> Vec<LineItem> {
    vec![
        item(LineItemType::File, 0o644, "Cargo.toml"),
        item(LineItemType::Directory, 0o755, "src"),
    ]
}

#[test]
fn listing_of_plain_directory() {
    assert_eq!(lines(base_entries(), false), vec!["drwxr-xr-x src/", "-rw-r--r-- Cargo.toml"]);
}

#[test]
fn listing_hides_dotfiles() {
    let mut entries = base_entries();
    entries.push(item(LineItemType::File, 0o600, ".hidden"));
    assert_eq!(lines(entries, false), vec!["drwxr-xr-x src/", "-rw-r--r-- Cargo.toml"]);
}

#[test]
fn listing_with_all_shows_dotfiles() {
    let mut entries = base_entries();
    entries.push(item(LineItemType::File, 0o600, ".hidden"));
    assert_eq!(
        lines(entries, true),
        vec!["drwxr-xr-x src/", "-rw------- .hidden", "-rw-r--r-- Cargo.toml"]
    );
}

#[test]
fn listing_orders_directories_then_names() {
    let entries = vec![
        item(LineItemType::File, 0o644, "beta.txt"),
        item(LineItemType::Directory, 0o755, "beta"),
        item(LineItemType::File, 0o644, "alpha.txt"),
        item(LineItemType::Directory, 0o755, "alpha"),
    ];
    assert_eq!(
        lines(entries, false),
        vec!["drwxr-xr-x alpha/", "drwxr-xr-x beta/", "-rw-r--r-- alpha.txt", "-rw-r--r-- beta.txt"]
    );
}

#[test]
fn listing_of_nothing() {
    assert!(lines(Vec::new(), true).is_empty());
}

#[test]
fn rendered_lines_have_listing_shape() {
    let entries = vec![
        item(LineItemType::File, 0o640, "notes"),
        item(LineItemType::Directory, 0o700, ".config"),
        item(LineItemType::File, 0o777, "run.sh"),
    ];
    for line in lines(entries, true) {
        let chars: Vec<char> = line.chars().collect();
        assert!(chars.len() >= 12);
        assert!(chars[0] == 'd' || chars[0] == '-');
        assert!(chars[1..10].iter().all(|c| "rwx-".contains(*c)));
        assert_eq!(chars[10], ' ');
        assert_eq!(chars[0] == 'd', line.ends_with('/'));
    }
}
