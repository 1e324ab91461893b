use lix_diff::diff::PackageListDiff;
use lix_diff::package::{compare_tokens, compare_versions, split_version, DiffType, Package, SizeDelta};
use lix_diff::parser::{normalize_versions, DiffPackage, DiffRoot};
use lix_diff::versioning::{Version, VersionComponent, VersionList};
use std::cmp::Ordering;

fn strings(items: &[&str]) -> Vec<String> {
    items.iter().map(|s| s.to_string()).collect()
}

fn record(size: i64, before: &[&str], after: &[&str]) -> DiffPackage {
    DiffPackage {
        size_delta: size,
        versions_before: strings(before),
        versions_after: strings(after),
    }
}

fn root(records: Vec<(&str, DiffPackage)>) -> DiffRoot {
    DiffRoot {
        packages: records.into_iter().map(|(n, r)| (n.to_string(), r)).collect(),
        schema: "v1".to_string(),
    }
}

fn build(records: Vec<(&str, DiffPackage)>, by_size: bool) -> (PackageListDiff, Vec<String>) {
    let mut diff = PackageListDiff::new();
    diff.by_size = by_size;
    let root = root(records);
    assert!(diff.totals_fit_for(&root));
    let skipped = diff.from_diff_root(root);
    (diff, skipped)
}

fn red(s: &str) -> String {
    format!("\x1b[31m{s}\x1b[0m")
}

fn green(s: &str) -> String {
    format!("\x1b[32m{s}\x1b[0m")
}

fn yellow(s: &str) -> String {
    format!("\x1b[33m{s}\x1b[0m")
}

fn title(s: &str) -> String {
    format!("\x1b[1;4;97m{s}\x1b[0m")
}

fn directions(v: &Version) -> Vec<(String, Ordering)> {
    v.0.iter().map(|c| (c.0.clone(), c.1)).collect()
}

#[test]
fn kind_follows_presence_of_versions() {
    let some = strings(&["1.0"]);
    let none: Vec<String> = Vec::new();
    assert_eq!(DiffType::from_versions(&some, &some), DiffType::Changed);
    assert_eq!(DiffType::from_versions(&none, &some), DiffType::Added);
    assert_eq!(DiffType::from_versions(&some, &none), DiffType::Removed);
    assert_eq!(DiffType::from_versions(&none, &none), DiffType::Unknown);
}

#[test]
fn direction_locks_at_first_divergence() {
    let (before, after) = compare_versions("1.2.3", "1.3.0");
    assert_eq!(
        directions(&before),
        vec![
            ("1".to_string(), Ordering::Equal),
            ("2".to_string(), Ordering::Less),
            ("3".to_string(), Ordering::Less),
        ]
    );
    assert_eq!(
        directions(&after),
        vec![
            ("1".to_string(), Ordering::Equal),
            ("3".to_string(), Ordering::Greater),
            ("0".to_string(), Ordering::Greater),
        ]
    );
}

#[test]
fn shorter_version_is_padded_with_empty_token() {
    let (before, after) = compare_versions("1.2", "1.2.1");
    assert_eq!(
        directions(&before),
        vec![
            ("1".to_string(), Ordering::Equal),
            ("2".to_string(), Ordering::Equal),
            ("".to_string(), Ordering::Less),
        ]
    );
    assert_eq!(
        directions(&after),
        vec![
            ("1".to_string(), Ordering::Equal),
            ("2".to_string(), Ordering::Equal),
            ("1".to_string(), Ordering::Greater),
        ]
    );
}

#[test]
fn equal_versions_stay_unchanged() {
    let (before, after) = compare_versions("2.0.1", "2.0.1");
    assert!(directions(&before).iter().all(|t| t.1 == Ordering::Equal));
    assert!(directions(&after).iter().all(|t| t.1 == Ordering::Equal));
    assert_eq!(before.0.len(), 3);
}

#[test]
fn tokens_compare_as_strings_not_numbers() {
    assert_eq!(compare_tokens("10", "9"), Ordering::Less);
    assert_eq!(compare_tokens("", "0"), Ordering::Less);
    assert_eq!(compare_tokens("abc", "abc"), Ordering::Equal);
    assert_eq!(compare_tokens("b", "abc"), Ordering::Greater);
}

#[test]
fn versions_split_on_dots() {
    assert_eq!(split_version("1.2.3"), strings(&["1", "2", "3"]));
    assert_eq!(split_version(""), strings(&[""]));
    assert_eq!(split_version("a..b."), strings(&["a", "", "b", ""]));
    assert_eq!(split_version("unstable-2024"), strings(&["unstable-2024"]));
}

#[test]
fn total_is_the_same_in_both_modes() {
    let input = || {
        vec![
            ("alpha", record(100, &["1.0"], &["1.1"])),
            ("beta", record(-30, &[], &["2"])),
            ("gamma", record(7, &["3"], &[])),
            ("ghost", record(1000, &[], &[])),
        ]
    };
    let (by_kind, _) = build(input(), false);
    let (by_size, _) = build(input(), true);
    assert_eq!(by_kind.size_delta.0, 77);
    assert_eq!(by_size.size_delta.0, 77);
    assert_eq!(by_kind.longest_name, by_size.longest_name);
}

#[test]
fn flat_order_descends_by_size() {
    let (diff, _) = build(
        vec![
            ("a", record(5, &["1"], &["2"])),
            ("b", record(-10, &["1"], &["2"])),
            ("c", record(20, &["1"], &["2"])),
            ("d", record(5, &["1"], &["2"])),
            ("e", record(0, &["1"], &["2"])),
        ],
        true,
    );
    let order = diff.size_order();
    assert_eq!(order, vec![2, 0, 3, 4, 1]);
    let deltas: Vec<i64> = order
        .iter()
        .map(|&i| diff.all[i].base_package.size_delta.0)
        .collect();
    for pair in deltas.windows(2) {
        assert!(pair[0] >= pair[1]);
    }
}

#[test]
fn empty_input_renders_only_the_notice() {
    let (by_kind, skipped) = build(Vec::new(), false);
    assert!(skipped.is_empty());
    assert_eq!(by_kind.to_string(), "No differences found.");
    let (by_size, _) = build(Vec::new(), true);
    assert_eq!(by_size.to_string(), "No differences found.");
}

#[test]
fn unknown_package_is_left_out() {
    let with = || {
        vec![
            ("a-very-long-unknown-name", record(5000, &[], &[])),
            ("pkg", record(3, &["1"], &["2"])),
        ]
    };
    for by_size in [false, true] {
        let (diff, skipped) = build(with(), by_size);
        assert_eq!(skipped, strings(&["a-very-long-unknown-name"]));
        assert_eq!(diff.size_delta.0, 3);
        assert_eq!(diff.longest_name, 3);
        assert_eq!(
            diff.all.len() + diff.added.len() + diff.removed.len() + diff.changed.len(),
            1
        );
    }
    let (only_unknown, _) = build(vec![("x", record(9, &[], &[]))], false);
    assert_eq!(only_unknown.to_string(), "No differences found.");
}

#[test]
fn changed_package_round_trip() {
    let (diff, _) = build(vec![("pkgA", record(1048576, &["1.0"], &["2.0"]))], false);
    assert_eq!(diff.changed.len(), 1);
    assert_eq!(diff.changed[0].base_package.diff_type, DiffType::Changed);
    let expected = format!(
        "{}\n[{}] pkgA  {}.{} -> {}.{}\n\nsize diff: +1.05 MB\n",
        title("Changed"),
        yellow("C"),
        red("1"),
        red("0"),
        green("2"),
        green("0"),
    );
    assert_eq!(diff.to_string(), expected);
}

#[test]
fn added_package_with_negative_size() {
    let (diff, _) = build(vec![("pkgB", record(-2048, &[], &["0.1"]))], false);
    assert_eq!(diff.added.len(), 1);
    let expected = format!(
        "{}\n[{}] pkgB  {}.{}\n\nsize diff: -2.05 kB\n",
        title("Added"),
        green("A"),
        green("0"),
        green("1"),
    );
    assert_eq!(diff.to_string(), expected);
}

#[test]
fn sections_come_in_fixed_order_sorted_by_name() {
    let (diff, _) = build(
        vec![
            ("zlib", record(1, &["1"], &[])),
            ("bash", record(1, &[], &["5"])),
            ("curl", record(1, &["8"], &["9"])),
            ("attr", record(1, &["2"], &["3"])),
        ],
        false,
    );
    let expected = format!(
        "{}\n[{c}] attr  {} -> {}\n[{c}] curl  {} -> {}\n\n{}\n[{}] bash  {}\n\n{}\n[{}] zlib  {}\n\nsize diff: +4 B\n",
        title("Changed"),
        red("2"),
        green("3"),
        red("8"),
        green("9"),
        title("Added"),
        green("A"),
        green("5"),
        title("Removed"),
        red("R"),
        red("1"),
        c = yellow("C"),
    );
    assert_eq!(diff.to_string(), expected);
}

#[test]
fn repeated_name_overwrites_earlier_record() {
    let (diff, _) = build(
        vec![
            ("dup", record(1, &["1"], &["2"])),
            ("dup", record(2, &["3"], &["4"])),
        ],
        false,
    );
    assert_eq!(diff.changed.len(), 1);
    assert_eq!(diff.changed[0].base_package.size_delta.0, 2);
}

#[test]
fn flat_layout_aligns_sizes_past_visible_width() {
    let (diff, _) = build(
        vec![
            ("a", record(10, &[], &["1.0"])),
            ("bb", record(-5, &["2"], &[])),
        ],
        true,
    );
    let expected = format!(
        "a   {}.{}  +10 B\nbb  {}    -5 B\n\nsize diff: +5 B\n",
        green("1"),
        green("0"),
        red("2"),
    );
    assert_eq!(diff.to_string(), expected);
}

#[test]
fn multiple_version_lines_join_with_commas() {
    let pkg = Package::from(record(0, &["1.0", "2.0"], &["1.1", "2.0", "3.0"]));
    assert_eq!(pkg.diff_type, DiffType::Changed);
    assert_eq!(pkg.versions_before.0.len(), 2);
    assert_eq!(pkg.versions_after.0.len(), 3);
    let expected = format!(
        "{}.{}, {}.{} -> {}.{}, {}.{}, {}.{}",
        yellow("1"),
        red("0"),
        yellow("2"),
        yellow("0"),
        yellow("1"),
        green("1"),
        yellow("2"),
        yellow("0"),
        green("3"),
        green("0"),
    );
    assert_eq!(pkg.to_string(), expected);
}

#[test]
fn unmatched_before_entries_are_shown_as_removed() {
    let pkg = Package::from(record(0, &["1", "2"], &["1"]));
    assert_eq!(pkg.versions_before.0.len(), 2);
    assert_eq!(pkg.versions_after.0.len(), 1);
    assert_eq!(
        pkg.to_string(),
        format!("{}, {} -> {}", yellow("1"), red("2"), yellow("1"))
    );
}

#[test]
fn size_delta_sign_and_units() {
    assert_eq!(SizeDelta(0).to_string(), "+0 B");
    assert_eq!(SizeDelta(1500).to_string(), "+1.50 kB");
    assert_eq!(SizeDelta(-999).to_string(), "-999 B");
    assert_eq!(SizeDelta::from(7).0, 7);
    assert!(SizeDelta(i64::MIN).to_string().starts_with('-'));
}

#[test]
fn empty_versions_become_placeholder() {
    let out = normalize_versions(strings(&["", "1.0", ""]));
    assert_eq!(out, strings(&["<none>", "1.0", "<none>"]));
}

#[test]
fn version_lists_render_each_token_in_its_colour() {
    let mut v = Version::new();
    v.push(VersionComponent::new("1".to_string(), Ordering::Equal));
    v.push(VersionComponent::new("4".to_string(), Ordering::Greater));
    let mut list = VersionList::new();
    list.push(v);
    assert_eq!(list.to_string(), format!("{}.{}", yellow("1"), green("4")));
    assert_eq!(VersionList::new().to_string(), "");
}

#[test]
fn removed_package_shows_only_before() {
    let pkg = Package::from(record(-1, &["0.9"], &[]));
    assert_eq!(pkg.diff_type, DiffType::Removed);
    assert!(pkg.versions_after.0.is_empty());
    assert_eq!(pkg.to_string(), format!("{}.{}", red("0"), red("9")));
}
