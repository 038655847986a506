use rpmtools::extract_package_payload;
use rpmtools::identity::decimal_string;
use rpmtools::identity::PackageIdentity;
use rpmtools::listing::join_lines;
use rpmtools::name_order::compare_names;
use rpmtools::name_order::NameOrder;
use rpmtools::print_package_file_list;
use rpmtools::resolve_destination;

fn identity(name: &str, epoch: Option<u32>, version: &str, release: &str, arch: &str) -> PackageIdentity {
    PackageIdentity::new(
        name.to_string(),
        epoch,
        version.to_string(),
        release.to_string(),
        arch.to_string(),
    )
}

#[test]
fn label_is_name_epoch_version_release_arch() {
    let id = identity("foo", Some(1), "2.3", "4", "x86_64");
    assert_eq!(id.nevra(), "foo-1:2.3-4.x86_64");
}

#[test]
fn label_without_epoch_has_epoch_zero() {
    let id = identity("rpm-basic", None, "2.3.4", "5.el9", "noarch");
    assert_eq!(id.epoch, 0);
    assert_eq!(id.nevra(), "rpm-basic-0:2.3.4-5.el9.noarch");
}

#[test]
fn label_with_large_epoch() {
    let id = identity("k", Some(u32::MAX), "v", "r", "a");
    assert_eq!(id.nevra(), "k-4294967295:v-r.a");
}

#[test]
fn label_is_the_same_each_time() {
    let id = identity("foo", Some(7), "1.0", "2", "aarch64");
    let again = identity("foo", Some(7), "1.0", "2", "aarch64");
    assert_eq!(id.nevra(), id.nevra());
    assert_eq!(id.nevra(), again.nevra());
    assert_eq!(id.nevra(), id.clone().nevra());
}

#[test]
fn labels_differ_when_one_field_differs() {
    let base = identity("foo", Some(1), "2.3", "4", "x86_64");
    let others = [
        identity("bar", Some(1), "2.3", "4", "x86_64"),
        identity("foo", Some(10), "2.3", "4", "x86_64"),
        identity("foo", None, "2.3", "4", "x86_64"),
        identity("foo", Some(1), "2.4", "4", "x86_64"),
        identity("foo", Some(1), "2.3", "5", "x86_64"),
        identity("foo", Some(1), "2.3", "4", "noarch"),
    ];
    for other in &others {
        assert_ne!(base.nevra(), other.nevra());
    }
}

#[test]
fn decimal_of_numbers() {
    assert_eq!(decimal_string(0), "0");
    assert_eq!(decimal_string(7), "7");
    assert_eq!(decimal_string(9), "9");
    assert_eq!(decimal_string(10), "10");
    assert_eq!(decimal_string(105), "105");
    assert_eq!(decimal_string(1234567890), "1234567890");
    assert_eq!(decimal_string(u32::MAX), "4294967295");
}

#[test]
fn destination_is_the_one_given_or_the_label() {
    let id = identity("foo", Some(1), "2.3", "4", "x86_64");
    assert_eq!(resolve_destination(None, &id), "foo-1:2.3-4.x86_64");
    assert_eq!(resolve_destination(Some("elsewhere".to_string()), &id), "elsewhere");
    assert_eq!(resolve_destination(Some(String::new()), &id), "");
}

#[test]
fn payload_is_extracted_to_the_destination() {
    let id = identity("foo", None, "2.3", "4", "x86_64");
    let paths = vec!["/usr/bin/foo".to_string(), "/etc/foo.conf".to_string()];
    let plan = extract_package_payload(&id, None, &paths);
    assert_eq!(plan.destination, "foo-0:2.3-4.x86_64");
    assert_eq!(plan.listing, "/usr/bin/foo\n/etc/foo.conf\n");
    let plan = extract_package_payload(&id, Some("/tmp/x".to_string()), &Vec::new());
    assert_eq!(plan.destination, "/tmp/x");
    assert_eq!(plan.listing, "");
}

#[test]
fn names_compare_as_strings_do() {
    assert_eq!(compare_names("a", "b"), NameOrder::Before);
    assert_eq!(compare_names("b", "a"), NameOrder::After);
    assert_eq!(compare_names("abc", "abc"), NameOrder::Same);
    assert_eq!(compare_names("", ""), NameOrder::Same);
    assert_eq!(compare_names("", "a"), NameOrder::Before);
    assert_eq!(compare_names("ab", "abc"), NameOrder::Before);
    assert_eq!(compare_names("abd", "abc"), NameOrder::After);
    assert_eq!(compare_names("Z", "a"), NameOrder::Before);
    assert_eq!(compare_names("z", "é"), NameOrder::Before);
    assert_eq!(compare_names("é", "日本"), NameOrder::Before);
    let words = ["", "a", "A", "ab", "b", "é", "日本", "a-b", "a_b", "10", "9"];
    for x in &words {
        for y in &words {
            let expected = if x < y {
                NameOrder::Before
            } else if x == y {
                NameOrder::Same
            } else {
                NameOrder::After
            };
            assert_eq!(compare_names(x, y), expected);
        }
    }
}

#[test]
fn lines_are_joined_with_a_line_feed_after_each() {
    assert_eq!(join_lines(&Vec::new()), "");
    assert_eq!(join_lines(&vec!["one".to_string()]), "one\n");
    assert_eq!(join_lines(&vec!["one".to_string(), String::new(), "two".to_string()]), "one\n\ntwo\n");
}

#[test]
fn file_list_keeps_the_order_given() {
    let paths = vec!["/usr/bin/z".to_string(), "/etc/a".to_string(), "/usr/bin/z".to_string()];
    assert_eq!(print_package_file_list(&paths), "/usr/bin/z\n/etc/a\n/usr/bin/z\n");
    assert_eq!(print_package_file_list(&Vec::new()), "");
}
