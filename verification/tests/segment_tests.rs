use rpmtools::identity::PackageIdentity;
use rpmtools::segments::split_segments;
use rpmtools::segments::FormatError;
use rpmtools::segments::PackageSegmentOffsets;
use rpmtools::split_package_into_components;

fn sample() -> Vec<u8> {
    (0u8..50).collect()
}

fn offsets(lead: u64, signature_header: u64, header: u64, payload: u64) -> PackageSegmentOffsets {
    PackageSegmentOffsets { lead, signature_header, header, payload }
}

fn identity() -> PackageIdentity {
    PackageIdentity::new(
        "hello".to_string(),
        Some(2),
        "1.0".to_string(),
        "3.el9".to_string(),
        "noarch".to_string(),
    )
}

#[test]
fn sections_are_the_bytes_between_the_offsets() {
    let bytes = sample();
    let cut = split_segments(&bytes, &offsets(0, 10, 25, 40)).unwrap();
    assert_eq!(cut.lead, &bytes[0..10]);
    assert_eq!(cut.sig_header, &bytes[10..25]);
    assert_eq!(cut.header, &bytes[25..40]);
    assert_eq!(cut.payload, &bytes[40..]);
}

#[test]
fn sections_joined_give_the_package_back() {
    let bytes = sample();
    let cut = split_segments(&bytes, &offsets(0, 10, 25, 40)).unwrap();
    let mut joined = Vec::new();
    joined.extend_from_slice(cut.lead);
    joined.extend_from_slice(cut.sig_header);
    joined.extend_from_slice(cut.header);
    joined.extend_from_slice(cut.payload);
    assert_eq!(joined, bytes);
}

#[test]
fn sections_joined_start_at_the_lead() {
    let bytes = sample();
    let cut = split_segments(&bytes, &offsets(5, 10, 25, 40)).unwrap();
    let mut joined = Vec::new();
    joined.extend_from_slice(cut.lead);
    joined.extend_from_slice(cut.sig_header);
    joined.extend_from_slice(cut.header);
    joined.extend_from_slice(cut.payload);
    assert_eq!(joined, bytes[5..].to_vec());
}

#[test]
fn sections_may_be_empty() {
    let bytes = sample();
    let cut = split_segments(&bytes, &offsets(0, 0, 50, 50)).unwrap();
    assert!(cut.lead.is_empty());
    assert_eq!(cut.sig_header, &bytes[..]);
    assert!(cut.header.is_empty());
    assert!(cut.payload.is_empty());
    let none: Vec<u8> = Vec::new();
    let cut = split_segments(&none, &offsets(0, 0, 0, 0)).unwrap();
    assert!(cut.lead.is_empty() && cut.sig_header.is_empty());
    assert!(cut.header.is_empty() && cut.payload.is_empty());
}

#[test]
fn offsets_out_of_order_are_refused() {
    let bytes = sample();
    for bad in [
        offsets(11, 10, 25, 40),
        offsets(0, 26, 25, 40),
        offsets(0, 10, 41, 40),
        offsets(40, 25, 10, 0),
        offsets(0, 60, 25, 40),
    ] {
        assert_eq!(split_segments(&bytes, &bad).err(), Some(FormatError::UnorderedOffsets));
        assert_eq!(bad.check(bytes.len()), Err(FormatError::UnorderedOffsets));
    }
}

#[test]
fn offsets_past_the_end_are_refused() {
    let bytes = sample();
    for bad in [offsets(0, 10, 25, 51), offsets(0, 10, 60, 70), offsets(100, 200, 300, u64::MAX)] {
        assert_eq!(split_segments(&bytes, &bad).err(), Some(FormatError::OffsetPastEnd));
        assert_eq!(bad.check(bytes.len()), Err(FormatError::OffsetPastEnd));
    }
    assert_eq!(offsets(0, 10, 25, 50).check(bytes.len()), Ok(()));
}

#[test]
fn split_names_the_four_files_in_order() {
    let bytes = sample();
    let plan =
        split_package_into_components(&bytes, &offsets(0, 10, 25, 40), &identity(), None).unwrap();
    let names: Vec<&str> = plan.files.iter().map(|f| f.name).collect();
    assert_eq!(names, vec!["lead", "sig_header", "header", "payload"]);
    assert_eq!(plan.files[0].data, &bytes[0..10]);
    assert_eq!(plan.files[1].data, &bytes[10..25]);
    assert_eq!(plan.files[2].data, &bytes[25..40]);
    assert_eq!(plan.files[3].data, &bytes[40..50]);
    let mut joined = Vec::new();
    for file in &plan.files {
        joined.extend_from_slice(file.data);
    }
    assert_eq!(joined, bytes);
}

#[test]
fn split_goes_to_the_label_by_default() {
    let bytes = sample();
    let plan =
        split_package_into_components(&bytes, &offsets(0, 10, 25, 40), &identity(), None).unwrap();
    assert_eq!(plan.destination, "hello-2:1.0-3.el9.noarch");
}

#[test]
fn split_goes_where_it_is_told() {
    let bytes = sample();
    let plan = split_package_into_components(
        &bytes,
        &offsets(0, 10, 25, 40),
        &identity(),
        Some("out/dir".to_string()),
    )
    .unwrap();
    assert_eq!(plan.destination, "out/dir");
}

#[test]
fn split_refuses_bad_offsets() {
    let bytes = sample();
    let unordered =
        split_package_into_components(&bytes, &offsets(0, 30, 25, 40), &identity(), None);
    assert_eq!(unordered.err(), Some(FormatError::UnorderedOffsets));
    let short = split_package_into_components(&bytes, &offsets(0, 10, 25, 51), &identity(), None);
    assert_eq!(short.err(), Some(FormatError::OffsetPastEnd));
}

#[test]
fn each_error_has_its_message() {
    assert_eq!(
        FormatError::UnorderedOffsets.message(),
        "the section offsets of the package are out of order"
    );
    assert_eq!(FormatError::OffsetPastEnd.message(), "a section of the package begins past its end");
}
