//! Tools for taking RPM packages apart: cutting a package into its four
//! sections and drawing the files it installs as a tree.
//!
//! The functions here compute what is to be written or printed; reading the
//! package and writing the results is left to the caller.

use vstd::prelude::*;
use crate::identity::PackageIdentity;
use crate::listing::join_lines;
use crate::listing::lines_text;
use crate::render::render;
use crate::render::render_tree;
use crate::segments::split_segments;
use crate::segments::FormatError;
use crate::segments::PackageSegmentOffsets;
use crate::tree::FileTreeNode;
use crate::tree_model::Tree;

pub mod identity;
pub mod listing;
pub mod name_order;
pub mod render;
pub mod segments;
pub mod tree;
pub mod tree_model;

verus! {

/// One section of a package and the name of the file it is written to.
#[derive(Clone, Copy, Debug)]
pub struct SectionFile<'a> {
    pub name: &'static str,
    pub data: &'a [u8],
}

/// What splitting a package writes: the directory, and the four files in it.
#[derive(Debug)]
pub struct SplitPlan<'a> {
    pub destination: String,
    pub files: Vec<SectionFile<'a>>,
}

/// What extracting a payload does: the directory that the files go to, and
/// the text that lists them.
#[derive(Debug)]
pub struct ExtractPlan {
    pub destination: String,
    pub listing: String,
}

impl<'a> DeepView for SectionFile<'a> {
    type V = (Seq<char>, Seq<u8>);

    open spec fn deep_view(&self) -> (Seq<char>, Seq<u8>) {
        (self.name@, self.data@)
    }
}

/// The files of a package split at `offsets`, in the order in which the
/// sections follow each other: the name of each file and what it holds.
pub open spec fn section_files(bytes: Seq<u8>, offsets: PackageSegmentOffsets) -> Seq<
    (Seq<char>, Seq<u8>),
> {
    seq![
        (
            seq!['l', 'e', 'a', 'd'],
            bytes.subrange(offsets.lead as int, offsets.signature_header as int),
        ),
        (
            seq!['s', 'i', 'g', '_', 'h', 'e', 'a', 'd', 'e', 'r'],
            bytes.subrange(offsets.signature_header as int, offsets.header as int),
        ),
        (
            seq!['h', 'e', 'a', 'd', 'e', 'r'],
            bytes.subrange(offsets.header as int, offsets.payload as int),
        ),
        (
            seq!['p', 'a', 'y', 'l', 'o', 'a', 'd'],
            bytes.subrange(offsets.payload as int, bytes.len() as int),
        ),
    ]
}

/// What the files hold, one after the other.
pub open spec fn joined_data(files: Seq<(Seq<char>, Seq<u8>)>) -> Seq<u8>
    decreases files.len(),
{
    if files.len() == 0 {
        Seq::empty()
    } else {
        joined_data(files.drop_last()) + files.last().1
    }
}

/// The files of a package split at offsets that fit hold, one after the
/// other, the package from its lead on.
pub proof fn lemma_section_files_from_lead(bytes: Seq<u8>, offsets: PackageSegmentOffsets)
    requires
        offsets.fits(bytes.len()),
    ensures
        joined_data(section_files(bytes, offsets)) == bytes.skip(offsets.lead as int),
{
    let files = section_files(bytes, offsets);
    reveal_with_fuel(joined_data, 5);
    assert(files.drop_last().drop_last().drop_last().drop_last().len() == 0);
    assert(joined_data(files) =~= files[0].1 + files[1].1 + files[2].1 + files[3].1);
    assert(joined_data(files) =~= bytes.skip(offsets.lead as int));
}

/// The files of a package split at offsets that fit and begin at the start
/// of the package hold, one after the other, the package.
pub proof fn lemma_section_files_round_trip(bytes: Seq<u8>, offsets: PackageSegmentOffsets)
    requires
        offsets.fits(bytes.len()),
        offsets.lead == 0,
    ensures
        joined_data(section_files(bytes, offsets)) == bytes,
{
    lemma_section_files_from_lead(bytes, offsets);
    assert(bytes.skip(0) =~= bytes);
}

/// The directory that results go to: the one asked for, or one named by the
/// label of the package.
pub open spec fn destination_text(destination: Option<String>, identity: PackageIdentity) -> Seq<
    char,
> {
    match destination {
        Some(directory) => directory@,
        None => identity.label(),
    }
}

/// Chooses the directory that results go to.
pub fn resolve_destination(destination: Option<String>, identity: &PackageIdentity) -> (directory:
    String)
    ensures
        directory@ == destination_text(destination, *identity),
{
    match destination {
        Some(directory) => directory,
        None => identity.nevra(),
    }
}

/// Splits a package into its four sections: says which directory they go to
/// and which file holds which bytes. Fails, before anything is cut, when the
/// offsets are out of order or reach past the end of the package.
pub fn split_package_into_components<'a>(
    input_bytes: &'a [u8],
    offsets: &PackageSegmentOffsets,
    identity: &PackageIdentity,
    destination: Option<String>,
) -> (split: Result<SplitPlan<'a>, FormatError>)
    ensures
        split is Ok <==> offsets.fits(input_bytes@.len()),
        split matches Ok(plan) ==> {
            &&& plan.destination@ == destination_text(destination, *identity)
            &&& plan.files.deep_view() == section_files(input_bytes@, *offsets)
        },
        split matches Err(error) ==> offsets.verdict(input_bytes@.len()) == Err::<
            (),
            FormatError,
        >(error),
{
    match split_segments(input_bytes, offsets) {
        Err(error) => Err(error),
        Ok(segments) => {
            proof {
                reveal_strlit("lead");
                reveal_strlit("sig_header");
                reveal_strlit("header");
                reveal_strlit("payload");
            }
            let mut files: Vec<SectionFile<'a>> = Vec::new();
            files.push(SectionFile { name: "lead", data: segments.lead });
            files.push(SectionFile { name: "sig_header", data: segments.sig_header });
            files.push(SectionFile { name: "header", data: segments.header });
            files.push(SectionFile { name: "payload", data: segments.payload });
            assert(files.deep_view() =~~= section_files(input_bytes@, *offsets));
            Ok(SplitPlan { destination: resolve_destination(destination, identity), files })
        },
    }
}

/// Extracts the payload of a package: says which directory it is extracted
/// to, and what is printed of the files in it, one path on each line in the
/// order given.
pub fn extract_package_payload(
    identity: &PackageIdentity,
    destination: Option<String>,
    paths: &Vec<String>,
) -> (plan: ExtractPlan)
    ensures
        plan.destination@ == destination_text(destination, *identity),
        plan.listing@ == lines_text(paths.deep_view()),
{
    ExtractPlan {
        destination: resolve_destination(destination, identity),
        listing: join_lines(paths),
    }
}

/// The list of the files of a package as it is printed: one path on each
/// line, in the order given.
pub fn print_package_file_list(paths: &Vec<String>) -> (text: String)
    ensures
        text@ == lines_text(paths.deep_view()),
{
    join_lines(paths)
}

/// The tree of the files of a package as it is printed: a line for the root,
/// then a line for every directory and file, the names at each level in
/// order.
pub fn print_package_file_tree(paths: &Vec<Vec<String>>) -> (text: String)
    ensures
        text@ == lines_text(render(Tree::empty().insert_all(paths.deep_view()))),
{
    let tree = FileTreeNode::build(paths);
    let lines = render_tree(&tree);
    join_lines(&lines)
}

} // verus!
