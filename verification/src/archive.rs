//! The data archive: which of its members are kept, and compressed lists.

use crate::lines::byte_views;
use crate::lines::lines_of;
use crate::lines::read_lines_from;
use crate::text::ends_with;
use crate::text::same;
use crate::text::starts_with;
use flate2::read::GzDecoder;
use std::io::Read;
use vstd::prelude::*;
use vstd::string::*;

verus! {

/// How many small members the archive has.
pub const SMALL_MEMBERS: usize = 4;

/// The file that a small member of the archive is written to; none for any other member.
pub open spec fn small_member_file(name: Seq<char>) -> Option<Seq<char>> {
    if name == "README"@ {
        Some("README"@)
    } else if name == "movie_titles.txt"@ {
        Some("movie_titles.csv"@)
    } else if name == "probe.txt"@ {
        Some("probe.txt"@)
    } else if name == "qualifying.txt"@ {
        Some("qualifying.txt"@)
    } else {
        None
    }
}

/// The file that a small member of the archive is written to.
pub fn small_member(name: &str) -> (r: Option<&'static str>)
    ensures
        match small_member_file(name@) {
            Some(f) => r matches Some(s) && s@ == f,
            None => r is None,
        },
{
    if same(name, "README") {
        Some("README")
    } else if same(name, "movie_titles.txt") {
        Some("movie_titles.csv")
    } else if same(name, "probe.txt") {
        Some("probe.txt")
    } else if same(name, "qualifying.txt") {
        Some("qualifying.txt")
    } else {
        None
    }
}

/// Whether a member of the archive holds the ratings.
pub fn is_training_set(name: &str) -> (r: bool)
    ensures
        r == (name@ == "training_set.tar"@),
{
    same(name, "training_set.tar")
}

/// Whether a member of the training set holds the ratings of a movie.
pub fn is_movie_file(name: &str) -> (r: bool)
    ensures
        r == ("mv_"@.is_prefix_of(name@) && ".txt"@.is_suffix_of(name@)),
{
    starts_with(name, "mv_") && ends_with(name, ".txt")
}

/// What a gzip stream holds; none where it is damaged.
pub uninterp spec fn gunzipped(data: Seq<u8>) -> Option<Seq<u8>>;

/// `flate2::read::GzDecoder`, read to its end: what the stream holds, a function of its bytes alone,
/// or nothing where decoding fails. What given bytes decode to is left unsaid.
#[verifier::external_body]
fn gunzip(data: &[u8]) -> (r: Option<Vec<u8>>)
    ensures
        match r {
            Some(out) => gunzipped(data@) == Some(out@),
            None => gunzipped(data@) is None,
        },
{
    let mut out = Vec::new();
    match GzDecoder::new(data).read_to_end(&mut out) {
        Ok(_) => Some(out),
        Err(_) => None,
    }
}

/// The lines of a compressed text; none where the stream is damaged.
pub fn read_lines_gz(data: &[u8]) -> (r: Option<Vec<Vec<u8>>>)
    ensures
        match gunzipped(data@) {
            Some(text) => r matches Some(l) && byte_views(l@) == lines_of(text),
            None => r is None,
        },
{
    match gunzip(data) {
        Some(text) => Some(read_lines_from(text.as_slice())),
        None => None,
    }
}

/// The members that are kept of the archive: under their own names, but for the list of titles, which
/// is kept as a table.
pub proof fn lemma_small_members(name: Seq<char>)
    ensures
        small_member_file(name) matches Some(f) ==> f == name || (name == "movie_titles.txt"@ && f
            == "movie_titles.csv"@),
        small_member_file(name) is None <==> name != "README"@ && name != "movie_titles.txt"@
            && name != "probe.txt"@ && name != "qualifying.txt"@,
        small_member_file("movie_titles.txt"@) == Some("movie_titles.csv"@),
{
    reveal_strlit("README");
    reveal_strlit("movie_titles.txt");
    assert("README"@.len() != "movie_titles.txt"@.len());
}

} // verus!
