//! Listing the contents of an archive: which entry names are shown.
use vstd::prelude::*;

verus! {

/// An entry of an archive, as read from its directory.
pub struct ArchiveEntry {
    pub name: String,
    pub is_file: bool,
}

/// The names of the entries that are files, in archive order.
pub open spec fn file_names(entries: Seq<ArchiveEntry>) -> Seq<Seq<char>>
    decreases entries.len(),
{
    if entries.len() == 0 {
        Seq::empty()
    } else if entries.last().is_file {
        file_names(entries.drop_last()).push(entries.last().name@)
    } else {
        file_names(entries.drop_last())
    }
}

/// The names to list for an archive: those of its file entries (directories are
/// left out), in archive order.
pub fn listed_names(entries: &Vec<ArchiveEntry>) -> (names: Vec<String>)
    ensures
        names@.map_values(|s: String| s@) == file_names(entries@),
{
    let mut names: Vec<String> = Vec::new();
    let mut i: usize = 0;
    while i < entries.len()
        invariant
            i <= entries@.len(),
            names@.map_values(|s: String| s@) == file_names(entries@.take(i as int)),
        decreases entries@.len() - i,
    {
        assert(entries@.take(i + 1).drop_last() =~= entries@.take(i as int));
        if entries[i].is_file {
            let ghost before = names@;
            names.push(entries[i].name.clone());
            assert(names@.map_values(|s: String| s@) =~= before.map_values(|s: String| s@).push(
                entries@[i as int].name@,
            ));
        }
        i = i + 1;
    }
    assert(entries@.take(entries@.len() as int) =~= entries@);
    names
}

} // verus!
