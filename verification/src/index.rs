//! The indexing pass: which files it reads, and what it collects from them.
//!
//! Walking directories and reading files is the caller's part. For every
//! file it meets, the caller asks [`is_shortcut_file`] whether to read it and
//! hands what reading gave to [`Index::add_file`].

use crate::desktop::{all_well_formed, entry_views, parse_desktop_entry, parsed_entries};
use crate::desktop::{DesktopEntry, EntryView};
use crate::text::{optional_str, optional_text, part, same, to_chars};
use vstd::prelude::*;
use vstd::seq_lib::lemma_flatten_concat;

verus! {

/// Whether a file of this name is a shortcut file: its extension, the part
/// behind the last `.` of a name that has something in front of that `.`, is
/// exactly `desktop`.
pub open spec fn has_shortcut_extension(file_name: Seq<char>) -> bool {
    file_name.len() > ".desktop"@.len() && ".desktop"@.is_suffix_of(file_name)
}

/// Decides from the name of a file, the last component of its path, whether
/// the indexing pass reads it.
pub fn is_shortcut_file(file_name: &str) -> (accepted: bool)
    ensures
        accepted == has_shortcut_extension(file_name@),
{
    let name = to_chars(file_name);
    let suffix = to_chars(".desktop");
    if name.len() <= suffix.len() {
        return false;
    }
    let tail = part(&name, name.len() - suffix.len(), name.len());
    same(&tail, &suffix)
}

/// What one file contributes: the entries parsed from its text, and nothing
/// where the file could not be read as text.
pub open spec fn file_entries(content: Option<Seq<char>>) -> Seq<EntryView> {
    match content {
        Some(text) => parsed_entries(text),
        None => Seq::empty(),
    }
}

/// What a pass over the given files collects: the contributions of the
/// files, in the order of the files.
pub open spec fn indexed(files: Seq<Option<Seq<char>>>) -> Seq<EntryView> {
    files.flat_map(|content: Option<Seq<char>>| file_entries(content))
}

/// The entry collection of one indexing pass, in scan order. Entries of the
/// same name are all kept. Every entry in it is well-formed.
pub struct Index {
    entries: Vec<DesktopEntry>,
}

impl View for Index {
    type V = Seq<EntryView>;

    closed spec fn view(&self) -> Seq<EntryView> {
        entry_views(self.entries@)
    }
}

impl Index {
    #[verifier::type_invariant]
    spec fn holds_well_formed_entries(self) -> bool {
        all_well_formed(entry_views(self.entries@))
    }

    /// An empty collection.
    pub fn new() -> (index: Self)
        ensures
            index@ == Seq::<EntryView>::empty(),
    {
        let index = Index { entries: Vec::new() };
        assert(index@ =~= Seq::<EntryView>::empty());
        index
    }

    /// Takes in one file. `content` is the text of the file, or `None` where
    /// it could not be read as text: such a file is passed over, and so, in
    /// effect, is one that does not parse into any entry.
    pub fn add_file(&mut self, content: Option<&str>)
        ensures
            final(self)@ == old(self)@ + file_entries(optional_str(content)),
            file_entries(optional_str(content)).len() == 0 ==> final(self)@ == old(self)@,
    {
        match content {
            Some(text) => {
                proof {
                    use_type_invariant(&*self);
                }
                let mut parsed = parse_desktop_entry(text);
                let ghost earlier = entry_views(self.entries@);
                let ghost added = entry_views(parsed@);
                // The collection is taken out, extended and put back.
                let mut entries: Vec<DesktopEntry> = Vec::new();
                core::mem::swap(&mut self.entries, &mut entries);
                entries.append(&mut parsed);
                proof {
                    assert(entry_views(entries@) =~= earlier + added);
                    assert forall|i: int| 0 <= i < earlier.len() + added.len() implies (
                    #[trigger] (earlier + added)[i]).well_formed() by {
                        if i < earlier.len() {
                            assert(earlier[i].well_formed());
                        } else {
                            assert(added[i - earlier.len()].well_formed());
                        }
                    }
                }
                self.entries = entries;
            },
            None => {
                assert(self@ =~= old(self)@ + file_entries(optional_str(content)));
            },
        }
    }

    /// The number of entries collected so far.
    pub fn len(&self) -> (count: usize)
        ensures
            count == self@.len(),
    {
        self.entries.len()
    }

    /// Hands the collection over.
    pub fn into_entries(self) -> (entries: Vec<DesktopEntry>)
        ensures
            entry_views(entries@) == self@,
            entries@.len() == self@.len(),
            forall|i: int| 0 <= i < entries@.len() ==> (#[trigger] entries@[i])@ == self@[i],
            forall|i: int| 0 <= i < entries@.len() ==> (#[trigger] entries@[i])@.well_formed(),
    {
        proof {
            use_type_invariant(&self);
            assert forall|i: int| 0 <= i < self.entries@.len() implies (
            #[trigger] self.entries@[i])@ == self@[i] && self.entries@[i]@.well_formed() by {
                assert(entry_views(self.entries@)[i] == self.entries@[i]@);
            }
        }
        self.entries
    }
}

/// The texts of files as read.
pub open spec fn file_texts(files: Seq<Option<String>>) -> Seq<Option<Seq<char>>> {
    files.map_values(|content: Option<String>| optional_text(content))
}

/// Runs a whole pass over files already read: `files` holds, for each
/// shortcut file in scan order, its text or `None`.
pub fn index_files(files: &[Option<String>]) -> (entries: Vec<DesktopEntry>)
    ensures
        entry_views(entries@) == indexed(file_texts(files@)),
        entries@.len() == indexed(file_texts(files@)).len(),
        forall|i: int|
            0 <= i < entries@.len() ==> (#[trigger] entries@[i])@ == indexed(
                file_texts(files@),
            )[i],
        forall|i: int| 0 <= i < entries@.len() ==> (#[trigger] entries@[i])@.well_formed(),
{
    let mut index = Index::new();
    for i in 0..files.len()
        invariant
            index@ == indexed(file_texts(files@).take(i as int)),
    {
        proof {
            let contribution = |content: Option<Seq<char>>| file_entries(content);
            file_texts(files@).take(i as int).lemma_flat_map_push(
                contribution,
                file_texts(files@)[i as int],
            );
            assert(file_texts(files@).take(i + 1) == file_texts(files@).take(i as int).push(
                file_texts(files@)[i as int],
            ));
        }
        match &files[i] {
            Some(text) => index.add_file(Some(text.as_str())),
            None => index.add_file(None),
        }
    }
    proof {
        assert(file_texts(files@).take(files@.len() as int) == file_texts(files@));
    }
    index.into_entries()
}

/// A pass over files in turn collects what a pass over the first files
/// collects, followed by what a pass over the further files collects.
pub proof fn lemma_indexed_in_turn(first: Seq<Option<Seq<char>>>, further: Seq<Option<Seq<char>>>)
    ensures
        indexed(first + further) == indexed(first) + indexed(further),
{
    let contribution = |content: Option<Seq<char>>| file_entries(content);
    assert((first + further).map_values(contribution) == first.map_values(contribution)
        + further.map_values(contribution));
    lemma_flatten_concat(first.map_values(contribution), further.map_values(contribution));
}

} // verus!
