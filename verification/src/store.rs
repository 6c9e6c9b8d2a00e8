//! The descriptor texts that have been read, kept by path.

use crate::path::{DescriptorPath, PathView};
use vstd::prelude::*;

verus! {

/// The texts of the descriptors that have been read so far, each under the
/// path it was read from. Reading files is the caller's part; resolution
/// looks texts up here and reports the first one it lacks.
#[derive(Debug)]
pub struct DescriptorStore {
    entries: Vec<(DescriptorPath, String)>,
}

/// A descriptor that resolution needs has not been read.
#[derive(Debug)]
pub struct MissingDescriptor {
    pub path: DescriptorPath,
}

/// The map that a list of entries stands for: a later entry replaces an
/// earlier one with the same path.
pub closed spec fn contents(entries: Seq<(DescriptorPath, String)>) -> Map<PathView, Seq<char>>
    decreases entries.len(),
{
    if entries.len() == 0 {
        Map::empty()
    } else {
        contents(entries.drop_last()).insert(entries.last().0@, entries.last().1@)
    }
}

impl View for DescriptorStore {
    type V = Map<PathView, Seq<char>>;

    closed spec fn view(&self) -> Map<PathView, Seq<char>> {
        contents(self.entries@)
    }
}

impl DescriptorStore {
    /// A store that holds nothing.
    pub fn new() -> (store: DescriptorStore)
        ensures
            store@ == Map::<PathView, Seq<char>>::empty(),
    {
        DescriptorStore { entries: Vec::new() }
    }

    /// Keeps `text` as the text of the descriptor at `path`, in place of any
    /// text kept for that path before.
    pub fn insert(&mut self, path: DescriptorPath, text: String)
        ensures
            final(self)@ == old(self)@.insert(path@, text@),
    {
        self.entries.push((path, text));
        assert(self.entries@.drop_last() =~= old(self).entries@);
    }

    /// The text kept for the descriptor at `path`, if there is one.
    pub fn get(&self, path: &DescriptorPath) -> (text: Option<&str>)
        ensures
            match text {
                Some(t) => self@.contains_key(path@) && t@ == self@[path@],
                None => !self@.contains_key(path@),
            },
    {
        let mut i: usize = self.entries.len();
        assert(self.entries@.take(i as int) =~= self.entries@);
        while i > 0
            invariant
                i <= self.entries.len(),
                self@.contains_key(path@) <==> contents(self.entries@.take(i as int)).contains_key(
                    path@,
                ),
                self@.contains_key(path@) ==> self@[path@] == contents(
                    self.entries@.take(i as int),
                )[path@],
            decreases i,
        {
            assert(self.entries@.take(i as int).drop_last() =~= self.entries@.take(i - 1));
            i -= 1;
            if self.entries[i].0.same_as(path) {
                return Some(self.entries[i].1.as_str());
            }
        }
        None
    }

    /// Whether a text is kept for the descriptor at `path`.
    pub fn contains(&self, path: &DescriptorPath) -> (present: bool)
        ensures
            present == self@.contains_key(path@),
    {
        self.get(path).is_some()
    }
}

} // verus!
