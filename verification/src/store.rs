//! An in-memory object store: the compressed bytes of each object, keyed by
//! its 40-character hexadecimal hash. Callers that keep objects on disk read
//! the files into a store and hand it to the codecs; looking a hash up here
//! stands for opening the object's file, and a missing hash is a read failure.

use vstd::prelude::*;

verus! {

/// One stored object: its hash and its compressed file bytes.
#[derive(Clone, Debug, PartialEq)]
pub struct GitStoreEntry {
    pub hash: String,
    pub data: Vec<u8>,
}

pub ghost struct StoreEntryView {
    pub hash: Seq<char>,
    pub data: Seq<u8>,
}

impl View for GitStoreEntry {
    type V = StoreEntryView;

    open spec fn view(&self) -> StoreEntryView {
        StoreEntryView { hash: self.hash@, data: self.data@ }
    }
}

impl DeepView for GitStoreEntry {
    type V = StoreEntryView;

    open spec fn deep_view(&self) -> StoreEntryView {
        self.view()
    }
}

/// The bytes stored under `h`: the first entry with that hash wins.
pub open spec fn store_lookup(s: Seq<StoreEntryView>, h: Seq<char>) -> Option<Seq<u8>>
    decreases s.len(),
{
    if s.len() == 0 {
        None
    } else if s[0].hash == h {
        Some(s[0].data)
    } else {
        store_lookup(s.drop_first(), h)
    }
}

/// A collection of compressed object files, keyed by object hash.
#[derive(Clone, Debug, PartialEq)]
pub struct GitObjectStore {
    pub objects: Vec<GitStoreEntry>,
}

impl View for GitObjectStore {
    type V = Seq<StoreEntryView>;

    open spec fn view(&self) -> Seq<StoreEntryView> {
        self.objects.deep_view()
    }
}

impl GitObjectStore {
    pub fn new() -> (r: GitObjectStore)
        ensures
            r@ == Seq::<StoreEntryView>::empty(),
    {
        let r = GitObjectStore { objects: Vec::new() };
        proof {
            assert(r@ =~= Seq::<StoreEntryView>::empty());
        }
        r
    }

    /// Record the compressed bytes of one object under its hash.
    pub fn add_object(&mut self, hash: String, data: Vec<u8>)
        ensures
            final(self)@ == old(self)@.push(StoreEntryView { hash: hash@, data: data@ }),
    {
        let ghost old_view = self@;
        let ghost entry_view = StoreEntryView { hash: hash@, data: data@ };
        self.objects.push(GitStoreEntry { hash, data });
        proof {
            assert(self@ =~= old_view.push(entry_view));
        }
    }

    /// The compressed bytes stored under `hash`, if any.
    pub fn get_object(&self, hash: &str) -> (r: Option<&Vec<u8>>)
        ensures
            match r {
                Some(d) => store_lookup(self@, hash@) == Some(d@),
                None => store_lookup(self@, hash@) is None,
            },
    {
        let mut i: usize = 0;
        proof {
            assert(self@.skip(0) =~= self@);
        }
        while i < self.objects.len()
            invariant
                0 <= i <= self.objects.len(),
                store_lookup(self@, hash@) == store_lookup(self@.skip(i as int), hash@),
            decreases self.objects.len() - i,
        {
            proof {
                assert(self@.skip(i as int).drop_first() =~= self@.skip(i + 1));
            }
            if crate::text::str_eq(self.objects[i].hash.as_str(), hash) {
                return Some(&self.objects[i].data);
            }
            i += 1;
        }
        proof {
            assert(self@.skip(i as int).len() == 0);
        }
        None
    }
}

impl Default for GitObjectStore {
    fn default() -> (r: GitObjectStore)
        ensures
            r@ == Seq::<StoreEntryView>::empty(),
    {
        GitObjectStore::new()
    }
}

} // verus!
