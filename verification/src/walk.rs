//! The walk through a directory tree, as a machine that decides and never
//! reads a disk.
//!
//! A [`Walker`] keeps the entries that are still to be looked at. Its owner
//! asks for the next [`Step`], does what the step says (lists a directory,
//! handles a file) and hands a directory's listing back. Entries come out
//! depth first and in listing order: the content of a directory is walked
//! before the entry that follows the directory in its own listing.

use vstd::prelude::*;

use crate::doc::{is_doc_file, is_doc_name};

verus! {

/// One entry of a directory listing: what the walk reads of it, and `item`,
/// which the walk only carries (a path, a handle).
pub struct Entry<T> {
    /// The last component of the entry's path.
    pub name: String,
    /// The path leads to a directory.
    pub is_dir: bool,
    /// The path is a symbolic link.
    pub is_symlink: bool,
    /// What the owner needs to find the entry again.
    pub item: T,
}

impl<T> Entry<T> {
    /// The walk takes the entry up: it is no symbolic link, and it is a
    /// directory or a file with the name of a documentation file.
    pub open spec fn wanted(self) -> bool {
        !self.is_symlink && (self.is_dir || is_doc_name(self.name@))
    }

    /// Tells whether the walk takes this entry up.
    pub fn is_wanted(&self) -> (yes: bool)
        ensures
            yes == self.wanted(),
    {
        !self.is_symlink && (self.is_dir || is_doc_file(self.name.as_str()))
    }
}

/// The entries of `listing` that the walk takes up, in listing order.
pub open spec fn wanted_of<T>(listing: Seq<Entry<T>>) -> Seq<Entry<T>> {
    listing.filter(|entry: Entry<T>| entry.wanted())
}

/// What the owner of a walker does next.
pub enum Step<T> {
    /// List this directory and hand the listing to `push_listing`.
    ReadDir(T),
    /// Handle this documentation file.
    Visit(T),
    /// Nothing is left.
    Done,
}

/// The step that an entry at the head of the queue calls for.
pub open spec fn step_of<T>(entry: Entry<T>) -> Step<T> {
    if entry.is_dir {
        Step::ReadDir(entry.item)
    } else {
        Step::Visit(entry.item)
    }
}

/// The entries that a walk has still to look at.
pub struct Walker<T> {
    /// The entry to look at next is the last one.
    pending: Vec<Entry<T>>,
}

impl<T> Walker<T> {
    /// The entries still to be looked at, the next one first.
    pub closed spec fn queue(&self) -> Seq<Entry<T>> {
        self.pending@.reverse()
    }

    /// Only entries that the walk takes up are waiting.
    pub open spec fn wf(&self) -> bool {
        forall|i: int| 0 <= i < self.queue().len() ==> (#[trigger] self.queue()[i]).wanted()
    }

    /// A walk that starts at `root`. Where `root` is no directory there is
    /// nothing to walk. Whether `root` itself is a symbolic link is not asked.
    pub fn new(root: T, is_dir: bool) -> (walker: Walker<T>)
        ensures
            walker.wf(),
            is_dir ==> {
                &&& walker.queue().len() == 1
                &&& walker.queue()[0].item == root
                &&& walker.queue()[0].is_dir
                &&& !walker.queue()[0].is_symlink
            },
            !is_dir ==> walker.queue().len() == 0,
    {
        let mut pending: Vec<Entry<T>> = Vec::new();
        if is_dir {
            pending.push(Entry { name: String::new(), is_dir: true, is_symlink: false, item: root });
        }
        Walker { pending }
    }

    /// Takes the next entry off the queue and says what to do with it.
    ///
    /// A step never names a symbolic link: `ReadDir` names a directory, and
    /// `Visit` a file with the name of a documentation file.
    pub fn next_step(&mut self) -> (step: Step<T>)
        requires
            old(self).wf(),
        ensures
            final(self).wf(),
            old(self).queue().len() == 0 ==> step == Step::<T>::Done && final(self).queue()
                == old(self).queue(),
            old(self).queue().len() > 0 ==> {
                let head = old(self).queue()[0];
                &&& step == step_of(head)
                &&& final(self).queue() == old(self).queue().drop_first()
                &&& !head.is_symlink
                &&& !head.is_dir ==> is_doc_name(head.name@)
            },
    {
        let ghost before = self.queue();
        match self.pending.pop() {
            None => Step::Done,
            Some(entry) => {
                proof {
                    assert(entry == before[0]);
                    assert(before[0].wanted());
                    assert(self.queue() =~= before.drop_first());
                    assert forall|i: int| 0 <= i < self.queue().len() implies (
                    #[trigger] self.queue()[i]).wanted() by {
                        assert(self.queue()[i] == before[i + 1]);
                    }
                }
                if entry.is_dir {
                    Step::ReadDir(entry.item)
                } else {
                    Step::Visit(entry.item)
                }
            },
        }
    }

    /// Puts the entries of a directory that was just listed at the head of
    /// the queue, in listing order, leaving out those that the walk does not
    /// take up: symbolic links, and files that are no documentation.
    pub fn push_listing(&mut self, listing: Vec<Entry<T>>)
        requires
            old(self).wf(),
        ensures
            final(self).wf(),
            final(self).queue() == wanted_of(listing@) + old(self).queue(),
    {
        let ghost all = listing@;
        let ghost before = self.queue();
        let mut rest = listing;
        proof {
            assert(all.subrange(all.len() as int, all.len() as int) =~= Seq::empty());
            assert(self.queue() =~= wanted_of(Seq::<Entry<T>>::empty()) + before);
        }
        while rest.len() > 0
            invariant
                rest@ == all.subrange(0, rest.len() as int),
                rest.len() <= all.len(),
                self.wf(),
                self.queue() == wanted_of(all.subrange(rest.len() as int, all.len() as int))
                    + before,
            decreases rest.len(),
        {
            let ghost n = rest.len() as int;
            let ghost queue = self.queue();
            let entry = rest.pop().unwrap();
            let ghost done = all.subrange(n, all.len() as int);
            proof {
                assert(entry == all[n - 1]);
                assert(all.subrange(n - 1, all.len() as int) =~= seq![entry] + done);
                done.lemma_filter_prepend(entry, |entry: Entry<T>| entry.wanted());
            }
            if entry.is_wanted() {
                self.pending.push(entry);
                proof {
                    assert(self.queue() =~= seq![entry] + queue);
                    assert(self.queue() =~= wanted_of(all.subrange(n - 1, all.len() as int))
                        + before);
                    assert forall|i: int| 0 <= i < self.queue().len() implies (
                    #[trigger] self.queue()[i]).wanted() by {
                        if i > 0 {
                            assert(self.queue()[i] == queue[i - 1]);
                        }
                    }
                }
            }
        }
        proof {
            assert(all.subrange(0, all.len() as int) =~= all);
        }
    }
}

} // verus!
