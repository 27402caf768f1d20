//! What a walk visits, stated over a whole directory tree, and the proof that
//! the walker's steps visit exactly that.

use vstd::prelude::*;

use crate::doc::is_doc_name;
use crate::walk::{step_of, wanted_of, Entry, Step};

verus! {

/// A directory tree as a walk meets it: an entry and, where the entry is a
/// directory, the trees of its listing in listing order.
pub struct Tree<T> {
    /// The entry at the root.
    pub entry: Entry<T>,
    /// What a listing of the root holds.
    pub children: Seq<Tree<T>>,
}

/// The trees of `trees` whose root the walk takes up, in order.
pub open spec fn wanted_trees<T>(trees: Seq<Tree<T>>) -> Seq<Tree<T>> {
    trees.filter(|tree: Tree<T>| tree.entry.wanted())
}

/// The files that a walk of `tree` is to visit, in order: none behind a
/// symbolic link, every documentation file of a directory and of the
/// directories below it, and nothing else.
pub open spec fn visits<T>(tree: Tree<T>) -> Seq<T>
    decreases tree,
{
    if tree.entry.is_symlink {
        Seq::empty()
    } else if tree.entry.is_dir {
        visits_in(tree.children)
    } else if is_doc_name(tree.entry.name@) {
        seq![tree.entry.item]
    } else {
        Seq::empty()
    }
}

/// The files that a walk of the trees of a listing is to visit: those of the
/// first tree, then those of the second, and so on.
pub open spec fn visits_in<T>(trees: Seq<Tree<T>>) -> Seq<T>
    decreases trees,
{
    if trees.len() == 0 {
        Seq::empty()
    } else {
        visits(trees[0]) + visits_in(trees.drop_first())
    }
}

/// The number of entries in `tree`.
pub open spec fn size<T>(tree: Tree<T>) -> nat
    decreases tree,
{
    1 + size_in(tree.children)
}

/// The number of entries in all of `trees`.
pub open spec fn size_in<T>(trees: Seq<Tree<T>>) -> nat
    decreases trees,
{
    if trees.len() == 0 {
        0
    } else {
        size(trees[0]) + size_in(trees.drop_first())
    }
}

/// Every tree of `trees` has a root that the walk takes up.
pub open spec fn all_wanted<T>(trees: Seq<Tree<T>>) -> bool {
    forall|i: int| 0 <= i < trees.len() ==> (#[trigger] trees[i]).entry.wanted()
}

/// The entries at the roots of `trees`: the listing that shows them.
pub open spec fn roots<T>(trees: Seq<Tree<T>>) -> Seq<Entry<T>> {
    trees.map_values(|tree: Tree<T>| tree.entry)
}

/// The files that the steps of a walker visit, one step after the other until
/// nothing is left, where its queue holds the roots of `queue` and every
/// directory that it asks for is listed as the tree says.
///
/// `step_of` says what the walker asks for at the entry at the head of its
/// queue. For a directory it is handed the roots of that tree's children, and
/// goes on with those that it takes up and then with the rest of the queue
/// (`lemma_queue_after_listing`). For a file it goes on with the rest.
pub open spec fn run<T>(queue: Seq<Tree<T>>) -> Seq<T>
    decreases size_in(queue),
    via run_ends::<T>
{
    if queue.len() == 0 {
        Seq::empty()
    } else {
        match step_of(queue[0].entry) {
            Step::ReadDir(_) => run(wanted_trees(queue[0].children) + queue.drop_first()),
            Step::Visit(item) => seq![item] + run(queue.drop_first()),
            Step::Done => Seq::empty(),
        }
    }
}

#[via_fn]
proof fn run_ends<T>(queue: Seq<Tree<T>>) {
    if queue.len() > 0 {
        lemma_size_in_wanted(queue[0].children);
        lemma_size_in_add(wanted_trees(queue[0].children), queue.drop_first());
        assert(size(queue[0]) == 1 + size_in(queue[0].children));
        assert(size_in(queue) == size(queue[0]) + size_in(queue.drop_first()));
    }
}

/// A listing of one tree has the entries of that tree, and a walk of it visits
/// what a walk of that tree visits.
pub proof fn lemma_one_tree<T>(tree: Tree<T>)
    ensures
        size_in(seq![tree]) == size(tree),
        visits_in(seq![tree]) == visits(tree),
{
    let one = seq![tree];
    assert(one.drop_first() =~= Seq::<Tree<T>>::empty());
    assert(size_in(one) == size(one[0]) + size_in(one.drop_first()));
    assert(visits_in(one) == visits(one[0]) + visits_in(one.drop_first()));
    assert(visits(tree) + Seq::<T>::empty() =~= visits(tree));
}

/// The roots of the trees that the walk takes up are the entries that it
/// takes up of the listing that shows the trees.
pub proof fn lemma_roots_of_wanted<T>(trees: Seq<Tree<T>>)
    ensures
        roots(wanted_trees(trees)) == wanted_of(roots(trees)),
    decreases trees.len(),
{
    if trees.len() == 0 {
        assert(roots(wanted_trees(trees)) =~= wanted_of(roots(trees)));
    } else {
        let rest = trees.drop_first();
        assert(trees =~= seq![trees[0]] + rest);
        assert(roots(trees) =~= seq![trees[0].entry] + roots(rest));
        rest.lemma_filter_prepend(trees[0], |tree: Tree<T>| tree.entry.wanted());
        roots(rest).lemma_filter_prepend(trees[0].entry, |entry: Entry<T>| entry.wanted());
        lemma_roots_of_wanted(rest);
        if trees[0].entry.wanted() {
            assert(roots(seq![trees[0]] + wanted_trees(rest)) =~= seq![trees[0].entry] + roots(
                wanted_trees(rest),
            ));
        } else {
            assert(Seq::<Tree<T>>::empty() + wanted_trees(rest) =~= wanted_trees(rest));
            assert(Seq::<Entry<T>>::empty() + wanted_of(roots(rest)) =~= wanted_of(roots(rest)));
        }
    }
}

/// After a walker whose queue shows `queue` has taken the directory at the
/// head off its queue and has been handed the listing of that directory, its
/// queue shows the trees that `run` goes on with.
pub proof fn lemma_queue_after_listing<T>(queue: Seq<Tree<T>>)
    requires
        queue.len() > 0,
    ensures
        roots(wanted_trees(queue[0].children) + queue.drop_first()) == wanted_of(
            roots(queue[0].children),
        ) + roots(queue).drop_first(),
        roots(queue.drop_first()) == roots(queue).drop_first(),
{
    let below = wanted_trees(queue[0].children);
    let rest = queue.drop_first();
    lemma_roots_of_wanted(queue[0].children);
    assert(roots(rest) =~= roots(queue).drop_first());
    assert(roots(below + rest) =~= roots(below) + roots(rest));
}

/// The entries of two listings, one after the other, are as many as those of
/// the first and those of the second together.
pub proof fn lemma_size_in_add<T>(front: Seq<Tree<T>>, back: Seq<Tree<T>>)
    ensures
        size_in(front + back) == size_in(front) + size_in(back),
    decreases front.len(),
{
    if front.len() == 0 {
        assert(front + back =~= back);
    } else {
        assert((front + back).drop_first() =~= front.drop_first() + back);
        lemma_size_in_add(front.drop_first(), back);
    }
}

/// Leaving trees out of a listing adds no entries.
pub proof fn lemma_size_in_wanted<T>(trees: Seq<Tree<T>>)
    ensures
        size_in(wanted_trees(trees)) <= size_in(trees),
    decreases trees.len(),
{
    if trees.len() > 0 {
        let rest = trees.drop_first();
        assert(trees =~= seq![trees[0]] + rest);
        rest.lemma_filter_prepend(trees[0], |tree: Tree<T>| tree.entry.wanted());
        lemma_size_in_wanted(rest);
        if trees[0].entry.wanted() {
            lemma_size_in_add(seq![trees[0]], wanted_trees(rest));
            lemma_one_tree(trees[0]);
        } else {
            assert(Seq::<Tree<T>>::empty() + wanted_trees(rest) =~= wanted_trees(rest));
        }
    }
}

/// A walk of two listings, one after the other, visits what a walk of the
/// first visits and then what a walk of the second visits.
pub proof fn lemma_visits_in_add<T>(front: Seq<Tree<T>>, back: Seq<Tree<T>>)
    ensures
        visits_in(front + back) == visits_in(front) + visits_in(back),
    decreases front.len(),
{
    if front.len() == 0 {
        assert(front + back =~= back);
        assert(visits_in(front) + visits_in(back) =~= visits_in(back));
    } else {
        assert((front + back).drop_first() =~= front.drop_first() + back);
        lemma_visits_in_add(front.drop_first(), back);
        assert(visits(front[0]) + (visits_in(front.drop_first()) + visits_in(back)) =~= (visits(
            front[0],
        ) + visits_in(front.drop_first())) + visits_in(back));
    }
}

/// The trees that the walk does not take up hold nothing to visit.
pub proof fn lemma_visits_in_wanted<T>(trees: Seq<Tree<T>>)
    ensures
        visits_in(wanted_trees(trees)) == visits_in(trees),
    decreases trees.len(),
{
    if trees.len() > 0 {
        let rest = trees.drop_first();
        assert(trees =~= seq![trees[0]] + rest);
        rest.lemma_filter_prepend(trees[0], |tree: Tree<T>| tree.entry.wanted());
        lemma_visits_in_wanted(rest);
        if trees[0].entry.wanted() {
            lemma_visits_in_add(seq![trees[0]], wanted_trees(rest));
            lemma_one_tree(trees[0]);
        } else {
            assert(Seq::<Tree<T>>::empty() + wanted_trees(rest) =~= wanted_trees(rest));
            assert(visits(trees[0]) + visits_in(rest) =~= visits_in(rest));
        }
    }
}

/// The walker's steps visit exactly the files that a walk is to visit, in the
/// same order, and then come to an end.
pub proof fn lemma_run_visits<T>(queue: Seq<Tree<T>>)
    requires
        all_wanted(queue),
    ensures
        run(queue) == visits_in(queue),
    decreases size_in(queue),
{
    if queue.len() > 0 {
        let head = queue[0];
        let rest = queue.drop_first();
        assert(head.entry.wanted());
        assert forall|i: int| 0 <= i < rest.len() implies (#[trigger] rest[i]).entry.wanted() by {
            assert(rest[i] == queue[i + 1]);
        }
        assert(size(head) == 1 + size_in(head.children));
        assert(size_in(queue) == size(head) + size_in(rest));
        if head.entry.is_dir {
            let below = wanted_trees(head.children);
            let next = below + rest;
            lemma_size_in_wanted(head.children);
            lemma_size_in_add(below, rest);
            assert forall|i: int| 0 <= i < next.len() implies (#[trigger] next[i]).entry.wanted() by {
                if i < below.len() {
                    head.children.lemma_filter_pred(|tree: Tree<T>| tree.entry.wanted(), i);
                } else {
                    assert(next[i] == rest[i - below.len()]);
                }
            }
            lemma_run_visits(next);
            lemma_visits_in_add(below, rest);
            lemma_visits_in_wanted(head.children);
            assert(run(queue) == run(next));
            assert(visits(head) == visits_in(head.children));
        } else {
            lemma_run_visits(rest);
            assert(run(queue) == seq![head.entry.item] + run(rest));
            assert(visits(head) == seq![head.entry.item]);
        }
        assert(visits_in(queue) == visits(head) + visits_in(rest));
    }
}

/// The tree that `path` leads to from the root of `tree`. Each number of a
/// path is the place of an entry in the listing of the directory reached so
/// far, counted from 0.
pub open spec fn node_at<T>(tree: Tree<T>, path: Seq<int>) -> Tree<T>
    decreases path.len(),
{
    if path.len() == 0 {
        tree
    } else {
        node_at(tree.children[path[0]], path.drop_first())
    }
}

/// `path` leads from the root of `tree` to a documentation file, through
/// directories only, and neither the file nor any entry on the way to it,
/// the root included, is a symbolic link.
pub open spec fn reaches_doc<T>(tree: Tree<T>, path: Seq<int>) -> bool
    decreases path.len(),
{
    if tree.entry.is_symlink {
        false
    } else if path.len() == 0 {
        !tree.entry.is_dir && is_doc_name(tree.entry.name@)
    } else {
        &&& tree.entry.is_dir
        &&& 0 <= path[0] < tree.children.len()
        &&& reaches_doc(tree.children[path[0]], path.drop_first())
    }
}

/// `path` leads into the tree at place `path[0] - at` of `trees` and from
/// its root to a documentation file, as `reaches_doc` says.
pub open spec fn reaches_doc_in<T>(trees: Seq<Tree<T>>, at: int, path: Seq<int>) -> bool {
    &&& path.len() > 0
    &&& at <= path[0] < at + trees.len()
    &&& reaches_doc(trees[path[0] - at], path.drop_first())
}

/// Each path of `paths` with `at` put before it.
pub open spec fn under(at: int, paths: Seq<Seq<int>>) -> Seq<Seq<int>> {
    Seq::new(paths.len(), |i: int| seq![at] + paths[i])
}

/// The paths to the files that a walk of `tree` is to visit, in the order of
/// the visits.
pub open spec fn visit_paths<T>(tree: Tree<T>) -> Seq<Seq<int>>
    decreases tree,
{
    if tree.entry.is_symlink {
        Seq::empty()
    } else if tree.entry.is_dir {
        visit_paths_in(tree.children, 0)
    } else if is_doc_name(tree.entry.name@) {
        seq![Seq::empty()]
    } else {
        Seq::empty()
    }
}

/// The paths to the files that a walk of the trees of a listing is to visit.
/// The first tree of `trees` stands at place `at` of its listing.
pub open spec fn visit_paths_in<T>(trees: Seq<Tree<T>>, at: int) -> Seq<Seq<int>>
    decreases trees,
{
    if trees.len() == 0 {
        Seq::empty()
    } else {
        under(at, visit_paths(trees[0])) + visit_paths_in(trees.drop_first(), at + 1)
    }
}

/// What the entries at the ends of `paths` carry.
pub open spec fn items_at<T>(tree: Tree<T>, paths: Seq<Seq<int>>) -> Seq<T> {
    Seq::new(paths.len(), |i: int| node_at(tree, paths[i]).entry.item)
}

/// What the entries at the ends of `paths` carry, for paths into a listing
/// whose first tree stands at place `at`.
pub open spec fn items_in<T>(trees: Seq<Tree<T>>, at: int, paths: Seq<Seq<int>>) -> Seq<T> {
    Seq::new(
        paths.len(),
        |i: int| node_at(trees[paths[i][0] - at], paths[i].drop_first()).entry.item,
    )
}

proof fn lemma_under_contains(at: int, paths: Seq<Seq<int>>, path: Seq<int>)
    ensures
        under(at, paths).contains(path) <==> path.len() > 0 && path[0] == at && paths.contains(
            path.drop_first(),
        ),
{
    let all = under(at, paths);
    if all.contains(path) {
        let i = choose|i: int| 0 <= i < all.len() && all[i] == path;
        assert(path.drop_first() =~= paths[i]);
    }
    if path.len() > 0 && path[0] == at && paths.contains(path.drop_first()) {
        let i = choose|i: int| 0 <= i < paths.len() && paths[i] == path.drop_first();
        assert(all[i] =~= path);
    }
}

proof fn lemma_add_contains<A>(front: Seq<A>, back: Seq<A>, item: A)
    ensures
        (front + back).contains(item) <==> front.contains(item) || back.contains(item),
{
    let all = front + back;
    if all.contains(item) {
        let i = choose|i: int| 0 <= i < all.len() && all[i] == item;
        if i < front.len() {
            assert(front[i] == item);
        } else {
            assert(back[i - front.len()] == item);
        }
    }
    if front.contains(item) {
        let i = choose|i: int| 0 <= i < front.len() && front[i] == item;
        assert(all[i] == item);
    }
    if back.contains(item) {
        let i = choose|i: int| 0 <= i < back.len() && back[i] == item;
        assert(all[front.len() + i] == item);
    }
}

/// A walk is to visit the file at the end of a path if and only if the path
/// leads to a documentation file and meets no symbolic link.
pub proof fn lemma_paths_reach<T>(tree: Tree<T>, path: Seq<int>)
    ensures
        visit_paths(tree).contains(path) <==> reaches_doc(tree, path),
    decreases tree,
{
    if tree.entry.is_symlink {
    } else if tree.entry.is_dir {
        lemma_paths_reach_in(tree.children, 0, path);
    } else if is_doc_name(tree.entry.name@) {
        let only = seq![Seq::<int>::empty()];
        if path.len() == 0 {
            assert(only[0] =~= path);
        }
    }
}

/// The same for the trees of a listing.
pub proof fn lemma_paths_reach_in<T>(trees: Seq<Tree<T>>, at: int, path: Seq<int>)
    ensures
        visit_paths_in(trees, at).contains(path) <==> reaches_doc_in(trees, at, path),
    decreases trees,
{
    if trees.len() > 0 {
        let first = under(at, visit_paths(trees[0]));
        let rest = visit_paths_in(trees.drop_first(), at + 1);
        lemma_paths_reach(trees[0], path.drop_first());
        lemma_paths_reach_in(trees.drop_first(), at + 1, path);
        lemma_under_contains(at, visit_paths(trees[0]), path);
        lemma_add_contains(first, rest, path);
        if path.len() > 0 && at + 1 <= path[0] < at + trees.len() {
            assert(trees.drop_first()[path[0] - (at + 1)] == trees[path[0] - at]);
        }
    }
}

/// No file is to be visited twice.
pub proof fn lemma_paths_differ<T>(tree: Tree<T>)
    ensures
        visit_paths(tree).no_duplicates(),
    decreases tree,
{
    if !tree.entry.is_symlink && tree.entry.is_dir {
        lemma_paths_differ_in(tree.children, 0);
    }
}

/// The same for the trees of a listing.
pub proof fn lemma_paths_differ_in<T>(trees: Seq<Tree<T>>, at: int)
    ensures
        visit_paths_in(trees, at).no_duplicates(),
    decreases trees,
{
    if trees.len() > 0 {
        let below = visit_paths(trees[0]);
        let first = under(at, below);
        let rest = visit_paths_in(trees.drop_first(), at + 1);
        lemma_paths_differ(trees[0]);
        lemma_paths_differ_in(trees.drop_first(), at + 1);
        assert forall|i: int, j: int|
            0 <= i < first.len() && 0 <= j < first.len() && i != j implies first[i] != first[j] by {
            if first[i] == first[j] {
                assert(first[i].drop_first() =~= below[i]);
                assert(first[j].drop_first() =~= below[j]);
            }
        }
        assert forall|i: int, j: int| 0 <= i < first.len() && 0 <= j < rest.len() implies first[i]
            != rest[j] by {
            lemma_paths_reach_in(trees.drop_first(), at + 1, rest[j]);
            assert(first[i][0] == at);
        }
        vstd::seq_lib::lemma_no_dup_in_concat(first, rest);
    }
}

/// What a walk of `tree` visits is what stands at the ends of its paths.
pub proof fn lemma_visits_by_path<T>(tree: Tree<T>)
    ensures
        visits(tree) == items_at(tree, visit_paths(tree)),
    decreases tree,
{
    let paths = visit_paths(tree);
    if tree.entry.is_symlink {
        assert(visits(tree) =~= items_at(tree, paths));
    } else if tree.entry.is_dir {
        lemma_visits_by_path_in(tree.children, 0);
        assert forall|i: int| 0 <= i < paths.len() implies #[trigger] items_at(tree, paths)[i]
            == items_in(tree.children, 0, paths)[i] by {
            lemma_paths_reach_in(tree.children, 0, paths[i]);
        }
        assert(visits(tree) =~= items_at(tree, paths));
    } else if is_doc_name(tree.entry.name@) {
        assert(visits(tree) =~= items_at(tree, paths));
    } else {
        assert(visits(tree) =~= items_at(tree, paths));
    }
}

/// The same for the trees of a listing.
pub proof fn lemma_visits_by_path_in<T>(trees: Seq<Tree<T>>, at: int)
    ensures
        visits_in(trees) == items_in(trees, at, visit_paths_in(trees, at)),
    decreases trees,
{
    let paths = visit_paths_in(trees, at);
    if trees.len() == 0 {
        assert(visits_in(trees) =~= items_in(trees, at, paths));
    } else {
        let below = visit_paths(trees[0]);
        let first = under(at, below);
        let later = trees.drop_first();
        let rest = visit_paths_in(later, at + 1);
        lemma_visits_by_path(trees[0]);
        lemma_visits_by_path_in(later, at + 1);
        let found = items_in(trees, at, paths);
        let split = items_at(trees[0], below) + items_in(later, at + 1, rest);
        assert(found.len() == split.len());
        assert forall|i: int| 0 <= i < found.len() implies found[i] == split[i] by {
            if i < first.len() {
                assert(paths[i] == first[i]);
                assert(paths[i].drop_first() =~= below[i]);
            } else {
                let j = i - first.len();
                assert(paths[i] == rest[j]);
                lemma_paths_reach_in(later, at + 1, rest[j]);
                assert(later[rest[j][0] - (at + 1)] == trees[rest[j][0] - at]);
            }
        }
        assert(found =~= split);
    }
}

/// A walk that starts at a directory visits every documentation file of the
/// tree that no symbolic link stands before, visits it once, and visits
/// nothing else.
///
/// `visit_paths(root)` lists where the visited files stand. The steps of a
/// walker that starts with `root` in its queue visit what stands there, in
/// that order; no path is listed twice; and a path is listed if and only if
/// it leads to a documentation file through directories, with no symbolic
/// link on the way or at its end.
pub proof fn lemma_walk_visits_each_doc_once<T>(root: Tree<T>)
    requires
        root.entry.is_dir,
        !root.entry.is_symlink,
    ensures
        run(seq![root]) == items_at(root, visit_paths(root)),
        visit_paths(root).no_duplicates(),
        forall|path: Seq<int>| #[trigger]
            visit_paths(root).contains(path) <==> reaches_doc(root, path),
{
    lemma_run_visits(seq![root]);
    lemma_one_tree(root);
    lemma_visits_by_path(root);
    lemma_paths_differ(root);
    assert forall|path: Seq<int>| #[trigger]
        visit_paths(root).contains(path) <==> reaches_doc(root, path) by {
        lemma_paths_reach(root, path);
    }
}

/// No symbolic link is visited, and none is walked through: on the way to a
/// visited file, the file included, every entry is an ordinary one.
pub proof fn lemma_walk_meets_no_symlink<T>(root: Tree<T>, path: Seq<int>, steps: int)
    requires
        visit_paths(root).contains(path),
        0 <= steps <= path.len(),
    ensures
        !node_at(root, path.take(steps)).entry.is_symlink,
    decreases steps,
{
    lemma_paths_reach(root, path);
    if steps == 0 {
        assert(path.take(0) =~= Seq::<int>::empty());
    } else {
        let child = root.children[path[0]];
        lemma_paths_reach(child, path.drop_first());
        lemma_walk_meets_no_symlink(child, path.drop_first(), steps - 1);
        assert(path.take(steps).drop_first() =~= path.drop_first().take(steps - 1));
    }
}

} // verus!
