//! The process forest: an arena of nodes, each listing the indices of its
//! children, built from one snapshot of (pid, parent pid, name) entries.

use vstd::prelude::*;

verus! {

/// One process as the tree sees it.
#[derive(Debug)]
pub struct TreeEntry {
    pub pid: u32,
    pub ppid: u32,
    pub name: String,
}

impl TreeEntry {
    pub fn new(name: String, pid: u32, ppid: u32) -> (r: TreeEntry)
        ensures
            r == (TreeEntry { pid, ppid, name }),
    {
        TreeEntry { pid, ppid, name }
    }
}

/// Node `c` is a child of node `p`: its parent pid is `p`'s pid (a process
/// that names itself as its parent is its own child).
pub open spec fn is_child(es: Seq<TreeEntry>, p: int, c: int) -> bool {
    es[p].pid == es[c].ppid
}

/// No two entries share a pid.
pub open spec fn pids_distinct(es: Seq<TreeEntry>) -> bool {
    forall|i: int, j: int|
        0 <= i < es.len() && 0 <= j < es.len() && i != j ==> #[trigger] es[i].pid != #[trigger] es[j].pid
}

/// Node `c` is a root: no entry's pid is its parent pid.
pub open spec fn is_root(es: Seq<TreeEntry>, c: int) -> bool {
    forall|p: int| 0 <= p < es.len() ==> !#[trigger] is_child(es, p, c)
}

/// The children of `p` among the first `k` nodes, in snapshot order.
pub open spec fn child_list(es: Seq<TreeEntry>, p: int, k: int) -> Seq<usize>
    decreases k,
{
    if k <= 0 {
        Seq::empty()
    } else {
        let prev = child_list(es, p, k - 1);
        if is_child(es, p, k - 1) {
            prev.push((k - 1) as usize)
        } else {
            prev
        }
    }
}

/// The roots among the first `k` nodes, in snapshot order.
pub open spec fn root_list(es: Seq<TreeEntry>, k: int) -> Seq<usize>
    decreases k,
{
    if k <= 0 {
        Seq::empty()
    } else {
        let prev = root_list(es, k - 1);
        if is_root(es, k - 1) {
            prev.push((k - 1) as usize)
        } else {
            prev
        }
    }
}

/// The pre-order walk from node `i` at depth `depth`, as (node, depth)
/// pairs, going at most `fuel` levels deep: the node itself, then the walk
/// of each child in order.
pub open spec fn preorder(kids: Seq<Seq<usize>>, i: usize, depth: int, fuel: nat) -> Seq<(usize, usize)>
    decreases fuel, 0nat,
{
    if fuel == 0 {
        Seq::empty()
    } else {
        seq![(i, depth as usize)] + preorder_list(kids, kids[i as int], depth + 1, (fuel - 1) as nat)
    }
}

/// The pre-order walks of the nodes `cs`, one after the other.
pub open spec fn preorder_list(kids: Seq<Seq<usize>>, cs: Seq<usize>, depth: int, fuel: nat) -> Seq<
    (usize, usize),
>
    decreases fuel, cs.len(),
{
    if cs.len() == 0 {
        Seq::empty()
    } else {
        preorder_list(kids, cs.drop_last(), depth, fuel) + preorder(kids, cs.last(), depth, fuel)
    }
}

/// One line of the tree view: the node, its pid, its depth, and whether it
/// is highlighted (the node under the cursor, or a marked one).
#[derive(Clone, Copy, Debug, PartialEq, Eq, Structural)]
pub struct TreeLine {
    pub node: usize,
    pub pid: u32,
    pub depth: usize,
    pub highlighted: bool,
}

/// A parent-linked process forest over one snapshot.
pub struct ProcessTree {
    pub entries: Vec<TreeEntry>,
    pub children: Vec<Vec<usize>>,
    pub marked: Vec<bool>,
}

/// The children list of `p` holds exactly the children of `p`, each below `k`.
proof fn lemma_child_list(es: Seq<TreeEntry>, p: int, k: int)
    requires
        k <= usize::MAX,
    ensures
        forall|x: int|
            0 <= x < child_list(es, p, k).len() ==> #[trigger] child_list(es, p, k)[x] < k && is_child(
                es,
                p,
                child_list(es, p, k)[x] as int,
            ),
        forall|c: int|
            0 <= c < k && #[trigger] is_child(es, p, c) ==> child_list(es, p, k).contains(c as usize),
    decreases k,
{
    if k > 0 {
        lemma_child_list(es, p, k - 1);
        let prev = child_list(es, p, k - 1);
        let s = child_list(es, p, k);
        if is_child(es, p, k - 1) {
            assert(s == prev.push((k - 1) as usize));
            assert forall|x: int| 0 <= x < s.len() implies #[trigger] s[x] < k && is_child(
                es,
                p,
                s[x] as int,
            ) by {
                if x < prev.len() {
                    assert(s[x] == prev[x]);
                }
            }
            assert forall|c: int| 0 <= c < k && #[trigger] is_child(es, p, c) implies s.contains(
                c as usize,
            ) by {
                if c < k - 1 {
                    assert(prev.contains(c as usize));
                    let y = choose|y: int| 0 <= y < prev.len() && prev[y] == c as usize;
                    assert(s[y] == prev[y]);
                } else {
                    assert(s[prev.len() as int] == c as usize);
                }
            }
        }
    }
}

impl ProcessTree {
    /// The children lists as sequences.
    pub open spec fn kids(&self) -> Seq<Seq<usize>> {
        self.children@.map_values(|v: Vec<usize>| v@)
    }

    /// The nodes are the entries, each lists its children in snapshot order,
    /// and no two entries share a pid.
    pub open spec fn wf(&self) -> bool {
        &&& self.entries@.len() <= usize::MAX
        &&& self.children@.len() == self.entries@.len()
        &&& self.marked@.len() == self.entries@.len()
        &&& pids_distinct(self.entries@)
        &&& forall|p: int|
            0 <= p < self.entries@.len() ==> (#[trigger] self.children@[p])@ == child_list(
                self.entries@,
                p,
                self.entries@.len() as int,
            )
    }

    /// Builds the forest of a snapshot: one node per entry, unmarked, with
    /// every entry whose parent pid is its pid as a child.
    pub fn build(entries: Vec<TreeEntry>) -> (r: ProcessTree)
        requires
            pids_distinct(entries@),
        ensures
            r.wf(),
            r.entries@ == entries@,
            forall|i: int| 0 <= i < r.marked@.len() ==> !#[trigger] r.marked@[i],
    {
        let n = entries.len();
        let mut children: Vec<Vec<usize>> = Vec::new();
        let mut marked: Vec<bool> = Vec::new();
        let mut p: usize = 0;
        while p < n
            invariant
                n == entries.len(),
                p <= n,
                children@.len() == p,
                marked@.len() == p,
                forall|i: int| 0 <= i < p ==> !#[trigger] marked@[i],
                forall|q: int|
                    0 <= q < p ==> (#[trigger] children@[q])@ == child_list(entries@, q, n as int),
            decreases n - p,
        {
            let mut kids: Vec<usize> = Vec::new();
            let mut c: usize = 0;
            while c < n
                invariant
                    n == entries.len(),
                    p < n,
                    c <= n,
                    kids@ == child_list(entries@, p as int, c as int),
                decreases n - c,
            {
                if entries[p].pid == entries[c].ppid {
                    kids.push(c);
                }
                c = c + 1;
            }
            children.push(kids);
            marked.push(false);
            p = p + 1;
        }
        ProcessTree { entries, children, marked }
    }

    /// The number of nodes.
    pub fn len(&self) -> (r: usize)
        ensures
            r == self.entries@.len(),
    {
        self.entries.len()
    }

    pub fn get_pid(&self, i: usize) -> (r: u32)
        requires
            i < self.entries@.len(),
        ensures
            r == self.entries@[i as int].pid,
    {
        self.entries[i].pid
    }

    pub fn get_ppid(&self, i: usize) -> (r: u32)
        requires
            i < self.entries@.len(),
        ensures
            r == self.entries@[i as int].ppid,
    {
        self.entries[i].ppid
    }

    pub fn get_name(&self, i: usize) -> (r: &String)
        requires
            i < self.entries@.len(),
        ensures
            *r == self.entries@[i as int].name,
    {
        &self.entries[i].name
    }

    pub fn get_children(&self, i: usize) -> (r: &Vec<usize>)
        requires
            i < self.children@.len(),
        ensures
            *r == self.children@[i as int],
    {
        &self.children[i]
    }

    pub fn get_numchildren(&self, i: usize) -> (r: usize)
        requires
            i < self.children@.len(),
        ensures
            r == self.children@[i as int]@.len(),
    {
        self.children[i].len()
    }

    /// Marks or unmarks node `i` for a bulk command; nothing else changes.
    pub fn set_selected(&mut self, i: usize, val: bool)
        requires
            old(self).wf(),
            i < old(self).entries@.len(),
        ensures
            final(self).wf(),
            final(self).entries == old(self).entries,
            final(self).children == old(self).children,
            final(self).marked@ == old(self).marked@.update(i as int, val),
    {
        self.marked.set(i, val);
    }

    pub fn get_selected(&self, i: usize) -> (r: bool)
        requires
            i < self.marked@.len(),
        ensures
            r == self.marked@[i as int],
    {
        self.marked[i]
    }

    /// The first node whose parent pid is 0, the single traversal root of
    /// the classic view.
    pub fn find_root(&self) -> (r: Option<usize>)
        ensures
            match r {
                Some(i) => i < self.entries@.len() && self.entries@[i as int].ppid == 0 && forall|j: int|
                    0 <= j < i ==> #[trigger] self.entries@[j].ppid != 0,
                None => forall|j: int|
                    0 <= j < self.entries@.len() ==> #[trigger] self.entries@[j].ppid != 0,
            },
    {
        let mut i: usize = 0;
        while i < self.entries.len()
            invariant
                i <= self.entries@.len(),
                forall|j: int| 0 <= j < i ==> #[trigger] self.entries@[j].ppid != 0,
            decreases self.entries@.len() - i,
        {
            if self.entries[i].ppid == 0 {
                return Some(i);
            }
            i = i + 1;
        }
        None
    }

    /// Every root of the forest, in snapshot order.
    pub fn roots(&self) -> (r: Vec<usize>)
        ensures
            r@ == root_list(self.entries@, self.entries@.len() as int),
    {
        let n = self.entries.len();
        let mut out: Vec<usize> = Vec::new();
        let mut c: usize = 0;
        while c < n
            invariant
                n == self.entries@.len(),
                c <= n,
                out@ == root_list(self.entries@, c as int),
            decreases n - c,
        {
            let mut p: usize = 0;
            let mut found = false;
            while p < n && !found
                invariant
                    n == self.entries@.len(),
                    c < n,
                    p <= n,
                    found ==> !is_root(self.entries@, c as int),
                    !found ==> forall|q: int| 0 <= q < p ==> !#[trigger] is_child(self.entries@, q, c as int),
                decreases n - p,
            {
                if self.entries[p].pid == self.entries[c].ppid {
                    assert(is_child(self.entries@, p as int, c as int));
                    found = true;
                }
                p = p + 1;
            }
            if !found {
                out.push(c);
            }
            c = c + 1;
        }
        out
    }

    /// Appends the pre-order walk from node `i` to `out`.
    fn walk(&self, i: usize, depth: usize, fuel: usize, out: &mut Vec<(usize, usize)>)
        requires
            self.wf(),
            i < self.entries@.len(),
            depth + fuel <= usize::MAX,
        ensures
            final(out)@ == old(out)@ + preorder(self.kids(), i, depth as int, fuel as nat),
        decreases fuel,
    {
        if fuel == 0 {
            proof {
                assert(old(out)@ + preorder(self.kids(), i, depth as int, fuel as nat) =~= old(out)@);
            }
            return;
        }
        let ghost start = out@;
        out.push((i, depth));
        let cs = &self.children[i];
        let ghost kids = self.kids();
        proof {
            assert(kids[i as int] == cs@);
            lemma_child_list(self.entries@, i as int, self.entries@.len() as int);
        }
        let mut k: usize = 0;
        while k < cs.len()
            invariant
                self.wf(),
                i < self.entries@.len(),
                fuel >= 1,
                depth + fuel <= usize::MAX,
                kids == self.kids(),
                cs@ == kids[i as int],
                cs@ == child_list(self.entries@, i as int, self.entries@.len() as int),
                forall|x: int| 0 <= x < cs@.len() ==> #[trigger] cs@[x] < self.entries@.len(),
                k <= cs.len(),
                out@ == start + seq![(i, depth)] + preorder_list(
                    kids,
                    cs@.subrange(0, k as int),
                    depth + 1,
                    (fuel - 1) as nat,
                ),
            decreases cs.len() - k,
        {
            let c = cs[k];
            self.walk(c, depth + 1, fuel - 1, out);
            proof {
                let pre = cs@.subrange(0, k as int + 1);
                assert(pre.drop_last() =~= cs@.subrange(0, k as int));
                assert(pre.last() == c);
                assert(out@ =~= start + seq![(i, depth)] + preorder_list(
                    kids,
                    pre,
                    depth + 1,
                    (fuel - 1) as nat,
                ));
            }
            k = k + 1;
        }
        proof {
            assert(cs@.subrange(0, cs@.len() as int) =~= cs@);
            assert(out@ =~= old(out)@ + preorder(self.kids(), i, depth as int, fuel as nat));
        }
    }

    /// The pre-order walk of the subtree of `start`, as (node, depth) pairs
    /// with `start` at depth 0, children in snapshot order.
    pub fn flatten(&self, start: usize) -> (r: Vec<(usize, usize)>)
        requires
            self.wf(),
            start < self.entries@.len(),
        ensures
            r@ == preorder(self.kids(), start, 0, self.entries@.len() as nat),
            forall|k: int| 0 <= k < r@.len() ==> (#[trigger] r@[k]).0 < self.entries@.len(),
    {
        let mut out: Vec<(usize, usize)> = Vec::new();
        self.walk(start, 0, self.entries.len(), &mut out);
        proof {
            lemma_preorder_nodes(self, start, 0, self.entries@.len() as nat);
            assert(out@ =~= preorder(self.kids(), start, 0, self.entries@.len() as nat));
        }
        out
    }

    /// The pre-order walk of the whole forest: each root in snapshot order,
    /// at depth 0, followed by its subtree.
    pub fn forest_order(&self) -> (r: Vec<(usize, usize)>)
        requires
            self.wf(),
        ensures
            r@ == preorder_list(
                self.kids(),
                root_list(self.entries@, self.entries@.len() as int),
                0,
                self.entries@.len() as nat,
            ),
            forall|k: int| 0 <= k < r@.len() ==> (#[trigger] r@[k]).0 < self.entries@.len(),
    {
        let roots = self.roots();
        let n = self.entries.len();
        proof {
            lemma_root_list(self.entries@, n as int);
        }
        let mut out: Vec<(usize, usize)> = Vec::new();
        let mut k: usize = 0;
        while k < roots.len()
            invariant
                self.wf(),
                n == self.entries@.len(),
                roots@ == root_list(self.entries@, n as int),
                forall|x: int| 0 <= x < roots@.len() ==> #[trigger] roots@[x] < n,
                k <= roots.len(),
                out@ == preorder_list(self.kids(), roots@.subrange(0, k as int), 0, n as nat),
            decreases roots.len() - k,
        {
            self.walk(roots[k], 0, n, &mut out);
            proof {
                let pre = roots@.subrange(0, k as int + 1);
                assert(pre.drop_last() =~= roots@.subrange(0, k as int));
                assert(pre.last() == roots@[k as int]);
            }
            k = k + 1;
        }
        proof {
            assert(roots@.subrange(0, roots@.len() as int) =~= roots@);
            lemma_preorder_list_nodes(self, roots@, 0, n as nat);
        }
        out
    }

    /// The lines of the tree view for a walk `order`: each node with its
    /// pid and depth, highlighted when it is the node with pid `current` or
    /// a marked one.
    pub fn tree_lines(&self, order: &Vec<(usize, usize)>, current: u32) -> (r: Vec<TreeLine>)
        requires
            self.wf(),
            forall|k: int| 0 <= k < order@.len() ==> (#[trigger] order@[k]).0 < self.entries@.len(),
        ensures
            r@.len() == order@.len(),
            forall|k: int|
                0 <= k < r@.len() ==> #[trigger] r@[k] == (TreeLine {
                    node: order@[k].0,
                    pid: self.entries@[order@[k].0 as int].pid,
                    depth: order@[k].1,
                    highlighted: self.entries@[order@[k].0 as int].pid == current
                        || self.marked@[order@[k].0 as int],
                }),
    {
        let mut out: Vec<TreeLine> = Vec::new();
        let mut k: usize = 0;
        while k < order.len()
            invariant
                self.wf(),
                forall|j: int| 0 <= j < order@.len() ==> (#[trigger] order@[j]).0 < self.entries@.len(),
                k <= order.len(),
                out@.len() == k,
                forall|j: int|
                    0 <= j < k ==> #[trigger] out@[j] == (TreeLine {
                        node: order@[j].0,
                        pid: self.entries@[order@[j].0 as int].pid,
                        depth: order@[j].1,
                        highlighted: self.entries@[order@[j].0 as int].pid == current
                            || self.marked@[order@[j].0 as int],
                    }),
            decreases order.len() - k,
        {
            let (node, depth) = order[k];
            let pid = self.entries[node].pid;
            let highlighted = pid == current || self.marked[node];
            out.push(TreeLine { node, pid, depth, highlighted });
            k = k + 1;
        }
        out
    }

    /// The pids of the marked nodes, in snapshot order.
    pub fn marked_pids(&self) -> (r: Vec<u32>)
        requires
            self.wf(),
        ensures
            r@ == marked_list(self.entries@, self.marked@, self.entries@.len() as int),
    {
        let mut out: Vec<u32> = Vec::new();
        let mut k: usize = 0;
        while k < self.entries.len()
            invariant
                self.wf(),
                k <= self.entries@.len(),
                out@ == marked_list(self.entries@, self.marked@, k as int),
            decreases self.entries@.len() - k,
        {
            if self.marked[k] {
                out.push(self.entries[k].pid);
            }
            k = k + 1;
        }
        out
    }
}

/// The pids of the marked nodes among the first `k`, in snapshot order.
pub open spec fn marked_list(es: Seq<TreeEntry>, marked: Seq<bool>, k: int) -> Seq<u32>
    decreases k,
{
    if k <= 0 {
        Seq::empty()
    } else {
        let prev = marked_list(es, marked, k - 1);
        if marked[k - 1] {
            prev.push(es[k - 1].pid)
        } else {
            prev
        }
    }
}

/// Every root index is a node.
proof fn lemma_root_list(es: Seq<TreeEntry>, k: int)
    ensures
        forall|x: int| 0 <= x < root_list(es, k).len() ==> #[trigger] root_list(es, k)[x] < k,
    decreases k,
{
    if k > 0 {
        lemma_root_list(es, k - 1);
        let prev = root_list(es, k - 1);
        if is_root(es, k - 1) {
            assert forall|x: int| 0 <= x < prev.len() + 1 implies #[trigger] prev.push(
                (k - 1) as usize,
            )[x] < k by {
                if x < prev.len() {
                    assert(prev.push((k - 1) as usize)[x] == prev[x]);
                }
            }
        }
    }
}

/// The position after `i` in a cyclic list of `len` entries.
pub fn wrap_next(i: usize, len: usize) -> (r: usize)
    ensures
        r == if i + 1 >= len { 0 } else { (i + 1) as usize },
{
    if i >= len || i + 1 >= len {
        0
    } else {
        i + 1
    }
}

/// The position before `i` in a cyclic list of `len` entries.
pub fn wrap_previous(i: usize, len: usize) -> (r: usize)
    ensures
        r == if len == 0 { 0 } else if i == 0 || i >= len { (len - 1) as usize } else { (i - 1) as usize },
{
    if len == 0 {
        0
    } else if i == 0 || i >= len {
        len - 1
    } else {
        i - 1
    }
}

/// The first line to show of `total` lines in a window of `height` lines:
/// `offset`, kept from scrolling past the last full window.
pub fn clamp_tree_offset(offset: usize, total: usize, height: usize) -> (r: usize)
    ensures
        r == if total >= height && offset > total - height {
            (total - height) as usize
        } else if total < height {
            0
        } else {
            offset
        },
{
    let bound = total.saturating_sub(height);
    if offset > bound {
        bound
    } else {
        offset
    }
}

/// Children mirror the parent relation of the snapshot: `c` is listed under
/// `p` exactly when `c`'s parent pid is `p`'s pid; a
/// node is listed under at most one node, whose pid is its parent pid; and
/// a node is a root exactly when it is listed under none.
pub proof fn lemma_tree_edges(t: ProcessTree, c: int)
    requires
        t.wf(),
        0 <= c < t.entries@.len(),
    ensures
        forall|p: int|
            0 <= p < t.entries@.len() ==> (t.kids()[p].contains(c as usize) <==> #[trigger] is_child(
                t.entries@,
                p,
                c,
            )),
        forall|p: int|
            0 <= p < t.entries@.len() && #[trigger] t.kids()[p].contains(c as usize)
                ==> t.entries@[p].pid == t.entries@[c].ppid,
        forall|p: int, q: int|
            0 <= p < t.entries@.len() && 0 <= q < t.entries@.len() && #[trigger] t.kids()[p].contains(
                c as usize,
            ) && #[trigger] t.kids()[q].contains(c as usize) ==> p == q,
        is_root(t.entries@, c) <==> forall|p: int|
            0 <= p < t.entries@.len() ==> !#[trigger] t.kids()[p].contains(c as usize),
{
    let n = t.entries@.len() as int;
    assert forall|p: int| 0 <= p < n implies (t.kids()[p].contains(c as usize) <==> #[trigger] is_child(
        t.entries@,
        p,
        c,
    )) by {
        lemma_child_list(t.entries@, p, n);
        assert(t.kids()[p] == t.children@[p]@);
        if t.kids()[p].contains(c as usize) {
            let x = choose|x: int| 0 <= x < t.kids()[p].len() && t.kids()[p][x] == c as usize;
            assert(child_list(t.entries@, p, n)[x] == c as usize);
        }
    }
    assert forall|p: int, q: int|
        0 <= p < n && 0 <= q < n && #[trigger] t.kids()[p].contains(c as usize) && #[trigger] t.kids()[q].contains(
            c as usize,
        ) implies p == q by {
        assert(is_child(t.entries@, p, c));
        assert(is_child(t.entries@, q, c));
        assert(t.entries@[p].pid == t.entries@[q].pid);
    }
    assert forall|p: int|
        0 <= p < n && #[trigger] t.kids()[p].contains(c as usize) implies t.entries@[p].pid
        == t.entries@[c].ppid by {
        assert(is_child(t.entries@, p, c));
    }
    if is_root(t.entries@, c) {
        assert forall|p: int| 0 <= p < n implies !#[trigger] t.kids()[p].contains(c as usize) by {
            assert(!is_child(t.entries@, p, c));
        }
    } else {
        let p = choose|p: int| 0 <= p < n && is_child(t.entries@, p, c);
        assert(t.kids()[p].contains(c as usize));
    }
}

/// Every node of a walk from a node is a node of the tree.
proof fn lemma_preorder_nodes(t: &ProcessTree, i: usize, depth: int, fuel: nat)
    requires
        t.wf(),
        i < t.entries@.len(),
    ensures
        forall|x: int|
            0 <= x < preorder(t.kids(), i, depth, fuel).len() ==> (#[trigger] preorder(
                t.kids(),
                i,
                depth,
                fuel,
            )[x]).0 < t.entries@.len(),
    decreases fuel, 0nat,
{
    if fuel > 0 {
        let n = t.entries@.len() as int;
        let cs = t.kids()[i as int];
        lemma_child_list(t.entries@, i as int, n);
        assert(cs == t.children@[i as int]@);
        lemma_preorder_list_nodes(t, cs, depth + 1, (fuel - 1) as nat);
        let l = preorder_list(t.kids(), cs, depth + 1, (fuel - 1) as nat);
        let out = preorder(t.kids(), i, depth, fuel);
        assert(out == seq![(i, depth as usize)] + l);
        assert forall|x: int| 0 <= x < out.len() implies (#[trigger] out[x]).0 < n by {
            if x > 0 {
                assert(out[x] == l[x - 1]);
            }
        }
    }
}

/// Every node of the walks from nodes `cs` is a node of the tree.
proof fn lemma_preorder_list_nodes(t: &ProcessTree, cs: Seq<usize>, depth: int, fuel: nat)
    requires
        t.wf(),
        forall|x: int| 0 <= x < cs.len() ==> #[trigger] cs[x] < t.entries@.len(),
    ensures
        forall|x: int|
            0 <= x < preorder_list(t.kids(), cs, depth, fuel).len() ==> (#[trigger] preorder_list(
                t.kids(),
                cs,
                depth,
                fuel,
            )[x]).0 < t.entries@.len(),
    decreases fuel, cs.len(),
{
    if cs.len() > 0 {
        let init = cs.drop_last();
        assert forall|x: int| 0 <= x < init.len() implies #[trigger] init[x] < t.entries@.len() by {
            assert(init[x] == cs[x]);
        }
        lemma_preorder_list_nodes(t, init, depth, fuel);
        lemma_preorder_nodes(t, cs.last(), depth, fuel);
        let a = preorder_list(t.kids(), init, depth, fuel);
        let b = preorder(t.kids(), cs.last(), depth, fuel);
        let out = preorder_list(t.kids(), cs, depth, fuel);
        assert(out == a + b);
        assert forall|x: int| 0 <= x < out.len() implies (#[trigger] out[x]).0 < t.entries@.len() by {
            if x < a.len() {
                assert(out[x] == a[x]);
            } else {
                assert(out[x] == b[x - a.len()]);
            }
        }
    }
}

/// Entry `x` of the walk `out` is a child of an entry before it, one level
/// above it.
pub open spec fn has_parent_before(es: Seq<TreeEntry>, out: Seq<(usize, usize)>, x: int) -> bool {
    exists|y: int|
        0 <= y < x && is_child(es, out[y].0 as int, out[x].0 as int) && out[y].1 + 1 == out[x].1
}

/// Every entry of a walk from node `i` other than the first is a child of
/// an earlier entry one level above it, and lies below the first.
proof fn lemma_preorder_parents(t: &ProcessTree, i: usize, depth: int, fuel: nat)
    requires
        t.wf(),
        i < t.entries@.len(),
        0 <= depth,
        depth + fuel <= usize::MAX,
    ensures
        fuel > 0 ==> preorder(t.kids(), i, depth, fuel)[0] == (i, depth as usize),
        forall|x: int|
            0 <= x < preorder(t.kids(), i, depth, fuel).len() ==> (#[trigger] preorder(
                t.kids(),
                i,
                depth,
                fuel,
            )[x]).1 >= depth,
        forall|x: int|
            0 < x < preorder(t.kids(), i, depth, fuel).len() ==> #[trigger] has_parent_before(
                t.entries@,
                preorder(t.kids(), i, depth, fuel),
                x,
            ) && preorder(t.kids(), i, depth, fuel)[x].1 > depth,
    decreases fuel, 0nat,
{
    if fuel > 0 {
        let n = t.entries@.len() as int;
        let es = t.entries@;
        let cs = t.kids()[i as int];
        lemma_child_list(es, i as int, n);
        assert(cs == t.children@[i as int]@);
        lemma_preorder_list_parents(t, cs, depth + 1, (fuel - 1) as nat);
        let l = preorder_list(t.kids(), cs, depth + 1, (fuel - 1) as nat);
        let out = preorder(t.kids(), i, depth, fuel);
        assert(out == seq![(i, depth as usize)] + l);
        assert(out[0] == (i, depth as usize));
        assert forall|x: int| 0 <= x < out.len() implies (#[trigger] out[x]).1 >= depth by {
            if x > 0 {
                assert(out[x] == l[x - 1]);
            }
        }
        assert forall|x: int| 0 < x < out.len() implies #[trigger] has_parent_before(es, out, x)
            && out[x].1 > depth by {
            assert(out[x] == l[x - 1]);
            let xm = x - 1;
            if l[xm].1 == depth + 1 && cs.contains(l[xm].0) {
                let w = choose|w: int| 0 <= w < cs.len() && cs[w] == l[xm].0;
                assert(is_child(es, i as int, cs[w] as int));
                assert(is_child(es, out[0].0 as int, out[x].0 as int));
            } else {
                assert(has_parent_before(es, l, xm));
                let w = choose|w: int|
                    0 <= w < xm && #[trigger] is_child(es, l[w].0 as int, l[xm].0 as int) && l[w].1 + 1
                        == l[xm].1;
                assert(out[w + 1] == l[w]);
                assert(is_child(es, out[w + 1].0 as int, out[x].0 as int));
            }
        }
    }
}

/// Every entry of the walks from nodes `cs` at level `depth` is at that
/// level or below, and is either one of `cs` at that level or a child of
/// an earlier entry one level above it.
proof fn lemma_preorder_list_parents(t: &ProcessTree, cs: Seq<usize>, depth: int, fuel: nat)
    requires
        t.wf(),
        forall|x: int| 0 <= x < cs.len() ==> #[trigger] cs[x] < t.entries@.len(),
        0 <= depth,
        depth + fuel <= usize::MAX,
    ensures
        forall|z: int|
            0 <= z < preorder_list(t.kids(), cs, depth, fuel).len() ==> (#[trigger] preorder_list(
                t.kids(),
                cs,
                depth,
                fuel,
            )[z]).1 >= depth && ((preorder_list(t.kids(), cs, depth, fuel)[z].1 == depth && cs.contains(
                preorder_list(t.kids(), cs, depth, fuel)[z].0,
            )) || has_parent_before(t.entries@, preorder_list(t.kids(), cs, depth, fuel), z)),
    decreases fuel, cs.len(),
{
    if cs.len() > 0 {
        let es = t.entries@;
        let init = cs.drop_last();
        assert forall|x: int| 0 <= x < init.len() implies #[trigger] init[x] < t.entries@.len() by {
            assert(init[x] == cs[x]);
        }
        lemma_preorder_list_parents(t, init, depth, fuel);
        lemma_preorder_parents(t, cs.last(), depth, fuel);
        let a = preorder_list(t.kids(), init, depth, fuel);
        let b = preorder(t.kids(), cs.last(), depth, fuel);
        let out = preorder_list(t.kids(), cs, depth, fuel);
        assert(out == a + b);
        assert forall|z: int| 0 <= z < out.len() implies (#[trigger] out[z]).1 >= depth && ((out[z].1
            == depth && cs.contains(out[z].0)) || has_parent_before(es, out, z)) by {
            if z < a.len() {
                assert(out[z] == a[z]);
                if a[z].1 == depth && init.contains(a[z].0) {
                    let v = choose|v: int| 0 <= v < init.len() && init[v] == a[z].0;
                    assert(cs[v] == init[v]);
                } else {
                    assert(has_parent_before(es, a, z));
                    let w = choose|w: int|
                        0 <= w < z && #[trigger] is_child(es, a[w].0 as int, a[z].0 as int) && a[w].1 + 1
                            == a[z].1;
                    assert(out[w] == a[w]);
                    assert(is_child(es, out[w].0 as int, out[z].0 as int));
                }
            } else {
                let zb = z - a.len();
                assert(out[z] == b[zb]);
                if zb == 0 {
                    assert(b[0].0 == cs.last());
                    assert(cs[cs.len() - 1] == cs.last());
                } else {
                    assert(has_parent_before(es, b, zb));
                    let w = choose|w: int|
                        0 <= w < zb && #[trigger] is_child(es, b[w].0 as int, b[zb].0 as int) && b[w].1 + 1
                            == b[zb].1;
                    assert(out[w + a.len()] == b[w]);
                    assert(is_child(es, out[w + a.len()].0 as int, out[z].0 as int));
                }
            }
        }
    }
}

/// A walk descends from its start: it begins with the start node, and every
/// later entry is a child of an earlier entry one level above it, so each
/// node of the walk is the start or one of its descendants, shown at its
/// distance from the start; every node of the walk is a node of the tree.
pub proof fn lemma_walk_descends(t: ProcessTree, start: usize)
    requires
        t.wf(),
        start < t.entries@.len(),
    ensures
        preorder(t.kids(), start, 0, t.entries@.len() as nat)[0].0 == start,
        forall|x: int|
            0 <= x < preorder(t.kids(), start, 0, t.entries@.len() as nat).len() ==> (#[trigger] preorder(
                t.kids(),
                start,
                0,
                t.entries@.len() as nat,
            )[x]).0 < t.entries@.len(),
        forall|x: int|
            0 < x < preorder(t.kids(), start, 0, t.entries@.len() as nat).len()
                ==> #[trigger] has_parent_before(
                t.entries@,
                preorder(t.kids(), start, 0, t.entries@.len() as nat),
                x,
            ),
{
    lemma_preorder_nodes(&t, start, 0, t.entries@.len() as nat);
    lemma_preorder_parents(&t, start, 0, t.entries@.len() as nat);
}

/// Node `c` occurs in the walk `out`.
pub open spec fn in_walk(out: Seq<(usize, usize)>, c: int) -> bool {
    exists|q: int| 0 <= q < out.len() && out[q].0 as int == c
}

/// Each of `cs` heads its own walk among the walks from `cs`.
proof fn lemma_preorder_list_heads(t: &ProcessTree, cs: Seq<usize>, depth: int, fuel: nat)
    requires
        fuel >= 1,
    ensures
        forall|x: int| 0 <= x < cs.len() ==> in_walk(preorder_list(t.kids(), cs, depth, fuel), #[trigger] cs[x] as int),
    decreases cs.len(),
{
    if cs.len() > 0 {
        let init = cs.drop_last();
        lemma_preorder_list_heads(t, init, depth, fuel);
        let a = preorder_list(t.kids(), init, depth, fuel);
        let b = preorder(t.kids(), cs.last(), depth, fuel);
        let out = preorder_list(t.kids(), cs, depth, fuel);
        assert(out == a + b);
        assert forall|x: int| 0 <= x < cs.len() implies in_walk(out, #[trigger] cs[x] as int) by {
            if x == cs.len() - 1 {
                assert(b[0].0 == cs.last());
                assert(out[a.len() as int] == b[0]);
            } else {
                assert(cs[x] == init[x]);
                assert(in_walk(a, init[x] as int));
                let q = choose|q: int| 0 <= q < a.len() && a[q].0 as int == init[x] as int;
                assert(out[q] == a[q]);
            }
        }
    }
}

/// In a walk of `fuel` levels from level `depth`, every child of an entry
/// above the last level occurs in the walk.
#[verifier::rlimit(40)]
proof fn lemma_preorder_closed(t: &ProcessTree, i: usize, depth: int, fuel: nat)
    requires
        t.wf(),
        i < t.entries@.len(),
        0 <= depth,
        depth + fuel <= usize::MAX,
    ensures
        forall|p: int, c: int|
            0 <= p < preorder(t.kids(), i, depth, fuel).len() && preorder(t.kids(), i, depth, fuel)[p].1
                + 1 < depth + fuel && 0 <= c < t.entries@.len() && #[trigger] is_child(
                t.entries@,
                #[trigger] preorder(t.kids(), i, depth, fuel)[p].0 as int,
                c,
            ) ==> in_walk(preorder(t.kids(), i, depth, fuel), c),
    decreases fuel, 0nat,
{
    if fuel > 0 {
        let n = t.entries@.len() as int;
        let es = t.entries@;
        let cs = t.kids()[i as int];
        lemma_child_list(es, i as int, n);
        assert(cs == t.children@[i as int]@);
        lemma_preorder_list_closed(t, cs, depth + 1, (fuel - 1) as nat);
        lemma_preorder_list_parents(t, cs, depth + 1, (fuel - 1) as nat);
        let l = preorder_list(t.kids(), cs, depth + 1, (fuel - 1) as nat);
        let out = preorder(t.kids(), i, depth, fuel);
        assert(out == seq![(i, depth as usize)] + l);
        assert forall|p: int, c: int|
            0 <= p < out.len() && out[p].1 + 1 < depth + fuel && 0 <= c < n && #[trigger] is_child(
                es,
                #[trigger] out[p].0 as int,
                c,
            ) implies in_walk(out, c) by {
            if p == 0 {
                assert(out[0].0 == i);
                assert(cs.contains(c as usize));
                let w = choose|w: int| 0 <= w < cs.len() && cs[w] == c as usize;
                lemma_preorder_list_heads(t, cs, depth + 1, (fuel - 1) as nat);
                assert(in_walk(l, cs[w] as int));
                let q = choose|q: int| 0 <= q < l.len() && l[q].0 as int == cs[w] as int;
                assert(out[q + 1] == l[q]);
            } else {
                assert(out[p] == l[p - 1]);
                assert(is_child(es, l[p - 1].0 as int, c));
                assert(in_walk(l, c));
                let q = choose|q: int| 0 <= q < l.len() && l[q].0 as int == c;
                assert(out[q + 1] == l[q]);
            }
        }
    }
}

/// In the walks from `cs`, every child of an entry above the last level
/// occurs in the walks.
proof fn lemma_preorder_list_closed(t: &ProcessTree, cs: Seq<usize>, depth: int, fuel: nat)
    requires
        t.wf(),
        forall|x: int| 0 <= x < cs.len() ==> #[trigger] cs[x] < t.entries@.len(),
        0 <= depth,
        depth + fuel <= usize::MAX,
    ensures
        forall|p: int, c: int|
            0 <= p < preorder_list(t.kids(), cs, depth, fuel).len() && preorder_list(
                t.kids(),
                cs,
                depth,
                fuel,
            )[p].1 + 1 < depth + fuel && 0 <= c < t.entries@.len() && #[trigger] is_child(
                t.entries@,
                #[trigger] preorder_list(t.kids(), cs, depth, fuel)[p].0 as int,
                c,
            ) ==> in_walk(preorder_list(t.kids(), cs, depth, fuel), c),
    decreases fuel, cs.len(),
{
    if cs.len() > 0 {
        let es = t.entries@;
        let n = es.len() as int;
        let init = cs.drop_last();
        assert forall|x: int| 0 <= x < init.len() implies #[trigger] init[x] < t.entries@.len() by {
            assert(init[x] == cs[x]);
        }
        lemma_preorder_list_closed(t, init, depth, fuel);
        lemma_preorder_closed(t, cs.last(), depth, fuel);
        let a = preorder_list(t.kids(), init, depth, fuel);
        let b = preorder(t.kids(), cs.last(), depth, fuel);
        let out = preorder_list(t.kids(), cs, depth, fuel);
        assert(out == a + b);
        assert forall|p: int, c: int|
            0 <= p < out.len() && out[p].1 + 1 < depth + fuel && 0 <= c < n && #[trigger] is_child(
                es,
                #[trigger] out[p].0 as int,
                c,
            ) implies in_walk(out, c) by {
            if p < a.len() {
                assert(out[p] == a[p]);
                assert(is_child(es, a[p].0 as int, c));
                assert(in_walk(a, c));
                let q = choose|q: int| 0 <= q < a.len() && a[q].0 as int == c;
                assert(out[q] == a[q]);
            } else {
                let pb = p - a.len();
                assert(out[p] == b[pb]);
                assert(is_child(es, b[pb].0 as int, c));
                assert(in_walk(b, c));
                let q = choose|q: int| 0 <= q < b.len() && b[q].0 as int == c;
                assert(out[q + a.len()] == b[q]);
            }
        }
    }
}

/// `ch` is a path down the forest: node indices, each a child of the one
/// before it.
pub open spec fn is_path(es: Seq<TreeEntry>, ch: Seq<int>) -> bool {
    &&& forall|j: int| 0 <= j < ch.len() ==> 0 <= #[trigger] ch[j] < es.len()
    &&& forall|j: int| 0 <= j < ch.len() - 1 ==> #[trigger] is_child(es, ch[j], ch[j + 1])
}

/// A path from a root never comes back to a node it passed.
proof fn lemma_path_no_repeat(es: Seq<TreeEntry>, ch: Seq<int>, a: int, b: int)
    requires
        pids_distinct(es),
        is_path(es, ch),
        ch.len() >= 1,
        is_root(es, ch[0]),
        0 <= a < b < ch.len(),
    ensures
        ch[a] != ch[b],
    decreases a,
{
    let jb = b - 1;
    assert(is_child(es, ch[jb], ch[jb + 1]));
    if a == 0 {
        if ch[0] == ch[b] {
            assert(is_child(es, ch[b - 1], ch[0]));
        }
    } else {
        let ja = a - 1;
        assert(is_child(es, ch[ja], ch[ja + 1]));
        lemma_path_no_repeat(es, ch, a - 1, b - 1);
        if ch[a] == ch[b] {
            assert(es[ch[a - 1]].pid == es[ch[b - 1]].pid);
        }
    }
}

/// A path from a root holds at most as many nodes as the forest.
proof fn lemma_path_len(es: Seq<TreeEntry>, ch: Seq<int>)
    requires
        pids_distinct(es),
        is_path(es, ch),
        ch.len() >= 1,
        is_root(es, ch[0]),
    ensures
        ch.len() <= es.len(),
{
    assert(ch.no_duplicates()) by {
        assert forall|a: int, b: int| 0 <= a < ch.len() && 0 <= b < ch.len() && a != b implies ch[a]
            != ch[b] by {
            if a < b {
                lemma_path_no_repeat(es, ch, a, b);
            } else {
                lemma_path_no_repeat(es, ch, b, a);
            }
        }
    }
    ch.unique_seq_to_set();
    vstd::set_lib::lemma_int_range(0, es.len() as int);
    assert(ch.to_set().subset_of(vstd::set_lib::set_int_range(0, es.len() as int)));
    vstd::set_lib::lemma_len_subset(ch.to_set(), vstd::set_lib::set_int_range(0, es.len() as int));
}

/// The path from the start of a walk down to entry `x`, one node per level.
proof fn lemma_walk_path(t: &ProcessTree, start: usize, x: int) -> (ch: Seq<int>)
    requires
        t.wf(),
        start < t.entries@.len(),
        0 <= x < preorder(t.kids(), start, 0, t.entries@.len() as nat).len(),
    ensures
        is_path(t.entries@, ch),
        ch.len() == preorder(t.kids(), start, 0, t.entries@.len() as nat)[x].1 + 1,
        ch[0] == start as int,
        ch.last() == preorder(t.kids(), start, 0, t.entries@.len() as nat)[x].0 as int,
    decreases preorder(t.kids(), start, 0, t.entries@.len() as nat)[x].1,
{
    let w = preorder(t.kids(), start, 0, t.entries@.len() as nat);
    lemma_preorder_parents(t, start, 0, t.entries@.len() as nat);
    lemma_preorder_nodes(t, start, 0, t.entries@.len() as nat);
    if x == 0 {
        seq![start as int]
    } else {
        assert(has_parent_before(t.entries@, w, x));
        let y = choose|y: int|
            0 <= y < x && is_child(t.entries@, w[y].0 as int, w[x].0 as int) && w[y].1 + 1 == w[x].1;
        let up = lemma_walk_path(t, start, y);
        let ch = up.push(w[x].0 as int);
        assert forall|j: int| 0 <= j < ch.len() - 1 implies #[trigger] is_child(t.entries@, ch[j], ch[j + 1]) by {
            if j < up.len() - 1 {
                assert(ch[j] == up[j] && ch[j + 1] == up[j + 1]);
            } else {
                assert(ch[j] == up.last());
            }
        }
        assert forall|j: int| 0 <= j < ch.len() implies 0 <= #[trigger] ch[j] < t.entries@.len() by {
            if j < up.len() {
                assert(ch[j] == up[j]);
            }
        }
        ch
    }
}

/// The walk from a root reaches all of its descendants: every child of a
/// node of the walk is in the walk. With the walk starting at the root and
/// every later node being a child of an earlier one, the nodes of the walk
/// are exactly the root and its descendants; every other node lies outside
/// the root's tree.
pub proof fn lemma_walk_complete(t: ProcessTree, root: usize, x: int, c: int)
    requires
        t.wf(),
        root < t.entries@.len(),
        is_root(t.entries@, root as int),
        0 <= x < preorder(t.kids(), root, 0, t.entries@.len() as nat).len(),
        0 <= c < t.entries@.len(),
        is_child(t.entries@, preorder(t.kids(), root, 0, t.entries@.len() as nat)[x].0 as int, c),
    ensures
        in_walk(preorder(t.kids(), root, 0, t.entries@.len() as nat), c),
{
    let n = t.entries@.len();
    let w = preorder(t.kids(), root, 0, n as nat);
    let up = lemma_walk_path(&t, root, x);
    let ch = up.push(c);
    assert forall|j: int| 0 <= j < ch.len() - 1 implies #[trigger] is_child(t.entries@, ch[j], ch[j + 1]) by {
        if j < up.len() - 1 {
            assert(ch[j] == up[j] && ch[j + 1] == up[j + 1]);
        } else {
            assert(ch[j] == up.last());
        }
    }
    assert forall|j: int| 0 <= j < ch.len() implies 0 <= #[trigger] ch[j] < t.entries@.len() by {
        if j < up.len() {
            assert(ch[j] == up[j]);
        }
    }
    assert(ch[0] == up[0]);
    lemma_path_len(t.entries@, ch);
    lemma_preorder_closed(&t, root, 0, n as nat);
    assert(w[x].1 + 1 < n);
    assert(is_child(t.entries@, w[x].0 as int, c));
}

/// The children of a node are listed once each.
proof fn lemma_child_list_distinct(es: Seq<TreeEntry>, p: int, k: int)
    requires
        k <= usize::MAX,
    ensures
        child_list(es, p, k).no_duplicates(),
    decreases k,
{
    if k > 0 {
        lemma_child_list_distinct(es, p, k - 1);
        lemma_child_list(es, p, k - 1);
        let prev = child_list(es, p, k - 1);
        if is_child(es, p, k - 1) {
            let s = prev.push((k - 1) as usize);
            assert forall|a: int, b: int| 0 <= a < s.len() && 0 <= b < s.len() && a != b implies s[a]
                != s[b] by {
                if a < prev.len() && b < prev.len() {
                    assert(s[a] == prev[a] && s[b] == prev[b]);
                } else if a < prev.len() {
                    assert(s[a] == prev[a] && prev[a] < k - 1);
                } else if b < prev.len() {
                    assert(s[b] == prev[b] && prev[b] < k - 1);
                }
            }
        }
    }
}

/// A path stays a path without its last node.
proof fn lemma_path_drop_last(es: Seq<TreeEntry>, ch: Seq<int>)
    requires
        is_path(es, ch),
        ch.len() >= 1,
    ensures
        is_path(es, ch.drop_last()),
{
    let d = ch.drop_last();
    assert forall|j: int| 0 <= j < d.len() implies 0 <= #[trigger] d[j] < es.len() by {
        assert(d[j] == ch[j]);
    }
    assert forall|j: int| 0 <= j < d.len() - 1 implies #[trigger] is_child(es, d[j], d[j + 1]) by {
        assert(d[j] == ch[j] && d[j + 1] == ch[j + 1]);
    }
}

/// A path extended by a child of its last node is a path.
proof fn lemma_path_push(es: Seq<TreeEntry>, ch: Seq<int>, c: int)
    requires
        is_path(es, ch),
        ch.len() >= 1,
        0 <= c < es.len(),
        is_child(es, ch.last(), c),
    ensures
        is_path(es, ch.push(c)),
{
    let e = ch.push(c);
    assert forall|j: int| 0 <= j < e.len() implies 0 <= #[trigger] e[j] < es.len() by {
        if j < ch.len() {
            assert(e[j] == ch[j]);
        }
    }
    assert forall|j: int| 0 <= j < e.len() - 1 implies #[trigger] is_child(es, e[j], e[j + 1]) by {
        if j < ch.len() - 1 {
            assert(e[j] == ch[j] && e[j + 1] == ch[j + 1]);
        } else {
            assert(e[j] == ch.last());
        }
    }
}

/// Two paths joined where the first ends and the second begins.
proof fn lemma_path_join(es: Seq<TreeEntry>, a: Seq<int>, b: Seq<int>) -> (ch: Seq<int>)
    requires
        is_path(es, a),
        is_path(es, b),
        a.len() >= 1,
        b.len() >= 1,
        a.last() == b[0],
    ensures
        is_path(es, ch),
        ch.len() == a.len() + b.len() - 1,
        ch.last() == b.last(),
        forall|k: int| 0 <= k < a.len() ==> ch[k] == a[k],
{
    let ch = a + b.drop_first();
    assert forall|j: int| 0 <= j < ch.len() implies 0 <= #[trigger] ch[j] < es.len() by {
        if j < a.len() {
            assert(ch[j] == a[j]);
        } else {
            assert(ch[j] == b[j - a.len() + 1]);
        }
    }
    assert forall|j: int| 0 <= j < ch.len() - 1 implies #[trigger] is_child(es, ch[j], ch[j + 1]) by {
        if j + 1 < a.len() {
            assert(ch[j] == a[j] && ch[j + 1] == a[j + 1]);
        } else {
            let jb = j - a.len() + 1;
            assert(is_child(es, b[jb], b[jb + 1]));
            if j == a.len() - 1 {
                assert(ch[j] == a.last());
            } else {
                assert(ch[j] == b[jb]);
            }
            assert(ch[j + 1] == b[jb + 1]);
        }
    }
    if b.len() > 1 {
        assert(ch.last() == b[b.len() - 1]);
    } else {
        assert(ch.last() == a.last());
    }
    ch
}

/// From a root, there is one path to a node.
proof fn lemma_root_path_unique(es: Seq<TreeEntry>, a: Seq<int>, b: Seq<int>)
    requires
        pids_distinct(es),
        is_path(es, a),
        is_path(es, b),
        a.len() >= 1,
        b.len() >= 1,
        a[0] == b[0],
        is_root(es, a[0]),
        a.last() == b.last(),
    ensures
        a == b,
    decreases a.len() + b.len(),
{
    if a.len() == 1 && b.len() == 1 {
        assert(a =~= b);
    } else if a.len() == 1 {
        let j = b.len() - 2;
        assert(is_child(es, b[j], b[j + 1]));
        assert(is_child(es, b[j], a[0]));
    } else if b.len() == 1 {
        let j = a.len() - 2;
        assert(is_child(es, a[j], a[j + 1]));
        assert(is_child(es, a[j], b[0]));
    } else {
        let ja = a.len() - 2;
        let jb = b.len() - 2;
        assert(is_child(es, a[ja], a[ja + 1]));
        assert(is_child(es, b[jb], b[jb + 1]));
        assert(es[a[ja]].pid == es[b[jb]].pid);
        lemma_path_drop_last(es, a);
        lemma_path_drop_last(es, b);
        lemma_root_path_unique(es, a.drop_last(), b.drop_last());
        assert(a =~= a.drop_last().push(a.last()));
        assert(b =~= b.drop_last().push(b.last()));
    }
}

/// Every entry of a walk from node `i` is reached from `i` by a path.
proof fn lemma_walk_from(t: &ProcessTree, i: usize, depth: int, fuel: nat, x: int) -> (ch: Seq<int>)
    requires
        t.wf(),
        i < t.entries@.len(),
        0 <= x < preorder(t.kids(), i, depth, fuel).len(),
    ensures
        is_path(t.entries@, ch),
        ch.len() >= 1,
        ch[0] == i as int,
        ch.last() == preorder(t.kids(), i, depth, fuel)[x].0 as int,
    decreases fuel, 0nat,
{
    let es = t.entries@;
    let n = es.len() as int;
    let out = preorder(t.kids(), i, depth, fuel);
    let cs = t.kids()[i as int];
    lemma_child_list(es, i as int, n);
    assert(cs == t.children@[i as int]@);
    let l = preorder_list(t.kids(), cs, depth + 1, (fuel - 1) as nat);
    assert(out == seq![(i, depth as usize)] + l);
    if x == 0 {
        seq![i as int]
    } else {
        assert(out[x] == l[x - 1]);
        let (j, sub) = lemma_list_walk_from(t, cs, depth + 1, (fuel - 1) as nat, x - 1);
        assert(is_child(es, i as int, cs[j] as int));
        let head = seq![i as int, cs[j] as int];
        let z0: int = 0;
        assert(head[z0] == i as int && head[z0 + 1] == cs[j] as int);
        assert(is_child(es, head[z0], head[z0 + 1]));
        lemma_path_join(es, head, sub)
    }
}

/// Every entry of the walks from nodes `cs` is reached by a path from one of `cs`.
proof fn lemma_list_walk_from(t: &ProcessTree, cs: Seq<usize>, depth: int, fuel: nat, z: int) -> (r: (
    int,
    Seq<int>,
))
    requires
        t.wf(),
        forall|x: int| 0 <= x < cs.len() ==> #[trigger] cs[x] < t.entries@.len(),
        0 <= z < preorder_list(t.kids(), cs, depth, fuel).len(),
    ensures
        0 <= r.0 < cs.len(),
        is_path(t.entries@, r.1),
        r.1.len() >= 1,
        r.1[0] == cs[r.0] as int,
        r.1.last() == preorder_list(t.kids(), cs, depth, fuel)[z].0 as int,
    decreases fuel, cs.len(),
{
    let init = cs.drop_last();
    assert forall|x: int| 0 <= x < init.len() implies #[trigger] init[x] < t.entries@.len() by {
        assert(init[x] == cs[x]);
    }
    let a = preorder_list(t.kids(), init, depth, fuel);
    let b = preorder(t.kids(), cs.last(), depth, fuel);
    let out = preorder_list(t.kids(), cs, depth, fuel);
    assert(out == a + b);
    if z < a.len() {
        assert(out[z] == a[z]);
        let (j, ch) = lemma_list_walk_from(t, init, depth, fuel, z);
        assert(init[j] == cs[j]);
        (j, ch)
    } else {
        assert(out[z] == b[z - a.len()]);
        let ch = lemma_walk_from(t, cs.last(), depth, fuel, z - a.len());
        (cs.len() - 1, ch)
    }
}

/// In a walk from a node that a root reaches by the path `pre`, no node
/// occurs twice.
proof fn lemma_walk_distinct(t: &ProcessTree, pre: Seq<int>, i: usize, depth: int, fuel: nat)
    requires
        t.wf(),
        is_path(t.entries@, pre),
        pre.len() >= 1,
        is_root(t.entries@, pre[0]),
        pre.last() == i as int,
        i < t.entries@.len(),
    ensures
        forall|x: int, y: int|
            0 <= x < y < preorder(t.kids(), i, depth, fuel).len() ==> (#[trigger] preorder(
                t.kids(),
                i,
                depth,
                fuel,
            )[x]).0 != (#[trigger] preorder(t.kids(), i, depth, fuel)[y]).0,
    decreases fuel, 0nat,
{
    if fuel > 0 {
        let es = t.entries@;
        let n = es.len() as int;
        let out = preorder(t.kids(), i, depth, fuel);
        let cs = t.kids()[i as int];
        lemma_child_list(es, i as int, n);
        lemma_child_list_distinct(es, i as int, n);
        assert(cs == t.children@[i as int]@);
        let l = preorder_list(t.kids(), cs, depth + 1, (fuel - 1) as nat);
        assert(out == seq![(i, depth as usize)] + l);
        lemma_list_walk_distinct(t, pre, i, cs, depth + 1, (fuel - 1) as nat);
        assert forall|x: int, y: int| 0 <= x < y < out.len() implies (#[trigger] out[x]).0 != (
        #[trigger] out[y]).0 by {
            assert(out[y] == l[y - 1]);
            if x == 0 {
                if out[y].0 == i {
                    let (j, ch) = lemma_list_walk_from(t, cs, depth + 1, (fuel - 1) as nat, y - 1);
                    assert(is_child(es, i as int, cs[j] as int));
                    lemma_path_push(es, pre, cs[j] as int);
                    let p1 = lemma_path_join(es, pre.push(cs[j] as int), ch);
                    assert(p1[0] == pre[0]);
                    lemma_root_path_unique(es, pre, p1);
                }
            } else {
                assert(out[x] == l[x - 1]);
            }
        }
    }
}

/// In the walks from the distinct children `cs` of a node that a root
/// reaches by the path `pre`, no node occurs twice.
proof fn lemma_list_walk_distinct(t: &ProcessTree, pre: Seq<int>, i: usize, cs: Seq<usize>, depth: int, fuel: nat)
    requires
        t.wf(),
        is_path(t.entries@, pre),
        pre.len() >= 1,
        is_root(t.entries@, pre[0]),
        pre.last() == i as int,
        i < t.entries@.len(),
        cs.no_duplicates(),
        forall|x: int|
            0 <= x < cs.len() ==> #[trigger] cs[x] < t.entries@.len() && is_child(
                t.entries@,
                i as int,
                cs[x] as int,
            ),
    ensures
        forall|x: int, y: int|
            0 <= x < y < preorder_list(t.kids(), cs, depth, fuel).len() ==> (#[trigger] preorder_list(
                t.kids(),
                cs,
                depth,
                fuel,
            )[x]).0 != (#[trigger] preorder_list(t.kids(), cs, depth, fuel)[y]).0,
    decreases fuel, cs.len(),
{
    if cs.len() > 0 {
        let es = t.entries@;
        let init = cs.drop_last();
        let last = cs.last();
        assert forall|x: int| 0 <= x < init.len() implies #[trigger] init[x] < t.entries@.len()
            && is_child(t.entries@, i as int, init[x] as int) by {
            assert(init[x] == cs[x]);
        }
        assert(init.no_duplicates()) by {
            assert forall|a: int, b: int| 0 <= a < init.len() && 0 <= b < init.len() && a != b implies init[a]
                != init[b] by {
                assert(init[a] == cs[a] && init[b] == cs[b]);
            }
        }
        lemma_list_walk_distinct(t, pre, i, init, depth, fuel);
        assert(cs[cs.len() - 1] == last);
        assert(is_child(es, i as int, last as int));
        lemma_path_push(es, pre, last as int);
        lemma_walk_distinct(t, pre.push(last as int), last, depth, fuel);
        let a = preorder_list(t.kids(), init, depth, fuel);
        let b = preorder(t.kids(), last, depth, fuel);
        let out = preorder_list(t.kids(), cs, depth, fuel);
        assert(out == a + b);
        assert forall|x: int, y: int| 0 <= x < y < out.len() implies (#[trigger] out[x]).0 != (
        #[trigger] out[y]).0 by {
            if y < a.len() {
                assert(out[x] == a[x] && out[y] == a[y]);
            } else if x >= a.len() {
                assert(out[x] == b[x - a.len()] && out[y] == b[y - a.len()]);
            } else {
                assert(out[x] == a[x] && out[y] == b[y - a.len()]);
                if out[x].0 == out[y].0 {
                    let (j, cha) = lemma_list_walk_from(t, init, depth, fuel, x);
                    let chb = lemma_walk_from(t, last, depth, fuel, y - a.len());
                    assert(init[j] == cs[j]);
                    lemma_path_push(es, pre, init[j] as int);
                    let pa = lemma_path_join(es, pre.push(init[j] as int), cha);
                    let pb = lemma_path_join(es, pre.push(last as int), chb);
                    assert(pa[0] == pre[0] && pb[0] == pre[0]);
                    lemma_root_path_unique(es, pa, pb);
                    assert(pa[pre.len() as int] == init[j] as int);
                    assert(pb[pre.len() as int] == last as int);
                    assert(cs[j] == cs[cs.len() - 1]);
                }
            }
        }
    }
}

/// The walk from a root holds each node at most once, so its nodes are the
/// root and its descendants, each exactly once; the nodes outside it are
/// the rest of the forest.
pub proof fn lemma_walk_each_node_once(t: ProcessTree, root: usize)
    requires
        t.wf(),
        root < t.entries@.len(),
        is_root(t.entries@, root as int),
    ensures
        forall|x: int, y: int|
            0 <= x < y < preorder(t.kids(), root, 0, t.entries@.len() as nat).len() ==> (#[trigger] preorder(
                t.kids(),
                root,
                0,
                t.entries@.len() as nat,
            )[x]).0 != (#[trigger] preorder(t.kids(), root, 0, t.entries@.len() as nat)[y]).0,
{
    let pre = seq![root as int];
    assert(pre[0] == root as int);
    lemma_walk_distinct(&t, pre, root, 0, t.entries@.len() as nat);
}

/// The node `find_root` picks, a node whose parent pid is 0, is a root of
/// the forest whenever no process has pid 0.
pub proof fn lemma_find_root_is_root(es: Seq<TreeEntry>, r: int)
    requires
        0 <= r < es.len(),
        es[r].ppid == 0,
        forall|p: int| 0 <= p < es.len() ==> #[trigger] es[p].pid != 0,
    ensures
        is_root(es, r),
{
    assert forall|p: int| 0 <= p < es.len() implies !#[trigger] is_child(es, p, r) by {
        assert(es[p].pid != 0);
    }
}

} // verus!
