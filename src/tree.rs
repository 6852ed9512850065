use vstd::prelude::*;

verus! {

/// One vertex of a document tree, stored in a `Tree` by index.
#[derive(Clone, Debug)]
pub struct Node {
    /// Index of the parent, `None` for a tree's top node.
    pub parent: Option<usize>,
    /// Indices of the children, in document order.
    pub children: Vec<usize>,
    /// Whether the node is an element (other nodes have no children).
    pub is_element: bool,
    /// Whether the node already carries computed style data.
    pub has_style: bool,
    /// Whether the node generates a box; a traversal may skip those that do not.
    pub displayed: bool,
    /// Distance from the top of the tree.
    pub depth: usize,
}

/// A document tree: nodes in an arena, linked by indices.
pub struct Tree {
    pub nodes: Vec<Node>,
}

impl Tree {
    pub open spec fn len(&self) -> nat {
        self.nodes@.len()
    }

    pub open spec fn valid(&self, i: int) -> bool {
        0 <= i < self.nodes@.len()
    }

    pub open spec fn kids(&self, i: int) -> Seq<usize> {
        self.nodes@[i].children@
    }

    pub open spec fn parent_of(&self, i: int) -> Option<usize> {
        self.nodes@[i].parent
    }

    pub open spec fn element(&self, i: int) -> bool {
        self.nodes@[i].is_element
    }

    pub open spec fn styled(&self, i: int) -> bool {
        self.nodes@[i].has_style
    }

    pub open spec fn shown(&self, i: int) -> bool {
        self.nodes@[i].displayed
    }

    pub open spec fn depth_of(&self, i: int) -> usize {
        self.nodes@[i].depth
    }

    /// Children and parent links agree, each child lies after its parent in the
    /// arena (so there are no cycles), a child is one level deeper than its
    /// parent, and only elements have children.
    pub open spec fn wf(&self) -> bool {
        &&& forall|i: int, k: int|
            #![trigger self.kids(i)[k]]
            self.valid(i) && 0 <= k < self.kids(i).len() ==> {
                let c = self.kids(i)[k] as int;
                &&& i < c < self.len()
                &&& self.parent_of(c) == Some(i as usize)
                &&& self.depth_of(c) == self.depth_of(i) + 1
            }
        &&& forall|i: int| #[trigger] self.valid(i) ==> self.kids(i).no_duplicates()
        &&& forall|i: int| #[trigger] self.valid(i) && !self.element(i) ==> self.kids(i).len() == 0
        &&& forall|c: int|
            #[trigger] self.valid(c) && self.parent_of(c).is_some() ==> {
                let p = self.parent_of(c).unwrap() as int;
                &&& p < c
                &&& self.kids(p).contains(c as usize)
            }
    }

    /// `v` is `a` or lies below it.
    pub open spec fn is_inclusive_descendant(&self, a: nat, v: nat) -> bool
        decreases v,
    {
        if v == a {
            true
        } else if v < self.len() {
            match self.parent_of(v as int) {
                Some(p) => if p < v {
                    self.is_inclusive_descendant(a, p as nat)
                } else {
                    false
                },
                None => false,
            }
        } else {
            false
        }
    }

    /// Number of nodes.
    pub fn size(&self) -> (r: usize)
        ensures
            r == self.len(),
    {
        self.nodes.len()
    }

    /// The children of node `i`, in document order.
    pub fn children(&self, i: usize) -> (r: &Vec<usize>)
        requires
            self.valid(i as int),
        ensures
            r@ == self.kids(i as int),
    {
        &self.nodes[i].children
    }

    /// Whether node `i` is an element.
    pub fn is_element(&self, i: usize) -> (r: bool)
        requires
            self.valid(i as int),
        ensures
            r == self.element(i as int),
    {
        self.nodes[i].is_element
    }

    /// Whether node `i` already has computed style.
    pub fn has_computed_style(&self, i: usize) -> (r: bool)
        requires
            self.valid(i as int),
        ensures
            r == self.styled(i as int),
    {
        self.nodes[i].has_style
    }

    /// Whether node `i` generates a box.
    pub fn is_displayed(&self, i: usize) -> (r: bool)
        requires
            self.valid(i as int),
        ensures
            r == self.shown(i as int),
    {
        self.nodes[i].displayed
    }

    /// Distance of node `i` from the top of the tree.
    pub fn depth(&self, i: usize) -> (r: usize)
        requires
            self.valid(i as int),
        ensures
            r == self.depth_of(i as int),
    {
        self.nodes[i].depth
    }

    /// A tree of one node, at depth zero.
    pub fn with_root(is_element: bool, has_style: bool, displayed: bool) -> (r: Tree)
        ensures
            r.wf(),
            r.len() == 1,
            r.parent_of(0) == None::<usize>,
            r.kids(0) == Seq::<usize>::empty(),
            r.element(0) == is_element,
            r.styled(0) == has_style,
            r.shown(0) == displayed,
            r.depth_of(0) == 0,
    {
        let root = Node {
            parent: None,
            children: Vec::new(),
            is_element,
            has_style,
            displayed,
            depth: 0,
        };
        let mut nodes: Vec<Node> = Vec::new();
        nodes.push(root);
        Tree { nodes }
    }

    /// Adds a node as the last child of `parent` and returns its index, the
    /// old number of nodes. Returns `None`, and leaves the tree as it was, when
    /// `parent` is not an element of the tree or an index or depth would not
    /// fit in `usize`.
    pub fn append_child(&mut self, parent: usize, is_element: bool, has_style: bool, displayed: bool) -> (r:
        Option<usize>)
        requires
            old(self).wf(),
        ensures
            final(self).wf(),
            match r {
                None => {
                    &&& *final(self) == *old(self)
                    &&& !(old(self).valid(parent as int) && old(self).element(parent as int)
                        && old(self).len() < usize::MAX && old(self).depth_of(parent as int)
                        < usize::MAX)
                },
                Some(c) => {
                    &&& old(self).valid(parent as int) && old(self).element(parent as int)
                    &&& c == old(self).len()
                    &&& final(self).len() == old(self).len() + 1
                    &&& final(self).kids(parent as int) == old(self).kids(parent as int).push(c)
                    &&& final(self).nodes@[parent as int].is_element
                    &&& final(self).nodes@[parent as int].has_style == old(self).styled(parent as int)
                    &&& final(self).nodes@[parent as int].displayed == old(self).shown(parent as int)
                    &&& final(self).nodes@[parent as int].depth == old(self).depth_of(parent as int)
                    &&& final(self).nodes@[parent as int].parent == old(self).parent_of(parent as int)
                    &&& forall|i: int|
                        0 <= i < old(self).len() && i != parent ==> final(self).nodes@[i]
                            == old(self).nodes@[i]
                    &&& final(self).parent_of(c as int) == Some(parent)
                    &&& final(self).kids(c as int) == Seq::<usize>::empty()
                    &&& final(self).element(c as int) == is_element
                    &&& final(self).styled(c as int) == has_style
                    &&& final(self).shown(c as int) == displayed
                    &&& final(self).depth_of(c as int) == old(self).depth_of(parent as int) + 1
                },
            },
    {
        let n = self.nodes.len();
        if parent >= n || !self.nodes[parent].is_element || n == usize::MAX
            || self.nodes[parent].depth == usize::MAX {
            return None;
        }
        let ghost before = *self;
        let child = Node {
            parent: Some(parent),
            children: Vec::new(),
            is_element,
            has_style,
            displayed,
            depth: self.nodes[parent].depth + 1,
        };
        self.nodes.push(child);
        self.nodes[parent].children.push(n);
        proof {
            assert forall|i: int| 0 <= i < before.len() && i != parent implies self.nodes@[i]
                == before.nodes@[i] by {}
            assert forall|i: int| #[trigger] self.valid(i) implies self.kids(i).no_duplicates() by {
                if i == parent {
                    assert(before.valid(i));
                    assert(!before.kids(i).contains(n)) by {
                        if before.kids(i).contains(n) {
                            let k = choose|k: int| 0 <= k < before.kids(i).len() && before.kids(i)[k] == n;
                            assert(before.kids(i)[k] < before.len());
                        }
                    }
                    assert forall|a: int, b: int| 0 <= a < b < self.kids(i).len() implies self.kids(i)[a]
                        != self.kids(i)[b] by {
                        if b == self.kids(i).len() - 1 {
                            assert(before.kids(i)[a] == self.kids(i)[a]);
                        } else {
                            assert(before.kids(i)[a] != before.kids(i)[b]);
                        }
                    }
                } else if i < n {
                    assert(before.valid(i));
                    assert(self.nodes@[i] == before.nodes@[i]);
                }
            }
            assert forall|i: int| #[trigger] self.valid(i) && !self.element(i) implies self.kids(
                i).len() == 0 by {
                if i < n && i != parent {
                    assert(before.valid(i));
                    assert(self.nodes@[i] == before.nodes@[i]);
                }
            }
            assert forall|i: int, k: int|
                #![trigger self.kids(i)[k]]
                self.valid(i) && 0 <= k < self.kids(i).len() implies {
                    let c = self.kids(i)[k] as int;
                    &&& i < c < self.len()
                    &&& self.parent_of(c) == Some(i as usize)
                    &&& self.depth_of(c) == self.depth_of(i) + 1
                } by {
                if i == parent && k == self.kids(i).len() - 1 {
                } else {
                    assert(self.kids(i)[k] == before.kids(i)[k]);
                }
            }
            assert forall|c: int|
                #[trigger] self.valid(c) && self.parent_of(c).is_some() implies {
                    let p = self.parent_of(c).unwrap() as int;
                    &&& p < c
                    &&& self.kids(p).contains(c as usize)
                } by {
                let p = self.parent_of(c).unwrap() as int;
                if c == n {
                    assert(self.kids(p)[self.kids(p).len() - 1] == n);
                } else {
                    assert(before.valid(c));
                    assert(before.parent_of(c) == self.parent_of(c));
                    assert(before.valid(p));
                    if p != parent {
                        assert(self.nodes@[p] == before.nodes@[p]);
                    }
                    assert(before.kids(p).contains(c as usize));
                    let k = choose|k: int| 0 <= k < before.kids(p).len() && before.kids(p)[k] == c;
                    assert(self.kids(p)[k] == c);
                }
            }
        }
        Some(n)
    }

    /// The children of `i` are nodes after it whose parent is `i`, one level
    /// deeper, with no repeats, and only an element has any.
    pub open spec fn kids_ok(&self, i: int) -> bool {
        &&& forall|k: int|
            #![trigger self.kids(i)[k]]
            0 <= k < self.kids(i).len() ==> {
                let c = self.kids(i)[k] as int;
                &&& i < c < self.len()
                &&& self.parent_of(c) == Some(i as usize)
                &&& self.depth_of(c) == self.depth_of(i) + 1
            }
        &&& self.kids(i).no_duplicates()
        &&& !self.element(i) ==> self.kids(i).len() == 0
    }

    /// The parent of `c`, if any, comes before it and lists it as a child.
    pub open spec fn parent_ok(&self, c: int) -> bool {
        self.parent_of(c).is_some() ==> {
            let p = self.parent_of(c).unwrap() as int;
            &&& p < c
            &&& self.kids(p).contains(c as usize)
        }
    }

    fn check_kids(&self, i: usize) -> (r: bool)
        requires
            self.valid(i as int),
        ensures
            r == self.kids_ok(i as int),
    {
        let n = self.nodes.len();
        let kids = &self.nodes[i].children;
        let d = self.nodes[i].depth;
        if !self.nodes[i].is_element && kids.len() > 0 {
            return false;
        }
        let mut k: usize = 0;
        while k < kids.len()
            invariant
                self.valid(i as int),
                n == self.len(),
                d == self.depth_of(i as int),
                kids@ == self.kids(i as int),
                k <= kids@.len(),
                forall|a: int|
                    #![trigger kids@[a]]
                    0 <= a < k ==> {
                        let c = kids@[a] as int;
                        &&& i < c < n
                        &&& self.parent_of(c) == Some(i)
                        &&& self.depth_of(c) == d + 1
                    },
                forall|a: int, b: int| 0 <= a < b < k ==> kids@[a] != kids@[b],
            decreases kids@.len() - k,
        {
            let c = kids[k];
            if c <= i || c >= n || self.nodes[c].parent != Some(i) || d == usize::MAX
                || self.nodes[c].depth != d + 1 {
                return false;
            }
            let mut b: usize = 0;
            while b < k
                invariant
                    k < kids@.len(),
                    kids@ == self.kids(i as int),
                    c == kids@[k as int],
                    b <= k,
                    forall|x: int| 0 <= x < b ==> kids@[x] != c,
                decreases k - b,
            {
                if kids[b] == c {
                    proof {
                        assert(kids@[b as int] == kids@[k as int]);
                    }
                    return false;
                }
                b = b + 1;
            }
            k = k + 1;
        }
        true
    }

    fn check_parent(&self, c: usize) -> (r: bool)
        requires
            self.valid(c as int),
        ensures
            r == self.parent_ok(c as int),
    {
        match self.nodes[c].parent {
            None => true,
            Some(p) => {
                if p >= c {
                    return false;
                }
                let kids = &self.nodes[p].children;
                let mut k: usize = 0;
                while k < kids.len()
                    invariant
                        p < c,
                        self.valid(c as int),
                        self.parent_of(c as int) == Some(p),
                        kids@ == self.kids(p as int),
                        k <= kids@.len(),
                        forall|x: int| 0 <= x < k ==> kids@[x] != c,
                    decreases kids@.len() - k,
                {
                    if kids[k] == c {
                        proof {
                            assert(self.kids(p as int)[k as int] == c);
                            assert(self.kids(p as int).contains(c));
                        }
                        return true;
                    }
                    k = k + 1;
                }
                false
            },
        }
    }

    /// Whether the tree is well formed, as `wf` states.
    pub fn is_well_formed(&self) -> (r: bool)
        ensures
            r == self.wf(),
    {
        let mut i: usize = 0;
        while i < self.nodes.len()
            invariant
                i <= self.len(),
                forall|j: int| 0 <= j < i ==> self.kids_ok(j) && self.parent_ok(j),
            decreases self.len() - i,
        {
            if !self.check_kids(i) || !self.check_parent(i) {
                proof {
                    assert(!self.kids_ok(i as int) || !self.parent_ok(i as int));
                    if self.wf() {
                        assert(self.valid(i as int));
                        assert(self.kids_ok(i as int));
                    }
                }
                return false;
            }
            i = i + 1;
        }
        proof {
            assert forall|j: int| #[trigger] self.valid(j) implies self.kids_ok(j) && self.parent_ok(j) by {}
        }
        true
    }
}

} // verus!
