use vstd::prelude::*;

verus! {

/// A labelled, weighted tree.
///
/// A node's `value` is its weight among its siblings. An internal node is
/// expected (not required) to weigh the sum of its children.
#[derive(Debug)]
pub struct Tree {
    pub name: String,
    pub value: u32,
    pub children: Vec<Tree>,
}

/// Mathematical model of a `Tree`.
pub ghost struct Node {
    pub name: Seq<char>,
    pub value: nat,
    pub children: Seq<Node>,
}

/// The models of a sequence of trees.
pub open spec fn views(s: Seq<Tree>) -> Seq<Node>
    decreases s,
{
    if s.len() == 0 {
        Seq::empty()
    } else {
        views(s.subrange(0, s.len() - 1)).push(s[s.len() - 1].view())
    }
}

impl View for Tree {
    type V = Node;

    open spec fn view(&self) -> Node
        decreases self,
    {
        Node { name: self.name@, value: self.value as nat, children: views(self.children@) }
    }
}


/// Facts linking `views` to indexing.
pub proof fn lemma_views(s: Seq<Tree>)
    ensures
        views(s).len() == s.len(),
        forall|i: int| 0 <= i < s.len() ==> #[trigger] views(s)[i] == s[i]@,
    decreases s.len(),
{
    if s.len() > 0 {
        let t = s.subrange(0, s.len() - 1);
        lemma_views(t);
        assert(views(s) == views(t).push(s[s.len() - 1]@));
        assert forall|i: int| 0 <= i < s.len() implies #[trigger] views(s)[i] == s[i]@ by {
            if i < t.len() {
                assert(views(s)[i] == views(t)[i]);
                assert(t[i] == s[i]);
            }
        }
    }
}

/// Sum of the weights of `s[lo..hi]`.
pub open spec fn sum_range(s: Seq<Node>, lo: int, hi: int) -> int
    decreases hi - lo,
{
    if hi <= lo {
        0
    } else {
        sum_range(s, lo, hi - 1) + s[hi - 1].value
    }
}

/// Sum of the weights of all of `s`.
pub open spec fn weight(s: Seq<Node>) -> int {
    sum_range(s, 0, s.len() as int)
}

/// Every sibling group in the tree weighs at most `u32::MAX` in total.
pub open spec fn fits(n: Node) -> bool
    decreases n,
{
    &&& weight(n.children) <= u32::MAX
    &&& forall|i: int| 0 <= i < n.children.len() ==> fits(#[trigger] n.children[i])
}

/// Index of the first item of `s` from `i` on that weighs less than `v`
/// (or the length, if there is none).
pub open spec fn first_lighter(s: Seq<Node>, v: nat, i: int) -> int
    decreases s.len() - i,
{
    if 0 <= i < s.len() && s[i].value >= v {
        first_lighter(s, v, i + 1)
    } else {
        i
    }
}

/// Stable sort by weight, heaviest first: each item, in order, enters after
/// every item at least as heavy.
pub open spec fn sort_desc(s: Seq<Node>) -> Seq<Node>
    decreases s.len(),
{
    if s.len() == 0 {
        s
    } else {
        let r = sort_desc(s.subrange(0, s.len() - 1));
        let x = s[s.len() - 1];
        r.insert(first_lighter(r, x.value, 0), x)
    }
}

/// The tree with every sibling group stably sorted, heaviest first.
pub open spec fn normalized(n: Node) -> Node
    decreases n,
{
    Node { name: n.name, value: n.value, children: sort_desc(normalized_all(n.children)) }
}

/// `normalized` applied to each item.
pub open spec fn normalized_all(s: Seq<Node>) -> Seq<Node>
    decreases s,
{
    if s.len() == 0 {
        s
    } else {
        normalized_all(s.subrange(0, s.len() - 1)).push(normalized(s[s.len() - 1]))
    }
}

/// Weights never increase along `s`.
pub open spec fn sorted_desc(s: Seq<Node>) -> bool {
    forall|i: int| 0 <= i < s.len() - 1 ==> #[trigger] s[i].value >= s[i + 1].value
}

/// Every sibling group of the tree is sorted, heaviest first.
pub open spec fn sorted_deep(n: Node) -> bool
    decreases n,
{
    &&& sorted_desc(n.children)
    &&& forall|i: int| 0 <= i < n.children.len() ==> sorted_deep(#[trigger] n.children[i])
}


/// Two sequences with equal weights on `[lo, hi)` have equal sums there.
pub proof fn lemma_sum_range_same(a: Seq<Node>, b: Seq<Node>, lo: int, hi: int)
    requires
        forall|k: int| lo <= k < hi ==> #[trigger] a[k].value == b[k].value,
    ensures
        sum_range(a, lo, hi) == sum_range(b, lo, hi),
    decreases hi - lo,
{
    if hi > lo {
        lemma_sum_range_same(a, b, lo, hi - 1);
    }
}

/// Splitting a range splits its sum.
pub proof fn lemma_sum_range_split(s: Seq<Node>, lo: int, mid: int, hi: int)
    requires
        lo <= mid <= hi,
    ensures
        sum_range(s, lo, hi) == sum_range(s, lo, mid) + sum_range(s, mid, hi),
    decreases hi - mid,
{
    if hi > mid {
        lemma_sum_range_split(s, lo, mid, hi - 1);
    }
}

/// Sums over a range are never negative.
pub proof fn lemma_sum_range_nonneg(s: Seq<Node>, lo: int, hi: int)
    ensures
        sum_range(s, lo, hi) >= 0,
    decreases hi - lo,
{
    if hi > lo {
        lemma_sum_range_nonneg(s, lo, hi - 1);
    }
}

/// Inserting an item adds its weight to every prefix that covers it.
pub proof fn lemma_sum_range_insert(s: Seq<Node>, p: int, y: Node, hi: int)
    requires
        0 <= p <= s.len(),
        0 <= hi <= s.len() + 1,
    ensures
        sum_range(s.insert(p, y), 0, hi) == if hi <= p {
            sum_range(s, 0, hi)
        } else {
            sum_range(s, 0, hi - 1) + y.value
        },
    decreases hi,
{
    let t = s.insert(p, y);
    if hi == 0 {
    } else if hi <= p {
        lemma_sum_range_insert(s, p, y, hi - 1);
        assert(t[hi - 1] == s[hi - 1]);
    } else if hi == p + 1 {
        lemma_sum_range_insert(s, p, y, hi - 1);
    } else {
        lemma_sum_range_insert(s, p, y, hi - 1);
        assert(t[hi - 1] == s[hi - 2]);
    }
}

/// What `first_lighter` finds, when every item before `i` is at least `v`.
pub proof fn lemma_first_lighter(s: Seq<Node>, v: nat, i: int)
    requires
        0 <= i <= s.len(),
        forall|j: int| 0 <= j < i ==> #[trigger] s[j].value >= v,
    ensures
        i <= first_lighter(s, v, i) <= s.len(),
        forall|j: int| 0 <= j < first_lighter(s, v, i) ==> #[trigger] s[j].value >= v,
        first_lighter(s, v, i) < s.len() ==> s[first_lighter(s, v, i)].value < v,
    decreases s.len() - i,
{
    if i < s.len() && s[i].value >= v {
        lemma_first_lighter(s, v, i + 1);
    }
}

/// Sorting keeps the length and the total weight, yields a descending
/// sequence, and keeps any property that every item has.
pub proof fn lemma_sort_desc(s: Seq<Node>, keep: spec_fn(Node) -> bool)
    requires
        forall|i: int| 0 <= i < s.len() ==> keep(#[trigger] s[i]),
    ensures
        sort_desc(s).len() == s.len(),
        sorted_desc(sort_desc(s)),
        weight(sort_desc(s)) == weight(s),
        forall|i: int| 0 <= i < s.len() ==> keep(#[trigger] sort_desc(s)[i]),
    decreases s.len(),
{
    if s.len() > 0 {
        let t = s.subrange(0, s.len() - 1);
        let x = s[s.len() - 1];
        assert forall|i: int| 0 <= i < t.len() implies keep(#[trigger] t[i]) by {
            assert(t[i] == s[i]);
        }
        lemma_sort_desc(t, keep);
        let r = sort_desc(t);
        lemma_first_lighter(r, x.value, 0);
        let p = first_lighter(r, x.value, 0);
        let q = r.insert(p, x);
        assert(sort_desc(s) == q);
        assert forall|i: int| 0 <= i < q.len() - 1 implies #[trigger] q[i].value >= q[i + 1].value by {
            if i < p - 1 {
                assert(q[i] == r[i] && q[i + 1] == r[i + 1]);
            } else if i == p - 1 {
                assert(q[i] == r[i]);
            } else if i == p {
                assert(q[i + 1] == r[p]);
            } else {
                assert(q[i] == r[i - 1] && q[i + 1] == r[i]);
            }
        }
        assert forall|i: int| 0 <= i < q.len() implies keep(#[trigger] q[i]) by {
            if i < p {
                assert(q[i] == r[i]);
            } else if i > p {
                assert(q[i] == r[i - 1]);
            }
        }
        lemma_sum_range_insert(r, p, x, q.len() as int);
        lemma_sum_range_same(s, t, 0, t.len() as int);
    }
}


/// `normalized_all` keeps the length and works item by item.
pub proof fn lemma_normalized_all(s: Seq<Node>)
    ensures
        normalized_all(s).len() == s.len(),
        forall|i: int| 0 <= i < s.len() ==> #[trigger] normalized_all(s)[i] == normalized(s[i]),
    decreases s.len(),
{
    if s.len() > 0 {
        let t = s.subrange(0, s.len() - 1);
        lemma_normalized_all(t);
        assert forall|i: int| 0 <= i < s.len() implies #[trigger] normalized_all(s)[i] == normalized(
            s[i],
        ) by {
            if i < t.len() {
                assert(t[i] == s[i]);
            }
        }
    }
}

/// Normalizing keeps the name, the weight and the number of children,
/// sorts every level, and keeps a tree that fits fitting.
pub proof fn lemma_normalized(n: Node)
    ensures
        normalized(n).name == n.name,
        normalized(n).value == n.value,
        normalized(n).children.len() == n.children.len(),
        weight(normalized(n).children) == weight(n.children),
        sorted_deep(normalized(n)),
        fits(n) ==> fits(normalized(n)),
    decreases n,
{
    let c = n.children;
    let a = normalized_all(c);
    lemma_normalized_all(c);
    assert forall|i: int| 0 <= i < c.len() implies sorted_deep(#[trigger] a[i]) && (fits(c[i])
        ==> fits(a[i])) && a[i].value == c[i].value by {
        lemma_normalized(c[i]);
    }
    lemma_sum_range_same(a, c, 0, c.len() as int);
    let keep = |m: Node| sorted_deep(m);
    lemma_sort_desc(a, keep);
    if fits(n) {
        let keep_fit = |m: Node| sorted_deep(m) && fits(m);
        lemma_sort_desc(a, keep_fit);
    }
}


proof fn lemma_views_insert(s: Seq<Tree>, p: int, x: Tree)
    requires
        0 <= p <= s.len(),
    ensures
        views(s.insert(p, x)) == views(s).insert(p, x@),
{
    lemma_views(s);
    lemma_views(s.insert(p, x));
    assert(views(s.insert(p, x)) =~= views(s).insert(p, x@));
}

/// A copy of `tree` with every sibling group stably sorted by weight,
/// heaviest first.
pub fn normalize(tree: &Tree) -> (r: Tree)
    ensures
        r@ == normalized(tree@),
        sorted_deep(r@),
    decreases tree,
{
    let ghost c = tree@.children;
    proof {
        lemma_views(tree.children@);
        lemma_normalized_all(c);
        lemma_normalized(tree@);
    }
    let mut kids: Vec<Tree> = Vec::new();
    let mut i: usize = 0;
    while i < tree.children.len()
        invariant
            i <= tree.children.len(),
            c == views(tree.children@),
            c.len() == tree.children.len(),
            forall|k: int| 0 <= k < c.len() ==> #[trigger] c[k] == tree.children@[k]@,
            views(kids@) == sort_desc(normalized_all(c.subrange(0, i as int))),
        decreases tree.children.len() - i,
    {
        assert(decreases_to!(tree => tree.children@[i as int]));
        let child = normalize(&tree.children[i]);
        let v = child.value;
        let ghost old_views = views(kids@);
        proof {
            lemma_views(kids@);
        }
        let mut p: usize = 0;
        while p < kids.len() && kids[p].value >= v
            invariant
                p <= kids.len(),
                views(kids@) == old_views,
                old_views.len() == kids.len(),
                forall|k: int| 0 <= k < kids.len() ==> #[trigger] old_views[k] == kids@[k]@,
                first_lighter(old_views, v as nat, p as int) == first_lighter(
                    old_views,
                    v as nat,
                    0,
                ),
            decreases kids.len() - p,
        {
            p = p + 1;
        }
        proof {
            lemma_views_insert(kids@, p as int, child);
            let t = c.subrange(0, i as int + 1);
            assert(t.subrange(0, i as int) == c.subrange(0, i as int));
            assert(t[i as int] == c[i as int]);
            let xs = normalized_all(c.subrange(0, i as int));
            let ys = normalized_all(t);
            assert(ys == xs.push(child@));
            assert(ys.subrange(0, ys.len() - 1) == xs);
            assert(ys[ys.len() - 1] == child@);
            assert(first_lighter(old_views, v as nat, p as int) == p);
            assert(sort_desc(ys) == old_views.insert(p as int, child@));
        }
        kids.insert(p, child);
        i = i + 1;
    }
    proof {
        assert(c.subrange(0, c.len() as int) == c);
    }
    Tree { name: tree.name.clone(), value: tree.value, children: kids }
}


/// Whether every sibling group of `tree` weighs at most `u32::MAX` in total.
pub fn weights_fit(tree: &Tree) -> (r: bool)
    ensures
        r == fits(tree@),
    decreases tree,
{
    let ghost c = tree@.children;
    proof {
        lemma_views(tree.children@);
    }
    let mut sum: u64 = 0;
    let mut i: usize = 0;
    while i < tree.children.len()
        invariant
            i <= tree.children.len(),
            c == views(tree.children@),
            c.len() == tree.children.len(),
            forall|k: int| 0 <= k < c.len() ==> #[trigger] c[k] == tree.children@[k]@,
            sum == sum_range(c, 0, i as int),
            sum <= u32::MAX,
        decreases tree.children.len() - i,
    {
        sum = sum + tree.children[i].value as u64;
        i = i + 1;
        if sum > u32::MAX as u64 {
            proof {
                lemma_sum_range_split(c, 0, i as int, c.len() as int);
                lemma_sum_range_nonneg(c, i as int, c.len() as int);
            }
            return false;
        }
    }
    let mut j: usize = 0;
    while j < tree.children.len()
        invariant
            j <= tree.children.len(),
            c == views(tree.children@),
            c.len() == tree.children.len(),
            forall|k: int| 0 <= k < c.len() ==> #[trigger] c[k] == tree.children@[k]@,
            weight(c) <= u32::MAX,
            forall|k: int| 0 <= k < j ==> fits(#[trigger] c[k]),
        decreases tree.children.len() - j,
    {
        assert(decreases_to!(tree => tree.children@[j as int]));
        if !weights_fit(&tree.children[j]) {
            assert(!fits(tree@.children[j as int]));
            return false;
        }
        j = j + 1;
    }
    true
}

} // verus!
