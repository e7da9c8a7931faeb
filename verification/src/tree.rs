use vstd::prelude::*;
use crate::text::lemma_push_deep_view;
use crate::text::str_eq;

verus! {

broadcast use vstd::std_specs::vec::group_vec_axioms;

/// A symbolic-expression tree: a single token's text, or an ordered group of
/// zero or more sub-trees (a parenthesized form).
#[derive(Debug, PartialEq, Eq)]
pub enum SexprTree {
    Sym(String),
    Sub(Vec<SexprTree>),
}

/// The mathematical picture of a tree: token text as character sequences.
pub enum TreeSpec {
    Sym(Seq<char>),
    Sub(Seq<TreeSpec>),
}

/// The mathematical picture of one tree value.
pub open spec fn tree_view(t: SexprTree) -> TreeSpec
    decreases t, 0nat,
{
    match t {
        SexprTree::Sym(s) => TreeSpec::Sym(s@),
        SexprTree::Sub(v) => TreeSpec::Sub(tree_views(v@)),
    }
}

/// The mathematical picture of a sequence of tree values.
pub open spec fn tree_views(v: Seq<SexprTree>) -> Seq<TreeSpec>
    decreases v, 1nat,
{
    if v.len() == 0 {
        Seq::empty()
    } else {
        seq![tree_view(v[0])] + tree_views(v.drop_first())
    }
}

/// `tree_views` maps the sequence pointwise.
pub proof fn lemma_tree_views(v: Seq<SexprTree>)
    ensures
        tree_views(v).len() == v.len(),
        forall|i: int| 0 <= i < v.len() ==> tree_views(v)[i] == tree_view(v[i]),
    decreases v.len(),
{
    if v.len() > 0 {
        lemma_tree_views(v.drop_first());
        assert forall|i: int| 0 <= i < v.len() implies tree_views(v)[i] == tree_view(v[i]) by {
            if i > 0 {
                assert(tree_views(v)[i] == tree_views(v.drop_first())[i - 1]);
                assert(v.drop_first()[i - 1] == v[i]);
            }
        }
    }
}

/// Appending one tree appends its picture.
pub proof fn lemma_tree_views_push(v: Seq<SexprTree>, t: SexprTree)
    ensures
        tree_views(v.push(t)) == tree_views(v).push(tree_view(t)),
{
    lemma_tree_views(v.push(t));
    lemma_tree_views(v);
    assert(tree_views(v.push(t)) =~= tree_views(v).push(tree_view(t)));
}

impl View for SexprTree {
    type V = TreeSpec;

    open spec fn view(&self) -> TreeSpec {
        tree_view(*self)
    }
}

/// The leftmost leaf symbol reachable by always descending into the first
/// child of a group; none if an empty group is reached on the way down.
pub open spec fn head_spec(t: TreeSpec) -> Option<Seq<char>>
    decreases t,
{
    match t {
        TreeSpec::Sym(s) => Some(s),
        TreeSpec::Sub(v) => if v.len() == 0 {
            None
        } else {
            head_spec(v[0])
        },
    }
}

/// The text of every symbol in the tree, in depth-first, left-to-right
/// order; groups contribute only their descendants' symbols.
pub open spec fn flat_spec(t: TreeSpec) -> Seq<Seq<char>>
    decreases t, 0nat,
{
    match t {
        TreeSpec::Sym(s) => seq![s],
        TreeSpec::Sub(v) => flat_list(v),
    }
}

/// The symbols of a sequence of trees, in order.
pub open spec fn flat_list(v: Seq<TreeSpec>) -> Seq<Seq<char>>
    decreases v, 1nat,
{
    if v.len() == 0 {
        Seq::empty()
    } else {
        flat_spec(v[0]) + flat_list(v.drop_first())
    }
}

/// Flattening distributes over concatenation of tree sequences.
pub proof fn lemma_flat_list_add(a: Seq<TreeSpec>, b: Seq<TreeSpec>)
    ensures
        flat_list(a + b) == flat_list(a) + flat_list(b),
    decreases a.len(),
{
    if a.len() == 0 {
        assert(a + b =~= b);
        assert(flat_list(a) == Seq::<Seq<char>>::empty());
        assert(flat_list(a) + flat_list(b) =~= flat_list(b));
    } else {
        assert((a + b).len() > 0);
        assert((a + b)[0] == a[0]);
        assert((a + b).drop_first() =~= a.drop_first() + b);
        lemma_flat_list_add(a.drop_first(), b);
        assert(flat_list(a + b) == flat_spec(a[0]) + (flat_list(a.drop_first()) + flat_list(b)));
        assert(flat_spec(a[0]) + (flat_list(a.drop_first()) + flat_list(b)) =~= (flat_spec(a[0])
            + flat_list(a.drop_first())) + flat_list(b));
    }
}

/// Appending one tree to a sequence appends that tree's symbols.
pub proof fn lemma_flat_list_push(v: Seq<TreeSpec>, t: TreeSpec)
    ensures
        flat_list(v.push(t)) == flat_list(v) + flat_spec(t),
{
    assert(v.push(t) =~= v + seq![t]);
    lemma_flat_list_add(v, seq![t]);
    assert(seq![t].drop_first() =~= Seq::<TreeSpec>::empty());
    assert(flat_list(seq![t].drop_first()) == Seq::<Seq<char>>::empty());
    assert(flat_list(seq![t]) =~= flat_spec(t));
}

impl SexprTree {
    /// True iff the tree is a symbol whose text equals `target`.
    pub fn is(&self, target: &str) -> (r: bool)
        ensures
            r == (self@ matches TreeSpec::Sym(s) && s == target@),
    {
        match self {
            SexprTree::Sub(_) => false,
            SexprTree::Sym(s) => str_eq(s.as_str(), target),
        }
    }

    /// The leftmost leaf symbol, per `head_spec`.
    pub fn head(&self) -> (r: Option<String>)
        ensures
            match r {
                Some(s) => head_spec(self@) == Some(s@),
                None => head_spec(self@) is None,
            },
        decreases self,
    {
        match self {
            SexprTree::Sym(s) => Some(s.clone()),
            SexprTree::Sub(v) => if v.len() == 0 {
                None
            } else {
                proof {
                    lemma_tree_views(v@);
                }
                v[0].head()
            },
        }
    }

    /// Every symbol of the tree in depth-first, left-to-right order, per
    /// `flat_spec`.
    pub fn flatten(&self) -> (r: Vec<String>)
        ensures
            r.deep_view() == flat_spec(self@),
    {
        let mut result = Vec::new();
        self.flatten_help(&mut result);
        proof {
            assert(Seq::<Seq<char>>::empty() + flat_spec(self@) =~= flat_spec(self@));
        }
        result
    }

    #[verifier::loop_isolation(false)]
    fn flatten_help(&self, flattened: &mut Vec<String>)
        ensures
            final(flattened).deep_view() == old(flattened).deep_view() + flat_spec(self@),
        decreases self,
    {
        match self {
            SexprTree::Sym(s) => {
                flattened.push(s.clone());
                proof {
                    lemma_push_deep_view(*old(flattened), *flattened, *s);
                    assert(old(flattened).deep_view().push(s@) =~= old(flattened).deep_view()
                        + flat_spec(self@));
                }
            },
            SexprTree::Sub(v) => {
                let ghost w = tree_views(v@);
                proof {
                    lemma_tree_views(v@);
                    assert(w.take(0) =~= Seq::<TreeSpec>::empty());
                    assert(flattened.deep_view() + flat_list(w.take(0)) =~= flattened.deep_view());
                }
                let mut k: usize = 0;
                while k < v.len()
                    invariant
                        k <= v@.len(),
                        w == tree_views(v@),
                        w.len() == v@.len(),
                        forall|i: int| 0 <= i < v@.len() ==> w[i] == tree_view(v@[i]),
                        self@ == TreeSpec::Sub(w),
                        flattened.deep_view() == old(flattened).deep_view() + flat_list(
                            w.take(k as int),
                        ),
                    decreases v@.len() - k,
                {
                    v[k].flatten_help(flattened);
                    proof {
                        assert(w.take(k + 1) =~= w.take(k as int).push(w[k as int]));
                        lemma_flat_list_push(w.take(k as int), w[k as int]);
                        assert(old(flattened).deep_view() + flat_list(w.take(k as int)) + flat_spec(
                            w[k as int],
                        ) =~= old(flattened).deep_view() + flat_list(w.take(k + 1)));
                    }
                    k += 1;
                }
                proof {
                    assert(w.take(v@.len() as int) =~= w);
                }
            },
        }
    }
}

} // verus!
