use vstd::prelude::*;
use vstd::relations::{sorted_by, total_ordering};
use vstd::seq_lib::{group_to_multiset_ensures, to_multiset_build, to_multiset_contains, to_multiset_remove};
use vstd::multiset::group_multiset_axioms;

verus! {

/// An element ordered through a ghost model: the model order is total,
/// and the executable comparison decides it.
pub trait OrderedByModel: Sized {
    /// The ghost model the order speaks about.
    type Model;

    /// The model of one element.
    spec fn model(&self) -> Self::Model;

    /// The model order, as less-or-equal.
    spec fn model_le(a: Self::Model, b: Self::Model) -> bool;

    /// The model order is a total ordering.
    proof fn lemma_model_le_total()
        ensures
            total_ordering(|a: Self::Model, b: Self::Model| Self::model_le(a, b)),
    ;

    /// Executable comparison deciding the model order.
    fn le(&self, other: &Self) -> (r: bool)
        ensures
            r == Self::model_le(self.model(), other.model()),
    ;
}

/// The models of the elements of a sequence, in order.
pub open spec fn models_of<T: OrderedByModel>(v: Seq<T>) -> Seq<T::Model> {
    v.map_values(|x: T| x.model())
}

/// Mapping to models commutes with removing an element.
proof fn lemma_models_remove<T: OrderedByModel>(v: Seq<T>, i: int)
    requires
        0 <= i < v.len(),
    ensures
        models_of::<T>(v.remove(i)) =~= models_of::<T>(v).remove(i),
{
}

/// Mapping to models commutes with appending an element.
proof fn lemma_models_push<T: OrderedByModel>(v: Seq<T>, x: T)
    ensures
        models_of::<T>(v.push(x)) =~= models_of::<T>(v).push(x.model()),
{
}

/// Selection sort on the model order. The models of the result are
/// sorted by the order and form the same multiset as the models of the
/// input; with a total order those two facts pin the model sequence.
pub fn sort_by_model<T: OrderedByModel>(input: Vec<T>) -> (r: Vec<T>)
    ensures
        sorted_by(models_of::<T>(r@), |a: T::Model, b: T::Model| T::model_le(a, b)),
        models_of::<T>(r@).to_multiset() == models_of::<T>(input@).to_multiset(),
        r@.to_multiset() == input@.to_multiset(),
{
    broadcast use group_to_multiset_ensures;
    broadcast use group_multiset_axioms;

    let ghost leq = |a: T::Model, b: T::Model| T::model_le(a, b);
    let ghost orig = models_of::<T>(input@);
    let ghost orig_vals = input@;
    proof {
        T::lemma_model_le_total();
    }
    let mut rest = input;
    let mut out: Vec<T> = Vec::new();
    proof {
        assert(vstd::relations::reflexive(leq));
    }
    while rest.len() > 0
        invariant
            total_ordering(leq),
            leq == (|a: T::Model, b: T::Model| T::model_le(a, b)),
            sorted_by(models_of::<T>(out@), leq),
            models_of::<T>(out@).to_multiset().add(models_of::<T>(rest@).to_multiset())
                == orig.to_multiset(),
            out@.to_multiset().add(rest@.to_multiset()) == orig_vals.to_multiset(),
            forall|i: int, j: int|
                0 <= i < out@.len() && 0 <= j < rest@.len() ==> T::model_le(
                    #[trigger] out@[i].model(),
                    #[trigger] rest@[j].model(),
                ),
        decreases rest.len(),
    {
        let mut best: usize = 0;
        let mut j: usize = 1;
        proof {
            assert(leq(rest@[0].model(), rest@[0].model()));
        }
        while j < rest.len()
            invariant
                total_ordering(leq),
                leq == (|a: T::Model, b: T::Model| T::model_le(a, b)),
                rest@.len() > 0,
                0 <= best < j,
                1 <= j <= rest@.len(),
                forall|k: int|
                    0 <= k < j ==> T::model_le(
                        rest@[best as int].model(),
                        #[trigger] rest@[k].model(),
                    ),
            decreases rest.len() - j,
        {
            if rest[j].le(&rest[best]) {
                proof {
                    let m_new = rest@[j as int].model();
                    let m_old = rest@[best as int].model();
                    assert forall|k: int| 0 <= k < j + 1 implies T::model_le(
                        m_new,
                        #[trigger] rest@[k].model(),
                    ) by {
                        if k < j {
                            assert(leq(m_new, m_old));
                            assert(leq(m_old, rest@[k].model()));
                            assert(vstd::relations::transitive(leq));
                            assert(leq(m_new, rest@[k].model()));
                        } else {
                            assert(vstd::relations::reflexive(leq));
                            assert(leq(m_new, m_new));
                        }
                    }
                }
                best = j;
            } else {
                proof {
                    let m_j = rest@[j as int].model();
                    let m_best = rest@[best as int].model();
                    assert(vstd::relations::strongly_connected(leq));
                    assert(leq(m_j, m_best) || leq(m_best, m_j));
                    assert(T::model_le(m_best, m_j));
                }
            }
            j += 1;
        }
        let ghost rest_pre = rest@;
        let ghost out_pre = out@;
        let ghost mx = rest@[best as int].model();
        let x = rest.remove(best);
        proof {
            lemma_models_remove::<T>(rest_pre, best as int);
            assert(models_of::<T>(rest_pre)[best as int] == mx);
            to_multiset_remove::<T::Model>(models_of::<T>(rest_pre), best as int);
            assert(models_of::<T>(rest@).to_multiset() == models_of::<T>(
                rest_pre,
            ).to_multiset().remove(mx));
            to_multiset_remove::<T>(rest_pre, best as int);
            assert(rest@.to_multiset() == rest_pre.to_multiset().remove(rest_pre[best as int]));
        }
        out.push(x);
        proof {
            lemma_models_push::<T>(out_pre, x);
            assert(x.model() == mx);
            to_multiset_build::<T::Model>(models_of::<T>(out_pre), mx);
            assert(models_of::<T>(out@).to_multiset() == models_of::<T>(
                out_pre,
            ).to_multiset().insert(mx));
            // the multiset balance is preserved
            assert(models_of::<T>(rest_pre).contains(mx)) by {
                assert(models_of::<T>(rest_pre)[best as int] == mx);
            }
            to_multiset_contains::<T::Model>(models_of::<T>(rest_pre), mx);
            assert(models_of::<T>(rest_pre).to_multiset().count(mx) > 0);
            assert(models_of::<T>(out@).to_multiset().add(models_of::<T>(rest@).to_multiset())
                =~= orig.to_multiset());
            to_multiset_build::<T>(out_pre, x);
            assert(out@.to_multiset() == out_pre.to_multiset().insert(x));
            assert(rest_pre.contains(rest_pre[best as int])) by {
                assert(0 <= best < rest_pre.len());
            }
            to_multiset_contains::<T>(rest_pre, rest_pre[best as int]);
            assert(rest_pre.to_multiset().count(rest_pre[best as int]) > 0);
            assert(out@.to_multiset().add(rest@.to_multiset()) =~= orig_vals.to_multiset());
            // the appended element keeps the output sorted
            assert forall|i: int, jj: int|
                0 <= i <= jj < models_of::<T>(out@).len() implies leq(
                models_of::<T>(out@)[i],
                models_of::<T>(out@)[jj],
            ) by {
                if jj < out_pre.len() {
                } else {
                    if i < out_pre.len() {
                        assert(T::model_le(out_pre[i].model(), rest_pre[best as int].model()));
                    } else {
                        assert(vstd::relations::reflexive(leq));
                    }
                }
            }
            // every element already emitted precedes every remaining one
            assert forall|i: int, jj: int|
                0 <= i < out@.len() && 0 <= jj < rest@.len() implies T::model_le(
                #[trigger] out@[i].model(),
                #[trigger] rest@[jj].model(),
            ) by {
                let m_r = rest@[jj].model();
                let ghost orig_jj = if jj < best { jj } else { jj + 1 };
                assert(rest@[jj] == rest_pre[orig_jj]);
                if i < out_pre.len() {
                    assert(T::model_le(out_pre[i].model(), rest_pre[orig_jj].model()));
                } else {
                    assert(out@[i].model() == mx);
                    assert(T::model_le(mx, rest_pre[orig_jj].model()));
                }
            }
        }
    }
    out
}

/// Everything in a permutation was among the originals.
pub proof fn lemma_permutation_member<T>(pre: Seq<T>, post: Seq<T>, j: int)
    requires
        pre.to_multiset() == post.to_multiset(),
        0 <= j < post.len(),
    ensures
        exists|k: int| 0 <= k < pre.len() && pre[k] == post[j],
{
    to_multiset_contains::<T>(post, post[j]);
    assert(post.contains(post[j]));
    assert(post.to_multiset().count(post[j]) > 0);
    to_multiset_contains::<T>(pre, post[j]);
    assert(pre.contains(post[j]));
}

/// Pairwise-distinct keys survive a permutation.
pub proof fn lemma_permutation_distinct<T, K>(
    pre: Seq<T>,
    post: Seq<T>,
    key: spec_fn(T) -> K,
    p: int,
    q: int,
)
    requires
        pre.to_multiset() == post.to_multiset(),
        forall|x: int, y: int| 0 <= x < y < pre.len() ==> key(#[trigger] pre[x]) != key(
            #[trigger] pre[y],
        ),
        0 <= p < q < post.len(),
    ensures
        key(post[p]) != key(post[q]),
{
    broadcast use group_multiset_axioms;

    lemma_permutation_member::<T>(pre, post, p);
    lemma_permutation_member::<T>(pre, post, q);
    let xp = choose|x: int| 0 <= x < pre.len() && pre[x] == post[p];
    let xq = choose|x: int| 0 <= x < pre.len() && pre[x] == post[q];
    if xp == xq {
        // one source value would have to appear twice
        assert(post[p] == post[q]);
        let v = post[p];
        to_multiset_remove::<T>(post, q);
        assert(post.remove(q).to_multiset() == post.to_multiset().remove(v));
        assert(post.remove(q)[p] == v);
        to_multiset_contains::<T>(post.remove(q), v);
        assert(post.remove(q).contains(v));
        assert(post.to_multiset().count(v) >= 2);
        assert(pre.to_multiset().count(v) >= 2);
        assert(pre.no_duplicates()) by {
            assert forall|x: int, y: int|
                0 <= x < pre.len() && 0 <= y < pre.len() && x != y implies pre[x] != pre[y] by {
                if x < y {
                    assert(key(pre[x]) != key(pre[y]));
                } else {
                    assert(key(pre[y]) != key(pre[x]));
                }
            }
        }
        pre.lemma_multiset_has_no_duplicates();
        assert(false);
    } else {
        if xp < xq {
            assert(key(pre[xp]) != key(pre[xq]));
        } else {
            assert(key(pre[xq]) != key(pre[xp]));
        }
    }
}

} // verus!
