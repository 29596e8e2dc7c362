use vstd::prelude::*;

verus! {

/// A packet value: an unsigned integer leaf, or an ordered list of nested
/// values (possibly empty). Values are immutable once built and form a
/// finite tree; equality is structural.
pub enum Value {
    Number(u32),
    List(Vec<Value>),
}

/// The mathematical model of a [`Value`]: the same tree, with lists as
/// ghost sequences, so that two values built independently are equal in
/// specifications whenever their trees are.
#[verifier::ext_equal]
pub enum ValueModel {
    Number(u32),
    List(Seq<ValueModel>),
}

impl Value {
    /// The model tree of this value.
    pub open spec fn model(self) -> ValueModel
        decreases self,
    {
        match self {
            Value::Number(n) => ValueModel::Number(n),
            Value::List(items) => {
                proof {
                    assert(decreases_to!(self => items));
                    assert(decreases_to!(items => items@));
                }
                ValueModel::List(models_of(items@))
            },
        }
    }
}

impl View for Value {
    type V = ValueModel;

    open spec fn view(&self) -> ValueModel {
        self.model()
    }
}

/// The models of a sequence of values, elementwise.
pub open spec fn models_of(s: Seq<Value>) -> Seq<ValueModel>
    decreases s,
{
    if s.len() == 0 {
        Seq::empty()
    } else {
        models_of(s.subrange(0, s.len() - 1)).push(s[s.len() - 1].model())
    }
}

/// `models_of` maps a sequence of values to their models, elementwise.
pub broadcast proof fn lemma_models_of(s: Seq<Value>)
    ensures
        (#[trigger] models_of(s)).len() == s.len(),
        forall|i: int| 0 <= i < s.len() ==> models_of(s)[i] == s[i].model(),
    decreases s.len(),
{
    if s.len() > 0 {
        lemma_models_of(s.subrange(0, s.len() - 1));
        assert forall|i: int| 0 <= i < s.len() implies
            models_of(s)[i] == s[i].model() by {
            if i < s.len() - 1 {
                assert(s.subrange(0, s.len() - 1)[i] == s[i]);
            }
        }
    }
}

/// Number of nodes in a model tree; used as a termination measure.
pub open spec fn size(v: ValueModel) -> nat
    decreases v,
{
    match v {
        ValueModel::Number(_) => 1,
        ValueModel::List(items) => 1 + size_seq(items),
    }
}

/// Total number of nodes in a sequence of model trees.
pub open spec fn size_seq(s: Seq<ValueModel>) -> nat
    decreases s,
{
    if s.len() == 0 {
        0
    } else {
        size(s[0]) + size_seq(s.subrange(1, s.len() as int))
    }
}

/// Every tree has at least one node.
pub proof fn lemma_size_pos(v: ValueModel)
    ensures
        size(v) >= 1,
{
}

/// Each element of a sequence of trees counts toward the sequence's size.
pub proof fn lemma_size_seq_element(s: Seq<ValueModel>, i: int)
    requires
        0 <= i < s.len(),
    ensures
        size(s[i]) <= size_seq(s),
    decreases s.len(),
{
    if i == 0 {
    } else {
        lemma_size_seq_element(s.subrange(1, s.len() as int), i - 1);
        assert(s.subrange(1, s.len() as int)[i - 1] == s[i]);
    }
}

/// Structural equality of two values, decided recursively.
pub fn values_eq(a: &Value, b: &Value) -> (r: bool)
    ensures
        r <==> a@ == b@,
    decreases size(a@) + size(b@),
{
    match (a, b) {
        (Value::Number(x), Value::Number(y)) => x == y,
        (Value::List(xs), Value::List(ys)) => {
            proof {
                lemma_models_of(xs@);
                lemma_models_of(ys@);
            }
            if xs.len() != ys.len() {
                proof {
                    assert(a@ matches ValueModel::List(am) && am.len() == xs@.len());
                    assert(b@ matches ValueModel::List(bm) && bm.len() == ys@.len());
                }
                false
            } else {
                let n = xs.len();
                let mut i: usize = 0;
                let mut ok = true;
                while i < n
                    invariant
                        n == xs@.len() == ys@.len(),
                        0 <= i <= n,
                        a@ == ValueModel::List(models_of(xs@)),
                        b@ == ValueModel::List(models_of(ys@)),
                        ok <==> forall|k: int| 0 <= k < i ==> xs@[k]@ == ys@[k]@,
                    decreases n - i,
                {
                    proof {
                        lemma_models_of(xs@);
                        lemma_models_of(ys@);
                        lemma_size_seq_element(models_of(xs@), i as int);
                        lemma_size_seq_element(models_of(ys@), i as int);
                    }
                    let e = values_eq(&xs[i], &ys[i]);
                    ok = ok && e;
                    i = i + 1;
                }
                proof {
                    lemma_models_of(xs@);
                    lemma_models_of(ys@);
                    if ok {
                        assert(models_of(xs@) =~= models_of(ys@));
                    } else {
                        assert(exists|k: int| 0 <= k < n && xs@[k]@ != ys@[k]@);
                        let k = choose|k: int| 0 <= k < n && xs@[k]@ != ys@[k]@;
                        if a@ == b@ {
                            assert(models_of(xs@)[k] == models_of(ys@)[k]);
                        }
                    }
                }
                ok
            }
        },
        (Value::Number(x), Value::List(_)) => {
            proof {
                assert(a@ is Number && b@ is List);
            }
            false
        },
        (Value::List(_), Value::Number(y)) => {
            proof {
                assert(a@ is List && b@ is Number);
            }
            false
        },
    }
}

} // verus!
