//! The evaluations that are part of a proof.
use vstd::prelude::*;

use crate::field::{le_bytes, PrimeField};
use crate::lagrange::values;

verus! {

/// Evaluations of the wire polynomials at the evaluation challenge `z`.
#[derive(Debug)]
pub struct WireEvaluations<F> {
    /// Evaluation of the left wires.
    pub a_eval: F,
    /// Evaluation of the right wires.
    pub b_eval: F,
    /// Evaluation of the output wires.
    pub c_eval: F,
    /// Evaluation of the fourth wires.
    pub d_eval: F,
}

/// Evaluations of the permutation polynomials.
#[derive(Debug)]
pub struct PermutationEvaluations<F> {
    /// Evaluation of the left sigma polynomial at `z`.
    pub left_sigma_eval: F,
    /// Evaluation of the right sigma polynomial at `z`.
    pub right_sigma_eval: F,
    /// Evaluation of the out sigma polynomial at `z`.
    pub out_sigma_eval: F,
    /// Evaluation of the permutation polynomial at `z * omega`.
    pub permutation_eval: F,
}

/// Evaluations of the lookup polynomials.
#[derive(Debug)]
pub struct LookupEvaluations<F> {
    /// Evaluation of the lookup selector at `z`.
    pub q_lookup_eval: F,
    /// Evaluation of the lookup permutation polynomial at `z * omega`.
    pub z2_next_eval: F,
    /// Evaluation of the first half of the sorted polynomial at `z`.
    pub h1_eval: F,
    /// Evaluation of the first half of the sorted polynomial at `z * omega`.
    pub h1_next_eval: F,
    /// Evaluation of the second half of the sorted polynomial at `z`.
    pub h2_eval: F,
    /// Evaluation of the query polynomial at `z`.
    pub f_eval: F,
    /// Evaluation of the table polynomial at `z`.
    pub table_eval: F,
    /// Evaluation of the table polynomial at `z * omega`.
    pub table_next_eval: F,
}

/// Evaluations that only some gates need, by their labels.
#[derive(Debug)]
pub struct CustomEvaluations<F> {
    /// The labelled evaluations, in the order in which they enter the transcript.
    pub vals: Vec<(String, F)>,
}

/// All evaluations of a proof.
#[derive(Debug)]
pub struct ProofEvaluations<F> {
    /// Evaluations of the wire polynomials.
    pub wire_evals: WireEvaluations<F>,
    /// Evaluations of the permutation polynomials.
    pub perm_evals: PermutationEvaluations<F>,
    /// Evaluations of the lookup polynomials.
    pub lookup_evals: LookupEvaluations<F>,
    /// Evaluations that only some gates need.
    pub custom_evals: CustomEvaluations<F>,
}

/// The place of the first entry with the given label, or the length where there is none.
pub open spec fn first_labelled<F>(vals: Seq<(String, F)>, label: Seq<char>) -> int
    decreases vals.len(),
{
    if vals.len() == 0 {
        0
    } else if vals[0].0@ == label {
        0
    } else {
        1 + first_labelled(vals.drop_first(), label)
    }
}

proof fn lemma_first_labelled<F>(vals: Seq<(String, F)>, label: Seq<char>, i: int)
    requires
        0 <= i <= vals.len(),
        forall|j: int| 0 <= j < i ==> (#[trigger] vals[j]).0@ != label,
        i < vals.len() ==> vals[i].0@ == label,
    ensures
        first_labelled(vals, label) == i,
    decreases vals.len(),
{
    if i > 0 {
        let rest = vals.drop_first();
        assert(vals[0].0@ != label);
        assert forall|j: int| 0 <= j < i - 1 implies (#[trigger] rest[j]).0@ != label by {
            assert(rest[j] == vals[j + 1]);
        }
        lemma_first_labelled(rest, label, i - 1);
    }
}

impl<F: PrimeField> CustomEvaluations<F> {
    /// Some entry has the given label.
    pub open spec fn contains(self, label: Seq<char>) -> bool {
        first_labelled(self.vals@, label) < self.vals@.len()
    }

    /// The value of the first entry with the given label, and zero where there is none.
    pub open spec fn value_of(self, label: Seq<char>) -> int {
        if self.contains(label) {
            self.vals@[first_labelled(self.vals@, label)].1.value()
        } else {
            0
        }
    }

    /// The values of all entries, in order.
    pub open spec fn listed(self) -> Seq<int> {
        self.vals@.map_values(|entry: (String, F)| entry.1.value())
    }

    /// The evaluation with the given label, if there is one.
    pub fn find(&self, label: &String) -> (r: Option<F>)
        ensures
            r is Some <==> self.contains(label@),
            r matches Some(e) ==> e.value() == self.value_of(label@),
    {
        let mut i: usize = 0;
        while i < self.vals.len()
            invariant
                i <= self.vals.len(),
                forall|j: int| 0 <= j < i ==> (#[trigger] self.vals@[j]).0@ != label@,
            decreases self.vals.len() - i,
        {
            if self.vals[i].0 == *label {
                proof {
                    lemma_first_labelled(self.vals@, label@, i as int);
                }
                return Some(self.vals[i].1);
            }
            i = i + 1;
        }
        proof {
            lemma_first_labelled(self.vals@, label@, i as int);
        }
        None
    }

    /// The evaluation with the given label, which must be there.
    pub fn get(&self, label: &str) -> (r: F)
        requires
            self.contains(label@),
        ensures
            r.value() == self.value_of(label@),
    {
        self.find(&label.to_owned()).unwrap()
    }
}

impl<F: PrimeField> ProofEvaluations<F> {
    /// The evaluations that enter the transcript together.
    pub open spec fn listed(self) -> Seq<int> {
        seq![
            self.wire_evals.a_eval.value(),
            self.wire_evals.b_eval.value(),
            self.wire_evals.c_eval.value(),
            self.wire_evals.d_eval.value(),
            self.perm_evals.left_sigma_eval.value(),
            self.perm_evals.right_sigma_eval.value(),
            self.perm_evals.out_sigma_eval.value(),
            self.perm_evals.permutation_eval.value(),
            self.lookup_evals.f_eval.value(),
            self.lookup_evals.q_lookup_eval.value(),
            self.lookup_evals.z2_next_eval.value(),
            self.lookup_evals.h1_eval.value(),
            self.lookup_evals.h1_next_eval.value(),
            self.lookup_evals.h2_eval.value(),
        ]
    }
}

/// The bytes of several values, `len` for each, one after another.
pub open spec fn all_le_bytes(values: Seq<int>, len: nat) -> Seq<u8>
    decreases values.len(),
{
    if values.len() == 0 {
        Seq::empty()
    } else {
        all_le_bytes(values.drop_last(), len) + le_bytes(values.last(), len)
    }
}

/// Writes field elements as bytes, one after another.
pub fn elements_to_bytes<F: PrimeField>(elements: &Vec<F>) -> (r: Vec<u8>)
    ensures
        r@ == all_le_bytes(values(elements@), F::byte_len()),
{
    let mut bytes: Vec<u8> = Vec::new();
    let mut i: usize = 0;
    let ghost all = values(elements@);
    assert(all.take(0) =~= Seq::<int>::empty());
    while i < elements.len()
        invariant
            i <= elements.len(),
            all == values(elements@),
            bytes@ == all_le_bytes(all.take(i as int), F::byte_len()),
        decreases elements.len() - i,
    {
        let mut next = elements[i].to_bytes();
        bytes.append(&mut next);
        i = i + 1;
        assert(all.take(i as int).drop_last() =~= all.take(i - 1));
    }
    assert(all.take(i as int) =~= all);
    bytes
}

} // verus!
