//! What each challenge of a proof depends on.
use vstd::arithmetic::power::pow;
use vstd::prelude::*;

use crate::byte_laws::{
    lemma_bytes_tell_values_apart, lemma_digits_injective, lemma_point_bytes_follow,
};
use crate::challenges::{lemma_absorbed_each, Challenges};
use crate::commitment::{all_point_bytes, HomomorphicCommitment};
use crate::evaluations::all_le_bytes;
use crate::field::{le_bytes, PrimeField};
use crate::lagrange::values;
use crate::proof_system::Proof;
use crate::public_inputs::PublicInputs;
use crate::transcript::{
    after_challenge, after_challenges, lemma_after_challenges, FiatShamirRng, Log,
};

verus! {

/// A challenge with the value `x` was drawn from the history `log` when it had `at` entries,
/// and put in right afterwards.
pub open spec fn drawn_at<F: PrimeField, R: FiatShamirRng<F>>(log: Log, at: int, x: int) -> bool {
    &&& 0 <= at && at + 1 < log.len()
    &&& x == R::drawn(log.take(at))
    &&& log[at] == None::<Seq<u8>>
    &&& log[at + 1] == Some(le_bytes(x, F::byte_len()))
}

/// Each of several challenges is drawn after the one before it has been put in.
proof fn lemma_challenges_in_turn<F: PrimeField, R: FiatShamirRng<F>>(log: Log, count: nat, j: nat)
    requires
        j <= count,
    ensures
        after_challenges::<F, R>(log, count).len() == log.len() + 2 * count,
        after_challenges::<F, R>(log, count).take((log.len() + 2 * j) as int) == after_challenges::<
            F,
            R,
        >(log, j),
        j < count ==> drawn_at::<F, R>(
            after_challenges::<F, R>(log, count),
            (log.len() + 2 * j) as int,
            R::drawn(after_challenges::<F, R>(log, j)),
        ),
    decreases count,
{
    let all = after_challenges::<F, R>(log, count);
    lemma_after_challenges::<F, R>(log, count);
    lemma_after_challenges::<F, R>(log, j);
    let at = (log.len() + 2 * j) as int;
    if j == count {
        assert(all.take(at) =~= all);
    } else {
        let m = (count - 1) as nat;
        let before = after_challenges::<F, R>(log, m);
        lemma_challenges_in_turn::<F, R>(log, m, j);
        assert(all == after_challenge::<F, R>(before));
        assert(all.take(at) =~= before.take(at));
        if j == m {
            assert(before.take(at) =~= before);
        }
    }
}

proof fn lemma_four_points<F: PrimeField, PC: HomomorphicCommitment<F>>(
    a: PC::Point,
    b: PC::Point,
    c: PC::Point,
    d: PC::Point,
)
    ensures
        all_point_bytes::<F, PC>(seq![a, b]) == PC::point_bytes(a) + PC::point_bytes(b),
        all_point_bytes::<F, PC>(seq![a, b, c, d]) == PC::point_bytes(a) + PC::point_bytes(b)
            + PC::point_bytes(c) + PC::point_bytes(d),
{
    lemma_point_bytes_follow::<F, PC>(seq![a], seq![b], a);
    lemma_point_bytes_follow::<F, PC>(seq![a], seq![b], b);
    assert(seq![a] + seq![b] =~= seq![a, b]);
    lemma_point_bytes_follow::<F, PC>(seq![a, b], seq![c], c);
    assert(seq![a, b] + seq![c] =~= seq![a, b, c]);
    lemma_point_bytes_follow::<F, PC>(seq![a, b, c], seq![d], d);
    assert(seq![a, b, c] + seq![d] =~= seq![a, b, c, d]);
}

/// The whole history of a proof: what was put into the transcript, in which order, and which
/// challenge was drawn when. `log` ends with the draw of the challenge for the openings.
pub open spec fn is_history<F: PrimeField, PC: HomomorphicCommitment<F>>(
    p: Proof<F, PC>,
    pub_inputs: Seq<int>,
    c: Challenges<F>,
    log: Log,
) -> bool {
    let e = p.evaluations;
    let vals = e.custom_evals.vals@;
    let last = 32 + vals.len() as int;
    &&& log.len() == last + 1
    &&& log[0] == Some(seq![0x50u8, 0x6c, 0x6f, 0x6e, 0x6b])
    &&& log[1] == Some(all_le_bytes(pub_inputs, F::byte_len()))
    &&& log[2] == Some(
        PC::point_bytes(PC::point(p.a_comm)) + PC::point_bytes(PC::point(p.b_comm))
            + PC::point_bytes(PC::point(p.c_comm)) + PC::point_bytes(PC::point(p.d_comm)),
    )
    &&& drawn_at::<F, PC::Rng>(log, 3, c.zeta.value())
    &&& log[5] == Some(PC::point_bytes(PC::point(p.f_comm)))
    &&& log[6] == Some(
        PC::point_bytes(PC::point(p.h_1_comm)) + PC::point_bytes(PC::point(p.h_2_comm)),
    )
    &&& drawn_at::<F, PC::Rng>(log, 7, c.beta.value())
    &&& drawn_at::<F, PC::Rng>(log, 9, c.gamma.value())
    &&& drawn_at::<F, PC::Rng>(log, 11, c.delta.value())
    &&& drawn_at::<F, PC::Rng>(log, 13, c.epsilon.value())
    &&& log[15] == Some(PC::point_bytes(PC::point(p.z_comm)))
    &&& drawn_at::<F, PC::Rng>(log, 16, c.alpha.value())
    &&& drawn_at::<F, PC::Rng>(log, 18, c.range_sep_challenge.value())
    &&& drawn_at::<F, PC::Rng>(log, 20, c.logic_sep_challenge.value())
    &&& drawn_at::<F, PC::Rng>(log, 22, c.fixed_base_sep_challenge.value())
    &&& drawn_at::<F, PC::Rng>(log, 24, c.var_base_sep_challenge.value())
    &&& drawn_at::<F, PC::Rng>(log, 26, c.lookup_sep_challenge.value())
    &&& log[28] == Some(
        PC::point_bytes(PC::point(p.t_1_comm)) + PC::point_bytes(PC::point(p.t_2_comm))
            + PC::point_bytes(PC::point(p.t_3_comm)) + PC::point_bytes(PC::point(p.t_4_comm)),
    )
    &&& drawn_at::<F, PC::Rng>(log, 29, c.z_challenge.value())
    &&& log[31] == Some(
        all_le_bytes(
            seq![
                e.wire_evals.a_eval.value(),
                e.wire_evals.b_eval.value(),
                e.wire_evals.c_eval.value(),
                e.wire_evals.d_eval.value(),
                e.perm_evals.left_sigma_eval.value(),
                e.perm_evals.right_sigma_eval.value(),
                e.perm_evals.out_sigma_eval.value(),
                e.perm_evals.permutation_eval.value(),
                e.lookup_evals.f_eval.value(),
                e.lookup_evals.q_lookup_eval.value(),
                e.lookup_evals.z2_next_eval.value(),
                e.lookup_evals.h1_eval.value(),
                e.lookup_evals.h1_next_eval.value(),
                e.lookup_evals.h2_eval.value(),
            ],
            F::byte_len(),
        ),
    )
    &&& forall|i: int|
        0 <= i < vals.len() ==> #[trigger] log[32 + i] == Some(
            le_bytes(vals[i].1.value(), F::byte_len()),
        )
    &&& c.separation_challenge.value() == PC::Rng::drawn(log.take(last))
    &&& log[last] == None::<Seq<u8>>
}

/// Challenges as the transcript gives them belong to the whole history of the proof.
pub proof fn lemma_draws_is_history<F: PrimeField, PC: HomomorphicCommitment<F>>(
    p: Proof<F, PC>,
    pub_inputs: Seq<int>,
    c: Challenges<F>,
)
    requires
        p.draws(pub_inputs, c),
    ensures
        is_history(p, pub_inputs, c, p.separation_log(pub_inputs).push(None)),
{
    let vals = p.evaluations.custom_evals.vals@;
    let customs = p.evaluations.custom_evals.listed();
    let zeta_log = p.zeta_log(pub_inputs);
    let beta_log = p.beta_log(pub_inputs);
    let alpha_log = p.alpha_log(pub_inputs);
    let z_log = p.z_log(pub_inputs);
    let start = after_challenge::<F, PC::Rng>(z_log).push(
        Some(all_le_bytes(p.evaluations.listed(), F::byte_len())),
    );
    let separation_log = p.separation_log(pub_inputs);
    let log = separation_log.push(None);
    lemma_four_points::<F, PC>(
        PC::point(p.a_comm),
        PC::point(p.b_comm),
        PC::point(p.c_comm),
        PC::point(p.d_comm),
    );
    lemma_four_points::<F, PC>(
        PC::point(p.h_1_comm),
        PC::point(p.h_2_comm),
        PC::point(p.h_1_comm),
        PC::point(p.h_2_comm),
    );
    lemma_four_points::<F, PC>(
        PC::point(p.t_1_comm),
        PC::point(p.t_2_comm),
        PC::point(p.t_3_comm),
        PC::point(p.t_4_comm),
    );
    assert(zeta_log.len() == 3 && beta_log.len() == 7);
    lemma_challenges_in_turn::<F, PC::Rng>(beta_log, 4, 0);
    lemma_challenges_in_turn::<F, PC::Rng>(beta_log, 4, 1);
    lemma_challenges_in_turn::<F, PC::Rng>(beta_log, 4, 2);
    lemma_challenges_in_turn::<F, PC::Rng>(beta_log, 4, 3);
    let permuted = after_challenges::<F, PC::Rng>(beta_log, 4);
    assert(alpha_log.len() == 16);
    lemma_challenges_in_turn::<F, PC::Rng>(alpha_log, 6, 0);
    lemma_challenges_in_turn::<F, PC::Rng>(alpha_log, 6, 1);
    lemma_challenges_in_turn::<F, PC::Rng>(alpha_log, 6, 2);
    lemma_challenges_in_turn::<F, PC::Rng>(alpha_log, 6, 3);
    lemma_challenges_in_turn::<F, PC::Rng>(alpha_log, 6, 4);
    lemma_challenges_in_turn::<F, PC::Rng>(alpha_log, 6, 5);
    let separated = after_challenges::<F, PC::Rng>(alpha_log, 6);
    assert(z_log.len() == 29 && start.len() == 32);
    lemma_absorbed_each(start, customs, F::byte_len());
    assert(log.take(32) =~= start);
    assert(log.take(29) =~= z_log) by {
        assert(start.take(29) =~= z_log);
        assert(log.take(29) =~= log.take(32).take(29));
    }
    assert(log.take(28) =~= separated) by {
        assert(z_log.take(28) =~= separated);
        assert(log.take(28) =~= log.take(29).take(28));
    }
    assert(log.take(16) =~= alpha_log) by {
        assert(separated.take(16) =~= alpha_log);
        assert(log.take(16) =~= log.take(28).take(16));
    }
    assert(log.take(15) =~= permuted) by {
        assert(alpha_log.take(15) =~= permuted);
        assert(log.take(15) =~= log.take(16).take(15));
    }
    assert(log.take(7) =~= beta_log) by {
        assert(permuted.take(7) =~= beta_log);
        assert(log.take(7) =~= log.take(15).take(7));
    }
    assert(log.take(3) =~= zeta_log) by {
        assert(beta_log.take(3) =~= zeta_log);
        assert(log.take(3) =~= log.take(7).take(3));
    }
    assert(beta_log.take(3) =~= zeta_log);
    assert(start.take(29) =~= z_log);
    lemma_prefix_draw::<F, PC::Rng>(log, beta_log, 3, c.zeta.value());
    lemma_prefix_draw::<F, PC::Rng>(log, permuted, 7, c.beta.value());
    lemma_prefix_draw::<F, PC::Rng>(log, permuted, 9, c.gamma.value());
    lemma_prefix_draw::<F, PC::Rng>(log, permuted, 11, c.delta.value());
    lemma_prefix_draw::<F, PC::Rng>(log, permuted, 13, c.epsilon.value());
    lemma_prefix_draw::<F, PC::Rng>(log, separated, 16, c.alpha.value());
    lemma_prefix_draw::<F, PC::Rng>(log, separated, 18, c.range_sep_challenge.value());
    lemma_prefix_draw::<F, PC::Rng>(log, separated, 20, c.logic_sep_challenge.value());
    lemma_prefix_draw::<F, PC::Rng>(log, separated, 22, c.fixed_base_sep_challenge.value());
    lemma_prefix_draw::<F, PC::Rng>(log, separated, 24, c.var_base_sep_challenge.value());
    lemma_prefix_draw::<F, PC::Rng>(log, separated, 26, c.lookup_sep_challenge.value());
    lemma_prefix_draw::<F, PC::Rng>(log, start, 29, c.z_challenge.value());
    let last = 32 + vals.len() as int;
    assert(log.take(last) =~= separation_log);
    assert(log[0] == zeta_log[0] && log[1] == zeta_log[1] && log[2] == zeta_log[2]) by {
        assert(log.take(3)[0] == log[0] && log.take(3)[1] == log[1] && log.take(3)[2] == log[2]);
    }
    assert(log[5] == beta_log[5] && log[6] == beta_log[6]) by {
        assert(log.take(7)[5] == log[5] && log.take(7)[6] == log[6]);
    }
    assert(log[15] == alpha_log[15]) by {
        assert(log.take(16)[15] == log[15]);
    }
    assert(log[28] == z_log[28]) by {
        assert(log.take(29)[28] == log[28]);
    }
    assert(log[31] == start[31]) by {
        assert(log.take(32)[31] == log[31]);
    }
    assert forall|i: int| 0 <= i < vals.len() implies #[trigger] log[32 + i] == Some(
        le_bytes(vals[i].1.value(), F::byte_len()),
    ) by {
        assert(separation_log[start.len() + i] == Some(le_bytes(customs[i], F::byte_len())));
    }
}

/// What was drawn from a prefix was drawn from the whole.
proof fn lemma_prefix_draw<F: PrimeField, R: FiatShamirRng<F>>(
    log: Log,
    prefix: Log,
    at: int,
    x: int,
)
    requires
        prefix.len() <= log.len(),
        log.take(prefix.len() as int) == prefix,
        drawn_at::<F, R>(prefix, at, x),
    ensures
        drawn_at::<F, R>(log, at, x),
{
    assert(log.take(at) =~= prefix.take(at));
    assert(prefix[at] == log.take(prefix.len() as int)[at]);
    assert(prefix[at + 1] == log.take(prefix.len() as int)[at + 1]);
}

/// The challenges that [`Proof::draw_challenges`] returns are drawn in this order, each from
/// all that was put in before it: see [`is_history`]. The transcript that it returns has seen
/// all of that and nothing else.
pub proof fn lemma_challenges_are_bound<F: PrimeField, PC: HomomorphicCommitment<F>>(
    p: Proof<F, PC>,
    pub_inputs: PublicInputs<F>,
    c: Challenges<F>,
    rng: PC::Rng,
)
    requires
        call_ensures(Proof::<F, PC>::draw_challenges, (&p, &pub_inputs), (c, rng)),
    ensures
        is_history(
            p,
            Seq::new(
                pub_inputs.evaluations@.len(),
                |i: int| pub_inputs.evaluations@[i].value(),
            ),
            c,
            rng.log(),
        ),
{
    let inputs = Seq::new(
        pub_inputs.evaluations@.len(),
        |i: int| pub_inputs.evaluations@[i].value(),
    );
    assert(inputs =~= values(pub_inputs.evaluations@));
    lemma_draws_is_history(p, inputs, c);
}

/// Transcripts tell values apart: where [`Proof::draw_challenges`] leaves the same history for
/// two proofs, all public inputs, all evaluations that enter the transcript and all labelled
/// evaluations are the same, and there are as many of them.
pub proof fn lemma_history_binds_values<F: PrimeField, PC: HomomorphicCommitment<F>>(
    p: Proof<F, PC>,
    q: Proof<F, PC>,
    p_inputs: PublicInputs<F>,
    q_inputs: PublicInputs<F>,
    c: Challenges<F>,
    d: Challenges<F>,
    p_rng: PC::Rng,
    q_rng: PC::Rng,
)
    requires
        call_ensures(Proof::<F, PC>::draw_challenges, (&p, &p_inputs), (c, p_rng)),
        call_ensures(Proof::<F, PC>::draw_challenges, (&q, &q_inputs), (d, q_rng)),
        p_rng.log() == q_rng.log(),
    ensures
        p_inputs.evaluations@.len() == q_inputs.evaluations@.len(),
        forall|i: int|
            #![trigger p_inputs.evaluations@[i]]
            0 <= i < p_inputs.evaluations@.len() ==> p_inputs.evaluations@[i].value()
                == q_inputs.evaluations@[i].value(),
        ({
            let e = p.evaluations;
            let f = q.evaluations;
            &&& e.wire_evals.a_eval.value() == f.wire_evals.a_eval.value()
            &&& e.wire_evals.b_eval.value() == f.wire_evals.b_eval.value()
            &&& e.wire_evals.c_eval.value() == f.wire_evals.c_eval.value()
            &&& e.wire_evals.d_eval.value() == f.wire_evals.d_eval.value()
            &&& e.perm_evals.left_sigma_eval.value() == f.perm_evals.left_sigma_eval.value()
            &&& e.perm_evals.right_sigma_eval.value() == f.perm_evals.right_sigma_eval.value()
            &&& e.perm_evals.out_sigma_eval.value() == f.perm_evals.out_sigma_eval.value()
            &&& e.perm_evals.permutation_eval.value() == f.perm_evals.permutation_eval.value()
            &&& e.lookup_evals.f_eval.value() == f.lookup_evals.f_eval.value()
            &&& e.lookup_evals.q_lookup_eval.value() == f.lookup_evals.q_lookup_eval.value()
            &&& e.lookup_evals.z2_next_eval.value() == f.lookup_evals.z2_next_eval.value()
            &&& e.lookup_evals.h1_eval.value() == f.lookup_evals.h1_eval.value()
            &&& e.lookup_evals.h1_next_eval.value() == f.lookup_evals.h1_next_eval.value()
            &&& e.lookup_evals.h2_eval.value() == f.lookup_evals.h2_eval.value()
            &&& e.custom_evals.vals@.len() == f.custom_evals.vals@.len()
            &&& forall|i: int|
                #![trigger e.custom_evals.vals@[i]]
                0 <= i < e.custom_evals.vals@.len() ==> e.custom_evals.vals@[i].1.value()
                    == f.custom_evals.vals@[i].1.value()
        }),
{
    let a = values(p_inputs.evaluations@);
    let b = values(q_inputs.evaluations@);
    let log = p_rng.log();
    lemma_draws_is_history(p, a, c);
    lemma_draws_is_history(q, b, d);
    let len = F::byte_len();
    F::lemma_byte_len();
    assert forall|i: int| 0 <= i < a.len() implies 0 <= #[trigger] a[i] < pow(256, len) by {
        F::lemma_value_range(p_inputs.evaluations@[i]);
    }
    assert forall|i: int| 0 <= i < b.len() implies 0 <= #[trigger] b[i] < pow(256, len) by {
        F::lemma_value_range(q_inputs.evaluations@[i]);
    }
    lemma_bytes_tell_values_apart(a, b, len);
    assert forall|i: int|
        #![trigger p_inputs.evaluations@[i]]
        0 <= i < p_inputs.evaluations@.len() implies p_inputs.evaluations@[i].value()
        == q_inputs.evaluations@[i].value() by {
        assert(a[i] == b[i]);
    }
    let x = p.evaluations.listed();
    let y = q.evaluations.listed();
    lemma_listed_fit(p);
    lemma_listed_fit(q);
    lemma_bytes_tell_values_apart(x, y, len);
    assert(x[0] == y[0] && x[1] == y[1] && x[2] == y[2] && x[3] == y[3] && x[4] == y[4] && x[5]
        == y[5] && x[6] == y[6] && x[7] == y[7] && x[8] == y[8] && x[9] == y[9] && x[10] == y[10]
        && x[11] == y[11] && x[12] == y[12] && x[13] == y[13]);
    let u = p.evaluations.custom_evals.vals@;
    let v = q.evaluations.custom_evals.vals@;
    assert forall|i: int| #![trigger u[i]] 0 <= i < u.len() implies u[i].1.value()
        == v[i].1.value() by {
        assert(log[32 + i] == Some(le_bytes(u[i].1.value(), len)));
        assert(log[32 + i] == Some(le_bytes(v[i].1.value(), len)));
        F::lemma_value_range(u[i].1);
        F::lemma_value_range(v[i].1);
        lemma_digits_injective(u[i].1.value(), v[i].1.value(), len);
    }
}

proof fn lemma_listed_fit<F: PrimeField, PC: HomomorphicCommitment<F>>(p: Proof<F, PC>)
    ensures
        forall|i: int|
            0 <= i < p.evaluations.listed().len() ==> 0 <= #[trigger] p.evaluations.listed()[i]
                < pow(256, F::byte_len()),
{
    F::lemma_byte_len();
    let e = p.evaluations;
    F::lemma_value_range(e.wire_evals.a_eval);
    F::lemma_value_range(e.wire_evals.b_eval);
    F::lemma_value_range(e.wire_evals.c_eval);
    F::lemma_value_range(e.wire_evals.d_eval);
    F::lemma_value_range(e.perm_evals.left_sigma_eval);
    F::lemma_value_range(e.perm_evals.right_sigma_eval);
    F::lemma_value_range(e.perm_evals.out_sigma_eval);
    F::lemma_value_range(e.perm_evals.permutation_eval);
    F::lemma_value_range(e.lookup_evals.f_eval);
    F::lemma_value_range(e.lookup_evals.q_lookup_eval);
    F::lemma_value_range(e.lookup_evals.z2_next_eval);
    F::lemma_value_range(e.lookup_evals.h1_eval);
    F::lemma_value_range(e.lookup_evals.h1_next_eval);
    F::lemma_value_range(e.lookup_evals.h2_eval);
}

} // verus!
