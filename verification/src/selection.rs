//! Fee calculation and ordering of unspent outputs for coin selection.

use vstd::prelude::*;
use vstd::seq_lib::group_to_multiset_ensures;

use crate::store::OutputRecord;
use crate::store::OutputStatus;
use crate::store::RecModel;
use crate::store::filter_status;
use crate::store::lemma_filter_status_elems;
use crate::store::lemma_sum_all_remove;
use crate::store::lemma_sum_filter_status;
use crate::store::models;
use crate::store::recs_distinct;
use crate::store::sum_all;
use crate::store::sum_status;

verus! {

/// Transaction weight contributed by one kernel.
pub const KERNEL_WEIGHT: u64 = 10;

/// Transaction weight contributed by one input.
pub const INPUT_WEIGHT: u64 = 5;

/// Transaction weight contributed by one output.
pub const OUTPUT_WEIGHT: u64 = 13;

/// The fee of a transaction: the fee per gram times the total weight of its
/// kernels, inputs and outputs.
pub open spec fn fee_for(fee_per_gram: u64, kernels: int, inputs: int, outputs: int) -> int {
    fee_per_gram * (kernels * KERNEL_WEIGHT + inputs * INPUT_WEIGHT + outputs * OUTPUT_WEIGHT)
}

/// The wallet's fee calculator.
pub struct Fee {}

impl Fee {
    /// The exact fee, or `None` where it does not fit in 64 bits.
    pub fn calculate_checked(
        fee_per_gram: u64,
        num_kernels: usize,
        num_inputs: usize,
        num_outputs: usize,
    ) -> (r: Option<u64>)
        ensures
            match r {
                Some(f) => f == fee_for(
                    fee_per_gram,
                    num_kernels as int,
                    num_inputs as int,
                    num_outputs as int,
                ),
                None => fee_for(
                    fee_per_gram,
                    num_kernels as int,
                    num_inputs as int,
                    num_outputs as int,
                ) > u64::MAX,
            },
    {
        let weight: u128 = (num_kernels as u128) * (KERNEL_WEIGHT as u128) + (num_inputs as u128)
            * (INPUT_WEIGHT as u128) + (num_outputs as u128) * (OUTPUT_WEIGHT as u128);
        match (fee_per_gram as u128).checked_mul(weight) {
            None => None,
            Some(f) => {
                if f > u64::MAX as u128 {
                    None
                } else {
                    Some(f as u64)
                }
            },
        }
    }

    /// The fee, saturating at the largest representable amount.
    pub fn calculate(
        fee_per_gram: u64,
        num_kernels: usize,
        num_inputs: usize,
        num_outputs: usize,
    ) -> (r: u64)
        ensures
            fee_for(fee_per_gram, num_kernels as int, num_inputs as int, num_outputs as int)
                <= u64::MAX ==> r == fee_for(
                fee_per_gram,
                num_kernels as int,
                num_inputs as int,
                num_outputs as int,
            ),
            fee_for(fee_per_gram, num_kernels as int, num_inputs as int, num_outputs as int)
                > u64::MAX ==> r == u64::MAX,
    {
        match Fee::calculate_checked(fee_per_gram, num_kernels, num_inputs, num_outputs) {
            Some(f) => f,
            None => u64::MAX,
        }
    }
}

/// A fee is never negative.
pub proof fn lemma_fee_nonneg(fee_per_gram: u64, kernels: int, inputs: int, outputs: int)
    requires
        0 <= kernels,
        0 <= inputs,
        0 <= outputs,
    ensures
        fee_for(fee_per_gram, kernels, inputs, outputs) >= 0,
{
    let w = kernels * KERNEL_WEIGHT + inputs * INPUT_WEIGHT + outputs * OUTPUT_WEIGHT;
    assert(w >= 0);
    assert(fee_per_gram * w >= 0) by (nonlinear_arith)
        requires
            0 <= fee_per_gram,
            0 <= w,
    ;
}

/// A transaction's fee does not shrink when an output is added.
pub proof fn lemma_fee_mono(fee_per_gram: u64, kernels: int, inputs: int, o1: int, o2: int)
    requires
        0 <= kernels,
        0 <= inputs,
        0 <= o1 <= o2,
    ensures
        fee_for(fee_per_gram, kernels, inputs, o1) <= fee_for(fee_per_gram, kernels, inputs, o2),
{
    let w1 = kernels * KERNEL_WEIGHT + inputs * INPUT_WEIGHT + o1 * OUTPUT_WEIGHT;
    let w2 = kernels * KERNEL_WEIGHT + inputs * INPUT_WEIGHT + o2 * OUTPUT_WEIGHT;
    assert(w1 <= w2);
    assert(fee_per_gram * w1 <= fee_per_gram * w2) by (nonlinear_arith)
        requires
            0 <= fee_per_gram,
            w1 <= w2,
    ;
}

/// The ordering key of a record during selection: by value alone, or by
/// maturity first and value second.
pub open spec fn sort_key(r: RecModel, by_maturity: bool) -> int {
    if by_maturity {
        r.maturity * 0x1_0000_0000_0000_0000 + r.value
    } else {
        r.value as int
    }
}

/// Whether `a` sorts at or before `b`.
fn key_le(a: &OutputRecord, b: &OutputRecord, by_maturity: bool) -> (r: bool)
    ensures
        r == (sort_key(a@, by_maturity) <= sort_key(b@, by_maturity)),
{
    if by_maturity {
        if a.output.features.maturity != b.output.features.maturity {
            a.output.features.maturity < b.output.features.maturity
        } else {
            a.output.value <= b.output.value
        }
    } else {
        a.output.value <= b.output.value
    }
}

/// Sort records ascending by the selection key. The result holds exactly the
/// given records.
pub fn sort_records(input: &Vec<OutputRecord>, by_maturity: bool) -> (r: Vec<OutputRecord>)
    ensures
        models(r@).to_multiset() == models(input@).to_multiset(),
        r@.len() == input@.len(),
        sum_all(models(r@)) == sum_all(models(input@)),
        forall|i: int, j: int|
            0 <= i < j < r@.len() ==> sort_key(#[trigger] r@[i]@, by_maturity) <= sort_key(
                #[trigger] r@[j]@,
                by_maturity,
            ),
{
    broadcast use group_to_multiset_ensures;

    let mut src: Vec<OutputRecord> = Vec::new();
    let mut i: usize = 0;
    while i < input.len()
        invariant
            i <= input.len(),
            src@ == input@.take(i as int),
        decreases input.len() - i,
    {
        src.push(input[i]);
        proof {
            assert(src@ =~= input@.take(i as int + 1));
        }
        i = i + 1;
    }
    proof {
        assert(input@.take(input@.len() as int) =~= input@);
    }
    let mut out: Vec<OutputRecord> = Vec::new();
    while src.len() > 0
        invariant
            models(out@).to_multiset().add(models(src@).to_multiset()) == models(
                input@,
            ).to_multiset(),
            sum_all(models(out@)) + sum_all(models(src@)) == sum_all(models(input@)),
            out@.len() + src@.len() == input@.len(),
            forall|i: int, j: int|
                0 <= i < j < out@.len() ==> sort_key(#[trigger] out@[i]@, by_maturity) <= sort_key(
                    #[trigger] out@[j]@,
                    by_maturity,
                ),
            forall|i: int, j: int|
                0 <= i < out@.len() && 0 <= j < src@.len() ==> sort_key(
                    #[trigger] out@[i]@,
                    by_maturity,
                ) <= sort_key(#[trigger] src@[j]@, by_maturity),
        decreases src.len(),
    {
        let mut mi: usize = 0;
        let mut k: usize = 1;
        while k < src.len()
            invariant
                mi < k <= src.len(),
                src@.len() > 0,
                forall|j: int|
                    0 <= j < k ==> sort_key(#[trigger] src@[mi as int]@, by_maturity) <= sort_key(
                        src@[j]@,
                        by_maturity,
                    ),
            decreases src.len() - k,
        {
            if !key_le(&src[mi], &src[k], by_maturity) {
                mi = k;
            }
            k = k + 1;
        }
        let ghost src_before = src@;
        let rec = src.remove(mi);
        let ghost out_before = out@;
        out.push(rec);
        proof {
            assert(models(src@) =~= models(src_before).remove(mi as int));
            assert(models(out@) =~= models(out_before).push(rec@));
            assert(models(src_before)[mi as int] == rec@);
            models(src_before).to_multiset_ensures();
            models(out_before).to_multiset_ensures();
            assert(models(out@) =~= models(out_before).push(rec@));
            assert(models(src_before).contains(rec@));
            assert(models(src_before).to_multiset().count(rec@) > 0);
            assert(models(out@).to_multiset() =~= models(out_before).to_multiset().insert(rec@));
            assert(models(src@).to_multiset() =~= models(src_before).to_multiset().remove(rec@));
            assert(models(out@).to_multiset().add(models(src@).to_multiset()) =~= models(
                out_before,
            ).to_multiset().add(models(src_before).to_multiset()));
            lemma_sum_all_remove(models(src_before), mi as int);
            assert(models(out_before).push(rec@).drop_last() =~= models(out_before));
            assert(sum_all(models(out@)) == sum_all(models(out_before)) + rec@.value);
            assert forall|j: int|
                0 <= j < src@.len() implies sort_key(rec@, by_maturity) <= sort_key(
                #[trigger] src@[j]@,
                by_maturity,
            ) by {
                if j < mi {
                    assert(src@[j] == src_before[j]);
                } else {
                    assert(src@[j] == src_before[j + 1]);
                }
            }
        }
    }
    proof {
        assert(models(src@) =~= Seq::<RecModel>::empty());
        assert(models(out@).to_multiset() =~= models(input@).to_multiset());
    }
    out
}

/// The ascending order on integers, used to arrange selection keys.
pub open spec fn int_leq() -> spec_fn(int, int) -> bool {
    |a: int, b: int| a <= b
}

/// The ascending order on integers is a total ordering.
pub proof fn lemma_int_leq_total()
    ensures
        vstd::relations::total_ordering(int_leq()),
{
    assert forall|a: int| #[trigger] int_leq()(a, a) by {}
    assert forall|a: int, b: int| #[trigger] int_leq()(a, b) && #[trigger] int_leq()(b, a) implies a
        == b by {}
    assert forall|a: int, b: int, c: int|
        #[trigger] int_leq()(a, b) && #[trigger] int_leq()(b, c) implies int_leq()(a, c) by {}
    assert forall|a: int, b: int| !(#[trigger] int_leq()(a, b)) implies int_leq()(b, a) by {}
}

/// The selection keys of a list of records.
pub open spec fn rec_keys(rs: Seq<RecModel>, by_maturity: bool) -> Seq<int> {
    rs.map_values(|r: RecModel| sort_key(r, by_maturity))
}

/// The value encoded in a selection key.
pub open spec fn key_value(k: int) -> int {
    k % 0x1_0000_0000_0000_0000
}

/// A record's value can be read back from its selection key.
pub proof fn lemma_key_value(r: RecModel, by_maturity: bool)
    ensures
        key_value(sort_key(r, by_maturity)) == r.value,
{
    if by_maturity {
        assert((r.maturity * 0x1_0000_0000_0000_0000 + r.value) % 0x1_0000_0000_0000_0000
            == r.value as int) by (nonlinear_arith)
            requires
                0 <= r.value < 0x1_0000_0000_0000_0000,
                0 <= r.maturity,
        ;
    }
}

/// Sum of the values encoded in a list of selection keys.
pub open spec fn key_vals_sum(ks: Seq<int>) -> int
    decreases ks.len(),
{
    if ks.len() == 0 {
        0
    } else {
        key_vals_sum(ks.drop_last()) + key_value(ks.last())
    }
}

/// The values encoded in a record list's keys sum to the records' values.
pub proof fn lemma_sum_as_keys(rs: Seq<RecModel>, by_maturity: bool)
    ensures
        key_vals_sum(rec_keys(rs, by_maturity)) == sum_all(rs),
    decreases rs.len(),
{
    if rs.len() > 0 {
        assert(rec_keys(rs, by_maturity).drop_last() =~= rec_keys(rs.drop_last(), by_maturity));
        lemma_sum_as_keys(rs.drop_last(), by_maturity);
        lemma_key_value(rs.last(), by_maturity);
        assert(rec_keys(rs, by_maturity).last() == sort_key(rs.last(), by_maturity));
    }
}

/// Multiset-equal record lists have multiset-equal key lists.
pub proof fn lemma_rec_keys_multiset(a: Seq<RecModel>, b: Seq<RecModel>, by_maturity: bool)
    requires
        a.to_multiset() == b.to_multiset(),
    ensures
        rec_keys(a, by_maturity).to_multiset() == rec_keys(b, by_maturity).to_multiset(),
    decreases a.len(),
{
    broadcast use vstd::seq_lib::group_to_multiset_ensures;
    broadcast use vstd::multiset::group_multiset_axioms;

    a.to_multiset_ensures();
    b.to_multiset_ensures();
    if a.len() == 0 {
        assert(b.len() == 0);
        assert(rec_keys(a, by_maturity) =~= rec_keys(b, by_maturity));
    } else {
        let x = a.last();
        assert(a.contains(x));
        assert(a.to_multiset().count(x) > 0);
        assert(b.to_multiset().count(x) > 0);
        assert(b.contains(x));
        let j = choose|j: int| 0 <= j < b.len() && b[j] == x;
        assert(a.drop_last().push(x) =~= a);
        assert(a.drop_last().push(x).to_multiset() =~= a.drop_last().to_multiset().insert(x));
        assert(b.remove(j).to_multiset() =~= b.to_multiset().remove(x));
        assert(a.drop_last().to_multiset() =~= b.remove(j).to_multiset());
        lemma_rec_keys_multiset(a.drop_last(), b.remove(j), by_maturity);
        let ka = rec_keys(a, by_maturity);
        let kb = rec_keys(b, by_maturity);
        assert(ka =~= rec_keys(a.drop_last(), by_maturity).push(sort_key(x, by_maturity)));
        assert(rec_keys(b.remove(j), by_maturity) =~= kb.remove(j));
        ka.to_multiset_ensures();
        kb.to_multiset_ensures();
        rec_keys(a.drop_last(), by_maturity).to_multiset_ensures();
        assert(ka.to_multiset() =~= rec_keys(a.drop_last(), by_maturity).to_multiset().insert(
            sort_key(x, by_maturity),
        ));
        assert(kb.remove(j).to_multiset() =~= kb.to_multiset().remove(kb[j]));
        assert(kb[j] == sort_key(x, by_maturity));
        assert(kb.to_multiset().count(kb[j]) > 0) by {
            assert(kb.contains(kb[j]));
        }
        assert(ka.to_multiset() =~= kb.to_multiset());
    }
}

/// Two ascending integer lists with the same multiset are equal.
pub proof fn lemma_sorted_ints_equal(a: Seq<int>, b: Seq<int>)
    requires
        vstd::relations::sorted_by(a, int_leq()),
        vstd::relations::sorted_by(b, int_leq()),
        a.to_multiset() == b.to_multiset(),
    ensures
        a =~= b,
    decreases a.len(),
{
    broadcast use vstd::seq_lib::group_to_multiset_ensures;
    broadcast use vstd::multiset::group_multiset_axioms;

    a.to_multiset_ensures();
    b.to_multiset_ensures();
    if a.len() == 0 {
        assert(b.len() == 0);
    } else {
        assert(a.len() == b.len());
        let x = a.last();
        let y = b.last();
        assert(a.contains(x) && b.contains(y));
        assert(b.to_multiset().count(x) > 0);
        assert(b.contains(x));
        let j = choose|j: int| 0 <= j < b.len() && b[j] == x;
        assert(int_leq()(b[j], b[b.len() - 1]));
        assert(a.to_multiset().count(y) > 0);
        assert(a.contains(y));
        let i = choose|i: int| 0 <= i < a.len() && a[i] == y;
        assert(int_leq()(a[i], a[a.len() - 1]));
        assert(x == y);
        assert(a.drop_last().push(x) =~= a);
        assert(b.drop_last().push(y) =~= b);
        assert(a.drop_last().push(x).to_multiset() =~= a.drop_last().to_multiset().insert(x));
        assert(b.drop_last().push(y).to_multiset() =~= b.drop_last().to_multiset().insert(y));
        assert(a.drop_last().to_multiset() =~= b.drop_last().to_multiset()) by {
            assert(a.drop_last().to_multiset().insert(x) =~= b.drop_last().to_multiset().insert(
                x,
            ));
            assert forall|z: int| true implies a.drop_last().to_multiset().count(z)
                == b.drop_last().to_multiset().count(z) by {
                assert(a.drop_last().to_multiset().insert(x).count(z) == b.drop_last().to_multiset()
                    .insert(x).count(z));
            }
        }
        assert(vstd::relations::sorted_by(a.drop_last(), int_leq())) by {
            assert forall|p: int, q: int|
                0 <= p < q < a.drop_last().len() implies #[trigger] int_leq()(
                a.drop_last()[p],
                a.drop_last()[q],
            ) by {
                assert(int_leq()(a[p], a[q]));
            }
        }
        assert(vstd::relations::sorted_by(b.drop_last(), int_leq())) by {
            assert forall|p: int, q: int|
                0 <= p < q < b.drop_last().len() implies #[trigger] int_leq()(
                b.drop_last()[p],
                b.drop_last()[q],
            ) by {
                assert(int_leq()(b[p], b[q]));
            }
        }
        lemma_sorted_ints_equal(a.drop_last(), b.drop_last());
        assert(a =~= b);
    }
}

/// What sorting the unspent partition yields: records of the store, all
/// unspent, with pairwise distinct commitments, summing to the unspent
/// balance.
pub proof fn lemma_sorted_unspent_props(recs: Seq<RecModel>, cs: Seq<RecModel>)
    requires
        recs_distinct(recs),
        cs.to_multiset() == filter_status(recs, OutputStatus::Unspent).to_multiset(),
        sum_all(cs) == sum_all(filter_status(recs, OutputStatus::Unspent)),
        cs.len() == filter_status(recs, OutputStatus::Unspent).len(),
    ensures
        forall|i: int|
            0 <= i < cs.len() ==> (#[trigger] cs[i]).status == OutputStatus::Unspent && exists|j: int|
                0 <= j < recs.len() && cs[i] == recs[j],
        forall|i: int, j: int|
            0 <= i < j < cs.len() ==> (#[trigger] cs[i]).commitment != (#[trigger] cs[j]).commitment,
        sum_all(cs) == sum_status(recs, OutputStatus::Unspent),
{
    let f = filter_status(recs, OutputStatus::Unspent);
    lemma_filter_status_elems(recs, OutputStatus::Unspent);
    lemma_sum_filter_status(recs, OutputStatus::Unspent);
    cs.to_multiset_ensures();
    f.to_multiset_ensures();
    assert forall|i: int|
        0 <= i < cs.len() implies (#[trigger] cs[i]).status == OutputStatus::Unspent && exists|j: int|
        0 <= j < recs.len() && cs[i] == recs[j] by {
        assert(cs.contains(cs[i]));
        assert(cs.to_multiset().count(cs[i]) > 0);
        assert(f.to_multiset().count(cs[i]) > 0);
        assert(f.contains(cs[i]));
        let a = choose|a: int| 0 <= a < f.len() && f[a] == cs[i];
        assert(f[a].status == OutputStatus::Unspent);
    }
    assert(f.no_duplicates()) by {
        assert forall|i: int, j: int|
            0 <= i < f.len() && 0 <= j < f.len() && i != j implies f[i] != f[j] by {
            if i < j {
                assert(f[i].commitment != f[j].commitment);
            } else {
                assert(f[j].commitment != f[i].commitment);
            }
        }
    }
    f.lemma_multiset_has_no_duplicates();
    cs.lemma_multiset_has_no_duplicates_conv();
    assert forall|i: int, j: int|
        0 <= i < j < cs.len() implies (#[trigger] cs[i]).commitment != (
    #[trigger] cs[j]).commitment by {
        if cs[i].commitment == cs[j].commitment {
            assert(cs.contains(cs[i]));
            assert(cs.to_multiset().count(cs[i]) > 0);
            assert(f.to_multiset().count(cs[i]) > 0);
            assert(f.contains(cs[i]));
            assert(cs.contains(cs[j]));
            assert(cs.to_multiset().count(cs[j]) > 0);
            assert(f.to_multiset().count(cs[j]) > 0);
            assert(f.contains(cs[j]));
            let a = choose|a: int| 0 <= a < f.len() && f[a] == cs[i];
            let b = choose|b: int| 0 <= b < f.len() && f[b] == cs[j];
            if a != b {
                if a < b {
                    assert(f[a].commitment != f[b].commitment);
                } else {
                    assert(f[b].commitment != f[a].commitment);
                }
                assert(false);
            }
            assert(cs[i] == cs[j]);
            assert(cs.no_duplicates());
            assert(false);
        }
    }
}

} // verus!
