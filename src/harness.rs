use rand::rngs::StdRng;
use std::time::Instant;
use vstd::prelude::*;

use crate::distributions::InputDistribution;
use crate::sorts::{sorted, SortingMethod};

verus! {

/// A reading of the monotonic clock, `std::time::Instant`, carried through as an opaque value.
#[verifier::external_type_specification]
#[verifier::external_body]
pub struct ExInstant(Instant);

/// Relies on `std::time::Instant::now`: a reading of the monotonic clock.
#[verifier::external_body]
fn clock_now() -> (r: Instant) {
    Instant::now()
}

/// Relies on `std::time::Instant::elapsed` and `Duration::as_nanos`: the nanoseconds that have
/// passed since `start`. Any value may come back.
#[verifier::external_body]
fn nanos_since(start: &Instant) -> (r: u128) {
    start.elapsed().as_nanos()
}

/// One labelled input of the catalogue.
#[derive(Debug, Clone)]
pub struct DistributionResult {
    pub name: String,
    pub data: Vec<i32>,
}

/// The outcome of sorting one input with one algorithm.
#[derive(Debug, Clone, Copy)]
pub struct BenchmarkResult {
    /// The mean wall-clock time of one run, in nanoseconds.
    pub time: u128,
    /// Every run left a non-descending sequence.
    pub success: bool,
}

/// An outcome together with the algorithm's name and stability claim.
#[derive(Debug, Clone)]
pub struct BenchmarkData {
    pub result: BenchmarkResult,
    pub name: String,
    pub stable: bool,
}

/// Tells whether every adjacent pair of `data` is in order.
pub fn is_non_descending(data: &[i32]) -> (r: bool)
    ensures
        r == sorted(data@),
{
    let n = data.len();
    if n < 2 {
        return true;
    }
    let mut i: usize = 1;
    while i < n
        invariant
            1 <= i <= n == data@.len(),
            crate::sorts::sorted_between(data@, 0, i as int),
        decreases n - i,
    {
        if data[i - 1] > data[i] {
            return false;
        }
        assert forall|a: int, b: int| 0 <= a <= b < i + 1 implies data@[a] <= data@[b] by {
            if b == i && a < i {
                assert(data@[a] <= data@[i - 1]);
            }
        }
        i += 1;
    }
    true
}

/// Summarises `runs` sorted copies that took `total_nanos` together: the mean time of one run
/// and whether every copy is non-descending.
pub fn summarize_runs(total_nanos: u128, copies: &Vec<Vec<i32>>, runs: usize) -> (r:
    BenchmarkResult)
    requires
        runs >= 1,
    ensures
        r.time == total_nanos / runs as u128,
        r.success == forall|c: int| 0 <= c < copies@.len() ==> sorted(#[trigger] copies@[c]@),
{
    let mut success = true;
    let mut c: usize = 0;
    while c < copies.len()
        invariant
            c <= copies@.len(),
            success == forall|d: int| 0 <= d < c ==> sorted(#[trigger] copies@[d]@),
        decreases copies@.len() - c,
    {
        let ok = is_non_descending(copies[c].as_slice());
        success = success && ok;
        c += 1;
    }
    BenchmarkResult { time: total_nanos / runs as u128, success }
}

/// Sorts `runs` copies of `input` with `S`, timing the batch as a whole.
fn measure<S: SortingMethod>(input: &Vec<i32>, runs: usize) -> (r: BenchmarkResult)
    requires
        runs >= 1,
    ensures
        r.success,
{
    let mut pending: Vec<Vec<i32>> = Vec::new();
    let mut c: usize = 0;
    while c < runs
        invariant
            c <= runs,
        decreases runs - c,
    {
        pending.push(input.clone());
        c += 1;
    }
    let mut done: Vec<Vec<i32>> = Vec::new();
    let start = clock_now();
    while pending.len() > 0
        invariant
            forall|d: int| 0 <= d < done@.len() ==> sorted(#[trigger] done@[d]@),
        decreases pending@.len(),
    {
        let mut copy = pending.pop().unwrap();
        S::sort(copy.as_mut_slice());
        done.push(copy);
    }
    let total = nanos_since(&start);
    summarize_runs(total, &done, runs)
}

/// `e` was made by a strategy whose name is `label` and whose claim of stability is `stable`.
pub open spec fn made_by(e: BenchmarkData, label: Seq<char>, stable: bool) -> bool {
    &&& e.name@ == label
    &&& e.stable == stable
    &&& e.result.success
}

/// Runs `S` on every input of `data`, appending one record per input to `out`.
fn run_method<S: SortingMethod>(data: &[DistributionResult], runs: usize, out: &mut Vec<BenchmarkData>)
    requires
        runs >= 1,
    ensures
        final(out)@.len() == old(out)@.len() + data@.len(),
        forall|j: int| 0 <= j < old(out)@.len() ==> final(out)@[j] == old(out)@[j],
        forall|i: int|
            0 <= i < data@.len() ==> made_by(
                #[trigger] final(out)@[old(out)@.len() + i],
                S::label(),
                S::claims_stable(),
            ),
{
    let ghost start = out@;
    let mut i: usize = 0;
    while i < data.len()
        invariant
            i <= data@.len(),
            runs >= 1,
            out@.len() == start.len() + i,
            forall|j: int| 0 <= j < start.len() ==> out@[j] == start[j],
            forall|k: int|
                0 <= k < i ==> made_by(#[trigger] out@[start.len() + k], S::label(), S::claims_stable()),
        decreases data@.len() - i,
    {
        let result = measure::<S>(&data[i].data, runs);
        out.push(BenchmarkData { result, name: S::name(), stable: S::stable() });
        assert(out@[start.len() + i as int].name@ == S::label());
        i += 1;
    }
}

/// `k * l <= j < (k + 1) * l` places `j` in block `k` of blocks of length `l`.
proof fn lemma_block(j: int, k: int, l: int)
    requires
        0 <= k,
        0 < l,
        k * l <= j < k * l + l,
    ensures
        j / l == k,
        j % l == j - k * l,
{
    assert(j / l == k && j % l == j - k * l) by (nonlinear_arith)
        requires
            0 <= k,
            0 < l,
            k * l <= j < k * l + l,
    ;
}

/// A fixed list of sorting strategies, run one after another.
pub trait SortingMethodProvider {
    /// How many strategies the list holds.
    spec fn count() -> nat;

    /// The name of strategy `k`.
    spec fn label_at(k: int) -> Seq<char>;

    /// The stability claim of strategy `k`.
    spec fn stable_at(k: int) -> bool;

    /// Runs every strategy on every input, `runs` times each: the records of strategy `k` fill
    /// the block `k` of the result, one per input, in the order of `data`.
    fn run_all(data: &[DistributionResult], runs: usize) -> (r: Vec<BenchmarkData>)
        requires
            runs >= 1,
        ensures
            r@.len() == Self::count() * data@.len(),
            forall|j: int|
                0 <= j < r@.len() ==> made_by(
                    #[trigger] r@[j],
                    Self::label_at(j / data@.len() as int),
                    Self::stable_at(j / data@.len() as int),
                ),
    ;
}

/// What `S::run_all` promises: `r` holds, block after block, one successful outcome of strategy
/// `k` of `S` per input of `data`, in the order of `data`.
pub open spec fn outcomes_of<S: SortingMethodProvider>(data: Seq<DistributionResult>, r: Seq<BenchmarkData>) -> bool {
    &&& r.len() == S::count() * data.len()
    &&& forall|j: int|
        0 <= j < r.len() ==> made_by(
            #[trigger] r[j],
            S::label_at(j / data.len() as int),
            S::stable_at(j / data.len() as int),
        )
}

/// `e` is the input that distribution `D` gave for length `len`.
pub open spec fn input_made_by<D: InputDistribution>(e: DistributionResult, len: nat) -> bool {
    &&& e.name@ == D::label()
    &&& e.data@.len() == len
    &&& D::admits(len, e.data@)
}

/// Builds the input of `D` for each length, appending them to `out` in the order of `lengths`.
fn add_inputs<D: InputDistribution>(rng: &mut StdRng, lengths: &[usize], out: &mut Vec<DistributionResult>)
    requires
        forall|i: int| 0 <= i < lengths@.len() ==> lengths@[i] <= i32::MAX,
    ensures
        final(out)@.len() == old(out)@.len() + lengths@.len(),
        forall|j: int| 0 <= j < old(out)@.len() ==> final(out)@[j] == old(out)@[j],
        forall|i: int|
            0 <= i < lengths@.len() ==> input_made_by::<D>(
                #[trigger] final(out)@[old(out)@.len() + i],
                lengths@[i] as nat,
            ),
{
    let ghost start = out@;
    let mut i: usize = 0;
    while i < lengths.len()
        invariant
            i <= lengths@.len(),
            forall|i: int| 0 <= i < lengths@.len() ==> lengths@[i] <= i32::MAX,
            out@.len() == start.len() + i,
            forall|j: int| 0 <= j < start.len() ==> out@[j] == start[j],
            forall|k: int|
                0 <= k < i ==> input_made_by::<D>(#[trigger] out@[start.len() + k], lengths@[k] as nat),
        decreases lengths@.len() - i,
    {
        let data = D::generate(rng, lengths[i]);
        out.push(DistributionResult { name: D::name(), data });
        assert(input_made_by::<D>(out@[start.len() + i as int], lengths@[i as int] as nat));
        i += 1;
    }
}

/// A fixed list of distributions, each asked for an input of every requested length.
pub trait HarnessInputProvider {
    /// How many distributions the list holds.
    spec fn count() -> nat;

    /// The name of distribution `k`.
    spec fn label_at(k: int) -> Seq<char>;

    /// `s` is an output that distribution `k` may give for length `len`.
    spec fn admits_at(k: int, len: nat, s: Seq<i32>) -> bool;

    /// Builds the input catalogue: the inputs of distribution `k` fill block `k` of the result,
    /// one per length, in the order of `lengths`.
    fn generate_input(rng: &mut StdRng, lengths: &[usize]) -> (r: Vec<DistributionResult>)
        requires
            forall|i: int| 0 <= i < lengths@.len() ==> lengths@[i] <= i32::MAX,
        ensures
            r@.len() == Self::count() * lengths@.len(),
            forall|j: int|
                0 <= j < r@.len() ==> {
                    let k = j / lengths@.len() as int;
                    let len = lengths@[j % lengths@.len() as int] as nat;
                    &&& (#[trigger] r@[j]).name@ == Self::label_at(k)
                    &&& r@[j].data@.len() == len
                    &&& Self::admits_at(k, len, r@[j].data@)
                },
    ;
}

/// What `D::generate_input` promises: `r` holds, block after block, the input of distribution
/// `k` of `D` for each length of `lengths`, in the order of `lengths`.
pub open spec fn catalogue_of<D: HarnessInputProvider>(lengths: Seq<usize>, r: Seq<DistributionResult>) -> bool {
    &&& r.len() == D::count() * lengths.len()
    &&& forall|j: int|
        0 <= j < r.len() ==> {
            let k = j / lengths.len() as int;
            let len = lengths[j % lengths.len() as int] as nat;
            &&& (#[trigger] r[j]).name@ == D::label_at(k)
            &&& r[j].data@.len() == len
            &&& D::admits_at(k, len, r[j].data@)
        }
}

impl<S1: SortingMethod> SortingMethodProvider for (S1,) {
    open spec fn count() -> nat {
        1
    }

    open spec fn label_at(k: int) -> Seq<char> {
        S1::label()
    }

    open spec fn stable_at(k: int) -> bool {
        S1::claims_stable()
    }

    fn run_all(data: &[DistributionResult], runs: usize) -> (r: Vec<BenchmarkData>) {
        let mut v: Vec<BenchmarkData> = Vec::new();
        run_method::<S1>(data, runs, &mut v);
        let ghost v1 = v@;
        proof {
            let l = data@.len() as int;
            assert forall|j: int| 0 <= j < v@.len() implies made_by(
                #[trigger] v@[j],
                Self::label_at(j / l),
                Self::stable_at(j / l),
            ) by {
                if j < 1 * l {
                    lemma_block(j, 0, l);
                    assert(v1[j] == v1[j]);
                    assert(made_by(v1[0 * l + (j - 0 * l)], S1::label(), S1::claims_stable()));
                }
            }
        }
        v
    }
}

impl<S1: SortingMethod, S2: SortingMethod> SortingMethodProvider for (S1, S2) {
    open spec fn count() -> nat {
        2
    }

    open spec fn label_at(k: int) -> Seq<char> {
        if k == 0 {
            S1::label()
        } else {
            S2::label()
        }
    }

    open spec fn stable_at(k: int) -> bool {
        if k == 0 {
            S1::claims_stable()
        } else {
            S2::claims_stable()
        }
    }

    fn run_all(data: &[DistributionResult], runs: usize) -> (r: Vec<BenchmarkData>) {
        let mut v: Vec<BenchmarkData> = Vec::new();
        run_method::<S1>(data, runs, &mut v);
        let ghost v1 = v@;
        run_method::<S2>(data, runs, &mut v);
        let ghost v2 = v@;
        proof {
            let l = data@.len() as int;
            assert forall|j: int| 0 <= j < v@.len() implies made_by(
                #[trigger] v@[j],
                Self::label_at(j / l),
                Self::stable_at(j / l),
            ) by {
                if j < 1 * l {
                    lemma_block(j, 0, l);
                    assert(v2[j] == v1[j]);
                    assert(made_by(v1[0 * l + (j - 0 * l)], S1::label(), S1::claims_stable()));
                } else if j < 2 * l {
                    lemma_block(j, 1, l);
                    assert(v2[j] == v2[j]);
                    assert(made_by(v2[1 * l + (j - 1 * l)], S2::label(), S2::claims_stable()));
                }
            }
        }
        v
    }
}

impl<S1: SortingMethod, S2: SortingMethod, S3: SortingMethod> SortingMethodProvider for (S1, S2, S3) {
    open spec fn count() -> nat {
        3
    }

    open spec fn label_at(k: int) -> Seq<char> {
        if k == 0 {
            S1::label()
        } else if k == 1 {
            S2::label()
        } else {
            S3::label()
        }
    }

    open spec fn stable_at(k: int) -> bool {
        if k == 0 {
            S1::claims_stable()
        } else if k == 1 {
            S2::claims_stable()
        } else {
            S3::claims_stable()
        }
    }

    fn run_all(data: &[DistributionResult], runs: usize) -> (r: Vec<BenchmarkData>) {
        let mut v: Vec<BenchmarkData> = Vec::new();
        run_method::<S1>(data, runs, &mut v);
        let ghost v1 = v@;
        run_method::<S2>(data, runs, &mut v);
        let ghost v2 = v@;
        run_method::<S3>(data, runs, &mut v);
        let ghost v3 = v@;
        proof {
            let l = data@.len() as int;
            assert forall|j: int| 0 <= j < v@.len() implies made_by(
                #[trigger] v@[j],
                Self::label_at(j / l),
                Self::stable_at(j / l),
            ) by {
                if j < 1 * l {
                    lemma_block(j, 0, l);
                    assert(v3[j] == v1[j]);
                    assert(made_by(v1[0 * l + (j - 0 * l)], S1::label(), S1::claims_stable()));
                } else if j < 2 * l {
                    lemma_block(j, 1, l);
                    assert(v3[j] == v2[j]);
                    assert(made_by(v2[1 * l + (j - 1 * l)], S2::label(), S2::claims_stable()));
                } else if j < 3 * l {
                    lemma_block(j, 2, l);
                    assert(v3[j] == v3[j]);
                    assert(made_by(v3[2 * l + (j - 2 * l)], S3::label(), S3::claims_stable()));
                }
            }
        }
        v
    }
}

impl<S1: SortingMethod, S2: SortingMethod, S3: SortingMethod, S4: SortingMethod> SortingMethodProvider for (S1, S2, S3, S4) {
    open spec fn count() -> nat {
        4
    }

    open spec fn label_at(k: int) -> Seq<char> {
        if k == 0 {
            S1::label()
        } else if k == 1 {
            S2::label()
        } else if k == 2 {
            S3::label()
        } else {
            S4::label()
        }
    }

    open spec fn stable_at(k: int) -> bool {
        if k == 0 {
            S1::claims_stable()
        } else if k == 1 {
            S2::claims_stable()
        } else if k == 2 {
            S3::claims_stable()
        } else {
            S4::claims_stable()
        }
    }

    fn run_all(data: &[DistributionResult], runs: usize) -> (r: Vec<BenchmarkData>) {
        let mut v: Vec<BenchmarkData> = Vec::new();
        run_method::<S1>(data, runs, &mut v);
        let ghost v1 = v@;
        run_method::<S2>(data, runs, &mut v);
        let ghost v2 = v@;
        run_method::<S3>(data, runs, &mut v);
        let ghost v3 = v@;
        run_method::<S4>(data, runs, &mut v);
        let ghost v4 = v@;
        proof {
            let l = data@.len() as int;
            assert forall|j: int| 0 <= j < v@.len() implies made_by(
                #[trigger] v@[j],
                Self::label_at(j / l),
                Self::stable_at(j / l),
            ) by {
                if j < 1 * l {
                    lemma_block(j, 0, l);
                    assert(v4[j] == v1[j]);
                    assert(made_by(v1[0 * l + (j - 0 * l)], S1::label(), S1::claims_stable()));
                } else if j < 2 * l {
                    lemma_block(j, 1, l);
                    assert(v4[j] == v2[j]);
                    assert(made_by(v2[1 * l + (j - 1 * l)], S2::label(), S2::claims_stable()));
                } else if j < 3 * l {
                    lemma_block(j, 2, l);
                    assert(v4[j] == v3[j]);
                    assert(made_by(v3[2 * l + (j - 2 * l)], S3::label(), S3::claims_stable()));
                } else if j < 4 * l {
                    lemma_block(j, 3, l);
                    assert(v4[j] == v4[j]);
                    assert(made_by(v4[3 * l + (j - 3 * l)], S4::label(), S4::claims_stable()));
                }
            }
        }
        v
    }
}

impl<S1: SortingMethod, S2: SortingMethod, S3: SortingMethod, S4: SortingMethod, S5: SortingMethod> SortingMethodProvider for (S1, S2, S3, S4, S5) {
    open spec fn count() -> nat {
        5
    }

    open spec fn label_at(k: int) -> Seq<char> {
        if k == 0 {
            S1::label()
        } else if k == 1 {
            S2::label()
        } else if k == 2 {
            S3::label()
        } else if k == 3 {
            S4::label()
        } else {
            S5::label()
        }
    }

    open spec fn stable_at(k: int) -> bool {
        if k == 0 {
            S1::claims_stable()
        } else if k == 1 {
            S2::claims_stable()
        } else if k == 2 {
            S3::claims_stable()
        } else if k == 3 {
            S4::claims_stable()
        } else {
            S5::claims_stable()
        }
    }

    fn run_all(data: &[DistributionResult], runs: usize) -> (r: Vec<BenchmarkData>) {
        let mut v: Vec<BenchmarkData> = Vec::new();
        run_method::<S1>(data, runs, &mut v);
        let ghost v1 = v@;
        run_method::<S2>(data, runs, &mut v);
        let ghost v2 = v@;
        run_method::<S3>(data, runs, &mut v);
        let ghost v3 = v@;
        run_method::<S4>(data, runs, &mut v);
        let ghost v4 = v@;
        run_method::<S5>(data, runs, &mut v);
        let ghost v5 = v@;
        proof {
            let l = data@.len() as int;
            assert forall|j: int| 0 <= j < v@.len() implies made_by(
                #[trigger] v@[j],
                Self::label_at(j / l),
                Self::stable_at(j / l),
            ) by {
                if j < 1 * l {
                    lemma_block(j, 0, l);
                    assert(v5[j] == v1[j]);
                    assert(made_by(v1[0 * l + (j - 0 * l)], S1::label(), S1::claims_stable()));
                } else if j < 2 * l {
                    lemma_block(j, 1, l);
                    assert(v5[j] == v2[j]);
                    assert(made_by(v2[1 * l + (j - 1 * l)], S2::label(), S2::claims_stable()));
                } else if j < 3 * l {
                    lemma_block(j, 2, l);
                    assert(v5[j] == v3[j]);
                    assert(made_by(v3[2 * l + (j - 2 * l)], S3::label(), S3::claims_stable()));
                } else if j < 4 * l {
                    lemma_block(j, 3, l);
                    assert(v5[j] == v4[j]);
                    assert(made_by(v4[3 * l + (j - 3 * l)], S4::label(), S4::claims_stable()));
                } else if j < 5 * l {
                    lemma_block(j, 4, l);
                    assert(v5[j] == v5[j]);
                    assert(made_by(v5[4 * l + (j - 4 * l)], S5::label(), S5::claims_stable()));
                }
            }
        }
        v
    }
}

impl<S1: SortingMethod, S2: SortingMethod, S3: SortingMethod, S4: SortingMethod, S5: SortingMethod, S6: SortingMethod> SortingMethodProvider for (S1, S2, S3, S4, S5, S6) {
    open spec fn count() -> nat {
        6
    }

    open spec fn label_at(k: int) -> Seq<char> {
        if k == 0 {
            S1::label()
        } else if k == 1 {
            S2::label()
        } else if k == 2 {
            S3::label()
        } else if k == 3 {
            S4::label()
        } else if k == 4 {
            S5::label()
        } else {
            S6::label()
        }
    }

    open spec fn stable_at(k: int) -> bool {
        if k == 0 {
            S1::claims_stable()
        } else if k == 1 {
            S2::claims_stable()
        } else if k == 2 {
            S3::claims_stable()
        } else if k == 3 {
            S4::claims_stable()
        } else if k == 4 {
            S5::claims_stable()
        } else {
            S6::claims_stable()
        }
    }

    fn run_all(data: &[DistributionResult], runs: usize) -> (r: Vec<BenchmarkData>) {
        let mut v: Vec<BenchmarkData> = Vec::new();
        run_method::<S1>(data, runs, &mut v);
        let ghost v1 = v@;
        run_method::<S2>(data, runs, &mut v);
        let ghost v2 = v@;
        run_method::<S3>(data, runs, &mut v);
        let ghost v3 = v@;
        run_method::<S4>(data, runs, &mut v);
        let ghost v4 = v@;
        run_method::<S5>(data, runs, &mut v);
        let ghost v5 = v@;
        run_method::<S6>(data, runs, &mut v);
        let ghost v6 = v@;
        proof {
            let l = data@.len() as int;
            assert forall|j: int| 0 <= j < v@.len() implies made_by(
                #[trigger] v@[j],
                Self::label_at(j / l),
                Self::stable_at(j / l),
            ) by {
                if j < 1 * l {
                    lemma_block(j, 0, l);
                    assert(v6[j] == v1[j]);
                    assert(made_by(v1[0 * l + (j - 0 * l)], S1::label(), S1::claims_stable()));
                } else if j < 2 * l {
                    lemma_block(j, 1, l);
                    assert(v6[j] == v2[j]);
                    assert(made_by(v2[1 * l + (j - 1 * l)], S2::label(), S2::claims_stable()));
                } else if j < 3 * l {
                    lemma_block(j, 2, l);
                    assert(v6[j] == v3[j]);
                    assert(made_by(v3[2 * l + (j - 2 * l)], S3::label(), S3::claims_stable()));
                } else if j < 4 * l {
                    lemma_block(j, 3, l);
                    assert(v6[j] == v4[j]);
                    assert(made_by(v4[3 * l + (j - 3 * l)], S4::label(), S4::claims_stable()));
                } else if j < 5 * l {
                    lemma_block(j, 4, l);
                    assert(v6[j] == v5[j]);
                    assert(made_by(v5[4 * l + (j - 4 * l)], S5::label(), S5::claims_stable()));
                } else if j < 6 * l {
                    lemma_block(j, 5, l);
                    assert(v6[j] == v6[j]);
                    assert(made_by(v6[5 * l + (j - 5 * l)], S6::label(), S6::claims_stable()));
                }
            }
        }
        v
    }
}

impl<S1: SortingMethod, S2: SortingMethod, S3: SortingMethod, S4: SortingMethod, S5: SortingMethod, S6: SortingMethod, S7: SortingMethod> SortingMethodProvider for (S1, S2, S3, S4, S5, S6, S7) {
    open spec fn count() -> nat {
        7
    }

    open spec fn label_at(k: int) -> Seq<char> {
        if k == 0 {
            S1::label()
        } else if k == 1 {
            S2::label()
        } else if k == 2 {
            S3::label()
        } else if k == 3 {
            S4::label()
        } else if k == 4 {
            S5::label()
        } else if k == 5 {
            S6::label()
        } else {
            S7::label()
        }
    }

    open spec fn stable_at(k: int) -> bool {
        if k == 0 {
            S1::claims_stable()
        } else if k == 1 {
            S2::claims_stable()
        } else if k == 2 {
            S3::claims_stable()
        } else if k == 3 {
            S4::claims_stable()
        } else if k == 4 {
            S5::claims_stable()
        } else if k == 5 {
            S6::claims_stable()
        } else {
            S7::claims_stable()
        }
    }

    fn run_all(data: &[DistributionResult], runs: usize) -> (r: Vec<BenchmarkData>) {
        let mut v: Vec<BenchmarkData> = Vec::new();
        run_method::<S1>(data, runs, &mut v);
        let ghost v1 = v@;
        run_method::<S2>(data, runs, &mut v);
        let ghost v2 = v@;
        run_method::<S3>(data, runs, &mut v);
        let ghost v3 = v@;
        run_method::<S4>(data, runs, &mut v);
        let ghost v4 = v@;
        run_method::<S5>(data, runs, &mut v);
        let ghost v5 = v@;
        run_method::<S6>(data, runs, &mut v);
        let ghost v6 = v@;
        run_method::<S7>(data, runs, &mut v);
        let ghost v7 = v@;
        proof {
            let l = data@.len() as int;
            assert forall|j: int| 0 <= j < v@.len() implies made_by(
                #[trigger] v@[j],
                Self::label_at(j / l),
                Self::stable_at(j / l),
            ) by {
                if j < 1 * l {
                    lemma_block(j, 0, l);
                    assert(v7[j] == v1[j]);
                    assert(made_by(v1[0 * l + (j - 0 * l)], S1::label(), S1::claims_stable()));
                } else if j < 2 * l {
                    lemma_block(j, 1, l);
                    assert(v7[j] == v2[j]);
                    assert(made_by(v2[1 * l + (j - 1 * l)], S2::label(), S2::claims_stable()));
                } else if j < 3 * l {
                    lemma_block(j, 2, l);
                    assert(v7[j] == v3[j]);
                    assert(made_by(v3[2 * l + (j - 2 * l)], S3::label(), S3::claims_stable()));
                } else if j < 4 * l {
                    lemma_block(j, 3, l);
                    assert(v7[j] == v4[j]);
                    assert(made_by(v4[3 * l + (j - 3 * l)], S4::label(), S4::claims_stable()));
                } else if j < 5 * l {
                    lemma_block(j, 4, l);
                    assert(v7[j] == v5[j]);
                    assert(made_by(v5[4 * l + (j - 4 * l)], S5::label(), S5::claims_stable()));
                } else if j < 6 * l {
                    lemma_block(j, 5, l);
                    assert(v7[j] == v6[j]);
                    assert(made_by(v6[5 * l + (j - 5 * l)], S6::label(), S6::claims_stable()));
                } else if j < 7 * l {
                    lemma_block(j, 6, l);
                    assert(v7[j] == v7[j]);
                    assert(made_by(v7[6 * l + (j - 6 * l)], S7::label(), S7::claims_stable()));
                }
            }
        }
        v
    }
}

impl<D1: InputDistribution> HarnessInputProvider for (D1,) {
    open spec fn count() -> nat {
        1
    }

    open spec fn label_at(k: int) -> Seq<char> {
        D1::label()
    }

    open spec fn admits_at(k: int, len: nat, s: Seq<i32>) -> bool {
        D1::admits(len, s)
    }

    fn generate_input(rng: &mut StdRng, lengths: &[usize]) -> (r: Vec<DistributionResult>) {
        let mut v: Vec<DistributionResult> = Vec::new();
        add_inputs::<D1>(rng, lengths, &mut v);
        let ghost v1 = v@;
        proof {
            let l = lengths@.len() as int;
            assert forall|j: int| 0 <= j < v@.len() implies {
                let k = j / l;
                let len = lengths@[j % l] as nat;
                &&& (#[trigger] v@[j]).name@ == Self::label_at(k)
                &&& v@[j].data@.len() == len
                &&& Self::admits_at(k, len, v@[j].data@)
            } by {
                if j < 1 * l {
                    lemma_block(j, 0, l);
                    assert(v1[j] == v1[j]);
                    assert(input_made_by::<D1>(v1[0 * l + (j - 0 * l)], lengths@[j - 0 * l] as nat));
                }
            }
        }
        v
    }
}

impl<D1: InputDistribution, D2: InputDistribution> HarnessInputProvider for (D1, D2) {
    open spec fn count() -> nat {
        2
    }

    open spec fn label_at(k: int) -> Seq<char> {
        if k == 0 {
            D1::label()
        } else {
            D2::label()
        }
    }

    open spec fn admits_at(k: int, len: nat, s: Seq<i32>) -> bool {
        if k == 0 {
            D1::admits(len, s)
        } else {
            D2::admits(len, s)
        }
    }

    fn generate_input(rng: &mut StdRng, lengths: &[usize]) -> (r: Vec<DistributionResult>) {
        let mut v: Vec<DistributionResult> = Vec::new();
        add_inputs::<D1>(rng, lengths, &mut v);
        let ghost v1 = v@;
        add_inputs::<D2>(rng, lengths, &mut v);
        let ghost v2 = v@;
        proof {
            let l = lengths@.len() as int;
            assert forall|j: int| 0 <= j < v@.len() implies {
                let k = j / l;
                let len = lengths@[j % l] as nat;
                &&& (#[trigger] v@[j]).name@ == Self::label_at(k)
                &&& v@[j].data@.len() == len
                &&& Self::admits_at(k, len, v@[j].data@)
            } by {
                if j < 1 * l {
                    lemma_block(j, 0, l);
                    assert(v2[j] == v1[j]);
                    assert(input_made_by::<D1>(v1[0 * l + (j - 0 * l)], lengths@[j - 0 * l] as nat));
                } else if j < 2 * l {
                    lemma_block(j, 1, l);
                    assert(v2[j] == v2[j]);
                    assert(input_made_by::<D2>(v2[1 * l + (j - 1 * l)], lengths@[j - 1 * l] as nat));
                }
            }
        }
        v
    }
}

impl<D1: InputDistribution, D2: InputDistribution, D3: InputDistribution> HarnessInputProvider for (D1, D2, D3) {
    open spec fn count() -> nat {
        3
    }

    open spec fn label_at(k: int) -> Seq<char> {
        if k == 0 {
            D1::label()
        } else if k == 1 {
            D2::label()
        } else {
            D3::label()
        }
    }

    open spec fn admits_at(k: int, len: nat, s: Seq<i32>) -> bool {
        if k == 0 {
            D1::admits(len, s)
        } else if k == 1 {
            D2::admits(len, s)
        } else {
            D3::admits(len, s)
        }
    }

    fn generate_input(rng: &mut StdRng, lengths: &[usize]) -> (r: Vec<DistributionResult>) {
        let mut v: Vec<DistributionResult> = Vec::new();
        add_inputs::<D1>(rng, lengths, &mut v);
        let ghost v1 = v@;
        add_inputs::<D2>(rng, lengths, &mut v);
        let ghost v2 = v@;
        add_inputs::<D3>(rng, lengths, &mut v);
        let ghost v3 = v@;
        proof {
            let l = lengths@.len() as int;
            assert forall|j: int| 0 <= j < v@.len() implies {
                let k = j / l;
                let len = lengths@[j % l] as nat;
                &&& (#[trigger] v@[j]).name@ == Self::label_at(k)
                &&& v@[j].data@.len() == len
                &&& Self::admits_at(k, len, v@[j].data@)
            } by {
                if j < 1 * l {
                    lemma_block(j, 0, l);
                    assert(v3[j] == v1[j]);
                    assert(input_made_by::<D1>(v1[0 * l + (j - 0 * l)], lengths@[j - 0 * l] as nat));
                } else if j < 2 * l {
                    lemma_block(j, 1, l);
                    assert(v3[j] == v2[j]);
                    assert(input_made_by::<D2>(v2[1 * l + (j - 1 * l)], lengths@[j - 1 * l] as nat));
                } else if j < 3 * l {
                    lemma_block(j, 2, l);
                    assert(v3[j] == v3[j]);
                    assert(input_made_by::<D3>(v3[2 * l + (j - 2 * l)], lengths@[j - 2 * l] as nat));
                }
            }
        }
        v
    }
}

impl<D1: InputDistribution, D2: InputDistribution, D3: InputDistribution, D4: InputDistribution> HarnessInputProvider for (D1, D2, D3, D4) {
    open spec fn count() -> nat {
        4
    }

    open spec fn label_at(k: int) -> Seq<char> {
        if k == 0 {
            D1::label()
        } else if k == 1 {
            D2::label()
        } else if k == 2 {
            D3::label()
        } else {
            D4::label()
        }
    }

    open spec fn admits_at(k: int, len: nat, s: Seq<i32>) -> bool {
        if k == 0 {
            D1::admits(len, s)
        } else if k == 1 {
            D2::admits(len, s)
        } else if k == 2 {
            D3::admits(len, s)
        } else {
            D4::admits(len, s)
        }
    }

    fn generate_input(rng: &mut StdRng, lengths: &[usize]) -> (r: Vec<DistributionResult>) {
        let mut v: Vec<DistributionResult> = Vec::new();
        add_inputs::<D1>(rng, lengths, &mut v);
        let ghost v1 = v@;
        add_inputs::<D2>(rng, lengths, &mut v);
        let ghost v2 = v@;
        add_inputs::<D3>(rng, lengths, &mut v);
        let ghost v3 = v@;
        add_inputs::<D4>(rng, lengths, &mut v);
        let ghost v4 = v@;
        proof {
            let l = lengths@.len() as int;
            assert forall|j: int| 0 <= j < v@.len() implies {
                let k = j / l;
                let len = lengths@[j % l] as nat;
                &&& (#[trigger] v@[j]).name@ == Self::label_at(k)
                &&& v@[j].data@.len() == len
                &&& Self::admits_at(k, len, v@[j].data@)
            } by {
                if j < 1 * l {
                    lemma_block(j, 0, l);
                    assert(v4[j] == v1[j]);
                    assert(input_made_by::<D1>(v1[0 * l + (j - 0 * l)], lengths@[j - 0 * l] as nat));
                } else if j < 2 * l {
                    lemma_block(j, 1, l);
                    assert(v4[j] == v2[j]);
                    assert(input_made_by::<D2>(v2[1 * l + (j - 1 * l)], lengths@[j - 1 * l] as nat));
                } else if j < 3 * l {
                    lemma_block(j, 2, l);
                    assert(v4[j] == v3[j]);
                    assert(input_made_by::<D3>(v3[2 * l + (j - 2 * l)], lengths@[j - 2 * l] as nat));
                } else if j < 4 * l {
                    lemma_block(j, 3, l);
                    assert(v4[j] == v4[j]);
                    assert(input_made_by::<D4>(v4[3 * l + (j - 3 * l)], lengths@[j - 3 * l] as nat));
                }
            }
        }
        v
    }
}

impl<D1: InputDistribution, D2: InputDistribution, D3: InputDistribution, D4: InputDistribution, D5: InputDistribution> HarnessInputProvider for (D1, D2, D3, D4, D5) {
    open spec fn count() -> nat {
        5
    }

    open spec fn label_at(k: int) -> Seq<char> {
        if k == 0 {
            D1::label()
        } else if k == 1 {
            D2::label()
        } else if k == 2 {
            D3::label()
        } else if k == 3 {
            D4::label()
        } else {
            D5::label()
        }
    }

    open spec fn admits_at(k: int, len: nat, s: Seq<i32>) -> bool {
        if k == 0 {
            D1::admits(len, s)
        } else if k == 1 {
            D2::admits(len, s)
        } else if k == 2 {
            D3::admits(len, s)
        } else if k == 3 {
            D4::admits(len, s)
        } else {
            D5::admits(len, s)
        }
    }

    fn generate_input(rng: &mut StdRng, lengths: &[usize]) -> (r: Vec<DistributionResult>) {
        let mut v: Vec<DistributionResult> = Vec::new();
        add_inputs::<D1>(rng, lengths, &mut v);
        let ghost v1 = v@;
        add_inputs::<D2>(rng, lengths, &mut v);
        let ghost v2 = v@;
        add_inputs::<D3>(rng, lengths, &mut v);
        let ghost v3 = v@;
        add_inputs::<D4>(rng, lengths, &mut v);
        let ghost v4 = v@;
        add_inputs::<D5>(rng, lengths, &mut v);
        let ghost v5 = v@;
        proof {
            let l = lengths@.len() as int;
            assert forall|j: int| 0 <= j < v@.len() implies {
                let k = j / l;
                let len = lengths@[j % l] as nat;
                &&& (#[trigger] v@[j]).name@ == Self::label_at(k)
                &&& v@[j].data@.len() == len
                &&& Self::admits_at(k, len, v@[j].data@)
            } by {
                if j < 1 * l {
                    lemma_block(j, 0, l);
                    assert(v5[j] == v1[j]);
                    assert(input_made_by::<D1>(v1[0 * l + (j - 0 * l)], lengths@[j - 0 * l] as nat));
                } else if j < 2 * l {
                    lemma_block(j, 1, l);
                    assert(v5[j] == v2[j]);
                    assert(input_made_by::<D2>(v2[1 * l + (j - 1 * l)], lengths@[j - 1 * l] as nat));
                } else if j < 3 * l {
                    lemma_block(j, 2, l);
                    assert(v5[j] == v3[j]);
                    assert(input_made_by::<D3>(v3[2 * l + (j - 2 * l)], lengths@[j - 2 * l] as nat));
                } else if j < 4 * l {
                    lemma_block(j, 3, l);
                    assert(v5[j] == v4[j]);
                    assert(input_made_by::<D4>(v4[3 * l + (j - 3 * l)], lengths@[j - 3 * l] as nat));
                } else if j < 5 * l {
                    lemma_block(j, 4, l);
                    assert(v5[j] == v5[j]);
                    assert(input_made_by::<D5>(v5[4 * l + (j - 4 * l)], lengths@[j - 4 * l] as nat));
                }
            }
        }
        v
    }
}

impl<D1: InputDistribution, D2: InputDistribution, D3: InputDistribution, D4: InputDistribution, D5: InputDistribution, D6: InputDistribution> HarnessInputProvider for (D1, D2, D3, D4, D5, D6) {
    open spec fn count() -> nat {
        6
    }

    open spec fn label_at(k: int) -> Seq<char> {
        if k == 0 {
            D1::label()
        } else if k == 1 {
            D2::label()
        } else if k == 2 {
            D3::label()
        } else if k == 3 {
            D4::label()
        } else if k == 4 {
            D5::label()
        } else {
            D6::label()
        }
    }

    open spec fn admits_at(k: int, len: nat, s: Seq<i32>) -> bool {
        if k == 0 {
            D1::admits(len, s)
        } else if k == 1 {
            D2::admits(len, s)
        } else if k == 2 {
            D3::admits(len, s)
        } else if k == 3 {
            D4::admits(len, s)
        } else if k == 4 {
            D5::admits(len, s)
        } else {
            D6::admits(len, s)
        }
    }

    fn generate_input(rng: &mut StdRng, lengths: &[usize]) -> (r: Vec<DistributionResult>) {
        let mut v: Vec<DistributionResult> = Vec::new();
        add_inputs::<D1>(rng, lengths, &mut v);
        let ghost v1 = v@;
        add_inputs::<D2>(rng, lengths, &mut v);
        let ghost v2 = v@;
        add_inputs::<D3>(rng, lengths, &mut v);
        let ghost v3 = v@;
        add_inputs::<D4>(rng, lengths, &mut v);
        let ghost v4 = v@;
        add_inputs::<D5>(rng, lengths, &mut v);
        let ghost v5 = v@;
        add_inputs::<D6>(rng, lengths, &mut v);
        let ghost v6 = v@;
        proof {
            let l = lengths@.len() as int;
            assert forall|j: int| 0 <= j < v@.len() implies {
                let k = j / l;
                let len = lengths@[j % l] as nat;
                &&& (#[trigger] v@[j]).name@ == Self::label_at(k)
                &&& v@[j].data@.len() == len
                &&& Self::admits_at(k, len, v@[j].data@)
            } by {
                if j < 1 * l {
                    lemma_block(j, 0, l);
                    assert(v6[j] == v1[j]);
                    assert(input_made_by::<D1>(v1[0 * l + (j - 0 * l)], lengths@[j - 0 * l] as nat));
                } else if j < 2 * l {
                    lemma_block(j, 1, l);
                    assert(v6[j] == v2[j]);
                    assert(input_made_by::<D2>(v2[1 * l + (j - 1 * l)], lengths@[j - 1 * l] as nat));
                } else if j < 3 * l {
                    lemma_block(j, 2, l);
                    assert(v6[j] == v3[j]);
                    assert(input_made_by::<D3>(v3[2 * l + (j - 2 * l)], lengths@[j - 2 * l] as nat));
                } else if j < 4 * l {
                    lemma_block(j, 3, l);
                    assert(v6[j] == v4[j]);
                    assert(input_made_by::<D4>(v4[3 * l + (j - 3 * l)], lengths@[j - 3 * l] as nat));
                } else if j < 5 * l {
                    lemma_block(j, 4, l);
                    assert(v6[j] == v5[j]);
                    assert(input_made_by::<D5>(v5[4 * l + (j - 4 * l)], lengths@[j - 4 * l] as nat));
                } else if j < 6 * l {
                    lemma_block(j, 5, l);
                    assert(v6[j] == v6[j]);
                    assert(input_made_by::<D6>(v6[5 * l + (j - 5 * l)], lengths@[j - 5 * l] as nat));
                }
            }
        }
        v
    }
}

impl<D1: InputDistribution, D2: InputDistribution, D3: InputDistribution, D4: InputDistribution, D5: InputDistribution, D6: InputDistribution, D7: InputDistribution> HarnessInputProvider for (D1, D2, D3, D4, D5, D6, D7) {
    open spec fn count() -> nat {
        7
    }

    open spec fn label_at(k: int) -> Seq<char> {
        if k == 0 {
            D1::label()
        } else if k == 1 {
            D2::label()
        } else if k == 2 {
            D3::label()
        } else if k == 3 {
            D4::label()
        } else if k == 4 {
            D5::label()
        } else if k == 5 {
            D6::label()
        } else {
            D7::label()
        }
    }

    open spec fn admits_at(k: int, len: nat, s: Seq<i32>) -> bool {
        if k == 0 {
            D1::admits(len, s)
        } else if k == 1 {
            D2::admits(len, s)
        } else if k == 2 {
            D3::admits(len, s)
        } else if k == 3 {
            D4::admits(len, s)
        } else if k == 4 {
            D5::admits(len, s)
        } else if k == 5 {
            D6::admits(len, s)
        } else {
            D7::admits(len, s)
        }
    }

    fn generate_input(rng: &mut StdRng, lengths: &[usize]) -> (r: Vec<DistributionResult>) {
        let mut v: Vec<DistributionResult> = Vec::new();
        add_inputs::<D1>(rng, lengths, &mut v);
        let ghost v1 = v@;
        add_inputs::<D2>(rng, lengths, &mut v);
        let ghost v2 = v@;
        add_inputs::<D3>(rng, lengths, &mut v);
        let ghost v3 = v@;
        add_inputs::<D4>(rng, lengths, &mut v);
        let ghost v4 = v@;
        add_inputs::<D5>(rng, lengths, &mut v);
        let ghost v5 = v@;
        add_inputs::<D6>(rng, lengths, &mut v);
        let ghost v6 = v@;
        add_inputs::<D7>(rng, lengths, &mut v);
        let ghost v7 = v@;
        proof {
            let l = lengths@.len() as int;
            assert forall|j: int| 0 <= j < v@.len() implies {
                let k = j / l;
                let len = lengths@[j % l] as nat;
                &&& (#[trigger] v@[j]).name@ == Self::label_at(k)
                &&& v@[j].data@.len() == len
                &&& Self::admits_at(k, len, v@[j].data@)
            } by {
                if j < 1 * l {
                    lemma_block(j, 0, l);
                    assert(v7[j] == v1[j]);
                    assert(input_made_by::<D1>(v1[0 * l + (j - 0 * l)], lengths@[j - 0 * l] as nat));
                } else if j < 2 * l {
                    lemma_block(j, 1, l);
                    assert(v7[j] == v2[j]);
                    assert(input_made_by::<D2>(v2[1 * l + (j - 1 * l)], lengths@[j - 1 * l] as nat));
                } else if j < 3 * l {
                    lemma_block(j, 2, l);
                    assert(v7[j] == v3[j]);
                    assert(input_made_by::<D3>(v3[2 * l + (j - 2 * l)], lengths@[j - 2 * l] as nat));
                } else if j < 4 * l {
                    lemma_block(j, 3, l);
                    assert(v7[j] == v4[j]);
                    assert(input_made_by::<D4>(v4[3 * l + (j - 3 * l)], lengths@[j - 3 * l] as nat));
                } else if j < 5 * l {
                    lemma_block(j, 4, l);
                    assert(v7[j] == v5[j]);
                    assert(input_made_by::<D5>(v5[4 * l + (j - 4 * l)], lengths@[j - 4 * l] as nat));
                } else if j < 6 * l {
                    lemma_block(j, 5, l);
                    assert(v7[j] == v6[j]);
                    assert(input_made_by::<D6>(v6[5 * l + (j - 5 * l)], lengths@[j - 5 * l] as nat));
                } else if j < 7 * l {
                    lemma_block(j, 6, l);
                    assert(v7[j] == v7[j]);
                    assert(input_made_by::<D7>(v7[6 * l + (j - 6 * l)], lengths@[j - 6 * l] as nat));
                }
            }
        }
        v
    }
}

impl<D1: InputDistribution, D2: InputDistribution, D3: InputDistribution, D4: InputDistribution, D5: InputDistribution, D6: InputDistribution, D7: InputDistribution, D8: InputDistribution> HarnessInputProvider for (D1, D2, D3, D4, D5, D6, D7, D8) {
    open spec fn count() -> nat {
        8
    }

    open spec fn label_at(k: int) -> Seq<char> {
        if k == 0 {
            D1::label()
        } else if k == 1 {
            D2::label()
        } else if k == 2 {
            D3::label()
        } else if k == 3 {
            D4::label()
        } else if k == 4 {
            D5::label()
        } else if k == 5 {
            D6::label()
        } else if k == 6 {
            D7::label()
        } else {
            D8::label()
        }
    }

    open spec fn admits_at(k: int, len: nat, s: Seq<i32>) -> bool {
        if k == 0 {
            D1::admits(len, s)
        } else if k == 1 {
            D2::admits(len, s)
        } else if k == 2 {
            D3::admits(len, s)
        } else if k == 3 {
            D4::admits(len, s)
        } else if k == 4 {
            D5::admits(len, s)
        } else if k == 5 {
            D6::admits(len, s)
        } else if k == 6 {
            D7::admits(len, s)
        } else {
            D8::admits(len, s)
        }
    }

    fn generate_input(rng: &mut StdRng, lengths: &[usize]) -> (r: Vec<DistributionResult>) {
        let mut v: Vec<DistributionResult> = Vec::new();
        add_inputs::<D1>(rng, lengths, &mut v);
        let ghost v1 = v@;
        add_inputs::<D2>(rng, lengths, &mut v);
        let ghost v2 = v@;
        add_inputs::<D3>(rng, lengths, &mut v);
        let ghost v3 = v@;
        add_inputs::<D4>(rng, lengths, &mut v);
        let ghost v4 = v@;
        add_inputs::<D5>(rng, lengths, &mut v);
        let ghost v5 = v@;
        add_inputs::<D6>(rng, lengths, &mut v);
        let ghost v6 = v@;
        add_inputs::<D7>(rng, lengths, &mut v);
        let ghost v7 = v@;
        add_inputs::<D8>(rng, lengths, &mut v);
        let ghost v8 = v@;
        proof {
            let l = lengths@.len() as int;
            assert forall|j: int| 0 <= j < v@.len() implies {
                let k = j / l;
                let len = lengths@[j % l] as nat;
                &&& (#[trigger] v@[j]).name@ == Self::label_at(k)
                &&& v@[j].data@.len() == len
                &&& Self::admits_at(k, len, v@[j].data@)
            } by {
                if j < 1 * l {
                    lemma_block(j, 0, l);
                    assert(v8[j] == v1[j]);
                    assert(input_made_by::<D1>(v1[0 * l + (j - 0 * l)], lengths@[j - 0 * l] as nat));
                } else if j < 2 * l {
                    lemma_block(j, 1, l);
                    assert(v8[j] == v2[j]);
                    assert(input_made_by::<D2>(v2[1 * l + (j - 1 * l)], lengths@[j - 1 * l] as nat));
                } else if j < 3 * l {
                    lemma_block(j, 2, l);
                    assert(v8[j] == v3[j]);
                    assert(input_made_by::<D3>(v3[2 * l + (j - 2 * l)], lengths@[j - 2 * l] as nat));
                } else if j < 4 * l {
                    lemma_block(j, 3, l);
                    assert(v8[j] == v4[j]);
                    assert(input_made_by::<D4>(v4[3 * l + (j - 3 * l)], lengths@[j - 3 * l] as nat));
                } else if j < 5 * l {
                    lemma_block(j, 4, l);
                    assert(v8[j] == v5[j]);
                    assert(input_made_by::<D5>(v5[4 * l + (j - 4 * l)], lengths@[j - 4 * l] as nat));
                } else if j < 6 * l {
                    lemma_block(j, 5, l);
                    assert(v8[j] == v6[j]);
                    assert(input_made_by::<D6>(v6[5 * l + (j - 5 * l)], lengths@[j - 5 * l] as nat));
                } else if j < 7 * l {
                    lemma_block(j, 6, l);
                    assert(v8[j] == v7[j]);
                    assert(input_made_by::<D7>(v7[6 * l + (j - 6 * l)], lengths@[j - 6 * l] as nat));
                } else if j < 8 * l {
                    lemma_block(j, 7, l);
                    assert(v8[j] == v8[j]);
                    assert(input_made_by::<D8>(v8[7 * l + (j - 7 * l)], lengths@[j - 7 * l] as nat));
                }
            }
        }
        v
    }
}

/// The results of one algorithm at one input length: (distribution name, outcome) pairs in the
/// order in which they were recorded.
#[derive(Debug, Clone)]
pub struct AlgorithmResults {
    pub name: String,
    pub results: Vec<(String, BenchmarkResult)>,
}

/// The results at one input length, per algorithm.
#[derive(Debug, Clone)]
pub struct SizeResults {
    pub size: usize,
    pub algorithms: Vec<AlgorithmResults>,
}

/// The result table: for algorithms declared unstable and for those declared stable, the
/// results keyed by input length and then by algorithm name.
#[derive(Debug, Clone)]
pub struct ResultTable {
    pub unstable: Vec<SizeResults>,
    pub stable: Vec<SizeResults>,
}

/// One benchmark record: stability claim, input length, algorithm name, distribution name and
/// outcome.
pub type Record = (bool, nat, Seq<char>, Seq<char>, BenchmarkResult);

pub open spec fn entries_view(v: Seq<(String, BenchmarkResult)>) -> Seq<(Seq<char>, BenchmarkResult)> {
    v.map_values(|e: (String, BenchmarkResult)| (e.0@, e.1))
}

/// The index of the last group for input length `size`, or -1.
pub open spec fn size_index(part: Seq<SizeResults>, size: nat) -> int
    decreases part.len(),
{
    if part.len() == 0 {
        -1
    } else if part.last().size == size {
        part.len() - 1
    } else {
        size_index(part.drop_last(), size)
    }
}

/// The index of the last results of the algorithm named `name`, or -1.
pub open spec fn name_index(algs: Seq<AlgorithmResults>, name: Seq<char>) -> int
    decreases algs.len(),
{
    if algs.len() == 0 {
        -1
    } else if algs.last().name@ == name {
        algs.len() - 1
    } else {
        name_index(algs.drop_last(), name)
    }
}

/// The (distribution name, outcome) pairs that one partition of the table holds for input
/// length `size` and the algorithm named `name`; empty where it holds none.
pub open spec fn lookup(part: Seq<SizeResults>, size: nat, name: Seq<char>) -> Seq<(Seq<char>, BenchmarkResult)> {
    let si = size_index(part, size);
    if si < 0 {
        seq![]
    } else {
        let algs = part[si].algorithms@;
        let ai = name_index(algs, name);
        if ai < 0 {
            seq![]
        } else {
            entries_view(algs[ai].results@)
        }
    }
}

impl ResultTable {
    /// The partition of algorithms whose stability claim is `stable`.
    pub open spec fn partition(self, stable: bool) -> Seq<SizeResults> {
        if stable {
            self.stable@
        } else {
            self.unstable@
        }
    }
}

/// The (distribution name, outcome) pairs of the records with the given key, in record order.
pub open spec fn entries_for(recs: Seq<Record>, stable: bool, size: nat, name: Seq<char>) -> Seq<(Seq<char>, BenchmarkResult)>
    decreases recs.len(),
{
    if recs.len() == 0 {
        seq![]
    } else {
        let prev = entries_for(recs.drop_last(), stable, size, name);
        let r = recs.last();
        if r.0 == stable && r.1 == size && r.2 == name {
            prev.push((r.3, r.4))
        } else {
            prev
        }
    }
}

/// The record of outcome `e`, obtained on `input`.
pub open spec fn record_of(input: DistributionResult, e: BenchmarkData) -> Record {
    (e.stable, input.data@.len(), e.name@, input.name@, e.result)
}

/// The records of `results`, where result `j` was obtained on input `j` modulo the number of
/// inputs; none where there are no inputs.
pub open spec fn records(inputs: Seq<DistributionResult>, results: Seq<BenchmarkData>) -> Seq<Record> {
    if inputs.len() == 0 {
        seq![]
    } else {
        Seq::new(results.len(), |j: int| record_of(inputs[j % inputs.len() as int], results[j]))
    }
}

proof fn lemma_size_index_update(part: Seq<SizeResults>, i: int, x: SizeResults, size: nat)
    requires
        0 <= i < part.len(),
        x.size == part[i].size,
    ensures
        size_index(part.update(i, x), size) == size_index(part, size),
    decreases part.len(),
{
    let q = part.update(i, x);
    if i < part.len() - 1 {
        assert(q.drop_last() =~= part.drop_last().update(i, x));
        lemma_size_index_update(part.drop_last(), i, x, size);
    } else {
        assert(q.drop_last() =~= part.drop_last());
    }
}

proof fn lemma_size_index_push(part: Seq<SizeResults>, x: SizeResults, size: nat)
    ensures
        size_index(part.push(x), size) == if x.size == size {
            part.len() as int
        } else {
            size_index(part, size)
        },
{
    assert(part.push(x).drop_last() =~= part);
}

proof fn lemma_size_index_found(part: Seq<SizeResults>, i: int, size: nat)
    requires
        -1 <= i < part.len(),
        i >= 0 ==> part[i].size == size,
        forall|k: int| i < k < part.len() ==> part[k].size != size,
    ensures
        size_index(part, size) == i,
    decreases part.len(),
{
    if part.len() > 0 && i < part.len() - 1 {
        lemma_size_index_found(part.drop_last(), i, size);
    }
}

proof fn lemma_size_index_range(part: Seq<SizeResults>, size: nat)
    ensures
        -1 <= size_index(part, size) < part.len(),
        size_index(part, size) >= 0 ==> part[size_index(part, size)].size == size,
    decreases part.len(),
{
    if part.len() > 0 {
        lemma_size_index_range(part.drop_last(), size);
    }
}

proof fn lemma_name_index_update(algs: Seq<AlgorithmResults>, i: int, x: AlgorithmResults, name: Seq<char>)
    requires
        0 <= i < algs.len(),
        x.name@ == algs[i].name@,
    ensures
        name_index(algs.update(i, x), name) == name_index(algs, name),
    decreases algs.len(),
{
    let q = algs.update(i, x);
    if i < algs.len() - 1 {
        assert(q.drop_last() =~= algs.drop_last().update(i, x));
        lemma_name_index_update(algs.drop_last(), i, x, name);
    } else {
        assert(q.drop_last() =~= algs.drop_last());
    }
}

proof fn lemma_name_index_push(algs: Seq<AlgorithmResults>, x: AlgorithmResults, name: Seq<char>)
    ensures
        name_index(algs.push(x), name) == if x.name@ == name {
            algs.len() as int
        } else {
            name_index(algs, name)
        },
{
    assert(algs.push(x).drop_last() =~= algs);
}

proof fn lemma_name_index_found(algs: Seq<AlgorithmResults>, i: int, name: Seq<char>)
    requires
        -1 <= i < algs.len(),
        i >= 0 ==> algs[i].name@ == name,
        forall|k: int| i < k < algs.len() ==> algs[k].name@ != name,
    ensures
        name_index(algs, name) == i,
    decreases algs.len(),
{
    if algs.len() > 0 && i < algs.len() - 1 {
        lemma_name_index_found(algs.drop_last(), i, name);
    }
}

proof fn lemma_name_index_range(algs: Seq<AlgorithmResults>, name: Seq<char>)
    ensures
        -1 <= name_index(algs, name) < algs.len(),
        name_index(algs, name) >= 0 ==> algs[name_index(algs, name)].name@ == name,
    decreases algs.len(),
{
    if algs.len() > 0 {
        lemma_name_index_range(algs.drop_last(), name);
    }
}

/// Appends `(dist, result)` to the results of algorithm `name` at input length `size`,
/// creating the groups that are missing.
fn add_entry(part: &mut Vec<SizeResults>, size: usize, name: String, dist: String, result: BenchmarkResult)
    ensures
        forall|s: nat, n: Seq<char>|
            #[trigger] lookup(final(part)@, s, n) == if s == size && n == name@ {
                lookup(old(part)@, s, n).push((dist@, result))
            } else {
                lookup(old(part)@, s, n)
            },
{
    let ghost prior = part@;
    let mut i: usize = part.len();
    while i > 0
        invariant
            i <= part@.len(),
            part@ == prior,
            forall|k: int| i <= k < part@.len() ==> part@[k].size != size,
        ensures
            i > 0 ==> part@[i - 1].size == size,
        decreases i,
    {
        if part[i - 1].size == size {
            break;
        }
        i -= 1;
    }
    proof {
        lemma_size_index_found(prior, i - 1, size as nat);
    }
    if i == 0 {
        let algorithms = vec![AlgorithmResults { name, results: vec![(dist, result)] }];
        let ghost x = SizeResults { size, algorithms };
        part.push(SizeResults { size, algorithms });
        proof {
            assert forall|s: nat, n: Seq<char>|
                #[trigger] lookup(part@, s, n) == if s == size && n == name@ {
                    lookup(prior, s, n).push((dist@, result))
                } else {
                    lookup(prior, s, n)
                } by {
                lemma_size_index_push(prior, x, s);
                lemma_size_index_range(prior, s);
                if s == size {
                    assert(part@[prior.len() as int].algorithms@ =~= seq![x.algorithms@[0]]);
                    lemma_name_index_found(part@[prior.len() as int].algorithms@, if n == name@ { 0 } else { -1 }, n);
                    if n == name@ {
                        assert(entries_view(x.algorithms@[0].results@) =~= seq![(dist@, result)]);
                        assert(lookup(prior, s, n) =~= seq![]);
                    }
                }
            }
        }
        return;
    }
    let si = i - 1;
    let mut group = part.remove(si);
    let ghost g0 = group;
    let mut a: usize = group.algorithms.len();
    while a > 0
        invariant
            a <= group.algorithms@.len(),
            group == g0,
            forall|k: int| a <= k < group.algorithms@.len() ==> group.algorithms@[k].name@ != name@,
        ensures
            a > 0 ==> group.algorithms@[a - 1].name@ == name@,
        decreases a,
    {
        if group.algorithms[a - 1].name == name {
            break;
        }
        a -= 1;
    }
    proof {
        lemma_name_index_found(g0.algorithms@, a - 1, name@);
    }
    let ghost new_alg: AlgorithmResults;
    if a == 0 {
        let entry = AlgorithmResults { name, results: vec![(dist, result)] };
        proof {
            new_alg = entry;
        }
        group.algorithms.push(entry);
    } else {
        let mut entry = group.algorithms.remove(a - 1);
        entry.results.push((dist, result));
        proof {
            new_alg = entry;
        }
        group.algorithms.insert(a - 1, entry);
    }
    let ghost g1 = group;
    part.insert(si, group);
    proof {
        assert(part@ =~= prior.update(si as int, g1));
        assert forall|s: nat, n: Seq<char>|
            #[trigger] lookup(part@, s, n) == if s == size && n == name@ {
                lookup(prior, s, n).push((dist@, result))
            } else {
                lookup(prior, s, n)
            } by {
            lemma_size_index_update(prior, si as int, g1, s);
            lemma_size_index_range(prior, s);
            if s == size {
                if a == 0 {
                    assert(g1.algorithms@ =~= g0.algorithms@.push(new_alg));
                    lemma_name_index_push(g0.algorithms@, new_alg, n);
                    lemma_name_index_range(g0.algorithms@, n);
                    if n == name@ {
                        assert(entries_view(new_alg.results@) =~= seq![(dist@, result)]);
                        assert(lookup(prior, s, n) =~= seq![]);
                    }
                } else {
                    assert(g1.algorithms@ =~= g0.algorithms@.update(a - 1, new_alg));
                    lemma_name_index_update(g0.algorithms@, a - 1, new_alg, n);
                    lemma_name_index_range(g0.algorithms@, n);
                    if n == name@ {
                        assert(entries_view(new_alg.results@) =~= entries_view(
                            g0.algorithms@[a - 1].results@,
                        ).push((dist@, result)));
                    }
                }
            }
        }
    }
}

proof fn lemma_mod_step(j: int, l: int)
    requires
        0 <= j,
        0 < l,
    ensures
        (j + 1) % l == if j % l + 1 == l {
            0
        } else {
            j % l + 1
        },
{
    vstd::arithmetic::div_mod::lemma_fundamental_div_mod(j, l);
    vstd::arithmetic::div_mod::lemma_mod_pos_bound(j, l);
    let q = j / l;
    assert(l * q == q * l && (q + 1) * l == q * l + l) by (nonlinear_arith);
    if j % l + 1 == l {
        vstd::arithmetic::div_mod::lemma_fundamental_div_mod_converse(j + 1, l, q + 1, 0);
    } else {
        vstd::arithmetic::div_mod::lemma_fundamental_div_mod_converse(j + 1, l, q, j % l + 1);
    }
}

/// Folds outcomes into a result table. Outcome `j` was obtained on input `j` modulo the number
/// of inputs; it goes to the partition of its stability claim, under the length of that input
/// and the name of its algorithm, after the outcomes recorded there before it.
pub fn tabulate(inputs: &[DistributionResult], results: &[BenchmarkData]) -> (t: ResultTable)
    ensures
        forall|stable: bool, size: nat, name: Seq<char>|
            #[trigger] lookup(t.partition(stable), size, name) == entries_for(
                records(inputs@, results@),
                stable,
                size,
                name,
            ),
{
    let mut t = ResultTable { unstable: Vec::new(), stable: Vec::new() };
    let ghost recs = records(inputs@, results@);
    if inputs.len() == 0 {
        return t;
    }
    let mut ii: usize = 0;
    let mut j: usize = 0;
    while j < results.len()
        invariant
            j <= results@.len(),
            inputs@.len() > 0,
            recs == records(inputs@, results@),
            ii == j as int % inputs@.len() as int,
            forall|stable: bool, size: nat, name: Seq<char>|
                #[trigger] lookup(t.partition(stable), size, name) == entries_for(
                    recs.take(j as int),
                    stable,
                    size,
                    name,
                ),
        decreases results@.len() - j,
    {
        let input = &inputs[ii];
        let e = &results[j];
        let ghost t0 = t;
        if e.stable {
            add_entry(&mut t.stable, input.data.len(), e.name.clone(), input.name.clone(), e.result);
        } else {
            add_entry(&mut t.unstable, input.data.len(), e.name.clone(), input.name.clone(), e.result);
        }
        proof {
            assert(recs.take(j + 1).drop_last() =~= recs.take(j as int));
            assert(recs.take(j + 1).last() == record_of(inputs@[ii as int], results@[j as int]));
            assert forall|stable: bool, size: nat, name: Seq<char>|
                #[trigger] lookup(t.partition(stable), size, name) == entries_for(
                    recs.take(j + 1),
                    stable,
                    size,
                    name,
                ) by {
                assert(lookup(t0.partition(stable), size, name) == entries_for(
                    recs.take(j as int),
                    stable,
                    size,
                    name,
                ));
            }
        }
        j += 1;
        ii += 1;
        if ii == inputs.len() {
            ii = 0;
        }
        proof {
            lemma_mod_step(j - 1, inputs@.len() as int);
        }
    }
    assert(recs.take(j as int) =~= recs);
    t
}

/// Some strategy of `S` is named `name` and claims stability `stable`.
pub open spec fn declared<S: SortingMethodProvider>(name: Seq<char>, stable: bool) -> bool {
    exists|k: int| 0 <= k < S::count() && S::label_at(k) == name && S::stable_at(k) == stable
}

/// Entry `i` of `entries_for(recs, ..)` comes from a record with that key.
proof fn lemma_entry_source(recs: Seq<Record>, stable: bool, size: nat, name: Seq<char>, i: int) -> (j: int)
    requires
        0 <= i < entries_for(recs, stable, size, name).len(),
    ensures
        0 <= j < recs.len(),
        recs[j].0 == stable,
        recs[j].2 == name,
        recs[j].4 == entries_for(recs, stable, size, name)[i].1,
    decreases recs.len(),
{
    let prev = entries_for(recs.drop_last(), stable, size, name);
    if i < prev.len() {
        let j = lemma_entry_source(recs.drop_last(), stable, size, name, i);
        j
    } else {
        recs.len() - 1
    }
}

/// Runs the benchmark: builds the input catalogue of `D` for every length, runs every strategy
/// of `S` `runs` times on each input, and folds the outcomes into a result table as `tabulate`
/// does. An algorithm only ever appears in the partition of its own stability claim, and every
/// outcome is a success, since every strategy sorts.
pub fn bench<D: HarnessInputProvider, S: SortingMethodProvider>(
    rng: &mut StdRng,
    lengths: &[usize],
    runs: usize,
) -> (t: ResultTable)
    requires
        runs >= 1,
        forall|i: int| 0 <= i < lengths@.len() ==> lengths@[i] <= i32::MAX,
    ensures
        exists|inputs: Seq<DistributionResult>, results: Seq<BenchmarkData>|
            {
                &&& catalogue_of::<D>(lengths@, inputs)
                &&& outcomes_of::<S>(inputs, results)
                &&& forall|stable: bool, size: nat, name: Seq<char>|
                    #[trigger] lookup(t.partition(stable), size, name) == entries_for(
                        records(inputs, results),
                        stable,
                        size,
                        name,
                    )
            },
        forall|stable: bool, size: nat, name: Seq<char>|
            #[trigger] lookup(t.partition(stable), size, name).len() > 0 ==> declared::<S>(
                name,
                stable,
            ),
        forall|stable: bool, size: nat, name: Seq<char>, i: int|
            0 <= i < lookup(t.partition(stable), size, name).len() ==> (#[trigger] lookup(
                t.partition(stable),
                size,
                name,
            )[i]).1.success,
{
    let inputs = D::generate_input(rng, lengths);
    let results = S::run_all(inputs.as_slice(), runs);
    let t = tabulate(inputs.as_slice(), results.as_slice());
    proof {
        let recs = records(inputs@, results@);
        let l = inputs@.len() as int;
        assert forall|stable: bool, size: nat, name: Seq<char>, i: int|
            0 <= i < lookup(t.partition(stable), size, name).len() implies {
                &&& declared::<S>(name, stable)
                &&& (#[trigger] lookup(t.partition(stable), size, name)[i]).1.success
            } by {
            assert(lookup(t.partition(stable), size, name) == entries_for(recs, stable, size, name));
            let j = lemma_entry_source(recs, stable, size, name, i);
            let k = j / l;
            assert(0 <= k < S::count()) by (nonlinear_arith)
                requires
                    0 <= j < S::count() * l,
                    l > 0,
                    k == j / l,
            ;
            assert(made_by(results@[j], S::label_at(k), S::stable_at(k)));
        }
        assert forall|stable: bool, size: nat, name: Seq<char>|
            #[trigger] lookup(t.partition(stable), size, name).len() > 0 implies declared::<S>(
                name,
                stable,
            ) by {
            assert(lookup(t.partition(stable), size, name)[0].1.success);
        }
        assert(catalogue_of::<D>(lengths@, inputs@) && outcomes_of::<S>(inputs@, results@));
    }
    t
}

/// `r` has the key (`stable`, `size`, `name`).
pub open spec fn has_key(r: Record, stable: bool, size: nat, name: Seq<char>) -> bool {
    r.0 == stable && r.1 == size && r.2 == name
}

proof fn lemma_entries_concat(a: Seq<Record>, b: Seq<Record>, stable: bool, size: nat, name: Seq<char>)
    ensures
        entries_for(a + b, stable, size, name) == entries_for(a, stable, size, name) + entries_for(
            b,
            stable,
            size,
            name,
        ),
    decreases b.len(),
{
    if b.len() == 0 {
        assert(a + b =~= a);
        assert(entries_for(a, stable, size, name) + entries_for(b, stable, size, name) =~= entries_for(
            a,
            stable,
            size,
            name,
        ));
    } else {
        assert((a + b).drop_last() =~= a + b.drop_last());
        lemma_entries_concat(a, b.drop_last(), stable, size, name);
        let ea = entries_for(a, stable, size, name);
        let eb = entries_for(b.drop_last(), stable, size, name);
        let r = b.last();
        if has_key(r, stable, size, name) {
            assert(ea + eb.push((r.3, r.4)) =~= (ea + eb).push((r.3, r.4)));
        }
    }
}

proof fn lemma_entries_none(a: Seq<Record>, stable: bool, size: nat, name: Seq<char>)
    requires
        forall|j: int| 0 <= j < a.len() ==> !has_key(#[trigger] a[j], stable, size, name),
    ensures
        entries_for(a, stable, size, name) == Seq::<(Seq<char>, BenchmarkResult)>::empty(),
    decreases a.len(),
{
    if a.len() > 0 {
        lemma_entries_none(a.drop_last(), stable, size, name);
    }
}

proof fn lemma_entries_single(a: Seq<Record>, m: int, stable: bool, size: nat, name: Seq<char>)
    requires
        0 <= m < a.len(),
        has_key(a[m], stable, size, name),
        forall|j: int| 0 <= j < a.len() && j != m ==> !has_key(#[trigger] a[j], stable, size, name),
    ensures
        entries_for(a, stable, size, name) == seq![(a[m].3, a[m].4)],
{
    let pre = a.subrange(0, m);
    let one = a.subrange(m, m + 1);
    let post = a.subrange(m + 1, a.len() as int);
    assert(a =~= pre + one + post);
    lemma_entries_concat(pre + one, post, stable, size, name);
    lemma_entries_concat(pre, one, stable, size, name);
    assert forall|j: int| 0 <= j < pre.len() implies !has_key(#[trigger] pre[j], stable, size, name) by {
        assert(pre[j] == a[j]);
    }
    assert forall|j: int| 0 <= j < post.len() implies !has_key(#[trigger] post[j], stable, size, name) by {
        assert(post[j] == a[m + 1 + j]);
    }
    lemma_entries_none(pre, stable, size, name);
    lemma_entries_none(post, stable, size, name);
    assert(one.drop_last() =~= Seq::<Record>::empty());
    assert(one.last() == a[m]);
    assert(entries_for(one.drop_last(), stable, size, name) =~= Seq::<(Seq<char>, BenchmarkResult)>::empty());
    assert(entries_for(one, stable, size, name) =~= seq![(a[m].3, a[m].4)]);
    assert(Seq::<(Seq<char>, BenchmarkResult)>::empty() + seq![(a[m].3, a[m].4)]
        + Seq::<(Seq<char>, BenchmarkResult)>::empty() =~= seq![(a[m].3, a[m].4)]);
}

/// The first `d` distributions' worth of block `k` hold one entry for the strategy `k` and length
/// `i` per distribution.
proof fn lemma_strategy_block<D: HarnessInputProvider, S: SortingMethodProvider>(
    lengths: Seq<usize>,
    inputs: Seq<DistributionResult>,
    results: Seq<BenchmarkData>,
    k: int,
    i: int,
    d: int,
)
    requires
        catalogue_of::<D>(lengths, inputs),
        outcomes_of::<S>(inputs, results),
        forall|a: int, b: int| 0 <= a < b < lengths.len() ==> lengths[a] != lengths[b],
        0 <= k < S::count(),
        0 <= i < lengths.len(),
        0 <= d <= D::count(),
    ensures
        entries_for(
            records(inputs, results).subrange(
                k * inputs.len() + 0,
                k * inputs.len() + d * lengths.len(),
            ),
            S::stable_at(k),
            lengths[i] as nat,
            S::label_at(k),
        ) == Seq::new(
            d as nat,
            |e: int| (D::label_at(e), results[k * inputs.len() + e * lengths.len() + i].result),
        ),
    decreases d,
{
    let l = lengths.len() as int;
    let n = inputs.len() as int;
    let dc = D::count() as int;
    let st = S::stable_at(k);
    let size = lengths[i] as nat;
    let name = S::label_at(k);
    let recs = records(inputs, results);
    let exp = |m: int| Seq::new(
        m as nat,
        |e: int| (D::label_at(e), results[k * n + e * l + i].result),
    );
    assert(n == dc * l);
    assert(recs.len() == S::count() * n);
    assert(0 <= k * n && k * n + n <= S::count() * n && d * l <= n) by (nonlinear_arith)
        requires
            0 <= k < S::count(),
            n == dc * l,
            0 <= d <= dc,
            l > 0,
    ;
    if d == 0 {
        assert(d * l == 0) by (nonlinear_arith)
            requires
                d == 0,
        ;
        assert(recs.subrange(k * n + 0, k * n + d * l) =~= Seq::<Record>::empty());
        assert(exp(0) =~= Seq::<(Seq<char>, BenchmarkResult)>::empty());
    } else {
        let c = d - 1;
        lemma_strategy_block::<D, S>(lengths, inputs, results, k, i, c);
        assert(n == dc * l);
        assert(c * l + l <= n && 0 <= c * l && d * l == c * l + l) by (nonlinear_arith)
            requires
                0 <= c < dc,
                n == dc * l,
                l > 0,
                d == c + 1,
        ;
        assert(recs.len() == S::count() * n);
        assert(k * n + n <= S::count() * n) by (nonlinear_arith)
            requires
                k < S::count(),
                n > 0,
        ;
        let part = recs.subrange(k * n + c * l, k * n + c * l + l);
        assert(recs.subrange(k * n + 0, k * n + d * l) =~= recs.subrange(k * n + 0, k * n + c * l) + part);
        assert forall|o: int| 0 <= o < l implies {
            &&& (#[trigger] part[o]).2 == name
            &&& part[o].0 == st
            &&& part[o].1 == lengths[o] as nat
            &&& part[o].3 == D::label_at(c)
            &&& part[o].4 == results[k * n + c * l + o].result
        } by {
            let j = k * n + c * l + o;
            assert(part[o] == recs[j]);
            lemma_block(j, k, n);
            lemma_block(c * l + o, c, l);
            assert(made_by(results[j], S::label_at(k), S::stable_at(k)));
        }
        assert forall|o: int| 0 <= o < l && o != i implies !has_key(#[trigger] part[o], st, size, name) by {
            assert(part[o].1 == lengths[o] as nat);
        }
        lemma_entries_single(part, i, st, size, name);
        lemma_entries_concat(recs.subrange(k * n + 0, k * n + c * l), part, st, size, name);
        assert(exp(d) =~= exp(c) + seq![(part[i].3, part[i].4)]);
    }
}

/// With distinct lengths and distinct strategy names, the table that `bench` folds holds, for
/// every strategy and every requested length, exactly one entry per distribution, in the order
/// of the distributions: the distribution's name with that strategy's outcome on its input.
pub proof fn lemma_one_entry_per_distribution<D: HarnessInputProvider, S: SortingMethodProvider>(
    lengths: Seq<usize>,
    inputs: Seq<DistributionResult>,
    results: Seq<BenchmarkData>,
    k: int,
    i: int,
)
    requires
        catalogue_of::<D>(lengths, inputs),
        outcomes_of::<S>(inputs, results),
        forall|a: int, b: int| 0 <= a < b < lengths.len() ==> lengths[a] != lengths[b],
        forall|a: int, b: int| 0 <= a < b < S::count() ==> S::label_at(a) != S::label_at(b),
        D::count() > 0,
        0 <= k < S::count(),
        0 <= i < lengths.len(),
    ensures
        entries_for(records(inputs, results), S::stable_at(k), lengths[i] as nat, S::label_at(k))
            == Seq::new(
            D::count(),
            |d: int| (D::label_at(d), results[k * inputs.len() + d * lengths.len() + i].result),
        ),
{
    let l = lengths.len() as int;
    let n = inputs.len() as int;
    let dc = D::count() as int;
    let st = S::stable_at(k);
    let size = lengths[i] as nat;
    let name = S::label_at(k);
    let recs = records(inputs, results);
    let expected = Seq::new(
        D::count(),
        |d: int| (D::label_at(d), results[k * n + d * l + i].result),
    );
    assert(n == dc * l);
    assert(n > 0) by (nonlinear_arith)
        requires
            n == dc * l,
            dc > 0,
            l > 0,
    ;
    assert(recs.len() == S::count() * n);
    assert(k * n + n <= S::count() * n) by (nonlinear_arith)
        requires
            k < S::count(),
            n > 0,
    ;
    // The records of one strategy and one length: record `j` of block `k` is made by strategy
    // `k` on input `j - k * n`.
    assert forall|j: int| 0 <= j < recs.len() implies {
        let q = j / n;
        let o = j % n;
        &&& 0 <= q < S::count()
        &&& 0 <= o < n
        &&& #[trigger] recs[j] == record_of(inputs[o], results[j])
        &&& results[j].name@ == S::label_at(q)
        &&& results[j].stable == S::stable_at(q)
    } by {
        let q = j / n;
        vstd::arithmetic::div_mod::lemma_fundamental_div_mod(j, n);
        vstd::arithmetic::div_mod::lemma_mod_pos_bound(j, n);
        assert(0 <= q < S::count()) by (nonlinear_arith)
            requires
                0 <= j < S::count() * n,
                n > 0,
                q == j / n,
        ;
    }
    // Records outside block `k` carry another name.
    let pre = recs.subrange(0, k * n);
    let blk = recs.subrange(k * n, k * n + n);
    let post = recs.subrange(k * n + n, recs.len() as int);
    assert(recs =~= pre + blk + post);
    assert forall|j: int| 0 <= j < pre.len() implies !has_key(#[trigger] pre[j], st, size, name) by {
        assert(pre[j] == recs[j]);
        let q = j / n;
        assert(q < k) by (nonlinear_arith)
            requires
                0 <= j < k * n,
                n > 0,
                q == j / n,
        ;
    }
    assert forall|j: int| 0 <= j < post.len() implies !has_key(#[trigger] post[j], st, size, name) by {
        let jj = k * n + n + j;
        assert(post[j] == recs[jj]);
        let q = jj / n;
        assert(q > k) by (nonlinear_arith)
            requires
                k * n + n <= jj,
                n > 0,
                q == jj / n,
        ;
    }
    lemma_entries_none(pre, st, size, name);
    lemma_entries_none(post, st, size, name);
    lemma_entries_concat(pre + blk, post, st, size, name);
    lemma_entries_concat(pre, blk, st, size, name);
    lemma_strategy_block::<D, S>(lengths, inputs, results, k, i, dc);
    assert(recs.subrange(k * n, k * n + dc * l) =~= blk);
    assert(Seq::new(D::count(), |e: int| (D::label_at(e), results[k * n + e * l + i].result)) =~= expected);
    assert(Seq::<(Seq<char>, BenchmarkResult)>::empty() + expected + Seq::<(Seq<char>, BenchmarkResult)>::empty() =~= expected);
}

} // verus!
