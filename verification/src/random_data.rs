//! Random operation lists for testing.

use vstd::prelude::*;
use rand::Rng;
use rand::SeedableRng;
use rand::rngs::{OsRng, StdRng};
use crate::ops::{Op, InsertPos, Length};
use crate::baseops::OpList;

verus! {

#[verifier::external_type_specification]
#[verifier::external_body]
pub struct ExStdRng(StdRng);

/// Calls `SeedableRng::from_rng` with `OsRng`: a `StdRng` seeded from the
/// operating system's generator, or `None` where that generator reports an
/// error (the call returns the error instead of panicking). Nothing is stated
/// of the generator, nor of when seeding fails.
#[verifier::external_body]
fn seeded_rng() -> Option<StdRng> {
    StdRng::from_rng(OsRng).ok()
}

/// Calls `Rng::gen_range` on `low..=high`: the result lies in the range, as the
/// documentation of `gen_range` says; which value is drawn is left to chance.
#[verifier::external_body]
fn gen_range_inclusive(rng: &mut StdRng, low: i32, high: i32) -> (r: i32)
    requires
        low <= high,
    ensures
        low <= r <= high,
{
    rng.gen_range(low..=high)
}

/// Configuration for random test data generation
#[derive(Debug)]
pub struct TestDataConfig {
    pub num_tests: usize,
    pub min_insert_pos: InsertPos,
    pub max_insert_pos: InsertPos,
    pub min_length: Length,
    pub max_length: Length,
}

impl Default for TestDataConfig {
    fn default() -> (c: Self)
        ensures
            c.num_tests == 10,
            c.min_insert_pos == 1,
            c.max_insert_pos == 10,
            c.min_length == -5,
            c.max_length == 5,
    {
        Self { num_tests: 10, min_insert_pos: 1, max_insert_pos: 10, min_length: -5, max_length: 5 }
    }
}

/// A configuration that `generate_random_test_data_with_config` can draw from:
/// non-empty ranges whose sums cannot overflow.
pub open spec fn config_ok(c: TestDataConfig) -> bool {
    &&& c.min_insert_pos <= c.max_insert_pos
    &&& c.min_length <= c.max_length
    &&& c.min_insert_pos + c.min_length >= i32::MIN
    &&& c.max_insert_pos + c.max_length <= i32::MAX
}

/// Every operation of `ops` lies within the ranges of `c`, is not empty and
/// does not reach before the start of the document.
pub open spec fn drawn_from(ops: Seq<Op>, c: TestDataConfig) -> bool {
    forall|i: int| 0 <= i < ops.len() ==> {
        &&& c.min_insert_pos <= #[trigger] ops[i].ins <= c.max_insert_pos
        &&& c.min_length <= ops[i].len <= c.max_length
        &&& ops[i].len != 0
        &&& ops[i].len + ops[i].ins >= 0
    }
}

/// A draw `(ins, len)` that makes an operation: it is not empty and does not
/// reach before the start of the document.
pub open spec fn valid_draw(d: (i32, i32)) -> bool {
    d.1 != 0 && d.1 + d.0 >= 0
}

/// The operations made from the valid draws of `d`, in order.
pub open spec fn drawn_ops(d: Seq<(i32, i32)>) -> Seq<Op>
    decreases d.len(),
{
    if d.len() == 0 {
        Seq::empty()
    } else if valid_draw(d.last()) {
        drawn_ops(d.drop_last()).push(Op { ins: d.last().0, len: d.last().1 })
    } else {
        drawn_ops(d.drop_last())
    }
}

/// Every draw of `d` lies within the ranges of `c`.
pub open spec fn draws_in_range(d: Seq<(i32, i32)>, c: TestDataConfig) -> bool {
    forall|i: int| 0 <= i < d.len() ==> c.min_insert_pos <= #[trigger] d[i].0 <= c.max_insert_pos
        && c.min_length <= d[i].1 <= c.max_length
}

/// The operations made from draws within the ranges of `c` lie within them too.
pub proof fn lemma_drawn_ops_in_range(d: Seq<(i32, i32)>, c: TestDataConfig)
    requires
        draws_in_range(d, c),
    ensures
        drawn_from(drawn_ops(d), c),
        drawn_ops(d).len() <= d.len(),
    decreases d.len(),
{
    if d.len() > 0 {
        assert(draws_in_range(d.drop_last(), c)) by {
            assert forall|i: int| 0 <= i < d.drop_last().len() implies c.min_insert_pos <= #[trigger] d.drop_last()[i].0 <= c.max_insert_pos
                && c.min_length <= d.drop_last()[i].1 <= c.max_length by {
                assert(d.drop_last()[i] == d[i]);
            }
        }
        lemma_drawn_ops_in_range(d.drop_last(), c);
        assert(d.last() == d[d.len() - 1]);
    }
}

/// Keeps the valid draws as operations, in order: empty draws and draws
/// reaching before the start of the document are skipped.
pub fn keep_valid_draws(draws: &[(i32, i32)]) -> (res: Vec<Op>)
    ensures
        res@ == drawn_ops(draws@),
{
    let mut out: Vec<Op> = Vec::new();
    let mut k: usize = 0;
    while k < draws.len()
        invariant
            k <= draws@.len(),
            out@ == drawn_ops(draws@.take(k as int)),
        decreases draws@.len() - k,
    {
        let (ins, len) = draws[k];
        proof {
            assert(draws@.take(k as int + 1).drop_last() == draws@.take(k as int));
            assert(draws@.take(k as int + 1).last() == draws@[k as int]);
        }
        if len != 0 && (len as i64) + (ins as i64) >= 0 {
            out.push(Op { ins, len });
        }
        k += 1;
    }
    proof {
        assert(draws@.take(k as int) == draws@);
    }
    out
}

/// Generates random test data: `num_tests` draws with positions in `1 ..= 10`
/// and lengths in `-5 ..= 5`, of which the valid ones are kept. `None` where
/// the generator cannot be seeded.
pub fn generate_random_test_data(num_tests: usize) -> (res: Option<OpList>)
    ensures
        match res {
            Some(l) => l.test_op is None && exists|d: Seq<(i32, i32)>| d.len() == num_tests
                && draws_in_range(d, (TestDataConfig { num_tests, min_insert_pos: 1i32, max_insert_pos: 10i32, min_length: -5i32, max_length: 5i32 }))
                && #[trigger] drawn_ops(d) == l.ops@,
            None => true,
        },
{
    let d = TestDataConfig::default();
    generate_random_test_data_with_config(TestDataConfig { num_tests, ..d })
}

/// Generates random test data with custom configuration: `num_tests` draws
/// within the configured ranges, of which the valid ones are kept (see
/// `keep_valid_draws`). `None` where the generator cannot be seeded.
pub fn generate_random_test_data_with_config(config: TestDataConfig) -> (res: Option<OpList>)
    requires
        config_ok(config),
    ensures
        match res {
            Some(l) => l.test_op is None && drawn_from(l.ops@, config) && exists|d: Seq<(i32, i32)>| d.len() == config.num_tests
                && draws_in_range(d, config) && #[trigger] drawn_ops(d) == l.ops@,
            None => true,
        },
{
    let mut rng = match seeded_rng() {
        Some(r) => r,
        None => return None,
    };
    let mut draws: Vec<(i32, i32)> = Vec::with_capacity(config.num_tests);
    let mut k: usize = 0;
    while k < config.num_tests
        invariant
            config_ok(config),
            k <= config.num_tests,
            draws@.len() == k,
            draws_in_range(draws@, config),
        decreases config.num_tests - k,
    {
        let ins: InsertPos = gen_range_inclusive(&mut rng, config.min_insert_pos, config.max_insert_pos);
        let len: Length = gen_range_inclusive(&mut rng, config.min_length, config.max_length);
        draws.push((ins, len));
        k += 1;
    }
    let test_data = keep_valid_draws(draws.as_slice());
    proof {
        lemma_drawn_ops_in_range(draws@, config);
    }
    Some(OpList { ops: test_data, test_op: None })
}

/// Generates `num_tests` inserts with positions and lengths in `1 ..= 10`.
/// `None` where the generator cannot be seeded.
pub fn generate_only_positive_random_test_data(num_tests: usize) -> (res: Option<OpList>)
    ensures
        match res {
            Some(l) => l.test_op is None && l.ops@.len() == num_tests
                && forall|i: int| 0 <= i < num_tests ==> 1 <= #[trigger] l.ops@[i].ins <= 10 && 1 <= l.ops@[i].len <= 10,
            None => true,
        },
{
    let mut rng = match seeded_rng() {
        Some(r) => r,
        None => return None,
    };
    let mut test_data: Vec<Op> = Vec::with_capacity(num_tests);
    let mut k: usize = 0;
    while k < num_tests
        invariant
            k <= num_tests,
            test_data@.len() == k,
            forall|i: int| 0 <= i < k ==> 1 <= #[trigger] test_data@[i].ins <= 10 && 1 <= test_data@[i].len <= 10,
        decreases num_tests - k,
    {
        let ins = gen_range_inclusive(&mut rng, 1, 10);
        let len = gen_range_inclusive(&mut rng, 1, 10);
        test_data.push(Op { ins, len });
        k += 1;
    }
    Some(OpList { ops: test_data, test_op: None })
}

} // verus!
