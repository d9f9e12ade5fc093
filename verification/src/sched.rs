//! The scheduler: derives a deterministic-but-seeded execution order over
//! the groups of a frozen suite and over the tests within each group.
//!
//! Group names are sorted lexicographically and then shuffled with a
//! generator seeded from the run's seed; each group's tests are sorted and
//! shuffled with the same generator, consumed in plan order. Given the same
//! seed and the same suite, the plan is the same on every run.

use vstd::prelude::*;
use vstd::relations::{sorted_by, total_ordering};
use vstd::seq_lib::lemma_sorted_unique;
use rand::SeedableRng;
use rand::seq::SliceRandom;
use crate::registry::{GroupEntry, Suite};
use crate::strorder::{lemma_lex_le_antisym, lemma_lex_le_total, lemma_lex_le_trans, lex_le,
    str_eq, str_le};
use crate::types::{clone_string, ConfigError, TestCase};

verus! {

/// The random number generator of the `rand` crate that drives the shuffle.
#[verifier::external_type_specification]
#[verifier::external_body]
pub struct ExStdRng(rand::rngs::StdRng);

/// The permutation that `rand`'s slice shuffle applies: the contents of a
/// slice holding `items`, after it is shuffled in place by a generator that
/// was seeded from `seed` and has since shuffled slices of the lengths in
/// `prior`, in that order. For a fixed seed and history this is a function
/// of the items alone: the generator is a deterministic stream cipher and
/// the shuffle draws from nothing else.
pub uninterp spec fn shuffled_of(seed: u64, prior: Seq<u64>, items: Seq<u64>) -> Seq<u64>;

/// A seeded generator together with the seed it was built from and the
/// lengths of the slices it has shuffled so far, which pin its state.
struct SchedRng {
    seed: u64,
    hist: Vec<u64>,
    inner: rand::rngs::StdRng,
}

/// Relies on rand's `StdRng::seed_from_u64`: a deterministic expansion of a
/// 64-bit seed into a fresh generator state.
#[verifier::external_body]
fn sched_rng_new(seed: u64) -> (r: SchedRng)
    ensures
        r.seed == seed,
        r.hist@ =~= Seq::<u64>::empty(),
{
    SchedRng { seed, hist: Vec::new(), inner: rand::rngs::StdRng::seed_from_u64(seed) }
}

/// Relies on rand's `SliceRandom::shuffle`: permutes the slice in place
/// (same elements, counted with multiplicity), drawing only from the
/// generator, which for `StdRng` is a deterministic function of the seed
/// and of the lengths of the slices shuffled before.
#[verifier::external_body]
fn shuffle_ids(rng: &mut SchedRng, v: &mut Vec<u64>)
    ensures
        final(rng).seed == old(rng).seed,
        final(rng).hist@ == old(rng).hist@.push(old(v)@.len() as u64),
        final(v)@ == shuffled_of(old(rng).seed, old(rng).hist@, old(v)@),
        final(v)@.to_multiset() == old(v)@.to_multiset(),
{
    v.as_mut_slice().shuffle(&mut rng.inner);
    rng.hist.push(v.len() as u64);
}

/// Relies on rand's `random`: draws a fresh value from the thread-local
/// generator. Nothing is promised of the result.
#[verifier::external_body]
fn random_seed() -> u64 {
    rand::random::<u64>()
}

/// The seed for a run: the explicit override when one was supplied, a
/// freshly drawn one otherwise. Either way the caller reports the value in
/// the run's result, so the order can be reproduced.
pub fn choose_seed(explicit: Option<u64>) -> (r: u64)
    ensures
        explicit matches Some(s) ==> r == s,
{
    match explicit {
        Some(s) => s,
        None => random_seed(),
    }
}

/// Whether `c` is a decimal digit.
pub open spec fn is_dec_digit(c: char) -> bool {
    48 <= c as u32 <= 57
}

/// The number denoted by a sequence of decimal digits (most significant
/// first; the empty sequence denotes zero).
pub open spec fn digits_val(s: Seq<char>) -> nat
    decreases s.len(),
{
    if s.len() == 0 {
        0
    } else {
        (digits_val(s.drop_last()) * 10 + (s.last() as u32 - 48)) as nat
    }
}

/// Adding digits never shrinks the denoted value.
proof fn lemma_digits_val_prefix(s: Seq<char>, i: int, j: int)
    requires
        0 <= i <= j <= s.len(),
        forall|k: int| 0 <= k < s.len() ==> is_dec_digit(#[trigger] s[k]),
    ensures
        digits_val(s.take(i)) <= digits_val(s.take(j)),
    decreases j - i,
{
    if i < j {
        lemma_digits_val_prefix(s, i, j - 1);
        let t = s.take(j);
        assert(t.drop_last() =~= s.take(j - 1));
        assert(digits_val(s.take(j)) >= digits_val(s.take(j - 1))) by {
            assert(digits_val(t) == digits_val(t.drop_last()) * 10 + (t.last() as u32 - 48));
            assert(digits_val(t.drop_last()) * 10 >= digits_val(t.drop_last())) by (nonlinear_arith);
        }
    }
}

/// Parse an explicit seed: a non-empty string of decimal digits denoting a
/// value that fits in 64 bits. Anything else is a configuration error
/// carrying the offending text.
pub fn parse_seed(s: &str) -> (r: Result<u64, ConfigError>)
    ensures
        r is Ok <==> s@.len() > 0 && (forall|k: int|
            0 <= k < s@.len() ==> is_dec_digit(#[trigger] s@[k])) && digits_val(s@)
            <= u64::MAX,
        r matches Ok(v) ==> v == digits_val(s@),
        r matches Err(e) ==> e matches ConfigError::InvalidSeed(m) && m@ == s@,
{
    let len = s.unicode_len();
    if len == 0 {
        return Err(ConfigError::InvalidSeed(String::from_str(s)));
    }
    let mut acc: u64 = 0;
    let mut i: usize = 0;
    while i < len
        invariant
            len == s@.len(),
            0 <= i <= len,
            forall|k: int| 0 <= k < i ==> is_dec_digit(#[trigger] s@[k]),
            acc == digits_val(s@.take(i as int)),
        decreases len - i,
    {
        let c = s.get_char(i);
        let cv = c as u32;
        if cv < 48 || cv > 57 {
            return Err(ConfigError::InvalidSeed(String::from_str(s)));
        }
        let d = (cv - 48) as u64;
        proof {
            assert(s@.take(i + 1int).drop_last() =~= s@.take(i as int));
            assert(s@.take(i + 1int).last() == s@[i as int]);
        }
        if acc > (u64::MAX - d) / 10 {
            // the value no longer fits in 64 bits, and appending further
            // digits can only grow it
            proof {
                assert(acc * 10 + d > u64::MAX) by (nonlinear_arith)
                    requires
                        acc > (u64::MAX - d) / 10,
                        d <= 9,
                ;
                if forall|k: int| 0 <= k < s@.len() ==> is_dec_digit(#[trigger] s@[k]) {
                    lemma_digits_val_prefix(s@, i + 1, s@.len() as int);
                    assert(s@.take(s@.len() as int) =~= s@);
                }
            }
            return Err(ConfigError::InvalidSeed(String::from_str(s)));
        }
        proof {
            assert(acc * 10 + d <= u64::MAX) by (nonlinear_arith)
                requires
                    acc <= (u64::MAX - d) / 10,
                    d <= 9,
            ;
        }
        acc = acc * 10 + d;
        i = i + 1;
    }
    proof {
        assert(s@.take(len as int) =~= s@);
    }
    Ok(acc)
}

/// The sequence `0, 1, …, n-1`.
pub open spec fn index_seq(n: nat) -> Seq<u64> {
    Seq::new(n, |i: int| i as u64)
}

/// The views of a vector of strings.
pub open spec fn str_views(names: Seq<String>) -> Seq<Seq<char>> {
    names.map_values(|s: String| s@)
}

/// The group names of the entries, by index.
pub open spec fn entry_name_views(entries: Seq<GroupEntry>) -> Seq<Seq<char>> {
    entries.map_values(|e: GroupEntry| e.group.name@)
}

/// The test names of a test list, by index.
pub open spec fn test_name_views(ts: Seq<crate::types::TestCase>) -> Seq<Seq<char>> {
    ts.map_values(|t: crate::types::TestCase| t.name@)
}

/// Index `a` comes at or before index `b`: the name at `a` is
/// lexicographically smaller, with ties broken by the index itself.
pub open spec fn name_idx_le(names: Seq<Seq<char>>, a: u64, b: u64) -> bool {
    if names[a as int] == names[b as int] {
        a <= b
    } else {
        lex_le(names[a as int], names[b as int])
    }
}

/// The index ordering induced by a name table, as a relation.
pub open spec fn name_order(names: Seq<Seq<char>>) -> spec_fn(u64, u64) -> bool {
    |a: u64, b: u64| name_idx_le(names, a, b)
}

/// The index ordering is a total order, whatever the name table.
pub proof fn lemma_name_order_total(names: Seq<Seq<char>>)
    ensures
        total_ordering(name_order(names)),
{
    let ord = name_order(names);
    assert forall|x: u64| #[trigger] ord(x, x) by {}
    assert forall|x: u64, y: u64| #[trigger] ord(x, y) && #[trigger] ord(y, x) implies x == y by {
        if names[x as int] != names[y as int] {
            lemma_lex_le_antisym(names[x as int], names[y as int]);
        }
    }
    assert forall|x: u64, y: u64, z: u64| #[trigger] ord(x, y) && #[trigger] ord(y, z) implies ord(
        x,
        z,
    ) by {
        let nx = names[x as int];
        let ny = names[y as int];
        let nz = names[z as int];
        if nx != ny && ny != nz {
            lemma_lex_le_trans(nx, ny, nz);
            if nx == nz {
                lemma_lex_le_antisym(ny, nz);
            }
        }
    }
    assert forall|x: u64, y: u64| #[trigger] ord(x, y) || #[trigger] ord(y, x) by {
        if names[x as int] != names[y as int] {
            lemma_lex_le_total(names[x as int], names[y as int]);
        }
    }
}

/// Executable comparison of two indices through a name table.
fn name_le(names: &Vec<String>, a: u64, b: u64) -> (r: bool)
    requires
        a < names@.len(),
        b < names@.len(),
    ensures
        r == name_idx_le(str_views(names@), a, b),
{
    let n = names.len();
    let sa = names[a as usize].as_str();
    let sb = names[b as usize].as_str();
    proof {
        assert(str_views(names@)[a as int] == names@[a as int]@);
        assert(str_views(names@)[b as int] == names@[b as int]@);
        assert(sa@ == names@[a as int]@);
        assert(sb@ == names@[b as int]@);
    }
    let r = if str_eq(sa, sb) {
        a <= b
    } else {
        str_le(sa, sb)
    };
    proof {
        assert(str_views(names@)[a as int] == sa@);
        assert(str_views(names@)[b as int] == sb@);
        assert(r == name_idx_le(str_views(names@), a, b));
    }
    r
}

/// Sort a vector of indices into a name table, smallest name first, ties by
/// index. Insertion sort: stable, quadratic, and enough for a test plan.
fn sort_ids_by_names(names: &Vec<String>, v: &Vec<u64>) -> (out: Vec<u64>)
    requires
        forall|k: int| 0 <= k < v@.len() ==> v@[k] < names@.len(),
    ensures
        sorted_by(out@, name_order(str_views(names@))),
        out@.to_multiset() == v@.to_multiset(),
        out@.len() == v@.len(),
        forall|k: int| 0 <= k < out@.len() ==> out@[k] < names@.len(),
{
    broadcast use vstd::seq_lib::group_to_multiset_ensures;

    let ghost ord = name_order(str_views(names@));
    proof {
        lemma_name_order_total(str_views(names@));
        assert(v@.take(0) =~= Seq::<u64>::empty());
        assert(Seq::<u64>::empty().to_multiset() =~= vstd::multiset::Multiset::<u64>::empty()) by {
            Seq::<u64>::empty().to_multiset_ensures();
        }
    }
    let mut out: Vec<u64> = Vec::new();
    let mut i: usize = 0;
    while i < v.len()
        invariant
            forall|k: int| 0 <= k < v@.len() ==> v@[k] < names@.len(),
            i <= v@.len(),
            ord == name_order(str_views(names@)),
            total_ordering(ord),
            sorted_by(out@, ord),
            out@.to_multiset() == v@.take(i as int).to_multiset(),
            out@.len() == i,
            forall|k: int| 0 <= k < out@.len() ==> out@[k] < names@.len(),
        decreases v@.len() - i,
    {
        let x = v[i];
        let ghost old_out = out@;
        // find the insertion point: the length of the prefix of entries
        // that come at or before `x`
        let mut p: usize = 0;
        let mut q: usize = 0;
        while q < out.len()
            invariant
                forall|k: int| 0 <= k < out@.len() ==> out@[k] < names@.len(),
                x < names@.len(),
                ord == name_order(str_views(names@)),
                total_ordering(ord),
                sorted_by(out@, ord),
                p <= q <= out@.len(),
                forall|k: int| 0 <= k < q ==> (#[trigger] ord(out@[k], x) <==> k < p),
            decreases out@.len() - q,
        {
            if name_le(names, out[q], x) {
                proof {
                    if p < q {
                        assert(ord(out@[q as int], x));
                        assert(ord(out@[p as int], out@[q as int]));
                        assert(ord(out@[p as int], x));
                        assert(false);
                    }
                }
                p = p + 1;
            }
            q = q + 1;
        }
        out.insert(p, x);
        proof {
            assert(out@ =~= old_out.insert(p as int, x));
            assert(sorted_by(out@, ord)) by {
                assert forall|a: int, b: int| 0 <= a < b < out@.len() implies #[trigger] ord(
                    out@[a],
                    out@[b],
                ) by {
                    if a < p && b == p {
                        assert(out@[a] == old_out[a]);
                        assert(ord(old_out[a], x));
                    } else if a == p && b > p {
                        assert(out@[b] == old_out[b - 1]);
                        assert(!ord(old_out[b - 1], x));
                        assert(ord(x, old_out[b - 1]));
                    } else if a < p && b > p {
                        assert(out@[a] == old_out[a] && out@[b] == old_out[b - 1]);
                    } else if a != p && b != p {
                        assert(out@[a] == old_out[a] || out@[a] == old_out[a - 1]);
                    }
                }
            }
            assert(out@.to_multiset() == v@.take(i + 1int).to_multiset()) by {
                broadcast use vstd::seq_lib::group_to_multiset_ensures;

                assert(v@.take(i + 1int) =~= v@.take(i as int).push(v@[i as int]));
            }
        }
        i = i + 1;
    }
    proof {
        assert(v@.take(v@.len() as int) =~= v@);
    }
    out
}

/// The vector `0, 1, …, n-1`.
fn make_index_vec(n: usize) -> (v: Vec<u64>)
    ensures
        v@ =~= index_seq(n as nat),
{
    let mut v: Vec<u64> = Vec::new();
    let mut i: usize = 0;
    while i < n
        invariant
            i <= n,
            v@ =~= index_seq(i as nat),
        decreases n - i,
    {
        v.push(i as u64);
        i = i + 1;
    }
    v
}

/// One planned group: the index of its entry in the frozen suite and the
/// order in which its tests run, as indices into the entry's test list.
pub struct PlanEntry {
    pub group: u64,
    pub tests: Vec<u64>,
}

/// The ordered execution plan for one run, together with the seed that
/// produced it.
pub struct ExecutionPlan {
    pub seed: u64,
    pub groups: Vec<PlanEntry>,
}

/// The entry indices sorted by group name (ties cannot arise between
/// distinct indices of a well-formed suite, and are broken by the index).
pub open spec fn sorted_group_ids(entries: Seq<GroupEntry>) -> Seq<u64> {
    index_seq(entries.len()).sort_by(name_order(entry_name_views(entries)))
}

/// The order in which the groups run: sorted entry indices, shuffled first.
pub open spec fn planned_groups(seed: u64, entries: Seq<GroupEntry>) -> Seq<u64> {
    shuffled_of(seed, Seq::empty(), sorted_group_ids(entries))
}

/// The shuffle history before the test shuffle of the `k`-th planned group:
/// first the group list itself, then the test lists of the earlier planned
/// groups, identified by their lengths.
pub open spec fn plan_hist(seed: u64, entries: Seq<GroupEntry>, k: int) -> Seq<u64> {
    seq![entries.len() as u64] + Seq::new(
        k as nat,
        |j: int| entries[planned_groups(seed, entries)[j] as int].tests@.len() as u64,
    )
}

/// The test indices of one test list, sorted by test name.
pub open spec fn sorted_test_ids(ts: Seq<TestCase>) -> Seq<u64> {
    index_seq(ts.len()).sort_by(name_order(test_name_views(ts)))
}

/// The order in which the `k`-th planned group's tests run.
pub open spec fn planned_tests(seed: u64, entries: Seq<GroupEntry>, k: int) -> Seq<u64> {
    shuffled_of(
        seed,
        plan_hist(seed, entries, k),
        sorted_test_ids(entries[planned_groups(seed, entries)[k] as int].tests@),
    )
}

/// The group indices of a plan, in plan order.
pub open spec fn plan_group_seq(p: ExecutionPlan) -> Seq<u64> {
    p.groups@.map_values(|pe: PlanEntry| pe.group)
}

/// What `plan` promises: the plan is exactly the seeded shuffle of the
/// sorted suite — group order, per-group test order, and the permutation
/// facts that make every group and every test appear exactly once.
pub open spec fn plan_matches(p: ExecutionPlan, seed: u64, entries: Seq<GroupEntry>) -> bool {
    &&& p.seed == seed
    &&& p.groups@.len() == entries.len()
    &&& plan_group_seq(p) == planned_groups(seed, entries)
    &&& plan_group_seq(p).to_multiset() == index_seq(entries.len()).to_multiset()
    &&& forall|k: int|
        0 <= k < p.groups@.len() ==> {
            &&& (#[trigger] p.groups@[k]).group < entries.len()
            &&& p.groups@[k].tests@ == planned_tests(seed, entries, k)
            &&& p.groups@[k].tests@.to_multiset() == index_seq(
                entries[p.groups@[k].group as int].tests@.len(),
            ).to_multiset()
            &&& forall|w: int|
                0 <= w < p.groups@[k].tests@.len() ==> #[trigger] p.groups@[k].tests@[w]
                    < entries[p.groups@[k].group as int].tests@.len()
        }
}

/// A sequence whose multiset is `0, …, n-1` has length `n` and only
/// in-range elements.
proof fn lemma_ids_bounded(s: Seq<u64>, n: nat)
    requires
        s.to_multiset() == index_seq(n).to_multiset(),
    ensures
        s.len() == n,
        forall|k: int| 0 <= k < s.len() ==> s[k] < n,
{
    broadcast use vstd::seq_lib::group_to_multiset_ensures;

    assert(s.to_multiset().len() == s.len());
    assert(index_seq(n).to_multiset().len() == index_seq(n).len());
    assert forall|k: int| 0 <= k < s.len() implies s[k] < n by {
        assert(s.to_multiset().contains(s[k]));
        assert(index_seq(n).to_multiset().contains(s[k]));
        assert(index_seq(n).contains(s[k]));
        let w = choose|w: int| 0 <= w < index_seq(n).len() && index_seq(n)[w] == s[k];
        assert(index_seq(n)[w] == w as u64);
    }
}

/// Clone the group names of the entries into a name table.
fn group_name_table(entries: &Vec<GroupEntry>) -> (names: Vec<String>)
    ensures
        str_views(names@) =~= entry_name_views(entries@),
        names@.len() == entries@.len(),
{
    let mut names: Vec<String> = Vec::new();
    let mut i: usize = 0;
    while i < entries.len()
        invariant
            i <= entries@.len(),
            names@.len() == i,
            forall|k: int| 0 <= k < i ==> names@[k]@ == entries@[k].group.name@,
        decreases entries@.len() - i,
    {
        names.push(clone_string(&entries[i].group.name));
        i = i + 1;
    }
    proof {
        assert forall|k: int| 0 <= k < names@.len() implies str_views(names@)[k]
            == entry_name_views(entries@)[k] by {}
    }
    names
}

/// Clone the test names of one entry into a name table.
fn test_name_table(ts: &Vec<TestCase>) -> (names: Vec<String>)
    ensures
        str_views(names@) =~= test_name_views(ts@),
        names@.len() == ts@.len(),
{
    let mut names: Vec<String> = Vec::new();
    let mut i: usize = 0;
    while i < ts.len()
        invariant
            i <= ts@.len(),
            names@.len() == i,
            forall|k: int| 0 <= k < i ==> names@[k]@ == ts@[k].name@,
        decreases ts@.len() - i,
    {
        names.push(clone_string(&ts[i].name));
        i = i + 1;
    }
    proof {
        assert forall|k: int| 0 <= k < names@.len() implies str_views(names@)[k]
            == test_name_views(ts@)[k] by {}
    }
    names
}

/// Derive the execution plan for one run: group names sorted then shuffled,
/// each group's test names sorted then shuffled, all driven by one
/// generator seeded from `seed`. The same seed over the same suite yields
/// the same plan.
pub fn plan(seed: u64, suite: &Suite) -> (p: ExecutionPlan)
    ensures
        plan_matches(p, seed, suite.entries@),
{
    broadcast use vstd::seq_lib::group_to_multiset_ensures;

    let ghost entries = suite.entries@;
    let n = suite.entries.len();
    let names = group_name_table(&suite.entries);
    let idv = make_index_vec(n);
    let gsorted = sort_ids_by_names(&names, &idv);
    proof {
        let ord = name_order(entry_name_views(entries));
        lemma_name_order_total(entry_name_views(entries));
        index_seq(n as nat).lemma_sort_by_ensures(ord);
        lemma_sorted_unique(gsorted@, sorted_group_ids(entries), ord);
        assert(gsorted@ == sorted_group_ids(entries));
    }
    let mut rng = sched_rng_new(seed);
    let mut gshuf = gsorted;
    shuffle_ids(&mut rng, &mut gshuf);
    proof {
        assert(gshuf@ == planned_groups(seed, entries));
        assert(gshuf@.to_multiset() == index_seq(n as nat).to_multiset());
        lemma_ids_bounded(gshuf@, n as nat);
        assert(rng.hist@ =~= plan_hist(seed, entries, 0));
    }
    let mut out: Vec<PlanEntry> = Vec::new();
    let mut k: usize = 0;
    while k < n
        invariant
            entries == suite.entries@,
            n == entries.len(),
            rng.seed == seed,
            rng.hist@ == plan_hist(seed, entries, k as int),
            gshuf@ == planned_groups(seed, entries),
            gshuf@.len() == n,
            forall|j: int| 0 <= j < n ==> gshuf@[j] < n,
            out@.len() == k,
            k <= n,
            forall|j: int| 0 <= j < k ==> (#[trigger] out@[j]).group == gshuf@[j],
            forall|j: int| 0 <= j < k ==> (#[trigger] out@[j]).tests@ == planned_tests(seed, entries, j),
            forall|j: int|
                0 <= j < k ==> (#[trigger] out@[j]).tests@.to_multiset() == index_seq(
                    entries[out@[j].group as int].tests@.len(),
                ).to_multiset(),
            forall|j: int, w: int|
                0 <= j < k && 0 <= w < out@[j].tests@.len() ==> #[trigger] out@[j].tests@[w]
                    < entries[out@[j].group as int].tests@.len(),
        decreases n - k,
    {
        let gi64 = gshuf[k];
        let gi = gi64 as usize;
        let m = suite.entries[gi].tests.len();
        let tnames = test_name_table(&suite.entries[gi].tests);
        let tidv = make_index_vec(m);
        let tsorted = sort_ids_by_names(&tnames, &tidv);
        proof {
            let tord = name_order(test_name_views(entries[gi as int].tests@));
            lemma_name_order_total(test_name_views(entries[gi as int].tests@));
            index_seq(m as nat).lemma_sort_by_ensures(tord);
            lemma_sorted_unique(tsorted@, sorted_test_ids(entries[gi as int].tests@), tord);
            assert(tsorted@ == sorted_test_ids(entries[gi as int].tests@));
        }
        let mut tshuf = tsorted;
        shuffle_ids(&mut rng, &mut tshuf);
        proof {
            assert(tshuf@ == planned_tests(seed, entries, k as int));
            assert(tshuf@.to_multiset() == index_seq(m as nat).to_multiset());
            lemma_ids_bounded(tshuf@, m as nat);
            assert(rng.hist@ =~= plan_hist(seed, entries, k + 1int)) by {
                assert(plan_hist(seed, entries, k + 1int) =~= plan_hist(
                    seed,
                    entries,
                    k as int,
                ).push(entries[planned_groups(seed, entries)[k as int] as int].tests@.len() as u64));
            }
        }
        out.push(PlanEntry { group: gi64, tests: tshuf });
        k = k + 1;
    }
    let p = ExecutionPlan { seed, groups: out };
    proof {
        assert(plan_group_seq(p) =~= gshuf@);
        assert(plan_group_seq(p).to_multiset() == index_seq(entries.len()).to_multiset());
    }
    p
}

/// Reproducibility: two plans drawn with the same seed over the same frozen
/// suite order the groups identically and order every group's tests
/// identically.
pub proof fn lemma_plan_reproducible(
    p1: ExecutionPlan,
    p2: ExecutionPlan,
    seed: u64,
    entries: Seq<GroupEntry>,
)
    requires
        plan_matches(p1, seed, entries),
        plan_matches(p2, seed, entries),
    ensures
        p1.groups@.len() == p2.groups@.len(),
        forall|k: int|
            0 <= k < p1.groups@.len() ==> (#[trigger] p1.groups@[k]).group == p2.groups@[k].group,
        forall|k: int|
            0 <= k < p1.groups@.len() ==> (#[trigger] p1.groups@[k]).tests@ == p2.groups@[
                k
            ].tests@,
{
    assert forall|k: int| 0 <= k < p1.groups@.len() implies (#[trigger] p1.groups@[k]).group
        == p2.groups@[k].group by {
        assert(plan_group_seq(p1)[k] == p1.groups@[k].group);
        assert(plan_group_seq(p2)[k] == p2.groups@[k].group);
    }
}

} // verus!
