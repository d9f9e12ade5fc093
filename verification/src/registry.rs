//! The registry: an append-only collection of discovered test cases, group
//! hook sets and suite-level hooks, populated during a discovery phase.
//! Freezing the registry groups the tests, rejects configuration errors and
//! yields the immutable [`Suite`] that scheduling and execution work on.

use vstd::prelude::*;
use vstd::seq_lib::*;
use crate::strorder::str_eq;
use crate::types::{clone_string, ConfigError, HookSpec, SuiteHook, TestCase, TestGroup};

verus! {

/// One group of the frozen suite: its hook set together with the tests that
/// were discovered for it, in registration order.
pub struct GroupEntry {
    pub group: TestGroup,
    pub tests: Vec<TestCase>,
}

/// The frozen discovery output: groups (declared ones first, in declaration
/// order, then one hook-less entry per remaining test module, in first
/// occurrence order) and the suite-level hooks in registration order.
pub struct Suite {
    pub entries: Vec<GroupEntry>,
    pub suite_hooks: Vec<SuiteHook>,
}

/// The names of a sequence of groups, as character sequences.
pub open spec fn group_names(groups: Seq<TestGroup>) -> Seq<Seq<char>> {
    groups.map_values(|g: TestGroup| g.name@)
}

/// The modules of `ts` that are not in `seen`, in first occurrence order.
pub open spec fn extra_modules(ts: Seq<TestCase>, seen: Seq<Seq<char>>) -> Seq<Seq<char>>
    decreases ts.len(),
{
    if ts.len() == 0 {
        Seq::empty()
    } else if seen.contains(ts[0].module@) {
        extra_modules(ts.drop_first(), seen)
    } else {
        seq![ts[0].module@] + extra_modules(ts.drop_first(), seen.push(ts[0].module@))
    }
}

/// The tests of `ts` that belong to the group named `name`, in order.
pub open spec fn tests_of_module(ts: Seq<TestCase>, name: Seq<char>) -> Seq<TestCase> {
    ts.filter(|t: TestCase| t.module@ == name)
}

/// No two groups share a name.
pub open spec fn distinct_group_names(groups: Seq<TestGroup>) -> bool {
    forall|i: int, j: int|
        0 <= i < j < groups.len() ==> groups[i].name@ != groups[j].name@
}

/// No two tests share both module and name.
pub open spec fn distinct_test_names(ts: Seq<TestCase>) -> bool {
    forall|i: int, j: int|
        0 <= i < j < ts.len() ==> !(ts[i].module@ == ts[j].module@ && ts[i].name@
            == ts[j].name@)
}

/// Some hook of the group declares that it consumes the shared context.
pub open spec fn hooks_need_shared(g: TestGroup) -> bool {
    ||| (g.after matches Some(h) && h.needs_shared)
    ||| (g.before_each matches Some(h) && h.needs_shared)
    ||| (g.after_each matches Some(h) && h.needs_shared)
}

/// Some test in `ts` declares that it consumes the shared context.
pub open spec fn tests_need_shared(ts: Seq<TestCase>) -> bool {
    exists|i: int| 0 <= i < ts.len() && ts[i].needs_shared
}

/// The group's `before` produces a shared context value.
pub open spec fn provides_shared(g: TestGroup) -> bool {
    g.before matches Some(h) && h.produces_shared
}

/// The group's `after_each` declares that it consumes the owned context.
pub open spec fn hooks_need_owned(g: TestGroup) -> bool {
    g.after_each matches Some(h) && h.needs_owned
}

/// Some test in `ts` declares that it consumes the owned context.
pub open spec fn tests_need_owned(ts: Seq<TestCase>) -> bool {
    exists|i: int| 0 <= i < ts.len() && ts[i].needs_owned
}

/// The group's `before_each` produces an owned context value.
pub open spec fn provides_owned(g: TestGroup) -> bool {
    g.before_each matches Some(h) && h.produces_owned
}

/// Everything the group's hooks and tests declare to consume is also
/// produced by the group.
pub open spec fn entry_ctx_ok(g: TestGroup, ts: Seq<TestCase>) -> bool {
    &&& (hooks_need_shared(g) || tests_need_shared(ts)) ==> provides_shared(g)
    &&& (hooks_need_owned(g) || tests_need_owned(ts)) ==> provides_owned(g)
}

/// The context declarations of every group — declared or implied by a test
/// module — are satisfiable.
pub open spec fn all_ctx_ok(groups: Seq<TestGroup>, ts: Seq<TestCase>) -> bool {
    &&& forall|i: int|
        0 <= i < groups.len() ==> entry_ctx_ok(
            groups[i],
            tests_of_module(ts, groups[i].name@),
        )
    &&& forall|j: int|
        0 <= j < ts.len() && (ts[j].needs_shared || ts[j].needs_owned)
            ==> exists|i: int| 0 <= i < groups.len() && groups[i].name@ == ts[j].module@
}

/// Discovery output is acceptable: group names are distinct, test identities
/// are distinct, and every declared context consumption is matched by a
/// producer.
pub open spec fn registry_ok(groups: Seq<TestGroup>, ts: Seq<TestCase>) -> bool {
    &&& distinct_group_names(groups)
    &&& distinct_test_names(ts)
    &&& all_ctx_ok(groups, ts)
}

/// Well-formedness of a frozen suite: group names are distinct, each test
/// sits in the entry of its own module, and test names are unique within
/// each entry.
pub open spec fn suite_wf(s: Suite) -> bool {
    &&& forall|i: int, j: int|
        0 <= i < j < s.entries@.len() ==> s.entries@[i].group.name@ != s.entries@[j].group.name@
    &&& forall|e: int, i: int|
        0 <= e < s.entries@.len() && 0 <= i < s.entries@[e].tests@.len()
            ==> s.entries@[e].tests@[i].module@ == s.entries@[e].group.name@
    &&& forall|e: int, i: int, j: int|
        0 <= e < s.entries@.len() && 0 <= i < j < s.entries@[e].tests@.len()
            ==> s.entries@[e].tests@[i].name@ != s.entries@[e].tests@[j].name@
}

/// The append-only registry populated during discovery. Registration only
/// records declarations; all configuration checking happens in
/// [`Registry::compile`], before any test runs.
pub struct Registry {
    pub groups: Vec<TestGroup>,
    pub tests: Vec<TestCase>,
    pub suite_hooks: Vec<SuiteHook>,
}

impl Registry {
    /// An empty registry.
    pub fn new() -> (r: Registry)
        ensures
            r.groups@ =~= Seq::<TestGroup>::empty(),
            r.tests@ =~= Seq::<TestCase>::empty(),
            r.suite_hooks@ =~= Seq::<SuiteHook>::empty(),
    {
        Registry { groups: Vec::new(), tests: Vec::new(), suite_hooks: Vec::new() }
    }

    /// Record a group declaration.
    pub fn register_group(&mut self, g: TestGroup)
        ensures
            final(self).groups@ == old(self).groups@.push(g),
            final(self).tests@ == old(self).tests@,
            final(self).suite_hooks@ == old(self).suite_hooks@,
    {
        self.groups.push(g);
    }

    /// Record a discovered test case.
    pub fn register_test(&mut self, t: TestCase)
        ensures
            final(self).tests@ == old(self).tests@.push(t),
            final(self).groups@ == old(self).groups@,
            final(self).suite_hooks@ == old(self).suite_hooks@,
    {
        self.tests.push(t);
    }

    /// Record a suite-level hook.
    pub fn register_suite_hook(&mut self, h: SuiteHook)
        ensures
            final(self).suite_hooks@ == old(self).suite_hooks@.push(h),
            final(self).groups@ == old(self).groups@,
            final(self).tests@ == old(self).tests@,
    {
        self.suite_hooks.push(h);
    }
}

/// Find the entry whose group carries `name`.
fn find_entry(entries: &Vec<GroupEntry>, name: &str) -> (r: Option<usize>)
    ensures
        match r {
            Some(i) => 0 <= i < entries@.len() && entries@[i as int].group.name@ == name@,
            None => forall|i: int| 0 <= i < entries@.len() ==> entries@[i].group.name@ != name@,
        },
{
    let mut i: usize = 0;
    while i < entries.len()
        invariant
            i <= entries@.len(),
            forall|k: int| 0 <= k < i ==> entries@[k].group.name@ != name@,
        decreases entries@.len() - i,
    {
        if str_eq(entries[i].group.name.as_str(), name) {
            return Some(i);
        }
        i = i + 1;
    }
    None
}

/// Whether some test in `ts` carries `name`.
fn has_test_named(ts: &Vec<TestCase>, name: &str) -> (r: bool)
    ensures
        r == exists|i: int| 0 <= i < ts@.len() && ts@[i].name@ == name@,
{
    let mut i: usize = 0;
    while i < ts.len()
        invariant
            i <= ts@.len(),
            forall|k: int| 0 <= k < i ==> ts@[k].name@ != name@,
        decreases ts@.len() - i,
    {
        if str_eq(ts[i].name.as_str(), name) {
            return true;
        }
        i = i + 1;
    }
    false
}

/// Whether some test in `ts` declares `needs_shared`.
fn any_test_needs_shared(ts: &Vec<TestCase>) -> (r: bool)
    ensures
        r == tests_need_shared(ts@),
{
    let mut i: usize = 0;
    while i < ts.len()
        invariant
            i <= ts@.len(),
            forall|k: int| 0 <= k < i ==> !ts@[k].needs_shared,
        decreases ts@.len() - i,
    {
        if ts[i].needs_shared {
            return true;
        }
        i = i + 1;
    }
    false
}

/// Whether some test in `ts` declares `needs_owned`.
fn any_test_needs_owned(ts: &Vec<TestCase>) -> (r: bool)
    ensures
        r == tests_need_owned(ts@),
{
    let mut i: usize = 0;
    while i < ts.len()
        invariant
            i <= ts@.len(),
            forall|k: int| 0 <= k < i ==> !ts@[k].needs_owned,
        decreases ts@.len() - i,
    {
        if ts[i].needs_owned {
            return true;
        }
        i = i + 1;
    }
    false
}

/// Whether `h` is a `Some` hook whose `needs_shared` flag is set.
fn opt_needs_shared(h: &Option<HookSpec>) -> (r: bool)
    ensures
        r == (*h matches Some(s) && s.needs_shared),
{
    match h {
        Some(s) => s.needs_shared,
        None => false,
    }
}

/// Appending a test extends the extra modules by its module exactly when
/// that module is new.
proof fn lemma_extra_modules_push(ts: Seq<TestCase>, seen: Seq<Seq<char>>, t: TestCase)
    ensures
        extra_modules(ts.push(t), seen) == (if seen.contains(t.module@) || extra_modules(
            ts,
            seen,
        ).contains(t.module@) {
            extra_modules(ts, seen)
        } else {
            extra_modules(ts, seen).push(t.module@)
        }),
    decreases ts.len(),
{
    broadcast use vstd::seq_lib::group_seq_properties;

    if ts.len() == 0 {
        assert(ts.push(t).drop_first() =~= Seq::empty());
        if !seen.contains(t.module@) {
            assert(extra_modules(ts.push(t).drop_first(), seen.push(t.module@)) =~= Seq::<
                Seq<char>,
            >::empty());
            assert(extra_modules(ts.push(t), seen) =~= seq![t.module@]);
            assert(extra_modules(ts, seen).push(t.module@) =~= seq![t.module@]);
        }
    } else {
        let s = ts.push(t);
        assert(s[0] == ts[0]);
        assert(s.drop_first() =~= ts.drop_first().push(t));
        if seen.contains(ts[0].module@) {
            lemma_extra_modules_push(ts.drop_first(), seen, t);
        } else {
            let seen2 = seen.push(ts[0].module@);
            lemma_extra_modules_push(ts.drop_first(), seen2, t);
            let m0 = ts[0].module@;
            let tail = extra_modules(ts.drop_first(), seen2);
            assert(extra_modules(ts, seen) =~= seq![m0] + tail);
            // membership in the pushed seen set matches membership in either
            // the old seen set or the produced extras
            assert(seen2.contains(t.module@) <==> seen.contains(t.module@) || m0 == t.module@);
            assert(extra_modules(ts, seen).contains(t.module@) <==> m0 == t.module@
                || tail.contains(t.module@)) by {
                if extra_modules(ts, seen).contains(t.module@) {
                    let k = choose|k: int|
                        0 <= k < extra_modules(ts, seen).len() && extra_modules(ts, seen)[k]
                            == t.module@;
                    if k > 0 {
                        assert(tail[k - 1] == t.module@);
                    }
                } else {
                    assert(extra_modules(ts, seen)[0] == m0);
                    assert(forall|k: int|
                        0 <= k < tail.len() ==> extra_modules(ts, seen)[k + 1] == tail[k]);
                }
            }
            if seen2.contains(t.module@) || tail.contains(t.module@) {
            } else {
                assert(extra_modules(s, seen) =~= seq![m0] + tail.push(t.module@));
                assert(seq![m0] + tail.push(t.module@) =~= (seq![m0] + tail).push(t.module@));
            }
        }
    }
}

impl Registry {
    /// Close discovery: group the tests under their modules, reject
    /// configuration errors, and freeze everything into a [`Suite`].
    ///
    /// Succeeds exactly when the registered declarations are acceptable; on
    /// success the entries hold the declared groups first, in declaration
    /// order, then one hook-less entry per undeclared test module in first
    /// occurrence order, with each entry holding exactly the tests of its
    /// module in registration order.
    pub fn compile(self) -> (r: Result<Suite, ConfigError>)
        ensures
            r is Ok <==> registry_ok(self.groups@, self.tests@),
            r matches Ok(s) ==> {
                &&& suite_wf(s)
                &&& s.suite_hooks@ == self.suite_hooks@
                &&& s.entries@.len() == self.groups@.len() + extra_modules(
                    self.tests@,
                    group_names(self.groups@),
                ).len()
                &&& forall|i: int|
                    0 <= i < self.groups@.len() ==> s.entries@[i].group == self.groups@[i]
                &&& forall|i: int|
                    self.groups@.len() <= i < s.entries@.len() ==> {
                        &&& s.entries@[i].group.name@ == extra_modules(
                            self.tests@,
                            group_names(self.groups@),
                        )[i - self.groups@.len()]
                        &&& s.entries@[i].group.before is None
                        &&& s.entries@[i].group.after is None
                        &&& s.entries@[i].group.before_each is None
                        &&& s.entries@[i].group.after_each is None
                        &&& s.entries@[i].group.suite == false
                    }
                &&& forall|i: int|
                    0 <= i < s.entries@.len() ==> s.entries@[i].tests@ == tests_of_module(
                        self.tests@,
                        s.entries@[i].group.name@,
                    )
            },
            r matches Err(ConfigError::DuplicateGroup(n)) ==> exists|i: int, j: int|
                0 <= i < j < self.groups@.len() && self.groups@[i].name@ == self.groups@[j].name@
                    && self.groups@[j].name@ == n@,
            r matches Err(ConfigError::DuplicateTest(m, n)) ==> exists|i: int, j: int|
                0 <= i < j < self.tests@.len() && self.tests@[i].module@ == self.tests@[j].module@
                    && self.tests@[i].name@ == self.tests@[j].name@ && self.tests@[j].module@ == m@
                    && self.tests@[j].name@ == n@,
    {
        broadcast use vstd::seq_lib::group_seq_properties;

        let ghost orig_groups = self.groups@;
        let ghost orig_tests = self.tests@;
        let mut groups = self.groups;
        let mut tests = self.tests;
        let suite_hooks = self.suite_hooks;
        proof {
            assert(orig_groups == self.groups@);
            assert(orig_tests == self.tests@);
        }
        let mut entries: Vec<GroupEntry> = Vec::new();

        // Phase 1: one entry per declared group, rejecting duplicate names.
        while groups.len() > 0
            invariant
                orig_groups == self.groups@,
                orig_tests == self.tests@,
                groups@ =~= orig_groups.skip(entries@.len() as int),
                entries@.len() <= orig_groups.len(),
                forall|i: int|
                    0 <= i < entries@.len() ==> entries@[i].group == orig_groups[i],
                forall|i: int|
                    0 <= i < entries@.len() ==> entries@[i].tests@ =~= Seq::<TestCase>::empty(),
                forall|i: int, j: int|
                    0 <= i < j < entries@.len() ==> entries@[i].group.name@ != entries@[
                        j
                    ].group.name@,
            decreases groups@.len(),
        {
            let ghost k = entries@.len() as int;
            let g = groups.remove(0);
            proof {
                assert(g == orig_groups[k]);
                assert(groups@ =~= orig_groups.skip(k + 1));
            }
            match find_entry(&entries, g.name.as_str()) {
                Some(i) => {
                    proof {
                        assert(orig_groups[i as int].name@ == orig_groups[k].name@);
                        assert(!distinct_group_names(orig_groups));
                        assert(!registry_ok(self.groups@, self.tests@));
                        assert(exists|a: int, b: int|
                            0 <= a < b < self.groups@.len() && self.groups@[a].name@
                                == self.groups@[b].name@ && self.groups@[b].name@ == g.name@) by {
                            assert(self.groups@[i as int].name@ == self.groups@[k].name@
                                && self.groups@[k].name@ == g.name@);
                        }
                    }
                    return Err(ConfigError::DuplicateGroup(g.name));
                },
                None => {
                    entries.push(GroupEntry { group: g, tests: Vec::new() });
                },
            }
        }
        let ghost n_declared = entries@.len() as int;
        proof {
            assert(n_declared == orig_groups.len());
            assert(forall|i: int|
                0 <= i < entries@.len() ==> entries@[i].group.name@ == group_names(orig_groups)[i]);
        }

        // Phase 2: distribute the tests over the entries, creating hook-less
        // entries for undeclared modules and rejecting duplicate test names.
        while tests.len() > 0
            invariant
                orig_groups == self.groups@,
                orig_tests == self.tests@,
                tests@ =~= orig_tests.skip(orig_tests.len() - tests@.len()),
                tests@.len() <= orig_tests.len(),
                n_declared == orig_groups.len(),
                entries@.len() == n_declared + extra_modules(
                    orig_tests.take(orig_tests.len() - tests@.len()),
                    group_names(orig_groups),
                ).len(),
                forall|i: int|
                    0 <= i < n_declared ==> entries@[i].group == orig_groups[i],
                forall|i: int|
                    n_declared <= i < entries@.len() ==> {
                        &&& entries@[i].group.name@ == extra_modules(
                            orig_tests.take(orig_tests.len() - tests@.len()),
                            group_names(orig_groups),
                        )[i - n_declared]
                        &&& entries@[i].group.before is None
                        &&& entries@[i].group.after is None
                        &&& entries@[i].group.before_each is None
                        &&& entries@[i].group.after_each is None
                        &&& entries@[i].group.suite == false
                    },
                forall|i: int, j: int|
                    0 <= i < j < entries@.len() ==> entries@[i].group.name@ != entries@[
                        j
                    ].group.name@,
                forall|i: int|
                    0 <= i < entries@.len() ==> entries@[i].tests@ =~= tests_of_module(
                        orig_tests.take(orig_tests.len() - tests@.len()),
                        entries@[i].group.name@,
                    ),
                distinct_test_names(orig_tests.take(orig_tests.len() - tests@.len())),
            decreases tests@.len(),
        {
            let ghost k = orig_tests.len() - tests@.len();
            let ghost done = orig_tests.take(k as int);
            let ghost gnames = group_names(orig_groups);
            let t = tests.remove(0);
            proof {
                assert(t == orig_tests[k as int]);
                assert(tests@ =~= orig_tests.skip(k as int + 1));
                assert(orig_tests.take(k as int + 1) =~= done.push(t));
                reveal(Seq::filter);
            }
            match find_entry(&entries, t.module.as_str()) {
                Some(i) => {
                    if has_test_named(&entries[i].tests, t.name.as_str()) {
                        proof {
                            // the clashing earlier test is in the same module,
                            // so the registration list already held the pair
                            let ts_i = entries@[i as int].tests@;
                            let name_i = entries@[i as int].group.name@;
                            let p = choose|p: int|
                                0 <= p < ts_i.len() && ts_i[p].name@ == t.name@;
                            assert(ts_i[p].module@ == name_i);
                            lemma_filter_in_original(done, name_i, p);
                            let q = choose|q: int|
                                0 <= q < done.len() && done[q] == tests_of_module(done, name_i)[p];
                            assert(orig_tests[q] == done[q]);
                            assert(orig_tests[q].module@ == orig_tests[k as int].module@
                                && orig_tests[q].name@ == orig_tests[k as int].name@);
                            assert(!distinct_test_names(orig_tests));
                            assert(!registry_ok(self.groups@, self.tests@));
                            assert(exists|a: int, b: int|
                                0 <= a < b < self.tests@.len() && self.tests@[a].module@
                                    == self.tests@[b].module@ && self.tests@[a].name@
                                    == self.tests@[b].name@ && self.tests@[b].module@ == t.module@
                                    && self.tests@[b].name@ == t.name@) by {
                                assert(0 <= q < k);
                                assert(self.tests@[q].module@ == self.tests@[k as int].module@
                                    && self.tests@[q].name@ == self.tests@[k as int].name@
                                    && self.tests@[k as int].module@ == t.module@
                                    && self.tests@[k as int].name@ == t.name@);
                            }
                        }
                        return Err(ConfigError::DuplicateTest(t.module, t.name));
                    }
                    let ghost pre_entries = entries@;
                    let ghost old_tests_i = entries@[i as int].tests@;
                    let mut e = entries.remove(i);
                    e.tests.push(t);
                    let ghost e_new = e;
                    entries.insert(i, e);
                    proof {
                        reveal(Seq::filter);
                        lemma_extra_modules_push(done, gnames, t);
                        // the module already has an entry, so it is a known name
                        assert(gnames.contains(t.module@) || extra_modules(done, gnames).contains(
                            t.module@,
                        )) by {
                            if i < n_declared {
                                assert(gnames[i as int] == t.module@);
                            } else {
                                assert(extra_modules(done, gnames)[i - n_declared] == t.module@);
                            }
                        }
                        assert(entries@ =~= pre_entries.update(i as int, e_new));
                        assert(e_new.tests@ =~= old_tests_i.push(t));
                        assert(e_new.group == pre_entries[i as int].group);
                        assert forall|q: int| 0 <= q < entries@.len() implies entries@[q].tests@
                            =~= tests_of_module(done.push(t), entries@[q].group.name@) by {
                            reveal(Seq::filter);
                            assert(done.push(t).drop_last() =~= done);
                            assert(done.push(t).last() == t);
                            if q != i {
                                assert(entries@[q] == pre_entries[q]);
                                assert(entries@[q].group.name@ != t.module@);
                            } else {
                                assert(old_tests_i =~= tests_of_module(done, t.module@));
                            }
                        }
                        // no earlier test shares the new test's identity: all
                        // tests of its module sit in entry `i`, and none of
                        // them carries its name
                        assert forall|q: int|
                            0 <= q < done.len() implies !(done[q].module@ == t.module@
                            && done[q].name@ == t.name@) by {
                            if done[q].module@ == t.module@ && done[q].name@ == t.name@ {
                                lemma_filter_keeps(done, t.module@, q);
                                let w = choose|w: int|
                                    0 <= w < tests_of_module(done, t.module@).len()
                                        && tests_of_module(done, t.module@)[w] == done[q];
                                assert(old_tests_i[w].name@ == t.name@);
                            }
                        }
                        lemma_distinct_push(done, t);
                    }
                },
                None => {
                    proof {
                        lemma_extra_modules_push(done, gnames, t);
                        assert(!gnames.contains(t.module@)) by {
                            if gnames.contains(t.module@) {
                                let w = choose|w: int|
                                    0 <= w < gnames.len() && gnames[w] == t.module@;
                                assert(entries@[w].group.name@ == t.module@);
                            }
                        }
                        assert(!extra_modules(done, gnames).contains(t.module@)) by {
                            if extra_modules(done, gnames).contains(t.module@) {
                                let w = choose|w: int|
                                    0 <= w < extra_modules(done, gnames).len() && extra_modules(
                                        done,
                                        gnames,
                                    )[w] == t.module@;
                                assert(entries@[n_declared + w].group.name@ == t.module@);
                            }
                        }
                    }
                    let name_copy = clone_string(&t.module);
                    let fresh = TestGroup {
                        name: name_copy,
                        before: None,
                        after: None,
                        before_each: None,
                        after_each: None,
                        suite: false,
                    };
                    let mut tv: Vec<TestCase> = Vec::new();
                    tv.push(t);
                    entries.push(GroupEntry { group: fresh, tests: tv });
                    proof {
                        reveal(Seq::filter);
                        assert(done.push(t).drop_last() =~= done);
                        assert(tests_of_module(done, t.module@) =~= Seq::<TestCase>::empty()) by {
                            lemma_filter_empty_when_absent(done, t.module@, gnames);
                        }
                        assert forall|q: int| 0 <= q < entries@.len() implies entries@[q].tests@
                            =~= tests_of_module(done.push(t), entries@[q].group.name@) by {
                            reveal(Seq::filter);
                            assert(done.push(t).last() == t);
                            if q + 1 < entries@.len() {
                                assert(entries@[q].group.name@ != t.module@);
                                assert(entries@[q].tests@ =~= tests_of_module(
                                    done,
                                    entries@[q].group.name@,
                                ));
                            }
                        }
                        assert forall|q: int|
                            0 <= q < done.len() implies !(done[q].module@ == t.module@
                            && done[q].name@ == t.name@) by {
                            if done[q].module@ == t.module@ {
                                lemma_filter_keeps(done, t.module@, q);
                            }
                        }
                        lemma_distinct_push(done, t);
                    }
                },
            }
        }
        proof {
            assert(orig_tests.take(orig_tests.len() as int) =~= orig_tests);
        }

        // Phase 3: check every entry's declared context consumption against
        // what the entry produces.
        let mut e: usize = 0;
        while e < entries.len()
            invariant
                orig_groups == self.groups@,
                orig_tests == self.tests@,
                entries@.len() == n_declared + extra_modules(orig_tests, group_names(orig_groups)).len(),
                n_declared == orig_groups.len(),
                e <= entries@.len(),
                forall|i: int|
                    0 <= i < n_declared ==> entries@[i].group == orig_groups[i],
                forall|i: int|
                    n_declared <= i < entries@.len() ==> {
                        &&& entries@[i].group.name@ == extra_modules(
                            orig_tests,
                            group_names(orig_groups),
                        )[i - n_declared]
                        &&& entries@[i].group.before is None
                        &&& entries@[i].group.after is None
                        &&& entries@[i].group.before_each is None
                        &&& entries@[i].group.after_each is None
                        &&& entries@[i].group.suite == false
                    },
                forall|i: int, j: int|
                    0 <= i < j < entries@.len() ==> entries@[i].group.name@ != entries@[
                        j
                    ].group.name@,
                forall|i: int|
                    0 <= i < entries@.len() ==> entries@[i].tests@ =~= tests_of_module(
                        orig_tests,
                        entries@[i].group.name@,
                    ),
                distinct_test_names(orig_tests),
                forall|i: int|
                    0 <= i < e ==> entry_ctx_ok(entries@[i].group, entries@[i].tests@),
            decreases entries@.len() - e,
        {
            let h_needs_shared = opt_needs_shared(&entries[e].group.after) || opt_needs_shared(
                &entries[e].group.before_each,
            ) || opt_needs_shared(&entries[e].group.after_each);
            let t_needs_shared = any_test_needs_shared(&entries[e].tests);
            let has_shared = match &entries[e].group.before {
                Some(h) => h.produces_shared,
                None => false,
            };
            if (h_needs_shared || t_needs_shared) && !has_shared {
                proof {
                    lemma_ctx_violation_refutes(
                        entries@,
                        orig_groups,
                        orig_tests,
                        n_declared,
                        e as int,
                    );
                }
                return Err(ConfigError::MissingSharedContext(clone_string(&entries[e].group.name)));
            }
            let h_needs_owned = match &entries[e].group.after_each {
                Some(h) => h.needs_owned,
                None => false,
            };
            let t_needs_owned = any_test_needs_owned(&entries[e].tests);
            let has_owned = match &entries[e].group.before_each {
                Some(h) => h.produces_owned,
                None => false,
            };
            if (h_needs_owned || t_needs_owned) && !has_owned {
                proof {
                    lemma_ctx_violation_refutes(
                        entries@,
                        orig_groups,
                        orig_tests,
                        n_declared,
                        e as int,
                    );
                }
                return Err(ConfigError::MissingOwnedContext(clone_string(&entries[e].group.name)));
            }
            e = e + 1;
        }

        proof {
            lemma_entries_imply_registry_ok(entries@, orig_groups, orig_tests, n_declared);
            assert forall|q: int, a: int, b: int|
                0 <= q < entries@.len() && 0 <= a < b < entries@[q].tests@.len() implies entries@[
                q
            ].tests@[a].name@ != entries@[q].tests@[b].name@ by {
                lemma_filter_distinct(orig_tests, entries@[q].group.name@);
            }
        }
        Ok(Suite { entries, suite_hooks })
    }
}

/// A member of a filtered test list is a member of the original list.
proof fn lemma_filter_in_original(ts: Seq<TestCase>, name: Seq<char>, p: int)
    requires
        0 <= p < tests_of_module(ts, name).len(),
    ensures
        exists|q: int|
            0 <= q < ts.len() && ts[q] == tests_of_module(ts, name)[p],
    decreases ts.len(),
{
    reveal(Seq::filter);
    if ts.len() > 0 {
        if p < tests_of_module(ts.drop_last(), name).len() {
            lemma_filter_in_original(ts.drop_last(), name, p);
            let q = choose|q: int|
                0 <= q < ts.drop_last().len() && ts.drop_last()[q] == tests_of_module(
                    ts.drop_last(),
                    name,
                )[p];
            assert(tests_of_module(ts, name)[p] == tests_of_module(ts.drop_last(), name)[p]);
            assert(ts[q] == tests_of_module(ts, name)[p]);
        } else {
            assert(ts.last().module@ == name && tests_of_module(ts, name)[p] == ts.last());
            assert(ts[ts.len() - 1] == tests_of_module(ts, name)[p]);
        }
    }
}

/// A module with no entry so far has no tests so far.
proof fn lemma_filter_empty_when_absent(ts: Seq<TestCase>, name: Seq<char>, gnames: Seq<Seq<char>>)
    requires
        !gnames.contains(name),
        !extra_modules(ts, gnames).contains(name),
    ensures
        tests_of_module(ts, name) =~= Seq::<TestCase>::empty(),
    decreases ts.len(),
{
    reveal(Seq::filter);
    if ts.len() > 0 {
        assert(ts.drop_last().push(ts.last()) =~= ts);
        lemma_extra_modules_push(ts.drop_last(), gnames, ts.last());
        assert(!extra_modules(ts.drop_last(), gnames).contains(name)) by {
            if extra_modules(ts.drop_last(), gnames).contains(name) {
                let w = choose|w: int|
                    0 <= w < extra_modules(ts.drop_last(), gnames).len() && extra_modules(
                        ts.drop_last(),
                        gnames,
                    )[w] == name;
                assert(extra_modules(ts, gnames)[w] == name);
            }
        }
        if ts.last().module@ == name {
            if !gnames.contains(name) && !extra_modules(ts.drop_last(), gnames).contains(name) {
                assert(extra_modules(ts, gnames).last() == name);
            }
            assert(false);
        }
        lemma_filter_empty_when_absent(ts.drop_last(), name, gnames);
    }
}

/// Pushing a test with a fresh (module, name) identity keeps the identities
/// distinct.
proof fn lemma_distinct_push(ts: Seq<TestCase>, t: TestCase)
    requires
        distinct_test_names(ts),
        forall|i: int|
            0 <= i < ts.len() ==> !(ts[i].module@ == t.module@ && ts[i].name@ == t.name@),
    ensures
        distinct_test_names(ts.push(t)),
{
    assert forall|i: int, j: int| 0 <= i < j < ts.push(t).len() implies !(ts.push(t)[i].module@
        == ts.push(t)[j].module@ && ts.push(t)[i].name@ == ts.push(t)[j].name@) by {
        if j < ts.len() {
            assert(ts.push(t)[i] == ts[i]);
            assert(ts.push(t)[j] == ts[j]);
        } else {
            assert(ts.push(t)[i] == ts[i]);
            assert(ts.push(t)[j] == t);
        }
    }
}

/// From the final loop invariants, the registered declarations were
/// acceptable.
proof fn lemma_entries_imply_registry_ok(
    entries: Seq<GroupEntry>,
    groups: Seq<TestGroup>,
    ts: Seq<TestCase>,
    n_declared: int,
)
    requires
        n_declared == groups.len(),
        entries.len() == n_declared + extra_modules(ts, group_names(groups)).len(),
        forall|i: int| 0 <= i < n_declared ==> entries[i].group == groups[i],
        forall|i: int|
            n_declared <= i < entries.len() ==> entries[i].group.name@ == extra_modules(
                ts,
                group_names(groups),
            )[i - n_declared] && entries[i].group.before is None && entries[i].group.before_each is None
                && entries[i].group.after is None && entries[i].group.after_each is None,
        forall|i: int, j: int|
            0 <= i < j < entries.len() ==> entries[i].group.name@ != entries[j].group.name@,
        forall|i: int|
            0 <= i < entries.len() ==> entries[i].tests@ =~= tests_of_module(
                ts,
                entries[i].group.name@,
            ),
        distinct_test_names(ts),
        forall|i: int| 0 <= i < entries.len() ==> entry_ctx_ok(entries[i].group, entries[i].tests@),
    ensures
        registry_ok(groups, ts),
{
    assert(distinct_group_names(groups)) by {
        assert forall|i: int, j: int| 0 <= i < j < groups.len() implies groups[i].name@
            != groups[j].name@ by {
            assert(entries[i].group == groups[i]);
            assert(entries[j].group == groups[j]);
        }
    }
    assert forall|j: int|
        0 <= j < ts.len() && (ts[j].needs_shared || ts[j].needs_owned) implies exists|i: int|
        0 <= i < groups.len() && groups[i].name@ == ts[j].module@ by {
        lemma_every_module_has_entry(entries, groups, ts, n_declared, j);
        let e = choose|e: int|
            0 <= e < entries.len() && entries[e].group.name@ == ts[j].module@;
        if e >= n_declared {
            // the entry is hook-less, so a needing test would have failed
            // the context check
            assert(entries[e].tests@ =~= tests_of_module(ts, ts[j].module@));
            lemma_filter_keeps(ts, ts[j].module@, j);
            assert(entry_ctx_ok(entries[e].group, entries[e].tests@));
            assert(!provides_shared(entries[e].group));
            assert(!provides_owned(entries[e].group));
            assert(false);
        } else {
            assert(groups[e].name@ == ts[j].module@);
        }
    }
    assert forall|i: int| 0 <= i < groups.len() implies entry_ctx_ok(
        groups[i],
        tests_of_module(ts, groups[i].name@),
    ) by {
        assert(entries[i].group == groups[i]);
        assert(entries[i].tests@ =~= tests_of_module(ts, groups[i].name@));
    }
}

/// Every test's module has an entry.
proof fn lemma_every_module_has_entry(
    entries: Seq<GroupEntry>,
    groups: Seq<TestGroup>,
    ts: Seq<TestCase>,
    n_declared: int,
    j: int,
)
    requires
        0 <= j < ts.len(),
        n_declared == groups.len(),
        entries.len() == n_declared + extra_modules(ts, group_names(groups)).len(),
        forall|i: int| 0 <= i < n_declared ==> entries[i].group == groups[i],
        forall|i: int|
            n_declared <= i < entries.len() ==> entries[i].group.name@ == extra_modules(
                ts,
                group_names(groups),
            )[i - n_declared],
    ensures
        exists|e: int| 0 <= e < entries.len() && entries[e].group.name@ == ts[j].module@,
{
    let gnames = group_names(groups);
    lemma_module_seen_or_extra(ts, gnames, j);
    if gnames.contains(ts[j].module@) {
        let w = choose|w: int| 0 <= w < gnames.len() && gnames[w] == ts[j].module@;
        assert(entries[w].group.name@ == ts[j].module@);
    } else {
        let w = choose|w: int|
            0 <= w < extra_modules(ts, gnames).len() && extra_modules(ts, gnames)[w] == ts[
                j
            ].module@;
        assert(entries[n_declared + w].group.name@ == ts[j].module@);
    }
}

/// Each test's module is either among the seen names or among the extras.
proof fn lemma_module_seen_or_extra(ts: Seq<TestCase>, seen: Seq<Seq<char>>, j: int)
    requires
        0 <= j < ts.len(),
    ensures
        seen.contains(ts[j].module@) || extra_modules(ts, seen).contains(ts[j].module@),
    decreases ts.len(),
{
    if j == 0 {
        if !seen.contains(ts[0].module@) {
            assert(extra_modules(ts, seen)[0] == ts[0].module@);
        }
    } else {
        if seen.contains(ts[0].module@) {
            lemma_module_seen_or_extra(ts.drop_first(), seen, j - 1);
        } else {
            let seen2 = seen.push(ts[0].module@);
            lemma_module_seen_or_extra(ts.drop_first(), seen2, j - 1);
            let tail = extra_modules(ts.drop_first(), seen2);
            assert(extra_modules(ts, seen) =~= seq![ts[0].module@] + tail);
            if seen2.contains(ts[j].module@) {
                if !seen.contains(ts[j].module@) {
                    assert(ts[j].module@ == ts[0].module@);
                    assert(extra_modules(ts, seen)[0] == ts[j].module@);
                }
            } else {
                let w = choose|w: int| 0 <= w < tail.len() && tail[w] == ts[j].module@;
                assert(extra_modules(ts, seen)[w + 1] == ts[j].module@);
            }
        }
    }
}

/// A test stays in the filtered list of its own module.
proof fn lemma_filter_keeps(ts: Seq<TestCase>, name: Seq<char>, j: int)
    requires
        0 <= j < ts.len(),
        ts[j].module@ == name,
    ensures
        tests_of_module(ts, name).contains(ts[j]),
    decreases ts.len(),
{
    reveal(Seq::filter);
    if j == ts.len() - 1 {
        assert(tests_of_module(ts, name).last() == ts[j]);
    } else {
        lemma_filter_keeps(ts.drop_last(), name, j);
        assert(ts.drop_last()[j] == ts[j]);
        let w = choose|w: int|
            0 <= w < tests_of_module(ts.drop_last(), name).len() && tests_of_module(
                ts.drop_last(),
                name,
            )[w] == ts[j];
        assert(tests_of_module(ts, name)[w] == ts[j]);
    }
}

/// Distinct test identities stay distinct after keeping one module: all
/// kept tests share the module, so their names must differ.
proof fn lemma_filter_distinct(ts: Seq<TestCase>, name: Seq<char>)
    requires
        distinct_test_names(ts),
    ensures
        forall|a: int, b: int|
            0 <= a < b < tests_of_module(ts, name).len() ==> tests_of_module(ts, name)[a].name@
                != tests_of_module(ts, name)[b].name@,
    decreases ts.len(),
{
    reveal(Seq::filter);
    if ts.len() > 0 {
        assert(distinct_test_names(ts.drop_last())) by {
            assert forall|i: int, j: int|
                0 <= i < j < ts.drop_last().len() implies !(ts.drop_last()[i].module@
                == ts.drop_last()[j].module@ && ts.drop_last()[i].name@ == ts.drop_last()[
                j
            ].name@) by {
                assert(ts.drop_last()[i] == ts[i]);
                assert(ts.drop_last()[j] == ts[j]);
            }
        }
        lemma_filter_distinct(ts.drop_last(), name);
        let fdrop = tests_of_module(ts.drop_last(), name);
        assert forall|a: int, b: int|
            0 <= a < b < tests_of_module(ts, name).len() implies tests_of_module(
            ts,
            name,
        )[a].name@ != tests_of_module(ts, name)[b].name@ by {
            if b < fdrop.len() {
                assert(tests_of_module(ts, name)[a] == fdrop[a]);
                assert(tests_of_module(ts, name)[b] == fdrop[b]);
            } else {
                // b is the appended last element; a comes from an earlier
                // position of ts with the same module, so names differ
                assert(ts.last().module@ == name);
                assert(tests_of_module(ts, name)[b] == ts.last());
                assert(tests_of_module(ts, name)[a] == fdrop[a]);
                lemma_filter_in_original(ts.drop_last(), name, a);
                let q = choose|q: int|
                    0 <= q < ts.drop_last().len() && ts.drop_last()[q] == fdrop[a];
                assert(ts[q] == fdrop[a]);
                assert(fdrop[a].module@ == name) by {
                    broadcast use vstd::seq_lib::group_filter_ensures;

                }
                assert(!(ts[q].module@ == ts[ts.len() - 1].module@ && ts[q].name@ == ts[ts.len()
                    - 1].name@));
            }
        }
    }
}

/// The extra modules are exactly the ones not already seen.
proof fn lemma_extras_not_seen(ts: Seq<TestCase>, seen: Seq<Seq<char>>)
    ensures
        forall|w: int|
            0 <= w < extra_modules(ts, seen).len() ==> !seen.contains(
                extra_modules(ts, seen)[w],
            ),
    decreases ts.len(),
{
    if ts.len() > 0 {
        if seen.contains(ts[0].module@) {
            lemma_extras_not_seen(ts.drop_first(), seen);
            assert forall|w: int|
                0 <= w < extra_modules(ts, seen).len() implies !seen.contains(
                extra_modules(ts, seen)[w],
            ) by {
                assert(extra_modules(ts, seen)[w] == extra_modules(ts.drop_first(), seen)[w]);
            }
        } else {
            let seen2 = seen.push(ts[0].module@);
            lemma_extras_not_seen(ts.drop_first(), seen2);
            let tail = extra_modules(ts.drop_first(), seen2);
            assert forall|w: int|
                0 <= w < extra_modules(ts, seen).len() implies !seen.contains(
                extra_modules(ts, seen)[w],
            ) by {
                if w > 0 {
                    assert(extra_modules(ts, seen)[w] == tail[w - 1]);
                    assert(!seen2.contains(tail[w - 1]));
                    if seen.contains(tail[w - 1]) {
                        let u = choose|u: int| 0 <= u < seen.len() && seen[u] == tail[w - 1];
                        assert(seen2[u] == tail[w - 1]);
                    }
                }
            }
        }
    }
}

/// A context violation in any compiled entry refutes acceptability of the
/// registered declarations.
proof fn lemma_ctx_violation_refutes(
    entries: Seq<GroupEntry>,
    groups: Seq<TestGroup>,
    ts: Seq<TestCase>,
    n_declared: int,
    e: int,
)
    requires
        0 <= e < entries.len(),
        n_declared == groups.len(),
        entries.len() == n_declared + extra_modules(ts, group_names(groups)).len(),
        forall|i: int| 0 <= i < n_declared ==> entries[i].group == groups[i],
        forall|i: int|
            n_declared <= i < entries.len() ==> entries[i].group.name@ == extra_modules(
                ts,
                group_names(groups),
            )[i - n_declared] && entries[i].group.before is None && entries[i].group.before_each is None
                && entries[i].group.after is None && entries[i].group.after_each is None,
        forall|i: int|
            0 <= i < entries.len() ==> entries[i].tests@ =~= tests_of_module(
                ts,
                entries[i].group.name@,
            ),
        !entry_ctx_ok(entries[e].group, entries[e].tests@),
    ensures
        !registry_ok(groups, ts),
{
    broadcast use vstd::seq_lib::group_filter_ensures;

    if e < n_declared {
        assert(entries[e].group == groups[e]);
        assert(!entry_ctx_ok(groups[e], tests_of_module(ts, groups[e].name@)));
    } else {
        // a hook-less entry can only violate through a needing test
        let g = entries[e].group;
        let name = g.name@;
        assert(!hooks_need_shared(g));
        assert(!hooks_need_owned(g));
        let ets = entries[e].tests@;
        assert(tests_need_shared(ets) || tests_need_owned(ets));
        let p = choose|p: int| 0 <= p < ets.len() && (ets[p].needs_shared || ets[p].needs_owned);
        assert(ets[p].module@ == name) by {
            assert(ets =~= tests_of_module(ts, name));
            assert(tests_of_module(ts, name)[p] == ets[p]);
        }
        lemma_filter_in_original(ts, name, p);
        let q = choose|q: int| 0 <= q < ts.len() && ts[q] == tests_of_module(ts, name)[p];
        assert(ts[q] == ets[p]);
        lemma_extras_not_seen(ts, group_names(groups));
        assert(!group_names(groups).contains(name));
        if registry_ok(groups, ts) {
            let w = choose|w: int| 0 <= w < groups.len() && groups[w].name@ == ts[q].module@;
            assert(group_names(groups)[w] == name);
            assert(false);
        }
    }
}

} // verus!
