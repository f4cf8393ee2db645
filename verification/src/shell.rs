//! The shell-state engine: the pending environment mutation of one prompt
//! cycle, and the rendering of that mutation as a shell command script,
//! plus the bash and zsh hook templates.

use crate::env::{Env, EnvView};
use crate::strutil::{chars_of, split_windows, str_eq, string_from_range, windows_view};
use vstd::prelude::*;

verus! {

#[verifier::ext_equal]
pub struct ShellStateView {
    pub add_path: Seq<Seq<char>>,
    pub remove_path: Seq<Seq<char>>,
    pub set_var: Seq<(Seq<char>, Seq<char>)>,
    pub unset_var: Seq<Seq<char>>,
}

/// Pending shell mutations: variables to set or unset, PATH entries to add
/// or remove.  The set/unset keys are disjoint, as are the add/remove
/// entries; each list is duplicate-free.
#[derive(Debug)]
pub struct ShellState {
    pub add_path: Vec<String>,
    pub remove_path: Vec<String>,
    pub set_var: Vec<(String, String)>,
    pub unset_var: Vec<String>,
}

pub open spec fn names_of(vs: Seq<(Seq<char>, Seq<char>)>) -> Seq<Seq<char>> {
    vs.map_values(|e: (Seq<char>, Seq<char>)| e.0)
}

pub open spec fn shell_wf(v: ShellStateView) -> bool {
    &&& (forall|i: int, j: int|
        0 <= i < j < v.add_path.len() ==> (#[trigger] v.add_path[i]) != (#[trigger] v.add_path[j]))
    &&& (forall|i: int, j: int|
        0 <= i < j < v.remove_path.len() ==> (#[trigger] v.remove_path[i])
            != (#[trigger] v.remove_path[j]))
    &&& (forall|i: int, j: int|
        0 <= i < j < v.set_var.len() ==> (#[trigger] v.set_var[i]).0
            != (#[trigger] v.set_var[j]).0)
    &&& (forall|i: int, j: int|
        0 <= i < j < v.unset_var.len() ==> (#[trigger] v.unset_var[i])
            != (#[trigger] v.unset_var[j]))
    &&& (forall|i: int| 0 <= i < v.add_path.len() ==> !v.remove_path.contains(#[trigger] v.add_path[i]))
    &&& (forall|i: int|
        0 <= i < v.set_var.len() ==> !v.unset_var.contains((#[trigger] v.set_var[i]).0))
}

impl View for ShellState {
    type V = ShellStateView;

    open spec fn view(&self) -> ShellStateView {
        ShellStateView {
            add_path: crate::env::paths_view(self.add_path@),
            remove_path: crate::env::paths_view(self.remove_path@),
            set_var: crate::env::vars_view(self.set_var@),
            unset_var: crate::env::paths_view(self.unset_var@),
        }
    }
}

/// Remove the first entry equal to `k` (under no-duplicate well-formedness
/// this removes every occurrence).
pub open spec fn spec_remove_entry(s: Seq<Seq<char>>, k: Seq<char>) -> Seq<Seq<char>>
    decreases s.len(),
{
    if s.len() == 0 {
        s
    } else if s[0] == k {
        s.drop_first()
    } else {
        seq![s[0]] + spec_remove_entry(s.drop_first(), k)
    }
}

/// Remove the first pair whose key is `k`.
pub open spec fn spec_remove_var(
    vs: Seq<(Seq<char>, Seq<char>)>,
    k: Seq<char>,
) -> Seq<(Seq<char>, Seq<char>)>
    decreases vs.len(),
{
    if vs.len() == 0 {
        vs
    } else if vs[0].0 == k {
        vs.drop_first()
    } else {
        seq![vs[0]] + spec_remove_var(vs.drop_first(), k)
    }
}

/// Replace the value of an existing key in place, or append the pair.
pub open spec fn spec_put_var(
    vs: Seq<(Seq<char>, Seq<char>)>,
    k: Seq<char>,
    v: Seq<char>,
) -> Seq<(Seq<char>, Seq<char>)>
    decreases vs.len(),
{
    if vs.len() == 0 {
        seq![(k, v)]
    } else if vs[0].0 == k {
        seq![(k, v)] + vs.drop_first()
    } else {
        seq![vs[0]] + spec_put_var(vs.drop_first(), k, v)
    }
}

/// Append `e` unless present.
pub open spec fn spec_put_entry(s: Seq<Seq<char>>, e: Seq<char>) -> Seq<Seq<char>> {
    if s.contains(e) {
        s
    } else {
        s.push(e)
    }
}

/// Queueing a variable assignment: evict the key from the unset list and
/// bind it in the set list.
pub open spec fn spec_state_set(v: ShellStateView, k: Seq<char>, val: Seq<char>) -> ShellStateView {
    ShellStateView {
        unset_var: spec_remove_entry(v.unset_var, k),
        set_var: spec_put_var(v.set_var, k, val),
        ..v
    }
}

/// Queueing an unset: evict the key from the set list and record it.
pub open spec fn spec_state_unset(v: ShellStateView, k: Seq<char>) -> ShellStateView {
    ShellStateView {
        set_var: spec_remove_var(v.set_var, k),
        unset_var: spec_put_entry(v.unset_var, k),
        ..v
    }
}

pub open spec fn spec_state_add_path(v: ShellStateView, e: Seq<char>) -> ShellStateView {
    ShellStateView {
        remove_path: spec_remove_entry(v.remove_path, e),
        add_path: spec_put_entry(v.add_path, e),
        ..v
    }
}

pub open spec fn spec_state_remove_path(v: ShellStateView, e: Seq<char>) -> ShellStateView {
    ShellStateView {
        add_path: spec_remove_entry(v.add_path, e),
        remove_path: spec_put_entry(v.remove_path, e),
        ..v
    }
}

/// Applying an environment queues a set for every variable and an added
/// PATH entry for every entry, in order.
pub open spec fn spec_state_apply(v: ShellStateView, e: EnvView) -> ShellStateView
    decreases e.vars.len() + e.path.len(),
{
    if e.vars.len() > 0 {
        spec_state_apply(
            spec_state_set(v, e.vars[0].0, e.vars[0].1),
            EnvView { vars: e.vars.drop_first(), ..e },
        )
    } else if e.path.len() > 0 {
        spec_state_apply(
            spec_state_add_path(v, e.path[0]),
            EnvView { path: e.path.drop_first(), ..e },
        )
    } else {
        v
    }
}

/// Reverting an environment queues an unset for every variable and a
/// removed PATH entry for every entry, in order.
pub open spec fn spec_state_revert(v: ShellStateView, e: EnvView) -> ShellStateView
    decreases e.vars.len() + e.path.len(),
{
    if e.vars.len() > 0 {
        spec_state_revert(
            spec_state_unset(v, e.vars[0].0),
            EnvView { vars: e.vars.drop_first(), ..e },
        )
    } else if e.path.len() > 0 {
        spec_state_revert(
            spec_state_remove_path(v, e.path[0]),
            EnvView { path: e.path.drop_first(), ..e },
        )
    } else {
        v
    }
}

pub open spec fn empty_shell_state() -> ShellStateView {
    ShellStateView {
        add_path: Seq::empty(),
        remove_path: Seq::empty(),
        set_var: Seq::empty(),
        unset_var: Seq::empty(),
    }
}

pub open spec fn shell_state_is_empty(v: ShellStateView) -> bool {
    v.add_path.len() == 0 && v.remove_path.len() == 0 && v.set_var.len() == 0
        && v.unset_var.len() == 0
}

fn remove_string(list: &mut Vec<String>, k: &str)
    ensures
        crate::env::paths_view(final(list)@) == spec_remove_entry(
            crate::env::paths_view(old(list)@),
            k@,
        ),
{
    let ghost s = crate::env::paths_view(list@);
    let mut i: usize = 0;
    while i < list.len()
        invariant
            list@ == old(list)@,
            s == crate::env::paths_view(list@),
            i <= list.len(),
            forall|j: int| 0 <= j < i ==> (#[trigger] s[j]) != k@,
        decreases list.len() - i,
    {
        if str_eq(list[i].as_str(), k) {
            proof {
                lemma_remove_entry_at(s, k@, i as int);
            }
            list.remove(i);
            proof {
                assert(crate::env::paths_view(list@) =~= s.remove(i as int));
            }
            return ;
        }
        i = i + 1;
    }
    proof {
        lemma_remove_entry_absent(s, k@);
    }
}

fn remove_var_entry(list: &mut Vec<(String, String)>, k: &str)
    ensures
        crate::env::vars_view(final(list)@) == spec_remove_var(
            crate::env::vars_view(old(list)@),
            k@,
        ),
{
    let ghost s = crate::env::vars_view(list@);
    let mut i: usize = 0;
    while i < list.len()
        invariant
            list@ == old(list)@,
            s == crate::env::vars_view(list@),
            i <= list.len(),
            forall|j: int| 0 <= j < i ==> (#[trigger] s[j]).0 != k@,
        decreases list.len() - i,
    {
        if str_eq(list[i].0.as_str(), k) {
            proof {
                lemma_remove_var_at(s, k@, i as int);
            }
            list.remove(i);
            proof {
                assert(crate::env::vars_view(list@) =~= s.remove(i as int));
            }
            return ;
        }
        i = i + 1;
    }
    proof {
        lemma_remove_var_absent(s, k@);
    }
}

proof fn lemma_remove_entry_at(s: Seq<Seq<char>>, k: Seq<char>, i: int)
    requires
        0 <= i < s.len(),
        s[i] == k,
        forall|j: int| 0 <= j < i ==> (#[trigger] s[j]) != k,
    ensures
        spec_remove_entry(s, k) == s.remove(i),
    decreases s.len(),
{
    if i == 0 {
        assert(s.drop_first() =~= s.remove(0));
    } else {
        assert(forall|j: int|
            0 <= j < s.drop_first().len() ==> (#[trigger] s.drop_first()[j]) == s[j + 1]);
        lemma_remove_entry_at(s.drop_first(), k, i - 1);
        assert(seq![s[0]] + s.drop_first().remove(i - 1) =~= s.remove(i));
    }
}

proof fn lemma_remove_entry_absent(s: Seq<Seq<char>>, k: Seq<char>)
    requires
        forall|j: int| 0 <= j < s.len() ==> (#[trigger] s[j]) != k,
    ensures
        spec_remove_entry(s, k) == s,
    decreases s.len(),
{
    if s.len() > 0 {
        assert(forall|j: int|
            0 <= j < s.drop_first().len() ==> (#[trigger] s.drop_first()[j]) == s[j + 1]);
        lemma_remove_entry_absent(s.drop_first(), k);
        assert(seq![s[0]] + s.drop_first() =~= s);
    }
}

proof fn lemma_remove_var_at(s: Seq<(Seq<char>, Seq<char>)>, k: Seq<char>, i: int)
    requires
        0 <= i < s.len(),
        s[i].0 == k,
        forall|j: int| 0 <= j < i ==> (#[trigger] s[j]).0 != k,
    ensures
        spec_remove_var(s, k) == s.remove(i),
    decreases s.len(),
{
    if i == 0 {
        assert(s.drop_first() =~= s.remove(0));
    } else {
        assert(forall|j: int|
            0 <= j < s.drop_first().len() ==> (#[trigger] s.drop_first()[j]) == s[j + 1]);
        lemma_remove_var_at(s.drop_first(), k, i - 1);
        assert(seq![s[0]] + s.drop_first().remove(i - 1) =~= s.remove(i));
    }
}

proof fn lemma_remove_var_absent(s: Seq<(Seq<char>, Seq<char>)>, k: Seq<char>)
    requires
        forall|j: int| 0 <= j < s.len() ==> (#[trigger] s[j]).0 != k,
    ensures
        spec_remove_var(s, k) == s,
    decreases s.len(),
{
    if s.len() > 0 {
        assert(forall|j: int|
            0 <= j < s.drop_first().len() ==> (#[trigger] s.drop_first()[j]) == s[j + 1]);
        lemma_remove_var_absent(s.drop_first(), k);
        assert(seq![s[0]] + s.drop_first() =~= s);
    }
}

proof fn lemma_put_var_at(s: Seq<(Seq<char>, Seq<char>)>, k: Seq<char>, v: Seq<char>, i: int)
    requires
        0 <= i < s.len(),
        s[i].0 == k,
        forall|j: int| 0 <= j < i ==> (#[trigger] s[j]).0 != k,
    ensures
        spec_put_var(s, k, v) == s.update(i, (k, v)),
    decreases s.len(),
{
    if i == 0 {
        assert(seq![(k, v)] + s.drop_first() =~= s.update(0, (k, v)));
    } else {
        assert(forall|j: int|
            0 <= j < s.drop_first().len() ==> (#[trigger] s.drop_first()[j]) == s[j + 1]);
        lemma_put_var_at(s.drop_first(), k, v, i - 1);
        assert(seq![s[0]] + s.drop_first().update(i - 1, (k, v)) =~= s.update(i, (k, v)));
    }
}

proof fn lemma_put_var_absent(s: Seq<(Seq<char>, Seq<char>)>, k: Seq<char>, v: Seq<char>)
    requires
        forall|j: int| 0 <= j < s.len() ==> (#[trigger] s[j]).0 != k,
    ensures
        spec_put_var(s, k, v) == s.push((k, v)),
    decreases s.len(),
{
    if s.len() == 0 {
        assert(seq![(k, v)] =~= s.push((k, v)));
    } else {
        assert(forall|j: int|
            0 <= j < s.drop_first().len() ==> (#[trigger] s.drop_first()[j]) == s[j + 1]);
        lemma_put_var_absent(s.drop_first(), k, v);
        assert(seq![s[0]] + s.drop_first().push((k, v)) =~= s.push((k, v)));
    }
}

impl ShellState {
    pub fn new() -> (r: ShellState)
        ensures
            r@ == empty_shell_state(),
            shell_wf(r@),
    {
        let r = ShellState {
            add_path: Vec::new(),
            remove_path: Vec::new(),
            set_var: Vec::new(),
            unset_var: Vec::new(),
        };
        proof {
            assert(r@.add_path =~= empty_shell_state().add_path);
            assert(r@.remove_path =~= empty_shell_state().remove_path);
            assert(r@.set_var =~= empty_shell_state().set_var);
            assert(r@.unset_var =~= empty_shell_state().unset_var);
        }
        r
    }

    /// Queue setting `key` to `value`; the key stops being pending-unset.
    #[verifier::loop_isolation(false)]
    pub fn set(&mut self, key: &str, value: &str)
        ensures
            final(self)@ == spec_state_set(old(self)@, key@, value@),
    {
        remove_string(&mut self.unset_var, key);
        let ghost vs = crate::env::vars_view(self.set_var@);
        let ghost mid_unset = crate::env::paths_view(self.unset_var@);
        let mut i: usize = 0;
        while i < self.set_var.len()
            invariant
                self.set_var@ == old(self).set_var@,
                self.add_path@ == old(self).add_path@,
                self.remove_path@ == old(self).remove_path@,
                crate::env::paths_view(self.unset_var@) == mid_unset,
                mid_unset == spec_remove_entry(
                    crate::env::paths_view(old(self).unset_var@),
                    key@,
                ),
                vs == crate::env::vars_view(self.set_var@),
                i <= self.set_var.len(),
                forall|j: int| 0 <= j < i ==> (#[trigger] vs[j]).0 != key@,
            decreases self.set_var.len() - i,
        {
            if str_eq(self.set_var[i].0.as_str(), key) {
                proof {
                    lemma_put_var_at(vs, key@, value@, i as int);
                }
                self.set_var.set(i, (key.to_owned(), value.to_owned()));
                proof {
                    assert(crate::env::vars_view(self.set_var@) =~~= vs.update(
                        i as int,
                        (key@, value@),
                    ));
                    assert(self@ =~~= spec_state_set(old(self)@, key@, value@));
                }
                return ;
            }
            i = i + 1;
        }
        proof {
            lemma_put_var_absent(vs, key@, value@);
        }
        self.set_var.push((key.to_owned(), value.to_owned()));
        proof {
            assert(crate::env::vars_view(self.set_var@) =~~= vs.push((key@, value@)));
            assert(self@ =~~= spec_state_set(old(self)@, key@, value@));
        }
    }

    /// Queue unsetting `key`; the key stops being pending-set.
    #[verifier::loop_isolation(false)]
    pub fn unset(&mut self, key: &str)
        ensures
            final(self)@ == spec_state_unset(old(self)@, key@),
    {
        remove_var_entry(&mut self.set_var, key);
        let ghost us = crate::env::paths_view(self.unset_var@);
        let ghost mid_set = crate::env::vars_view(self.set_var@);
        let mut i: usize = 0;
        while i < self.unset_var.len()
            invariant
                self.unset_var@ == old(self).unset_var@,
                self.add_path@ == old(self).add_path@,
                self.remove_path@ == old(self).remove_path@,
                crate::env::vars_view(self.set_var@) == mid_set,
                mid_set == spec_remove_var(crate::env::vars_view(old(self).set_var@), key@),
                us == crate::env::paths_view(self.unset_var@),
                i <= self.unset_var.len(),
                forall|j: int| 0 <= j < i ==> (#[trigger] us[j]) != key@,
            decreases self.unset_var.len() - i,
        {
            if str_eq(self.unset_var[i].as_str(), key) {
                proof {
                    assert(us[i as int] == key@);
                    assert(us.contains(key@));
                    assert(self@ =~~= spec_state_unset(old(self)@, key@));
                }
                return ;
            }
            i = i + 1;
        }
        proof {
            if us.contains(key@) {
                let w = choose|w: int| 0 <= w < us.len() && us[w] == key@;
                assert(false);
            }
        }
        self.unset_var.push(key.to_owned());
        proof {
            assert(crate::env::paths_view(self.unset_var@) =~= us.push(key@));
            assert(self@ =~~= spec_state_unset(old(self)@, key@));
        }
    }

    /// Queue adding a PATH entry; it stops being pending-removed.
    #[verifier::loop_isolation(false)]
    pub fn add_path(&mut self, entry: &str)
        ensures
            final(self)@ == spec_state_add_path(old(self)@, entry@),
    {
        remove_string(&mut self.remove_path, entry);
        let ghost ap = crate::env::paths_view(self.add_path@);
        let ghost mid_rm = crate::env::paths_view(self.remove_path@);
        let mut i: usize = 0;
        while i < self.add_path.len()
            invariant
                self.add_path@ == old(self).add_path@,
                self.set_var@ == old(self).set_var@,
                self.unset_var@ == old(self).unset_var@,
                crate::env::paths_view(self.remove_path@) == mid_rm,
                mid_rm == spec_remove_entry(
                    crate::env::paths_view(old(self).remove_path@),
                    entry@,
                ),
                ap == crate::env::paths_view(self.add_path@),
                i <= self.add_path.len(),
                forall|j: int| 0 <= j < i ==> (#[trigger] ap[j]) != entry@,
            decreases self.add_path.len() - i,
        {
            if str_eq(self.add_path[i].as_str(), entry) {
                proof {
                    assert(ap[i as int] == entry@);
                    assert(ap.contains(entry@));
                    assert(self@ =~~= spec_state_add_path(old(self)@, entry@));
                }
                return ;
            }
            i = i + 1;
        }
        proof {
            if ap.contains(entry@) {
                let w = choose|w: int| 0 <= w < ap.len() && ap[w] == entry@;
                assert(false);
            }
        }
        self.add_path.push(entry.to_owned());
        proof {
            assert(crate::env::paths_view(self.add_path@) =~= ap.push(entry@));
            assert(self@ =~~= spec_state_add_path(old(self)@, entry@));
        }
    }

    /// Queue removing a PATH entry; it stops being pending-added.
    #[verifier::loop_isolation(false)]
    pub fn remove_path(&mut self, entry: &str)
        ensures
            final(self)@ == spec_state_remove_path(old(self)@, entry@),
    {
        remove_string(&mut self.add_path, entry);
        let ghost rp = crate::env::paths_view(self.remove_path@);
        let ghost mid_add = crate::env::paths_view(self.add_path@);
        let mut i: usize = 0;
        while i < self.remove_path.len()
            invariant
                self.remove_path@ == old(self).remove_path@,
                self.set_var@ == old(self).set_var@,
                self.unset_var@ == old(self).unset_var@,
                crate::env::paths_view(self.add_path@) == mid_add,
                mid_add == spec_remove_entry(crate::env::paths_view(old(self).add_path@), entry@),
                rp == crate::env::paths_view(self.remove_path@),
                i <= self.remove_path.len(),
                forall|j: int| 0 <= j < i ==> (#[trigger] rp[j]) != entry@,
            decreases self.remove_path.len() - i,
        {
            if str_eq(self.remove_path[i].as_str(), entry) {
                proof {
                    assert(rp[i as int] == entry@);
                    assert(rp.contains(entry@));
                    assert(self@ =~~= spec_state_remove_path(old(self)@, entry@));
                }
                return ;
            }
            i = i + 1;
        }
        proof {
            if rp.contains(entry@) {
                let w = choose|w: int| 0 <= w < rp.len() && rp[w] == entry@;
                assert(false);
            }
        }
        self.remove_path.push(entry.to_owned());
        proof {
            assert(crate::env::paths_view(self.remove_path@) =~= rp.push(entry@));
            assert(self@ =~~= spec_state_remove_path(old(self)@, entry@));
        }
    }

    /// Queue the application of a whole environment.
    #[verifier::loop_isolation(false)]
    pub fn apply(&mut self, env: &Env)
        ensures
            final(self)@ == spec_state_apply(old(self)@, env@),
    {
        let ghost e = env@;
        let mut i: usize = 0;
        proof {
            assert(EnvView { vars: e.vars.skip(0), ..e } =~~= e);
        }
        while i < env.vars.len()
            invariant
                e == env@,
                i <= env.vars.len(),
                spec_state_apply(old(self)@, e) == spec_state_apply(
                    self@,
                    EnvView { vars: e.vars.skip(i as int), ..e },
                ),
            decreases env.vars.len() - i,
        {
            proof {
                assert(e.vars.skip(i as int)[0] == e.vars[i as int]);
                assert(e.vars.skip(i as int).drop_first() =~= e.vars.skip(i + 1));
            }
            self.set(env.vars[i].0.as_str(), env.vars[i].1.as_str());
            i = i + 1;
        }
        proof {
            assert(e.vars.skip(env.vars@.len() as int) =~= Seq::<(Seq<char>, Seq<char>)>::empty());
        }
        let ghost evars_done = EnvView { vars: Seq::empty(), ..e };
        let mut q: usize = 0;
        proof {
            assert(EnvView { path: e.path.skip(0), ..evars_done } =~~= evars_done);
        }
        while q < env.path.len()
            invariant
                e == env@,
                evars_done == (EnvView { vars: Seq::empty(), ..e }),
                q <= env.path.len(),
                spec_state_apply(old(self)@, e) == spec_state_apply(
                    self@,
                    EnvView { path: e.path.skip(q as int), ..evars_done },
                ),
            decreases env.path.len() - q,
        {
            proof {
                assert(e.path.skip(q as int)[0] == e.path[q as int]);
                assert(e.path.skip(q as int).drop_first() =~= e.path.skip(q + 1));
            }
            self.add_path(env.path[q].as_str());
            q = q + 1;
        }
        proof {
            assert(e.path.skip(env.path@.len() as int) =~= Seq::<Seq<char>>::empty());
        }
    }

    /// Queue the reversal of a whole environment.
    #[verifier::loop_isolation(false)]
    pub fn revert(&mut self, env: &Env)
        ensures
            final(self)@ == spec_state_revert(old(self)@, env@),
    {
        let ghost e = env@;
        let mut i: usize = 0;
        proof {
            assert(EnvView { vars: e.vars.skip(0), ..e } =~~= e);
        }
        while i < env.vars.len()
            invariant
                e == env@,
                i <= env.vars.len(),
                spec_state_revert(old(self)@, e) == spec_state_revert(
                    self@,
                    EnvView { vars: e.vars.skip(i as int), ..e },
                ),
            decreases env.vars.len() - i,
        {
            proof {
                assert(e.vars.skip(i as int)[0] == e.vars[i as int]);
                assert(e.vars.skip(i as int).drop_first() =~= e.vars.skip(i + 1));
            }
            self.unset(env.vars[i].0.as_str());
            i = i + 1;
        }
        proof {
            assert(e.vars.skip(env.vars@.len() as int) =~= Seq::<(Seq<char>, Seq<char>)>::empty());
        }
        let ghost evars_done = EnvView { vars: Seq::empty(), ..e };
        let mut q: usize = 0;
        proof {
            assert(EnvView { path: e.path.skip(0), ..evars_done } =~~= evars_done);
        }
        while q < env.path.len()
            invariant
                e == env@,
                evars_done == (EnvView { vars: Seq::empty(), ..e }),
                q <= env.path.len(),
                spec_state_revert(old(self)@, e) == spec_state_revert(
                    self@,
                    EnvView { path: e.path.skip(q as int), ..evars_done },
                ),
            decreases env.path.len() - q,
        {
            proof {
                assert(e.path.skip(q as int)[0] == e.path[q as int]);
                assert(e.path.skip(q as int).drop_first() =~= e.path.skip(q + 1));
            }
            self.remove_path(env.path[q].as_str());
            q = q + 1;
        }
        proof {
            assert(e.path.skip(env.path@.len() as int) =~= Seq::<Seq<char>>::empty());
        }
    }

    /// Is `key` pending to be set?
    pub fn pending_set(&self, key: &str) -> (r: bool)
        ensures
            r == names_of(self@.set_var).contains(key@),
    {
        let ghost vs = self@.set_var;
        let mut i: usize = 0;
        while i < self.set_var.len()
            invariant
                vs == self@.set_var,
                i <= self.set_var.len(),
                forall|j: int| 0 <= j < i ==> (#[trigger] vs[j]).0 != key@,
            decreases self.set_var.len() - i,
        {
            if str_eq(self.set_var[i].0.as_str(), key) {
                proof {
                    assert(names_of(vs)[i as int] == key@);
                }
                return true;
            }
            i = i + 1;
        }
        proof {
            if names_of(vs).contains(key@) {
                let w = choose|w: int| 0 <= w < names_of(vs).len() && names_of(vs)[w] == key@;
                assert(vs[w].0 == key@);
            }
        }
        false
    }

    /// Is `key` pending to be unset?
    pub fn pending_unset(&self, key: &str) -> (r: bool)
        ensures
            r == self@.unset_var.contains(key@),
    {
        let ghost us = self@.unset_var;
        let mut i: usize = 0;
        while i < self.unset_var.len()
            invariant
                us == self@.unset_var,
                i <= self.unset_var.len(),
                forall|j: int| 0 <= j < i ==> (#[trigger] us[j]) != key@,
            decreases self.unset_var.len() - i,
        {
            if str_eq(self.unset_var[i].as_str(), key) {
                proof {
                    assert(us[i as int] == key@);
                }
                return true;
            }
            i = i + 1;
        }
        proof {
            if us.contains(key@) {
                let w = choose|w: int| 0 <= w < us.len() && us[w] == key@;
                assert(false);
            }
        }
        false
    }

    /// Is `entry` pending to be added to PATH?
    pub fn pending_add_path(&self, entry: &str) -> (r: bool)
        ensures
            r == self@.add_path.contains(entry@),
    {
        contains_string(&self.add_path, entry)
    }

    /// Is `entry` pending to be removed from PATH?
    pub fn pending_remove_path(&self, entry: &str) -> (r: bool)
        ensures
            r == self@.remove_path.contains(entry@),
    {
        contains_string(&self.remove_path, entry)
    }
}

pub fn contains_string(list: &Vec<String>, s: &str) -> (r: bool)
    ensures
        r == crate::env::paths_view(list@).contains(s@),
{
    let ghost vs = crate::env::paths_view(list@);
    let mut i: usize = 0;
    while i < list.len()
        invariant
            vs == crate::env::paths_view(list@),
            i <= list.len(),
            forall|j: int| 0 <= j < i ==> (#[trigger] vs[j]) != s@,
        decreases list.len() - i,
    {
        if str_eq(list[i].as_str(), s) {
            proof {
                assert(vs[i as int] == s@);
            }
            return true;
        }
        i = i + 1;
    }
    proof {
        if vs.contains(s@) {
            let w = choose|w: int| 0 <= w < vs.len() && vs[w] == s@;
            assert(false);
        }
    }
    false
}

/// The emitted script of an empty pending state is empty: a prompt whose
/// resolved environment is already applied changes nothing in the shell.
pub proof fn lemma_empty_state_renders_nothing(curpath: Seq<char>, names: Seq<Seq<char>>)
    ensures
        spec_render_bashlike(empty_shell_state(), curpath, names) == Seq::<char>::empty(),
{
}

/// After queueing `set(k, v)` and then `unset(k)`, the key is pending to
/// be unset and no longer pending to be set; symmetrically for PATH
/// entries with `add_path` then `remove_path`.
pub proof fn lemma_set_then_unset(v: ShellStateView, k: Seq<char>, val: Seq<char>)
    requires
        shell_wf(v),
    ensures
        ({
            let after = spec_state_unset(spec_state_set(v, k, val), k);
            &&& after.unset_var.contains(k)
            &&& !names_of(after.set_var).contains(k)
        }),
        ({
            let after = spec_state_remove_path(spec_state_add_path(v, k), k);
            &&& after.remove_path.contains(k)
            &&& !after.add_path.contains(k)
        }),
{
    let mid = spec_state_set(v, k, val);
    let after = spec_state_unset(mid, k);
    // The set list after the round trip holds no binding for k.
    lemma_put_var_distinct(v.set_var, k, val);
    lemma_remove_var_removes(mid.set_var, k);
    assert(after.unset_var.contains(k)) by {
        if !mid.unset_var.contains(k) {
            assert(after.unset_var == mid.unset_var.push(k));
            assert(after.unset_var[after.unset_var.len() - 1] == k);
        }
    }
    let mid2 = spec_state_add_path(v, k);
    let after2 = spec_state_remove_path(mid2, k);
    lemma_remove_entry_removes(mid2.add_path, k);
    assert(after2.remove_path.contains(k)) by {
        if !mid2.remove_path.contains(k) {
            assert(after2.remove_path == mid2.remove_path.push(k));
            assert(after2.remove_path[after2.remove_path.len() - 1] == k);
        }
    }
}

/// Removing a key removes its only binding, when bindings are unique save
/// possibly the front one introduced by `spec_put_var`.
/// A put keeps keys pairwise distinct.
proof fn lemma_put_var_distinct(s: Seq<(Seq<char>, Seq<char>)>, k: Seq<char>, v: Seq<char>)
    requires
        forall|i: int, j: int|
            0 <= i < j < s.len() ==> (#[trigger] s[i]).0 != (#[trigger] s[j]).0,
    ensures
        ({
            let r = spec_put_var(s, k, v);
            forall|i: int, j: int|
                0 <= i < j < r.len() ==> (#[trigger] r[i]).0 != (#[trigger] r[j]).0
        }),
    decreases s.len(),
{
    let r = spec_put_var(s, k, v);
    if s.len() == 0 {
    } else if s[0].0 == k {
        assert forall|i: int, j: int| 0 <= i < j < r.len() implies (#[trigger] r[i]).0
            != (#[trigger] r[j]).0 by {
            assert(r[j] == s[j]);
            if i > 0 {
                assert(r[i] == s[i]);
            }
        }
    } else {
        assert(forall|i: int, j: int|
            0 <= i < j < s.drop_first().len() ==> (#[trigger] s.drop_first()[i]).0
                != (#[trigger] s.drop_first()[j]).0) by {
            assert(forall|i: int|
                0 <= i < s.drop_first().len() ==> (#[trigger] s.drop_first()[i]) == s[i + 1]);
        }
        lemma_put_var_distinct(s.drop_first(), k, v);
        let r2 = spec_put_var(s.drop_first(), k, v);
        assert forall|i: int, j: int| 0 <= i < j < r.len() implies (#[trigger] r[i]).0
            != (#[trigger] r[j]).0 by {
            if i == 0 {
                assert(r[0] == s[0]);
                assert(r[j] == r2[j - 1]);
                lemma_put_var_member(s.drop_first(), k, v, j - 1);
                if r2[j - 1].0 == k {
                } else {
                    let w = choose|w: int|
                        0 <= w < s.drop_first().len() && s.drop_first()[w] == r2[j - 1];
                    assert(s.drop_first()[w] == s[w + 1]);
                }
            } else {
                assert(r[i] == r2[i - 1] && r[j] == r2[j - 1]);
            }
        }
    }
}

/// Every entry of a put is the new pair or an original entry.
proof fn lemma_put_var_member(s: Seq<(Seq<char>, Seq<char>)>, k: Seq<char>, v: Seq<char>, i: int)
    requires
        0 <= i < spec_put_var(s, k, v).len(),
    ensures
        spec_put_var(s, k, v)[i].0 == k || exists|w: int|
            0 <= w < s.len() && s[w] == spec_put_var(s, k, v)[i],
    decreases s.len(),
{
    let r = spec_put_var(s, k, v);
    if s.len() == 0 {
    } else if s[0].0 == k {
        if i > 0 {
            assert(r[i] == s[i]);
        }
    } else {
        if i > 0 {
            lemma_put_var_member(s.drop_first(), k, v, i - 1);
            if spec_put_var(s.drop_first(), k, v)[i - 1].0 != k {
                let w = choose|w: int|
                    0 <= w < s.drop_first().len() && s.drop_first()[w] == spec_put_var(
                        s.drop_first(),
                        k,
                        v,
                    )[i - 1];
                assert(s[w + 1] == r[i]);
            }
        } else {
            assert(r[0] == s[0]);
        }
    }
}

proof fn lemma_remove_var_removes(s: Seq<(Seq<char>, Seq<char>)>, k: Seq<char>)
    requires
        forall|i: int, j: int|
            0 <= i < j < s.len() ==> (#[trigger] s[i]).0 != (#[trigger] s[j]).0,
    ensures
        !names_of(spec_remove_var(s, k)).contains(k),
    decreases s.len(),
{
    let r = spec_remove_var(s, k);
    if s.len() == 0 {
        if names_of(r).contains(k) {
            let w = choose|w: int| 0 <= w < names_of(r).len() && names_of(r)[w] == k;
        }
    } else if s[0].0 == k {
        if names_of(r).contains(k) {
            let w = choose|w: int| 0 <= w < names_of(r).len() && names_of(r)[w] == k;
            assert(r[w] == s[w + 1]);
            assert(s[w + 1].0 == s[0].0);
        }
    } else {
        assert(forall|i: int, j: int|
            0 <= i < j < s.drop_first().len() ==> (#[trigger] s.drop_first()[i]).0
                != (#[trigger] s.drop_first()[j]).0) by {
            assert(forall|i: int|
                0 <= i < s.drop_first().len() ==> (#[trigger] s.drop_first()[i]) == s[i + 1]);
        }
        lemma_remove_var_removes(s.drop_first(), k);
        if names_of(r).contains(k) {
            let w = choose|w: int| 0 <= w < names_of(r).len() && names_of(r)[w] == k;
            if w == 0 {
                assert(r[0] == s[0]);
            } else {
                assert(r[w] == spec_remove_var(s.drop_first(), k)[w - 1]);
                assert(names_of(spec_remove_var(s.drop_first(), k))[w - 1] == k);
            }
        }
    }
}

// ---------------------------------------------------------------------------
// Rendering the pending state as a shell command script
// ---------------------------------------------------------------------------

/// An unset is emitted only for variables currently set in the process.
pub open spec fn spec_unset_cmd(k: Seq<char>, names: Seq<Seq<char>>) -> Seq<char> {
    if names.contains(k) {
        "unset "@ + k + ";"@
    } else {
        Seq::empty()
    }
}

pub open spec fn spec_unsets_text(unset: Seq<Seq<char>>, names: Seq<Seq<char>>) -> Seq<char>
    decreases unset.len(),
{
    if unset.len() == 0 {
        Seq::empty()
    } else {
        spec_unsets_text(unset.drop_last(), names) + spec_unset_cmd(unset.last(), names)
    }
}

pub open spec fn spec_set_cmd(k: Seq<char>, v: Seq<char>) -> Seq<char> {
    "export "@ + k + "="@ + v + ";"@
}

pub open spec fn spec_sets_text(sv: Seq<(Seq<char>, Seq<char>)>) -> Seq<char>
    decreases sv.len(),
{
    if sv.len() == 0 {
        Seq::empty()
    } else {
        spec_sets_text(sv.drop_last()) + spec_set_cmd(sv.last().0, sv.last().1)
    }
}

/// The current PATH entries that survive: those neither added (they move
/// to the front) nor removed.
pub open spec fn spec_surviving(
    cur: Seq<Seq<char>>,
    add: Seq<Seq<char>>,
    rm: Seq<Seq<char>>,
) -> Seq<Seq<char>>
    decreases cur.len(),
{
    if cur.len() == 0 {
        cur
    } else {
        spec_surviving(cur.drop_last(), add, rm) + (if add.contains(cur.last()) || rm.contains(
            cur.last(),
        ) {
            Seq::<Seq<char>>::empty()
        } else {
            seq![cur.last()]
        })
    }
}

/// The rendered command script: nothing when no mutation is pending; else
/// the unsets, then the exports, then one PATH export whose added entries
/// are front-loaded and deduplicated against the current PATH.
pub open spec fn spec_render_bashlike(
    v: ShellStateView,
    curpath: Seq<char>,
    names: Seq<Seq<char>>,
) -> Seq<char> {
    if shell_state_is_empty(v) {
        Seq::empty()
    } else {
        let newpath = v.add_path + spec_surviving(
            crate::strutil::spec_split(curpath, ':'),
            v.add_path,
            v.remove_path,
        );
        spec_unsets_text(v.unset_var, names) + spec_sets_text(v.set_var) + "export PATH="@
            + crate::strutil::spec_join(newpath, ':') + ";"@
    }
}

/// Render the pending state for a bourne-like shell.
#[verifier::loop_isolation(false)]
pub fn render_bashlike(st: &ShellState, current_path: &str, set_names: &Vec<String>) -> (r: String)
    ensures
        r@ == spec_render_bashlike(st@, current_path@, crate::env::paths_view(set_names@)),
{
    let ghost v = st@;
    let ghost names = crate::env::paths_view(set_names@);
    if st.add_path.len() == 0 && st.remove_path.len() == 0 && st.set_var.len() == 0
        && st.unset_var.len() == 0 {
        let r = String::new();
        return r;
    }
    let mut r = String::new();
    // Unsets, filtered by the currently set names.
    let mut i: usize = 0;
    proof {
        assert(v.unset_var.take(0) =~= Seq::<Seq<char>>::empty());
    }
    while i < st.unset_var.len()
        invariant
            i <= st.unset_var.len(),
            r@ == spec_unsets_text(v.unset_var.take(i as int), names),
        decreases st.unset_var.len() - i,
    {
        proof {
            assert(v.unset_var.take(i + 1).drop_last() =~= v.unset_var.take(i as int));
            assert(v.unset_var.take(i + 1).last() == v.unset_var[i as int]);
        }
        if contains_string(set_names, st.unset_var[i].as_str()) {
            r.append("unset ");
            r.append(st.unset_var[i].as_str());
            r.append(";");
        }
        i = i + 1;
    }
    proof {
        assert(v.unset_var.take(st.unset_var@.len() as int) =~= v.unset_var);
    }
    // Exports, in insertion order.
    let mut k: usize = 0;
    proof {
        assert(v.set_var.take(0) =~= Seq::<(Seq<char>, Seq<char>)>::empty());
    }
    while k < st.set_var.len()
        invariant
            k <= st.set_var.len(),
            r@ == spec_unsets_text(v.unset_var, names) + spec_sets_text(v.set_var.take(k as int)),
        decreases st.set_var.len() - k,
    {
        proof {
            assert(v.set_var.take(k + 1).drop_last() =~= v.set_var.take(k as int));
            assert(v.set_var.take(k + 1).last() == v.set_var[k as int]);
        }
        r.append("export ");
        r.append(st.set_var[k].0.as_str());
        r.append("=");
        r.append(st.set_var[k].1.as_str());
        r.append(";");
        k = k + 1;
    }
    proof {
        assert(v.set_var.take(st.set_var@.len() as int) =~= v.set_var);
    }
    // The new PATH: added entries first, then the surviving current ones.
    let mut newp: Vec<String> = Vec::new();
    let mut a: usize = 0;
    proof {
        assert(crate::env::paths_view(newp@) =~= v.add_path.take(0));
    }
    while a < st.add_path.len()
        invariant
            a <= st.add_path.len(),
            crate::env::paths_view(newp@) == v.add_path.take(a as int),
        decreases st.add_path.len() - a,
    {
        newp.push(st.add_path[a].clone());
        proof {
            assert(crate::env::paths_view(newp@) =~= v.add_path.take(a + 1));
        }
        a = a + 1;
    }
    proof {
        assert(v.add_path.take(st.add_path@.len() as int) =~= v.add_path);
    }
    let cs = chars_of(current_path);
    let n = cs.len();
    let ws = split_windows(&cs, 0, n, ':');
    let ghost cur = crate::strutil::spec_split(current_path@, ':');
    proof {
        assert(cs@.subrange(0, n as int) =~= current_path@);
    }
    let mut q: usize = 0;
    proof {
        assert(cur.take(0) =~= Seq::<Seq<char>>::empty());
        assert(spec_surviving(cur.take(0), v.add_path, v.remove_path) =~= Seq::<Seq<char>>::empty());
        assert(crate::env::paths_view(newp@) =~= v.add_path + spec_surviving(
            cur.take(0),
            v.add_path,
            v.remove_path,
        ));
    }
    while q < ws.len()
        invariant
            q <= ws.len(),
            crate::env::paths_view(newp@) == v.add_path + spec_surviving(
                cur.take(q as int),
                v.add_path,
                v.remove_path,
            ),
        decreases ws.len() - q,
    {
        let (wa, wb) = ws[q];
        let entry = string_from_range(&cs, wa, wb);
        proof {
            assert(cur[q as int] == windows_view(cs@, ws@)[q as int]);
            assert(entry@ == cur[q as int]);
            assert(cur.take(q + 1).drop_last() =~= cur.take(q as int));
            assert(cur.take(q + 1).last() == cur[q as int]);
        }
        let in_add = contains_string(&st.add_path, entry.as_str());
        let in_rm = contains_string(&st.remove_path, entry.as_str());
        if !in_add && !in_rm {
            newp.push(entry);
            proof {
                assert(crate::env::paths_view(newp@) =~= (v.add_path + spec_surviving(
                    cur.take(q as int),
                    v.add_path,
                    v.remove_path,
                )).push(cur[q as int]));
                assert((v.add_path + spec_surviving(cur.take(q as int), v.add_path, v.remove_path)).push(
                    cur[q as int],
                ) =~= v.add_path + spec_surviving(cur.take(q + 1), v.add_path, v.remove_path));
            }
        } else {
            proof {
                assert(v.add_path + spec_surviving(cur.take(q as int), v.add_path, v.remove_path)
                    =~= v.add_path + spec_surviving(cur.take(q + 1), v.add_path, v.remove_path));
            }
        }
        q = q + 1;
    }
    proof {
        assert(cur.take(ws@.len() as int) =~= cur);
    }
    // Join and emit the PATH export.
    r.append("export PATH=");
    let ghost parts = v.add_path + spec_surviving(cur, v.add_path, v.remove_path);
    let mut jr = String::new();
    let mut j: usize = 0;
    proof {
        assert(parts.take(0) =~= Seq::<Seq<char>>::empty());
    }
    while j < newp.len()
        invariant
            j <= newp.len(),
            crate::env::paths_view(newp@) == parts,
            jr@ == crate::strutil::spec_join(parts.take(j as int), ':'),
        decreases newp.len() - j,
    {
        if j > 0 {
            jr.push(':');
        }
        jr.append(newp[j].as_str());
        proof {
            assert(parts.take(j + 1) =~= parts.take(j as int).push(parts[j as int]));
            crate::strutil::lemma_join_push(parts.take(j as int), parts[j as int], ':');
            assert(parts[j as int] == newp@[j as int]@);
            assert(jr@ =~= crate::strutil::spec_join(parts.take(j + 1), ':'));
        }
        j = j + 1;
    }
    proof {
        assert(parts.take(newp@.len() as int) =~= parts);
    }
    r.append(jr.as_str());
    r.append(";");
    proof {
        assert(r@ =~= spec_render_bashlike(v, current_path@, names));
    }
    r
}

impl ShellState {
    /// Render the pending state as the command script for a bourne-like
    /// shell, given the current PATH value and the names of the variables
    /// currently set in the process environment.
    pub fn build(&self, current_path: &str, set_names: &Vec<String>) -> (r: String)
        ensures
            r@ == spec_render_bashlike(self@, current_path@, crate::env::paths_view(set_names@)),
    {
        render_bashlike(self, current_path, set_names)
    }
}

// ---------------------------------------------------------------------------
// Shell adapters
// ---------------------------------------------------------------------------

/// The bash hook block: a function that evaluates the exporter's output
/// around every prompt, preserving the previous exit status and masking
/// SIGINT, registered once in PROMPT_COMMAND.
pub open spec fn spec_bash_hook(cmd: Seq<char>, hook_fn: Seq<char>) -> Seq<char> {
    "_"@ + hook_fn + "() {\n  local previous_exit_status=$?;\n  trap -- '' SIGINT;\n  eval \"$("@
        + cmd + ")\";\n  trap - SIGINT;\n  return $previous_exit_status;\n};\nif ! [[ \"${PROMPT_COMMAND:-}\" =~ _"@
        + hook_fn + " ]]; then\n  PROMPT_COMMAND=\"_"@ + hook_fn
        + "${PROMPT_COMMAND:+;$PROMPT_COMMAND}\"\nfi"@
}

/// The zsh hook block: the same evaluation wrapped for zsh, registered in
/// precmd_functions and chpwd_functions.
pub open spec fn spec_zsh_hook(cmd: Seq<char>, hook_fn: Seq<char>) -> Seq<char> {
    "_"@ + hook_fn + "() {\n  trap -- '' SIGINT;\n  eval \"$("@ + cmd
        + ")\";\n  trap - SIGINT;\n}\ntypeset -ag precmd_functions;\nif [[ -z \"${precmd_functions[(r)_"@
        + hook_fn + "]+1}\" ]]; then\n  precmd_functions=( _"@ + hook_fn
        + " ${precmd_functions[@]} )\nfi\ntypeset -ag chpwd_functions;\nif [[ -z \"${chpwd_functions[(r)_"@
        + hook_fn + "]+1}\" ]]; then\n  chpwd_functions=( _"@ + hook_fn
        + " ${chpwd_functions[@]} )\nfi"@
}

/// A shell dialect: its startup hook, and the rendering of a pending
/// state (shared bourne-like renderer for both dialects).
pub trait Shell {
    spec fn spec_hook(&self, cmd: Seq<char>, hook_fn: Seq<char>) -> Seq<char>;

    fn hook(&self, cmd: &str, hook_fn: &str) -> (r: String)
        ensures
            r@ == self.spec_hook(cmd@, hook_fn@),
    ;

    fn apply(&self, state: &ShellState, current_path: &str, set_names: &Vec<String>) -> (r: String)
        ensures
            r@ == spec_render_bashlike(
                state@,
                current_path@,
                crate::env::paths_view(set_names@),
            ),
    ;
}

pub struct Bash;

pub struct Zsh;

impl Shell for Bash {
    open spec fn spec_hook(&self, cmd: Seq<char>, hook_fn: Seq<char>) -> Seq<char> {
        spec_bash_hook(cmd, hook_fn)
    }

    fn hook(&self, cmd: &str, hook_fn: &str) -> (r: String) {
        let mut r = "_".to_owned();
        r.append(hook_fn);
        r.append("() {\n  local previous_exit_status=$?;\n  trap -- '' SIGINT;\n  eval \"$(");
        r.append(cmd);
        r.append(")\";\n  trap - SIGINT;\n  return $previous_exit_status;\n};\nif ! [[ \"${PROMPT_COMMAND:-}\" =~ _");
        r.append(hook_fn);
        r.append(" ]]; then\n  PROMPT_COMMAND=\"_");
        r.append(hook_fn);
        r.append("${PROMPT_COMMAND:+;$PROMPT_COMMAND}\"\nfi");
        r
    }

    fn apply(&self, state: &ShellState, current_path: &str, set_names: &Vec<String>) -> (r: String) {
        render_bashlike(state, current_path, set_names)
    }
}

impl Shell for Zsh {
    open spec fn spec_hook(&self, cmd: Seq<char>, hook_fn: Seq<char>) -> Seq<char> {
        spec_zsh_hook(cmd, hook_fn)
    }

    fn hook(&self, cmd: &str, hook_fn: &str) -> (r: String) {
        let mut r = "_".to_owned();
        r.append(hook_fn);
        r.append("() {\n  trap -- '' SIGINT;\n  eval \"$(");
        r.append(cmd);
        r.append(")\";\n  trap - SIGINT;\n}\ntypeset -ag precmd_functions;\nif [[ -z \"${precmd_functions[(r)_");
        r.append(hook_fn);
        r.append("]+1}\" ]]; then\n  precmd_functions=( _");
        r.append(hook_fn);
        r.append(" ${precmd_functions[@]} )\nfi\ntypeset -ag chpwd_functions;\nif [[ -z \"${chpwd_functions[(r)_");
        r.append(hook_fn);
        r.append("]+1}\" ]]; then\n  chpwd_functions=( _");
        r.append(hook_fn);
        r.append(" ${chpwd_functions[@]} )\nfi");
        r
    }

    fn apply(&self, state: &ShellState, current_path: &str, set_names: &Vec<String>) -> (r: String) {
        render_bashlike(state, current_path, set_names)
    }
}

proof fn lemma_remove_entry_removes(s: Seq<Seq<char>>, k: Seq<char>)
    requires
        forall|i: int, j: int| 0 <= i < j < s.len() ==> (#[trigger] s[i]) != (#[trigger] s[j]),
    ensures
        !spec_remove_entry(s, k).contains(k),
    decreases s.len(),
{
    let r = spec_remove_entry(s, k);
    if s.len() == 0 {
        if r.contains(k) {
            let w = choose|w: int| 0 <= w < r.len() && r[w] == k;
        }
    } else if s[0] == k {
        if r.contains(k) {
            let w = choose|w: int| 0 <= w < r.len() && r[w] == k;
            assert(r[w] == s[w + 1]);
        }
    } else {
        assert(forall|i: int, j: int|
            0 <= i < j < s.drop_first().len() ==> (#[trigger] s.drop_first()[i])
                != (#[trigger] s.drop_first()[j])) by {
            assert(forall|i: int|
                0 <= i < s.drop_first().len() ==> (#[trigger] s.drop_first()[i]) == s[i + 1]);
        }
        lemma_remove_entry_removes(s.drop_first(), k);
        if r.contains(k) {
            let w = choose|w: int| 0 <= w < r.len() && r[w] == k;
            if w == 0 {
                assert(r[0] == s[0]);
            } else {
                assert(r[w] == spec_remove_entry(s.drop_first(), k)[w - 1]);
                assert(spec_remove_entry(s.drop_first(), k).contains(k));
            }
        }
    }
}

} // verus!
