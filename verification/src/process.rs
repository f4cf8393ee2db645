//! Types of the process runner, and the progress-tail computation that
//! selects what a progress sink shows.

use vstd::prelude::*;

verus! {

/// Errors of one external process invocation; the payloads carry the
/// underlying messages or the combined output.
#[derive(Debug, Clone, PartialEq, Eq)]
pub enum ProcessError {
    Io(String),
    InvalidOutput(String),
    Failed(String),
}

/// Errors of a worker-thread script execution.
#[derive(Debug, Clone, PartialEq, Eq)]
pub enum CmdError {
    Io(String),
    InvalidOutput(String),
    CommandNotDone,
}

/// What a worker reports over its completion channel.
#[derive(Debug)]
pub enum ProgressMessage<Msg, Error, Output> {
    Update(Msg),
    Failed(Error),
    Done(Output),
}

/// The last `n` non-empty lines, oldest first.
pub open spec fn spec_progress_tail(lines: Seq<Seq<char>>, n: nat) -> Seq<Seq<char>>
    decreases lines.len(),
{
    if lines.len() == 0 || n == 0 {
        Seq::empty()
    } else if lines.last().len() > 0 {
        spec_progress_tail(lines.drop_last(), (n - 1) as nat).push(lines.last())
    } else {
        spec_progress_tail(lines.drop_last(), n)
    }
}

/// The three most recent non-empty lines of a stream, for the progress
/// sink.
#[verifier::loop_isolation(false)]
pub fn progress_tail(lines: &Vec<String>) -> (r: Vec<String>)
    ensures
        crate::env::paths_view(r@) == spec_progress_tail(
            crate::env::paths_view(lines@),
            3,
        ),
{
    let ghost lv = crate::env::paths_view(lines@);
    let mut rev: Vec<String> = Vec::new();
    let mut i: usize = lines.len();
    let mut need: u64 = 3;
    proof {
        assert(lv.take(lines@.len() as int) =~= lv);
    }
    while i > 0 && need > 0
        invariant
            i <= lines.len(),
            need <= 3,
            spec_progress_tail(lv, 3) == spec_progress_tail(lv.take(i as int), need as nat)
                + reversed_view(rev@),
        decreases i,
    {
        proof {
            assert(lv.take(i as int).last() == lv[i - 1]);
            assert(lv.take(i as int).drop_last() =~= lv.take(i - 1));
        }
        if lines[i - 1].as_str().unicode_len() > 0 {
            proof {
                assert(spec_progress_tail(lv.take(i as int), need as nat) == spec_progress_tail(
                    lv.take(i - 1),
                    (need - 1) as nat,
                ).push(lv[i - 1]));
            }
            let ghost rv_old = rev@;
            rev.push(lines[i - 1].clone());
            proof {
                assert(rev@.drop_last() =~= rv_old);
                assert(rev@.last()@ == lv[i - 1]);
                assert(reversed_view(rev@) == seq![lv[i - 1]] + reversed_view(rv_old));
                assert(spec_progress_tail(lv.take(i - 1), (need - 1) as nat) + (seq![lv[i - 1]]
                    + reversed_view(rv_old)) =~= spec_progress_tail(
                    lv.take(i - 1),
                    (need - 1) as nat,
                ).push(lv[i - 1]) + reversed_view(rv_old));
            }
            need = need - 1;
        }
        i = i - 1;
    }
    proof {
        if need == 0 {
            assert(spec_progress_tail(lv.take(i as int), 0) =~= Seq::<Seq<char>>::empty());
        } else {
            assert(lv.take(0) =~= Seq::<Seq<char>>::empty());
            assert(spec_progress_tail(Seq::<Seq<char>>::empty(), need as nat) =~= Seq::<
                Seq<char>,
            >::empty());
        }
    }
    // Reverse into oldest-first order.
    let mut r: Vec<String> = Vec::new();
    let mut k: usize = rev.len();
    proof {
        assert(rev@.take(rev@.len() as int) =~= rev@);
    }
    while k > 0
        invariant
            k <= rev.len(),
            crate::env::paths_view(r@) + reversed_view(rev@.take(k as int)) == spec_progress_tail(
                lv,
                3,
            ),
        decreases k,
    {
        r.push(rev[k - 1].clone());
        proof {
            assert(rev@.take(k as int).last() == rev@[k - 1]);
            assert(reversed_view(rev@.take(k as int))[0] == rev@[k - 1]@);
            assert(rev@.take(k as int).drop_last() =~= rev@.take(k - 1));
            assert(crate::env::paths_view(r@) + reversed_view(rev@.take(k - 1))
                =~= (crate::env::paths_view(r@).drop_last() + reversed_view(rev@.take(k as int))));
        }
        k = k - 1;
    }
    proof {
        assert(rev@.take(0) =~= Seq::<String>::empty());
        assert(reversed_view(Seq::<String>::empty()) =~= Seq::<Seq<char>>::empty());
        assert(crate::env::paths_view(r@) + Seq::<Seq<char>>::empty() =~= crate::env::paths_view(
            r@,
        ));
    }
    r
}

/// The views of a list, last element first.
pub open spec fn reversed_view(s: Seq<String>) -> Seq<Seq<char>>
    decreases s.len(),
{
    if s.len() == 0 {
        Seq::empty()
    } else {
        seq![s.last()@] + reversed_view(s.drop_last())
    }
}

} // verus!
