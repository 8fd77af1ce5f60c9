//! Re-rendering somebody else's cursor file at the size the user asked for:
//! which sizes the rebuilt file carries.

use vstd::prelude::*;
use crate::cur_writer::TARGET_SIZES;
use crate::pipeline::{sizes_for_source, rungs_upto, ladder_ceiling};

verus! {

/// Strictly increasing.
pub open spec fn increasing(s: Seq<u32>) -> bool {
    forall|i: int, j: int| 0 <= i < j < s.len() ==> s[i] < s[j]
}

proof fn lemma_rungs_increasing(ceiling: int, k: int)
    requires
        0 <= k <= 8,
    ensures
        increasing(rungs_upto(ceiling, k)),
        forall|i: int| 0 <= i < rungs_upto(ceiling, k).len() ==> exists|j: int|
            0 <= j < k && #[trigger] rungs_upto(ceiling, k)[i] == TARGET_SIZES@[j],
    decreases k,
{
    if k > 0 {
        lemma_rungs_increasing(ceiling, k - 1);
        let r = rungs_upto(ceiling, k - 1);
        assert(forall|a: int, b: int| 0 <= a < b < 8 ==> TARGET_SIZES@[a] < TARGET_SIZES@[b]) by {
            assert(TARGET_SIZES@ =~= seq![10u32, 16, 24, 32, 48, 64, 96, 128]);
        }
        if TARGET_SIZES@[k - 1] <= ceiling {
            let p = r.push(TARGET_SIZES@[k - 1]);
            assert forall|i: int| 0 <= i < p.len() implies exists|j: int| 0 <= j < k && #[trigger] p[i] == TARGET_SIZES@[j] by {
                if i == p.len() - 1 {
                    assert(p[i] == TARGET_SIZES@[k - 1]);
                } else {
                    assert(p[i] == r[i]);
                }
            }
            assert forall|a: int, b: int| 0 <= a < b < p.len() implies p[a] < p[b] by {
                if b == p.len() - 1 {
                    assert(p[a] == r[a]);
                    let ja = choose|j: int| 0 <= j < k - 1 && #[trigger] r[a] == TARGET_SIZES@[j];
                    assert(TARGET_SIZES@[ja] < TARGET_SIZES@[k - 1]);
                } else {
                    assert(p[a] == r[a] && p[b] == r[b]);
                }
            }
        }
    }
}

/// The sizes a re-rendered static cursor carries: the ladder its source
/// earns, and the size asked for on it too, in increasing order and once
/// each. A 32 px source asked for at 128 must carry a 128 px entry, or the
/// shell scales the nearest one and the re-render was pointless.
pub fn ladder_for(width: u32, height: u32, wanted: u32) -> (sizes: Vec<u32>)
    ensures
        increasing(sizes@),
        forall|x: u32| sizes@.contains(x) <==> (rungs_upto(ladder_ceiling(width as int, height as int), 8).contains(x)
            || x == wanted),
{
    let rungs = sizes_for_source(width, height);
    let ghost r = rungs@;
    proof {
        lemma_rungs_increasing(ladder_ceiling(width as int, height as int), 8);
    }
    let mut out: Vec<u32> = Vec::new();
    let mut placed = false;
    let mut i: usize = 0;
    while i < rungs.len()
        invariant
            i <= r.len(),
            rungs@ == r,
            increasing(r),
            increasing(out@),
            forall|x: u32| out@.contains(x) <==> (r.take(i as int).contains(x) || (placed && x == wanted)),
            !placed ==> forall|k: int| 0 <= k < out@.len() ==> out@[k] < wanted,
            i == 0 ==> out@.len() == 0,
            i > 0 ==> out@.len() > 0 && out@.last() == r[i - 1],
        decreases r.len() - i,
    {
        let s = rungs[i];
        let ghost before = out@;
        let ghost was_placed = placed;
        if !placed && s >= wanted {
            if s != wanted {
                out.push(wanted);
                assert(forall|x: u32| out@.contains(x) <==> (before.contains(x) || x == wanted)) by {
                    assert forall|x: u32| out@.contains(x) implies (before.contains(x) || x == wanted) by {
                        let k = choose|k: int| 0 <= k < out@.len() && out@[k] == x;
                        if k < before.len() {
                            assert(before[k] == x);
                        }
                    }
                    assert forall|x: u32| before.contains(x) implies out@.contains(x) by {
                        let k = choose|k: int| 0 <= k < before.len() && before[k] == x;
                        assert(out@[k] == x);
                    }
                    assert(out@[out@.len() - 1] == wanted);
                }
            }
            placed = true;
        }
        let ghost mid = out@;
        out.push(s);
        assert(forall|x: u32| out@.contains(x) <==> (mid.contains(x) || x == s)) by {
            assert forall|x: u32| out@.contains(x) implies (mid.contains(x) || x == s) by {
                let k = choose|k: int| 0 <= k < out@.len() && out@[k] == x;
                if k < mid.len() {
                    assert(mid[k] == x);
                }
            }
            assert forall|x: u32| mid.contains(x) implies out@.contains(x) by {
                let k = choose|k: int| 0 <= k < mid.len() && mid[k] == x;
                assert(out@[k] == x);
            }
            assert(out@[out@.len() - 1] == s);
        }
        assert(r.take(i as int + 1) =~= r.take(i as int).push(s));
        assert(forall|x: u32| r.take(i as int + 1).contains(x) <==> (r.take(i as int).contains(x) || x == s)) by {
            let t = r.take(i as int);
            let u = r.take(i as int + 1);
            assert forall|x: u32| u.contains(x) implies (t.contains(x) || x == s) by {
                let k = choose|k: int| 0 <= k < u.len() && u[k] == x;
                if k < i {
                    assert(t[k] == x);
                }
            }
            assert forall|x: u32| t.contains(x) implies u.contains(x) by {
                let k = choose|k: int| 0 <= k < t.len() && t[k] == x;
                assert(u[k] == x);
            }
            assert(u[i as int] == s);
        }
        assert forall|x: u32| out@.contains(x) <==> (r.take(i as int + 1).contains(x) || (placed && x == wanted)) by {
            assert(before.contains(x) <==> (r.take(i as int).contains(x) || (was_placed && x == wanted)));
            assert(mid.contains(x) <==> (before.contains(x) || (placed && !was_placed && s != wanted && x == wanted)));
        }
        i = i + 1;
    }
    let ghost pre = out@;
    assert(r.take(r.len() as int) =~= r);
    if !placed {
        let ghost before = out@;
        out.push(wanted);
        assert forall|x: u32| out@.contains(x) <==> (before.contains(x) || x == wanted) by {
            if out@.contains(x) {
                let k = choose|k: int| 0 <= k < out@.len() && out@[k] == x;
                if k < before.len() {
                    assert(before[k] == x);
                }
            }
            if before.contains(x) {
                let k = choose|k: int| 0 <= k < before.len() && before[k] == x;
                assert(out@[k] == x);
            }
            assert(out@[out@.len() - 1] == wanted);
        }
    }
    assert(r == rungs_upto(ladder_ceiling(width as int, height as int), 8));
    assert forall|x: u32| out@.contains(x) <==> (r.contains(x) || x == wanted) by {
        assert(pre.contains(x) <==> (r.take(r.len() as int).contains(x) || (placed && x == wanted)));
    }
    out
}

} // verus!
