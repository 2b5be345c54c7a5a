use vstd::prelude::*;

use crate::error::Error;
use crate::instruction::{Instruction, LinkedInstructions, UnlinkedInstructions};

verus! {

pub open spec fn is_open(i: Instruction) -> bool {
    i is BranchIfZero
}

pub open spec fn is_close(i: Instruction) -> bool {
    i is BranchIfNotZero
}

pub open spec fn bracket_delta(i: Instruction) -> int {
    if is_open(i) {
        1
    } else if is_close(i) {
        -1
    } else {
        0
    }
}

/// Net bracket depth of the first `i` instructions: opens minus closes.
pub open spec fn depth(s: Seq<Instruction>, i: int) -> int
    decreases i,
{
    if i <= 0 {
        0
    } else {
        depth(s, i - 1) + bracket_delta(s[i - 1])
    }
}

/// No prefix closes more brackets than were opened before it.
pub open spec fn all_nonneg(s: Seq<Instruction>) -> bool {
    forall|m: int| 0 <= m <= s.len() ==> depth(s, m) >= 0
}

/// The brackets of `s` are balanced: no prefix dips below depth zero and the
/// whole sequence returns to depth zero.
pub open spec fn balanced(s: Seq<Instruction>) -> bool {
    all_nonneg(s) && depth(s, s.len() as int) == 0
}

/// `(i, j)` are a matched open/close pair: `i` opens, `j` closes, and the
/// depth between them never drops back down to the depth at `i`.
pub open spec fn is_match(s: Seq<Instruction>, i: int, j: int) -> bool {
    &&& 0 <= i < j < s.len()
    &&& is_open(s[i])
    &&& is_close(s[j])
    &&& depth(s, j) == depth(s, i + 1)
    &&& forall|m: int| i + 1 <= m <= j ==> #[trigger] depth(s, m) >= depth(s, i + 1)
}

/// One step of the linker's stack walk over `s`, rewriting array `v`:
/// `[` pushes its index; `]` pops the matching `[` and writes both
/// destinations; running off the end returns the array and the leftover
/// stack of unmatched `[` indices.
pub open spec fn link_walk(
    s: Seq<Instruction>,
    i: int,
    v: Seq<Instruction>,
    st: Seq<int>,
) -> Result<(Seq<Instruction>, Seq<int>), Error>
    decreases s.len() - i,
{
    if i >= s.len() {
        Ok((v, st))
    } else if is_open(s[i]) {
        link_walk(s, i + 1, v, st.push(i))
    } else if is_close(s[i]) {
        if st.len() == 0 {
            Err(Error::MissingOpeningBracket(i as usize))
        } else {
            link_walk(
                s,
                i + 1,
                v.update(st.last(), Instruction::BranchIfZero { destination: i as u64 }).update(
                    i,
                    Instruction::BranchIfNotZero { destination: st.last() as u64 },
                ),
                st.drop_last(),
            )
        }
    } else {
        link_walk(s, i + 1, v, st)
    }
}

/// What linking `s` produces: the rewritten sequence, or the first bracket
/// error.  An unmatched `]` is reported at its own index; an unmatched `[`
/// is reported at the outermost one left open.
pub open spec fn link_spec(s: Seq<Instruction>) -> Result<Seq<Instruction>, Error> {
    match link_walk(s, 0, s, Seq::empty()) {
        Err(e) => Err(e),
        Ok((v, st)) => if st.len() == 0 {
            Ok(v)
        } else {
            Err(Error::MissingClosingBracket(st[0] as usize))
        },
    }
}

/// The open bracket at `k` has been written: it points at its partner, a
/// close before `b`, and its partner points back.
pub open spec fn opener_written(s: Seq<Instruction>, v: Seq<Instruction>, k: int, b: int) -> bool {
    exists|j: int|
        #[trigger] is_match(s, k, j) && j < b && v[k] == (Instruction::BranchIfZero {
            destination: j as u64,
        }) && v[j] == (Instruction::BranchIfNotZero { destination: k as u64 })
}

/// The close bracket at `k` has been written: it points at its partner and
/// its partner points back.
pub open spec fn closer_written(s: Seq<Instruction>, v: Seq<Instruction>, k: int) -> bool {
    exists|p: int|
        #[trigger] is_match(s, p, k) && v[p] == (Instruction::BranchIfZero {
            destination: k as u64,
        }) && v[k] == (Instruction::BranchIfNotZero { destination: p as u64 })
}

/// The walk's loop invariant: the stack holds exactly the unmatched opens of
/// the prefix, in order and at their depths, and every bracket already closed
/// has both endpoints written into `v`.
pub open spec fn walk_inv(s: Seq<Instruction>, i: int, v: Seq<Instruction>, st: Seq<int>) -> bool {
    &&& 0 <= i <= s.len()
    &&& v.len() == s.len()
    &&& (forall|m: int| 0 <= m <= i ==> depth(s, m) >= 0)
    &&& st.len() == depth(s, i)
    &&& (forall|k: int| 0 <= k < st.len() ==> 0 <= #[trigger] st[k] < i)
    &&& (forall|k: int| 0 <= k < st.len() ==> is_open(s[#[trigger] st[k]]))
    &&& (forall|k: int| 0 <= k < st.len() ==> depth(s, #[trigger] st[k]) == k)
    &&& (forall|k: int, m: int|
        #![trigger st[k], depth(s, m)]
        0 <= k < st.len() && st[k] < m <= i ==> depth(s, m) > k)
    &&& (forall|k: int| i <= k < s.len() ==> v[k] == s[k])
    &&& (forall|k: int| 0 <= k < s.len() ==> is_open(#[trigger] v[k]) == is_open(s[k]))
    &&& (forall|k: int| 0 <= k < s.len() ==> is_close(#[trigger] v[k]) == is_close(s[k]))
    &&& (forall|k: int| 0 <= k < i && !is_open(s[k]) && !is_close(s[k]) ==> v[k] == s[k])
    &&& (forall|k: int|
        0 <= k < i && is_open(s[k]) && !st.contains(k) ==> opener_written(s, v, k, i))
    &&& (forall|k: int| 0 <= k < i && is_close(s[k]) ==> closer_written(s, v, k))
}

/// What a successful walk guarantees of its result `(w, sf)`.
pub open spec fn walk_ok_post(
    s: Seq<Instruction>,
    v: Seq<Instruction>,
    w: Seq<Instruction>,
    sf: Seq<int>,
) -> bool {
    &&& w.len() == s.len()
    &&& sf.len() == depth(s, s.len() as int)
    &&& (forall|k: int| 0 <= k < sf.len() ==> 0 <= #[trigger] sf[k] < s.len())
    &&& (forall|k: int| 0 <= k < sf.len() ==> is_open(s[#[trigger] sf[k]]))
    &&& (forall|k: int| 0 <= k < sf.len() ==> depth(s, #[trigger] sf[k]) == k)
    &&& (forall|k: int, m: int|
        #![trigger sf[k], depth(s, m)]
        0 <= k < sf.len() && sf[k] < m <= s.len() ==> depth(s, m) > k)
    &&& (forall|k: int| 0 <= k < s.len() ==> is_open(#[trigger] w[k]) == is_open(s[k]))
    &&& (forall|k: int| 0 <= k < s.len() ==> is_close(#[trigger] w[k]) == is_close(s[k]))
    &&& (forall|k: int| 0 <= k < s.len() && !is_open(s[k]) && !is_close(s[k]) ==> w[k] == v[k])
    &&& (forall|k: int|
        0 <= k < s.len() && is_open(s[k]) && !sf.contains(k) ==> opener_written(
            s,
            w,
            k,
            s.len() as int,
        ))
    &&& (forall|k: int| 0 <= k < s.len() && is_close(s[k]) ==> closer_written(s, w, k))
}

/// A successful walk over a sequence whose every prefix depth is non-negative
/// ends without error and links every closed bracket.
proof fn lemma_walk_ok(s: Seq<Instruction>, i: int, v: Seq<Instruction>, st: Seq<int>)
    requires
        walk_inv(s, i, v, st),
        all_nonneg(s),
    ensures
        link_walk(s, i, v, st) matches Ok(r) && walk_ok_post(s, v, r.0, r.1),
    decreases s.len() - i,
{
    if i >= s.len() {
        assert(link_walk(s, i, v, st) == Ok::<_, Error>((v, st)));
    } else if is_open(s[i]) {
        let st2 = st.push(i);
        assert(depth(s, i + 1) == depth(s, i) + 1);
        assert forall|k: int| 0 <= k < st2.len() implies 0 <= #[trigger] st2[k] < i + 1 by {
            if k < st.len() {
                assert(st2[k] == st[k]);
            }
        }
        assert forall|k: int| 0 <= k < i + 1 && is_open(s[k]) && !st2.contains(k) implies
            opener_written(s, v, k, i + 1) by {
            if k < i {
                assert(!st.contains(k)) by {
                    if st.contains(k) {
                        let idx = choose|idx: int| 0 <= idx < st.len() && st[idx] == k;
                        assert(st2[idx] == k);
                    }
                }
                assert(opener_written(s, v, k, i));
                let j = choose|j: int|
                    #[trigger] is_match(s, k, j) && j < i && v[k] == (Instruction::BranchIfZero {
                        destination: j as u64,
                    }) && v[j] == (Instruction::BranchIfNotZero { destination: k as u64 });
                assert(is_match(s, k, j) && j < i + 1);
            } else {
                assert(st2[st.len() as int] == i);
                assert(st2.contains(k));
            }
        }
        lemma_walk_ok(s, i + 1, v, st2);
        let r = link_walk(s, i + 1, v, st2)->Ok_0;
        assert forall|k: int| 0 <= k < s.len() && !is_open(s[k]) && !is_close(s[k]) implies
            r.0[k] == v[k] by {}
    } else if is_close(s[i]) {
        assert(depth(s, i + 1) == depth(s, i) - 1);
        if st.len() == 0 {
            assert(depth(s, i + 1) < 0);
            assert(false);
        }
        let p = st.last();
        let pk = st.len() - 1;
        assert(st[pk] == p);
        assert(depth(s, p) == pk);
        assert(depth(s, p + 1) == pk + 1);
        assert(is_match(s, p, i)) by {
            assert(depth(s, i) == st.len());
            assert forall|m: int| p + 1 <= m <= i implies #[trigger] depth(s, m) >= depth(s, p + 1) by {
                assert(depth(s, m) > pk);
            }
        }
        let v2 = v.update(p, Instruction::BranchIfZero { destination: i as u64 }).update(
            i,
            Instruction::BranchIfNotZero { destination: p as u64 },
        );
        let st2 = st.drop_last();
        assert(walk_inv(s, i + 1, v2, st2)) by {
            assert forall|k: int| 0 <= k < s.len() implies is_open(#[trigger] v2[k]) == is_open(
                s[k],
            ) && is_close(v2[k]) == is_close(s[k]) by {
                if k != p && k != i {
                    assert(v2[k] == v[k]);
                }
            }
            assert forall|k: int|
                0 <= k < i + 1 && is_open(s[k]) && !st2.contains(k) implies opener_written(
                s,
                v2,
                k,
                i + 1,
            ) by {
                if k == p {
                    assert(is_match(s, p, i));
                    assert(v2[p] == (Instruction::BranchIfZero { destination: i as u64 }));
                    assert(v2[i] == (Instruction::BranchIfNotZero { destination: p as u64 }));
                } else if k == i {
                    assert(false);  // s[i] is a close
                } else if st.contains(k) {
                    // k is on st but not on st2: only the last entry was dropped
                    let idx = choose|idx: int| 0 <= idx < st.len() && st[idx] == k;
                    if idx < pk {
                        assert(st2[idx] == k);
                        assert(st2.contains(k));
                        assert(false);
                    } else {
                        assert(k == p);
                        assert(false);
                    }
                } else {
                    // already written before this step; the two updates touch
                    // only p (still unwritten then) and i (beyond the prefix)
                    assert(opener_written(s, v, k, i));
                    let j = choose|j: int|
                        #[trigger] is_match(s, k, j) && j < i && v[k]
                            == (Instruction::BranchIfZero { destination: j as u64 }) && v[j]
                            == (Instruction::BranchIfNotZero { destination: k as u64 });
                    assert(is_close(s[j]));
                    assert(is_open(s[p]));
                    assert(j != p && k != p && j != i && k != i);
                    assert(v2[k] == v[k] && v2[j] == v[j]);
                }
            }
            assert forall|k: int| 0 <= k < i + 1 && is_close(s[k]) implies closer_written(
                s,
                v2,
                k,
            ) by {
                if k == i {
                    assert(is_match(s, p, i));
                } else {
                    assert(closer_written(s, v, k));
                    let q = choose|q: int|
                        #[trigger] is_match(s, q, k) && v[q] == (Instruction::BranchIfZero {
                            destination: k as u64,
                        }) && v[k] == (Instruction::BranchIfNotZero { destination: q as u64 });
                    assert(is_open(s[q]));
                    assert(q != p) by {
                        if q == p {
                            // p is still on the stack, so no close before i
                            // can have popped it: its depth never returned to
                            // pk before i, but a match at k would need it to
                            assert(depth(s, k) == depth(s, p + 1));
                            assert(depth(s, k) > pk);
                            assert(depth(s, p + 1) == pk + 1);
                            assert(depth(s, k + 1) == depth(s, k) - 1);
                            assert(k + 1 <= i);
                            assert(depth(s, k + 1) > pk);
                            assert(false);
                        }
                    }
                    assert(q != i && k != p && k != i);
                    assert(v2[q] == v[q] && v2[k] == v[k]);
                }
            }
        }
        lemma_walk_ok(s, i + 1, v2, st2);
        // non-bracket cells of the final array match v, via v2
        let r = link_walk(s, i + 1, v2, st2)->Ok_0;
        assert forall|k: int| 0 <= k < s.len() && !is_open(s[k]) && !is_close(s[k]) implies
            r.0[k] == v[k] by {
            assert(r.0[k] == v2[k]);
            assert(k != p && k != i);
        }
    } else {
        assert(depth(s, i + 1) == depth(s, i));
        assert(walk_inv(s, i + 1, v, st));
        lemma_walk_ok(s, i + 1, v, st);
    }
}

/// A walk over a sequence with some prefix of negative depth fails, and
/// reports the first excess close bracket.
proof fn lemma_walk_err(s: Seq<Instruction>, i: int, v: Seq<Instruction>, st: Seq<int>)
    requires
        walk_inv(s, i, v, st),
        !all_nonneg(s),
        s.len() <= usize::MAX,
    ensures
        link_walk(s, i, v, st) matches Err(e) && e matches Error::MissingOpeningBracket(j) && i
            <= (j as int) && (j as int) < s.len() && is_close(s[j as int]) && depth(s, j as int)
            == 0 && (forall|m: int| 0 <= m <= j as int ==> depth(s, m) >= 0),
    decreases s.len() - i,
{
    if i >= s.len() {
        assert(false);
    } else if is_open(s[i]) {
        let st2 = st.push(i);
        assert(depth(s, i + 1) == depth(s, i) + 1);
        assert forall|k: int| 0 <= k < st2.len() implies 0 <= #[trigger] st2[k] < i + 1 by {
            if k < st.len() {
                assert(st2[k] == st[k]);
            }
        }
        assert forall|k: int| 0 <= k < i + 1 && is_open(s[k]) && !st2.contains(k) implies
            opener_written(s, v, k, i + 1) by {
            if k < i {
                assert(!st.contains(k)) by {
                    if st.contains(k) {
                        let idx = choose|idx: int| 0 <= idx < st.len() && st[idx] == k;
                        assert(st2[idx] == k);
                    }
                }
                assert(opener_written(s, v, k, i));
                let j = choose|j: int|
                    #[trigger] is_match(s, k, j) && j < i && v[k] == (Instruction::BranchIfZero {
                        destination: j as u64,
                    }) && v[j] == (Instruction::BranchIfNotZero { destination: k as u64 });
                assert(is_match(s, k, j) && j < i + 1);
            } else {
                assert(st2[st.len() as int] == i);
                assert(st2.contains(k));
            }
        }
        lemma_walk_err(s, i + 1, v, st2);
    } else if is_close(s[i]) {
        assert(depth(s, i + 1) == depth(s, i) - 1);
        if st.len() == 0 {
            assert(depth(s, i) == 0);
            assert(link_walk(s, i, v, st) == Err::<(Seq<Instruction>, Seq<int>), Error>(
                Error::MissingOpeningBracket(i as usize),
            ));
        } else {
            let p = st.last();
            let pk = st.len() - 1;
            assert(st[pk] == p);
            assert(depth(s, p) == pk);
            assert(depth(s, p + 1) == pk + 1);
            assert(is_match(s, p, i)) by {
                assert(depth(s, i) == st.len());
                assert forall|m: int| p + 1 <= m <= i implies #[trigger] depth(s, m) >= depth(s, p + 1) by {
                    assert(depth(s, m) > pk);
                }
            }
            let v2 = v.update(p, Instruction::BranchIfZero { destination: i as u64 }).update(
                i,
                Instruction::BranchIfNotZero { destination: p as u64 },
            );
            let st2 = st.drop_last();
            assert(walk_inv(s, i + 1, v2, st2)) by {
                assert forall|k: int| 0 <= k < s.len() implies is_open(#[trigger] v2[k]) == is_open(
                    s[k],
                ) && is_close(v2[k]) == is_close(s[k]) by {
                    if k != p && k != i {
                        assert(v2[k] == v[k]);
                    }
                }
                assert forall|k: int|
                    0 <= k < i + 1 && is_open(s[k]) && !st2.contains(k) implies opener_written(
                    s,
                    v2,
                    k,
                    i + 1,
                ) by {
                    if k == p {
                        assert(is_match(s, p, i));
                        assert(v2[p] == (Instruction::BranchIfZero { destination: i as u64 }));
                        assert(v2[i] == (Instruction::BranchIfNotZero {
                            destination: p as u64,
                        }));
                    } else if k == i {
                        assert(false);
                    } else if st.contains(k) {
                        let idx = choose|idx: int| 0 <= idx < st.len() && st[idx] == k;
                        if idx < pk {
                            assert(st2[idx] == k);
                            assert(st2.contains(k));
                            assert(false);
                        } else {
                            assert(k == p);
                            assert(false);
                        }
                    } else {
                        assert(opener_written(s, v, k, i));
                        let j = choose|j: int|
                            #[trigger] is_match(s, k, j) && j < i && v[k]
                                == (Instruction::BranchIfZero { destination: j as u64 }) && v[j]
                                == (Instruction::BranchIfNotZero { destination: k as u64 });
                        assert(is_close(s[j]));
                        assert(is_open(s[p]));
                        assert(j != p && k != p && j != i && k != i);
                        assert(v2[k] == v[k] && v2[j] == v[j]);
                    }
                }
                assert forall|k: int| 0 <= k < i + 1 && is_close(s[k]) implies closer_written(
                    s,
                    v2,
                    k,
                ) by {
                    if k == i {
                        assert(is_match(s, p, i));
                    } else {
                        assert(closer_written(s, v, k));
                        let q = choose|q: int|
                            #[trigger] is_match(s, q, k) && v[q] == (Instruction::BranchIfZero {
                                destination: k as u64,
                            }) && v[k] == (Instruction::BranchIfNotZero {
                                destination: q as u64,
                            });
                        assert(is_open(s[q]));
                        assert(q != p) by {
                            if q == p {
                                assert(depth(s, k) == depth(s, p + 1));
                                assert(depth(s, k) > pk);
                                assert(depth(s, p + 1) == pk + 1);
                                assert(depth(s, k + 1) == depth(s, k) - 1);
                                assert(k + 1 <= i);
                                assert(depth(s, k + 1) > pk);
                                assert(false);
                            }
                        }
                        assert(q != i && k != p && k != i);
                        assert(v2[q] == v[q] && v2[k] == v[k]);
                    }
                }
            }
            lemma_walk_err(s, i + 1, v2, st2);
        }
    } else {
        assert(depth(s, i + 1) == depth(s, i));
        assert(walk_inv(s, i + 1, v, st));
        lemma_walk_err(s, i + 1, v, st);
    }
}

/// A close bracket has at most one matching open bracket.
proof fn lemma_match_unique_open(s: Seq<Instruction>, p: int, p2: int, j: int)
    requires
        is_match(s, p, j),
        is_match(s, p2, j),
    ensures
        p == p2,
{
    if p < p2 {
        assert(depth(s, p2 + 1) == depth(s, p2) + 1);
        assert(depth(s, p2) >= depth(s, p + 1));
        assert(depth(s, j) == depth(s, p + 1));
        assert(depth(s, j) == depth(s, p2 + 1));
        assert(false);
    } else if p2 < p {
        assert(depth(s, p + 1) == depth(s, p) + 1);
        assert(depth(s, p) >= depth(s, p2 + 1));
        assert(depth(s, j) == depth(s, p2 + 1));
        assert(depth(s, j) == depth(s, p + 1));
        assert(false);
    }
}

/// A successful walk writes only to close positions at or past `i` and to
/// positions on the stack: everything else keeps its value.
proof fn lemma_walk_preserves(s: Seq<Instruction>, i: int, v: Seq<Instruction>, st: Seq<int>)
    requires
        link_walk(s, i, v, st) is Ok,
        0 <= i <= s.len(),
        v.len() == s.len(),
        forall|k: int| 0 <= k < st.len() ==> 0 <= #[trigger] st[k] < i,
    ensures
        (link_walk(s, i, v, st)->Ok_0).0.len() == v.len(),
        forall|k: int|
            0 <= k < i && !st.contains(k) ==> (link_walk(s, i, v, st)->Ok_0).0[k] == v[k],
    decreases s.len() - i,
{
    if i >= s.len() {
    } else if is_open(s[i]) {
        let st2 = st.push(i);
        assert forall|k: int| 0 <= k < st2.len() implies 0 <= #[trigger] st2[k] < i + 1 by {
            if k < st.len() {
                assert(st2[k] == st[k]);
            } else {
                assert(st2[k] == i);
            }
        }
        lemma_walk_preserves(s, i + 1, v, st2);
        assert forall|k: int| 0 <= k < i && !st.contains(k) implies (link_walk(
            s,
            i,
            v,
            st,
        )->Ok_0).0[k] == v[k] by {
            assert(!st2.contains(k)) by {
                if st2.contains(k) {
                    let idx = choose|idx: int| 0 <= idx < st2.len() && st2[idx] == k;
                    if idx < st.len() {
                        assert(st[idx] == k);
                    }
                }
            }
        }
    } else if is_close(s[i]) {
        if st.len() > 0 {
            let p = st.last();
            let v2 = v.update(p, Instruction::BranchIfZero { destination: i as u64 }).update(
                i,
                Instruction::BranchIfNotZero { destination: p as u64 },
            );
            let st2 = st.drop_last();
            assert(forall|k: int| 0 <= k < st2.len() ==> 0 <= #[trigger] st2[k] < i + 1);
            lemma_walk_preserves(s, i + 1, v2, st2);
            assert forall|k: int| 0 <= k < i && !st.contains(k) implies (link_walk(
                s,
                i,
                v,
                st,
            )->Ok_0).0[k] == v[k] by {
                assert(st[st.len() - 1] == p);
                assert(k != p);
                assert(v2[k] == v[k]);
                assert(!st2.contains(k)) by {
                    if st2.contains(k) {
                        let idx = choose|idx: int| 0 <= idx < st2.len() && st2[idx] == k;
                        assert(st[idx] == k);
                    }
                }
            }
        }
    } else {
        lemma_walk_preserves(s, i + 1, v, st);
    }
}

/// The walk's control flow and writes depend only on where the brackets
/// stand, not on anything else in `s`.
proof fn lemma_walk_same_skeleton(
    s1: Seq<Instruction>,
    s2: Seq<Instruction>,
    i: int,
    v: Seq<Instruction>,
    st: Seq<int>,
)
    requires
        0 <= i,
        s1.len() == s2.len(),
        forall|k: int| 0 <= k < s1.len() ==> is_open(#[trigger] s1[k]) == is_open(s2[k]),
        forall|k: int| 0 <= k < s1.len() ==> is_close(#[trigger] s1[k]) == is_close(s2[k]),
    ensures
        link_walk(s1, i, v, st) == link_walk(s2, i, v, st),
    decreases s1.len() - i,
{
    if i >= s1.len() {
    } else if is_open(s1[i]) {
        lemma_walk_same_skeleton(s1, s2, i + 1, v, st.push(i));
    } else if is_close(s1[i]) {
        if st.len() > 0 {
            let p = st.last();
            let v2 = v.update(p, Instruction::BranchIfZero { destination: i as u64 }).update(
                i,
                Instruction::BranchIfNotZero { destination: p as u64 },
            );
            lemma_walk_same_skeleton(s1, s2, i + 1, v2, st.drop_last());
        }
    } else {
        lemma_walk_same_skeleton(s1, s2, i + 1, v, st);
    }
}

/// Re-walking with the final array as the starting array changes nothing:
/// every write re-writes the value already there.
proof fn lemma_walk_rewrite(s: Seq<Instruction>, i: int, v: Seq<Instruction>, st: Seq<int>)
    requires
        link_walk(s, i, v, st) is Ok,
        0 <= i <= s.len(),
        v.len() == s.len(),
        forall|k: int| 0 <= k < st.len() ==> 0 <= #[trigger] st[k] < i,
        forall|k1: int, k2: int|
            #![trigger st[k1], st[k2]]
            0 <= k1 < k2 < st.len() ==> st[k1] < st[k2],
    ensures
        link_walk(s, i, (link_walk(s, i, v, st)->Ok_0).0, st) == link_walk(s, i, v, st),
    decreases s.len() - i,
{
    let w = (link_walk(s, i, v, st)->Ok_0).0;
    if i >= s.len() {
    } else if is_open(s[i]) {
        let st2 = st.push(i);
        assert forall|k: int| 0 <= k < st2.len() implies 0 <= #[trigger] st2[k] < i + 1 by {
            if k < st.len() {
                assert(st2[k] == st[k]);
            } else {
                assert(st2[k] == i);
            }
        }
        assert forall|k1: int, k2: int|
            #![trigger st2[k1], st2[k2]]
            0 <= k1 < k2 < st2.len() implies st2[k1] < st2[k2] by {
            assert(st2[k1] == if k1 < st.len() { st[k1] } else { i });
            assert(st2[k2] == if k2 < st.len() { st[k2] } else { i });
        }
        lemma_walk_rewrite(s, i + 1, v, st2);
    } else if is_close(s[i]) {
        if st.len() > 0 {
            let p = st.last();
            let x = Instruction::BranchIfZero { destination: i as u64 };
            let y = Instruction::BranchIfNotZero { destination: p as u64 };
            let v2 = v.update(p, x).update(i, y);
            let st2 = st.drop_last();
            assert(forall|k: int| 0 <= k < st2.len() ==> 0 <= #[trigger] st2[k] < i + 1);
            lemma_walk_rewrite(s, i + 1, v2, st2);
            // the final array keeps the two freshly written cells
            lemma_walk_preserves(s, i + 1, v2, st2);
            assert(st[st.len() - 1] == p);
            assert(!st2.contains(p)) by {
                if st2.contains(p) {
                    let idx = choose|idx: int| 0 <= idx < st2.len() && st2[idx] == p;
                    assert(st[idx] == p);
                    assert(st[idx] < st[st.len() - 1]);
                }
            }
            assert(!st2.contains(i)) by {
                if st2.contains(i) {
                    let idx = choose|idx: int| 0 <= idx < st2.len() && st2[idx] == i;
                    assert(0 <= st[idx] < i);
                }
            }
            assert(w == (link_walk(s, i + 1, v2, st2)->Ok_0).0);
            assert(w[p] == v2[p] && w[i] == v2[i]);
            assert(w.update(p, x).update(i, y) =~= w);
        }
    } else {
        lemma_walk_rewrite(s, i + 1, v, st);
    }
}

/// A walk over a sequence with some prefix of negative depth fails.
proof fn lemma_walk_fails(s: Seq<Instruction>, i: int, v: Seq<Instruction>, st: Seq<int>)
    requires
        0 <= i <= s.len(),
        forall|m: int| 0 <= m <= i ==> depth(s, m) >= 0,
        st.len() == depth(s, i),
        !all_nonneg(s),
    ensures
        link_walk(s, i, v, st) is Err,
    decreases s.len() - i,
{
    if i >= s.len() {
        assert(false);
    } else if is_open(s[i]) {
        assert(depth(s, i + 1) == depth(s, i) + 1);
        lemma_walk_fails(s, i + 1, v, st.push(i));
    } else if is_close(s[i]) {
        assert(depth(s, i + 1) == depth(s, i) - 1);
        if st.len() > 0 {
            lemma_walk_fails(
                s,
                i + 1,
                v.update(st.last(), Instruction::BranchIfZero { destination: i as u64 }).update(
                    i,
                    Instruction::BranchIfNotZero { destination: st.last() as u64 },
                ),
                st.drop_last(),
            );
        }
    } else {
        assert(depth(s, i + 1) == depth(s, i));
        lemma_walk_fails(s, i + 1, v, st);
    }
}

/// The starting state of the walk satisfies its invariant.
proof fn lemma_walk_init(s: Seq<Instruction>)
    ensures
        walk_inv(s, 0, s, Seq::empty()),
{
}

/// Linking succeeds exactly on sequences with balanced brackets.
pub proof fn lemma_link_ok_iff_balanced(s: Seq<Instruction>)
    ensures
        link_spec(s) is Ok <==> balanced(s),
{
    lemma_walk_init(s);
    if all_nonneg(s) {
        lemma_walk_ok(s, 0, s, Seq::empty());
    } else {
        lemma_walk_fails(s, 0, s, Seq::empty());
    }
}

/// A successful link keeps the length, the bracket skeleton and every
/// non-bracket instruction, and writes both ends of every matched pair:
/// `l[i]` holds `j` and `l[j]` holds `i`.
pub proof fn lemma_link_ok_shape(s: Seq<Instruction>)
    requires
        link_spec(s) is Ok,
    ensures
        link_spec(s) matches Ok(l) && {
            &&& l.len() == s.len()
            &&& (forall|k: int| 0 <= k < s.len() ==> is_open(#[trigger] l[k]) == is_open(s[k]))
            &&& (forall|k: int| 0 <= k < s.len() ==> is_close(#[trigger] l[k]) == is_close(s[k]))
            &&& (forall|k: int|
                0 <= k < s.len() && !is_open(s[k]) && !is_close(s[k]) ==> l[k] == s[k])
            &&& (forall|a: int, b: int|
                is_match(s, a, b) ==> l[a] == (Instruction::BranchIfZero {
                    destination: b as u64,
                }) && l[b] == (Instruction::BranchIfNotZero { destination: a as u64 }))
        },
{
    lemma_walk_init(s);
    if !all_nonneg(s) {
        lemma_walk_fails(s, 0, s, Seq::empty());
        assert(false);
    }
    lemma_walk_ok(s, 0, s, Seq::empty());
    let r = link_walk(s, 0, s, Seq::empty())->Ok_0;
    let l = r.0;
    assert forall|a: int, b: int| is_match(s, a, b) implies l[a] == (Instruction::BranchIfZero {
        destination: b as u64,
    }) && l[b] == (Instruction::BranchIfNotZero { destination: a as u64 }) by {
        assert(closer_written(s, l, b));
        let p = choose|p: int|
            #[trigger] is_match(s, p, b) && l[p] == (Instruction::BranchIfZero {
                destination: b as u64,
            }) && l[b] == (Instruction::BranchIfNotZero { destination: p as u64 });
        lemma_match_unique_open(s, a, p, b);
    }
}

/// Link symmetry: for every matched pair `(a, b)` in a sequence that
/// links, the linked sequence holds `b`'s index at `a` and `a`'s index at
/// `b`.
pub proof fn lemma_link_symmetry(s: Seq<Instruction>, a: int, b: int)
    requires
        link_spec(s) is Ok,
        is_match(s, a, b),
    ensures
        link_spec(s) matches Ok(l) && l[a] == (Instruction::BranchIfZero {
            destination: b as u64,
        }) && l[b] == (Instruction::BranchIfNotZero { destination: a as u64 }),
{
    lemma_link_ok_shape(s);
}

/// Which error linking reports, and where: an excess `]` is reported at its
/// own index, with everything before it well nested; a leftover `[` is
/// reported at the outermost one still open.  Both positions lie inside the
/// sequence.
pub proof fn lemma_link_err_position(s: Seq<Instruction>)
    requires
        s.len() <= usize::MAX,
    ensures
        link_spec(s) matches Err(e) ==> match e {
            Error::MissingOpeningBracket(j) => {
                &&& 0 <= (j as int) < s.len()
                &&& is_close(s[j as int])
                &&& depth(s, j as int) == 0
                &&& (forall|m: int| 0 <= m <= j as int ==> depth(s, m) >= 0)
            },
            Error::MissingClosingBracket(p) => {
                &&& 0 <= (p as int) < s.len()
                &&& is_open(s[p as int])
                &&& depth(s, p as int) == 0
                &&& (forall|m: int| (p as int) < m <= s.len() ==> depth(s, m) > 0)
                &&& all_nonneg(s)
            },
            _ => false,
        },
{
    lemma_walk_init(s);
    if all_nonneg(s) {
        lemma_walk_ok(s, 0, s, Seq::empty());
        let r = link_walk(s, 0, s, Seq::empty())->Ok_0;
        let sf = r.1;
        if sf.len() > 0 {
            let p = sf[0];
            assert(0 <= p < s.len());
            assert(is_open(s[p]));
            assert(depth(s, p) == 0);
            assert(link_spec(s) == Err::<Seq<Instruction>, Error>(
                Error::MissingClosingBracket(p as usize),
            ));
            assert forall|m: int| p < m <= s.len() implies #[trigger] depth(s, m) > 0 by {
                assert(sf[0] == p);
            }
        }
    } else {
        lemma_walk_err(s, 0, s, Seq::empty());
    }
}

/// Linking an already linked sequence gives it back unchanged.
pub proof fn lemma_link_idempotent(s: Seq<Instruction>)
    requires
        link_spec(s) is Ok,
    ensures
        link_spec(s) matches Ok(l) && link_spec(l) == Ok::<Seq<Instruction>, Error>(l),
{
    lemma_link_ok_shape(s);
    let l = link_spec(s)->Ok_0;
    lemma_walk_same_skeleton(l, s, 0, l, Seq::empty());
    lemma_walk_rewrite(s, 0, s, Seq::empty());
    assert(link_walk(l, 0, l, Seq::empty()) == link_walk(s, 0, s, Seq::empty()));
}

impl UnlinkedInstructions {
    /// Set the jump targets for corresponding `[` and `]` instructions.
    ///
    /// Succeeds exactly when the brackets are balanced; an unmatched `]`
    /// fails at its own index, an unmatched `[` at the outermost one left
    /// open.
    pub fn link(self) -> (r: Result<LinkedInstructions, Error>)
        ensures
            match r {
                Ok(l) => link_spec(self@) == Ok::<Seq<Instruction>, Error>(l@),
                Err(e) => link_spec(self@) == Err::<Seq<Instruction>, Error>(e),
            },
            r is Ok <==> balanced(self@),
    {
        let ghost s = self@;
        let n = self.0.len();
        let mut insts: Vec<Instruction> = Vec::new();
        let mut j: usize = 0;
        while j < n
            invariant
                n == self.0.len(),
                s == self.0@,
                0 <= j <= n,
                insts@ == s.take(j as int),
            decreases n - j,
        {
            insts.push(self.0[j]);
            proof {
                assert(s.take(j + 1) =~= s.take(j as int).push(s[j as int]));
            }
            j += 1;
        }
        proof {
            assert(insts@ =~= s);
        }
        let mut jump_stack: Vec<usize> = Vec::new();
        let ghost mut gst: Seq<int> = Seq::empty();
        let mut i: usize = 0;
        while i < n
            invariant
                s == self@,
                n == insts.len(),
                s.len() == n,
                0 <= i <= n,
                jump_stack@.len() == gst.len(),
                forall|k: int| 0 <= k < gst.len() ==> gst[k] == #[trigger] jump_stack@[k] as int,
                forall|k: int| 0 <= k < gst.len() ==> 0 <= #[trigger] gst[k] < i,
                forall|k: int| i <= k < n ==> insts@[k] == s[k],
                link_walk(s, 0, s, Seq::empty()) == link_walk(s, i as int, insts@, gst),
            decreases n - i,
        {
            match insts[i] {
                Instruction::BranchIfZero { .. } => {
                    jump_stack.push(i);
                    proof {
                        gst = gst.push(i as int);
                    }
                },
                Instruction::BranchIfNotZero { .. } => {
                    match jump_stack.pop() {
                        Some(opening_idx) => {
                            proof {
                                assert(gst.last() == opening_idx as int);
                            }
                            insts[opening_idx] = Instruction::BranchIfZero {
                                destination: i as u64,
                            };
                            insts[i] = Instruction::BranchIfNotZero {
                                destination: opening_idx as u64,
                            };
                            proof {
                                gst = gst.drop_last();
                            }
                        },
                        None => {
                            proof {
                                assert(gst.len() == 0);
                                assert(link_spec(s) == Err::<Seq<Instruction>, Error>(
                                    Error::MissingOpeningBracket(i),
                                ));
                                lemma_link_ok_iff_balanced(s);
                            }
                            return Err(Error::MissingOpeningBracket(i));
                        },
                    }
                },
                _ => {},
            }
            i += 1;
        }
        proof {
            lemma_link_ok_iff_balanced(s);
        }
        if jump_stack.len() > 0 {
            let outermost = jump_stack[0];
            proof {
                assert(gst[0] == outermost as int);
            }
            return Err(Error::MissingClosingBracket(outermost));
        }
        Ok(LinkedInstructions(insts))
    }
}

/// Set the jump targets for corresponding `[` and `]` instructions.
pub fn link(insts: UnlinkedInstructions) -> (r: Result<LinkedInstructions, Error>)
    ensures
        match r {
            Ok(l) => link_spec(insts@) == Ok::<Seq<Instruction>, Error>(l@),
            Err(e) => link_spec(insts@) == Err::<Seq<Instruction>, Error>(e),
        },
        r is Ok <==> balanced(insts@),
{
    insts.link()
}

} // verus!

