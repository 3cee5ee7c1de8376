//! Orchestrator planning: where a sweep resumes after a restart, and the
//! ordered list of item-variant units one sweep walks.
//!
//! Resumption policy: the checkpoint names the last completed card; the
//! sweep resumes at the first expansion and card matching it, and restarts
//! from the top of the catalog when the checkpoint no longer matches the
//! loaded catalog.
use vstd::prelude::*;

use crate::catalog::Expansion;
use crate::catalog::Pokemon;
use crate::store::Checkpoint;
use crate::text;

verus! {

pub open spec fn exp_matches(e: Expansion, cp: Checkpoint) -> bool {
    e.set_name@ == cp.set_name@ && e.expansion_number == cp.expansion_number
}

pub open spec fn is_first_exp(es: Seq<Expansion>, cp: Checkpoint, i: int) -> bool {
    &&& 0 <= i < es.len()
    &&& exp_matches(es[i], cp)
    &&& forall|j: int| 0 <= j < i ==> !exp_matches(#[trigger] es[j], cp)
}

pub open spec fn card_matches(p: Pokemon, cp: Checkpoint) -> bool {
    p.number == cp.number as usize
}

pub open spec fn is_first_card(cards: Seq<Pokemon>, cp: Checkpoint, c: int) -> bool {
    &&& 0 <= c < cards.len()
    &&& card_matches(cards[c], cp)
    &&& forall|j: int| 0 <= j < c ==> !card_matches(#[trigger] cards[j], cp)
}

/// Where a sweep resumes for a checkpoint: the first matching expansion
/// and, within it, the first card with the checkpointed number; the start
/// of the catalog when either is absent.
pub open spec fn spec_resume(es: Seq<Expansion>, cp: Checkpoint) -> (int, int) {
    if exists|i: int| is_first_exp(es, cp, i) {
        let i = choose|i: int| is_first_exp(es, cp, i);
        if exists|c: int| is_first_card(es[i].cards@, cp, c) {
            (i, choose|c: int| is_first_card(es[i].cards@, cp, c))
        } else {
            (i, 0)
        }
    } else {
        (0, 0)
    }
}

proof fn lemma_first_exp_unique(es: Seq<Expansion>, cp: Checkpoint, i: int, j: int)
    requires
        is_first_exp(es, cp, i),
        is_first_exp(es, cp, j),
    ensures
        i == j,
{
}

proof fn lemma_first_card_unique(cards: Seq<Pokemon>, cp: Checkpoint, i: int, j: int)
    requires
        is_first_card(cards, cp, i),
        is_first_card(cards, cp, j),
    ensures
        i == j,
{
}

/// Finds where to resume: the checkpointed position when it still exists
/// in the loaded catalog, the start otherwise.
#[verifier::loop_isolation(false)]
pub fn resume_position(es: &Vec<Expansion>, cp: Option<&Checkpoint>) -> (r: (usize, usize))
    ensures
        match cp {
            None => r == (0usize, 0usize),
            Some(c) => (r.0 as int, r.1 as int) == spec_resume(es@, *c),
        },
{
    let cp = match cp {
        None => {
            return (0, 0);
        },
        Some(c) => c,
    };
    let mut ei: Option<usize> = None;
    let mut i: usize = 0;
    while i < es.len()
        invariant
            i <= es@.len(),
            match ei {
                None => forall|j: int| 0 <= j < i ==> !exp_matches(#[trigger] es@[j], *cp),
                Some(e) => is_first_exp(es@, *cp, e as int),
            },
        decreases es@.len() - i,
    {
        if ei.is_none() && text::str_eq(es[i].set_name.as_str(), cp.set_name.as_str()) && es[
            i].expansion_number == cp.expansion_number {
            ei = Some(i);
        }
        i += 1;
    }
    let e = match ei {
        None => {
            proof {
                if exists|t: int| is_first_exp(es@, *cp, t) {
                    let t = choose|t: int| is_first_exp(es@, *cp, t);
                    assert(!exp_matches(es@[t], *cp));
                }
            }
            return (0, 0);
        },
        Some(e) => e,
    };
    proof {
        let t = choose|t: int| is_first_exp(es@, *cp, t);
        lemma_first_exp_unique(es@, *cp, t, e as int);
    }
    let cards = &es[e].cards;
    let mut c: usize = 0;
    while c < cards.len()
        invariant
            c <= cards@.len(),
            cards@ == es@[e as int].cards@,
            forall|j: int| 0 <= j < c ==> !card_matches(#[trigger] cards@[j], *cp),
        decreases cards@.len() - c,
    {
        if cards[c].number == cp.number as usize {
            proof {
                assert(is_first_card(cards@, *cp, c as int));
                let t = choose|t: int| is_first_card(cards@, *cp, t);
                lemma_first_card_unique(cards@, *cp, t, c as int);
            }
            return (e, c);
        }
        c += 1;
    }
    proof {
        if exists|t: int| is_first_card(cards@, *cp, t) {
            let t = choose|t: int| is_first_card(cards@, *cp, t);
            assert(!card_matches(cards@[t], *cp));
        }
    }
    (e, 0)
}

/// One unit of extraction work: an expansion, a card in it, and one of the
/// card's variant classes, all by catalog position.
#[derive(Debug, Clone, Copy, PartialEq, Eq, Structural)]
pub struct WorkUnit {
    pub expansion_idx: usize,
    pub card_idx: usize,
    pub class_idx: usize,
}

/// The units of one expansion from card `start` on: each card expands to
/// one unit per variant class, cards in order.
pub open spec fn units_of_exp(cards: Seq<Pokemon>, eidx: usize, start: int) -> Seq<WorkUnit>
    decreases cards.len() - start,
{
    if start < 0 || start >= cards.len() {
        Seq::empty()
    } else {
        Seq::new(
            cards[start].class@.len(),
            |k: int|
                WorkUnit { expansion_idx: eidx, card_idx: start as usize, class_idx: k as usize },
        ) + units_of_exp(cards, eidx, start + 1)
    }
}

/// The whole sweep from a resume point: the rest of the resumed expansion,
/// then every later expansion in full.
pub open spec fn plan_from(es: Seq<Expansion>, eidx: int, ci: int) -> Seq<WorkUnit>
    decreases es.len() - eidx,
{
    if eidx < 0 || eidx >= es.len() {
        Seq::empty()
    } else {
        units_of_exp(es[eidx].cards@, eidx as usize, ci) + plan_from(es, eidx + 1, 0)
    }
}

/// The ordered work list of one sweep, resumed from the checkpoint when it
/// still matches the catalog.
#[verifier::loop_isolation(false)]
pub fn sweep_plan(es: &Vec<Expansion>, cp: Option<&Checkpoint>) -> (r: Vec<WorkUnit>)
    ensures
        r@ == ({
            let (ei, ci) = match cp {
                None => (0int, 0int),
                Some(c) => spec_resume(es@, *c),
            };
            plan_from(es@, ei, ci)
        }),
{
    let (ei, ci) = resume_position(es, cp);
    let ghost plan = plan_from(es@, ei as int, ci as int);
    let mut out: Vec<WorkUnit> = Vec::new();
    let mut e: usize = ei;
    let mut c: usize = ci;
    proof {
        assert(Seq::<WorkUnit>::empty() + plan =~= plan);
    }
    while e < es.len()
        invariant
            out@ + plan_from(es@, e as int, c as int) == plan,
        decreases
                es@.len() - e,
                (if e < es@.len() {
                    es@[e as int].cards@.len() + 1 - c
                } else {
                    0
                }),
    {
        let cards_len = es[e].cards.len();
        if c >= cards_len {
            proof {
                assert(units_of_exp(es@[e as int].cards@, e, c as int) =~= Seq::<
                    WorkUnit,
                >::empty());
                assert(plan_from(es@, e as int, c as int) =~= plan_from(es@, e + 1, 0));
            }
            e += 1;
            c = 0;
        } else {
            let nclasses = es[e].cards[c].class.len();
            let ghost row = Seq::new(
                es@[e as int].cards@[c as int].class@.len(),
                |k: int|
                    WorkUnit { expansion_idx: e, card_idx: c, class_idx: k as usize },
            );
            let ghost before = out@;
            let mut k: usize = 0;
            while k < nclasses
                invariant
                    k <= row.len(),
                    nclasses == row.len(),
                    out@ == before + row.take(k as int),
                decreases nclasses - k,
            {
                out.push(WorkUnit { expansion_idx: e, card_idx: c, class_idx: k });
                k += 1;
                proof {
                    assert(row.take(k as int) =~= row.take(k - 1).push(row[k - 1]));
                }
            }
            proof {
                assert(row.take(row.len() as int) =~= row);
                assert(plan_from(es@, e as int, c as int) == row + plan_from(
                    es@,
                    e as int,
                    c + 1,
                )) by {
                    assert(units_of_exp(es@[e as int].cards@, e, c as int) == row + units_of_exp(
                        es@[e as int].cards@,
                        e,
                        c + 1,
                    ));
                    assert((row + units_of_exp(es@[e as int].cards@, e, c + 1)) + plan_from(
                        es@,
                        e + 1,
                        0,
                    ) =~= row + (units_of_exp(es@[e as int].cards@, e, c + 1) + plan_from(
                        es@,
                        e + 1,
                        0,
                    )));
                }
                assert((before + row) + plan_from(es@, e as int, c + 1) =~= before + (row
                    + plan_from(es@, e as int, c + 1)));
            }
            c += 1;
        }
    }
    proof {
        assert(plan_from(es@, e as int, c as int) =~= Seq::<WorkUnit>::empty());
        assert(out@ + Seq::<WorkUnit>::empty() =~= out@);
    }
    out
}

} // verus!
