//! Choosing among names that overlap.
use crate::glossary::model::Confidence;
use crate::ner::types::GlossaryEntity;
use crate::order;
use crate::order::Ranked;
use vstd::prelude::*;

verus! {

/// An integer in the total order of floating point numbers, in which the negative zero stands
/// before the positive one and what is no number stands at the ends.
pub open spec fn total_rank(c: Confidence) -> int {
    if c.0 < 0x8000_0000 {
        c.0 as int
    } else {
        0x8000_0000 - c.0 - 1
    }
}

fn total_number(c: Confidence) -> (r: i64)
    ensures
        r == total_rank(c),
{
    if c.0 < 0x8000_0000 {
        c.0 as i64
    } else {
        0x8000_0000 - (c.0 as i64) - 1
    }
}

/// A name, to be sorted by how sure it is.
pub struct BySurety {
    pub entity: GlossaryEntity,
}

/// A name, to be sorted by where it stands.
pub struct ByPlace {
    pub entity: GlossaryEntity,
}

/// First by start, then by end, then by kind.
pub open spec fn stands_before(a: GlossaryEntity, b: GlossaryEntity) -> bool {
    if a.start != b.start {
        a.start < b.start
    } else if a.end != b.end {
        a.end < b.end
    } else {
        a.kind.rank() <= b.kind.rank()
    }
}

fn not_behind(a: &GlossaryEntity, b: &GlossaryEntity) -> (r: bool)
    ensures
        r == stands_before(*a, *b),
{
    if a.start != b.start {
        a.start < b.start
    } else if a.end != b.end {
        a.end < b.end
    } else {
        let x: u8 = a.kind.number();
        let y: u8 = b.kind.number();
        x <= y
    }
}

impl Ranked for BySurety {
    /// The surest first, then by place.
    open spec fn ranks(self, other: Self) -> bool {
        let a = total_rank(self.entity.confidence);
        let b = total_rank(other.entity.confidence);
        if a != b {
            a > b
        } else {
            stands_before(self.entity, other.entity)
        }
    }

    proof fn total(a: Self, b: Self) {
    }

    proof fn transitive(a: Self, b: Self, c: Self) {
    }

    fn not_after(&self, other: &Self) -> (r: bool) {
        let a: i64 = total_number(self.entity.confidence);
        let b: i64 = total_number(other.entity.confidence);
        if a != b {
            a > b
        } else {
            not_behind(&self.entity, &other.entity)
        }
    }
}

impl Ranked for ByPlace {
    open spec fn ranks(self, other: Self) -> bool {
        stands_before(self.entity, other.entity)
    }

    proof fn total(a: Self, b: Self) {
    }

    proof fn transitive(a: Self, b: Self, c: Self) {
    }

    fn not_after(&self, other: &Self) -> (r: bool) {
        not_behind(&self.entity, &other.entity)
    }
}

/// The names, to be sorted by how sure they are.
pub open spec fn to_surety(spans: Seq<GlossaryEntity>) -> Seq<BySurety> {
    Seq::new(spans.len(), |i: int| BySurety { entity: spans[i] })
}

/// The names, to be sorted by where they stand.
pub open spec fn to_place(spans: Seq<GlossaryEntity>) -> Seq<ByPlace> {
    Seq::new(spans.len(), |i: int| ByPlace { entity: spans[i] })
}

/// The two names share no byte.
pub open spec fn apart(a: GlossaryEntity, b: GlossaryEntity) -> bool {
    a.end <= b.start || b.end <= a.start
}

/// The name shares no byte with any of the others.
pub open spec fn apart_from(chosen: Seq<GlossaryEntity>, e: GlossaryEntity) -> bool {
    forall|i: int| 0 <= i < chosen.len() ==> apart(e, #[trigger] chosen[i])
}

/// Of the first `n` names, each that shares no byte with one that was chosen before it.
pub open spec fn chosen_of(ranked: Seq<BySurety>, n: nat) -> Seq<GlossaryEntity>
    decreases n,
{
    if n == 0 {
        Seq::empty()
    } else {
        let head = chosen_of(ranked, (n - 1) as nat);
        if apart_from(head, ranked[n - 1].entity) {
            head.push(ranked[n - 1].entity)
        } else {
            head
        }
    }
}

/// The two names are of one kind and stand at one place.
pub open spec fn coincide(a: GlossaryEntity, b: GlossaryEntity) -> bool {
    a.start == b.start && a.end == b.end && a.kind == b.kind
}

/// Of the first `n` names, each that does not coincide with the one that was kept before it.
pub open spec fn kept_of(placed: Seq<ByPlace>, n: nat) -> Seq<GlossaryEntity>
    decreases n,
{
    if n == 0 {
        Seq::empty()
    } else {
        let head = kept_of(placed, (n - 1) as nat);
        let e = placed[n - 1].entity;
        if head.len() > 0 && coincide(e, head.last()) {
            head
        } else {
            head.push(e)
        }
    }
}

/// The names that are left: the surest first, each that shares no byte with one that was chosen;
/// then in the order of their places.
pub open spec fn resolved(spans: Seq<GlossaryEntity>) -> Seq<GlossaryEntity> {
    let ranked = order::arranged(to_surety(spans));
    let placed = order::arranged(to_place(chosen_of(ranked, ranked.len())));
    kept_of(placed, placed.len())
}

fn choose_spans(spans: Vec<GlossaryEntity>) -> (r: Vec<GlossaryEntity>)
    ensures
        r@ == chosen_of(order::arranged(to_surety(spans@)), order::arranged(to_surety(spans@)).len()),
{
    let ghost given = spans@;
    let mut rest = spans;
    let mut wrapped: Vec<BySurety> = Vec::new();
    while rest.len() > 0
        invariant
            wrapped@.len() + rest@.len() == given.len(),
            rest@ == given.skip(wrapped@.len() as int),
            forall|i: int| 0 <= i < wrapped@.len() ==> (#[trigger] wrapped@[i]).entity == given[i],
        decreases rest@.len(),
    {
        let ghost done = wrapped@.len() as int;
        let entity = rest.remove(0);
        assert(entity == given[done]);
        wrapped.push(BySurety { entity });
        assert(rest@ =~= given.skip(done + 1));
    }
    assert(wrapped@ =~= to_surety(given));
    let mut sorted = order::sorted(wrapped);
    let ghost ranked = sorted@;
    let ghost mut n: nat = 0;
    let mut selected: Vec<GlossaryEntity> = Vec::new();
    assert(ranked.skip(0) =~= ranked);
    while sorted.len() > 0
        invariant
            n <= ranked.len(),
            sorted@ == ranked.skip(n as int),
            selected@ == chosen_of(ranked, n),
        decreases sorted@.len(),
    {
        let next = sorted.remove(0);
        proof {
            assert(next == ranked[n as int]);
            assert(sorted@ =~= ranked.skip((n + 1) as int));
        }
        let mut free = true;
        let mut i: usize = 0;
        while i < selected.len()
            invariant
                i <= selected@.len(),
                free == (forall|k: int|
                    0 <= k < i ==> apart(next.entity, #[trigger] selected@[k])),
            decreases selected@.len() - i,
        {
            if !(next.entity.end <= selected[i].start || selected[i].end <= next.entity.start) {
                assert(!apart(next.entity, selected@[i as int]));
                free = false;
            }
            i += 1;
        }
        proof {
            n = n + 1;
            assert(free == apart_from(selected@, next.entity));
        }
        if free {
            selected.push(next.entity);
        }
    }
    selected
}

/// Leaves of names that overlap the surest, in the order of their places.
pub fn resolve_overlaps(spans: &mut Vec<GlossaryEntity>)
    ensures
        final(spans)@ == resolved(old(spans)@),
{
    let ghost given = spans@;
    let mut all: Vec<GlossaryEntity> = Vec::new();
    all.append(spans);
    assert(all@ =~= given);
    let mut rest = choose_spans(all);
    let ghost chosen = rest@;
    let mut wrapped: Vec<ByPlace> = Vec::new();
    while rest.len() > 0
        invariant
            wrapped@.len() + rest@.len() == chosen.len(),
            rest@ == chosen.skip(wrapped@.len() as int),
            forall|i: int|
                0 <= i < wrapped@.len() ==> (#[trigger] wrapped@[i]).entity == chosen[i],
        decreases rest@.len(),
    {
        let ghost done = wrapped@.len() as int;
        let entity = rest.remove(0);
        assert(entity == chosen[done]);
        wrapped.push(ByPlace { entity });
        assert(rest@ =~= chosen.skip(done + 1));
    }
    assert(wrapped@ =~= to_place(chosen));
    let mut sorted = order::sorted(wrapped);
    let ghost placed = sorted@;
    let ghost mut n: nat = 0;
    let mut kept: Vec<GlossaryEntity> = Vec::new();
    assert(placed.skip(0) =~= placed);
    while sorted.len() > 0
        invariant
            n <= placed.len(),
            sorted@ == placed.skip(n as int),
            kept@ == kept_of(placed, n),
        decreases sorted@.len(),
    {
        let next = sorted.remove(0);
        proof {
            assert(next == placed[n as int]);
            assert(sorted@ =~= placed.skip((n + 1) as int));
            n = n + 1;
        }
        let mut twice = false;
        if kept.len() > 0 {
            let last = &kept[kept.len() - 1];
            twice = next.entity.start == last.start && next.entity.end == last.end
                && next.entity.kind == last.kind;
        }
        if !twice {
            kept.push(next.entity);
        }
    }
    *spans = kept;
}

// ---------------------------------------------------------------------------------------------
// Laws
// ---------------------------------------------------------------------------------------------

/// No two of the names share a byte.
pub open spec fn all_apart(spans: Seq<GlossaryEntity>) -> bool {
    forall|i: int, j: int|
        0 <= i < j < spans.len() ==> apart(#[trigger] spans[i], #[trigger] spans[j])
}

/// The names stand in the order of their places.
pub open spec fn in_place(spans: Seq<GlossaryEntity>) -> bool {
    forall|i: int, j: int|
        0 <= i < j < spans.len() ==> stands_before(#[trigger] spans[i], #[trigger] spans[j])
}

proof fn lemma_chosen_apart(ranked: Seq<BySurety>, n: nat)
    requires
        n <= ranked.len(),
    ensures
        all_apart(chosen_of(ranked, n)),
    decreases n,
{
    if n > 0 {
        lemma_chosen_apart(ranked, (n - 1) as nat);
        let head = chosen_of(ranked, (n - 1) as nat);
        let next = chosen_of(ranked, n);
        assert forall|i: int, j: int| 0 <= i < j < next.len() implies apart(
            #[trigger] next[i],
            #[trigger] next[j],
        ) by {
            assert(next[i] == head[i]);
            if j < head.len() {
                assert(next[j] == head[j]);
            } else {
                assert(apart(next[j], head[i]));
            }
        }
    }
}

spec fn bare(placed: Seq<ByPlace>) -> Seq<GlossaryEntity> {
    Seq::new(placed.len(), |i: int| placed[i].entity)
}

/// Putting a name that is apart from all others among them keeps them apart.
proof fn lemma_placed_apart(s: Seq<ByPlace>, x: ByPlace)
    requires
        all_apart(bare(s)),
        apart_from(bare(s), x.entity),
    ensures
        all_apart(bare(order::placed(s, x))),
        forall|y: GlossaryEntity|
            apart_from(bare(s), y) && apart(y, x.entity) ==> #[trigger] apart_from(
                bare(order::placed(s, x)),
                y,
            ),
    decreases s.len(),
{
    let r = order::placed(s, x);
    if s.len() == 0 {
        assert(bare(r) =~= seq![x.entity]);
    } else if x.ranks(s[0]) {
        assert(bare(r) =~= seq![x.entity] + bare(s));
        assert forall|i: int, j: int| 0 <= i < j < bare(r).len() implies apart(
            #[trigger] bare(r)[i],
            #[trigger] bare(r)[j],
        ) by {
            assert(bare(r)[j] == bare(s)[j - 1]);
            if i > 0 {
                assert(bare(r)[i] == bare(s)[i - 1]);
            }
        }
        assert forall|y: GlossaryEntity|
            apart_from(bare(s), y) && apart(y, x.entity) implies #[trigger] apart_from(
            bare(r),
            y,
        ) by {
            assert forall|i: int| 0 <= i < bare(r).len() implies apart(y, #[trigger] bare(r)[i]) by {
                if i > 0 {
                    assert(bare(r)[i] == bare(s)[i - 1]);
                }
            }
        }
    } else {
        let rest = s.drop_first();
        assert(bare(rest) =~= bare(s).drop_first());
        assert forall|i: int, j: int| 0 <= i < j < bare(rest).len() implies apart(
            #[trigger] bare(rest)[i],
            #[trigger] bare(rest)[j],
        ) by {
            assert(bare(rest)[i] == bare(s)[i + 1]);
            assert(bare(rest)[j] == bare(s)[j + 1]);
        }
        assert forall|i: int| 0 <= i < bare(rest).len() implies apart(
            x.entity,
            #[trigger] bare(rest)[i],
        ) by {
            assert(bare(rest)[i] == bare(s)[i + 1]);
        }
        lemma_placed_apart(rest, x);
        let p = order::placed(rest, x);
        let first = s[0].entity;
        assert(bare(r) =~= seq![first] + bare(p));
        assert(apart_from(bare(rest), first)) by {
            assert forall|i: int| 0 <= i < bare(rest).len() implies apart(
                first,
                #[trigger] bare(rest)[i],
            ) by {
                assert(bare(rest)[i] == bare(s)[i + 1]);
                assert(apart(bare(s)[0], bare(s)[i + 1]));
            }
        }
        assert(apart(x.entity, bare(s)[0]));
        assert(apart_from(bare(p), first));
        assert forall|i: int, j: int| 0 <= i < j < bare(r).len() implies apart(
            #[trigger] bare(r)[i],
            #[trigger] bare(r)[j],
        ) by {
            assert(bare(r)[j] == bare(p)[j - 1]);
            if i > 0 {
                assert(bare(r)[i] == bare(p)[i - 1]);
            }
        }
        assert forall|y: GlossaryEntity|
            apart_from(bare(s), y) && apart(y, x.entity) implies #[trigger] apart_from(
            bare(r),
            y,
        ) by {
            assert forall|i: int| 0 <= i < bare(rest).len() implies apart(
                y,
                #[trigger] bare(rest)[i],
            ) by {
                assert(bare(rest)[i] == bare(s)[i + 1]);
            }
            assert(apart_from(bare(p), y));
            assert(apart(y, bare(s)[0]));
            assert forall|i: int| 0 <= i < bare(r).len() implies apart(y, #[trigger] bare(r)[i]) by {
                if i > 0 {
                    assert(bare(r)[i] == bare(p)[i - 1]);
                }
            }
        }
    }
}

proof fn lemma_arranged_apart(s: Seq<ByPlace>)
    requires
        all_apart(bare(s)),
    ensures
        all_apart(bare(order::arranged(s))),
        forall|y: GlossaryEntity|
            apart_from(bare(s), y) ==> #[trigger] apart_from(bare(order::arranged(s)), y),
    decreases s.len(),
{
    if s.len() > 0 {
        let rest = s.drop_first();
        assert(bare(rest) =~= bare(s).drop_first());
        assert forall|i: int, j: int| 0 <= i < j < bare(rest).len() implies apart(
            #[trigger] bare(rest)[i],
            #[trigger] bare(rest)[j],
        ) by {
            assert(bare(rest)[i] == bare(s)[i + 1]);
            assert(bare(rest)[j] == bare(s)[j + 1]);
        }
        lemma_arranged_apart(rest);
        let x = s[0];
        assert(apart_from(bare(rest), x.entity)) by {
            assert forall|i: int| 0 <= i < bare(rest).len() implies apart(
                x.entity,
                #[trigger] bare(rest)[i],
            ) by {
                assert(bare(rest)[i] == bare(s)[i + 1]);
                assert(apart(bare(s)[0], bare(s)[i + 1]));
            }
        }
        lemma_placed_apart(order::arranged(rest), x);
        assert forall|y: GlossaryEntity| apart_from(bare(s), y) implies #[trigger] apart_from(
            bare(order::arranged(s)),
            y,
        ) by {
            assert forall|i: int| 0 <= i < bare(rest).len() implies apart(
                y,
                #[trigger] bare(rest)[i],
            ) by {
                assert(bare(rest)[i] == bare(s)[i + 1]);
            }
            assert(apart(y, bare(s)[0]));
            assert(apart_from(bare(order::arranged(rest)), y));
        }
    }
}

proof fn lemma_kept(placed: Seq<ByPlace>, n: nat)
    requires
        n <= placed.len(),
        all_apart(bare(placed)),
        order::in_order(placed),
    ensures
        all_apart(kept_of(placed, n)),
        in_place(kept_of(placed, n)),
        forall|k: int|
            0 <= k < kept_of(placed, n).len() ==> exists|i: int|
                0 <= i < n && (#[trigger] placed[i]).entity == #[trigger] kept_of(placed, n)[k],
    decreases n,
{
    if n > 0 {
        lemma_kept(placed, (n - 1) as nat);
        let head = kept_of(placed, (n - 1) as nat);
        let next = kept_of(placed, n);
        assert forall|k: int| 0 <= k < next.len() implies exists|i: int|
            0 <= i < n && (#[trigger] placed[i]).entity == #[trigger] next[k] by {
            if k < head.len() {
                assert(next[k] == head[k]);
                let i = choose|i: int| 0 <= i < n - 1 && (#[trigger] placed[i]).entity == head[k];
                assert(placed[i].entity == next[k]);
            } else {
                assert(placed[n - 1].entity == next[k]);
            }
        }
        assert forall|i: int, j: int| 0 <= i < j < next.len() implies apart(
            #[trigger] next[i],
            #[trigger] next[j],
        ) && stands_before(next[i], next[j]) by {
            assert(next[i] == head[i]);
            if j < head.len() {
                assert(next[j] == head[j]);
            } else {
                let q = choose|q: int| 0 <= q < n - 1 && (#[trigger] placed[q]).entity == head[i];
                assert(apart(bare(placed)[q], bare(placed)[n - 1]));
                assert(placed[q].ranks(placed[n - 1]));
            }
        }
    }
}

/// What is left shares no byte, and stands in the order of its places.
pub proof fn lemma_resolved_apart(spans: Seq<GlossaryEntity>)
    ensures
        all_apart(resolved(spans)),
        in_place(resolved(spans)),
{
    let ranked = order::arranged(to_surety(spans));
    let chosen = chosen_of(ranked, ranked.len());
    lemma_chosen_apart(ranked, ranked.len());
    assert(bare(to_place(chosen)) =~= chosen);
    lemma_arranged_apart(to_place(chosen));
    order::lemma_arranged(to_place(chosen));
    let placed = order::arranged(to_place(chosen));
    lemma_kept(placed, placed.len());
}

/// A name is left out only for one that is at least as sure and shares a byte with it: of the names
/// as they are ranked, each is chosen or overlaps one that was chosen before it.
pub proof fn lemma_left_out_for_surer(ranked: Seq<BySurety>, k: int)
    requires
        order::in_order(ranked),
        0 <= k < ranked.len(),
    ensures
        chosen_of(ranked, ranked.len()).contains(ranked[k].entity) || exists|i: int|
            {
                &&& 0 <= i < chosen_of(ranked, ranked.len()).len()
                &&& !apart(ranked[k].entity, #[trigger] chosen_of(ranked, ranked.len())[i])
                &&& total_rank(chosen_of(ranked, ranked.len())[i].confidence) >= total_rank(
                    ranked[k].entity.confidence,
                )
            },
{
    let before = chosen_of(ranked, k as nat);
    let then = chosen_of(ranked, (k + 1) as nat);
    let end = chosen_of(ranked, ranked.len());
    lemma_chosen_grows(ranked, (k + 1) as nat, ranked.len());
    lemma_chosen_grows(ranked, k as nat, ranked.len());
    if apart_from(before, ranked[k].entity) {
        assert(then.last() == ranked[k].entity);
        assert(end[then.len() - 1] == then[then.len() - 1]);
    } else {
        let i = choose|i: int|
            0 <= i < before.len() && !apart(ranked[k].entity, #[trigger] before[i]);
        assert(end[i] == before[i]);
        let q = lemma_chosen_from(ranked, k as nat, i);
        assert(ranked[q].ranks(ranked[k]));
        assert(!apart(ranked[k].entity, end[i]));
    }
}

proof fn lemma_chosen_grows(ranked: Seq<BySurety>, m: nat, n: nat)
    requires
        m <= n <= ranked.len(),
    ensures
        chosen_of(ranked, m).len() <= chosen_of(ranked, n).len(),
        forall|i: int|
            0 <= i < chosen_of(ranked, m).len() ==> #[trigger] chosen_of(ranked, n)[i]
                == chosen_of(ranked, m)[i],
    decreases n,
{
    if m < n {
        lemma_chosen_grows(ranked, m, (n - 1) as nat);
    }
}

proof fn lemma_chosen_from(ranked: Seq<BySurety>, n: nat, i: int) -> (q: int)
    requires
        n <= ranked.len(),
        0 <= i < chosen_of(ranked, n).len(),
    ensures
        0 <= q < n,
        ranked[q].entity == chosen_of(ranked, n)[i],
    decreases n,
{
    let head = chosen_of(ranked, (n - 1) as nat);
    if i < head.len() {
        lemma_chosen_from(ranked, (n - 1) as nat, i)
    } else {
        n - 1
    }
}

/// The chosen names, in the order of their places.
spec fn placed_of(spans: Seq<GlossaryEntity>) -> Seq<ByPlace> {
    let ranked = order::arranged(to_surety(spans));
    order::arranged(to_place(chosen_of(ranked, ranked.len())))
}

/// Of the names in the order of their places, each is kept or stands where one of its kind is kept.
proof fn lemma_placed_are_kept(placed: Seq<ByPlace>, n: nat, m: int) -> (i: int)
    requires
        n <= placed.len(),
        0 <= m < n,
    ensures
        0 <= i < kept_of(placed, n).len(),
        kept_of(placed, n)[i].start == placed[m].entity.start,
        kept_of(placed, n)[i].end == placed[m].entity.end,
        kept_of(placed, n)[i].kind == placed[m].entity.kind,
    decreases n,
{
    let head = kept_of(placed, (n - 1) as nat);
    if m < n - 1 {
        lemma_placed_are_kept(placed, (n - 1) as nat, m)
    } else {
        kept_of(placed, n).len() - 1
    }
}

/// Every name that is left was chosen.
proof fn lemma_left_are_chosen(spans: Seq<GlossaryEntity>, i: int) -> (c: int)
    requires
        0 <= i < resolved(spans).len(),
    ensures
        ({
            let ranked = order::arranged(to_surety(spans));
            let chosen = chosen_of(ranked, ranked.len());
            0 <= c < chosen.len() && chosen[c] == resolved(spans)[i]
        }),
{
    let ranked = order::arranged(to_surety(spans));
    let chosen = chosen_of(ranked, ranked.len());
    let placed = placed_of(spans);
    lemma_chosen_apart(ranked, ranked.len());
    assert(bare(to_place(chosen)) =~= chosen);
    lemma_arranged_apart(to_place(chosen));
    order::lemma_arranged(to_place(chosen));
    lemma_kept(placed, placed.len());
    let left = resolved(spans);
    assert(left == kept_of(placed, placed.len()));
    let q = choose|q: int|
        0 <= q < placed.len() && (#[trigger] placed[q]).entity == kept_of(
            placed,
            placed.len(),
        )[i];
    assert(placed.contains(placed[q]));
    assert(to_place(chosen).contains(placed[q]));
    choose|c: int| 0 <= c < to_place(chosen).len() && to_place(chosen)[c] == placed[q]
}

/// Every name that was chosen is left, or stands where one of its kind is left.
proof fn lemma_chosen_are_left(spans: Seq<GlossaryEntity>, c: int) -> (i: int)
    requires
        0 <= c < chosen_of(
            order::arranged(to_surety(spans)),
            order::arranged(to_surety(spans)).len(),
        ).len(),
    ensures
        ({
            let ranked = order::arranged(to_surety(spans));
            let chosen = chosen_of(ranked, ranked.len());
            &&& 0 <= i < resolved(spans).len()
            &&& resolved(spans)[i].start == chosen[c].start
            &&& resolved(spans)[i].end == chosen[c].end
            &&& resolved(spans)[i].kind == chosen[c].kind
        }),
{
    let ranked = order::arranged(to_surety(spans));
    let chosen = chosen_of(ranked, ranked.len());
    let placed = placed_of(spans);
    order::lemma_arranged(to_place(chosen));
    let one = to_place(chosen)[c];
    assert(to_place(chosen).contains(one));
    assert(placed.contains(one));
    let m = choose|m: int| 0 <= m < placed.len() && placed[m] == one;
    lemma_placed_are_kept(placed, placed.len(), m)
}

/// Nothing is made up: every name that is left is one of those that were given.
pub proof fn lemma_left_are_given(spans: Seq<GlossaryEntity>, i: int)
    requires
        0 <= i < resolved(spans).len(),
    ensures
        spans.contains(resolved(spans)[i]),
{
    let ranked = order::arranged(to_surety(spans));
    let c = lemma_left_are_chosen(spans, i);
    let q = lemma_chosen_from(ranked, ranked.len(), c);
    order::lemma_arranged(to_surety(spans));
    assert(ranked.contains(ranked[q]));
    assert(to_surety(spans).contains(ranked[q]));
    let j = choose|j: int| 0 <= j < spans.len() && to_surety(spans)[j] == ranked[q];
    assert(spans[j] == resolved(spans)[i]);
}

/// A name is lost only to another that takes its place: every name that was given is left, or
/// shares a byte with one that is left and at least as sure, or stands where one of its kind is
/// left. Of a name without a byte it is left open how sure it is.
pub proof fn lemma_lost_to_an_overlap(spans: Seq<GlossaryEntity>, k: int)
    requires
        0 <= k < spans.len(),
    ensures
        resolved(spans).contains(spans[k]) || exists|i: int|
            {
                let left = #[trigger] resolved(spans)[i];
                &&& 0 <= i < resolved(spans).len()
                &&& {
                    ||| left.start < spans[k].end && spans[k].start < left.end && (left.start
                        < left.end ==> total_rank(left.confidence) >= total_rank(
                        spans[k].confidence,
                    ))
                    ||| left.start == spans[k].start && left.end == spans[k].end && left.kind
                        == spans[k].kind
                }
            },
{
    let ranked = order::arranged(to_surety(spans));
    order::lemma_arranged(to_surety(spans));
    let one = BySurety { entity: spans[k] };
    assert(to_surety(spans)[k] == one);
    assert(to_surety(spans).contains(one));
    assert(ranked.contains(one));
    let at = choose|at: int| 0 <= at < ranked.len() && ranked[at] == one;
    lemma_left_out_for_surer(ranked, at);
    let chosen = chosen_of(ranked, ranked.len());
    let left = resolved(spans);
    if chosen.contains(spans[k]) {
        let c = choose|c: int| 0 <= c < chosen.len() && chosen[c] == spans[k];
        let i = lemma_chosen_are_left(spans, c);
        assert(left[i].start == spans[k].start && left[i].end == spans[k].end && left[i].kind
            == spans[k].kind);
    } else {
        let c = choose|c: int|
            {
                &&& 0 <= c < chosen.len()
                &&& !apart(spans[k], #[trigger] chosen[c])
                &&& total_rank(chosen[c].confidence) >= total_rank(spans[k].confidence)
            };
        let i = lemma_chosen_are_left(spans, c);
        let d = lemma_left_are_chosen(spans, i);
        assert(left[i].start < spans[k].end && spans[k].start < left[i].end);
        if left[i].start < left[i].end {
            lemma_chosen_apart(ranked, ranked.len());
            assert(c == d) by {
                if c < d {
                    assert(apart(chosen[c], chosen[d]));
                } else if d < c {
                    assert(apart(chosen[d], chosen[c]));
                }
            }
        }
    }
}

/// A name that shares no byte with any other, and stands where no other of its kind stands, is
/// left.
pub proof fn lemma_a_name_alone_is_left(spans: Seq<GlossaryEntity>, k: int)
    requires
        0 <= k < spans.len(),
        spans[k].start < spans[k].end,
        forall|j: int|
            0 <= j < spans.len() && j != k ==> (#[trigger] spans[j]).end <= spans[k].start
                || spans[k].end <= spans[j].start,
    ensures
        resolved(spans).contains(spans[k]),
{
    lemma_lost_to_an_overlap(spans, k);
    let left = resolved(spans);
    if !left.contains(spans[k]) {
        let i = choose|i: int|
            {
                let one = #[trigger] left[i];
                &&& 0 <= i < left.len()
                &&& {
                    ||| one.start < spans[k].end && spans[k].start < one.end && (one.start
                        < one.end ==> total_rank(one.confidence) >= total_rank(
                        spans[k].confidence,
                    ))
                    ||| one.start == spans[k].start && one.end == spans[k].end && one.kind
                        == spans[k].kind
                }
            };
        lemma_left_are_given(spans, i);
        let j = choose|j: int| 0 <= j < spans.len() && spans[j] == left[i];
        assert(j == k);
    }
}

/// What is left stands in the order of its places, and no two names share a byte.
pub proof fn lemma_left_are_disjoint(spans: Seq<GlossaryEntity>, i: int, j: int)
    requires
        0 <= i < j < resolved(spans).len(),
    ensures
        resolved(spans)[i].end <= resolved(spans)[j].start || resolved(spans)[j].end <= resolved(
            spans,
        )[i].start,
        resolved(spans)[i].start <= resolved(spans)[j].start,
        !(resolved(spans)[i].start == resolved(spans)[j].start && resolved(spans)[i].end
            == resolved(spans)[j].end && resolved(spans)[i].kind == resolved(spans)[j].kind)
            || resolved(spans)[j].end <= resolved(spans)[j].start,
{
    lemma_resolved_apart(spans);
    assert(apart(resolved(spans)[i], resolved(spans)[j]));
    assert(stands_before(resolved(spans)[i], resolved(spans)[j]));
}

/// How names are compared in surety: a positive number is above every negative one, and of two
/// positive numbers the one with the larger bits is above.
pub proof fn lemma_surety(a: Confidence, b: Confidence)
    ensures
        a.0 < 0x8000_0000 && b.0 < 0x8000_0000 ==> (total_rank(a) <= total_rank(b) <==> a.0 <= b.0),
        a.0 >= 0x8000_0000 && b.0 < 0x8000_0000 ==> total_rank(a) < total_rank(b),
        a.0 >= 0x8000_0000 && b.0 >= 0x8000_0000 ==> (total_rank(a) <= total_rank(b) <==> a.0
            >= b.0),
{
}

} // verus!
