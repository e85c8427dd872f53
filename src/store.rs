use vstd::prelude::*;
use crate::identity::Identity;
use crate::report::{card_of, views, ReportCard, ReportCardView};

verus! {

/// The cards filed under `id` in the model `m`, oldest first; none where
/// `id` has filed nothing.
pub open spec fn reports_of(m: Map<Seq<u8>, Seq<ReportCardView>>, id: Seq<u8>) -> Seq<
    ReportCardView,
> {
    if m.contains_key(id) {
        m[id]
    } else {
        Seq::empty()
    }
}

/// The model after `id` files the card for one submission: that card goes
/// to the end of `id`'s cards, and nobody else's change.
pub open spec fn after_store(
    m: Map<Seq<u8>, Seq<ReportCardView>>,
    id: Seq<u8>,
    student_name: Seq<char>,
    total_marks: u32,
    num_subjects: u32,
) -> Map<Seq<u8>, Seq<ReportCardView>> {
    m.insert(id, reports_of(m, id).push(card_of(student_name, total_marks, num_subjects)))
}

/// One submission: a student's name, total marks and number of subjects.
pub type Submission = (Seq<char>, u32, u32);

/// The card that a submission gives.
pub open spec fn card_of_submission(s: Submission) -> ReportCardView {
    card_of(s.0, s.1, s.2)
}

/// The model after `id` files each of `subs`, in order.
pub open spec fn after_stores(
    m: Map<Seq<u8>, Seq<ReportCardView>>,
    id: Seq<u8>,
    subs: Seq<Submission>,
) -> Map<Seq<u8>, Seq<ReportCardView>>
    decreases subs.len(),
{
    if subs.len() == 0 {
        m
    } else {
        let last = subs.last();
        after_store(after_stores(m, id, subs.drop_last()), id, last.0, last.1, last.2)
    }
}

/// The cards of one caller, oldest first.
struct Shelf {
    owner: Identity,
    cards: Vec<ReportCard>,
}

/// Report cards kept per caller. Each caller sees only its own cards, in the
/// order it filed them; cards are only ever added, at the end.
///
/// The store performs no locking: the host runs one operation at a time.
pub struct RecordStore {
    shelves: Vec<Shelf>,
    model: Ghost<Map<Seq<u8>, Seq<ReportCardView>>>,
}

impl View for RecordStore {
    type V = Map<Seq<u8>, Seq<ReportCardView>>;

    closed spec fn view(&self) -> Map<Seq<u8>, Seq<ReportCardView>> {
        self.model@
    }
}

impl RecordStore {
    /// One shelf per caller, and the model maps each caller that has a shelf,
    /// and no other, to the cards on it.
    pub closed spec fn wf(&self) -> bool {
        &&& forall|i: int, j: int|
            0 <= i < j < self.shelves@.len() ==> #[trigger] self.shelves@[i].owner@
                != #[trigger] self.shelves@[j].owner@
        &&& forall|i: int|
            0 <= i < self.shelves@.len() ==> {
                let s = #[trigger] self.shelves@[i];
                &&& self.model@.contains_key(s.owner@)
                &&& self.model@[s.owner@] == views(s.cards@)
            }
        &&& forall|k: Seq<u8>| #[trigger]
            self.model@.contains_key(k) ==> exists|i: int|
                0 <= i < self.shelves@.len() && #[trigger] self.shelves@[i].owner@ == k
    }

    /// A store that holds no cards.
    pub fn new() -> (r: RecordStore)
        ensures
            r.wf(),
            r@ == Map::<Seq<u8>, Seq<ReportCardView>>::empty(),
    {
        RecordStore { shelves: Vec::new(), model: Ghost(Map::empty()) }
    }

    /// Where `user`'s shelf stands, if it has one.
    fn position(&self, user: &Identity) -> (r: Option<usize>)
        requires
            self.wf(),
        ensures
            match r {
                Some(i) => i < self.shelves@.len() && self.shelves@[i as int].owner@ == user@,
                None => !self@.contains_key(user@),
            },
    {
        let mut i: usize = 0;
        while i < self.shelves.len()
            invariant
                i <= self.shelves@.len(),
                forall|j: int| 0 <= j < i ==> #[trigger] self.shelves@[j].owner@ != user@,
            decreases self.shelves@.len() - i,
        {
            if self.shelves[i].owner.same_as(user) {
                return Some(i);
            }
            i = i + 1;
        }
        None
    }

    /// Files the card for one submission under `user`: the card is derived
    /// from the marks and goes to the end of `user`'s cards.
    pub fn store_report_card(
        &mut self,
        user: Identity,
        student_name: String,
        total_marks: u32,
        num_subjects: u32,
    )
        requires
            old(self).wf(),
        ensures
            final(self).wf(),
            final(self)@ == after_store(
                old(self)@,
                user@,
                student_name@,
                total_marks,
                num_subjects,
            ),
    {
        let ghost name = student_name@;
        let report = ReportCard::new(student_name, total_marks, num_subjects);
        let ghost id = user@;
        let ghost old_shelves = self.shelves@;
        let ghost old_model = self.model@;
        let ghost new_cards = reports_of(old_model, id).push(card_of(name, total_marks, num_subjects));
        let ghost new_model = old_model.insert(id, new_cards);
        match self.position(&user) {
            Some(i) => {
                let mut shelf = self.shelves.remove(i);
                proof {
                    assert(shelf == old_shelves[i as int]);
                    assert(views(shelf.cards@.push(report)) =~= views(shelf.cards@).push(report@));
                }
                shelf.cards.push(report);
                self.shelves.insert(i, shelf);
                proof {
                    assert(self.shelves@ =~= old_shelves.update(i as int, shelf));
                    assert forall|j: int| 0 <= j < self.shelves@.len() implies
                        #[trigger] self.shelves@[j].owner@ == old_shelves[j].owner@ by {}
                    assert forall|k: Seq<u8>| #[trigger] new_model.contains_key(k) implies
                        exists|j: int| 0 <= j < self.shelves@.len() && #[trigger] self.shelves@[j].owner@ == k by {
                        if k != id {
                            let j = choose|j: int| 0 <= j < old_shelves.len() && #[trigger] old_shelves[j].owner@ == k;
                            assert(self.shelves@[j].owner@ == k);
                        } else {
                            assert(self.shelves@[i as int].owner@ == k);
                        }
                    }
                }
            },
            None => {
                let mut cards = Vec::new();
                cards.push(report);
                proof {
                    assert(views(cards@) =~= Seq::<ReportCardView>::empty().push(report@));
                }
                self.shelves.push(Shelf { owner: user, cards });
                proof {
                    let n = old_shelves.len() as int;
                    assert forall|j: int| 0 <= j < n implies #[trigger] self.shelves@[j].owner@ != id by {
                        assert(self.shelves@[j] == old_shelves[j]);
                        assert(old_model.contains_key(old_shelves[j].owner@));
                    }
                    assert forall|k: Seq<u8>| #[trigger] new_model.contains_key(k) implies
                        exists|j: int| 0 <= j < self.shelves@.len() && #[trigger] self.shelves@[j].owner@ == k by {
                        if k != id {
                            let j = choose|j: int| 0 <= j < old_shelves.len() && #[trigger] old_shelves[j].owner@ == k;
                            assert(self.shelves@[j] == old_shelves[j]);
                        } else {
                            assert(self.shelves@[n].owner@ == k);
                        }
                    }
                }
            },
        }
        self.model = Ghost(new_model);
        proof {
            assert forall|i: int, j: int| 0 <= i < j < self.shelves@.len() implies
                #[trigger] self.shelves@[i].owner@ != #[trigger] self.shelves@[j].owner@ by {}
            assert forall|i: int| 0 <= i < self.shelves@.len() implies {
                let s = #[trigger] self.shelves@[i];
                &&& self.model@.contains_key(s.owner@)
                &&& self.model@[s.owner@] == views(s.cards@)
            } by {}
        }
    }

    /// A copy of the cards filed under `user`, oldest first; none where
    /// `user` has filed nothing.
    pub fn get_my_reports(&self, user: &Identity) -> (r: Vec<ReportCard>)
        requires
            self.wf(),
        ensures
            views(r@) == reports_of(self@, user@),
    {
        match self.position(user) {
            None => {
                let r: Vec<ReportCard> = Vec::new();
                assert(views(r@) =~= Seq::<ReportCardView>::empty());
                r
            },
            Some(i) => {
                let cards = &self.shelves[i].cards;
                let mut r: Vec<ReportCard> = Vec::new();
                let mut j: usize = 0;
                while j < cards.len()
                    invariant
                        j <= cards@.len(),
                        views(r@) == views(cards@.subrange(0, j as int)),
                    decreases cards@.len() - j,
                {
                    r.push(cards[j].duplicate());
                    assert(views(cards@.subrange(0, j + 1)) =~= views(
                        cards@.subrange(0, j as int),
                    ).push(cards@[j as int]@));
                    proof {
                        assert(views(r@) =~= views(cards@.subrange(0, j + 1)));
                    }
                    j = j + 1;
                }
                assert(cards@.subrange(0, cards@.len() as int) =~= cards@);
                r
            },
        }
    }
}

/// Proves that filing submissions one after another keeps them all, in the
/// order they were filed: the caller's cards afterwards are its earlier
/// cards followed by one card per submission, none lost, repeated or moved.
pub proof fn lemma_stores_kept_in_order(
    m: Map<Seq<u8>, Seq<ReportCardView>>,
    id: Seq<u8>,
    subs: Seq<Submission>,
)
    ensures
        reports_of(after_stores(m, id, subs), id) == reports_of(m, id) + subs.map_values(
            |s: Submission| card_of_submission(s),
        ),
        reports_of(after_stores(m, id, subs), id).len() == reports_of(m, id).len() + subs.len(),
    decreases subs.len(),
{
    let cards = subs.map_values(|s: Submission| card_of_submission(s));
    if subs.len() == 0 {
        assert(reports_of(m, id) + cards =~= reports_of(m, id));
    } else {
        let rest = subs.drop_last();
        lemma_stores_kept_in_order(m, id, rest);
        let rest_cards = rest.map_values(|s: Submission| card_of_submission(s));
        assert(cards =~= rest_cards.push(card_of_submission(subs.last())));
        assert(reports_of(m, id) + cards =~= (reports_of(m, id) + rest_cards).push(
            card_of_submission(subs.last()),
        ));
    }
}

/// Proves that what one caller files is never seen by another: `b`'s cards
/// are the same before and after any submissions filed by `a`.
pub proof fn lemma_stores_isolated(
    m: Map<Seq<u8>, Seq<ReportCardView>>,
    a: Seq<u8>,
    b: Seq<u8>,
    subs: Seq<Submission>,
)
    requires
        a != b,
    ensures
        reports_of(after_stores(m, a, subs), b) == reports_of(m, b),
    decreases subs.len(),
{
    if subs.len() > 0 {
        lemma_stores_isolated(m, a, b, subs.drop_last());
    }
}

/// Proves that a caller that has filed nothing has no cards: starting from
/// an empty store, whatever another caller files, `b` finds no cards.
pub proof fn lemma_unseen_caller_has_none(a: Seq<u8>, b: Seq<u8>, subs: Seq<Submission>)
    requires
        a != b,
    ensures
        reports_of(after_stores(Map::empty(), a, subs), b) == Seq::<ReportCardView>::empty(),
{
    lemma_stores_isolated(Map::empty(), a, b, subs);
}

} // verus!