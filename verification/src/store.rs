//! The checkpointed persistence store, modeled in memory.
//!
//! The real database is an external collaborator; this module is the exact
//! statement of what the store does: idempotent inserts keyed by external
//! id, an association table, and a single-row resumption checkpoint that
//! advances atomically with the listings it covers. A commit either applies
//! wholly or leaves the store untouched — a partial write is contractually
//! impossible.
use vstd::prelude::*;

use crate::catalog;
use crate::extract::Listing;
use crate::extract::SaleDate;
use crate::text;

verus! {

/// The persistent identity of one item-variant.
#[derive(Debug, Clone)]
pub struct ItemKey {
    pub set_name: String,
    pub expansion_number: u32,
    pub number: u32,
    pub class: catalog::Class,
}

/// The plain values an item key is judged by.
pub ghost struct ItemKeyModel {
    pub set_name: Seq<char>,
    pub expansion_number: u32,
    pub number: u32,
    pub class: catalog::Class,
}

pub open spec fn key_model(k: ItemKey) -> ItemKeyModel {
    ItemKeyModel {
        set_name: k.set_name@,
        expansion_number: k.expansion_number,
        number: k.number,
        class: k.class,
    }
}

/// One row of the association table, linking a listing to an item-variant.
#[derive(Debug, Clone)]
pub struct Assoc {
    pub listing_id: u64,
    pub key: ItemKey,
}

pub ghost struct AssocModel {
    pub listing_id: u64,
    pub key: ItemKeyModel,
}

pub open spec fn assoc_model(a: Assoc) -> AssocModel {
    AssocModel { listing_id: a.listing_id, key: key_model(a.key) }
}

pub open spec fn assocs_model(s: Seq<Assoc>) -> Seq<AssocModel> {
    s.map_values(|a: Assoc| assoc_model(a))
}

/// One row of the catalog table.
#[derive(Debug, Clone)]
pub struct CatalogRow {
    pub set_name: String,
    pub expansion_number: u32,
    pub number: u32,
    pub class: catalog::Class,
    pub name: String,
    pub rarity: catalog::Rarity,
}

/// The single-row resumption checkpoint: the furthest item-variant a sweep
/// has completed.
#[derive(Debug, Clone)]
pub struct Checkpoint {
    pub set_name: String,
    pub expansion_number: u32,
    pub number: u32,
    pub class: catalog::Class,
}

/// A listing is present when some stored row carries its external id.
pub open spec fn has_id_spec(s: Seq<Listing>, id: u64) -> bool {
    exists|i: int| 0 <= i < s.len() && s[i].id == id
}

/// Listings inserted left to right, each skipped when its external id is
/// already present: the conflict-skip the listings table performs.
pub open spec fn insert_listings_seq(cur: Seq<Listing>, ls: Seq<Listing>) -> Seq<Listing>
    decreases ls.len(),
{
    if ls.len() == 0 {
        cur
    } else {
        let c1 = insert_listings_seq(cur, ls.drop_last());
        if has_id_spec(c1, ls.last().id) {
            c1
        } else {
            c1.push(ls.last())
        }
    }
}

pub open spec fn has_assoc_spec(s: Seq<AssocModel>, id: u64, key: ItemKeyModel) -> bool {
    exists|i: int| 0 <= i < s.len() && s[i].listing_id == id && s[i].key == key
}

/// Associations inserted left to right, each skipped when the composite
/// key is already present.
pub open spec fn insert_assocs_seq(
    cur: Seq<AssocModel>,
    key: ItemKeyModel,
    ls: Seq<Listing>,
) -> Seq<AssocModel>
    decreases ls.len(),
{
    if ls.len() == 0 {
        cur
    } else {
        let c1 = insert_assocs_seq(cur, key, ls.drop_last());
        if has_assoc_spec(c1, ls.last().id, key) {
            c1
        } else {
            c1.push(AssocModel { listing_id: ls.last().id, key })
        }
    }
}

/// A catalog row for the given coordinates is present.
pub open spec fn has_catalog_row(
    rows: Seq<CatalogRow>,
    set_name: Seq<char>,
    expansion_number: u32,
    number: u32,
    class: catalog::Class,
) -> bool {
    exists|i: int|
        0 <= i < rows.len() && #[trigger] rows[i].set_name@ == set_name
            && rows[i].expansion_number == expansion_number && rows[i].number == number
            && rows[i].class == class
}

/// A date on record for the key: some stored listing associated with the
/// key carries it.
pub open spec fn recorded_date(
    listings: Seq<Listing>,
    assocs: Seq<AssocModel>,
    key: ItemKeyModel,
    d: SaleDate,
) -> bool {
    exists|i: int, j: int|
        #![trigger assocs[i], listings[j]]
        0 <= i < assocs.len() && 0 <= j < listings.len() && assocs[i].key == key && listings[j].id
            == assocs[i].listing_id && listings[j].date == d
}

/// The in-memory store: listings keyed by external id, their associations,
/// the catalog, and the resumption checkpoint.
#[derive(Debug)]
pub struct Store {
    pub listings: Vec<Listing>,
    pub assocs: Vec<Assoc>,
    pub catalog: Vec<CatalogRow>,
    pub checkpoint: Option<Checkpoint>,
}

impl Store {
    /// An empty store.
    pub fn new() -> (r: Store)
        ensures
            r.listings@ == Seq::<Listing>::empty(),
            r.assocs@ == Seq::<Assoc>::empty(),
            r.catalog@ == Seq::<CatalogRow>::empty(),
            r.checkpoint is None,
    {
        Store { listings: Vec::new(), assocs: Vec::new(), catalog: Vec::new(), checkpoint: None }
    }

    fn has_listing(&self, id: u64) -> (r: bool)
        ensures
            r == has_id_spec(self.listings@, id),
    {
        let mut i: usize = 0;
        while i < self.listings.len()
            invariant
                i <= self.listings@.len(),
                forall|j: int| 0 <= j < i ==> self.listings@[j].id != id,
            decreases self.listings@.len() - i,
        {
            if self.listings[i].id == id {
                return true;
            }
            i += 1;
        }
        false
    }

    fn has_assoc(&self, id: u64, key: &ItemKey) -> (r: bool)
        ensures
            r == has_assoc_spec(assocs_model(self.assocs@), id, key_model(*key)),
    {
        let mut i: usize = 0;
        while i < self.assocs.len()
            invariant
                i <= self.assocs@.len(),
                forall|j: int|
                    0 <= j < i ==> !(#[trigger] assocs_model(self.assocs@)[j].listing_id == id
                        && assocs_model(self.assocs@)[j].key == key_model(*key)),
            decreases self.assocs@.len() - i,
        {
            let a = &self.assocs[i];
            if a.listing_id == id && text::str_eq(a.key.set_name.as_str(), key.set_name.as_str())
                && a.key.expansion_number == key.expansion_number && a.key.number == key.number
                && a.key.class == key.class {
                proof {
                    assert(assocs_model(self.assocs@)[i as int].key == key_model(*key));
                }
                return true;
            }
            i += 1;
            proof {
                assert(assocs_model(self.assocs@)[i - 1].key == key_model(a.key));
            }
        }
        false
    }

    /// One transaction: insert the listings (skipping ids already stored),
    /// insert their associations to `key` (skipping those present), and
    /// advance the checkpoint to `key`. `txn_fails` models the underlying
    /// transaction failing at any point inside: the whole commit then rolls
    /// back and the store is exactly as before — no partial write exists.
    #[verifier::loop_isolation(false)]
    pub fn commit_listings(&mut self, key: &ItemKey, listings: Vec<Listing>, txn_fails: bool) -> (r:
        Result<(), String>)
        ensures
            txn_fails ==> r is Err && *final(self) == *old(self),
            !txn_fails ==> {
                &&& r is Ok
                &&& final(self).listings@ == insert_listings_seq(old(self).listings@, listings@)
                &&& assocs_model(final(self).assocs@) == insert_assocs_seq(
                    assocs_model(old(self).assocs@),
                    key_model(*key),
                    listings@,
                )
                &&& final(self).catalog@ == old(self).catalog@
                &&& final(self).checkpoint matches Some(cp) && cp.set_name@ == key.set_name@
                    && cp.expansion_number == key.expansion_number && cp.number == key.number
                    && cp.class == key.class
            },
    {
        if txn_fails {
            return Err("Failed to create listing".to_owned());
        }
        let ghost all = listings@;
        let n_all = listings.len();
        let mut rest = listings;
        proof {
            assert(all.take(0) =~= Seq::<Listing>::empty());
            assert(rest@ =~= all.skip(0));
        }
        let mut k_exec: usize = 0;
        while rest.len() > 0
            invariant
                k_exec <= all.len(),
                all.len() == n_all,
                rest@ == all.skip(k_exec as int),
                self.listings@ == insert_listings_seq(old(self).listings@, all.take(k_exec as int)),
                assocs_model(self.assocs@) == insert_assocs_seq(
                    assocs_model(old(self).assocs@),
                    key_model(*key),
                    all.take(k_exec as int),
                ),
                self.catalog@ == old(self).catalog@,
                self.checkpoint == old(self).checkpoint,
            decreases rest@.len(),
        {
            proof {
                assert(k_exec < all.len());
            }
            let l = rest.remove(0);
            proof {
                assert(l == all[k_exec as int]);
                assert(rest@ =~= all.skip(k_exec + 1));
                assert(all.take(k_exec + 1).drop_last() =~= all.take(k_exec as int));
                assert(all.take(k_exec + 1).last() == all[k_exec as int]);
            }
            let id = l.id;
            if !self.has_listing(id) {
                self.listings.push(l);
            }
            if !self.has_assoc(id, key) {
                let a = Assoc {
                    listing_id: id,
                    key: ItemKey {
                        set_name: clone_string(&key.set_name),
                        expansion_number: key.expansion_number,
                        number: key.number,
                        class: key.class,
                    },
                };
                let ghost before = self.assocs@;
                self.assocs.push(a);
                proof {
                    assert(assocs_model(self.assocs@) =~= assocs_model(before).push(
                        AssocModel { listing_id: id, key: key_model(*key) },
                    ));
                }
            } else {
                proof {
                    assert(assocs_model(self.assocs@) == insert_assocs_seq(
                        assocs_model(old(self).assocs@),
                        key_model(*key),
                        all.take(k_exec + 1),
                    ));
                }
            }
            k_exec += 1;
        }
        proof {
            assert(all.take(all.len() as int) =~= all);
        }
        self.checkpoint = Some(
            Checkpoint {
                set_name: clone_string(&key.set_name),
                expansion_number: key.expansion_number,
                number: key.number,
                class: key.class,
            },
        );
        Ok(())
    }

    /// Resets the checkpoint once a full sweep has completed, leaving all
    /// data untouched.
    pub fn clear_checkpoint(&mut self)
        ensures
            final(self).checkpoint is None,
            final(self).listings@ == old(self).listings@,
            final(self).assocs@ == old(self).assocs@,
            final(self).catalog@ == old(self).catalog@,
    {
        self.checkpoint = None;
    }

    /// The most recent sale date on record for an item-variant, the
    /// extractor's watermark; `None` when nothing is recorded for it.
    #[verifier::loop_isolation(false)]
    pub fn last_known_listing_date(&self, key: &ItemKey) -> (r: Option<SaleDate>)
        ensures
            match r {
                None => forall|d: SaleDate|
                    !recorded_date(
                        self.listings@,
                        assocs_model(self.assocs@),
                        key_model(*key),
                        d,
                    ),
                Some(d) => recorded_date(
                    self.listings@,
                    assocs_model(self.assocs@),
                    key_model(*key),
                    d,
                ) && forall|d2: SaleDate|
                    recorded_date(self.listings@, assocs_model(self.assocs@), key_model(*key), d2)
                        ==> !d.spec_before(d2),
            },
    {
        let ghost ls = self.listings@;
        let ghost am = assocs_model(self.assocs@);
        let ghost km = key_model(*key);
        let mut best: Option<SaleDate> = None;
        let mut i: usize = 0;
        while i < self.assocs.len()
            invariant
                i <= self.assocs@.len(),
                match best {
                    None => forall|a: int, j: int|
                        #![trigger am[a], ls[j]]
                        0 <= a < i && 0 <= j < ls.len() && am[a].key == km ==> ls[j].id != am[
                            a].listing_id,
                    Some(b) => {
                        &&& recorded_date(ls, am, km, b)
                        &&& forall|a: int, j: int|
                            #![trigger am[a], ls[j]]
                            0 <= a < i && 0 <= j < ls.len() && am[a].key == km && ls[j].id == am[
                                a].listing_id ==> !b.spec_before(ls[j].date)
                    },
                },
            decreases self.assocs@.len() - i,
        {
            let a = &self.assocs[i];
            let is_match = text::str_eq(a.key.set_name.as_str(), key.set_name.as_str())
                && a.key.expansion_number == key.expansion_number && a.key.number == key.number
                && a.key.class == key.class;
            proof {
                assert(am[i as int] == assoc_model(self.assocs@[i as int]));
                if is_match {
                    assert(am[i as int].key == km);
                } else {
                    assert(am[i as int].key != km);
                }
            }
            if is_match {
                let aid = a.listing_id;
                let mut j: usize = 0;
                while j < self.listings.len()
                    invariant
                        j <= ls.len(),
                        aid == am[i as int].listing_id,
                        am[i as int].key == km,
                        i < am.len(),
                        match best {
                            None => forall|a2: int, j2: int|
                                #![trigger am[a2], ls[j2]]
                                (0 <= a2 < i && 0 <= j2 < ls.len() && am[a2].key == km ==> ls[
                                    j2].id != am[a2].listing_id) && (a2 == i && 0 <= j2 < j
                                    ==> ls[j2].id != aid),
                            Some(b) => {
                                &&& recorded_date(ls, am, km, b)
                                &&& forall|a2: int, j2: int|
                                    #![trigger am[a2], ls[j2]]
                                    0 <= a2 < i && 0 <= j2 < ls.len() && am[a2].key == km && ls[
                                        j2].id == am[a2].listing_id ==> !b.spec_before(ls[j2].date)
                                &&& forall|j2: int|
                                    0 <= j2 < j && #[trigger] ls[j2].id == aid ==> !b.spec_before(
                                        ls[j2].date,
                                    )
                            },
                        },
                    decreases ls.len() - j,
                {
                    if self.listings[j].id == aid {
                        let d = self.listings[j].date;
                        proof {
                            assert(recorded_date(ls, am, km, d)) by {
                                assert(am[i as int].key == km && ls[j as int].id == am[
                                    i as int].listing_id && ls[j as int].date == d);
                            }
                        }
                        match best {
                            None => {
                                best = Some(d);
                            },
                            Some(b) => {
                                if b.before(&d) {
                                    best = Some(d);
                                }
                            },
                        }
                    }
                    j += 1;
                }
            }
            i += 1;
        }
        proof {
            match best {
                Some(b) => {
                    assert forall|d2: SaleDate| recorded_date(ls, am, km, d2) implies !b
                        .spec_before(d2) by {
                        let (a2, j2): (int, int) = choose|a2: int, j2: int|
                            #![trigger am[a2], ls[j2]]
                            0 <= a2 < am.len() && 0 <= j2 < ls.len() && am[a2].key == km && ls[
                                j2].id == am[a2].listing_id && ls[j2].date == d2;
                        assert(!b.spec_before(ls[j2].date));
                    }
                },
                None => {
                    assert forall|d2: SaleDate| !recorded_date(ls, am, km, d2) by {
                        if recorded_date(ls, am, km, d2) {
                            let (a2, j2): (int, int) = choose|a2: int, j2: int|
                                #![trigger am[a2], ls[j2]]
                                0 <= a2 < am.len() && 0 <= j2 < ls.len() && am[a2].key == km && ls[
                                    j2].id == am[a2].listing_id && ls[j2].date == d2;
                            assert(ls[j2].id != am[a2].listing_id);
                        }
                    }
                },
            }
        }
        best
    }
}

/// Relies on `String::clone`: the copy holds the same characters.
fn clone_string(s: &String) -> (r: String)
    ensures
        r@ == s@,
{
    s.clone()
}

/// The catalog row one `(expansion, card, class)` unit writes.
pub open spec fn row_is_unit(
    row: CatalogRow,
    e: catalog::Expansion,
    c: catalog::Pokemon,
    cl: catalog::Class,
) -> bool {
    &&& row.set_name@ == e.set_name@
    &&& row.expansion_number == e.expansion_number
    &&& row.number == c.number as u32
    &&& row.class == cl
    &&& row.name@ == c.name@
    &&& row.rarity == c.rarity
}

impl Store {
    fn has_catalog_key(
        &self,
        set_name: &String,
        expansion_number: u32,
        number: u32,
        class: catalog::Class,
    ) -> (r: bool)
        ensures
            r == has_catalog_row(self.catalog@, set_name@, expansion_number, number, class),
    {
        let mut i: usize = 0;
        while i < self.catalog.len()
            invariant
                i <= self.catalog@.len(),
                forall|j: int|
                    0 <= j < i ==> !(#[trigger] self.catalog@[j].set_name@ == set_name@
                        && self.catalog@[j].expansion_number == expansion_number
                        && self.catalog@[j].number == number && self.catalog@[j].class == class),
            decreases self.catalog@.len() - i,
        {
            let row = &self.catalog[i];
            if text::str_eq(row.set_name.as_str(), set_name.as_str()) && row.expansion_number
                == expansion_number && row.number == number && row.class == class {
                return true;
            }
            i += 1;
        }
        false
    }

    /// Idempotently loads the whole catalog: afterwards every
    /// `(expansion, card, class)` unit has its row, the rows already stored
    /// are untouched, and every row added came from the catalog and had no
    /// row with its key before it.
    #[verifier::loop_isolation(false)]
    #[verifier::rlimit(60)]
    pub fn ensure_catalog_loaded(&mut self, expansions: &Vec<catalog::Expansion>)
        ensures
            final(self).listings@ == old(self).listings@,
            final(self).assocs@ == old(self).assocs@,
            final(self).checkpoint == old(self).checkpoint,
            final(self).catalog@.len() >= old(self).catalog@.len(),
            forall|t: int|
                0 <= t < old(self).catalog@.len() ==> #[trigger] final(self).catalog@[t] == old(
                    self,
                ).catalog@[t],
            forall|e: int, c: int, k: int|
                #![trigger expansions@[e].cards@[c].class@[k]]
                0 <= e < expansions@.len() && 0 <= c < expansions@[e].cards@.len() && 0 <= k
                    < expansions@[e].cards@[c].class@.len() ==> has_catalog_row(
                    final(self).catalog@,
                    expansions@[e].set_name@,
                    expansions@[e].expansion_number,
                    expansions@[e].cards@[c].number as u32,
                    expansions@[e].cards@[c].class@[k],
                ),
            forall|t: int|
                old(self).catalog@.len() <= t < final(self).catalog@.len() ==> (exists|
                    e: int,
                    c: int,
                    k: int,
                |
                    0 <= e < expansions@.len() && 0 <= c < expansions@[e].cards@.len() && 0 <= k
                        < expansions@[e].cards@[c].class@.len() && row_is_unit(
                        #[trigger] final(self).catalog@[t],
                        expansions@[e],
                        expansions@[e].cards@[c],
                        expansions@[e].cards@[c].class@[k],
                    )) && !has_catalog_row(
                    final(self).catalog@.take(t),
                    final(self).catalog@[t].set_name@,
                    final(self).catalog@[t].expansion_number,
                    final(self).catalog@[t].number,
                    final(self).catalog@[t].class,
                ),
    {
        let ghost old_cat = self.catalog@;
        let mut e: usize = 0;
        while e < expansions.len()
            invariant
                e <= expansions@.len(),
                self.listings@ == old(self).listings@,
                self.assocs@ == old(self).assocs@,
                self.checkpoint == old(self).checkpoint,
                self.catalog@.len() >= old_cat.len(),
                forall|t: int| 0 <= t < old_cat.len() ==> #[trigger] self.catalog@[t] == old_cat[t],
                forall|e2: int, c2: int, k2: int|
                    #![trigger expansions@[e2].cards@[c2].class@[k2]]
                    0 <= e2 < e && 0 <= c2 < expansions@[e2].cards@.len() && 0 <= k2
                        < expansions@[e2].cards@[c2].class@.len() ==> has_catalog_row(
                        self.catalog@,
                        expansions@[e2].set_name@,
                        expansions@[e2].expansion_number,
                        expansions@[e2].cards@[c2].number as u32,
                        expansions@[e2].cards@[c2].class@[k2],
                    ),
                forall|t: int|
                    old_cat.len() <= t < self.catalog@.len() ==> (exists|e2: int, c2: int, k2: int|
                        0 <= e2 < expansions@.len() && 0 <= c2 < expansions@[e2].cards@.len() && 0
                            <= k2 < expansions@[e2].cards@[c2].class@.len() && row_is_unit(
                            #[trigger] self.catalog@[t],
                            expansions@[e2],
                            expansions@[e2].cards@[c2],
                            expansions@[e2].cards@[c2].class@[k2],
                        )) && !has_catalog_row(
                        self.catalog@.take(t),
                        self.catalog@[t].set_name@,
                        self.catalog@[t].expansion_number,
                        self.catalog@[t].number,
                        self.catalog@[t].class,
                    ),
            decreases expansions@.len() - e,
        {
            let exp = &expansions[e];
            let mut c: usize = 0;
            while c < exp.cards.len()
                invariant
                    c <= exp.cards@.len(),
                    self.listings@ == old(self).listings@,
                    self.assocs@ == old(self).assocs@,
                    self.checkpoint == old(self).checkpoint,
                    self.catalog@.len() >= old_cat.len(),
                    forall|t: int|
                        0 <= t < old_cat.len() ==> #[trigger] self.catalog@[t] == old_cat[t],
                    forall|e2: int, c2: int, k2: int|
                        #![trigger expansions@[e2].cards@[c2].class@[k2]]
                        0 <= e2 < e && 0 <= c2 < expansions@[e2].cards@.len() && 0 <= k2
                            < expansions@[e2].cards@[c2].class@.len() ==> has_catalog_row(
                            self.catalog@,
                            expansions@[e2].set_name@,
                            expansions@[e2].expansion_number,
                            expansions@[e2].cards@[c2].number as u32,
                            expansions@[e2].cards@[c2].class@[k2],
                        ),
                    forall|c2: int, k2: int|
                        #![trigger exp.cards@[c2].class@[k2]]
                        0 <= c2 < c && 0 <= k2 < exp.cards@[c2].class@.len() ==> has_catalog_row(
                            self.catalog@,
                            exp.set_name@,
                            exp.expansion_number,
                            exp.cards@[c2].number as u32,
                            exp.cards@[c2].class@[k2],
                        ),
                    forall|t: int|
                        old_cat.len() <= t < self.catalog@.len() ==> (exists|
                            e2: int,
                            c2: int,
                            k2: int,
                        |
                            0 <= e2 < expansions@.len() && 0 <= c2 < expansions@[e2].cards@.len()
                                && 0 <= k2 < expansions@[e2].cards@[c2].class@.len() && row_is_unit(
                                #[trigger] self.catalog@[t],
                                expansions@[e2],
                                expansions@[e2].cards@[c2],
                                expansions@[e2].cards@[c2].class@[k2],
                            )) && !has_catalog_row(
                            self.catalog@.take(t),
                            self.catalog@[t].set_name@,
                            self.catalog@[t].expansion_number,
                            self.catalog@[t].number,
                            self.catalog@[t].class,
                        ),
                decreases exp.cards@.len() - c,
            {
                let card = &exp.cards[c];
                let mut k: usize = 0;
                while k < card.class.len()
                    invariant
                        k <= card.class@.len(),
                        self.listings@ == old(self).listings@,
                        self.assocs@ == old(self).assocs@,
                        self.checkpoint == old(self).checkpoint,
                        self.catalog@.len() >= old_cat.len(),
                        forall|t: int|
                            0 <= t < old_cat.len() ==> #[trigger] self.catalog@[t] == old_cat[t],
                        forall|e2: int, c2: int, k2: int|
                            #![trigger expansions@[e2].cards@[c2].class@[k2]]
                            0 <= e2 < e && 0 <= c2 < expansions@[e2].cards@.len() && 0 <= k2
                                < expansions@[e2].cards@[c2].class@.len() ==> has_catalog_row(
                                self.catalog@,
                                expansions@[e2].set_name@,
                                expansions@[e2].expansion_number,
                                expansions@[e2].cards@[c2].number as u32,
                                expansions@[e2].cards@[c2].class@[k2],
                            ),
                        forall|c2: int, k2: int|
                            #![trigger exp.cards@[c2].class@[k2]]
                            0 <= c2 < c && 0 <= k2 < exp.cards@[c2].class@.len()
                                ==> has_catalog_row(
                                self.catalog@,
                                exp.set_name@,
                                exp.expansion_number,
                                exp.cards@[c2].number as u32,
                                exp.cards@[c2].class@[k2],
                            ),
                        forall|k2: int|
                            0 <= k2 < k ==> has_catalog_row(
                                self.catalog@,
                                exp.set_name@,
                                exp.expansion_number,
                                card.number as u32,
                                #[trigger] card.class@[k2],
                            ),
                        forall|t: int|
                            old_cat.len() <= t < self.catalog@.len() ==> (exists|
                                e2: int,
                                c2: int,
                                k2: int,
                            |
                                0 <= e2 < expansions@.len() && 0 <= c2 < expansions@[
                                    e2].cards@.len() && 0 <= k2 < expansions@[e2].cards@[
                                    c2].class@.len() && row_is_unit(
                                    #[trigger] self.catalog@[t],
                                    expansions@[e2],
                                    expansions@[e2].cards@[c2],
                                    expansions@[e2].cards@[c2].class@[k2],
                                )) && !has_catalog_row(
                                self.catalog@.take(t),
                                self.catalog@[t].set_name@,
                                self.catalog@[t].expansion_number,
                                self.catalog@[t].number,
                                self.catalog@[t].class,
                            ),
                    decreases card.class@.len() - k,
                {
                    let cl = card.class[k];
                    let number32: u32 = #[verifier::truncate] (card.number as u32);
                    if !self.has_catalog_key(&exp.set_name, exp.expansion_number, number32, cl) {
                        let ghost before = self.catalog@;
                        let row = CatalogRow {
                            set_name: clone_string(&exp.set_name),
                            expansion_number: exp.expansion_number,
                            number: number32,
                            class: cl,
                            name: clone_string(&card.name),
                            rarity: card.rarity,
                        };
                        self.catalog.push(row);
                        proof {
                            assert(self.catalog@.take(before.len() as int) =~= before);
                            assert(row_is_unit(
                                self.catalog@[before.len() as int],
                                expansions@[e as int],
                                expansions@[e as int].cards@[c as int],
                                expansions@[e as int].cards@[c as int].class@[k as int],
                            ));
                            assert forall|t: int|
                                old_cat.len() <= t < self.catalog@.len() - 1 implies self.catalog@.take(
                                t,
                            ) =~= before.take(t) by {}
                        }
                    }
                    k += 1;
                }
                c += 1;
            }
            e += 1;
        }
    }
}

/// Inserting listings never loses a stored id.
proof fn lemma_insert_listings_monotone(cur: Seq<Listing>, ls: Seq<Listing>, id: u64)
    requires
        has_id_spec(cur, id),
    ensures
        has_id_spec(insert_listings_seq(cur, ls), id),
    decreases ls.len(),
{
    if ls.len() > 0 {
        lemma_insert_listings_monotone(cur, ls.drop_last(), id);
        let c1 = insert_listings_seq(cur, ls.drop_last());
        if !has_id_spec(c1, ls.last().id) {
            let i = choose|i: int| 0 <= i < c1.len() && c1[i].id == id;
            assert(c1.push(ls.last())[i] == c1[i]);
        }
    }
}

/// After inserting, every inserted id is stored.
proof fn lemma_insert_listings_covers(cur: Seq<Listing>, ls: Seq<Listing>)
    ensures
        forall|j: int|
            0 <= j < ls.len() ==> has_id_spec(insert_listings_seq(cur, ls), #[trigger] ls[j].id),
    decreases ls.len(),
{
    if ls.len() > 0 {
        lemma_insert_listings_covers(cur, ls.drop_last());
        let c1 = insert_listings_seq(cur, ls.drop_last());
        let out = insert_listings_seq(cur, ls);
        assert forall|j: int| 0 <= j < ls.len() implies has_id_spec(out, #[trigger] ls[j].id) by {
            if j < ls.len() - 1 {
                assert(ls.drop_last()[j] == ls[j]);
                lemma_insert_listings_monotone(c1, seq![], ls[j].id);
                if !has_id_spec(c1, ls.last().id) {
                    let i = choose|i: int| 0 <= i < c1.len() && c1[i].id == ls[j].id;
                    assert(c1.push(ls.last())[i] == c1[i]);
                }
            } else {
                if !has_id_spec(c1, ls.last().id) {
                    assert(out[out.len() - 1].id == ls.last().id);
                }
            }
        }
    }
}

/// Inserting ids that are all stored already changes nothing.
proof fn lemma_insert_listings_noop(base: Seq<Listing>, ls: Seq<Listing>)
    requires
        forall|j: int| 0 <= j < ls.len() ==> has_id_spec(base, #[trigger] ls[j].id),
    ensures
        insert_listings_seq(base, ls) == base,
    decreases ls.len(),
{
    if ls.len() > 0 {
        assert forall|j: int| 0 <= j < ls.drop_last().len() implies has_id_spec(
            base,
            #[trigger] ls.drop_last()[j].id,
        ) by {
            assert(ls.drop_last()[j] == ls[j]);
        }
        lemma_insert_listings_noop(base, ls.drop_last());
    }
}

/// Committing a listing set again — any listings whose ids were all in the
/// first set — leaves the listings exactly as the first commit left them:
/// the conflict-skip on the external id makes `commit_listings` idempotent.
pub proof fn lemma_commit_listings_idempotent(
    cur: Seq<Listing>,
    ls: Seq<Listing>,
    again: Seq<Listing>,
)
    requires
        forall|j: int|
            0 <= j < again.len() ==> exists|i: int|
                0 <= i < ls.len() && #[trigger] again[j].id == ls[i].id,
    ensures
        insert_listings_seq(insert_listings_seq(cur, ls), again) == insert_listings_seq(cur, ls),
{
    let base = insert_listings_seq(cur, ls);
    lemma_insert_listings_covers(cur, ls);
    assert forall|j: int| 0 <= j < again.len() implies has_id_spec(
        base,
        #[trigger] again[j].id,
    ) by {
        let i = choose|i: int| 0 <= i < ls.len() && again[j].id == ls[i].id;
        assert(has_id_spec(base, ls[i].id));
    }
    lemma_insert_listings_noop(base, again);
}

proof fn lemma_insert_assocs_monotone(
    cur: Seq<AssocModel>,
    key: ItemKeyModel,
    ls: Seq<Listing>,
    id: u64,
)
    requires
        has_assoc_spec(cur, id, key),
    ensures
        has_assoc_spec(insert_assocs_seq(cur, key, ls), id, key),
    decreases ls.len(),
{
    if ls.len() > 0 {
        lemma_insert_assocs_monotone(cur, key, ls.drop_last(), id);
        let c1 = insert_assocs_seq(cur, key, ls.drop_last());
        if !has_assoc_spec(c1, ls.last().id, key) {
            let i = choose|i: int| 0 <= i < c1.len() && c1[i].listing_id == id && c1[i].key == key;
            assert(c1.push(AssocModel { listing_id: ls.last().id, key })[i] == c1[i]);
        }
    }
}

proof fn lemma_insert_assocs_covers(cur: Seq<AssocModel>, key: ItemKeyModel, ls: Seq<Listing>)
    ensures
        forall|j: int|
            0 <= j < ls.len() ==> has_assoc_spec(
                insert_assocs_seq(cur, key, ls),
                #[trigger] ls[j].id,
                key,
            ),
    decreases ls.len(),
{
    if ls.len() > 0 {
        lemma_insert_assocs_covers(cur, key, ls.drop_last());
        let c1 = insert_assocs_seq(cur, key, ls.drop_last());
        let out = insert_assocs_seq(cur, key, ls);
        assert forall|j: int| 0 <= j < ls.len() implies has_assoc_spec(
            out,
            #[trigger] ls[j].id,
            key,
        ) by {
            if j < ls.len() - 1 {
                assert(ls.drop_last()[j] == ls[j]);
                if !has_assoc_spec(c1, ls.last().id, key) {
                    let i = choose|i: int|
                        0 <= i < c1.len() && c1[i].listing_id == ls[j].id && c1[i].key == key;
                    assert(c1.push(AssocModel { listing_id: ls.last().id, key })[i] == c1[i]);
                }
            } else {
                if !has_assoc_spec(c1, ls.last().id, key) {
                    assert(out[out.len() - 1].listing_id == ls.last().id);
                }
            }
        }
    }
}

proof fn lemma_insert_assocs_noop(base: Seq<AssocModel>, key: ItemKeyModel, ls: Seq<Listing>)
    requires
        forall|j: int| 0 <= j < ls.len() ==> has_assoc_spec(base, #[trigger] ls[j].id, key),
    ensures
        insert_assocs_seq(base, key, ls) == base,
    decreases ls.len(),
{
    if ls.len() > 0 {
        assert forall|j: int| 0 <= j < ls.drop_last().len() implies has_assoc_spec(
            base,
            #[trigger] ls.drop_last()[j].id,
            key,
        ) by {
            assert(ls.drop_last()[j] == ls[j]);
        }
        lemma_insert_assocs_noop(base, key, ls.drop_last());
    }
}

/// Re-committing the same listing set also leaves the association table
/// exactly as the first commit left it.
pub proof fn lemma_commit_assocs_idempotent(
    cur: Seq<AssocModel>,
    key: ItemKeyModel,
    ls: Seq<Listing>,
    again: Seq<Listing>,
)
    requires
        forall|j: int|
            0 <= j < again.len() ==> exists|i: int|
                0 <= i < ls.len() && #[trigger] again[j].id == ls[i].id,
    ensures
        insert_assocs_seq(insert_assocs_seq(cur, key, ls), key, again) == insert_assocs_seq(
            cur,
            key,
            ls,
        ),
{
    let base = insert_assocs_seq(cur, key, ls);
    lemma_insert_assocs_covers(cur, key, ls);
    assert forall|j: int| 0 <= j < again.len() implies has_assoc_spec(
        base,
        #[trigger] again[j].id,
        key,
    ) by {
        let i = choose|i: int| 0 <= i < ls.len() && again[j].id == ls[i].id;
        assert(has_assoc_spec(base, ls[i].id, key));
    }
    lemma_insert_assocs_noop(base, key, again);
}

} // verus!
