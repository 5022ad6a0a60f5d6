//! The chore list itself: the store of chores, how it is loaded and saved,
//! and what it shows.

use vstd::prelude::*;
use vstd::utf8::valid_utf8;
use crate::chore::{Chore, ChoreModel, Owner, views};
use crate::codec::{
    decode, decoded, encode, encode_records, encode_store, fills, lemma_decoded_encoding,
    lemma_decoded_reads, reads_as, RecordModel,
};
use crate::table::{build_table, table_of, Table, TableModel};

verus! {

/// The size of a section's heading, in points.
pub const HEADING_SIZE: u32 = 30;

/// The chores of a household, in the order in which they were entered. The
/// same chore may stand in it more than once.
pub struct App {
    chores: Vec<Chore>,
}

impl View for App {
    type V = Seq<ChoreModel>;

    closed spec fn view(&self) -> Seq<ChoreModel> {
        views(self.chores@)
    }
}

/// The chores of a list that was never saved.
pub open spec fn default_chores() -> Seq<ChoreModel> {
    seq![
        ChoreModel { name: "Staubsaugen"@, due: "Today"@, owner: Owner::Linus },
        ChoreModel { name: "Bad"@, due: "Tomorrow"@, owner: Owner::Linus },
        ChoreModel { name: "Boden"@, due: "Tomorrow"@, owner: Owner::Johannes },
    ]
}

/// The chores with which a list starts, given what was kept of an earlier
/// run: the store that the bytes are read as, each chore that was kept
/// without an owner having the default owner, and the default chores where
/// nothing was kept or the bytes are read as no store.
pub open spec fn loaded(persisted: Option<Seq<u8>>) -> Seq<ChoreModel> {
    match persisted {
        Some(bytes) => match decoded(bytes) {
            Some(chores) => chores,
            None => default_chores(),
        },
        None => default_chores(),
    }
}

/// The bytes that were handed over, if any.
pub open spec fn kept(persisted: Option<&[u8]>) -> Option<Seq<u8>> {
    match persisted {
        Some(bytes) => Some(bytes@),
        None => None,
    }
}

/// The chores of one owner, in the order of the store.
pub open spec fn owned_by(chores: Seq<ChoreModel>, owner: Owner) -> Seq<ChoreModel> {
    chores.filter(|chore: ChoreModel| chore.owner == owner)
}

/// The name under which an owner's chores are shown.
pub open spec fn heading_of(owner: Owner) -> Seq<char> {
    match owner {
        Owner::Linus => "Linus"@,
        Owner::Johannes => "Johannes"@,
    }
}

/// The number that tells an owner's table from the other's.
pub open spec fn id_of(owner: Owner) -> nat {
    match owner {
        Owner::Linus => 1,
        Owner::Johannes => 2,
    }
}

/// One owner's part of the page: a heading and the table of the owner's
/// chores.
pub struct Section {
    pub owner: Owner,
    pub id: u64,
    pub heading: String,
    pub heading_size: u32,
    pub table: Table,
}

/// What a section holds.
pub ghost struct SectionModel {
    pub owner: Owner,
    pub id: nat,
    pub heading: Seq<char>,
    pub heading_size: nat,
    pub table: TableModel,
}

impl View for Section {
    type V = SectionModel;

    open spec fn view(&self) -> SectionModel {
        SectionModel {
            owner: self.owner,
            id: self.id as nat,
            heading: self.heading@,
            heading_size: self.heading_size as nat,
            table: self.table@,
        }
    }
}

/// The section that shows an owner's chores out of the given store.
pub open spec fn section_of(chores: Seq<ChoreModel>, owner: Owner) -> SectionModel {
    SectionModel {
        owner,
        id: id_of(owner),
        heading: heading_of(owner),
        heading_size: 30,
        table: table_of(owned_by(chores, owner)),
    }
}

/// The page that shows a store: Linus's section, then Johannes's.
pub open spec fn page_of(chores: Seq<ChoreModel>) -> Seq<SectionModel> {
    seq![section_of(chores, Owner::Linus), section_of(chores, Owner::Johannes)]
}

impl Default for App {
    /// The list of a household that has not saved one yet.
    fn default() -> (app: Self)
        ensures
            app@ == default_chores(),
    {
        let mut chores: Vec<Chore> = Vec::new();
        chores.push(
            Chore { name: "Staubsaugen".to_owned(), due: "Today".to_owned(), owner: Owner::Linus },
        );
        chores.push(
            Chore { name: "Bad".to_owned(), due: "Tomorrow".to_owned(), owner: Owner::Linus },
        );
        chores.push(
            Chore { name: "Boden".to_owned(), due: "Tomorrow".to_owned(), owner: Owner::Johannes },
        );
        assert(views(chores@) =~= default_chores());
        App { chores }
    }
}

impl App {
    /// Starts the list from what was kept of an earlier run, if anything was.
    ///
    /// A chore that was kept without an owner is loaded with the default
    /// owner; the other chores and the order stay as they were kept.
    ///
    /// Where nothing was kept the list starts with the default chores. So it
    /// does where what was kept is read as no store: where it is cut short or
    /// damaged, where the list of chores is missing from it, or where a chore
    /// in it lacks its name or its due note. None of this is an error.
    pub fn new(persisted: Option<&[u8]>) -> (app: Self)
        ensures
            app@ == loaded(kept(persisted)),
    {
        match persisted {
            Some(bytes) => match decode(bytes) {
                Some(chores) => App { chores },
                None => App::default(),
            },
            None => App::default(),
        }
    }

    /// The bytes to keep for the next run: the encoding of the whole store,
    /// which is well-formed UTF-8.
    pub fn save(&self) -> (bytes: Vec<u8>)
        ensures
            bytes@ == encode_store(self@),
            valid_utf8(bytes@),
    {
        encode(self.chores.as_slice())
    }

    /// The chores of one owner, in the order of the store.
    pub fn chores_of(&self, owner: Owner) -> (list: Vec<Chore>)
        ensures
            views(list@) == owned_by(self@, owner),
    {
        let ghost all = views(self.chores@);
        let ghost wanted = |chore: ChoreModel| chore.owner == owner;
        let mut list: Vec<Chore> = Vec::new();
        let mut i: usize = 0;
        assert(all.take(0).filter(wanted) =~= Seq::<ChoreModel>::empty()) by {
            all.take(0).lemma_filter_len(wanted);
        }
        while i < self.chores.len()
            invariant
                i <= self.chores.len(),
                all == views(self.chores@),
                wanted == |chore: ChoreModel| chore.owner == owner,
                views(list@) == all.take(i as int).filter(wanted),
            decreases self.chores.len() - i,
        {
            let chore = &self.chores[i];
            proof {
                all.take(i as int).lemma_filter_push(all[i as int], wanted);
                assert(all.take(i + 1) =~= all.take(i as int).push(all[i as int]));
            }
            if chore.owner == owner {
                let ghost before = views(list@);
                list.push(chore.clone());
                assert(views(list@) =~= before.push(all[i as int]));
            }
            i += 1;
        }
        assert(all.take(i as int) =~= all);
        list
    }

    /// What is to be shown: one section for each owner, Linus first, each with
    /// the table of that owner's chores. Nothing of the store changes.
    pub fn update(&self) -> (page: Vec<Section>)
        ensures
            page@.map_values(|section: Section| section@) == page_of(self@),
    {
        let linus = self.chores_of(Owner::Linus);
        let johannes = self.chores_of(Owner::Johannes);
        let mut page: Vec<Section> = Vec::new();
        page.push(
            Section {
                owner: Owner::Linus,
                id: 1,
                heading: "Linus".to_owned(),
                heading_size: HEADING_SIZE,
                table: build_table(linus.as_slice()),
            },
        );
        page.push(
            Section {
                owner: Owner::Johannes,
                id: 2,
                heading: "Johannes".to_owned(),
                heading_size: HEADING_SIZE,
                table: build_table(johannes.as_slice()),
            },
        );
        assert(page@.map_values(|section: Section| section@) =~= page_of(self@));
        page
    }

    /// The button of a row was pressed. Marking the chore done is yet to come:
    /// the store stays as it is, and all that is handed back is a line for the
    /// log.
    #[allow(unused_variables)]
    pub fn done_clicked(&mut self, owner: Owner, row: usize) -> (note: String)
        ensures
            final(self)@ == old(self)@,
            note@ == "Done button clicked"@,
    {
        "Done button clicked".to_owned()
    }
}

/// What was saved is what is loaded.
pub proof fn lemma_load_saved(chores: Seq<ChoreModel>)
    ensures
        loaded(Some(encode_store(chores))) == chores,
{
    lemma_decoded_encoding(chores);
}

/// Loading, saving and loading again gives what the first load gave,
/// whatever was loaded from.
pub proof fn lemma_round_trip(persisted: Option<Seq<u8>>)
    ensures
        loaded(Some(encode_store(loaded(persisted)))) == loaded(persisted),
{
    lemma_load_saved(loaded(persisted));
}

/// What was kept loads chore for chore, whether or not the owners were kept
/// with the chores: each record gives one chore, in the order of the records,
/// and the default owner stands in wherever a record has none.
pub proof fn lemma_load_kept(records: Seq<RecordModel>)
    ensures
        loaded(Some(encode_records(records))) == fills(records),
{
    assert(reads_as(encode_records(records), fills(records)));
    lemma_decoded_reads(encode_records(records), fills(records));
}

/// Bytes that are read as no store load as the default chores, just as when
/// nothing was kept.
pub proof fn lemma_load_malformed(bytes: Seq<u8>)
    requires
        forall|chores: Seq<ChoreModel>| !reads_as(bytes, chores),
    ensures
        loaded(Some(bytes)) == loaded(None),
        loaded(Some(bytes)) == default_chores(),
{
}

/// The places in a store at which an owner's chores stand, from first to
/// last.
pub open spec fn places_of(chores: Seq<ChoreModel>, owner: Owner) -> Seq<int>
    decreases chores.len(),
{
    if chores.len() == 0 {
        Seq::empty()
    } else {
        let before = places_of(chores.drop_last(), owner);
        if chores.last().owner == owner {
            before.push(chores.len() - 1)
        } else {
            before
        }
    }
}

/// An owner's list keeps the order of the store: it holds, one for one and
/// from first to last, the chores that stand at the owner's places, and the
/// owner's places are all the places where a chore of the owner stands.
pub proof fn lemma_owned_in_order(chores: Seq<ChoreModel>, owner: Owner)
    ensures
        places_of(chores, owner).len() == owned_by(chores, owner).len(),
        forall|k: int|
            0 <= k < places_of(chores, owner).len() ==> {
                let place = #[trigger] places_of(chores, owner)[k];
                &&& 0 <= place < chores.len()
                &&& chores[place].owner == owner
                &&& owned_by(chores, owner)[k] == chores[place]
            },
        forall|j: int, k: int|
            0 <= j < k < places_of(chores, owner).len() ==> #[trigger] places_of(chores, owner)[j]
                < #[trigger] places_of(chores, owner)[k],
        forall|i: int|
            0 <= i < chores.len() && (#[trigger] chores[i]).owner == owner ==> places_of(
                chores,
                owner,
            ).contains(i),
    decreases chores.len(),
{
    let wanted = |chore: ChoreModel| chore.owner == owner;
    if chores.len() == 0 {
        chores.lemma_filter_len(wanted);
    } else {
        let before = chores.drop_last();
        let last = chores.len() - 1;
        lemma_owned_in_order(before, owner);
        before.lemma_filter_push(chores.last(), wanted);
        assert(before.push(chores.last()) =~= chores);
        let places = places_of(chores, owner);
        let earlier = places_of(before, owner);
        assert forall|i: int|
            0 <= i < chores.len() && (#[trigger] chores[i]).owner == owner implies places.contains(
            i,
        ) by {
            if i < last {
                assert(before[i].owner == owner);
                let k = choose|k: int| 0 <= k < earlier.len() && earlier[k] == i;
                assert(places[k] == i);
            } else {
                assert(places[places.len() - 1] == i);
            }
        }
    }
}

/// The two owners' lists part the store between them: taken together they
/// hold the chores of the store, each as often as the store does, and a chore
/// is in an owner's list exactly if it is in the store and that owner's, so in
/// one list and never in both.
pub proof fn lemma_owners_part_store(chores: Seq<ChoreModel>)
    ensures
        (owned_by(chores, Owner::Linus) + owned_by(chores, Owner::Johannes)).to_multiset()
            == chores.to_multiset(),
        owned_by(chores, Owner::Linus).len() + owned_by(chores, Owner::Johannes).len()
            == chores.len(),
        forall|chore: ChoreModel, owner: Owner| #[trigger]
            owned_by(chores, owner).contains(chore) <==> chores.contains(chore) && chore.owner
                == owner,
    decreases chores.len(),
{
    let linus = |chore: ChoreModel| chore.owner == Owner::Linus;
    let johannes = |chore: ChoreModel| chore.owner == Owner::Johannes;
    let a = owned_by(chores, Owner::Linus);
    let b = owned_by(chores, Owner::Johannes);
    assert forall|chore: ChoreModel, owner: Owner| #[trigger]
        owned_by(chores, owner).contains(chore) <==> chores.contains(chore) && chore.owner
            == owner by {
        let wanted = |c: ChoreModel| c.owner == owner;
        let list = owned_by(chores, owner);
        if list.contains(chore) {
            let k = choose|k: int| 0 <= k < list.len() && list[k] == chore;
            chores.lemma_filter_pred(wanted, k);
            chores.lemma_filter_contains_rev(wanted, chore);
        }
        if chores.contains(chore) && chore.owner == owner {
            let i = choose|i: int| 0 <= i < chores.len() && chores[i] == chore;
            chores.lemma_filter_contains(wanted, i);
        }
    }
    vstd::seq_lib::lemma_multiset_commutative(a, b);
    if chores.len() == 0 {
        chores.lemma_filter_len(linus);
        chores.lemma_filter_len(johannes);
        assert(a + b =~= chores);
    } else {
        let before = chores.drop_last();
        let last = chores.last();
        lemma_owners_part_store(before);
        before.lemma_filter_push(last, linus);
        before.lemma_filter_push(last, johannes);
        assert(before.push(last) =~= chores);
        let a0 = owned_by(before, Owner::Linus);
        let b0 = owned_by(before, Owner::Johannes);
        vstd::seq_lib::lemma_multiset_commutative(a0, b0);
        vstd::seq_lib::to_multiset_build(before, last);
        vstd::seq_lib::to_multiset_build(a0, last);
        vstd::seq_lib::to_multiset_build(b0, last);
        assert(a.to_multiset().add(b.to_multiset()) =~= chores.to_multiset());
    }
}

} // verus!
