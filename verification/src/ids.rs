//! Lists of entries that belong to accounts: looking up, collecting and sorting them.

use vstd::prelude::*;

use crate::types::{AccountId, Balance, Seat, Voter};

verus! {

/// An entry of a list that belongs to an account.
pub trait Entry {
    /// The account of the entry.
    spec fn id(&self) -> AccountId;

    /// The account of the entry.
    fn account(&self) -> (r: AccountId)
        ensures
            r == self.id(),
    ;
}

impl Entry for AccountId {
    open spec fn id(&self) -> AccountId {
        *self
    }

    fn account(&self) -> (r: AccountId) {
        *self
    }
}

impl Entry for Seat {
    open spec fn id(&self) -> AccountId {
        self.who
    }

    fn account(&self) -> (r: AccountId) {
        self.who
    }
}

impl Entry for (AccountId, Balance) {
    open spec fn id(&self) -> AccountId {
        self.0
    }

    fn account(&self) -> (r: AccountId) {
        self.0
    }
}

impl Entry for (AccountId, Voter<AccountId, Balance>) {
    open spec fn id(&self) -> AccountId {
        self.0
    }

    fn account(&self) -> (r: AccountId) {
        self.0
    }
}

/// The accounts of a list of entries, in order.
pub open spec fn ids<E: Entry>(entries: Seq<E>) -> Seq<AccountId> {
    entries.map_values(|e: E| e.id())
}

/// Accounts in ascending order, possibly repeated.
pub open spec fn ascending(accounts: Seq<AccountId>) -> bool {
    forall|i: int, j: int| 0 <= i < j < accounts.len() ==> accounts[i] <= accounts[j]
}

/// Accounts in ascending order, each once.
pub open spec fn strictly_ascending(accounts: Seq<AccountId>) -> bool {
    forall|i: int, j: int| 0 <= i < j < accounts.len() ==> accounts[i] < accounts[j]
}

/// No two lists share an account.
pub open spec fn disjoint(a: Seq<AccountId>, b: Seq<AccountId>) -> bool {
    forall|x: AccountId| !(#[trigger] a.contains(x) && b.contains(x))
}

/// The entries of a list that belong to none of the given accounts.
pub open spec fn without(accounts: Seq<AccountId>, others: Seq<AccountId>) -> Seq<AccountId> {
    accounts.filter(|a: AccountId| !others.contains(a))
}

/// The place of an account in a list that is ascending by account: `Ok` with an index at which
/// it stands, or `Err` with the index at which it can be inserted.
pub fn binary_search<E: Entry>(entries: &Vec<E>, who: AccountId) -> (r: Result<usize, usize>)
    requires
        ascending(ids(entries@)),
    ensures
        match r {
            Ok(i) => i < entries@.len() && ids(entries@)[i as int] == who,
            Err(i) => {
                &&& i <= entries@.len()
                &&& forall|j: int| 0 <= j < i ==> ids(entries@)[j] < who
                &&& forall|j: int| i <= j < entries@.len() ==> who < ids(entries@)[j]
            },
        },
        r is Ok <==> ids(entries@).contains(who),
{
    let ghost accounts = ids(entries@);
    let mut low: usize = 0;
    let mut high: usize = entries.len();
    while low < high
        invariant
            low <= high <= entries@.len(),
            accounts == ids(entries@),
            ascending(accounts),
            forall|j: int| 0 <= j < low ==> accounts[j] < who,
            forall|j: int| high <= j < entries@.len() ==> who < accounts[j],
        decreases high - low,
    {
        let middle: usize = low + (high - low) / 2;
        let here: AccountId = entries[middle].account();
        assert(here == accounts[middle as int]);
        if here == who {
            return Ok(middle);
        } else if here < who {
            low = middle + 1;
        } else {
            high = middle;
        }
    }
    Err(low)
}

/// The first index at which an account stands in a list.
pub fn position<E: Entry>(entries: &Vec<E>, who: AccountId) -> (r: Option<usize>)
    ensures
        match r {
            Some(i) => {
                &&& i < entries@.len()
                &&& ids(entries@)[i as int] == who
                &&& forall|j: int| 0 <= j < i ==> ids(entries@)[j] != who
            },
            None => !ids(entries@).contains(who),
        },
        r is Some <==> ids(entries@).contains(who),
{
    let mut i: usize = 0;
    while i < entries.len()
        invariant
            i <= entries@.len(),
            forall|j: int| 0 <= j < i ==> ids(entries@)[j] != who,
        decreases entries@.len() - i,
    {
        if entries[i].account() == who {
            assert(ids(entries@)[i as int] == who);
            return Some(i);
        }
        i += 1;
    }
    None
}

/// The accounts of a list of entries, in order.
pub fn ids_of<E: Entry>(entries: &Vec<E>) -> (r: Vec<AccountId>)
    ensures
        r@ == ids(entries@),
{
    let mut r: Vec<AccountId> = Vec::new();
    let mut i: usize = 0;
    while i < entries.len()
        invariant
            i <= entries@.len(),
            r@ == ids(entries@).take(i as int),
        decreases entries@.len() - i,
    {
        r.push(entries[i].account());
        i += 1;
    }
    r
}

/// Whether an account is among the given ones.
pub fn is_among(who: AccountId, accounts: &Vec<AccountId>) -> (r: bool)
    ensures
        r == accounts@.contains(who),
{
    let mut i: usize = 0;
    while i < accounts.len()
        invariant
            i <= accounts@.len(),
            forall|j: int| 0 <= j < i ==> accounts@[j] != who,
        decreases accounts@.len() - i,
    {
        if accounts[i] == who {
            return true;
        }
        i += 1;
    }
    false
}

/// Whether the accounts of a list are in strictly ascending order.
pub fn is_strictly_ascending<E: Entry>(entries: &Vec<E>) -> (r: bool)
    ensures
        r == strictly_ascending(ids(entries@)),
{
    let ghost accounts = ids(entries@);
    let mut i: usize = 1;
    while i < entries.len()
        invariant
            1 <= i,
            i <= entries@.len() || entries@.len() == 0,
            accounts == ids(entries@),
            forall|j: int, k: int|
                0 <= j < k < i && k < accounts.len() ==> accounts[j] < accounts[k],
        decreases entries@.len() - i,
    {
        let before: AccountId = entries[i - 1].account();
        let here: AccountId = entries[i].account();
        assert(before == accounts[i - 1] && here == accounts[i as int]);
        if before >= here {
            return false;
        }
        assert forall|j: int, k: int| 0 <= j < k < i + 1 && k < accounts.len() implies accounts[j]
            < accounts[k] by {
            if k == i && j < i - 1 {
                assert(accounts[j] < accounts[i - 1]);
            }
        }
        i += 1;
    }
    true
}

/// Whether no account is in a list twice.
pub fn is_without_repetition<E: Entry>(entries: &Vec<E>) -> (r: bool)
    ensures
        r == ids(entries@).no_duplicates(),
{
    let ghost accounts = ids(entries@);
    let mut i: usize = 0;
    while i < entries.len()
        invariant
            i <= entries@.len(),
            accounts == ids(entries@),
            forall|j: int, k: int| 0 <= j < k < i ==> accounts[j] != accounts[k],
        decreases entries@.len() - i,
    {
        let here: AccountId = entries[i].account();
        let mut j: usize = 0;
        while j < i
            invariant
                j <= i < entries@.len(),
                accounts == ids(entries@),
                here == accounts[i as int],
                forall|k: int| 0 <= k < j ==> accounts[k] != here,
            decreases i - j,
        {
            if entries[j].account() == here {
                assert(accounts[j as int] == accounts[i as int]);
                return false;
            }
            j += 1;
        }
        i += 1;
    }
    true
}

/// Whether two lists share no account.
pub fn is_disjoint<E: Entry, F: Entry>(entries: &Vec<E>, others: &Vec<F>) -> (r: bool)
    ensures
        r == disjoint(ids(entries@), ids(others@)),
{
    let ghost accounts = ids(entries@);
    let mut i: usize = 0;
    while i < entries.len()
        invariant
            i <= entries@.len(),
            accounts == ids(entries@),
            forall|j: int| 0 <= j < i ==> !ids(others@).contains(#[trigger] accounts[j]),
        decreases entries@.len() - i,
    {
        let here: AccountId = entries[i].account();
        assert(here == accounts[i as int]);
        if position(others, here).is_some() {
            assert(accounts.contains(here));
            return false;
        }
        i += 1;
    }
    assert forall|x: AccountId| !(#[trigger] accounts.contains(x) && ids(others@).contains(x)) by {
        if accounts.contains(x) {
            let j = accounts.index_of(x);
            assert(!ids(others@).contains(accounts[j]));
        }
    }
    true
}

/// A copy of a list of accounts.
pub fn copy_ids(accounts: &Vec<AccountId>) -> (r: Vec<AccountId>)
    ensures
        r@ == accounts@,
{
    let mut r: Vec<AccountId> = Vec::new();
    let mut i: usize = 0;
    while i < accounts.len()
        invariant
            i <= accounts@.len(),
            r@ == accounts@.take(i as int),
        decreases accounts@.len() - i,
    {
        r.push(accounts[i]);
        i += 1;
    }
    r
}

/// The accounts of one list that are missing in the other, in order.
pub fn missing_in(accounts: &Vec<AccountId>, others: &Vec<AccountId>) -> (r: Vec<AccountId>)
    ensures
        r@ == without(accounts@, others@),
{
    let ghost keep = |a: AccountId| !others@.contains(a);
    let mut r: Vec<AccountId> = Vec::new();
    let mut i: usize = 0;
    proof {
        reveal(Seq::filter);
    }
    while i < accounts.len()
        invariant
            i <= accounts@.len(),
            keep == (|a: AccountId| !others@.contains(a)),
            r@ == accounts@.take(i as int).filter(keep),
        decreases accounts@.len() - i,
    {
        let who: AccountId = accounts[i];
        proof {
            reveal(Seq::filter);
            assert(accounts@.take(i + 1).drop_last() =~= accounts@.take(i as int));
        }
        if !is_among(who, others) {
            r.push(who);
        }
        i += 1;
    }
    assert(accounts@.take(accounts@.len() as int) =~= accounts@);
    r
}

/// `entries`, ascending by account, with `entry` put behind all accounts that do not exceed its
/// own.
pub open spec fn insert_by_id(
    entries: Seq<(AccountId, Balance)>,
    entry: (AccountId, Balance),
) -> Seq<(AccountId, Balance)>
    decreases entries.len(),
{
    if entries.len() == 0 || entries.last().0 <= entry.0 {
        entries.push(entry)
    } else {
        insert_by_id(entries.drop_last(), entry).push(entries.last())
    }
}

/// `entries` sorted by account; entries of one account keep their order.
pub open spec fn sort_by_id(entries: Seq<(AccountId, Balance)>) -> Seq<(AccountId, Balance)>
    decreases entries.len(),
{
    if entries.len() == 0 {
        entries
    } else {
        insert_by_id(sort_by_id(entries.drop_last()), entries.last())
    }
}

/// Inserting behind the last account that does not exceed the new one.
proof fn lemma_insert_by_id_at(
    entries: Seq<(AccountId, Balance)>,
    entry: (AccountId, Balance),
    at: int,
)
    requires
        0 <= at <= entries.len(),
        at == 0 || entries[at - 1].0 <= entry.0,
        forall|j: int| at <= j < entries.len() ==> entries[j].0 > entry.0,
    ensures
        insert_by_id(entries, entry) == entries.insert(at, entry),
    decreases entries.len(),
{
    if at == entries.len() {
        assert(entries.insert(at, entry) =~= entries.push(entry));
    } else {
        lemma_insert_by_id_at(entries.drop_last(), entry, at);
        assert(entries.drop_last().insert(at, entry).push(entries.last()) =~= entries.insert(
            at,
            entry,
        ));
    }
}

/// Sorts a list by account.
pub fn sorted_by_id(entries: &Vec<(AccountId, Balance)>) -> (r: Vec<(AccountId, Balance)>)
    ensures
        r@ == sort_by_id(entries@),
{
    let mut r: Vec<(AccountId, Balance)> = Vec::new();
    let mut i: usize = 0;
    while i < entries.len()
        invariant
            i <= entries@.len(),
            r@ == sort_by_id(entries@.take(i as int)),
        decreases entries@.len() - i,
    {
        let entry: (AccountId, Balance) = entries[i];
        let mut at: usize = r.len();
        while at > 0 && r[at - 1].0 > entry.0
            invariant
                at <= r@.len(),
                forall|j: int| at <= j < r@.len() ==> r@[j].0 > entry.0,
            decreases at,
        {
            at -= 1;
        }
        proof {
            lemma_insert_by_id_at(r@, entry, at as int);
            assert(entries@.take(i + 1).drop_last() =~= entries@.take(i as int));
        }
        r.insert(at, entry);
        i += 1;
    }
    assert(entries@.take(entries@.len() as int) =~= entries@);
    r
}

/// Inserting keeps the order, and adds the entry to the others.
pub proof fn lemma_insert_by_id(
    entries: Seq<(AccountId, Balance)>,
    entry: (AccountId, Balance),
)
    requires
        ascending(ids(entries)),
    ensures
        ascending(ids(insert_by_id(entries, entry))),
        insert_by_id(entries, entry).to_multiset() == entries.to_multiset().insert(entry),
        insert_by_id(entries, entry).len() == entries.len() + 1,
    decreases entries.len(),
{
    broadcast use vstd::seq_lib::group_to_multiset_ensures;

    if entries.len() == 0 || entries.last().0 <= entry.0 {
        let after = entries.push(entry);
        assert forall|i: int, j: int| 0 <= i < j < ids(after).len() implies ids(after)[i]
            <= ids(after)[j] by {
            if j == entries.len() {
                assert(ids(entries)[i] <= ids(entries)[entries.len() - 1]);
            } else {
                assert(ids(entries)[i] <= ids(entries)[j]);
            }
        }
    } else {
        let front = entries.drop_last();
        assert(ascending(ids(front))) by {
            assert forall|i: int, j: int| 0 <= i < j < ids(front).len() implies ids(front)[i]
                <= ids(front)[j] by {
                assert(ids(entries)[i] <= ids(entries)[j]);
            }
        }
        lemma_insert_by_id(front, entry);
        let inserted = insert_by_id(front, entry);
        let after = inserted.push(entries.last());
        assert forall|i: int, j: int| 0 <= i < j < ids(after).len() implies ids(after)[i]
            <= ids(after)[j] by {
            if j == inserted.len() {
                assert(inserted.to_multiset().contains(inserted[i])) by {
                    assert(inserted.contains(inserted[i]));
                }
                if inserted[i] != entry {
                    assert(front.to_multiset().contains(inserted[i]));
                    assert(front.contains(inserted[i]));
                    let k = front.index_of(inserted[i]);
                    assert(ids(entries)[k] <= ids(entries)[entries.len() - 1]);
                }
            } else {
                assert(ids(inserted)[i] <= ids(inserted)[j]);
            }
        }
        assert(entries =~= front.push(entries.last()));
        assert(after.to_multiset() =~= entries.to_multiset().insert(entry));
    }
}

/// Sorting by account is sorting: the result is ascending and holds the same entries.
pub proof fn lemma_sort_by_id(entries: Seq<(AccountId, Balance)>)
    ensures
        ascending(ids(sort_by_id(entries))),
        sort_by_id(entries).to_multiset() == entries.to_multiset(),
        sort_by_id(entries).len() == entries.len(),
        forall|e: (AccountId, Balance)| #[trigger]
            sort_by_id(entries).contains(e) <==> entries.contains(e),
        forall|a: AccountId| #[trigger]
            ids(sort_by_id(entries)).contains(a) <==> ids(entries).contains(a),
    decreases entries.len(),
{
    broadcast use vstd::seq_lib::group_to_multiset_ensures;

    let sorted = sort_by_id(entries);
    if entries.len() > 0 {
        lemma_sort_by_id(entries.drop_last());
        lemma_insert_by_id(sort_by_id(entries.drop_last()), entries.last());
        assert(entries =~= entries.drop_last().push(entries.last()));
    }
    assert forall|e: (AccountId, Balance)| #[trigger]
        sorted.contains(e) <==> entries.contains(e) by {
        assert(sorted.to_multiset().contains(e) <==> entries.to_multiset().contains(e));
    }
    assert forall|a: AccountId| #[trigger] ids(sorted).contains(a) <==> ids(entries).contains(
        a,
    ) by {
        lemma_ids_contains(sorted, a);
        lemma_ids_contains(entries, a);
        if ids(sorted).contains(a) {
            let i = ids(sorted).index_of(a);
            assert(sorted.contains(sorted[i]));
            assert(entries.contains(sorted[i]));
        }
        if ids(entries).contains(a) {
            let i = ids(entries).index_of(a);
            assert(entries.contains(entries[i]));
            assert(sorted.contains(entries[i]));
        }
    }
}

/// An account is in a list of entries exactly if some entry belongs to it.
pub proof fn lemma_ids_contains<E: Entry>(entries: Seq<E>, who: AccountId)
    ensures
        ids(entries).contains(who) <==> exists|e: E|
            #[trigger] entries.contains(e) && e.id() == who,
{
    if ids(entries).contains(who) {
        let i = ids(entries).index_of(who);
        assert(entries.contains(entries[i]) && entries[i].id() == who);
    }
    if exists|e: E| #[trigger] entries.contains(e) && e.id() == who {
        let e = choose|e: E| #[trigger] entries.contains(e) && e.id() == who;
        let i = entries.index_of(e);
        assert(ids(entries)[i] == who);
    }
}

/// Sorting a list that names each account once puts the accounts in strictly ascending order.
pub proof fn lemma_sort_by_id_strictly(entries: Seq<(AccountId, Balance)>)
    requires
        ids(entries).no_duplicates(),
    ensures
        strictly_ascending(ids(sort_by_id(entries))),
    decreases entries.len(),
{
    if entries.len() > 0 {
        let front = entries.drop_last();
        let sorted = sort_by_id(front);
        assert(ids(front) =~= ids(entries).drop_last());
        lemma_sort_by_id_strictly(front);
        lemma_sort_by_id(front);
        assert(!ids(sorted).contains(entries.last().0)) by {
            if ids(front).contains(entries.last().0) {
                let i = ids(front).index_of(entries.last().0);
                assert(ids(entries)[i] == ids(entries)[entries.len() - 1]);
            }
        }
        lemma_insert_by_id_strictly(sorted, entries.last());
    }
}

proof fn lemma_insert_by_id_strictly(
    entries: Seq<(AccountId, Balance)>,
    entry: (AccountId, Balance),
)
    requires
        strictly_ascending(ids(entries)),
        !ids(entries).contains(entry.0),
    ensures
        strictly_ascending(ids(insert_by_id(entries, entry))),
    decreases entries.len(),
{
    let at = place(ids(entries), entry.0);
    lemma_place(ids(entries), entry.0);
    assert forall|j: int| at <= j < entries.len() implies entries[j].0 > entry.0 by {
        assert(ids(entries)[j] > entry.0);
    }
    if at > 0 {
        assert(ids(entries)[at - 1] < entry.0);
    }
    lemma_insert_by_id_at(entries, entry, at);
    let after = entries.insert(at, entry);
    assert forall|i: int, j: int| 0 <= i < j < ids(after).len() implies ids(after)[i]
        < ids(after)[j] by {
        let i0 = if i < at { i } else { i - 1 };
        let j0 = if j < at { j } else { j - 1 };
        if i != at && j != at {
            assert(ids(entries)[i0] < ids(entries)[j0]);
        }
    }
}

/// Where an account belongs in a list in ascending order: behind the last account below it.
pub open spec fn place(accounts: Seq<AccountId>, who: AccountId) -> int
    decreases accounts.len(),
{
    if accounts.len() == 0 || accounts.last() < who {
        accounts.len() as int
    } else {
        place(accounts.drop_last(), who)
    }
}

/// A list with the entry of an account put where it belongs.
pub open spec fn with_entry<E: Entry>(entries: Seq<E>, entry: E) -> Seq<E> {
    entries.insert(place(ids(entries), entry.id()), entry)
}

/// A list without the first entry of an account that is in it.
pub open spec fn without_entry<E: Entry>(entries: Seq<E>, who: AccountId) -> Seq<E> {
    entries.remove(ids(entries).index_of_first(who).unwrap())
}

/// The first entry of an account that is in a list.
pub open spec fn entry_of<E: Entry>(entries: Seq<E>, who: AccountId) -> E {
    entries[ids(entries).index_of_first(who).unwrap()]
}

/// All accounts before the place of a new account are below it, the others above.
pub proof fn lemma_place(accounts: Seq<AccountId>, who: AccountId)
    requires
        ascending(accounts),
        !accounts.contains(who),
    ensures
        0 <= place(accounts, who) <= accounts.len(),
        forall|j: int| 0 <= j < place(accounts, who) ==> (#[trigger] accounts[j]) < who,
        forall|j: int|
            place(accounts, who) <= j < accounts.len() ==> who < (#[trigger] accounts[j]),
    decreases accounts.len(),
{
    if accounts.len() == 0 {
    } else if accounts.last() < who {
        assert forall|j: int| 0 <= j < accounts.len() implies (#[trigger] accounts[j]) < who by {
            if j < accounts.len() - 1 {
                assert(accounts[j] <= accounts[accounts.len() - 1]);
            }
        }
    } else {
        let front = accounts.drop_last();
        assert(accounts[accounts.len() - 1] != who);
        assert(!front.contains(who)) by {
            if front.contains(who) {
                let i = front.index_of(who);
                assert(accounts[i] == who);
            }
        }
        lemma_place(front, who);
        assert forall|j: int| place(accounts, who) <= j < accounts.len() implies who < (
        #[trigger] accounts[j]) by {
            if j < accounts.len() - 1 {
                assert(front[j] == accounts[j]);
            }
        }
        assert forall|j: int| 0 <= j < place(accounts, who) implies (#[trigger] accounts[j])
            < who by {
            assert(front[j] == accounts[j]);
        }
    }
}

/// There is but one place for a new account.
pub proof fn lemma_place_unique(accounts: Seq<AccountId>, who: AccountId, at: int)
    requires
        ascending(accounts),
        0 <= at <= accounts.len(),
        forall|j: int| 0 <= j < at ==> (#[trigger] accounts[j]) < who,
        forall|j: int| at <= j < accounts.len() ==> who < (#[trigger] accounts[j]),
    ensures
        at == place(accounts, who),
{
    assert(!accounts.contains(who)) by {
        if accounts.contains(who) {
            let i = accounts.index_of(who);
            assert(accounts[i] == who);
        }
    }
    lemma_place(accounts, who);
    let p = place(accounts, who);
    if p < at {
        assert(accounts[p] < who);
    }
    if at < p {
        assert(accounts[at] < who);
    }
}

/// An index at which an account stands in a list without repetition is the first one.
pub proof fn lemma_only_index(accounts: Seq<AccountId>, who: AccountId, at: int)
    requires
        0 <= at < accounts.len(),
        accounts[at] == who,
        forall|j: int| 0 <= j < at ==> accounts[j] != who,
    ensures
        accounts.index_of_first(who) == Some(at),
{
    accounts.index_of_first_ensures(who);
    assert(accounts.contains(who));
    let first = accounts.index_of_first(who).unwrap();
    assert(accounts[first] == who);
}

/// In a strictly ascending list an account stands once.
pub proof fn lemma_strictly_ascending_index(accounts: Seq<AccountId>, at: int)
    requires
        strictly_ascending(accounts),
        0 <= at < accounts.len(),
    ensures
        accounts.no_duplicates(),
        accounts.index_of_first(accounts[at]) == Some(at),
{
    lemma_only_index(accounts, accounts[at], at);
}

/// Putting a new account where it belongs keeps the order, adds that account alone, and taking its
/// entry away again restores the list.
pub proof fn lemma_with_entry<E: Entry>(entries: Seq<E>, entry: E)
    requires
        strictly_ascending(ids(entries)),
        !ids(entries).contains(entry.id()),
    ensures
        0 <= place(ids(entries), entry.id()) <= entries.len(),
        strictly_ascending(ids(with_entry(entries, entry))),
        forall|a: AccountId| #[trigger]
            ids(with_entry(entries, entry)).contains(a) <==> ids(entries).contains(a) || a
                == entry.id(),
        entry_of(with_entry(entries, entry), entry.id()) == entry,
        without_entry(with_entry(entries, entry), entry.id()) == entries,
{
    let at = place(ids(entries), entry.id());
    lemma_place(ids(entries), entry.id());
    let after = with_entry(entries, entry);
    assert(ids(after) =~= ids(entries).insert(at, entry.id()));
    assert forall|i: int, j: int| 0 <= i < j < ids(after).len() implies ids(after)[i]
        < ids(after)[j] by {
        let i0 = if i < at { i } else { i - 1 };
        let j0 = if j < at { j } else { j - 1 };
        if i != at && j != at {
            assert(ids(entries)[i0] < ids(entries)[j0]);
        }
    }
    assert forall|a: AccountId| #[trigger] ids(after).contains(a) <==> ids(entries).contains(a)
        || a == entry.id() by {
        if ids(after).contains(a) {
            let i = ids(after).index_of(a);
            if i < at {
                assert(ids(entries)[i] == a);
            } else if i > at {
                assert(ids(entries)[i - 1] == a);
            }
        }
        if ids(entries).contains(a) {
            let i = ids(entries).index_of(a);
            if i < at {
                assert(ids(after)[i] == a);
            } else {
                assert(ids(after)[i + 1] == a);
            }
        }
        assert(ids(after)[at] == entry.id());
    }
    lemma_strictly_ascending_index(ids(after), at);
    assert(after.remove(at) =~= entries);
}

/// Taking away the entry of an account that stands in a list once takes away that account alone,
/// and keeps the order of the others.
pub proof fn lemma_without_entry<E: Entry>(entries: Seq<E>, who: AccountId)
    requires
        ids(entries).no_duplicates(),
        ids(entries).contains(who),
    ensures
        0 <= ids(entries).index_of_first(who).unwrap() < entries.len(),
        entry_of(entries, who).id() == who,
        entries.contains(entry_of(entries, who)),
        ids(without_entry(entries, who)).no_duplicates(),
        strictly_ascending(ids(entries)) ==> strictly_ascending(ids(without_entry(entries, who))),
        forall|a: AccountId| #[trigger]
            ids(without_entry(entries, who)).contains(a) <==> ids(entries).contains(a) && a != who,
        without_entry(entries, who).len() == entries.len() - 1,
{
    let accounts = ids(entries);
    accounts.index_of_first_ensures(who);
    let at = accounts.index_of_first(who).unwrap();
    let after = without_entry(entries, who);
    assert(accounts[at] == who);
    assert(ids(after) =~= accounts.remove(at));
    assert forall|i: int, j: int|
        0 <= i < ids(after).len() && 0 <= j < ids(after).len() && i != j implies ids(after)[i]
        != ids(after)[j] by {
        let i0 = if i < at { i } else { i + 1 };
        let j0 = if j < at { j } else { j + 1 };
        assert(accounts[i0] != accounts[j0]);
    }
    if strictly_ascending(accounts) {
        assert forall|i: int, j: int| 0 <= i < j < ids(after).len() implies ids(after)[i] < ids(
            after,
        )[j] by {
            let i0 = if i < at { i } else { i + 1 };
            let j0 = if j < at { j } else { j + 1 };
            assert(accounts[i0] < accounts[j0]);
        }
    }
    assert forall|a: AccountId| #[trigger] ids(after).contains(a) <==> accounts.contains(a) && a
        != who by {
        if ids(after).contains(a) {
            let i = ids(after).index_of(a);
            let i0 = if i < at { i } else { i + 1 };
            assert(accounts[i0] == a);
            assert(accounts[i0] != accounts[at]);
        }
        if accounts.contains(a) && a != who {
            let i = accounts.index_of(a);
            let i0 = if i < at { i } else { i - 1 };
            assert(ids(after)[i0] == a);
        }
    }
}

/// Lists in strictly ascending order that name the same accounts are the same.
pub proof fn lemma_same_ascending(a: Seq<AccountId>, b: Seq<AccountId>)
    requires
        strictly_ascending(a),
        strictly_ascending(b),
        forall|x: AccountId| #[trigger] a.contains(x) <==> b.contains(x),
    ensures
        a == b,
    decreases a.len(),
{
    if a.len() == 0 {
        if b.len() > 0 {
            assert(b.contains(b[0]));
            assert(a.contains(b[0]));
        }
        assert(a =~= b);
    } else {
        assert(a.contains(a[a.len() - 1]));
        assert(b.contains(a.last()));
        assert(b.contains(b[b.len() - 1]));
        assert(a.contains(b.last()));
        let i = b.index_of(a.last());
        let j = a.index_of(b.last());
        assert(b[i] == a.last() && a[j] == b.last());
        assert(a.last() == b.last());
        let (front, other) = (a.drop_last(), b.drop_last());
        assert forall|x: AccountId| #[trigger] front.contains(x) <==> other.contains(x) by {
            if front.contains(x) {
                let k = front.index_of(x);
                assert(a[k] == x && a[k] < a.last());
                assert(a.contains(x));
                assert(other[b.index_of(x)] == x);
            }
            if other.contains(x) {
                let k = other.index_of(x);
                assert(b[k] == x && b[k] < b.last());
                assert(b.contains(x));
                assert(a.contains(x));
                assert(front[a.index_of(x)] == x);
            }
        }
        lemma_same_ascending(front, other);
        assert(a =~= front.push(a.last()));
        assert(b =~= other.push(b.last()));
    }
}

} // verus!
