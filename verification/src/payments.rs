//! The payment book: the canonical map from recipient key to outstanding
//! expectation, together with the matching rules that insert expectations,
//! fold inbound transfers into them, and retire them when fully credited.
//! Every mutation also yields the store actions that keep the durable
//! payments store byte-identical to the book.

use vstd::prelude::*;

use crate::codec::{decode_payment, encode_payment, spec_encode_payment};
use crate::domain::{
    IncomingPayment, IncomingTransferParsed, ProcessedPayment, ProcessedPaymentMeta,
    ED25519_PUBKEY_LEN, SECP256K1_PUBKEY_LEN,
};
use crate::records::{key_of_pubkey, Payment, PaymentModel, PubkeyKey};

verus! {

use vstd::slice::slice_to_vec;

// ---------------------------------------------------------------------------
// Store actions
// ---------------------------------------------------------------------------

/// One write against the durable payments store, keyed by raw key bytes.
#[derive(Debug)]
pub enum StoreAction {
    Put(Vec<u8>, String),
    Delete(Vec<u8>),
}

/// Whether `a` writes exactly the value `v` under the key `k`.
pub open spec fn action_is_put(a: StoreAction, k: Seq<u8>, v: Seq<char>) -> bool {
    match a {
        StoreAction::Put(kk, vv) => kk@ == k && vv@ == v,
        StoreAction::Delete(_) => false,
    }
}

/// Whether `a` deletes exactly the key `k`.
pub open spec fn action_is_delete(a: StoreAction, k: Seq<u8>) -> bool {
    match a {
        StoreAction::Put(_, _) => false,
        StoreAction::Delete(kk) => kk@ == k,
    }
}

/// The durable store modelled as a map from key bytes to stored text.
pub type StoreModel = Map<Seq<u8>, Seq<char>>;

/// The store after one action.
pub open spec fn apply_action(store: StoreModel, a: StoreAction) -> StoreModel {
    match a {
        StoreAction::Put(k, v) => store.insert(k@, v@),
        StoreAction::Delete(k) => store.remove(k@),
    }
}

/// The store after a list of actions, applied in order.
pub open spec fn apply_actions(store: StoreModel, actions: Seq<StoreAction>) -> StoreModel
    decreases actions.len(),
{
    if actions.len() == 0 {
        store
    } else {
        apply_actions(apply_action(store, actions[0]), actions.drop_first())
    }
}

// ---------------------------------------------------------------------------
// The book
// ---------------------------------------------------------------------------

/// The book as a map, built from its entry list.
pub open spec fn entries_map(s: Seq<(PubkeyKey, Payment)>) -> Map<Seq<u8>, PaymentModel>
    decreases s.len(),
{
    if s.len() == 0 {
        Map::empty()
    } else {
        entries_map(s.drop_last()).insert(s.last().0.spec_bytes(), s.last().1@)
    }
}

/// No two entries share a key.
pub open spec fn distinct_keys(s: Seq<(PubkeyKey, Payment)>) -> bool {
    forall|a: int, b: int|
        0 <= a < b < s.len() ==> (#[trigger] s[a].0.spec_bytes()) != (#[trigger] s[b].0.spec_bytes())
}

/// Every entry's key is one of the two real variants.
pub open spec fn valid_keys(s: Seq<(PubkeyKey, Payment)>) -> bool {
    forall|i: int| 0 <= i < s.len() ==> (#[trigger] s[i].0).is_valid()
}

proof fn lemma_entries_map_contains(s: Seq<(PubkeyKey, Payment)>, kb: Seq<u8>)
    ensures
        entries_map(s).contains_key(kb) <==> exists|i: int|
            0 <= i < s.len() && (#[trigger] s[i].0.spec_bytes()) == kb,
    decreases s.len(),
{
    if s.len() > 0 {
        lemma_entries_map_contains(s.drop_last(), kb);
        let n = s.len() as int;
        if s.last().0.spec_bytes() == kb {
            assert(s[n - 1].0.spec_bytes() == kb);
        } else {
            if entries_map(s).contains_key(kb) {
                let i = choose|i: int|
                    0 <= i < s.drop_last().len() && (#[trigger] s.drop_last()[i].0.spec_bytes())
                        == kb;
                assert(s[i].0.spec_bytes() == kb);
            }
            if exists|i: int| 0 <= i < s.len() && (#[trigger] s[i].0.spec_bytes()) == kb {
                let i = choose|i: int| 0 <= i < s.len() && (#[trigger] s[i].0.spec_bytes()) == kb;
                assert(i < n - 1);
                assert(s.drop_last()[i].0.spec_bytes() == kb);
            }
        }
    }
}

proof fn lemma_entries_map_index(s: Seq<(PubkeyKey, Payment)>, i: int)
    requires
        distinct_keys(s),
        0 <= i < s.len(),
    ensures
        entries_map(s).contains_key(s[i].0.spec_bytes()),
        entries_map(s)[s[i].0.spec_bytes()] == s[i].1@,
    decreases s.len(),
{
    let n = s.len() as int;
    if i == n - 1 {
    } else {
        assert(distinct_keys(s.drop_last())) by {
            assert(forall|a: int, b: int|
                0 <= a < b < s.drop_last().len() ==> (#[trigger] s.drop_last()[a].0.spec_bytes())
                    == s[a].0.spec_bytes() && (#[trigger] s.drop_last()[b].0.spec_bytes())
                    == s[b].0.spec_bytes());
        }
        lemma_entries_map_index(s.drop_last(), i);
        assert(s.drop_last()[i] == s[i]);
        assert(s[i].0.spec_bytes() != s[n - 1].0.spec_bytes());
    }
}

proof fn lemma_distinct_drop_last(s: Seq<(PubkeyKey, Payment)>)
    requires
        distinct_keys(s),
        s.len() > 0,
    ensures
        distinct_keys(s.drop_last()),
        valid_keys(s) ==> valid_keys(s.drop_last()),
{
    assert(forall|i: int|
        0 <= i < s.drop_last().len() ==> #[trigger] s.drop_last()[i] == s[i]);
}

proof fn lemma_entries_map_remove(s: Seq<(PubkeyKey, Payment)>, i: int)
    requires
        distinct_keys(s),
        0 <= i < s.len(),
    ensures
        entries_map(s.remove(i)) =~= entries_map(s).remove(s[i].0.spec_bytes()),
    decreases s.len(),
{
    let kb = s[i].0.spec_bytes();
    let n = s.len() as int;
    lemma_distinct_drop_last(s);
    if i == n - 1 {
        assert(s.remove(i) =~= s.drop_last());
        lemma_entries_map_contains(s.drop_last(), kb);
        if entries_map(s.drop_last()).contains_key(kb) {
            let w = choose|w: int|
                0 <= w < s.drop_last().len() && (#[trigger] s.drop_last()[w].0.spec_bytes()) == kb;
            assert(s[w].0.spec_bytes() == kb);
            assert(false);
        }
        assert(entries_map(s).remove(kb) =~= entries_map(s.drop_last()));
    } else {
        lemma_entries_map_remove(s.drop_last(), i);
        assert(s.remove(i).drop_last() =~= s.drop_last().remove(i));
        assert(s.remove(i).last() == s.last());
        assert(s.remove(i).len() == n - 1);
        let lk = s.last().0.spec_bytes();
        let lv = s.last().1@;
        assert(entries_map(s.remove(i)) == entries_map(s.drop_last().remove(i)).insert(lk, lv));
        assert(entries_map(s.drop_last().remove(i)) =~= entries_map(s.drop_last()).remove(kb));
        assert(s.drop_last()[i] == s[i]);
        assert(lk != kb);
        assert(entries_map(s.drop_last()).remove(kb).insert(lk, lv) =~= entries_map(
            s.drop_last(),
        ).insert(lk, lv).remove(kb));
    }
}

proof fn lemma_distinct_remove(s: Seq<(PubkeyKey, Payment)>, i: int)
    requires
        distinct_keys(s),
        0 <= i < s.len(),
    ensures
        distinct_keys(s.remove(i)),
        valid_keys(s) ==> valid_keys(s.remove(i)),
        forall|j: int|
            0 <= j < s.remove(i).len() ==> (#[trigger] s.remove(i)[j].0.spec_bytes())
                != s[i].0.spec_bytes(),
{
    let r = s.remove(i);
    assert(forall|j: int| 0 <= j < i ==> #[trigger] r[j] == s[j]);
    assert(forall|j: int| i <= j < r.len() ==> #[trigger] r[j] == s[j + 1]);
    assert forall|a: int, b: int|
        0 <= a < b < r.len() implies (#[trigger] r[a].0.spec_bytes()) != (
    #[trigger] r[b].0.spec_bytes()) by {
        let a0 = if a < i {
            a
        } else {
            a + 1
        };
        let b0 = if b < i {
            b
        } else {
            b + 1
        };
        assert(r[a] == s[a0] && r[b] == s[b0]);
        assert(s[a0].0.spec_bytes() != s[b0].0.spec_bytes());
    }
    assert forall|j: int|
        0 <= j < r.len() implies (#[trigger] r[j].0.spec_bytes()) != s[i].0.spec_bytes() by {
        let j0 = if j < i {
            j
        } else {
            j + 1
        };
        assert(r[j] == s[j0]);
        assert(j0 != i);
        if j0 < i {
            assert(s[j0].0.spec_bytes() != s[i].0.spec_bytes());
        } else {
            assert(s[i].0.spec_bytes() != s[j0].0.spec_bytes());
        }
    }
}

/// A book with distinct keys has exactly one map entry per list entry.
proof fn lemma_entries_map_card(s: Seq<(PubkeyKey, Payment)>)
    requires
        distinct_keys(s),
    ensures
        entries_map(s).dom().finite(),
        entries_map(s).dom().len() == s.len(),
    decreases s.len(),
{
    if s.len() == 0 {
        assert(entries_map(s).dom() =~= Set::empty());
    } else {
        lemma_distinct_drop_last(s);
        lemma_entries_map_card(s.drop_last());
        let kb = s.last().0.spec_bytes();
        lemma_entries_map_contains(s.drop_last(), kb);
        if entries_map(s.drop_last()).contains_key(kb) {
            let w = choose|w: int|
                0 <= w < s.drop_last().len() && (#[trigger] s.drop_last()[w].0.spec_bytes()) == kb;
            assert(s[w].0.spec_bytes() == kb);
            assert(false);
        }
        vstd::set::axiom_set_insert_len(entries_map(s.drop_last()).dom(), kb);
        assert(entries_map(s).dom() =~= entries_map(s.drop_last()).dom().insert(kb));
    }
}

proof fn lemma_entries_map_push(s: Seq<(PubkeyKey, Payment)>, e: (PubkeyKey, Payment))
    ensures
        entries_map(s.push(e)) == entries_map(s).insert(e.0.spec_bytes(), e.1@),
{
    assert(s.push(e).drop_last() =~= s);
    assert(s.push(e).last() == e);
}

/// The book owned by the matching actor: a list of entries with distinct,
/// valid keys, read as a map from key bytes to expectation.
pub struct PaymentBook {
    entries: Vec<(PubkeyKey, Payment)>,
}

impl PaymentBook {
    /// Well-formed: keys are distinct and of a real variant.
    pub closed spec fn wf(&self) -> bool {
        distinct_keys(self.entries@) && valid_keys(self.entries@)
    }

    /// The book as a map from key bytes to expectation.
    pub closed spec fn contents(&self) -> Map<Seq<u8>, PaymentModel> {
        entries_map(self.entries@)
    }

    /// An empty book.
    pub fn new() -> (r: Self)
        ensures
            r.wf(),
            r.contents() == Map::<Seq<u8>, PaymentModel>::empty(),
    {
        Self { entries: Vec::new() }
    }

    /// How many expectations are outstanding.
    pub fn len(&self) -> (r: usize)
        requires
            self.wf(),
        ensures
            r == self.contents().dom().len(),
            r == 0 <==> self.contents() == Map::<Seq<u8>, PaymentModel>::empty(),
    {
        let n = self.entries.len();
        proof {
            lemma_entries_map_card(self.entries@);
            if n > 0 {
                lemma_entries_map_index(self.entries@, 0);
                assert(self.contents().contains_key(self.entries@[0].0.spec_bytes()));
            } else {
                assert(self.contents() =~= Map::<Seq<u8>, PaymentModel>::empty());
            }
        }
        n
    }

    /// Whether no expectation is outstanding.
    pub fn is_empty(&self) -> (r: bool)
        requires
            self.wf(),
        ensures
            r <==> self.contents() == Map::<Seq<u8>, PaymentModel>::empty(),
    {
        self.len() == 0
    }

    /// The index of the entry under `key`, if one exists.
    fn find(&self, key: &PubkeyKey) -> (r: Option<usize>)
        ensures
            match r {
                Some(i) => i < self.entries@.len() && self.entries@[i as int].0.spec_bytes()
                    == key.spec_bytes(),
                None => !entries_map(self.entries@).contains_key(key.spec_bytes()),
            },
    {
        let n = self.entries.len();
        let mut i: usize = 0;
        while i < n
            invariant
                i <= n,
                n == self.entries@.len(),
                forall|j: int|
                    0 <= j < i ==> (#[trigger] self.entries@[j].0.spec_bytes())
                        != key.spec_bytes(),
            decreases n - i,
        {
            if self.entries[i].0.same_key(key) {
                return Some(i);
            }
            i += 1;
        }
        proof {
            lemma_entries_map_contains(self.entries@, key.spec_bytes());
        }
        None
    }

    /// The outstanding expectation under `key`, if any.
    pub fn get(&self, key: &PubkeyKey) -> (r: Option<&Payment>)
        requires
            self.wf(),
        ensures
            match r {
                Some(p) => self.contents().contains_key(key.spec_bytes()) && p@ == self.contents()[
                    key.spec_bytes()],
                None => !self.contents().contains_key(key.spec_bytes()),
            },
    {
        match self.find(key) {
            Some(i) => {
                proof {
                    lemma_entries_map_index(self.entries@, i as int);
                }
                Some(&self.entries[i].1)
            },
            None => None,
        }
    }

    /// Puts `payment` under `key`, replacing any prior expectation.
    fn insert_entry(&mut self, key: PubkeyKey, payment: Payment)
        requires
            old(self).wf(),
            key.is_valid(),
        ensures
            final(self).wf(),
            final(self).contents() == old(self).contents().insert(key.spec_bytes(), payment@),
    {
        let ghost s0 = self.entries@;
        match self.find(&key) {
            Some(i) => {
                let _ = self.entries.remove(i);
                proof {
                    lemma_entries_map_remove(s0, i as int);
                    lemma_distinct_remove(s0, i as int);
                }
            },
            None => {
            },
        }
        let ghost s1 = self.entries@;
        proof {
            lemma_entries_map_contains(s1, key.spec_bytes());
        }
        assert(forall|j: int|
            0 <= j < s1.len() ==> (#[trigger] s1[j].0.spec_bytes()) != key.spec_bytes());
        self.entries.push((key, payment));
        proof {
            lemma_entries_map_push(s1, (key, payment));
            assert(self.entries@ =~= s1.push((key, payment)));
            assert(forall|j: int| 0 <= j < s1.len() ==> #[trigger] self.entries@[j] == s1[j]);
            assert(entries_map(self.entries@) =~= old(self).contents().insert(
                key.spec_bytes(),
                payment@,
            ));
        }
    }

    /// Registers a new expectation: the record is written to the store and
    /// placed in the book, replacing any prior expectation under the same
    /// key (a replaced expectation's accumulated signatures are discarded,
    /// as the bus may re-submit a payment).
    pub fn process_incoming_payment(&mut self, incoming: IncomingPayment) -> (r: Vec<StoreAction>)
        requires
            old(self).wf(),
        ensures
            final(self).wf(),
            ({
                let k = key_of_pubkey(incoming.spec_data().spec_pubkey()).spec_bytes();
                let p = PaymentModel {
                    id: incoming.spec_id(),
                    tag: incoming.spec_tag(),
                    amount: incoming.spec_data().spec_amount(),
                    signatures: Seq::<Seq<char>>::empty(),
                };
                &&& final(self).contents() == old(self).contents().insert(k, p)
                &&& r@.len() == 1
                &&& action_is_put(r@[0], k, spec_encode_payment(p))
            }),
    {
        let tag = incoming.tag();
        let (id, transfer_data) = incoming.expose();
        let amount = transfer_data.amount();
        let payment = Payment::new(id, tag, amount);
        let pubkey = transfer_data.pubkey();
        proof {
            crate::records::lemma_key_of_pubkey(pubkey);
        }
        let key: PubkeyKey = pubkey.into();
        let value = encode_payment(&payment);
        let kb = slice_to_vec(key.as_ref());
        self.insert_entry(key, payment);
        let mut actions: Vec<StoreAction> = Vec::new();
        actions.push(StoreAction::Put(kb, value));
        actions
    }

    /// Credits an inbound transfer against the book. A transfer to a key
    /// that is not watched is ignored. Otherwise the transfer's signatures
    /// are appended to the entry, and the outstanding amount is reduced: if
    /// some of it remains the updated record is re-written, and if the
    /// credit meets or exceeds it the entry is retired and reported, with
    /// `last` set exactly when the book became empty. The excess of an
    /// overpayment is credited nowhere else.
    pub fn process_incoming_transfer(&mut self, incoming: IncomingTransferParsed) -> (r: (
        Vec<StoreAction>,
        Option<ProcessedPaymentMeta>,
    ))
        requires
            old(self).wf(),
        ensures
            final(self).wf(),
            ({
                let k = key_of_pubkey(incoming.spec_data().spec_pubkey()).spec_bytes();
                let amount = incoming.spec_data().spec_amount();
                let m = old(self).contents();
                if !m.contains_key(k) {
                    &&& final(self).contents() == m
                    &&& r.0@.len() == 0
                    &&& r.1 is None
                } else {
                    let e = m[k];
                    let sigs = e.signatures + incoming.spec_signatures();
                    if amount < e.amount {
                        let e2 = PaymentModel {
                            id: e.id,
                            tag: e.tag,
                            amount: (e.amount - amount) as u64,
                            signatures: sigs,
                        };
                        &&& final(self).contents() == m.insert(k, e2)
                        &&& r.0@.len() == 1
                        &&& action_is_put(r.0@[0], k, spec_encode_payment(e2))
                        &&& r.1 is None
                    } else {
                        &&& final(self).contents() == m.remove(k)
                        &&& r.0@.len() == 1
                        &&& action_is_delete(r.0@[0], k)
                        &&& (r.1 matches Some(meta) && {
                            let p = meta.spec_payment();
                            &&& p.spec_id() == e.id
                            &&& p.spec_tag() == e.tag
                            &&& p.spec_signatures() == Some(sigs)
                            &&& p.spec_error() is None
                            &&& meta.spec_last() == (m.remove(k) == Map::<
                                Seq<u8>,
                                PaymentModel,
                            >::empty())
                        })
                    }
                }
            }),
    {
        let (transfer_data, signatures) = incoming.expose();
        let amount = transfer_data.amount();
        let pubkey = transfer_data.pubkey();
        proof {
            crate::records::lemma_key_of_pubkey(pubkey);
        }
        let key: PubkeyKey = pubkey.into();
        let ghost s0 = self.entries@;
        let ghost m = old(self).contents();
        let ghost k = key.spec_bytes();
        match self.find(&key) {
            None => (Vec::new(), None),
            Some(i) => {
                proof {
                    lemma_entries_map_index(s0, i as int);
                }
                let (entry_key, mut payment) = self.entries.remove(i);
                proof {
                    lemma_entries_map_remove(s0, i as int);
                    lemma_distinct_remove(s0, i as int);
                }
                let ghost e = m[k];
                let mut new_sigs = signatures;
                payment.signatures.append(&mut new_sigs);
                proof {
                    assert(payment.signatures.deep_view() =~= e.signatures
                        + incoming.spec_signatures());
                }
                let kb = slice_to_vec(entry_key.as_ref());
                if amount < payment.amount {
                    payment.amount = payment.amount - amount;
                    let value = encode_payment(&payment);
                    let ghost s1 = self.entries@;
                    proof {
                        lemma_entries_map_contains(s1, k);
                    }
                    self.entries.push((entry_key, payment));
                    proof {
                        lemma_entries_map_push(s1, (entry_key, payment));
                        assert(forall|j: int|
                            0 <= j < s1.len() ==> #[trigger] self.entries@[j] == s1[j]);
                        assert(entries_map(self.entries@) =~= m.insert(
                            k,
                            entries_map(self.entries@)[k],
                        ));
                    }
                    let mut actions: Vec<StoreAction> = Vec::new();
                    actions.push(StoreAction::Put(kb, value));
                    (actions, None)
                } else {
                    let last = self.entries.len() == 0;
                    proof {
                        if self.entries@.len() > 0 {
                            lemma_entries_map_index(self.entries@, 0);
                            assert(entries_map(self.entries@).contains_key(
                                self.entries@[0].0.spec_bytes(),
                            ));
                        } else {
                            assert(entries_map(self.entries@) =~= Map::<
                                Seq<u8>,
                                PaymentModel,
                            >::empty());
                        }
                    }
                    let processed = ProcessedPayment::new(
                        payment.id,
                        payment.tag,
                        Some(payment.signatures),
                        None,
                    );
                    let meta = ProcessedPaymentMeta::new(processed, last);
                    let mut actions: Vec<StoreAction> = Vec::new();
                    actions.push(StoreAction::Delete(kb));
                    (actions, Some(meta))
                }
            },
        }
    }
}

// ---------------------------------------------------------------------------
// Rebuilding the book from the store
// ---------------------------------------------------------------------------

/// Why rebuilding the book at startup failed: a stored key whose length fits
/// no key variant, or a stored value that is not a canonical record. Either
/// indicates on-disk corruption and is fatal.
#[derive(Debug, Clone, Copy, PartialEq, Eq, Structural)]
pub enum LoadError {
    InvalidKey,
    InvalidRecord,
}

/// Whether stored key bytes have the length of a real key variant.
pub open spec fn key_len_ok(kb: Seq<u8>) -> bool {
    kb.len() == ED25519_PUBKEY_LEN || kb.len() == SECP256K1_PUBKEY_LEN
}

/// Whether a stored text is the canonical encoding of some record.
pub open spec fn is_record(s: Seq<char>) -> bool {
    exists|m: PaymentModel| s == spec_encode_payment(m)
}

/// The record a stored text encodes (meaningful only when [`is_record`]).
pub open spec fn record_of(s: Seq<char>) -> PaymentModel {
    choose|m: PaymentModel| s == spec_encode_payment(m)
}

/// A canonical encoding decodes to the record it was written from.
pub proof fn lemma_record_of_encode(m: PaymentModel)
    ensures
        is_record(spec_encode_payment(m)),
        record_of(spec_encode_payment(m)) == m,
{
    assert(is_record(spec_encode_payment(m)));
    let m2 = record_of(spec_encode_payment(m));
    crate::codec::lemma_encode_injective(m, m2);
}

/// Whether one stored pair is readable: a real key length and a canonical
/// record text.
pub open spec fn entry_ok(kv: (Vec<u8>, String)) -> bool {
    key_len_ok(kv.0@) && is_record(kv.1@)
}

/// Whether the first `n` stored pairs are readable.
pub open spec fn prefix_ok(raw: Seq<(Vec<u8>, String)>, n: int) -> bool {
    forall|j: int| 0 <= j < n ==> entry_ok(#[trigger] raw[j])
}

/// The book a readable store rebuilds to: later pairs win on a repeated key.
pub open spec fn decoded_map(raw: Seq<(Vec<u8>, String)>) -> Map<Seq<u8>, PaymentModel>
    decreases raw.len(),
{
    if raw.len() == 0 {
        Map::empty()
    } else {
        decoded_map(raw.drop_last()).insert(raw.last().0@, record_of(raw.last().1@))
    }
}

/// Rebuilds the book from the raw pairs of the payments store. Succeeds
/// exactly when every key has a real key length and every value is a
/// canonical record; the book then maps each stored key to its decoded
/// record. A failure names the first unreadable pair's defect.
pub fn load_payments(raw: Vec<(Vec<u8>, String)>) -> (r: Result<PaymentBook, LoadError>)
    ensures
        match r {
            Ok(book) => {
                &&& book.wf()
                &&& prefix_ok(raw@, raw@.len() as int)
                &&& book.contents() == decoded_map(raw@)
            },
            Err(e) => {
                &&& !prefix_ok(raw@, raw@.len() as int)
                &&& match e {
                    LoadError::InvalidKey => exists|i: int|
                        0 <= i < raw@.len() && prefix_ok(raw@, i) && !key_len_ok(
                            (#[trigger] raw@[i]).0@,
                        ),
                    LoadError::InvalidRecord => exists|i: int|
                        0 <= i < raw@.len() && prefix_ok(raw@, i) && key_len_ok(
                            (#[trigger] raw@[i]).0@,
                        ) && !is_record(raw@[i].1@),
                }
            },
        },
{
    let mut book = PaymentBook::new();
    let n = raw.len();
    let mut i: usize = 0;
    proof {
        assert(book.contents() =~= decoded_map(raw@.subrange(0, 0)));
    }
    while i < n
        invariant
            i <= n,
            n == raw@.len(),
            book.wf(),
            prefix_ok(raw@, i as int),
            book.contents() == decoded_map(raw@.subrange(0, i as int)),
        decreases n - i,
    {
        let kv = &raw[i];
        let key = PubkeyKey::from_u8(kv.0.as_slice());
        let valid = match &key {
            PubkeyKey::Unknown => false,
            _ => true,
        };
        if !valid {
            proof {
                assert(!key_len_ok(raw@[i as int].0@));
                assert(!entry_ok(raw@[i as int]));
            }
            return Err(LoadError::InvalidKey);
        }
        match decode_payment(kv.1.as_str()) {
            Some(p) => {
                proof {
                    assert(kv.1@ == spec_encode_payment(p@));
                    lemma_record_of_encode(p@);
                    assert(record_of(raw@[i as int].1@) == p@);
                    assert(key.spec_bytes() == raw@[i as int].0@);
                }
                let ghost pre = book.contents();
                book.insert_entry(key, p);
                proof {
                    assert(raw@.subrange(0, i + 1).drop_last() =~= raw@.subrange(0, i as int));
                    assert(raw@.subrange(0, i + 1).last() == raw@[i as int]);
                    assert(book.contents() =~= decoded_map(raw@.subrange(0, i + 1)));
                    assert(entry_ok(raw@[i as int]));
                }
                i += 1;
            },
            None => {
                proof {
                    assert(!is_record(raw@[i as int].1@)) by {
                        if is_record(raw@[i as int].1@) {
                            let m = choose|m: PaymentModel|
                                raw@[i as int].1@ == spec_encode_payment(m);
                            assert(kv.1@ != spec_encode_payment(m));
                        }
                    }
                    assert(!entry_ok(raw@[i as int]));
                }
                return Err(LoadError::InvalidRecord);
            },
        }
    }
    proof {
        assert(raw@.subrange(0, n as int) =~= raw@);
    }
    Ok(book)
}

// ---------------------------------------------------------------------------
// Laws of the book and the store
// ---------------------------------------------------------------------------

/// The persisted image of a book: every expectation stored as its canonical
/// encoding under its key bytes.
pub open spec fn store_of(m: Map<Seq<u8>, PaymentModel>) -> StoreModel {
    m.map_values(|p: PaymentModel| spec_encode_payment(p))
}

/// Law: the persisted image holds a record under exactly the watched keys,
/// and each stored record decodes to the book's entry, outstanding amount
/// included.
pub proof fn lemma_book_store_match(m: Map<Seq<u8>, PaymentModel>, k: Seq<u8>)
    ensures
        store_of(m).contains_key(k) <==> m.contains_key(k),
        m.contains_key(k) ==> is_record(store_of(m)[k]) && record_of(store_of(m)[k]) == m[k],
{
    if m.contains_key(k) {
        lemma_record_of_encode(m[k]);
    }
}

/// Law: registering an expectation keeps the durable store the persisted
/// image of the book. The one `Put` the step returns carries the store from
/// the old book's image to the new one's.
pub proof fn lemma_put_syncs_store(
    m: Map<Seq<u8>, PaymentModel>,
    k: Seq<u8>,
    p: PaymentModel,
    actions: Seq<StoreAction>,
)
    requires
        actions.len() == 1,
        action_is_put(actions[0], k, spec_encode_payment(p)),
    ensures
        apply_actions(store_of(m), actions) =~= store_of(m.insert(k, p)),
{
    let s0 = store_of(m);
    let s1 = apply_action(s0, actions[0]);
    assert(actions.drop_first().len() == 0);
    assert(apply_actions(s1, actions.drop_first()) == s1);
    assert(apply_actions(s0, actions) == apply_actions(s1, actions.drop_first()));
}

/// Law: retiring an expectation keeps the durable store the persisted image
/// of the book. The one `Delete` the step returns carries the store from the
/// old book's image to the new one's.
pub proof fn lemma_delete_syncs_store(
    m: Map<Seq<u8>, PaymentModel>,
    k: Seq<u8>,
    actions: Seq<StoreAction>,
)
    requires
        actions.len() == 1,
        action_is_delete(actions[0], k),
    ensures
        apply_actions(store_of(m), actions) =~= store_of(m.remove(k)),
{
    let s0 = store_of(m);
    let s1 = apply_action(s0, actions[0]);
    assert(actions.drop_first().len() == 0);
    assert(apply_actions(s1, actions.drop_first()) == s1);
    assert(apply_actions(s0, actions) == apply_actions(s1, actions.drop_first()));
}

/// Law: a step that returns no action leaves the store the image of the
/// unchanged book.
pub proof fn lemma_no_action_syncs_store(m: Map<Seq<u8>, PaymentModel>, actions: Seq<StoreAction>)
    requires
        actions.len() == 0,
    ensures
        apply_actions(store_of(m), actions) == store_of(m),
{
}

proof fn lemma_decoded_map_contains(raw: Seq<(Vec<u8>, String)>, kb: Seq<u8>)
    ensures
        decoded_map(raw).contains_key(kb) <==> exists|i: int|
            0 <= i < raw.len() && (#[trigger] raw[i].0@) == kb,
    decreases raw.len(),
{
    if raw.len() > 0 {
        lemma_decoded_map_contains(raw.drop_last(), kb);
        let n = raw.len() as int;
        if raw.last().0@ == kb {
            assert(raw[n - 1].0@ == kb);
        } else {
            if decoded_map(raw).contains_key(kb) {
                let i = choose|i: int|
                    0 <= i < raw.drop_last().len() && (#[trigger] raw.drop_last()[i].0@) == kb;
                assert(raw[i].0@ == kb);
            }
            if exists|i: int| 0 <= i < raw.len() && (#[trigger] raw[i].0@) == kb {
                let i = choose|i: int| 0 <= i < raw.len() && (#[trigger] raw[i].0@) == kb;
                assert(i < n - 1);
                assert(raw.drop_last()[i].0@ == kb);
            }
        }
    }
}

proof fn lemma_decoded_map_index(raw: Seq<(Vec<u8>, String)>, i: int)
    requires
        0 <= i < raw.len(),
        forall|a: int, b: int|
            0 <= a < b < raw.len() ==> (#[trigger] raw[a].0@) != (#[trigger] raw[b].0@),
    ensures
        decoded_map(raw).contains_key(raw[i].0@),
        decoded_map(raw)[raw[i].0@] == record_of(raw[i].1@),
    decreases raw.len(),
{
    let n = raw.len() as int;
    if i < n - 1 {
        assert(forall|j: int| 0 <= j < n - 1 ==> #[trigger] raw.drop_last()[j] == raw[j]);
        lemma_decoded_map_index(raw.drop_last(), i);
        assert(raw[i].0@ != raw[n - 1].0@);
    }
}

/// Law: rebuilding from the persisted image of a book yields the book.
/// `raw` lists the store's pairs: distinct keys, each key watched by `m`,
/// every watched key present, each value the canonical encoding of the
/// book's entry. The rebuilt map equals `m`.
pub proof fn lemma_load_rebuilds(raw: Seq<(Vec<u8>, String)>, m: Map<Seq<u8>, PaymentModel>)
    requires
        forall|a: int, b: int|
            0 <= a < b < raw.len() ==> (#[trigger] raw[a].0@) != (#[trigger] raw[b].0@),
        forall|i: int|
            0 <= i < raw.len() ==> m.contains_key(#[trigger] raw[i].0@) && raw[i].1@
                == spec_encode_payment(m[raw[i].0@]),
        forall|k: Seq<u8>|
            m.contains_key(k) ==> exists|i: int| 0 <= i < raw.len() && (#[trigger] raw[i].0@) == k,
    ensures
        decoded_map(raw) =~= m,
{
    assert forall|k: Seq<u8>| decoded_map(raw).contains_key(k) implies m.contains_key(k) by {
        lemma_decoded_map_contains(raw, k);
        let i = choose|i: int| 0 <= i < raw.len() && (#[trigger] raw[i].0@) == k;
        assert(m.contains_key(raw[i].0@));
    }
    assert forall|k: Seq<u8>| m.contains_key(k) implies decoded_map(raw).contains_key(k)
        && decoded_map(raw)[k] == m[k] by {
        let i = choose|i: int| 0 <= i < raw.len() && (#[trigger] raw[i].0@) == k;
        lemma_decoded_map_contains(raw, k);
        lemma_decoded_map_index(raw, i);
        lemma_record_of_encode(m[raw[i].0@]);
    }
}

// ---------------------------------------------------------------------------
// Laws of one entry's life
// ---------------------------------------------------------------------------

/// The total of a sequence of credits.
pub open spec fn sum_credits(ts: Seq<u64>) -> int
    decreases ts.len(),
{
    if ts.len() == 0 {
        0
    } else {
        sum_credits(ts.drop_last()) + ts.last()
    }
}

proof fn lemma_partial_sums_below(a0: u64, ts: Seq<u64>, k: int)
    requires
        0 <= k <= ts.len(),
        forall|i: int|
            0 <= i < k ==> (#[trigger] ts[i]) < a0 - sum_credits(ts.subrange(0, i)),
    ensures
        sum_credits(ts.subrange(0, k)) < a0 || k == 0,
        k == 0 ==> sum_credits(ts.subrange(0, k)) == 0,
    decreases k,
{
    if k == 0 {
        assert(ts.subrange(0, 0) =~= Seq::<u64>::empty());
    } else {
        lemma_partial_sums_below(a0, ts, k - 1);
        let p = ts.subrange(0, k);
        assert(p.drop_last() =~= ts.subrange(0, k - 1));
        assert(p.last() == ts[k - 1]);
        assert(ts[k - 1] < a0 - sum_credits(ts.subrange(0, k - 1)));
    }
}

/// Law: from insertion to completion, the credits applied to one entry sum
/// to at least its initial amount and to less than that amount plus the
/// final credit. Every credit but the last leaves part of the amount
/// outstanding (the matching step keeps the entry exactly then), and the
/// final credit covers what remains (the step retires the entry exactly
/// then).
pub proof fn lemma_credit_total_bounds(a0: u64, ts: Seq<u64>)
    requires
        a0 > 0,
        ts.len() >= 1,
        forall|i: int|
            0 <= i < ts.len() - 1 ==> (#[trigger] ts[i]) < a0 - sum_credits(ts.subrange(0, i)),
        ts.last() >= a0 - sum_credits(ts.subrange(0, ts.len() - 1)),
    ensures
        sum_credits(ts) >= a0,
        sum_credits(ts) < a0 + ts.last(),
{
    let n = ts.len() as int;
    lemma_partial_sums_below(a0, ts, n - 1);
    assert(ts.subrange(0, n) =~= ts);
    assert(sum_credits(ts) == sum_credits(ts.subrange(0, n - 1)) + ts.last()) by {
        assert(ts.drop_last() =~= ts.subrange(0, n - 1));
    }
}

/// The signature list of one entry after a run of credits, each appending
/// its transaction's signatures.
pub open spec fn sigs_after(s0: Seq<Seq<char>>, ls: Seq<Seq<Seq<char>>>) -> Seq<Seq<char>>
    decreases ls.len(),
{
    if ls.len() == 0 {
        s0
    } else {
        sigs_after(s0, ls.drop_last()) + ls.last()
    }
}

/// The concatenation of the credits' signature lists, in order.
pub open spec fn concat_sigs(ls: Seq<Seq<Seq<char>>>) -> Seq<Seq<char>>
    decreases ls.len(),
{
    if ls.len() == 0 {
        Seq::empty()
    } else {
        concat_sigs(ls.drop_last()) + ls.last()
    }
}

/// Law: an entry's signature list is its initial list followed by the
/// signature sets of the credits consumed, in scan order; what a retired
/// expectation reports therefore contains every consumed transaction's
/// signatures, in order.
pub proof fn lemma_signatures_accumulate(s0: Seq<Seq<char>>, ls: Seq<Seq<Seq<char>>>)
    ensures
        sigs_after(s0, ls) == s0 + concat_sigs(ls),
    decreases ls.len(),
{
    if ls.len() == 0 {
        assert(s0 + concat_sigs(ls) =~= s0);
    } else {
        lemma_signatures_accumulate(s0, ls.drop_last());
        assert((s0 + concat_sigs(ls.drop_last())) + ls.last() =~= s0 + (concat_sigs(ls.drop_last())
            + ls.last()));
    }
}

} // verus!
