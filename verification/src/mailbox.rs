//! The broker's matching engine.
//!
//! The mailbox holds pending, not-yet-matched requests. Each queued
//! [`Mail`] carries a global sequence id, assigned at insertion, and is
//! filed in two indices at once: one under a key built from its source,
//! one under a key built from its destination, each index a family of
//! FIFO queues. An incoming request computes the keys its counterpart
//! must have been filed under and pops the oldest pending mail that
//! satisfies them, so that matching respects wildcards and strict global
//! arrival order.

use vstd::prelude::*;

use crate::comm_request::{
    opt_actor, req_is_recv, req_is_send, valid_message, CommRequest, RequestProc,
};

verus! {

/// Direction tag of an index key: whether the filed request was a send
/// or a receive.
#[derive(Debug, Copy, Clone, PartialEq, Eq, Structural)]
pub(crate) enum MessageTy {
    /// Filed request was a send.
    MSend,
    /// Filed request was a receive.
    MRecv,
}

/// An index key: the direction of the filed request, one of its two
/// endpoints, and its tag. The wildcard endpoint is a key value of its
/// own, distinct from every specific process.
#[derive(Debug, Copy, Clone, PartialEq, Eq, Structural)]
pub(crate) struct MailboxKey {
    pub(crate) key_type: MessageTy,
    pub(crate) actor: RequestProc,
    pub(crate) tag: u64,
}

impl MailboxKey {
    pub(crate) fn new(kt: MessageTy, p: RequestProc, t: u64) -> (r: MailboxKey)
        ensures
            r == (MailboxKey { key_type: kt, actor: p, tag: t }),
    {
        MailboxKey { key_type: kt, actor: p, tag: t }
    }
}

/// A key together with the index it points into: `H1` is the
/// by-source index, `H2` the by-destination index.
#[derive(Debug, Copy, Clone)]
pub(crate) enum KT {
    H1(MailboxKey),
    H2(MailboxKey),
}

/// A queued, not-yet-matched request plus its global sequence id.
#[derive(Debug, Clone)]
pub struct Mail<T> {
    /// Sequence id: lower is older, and the older mail matches first.
    pub id: usize,
    /// The queued request.
    pub req: CommRequest<T>,
}

impl<T> Mail<T> {
    /// Wrap a request under its sequence id.
    pub fn new(id: usize, req: CommRequest<T>) -> (r: Mail<T>)
        ensures
            r == (Mail { id, req }),
    {
        Mail { id, req }
    }
}

/// One queue of an index: the sequence ids of the pending mails filed
/// under one key, oldest first.
struct Bucket {
    key: MailboxKey,
    q: Vec<usize>,
}

/// The matching engine. `T` is the payload type, `H` the type of the
/// connection handle kept for the eventual reply; the mailbox never
/// looks inside either.
pub struct Mailbox<T, H> {
    h1: Vec<Bucket>,
    h2: Vec<Bucket>,
    id: usize,
    store: Vec<(Mail<T>, H)>,
}

/// When does a queued request `m` answer an incoming request `req`?
/// A send matches a queued receive with the same tag whose source names
/// the sender or the wildcard and whose destination — when the send
/// names one — names the queued receiver; a receive matches a queued
/// send symmetrically. An absent endpoint reads as the wildcard.
pub open spec fn req_matches<T>(req: CommRequest<T>, m: CommRequest<T>) -> bool {
    if req_is_send(req) {
        &&& req_is_recv(m)
        &&& m.tag == req.tag
        &&& (opt_actor(m.src) == opt_actor(req.src) || opt_actor(m.src) == RequestProc::Any)
        &&& (opt_actor(req.dest) == RequestProc::Any || opt_actor(m.dest) == opt_actor(req.dest))
    } else if req_is_recv(req) {
        &&& req_is_send(m)
        &&& m.tag == req.tag
        &&& (opt_actor(m.dest) == opt_actor(req.dest) || opt_actor(m.dest) == RequestProc::Any)
        &&& (opt_actor(req.src) == RequestProc::Any || opt_actor(m.src) == opt_actor(req.src))
    } else {
        false
    }
}

/// Sequence ids strictly increase along the pending list: position
/// order is age order.
pub open spec fn ids_increasing<T, H>(s: Seq<(Mail<T>, H)>) -> bool {
    forall |p: int, q: int| 0 <= p < q < s.len() ==> s[p].0.id < s[q].0.id
}

/// The pending mail at position `j` answers `req`.
pub open spec fn matches_at<T, H>(s: Seq<(Mail<T>, H)>, req: CommRequest<T>, j: int) -> bool {
    0 <= j < s.len() && req_matches(req, s[j].0.req)
}

/// Some pending mail answers `req`.
pub open spec fn has_match<T, H>(s: Seq<(Mail<T>, H)>, req: CommRequest<T>) -> bool {
    exists |j: int| matches_at(s, req, j)
}

/// Position `i` holds the oldest pending mail that answers `req`.
pub open spec fn first_match_at<T, H>(s: Seq<(Mail<T>, H)>, req: CommRequest<T>, i: int) -> bool {
    matches_at(s, req, i) && (forall |j: int| matches_at(s, req, j) ==> i <= j)
}

/// The pending list lost exactly its entry `i`: the oldest pending
/// mail answering `req`, handed back as `picked`.
pub open spec fn popped_match_at<T, H>(
    olds: Seq<(Mail<T>, H)>,
    news: Seq<(Mail<T>, H)>,
    req: CommRequest<T>,
    picked: (Mail<T>, H),
    i: int,
) -> bool {
    &&& first_match_at(olds, req, i)
    &&& picked == olds[i]
    &&& news == olds.remove(i)
}

/// Some position witnesses that `picked` was popped as the oldest
/// pending mail answering `req`.
pub open spec fn popped_match<T, H>(
    olds: Seq<(Mail<T>, H)>,
    news: Seq<(Mail<T>, H)>,
    req: CommRequest<T>,
    picked: (Mail<T>, H),
) -> bool {
    exists |i: int| popped_match_at(olds, news, req, picked, i)
}

/// Matching is symmetric: a request answers a queued counterpart
/// exactly when the counterpart, arriving second, would have answered
/// the request.
pub proof fn lemma_match_symmetric<T>(a: CommRequest<T>, b: CommRequest<T>)
    ensures
        req_matches(a, b) == req_matches(b, a),
{
}

/// Order preservation: the oldest match holds the smallest sequence id
/// among all pending mails that answer the request.
pub proof fn lemma_first_match_min_id<T, H>(
    s: Seq<(Mail<T>, H)>,
    req: CommRequest<T>,
    i: int,
    j: int,
)
    requires
        ids_increasing(s),
        first_match_at(s, req, i),
        matches_at(s, req, j),
    ensures
        s[i].0.id <= s[j].0.id,
{
}

/// Order preservation under repetition: popping the oldest match and
/// asking again yields a strictly larger sequence id, so repeated pops
/// drain matching mails in strictly increasing id order.
pub proof fn lemma_drain_increasing<T, H>(
    s: Seq<(Mail<T>, H)>,
    req: CommRequest<T>,
    i: int,
    i2: int,
)
    requires
        ids_increasing(s),
        first_match_at(s, req, i),
        first_match_at(s.remove(i), req, i2),
    ensures
        ids_increasing(s.remove(i)),
        s[i].0.id < s.remove(i)[i2].0.id,
{
    lemma_remove_points(s, i);
    assert(ids_increasing(s.remove(i))) by {
        assert forall |p: int, q: int|
            0 <= p < q < s.remove(i).len() implies s.remove(i)[p].0.id
            < s.remove(i)[q].0.id by {
            let op = if p < i { p } else { p + 1 };
            let oq = if q < i { q } else { q + 1 };
            assert(s.remove(i)[p] == s[op] && s.remove(i)[q] == s[oq]);
        }
    }
    let oi = if i2 < i { i2 } else { i2 + 1 };
    assert(s.remove(i)[i2] == s[oi]);
    if oi < i {
        assert(matches_at(s, req, oi));
        assert(i <= oi);
    }
}

/// At-most-once delivery: once a mail is popped, no pending mail with
/// its sequence id remains, so a second match can never return it.
pub proof fn lemma_at_most_once<T, H>(s: Seq<(Mail<T>, H)>, i: int, j: int)
    requires
        ids_increasing(s),
        0 <= i < s.len(),
        0 <= j < s.remove(i).len(),
    ensures
        s.remove(i)[j].0.id != s[i].0.id,
{
    lemma_remove_points(s, i);
    let oj = if j < i { j } else { j + 1 };
    assert(s.remove(i)[j] == s[oj]);
}

/// Order-independence of arrival: queueing one request and asking with
/// the other finds a match exactly when the two are queued and asked
/// the other way round.
pub proof fn lemma_arrival_order_independent<T, H>(
    a: CommRequest<T>,
    b: CommRequest<T>,
    ida: usize,
    idb: usize,
    ha: H,
    hb: H,
)
    ensures
        has_match(seq![((Mail { id: ida, req: a }), ha)], b) == has_match(
            seq![((Mail { id: idb, req: b }), hb)],
            a,
        ),
{
    lemma_match_symmetric(a, b);
    let sa = seq![((Mail { id: ida, req: a }), ha)];
    let sb = seq![((Mail { id: idb, req: b }), hb)];
    if req_matches(b, a) {
        assert(matches_at(sa, b, 0));
        assert(matches_at(sb, a, 0));
    } else {
        assert forall |j: int| !matches_at(sa, b, j) by {}
        assert forall |j: int| !matches_at(sb, a, j) by {}
    }
}

/// The direction tag a request is filed under.
spec fn dir_of<T>(r: CommRequest<T>) -> MessageTy {
    if req_is_send(r) {
        MessageTy::MSend
    } else {
        MessageTy::MRecv
    }
}

/// The key a request gets in the by-source index.
spec fn key1_of<T>(r: CommRequest<T>) -> MailboxKey {
    MailboxKey { key_type: dir_of(r), actor: opt_actor(r.src), tag: r.tag }
}

/// The key a request gets in the by-destination index.
spec fn key2_of<T>(r: CommRequest<T>) -> MailboxKey {
    MailboxKey { key_type: dir_of(r), actor: opt_actor(r.dest), tag: r.tag }
}

/// The key a request gets in the index `by_src` selects.
spec fn side_key<T>(r: CommRequest<T>, by_src: bool) -> MailboxKey {
    if by_src {
        key1_of(r)
    } else {
        key2_of(r)
    }
}

/// Whether a request is filed under `k`, in the index `k` names.
spec fn kt_matches<T>(r: CommRequest<T>, k: KT) -> bool {
    match k {
        KT::H1(key) => key1_of(r) == key,
        KT::H2(key) => key2_of(r) == key,
    }
}

/// Queue ids strictly increase from front to back.
spec fn bucket_sorted(b: Bucket) -> bool {
    forall |p: int, q: int| 0 <= p < q < b.q@.len() ==> b.q@[p] < b.q@[q]
}

/// No two buckets of an index share a key.
spec fn keys_distinct(v: Seq<Bucket>) -> bool {
    forall |p: int, q: int| 0 <= p < q < v.len() ==> v[p].key != v[q].key
}

/// The queued id belongs to a pending mail filed under `key` on the
/// given side.
spec fn id_resolves<T, H>(
    s: Seq<(Mail<T>, H)>,
    id: usize,
    key: MailboxKey,
    by_src: bool,
) -> bool {
    exists |j: int|
        0 <= j < s.len() && s[j].0.id == id && side_key(s[j].0.req, by_src) == key
}

/// The pending mail is queued in the bucket its key selects.
spec fn mail_indexed<T>(v: Seq<Bucket>, m: Mail<T>, by_src: bool) -> bool {
    exists |p: int|
        0 <= p < v.len() && v[p].key == side_key(m.req, by_src) && v[p].q@.contains(m.id)
}

/// One index agrees with the pending list: every queued id is the id of
/// a pending mail filed under the bucket's key, every pending mail is
/// queued under its key, queues age from front to back, and keys are
/// unambiguous.
spec fn index_linked<T, H>(v: Seq<Bucket>, s: Seq<(Mail<T>, H)>, by_src: bool) -> bool {
    &&& keys_distinct(v)
    &&& (forall |p: int| 0 <= p < v.len() ==> bucket_sorted(#[trigger] v[p]))
    &&& (forall |p: int, l: int|
        0 <= p < v.len() && 0 <= l < v[p].q@.len() ==> id_resolves(
            s,
            #[trigger] v[p].q@[l],
            v[p].key,
            by_src,
        ))
    &&& (forall |j: int| 0 <= j < s.len() ==> mail_indexed(v, #[trigger] s[j].0, by_src))
}

impl<T, H> View for Mailbox<T, H> {
    type V = Seq<(Mail<T>, H)>;

    /// The pending mails with their reply handles, oldest first.
    closed spec fn view(&self) -> Seq<(Mail<T>, H)> {
        self.store@
    }
}

impl<T, H> Mailbox<T, H> {
    /// The sequence id the next inserted mail will receive.
    pub closed spec fn next_id(self) -> usize {
        self.id
    }

    /// The mailbox's invariant: the pending list ages left to right
    /// below the next free id, holds only resolved data messages, and
    /// both indices agree with it.
    #[verifier::opaque]
    pub closed spec fn wf(self) -> bool {
        &&& ids_increasing(self.store@)
        &&& (forall |j: int| 0 <= j < self.store@.len() ==> (#[trigger] self.store@[j]).0.id
            < self.id)
        &&& (forall |j: int| 0 <= j < self.store@.len() ==> valid_message(
            (#[trigger] self.store@[j]).0.req,
        ))
        &&& index_linked(self.h1@, self.store@, true)
        &&& index_linked(self.h2@, self.store@, false)
    }

    /// What well-formedness says of the visible model: ids age along
    /// the pending list, stay below the next free id, and every pending
    /// request is a resolved data message.
    pub proof fn lemma_wf_model(self)
        requires
            self.wf(),
        ensures
            ids_increasing(self@),
            forall |j: int| 0 <= j < self@.len() ==> (#[trigger] self@[j]).0.id < self.next_id(),
            forall |j: int| 0 <= j < self@.len() ==> valid_message((#[trigger] self@[j]).0.req),
    {
        reveal(Mailbox::wf);
    }

    /// An empty mailbox, ids starting at zero.
    pub fn new() -> (r: Mailbox<T, H>)
        ensures
            r.wf(),
            r@ == Seq::<(Mail<T>, H)>::empty(),
            r.next_id() == 0,
    {
        let r = Mailbox { h1: Vec::new(), h2: Vec::new(), id: 0, store: Vec::new() };
        proof {
            reveal(Mailbox::wf);
            assert(r@ =~= Seq::<(Mail<T>, H)>::empty());
        }
        r
    }

    /// File a request, together with the connection handle owed its
    /// eventual reply, under the next sequence id.
    pub fn insert_mail(&mut self, req: CommRequest<T>, stream: H)
        requires
            old(self).wf(),
            valid_message(req),
            old(self).next_id() < usize::MAX,
        ensures
            final(self).wf(),
            final(self)@ == old(self)@.push(((Mail { id: old(self).next_id(), req }), stream)),
            final(self).next_id() == old(self).next_id() + 1,
    {
        let mtype = if req.is_send() {
            MessageTy::MSend
        } else {
            MessageTy::MRecv
        };
        let mid = self.id;
        let h1_key = MailboxKey::new(mtype, req.src().unwrap(), req.tag());
        let h2_key = MailboxKey::new(mtype, req.dst().unwrap(), req.tag());
        proof {
            reveal(Mailbox::wf);
            assert(h1_key == key1_of(req));
            assert(h2_key == key2_of(req));
        }
        let mail = Mail::new(mid, req);
        self.store.push((mail, stream));
        self.id = mid + 1;
        index_append(&mut self.h1, h1_key, mid);
        index_append(&mut self.h2, h2_key, mid);
        proof {
            reveal(Mailbox::wf);
            let olds = old(self)@;
            let news = self@;
            assert(news == olds.push(((Mail { id: old(self).next_id(), req }), stream)));
            lemma_index_append_linked(old(self).h1@, self.h1@, olds, news, true, h1_key, mid);
            lemma_index_append_linked(old(self).h2@, self.h2@, olds, news, false, h2_key, mid);
        }
    }

    /// The sequence id the next inserted mail will receive, as a
    /// value: lets a caller notice the id space nearing exhaustion.
    pub fn next_sequence_id(&self) -> (r: usize)
        ensures
            r == self.next_id(),
    {
        self.id
    }

    /// Pop the unique correct counterpart of `req`: the oldest pending
    /// mail that answers it, removed from the mailbox and handed back
    /// with the connection handle owed its reply. Nothing is removed,
    /// and nothing returned, exactly when no pending mail answers.
    pub fn pop_matching_mail(&mut self, req: &CommRequest<T>) -> (r: Option<(Mail<T>, H)>)
        requires
            old(self).wf(),
            valid_message(*req),
        ensures
            final(self).wf(),
            final(self).next_id() == old(self).next_id(),
            match r {
                Some(picked) => popped_match(old(self)@, final(self)@, *req, picked),
                None => {
                    &&& final(self)@ == old(self)@
                    &&& !has_match(old(self)@, *req)
                },
            },
    {
        proof {
            self.lemma_wf_model();
        }
        let keys = Self::mirror_keys(req);
        let ghost gkeys = keys@;
        if keys.len() == 2 {
            let r = self.fast_first_union(keys);
            proof {
                lemma_union_pop_match(old(self)@, self@, *req, gkeys, r);
            }
            r
        } else {
            let r = self.fast_first_union_intersect(keys);
            proof {
                lemma_isect_pop_match(old(self)@, self@, *req, gkeys, r);
            }
            r
        }
    }
}

impl<T, H> Mailbox<T, H> {
    /// Take the pending mail with sequence id `id` out of the store
    /// and out of both indices, handing back the mail and the reply
    /// handle kept with it.
    fn remove_stored(&mut self, id: usize) -> (r: (Mail<T>, H))
        requires
            old(self).wf(),
            exists |j: int| 0 <= j < old(self)@.len() && (#[trigger] old(self)@[j]).0.id == id,
        ensures
            final(self).wf(),
            final(self).next_id() == old(self).next_id(),
            exists |j: int|
                {
                    &&& 0 <= j < old(self)@.len()
                    &&& (#[trigger] old(self)@[j]).0.id == id
                    &&& r == old(self)@[j]
                    &&& final(self)@ == old(self)@.remove(j)
                },
    {
        let jo = find_store_pos(&self.store, id);
        if let Some(j) = jo {
            proof {
                reveal(Mailbox::wf);
            }
            let pair = self.store.remove(j);
            proof {
                assert(valid_message(pair.0.req));
            }
            let mtype = if pair.0.req.is_send() {
                MessageTy::MSend
            } else {
                MessageTy::MRecv
            };
            let k1 = MailboxKey::new(mtype, pair.0.req.src().unwrap(), pair.0.req.tag());
            let k2 = MailboxKey::new(mtype, pair.0.req.dst().unwrap(), pair.0.req.tag());
            proof {
                reveal(Mailbox::wf);
                assert(k1 == key1_of(pair.0.req));
                assert(k2 == key2_of(pair.0.req));
                assert(mail_indexed(old(self).h1@, pair.0, true));
                assert(mail_indexed(old(self).h2@, pair.0, false));
            }
            index_remove(&mut self.h1, &k1, id);
            index_remove(&mut self.h2, &k2, id);
            proof {
                reveal(Mailbox::wf);
                let olds = old(self)@;
                let news = olds.remove(j as int);
                lemma_remove_points(olds, j as int);
                assert(self@ == news);
                assert(ids_increasing(news)) by {
                    assert forall |a: int, b: int| 0 <= a < b < news.len() implies news[a].0.id
                        < news[b].0.id by {
                        let oa = if a < j { a } else { a + 1 };
                        let ob = if b < j { b } else { b + 1 };
                        assert(news[a] == olds[oa] && news[b] == olds[ob]);
                    }
                }
                assert(forall |a: int| 0 <= a < news.len() ==> (#[trigger] news[a]).0.id
                    < self.id);
                assert(forall |a: int| 0 <= a < news.len() ==> valid_message(
                    (#[trigger] news[a]).0.req,
                ));
                lemma_index_remove_linked(
                    old(self).h1@,
                    self.h1@,
                    olds,
                    news,
                    true,
                    j as int,
                    id,
                );
                lemma_index_remove_linked(
                    old(self).h2@,
                    self.h2@,
                    olds,
                    news,
                    false,
                    j as int,
                    id,
                );
            }
            pair
        } else {
            proof {
                reveal(Mailbox::wf);
                assert(false);
            }
            vstd::pervasive::unreached()
        }
    }
}

/// Append a queued id under `key`, extending the bucket that carries
/// the key or opening a fresh one at the back.
fn index_append(v: &mut Vec<Bucket>, key: MailboxKey, mid: usize)
    ensures
        appended(old(v)@, final(v)@, key, mid),
{
    let b = find_bucket(v, &key);
    match b {
        Some(p) => {
            let mut bucket = v.remove(p);
            bucket.q.push(mid);
            v.insert(p, bucket);
            proof {
                assert(v@.len() == old(v)@.len());
                assert(v@[p as int].key == key);
                assert(v@[p as int].q@ == old(v)@[p as int].q@.push(mid));
                assert(forall |q: int|
                    0 <= q < old(v)@.len() && q != p ==> v@[q] == old(v)@[q]);
            }
        }
        None => {
            let mut q: Vec<usize> = Vec::new();
            q.push(mid);
            v.push(Bucket { key, q });
            proof {
                let w = old(v)@.len() as int;
                assert(v@[w].key == key);
                assert(v@[w].q@ =~= seq![mid]);
                assert(forall |q: int| 0 <= q < old(v)@.len() ==> v@[q] == old(v)@[q]);
            }
        }
    }
}

/// How one append changes an index: one bucket gained `mid` at its
/// back — an existing bucket keyed `key`, or a fresh one — and every
/// other bucket stands as it was.
spec fn appended(olds: Seq<Bucket>, news: Seq<Bucket>, key: MailboxKey, mid: usize) -> bool {
    ||| (exists |p: int|
        {
            &&& 0 <= p < olds.len()
            &&& olds[p].key == key
            &&& news.len() == olds.len()
            &&& #[trigger] news[p].key == key
            &&& news[p].q@ == olds[p].q@.push(mid)
            &&& (forall |q: int| 0 <= q < olds.len() && q != p ==> news[q] == olds[q])
        })
    ||| {
        &&& (forall |p: int| 0 <= p < olds.len() ==> (#[trigger] olds[p]).key != key)
        &&& news.len() == olds.len() + 1
        &&& news[olds.len() as int].key == key
        &&& news[olds.len() as int].q@ == seq![mid]
        &&& (forall |q: int| 0 <= q < olds.len() ==> news[q] == olds[q])
    }
}

/// Appending the next id to the index of a freshly pushed pending mail
/// keeps the index linked to the pending list.
proof fn lemma_index_append_linked<T, H>(
    oldv: Seq<Bucket>,
    newv: Seq<Bucket>,
    olds: Seq<(Mail<T>, H)>,
    news: Seq<(Mail<T>, H)>,
    by_src: bool,
    key: MailboxKey,
    mid: usize,
)
    requires
        index_linked(oldv, olds, by_src),
        appended(oldv, newv, key, mid),
        news.len() == olds.len() + 1,
        forall |j: int| 0 <= j < olds.len() ==> news[j] == olds[j],
        news[olds.len() as int].0.id == mid,
        side_key(news[olds.len() as int].0.req, by_src) == key,
        forall |j: int| 0 <= j < olds.len() ==> (#[trigger] olds[j]).0.id < mid,
    ensures
        index_linked(newv, news, by_src),
{
    let n = olds.len() as int;
    if exists |p: int|
        {
            &&& 0 <= p < oldv.len()
            &&& oldv[p].key == key
            &&& newv.len() == oldv.len()
            &&& #[trigger] newv[p].key == key
            &&& newv[p].q@ == oldv[p].q@.push(mid)
            &&& (forall |q: int| 0 <= q < oldv.len() && q != p ==> newv[q] == oldv[q])
        } {
        let p = choose |p: int|
            {
                &&& 0 <= p < oldv.len()
                &&& oldv[p].key == key
                &&& newv.len() == oldv.len()
                &&& #[trigger] newv[p].key == key
                &&& newv[p].q@ == oldv[p].q@.push(mid)
                &&& (forall |q: int| 0 <= q < oldv.len() && q != p ==> newv[q] == oldv[q])
            };
        assert(keys_distinct(newv)) by {
            assert forall |a: int, b: int| 0 <= a < b < newv.len() implies newv[a].key
                != newv[b].key by {
                assert(oldv[a].key != oldv[b].key);
            }
        }
        assert forall |a: int| 0 <= a < newv.len() implies bucket_sorted(#[trigger] newv[a]) by {
            assert(bucket_sorted(oldv[a]));
            if a == p {
                assert forall |x: int, y: int| 0 <= x < y < newv[a].q@.len() implies newv[a].q@[x]
                    < newv[a].q@[y] by {
                    if y < oldv[a].q@.len() {
                        assert(oldv[a].q@[x] < oldv[a].q@[y]);
                    } else {
                        assert(newv[a].q@[y] == mid);
                        assert(id_resolves(olds, oldv[a].q@[x], oldv[a].key, by_src));
                        let j = choose |j: int|
                            0 <= j < olds.len() && olds[j].0.id == oldv[a].q@[x] && side_key(
                                olds[j].0.req,
                                by_src,
                            ) == oldv[a].key;
                        assert(olds[j].0.id < mid);
                    }
                }
            }
        }
        assert forall |a: int, l: int|
            0 <= a < newv.len() && 0 <= l < newv[a].q@.len() implies id_resolves(
            news,
            #[trigger] newv[a].q@[l],
            newv[a].key,
            by_src,
        ) by {
            if a == p && l == oldv[a].q@.len() {
                assert(newv[a].q@[l] == mid);
                assert(news[n].0.id == mid && side_key(news[n].0.req, by_src) == newv[a].key);
            } else {
                assert(id_resolves(olds, oldv[a].q@[l], oldv[a].key, by_src));
                let j = choose |j: int|
                    0 <= j < olds.len() && olds[j].0.id == oldv[a].q@[l] && side_key(
                        olds[j].0.req,
                        by_src,
                    ) == oldv[a].key;
                assert(news[j].0.id == newv[a].q@[l] && side_key(news[j].0.req, by_src)
                    == newv[a].key);
            }
        }
        assert forall |j: int| 0 <= j < news.len() implies mail_indexed(
            newv,
            #[trigger] news[j].0,
            by_src,
        ) by {
            if j < n {
                assert(mail_indexed(oldv, olds[j].0, by_src));
                let a = choose |a: int|
                    0 <= a < oldv.len() && oldv[a].key == side_key(olds[j].0.req, by_src)
                        && oldv[a].q@.contains(olds[j].0.id);
                if a == p {
                    let l = choose |l: int|
                        0 <= l < oldv[a].q@.len() && oldv[a].q@[l] == olds[j].0.id;
                    assert(newv[a].q@[l] == olds[j].0.id);
                    assert(newv[a].q@.contains(news[j].0.id));
                } else {
                    assert(newv[a].q@.contains(news[j].0.id));
                }
            } else {
                assert(newv[p].q@[oldv[p].q@.len() as int] == mid);
                assert(newv[p].q@.contains(mid));
            }
        }
    } else {
        assert(forall |a: int| 0 <= a < oldv.len() ==> (#[trigger] oldv[a]).key != key);
        assert(newv.len() == oldv.len() + 1);
        let w = oldv.len() as int;
        assert(keys_distinct(newv)) by {
            assert forall |a: int, b: int| 0 <= a < b < newv.len() implies newv[a].key
                != newv[b].key by {
                if b < w {
                    assert(oldv[a].key != oldv[b].key);
                } else {
                    assert(newv[b].key == key && newv[a].key == oldv[a].key);
                }
            }
        }
        assert forall |a: int| 0 <= a < newv.len() implies bucket_sorted(#[trigger] newv[a]) by {
            if a < w {
                assert(bucket_sorted(oldv[a]));
            } else {
                assert(newv[a].q@ == seq![mid]);
            }
        }
        assert forall |a: int, l: int|
            0 <= a < newv.len() && 0 <= l < newv[a].q@.len() implies id_resolves(
            news,
            #[trigger] newv[a].q@[l],
            newv[a].key,
            by_src,
        ) by {
            if a < w {
                assert(id_resolves(olds, oldv[a].q@[l], oldv[a].key, by_src));
                let j = choose |j: int|
                    0 <= j < olds.len() && olds[j].0.id == oldv[a].q@[l] && side_key(
                        olds[j].0.req,
                        by_src,
                    ) == oldv[a].key;
                assert(news[j].0.id == newv[a].q@[l] && side_key(news[j].0.req, by_src)
                    == newv[a].key);
            } else {
                assert(newv[a].q@[l] == mid);
                assert(news[n].0.id == mid && side_key(news[n].0.req, by_src) == newv[a].key);
            }
        }
        assert forall |j: int| 0 <= j < news.len() implies mail_indexed(
            newv,
            #[trigger] news[j].0,
            by_src,
        ) by {
            if j < n {
                assert(mail_indexed(oldv, olds[j].0, by_src));
                let a = choose |a: int|
                    0 <= a < oldv.len() && oldv[a].key == side_key(olds[j].0.req, by_src)
                        && oldv[a].q@.contains(olds[j].0.id);
                assert(newv[a] == oldv[a]);
                assert(newv[a].q@.contains(news[j].0.id));
            } else {
                assert(newv[w].q@[0] == mid);
                assert(newv[w].q@.contains(mid));
            }
        }
    }
}

/// The first key an incoming request's counterpart must be filed
/// under: the opposite direction, the endpoint the broker resolved on
/// the request — its source for a send, its destination for a receive —
/// and the tag.
spec fn union_kt_a<T>(req: CommRequest<T>) -> KT {
    if req_is_send(req) {
        KT::H1(
            MailboxKey {
                key_type: MessageTy::MRecv,
                actor: opt_actor(req.src),
                tag: req.tag,
            },
        )
    } else {
        KT::H2(
            MailboxKey {
                key_type: MessageTy::MSend,
                actor: opt_actor(req.dest),
                tag: req.tag,
            },
        )
    }
}

/// The second key: as the first, with the wildcard for the endpoint.
spec fn union_kt_b<T>(req: CommRequest<T>) -> KT {
    if req_is_send(req) {
        KT::H1(MailboxKey { key_type: MessageTy::MRecv, actor: RequestProc::Any, tag: req.tag })
    } else {
        KT::H2(MailboxKey { key_type: MessageTy::MSend, actor: RequestProc::Any, tag: req.tag })
    }
}

/// Whether the request pins the opposite endpoint too — a send naming
/// a specific destination, a receive naming a specific source — so
/// that the counterpart must also sit under a third key in the other
/// index.
spec fn needs_isect<T>(req: CommRequest<T>) -> bool {
    if req_is_send(req) {
        opt_actor(req.dest) != RequestProc::Any
    } else {
        opt_actor(req.src) != RequestProc::Any
    }
}

/// The third key: the opposite index, pinned to the endpoint the
/// request names there.
spec fn isect_kt<T>(req: CommRequest<T>) -> KT {
    if req_is_send(req) {
        KT::H2(
            MailboxKey {
                key_type: MessageTy::MRecv,
                actor: opt_actor(req.dest),
                tag: req.tag,
            },
        )
    } else {
        KT::H1(
            MailboxKey {
                key_type: MessageTy::MSend,
                actor: opt_actor(req.src),
                tag: req.tag,
            },
        )
    }
}

/// Filed under one of the two union keys.
spec fn in_union<T>(r: CommRequest<T>, keys: Seq<KT>) -> bool {
    kt_matches(r, keys[0]) || kt_matches(r, keys[1])
}

/// Filed under one of the two union keys and under the third key.
spec fn in_isect<T>(r: CommRequest<T>, keys: Seq<KT>) -> bool {
    in_union(r, keys) && kt_matches(r, keys[2])
}

/// The mirror keys pin exactly the pending requests that answer `req`:
/// membership under them is the matching relation.
proof fn lemma_keys_characterize<T>(req: CommRequest<T>, m: CommRequest<T>)
    requires
        valid_message(req),
        valid_message(m),
    ensures
        req_matches(req, m) == ((kt_matches(m, union_kt_a(req)) || kt_matches(
            m,
            union_kt_b(req),
        )) && (needs_isect(req) ==> kt_matches(m, isect_kt(req)))),
{
}

/// How one removal changes an index: the bucket keyed `key` lost the
/// one queue entry holding `id`, and every other bucket stands as it
/// was. `p` is the bucket's position, `l` the entry's.
spec fn id_removed_at(
    olds: Seq<Bucket>,
    news: Seq<Bucket>,
    key: MailboxKey,
    id: usize,
    p: int,
    l: int,
) -> bool {
    &&& 0 <= p < olds.len()
    &&& olds[p].key == key
    &&& 0 <= l < olds[p].q@.len()
    &&& olds[p].q@[l] == id
    &&& news.len() == olds.len()
    &&& news[p].key == key
    &&& news[p].q@ == olds[p].q@.remove(l)
    &&& (forall |q: int| 0 <= q < olds.len() && q != p ==> news[q] == olds[q])
}

/// Some bucket and queue position witness the removal of `id` under
/// `key`.
spec fn id_removed(olds: Seq<Bucket>, news: Seq<Bucket>, key: MailboxKey, id: usize) -> bool {
    exists |p: int, l: int| id_removed_at(olds, news, key, id, p, l)
}

/// Drop the queue entry holding `id` from the bucket keyed `key`.
fn index_remove(v: &mut Vec<Bucket>, key: &MailboxKey, id: usize)
    requires
        keys_distinct(old(v)@),
        exists |p: int|
            0 <= p < old(v)@.len() && (#[trigger] old(v)@[p]).key == *key
                && old(v)@[p].q@.contains(id),
    ensures
        id_removed(old(v)@, final(v)@, *key, id),
{
    let b = find_bucket(v, key);
    if let Some(p) = b {
        let mut bucket = v.remove(p);
        proof {
            let pw = choose |pw: int|
                0 <= pw < old(v)@.len() && (#[trigger] old(v)@[pw]).key == *key
                    && old(v)@[pw].q@.contains(id);
            assert(pw == p as int);
        }
        let lo = find_pos(&bucket.q, id);
        if let Some(l) = lo {
            bucket.q.remove(l);
            v.insert(p, bucket);
            proof {
                assert(forall |q: int|
                    0 <= q < old(v)@.len() && q != p ==> v@[q] == old(v)@[q]);
                assert(id_removed_at(old(v)@, v@, *key, id, p as int, l as int));
            }
        } else {
            proof {
                assert(false);
            }
        }
    } else {
        proof {
            let pw = choose |pw: int|
                0 <= pw < old(v)@.len() && (#[trigger] old(v)@[pw]).key == *key
                    && old(v)@[pw].q@.contains(id);
            assert(false);
        }
    }
}

/// Every sequence id names at most one pending mail.
proof fn lemma_ids_unique<T, H>(s: Seq<(Mail<T>, H)>, a: int, b: int)
    requires
        ids_increasing(s),
        0 <= a < s.len(),
        0 <= b < s.len(),
        s[a].0.id == s[b].0.id,
    ensures
        a == b,
{
    if a < b {
        assert(s[a].0.id < s[b].0.id);
    }
    if b < a {
        assert(s[b].0.id < s[a].0.id);
    }
}

/// Pointwise reading of dropping one element from a sequence.
proof fn lemma_remove_points<A>(s: Seq<A>, i: int)
    requires
        0 <= i < s.len(),
    ensures
        s.remove(i).len() == s.len() - 1,
        forall |j: int| 0 <= j < i ==> #[trigger] s.remove(i)[j] == s[j],
        forall |j: int| i <= j < s.len() - 1 ==> #[trigger] s.remove(i)[j] == s[j + 1],
{
}

/// After a removal, the bucket keys are unchanged and every queue still
/// ages from front to back.
proof fn lemma_rm_shape(oldv: Seq<Bucket>, newv: Seq<Bucket>, key: MailboxKey, id: usize, p: int, l: int)
    requires
        keys_distinct(oldv),
        forall |a: int| 0 <= a < oldv.len() ==> bucket_sorted(#[trigger] oldv[a]),
        id_removed_at(oldv, newv, key, id, p, l),
    ensures
        keys_distinct(newv),
        forall |a: int| 0 <= a < newv.len() ==> bucket_sorted(#[trigger] newv[a]),
{
    lemma_remove_points(oldv[p].q@, l);
    assert(keys_distinct(newv)) by {
        assert forall |a: int, b: int| 0 <= a < b < newv.len() implies newv[a].key
            != newv[b].key by {
            assert(newv[a].key == oldv[a].key && newv[b].key == oldv[b].key);
        }
    }
    assert forall |a: int| 0 <= a < newv.len() implies bucket_sorted(#[trigger] newv[a]) by {
        assert(bucket_sorted(oldv[a]));
        if a == p {
            assert forall |x: int, y: int| 0 <= x < y < newv[a].q@.len() implies newv[a].q@[x]
                < newv[a].q@[y] by {
                let ox = if x < l { x } else { x + 1 };
                let oy = if y < l { y } else { y + 1 };
                assert(newv[a].q@[x] == oldv[a].q@[ox]);
                assert(newv[a].q@[y] == oldv[a].q@[oy]);
                assert(oldv[a].q@[ox] < oldv[a].q@[oy]);
            }
        }
    }
}

/// After a removal, every id still queued belongs to a mail still
/// pending.
#[verifier::rlimit(30)]
proof fn lemma_rm_resolves<T, H>(
    oldv: Seq<Bucket>,
    newv: Seq<Bucket>,
    olds: Seq<(Mail<T>, H)>,
    by_src: bool,
    jrm: int,
    id: usize,
    p: int,
    l: int,
)
    requires
        index_linked(oldv, olds, by_src),
        ids_increasing(olds),
        0 <= jrm < olds.len(),
        olds[jrm].0.id == id,
        id_removed_at(oldv, newv, side_key(olds[jrm].0.req, by_src), id, p, l),
    ensures
        forall |a: int, li: int|
            0 <= a < newv.len() && 0 <= li < newv[a].q@.len() ==> id_resolves(
                olds.remove(jrm),
                #[trigger] newv[a].q@[li],
                newv[a].key,
                by_src,
            ),
{
    let news = olds.remove(jrm);
    let key = side_key(olds[jrm].0.req, by_src);
    lemma_remove_points(olds, jrm);
    lemma_remove_points(oldv[p].q@, l);
    assert forall |a: int, li: int|
        0 <= a < newv.len() && 0 <= li < newv[a].q@.len() implies id_resolves(
        news,
        #[trigger] newv[a].q@[li],
        newv[a].key,
        by_src,
    ) by {
        let oli = if a == p && li >= l { li + 1 } else { li };
        let x = oldv[a].q@[oli];
        assert(newv[a].q@[li] == x);
        assert(id_resolves(olds, x, oldv[a].key, by_src));
        let j = choose |j: int|
            0 <= j < olds.len() && olds[j].0.id == x && side_key(olds[j].0.req, by_src)
                == oldv[a].key;
        if j == jrm {
            // the popped id can only have sat in bucket `p` at entry `l`
            assert(x == id);
            assert(oldv[a].key == key);
            if a != p {
                assert(oldv[a].key != oldv[p].key);
            }
            assert(a == p);
            assert(bucket_sorted(oldv[p]));
            if oli < l {
                assert(oldv[p].q@[oli] < oldv[p].q@[l]);
            }
            if l < oli {
                assert(oldv[p].q@[l] < oldv[p].q@[oli]);
            }
            assert(false);
        }
        let nj = if j < jrm { j } else { j - 1 };
        assert(news[nj] == olds[j]);
        assert(news[nj].0.id == x && side_key(news[nj].0.req, by_src) == newv[a].key);
    }
}

/// After a removal, every mail still pending is still queued under its
/// key.
#[verifier::rlimit(30)]
proof fn lemma_rm_indexed<T, H>(
    oldv: Seq<Bucket>,
    newv: Seq<Bucket>,
    olds: Seq<(Mail<T>, H)>,
    by_src: bool,
    jrm: int,
    id: usize,
    p: int,
    l: int,
)
    requires
        index_linked(oldv, olds, by_src),
        ids_increasing(olds),
        0 <= jrm < olds.len(),
        olds[jrm].0.id == id,
        id_removed_at(oldv, newv, side_key(olds[jrm].0.req, by_src), id, p, l),
    ensures
        forall |j: int| 0 <= j < olds.remove(jrm).len() ==> mail_indexed(
            newv,
            (#[trigger] olds.remove(jrm)[j]).0,
            by_src,
        ),
{
    let news = olds.remove(jrm);
    lemma_remove_points(olds, jrm);
    lemma_remove_points(oldv[p].q@, l);
    assert forall |j: int| 0 <= j < news.len() implies mail_indexed(
        newv,
        (#[trigger] news[j]).0,
        by_src,
    ) by {
        let oj = if j < jrm { j } else { j + 1 };
        assert(news[j] == olds[oj]);
        assert(mail_indexed(oldv, olds[oj].0, by_src));
        let a = choose |a: int|
            0 <= a < oldv.len() && oldv[a].key == side_key(olds[oj].0.req, by_src)
                && oldv[a].q@.contains(olds[oj].0.id);
        let x = olds[oj].0.id;
        if x == id {
            lemma_ids_unique(olds, oj, jrm);
            assert(false);
        }
        if a != p {
            assert(newv[a] == oldv[a]);
            assert(newv[a].q@.contains(x));
        } else {
            let li = choose |li: int| 0 <= li < oldv[a].q@.len() && oldv[a].q@[li] == x;
            assert(li != l);
            let nli = if li < l { li } else { li - 1 };
            assert(newv[a].q@[nli] == x);
            assert(newv[a].q@.contains(x));
        }
    }
}

/// Dropping a popped mail's queue entry keeps its index linked to the
/// shortened pending list.
proof fn lemma_index_remove_linked<T, H>(
    oldv: Seq<Bucket>,
    newv: Seq<Bucket>,
    olds: Seq<(Mail<T>, H)>,
    news: Seq<(Mail<T>, H)>,
    by_src: bool,
    jrm: int,
    id: usize,
)
    requires
        index_linked(oldv, olds, by_src),
        ids_increasing(olds),
        0 <= jrm < olds.len(),
        olds[jrm].0.id == id,
        news == olds.remove(jrm),
        id_removed(oldv, newv, side_key(olds[jrm].0.req, by_src), id),
    ensures
        index_linked(newv, news, by_src),
{
    let key = side_key(olds[jrm].0.req, by_src);
    let (p, l) = choose |p: int, l: int| id_removed_at(oldv, newv, key, id, p, l);
    assert(id_removed_at(oldv, newv, key, id, p, l));
    lemma_rm_shape(oldv, newv, key, id, p, l);
    lemma_rm_resolves(oldv, newv, olds, by_src, jrm, id, p, l);
    lemma_rm_indexed(oldv, newv, olds, by_src, jrm, id, p, l);
}

/// The id at the front of the bucket keyed `key`: the oldest pending
/// mail filed under the key, or nothing if none is.
fn index_front<T, H>(
    v: &Vec<Bucket>,
    key: &MailboxKey,
    store: Ghost<Seq<(Mail<T>, H)>>,
    by_src: Ghost<bool>,
) -> (r: Option<usize>)
    requires
        index_linked(v@, store@, by_src@),
    ensures
        match r {
            Some(id) => {
                &&& exists |j: int|
                    0 <= j < store@.len() && (#[trigger] store@[j]).0.id == id && side_key(
                        store@[j].0.req,
                        by_src@,
                    ) == *key
                &&& forall |j: int|
                    0 <= j < store@.len() && side_key((#[trigger] store@[j]).0.req, by_src@)
                        == *key ==> id <= store@[j].0.id
            },
            None => forall |j: int|
                0 <= j < store@.len() ==> side_key((#[trigger] store@[j]).0.req, by_src@) != *key,
        },
{
    let b = find_bucket(v, key);
    if let Some(p) = b {
        if v[p].q.len() > 0 {
            let id = v[p].q[0];
            proof {
                assert(id_resolves(store@, v@[p as int].q@[0], v@[p as int].key, by_src@));
                assert forall |j: int|
                    0 <= j < store@.len() && side_key(
                        (#[trigger] store@[j]).0.req,
                        by_src@,
                    ) == *key implies id <= store@[j].0.id by {
                    assert(mail_indexed(v@, store@[j].0, by_src@));
                    let a = choose |a: int|
                        0 <= a < v@.len() && v@[a].key == side_key(store@[j].0.req, by_src@)
                            && v@[a].q@.contains(store@[j].0.id);
                    if a != p {
                        assert(v@[a].key != v@[p as int].key);
                    }
                    let l = choose |l: int|
                        0 <= l < v@[a].q@.len() && v@[a].q@[l] == store@[j].0.id;
                    if l > 0 {
                        assert(v@[a].q@[0] < v@[a].q@[l]);
                    }
                }
            }
            Some(id)
        } else {
            proof {
                assert forall |j: int| 0 <= j < store@.len() implies side_key(
                    (#[trigger] store@[j]).0.req,
                    by_src@,
                ) != *key by {
                    if side_key(store@[j].0.req, by_src@) == *key {
                        assert(mail_indexed(v@, store@[j].0, by_src@));
                        let a = choose |a: int|
                            0 <= a < v@.len() && v@[a].key == side_key(store@[j].0.req, by_src@)
                                && v@[a].q@.contains(store@[j].0.id);
                        if a != p {
                            assert(v@[a].key != v@[p as int].key);
                        }
                        assert(false);
                    }
                }
            }
            None
        }
    } else {
        proof {
            assert forall |j: int| 0 <= j < store@.len() implies side_key(
                (#[trigger] store@[j]).0.req,
                by_src@,
            ) != *key by {
                if side_key(store@[j].0.req, by_src@) == *key {
                    assert(mail_indexed(v@, store@[j].0, by_src@));
                    assert(false);
                }
            }
        }
        None
    }
}

/// What a front lookup reports of the pending list: the id of the
/// oldest pending mail filed under `k`, or that none is.
spec fn is_front_of<T, H>(s: Seq<(Mail<T>, H)>, k: KT, r: Option<usize>) -> bool {
    match r {
        Some(id) => {
            &&& exists |j: int|
                0 <= j < s.len() && (#[trigger] s[j]).0.id == id && kt_matches(s[j].0.req, k)
            &&& forall |j: int|
                0 <= j < s.len() && kt_matches((#[trigger] s[j]).0.req, k) ==> id <= s[j].0.id
        },
        None => forall |j: int| 0 <= j < s.len() ==> !kt_matches((#[trigger] s[j]).0.req, k),
    }
}

/// Entries strictly increase from front to back.
spec fn sorted_ids(q: Seq<usize>) -> bool {
    forall |x: int, y: int| 0 <= x < y < q.len() ==> q[x] < q[y]
}

/// `id` is the sequence id of a pending mail filed under `k`.
spec fn queued_id_of<T, H>(s: Seq<(Mail<T>, H)>, k: KT, id: usize) -> bool {
    exists |j: int|
        0 <= j < s.len() && (#[trigger] s[j]).0.id == id && kt_matches(s[j].0.req, k)
}

/// `q` reads off exactly the queue for `k`: sorted, every entry the id
/// of a pending mail filed under `k`, and complete.
spec fn is_queue_of<T, H>(s: Seq<(Mail<T>, H)>, k: KT, q: Seq<usize>) -> bool {
    &&& sorted_ids(q)
    &&& (forall |l: int| 0 <= l < q.len() ==> queued_id_of(s, k, #[trigger] q[l]))
    &&& (forall |j: int|
        0 <= j < s.len() && kt_matches((#[trigger] s[j]).0.req, k) ==> q.contains(s[j].0.id))
}

/// The pending list lost exactly its entry `i`, which held `picked`:
/// a mail filed under one of the union keys and older than every
/// pending mail so filed.
spec fn union_popped_at<T, H>(
    olds: Seq<(Mail<T>, H)>,
    news: Seq<(Mail<T>, H)>,
    keys: Seq<KT>,
    picked: (Mail<T>, H),
    i: int,
) -> bool {
    &&& 0 <= i < olds.len()
    &&& picked == olds[i]
    &&& in_union(olds[i].0.req, keys)
    &&& (forall |j: int|
        0 <= j < olds.len() && in_union((#[trigger] olds[j]).0.req, keys) ==> olds[i].0.id
            <= olds[j].0.id)
    &&& news == olds.remove(i)
}

/// Some position witnesses a union pop of `picked`.
spec fn union_popped<T, H>(
    olds: Seq<(Mail<T>, H)>,
    news: Seq<(Mail<T>, H)>,
    keys: Seq<KT>,
    picked: (Mail<T>, H),
) -> bool {
    exists |i: int| union_popped_at(olds, news, keys, picked, i)
}

/// As [`union_popped_at`], with the third key's constraint joined in.
spec fn isect_popped_at<T, H>(
    olds: Seq<(Mail<T>, H)>,
    news: Seq<(Mail<T>, H)>,
    keys: Seq<KT>,
    picked: (Mail<T>, H),
    i: int,
) -> bool {
    &&& 0 <= i < olds.len()
    &&& picked == olds[i]
    &&& in_isect(olds[i].0.req, keys)
    &&& (forall |j: int|
        0 <= j < olds.len() && in_isect((#[trigger] olds[j]).0.req, keys) ==> olds[i].0.id
            <= olds[j].0.id)
    &&& news == olds.remove(i)
}

/// Some position witnesses a union-then-intersect pop of `picked`.
spec fn isect_popped<T, H>(
    olds: Seq<(Mail<T>, H)>,
    news: Seq<(Mail<T>, H)>,
    keys: Seq<KT>,
    picked: (Mail<T>, H),
) -> bool {
    exists |i: int| isect_popped_at(olds, news, keys, picked, i)
}

/// The mail popped for a three-key lookup — the pending mail whose id
/// the walk found — satisfies all three keys and is older than every
/// pending mail that does.
proof fn lemma_isect_pick<T, H>(
    olds: Seq<(Mail<T>, H)>,
    keys: Seq<KT>,
    v1: Seq<usize>,
    v2: Seq<usize>,
    v3: Seq<usize>,
    id: usize,
    i: int,
)
    requires
        ids_increasing(olds),
        keys.len() == 3,
        is_queue_of(olds, keys[0], v1),
        is_queue_of(olds, keys[1], v2),
        is_queue_of(olds, keys[2], v3),
        v3.contains(id),
        v1.contains(id) || v2.contains(id),
        forall |y: usize|
            v3.contains(y) && (v1.contains(y) || v2.contains(y)) ==> id <= y,
        0 <= i < olds.len(),
        olds[i].0.id == id,
    ensures
        in_isect(olds[i].0.req, keys),
        forall |j: int|
            0 <= j < olds.len() && in_isect((#[trigger] olds[j]).0.req, keys) ==> olds[i].0.id
                <= olds[j].0.id,
{
    let l3 = choose |l: int| 0 <= l < v3.len() && v3[l] == id;
    assert(queued_id_of(olds, keys[2], id));
    let j3 = choose |j: int|
        0 <= j < olds.len() && (#[trigger] olds[j]).0.id == id && kt_matches(
            olds[j].0.req,
            keys[2],
        );
    lemma_ids_unique(olds, i, j3);
    if v1.contains(id) {
        let l1 = choose |l: int| 0 <= l < v1.len() && v1[l] == id;
        assert(queued_id_of(olds, keys[0], id));
        let j1 = choose |j: int|
            0 <= j < olds.len() && (#[trigger] olds[j]).0.id == id && kt_matches(
                olds[j].0.req,
                keys[0],
            );
        lemma_ids_unique(olds, i, j1);
    } else {
        let l2 = choose |l: int| 0 <= l < v2.len() && v2[l] == id;
        assert(queued_id_of(olds, keys[1], id));
        let j2 = choose |j: int|
            0 <= j < olds.len() && (#[trigger] olds[j]).0.id == id && kt_matches(
                olds[j].0.req,
                keys[1],
            );
        lemma_ids_unique(olds, i, j2);
    }
    assert(in_isect(olds[i].0.req, keys));
    assert forall |j: int|
        0 <= j < olds.len() && in_isect(
            (#[trigger] olds[j]).0.req,
            keys,
        ) implies olds[i].0.id <= olds[j].0.id by {
        assert(v3.contains(olds[j].0.id));
        if kt_matches(olds[j].0.req, keys[0]) {
            assert(v1.contains(olds[j].0.id));
        } else {
            assert(v2.contains(olds[j].0.id));
        }
    }
}

/// Walk the third queue front to back and find its first entry that
/// also stands in either of the first two queues: the smallest entry
/// of the intersection, all three queues being sorted.
fn walk_isect(v1: &Vec<usize>, v2: &Vec<usize>, v3: &Vec<usize>) -> (r: Option<usize>)
    requires
        sorted_ids(v1@),
        sorted_ids(v2@),
        sorted_ids(v3@),
    ensures
        match r {
            Some(x) => {
                &&& v3@.contains(x)
                &&& (v1@.contains(x) || v2@.contains(x))
                &&& forall |y: usize|
                    v3@.contains(y) && (v1@.contains(y) || v2@.contains(y)) ==> x <= y
            },
            None => forall |y: usize|
                v3@.contains(y) ==> !(v1@.contains(y) || v2@.contains(y)),
        },
{
    let mut i: usize = 0;
    let mut j: usize = 0;
    let mut k: usize = 0;
    let mut found: Option<usize> = None;
    let mut done: bool = false;
    while !done && k < v3.len()
        invariant
            sorted_ids(v1@),
            sorted_ids(v2@),
            sorted_ids(v3@),
            i <= v1@.len(),
            j <= v2@.len(),
            k <= v3@.len(),
            forall |t: int|
                0 <= t < k ==> !(v1@.contains(#[trigger] v3@[t]) || v2@.contains(v3@[t])),
            !done && k < v3@.len() ==> forall |t: int| 0 <= t < i ==> v1@[t] < v3@[k as int],
            !done && k < v3@.len() ==> forall |t: int| 0 <= t < j ==> v2@[t] < v3@[k as int],
            !done ==> found is None,
            done ==> (match found {
                Some(x) => {
                    &&& v3@.contains(x)
                    &&& (v1@.contains(x) || v2@.contains(x))
                    &&& forall |y: usize|
                        v3@.contains(y) && (v1@.contains(y) || v2@.contains(y)) ==> x <= y
                },
                None => forall |y: usize|
                    v3@.contains(y) ==> !(v1@.contains(y) || v2@.contains(y)),
            }),
        decreases v3@.len() - k, (if done { 0int } else { 1 }),
    {
        let target = v3[k];
        while i < v1.len() && v1[i] < target
            invariant
                i <= v1@.len(),
                forall |t: int| 0 <= t < i ==> v1@[t] < target,
            decreases v1@.len() - i,
        {
            i += 1;
        }
        while j < v2.len() && v2[j] < target
            invariant
                j <= v2@.len(),
                forall |t: int| 0 <= t < j ==> v2@[t] < target,
            decreases v2@.len() - j,
        {
            j += 1;
        }
        let hit1 = i < v1.len() && v1[i] == target;
        let hit2 = j < v2.len() && v2[j] == target;
        if hit1 || hit2 {
            found = Some(target);
            done = true;
            proof {
                assert(v3@[k as int] == target);
                assert(v3@.contains(target));
                if hit1 {
                    assert(v1@.contains(target));
                } else {
                    assert(v2@.contains(target));
                }
                assert forall |y: usize|
                    v3@.contains(y) && (v1@.contains(y) || v2@.contains(y)) implies target
                    <= y by {
                    let t = choose |t: int| 0 <= t < v3@.len() && v3@[t] == y;
                    if t < k {
                        assert(!(v1@.contains(v3@[t]) || v2@.contains(v3@[t])));
                    } else if t > k {
                        assert(v3@[k as int] < v3@[t]);
                    }
                }
            }
        } else if i >= v1.len() && j >= v2.len() {
            done = true;
            proof {
                assert forall |y: usize| v3@.contains(y) implies !(v1@.contains(y)
                    || v2@.contains(y)) by {
                    let t = choose |t: int| 0 <= t < v3@.len() && v3@[t] == y;
                    if t >= k {
                        assert(v3@[k as int] <= v3@[t]);
                        assert forall |u: int| 0 <= u < v1@.len() implies v1@[u] != y by {
                            assert(v1@[u] < target);
                        }
                        assert forall |u: int| 0 <= u < v2@.len() implies v2@[u] != y by {
                            assert(v2@[u] < target);
                        }
                    } else {
                        assert(!(v1@.contains(v3@[t]) || v2@.contains(v3@[t])));
                    }
                }
            }
        } else {
            proof {
                assert forall |u: int| 0 <= u < v1@.len() implies v1@[u] != target by {
                    if u < i {
                        assert(v1@[u] < target);
                    } else {
                        assert(i < v1@.len() ==> v1@[i as int] > target);
                        if u > i {
                            assert(v1@[i as int] < v1@[u]);
                        }
                    }
                }
                assert forall |u: int| 0 <= u < v2@.len() implies v2@[u] != target by {
                    if u < j {
                        assert(v2@[u] < target);
                    } else {
                        assert(j < v2@.len() ==> v2@[j as int] > target);
                        if u > j {
                            assert(v2@[j as int] < v2@[u]);
                        }
                    }
                }
                assert(!(v1@.contains(v3@[k as int]) || v2@.contains(v3@[k as int])));
                assert forall |t: int|
                    0 <= t < k + 1 implies !(v1@.contains(#[trigger] v3@[t]) || v2@.contains(
                    v3@[t],
                )) by {
                }
                if k + 1 < v3@.len() {
                    assert(v3@[k as int] < v3@[k as int + 1]);
                }
            }
            k += 1;
        }
    }
    found
}

/// The mail popped for a two-key lookup — the pending mail holding the
/// smaller of the two front ids — is filed under one of the keys and
/// older than every pending mail so filed.
proof fn lemma_union_pick<T, H>(
    olds: Seq<(Mail<T>, H)>,
    keys: Seq<KT>,
    id: usize,
    i: int,
    f0: Option<usize>,
    f1: Option<usize>,
)
    requires
        ids_increasing(olds),
        keys.len() == 2,
        is_front_of(olds, keys[0], f0),
        is_front_of(olds, keys[1], f1),
        f0 == Some(id) || f1 == Some(id),
        f0 is Some ==> id <= f0->0,
        f1 is Some ==> id <= f1->0,
        0 <= i < olds.len(),
        olds[i].0.id == id,
    ensures
        in_union(olds[i].0.req, keys),
        forall |j: int|
            0 <= j < olds.len() && in_union((#[trigger] olds[j]).0.req, keys) ==> olds[i].0.id
                <= olds[j].0.id,
{
    let jw = if f0 == Some(id) {
        choose |j: int|
            0 <= j < olds.len() && (#[trigger] olds[j]).0.id == id && kt_matches(
                olds[j].0.req,
                keys[0],
            )
    } else {
        choose |j: int|
            0 <= j < olds.len() && (#[trigger] olds[j]).0.id == id && kt_matches(
                olds[j].0.req,
                keys[1],
            )
    };
    lemma_ids_unique(olds, i, jw);
    assert(in_union(olds[i].0.req, keys));
    assert forall |j: int|
        0 <= j < olds.len() && in_union(
            (#[trigger] olds[j]).0.req,
            keys,
        ) implies olds[i].0.id <= olds[j].0.id by {
        if kt_matches(olds[j].0.req, keys[0]) {
            assert(f0 is Some && f0->0 <= olds[j].0.id);
        } else {
            assert(f1 is Some && f1->0 <= olds[j].0.id);
        }
    }
}

impl<T, H> Mailbox<T, H> {
    /// The id of the oldest pending mail filed under `k`, if any.
    fn front_of(&self, k: &KT) -> (r: Option<usize>)
        requires
            self.wf(),
        ensures
            is_front_of(self@, *k, r),
    {
        proof {
            reveal(Mailbox::wf);
        }
        match k {
            KT::H1(key) => index_front::<T, H>(&self.h1, key, Ghost(self.store@), Ghost(true)),
            KT::H2(key) => index_front::<T, H>(&self.h2, key, Ghost(self.store@), Ghost(false)),
        }
    }

    /// Pop the oldest pending mail filed under either of the two union
    /// keys, handing back the mail and its reply handle; nothing if
    /// neither key has a pending mail.
    fn fast_first_union(&mut self, keys: Vec<KT>) -> (r: Option<(Mail<T>, H)>)
        requires
            old(self).wf(),
            keys@.len() == 2,
        ensures
            final(self).wf(),
            final(self).next_id() == old(self).next_id(),
            match r {
                Some(picked) => union_popped(old(self)@, final(self)@, keys@, picked),
                None => {
                    &&& final(self)@ == old(self)@
                    &&& forall |j: int|
                        0 <= j < old(self)@.len() ==> !in_union(
                            (#[trigger] old(self)@[j]).0.req,
                            keys@,
                        )
                },
            },
    {
        let f0 = self.front_of(&keys[0]);
        let f1 = self.front_of(&keys[1]);
        let chosen: Option<usize> = match (f0, f1) {
            (None, None) => None,
            (Some(a), None) => Some(a),
            (None, Some(b)) => Some(b),
            (Some(a), Some(b)) => if a < b {
                Some(a)
            } else {
                Some(b)
            },
        };
        if let Some(id) = chosen {
            proof {
                self.lemma_wf_model();
            }
            let pair = self.remove_stored(id);
            proof {
                let olds = old(self)@;
                let i = choose |i: int|
                    {
                        &&& 0 <= i < olds.len()
                        &&& (#[trigger] olds[i]).0.id == id
                        &&& pair == olds[i]
                        &&& self@ == olds.remove(i)
                    };
                lemma_union_pick(olds, keys@, id, i, f0, f1);
                assert(union_popped_at(olds, self@, keys@, pair, i));
            }
            Some(pair)
        } else {
            None
        }
    }

    /// Read off a copy of the queue for `k`: the ids of the pending
    /// mails filed under it, oldest first.
    fn queue_ids(&self, k: &KT) -> (r: Vec<usize>)
        requires
            self.wf(),
        ensures
            is_queue_of(self@, *k, r@),
    {
        proof {
            reveal(Mailbox::wf);
        }
        let (v, key, ghost_src): (&Vec<Bucket>, &MailboxKey, Ghost<bool>) = match k {
            KT::H1(key) => (&self.h1, key, Ghost(true)),
            KT::H2(key) => (&self.h2, key, Ghost(false)),
        };
        let b = find_bucket(v, key);
        let mut out: Vec<usize> = Vec::new();
        if let Some(p) = b {
            let mut l: usize = 0;
            while l < v[p].q.len()
                invariant
                    p < v@.len(),
                    l <= v@[p as int].q@.len(),
                    out@.len() == l,
                    forall |m: int| 0 <= m < l ==> out@[m] == v@[p as int].q@[m],
                decreases v@[p as int].q@.len() - l,
            {
                out.push(v[p].q[l]);
                l += 1;
            }
            proof {
                assert(out@ =~= v@[p as int].q@);
                assert forall |l: int|
                    0 <= l < out@.len() implies queued_id_of(
                    self@,
                    *k,
                    #[trigger] out@[l],
                ) by {
                    assert(id_resolves(
                        self@,
                        v@[p as int].q@[l],
                        v@[p as int].key,
                        ghost_src@,
                    ));
                }
                assert forall |j: int|
                    0 <= j < self@.len() && kt_matches(
                        (#[trigger] self@[j]).0.req,
                        *k,
                    ) implies out@.contains(self@[j].0.id) by {
                    assert(mail_indexed(v@, self@[j].0, ghost_src@));
                    let a = choose |a: int|
                        0 <= a < v@.len() && v@[a].key == side_key(self@[j].0.req, ghost_src@)
                            && v@[a].q@.contains(self@[j].0.id);
                    if a != p {
                        assert(v@[a].key != v@[p as int].key);
                    }
                }
            }
        } else {
            proof {
                assert forall |j: int|
                    0 <= j < self@.len() && kt_matches(
                        (#[trigger] self@[j]).0.req,
                        *k,
                    ) implies out@.contains(self@[j].0.id) by {
                    assert(mail_indexed(v@, self@[j].0, ghost_src@));
                    assert(false);
                }
            }
        }
        out
    }

    /// Pop the oldest pending mail filed under the third key and under
    /// either of the first two, handing back the mail and its reply
    /// handle; nothing if no pending mail satisfies all three.
    fn fast_first_union_intersect(&mut self, keys: Vec<KT>) -> (r: Option<(Mail<T>, H)>)
        requires
            old(self).wf(),
            keys@.len() == 3,
        ensures
            final(self).wf(),
            final(self).next_id() == old(self).next_id(),
            match r {
                Some(picked) => isect_popped(old(self)@, final(self)@, keys@, picked),
                None => {
                    &&& final(self)@ == old(self)@
                    &&& forall |j: int|
                        0 <= j < old(self)@.len() ==> !in_isect(
                            (#[trigger] old(self)@[j]).0.req,
                            keys@,
                        )
                },
            },
    {
        let v1 = self.queue_ids(&keys[0]);
        let v2 = self.queue_ids(&keys[1]);
        let v3 = self.queue_ids(&keys[2]);
        let chosen = walk_isect(&v1, &v2, &v3);
        if let Some(id) = chosen {
            proof {
                self.lemma_wf_model();
                assert(queued_id_of(self@, keys@[2], id));
            }
            let pair = self.remove_stored(id);
            proof {
                let olds = old(self)@;
                let i = choose |i: int|
                    {
                        &&& 0 <= i < olds.len()
                        &&& (#[trigger] olds[i]).0.id == id
                        &&& pair == olds[i]
                        &&& self@ == olds.remove(i)
                    };
                lemma_isect_pick(olds, keys@, v1@, v2@, v3@, id, i);
                assert(isect_popped_at(olds, self@, keys@, pair, i));
            }
            Some(pair)
        } else {
            proof {
                assert forall |j: int| 0 <= j < old(self)@.len() implies !in_isect(
                    (#[trigger] old(self)@[j]).0.req,
                    keys@,
                ) by {
                    if in_isect(old(self)@[j].0.req, keys@) {
                        assert(v3@.contains(old(self)@[j].0.id));
                        if kt_matches(old(self)@[j].0.req, keys@[0]) {
                            assert(v1@.contains(old(self)@[j].0.id));
                        } else {
                            assert(v2@.contains(old(self)@[j].0.id));
                        }
                        assert(false);
                    }
                }
            }
            None
        }
    }

    /// The keys in the opposite index that `req`'s counterpart must
    /// have been filed under: two union keys — the resolved endpoint
    /// and the wildcard — plus, when `req` pins the other endpoint, a
    /// third key there. Two keys ask for a union lookup, three for a
    /// union-then-intersect lookup; no other count arises.
    fn mirror_keys(req: &CommRequest<T>) -> (keys: Vec<KT>)
        requires
            valid_message(*req),
        ensures
            keys@.len() == (if needs_isect(*req) {
                3int
            } else {
                2
            }),
            keys@[0] == union_kt_a(*req),
            keys@[1] == union_kt_b(*req),
            needs_isect(*req) ==> keys@[2] == isect_kt(*req),
    {
        let mut keys: Vec<KT> = Vec::new();
        if req.is_send() {
            keys.push(KT::H1(MailboxKey::new(MessageTy::MRecv, req.src().unwrap(), req.tag())));
            keys.push(KT::H1(MailboxKey::new(MessageTy::MRecv, RequestProc::Any, req.tag())));
            if !req.is_dst_any() {
                keys.push(
                    KT::H2(MailboxKey::new(MessageTy::MRecv, req.dst().unwrap(), req.tag())),
                );
            }
        } else {
            keys.push(KT::H2(MailboxKey::new(MessageTy::MSend, req.dst().unwrap(), req.tag())));
            keys.push(KT::H2(MailboxKey::new(MessageTy::MSend, RequestProc::Any, req.tag())));
            if !req.is_src_any() {
                keys.push(
                    KT::H1(MailboxKey::new(MessageTy::MSend, req.src().unwrap(), req.tag())),
                );
            }
        }
        keys
    }
}

/// For a request pinning no third key, a union pop is exactly a pop of
/// the oldest matching pending mail, and an empty union result means no
/// pending mail matches.
proof fn lemma_union_pop_match<T, H>(
    olds: Seq<(Mail<T>, H)>,
    news: Seq<(Mail<T>, H)>,
    req: CommRequest<T>,
    keys: Seq<KT>,
    r: Option<(Mail<T>, H)>,
)
    requires
        ids_increasing(olds),
        forall |j: int| 0 <= j < olds.len() ==> valid_message((#[trigger] olds[j]).0.req),
        valid_message(req),
        !needs_isect(req),
        keys.len() == 2,
        keys[0] == union_kt_a(req),
        keys[1] == union_kt_b(req),
        match r {
            Some(picked) => union_popped(olds, news, keys, picked),
            None => news == olds && (forall |j: int|
                0 <= j < olds.len() ==> !in_union((#[trigger] olds[j]).0.req, keys)),
        },
    ensures
        match r {
            Some(picked) => popped_match(olds, news, req, picked),
            None => news == olds && !has_match(olds, req),
        },
{
    match r {
        Some(picked) => {
            let i = choose |i: int| union_popped_at(olds, news, keys, picked, i);
            assert(union_popped_at(olds, news, keys, picked, i));
            lemma_keys_characterize(req, olds[i].0.req);
            assert(req_matches(req, olds[i].0.req));
            assert forall |j: int| matches_at(olds, req, j) implies i <= j by {
                lemma_keys_characterize(req, olds[j].0.req);
                assert(in_union(olds[j].0.req, keys));
                assert(olds[i].0.id <= olds[j].0.id);
                if j < i {
                    assert(olds[j].0.id < olds[i].0.id);
                }
            }
            assert(popped_match_at(olds, news, req, picked, i));
        }
        None => {
            assert forall |j: int| !matches_at(olds, req, j) by {
                if 0 <= j < olds.len() {
                    lemma_keys_characterize(req, olds[j].0.req);
                }
            }
        }
    }
}

/// For a request pinning a third key, a union-then-intersect pop is
/// exactly a pop of the oldest matching pending mail, and an empty
/// result means no pending mail matches.
proof fn lemma_isect_pop_match<T, H>(
    olds: Seq<(Mail<T>, H)>,
    news: Seq<(Mail<T>, H)>,
    req: CommRequest<T>,
    keys: Seq<KT>,
    r: Option<(Mail<T>, H)>,
)
    requires
        ids_increasing(olds),
        forall |j: int| 0 <= j < olds.len() ==> valid_message((#[trigger] olds[j]).0.req),
        valid_message(req),
        needs_isect(req),
        keys.len() == 3,
        keys[0] == union_kt_a(req),
        keys[1] == union_kt_b(req),
        keys[2] == isect_kt(req),
        match r {
            Some(picked) => isect_popped(olds, news, keys, picked),
            None => news == olds && (forall |j: int|
                0 <= j < olds.len() ==> !in_isect((#[trigger] olds[j]).0.req, keys)),
        },
    ensures
        match r {
            Some(picked) => popped_match(olds, news, req, picked),
            None => news == olds && !has_match(olds, req),
        },
{
    match r {
        Some(picked) => {
            let i = choose |i: int| isect_popped_at(olds, news, keys, picked, i);
            assert(isect_popped_at(olds, news, keys, picked, i));
            lemma_keys_characterize(req, olds[i].0.req);
            assert(req_matches(req, olds[i].0.req));
            assert forall |j: int| matches_at(olds, req, j) implies i <= j by {
                lemma_keys_characterize(req, olds[j].0.req);
                assert(in_isect(olds[j].0.req, keys));
                assert(olds[i].0.id <= olds[j].0.id);
                if j < i {
                    assert(olds[j].0.id < olds[i].0.id);
                }
            }
            assert(popped_match_at(olds, news, req, picked, i));
        }
        None => {
            assert forall |j: int| !matches_at(olds, req, j) by {
                if 0 <= j < olds.len() {
                    lemma_keys_characterize(req, olds[j].0.req);
                }
            }
        }
    }
}

/// Find the position of `id` in one queue.
fn find_pos(q: &Vec<usize>, id: usize) -> (r: Option<usize>)
    ensures
        match r {
            Some(l) => l < q@.len() && q@[l as int] == id,
            None => !q@.contains(id),
        },
{
    let mut l: usize = 0;
    while l < q.len()
        invariant
            l <= q@.len(),
            forall |m: int| 0 <= m < l ==> q@[m] != id,
        decreases q@.len() - l,
    {
        if q[l] == id {
            return Some(l);
        }
        l += 1;
    }
    proof {
        assert(!q@.contains(id));
    }
    None
}

/// Find the position of the pending mail with sequence id `id`.
fn find_store_pos<T, H>(store: &Vec<(Mail<T>, H)>, id: usize) -> (r: Option<usize>)
    ensures
        match r {
            Some(j) => j < store@.len() && store@[j as int].0.id == id,
            None => forall |j: int| 0 <= j < store@.len() ==> (#[trigger] store@[j]).0.id != id,
        },
{
    let mut j: usize = 0;
    while j < store.len()
        invariant
            j <= store@.len(),
            forall |m: int| 0 <= m < j ==> (#[trigger] store@[m]).0.id != id,
        decreases store@.len() - j,
    {
        if store[j].0.id == id {
            return Some(j);
        }
        j += 1;
    }
    None
}

/// Find the bucket that carries `key`, if the index has one.
fn find_bucket(v: &Vec<Bucket>, key: &MailboxKey) -> (r: Option<usize>)
    ensures
        match r {
            Some(p) => p < v@.len() && v@[p as int].key == *key,
            None => forall |p: int| 0 <= p < v@.len() ==> (#[trigger] v@[p]).key != *key,
        },
{
    let mut p: usize = 0;
    while p < v.len()
        invariant
            p <= v@.len(),
            forall |q: int| 0 <= q < p ==> (#[trigger] v@[q]).key != *key,
        decreases v@.len() - p,
    {
        if v[p].key == *key {
            return Some(p);
        }
        p += 1;
    }
    None
}

} // verus!
