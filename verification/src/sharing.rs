//! The session-sharing core.
//!
//! One value of [`SharingCore`] owns everything the collaborating
//! readers share: the registry of connected clients, the ledger of
//! current pages, and the counter that hands out client ids.  The
//! transport task of a client calls [`SharingCore::connect`] once,
//! then [`SharingCore::handle_frame`] for every text frame it reads;
//! each call returns directives saying which client is to be sent
//! which text.  A failed send is reported back through
//! [`SharingCore::remove_client`], which is the lazy cleanup of a
//! gone client.  At shutdown, [`SharingCore::shutdown_notices`] names
//! every client to notify and [`SharingCore::ledger_json`] gives the
//! text to persist; [`SharingCore::restore`] reads that text back in
//! the next process.  The caller serializes all calls on one core, so
//! a page report and its broadcast form one atomic step.

use crate::codec;
use vstd::prelude::*;

verus! {

/// One directive to the transport: send `text` on the channel of the
/// client with id `target`.
pub struct Outgoing {
    pub target: u64,
    pub text: String,
}

/// The shared state of the server.
pub struct SharingCore {
    /// The id the next connecting client will receive; ids are never
    /// reused within a process.
    pub next_id: u64,
    /// The ids of the connected clients, in connect order, each at
    /// most once.
    pub connections: Vec<u64>,
    /// The ledger: one entry per comic that some client has reported
    /// a page for, keys distinct, holding the latest page.
    pub pages: Vec<(String, String)>,
}

/// The map a sequence of ledger entries stands for, a later entry
/// winning over an earlier one of the same key.
pub open spec fn pairs_to_map(ps: Seq<(Seq<char>, Seq<char>)>) -> Map<Seq<char>, Seq<char>>
    decreases ps.len(),
{
    if ps.len() == 0 {
        Map::empty()
    } else {
        pairs_to_map(ps.drop_last()).insert(ps.last().0, ps.last().1)
    }
}

/// Looking a key up among the entries agrees with the map they stand
/// for.
pub proof fn lemma_lookup_is_map(ps: Seq<(Seq<char>, Seq<char>)>, key: Seq<char>)
    ensures
        codec::spec_lookup(ps, key) matches Some(v) ==> pairs_to_map(ps).contains_key(key)
            && pairs_to_map(ps)[key] == v,
        codec::spec_lookup(ps, key) is None ==> !pairs_to_map(ps).contains_key(key),
    decreases ps.len(),
{
    if ps.len() > 0 && ps.last().0 != key {
        lemma_lookup_is_map(ps.drop_last(), key);
    }
}

impl SharingCore {
    /// The ids of the connected clients, in connect order.
    pub open spec fn clients(self) -> Seq<u64> {
        self.connections@
    }

    /// The ledger entries in their stored order.
    pub open spec fn entries(self) -> Seq<(Seq<char>, Seq<char>)> {
        codec::pairs_view(self.pages@)
    }

    /// The ledger as a map from comic to its current page.
    pub open spec fn ledger(self) -> Map<Seq<char>, Seq<char>> {
        pairs_to_map(self.entries())
    }

    /// Well-formedness: client ids are distinct and below the
    /// counter, and the ledger holds each comic at most once.
    pub open spec fn wf(self) -> bool {
        &&& forall|i: int, j: int|
            0 <= i < j < self.connections@.len() ==> self.connections@[i] != self.connections@[j]
        &&& forall|i: int|
            0 <= i < self.connections@.len() ==> (#[trigger] self.connections@[i]) < self.next_id
        &&& forall|i: int, j: int|
            0 <= i < j < self.pages@.len() ==> self.pages@[i].0@ != self.pages@[j].0@
    }

    /// A core with no clients, no pages, and ids starting at zero.
    pub fn new() -> (s: SharingCore)
        ensures
            s.wf(),
            s.clients() == Seq::<u64>::empty(),
            s.ledger() == Map::<Seq<char>, Seq<char>>::empty(),
            s.next_id == 0,
    {
        let s = SharingCore { next_id: 0, connections: Vec::new(), pages: Vec::new() };
        proof {
            assert(s.clients() =~= Seq::<u64>::empty());
            assert(s.entries() =~= Seq::<(Seq<char>, Seq<char>)>::empty());
            assert(s.ledger() =~= Map::<Seq<char>, Seq<char>>::empty());
        }
        s
    }

    /// Records `page` as the current page of `comic`, overwriting any
    /// earlier entry for the same comic.
    fn ledger_insert(&mut self, comic: String, page: String)
        requires
            old(self).wf(),
        ensures
            final(self).wf(),
            final(self).connections == old(self).connections,
            final(self).next_id == old(self).next_id,
            final(self).ledger() == old(self).ledger().insert(comic@, page@),
    {
        let ghost pre = self.entries();
        let n = self.pages.len();
        let mut k: usize = 0;
        loop
            invariant
                k <= n,
                n == self.pages@.len(),
                forall|i: int| 0 <= i < k ==> self.pages@[i].0@ != comic@,
            ensures
                k <= n,
                forall|i: int| 0 <= i < k ==> self.pages@[i].0@ != comic@,
                k == n || self.pages@[k as int].0@ == comic@,
            decreases n - k,
        {
            if k == n {
                break ;
            }
            if self.pages[k].0 == comic {
                break ;
            }
            k = k + 1;
        }
        if k == n {
            self.pages.push((comic, page));
            proof {
                assert(self.entries().drop_last() =~= pre);
                assert(self.ledger() =~= old(self).ledger().insert(
                    self.entries().last().0,
                    self.entries().last().1,
                ));
            }
        } else {
            self.pages.set(k, (comic, page));
            proof {
                let ghost kk = k as int;
                assert(self.entries() =~= pre.update(kk, (pre[kk].0, page@)));
                lemma_pairs_to_map_update(pre, kk, page@);
            }
        }
    }

    /// The current page of `comic`, if any client has reported one.
    pub fn get_page(&self, comic: &String) -> (r: Option<String>)
        ensures
            r is Some <==> self.ledger().contains_key(comic@),
            r matches Some(p) ==> p@ == self.ledger()[comic@],
    {
        let r = codec::lookup_value(&self.pages, comic);
        proof {
            lemma_lookup_is_map(self.entries(), comic@);
        }
        r
    }

    /// Registers a new client: it receives the next id, never handed
    /// out before, and joins the end of the registry.
    pub fn connect(&mut self) -> (id: u64)
        requires
            old(self).wf(),
            old(self).next_id < u64::MAX,
        ensures
            final(self).wf(),
            id == old(self).next_id,
            final(self).next_id == old(self).next_id + 1,
            final(self).clients() == old(self).clients().push(id),
            final(self).pages == old(self).pages,
    {
        let id = self.next_id;
        self.next_id = id + 1;
        self.connections.push(id);
        id
    }

    /// Removes one client, as on a clean disconnect or after a failed
    /// send.  The other clients keep their order; the ledger and the
    /// id counter stay untouched.
    pub fn remove_client(&mut self, id: u64)
        requires
            old(self).wf(),
        ensures
            final(self).wf(),
            final(self).clients() == old(self).clients().filter(|x: u64| x != id),
            final(self).next_id == old(self).next_id,
            final(self).pages == old(self).pages,
    {
        let ghost pre = self.connections@;
        let n = self.connections.len();
        let mut kept: Vec<u64> = Vec::new();
        let mut k: usize = 0;
        proof {
            assert(pre.take(0) =~= Seq::<u64>::empty());
            reveal(Seq::filter);
            assert(kept@ =~= pre.take(0).filter(|x: u64| x != id));
        }
        while k < n
            invariant
                k <= n,
                n == pre.len(),
                self.connections@ == pre,
                kept@ == pre.take(k as int).filter(|x: u64| x != id),
            decreases n - k,
        {
            let c = self.connections[k];
            if c != id {
                kept.push(c);
            }
            proof {
                assert(pre.take(k as int + 1) =~= pre.take(k as int).push(pre[k as int]));
                lemma_filter_push(pre.take(k as int), pre[k as int], |x: u64| x != id);
            }
            k = k + 1;
        }
        proof {
            assert(pre.take(n as int) =~= pre);
            lemma_filter_distinct(pre, |x: u64| x != id);
            lemma_filter_elems(pre, |x: u64| x != id);
            let f = pre.filter(|x: u64| x != id);
            assert forall|i: int| 0 <= i < f.len() implies f[i] < self.next_id by {
                assert(pre.contains(f[i]));
                let w = choose|w: int| 0 <= w < pre.len() && pre[w] == f[i];
                assert(pre[w] < self.next_id);
            }
        }
        self.connections = kept;
    }

    /// Carries out one inbound text frame from the client `sender`.
    /// A page report updates the ledger and addresses the new page to
    /// every other client, in registry order; a query addresses the
    /// ledger's answer for that comic to the sender alone; a frame
    /// outside the protocol does nothing.  The returned directives
    /// tell the transport which client to send which text.
    pub fn handle_frame(&mut self, sender: u64, text: &str) -> (out: Vec<Outgoing>)
        requires
            old(self).wf(),
        ensures
            final(self).wf(),
            final(self).clients() == old(self).clients(),
            final(self).next_id == old(self).next_id,
            match codec::spec_parse_inbound(text@) {
                None => final(self).ledger() == old(self).ledger() && out@.len() == 0,
                Some((comic, report)) => match report {
                    Some(page) => {
                        &&& final(self).ledger() == old(self).ledger().insert(comic, page)
                        &&& out@.map_values(|o: Outgoing| o.target) == old(self).clients().filter(
                            (|x: u64| x != sender),
                        )
                        &&& forall|i: int|
                            0 <= i < out@.len() ==> (#[trigger] out@[i]).text@
                                == codec::spec_page_message(comic, page)
                    },
                    None => {
                        &&& final(self).ledger() == old(self).ledger()
                        &&& out@.len() == 1
                        &&& out@[0].target == sender
                        &&& out@[0].text@ == (if old(self).ledger().contains_key(comic) {
                            codec::spec_page_message(comic, old(self).ledger()[comic])
                        } else {
                            codec::spec_comic_message(comic)
                        })
                    },
                },
            },
    {
        match codec::parse_inbound(text) {
            None => Vec::new(),
            Some((comic, Some(page))) => {
                let ghost pre = self.connections@;
                let n = self.connections.len();
                let mut out: Vec<Outgoing> = Vec::new();
                let mut k: usize = 0;
                proof {
                    reveal(Seq::filter);
                    assert(pre.take(0) =~= Seq::<u64>::empty());
                    assert(out@.map_values(|o: Outgoing| o.target) =~= pre.take(0).filter(
                        |x: u64| x != sender,
                    ));
                }
                while k < n
                    invariant
                        k <= n,
                        n == pre.len(),
                        self.connections@ == pre,
                        out@.map_values(|o: Outgoing| o.target) == pre.take(k as int).filter(
                            |x: u64| x != sender,
                        ),
                        forall|i: int|
                            0 <= i < out@.len() ==> (#[trigger] out@[i]).text@
                                == codec::spec_page_message(comic@, page@),
                    decreases n - k,
                {
                    let c = self.connections[k];
                    let ghost preout = out@;
                    if c != sender {
                        let msg = codec::encode_page_message(comic.as_str(), page.as_str());
                        out.push(Outgoing { target: c, text: msg });
                        proof {
                            assert(out@.map_values(|o: Outgoing| o.target) =~= preout.map_values(
                                |o: Outgoing| o.target,
                            ).push(c));
                        }
                    }
                    proof {
                        assert(pre.take(k as int + 1) =~= pre.take(k as int).push(pre[k as int]));
                        lemma_filter_push(pre.take(k as int), pre[k as int], |x: u64| x != sender);
                    }
                    k = k + 1;
                }
                proof {
                    assert(pre.take(n as int) =~= pre);
                }
                self.ledger_insert(comic, page);
                out
            },
            Some((comic, None)) => {
                proof {
                    lemma_lookup_is_map(self.entries(), comic@);
                }
                let reply = match codec::lookup_value(&self.pages, &comic) {
                    Some(p) => codec::encode_page_message(comic.as_str(), p.as_str()),
                    None => codec::encode_comic_message(comic.as_str()),
                };
                let mut out: Vec<Outgoing> = Vec::new();
                out.push(Outgoing { target: sender, text: reply });
                out
            },
        }
    }

    /// The shutdown notices: every connected client is told
    /// `{"disconnect":true}`, each exactly once, in registry order.
    pub fn shutdown_notices(&self) -> (out: Vec<Outgoing>)
        ensures
            out@.len() == self.clients().len(),
            forall|i: int|
                0 <= i < out@.len() ==> (#[trigger] out@[i]).target == self.clients()[i]
                    && out@[i].text@ == codec::spec_disconnect_message(),
    {
        let n = self.connections.len();
        let mut out: Vec<Outgoing> = Vec::new();
        let mut k: usize = 0;
        while k < n
            invariant
                k <= n,
                n == self.connections@.len(),
                out@.len() == k,
                forall|i: int|
                    0 <= i < k ==> (#[trigger] out@[i]).target == self.connections@[i]
                        && out@[i].text@ == codec::spec_disconnect_message(),
            decreases n - k,
        {
            let msg = codec::disconnect_message();
            let c = self.connections[k];
            out.push(Outgoing { target: c, text: msg });
            k = k + 1;
        }
        out
    }

    /// The ledger as the JSON object persisted at shutdown: one
    /// member per known comic, in the ledger's order.
    pub fn ledger_json(&self) -> (r: String)
        ensures
            r@ == codec::spec_object(self.entries()),
    {
        codec::encode_object(&self.pages)
    }

    /// A fresh core whose ledger holds what the persisted text says.
    /// A text that is no JSON object of string fields — a missing or
    /// damaged ledger file — yields an empty ledger instead.
    pub fn restore(saved: &str) -> (s: SharingCore)
        ensures
            s.wf(),
            s.clients() == Seq::<u64>::empty(),
            s.next_id == 0,
            s.ledger() == (match codec::spec_parse_object(saved@) {
                Some(ps) => pairs_to_map(ps),
                None => Map::<Seq<char>, Seq<char>>::empty(),
            }),
    {
        let mut s = SharingCore::new();
        match codec::parse_object(saved) {
            None => s,
            Some(v) => {
                let ghost ps = codec::pairs_view(v@);
                let n = v.len();
                let mut k: usize = 0;
                proof {
                    assert(ps.take(0) =~= Seq::<(Seq<char>, Seq<char>)>::empty());
                    assert(s.ledger() =~= pairs_to_map(ps.take(0)));
                }
                for k in 0..n
                    invariant
                        n == v@.len(),
                        ps == codec::pairs_view(v@),
                        s.wf(),
                        s.clients() == Seq::<u64>::empty(),
                        s.next_id == 0,
                        s.ledger() == pairs_to_map(ps.take(k as int)),
                {
                    let p = &v[k];
                    let comic = p.0.clone();
                    let page = p.1.clone();
                    s.ledger_insert(comic, page);
                    proof {
                        assert(ps.take(k as int + 1).drop_last() =~= ps.take(k as int));
                        assert(ps.take(k as int + 1).last() == ps[k as int]);
                        assert(s.ledger() =~= pairs_to_map(ps.take(k as int + 1)));
                    }
                }
                proof {
                    assert(ps.take(n as int) =~= ps);
                }
                s
            },
        }
    }
}

/// Restart inverts shutdown: the ledger text one core writes — what
/// [`SharingCore::ledger_json`] returns — parses back to exactly that
/// core's entries, so a core restored from it carries the same
/// ledger map.
pub proof fn lemma_restore_inverts_persist(core: SharingCore)
    ensures
        codec::spec_parse_object(codec::spec_object(core.entries())) == Some(core.entries()),
        match codec::spec_parse_object(codec::spec_object(core.entries())) {
            Some(ps) => pairs_to_map(ps) == core.ledger(),
            None => false,
        },
{
    codec::lemma_object_round_trip(core.entries());
}

proof fn lemma_pairs_to_map_update(ps: Seq<(Seq<char>, Seq<char>)>, i: int, v: Seq<char>)
    requires
        0 <= i < ps.len(),
        forall|a: int, b: int| 0 <= a < b < ps.len() ==> ps[a].0 != ps[b].0,
    ensures
        pairs_to_map(ps.update(i, (ps[i].0, v))) == pairs_to_map(ps).insert(ps[i].0, v),
    decreases ps.len(),
{
    let q = ps.update(i, (ps[i].0, v));
    if i == ps.len() - 1 {
        assert(q.drop_last() =~= ps.drop_last());
        assert(q.last() == (ps[i].0, v));
        assert(pairs_to_map(q) =~= pairs_to_map(ps).insert(ps[i].0, v));
    } else {
        lemma_pairs_to_map_update(ps.drop_last(), i, v);
        assert(q.drop_last() =~= ps.drop_last().update(i, (ps[i].0, v)));
        assert(q.last() == ps.last());
        assert(ps[i].0 != ps.last().0);
        assert(pairs_to_map(q) =~= pairs_to_map(ps).insert(ps[i].0, v));
    }
}

proof fn lemma_filter_push(s: Seq<u64>, x: u64, pred: spec_fn(u64) -> bool)
    ensures
        s.push(x).filter(pred) == (if pred(x) {
            s.filter(pred).push(x)
        } else {
            s.filter(pred)
        }),
{
    reveal(Seq::filter);
    assert(s.push(x).drop_last() =~= s);
    assert(s.push(x).last() == x);
    if pred(x) {
        assert(s.push(x).filter(pred) =~= s.filter(pred).push(x));
    } else {
        assert(s.push(x).filter(pred) =~= s.filter(pred));
    }
}

proof fn lemma_filter_elems(s: Seq<u64>, pred: spec_fn(u64) -> bool)
    ensures
        forall|i: int|
            0 <= i < s.filter(pred).len() ==> s.contains(#[trigger] s.filter(pred)[i]),
    decreases s.len(),
{
    reveal(Seq::filter);
    if s.len() > 0 {
        lemma_filter_elems(s.drop_last(), pred);
        let f = s.filter(pred);
        let fp = s.drop_last().filter(pred);
        assert forall|i: int| 0 <= i < f.len() implies s.contains(f[i]) by {
            if i < fp.len() {
                assert(fp[i] == f[i]);
                assert(s.drop_last().contains(fp[i]));
                let w = choose|w: int| 0 <= w < s.drop_last().len() && s.drop_last()[w] == fp[i];
                assert(s[w] == fp[i]);
            } else {
                assert(f[i] == s.last());
                assert(s[s.len() - 1] == s.last());
            }
        }
    }
}

proof fn lemma_filter_distinct(s: Seq<u64>, pred: spec_fn(u64) -> bool)
    requires
        forall|i: int, j: int| 0 <= i < j < s.len() ==> s[i] != s[j],
    ensures
        forall|i: int, j: int|
            0 <= i < j < s.filter(pred).len() ==> s.filter(pred)[i] != s.filter(pred)[j],
    decreases s.len(),
{
    reveal(Seq::filter);
    if s.len() > 0 {
        lemma_filter_distinct(s.drop_last(), pred);
        lemma_filter_elems(s.drop_last(), pred);
        let f = s.filter(pred);
        let fp = s.drop_last().filter(pred);
        assert forall|i: int, j: int| 0 <= i < j < f.len() implies f[i] != f[j] by {
            if j < fp.len() {
                assert(f[i] == fp[i] && f[j] == fp[j]);
            } else {
                // j names the appended last element; i lies in the prefix
                assert(f[j] == s.last());
                assert(f[i] == fp[i]);
                assert(s.drop_last().contains(fp[i]));
                let w = choose|w: int| 0 <= w < s.drop_last().len() && s.drop_last()[w] == fp[i];
                assert(s[w] == fp[i]);
                assert(s[w] != s[s.len() - 1]);
            }
        }
    }
}

} // verus!
