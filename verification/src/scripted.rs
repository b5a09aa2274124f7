//! A scripted serial device: the crate's own realization of `SpiDevice`.
//!
//! It plays the card's side of the link from a fixed script of response
//! bytes, records every byte the driver puts on the wire, and can be told to
//! fail once a given number of bytes has been driven.  It backs the crate's
//! tests and serves as a template for hardware realizations.

use vstd::prelude::*;

use crate::transport::SpiDevice;

verus! {

/// The one transport-level error: the underlying link exchange failed.
#[derive(Clone, Copy, Debug, PartialEq, Eq, Structural)]
pub struct LinkFault;

/// The first `n` bytes a card with script `s` drives back: the head of the
/// script, then idle bytes once the script runs out.
pub open spec fn card_bytes(s: Seq<u8>, n: nat) -> Seq<u8> {
    Seq::new(n, |i: int| if i < s.len() { s[i] } else { 0xFFu8 })
}

/// What remains of script `s` after `n` bytes have been drawn from it.
pub open spec fn script_rest(s: Seq<u8>, n: nat) -> Seq<u8> {
    if n >= s.len() {
        Seq::empty()
    } else {
        s.skip(n as int)
    }
}

/// A serial device driven by a script instead of hardware.
pub struct ScriptedSpi {
    /// Bytes the simulated card has yet to drive back, oldest first; once
    /// they run out the card drives the idle level.
    queue: Vec<u8>,
    /// Every byte driven onto the wire so far.
    log: Vec<u8>,
    /// Every byte handed back so far.
    fed: Vec<u8>,
    /// Total outbound bytes the link will carry before it faults, if a
    /// fault is scripted.
    budget: Option<usize>,
}

impl ScriptedSpi {
    /// Bytes the simulated card has yet to drive back.
    pub closed spec fn script(&self) -> Seq<u8> {
        self.queue@
    }

    /// Total outbound bytes the link will carry before it faults, if a
    /// fault is scripted.
    pub closed spec fn fault_budget(&self) -> Option<usize> {
        self.budget
    }

    /// True if an exchange driving `n` more bytes stays within the link's
    /// budget.
    pub open spec fn spec_room_for(&self, n: nat) -> bool {
        match self.fault_budget() {
            Option::None => true,
            Option::Some(limit) => self.written().len() + n <= limit,
        }
    }

    /// A device that answers with `responses`, oldest first, then idle
    /// bytes; the link never fails.
    pub fn new(responses: Vec<u8>) -> (r: Self)
        ensures
            r.written() == Seq::<u8>::empty(),
            r.received() == Seq::<u8>::empty(),
            r.script() == responses@,
            r.fault_budget() is None,
    {
        ScriptedSpi { queue: responses, log: Vec::new(), fed: Vec::new(), budget: None }
    }

    /// As `new`, but the link faults on any exchange that would drive the
    /// total number of outbound bytes beyond `budget`.
    pub fn failing_after(responses: Vec<u8>, budget: usize) -> (r: Self)
        ensures
            r.written() == Seq::<u8>::empty(),
            r.received() == Seq::<u8>::empty(),
            r.script() == responses@,
            r.fault_budget() == Some(budget),
    {
        ScriptedSpi { queue: responses, log: Vec::new(), fed: Vec::new(), budget: Some(budget) }
    }

    /// Every byte driven onto the wire so far.
    pub fn log(&self) -> (r: &Vec<u8>)
        ensures
            r@ == self.written(),
    {
        &self.log
    }

    /// Every byte handed back to the driver so far.
    pub fn handed(&self) -> (r: &Vec<u8>)
        ensures
            r@ == self.received(),
    {
        &self.fed
    }

    /// True if the next exchange of `n` bytes is within the link's budget.
    fn room_for(&self, n: usize) -> (r: bool)
        ensures
            r == self.spec_room_for(n as nat),
    {
        match self.budget {
            Option::None => true,
            Option::Some(limit) => self.log.len() <= limit && n <= limit - self.log.len(),
        }
    }

    /// The next byte the simulated card drives back.
    fn next_card_byte(&mut self) -> (b: u8)
        ensures
            final(self).log@ == old(self).log@,
            final(self).fed@ == old(self).fed@,
            final(self).budget == old(self).budget,
            b == if old(self).queue@.len() == 0 { 0xFFu8 } else { old(self).queue@[0] },
            final(self).queue@ == script_rest(old(self).queue@, 1),
    {
        if self.queue.len() > 0 {
            let b = self.queue.remove(0);
            proof {
                assert(self.queue@ =~= script_rest(old(self).queue@, 1));
            }
            b
        } else {
            proof {
                assert(self.queue@ =~= script_rest(old(self).queue@, 1));
            }
            0xFF
        }
    }
}

impl SpiDevice for ScriptedSpi {
    type Error = LinkFault;

    closed spec fn written(&self) -> Seq<u8> {
        self.log@
    }

    closed spec fn received(&self) -> Seq<u8> {
        self.fed@
    }

    #[verifier::loop_isolation(false)]
    fn transfer(&mut self, read: &mut Vec<u8>, data: &[u8]) -> (r: Result<(), Self::Error>)
        ensures
            r is Ok <==> old(self).spec_room_for(data@.len()),
            r is Ok ==> final(read)@ == card_bytes(old(self).script(), data@.len()),
            r is Ok ==> final(self).script() == script_rest(old(self).script(), data@.len()),
            final(self).fault_budget() == old(self).fault_budget(),
            r is Err ==> final(self).script() == old(self).script(),
    {
        let n = data.len();
        if !self.room_for(n) {
            return Err(LinkFault);
        }
        let ghost pre_log = self.log@;
        let ghost pre_fed = self.fed@;
        let ghost script0 = self.queue@;
        let mut incoming: Vec<u8> = Vec::new();
        let mut i: usize = 0;
        while i < n
            invariant
                i <= n,
                incoming@ == card_bytes(script0, i as nat),
                self.queue@ == script_rest(script0, i as nat),
                self.budget == old(self).budget,
                self.log@ == pre_log + data@.take(i as int),
                self.fed@ == pre_fed + incoming@,
            decreases n - i,
        {
            let out = *vstd::slice::slice_index_get(data, i);
            self.log.push(out);
            let b = self.next_card_byte();
            self.fed.push(b);
            incoming.push(b);
            proof {
                lemma_script_step(script0, i as nat);
                assert(incoming@ =~= card_bytes(script0, (i + 1) as nat));
                assert(self.log@ =~= pre_log + data@.take(i + 1));
            }
            i += 1;
        }
        proof {
            assert(data@.take(n as int) =~= data@);
        }
        *read = incoming;
        Ok(())
    }

    #[verifier::loop_isolation(false)]
    fn send(&mut self, data: &[u8]) -> (r: Result<(), Self::Error>)
        ensures
            r is Ok <==> old(self).spec_room_for(data@.len()),
            final(self).script() == old(self).script(),
            final(self).fault_budget() == old(self).fault_budget(),
    {
        let n = data.len();
        if !self.room_for(n) {
            return Err(LinkFault);
        }
        let ghost pre_log = self.log@;
        let ghost pre_fed = self.fed@;
        let mut i: usize = 0;
        while i < n
            invariant
                i <= n,
                self.log@ == pre_log + data@.take(i as int),
                self.fed@ == pre_fed,
                self.queue@ == old(self).queue@,
                self.budget == old(self).budget,
            decreases n - i,
        {
            let out = *vstd::slice::slice_index_get(data, i);
            self.log.push(out);
            proof {
                assert(self.log@ =~= pre_log + data@.take(i + 1));
            }
            i += 1;
        }
        proof {
            assert(data@.take(n as int) =~= data@);
        }
        Ok(())
    }

    #[verifier::loop_isolation(false)]
    fn transfer_in_place(&mut self, words: &mut Vec<u8>) -> (r: Result<(), Self::Error>)
        ensures
            r is Ok <==> old(self).spec_room_for(old(words)@.len()),
            r is Ok ==> final(words)@ == card_bytes(old(self).script(), old(words)@.len()),
            r is Ok ==> final(self).script() == script_rest(old(self).script(), old(words)@.len()),
            final(self).fault_budget() == old(self).fault_budget(),
            r is Err ==> final(self).script() == old(self).script(),
    {
        let n = words.len();
        if !self.room_for(n) {
            return Err(LinkFault);
        }
        let ghost pre_log = self.log@;
        let ghost pre_fed = self.fed@;
        let ghost script0 = self.queue@;
        let ghost outbound = words@;
        let mut incoming: Vec<u8> = Vec::new();
        let mut i: usize = 0;
        while i < n
            invariant
                i <= n,
                words@ == outbound,
                incoming@ == card_bytes(script0, i as nat),
                self.queue@ == script_rest(script0, i as nat),
                self.budget == old(self).budget,
                self.log@ == pre_log + outbound.take(i as int),
                self.fed@ == pre_fed + incoming@,
            decreases n - i,
        {
            let out = words[i];
            self.log.push(out);
            let b = self.next_card_byte();
            self.fed.push(b);
            incoming.push(b);
            proof {
                lemma_script_step(script0, i as nat);
                assert(incoming@ =~= card_bytes(script0, (i + 1) as nat));
                assert(self.log@ =~= pre_log + outbound.take(i + 1));
            }
            i += 1;
        }
        proof {
            assert(outbound.take(n as int) =~= outbound);
        }
        *words = incoming;
        Ok(())
    }
}

/// Drawing one more byte: what remains of the script after `n + 1` draws is
/// one draw from what remains after `n`, and the byte drawn is the script's
/// `n`-th byte while the script lasts, the idle level after.
proof fn lemma_script_step(s: Seq<u8>, n: nat)
    ensures
        script_rest(script_rest(s, n), 1) == script_rest(s, n + 1),
        script_rest(s, n).len() == 0 ==> n >= s.len(),
        script_rest(s, n).len() > 0 ==> n < s.len() && script_rest(s, n)[0] == s[n as int],
{
    if n >= s.len() {
        assert(script_rest(script_rest(s, n), 1) =~= script_rest(s, n + 1));
    } else {
        assert(script_rest(s, n) =~= s.skip(n as int));
        assert(script_rest(script_rest(s, n), 1) =~= script_rest(s, n + 1));
    }
}

} // verus!
