//! The email transport collaborator, modelled as a recording stub.
//!
//! The real transport sends one message per call and reports only success
//! or failure; it keeps no retry contract of its own. `TransportLog`
//! offers the same call shape, records every invocation, and answers with
//! a configurable outcome, so contracts and tests can state exactly when
//! the executor invokes the transport and with which content.

use crate::domain::{copy_bytes, SubscriberEmail};
use vstd::prelude::*;

verus! {

/// One transport invocation: the recipient and the message content.
pub struct SendRecord {
    pub recipient: Vec<u8>,
    pub subject: String,
    pub html_content: String,
    pub text_content: String,
}

/// One recorded invocation as the model sees it.
pub struct SendSnap {
    pub recipient: Seq<u8>,
    pub subject: Seq<char>,
    pub html_content: Seq<char>,
    pub text_content: Seq<char>,
}

impl View for SendRecord {
    type V = SendSnap;

    open spec fn view(&self) -> SendSnap {
        SendSnap {
            recipient: self.recipient@,
            subject: self.subject@,
            html_content: self.html_content@,
            text_content: self.text_content@,
        }
    }
}

/// The abstract state of the transport: every send so far, and the
/// outcome the next send will report.
pub struct TransportModel {
    pub sends: Seq<SendSnap>,
    pub deliver_ok: bool,
}

/// A transport that records each send and reports the configured outcome.
pub struct TransportLog {
    sends: Vec<SendRecord>,
    deliver_ok: bool,
}

impl View for TransportLog {
    type V = TransportModel;

    closed spec fn view(&self) -> TransportModel {
        TransportModel {
            sends: self.sends@.map_values(|r: SendRecord| r@),
            deliver_ok: self.deliver_ok,
        }
    }
}

impl TransportLog {
    /// A transport with no sends yet that reports success.
    pub fn new() -> (t: TransportLog)
        ensures
            t@.sends.len() == 0,
            t@.deliver_ok,
    {
        TransportLog { sends: Vec::new(), deliver_ok: true }
    }

    /// Configures the outcome subsequent sends will report; failure here
    /// models a transport error unrelated to the recipient address.
    pub fn set_outcome(&mut self, ok: bool)
        ensures
            final(self)@.sends == old(self)@.sends,
            final(self)@.deliver_ok == ok,
    {
        self.deliver_ok = ok;
    }

    /// Sends one message: exactly one invocation is recorded, with the
    /// recipient and content given, and the configured outcome is
    /// reported.
    pub fn send(
        &mut self,
        recipient: &SubscriberEmail,
        subject: &String,
        html_content: &String,
        text_content: &String,
    ) -> (ok: bool)
        ensures
            final(self)@.sends == old(self)@.sends.push(
                (SendSnap {
                    recipient: recipient@,
                    subject: subject@,
                    html_content: html_content@,
                    text_content: text_content@,
                }),
            ),
            final(self)@.deliver_ok == old(self)@.deliver_ok,
            ok == old(self)@.deliver_ok,
    {
        let ghost pre = self@.sends;
        let record = SendRecord {
            recipient: copy_bytes(recipient.as_bytes()),
            subject: subject.clone(),
            html_content: html_content.clone(),
            text_content: text_content.clone(),
        };
        self.sends.push(record);
        proof {
            assert(self@.sends =~= pre.push(self@.sends.last()));
        }
        self.deliver_ok
    }

    /// The `i`-th send made, in order of sending.
    pub fn get_send(&self, i: usize) -> (r: &SendRecord)
        requires
            i < self@.sends.len(),
        ensures
            r@ == self@.sends[i as int],
    {
        &self.sends[i]
    }

    /// How many sends have been made.
    pub fn sent_count(&self) -> (n: usize)
        ensures
            n == self@.sends.len(),
    {
        self.sends.len()
    }
}

} // verus!
