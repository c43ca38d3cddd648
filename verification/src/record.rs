//! Log records and the signature they are grouped by.
use vstd::prelude::*;

verus! {

/// One parsed log line. Every field is kept as the text it had in the log.
#[derive(Debug)]
pub struct Record {
    pub time_iso8601: String,
    pub remote_addr: String,
    pub remote_user: String,
    pub request: String,
    pub http_referer: String,
    pub http_user_agent: String,
    pub http_accept: String,
    pub http_x_forwarded_for: String,
    pub http_cookie: String,
    pub status: String,
    pub bytes_sent: String,
    pub body_bytes_sent: String,
    pub connection: String,
    pub connection_requests: String,
}

/// A record as a value of the model: each field is its sequence of characters.
pub struct RecordView {
    pub time_iso8601: Seq<char>,
    pub remote_addr: Seq<char>,
    pub remote_user: Seq<char>,
    pub request: Seq<char>,
    pub http_referer: Seq<char>,
    pub http_user_agent: Seq<char>,
    pub http_accept: Seq<char>,
    pub http_x_forwarded_for: Seq<char>,
    pub http_cookie: Seq<char>,
    pub status: Seq<char>,
    pub bytes_sent: Seq<char>,
    pub body_bytes_sent: Seq<char>,
    pub connection: Seq<char>,
    pub connection_requests: Seq<char>,
}

impl View for Record {
    type V = RecordView;

    open spec fn view(&self) -> RecordView {
        RecordView {
            time_iso8601: self.time_iso8601@,
            remote_addr: self.remote_addr@,
            remote_user: self.remote_user@,
            request: self.request@,
            http_referer: self.http_referer@,
            http_user_agent: self.http_user_agent@,
            http_accept: self.http_accept@,
            http_x_forwarded_for: self.http_x_forwarded_for@,
            http_cookie: self.http_cookie@,
            status: self.status@,
            bytes_sent: self.bytes_sent@,
            body_bytes_sent: self.body_bytes_sent@,
            connection: self.connection@,
            connection_requests: self.connection_requests@,
        }
    }
}

impl Clone for Record {
    fn clone(&self) -> (copy: Record)
        ensures
            copy@ == self@,
    {
        Record {
            time_iso8601: self.time_iso8601.clone(),
            remote_addr: self.remote_addr.clone(),
            remote_user: self.remote_user.clone(),
            request: self.request.clone(),
            http_referer: self.http_referer.clone(),
            http_user_agent: self.http_user_agent.clone(),
            http_accept: self.http_accept.clone(),
            http_x_forwarded_for: self.http_x_forwarded_for.clone(),
            http_cookie: self.http_cookie.clone(),
            status: self.status.clone(),
            bytes_sent: self.bytes_sent.clone(),
            body_bytes_sent: self.body_bytes_sent.clone(),
            connection: self.connection.clone(),
            connection_requests: self.connection_requests.clone(),
        }
    }
}

impl RecordView {
    /// The signature of the record: its six identity fields, unchanged.
    pub open spec fn signature(self) -> PayloadView {
        PayloadView {
            request: self.request,
            http_referer: self.http_referer,
            http_user_agent: self.http_user_agent,
            http_accept: self.http_accept,
            http_x_forwarded_for: self.http_x_forwarded_for,
            http_cookie: self.http_cookie,
        }
    }
}

/// The signature of a request: the fields by which records are grouped.
#[derive(Debug, Hash)]
pub struct Payload {
    pub request: String,
    pub http_referer: String,
    pub http_user_agent: String,
    pub http_accept: String,
    pub http_x_forwarded_for: String,
    pub http_cookie: String,
}

/// A signature as a value of the model.
pub struct PayloadView {
    pub request: Seq<char>,
    pub http_referer: Seq<char>,
    pub http_user_agent: Seq<char>,
    pub http_accept: Seq<char>,
    pub http_x_forwarded_for: Seq<char>,
    pub http_cookie: Seq<char>,
}

impl View for Payload {
    type V = PayloadView;

    open spec fn view(&self) -> PayloadView {
        PayloadView {
            request: self.request@,
            http_referer: self.http_referer@,
            http_user_agent: self.http_user_agent@,
            http_accept: self.http_accept@,
            http_x_forwarded_for: self.http_x_forwarded_for@,
            http_cookie: self.http_cookie@,
        }
    }
}

impl Payload {
    /// Takes the six identity fields out of a record.
    pub fn from_record(record: Record) -> (payload: Payload)
        ensures
            payload@ == record@.signature(),
    {
        Payload {
            request: record.request,
            http_referer: record.http_referer,
            http_user_agent: record.http_user_agent,
            http_accept: record.http_accept,
            http_x_forwarded_for: record.http_x_forwarded_for,
            http_cookie: record.http_cookie,
        }
    }
}

impl PartialEq for Payload {
    /// Two signatures are equal when all six fields hold the same text.
    fn eq(&self, other: &Payload) -> (equal: bool) {
        self.request == other.request && self.http_referer == other.http_referer
            && self.http_user_agent == other.http_user_agent && self.http_accept
            == other.http_accept && self.http_x_forwarded_for == other.http_x_forwarded_for
            && self.http_cookie == other.http_cookie
    }
}

impl vstd::std_specs::cmp::PartialEqSpecImpl for Payload {
    open spec fn obeys_eq_spec() -> bool {
        true
    }

    open spec fn eq_spec(&self, other: &Payload) -> bool {
        self@ == other@
    }
}

impl Eq for Payload {

}

impl Clone for Payload {
    fn clone(&self) -> (copy: Payload)
        ensures
            copy@ == self@,
    {
        Payload {
            request: self.request.clone(),
            http_referer: self.http_referer.clone(),
            http_user_agent: self.http_user_agent.clone(),
            http_accept: self.http_accept.clone(),
            http_x_forwarded_for: self.http_x_forwarded_for.clone(),
            http_cookie: self.http_cookie.clone(),
        }
    }
}

} // verus!
