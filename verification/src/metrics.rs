//! Server metrics: counters and gauges for connections, requests and
//! responses. A server holds one aggregate; readers take point-in-time
//! values.

use vstd::prelude::*;

verus! {

/// The counters one server aggregates. Counters saturate rather than wrap.
pub struct ServerMetrics {
    pub connection_oriented: bool,
    pub num_connections: u64,
    pub num_inflight_requests: u64,
    pub num_pending_writes: u64,
    pub num_received_requests: u64,
    pub num_sent_responses: u64,
}

/// One more, saturating at the top.
pub open spec fn inc_sat(x: u64) -> u64 {
    if x == u64::MAX {
        x
    } else {
        (x + 1) as u64
    }
}

/// One less, stopping at zero.
pub open spec fn dec_sat(x: u64) -> u64 {
    if x == 0 {
        x
    } else {
        (x - 1) as u64
    }
}

impl ServerMetrics {
    /// Metrics for a transport without connections.
    pub fn connection_less() -> (r: ServerMetrics)
        ensures
            !r.connection_oriented,
            r.num_connections == 0,
            r.num_inflight_requests == 0,
            r.num_pending_writes == 0,
            r.num_received_requests == 0,
            r.num_sent_responses == 0,
    {
        ServerMetrics {
            connection_oriented: false,
            num_connections: 0,
            num_inflight_requests: 0,
            num_pending_writes: 0,
            num_received_requests: 0,
            num_sent_responses: 0,
        }
    }

    /// Metrics for a connection-oriented transport.
    pub fn connection_oriented() -> (r: ServerMetrics)
        ensures
            r.connection_oriented,
            r.num_connections == 0,
            r.num_inflight_requests == 0,
            r.num_pending_writes == 0,
            r.num_received_requests == 0,
            r.num_sent_responses == 0,
    {
        ServerMetrics {
            connection_oriented: true,
            num_connections: 0,
            num_inflight_requests: 0,
            num_pending_writes: 0,
            num_received_requests: 0,
            num_sent_responses: 0,
        }
    }

    /// A connection opened.
    pub fn inc_connections(&mut self)
        ensures
            *final(self) == (ServerMetrics {
                num_connections: inc_sat(old(self).num_connections),
                ..*old(self)
            }),
    {
        self.num_connections = sat_add(self.num_connections);
    }

    /// A connection closed.
    pub fn dec_connections(&mut self)
        ensures
            *final(self) == (ServerMetrics {
                num_connections: dec_sat(old(self).num_connections),
                ..*old(self)
            }),
    {
        self.num_connections = sat_sub(self.num_connections);
    }

    /// A request entered processing.
    pub fn inc_inflight(&mut self)
        ensures
            *final(self) == (ServerMetrics {
                num_inflight_requests: inc_sat(old(self).num_inflight_requests),
                ..*old(self)
            }),
    {
        self.num_inflight_requests = sat_add(self.num_inflight_requests);
    }

    /// A request left processing.
    pub fn dec_inflight(&mut self)
        ensures
            *final(self) == (ServerMetrics {
                num_inflight_requests: dec_sat(old(self).num_inflight_requests),
                ..*old(self)
            }),
    {
        self.num_inflight_requests = sat_sub(self.num_inflight_requests);
    }

    /// A response was queued to write.
    pub fn inc_pending_writes(&mut self)
        ensures
            *final(self) == (ServerMetrics {
                num_pending_writes: inc_sat(old(self).num_pending_writes),
                ..*old(self)
            }),
    {
        self.num_pending_writes = sat_add(self.num_pending_writes);
    }

    /// A queued response was written.
    pub fn dec_pending_writes(&mut self)
        ensures
            *final(self) == (ServerMetrics {
                num_pending_writes: dec_sat(old(self).num_pending_writes),
                ..*old(self)
            }),
    {
        self.num_pending_writes = sat_sub(self.num_pending_writes);
    }

    /// A request arrived.
    pub fn inc_received(&mut self)
        ensures
            *final(self) == (ServerMetrics {
                num_received_requests: inc_sat(old(self).num_received_requests),
                ..*old(self)
            }),
    {
        self.num_received_requests = sat_add(self.num_received_requests);
    }

    /// A response went out.
    pub fn inc_sent(&mut self)
        ensures
            *final(self) == (ServerMetrics {
                num_sent_responses: inc_sat(old(self).num_sent_responses),
                ..*old(self)
            }),
    {
        self.num_sent_responses = sat_add(self.num_sent_responses);
    }
}

/// Saturating increment.
pub fn sat_add(x: u64) -> (r: u64)
    ensures
        r == inc_sat(x),
{
    if x == u64::MAX {
        x
    } else {
        x + 1
    }
}

/// Saturating decrement.
pub fn sat_sub(x: u64) -> (r: u64)
    ensures
        r == dec_sat(x),
{
    if x == 0 {
        x
    } else {
        x - 1
    }
}

} // verus!
