//! The pre-trade risk gate: opt-in per-user position limits and a per-user
//! rate credit that every submission consumes.

use vstd::prelude::*;

use crate::tables::limit_table_get;
use crate::tables::limit_table_insert;
use crate::tables::limit_table_new;
use crate::tables::limit_table_view;
use crate::tables::LimitTable;

verus! {

/// Rate credit a user starts with on first touch.
pub const DEFAULT_RATE_CREDIT: u64 = 1_000_000_000;

/// The credit left after one submission consumed from `c`.
pub open spec fn consumed_credit(c: u64) -> u64 {
    if c == 0 {
        0
    } else {
        (c - 1) as u64
    }
}

pub struct RiskEngine {
    pub position_limits: LimitTable,
    pub rate_limits: LimitTable,
}

impl RiskEngine {
    pub open spec fn position_limits_view(self) -> Map<u64, u64> {
        limit_table_view(self.position_limits)
    }

    pub open spec fn rate_limits_view(self) -> Map<u64, u64> {
        limit_table_view(self.rate_limits)
    }

    /// The position check: does the quantity exceed a configured limit?
    pub open spec fn spec_exceeds_position(self, user_id: u64, qty: u64) -> bool {
        self.position_limits_view().dom().contains(user_id) && qty > self.position_limits_view()[
            user_id
        ]
    }

    /// The rate credit the user has left, counting the default for a user
    /// never seen before.
    pub open spec fn spec_rate_credit(self, user_id: u64) -> u64 {
        if self.rate_limits_view().dom().contains(user_id) {
            self.rate_limits_view()[user_id]
        } else {
            DEFAULT_RATE_CREDIT
        }
    }

    /// A gate with no limits configured.
    pub fn new() -> (r: Self)
        ensures
            r.position_limits_view() == Map::<u64, u64>::empty(),
            r.rate_limits_view() == Map::<u64, u64>::empty(),
    {
        RiskEngine { position_limits: limit_table_new(), rate_limits: limit_table_new() }
    }

    /// True means the order size exceeds the user's configured limit and the
    /// submission must be rejected; users without a limit always pass.
    pub fn check_position_limit(&self, user_id: u64, qty: u64) -> (r: bool)
        ensures
            r == self.spec_exceeds_position(user_id, qty),
    {
        match limit_table_get(&self.position_limits, user_id) {
            Some(limit) => qty > limit,
            None => false,
        }
    }

    /// True means the user's rate credit is exhausted and the submission
    /// must be rejected; otherwise one unit of credit is consumed.
    pub fn check_rate_limit(&mut self, user_id: u64) -> (r: bool)
        ensures
            r == (old(self).spec_rate_credit(user_id) == 0),
            final(self).rate_limits_view() == old(self).rate_limits_view().insert(
                user_id,
                consumed_credit(old(self).spec_rate_credit(user_id)),
            ),
            final(self).position_limits_view() == old(self).position_limits_view(),
    {
        let credit = match limit_table_get(&self.rate_limits, user_id) {
            Some(c) => c,
            None => DEFAULT_RATE_CREDIT,
        };
        if credit > 0 {
            limit_table_insert(&mut self.rate_limits, user_id, credit - 1);
            false
        } else {
            limit_table_insert(&mut self.rate_limits, user_id, 0);
            true
        }
    }

    /// Set or overwrite the user's maximum single-order quantity.
    pub fn set_position_limit(&mut self, user_id: u64, max_qty: u64)
        ensures
            final(self).position_limits_view() == old(self).position_limits_view().insert(
                user_id,
                max_qty,
            ),
            final(self).rate_limits_view() == old(self).rate_limits_view(),
    {
        limit_table_insert(&mut self.position_limits, user_id, max_qty);
    }

    /// Set or overwrite the user's remaining rate credit.
    pub fn set_rate_limit(&mut self, user_id: u64, limit: u64)
        ensures
            final(self).rate_limits_view() == old(self).rate_limits_view().insert(user_id, limit),
            final(self).position_limits_view() == old(self).position_limits_view(),
    {
        limit_table_insert(&mut self.rate_limits, user_id, limit);
    }
}

} // verus!

verus! {

/// The position check over a bare limit map.
pub open spec fn exceeds_position_map(pos: Map<u64, u64>, user_id: u64, qty: u64) -> bool {
    pos.dom().contains(user_id) && qty > pos[user_id]
}

/// The remaining rate credit over a bare credit map.
pub open spec fn rate_credit_map(rate: Map<u64, u64>, user_id: u64) -> u64 {
    if rate.dom().contains(user_id) {
        rate[user_id]
    } else {
        DEFAULT_RATE_CREDIT
    }
}

} // verus!
