//! How many keys of each kind a query may look up.

use vstd::prelude::*;

verus! {

/// How many ranges of a single letter are looked up.
pub const ONE_LETTER_RANGE_QUOTA: usize = 8;

/// How many ranges of a single word are looked up in indexes of high zoom levels.
pub const ONE_WORD_HIGH_ZOOM_RANGE_QUOTA: usize = 8;

/// How many ranges of a single word are looked up.
pub const ONE_WORD_RANGE_QUOTA: usize = 40;

/// How many ranges are looked up in indexes of high zoom levels.
pub const ALL_HIGH_ZOOM_RANGE_QUOTA: usize = 40;

/// How many keys are looked up in indexes of high zoom levels.
pub const ALL_HIGH_ZOOM_QUOTA: usize = 600;

/// How many keys of each kind were looked up.
#[derive(Copy, Clone, Debug, PartialEq, Eq, Structural)]
pub struct Quotas {
    pub one_letter_range: usize,
    pub one_word_range: usize,
    pub one_word_high_zoom_range: usize,
    pub all_high_zoom_range: usize,
    pub all_high_zoom: usize,
}

/// What decides whether a key may be looked up.
#[derive(Copy, Clone, Debug, PartialEq, Eq, Structural)]
pub struct KeyRequest {
    /// The key is a range of more than one phrase
    pub is_range: bool,
    /// The key covers a single word of the query
    pub one_word: bool,
    /// Lookups in the index may be slow
    pub slow: bool,
    /// Nothing is to be stacked on the results, and they can not come near the best
    pub hopeless: bool,
    /// The key was not asked for yet
    pub fresh: bool,
    /// The phrase is a single letter
    pub one_letter: bool,
    /// Only matches near the proximity point are wanted
    pub nearby_only: bool,
}

/// One more range of a single letter, as far as the quota goes. Other keys are not counted.
pub open spec fn letter_charged(q: Quotas, r: KeyRequest) -> (Quotas, bool) {
    if !r.one_letter {
        (q, true)
    } else if q.one_letter_range < ONE_LETTER_RANGE_QUOTA {
        (Quotas { one_letter_range: (q.one_letter_range + 1) as usize, ..q }, true)
    } else {
        (q, false)
    }
}

/// One more range of a single word in a slow index, as far as the quota goes. Other keys are not
/// counted.
pub open spec fn slow_word_charged(q: Quotas, r: KeyRequest) -> (Quotas, bool) {
    if !r.slow || r.nearby_only {
        (q, true)
    } else if q.one_word_high_zoom_range < ONE_WORD_HIGH_ZOOM_RANGE_QUOTA {
        (
            Quotas {
                one_word_high_zoom_range: (q.one_word_high_zoom_range + 1) as usize,
                ..q
            },
            true,
        )
    } else {
        (q, false)
    }
}

/// One more range of a single word, as far as the quota goes.
pub open spec fn word_charged(q: Quotas) -> (Quotas, bool) {
    if q.one_word_range < ONE_WORD_RANGE_QUOTA {
        (Quotas { one_word_range: (q.one_word_range + 1) as usize, ..q }, true)
    } else {
        (q, false)
    }
}

/// One more range in a slow index, as far as the quota goes. Other keys are not counted.
pub open spec fn slow_range_charged(q: Quotas, r: KeyRequest) -> (Quotas, bool) {
    if !r.is_range {
        (q, true)
    } else if q.all_high_zoom_range < ALL_HIGH_ZOOM_RANGE_QUOTA {
        (Quotas { all_high_zoom_range: (q.all_high_zoom_range + 1) as usize, ..q }, true)
    } else {
        (q, false)
    }
}

/// One more key in a slow index, as far as the quota goes.
pub open spec fn slow_charged(q: Quotas) -> (Quotas, bool) {
    if q.all_high_zoom < ALL_HIGH_ZOOM_QUOTA {
        (Quotas { all_high_zoom: (q.all_high_zoom + 1) as usize, ..q }, true)
    } else {
        (q, false)
    }
}

/// What a range of a single word is charged: hopeless ones in slow indexes are refused, those that
/// were asked for already cost nothing, and the others count against up to three quotas. What was
/// counted before a refusal stays counted.
pub open spec fn one_word_charged(q: Quotas, r: KeyRequest) -> (Quotas, bool) {
    if !(r.is_range && r.one_word) {
        (q, true)
    } else if r.slow && r.hopeless {
        (q, false)
    } else if !r.fresh {
        (q, true)
    } else {
        let (q1, ok1) = letter_charged(q, r);
        if !ok1 {
            (q1, false)
        } else {
            let (q2, ok2) = slow_word_charged(q1, r);
            if !ok2 {
                (q2, false)
            } else {
                word_charged(q2)
            }
        }
    }
}

/// What a key in a slow index is charged, unless only nearby matches are wanted.
pub open spec fn all_charged(q: Quotas, r: KeyRequest) -> (Quotas, bool) {
    if !r.slow || r.nearby_only {
        (q, true)
    } else {
        let (q1, ok1) = slow_range_charged(q, r);
        if !ok1 {
            (q1, false)
        } else {
            slow_charged(q1)
        }
    }
}

/// The quotas after a key was asked for, and whether it may be looked up.
pub open spec fn charged(q: Quotas, r: KeyRequest) -> (Quotas, bool) {
    let (q1, ok1) = one_word_charged(q, r);
    if !ok1 {
        (q1, false)
    } else {
        all_charged(q1, r)
    }
}

/// No quota is exceeded.
pub open spec fn within_quotas(q: Quotas) -> bool {
    &&& q.one_letter_range <= ONE_LETTER_RANGE_QUOTA
    &&& q.one_word_range <= ONE_WORD_RANGE_QUOTA
    &&& q.one_word_high_zoom_range <= ONE_WORD_HIGH_ZOOM_RANGE_QUOTA
    &&& q.all_high_zoom_range <= ALL_HIGH_ZOOM_RANGE_QUOTA
    &&& q.all_high_zoom <= ALL_HIGH_ZOOM_QUOTA
}

impl Quotas {
    /// Nothing was looked up yet.
    pub fn new() -> (q: Self)
        ensures
            q == (Quotas {
                one_letter_range: 0,
                one_word_range: 0,
                one_word_high_zoom_range: 0,
                all_high_zoom_range: 0,
                all_high_zoom: 0,
            }),
    {
        Quotas {
            one_letter_range: 0,
            one_word_range: 0,
            one_word_high_zoom_range: 0,
            all_high_zoom_range: 0,
            all_high_zoom: 0,
        }
    }

    /// Asks for a key: counts it and tells whether it may be looked up.
    pub fn charge(&mut self, r: KeyRequest) -> (ok: bool)
        ensures
            (*final(self), ok) == charged(*old(self), r),
    {
        if r.is_range && r.one_word {
            if r.slow && r.hopeless {
                return false;
            }
            if r.fresh {
                if r.one_letter {
                    if self.one_letter_range >= ONE_LETTER_RANGE_QUOTA {
                        return false;
                    }
                    self.one_letter_range = self.one_letter_range + 1;
                }
                if r.slow && !r.nearby_only {
                    if self.one_word_high_zoom_range >= ONE_WORD_HIGH_ZOOM_RANGE_QUOTA {
                        return false;
                    }
                    self.one_word_high_zoom_range = self.one_word_high_zoom_range + 1;
                }
                if self.one_word_range >= ONE_WORD_RANGE_QUOTA {
                    return false;
                }
                self.one_word_range = self.one_word_range + 1;
            }
        }
        if r.slow && !r.nearby_only {
            if r.is_range {
                if self.all_high_zoom_range >= ALL_HIGH_ZOOM_RANGE_QUOTA {
                    return false;
                }
                self.all_high_zoom_range = self.all_high_zoom_range + 1;
            }
            if self.all_high_zoom >= ALL_HIGH_ZOOM_QUOTA {
                return false;
            }
            self.all_high_zoom = self.all_high_zoom + 1;
        }
        true
    }
}

/// A key may be looked up unless a quota for its kind is used up, or it is a range of a single word
/// that is hopeless in a slow index. A range of a single word that was asked for already is not held
/// to the quotas for such ranges; a key that wants only what is near is not held to those for slow
/// indexes.
pub proof fn keys_are_refused_only_beyond_quotas(q: Quotas, r: KeyRequest)
    ensures
        charged(q, r).1 <==> {
            &&& r.is_range && r.one_word ==> !(r.slow && r.hopeless)
            &&& r.is_range && r.one_word && r.fresh ==> {
                &&& q.one_word_range < 40
                &&& r.one_letter ==> q.one_letter_range < 8
                &&& r.slow && !r.nearby_only ==> q.one_word_high_zoom_range < 8
            }
            &&& r.slow && !r.nearby_only ==> {
                &&& q.all_high_zoom < 600
                &&& r.is_range ==> q.all_high_zoom_range < 40
            }
        },
{
}

/// A key that may be looked up counts once against each quota for its kind, and against no other.
pub proof fn keys_count_once(q: Quotas, r: KeyRequest)
    requires
        charged(q, r).1,
    ensures
        ({
            let after = charged(q, r).0;
            let word = r.is_range && r.one_word && r.fresh;
            let slow = r.slow && !r.nearby_only;
            &&& after.one_word_range == q.one_word_range + (if word {
                1int
            } else {
                0
            })
            &&& after.one_letter_range == q.one_letter_range + (if word && r.one_letter {
                1int
            } else {
                0
            })
            &&& after.one_word_high_zoom_range == q.one_word_high_zoom_range + (if word && slow {
                1int
            } else {
                0
            })
            &&& after.all_high_zoom == q.all_high_zoom + (if slow {
                1int
            } else {
                0
            })
            &&& after.all_high_zoom_range == q.all_high_zoom_range + (if slow && r.is_range {
                1int
            } else {
                0
            })
        }),
{
}

/// Asking for keys never exceeds a quota.
pub proof fn quotas_hold(q: Quotas, r: KeyRequest)
    requires
        within_quotas(q),
    ensures
        within_quotas(charged(q, r).0),
{
}

/// The number of ones among the bits of a number.
pub open spec fn ones(v: nat) -> nat
    decreases v,
{
    if v == 0 {
        0
    } else {
        v % 2 + ones(v / 2)
    }
}

proof fn ones_bound(v: nat)
    ensures
        ones(v) <= v,
    decreases v,
{
    if v > 0 {
        ones_bound(v / 2);
    }
}

/// Whether exactly one bit of the mask is set.
pub fn is_one_word(mask: u32) -> (r: bool)
    ensures
        r == (ones(mask as nat) == 1),
{
    let mut rest: u32 = mask;
    let mut count: u32 = 0;
    proof {
        ones_bound(mask as nat);
    }
    while rest > 0
        invariant
            count + ones(rest as nat) == ones(mask as nat),
            ones(mask as nat) <= mask,
        decreases rest,
    {
        count = count + rest % 2;
        rest = rest / 2;
    }
    count == 1
}

} // verus!
