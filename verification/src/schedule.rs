use vstd::prelude::*;

verus! {

/// Sum of the request rates of the seconds in `rates`.
pub open spec fn total(rates: Seq<u32>) -> int
    decreases rates.len(),
{
    if rates.len() == 0 {
        0
    } else {
        total(rates.drop_last()) + rates.last()
    }
}

/// What the driver of a load test does next.
#[derive(Debug, Clone, Copy, PartialEq, Eq, Structural)]
pub enum Action {
    /// A new second begins: grow the rate `rate` by `increment` percent and
    /// hand the result to `LoadSchedule::set_rate`.
    Grow { rate: u32, increment: u8 },
    /// Send one more request of this second, then call `LoadSchedule::record_sent`.
    Send,
    /// This second's requests are out; the number is how many were sent since
    /// the start. Report it, wait one second, then call `LoadSchedule::end_second`.
    EndSecond(u32),
    /// Every second is done; the number is how many requests were sent in all.
    Finish(u32),
}

/// Why a load test cannot start: it would last no second, or send no request
/// in its first second.
#[derive(Debug, Clone, Copy, PartialEq, Eq, Structural)]
pub struct InvalidLoad;

/// The abstract state of a load test.
pub ghost struct ScheduleState {
    /// How many seconds the test lasts.
    pub seconds: nat,
    /// The percent by which the rate grows from one second to the next.
    pub increment: u8,
    /// How many seconds are over.
    pub second: nat,
    /// The rate of each second begun so far, the current one included once set.
    pub rates: Seq<u32>,
    /// Whether the current second's rate is set.
    pub rate_known: bool,
    /// Requests sent in the current second.
    pub sent_this_second: nat,
    /// Requests sent since the start.
    pub sent: nat,
}

/// The bookkeeping of a load test: which second it is in, the rate of each
/// second, and how many requests were sent. The driver asks `next_action`
/// what to do, does it, and reports back.
pub struct LoadSchedule {
    seconds: u32,
    increment: u8,
    second: u32,
    rate: u32,
    rate_known: bool,
    sent_this_second: u32,
    sent: u32,
    rates: Ghost<Seq<u32>>,
}

impl View for LoadSchedule {
    type V = ScheduleState;

    closed spec fn view(&self) -> ScheduleState {
        ScheduleState {
            seconds: self.seconds as nat,
            increment: self.increment,
            second: self.second as nat,
            rates: self.rates@,
            rate_known: self.rate_known,
            sent_this_second: self.sent_this_second as nat,
            sent: self.sent as nat,
        }
    }
}

impl ScheduleState {
    /// The rate of the current (or, between seconds, the last) second.
    pub open spec fn rate(self) -> u32 {
        self.rates.last()
    }

    /// The consistency of the bookkeeping.
    pub open spec fn wf(self) -> bool {
        &&& self.seconds > 0
        &&& self.second <= self.seconds
        &&& self.rates.len() == self.second + if self.rate_known {
            1nat
        } else {
            0nat
        }
        &&& self.rates.len() > 0
        &&& self.rates[0] > 0
        &&& self.second == self.seconds ==> !self.rate_known
        &&& self.rate_known ==> self.sent_this_second <= self.rate()
        &&& !self.rate_known ==> self.sent_this_second == 0
        &&& self.sent == total(self.rates.take(self.second as int)) + self.sent_this_second
    }

    /// The action that the state calls for.
    pub open spec fn action(self) -> Action {
        if self.second == self.seconds {
            Action::Finish(self.sent as u32)
        } else if !self.rate_known {
            Action::Grow { rate: self.rate(), increment: self.increment }
        } else if self.sent_this_second < self.rate() {
            Action::Send
        } else {
            Action::EndSecond(self.sent as u32)
        }
    }
}

proof fn lemma_total_step(rates: Seq<u32>, i: int)
    requires
        0 <= i < rates.len(),
    ensures
        total(rates.take(i + 1)) == total(rates.take(i)) + rates[i],
{
    assert(rates.take(i + 1).drop_last() =~= rates.take(i));
}

impl LoadSchedule {
    /// Starts a load test of `seconds` seconds that sends
    /// `requests_per_second` requests in its first second and grows that
    /// number by `increment` percent each following second. Refused when
    /// either number is 0.
    pub fn new(seconds: u32, requests_per_second: u32, increment: u8) -> (r: Result<
        LoadSchedule,
        InvalidLoad,
    >)
        ensures
            r is Err <==> seconds == 0 || requests_per_second == 0,
            r matches Ok(s) ==> {
                &&& s.inv()
                &&& s@.wf()
                &&& s@.seconds == seconds
                &&& s@.increment == increment
                &&& s@.second == 0
                &&& s@.rates == seq![requests_per_second]
                &&& s@.rate_known
                &&& s@.sent == 0
            },
    {
        if seconds == 0 || requests_per_second == 0 {
            return Err(InvalidLoad);
        }
        let ghost first_rate = seq![requests_per_second];
        let s = LoadSchedule {
            seconds,
            increment,
            second: 0,
            rate: requests_per_second,
            rate_known: true,
            sent_this_second: 0,
            sent: 0,
            rates: Ghost(first_rate),
        };
        assert(s@.rates.take(0) =~= Seq::<u32>::empty());
        Ok(s)
    }

    /// The bookkeeping is consistent: the abstract state is well formed and
    /// the rate held agrees with it.
    pub closed spec fn inv(&self) -> bool {
        &&& self@.wf()
        &&& self.rates@.last() == self.rate
    }

    /// The action to take now.
    pub fn next_action(&self) -> (a: Action)
        requires
            self.inv(),
        ensures
            a == self@.action(),
            a matches Action::Finish(n) ==> n == total(self@.rates) && self@.rates.len()
                == self@.seconds,
            a matches Action::EndSecond(n) ==> n == total(self@.rates),
    {
        proof {
            if self.second == self.seconds {
                assert(self.rates@.take(self.second as int) =~= self.rates@);
            } else if self.rate_known && self.sent_this_second == self.rate {
                lemma_total_step(self.rates@, self.second as int);
                assert(self.rates@.take(self.second + 1) =~= self.rates@);
            }
        }
        if self.second == self.seconds {
            Action::Finish(self.sent)
        } else if !self.rate_known {
            Action::Grow { rate: self.rate, increment: self.increment }
        } else if self.sent_this_second < self.rate {
            Action::Send
        } else {
            Action::EndSecond(self.sent)
        }
    }

    /// Requests sent since the start.
    pub fn sent(&self) -> (n: u32)
        ensures
            n == self@.sent,
    {
        self.sent
    }

    /// Sets the rate of the second that begins, after `Action::Grow`.
    pub fn set_rate(&mut self, rate: u32)
        requires
            old(self).inv(),
            old(self)@.action() is Grow,
        ensures
            final(self).inv(),
            final(self)@.wf(),
            final(self)@ == (ScheduleState {
                rates: old(self)@.rates.push(rate),
                rate_known: true,
                ..old(self)@
            }),
    {
        let ghost old_rates = self.rates@;
        self.rate = rate;
        self.rate_known = true;
        self.rates = Ghost(self.rates@.push(rate));
        assert(self.rates@.take(self.second as int) =~= old_rates.take(self.second as int));
    }

    /// Counts one more request sent, after `Action::Send`. The count since the
    /// start is a `u32`, so it must not be at `u32::MAX` already.
    pub fn record_sent(&mut self)
        requires
            old(self).inv(),
            old(self)@.action() is Send,
            old(self)@.sent < u32::MAX,
        ensures
            final(self).inv(),
            final(self)@.wf(),
            final(self)@ == (ScheduleState {
                sent_this_second: old(self)@.sent_this_second + 1,
                sent: old(self)@.sent + 1,
                ..old(self)@
            }),
    {
        self.sent_this_second = self.sent_this_second + 1;
        self.sent = self.sent + 1;
    }

    /// Closes the current second, after `Action::EndSecond`.
    pub fn end_second(&mut self)
        requires
            old(self).inv(),
            old(self)@.action() is EndSecond,
        ensures
            final(self).inv(),
            final(self)@.wf(),
            final(self)@ == (ScheduleState {
                second: old(self)@.second + 1,
                rate_known: false,
                sent_this_second: 0,
                ..old(self)@
            }),
    {
        proof {
            lemma_total_step(self.rates@, self.second as int);
        }
        self.second = self.second + 1;
        self.rate_known = false;
        self.sent_this_second = 0;
    }
}

} // verus!
