//! A very simple spy which counts the calls made to an application interface.

use vstd::prelude::*;

verus! {

/// How often each entry point of an [`Api`] has been called.
#[derive(Clone, Copy, Debug, PartialEq, Eq, Structural)]
pub struct Stats {
    hello: u32,
    goodbye: u32,
}

impl Stats {
    /// The number of calls of `hello` as a mathematical integer.
    pub closed spec fn hello_count(self) -> nat {
        self.hello as nat
    }

    /// The number of calls of `goodbye` as a mathematical integer.
    pub closed spec fn goodbye_count(self) -> nat {
        self.goodbye as nat
    }

    /// The number of calls of `hello`.
    pub fn hello(&self) -> (n: u32)
        ensures
            n == self.hello_count(),
    {
        self.hello
    }

    /// The number of calls of `goodbye`.
    pub fn goodbye(&self) -> (n: u32)
        ensures
            n == self.goodbye_count(),
    {
        self.goodbye
    }
}

impl Default for Stats {
    /// The record of an interface that has not been called yet.
    fn default() -> (s: Stats)
        ensures
            s.hello_count() == 0,
            s.goodbye_count() == 0,
    {
        Stats { hello: 0, goodbye: 0 }
    }
}

/// An application interface that records the calls made to it.
pub struct Api {
    stats: Stats,
}

impl Api {
    /// The record kept so far.
    pub closed spec fn view(&self) -> Stats {
        self.stats
    }

    /// A fresh interface: nothing has been called.
    pub fn new() -> (api: Api)
        ensures
            api@.hello_count() == 0,
            api@.goodbye_count() == 0,
    {
        Api { stats: Stats::default() }
    }

    /// A copy of the record kept so far.
    pub fn stats(&self) -> (s: Stats)
        ensures
            s == self@,
    {
        self.stats
    }

    /// Says hello, which is counted. The counter must have room for one more
    /// call.
    pub fn hello(&mut self)
        requires
            old(self)@.hello_count() < u32::MAX,
        ensures
            final(self)@.hello_count() == old(self)@.hello_count() + 1,
            final(self)@.goodbye_count() == old(self)@.goodbye_count(),
    {
        self.stats.hello = self.stats.hello + 1;
    }

    /// Says goodbye, which is counted. The counter must have room for one more
    /// call.
    pub fn goodbye(&mut self)
        requires
            old(self)@.goodbye_count() < u32::MAX,
        ensures
            final(self)@.goodbye_count() == old(self)@.goodbye_count() + 1,
            final(self)@.hello_count() == old(self)@.hello_count(),
    {
        self.stats.goodbye = self.stats.goodbye + 1;
    }
}

} // verus!
