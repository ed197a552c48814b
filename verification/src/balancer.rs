//! Round-robin selection over health-checked upstreams: the next request goes
//! to the first upstream marked healthy, scanning from where the last pick
//! left off. Probing the upstreams is the driver's job; it updates the marks.
use vstd::prelude::*;

verus! {

/// The first healthy upstream at or after `start + i`, scanning circularly.
pub open spec fn find_healthy(ups: Seq<(String, bool)>, start: int, i: int) -> Option<int>
    decreases ups.len() - i,
{
    if i < 0 || i >= ups.len() {
        None
    } else if ups[(start + i) % (ups.len() as int)].1 {
        Some((start + i) % (ups.len() as int))
    } else {
        find_healthy(ups, start, i + 1)
    }
}

pub struct App {
    next: usize,
    upstreams: Vec<(String, bool)>,
}

impl App {
    /// The upstream addresses and their current health marks.
    pub closed spec fn ups(&self) -> Seq<(String, bool)> {
        self.upstreams@
    }

    /// Where the circular scan starts.
    pub closed spec fn cursor(&self) -> int {
        self.next as int
    }

    /// The cursor stays on the list.
    pub open spec fn wf(&self) -> bool {
        self.ups().len() == 0 || 0 <= self.cursor() < self.ups().len()
    }

    /// Starts with every upstream unproven, so unhealthy.
    pub fn new(upstreams: Vec<String>) -> (r: App)
        ensures
            r.wf(),
            r.cursor() == 0,
            r.ups().len() == upstreams@.len(),
            forall|j: int|
                0 <= j < upstreams@.len() ==> (#[trigger] r.ups()[j]).0 == upstreams@[j] && !r.ups(
                )[j].1,
    {
        let mut marked: Vec<(String, bool)> = Vec::new();
        let mut i: usize = 0;
        while i < upstreams.len()
            invariant
                0 <= i <= upstreams@.len(),
                marked@.len() == i,
                forall|j: int|
                    0 <= j < i ==> (#[trigger] marked@[j]).0 == upstreams@[j] && !marked@[j].1,
            decreases upstreams@.len() - i,
        {
            let u = upstreams[i].clone();
            marked.push((u, false));
            i = i + 1;
        }
        App { next: 0, upstreams: marked }
    }

    /// Records one probe's outcome for the upstream at `i`. The probing
    /// itself (an HTTP health check) is the driver's job.
    pub fn mark(&mut self, i: usize, up: bool)
        requires
            i < old(self).ups().len(),
        ensures
            final(self).cursor() == old(self).cursor(),
            final(self).ups() == old(self).ups().update(
                i as int,
                (old(self).ups()[i as int].0, up),
            ),
    {
        let address = self.upstreams[i].0.clone();
        self.upstreams.set(i, (address, up));
    }

    /// The address of the first healthy upstream, scanning circularly from
    /// the cursor; the cursor moves there so later picks rotate. With no
    /// healthy upstream there is nothing to return and nothing changes.
    pub fn upstream(&mut self) -> (r: Option<String>)
        requires
            old(self).wf(),
        ensures
            final(self).wf(),
            final(self).ups() == old(self).ups(),
            match find_healthy(old(self).ups(), old(self).cursor(), 0) {
                Some(x) => r is Some && r->Some_0@ == old(self).ups()[x].0@ && final(self).cursor()
                    == x,
                None => r is None && final(self).cursor() == old(self).cursor(),
            },
    {
        let n = self.upstreams.len();
        let mut i: usize = 0;
        while i < n
            invariant
                0 <= i <= n,
                n == self.ups().len(),
                *self == *old(self),
                old(self).wf(),
                n > 0 ==> 0 <= self.cursor() < n,
                find_healthy(old(self).ups(), old(self).cursor(), 0) == find_healthy(
                    old(self).ups(),
                    old(self).cursor(),
                    i as int,
                ),
            decreases n - i,
        {
            let x = if i >= n - self.next {
                i - (n - self.next)
            } else {
                i + self.next
            };
            proof {
                let c = self.cursor();
                let nn = n as int;
                assert(x == (c + i) % nn) by {
                    if i >= n - self.next {
                        assert((c + i) % nn == (c + i) - nn) by (nonlinear_arith)
                            requires
                                nn > 0,
                                nn <= c + i < 2 * nn,
                        ;
                    } else {
                        assert((c + i) % nn == c + i) by (nonlinear_arith)
                            requires
                                nn > 0,
                                0 <= c + i < nn,
                        ;
                    }
                }
            }
            if self.upstreams[x].1 {
                self.next = x;
                let picked = self.upstreams[x].0.clone();
                return Some(picked);
            }
            i = i + 1;
        }
        None
    }
}

} // verus!
