use std::collections::VecDeque;

use vstd::prelude::*;

use crate::priority::{priority_code, Priority};

verus! {

/// Four FIFO queues of frames, one per priority, drained in strict priority order.
pub struct Queues {
    emergency: VecDeque<Vec<u8>>,
    critical: VecDeque<Vec<u8>>,
    high: VecDeque<Vec<u8>>,
    bulk: VecDeque<Vec<u8>>,
}

/// The contents of one queue, front first.
pub open spec fn queue_view(q: VecDeque<Vec<u8>>) -> Seq<Seq<u8>> {
    q@.map_values(|f: Vec<u8>| f@)
}

impl View for Queues {
    /// The four queues, indexed by priority code (most urgent first).
    type V = Seq<Seq<Seq<u8>>>;

    closed spec fn view(&self) -> Seq<Seq<Seq<u8>>> {
        seq![queue_view(self.emergency), queue_view(self.critical), queue_view(self.high), queue_view(self.bulk)]
    }
}

/// Index of the most urgent non-empty queue, at or after `from`.
pub open spec fn first_nonempty(qs: Seq<Seq<Seq<u8>>>, from: int) -> Option<int>
    decreases 4 - from,
{
    if from >= 4 {
        None
    } else if qs[from].len() > 0 {
        Some(from)
    } else {
        first_nonempty(qs, from + 1)
    }
}

impl Queues {
    /// Four empty queues.
    pub fn new() -> (r: Queues)
        ensures
            r@ == seq![Seq::<Seq<u8>>::empty(), Seq::empty(), Seq::empty(), Seq::empty()],
    {
        let r = Queues { emergency: VecDeque::new(), critical: VecDeque::new(), high: VecDeque::new(), bulk: VecDeque::new() };
        assert(queue_view(r.emergency) =~= Seq::empty());
        assert(queue_view(r.critical) =~= Seq::empty());
        assert(queue_view(r.high) =~= Seq::empty());
        assert(queue_view(r.bulk) =~= Seq::empty());
        r
    }

    /// Appends `frame` to the queue of `prio`.
    pub fn push(&mut self, frame: Vec<u8>, prio: Priority)
        ensures
            final(self)@ == old(self)@.update(priority_code(prio) as int, old(self)@[priority_code(prio) as int].push(frame@)),
    {
        let ghost f = frame@;
        match prio {
            Priority::Emergency => self.emergency.push_back(frame),
            Priority::Critical => self.critical.push_back(frame),
            Priority::High => self.high.push_back(frame),
            Priority::Bulk => self.bulk.push_back(frame),
        }
        proof {
            let old_v = old(self)@;
            let i = priority_code(prio) as int;
            assert(self@[i] =~= old_v[i].push(f));
            assert(self@ =~= old_v.update(i, old_v[i].push(f)));
        }
    }

    /// Removes the front frame of the most urgent non-empty queue, with its
    /// priority; `None` when all four are empty.
    pub fn pop_next(&mut self) -> (r: Option<(Vec<u8>, Priority)>)
        ensures
            match first_nonempty(old(self)@, 0) {
                None => r is None && final(self)@ == old(self)@,
                Some(i) => r matches Some((f, p)) && priority_code(p) == i && f@ == old(self)@[i][0]
                    && final(self)@ == old(self)@.update(i, old(self)@[i].drop_first()),
            },
    {
        let ghost old_v = self@;
        proof {
            reveal_with_fuel(first_nonempty, 5);
        }
        match self.emergency.pop_front() {
            Some(f) => {
                assert(queue_view(self.emergency) =~= old_v[0].drop_first());
                assert(self@ =~= old_v.update(0, old_v[0].drop_first()));
                return Some((f, Priority::Emergency));
            },
            None => {},
        }
        match self.critical.pop_front() {
            Some(f) => {
                assert(queue_view(self.critical) =~= old_v[1].drop_first());
                assert(self@ =~= old_v.update(1, old_v[1].drop_first()));
                return Some((f, Priority::Critical));
            },
            None => {},
        }
        match self.high.pop_front() {
            Some(f) => {
                assert(queue_view(self.high) =~= old_v[2].drop_first());
                assert(self@ =~= old_v.update(2, old_v[2].drop_first()));
                return Some((f, Priority::High));
            },
            None => {},
        }
        match self.bulk.pop_front() {
            Some(f) => {
                assert(queue_view(self.bulk) =~= old_v[3].drop_first());
                assert(self@ =~= old_v.update(3, old_v[3].drop_first()));
                return Some((f, Priority::Bulk));
            },
            None => {},
        }
        assert(self@ =~= old_v);
        None
    }
}

} // verus!
