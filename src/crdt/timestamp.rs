use std::cmp::Ordering;
use vstd::prelude::*;
use vstd::string::*;

verus! {

/// Lexicographic order on strings, character by character; a strict prefix
/// sorts first.
pub open spec fn text_lt(a: Seq<char>, b: Seq<char>) -> bool
    decreases a.len(),
{
    if a.len() == 0 {
        b.len() > 0
    } else if b.len() == 0 {
        false
    } else if a[0] != b[0] {
        a[0] < b[0]
    } else {
        text_lt(a.drop_first(), b.drop_first())
    }
}

/// Mathematical value of a clock: its counter and its owner.
pub struct TimestampView {
    pub clock: u64,
    pub owner: Seq<char>,
}

/// Clock order: by counter, ties broken by owner.
pub open spec fn timestamp_lt(a: TimestampView, b: TimestampView) -> bool {
    a.clock < b.clock || (a.clock == b.clock && text_lt(a.owner, b.owner))
}

/// Ordering of two clocks as views.
pub open spec fn timestamp_cmp(a: TimestampView, b: TimestampView) -> Ordering {
    if timestamp_lt(a, b) {
        Ordering::Less
    } else if timestamp_lt(b, a) {
        Ordering::Greater
    } else {
        Ordering::Equal
    }
}

/// Ordering of two strings as views.
pub open spec fn text_cmp(a: Seq<char>, b: Seq<char>) -> Ordering {
    if text_lt(a, b) {
        Ordering::Less
    } else if text_lt(b, a) {
        Ordering::Greater
    } else {
        Ordering::Equal
    }
}

proof fn lemma_text_after_prefix(a: Seq<char>, b: Seq<char>, i: int)
    requires
        0 <= i <= a.len(),
        i <= b.len(),
        forall|j: int| 0 <= j < i ==> a[j] == b[j],
    ensures
        text_lt(a, b) == text_lt(a.skip(i), b.skip(i)),
    decreases i,
{
    if i == 0 {
        assert(a.skip(0) =~= a);
        assert(b.skip(0) =~= b);
    } else {
        assert(a[0] == b[0]);
        let a1 = a.drop_first();
        let b1 = b.drop_first();
        assert forall|j: int| 0 <= j < i - 1 implies a1[j] == b1[j] by {
            assert(a[j + 1] == b[j + 1]);
        }
        lemma_text_after_prefix(a1, b1, i - 1);
        assert(a1.skip(i - 1) =~= a.skip(i));
        assert(b1.skip(i - 1) =~= b.skip(i));
    }
}

proof fn lemma_text_total(a: Seq<char>, b: Seq<char>)
    ensures
        a == b || text_lt(a, b) || text_lt(b, a),
        !(text_lt(a, b) && text_lt(b, a)),
        !text_lt(a, a),
    decreases a.len(),
{
    if a.len() > 0 && b.len() > 0 && a[0] == b[0] {
        lemma_text_total(a.drop_first(), b.drop_first());
        lemma_text_total(a.drop_first(), a.drop_first());
        if a.drop_first() == b.drop_first() {
            assert(a =~= seq![a[0]] + a.drop_first());
            assert(b =~= seq![b[0]] + b.drop_first());
        }
    } else if a.len() == 0 && b.len() == 0 {
        assert(a =~= b);
    } else if a.len() > 0 {
        lemma_text_total(a.drop_first(), a.drop_first());
    }
}

/// Two clocks with equal counters compare as their owners do.
pub proof fn lemma_equal_counters_compare_by_owner(a: TimestampView, b: TimestampView)
    requires
        a.clock == b.clock,
    ensures
        timestamp_cmp(a, b) == text_cmp(a.owner, b.owner),
{
}

/// A Lamport clock: a logical counter and the replica that owns it.
#[derive(Debug, Clone)]
pub struct Timestamp {
    logical_clock: u64,
    client_id: String,
}

impl View for Timestamp {
    type V = TimestampView;

    closed spec fn view(&self) -> TimestampView {
        TimestampView { clock: self.logical_clock, owner: self.client_id@ }
    }
}

impl Timestamp {
    /// A clock owned by `client_id`, at counter 0.
    pub fn new(client_id: String) -> (r: Self)
        ensures
            r@ == (TimestampView { clock: 0, owner: client_id@ }),
    {
        Timestamp { logical_clock: 0, client_id }
    }

    /// A clock owned by `client_id` at the given counter, as received from
    /// another replica.
    pub fn from_parts(client_id: String, logical_clock: u64) -> (r: Self)
        ensures
            r@ == (TimestampView { clock: logical_clock, owner: client_id@ }),
    {
        Timestamp { logical_clock, client_id }
    }

    /// The counter.
    pub fn logical_clock(&self) -> (r: u64)
        ensures
            r == self@.clock,
    {
        self.logical_clock
    }

    /// The owner.
    pub fn client_id(&self) -> (r: &str)
        ensures
            r@ == self@.owner,
    {
        self.client_id.as_str()
    }

    /// Advances the counter by one.
    pub fn increment(&mut self)
        requires
            old(self)@.clock < u64::MAX,
        ensures
            final(self)@ == (TimestampView { clock: (old(self)@.clock + 1) as u64, ..old(self)@ }),
    {
        self.logical_clock = self.logical_clock + 1;
    }

    /// Catches the counter up with another clock: it becomes the larger of
    /// the two counters, and the owner stays.
    pub fn update(&mut self, other: &Timestamp)
        ensures
            final(self)@.clock == if old(self)@.clock >= other@.clock {
                old(self)@.clock
            } else {
                other@.clock
            },
            final(self)@.owner == old(self)@.owner,
    {
        if other.logical_clock > self.logical_clock {
            self.logical_clock = other.logical_clock;
        }
    }

    /// Compares two strings character by character.
    fn compare_text(a: &str, b: &str) -> (r: Ordering)
        ensures
            r == text_cmp(a@, b@),
    {
        let la = a.unicode_len();
        let lb = b.unicode_len();
        let mut i: usize = 0;
        while i < la && i < lb && a.get_char(i) == b.get_char(i)
            invariant
                la == a@.len(),
                lb == b@.len(),
                i <= la,
                i <= lb,
                forall|j: int| 0 <= j < i ==> a@[j] == b@[j],
            decreases la - i,
        {
            i = i + 1;
        }
        proof {
            lemma_text_after_prefix(a@, b@, i as int);
            lemma_text_after_prefix(b@, a@, i as int);
            lemma_text_total(a@, b@);
        }
        if i < la && i < lb {
            let ca = a.get_char(i);
            let cb = b.get_char(i);
            assert(a@.skip(i as int)[0] == ca);
            assert(b@.skip(i as int)[0] == cb);
            if ca < cb {
                Ordering::Less
            } else {
                Ordering::Greater
            }
        } else if i < lb {
            Ordering::Less
        } else if i < la {
            Ordering::Greater
        } else {
            assert(a@ =~= b@);
            Ordering::Equal
        }
    }
}

impl PartialEq for Timestamp {
    fn eq(&self, other: &Timestamp) -> (r: bool)
        ensures
            r == (self@ == other@),
    {
        self.logical_clock == other.logical_clock && self.client_id == other.client_id
    }
}

impl vstd::std_specs::cmp::PartialEqSpecImpl for Timestamp {
    open spec fn obeys_eq_spec() -> bool {
        true
    }

    open spec fn eq_spec(&self, other: &Timestamp) -> bool {
        self@ == other@
    }
}

impl Eq for Timestamp {

}

impl PartialOrd for Timestamp {
    fn partial_cmp(&self, other: &Timestamp) -> (r: Option<Ordering>)
        ensures
            r == Some(timestamp_cmp(self@, other@)),
    {
        if self.logical_clock < other.logical_clock {
            Some(Ordering::Less)
        } else if self.logical_clock > other.logical_clock {
            Some(Ordering::Greater)
        } else {
            Some(Self::compare_text(self.client_id.as_str(), other.client_id.as_str()))
        }
    }
}

impl vstd::std_specs::cmp::PartialOrdSpecImpl for Timestamp {
    open spec fn obeys_partial_cmp_spec() -> bool {
        true
    }

    open spec fn partial_cmp_spec(&self, other: &Timestamp) -> Option<Ordering> {
        Some(timestamp_cmp(self@, other@))
    }
}

} // verus!
