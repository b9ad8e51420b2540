use crate::crdt::operation::Operation;
use crate::crdt::position::{
    Position,
    PositionView,
    position_lt,
    lemma_position_total,
    lemma_position_transitive,
};
use vstd::prelude::*;

verus! {

/// Mathematical value of one stored character.
pub struct SlotView {
    pub value: char,
    pub position: PositionView,
    pub tombstone: bool,
}

/// Mathematical value of a document.
pub struct DocumentView {
    pub id: Seq<char>,
    pub slots: Seq<SlotView>,
    pub log: Seq<Operation>,
    pub gc_threshold: Option<usize>,
    pub tombstone_count: nat,
}

/// The visible text: the values of the slots that are not tombstoned, in
/// stored order.
pub open spec fn visible_text(s: Seq<SlotView>) -> Seq<char>
    decreases s.len(),
{
    if s.len() == 0 {
        Seq::empty()
    } else if s.last().tombstone {
        visible_text(s.drop_last())
    } else {
        visible_text(s.drop_last()).push(s.last().value)
    }
}

/// The slots that are not tombstoned, in stored order.
pub open spec fn live_slots(s: Seq<SlotView>) -> Seq<SlotView>
    decreases s.len(),
{
    if s.len() == 0 {
        Seq::empty()
    } else if s.last().tombstone {
        live_slots(s.drop_last())
    } else {
        live_slots(s.drop_last()).push(s.last())
    }
}

/// Number of tombstoned slots.
pub open spec fn tombstones(s: Seq<SlotView>) -> nat
    decreases s.len(),
{
    if s.len() == 0 {
        0
    } else {
        tombstones(s.drop_last()) + if s.last().tombstone {
            1nat
        } else {
            0nat
        }
    }
}

/// Slots ascend by position (equal positions may sit side by side).
pub open spec fn sorted(s: Seq<SlotView>) -> bool {
    forall|i: int, j: int|
        0 <= i < j < s.len() ==> !position_lt(#[trigger] s[j].position, #[trigger] s[i].position)
}

/// Index of the first slot whose position is above `p`, or the number of
/// slots if there is none.
pub open spec fn insert_index(s: Seq<SlotView>, p: PositionView) -> nat
    decreases s.len(),
{
    if s.len() == 0 {
        0
    } else if position_lt(p, s[0].position) {
        0
    } else {
        1 + insert_index(s.drop_first(), p)
    }
}

/// Index of the first slot at position `p`, if there is one.
pub open spec fn slot_index(s: Seq<SlotView>, p: PositionView) -> Option<nat>
    decreases s.len(),
{
    if s.len() == 0 {
        None
    } else if s[0].position == p {
        Some(0)
    } else {
        match slot_index(s.drop_first(), p) {
            Some(j) => Some(j + 1),
            None => None,
        }
    }
}

/// The document after garbage collection: tombstoned slots are gone and the
/// tombstone count is reset; the log is untouched.
pub open spec fn collected(d: DocumentView) -> DocumentView {
    DocumentView { slots: live_slots(d.slots), tombstone_count: 0, ..d }
}

/// The document after an operation is applied, before it is logged.
pub open spec fn applied_state(d: DocumentView, op: Operation) -> DocumentView {
    match op {
        Operation::Insert { character, position, .. } => DocumentView {
            slots: d.slots.insert(
                insert_index(d.slots, position@) as int,
                SlotView { value: character, position: position@, tombstone: false },
            ),
            ..d
        },
        Operation::Delete { position, .. } => match slot_index(d.slots, position@) {
            Some(j) => if d.slots[j as int].tombstone {
                d
            } else {
                let marked = DocumentView {
                    slots: d.slots.update(
                        j as int,
                        SlotView { tombstone: true, ..d.slots[j as int] },
                    ),
                    tombstone_count: d.tombstone_count + 1,
                    ..d
                };
                match d.gc_threshold {
                    Some(t) => if marked.tombstone_count >= t {
                        collected(marked)
                    } else {
                        marked
                    },
                    None => marked,
                }
            },
            None => d,
        },
    }
}

/// The document after an operation is applied and appended to the log.
pub open spec fn applied(d: DocumentView, op: Operation) -> DocumentView {
    DocumentView { log: d.log.push(op), ..applied_state(d, op) }
}

proof fn lemma_tombstones_insert(s: Seq<SlotView>, i: int, x: SlotView)
    requires
        0 <= i <= s.len(),
        !x.tombstone,
    ensures
        tombstones(s.insert(i, x)) == tombstones(s),
    decreases s.len(),
{
    if i == s.len() {
        assert(s.insert(i, x).drop_last() =~= s);
    } else {
        lemma_tombstones_insert(s.drop_last(), i, x);
        assert(s.insert(i, x).drop_last() =~= s.drop_last().insert(i, x));
    }
}

proof fn lemma_tombstones_mark(s: Seq<SlotView>, j: int, x: SlotView)
    requires
        0 <= j < s.len(),
        !s[j].tombstone,
        x.tombstone,
    ensures
        tombstones(s.update(j, x)) == tombstones(s) + 1,
    decreases s.len(),
{
    if j == s.len() - 1 {
        assert(s.update(j, x).drop_last() =~= s.drop_last());
    } else {
        lemma_tombstones_mark(s.drop_last(), j, x);
        assert(s.update(j, x).drop_last() =~= s.drop_last().update(j, x));
    }
}

proof fn lemma_tombstones_bound(s: Seq<SlotView>, j: int)
    requires
        0 <= j < s.len(),
        !s[j].tombstone,
    ensures
        tombstones(s) < s.len(),
    decreases s.len(),
{
    lemma_tombstones_at_most(s.drop_last());
    if j < s.len() - 1 {
        lemma_tombstones_bound(s.drop_last(), j);
    }
}

proof fn lemma_tombstones_at_most(s: Seq<SlotView>)
    ensures
        tombstones(s) <= s.len(),
    decreases s.len(),
{
    if s.len() > 0 {
        lemma_tombstones_at_most(s.drop_last());
    }
}

proof fn lemma_live_slots(s: Seq<SlotView>)
    ensures
        tombstones(live_slots(s)) == 0,
        visible_text(live_slots(s)) == visible_text(s),
        live_slots(s).len() <= s.len(),
        forall|k: int|
            0 <= k < live_slots(s).len() ==> s.contains(#[trigger] live_slots(s)[k])
                && !live_slots(s)[k].tombstone,
    decreases s.len(),
{
    if s.len() > 0 {
        let d = s.drop_last();
        lemma_live_slots(d);
        assert forall|k: int| 0 <= k < live_slots(s).len() implies s.contains(
            #[trigger] live_slots(s)[k],
        ) && !live_slots(s)[k].tombstone by {
            if k < live_slots(d).len() {
                assert(live_slots(s)[k] == live_slots(d)[k]);
                let w = choose|w: int| 0 <= w < d.len() && d[w] == live_slots(d)[k];
                assert(s[w] == live_slots(s)[k]);
            } else {
                assert(s[s.len() - 1] == live_slots(s)[k]);
            }
        }
        if !s.last().tombstone {
            assert(live_slots(s).drop_last() =~= live_slots(d));
        }
    }
}

proof fn lemma_live_sorted(s: Seq<SlotView>)
    requires
        sorted(s),
    ensures
        sorted(live_slots(s)),
    decreases s.len(),
{
    if s.len() > 0 {
        let d = s.drop_last();
        assert(sorted(d));
        lemma_live_sorted(d);
        lemma_live_slots(d);
        if !s.last().tombstone {
            let l = live_slots(s);
            assert forall|i: int, j: int| 0 <= i < j < l.len() implies !position_lt(
                #[trigger] l[j].position,
                #[trigger] l[i].position,
            ) by {
                if j == l.len() - 1 {
                    assert(l[i] == live_slots(d)[i]);
                    assert(d.contains(live_slots(d)[i]));
                    let w = choose|w: int| 0 <= w < d.len() && d[w] == live_slots(d)[i];
                    assert(s[w] == l[i]);
                    assert(l[j] == s[s.len() - 1]);
                } else {
                    assert(l[i] == live_slots(d)[i]);
                    assert(l[j] == live_slots(d)[j]);
                }
            }
        }
    }
}

/// Garbage collection keeps the visible text.
pub proof fn lemma_collect_keeps_content(d: DocumentView)
    ensures
        visible_text(collected(d).slots) == visible_text(d.slots),
        collected(d).log == d.log,
{
    lemma_live_slots(d.slots);
}

/// No two slots share a position.
pub open spec fn distinct_positions(s: Seq<SlotView>) -> bool {
    forall|i: int, j: int|
        0 <= i < s.len() && 0 <= j < s.len() && i != j ==> #[trigger] s[i].position
            != #[trigger] s[j].position
}

proof fn lemma_slot_index(s: Seq<SlotView>, p: PositionView)
    ensures
        match slot_index(s, p) {
            Some(j) => j < s.len() && s[j as int].position == p,
            None => forall|k: int| 0 <= k < s.len() ==> #[trigger] s[k].position != p,
        },
    decreases s.len(),
{
    if s.len() > 0 && s[0].position != p {
        lemma_slot_index(s.drop_first(), p);
        if slot_index(s, p) is None {
            assert forall|k: int| 0 <= k < s.len() implies #[trigger] s[k].position != p by {
                if k > 0 {
                    assert(s[k] == s.drop_first()[k - 1]);
                }
            }
        }
    }
}

proof fn lemma_slot_index_same_positions(s: Seq<SlotView>, t: Seq<SlotView>, p: PositionView)
    requires
        s.len() == t.len(),
        forall|k: int| 0 <= k < s.len() ==> #[trigger] s[k].position == t[k].position,
    ensures
        slot_index(s, p) == slot_index(t, p),
    decreases s.len(),
{
    if s.len() > 0 {
        lemma_slot_index_same_positions(s.drop_first(), t.drop_first(), p);
    }
}

/// Delivering the same delete a second time changes nothing but the log,
/// provided no two slots share a position.
pub proof fn lemma_delete_idempotent(d: DocumentView, op: Operation)
    requires
        op is Delete,
        distinct_positions(d.slots),
    ensures
        applied(applied(d, op), op) == (DocumentView {
            log: applied(d, op).log.push(op),
            ..applied(d, op)
        }),
{
    let p = op.position_view();
    lemma_slot_index(d.slots, p);
    if let Some(j) = slot_index(d.slots, p) {
        if !d.slots[j as int].tombstone {
            let x = SlotView { tombstone: true, ..d.slots[j as int] };
            let m = d.slots.update(j as int, x);
            lemma_slot_index_same_positions(d.slots, m, p);
            let e = applied(d, op);
            if e.slots != m {
                lemma_live_slots(m);
                lemma_slot_index(e.slots, p);
                if let Some(w) = slot_index(e.slots, p) {
                    let y = e.slots[w as int];
                    assert(m.contains(y));
                    let v = choose|v: int| 0 <= v < m.len() && m[v] == y;
                    assert(d.slots[v].position == p);
                    assert(v == j);
                    assert(false);
                }
            }
        }
    }
}

/// A delete that tombstones a live slot collects garbage exactly when the
/// tombstone count it produces reaches the threshold; before that, every
/// slot stays and the count grows by one.
pub proof fn lemma_automatic_collection(d: DocumentView, op: Operation, t: usize)
    requires
        op is Delete,
        d.gc_threshold == Some(t),
        d.tombstone_count == tombstones(d.slots),
        slot_index(d.slots, op.position_view()) matches Some(j) && !d.slots[j as int].tombstone,
    ensures
        d.tombstone_count + 1 >= t ==> applied(d, op).tombstone_count == 0 && tombstones(
            applied(d, op).slots,
        ) == 0,
        d.tombstone_count + 1 < t ==> applied(d, op).tombstone_count == d.tombstone_count + 1
            && applied(d, op).slots.len() == d.slots.len(),
{
    let j = slot_index(d.slots, op.position_view())->Some_0;
    lemma_slot_index(d.slots, op.position_view());
    let m = d.slots.update(j as int, SlotView { tombstone: true, ..d.slots[j as int] });
    lemma_live_slots(m);
}

/// Inserting a slot where its position belongs.
pub open spec fn insert_slot(s: Seq<SlotView>, x: SlotView) -> Seq<SlotView> {
    s.insert(insert_index(s, x.position) as int, x)
}

proof fn lemma_insert_slot_unfold(s: Seq<SlotView>, x: SlotView)
    requires
        s.len() > 0,
    ensures
        position_lt(x.position, s[0].position) ==> insert_slot(s, x) == seq![x] + s,
        !position_lt(x.position, s[0].position) ==> insert_slot(s, x) == seq![s[0]] + insert_slot(
            s.drop_first(),
            x,
        ),
{
    if position_lt(x.position, s[0].position) {
        assert(insert_slot(s, x) =~= seq![x] + s);
    } else {
        let k = insert_index(s.drop_first(), x.position);
        lemma_insert_index_bound(s.drop_first(), x.position);
        assert(insert_index(s, x.position) == k + 1);
        assert(s.insert(k + 1 as int, x) =~= seq![s[0]] + s.drop_first().insert(k as int, x));
    }
}

proof fn lemma_insert_index_bound(s: Seq<SlotView>, p: PositionView)
    ensures
        insert_index(s, p) <= s.len(),
    decreases s.len(),
{
    if s.len() > 0 {
        lemma_insert_index_bound(s.drop_first(), p);
    }
}

proof fn lemma_insert_slots_commute(s: Seq<SlotView>, a: SlotView, b: SlotView)
    requires
        position_lt(a.position, b.position),
    ensures
        insert_slot(insert_slot(s, a), b) == insert_slot(insert_slot(s, b), a),
    decreases s.len(),
{
    lemma_position_total(a.position, b.position);
    if s.len() == 0 {
        let sa = insert_slot(s, a);
        let sb = insert_slot(s, b);
        assert(sa =~= seq![a]);
        assert(sb =~= seq![b]);
        lemma_insert_slot_unfold(sa, b);
        lemma_insert_slot_unfold(sb, a);
        assert(sa.drop_first() =~= Seq::<SlotView>::empty());
        assert(insert_slot(Seq::<SlotView>::empty(), b) =~= seq![b]);
        assert(insert_slot(insert_slot(s, a), b) =~= seq![a, b]);
        assert(insert_slot(insert_slot(s, b), a) =~= seq![a, b]);
    } else {
        let s0 = s[0];
        let rest = s.drop_first();
        lemma_insert_slot_unfold(s, a);
        lemma_insert_slot_unfold(s, b);
        let sa = insert_slot(s, a);
        let sb = insert_slot(s, b);
        lemma_insert_slot_unfold(sa, b);
        lemma_insert_slot_unfold(sb, a);
        let la = position_lt(a.position, s0.position);
        let lb = position_lt(b.position, s0.position);
        if la && lb {
            assert(sa.drop_first() =~= s);
            assert(sb.drop_first() =~= s);
            assert(insert_slot(sa, b) =~= seq![a, b] + s);
            assert(insert_slot(sb, a) =~= seq![a, b] + s);
        } else if la && !lb {
            assert(sa.drop_first() =~= s);
            assert(insert_slot(sa, b) =~= seq![a] + (seq![s0] + insert_slot(rest, b)));
            assert(insert_slot(sb, a) =~= seq![a] + (seq![s0] + insert_slot(rest, b)));
        } else if !la && lb {
            lemma_position_transitive(a.position, b.position, s0.position);
        } else {
            lemma_insert_slots_commute(rest, a, b);
            assert(sa.drop_first() =~= insert_slot(rest, a));
            assert(sb.drop_first() =~= insert_slot(rest, b));
            assert(insert_slot(sa, b) =~= seq![s0] + insert_slot(insert_slot(rest, a), b));
            assert(insert_slot(sb, a) =~= seq![s0] + insert_slot(insert_slot(rest, b), a));
        }
    }
}

/// Two inserts at different positions commute: whichever arrives first,
/// the replica ends with the same characters and the same text.
pub proof fn lemma_inserts_commute(d: DocumentView, a: Operation, b: Operation)
    requires
        a is Insert,
        b is Insert,
        position_lt(a.position_view(), b.position_view()) || position_lt(
            b.position_view(),
            a.position_view(),
        ),
    ensures
        applied(applied(d, a), b).slots == applied(applied(d, b), a).slots,
        visible_text(applied(applied(d, a), b).slots) == visible_text(
            applied(applied(d, b), a).slots,
        ),
{
    let (x, y) = match (a, b) {
        (
            Operation::Insert { character: ca, position: pa, .. },
            Operation::Insert { character: cb, position: pb, .. },
        ) => (
            SlotView { value: ca, position: pa@, tombstone: false },
            SlotView { value: cb, position: pb@, tombstone: false },
        ),
        _ => arbitrary(),
    };
    assert(applied(d, a).slots == insert_slot(d.slots, x));
    assert(applied(d, b).slots == insert_slot(d.slots, y));
    assert(applied(applied(d, a), b).slots == insert_slot(insert_slot(d.slots, x), y));
    assert(applied(applied(d, b), a).slots == insert_slot(insert_slot(d.slots, y), x));
    if position_lt(x.position, y.position) {
        lemma_insert_slots_commute(d.slots, x, y);
    } else {
        lemma_insert_slots_commute(d.slots, y, x);
    }
}

/// Relies on `String::push`: appends one character to the string.
#[verifier::external_body]
fn push_char(s: &mut String, c: char)
    ensures
        final(s)@ == old(s)@.push(c),
{
    s.push(c);
}

/// One stored character: its value, its position, and whether it has been
/// deleted.
#[derive(Debug, Clone)]
struct Character {
    value: char,
    position: Position,
    deleted: bool,
}

impl View for Character {
    type V = SlotView;

    closed spec fn view(&self) -> SlotView {
        SlotView { value: self.value, position: self.position@, tombstone: self.deleted }
    }
}

/// A replicated text document: characters ordered by position, deleted
/// ones kept as tombstones until garbage collection, and the log of every
/// operation received.
#[derive(Debug, Clone)]
pub struct Document {
    id: String,
    characters: Vec<Character>,
    operations: Vec<Operation>,
    garbage_collection_threshold: Option<usize>,
    deleted_count: usize,
}

impl View for Document {
    type V = DocumentView;

    closed spec fn view(&self) -> DocumentView {
        DocumentView {
            id: self.id@,
            slots: self.characters@.map_values(|c: Character| c@),
            log: self.operations@,
            gc_threshold: self.garbage_collection_threshold,
            tombstone_count: self.deleted_count as nat,
        }
    }
}

impl Document {
    /// The document's invariant: slots ascend by position, and the tombstone
    /// count is the number of tombstoned slots.
    pub open spec fn wf(&self) -> bool {
        &&& sorted(self@.slots)
        &&& self@.tombstone_count == tombstones(self@.slots)
    }

    /// An empty document with no automatic garbage collection.
    pub fn new(id: String) -> (r: Self)
        ensures
            r.wf(),
            r@ == (DocumentView {
                id: id@,
                slots: Seq::empty(),
                log: Seq::empty(),
                gc_threshold: None,
                tombstone_count: 0,
            }),
    {
        let r = Document {
            id,
            characters: Vec::new(),
            operations: Vec::new(),
            garbage_collection_threshold: None,
            deleted_count: 0,
        };
        assert(r@.slots =~= Seq::empty());
        r
    }

    /// The document's identifier.
    pub fn id(&self) -> (r: &str)
        ensures
            r@ == self@.id,
    {
        self.id.as_str()
    }

    /// The visible text.
    pub fn content(&self) -> (r: String)
        ensures
            r@ == visible_text(self@.slots),
    {
        let mut text = String::new();
        let mut i: usize = 0;
        while i < self.characters.len()
            invariant
                i <= self.characters.len(),
                text@ == visible_text(self@.slots.take(i as int)),
            decreases self.characters.len() - i,
        {
            assert(self@.slots.take(i + 1).drop_last() =~= self@.slots.take(i as int));
            if !self.characters[i].deleted {
                push_char(&mut text, self.characters[i].value);
            }
            i = i + 1;
        }
        assert(self@.slots.take(i as int) =~= self@.slots);
        text
    }

    /// Every operation applied so far, in order of arrival.
    pub fn operations(&self) -> (r: &[Operation])
        ensures
            r@ == self@.log,
    {
        self.operations.as_slice()
    }

    /// Number of stored characters, tombstones included.
    pub fn character_count(&self) -> (r: usize)
        ensures
            r == self@.slots.len(),
    {
        self.characters.len()
    }

    /// Turns on automatic garbage collection once `threshold` tombstones
    /// have accumulated.
    pub fn set_garbage_collection_threshold(&mut self, threshold: usize)
        requires
            old(self).wf(),
        ensures
            final(self).wf(),
            final(self)@ == (DocumentView { gc_threshold: Some(threshold), ..old(self)@ }),
    {
        self.garbage_collection_threshold = Some(threshold);
    }

    /// Removes every tombstoned character and resets the tombstone count.
    pub fn collect_garbage(&mut self)
        requires
            old(self).wf(),
        ensures
            final(self).wf(),
            final(self)@ == collected(old(self)@),
    {
        let ghost orig = self@.slots;
        let ghost mut j: int = 0;
        let mut i: usize = 0;
        assert(orig.take(0) =~= Seq::<SlotView>::empty());
        assert(orig.skip(0) =~= orig);
        assert(self@.slots =~= live_slots(orig.take(0)) + orig.skip(0));
        while i < self.characters.len()
            invariant
                0 <= j <= orig.len(),
                i == live_slots(orig.take(j)).len(),
                self@.slots == live_slots(orig.take(j)) + orig.skip(j),
                self@.id == old(self)@.id,
                self@.log == old(self)@.log,
                self@.gc_threshold == old(self)@.gc_threshold,
            decreases self.characters.len() - i,
        {
            assert(self@.slots[i as int] == orig[j]);
            assert(orig.take(j + 1).drop_last() =~= orig.take(j));
            if self.characters[i].deleted {
                let ghost before = self@.slots;
                self.characters.remove(i);
                assert(self@.slots =~= before.remove(i as int));
                assert(self@.slots =~= live_slots(orig.take(j + 1)) + orig.skip(j + 1));
            } else {
                assert(self@.slots =~= live_slots(orig.take(j + 1)) + orig.skip(j + 1));
                i = i + 1;
            }
            proof {
                j = j + 1;
            }
        }
        proof {
            if j < orig.len() {
                assert(self@.slots.len() > i);
            }
            assert(orig.take(j) =~= orig);
            assert(self@.slots =~= live_slots(orig));
            lemma_live_slots(orig);
            lemma_live_sorted(orig);
        }
        self.deleted_count = 0;
    }

    /// Index of the first character whose position is above `position`, or
    /// the number of characters if there is none.
    fn find_insert_index(&self, position: &Position) -> (r: usize)
        ensures
            r == insert_index(self@.slots, position@),
            r <= self@.slots.len(),
            forall|j: int| 0 <= j < r ==> !position_lt(position@, #[trigger] self@.slots[j].position),
            r < self@.slots.len() ==> position_lt(position@, self@.slots[r as int].position),
    {
        let ghost s = self@.slots;
        let mut i: usize = 0;
        assert(s.skip(0) =~= s);
        while i < self.characters.len()
            invariant
                i <= s.len(),
                s == self@.slots,
                insert_index(s, position@) == i + insert_index(s.skip(i as int), position@),
                forall|j: int| 0 <= j < i ==> !position_lt(position@, #[trigger] s[j].position),
            decreases s.len() - i,
        {
            assert(s.skip(i as int)[0] == s[i as int]);
            if self.characters[i].position > *position {
                proof {
                    lemma_position_total(position@, s[i as int].position);
                }
                return i;
            }
            proof {
                lemma_position_total(position@, s[i as int].position);
            }
            assert(s.skip(i as int).drop_first() =~= s.skip(i + 1));
            i = i + 1;
        }
        i
    }

    /// Index of the first character at `position`, if there is one.
    fn find_character_index(&self, position: &Position) -> (r: Option<usize>)
        ensures
            r matches Some(i) ==> slot_index(self@.slots, position@) == Some(i as nat) && i
                < self@.slots.len() && self@.slots[i as int].position == position@,
            r is None ==> slot_index(self@.slots, position@) is None,
    {
        let ghost s = self@.slots;
        let mut i: usize = 0;
        assert(s.skip(0) =~= s);
        while i < self.characters.len()
            invariant
                i <= s.len(),
                s == self@.slots,
                slot_index(s, position@) == match slot_index(s.skip(i as int), position@) {
                    Some(k) => Some((k + i) as nat),
                    None => None::<nat>,
                },
            decreases s.len() - i,
        {
            assert(s.skip(i as int)[0] == s[i as int]);
            if self.characters[i].position == *position {
                return Some(i);
            }
            assert(s.skip(i as int).drop_first() =~= s.skip(i + 1));
            i = i + 1;
        }
        None
    }

    /// Applies an operation and appends it to the log. An insert places the
    /// character before the first one with a greater position. A delete
    /// tombstones the first character at its position if it is not
    /// tombstoned yet, and then collects garbage if the threshold is reached;
    /// otherwise it changes nothing.
    pub fn apply(&mut self, operation: Operation)
        requires
            old(self).wf(),
        ensures
            final(self).wf(),
            final(self)@ == applied(old(self)@, operation),
    {
        let ghost d = self@;
        match &operation {
            Operation::Insert { character, position, .. } => {
                let index = self.find_insert_index(position);
                let ghost x = SlotView { value: *character, position: position@, tombstone: false };
                self.characters.insert(
                    index,
                    Character { value: *character, position: position.duplicate(), deleted: false },
                );
                proof {
                    let s = d.slots;
                    let t = s.insert(index as int, x);
                    assert(self@.slots =~= t);
                    lemma_tombstones_insert(s, index as int, x);
                    assert forall|a: int, b: int| 0 <= a < b < t.len() implies !position_lt(
                        #[trigger] t[b].position,
                        #[trigger] t[a].position,
                    ) by {
                        if a < index && b == index {
                        } else if a == index && b > index {
                            lemma_position_total(x.position, s[index as int].position);
                            if b - 1 > index {
                                if position_lt(t[b].position, x.position) {
                                    lemma_position_transitive(
                                        t[b].position,
                                        x.position,
                                        s[index as int].position,
                                    );
                                }
                            }
                        } else if a < index && b > index {
                            assert(t[a] == s[a]);
                            assert(t[b] == s[b - 1]);
                        } else if a > index {
                            assert(t[a] == s[a - 1]);
                            assert(t[b] == s[b - 1]);
                        }
                    }
                }
            },
            Operation::Delete { position, .. } => {
                if let Some(index) = self.find_character_index(position) {
                    if !self.characters[index].deleted {
                        let ghost s = d.slots;
                        let ghost x = SlotView { tombstone: true, ..s[index as int] };
                        proof {
                            lemma_tombstones_bound(s, index as int);
                            lemma_tombstones_mark(s, index as int, x);
                        }
                        let len = self.characters.len();
                        assert(self.deleted_count < len);
                        self.characters[index].deleted = true;
                        self.deleted_count = self.deleted_count + 1;
                        proof {
                            assert(self@.slots =~= s.update(index as int, x));
                            let t = self@.slots;
                            assert forall|a: int, b: int| 0 <= a < b < t.len() implies !position_lt(
                                #[trigger] t[b].position,
                                #[trigger] t[a].position,
                            ) by {
                                assert(t[a].position == s[a].position);
                                assert(t[b].position == s[b].position);
                            }
                        }
                        if let Some(threshold) = self.garbage_collection_threshold {
                            if self.deleted_count >= threshold {
                                self.collect_garbage();
                            }
                        }
                    }
                }
            },
        }
        self.operations.push(operation);
    }
}

} // verus!
