use vstd::prelude::*;

verus! {

/// One move out of one of the mover's six houses, numbered 0 to 5.
pub type SubAction = u8;

/// The most sub-moves one `Action` can hold.
pub const MAX_LEN: u64 = 19;

/// Bit position of the length field.
pub const LEN_OFFSET: u64 = 57;

/// The bits that hold the elements (everything below the length field).
pub const VEC_MASK: u64 = 0x1ffffffffffffff;

/// Width in bits of one element.
pub const VEC_EL_BITWIDTH: u64 = 3;

/// A turn: an ordered list of sub-moves packed into one word.
///
/// The top seven bits hold the length `n`; element slots of three bits each
/// sit below it. Slot 0 (the lowest bits) holds the sub-move appended last,
/// slot `n - 1` the one appended first. All bits of the element area above
/// slot `n - 1` are zero, so two well-formed values are equal exactly when
/// they hold the same list.
#[derive(Debug, Eq, PartialEq, Hash, Copy, Clone)]
pub struct Action(pub u64);

/// The three-bit element stored in slot `k` of the word `v`.
pub open spec fn slot(v: u64, k: int) -> int {
    ((v >> ((3 * k) as u64)) & 7u64) as int
}

/// The length field of the word `v`.
pub open spec fn len_field(v: u64) -> int {
    (v >> 57u64) as int
}

/// The sub-moves held by `v`, oldest first.
pub open spec fn packed_items(v: u64) -> Seq<int> {
    Seq::new(len_field(v) as nat, |i: int| slot(v, len_field(v) - 1 - i))
}

/// A word is well formed when its length fits and no element bits stand
/// above the last occupied slot.
pub open spec fn packed_wf(v: u64) -> bool {
    &&& len_field(v) <= MAX_LEN
    &&& (v & 0x1ffffffffffffffu64) >> ((3 * len_field(v)) as u64) == 0
}

/// A double-ended queue of sub-moves of bounded length.
pub trait ActionQueue: Sized {
    /// The sub-moves held, in the order they were appended.
    spec fn items(&self) -> Seq<int>;

    /// Whether the internal representation is consistent.
    spec fn wf(&self) -> bool;

    /// Appends `action` as the newest element.
    fn push_front(&mut self, action: SubAction)
        requires
            old(self).wf(),
            old(self).items().len() < MAX_LEN,
            action <= 5,
        ensures
            final(self).wf(),
            final(self).items() == old(self).items().push(action as int),
    ;

    /// Removes and returns the oldest element.
    fn pop_front(&mut self) -> (r: SubAction)
        requires
            old(self).wf(),
            old(self).items().len() > 0,
        ensures
            final(self).wf(),
            r as int == old(self).items()[0],
            final(self).items() == old(self).items().drop_first(),
    ;

    /// Removes and returns the newest element.
    fn pop_back(&mut self) -> (r: SubAction)
        requires
            old(self).wf(),
            old(self).items().len() > 0,
        ensures
            final(self).wf(),
            r as int == old(self).items().last(),
            final(self).items() == old(self).items().drop_last(),
    ;

    fn is_empty(&self) -> (r: bool)
        requires
            self.wf(),
        ensures
            r == (self.items().len() == 0),
    ;

    fn length(&self) -> (r: u32)
        requires
            self.wf(),
        ensures
            r as int == self.items().len(),
    ;

    fn new() -> (r: Self)
        ensures
            r.wf(),
            r.items() == Seq::<int>::empty(),
    ;

    fn singleton(subaction: u8) -> (r: Self)
        requires
            subaction <= 5,
        ensures
            r.wf(),
            r.items() == seq![subaction as int],
    ;
}

/// The list after appending each of `xs` in turn to `items`.
pub open spec fn after_pushes(items: Seq<int>, xs: Seq<int>) -> Seq<int>
    decreases xs.len(),
{
    if xs.len() == 0 {
        items
    } else {
        after_pushes(items.push(xs[0]), xs.drop_first())
    }
}

/// The values that `n` removals from the front of `items` hand back, in order.
pub open spec fn front_pops(items: Seq<int>, n: nat) -> Seq<int>
    decreases n,
{
    if n == 0 || items.len() == 0 {
        Seq::empty()
    } else {
        seq![items[0]] + front_pops(items.drop_first(), (n - 1) as nat)
    }
}

proof fn lemma_after_pushes(items: Seq<int>, xs: Seq<int>)
    ensures
        after_pushes(items, xs) == items + xs,
    decreases xs.len(),
{
    if xs.len() > 0 {
        lemma_after_pushes(items.push(xs[0]), xs.drop_first());
        assert(items.push(xs[0]) + xs.drop_first() =~= items + xs);
    } else {
        assert(items + xs =~= items);
    }
}

proof fn lemma_front_pops_all(items: Seq<int>)
    ensures
        front_pops(items, items.len()) == items,
    decreases items.len(),
{
    if items.len() > 0 {
        lemma_front_pops_all(items.drop_first());
        assert(seq![items[0]] + items.drop_first() =~= items);
    }
}

/// Sub-moves appended one by one to an empty list come back from the front
/// in the order they went in.
pub proof fn lemma_round_trip(xs: Seq<int>)
    ensures
        after_pushes(Seq::empty(), xs) == xs,
        front_pops(after_pushes(Seq::empty(), xs), xs.len()) == xs,
{
    lemma_after_pushes(Seq::empty(), xs);
    assert(Seq::<int>::empty() + xs =~= xs);
    lemma_front_pops_all(xs);
}

proof fn lemma_push_bits(v: u64, a: u64, n: u64, w: u64)
    by (bit_vector)
    requires
        v >> 57u64 == n,
        n < 19u64,
        (v & 0x1ffffffffffffffu64) >> ((3u64 * n) as u64) == 0u64,
        a < 8u64,
        w == ((v & 0x1ffffffffffffffu64) << 3u64) | a | (((n + 1u64) as u64) << 57u64),
    ensures
        w >> 57u64 == (n + 1u64) as u64,
        (w & 0x1ffffffffffffffu64) >> ((3u64 * ((n + 1u64) as u64)) as u64) == 0u64,
        w & 7u64 == a,
{
}

proof fn lemma_push_slot(v: u64, a: u64, n: u64, w: u64, k: u64)
    by (bit_vector)
    requires
        k < n,
        n < 19u64,
        a < 8u64,
        w == ((v & 0x1ffffffffffffffu64) << 3u64) | a | (((n + 1u64) as u64) << 57u64),
    ensures
        (w >> ((3u64 * ((k + 1u64) as u64)) as u64)) & 7u64 == (v >> ((3u64 * k) as u64)) & 7u64,
{
}

proof fn lemma_pop_back_bits(v: u64, n: u64, w: u64)
    by (bit_vector)
    requires
        v >> 57u64 == n,
        1u64 <= n,
        n <= 19u64,
        (v & 0x1ffffffffffffffu64) >> ((3u64 * n) as u64) == 0u64,
        w == ((v & 0x1ffffffffffffffu64) >> 3u64) | (((n - 1u64) as u64) << 57u64),
    ensures
        w >> 57u64 == (n - 1u64) as u64,
        (w & 0x1ffffffffffffffu64) >> ((3u64 * ((n - 1u64) as u64)) as u64) == 0u64,
{
}

proof fn lemma_pop_back_slot(v: u64, n: u64, w: u64, k: u64)
    by (bit_vector)
    requires
        1u64 <= n,
        n <= 19u64,
        k + 1u64 < n,
        w == ((v & 0x1ffffffffffffffu64) >> 3u64) | (((n - 1u64) as u64) << 57u64),
    ensures
        (w >> ((3u64 * k) as u64)) & 7u64 == (v >> ((3u64 * ((k + 1u64) as u64)) as u64)) & 7u64,
{
}

proof fn lemma_pop_front_bits(v: u64, n: u64, m: u64, w: u64, p: u64)
    by (bit_vector)
    requires
        v >> 57u64 == n,
        1u64 <= n,
        n <= 19u64,
        m == (3u64 * ((n - 1u64) as u64)) as u64,
        w == (v & (((1u64 << m) - 1u64) as u64)) | (((n - 1u64) as u64) << 57u64),
        p == (v & (7u64 << m)) >> m,
    ensures
        w >> 57u64 == (n - 1u64) as u64,
        (w & 0x1ffffffffffffffu64) >> m == 0u64,
        p == (v >> m) & 7u64,
        p < 8u64,
{
}

proof fn lemma_pop_front_slot(v: u64, n: u64, m: u64, w: u64, k: u64)
    by (bit_vector)
    requires
        1u64 <= n,
        n <= 19u64,
        k + 1u64 < n,
        m == (3u64 * ((n - 1u64) as u64)) as u64,
        w == (v & (((1u64 << m) - 1u64) as u64)) | (((n - 1u64) as u64) << 57u64),
    ensures
        (w >> ((3u64 * k) as u64)) & 7u64 == (v >> ((3u64 * k) as u64)) & 7u64,
{
}

proof fn lemma_zero_bits(w: u64)
    by (bit_vector)
    requires
        w == 0u64,
    ensures
        w >> 57u64 == 0u64,
        (w & 0x1ffffffffffffffu64) >> 0u64 == 0u64,
{
}

impl ActionQueue for Action {
    open spec fn items(&self) -> Seq<int> {
        packed_items(self.0)
    }

    open spec fn wf(&self) -> bool {
        packed_wf(self.0)
    }

    fn new() -> (r: Action) {
        proof {
            lemma_zero_bits(0u64);
        }
        let r = Action(0);
        assert(r.items() =~= Seq::<int>::empty());
        r
    }

    fn singleton(subaction: u8) -> (r: Action) {
        let mut action = Action::new();
        action.push_front(subaction);
        assert(action.items() =~= seq![subaction as int]);
        action
    }

    fn push_front(&mut self, action: SubAction) {
        let v: u64 = self.0;
        let n: u64 = v >> LEN_OFFSET;
        let a: u64 = action as u64;
        let w: u64 = ((v & VEC_MASK) << VEC_EL_BITWIDTH) | a | ((n + 1) << LEN_OFFSET);
        proof {
            lemma_push_bits(v, a, n, w);
            assert((3u64 * ((n + 1u64) as u64)) as u64 == (3 * len_field(w)) as u64);
            let old_items = packed_items(v);
            assert forall|i: int| 0 <= i < n + 1 implies #[trigger] packed_items(w)[i]
                == old_items.push(a as int)[i] by {
                if i < n {
                    let k = (n - 1 - i) as u64;
                    lemma_push_slot(v, a, n, w, k);
                    assert((3u64 * ((k + 1u64) as u64)) as u64 == (3 * (n - i)) as u64);
                    assert((3u64 * k) as u64 == (3 * (n - 1 - i)) as u64);
                } else {
                    assert(w >> 0u64 == w) by (bit_vector);
                }
            }
            assert(packed_items(w) =~= old_items.push(a as int));
        }
        self.0 = w;
    }

    fn pop_front(&mut self) -> (r: SubAction) {
        let v: u64 = self.0;
        let n: u64 = v >> LEN_OFFSET;
        let m: u64 = (n - 1) * VEC_EL_BITWIDTH;
        let p: u64 = (v & (7u64 << m)) >> m;
        assert(1u64 << m >= 1u64) by (bit_vector)
            requires
                m <= 54u64,
        ;
        let w: u64 = (v & ((1u64 << m) - 1)) | ((n - 1) << LEN_OFFSET);
        proof {
            lemma_pop_front_bits(v, n, m, w, p);
            assert(m == (3 * len_field(w)) as u64);
            let old_items = packed_items(v);
            assert(old_items[0] == p);
            assert forall|i: int| 0 <= i < n - 1 implies #[trigger] packed_items(w)[i]
                == old_items.drop_first()[i] by {
                let k = (n - 2 - i) as u64;
                lemma_pop_front_slot(v, n, m, w, k);
                assert((3u64 * k) as u64 == (3 * (n - 1 - 1 - i)) as u64);
            }
            assert(packed_items(w) =~= old_items.drop_first());
        }
        self.0 = w;
        p as SubAction
    }

    fn pop_back(&mut self) -> (r: SubAction) {
        let v: u64 = self.0;
        let n: u64 = v >> LEN_OFFSET;
        let p: u64 = v & 7;
        assert(p < 8u64) by (bit_vector)
            requires
                p == v & 7u64,
        ;
        let w: u64 = ((v & VEC_MASK) >> VEC_EL_BITWIDTH) | ((n - 1) << LEN_OFFSET);
        proof {
            lemma_pop_back_bits(v, n, w);
            assert((3u64 * ((n - 1u64) as u64)) as u64 == (3 * len_field(w)) as u64);
            let old_items = packed_items(v);
            assert(v >> 0u64 == v) by (bit_vector);
            assert(old_items.last() == p);
            assert forall|i: int| 0 <= i < n - 1 implies #[trigger] packed_items(w)[i]
                == old_items.drop_last()[i] by {
                let k = (n - 2 - i) as u64;
                lemma_pop_back_slot(v, n, w, k);
                assert((3u64 * k) as u64 == (3 * (n - 1 - 1 - i)) as u64);
                assert((3u64 * ((k + 1u64) as u64)) as u64 == (3 * (n - 1 - i)) as u64);
            }
            assert(packed_items(w) =~= old_items.drop_last());
        }
        self.0 = w;
        p as SubAction
    }

    fn length(&self) -> (r: u32) {
        (self.0 >> LEN_OFFSET) as u32
    }

    fn is_empty(&self) -> (r: bool) {
        self.length() == 0
    }
}

} // verus!
