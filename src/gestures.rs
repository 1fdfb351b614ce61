use vstd::prelude::*;

verus! {

/// A position in the input layer's coordinate space, in integer units that the caller
/// picks (whole pixels, or a fixed fraction of one).
#[derive(Clone, Copy, Debug, PartialEq, Eq, Structural)]
pub struct Point {
    pub x: i32,
    pub y: i32,
}

/// A displacement in the input layer's coordinate space.
#[derive(Clone, Copy, Debug, PartialEq, Eq, Structural)]
pub struct Vector {
    pub x: i64,
    pub y: i64,
}

impl Vector {
    pub open spec fn zero() -> Vector {
        Vector { x: 0, y: 0 }
    }

    /// The displacement that leads from `from` to `to`.
    pub open spec fn between(from: Point, to: Point) -> Vector {
        Vector { x: (to.x - from.x) as i64, y: (to.y - from.y) as i64 }
    }
}

/// What is known of one finger that is down.
#[derive(Clone, Copy, Debug, PartialEq, Eq, Structural)]
pub struct FingerState {
    /// Where the finger was last seen.
    pub current: Point,
    /// The displacement of the finger's last move since the drag was last consumed.
    pub motion_vector: Vector,
}

impl FingerState {
    /// A finger that has just touched down at `p`.
    pub open spec fn started(p: Point) -> FingerState {
        FingerState { current: p, motion_vector: Vector::zero() }
    }

    /// This finger after a move to `p`: the move's displacement replaces the pending one.
    pub open spec fn moved(self, p: Point) -> FingerState {
        FingerState { current: p, motion_vector: Vector::between(self.current, p) }
    }

    /// This finger once its pending motion has been consumed.
    pub open spec fn consumed(self) -> FingerState {
        FingerState { current: self.current, motion_vector: Vector::zero() }
    }

    pub fn new(current: Point) -> (r: FingerState)
        ensures
            r == FingerState::started(current),
    {
        FingerState { current, motion_vector: Vector { x: 0, y: 0 } }
    }

    pub fn move_to(&mut self, new: Point)
        ensures
            *final(self) == old(self).moved(new),
    {
        self.motion_vector = Vector {
            x: new.x as i64 - self.current.x as i64,
            y: new.y as i64 - self.current.y as i64,
        };
        self.current = new;
    }

    pub fn motion_vector(&self) -> (r: &Vector)
        ensures
            *r == self.motion_vector,
    {
        &self.motion_vector
    }
}


/// The phase of a touch contact that an event reports.
#[derive(Clone, Copy, Debug, PartialEq, Eq, Structural)]
pub enum TouchPhase {
    Started,
    Moved,
    Ended,
    Cancelled,
}

/// One touch event: finger `id` reached `phase` at `location`.
#[derive(Clone, Copy, Debug, PartialEq, Eq, Structural)]
pub struct Touch {
    pub id: u64,
    pub phase: TouchPhase,
    pub location: Point,
}

/// A table of fingers, one entry per finger id.
pub type Entries = Seq<(u64, FingerState)>;

/// `k` is the id of some entry of `s`.
pub open spec fn has_id(s: Entries, k: u64) -> bool {
    exists|i: int| 0 <= i < s.len() && #[trigger] s[i].0 == k
}

/// No two entries of `s` share an id.
pub open spec fn unique_ids(s: Entries) -> bool {
    forall|i: int, j: int| 0 <= i < s.len() && 0 <= j < s.len() && i != j ==> s[i].0 != s[j].0
}

/// The fingers that `s` holds, keyed by id.
pub open spec fn table(s: Entries) -> Map<u64, FingerState> {
    Map::new(
        |k: u64| has_id(s, k),
        |k: u64| s[choose|i: int| 0 <= i < s.len() && #[trigger] s[i].0 == k].1,
    )
}

/// The fingers `m` after the event `t`.
pub open spec fn step(m: Map<u64, FingerState>, t: Touch) -> Map<u64, FingerState> {
    match t.phase {
        TouchPhase::Started => m.insert(t.id, FingerState::started(t.location)),
        TouchPhase::Moved => if m.contains_key(t.id) {
            m.insert(t.id, m[t.id].moved(t.location))
        } else {
            m
        },
        TouchPhase::Ended | TouchPhase::Cancelled => m.remove(t.id),
    }
}

/// Every entry of `s` with its pending motion consumed.
spec fn consumed(s: Entries) -> Entries {
    s.map_values(|e: (u64, FingerState)| (e.0, e.1.consumed()))
}

/// Sum of the pending horizontal motion over the entries of `s`.
spec fn total_x(s: Entries) -> int
    decreases s.len(),
{
    if s.len() == 0 {
        0
    } else {
        total_x(s.drop_last()) + s.last().1.motion_vector.x
    }
}

/// Sum of the pending vertical motion over the entries of `s`.
spec fn total_y(s: Entries) -> int
    decreases s.len(),
{
    if s.len() == 0 {
        0
    } else {
        total_y(s.drop_last()) + s.last().1.motion_vector.y
    }
}

/// The mean `total / n`, rounded toward zero.
pub open spec fn mean(total: int, n: int) -> int {
    if total >= 0 {
        total / n
    } else {
        -((-total) / n)
    }
}

/// The pending motion of all fingers of `m`, summed.
pub open spec fn motion_total(m: Map<u64, FingerState>) -> (int, int)
    decreases m.len(),
    when m.dom().finite()
{
    if m.len() == 0 {
        (0, 0)
    } else {
        let k = m.dom().choose();
        let rest = motion_total(m.remove(k));
        (rest.0 + m[k].motion_vector.x, rest.1 + m[k].motion_vector.y)
    }
}

/// The drag that the fingers `m` amount to: `(0, 0)` without fingers, else the mean of
/// their pending motion, rounded toward zero.
pub open spec fn drag_of(m: Map<u64, FingerState>) -> (int, int) {
    if m.len() == 0 {
        (0, 0)
    } else {
        (mean(motion_total(m).0, m.len() as int), mean(motion_total(m).1, m.len() as int))
    }
}

proof fn lemma_motion_total_remove(m: Map<u64, FingerState>, k: u64)
    requires
        m.dom().finite(),
        m.contains_key(k),
    ensures
        motion_total(m) == (
            motion_total(m.remove(k)).0 + m[k].motion_vector.x,
            motion_total(m.remove(k)).1 + m[k].motion_vector.y,
        ),
    decreases m.len(),
{
    let j = m.dom().choose();
    if j != k {
        lemma_motion_total_remove(m.remove(j), k);
        lemma_motion_total_remove(m.remove(k), j);
        assert(m.remove(j).remove(k) =~= m.remove(k).remove(j));
    }
}

proof fn lemma_motion_total_consumed(m: Map<u64, FingerState>)
    requires
        m.dom().finite(),
    ensures
        motion_total(m.map_values(|f: FingerState| f.consumed())) == (0int, 0int),
    decreases m.len(),
{
    let c = m.map_values(|f: FingerState| f.consumed());
    assert(c.dom() =~= m.dom());
    if m.len() > 0 {
        let k = m.dom().choose();
        assert(m.contains_key(k));
        let j = c.dom().choose();
        assert(c.remove(j) =~= m.remove(k).map_values(|f: FingerState| f.consumed()));
        lemma_motion_total_consumed(m.remove(j));
    }
}

proof fn lemma_table_get(s: Entries, i: int)
    requires
        unique_ids(s),
        0 <= i < s.len(),
    ensures
        table(s).contains_key(s[i].0),
        table(s)[s[i].0] == s[i].1,
{
    let k = s[i].0;
    assert(has_id(s, k));
    let j = choose|j: int| 0 <= j < s.len() && #[trigger] s[j].0 == k;
    assert(j == i);
}

proof fn lemma_table_update(s: Entries, i: int, f: FingerState)
    requires
        unique_ids(s),
        0 <= i < s.len(),
    ensures
        unique_ids(s.update(i, (s[i].0, f))),
        table(s.update(i, (s[i].0, f))) == table(s).insert(s[i].0, f),
{
    let s2 = s.update(i, (s[i].0, f));
    assert forall|j: int| 0 <= j < s.len() implies s2[j].0 == s[j].0 by {}
    assert forall|k: u64| has_id(s2, k) <==> has_id(s, k) by {
        if has_id(s, k) {
            let j = choose|j: int| 0 <= j < s.len() && #[trigger] s[j].0 == k;
            assert(s2[j].0 == k);
        }
        if has_id(s2, k) {
            let j = choose|j: int| 0 <= j < s2.len() && #[trigger] s2[j].0 == k;
            assert(s[j].0 == k);
        }
    }
    assert forall|k: u64| #[trigger] table(s2).contains_key(k) implies table(s2)[k] == table(
        s,
    ).insert(s[i].0, f)[k] by {
        let j = choose|j: int| 0 <= j < s2.len() && #[trigger] s2[j].0 == k;
        lemma_table_get(s2, j);
        if j != i {
            lemma_table_get(s, j);
        }
    }
    assert(table(s2) =~= table(s).insert(s[i].0, f));
}

proof fn lemma_table_push(s: Entries, k: u64, f: FingerState)
    requires
        unique_ids(s),
        !has_id(s, k),
    ensures
        unique_ids(s.push((k, f))),
        table(s.push((k, f))) == table(s).insert(k, f),
{
    let s2 = s.push((k, f));
    assert forall|i: int, j: int|
        0 <= i < s2.len() && 0 <= j < s2.len() && i != j implies s2[i].0 != s2[j].0 by {
        if i == s.len() as int {
            assert(s[j].0 == s2[j].0);
        } else if j == s.len() as int {
            assert(s[i].0 == s2[i].0);
        }
    }
    assert forall|q: u64| has_id(s2, q) <==> (has_id(s, q) || q == k) by {
        if has_id(s, q) {
            let j = choose|j: int| 0 <= j < s.len() && #[trigger] s[j].0 == q;
            assert(s2[j].0 == q);
        }
        if q == k {
            assert(s2[s.len() as int].0 == q);
        }
        if has_id(s2, q) && q != k {
            let j = choose|j: int| 0 <= j < s2.len() && #[trigger] s2[j].0 == q;
            assert(s[j].0 == q);
        }
    }
    assert forall|q: u64| #[trigger] table(s2).contains_key(q) implies table(s2)[q] == table(
        s,
    ).insert(k, f)[q] by {
        let j = choose|j: int| 0 <= j < s2.len() && #[trigger] s2[j].0 == q;
        lemma_table_get(s2, j);
        if j != s.len() as int {
            lemma_table_get(s, j);
        }
    }
    assert(table(s2) =~= table(s).insert(k, f));
}

proof fn lemma_table_remove(s: Entries, i: int)
    requires
        unique_ids(s),
        0 <= i < s.len(),
    ensures
        unique_ids(s.remove(i)),
        table(s.remove(i)) == table(s).remove(s[i].0),
{
    let s2 = s.remove(i);
    let k = s[i].0;
    assert forall|j: int| 0 <= j < s2.len() implies s2[j] == s[if j < i { j } else { j + 1 }] by {}
    assert forall|q: u64| has_id(s2, q) <==> (has_id(s, q) && q != k) by {
        if has_id(s, q) && q != k {
            let j = choose|j: int| 0 <= j < s.len() && #[trigger] s[j].0 == q;
            let j2 = if j < i { j } else { j - 1 };
            assert(s2[j2].0 == q);
        }
        if has_id(s2, q) {
            let j = choose|j: int| 0 <= j < s2.len() && #[trigger] s2[j].0 == q;
            let j1 = if j < i { j } else { j + 1 };
            assert(s[j1].0 == q);
        }
    }
    assert forall|q: u64| #[trigger] table(s2).contains_key(q) implies table(s2)[q] == table(
        s,
    ).remove(k)[q] by {
        let j = choose|j: int| 0 <= j < s2.len() && #[trigger] s2[j].0 == q;
        lemma_table_get(s2, j);
        lemma_table_get(s, if j < i { j } else { j + 1 });
    }
    assert(table(s2) =~= table(s).remove(k));
}

proof fn lemma_table_consumed(s: Entries)
    requires
        unique_ids(s),
    ensures
        unique_ids(consumed(s)),
        table(consumed(s)) == table(s).map_values(|f: FingerState| f.consumed()),
{
    let s2 = consumed(s);
    assert forall|j: int| 0 <= j < s.len() implies s2[j] == (s[j].0, s[j].1.consumed()) by {}
    assert forall|q: u64| has_id(s2, q) <==> has_id(s, q) by {
        if has_id(s, q) {
            let j = choose|j: int| 0 <= j < s.len() && #[trigger] s[j].0 == q;
            assert(s2[j].0 == q);
        }
        if has_id(s2, q) {
            let j = choose|j: int| 0 <= j < s2.len() && #[trigger] s2[j].0 == q;
            assert(s[j].0 == q);
        }
    }
    assert forall|q: u64| #[trigger] table(s2).contains_key(q) implies table(s2)[q] == table(
        s,
    ).map_values(|f: FingerState| f.consumed())[q] by {
        let j = choose|j: int| 0 <= j < s2.len() && #[trigger] s2[j].0 == q;
        lemma_table_get(s2, j);
        lemma_table_get(s, j);
    }
    assert(table(s2) =~= table(s).map_values(|f: FingerState| f.consumed()));
}

proof fn lemma_totals_step(s: Entries, i: int)
    requires
        0 <= i < s.len(),
    ensures
        total_x(s.take(i + 1)) == total_x(s.take(i)) + s[i].1.motion_vector.x,
        total_y(s.take(i + 1)) == total_y(s.take(i)) + s[i].1.motion_vector.y,
{
    assert(s.take(i + 1).drop_last() =~= s.take(i));
}

/// Rounds `total / n` toward zero.
fn mean_of(total: i128, n: usize) -> (r: i64)
    requires
        n > 0,
        -(n * 0x8000_0000_0000_0000) <= total <= n * 0x7fff_ffff_ffff_ffff,
    ensures
        r == mean(total as int, n as int),
{
    if total >= 0 {
        let q = total as u128 / n as u128;
        assert(q <= 0x7fff_ffff_ffff_ffff) by (nonlinear_arith)
            requires
                q == total as int / n as int,
                0 <= total <= n * 0x7fff_ffff_ffff_ffff,
                n > 0,
        {
            vstd::arithmetic::div_mod::lemma_div_is_ordered(
                total as int,
                n * 0x7fff_ffff_ffff_ffff,
                n as int,
            );
            vstd::arithmetic::div_mod::lemma_div_by_multiple(0x7fff_ffff_ffff_ffff, n as int);
        }
        q as i64
    } else {
        let q = (-total) as u128 / n as u128;
        assert(q <= 0x8000_0000_0000_0000) by (nonlinear_arith)
            requires
                q == (-total) as int / n as int,
                0 < -total <= n * 0x8000_0000_0000_0000,
                n > 0,
        {
            vstd::arithmetic::div_mod::lemma_div_is_ordered(
                -total as int,
                n * 0x8000_0000_0000_0000,
                n as int,
            );
            vstd::arithmetic::div_mod::lemma_div_by_multiple(0x8000_0000_0000_0000, n as int);
        }
        (-(q as i128)) as i64
    }
}

proof fn lemma_table_len(s: Entries)
    requires
        unique_ids(s),
    ensures
        table(s).dom().finite(),
        table(s).len() == s.len(),
{
    let ids = s.map_values(|e: (u64, FingerState)| e.0);
    assert forall|i: int, j: int| 0 <= i < ids.len() && 0 <= j < ids.len() && i != j implies ids[i]
        != ids[j] by {}
    assert(ids.no_duplicates());
    assert forall|q: u64| table(s).dom().contains(q) <==> ids.to_set().contains(q) by {
        if has_id(s, q) {
            let j = choose|j: int| 0 <= j < s.len() && #[trigger] s[j].0 == q;
            assert(ids[j] == q);
        }
        if ids.contains(q) {
            let j = choose|j: int| 0 <= j < ids.len() && ids[j] == q;
            assert(s[j].0 == q);
        }
    }
    assert(table(s).dom() =~= ids.to_set());
    ids.unique_seq_to_set();
}

proof fn lemma_totals_match(s: Entries)
    requires
        unique_ids(s),
    ensures
        motion_total(table(s)) == (total_x(s), total_y(s)),
    decreases s.len(),
{
    lemma_table_len(s);
    if s.len() > 0 {
        let p = s.drop_last();
        let e = s.last();
        assert(s =~= p.push(e));
        assert(unique_ids(p));
        assert(!has_id(p, e.0)) by {
            if has_id(p, e.0) {
                let j = choose|j: int| 0 <= j < p.len() && #[trigger] p[j].0 == e.0;
                assert(s[j].0 == s[s.len() - 1].0);
            }
        }
        lemma_table_push(p, e.0, e.1);
        lemma_table_len(p);
        lemma_totals_match(p);
        lemma_motion_total_remove(table(s), e.0);
        assert(table(s).remove(e.0) =~= table(p));
    }
}

/// Tracks every finger that is down and the motion each has made since the drag was last
/// consumed.
pub struct GestureState {
    finger_state: Vec<(u64, FingerState)>,
}

impl View for GestureState {
    type V = Map<u64, FingerState>;

    /// The fingers that are down, keyed by id.
    open spec fn view(&self) -> Map<u64, FingerState> {
        table(self.entries())
    }
}

impl GestureState {
    /// The table of fingers, in the order it is kept.
    pub closed spec fn entries(&self) -> Entries {
        self.finger_state@
    }

    /// Each finger id occurs in the table at most once.
    pub open spec fn wf(&self) -> bool {
        unique_ids(self.entries())
    }

    pub fn new() -> (r: GestureState)
        ensures
            r.wf(),
            r.entries() == Seq::<(u64, FingerState)>::empty(),
            r@ == Map::<u64, FingerState>::empty(),
    {
        let r = GestureState { finger_state: Vec::new() };
        assert(r@ =~= Map::<u64, FingerState>::empty());
        r
    }

    /// Where finger `id` stands in the table, if it is there.
    fn position(&self, id: u64) -> (r: Option<usize>)
        ensures
            match r {
                Some(i) => i < self.entries().len() && self.entries()[i as int].0 == id,
                None => !has_id(self.entries(), id),
            },
    {
        let mut i: usize = 0;
        while i < self.finger_state.len()
            invariant
                0 <= i <= self.finger_state@.len(),
                forall|j: int| 0 <= j < i ==> self.finger_state@[j].0 != id,
            decreases self.finger_state@.len() - i,
        {
            if self.finger_state[i].0 == id {
                return Some(i);
            }
            i = i + 1;
        }
        None
    }

    /// Applies one touch event. A start (re)arms the finger with no pending motion; a move
    /// of a known finger replaces its pending motion by the move's displacement; an end or a
    /// cancel forgets the finger. Events for unknown fingers leave the tracker as it was.
    pub fn on_touch_event(&mut self, event: &Touch)
        requires
            old(self).wf(),
        ensures
            final(self).wf(),
            final(self)@ == step(old(self)@, *event),
            event.phase != TouchPhase::Started && !old(self)@.contains_key(event.id)
                ==> final(self).entries() == old(self).entries(),
    {
        let ghost s = self.entries();
        match event.phase {
            TouchPhase::Started => {
                let f = FingerState::new(event.location);
                match self.position(event.id) {
                    Some(i) => {
                        proof {
                            lemma_table_update(s, i as int, f);
                        }
                        self.finger_state[i] = (event.id, f);
                    },
                    None => {
                        proof {
                            lemma_table_push(s, event.id, f);
                        }
                        self.finger_state.push((event.id, f));
                    },
                }
            },
            TouchPhase::Moved => {
                match self.position(event.id) {
                    Some(i) => {
                        let mut f = self.finger_state[i].1;
                        proof {
                            lemma_table_get(s, i as int);
                        }
                        f.move_to(event.location);
                        proof {
                            lemma_table_update(s, i as int, f);
                        }
                        self.finger_state[i] = (event.id, f);
                    },
                    None => {},
                }
            },
            TouchPhase::Ended | TouchPhase::Cancelled => {
                match self.position(event.id) {
                    Some(i) => {
                        proof {
                            lemma_table_remove(s, i as int);
                        }
                        self.finger_state.remove(i);
                    },
                    None => {
                        assert(table(s).remove(event.id) =~= table(s));
                    },
                }
            },
        }
    }

    /// The number of fingers that are down.
    pub fn active_fingers(&self) -> (r: usize)
        requires
            self.wf(),
        ensures
            r == self@.len(),
    {
        proof {
            lemma_table_len(self.entries());
        }
        self.finger_state.len()
    }

    /// Returns the drag since the last call and consumes it: `(0, 0)` when no finger is
    /// down, else the mean over the fingers of their pending motion, rounded toward zero.
    /// Every finger's pending motion is then zero; the fingers stay down where they were.
    pub fn drag(&mut self) -> (r: (i64, i64))
        requires
            old(self).wf(),
        ensures
            final(self).wf(),
            (r.0 as int, r.1 as int) == drag_of(old(self)@),
            final(self)@ == old(self)@.map_values(|f: FingerState| f.consumed()),
    {
        let ghost s = self.entries();
        proof {
            lemma_table_consumed(s);
            lemma_table_len(s);
            lemma_totals_match(s);
        }
        let n = self.finger_state.len();
        if n == 0 {
            assert(consumed(s) =~= s);
            return (0, 0);
        }
        let mut sx: i128 = 0;
        let mut sy: i128 = 0;
        let mut i: usize = 0;
        while i < n
            invariant
                n == s.len(),
                self.finger_state@.len() == n,
                0 <= i <= n,
                sx == total_x(s.take(i as int)),
                sy == total_y(s.take(i as int)),
                -(i * 0x8000_0000_0000_0000) <= sx <= i * 0x7fff_ffff_ffff_ffff,
                -(i * 0x8000_0000_0000_0000) <= sy <= i * 0x7fff_ffff_ffff_ffff,
                forall|j: int| 0 <= j < i ==> self.finger_state@[j] == (s[j].0, s[j].1.consumed()),
                forall|j: int| i <= j < n ==> self.finger_state@[j] == s[j],
            decreases n - i,
        {
            let (id, f) = self.finger_state[i];
            proof {
                lemma_totals_step(s, i as int);
            }
            sx = sx + f.motion_vector.x as i128;
            sy = sy + f.motion_vector.y as i128;
            self.finger_state[i] = (id, FingerState { current: f.current, motion_vector: Vector { x: 0, y: 0 } });
            i = i + 1;
        }
        assert(s.take(n as int) =~= s);
        assert(self.finger_state@ =~= consumed(s));
        (mean_of(sx, n), mean_of(sy, n))
    }
}

/// A tracker that has seen no event has no drag to give.
pub proof fn fresh_tracker_has_no_drag()
    ensures
        drag_of(Map::<u64, FingerState>::empty()) == (0int, 0int),
{
}

/// Consuming the drag leaves nothing to consume: a second consumption with no event in
/// between gives `(0, 0)`, and the same fingers stay down, where they were.
pub proof fn consumed_drag_is_zero(m: Map<u64, FingerState>)
    requires
        m.dom().finite(),
    ensures
        drag_of(m.map_values(|f: FingerState| f.consumed())) == (0int, 0int),
        m.map_values(|f: FingerState| f.consumed()).dom() == m.dom(),
        forall|k: u64| #[trigger]
            m.contains_key(k) ==> m.map_values(|f: FingerState| f.consumed())[k].current
                == m[k].current,
{
    lemma_motion_total_consumed(m);
    assert(m.map_values(|f: FingerState| f.consumed()).dom() =~= m.dom());
}

/// A move of a finger that is not down changes nothing.
pub proof fn unknown_move_is_ignored(m: Map<u64, FingerState>, t: Touch)
    requires
        t.phase == TouchPhase::Moved,
        !m.contains_key(t.id),
    ensures
        step(m, t) == m,
{
}

/// A finger that starts and then ends or is cancelled is gone again: the other fingers are
/// as they were, and a later move of it changes nothing. From no fingers, none are left.
pub proof fn start_then_end_leaves_nothing(m: Map<u64, FingerState>, start: Touch, end: Touch, mv: Touch)
    requires
        start.phase == TouchPhase::Started,
        end.phase == TouchPhase::Ended || end.phase == TouchPhase::Cancelled,
        mv.phase == TouchPhase::Moved,
        end.id == start.id,
        mv.id == start.id,
    ensures
        step(step(m, start), end) == m.remove(start.id),
        m.is_empty() ==> step(step(m, start), end).len() == 0,
        step(step(step(m, start), end), mv) == step(step(m, start), end),
{
    assert(step(step(m, start), end) =~= m.remove(start.id));
    if m.is_empty() {
        assert(m.remove(start.id) =~= Map::<u64, FingerState>::empty());
    }
}

/// An end or a cancel delivered again for the same finger changes nothing more.
pub proof fn end_is_idempotent(m: Map<u64, FingerState>, first: Touch, again: Touch)
    requires
        first.phase == TouchPhase::Ended || first.phase == TouchPhase::Cancelled,
        again.phase == TouchPhase::Ended || again.phase == TouchPhase::Cancelled,
        again.id == first.id,
    ensures
        step(step(m, first), again) == step(m, first),
{
    assert(step(step(m, first), again) =~= step(m, first));
}

} // verus!
