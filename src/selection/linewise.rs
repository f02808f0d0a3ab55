//! Row and column positions over lines, keyed by user and carried by a
//! line-wise edit.
use vstd::prelude::*;
use crate::linewise::{LPrim, LineOperation, lsrc_len, ltgt_len, apply_lines, compose_lines, transform_lines, push_line, lines_content, lines_text, content_bytes, line_fits};
use crate::linewise::Operation as BaseOperation;
use crate::selection::charwise::{sat_add, shift_index, lemma_shift_index_monotone};
use crate::selection::charwise::Selection as CharSelection;

verus! {

/// The key under which a user's selections are kept.
pub type UserId = u64;

/// A place in a list of lines: a row, and a byte offset in it.
#[derive(Clone, Copy, Debug, PartialEq, Eq, Structural)]
pub struct Position {
    pub row: usize,
    pub col: usize,
}

/// A cursor, or a range from `start` to `end`, `start` before `end`.
#[derive(Clone, Copy, Debug, PartialEq, Eq, Structural)]
pub enum Selection {
    Cursor(Position),
    Range(Position, Position),
}

/// Where the position `p` ends up after the steps `ops`, read from the result
/// row `idx`: an inserted row at or before it pushes it down, deleted rows
/// before it pull it up; a modification of its row moves its column, and a
/// deletion that covers its row puts it at the start of the row after the
/// deleted ones.
pub open spec fn shift_position(ops: Seq<LPrim>, idx: nat, p: Position) -> Position
    decreases ops.len(),
{
    if ops.len() == 0 {
        p
    } else {
        let rest = ops.drop_first();
        match ops[0] {
            LPrim::Retain(n) => shift_position(rest, idx + n, p),
            LPrim::Insert(_) => if idx <= p.row {
                shift_position(rest, idx + 1, Position { row: sat_add(p.row as nat, 1) as usize, col: p.col })
            } else {
                shift_position(rest, idx + 1, p)
            },
            LPrim::Modify(c) => if idx == p.row {
                shift_position(rest, idx + 1, Position { row: p.row, col: shift_index(c, 0, p.col as nat) as usize })
            } else {
                shift_position(rest, idx + 1, p)
            },
            LPrim::Delete(n) => if idx < p.row {
                if n <= p.row - idx {
                    shift_position(rest, idx, Position { row: (p.row - n) as usize, col: p.col })
                } else {
                    shift_position(rest, idx, Position { row: idx as usize, col: 0 })
                }
            } else if idx == p.row {
                shift_position(rest, idx, Position { row: p.row, col: 0 })
            } else {
                shift_position(rest, idx, p)
            },
        }
    }
}

/// A selection moved through the steps `ops`; a range whose ends meet is dropped.
pub open spec fn shift_selection(s: Selection, ops: Seq<LPrim>) -> Option<Selection> {
    match s {
        Selection::Cursor(p) => Some(Selection::Cursor(shift_position(ops, 0, p))),
        Selection::Range(a, b) => {
            let a2 = shift_position(ops, 0, a);
            let b2 = shift_position(ops, 0, b);
            if a2 == b2 {
                None
            } else {
                Some(Selection::Range(a2, b2))
            }
        },
    }
}

/// Every selection of a list moved through `ops`, the dropped ones left out.
pub open spec fn shift_selections(ss: Seq<Selection>, ops: Seq<LPrim>) -> Seq<Selection>
    decreases ss.len(),
{
    if ss.len() == 0 {
        Seq::empty()
    } else {
        let init = shift_selections(ss.drop_last(), ops);
        match shift_selection(ss.last(), ops) {
            Some(s) => init.push(s),
            None => init,
        }
    }
}

/// The selections of each user, as entries in order; a later entry for a
/// user stands in place of an earlier one.
pub open spec fn user_map(s: Seq<(UserId, Seq<Selection>)>) -> Map<UserId, Seq<Selection>>
    decreases s.len(),
{
    if s.len() == 0 {
        Map::empty()
    } else {
        user_map(s.drop_last()).insert(s.last().0, s.last().1)
    }
}

/// Every user's selections moved through `ops`.
pub open spec fn shift_entries(s: Seq<(UserId, Seq<Selection>)>, ops: Seq<LPrim>) -> Seq<(UserId, Seq<Selection>)> {
    s.map_values(|e: (UserId, Seq<Selection>)| (e.0, shift_selections(e.1, ops)))
}

pub open spec fn entries_view(v: Seq<(UserId, Vec<Selection>)>) -> Seq<(UserId, Seq<Selection>)> {
    v.map_values(|e: (UserId, Vec<Selection>)| (e.0, e.1@))
}

impl Selection {
    /// Moves the position `value` through `op`.
    pub fn transform_index(value: &mut Position, op: &BaseOperation)
        requires
            op.well_formed(),
        ensures
            *final(value) == shift_position(op@, 0, *old(value)),
    {
        let ghost ops = op@;
        let ops_v = op.operations_ref();
        let total = op.target_len();
        let mut idx: usize = 0;
        let mut k: usize = 0;
        proof {
            assert(ops.skip(0) =~= ops);
        }
        while k < ops_v.len()
            invariant
                op.well_formed(),
                ops == op@,
                crate::linewise::view_lines(ops_v@) == ops,
                forall|j: int| 0 <= j < ops_v@.len() ==> crate::linewise::lop_wf(#[trigger] ops_v@[j]),
                k <= ops_v@.len(),
                idx + ltgt_len(ops.skip(k as int)) == ltgt_len(ops),
                ltgt_len(ops) == total,
                shift_position(ops.skip(k as int), idx as nat, *value) == shift_position(ops, 0, *old(value)),
            decreases ops_v@.len() - k,
        {
            proof {
                assert(ops.skip(k as int)[0] == ops_v@[k as int]@);
                assert(ops.skip(k as int).drop_first() =~= ops.skip(k + 1));
            }
            match &ops_v[k] {
                LineOperation::Retain(len) => {
                    idx = idx + *len;
                },
                LineOperation::Insert(_) => {
                    if idx <= value.row {
                        if value.row < usize::MAX {
                            value.row = value.row + 1;
                        }
                    }
                    idx = idx + 1;
                },
                LineOperation::Modify(c) => {
                    if idx == value.row {
                        CharSelection::transform_index(&mut value.col, c);
                    }
                    idx = idx + 1;
                },
                LineOperation::Delete(len) => {
                    if idx < value.row {
                        let d = value.row - idx;
                        if *len <= d {
                            value.row = value.row - *len;
                        } else {
                            value.row = idx;
                            value.col = 0;
                        }
                    } else if idx == value.row {
                        value.col = 0;
                    }
                },
            }
            k = k + 1;
        }
    }

    /// This selection moved through `op`; `None` where a range closes up.
    pub fn transform(self, op: &BaseOperation) -> (r: Option<Selection>)
        requires
            op.well_formed(),
        ensures
            r == shift_selection(self, op@),
    {
        match self {
            Selection::Cursor(p) => {
                let mut p = p;
                Selection::transform_index(&mut p, op);
                Some(Selection::Cursor(p))
            },
            Selection::Range(a, b) => {
                let mut a = a;
                let mut b = b;
                Selection::transform_index(&mut a, op);
                Selection::transform_index(&mut b, op);
                if a == b {
                    None
                } else {
                    Some(Selection::Range(a, b))
                }
            },
        }
    }
}

/// Every selection of `ss` moved through `op`, the dropped ones left out.
pub fn transform_selections(ss: &Vec<Selection>, op: &BaseOperation) -> (r: Vec<Selection>)
    requires
        op.well_formed(),
    ensures
        r@ == shift_selections(ss@, op@),
{
    let mut r: Vec<Selection> = Vec::new();
    let mut i: usize = 0;
    while i < ss.len()
        invariant
            op.well_formed(),
            i <= ss@.len(),
            r@ == shift_selections(ss@.take(i as int), op@),
        decreases ss@.len() - i,
    {
        let t = ss[i].transform(op);
        proof {
            assert(ss@.take(i + 1).drop_last() =~= ss@.take(i as int));
        }
        match t {
            Some(s) => r.push(s),
            None => {},
        }
        i = i + 1;
    }
    assert(ss@.take(i as int) =~= ss@);
    r
}

/// Every user's selections moved through `op`.
pub fn transform_entries(s: &Vec<(UserId, Vec<Selection>)>, op: &BaseOperation) -> (r: Vec<(UserId, Vec<Selection>)>)
    requires
        op.well_formed(),
    ensures
        entries_view(r@) == shift_entries(entries_view(s@), op@),
{
    let mut r: Vec<(UserId, Vec<Selection>)> = Vec::new();
    let mut i: usize = 0;
    while i < s.len()
        invariant
            op.well_formed(),
            i <= s@.len(),
            entries_view(r@) =~= shift_entries(entries_view(s@), op@).take(i as int),
        decreases s@.len() - i,
    {
        let e = &s[i];
        let moved = transform_selections(&e.1, op);
        let ghost r0 = r@;
        r.push((e.0, moved));
        assert(entries_view(r@) =~= entries_view(r0).push((e.0, moved@)));
        i = i + 1;
    }
    assert(shift_entries(entries_view(s@), op@).take(i as int) =~= shift_entries(entries_view(s@), op@));
    r
}

/// A copy of a list of selections.
pub fn copy_selections(ss: &Vec<Selection>) -> (r: Vec<Selection>)
    ensures
        r@ == ss@,
{
    let mut r: Vec<Selection> = Vec::new();
    let mut i: usize = 0;
    while i < ss.len()
        invariant
            i <= ss@.len(),
            r@ == ss@.take(i as int),
        decreases ss@.len() - i,
    {
        r.push(ss[i]);
        i = i + 1;
        assert(r@ =~= ss@.take(i as int));
    }
    assert(ss@.take(i as int) =~= ss@);
    r
}

/// A copy of every user's selections.
pub fn copy_entries(s: &Vec<(UserId, Vec<Selection>)>) -> (r: Vec<(UserId, Vec<Selection>)>)
    ensures
        entries_view(r@) == entries_view(s@),
{
    let mut r: Vec<(UserId, Vec<Selection>)> = Vec::new();
    let mut i: usize = 0;
    while i < s.len()
        invariant
            i <= s@.len(),
            entries_view(r@) =~= entries_view(s@).take(i as int),
        decreases s@.len() - i,
    {
        let e = &s[i];
        let c = copy_selections(&e.1);
        let ghost r0 = r@;
        r.push((e.0, c));
        assert(entries_view(r@) =~= entries_view(r0).push((e.0, c@)));
        i = i + 1;
    }
    assert(entries_view(s@).take(i as int) =~= entries_view(s@));
    r
}


/// Lines with each user's selections on them.
#[derive(Clone, Debug, PartialEq, Eq)]
pub struct Target {
    pub base: Vec<String>,
    pub selection: Vec<(UserId, Vec<Selection>)>,
}

/// An edit that carries selections: `Nop` changes nothing, `Op(s, op)` applies
/// `op` to the lines and puts the selections `s` in place of the old ones.
#[derive(Clone, Debug)]
pub enum Operation {
    Nop,
    Op(Vec<(UserId, Vec<Selection>)>, BaseOperation),
}

/// An edit with selections, as the proofs see it.
pub enum LineSelModel {
    Nop,
    Op(Seq<(UserId, Seq<Selection>)>, Seq<LPrim>),
}

impl View for Operation {
    type V = LineSelModel;

    open spec fn view(&self) -> LineSelModel {
        match self {
            Operation::Nop => LineSelModel::Nop,
            Operation::Op(s, b) => LineSelModel::Op(entries_view(s@), b@),
        }
    }
}

impl Target {
    /// The edit `op` of these lines, with every user's selections moved through it.
    pub fn operate(&self, op: BaseOperation) -> (r: Operation)
        requires
            op.well_formed(),
        ensures
            r@ == LineSelModel::Op(shift_entries(entries_view(self.selection@), op@), op@),
    {
        let s = transform_entries(&self.selection, &op);
        Operation::Op(s, op)
    }

    /// The edit that keeps these lines and puts the selections `s` on them.
    pub fn select(&self, s: Vec<(UserId, Vec<Selection>)>) -> (r: Operation)
        ensures
            r@ == LineSelModel::Op(entries_view(s@), push_line(Seq::empty(), LPrim::Retain(self.base@.len()))),
    {
        Operation::Op(s, BaseOperation::nop_of_len(self.base.len()))
    }
}

impl Operation {
    /// The edit `op` with no selections.
    pub fn with_content(op: BaseOperation) -> (r: Operation)
        ensures
            r@ == LineSelModel::Op(Seq::empty(), op@),
    {
        let v: Vec<(UserId, Vec<Selection>)> = Vec::new();
        assert(entries_view(v@) =~= Seq::<(UserId, Seq<Selection>)>::empty());
        Operation::Op(v, op)
    }

    /// The edit `op`, carrying the selections of this one moved through `op`.
    pub fn operate(&self, op: BaseOperation) -> (r: Operation)
        requires
            op.well_formed(),
        ensures
            self@ is Nop ==> r@ == LineSelModel::Op(Seq::empty(), op@),
            self@ matches LineSelModel::Op(s, _) ==> r@ == LineSelModel::Op(shift_entries(s, op@), op@),
    {
        match self {
            Operation::Nop => Operation::with_content(op),
            Operation::Op(s, _) => {
                let moved = transform_entries(s, &op);
                Operation::Op(moved, op)
            },
        }
    }
}

/// Both sides' selections moved past the other side's edit: the left ones
/// through `b2`, the right ones through `a2`. Where both hold a user, the
/// right one stands.
pub open spec fn merged_entries(
    sl: Seq<(UserId, Seq<Selection>)>,
    sr: Seq<(UserId, Seq<Selection>)>,
    a2: Seq<LPrim>,
    b2: Seq<LPrim>,
) -> Seq<(UserId, Seq<Selection>)> {
    shift_entries(without_keys(sl, sr), b2) + shift_entries(sr, a2)
}

/// `s` holds an entry for user `k`.
pub open spec fn has_key(s: Seq<(UserId, Seq<Selection>)>, k: UserId) -> bool {
    exists|i: int| 0 <= i < s.len() && (#[trigger] s[i]).0 == k
}

/// No two entries are for one user.
pub open spec fn keys_unique(s: Seq<(UserId, Seq<Selection>)>) -> bool {
    forall|i: int, j: int| 0 <= i < j < s.len() ==> (#[trigger] s[i]).0 != (#[trigger] s[j]).0
}

/// The entries of `s` for users that `other` does not hold, in order.
pub open spec fn without_keys(s: Seq<(UserId, Seq<Selection>)>, other: Seq<(UserId, Seq<Selection>)>) -> Seq<
    (UserId, Seq<Selection>),
>
    decreases s.len(),
{
    if s.len() == 0 {
        Seq::empty()
    } else if has_key(other, s.last().0) {
        without_keys(s.drop_last(), other)
    } else {
        without_keys(s.drop_last(), other).push(s.last())
    }
}

proof fn lemma_without_keys(s: Seq<(UserId, Seq<Selection>)>, other: Seq<(UserId, Seq<Selection>)>)
    requires
        keys_unique(s),
    ensures
        keys_unique(without_keys(s, other)),
        forall|i: int| 0 <= i < without_keys(s, other).len() ==> !has_key(other, (#[trigger] without_keys(s, other)[i]).0),
        forall|i: int| 0 <= i < without_keys(s, other).len() ==> has_key(s, (#[trigger] without_keys(s, other)[i]).0),
    decreases s.len(),
{
    if s.len() > 0 {
        let init = s.drop_last();
        assert(keys_unique(init)) by {
            assert forall|i: int, j: int| 0 <= i < j < init.len() implies (#[trigger] init[i]).0 != (#[trigger] init[j]).0 by {
                assert(init[i] == s[i] && init[j] == s[j]);
            }
        }
        lemma_without_keys(init, other);
        let w = without_keys(init, other);
        assert forall|i: int| 0 <= i < w.len() implies has_key(s, (#[trigger] w[i]).0) by {
            let j = choose|j: int| 0 <= j < init.len() && (#[trigger] init[j]).0 == w[i].0;
            assert(s[j] == init[j]);
        }
        if !has_key(other, s.last().0) {
            let r = w.push(s.last());
            assert(has_key(s, s.last().0)) by {
                assert(s[s.len() - 1].0 == s.last().0);
            }
            assert forall|i: int| 0 <= i < w.len() implies (#[trigger] w[i]).0 != s.last().0 by {
                let j = choose|j: int| 0 <= j < init.len() && (#[trigger] init[j]).0 == w[i].0;
                assert(s[j] == init[j]);
                assert(s[j].0 != s[s.len() - 1].0);
            }
            assert forall|i: int, j: int| 0 <= i < j < r.len() implies (#[trigger] r[i]).0 != (#[trigger] r[j]).0 by {
                if j < w.len() {
                    assert(r[i] == w[i] && r[j] == w[j]);
                } else {
                    assert(r[i] == w[i]);
                }
            }
            assert forall|i: int| 0 <= i < r.len() implies !has_key(other, (#[trigger] r[i]).0) by {
                if i < w.len() {
                    assert(r[i] == w[i]);
                }
            }
            assert forall|i: int| 0 <= i < r.len() implies has_key(s, (#[trigger] r[i]).0) by {
                if i < w.len() {
                    assert(r[i] == w[i]);
                }
            }
        }
    }
}

proof fn lemma_shift_entries_keys(s: Seq<(UserId, Seq<Selection>)>, ops: Seq<LPrim>)
    ensures
        shift_entries(s, ops).len() == s.len(),
        forall|i: int| 0 <= i < s.len() ==> (#[trigger] shift_entries(s, ops)[i]).0 == s[i].0,
{
}

/// Merging keeps one entry per user.
pub proof fn lemma_merged_keys_unique(
    sl: Seq<(UserId, Seq<Selection>)>,
    sr: Seq<(UserId, Seq<Selection>)>,
    a2: Seq<LPrim>,
    b2: Seq<LPrim>,
)
    requires
        keys_unique(sl),
        keys_unique(sr),
    ensures
        keys_unique(merged_entries(sl, sr, a2, b2)),
{
    let w = without_keys(sl, sr);
    lemma_without_keys(sl, sr);
    let x = shift_entries(w, b2);
    let y = shift_entries(sr, a2);
    lemma_shift_entries_keys(w, b2);
    lemma_shift_entries_keys(sr, a2);
    let m = x + y;
    assert forall|i: int, j: int| 0 <= i < j < m.len() implies (#[trigger] m[i]).0 != (#[trigger] m[j]).0 by {
        if j < x.len() {
            assert(m[i] == x[i] && m[j] == x[j]);
        } else if i >= x.len() {
            assert(m[i] == y[i - x.len()] && m[j] == y[j - x.len()]);
        } else {
            assert(m[i] == x[i] && m[j] == y[j - x.len()]);
            assert(m[j].0 == sr[j - x.len()].0);
            if m[i].0 == m[j].0 {
                assert(has_key(sr, w[i].0));
            }
        }
    }
}

/// Whether `s` holds an entry for user `k`.
pub fn holds_key(s: &Vec<(UserId, Vec<Selection>)>, k: UserId) -> (r: bool)
    ensures
        r == has_key(entries_view(s@), k),
{
    let mut i: usize = 0;
    while i < s.len()
        invariant
            i <= s@.len(),
            forall|j: int| 0 <= j < i ==> (#[trigger] entries_view(s@)[j]).0 != k,
        decreases s@.len() - i,
    {
        if s[i].0 == k {
            assert(entries_view(s@)[i as int].0 == k);
            return true;
        }
        i = i + 1;
    }
    false
}

/// The entries of `s` for users that `other` does not hold, moved through `op`.
pub fn transform_entries_without(
    s: &Vec<(UserId, Vec<Selection>)>,
    other: &Vec<(UserId, Vec<Selection>)>,
    op: &BaseOperation,
) -> (r: Vec<(UserId, Vec<Selection>)>)
    requires
        op.well_formed(),
    ensures
        entries_view(r@) == shift_entries(without_keys(entries_view(s@), entries_view(other@)), op@),
{
    let ghost o = entries_view(other@);
    let mut r: Vec<(UserId, Vec<Selection>)> = Vec::new();
    let mut i: usize = 0;
    while i < s.len()
        invariant
            op.well_formed(),
            o == entries_view(other@),
            i <= s@.len(),
            entries_view(r@) =~= shift_entries(without_keys(entries_view(s@).take(i as int), o), op@),
        decreases s@.len() - i,
    {
        let e = &s[i];
        proof {
            assert(entries_view(s@).take(i + 1).drop_last() =~= entries_view(s@).take(i as int));
            assert(entries_view(s@).take(i + 1).last() == (e.0, e.1@));
        }
        if !holds_key(other, e.0) {
            let moved = transform_selections(&e.1, op);
            let ghost r0 = r@;
            r.push((e.0, moved));
            assert(entries_view(r@) =~= entries_view(r0).push((e.0, moved@)));
        }
        i = i + 1;
    }
    assert(entries_view(s@).take(i as int) =~= entries_view(s@));
    r
}

impl crate::Operation for Operation {
    type Target = Target;

    type Model = LineSelModel;

    type Content = (Seq<Seq<char>>, Seq<(UserId, Seq<Selection>)>);

    open spec fn op_model(&self) -> LineSelModel {
        self@
    }

    open spec fn target_model(t: &Target) -> (Seq<Seq<char>>, Seq<(UserId, Seq<Selection>)>) {
        (lines_content(t.base@), entries_view(t.selection@))
    }

    open spec fn op_valid(&self) -> bool {
        match self {
            Operation::Nop => true,
            Operation::Op(s, b) => b.well_formed() && keys_unique(entries_view(s@)),
        }
    }

    open spec fn fits(op: LineSelModel, c: (Seq<Seq<char>>, Seq<(UserId, Seq<Selection>)>)) -> bool {
        match op {
            LineSelModel::Nop => true,
            LineSelModel::Op(_, b) => c.0.len() == lsrc_len(b) && line_fits(b, content_bytes(c.0)),
        }
    }

    open spec fn composable(a: LineSelModel, b: LineSelModel) -> bool {
        match (a, b) {
            (LineSelModel::Op(_, x), LineSelModel::Op(_, y)) => ltgt_len(x) == lsrc_len(y),
            _ => true,
        }
    }

    open spec fn transformable(a: LineSelModel, b: LineSelModel) -> bool {
        match (a, b) {
            (LineSelModel::Op(_, x), LineSelModel::Op(_, y)) => lsrc_len(x) == lsrc_len(y) && ltgt_len(x)
                + ltgt_len(y) <= usize::MAX,
            _ => true,
        }
    }

    open spec fn apply_model(op: LineSelModel, c: (Seq<Seq<char>>, Seq<(UserId, Seq<Selection>)>)) -> (
        Seq<Seq<char>>,
        Seq<(UserId, Seq<Selection>)>,
    ) {
        match op {
            LineSelModel::Nop => c,
            LineSelModel::Op(s, b) => (lines_text(apply_lines(b, content_bytes(c.0))), s),
        }
    }

    open spec fn compose_model(a: LineSelModel, b: LineSelModel) -> LineSelModel {
        match (a, b) {
            (LineSelModel::Nop, _) => b,
            (_, LineSelModel::Nop) => a,
            (LineSelModel::Op(_, x), LineSelModel::Op(s, y)) => LineSelModel::Op(s, compose_lines(x, y)),
        }
    }

    open spec fn transform_model(a: LineSelModel, b: LineSelModel) -> (LineSelModel, LineSelModel) {
        match (a, b) {
            (LineSelModel::Nop, _) => (a, b),
            (_, LineSelModel::Nop) => (a, b),
            (LineSelModel::Op(sl, x), LineSelModel::Op(sr, y)) => {
                let (x2, y2) = transform_lines(x, y);
                let s = merged_entries(sl, sr, x2, y2);
                (LineSelModel::Op(s, x2), LineSelModel::Op(s, y2))
            },
        }
    }

    open spec fn nop_model(c: (Seq<Seq<char>>, Seq<(UserId, Seq<Selection>)>)) -> LineSelModel {
        LineSelModel::Nop
    }

    open spec fn empty_model() -> LineSelModel {
        LineSelModel::Nop
    }

    open spec fn empty_content() -> (Seq<Seq<char>>, Seq<(UserId, Seq<Selection>)>) {
        (Seq::empty(), Seq::empty())
    }

    fn empty() -> (r: Self) {
        Operation::Nop
    }

    fn empty_target() -> (r: Target) {
        let t = Target { base: Vec::new(), selection: Vec::new() };
        assert(lines_content(t.base@) =~= Seq::<Seq<char>>::empty());
        assert(entries_view(t.selection@) =~= Seq::<(UserId, Seq<Selection>)>::empty());
        t
    }

    fn copy_op(&self) -> (r: Self) {
        match self {
            Operation::Nop => Operation::Nop,
            Operation::Op(s, b) => Operation::Op(copy_entries(s), b.copy()),
        }
    }

    fn copy_target(t: &Target) -> (r: Target) {
        Target { base: <BaseOperation as crate::Operation>::copy_target(&t.base), selection: copy_entries(&t.selection) }
    }

    fn nop(target: &Target) -> (r: Self) {
        Operation::Nop
    }

    fn fits_target(&self, target: &Target) -> (r: bool) {
        match self {
            Operation::Nop => true,
            Operation::Op(_, b) => crate::Operation::fits_target(b, &target.base),
        }
    }

    fn composes_with(&self, other: &Self) -> (r: bool) {
        match (self, other) {
            (Operation::Op(_, x), Operation::Op(_, y)) => x.target_len() == y.source_len(),
            _ => true,
        }
    }

    fn transforms_with(&self, other: &Self) -> (r: bool) {
        match (self, other) {
            (Operation::Op(_, x), Operation::Op(_, y)) => x.source_len() == y.source_len() && x.target_len()
                <= usize::MAX - y.target_len(),
            _ => true,
        }
    }

    fn apply(&self, target: &Target) -> (r: Target) {
        match self {
            Operation::Nop => <Operation as crate::Operation>::copy_target(target),
            Operation::Op(s, b) => Target { base: crate::Operation::apply(b, &target.base), selection: copy_entries(s) },
        }
    }

    fn compose(self, other: Self) -> (r: Self) {
        match (self, other) {
            (Operation::Nop, o) => o,
            (t, Operation::Nop) => t,
            (Operation::Op(_, x), Operation::Op(s, y)) => Operation::Op(s, crate::linewise::compose(x, y)),
        }
    }

    fn transform(self, other: Self) -> (r: (Self, Self)) {
        match (self, other) {
            (Operation::Nop, o) => (Operation::Nop, o),
            (t, Operation::Nop) => (t, Operation::Nop),
            (Operation::Op(sl, x), Operation::Op(sr, y)) => {
                let (x2, y2) = crate::linewise::transform(x, y);
                let mut s = transform_entries_without(&sl, &sr, &y2);
                let mut s2 = transform_entries(&sr, &x2);
                let ghost e1 = entries_view(s@);
                let ghost e2 = entries_view(s2@);
                s.append(&mut s2);
                assert(entries_view(s@) =~= e1 + e2);
                proof {
                    lemma_merged_keys_unique(entries_view(sl@), entries_view(sr@), x2@, y2@);
                }
                let c = copy_entries(&s);
                (Operation::Op(c, x2), Operation::Op(s, y2))
            },
        }
    }
}


proof fn lemma_row_below(ops: Seq<LPrim>, idx: nat, p: Position)
    requires
        (p.row as nat) < idx,
    ensures
        shift_position(ops, idx, p).row == p.row,
    decreases ops.len(),
{
    if ops.len() > 0 {
        let rest = ops.drop_first();
        match ops[0] {
            LPrim::Retain(n) => lemma_row_below(rest, idx + n, p),
            LPrim::Insert(_) => lemma_row_below(rest, idx + 1, p),
            LPrim::Modify(c) => {
                if idx == p.row {
                } else {
                    lemma_row_below(rest, idx + 1, p);
                }
            },
            LPrim::Delete(_) => lemma_row_below(rest, idx, p),
        }
    }
}

proof fn lemma_row_bound(ops: Seq<LPrim>, idx: nat, p: Position)
    requires
        idx <= p.row as nat <= idx + lsrc_len(ops),
        idx + ltgt_len(ops) <= usize::MAX,
    ensures
        idx <= shift_position(ops, idx, p).row as nat <= idx + ltgt_len(ops),
    decreases ops.len(),
{
    if ops.len() > 0 {
        let rest = ops.drop_first();
        match ops[0] {
            LPrim::Retain(n) => {
                if (p.row as nat) < idx + n {
                    lemma_row_below(rest, idx + n, p);
                } else {
                    lemma_row_bound(rest, idx + n, p);
                }
            },
            LPrim::Insert(_) => {
                lemma_row_bound(rest, idx + 1, Position { row: sat_add(p.row as nat, 1) as usize, col: p.col });
            },
            LPrim::Modify(c) => {
                if idx == p.row {
                    lemma_row_below(rest, idx + 1, Position { row: p.row, col: shift_index(c, 0, p.col as nat) as usize });
                } else {
                    lemma_row_bound(rest, idx + 1, p);
                }
            },
            LPrim::Delete(n) => {
                if idx < p.row {
                    if n <= p.row - idx {
                        lemma_row_bound(rest, idx, Position { row: (p.row - n) as usize, col: p.col });
                    } else {
                        lemma_row_bound(rest, idx, Position { row: idx as usize, col: 0 });
                    }
                } else {
                    lemma_row_bound(rest, idx, Position { row: p.row, col: 0 });
                }
            },
        }
    }
}

/// A row of the source of a line-wise operation lands on a row of its
/// result: the moved position's row is at most the result's line count.
pub proof fn lemma_row_stays_in_range(ops: Seq<LPrim>, p: Position)
    requires
        p.row as nat <= lsrc_len(ops),
        ltgt_len(ops) <= usize::MAX,
    ensures
        shift_position(ops, 0, p).row as nat <= ltgt_len(ops),
{
    lemma_row_bound(ops, 0, p);
}


/// `p` comes at or before `q`: by row, then by column.
pub open spec fn pos_le(p: Position, q: Position) -> bool {
    p.row < q.row || (p.row == q.row && p.col <= q.col)
}

#[verifier::rlimit(50)]
proof fn lemma_shift_position_monotone(ops: Seq<LPrim>, idx: nat, p: Position, q: Position)
    requires
        pos_le(p, q),
        q.row as nat + ltgt_len(ops) <= usize::MAX,
    ensures
        pos_le(shift_position(ops, idx, p), shift_position(ops, idx, q)),
    decreases ops.len(),
{
    if ops.len() > 0 {
        let rest = ops.drop_first();
        match ops[0] {
            LPrim::Retain(n) => lemma_shift_position_monotone(rest, idx + n, p, q),
            LPrim::Insert(_) => {
                let p2 = if idx <= p.row { Position { row: sat_add(p.row as nat, 1) as usize, col: p.col } } else { p };
                let q2 = if idx <= q.row { Position { row: sat_add(q.row as nat, 1) as usize, col: q.col } } else { q };
                lemma_shift_position_monotone(rest, idx + 1, p2, q2);
            },
            LPrim::Modify(c) => {
                let p2 = if idx == p.row { Position { row: p.row, col: shift_index(c, 0, p.col as nat) as usize } } else { p };
                let q2 = if idx == q.row { Position { row: q.row, col: shift_index(c, 0, q.col as nat) as usize } } else { q };
                if idx == p.row && idx == q.row {
                    lemma_shift_index_monotone(c, 0, p.col as nat, q.col as nat);
                    crate::selection::charwise::lemma_shift_index_le_max(c, 0, q.col as nat);
                    crate::selection::charwise::lemma_shift_index_le_max(c, 0, p.col as nat);
                }
                lemma_shift_position_monotone(rest, idx + 1, p2, q2);
            },
            LPrim::Delete(n) => {
                let p2 = if idx < p.row {
                    if n <= p.row - idx { Position { row: (p.row - n) as usize, col: p.col } } else { Position { row: idx as usize, col: 0 } }
                } else if idx == p.row { Position { row: p.row, col: 0 } } else { p };
                let q2 = if idx < q.row {
                    if n <= q.row - idx { Position { row: (q.row - n) as usize, col: q.col } } else { Position { row: idx as usize, col: 0 } }
                } else if idx == q.row { Position { row: q.row, col: 0 } } else { q };
                assert(pos_le(p2, q2));
                lemma_shift_position_monotone(rest, idx, p2, q2);
            },
        }
    }
}

/// Moving keeps the order of positions, so a range comes out with its start
/// before its end, or is dropped where the two meet.
pub proof fn lemma_range_keeps_order(ops: Seq<LPrim>, a: Position, b: Position)
    requires
        pos_le(a, b),
        b.row as nat + ltgt_len(ops) <= usize::MAX,
    ensures
        pos_le(shift_position(ops, 0, a), shift_position(ops, 0, b)),
        shift_selection(Selection::Range(a, b), ops) is None || (shift_selection(Selection::Range(a, b), ops) matches Some(Selection::Range(x, y)) && pos_le(x, y) && x != y),
{
    lemma_shift_position_monotone(ops, 0, a, b);
}

} // verus!
