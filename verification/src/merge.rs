//! Structural merge values.
//!
//! A tree entry is a *merge value*: an ordered list of positive terms (`adds`)
//! and negative terms (`removes`), always one more add than removes. A value
//! with no removes is resolved; anything else is an unresolved conflict that
//! keeps every candidate. Merging sums the term lists (the base negated) and
//! then cancels equal add/remove pairs, so a fully-cancelled conflict
//! degenerates back to a resolved value.

use vstd::prelude::*;

use crate::bytes::bytes_eq;

verus! {

/// One candidate state of a path: nothing, a file, or a symlink.
#[derive(Debug)]
pub enum EntryValue {
    Absent,
    File { content: Vec<u8>, executable: bool },
    Symlink { target: Vec<u8> },
}

/// Mathematical image of an `EntryValue`.
#[verifier::ext_equal]
pub enum EntryVal {
    Absent,
    File { content: Seq<u8>, executable: bool },
    Symlink { target: Seq<u8> },
}

impl View for EntryValue {
    type V = EntryVal;

    open spec fn view(&self) -> EntryVal {
        match self {
            EntryValue::Absent => EntryVal::Absent,
            EntryValue::File { content, executable } => EntryVal::File {
                content: content@,
                executable: *executable,
            },
            EntryValue::Symlink { target } => EntryVal::Symlink { target: target@ },
        }
    }
}

/// The views of a sequence of entry values, element by element.
pub open spec fn vals_view(s: Seq<EntryValue>) -> Seq<EntryVal> {
    Seq::new(s.len(), |i: int| s[i]@)
}

/// Structural equality of two entry values.
pub fn value_eq(a: &EntryValue, b: &EntryValue) -> (r: bool)
    ensures
        r == (a@ == b@),
{
    match (a, b) {
        (EntryValue::Absent, EntryValue::Absent) => true,
        (
            EntryValue::File { content: ca, executable: ea },
            EntryValue::File { content: cb, executable: eb },
        ) => bytes_eq(ca, cb) && *ea == *eb,
        (EntryValue::Symlink { target: ta }, EntryValue::Symlink { target: tb }) => bytes_eq(
            ta,
            tb,
        ),
        _ => false,
    }
}

pub fn clone_bytes(a: &Vec<u8>) -> (r: Vec<u8>)
    ensures
        r@ == a@,
{
    let mut out: Vec<u8> = Vec::new();
    let n = a.len();
    let mut i: usize = 0;
    while i < n
        invariant
            n == a.len(),
            i <= n,
            out@ == a@.subrange(0, i as int),
        decreases n - i,
    {
        out.push(a[i]);
        i += 1;
    }
    assert(out@ =~= a@);
    out
}

pub fn clone_value(a: &EntryValue) -> (r: EntryValue)
    ensures
        r@ == a@,
{
    match a {
        EntryValue::Absent => EntryValue::Absent,
        EntryValue::File { content, executable } => EntryValue::File {
            content: clone_bytes(content),
            executable: *executable,
        },
        EntryValue::Symlink { target } => EntryValue::Symlink { target: clone_bytes(target) },
    }
}

pub fn clone_values(a: &Vec<EntryValue>) -> (r: Vec<EntryValue>)
    ensures
        vals_view(r@) == vals_view(a@),
{
    let mut out: Vec<EntryValue> = Vec::new();
    let n = a.len();
    let mut i: usize = 0;
    while i < n
        invariant
            n == a.len(),
            i <= n,
            out@.len() == i,
            forall|k: int| 0 <= k < i ==> out@[k]@ == a@[k]@,
        decreases n - i,
    {
        out.push(clone_value(&a[i]));
        i += 1;
    }
    assert(vals_view(out@) =~= vals_view(a@));
    out
}

/// A possibly-conflicted state of a path: `adds` holds the positive terms,
/// `removes` the negative ones, with `adds.len() == removes.len() + 1`.
#[derive(Debug)]
pub struct MergeValue {
    pub adds: Vec<EntryValue>,
    pub removes: Vec<EntryValue>,
}

/// Mathematical image of a `MergeValue`.
#[verifier::ext_equal]
pub struct MergeVal {
    pub adds: Seq<EntryVal>,
    pub removes: Seq<EntryVal>,
}

impl View for MergeValue {
    type V = MergeVal;

    open spec fn view(&self) -> MergeVal {
        MergeVal { adds: vals_view(self.adds@), removes: vals_view(self.removes@) }
    }
}

/// Terms alternate sign starting positive: one more add than removes.
pub open spec fn mv_wf(m: MergeVal) -> bool {
    m.adds.len() == m.removes.len() + 1
}

/// A merge value with no negative terms is resolved.
pub open spec fn mv_resolved(m: MergeVal) -> bool {
    m.removes.len() == 0
}

/// The resolved merge value of a single value.
pub open spec fn mv_of(v: EntryVal) -> MergeVal {
    MergeVal { adds: seq![v], removes: seq![] }
}

/// The resolved value that marks an absent path.
pub open spec fn mv_absent() -> MergeVal {
    mv_of(EntryVal::Absent)
}

/// Wrap a single value as a resolved merge value.
pub fn merge_resolved(v: EntryValue) -> (r: MergeValue)
    ensures
        r@ == mv_of(v@),
        mv_wf(r@),
        mv_resolved(r@),
{
    let mut adds: Vec<EntryValue> = Vec::new();
    adds.push(v);
    let r = MergeValue { adds, removes: Vec::new() };
    assert(r@.adds =~= seq![v@]);
    assert(r@.removes =~= Seq::<EntryVal>::empty());
    assert(r@ =~= mv_of(v@));
    r
}

/// The resolved merge value of an absent path.
pub fn merge_absent() -> (r: MergeValue)
    ensures
        r@ == mv_absent(),
        mv_wf(r@),
{
    merge_resolved(EntryValue::Absent)
}

pub fn clone_merge_value(a: &MergeValue) -> (r: MergeValue)
    ensures
        r@ == a@,
{
    let r = MergeValue { adds: clone_values(&a.adds), removes: clone_values(&a.removes) };
    assert(r@ =~= a@);
    r
}

/// Structural equality of two merge values.
pub fn mv_eq(a: &MergeValue, b: &MergeValue) -> (r: bool)
    ensures
        r == (a@ == b@),
{
    if a.adds.len() != b.adds.len() || a.removes.len() != b.removes.len() {
        proof {
            assert(a@.adds.len() == a.adds@.len() && a@.removes.len() == a.removes@.len());
            assert(b@.adds.len() == b.adds@.len() && b@.removes.len() == b.removes@.len());
        }
        return false;
    }
    let na = a.adds.len();
    let mut i: usize = 0;
    while i < na
        invariant
            na == a.adds.len() == b.adds.len(),
            i <= na,
            forall|k: int| 0 <= k < i ==> a.adds@[k]@ == b.adds@[k]@,
        decreases na - i,
    {
        if !value_eq(&a.adds[i], &b.adds[i]) {
            assert(a@.adds[i as int] != b@.adds[i as int]);
            return false;
        }
        i += 1;
    }
    let nr = a.removes.len();
    let mut j: usize = 0;
    while j < nr
        invariant
            nr == a.removes.len() == b.removes.len(),
            j <= nr,
            forall|k: int| 0 <= k < j ==> a.removes@[k]@ == b.removes@[k]@,
        decreases nr - j,
    {
        if !value_eq(&a.removes[j], &b.removes[j]) {
            assert(a@.removes[j as int] != b@.removes[j as int]);
            return false;
        }
        j += 1;
    }
    assert(a@.adds =~= b@.adds);
    assert(a@.removes =~= b@.removes);
    assert(a@ =~= b@);
    true
}

/// Index of the first term equal to `x` at or after `i`, or `-1`.
pub open spec fn find_term(s: Seq<EntryVal>, x: EntryVal, i: int) -> int
    decreases s.len() - i
        when 0 <= i <= s.len()
{
    if i >= s.len() {
        -1
    } else if s[i] == x {
        i
    } else {
        find_term(s, x, i + 1)
    }
}

pub proof fn lemma_find_term_spec(s: Seq<EntryVal>, x: EntryVal, i: int)
    requires
        0 <= i <= s.len(),
    ensures
        find_term(s, x, i) == -1 ==> forall|k: int| i <= k < s.len() ==> s[k] != x,
        find_term(s, x, i) != -1 ==> i <= find_term(s, x, i) < s.len() && s[find_term(s, x, i)]
            == x,
    decreases s.len() - i,
{
    if i < s.len() && s[i] != x {
        lemma_find_term_spec(s, x, i + 1);
    }
}

/// Cancel matching add/remove pairs: each negative term in turn consumes the
/// first equal positive term still available; unmatched negatives are kept.
pub open spec fn mv_simplify_terms(adds: Seq<EntryVal>, removes: Seq<EntryVal>) -> MergeVal
    decreases removes.len(),
{
    if removes.len() == 0 {
        MergeVal { adds, removes }
    } else {
        let j = find_term(adds, removes[0], 0);
        if j >= 0 {
            mv_simplify_terms(adds.remove(j), removes.drop_first())
        } else {
            let rest = mv_simplify_terms(adds, removes.drop_first());
            MergeVal { adds: rest.adds, removes: seq![removes[0]] + rest.removes }
        }
    }
}

pub open spec fn mv_simplify(m: MergeVal) -> MergeVal {
    mv_simplify_terms(m.adds, m.removes)
}

/// Cancellation keeps the surplus of adds over removes, so it preserves the
/// alternation invariant.
pub proof fn lemma_simplify_diff(adds: Seq<EntryVal>, removes: Seq<EntryVal>)
    ensures
        mv_simplify_terms(adds, removes).adds.len() - mv_simplify_terms(adds, removes).removes.len()
            == adds.len() - removes.len(),
        mv_simplify_terms(adds, removes).adds.len() <= adds.len(),
    decreases removes.len(),
{
    if removes.len() > 0 {
        let j = find_term(adds, removes[0], 0);
        lemma_find_term_spec(adds, removes[0], 0);
        if j >= 0 {
            lemma_simplify_diff(adds.remove(j), removes.drop_first());
        } else {
            lemma_simplify_diff(adds, removes.drop_first());
        }
    }
}

/// The term sum of two sides over a negated base: the raw diff3 combination.
pub open spec fn mv_combine(base: MergeVal, a: MergeVal, b: MergeVal) -> MergeVal {
    MergeVal { adds: a.adds + b.adds + base.removes, removes: a.removes + b.removes + base.adds }
}

/// Per-path three-way merge: where the sides agree, or only one differs from
/// the base, the result is the agreeing or changed value; otherwise the term
/// sum, cancelled.
pub open spec fn merge_val(base: MergeVal, a: MergeVal, b: MergeVal) -> MergeVal {
    if a == b {
        a
    } else if b == base {
        a
    } else if a == base {
        b
    } else {
        mv_simplify(mv_combine(base, a, b))
    }
}

pub proof fn lemma_merge_val_wf(base: MergeVal, a: MergeVal, b: MergeVal)
    requires
        mv_wf(base),
        mv_wf(a),
        mv_wf(b),
    ensures
        mv_wf(merge_val(base, a, b)),
{
    if a != b && b != base && a != base {
        let c = mv_combine(base, a, b);
        lemma_simplify_diff(c.adds, c.removes);
    }
}

/// A side equal to the base yields the other side unchanged: the clean
/// propagation rule that rebasing relies on.
pub proof fn lemma_merge_unchanged_side(base: MergeVal, a: MergeVal, b: MergeVal)
    ensures
        b == base ==> merge_val(base, a, b) == a,
        a == base && b != base ==> merge_val(base, a, b) == b,
{
}

/// Append clones of `src` to `dst`.
pub fn append_values(dst: &mut Vec<EntryValue>, src: &Vec<EntryValue>)
    ensures
        vals_view(final(dst)@) == vals_view(old(dst)@) + vals_view(src@),
{
    let n = src.len();
    let mut i: usize = 0;
    while i < n
        invariant
            n == src.len(),
            i <= n,
            dst@.len() == old(dst)@.len() + i,
            forall|k: int| 0 <= k < old(dst)@.len() ==> dst@[k]@ == old(dst)@[k]@,
            forall|k: int| 0 <= k < i ==> dst@[old(dst)@.len() + k]@ == src@[k]@,
        decreases n - i,
    {
        dst.push(clone_value(&src[i]));
        i += 1;
    }
    assert(vals_view(dst@) =~= vals_view(old(dst)@) + vals_view(src@));
}

/// Cancel matching add/remove pairs of a combined merge value.
fn simplify_merge(m: MergeValue) -> (r: MergeValue)
    ensures
        r@ == mv_simplify(m@),
{
    let ghost m0 = m@;
    let mut adds = m.adds;
    let removes = m.removes;
    let mut out_removes: Vec<EntryValue> = Vec::new();
    let nr = removes.len();
    let mut ri: usize = 0;
    proof {
        assert(vals_view(out_removes@) =~= Seq::<EntryVal>::empty());
        assert(vals_view(removes@).skip(0) =~= vals_view(removes@));
        let s0 = mv_simplify_terms(vals_view(adds@), vals_view(removes@));
        assert(vals_view(out_removes@) + s0.removes =~= s0.removes);
    }
    while ri < nr
        invariant
            nr == removes.len(),
            ri <= nr,
            m0.removes == vals_view(removes@),
            mv_simplify(m0) == (MergeVal {
                adds: mv_simplify_terms(vals_view(adds@), vals_view(removes@).skip(ri as int)).adds,
                removes: vals_view(out_removes@) + mv_simplify_terms(
                    vals_view(adds@),
                    vals_view(removes@).skip(ri as int),
                ).removes,
            }),
        decreases nr - ri,
    {
        let ghost cur_adds = vals_view(adds@);
        let ghost cur_rest = vals_view(removes@).skip(ri as int);
        proof {
            assert(cur_rest[0] == removes@[ri as int]@);
            assert(cur_rest.drop_first() =~= vals_view(removes@).skip(ri + 1 as int));
        }
        let found = find_value(&adds, &removes[ri]);
        match found {
            Some(j) => {
                adds.remove(j);
                proof {
                    assert(vals_view(adds@) =~= cur_adds.remove(j as int));
                }
            },
            None => {
                out_removes.push(clone_value(&removes[ri]));
                proof {
                    let rest = mv_simplify_terms(cur_adds, cur_rest.drop_first());
                    assert(mv_simplify_terms(cur_adds, cur_rest) == MergeVal {
                        adds: rest.adds,
                        removes: seq![cur_rest[0]] + rest.removes,
                    });
                    assert(vals_view(out_removes@) =~= vals_view(out_removes@).subrange(
                        0,
                        out_removes@.len() - 1,
                    ) + seq![cur_rest[0]]);
                    assert(vals_view(out_removes@).subrange(0, out_removes@.len() - 1) + (seq![
                        cur_rest[0],
                    ] + rest.removes) =~= vals_view(out_removes@) + rest.removes);
                }
            },
        }
        ri += 1;
    }
    proof {
        assert(vals_view(removes@).skip(nr as int) =~= Seq::<EntryVal>::empty());
        assert(mv_simplify(m0).removes =~= vals_view(out_removes@));
    }
    MergeValue { adds, removes: out_removes }
}

/// Index of the first entry value equal to `x`, if any.
fn find_value(v: &Vec<EntryValue>, x: &EntryValue) -> (r: Option<usize>)
    ensures
        match r {
            Some(j) => j < v.len() && find_term(vals_view(v@), x@, 0) == j,
            None => find_term(vals_view(v@), x@, 0) == -1,
        },
{
    let ghost s = vals_view(v@);
    let n = v.len();
    let mut i: usize = 0;
    while i < n
        invariant
            n == v.len(),
            i <= n,
            s == vals_view(v@),
            find_term(s, x@, 0) == find_term(s, x@, i as int),
        decreases n - i,
    {
        if value_eq(&v[i], x) {
            assert(find_term(s, x@, i as int) == i);
            return Some(i);
        }
        assert(find_term(s, x@, i as int) == find_term(s, x@, i + 1 as int));
        i += 1;
    }
    assert(find_term(s, x@, n as int) == -1);
    None
}

/// Three-way merge of two sides against a base.
pub fn merge_values(base: &MergeValue, a: &MergeValue, b: &MergeValue) -> (r: MergeValue)
    requires
        mv_wf(base@),
        mv_wf(a@),
        mv_wf(b@),
    ensures
        r@ == merge_val(base@, a@, b@),
        mv_wf(r@),
{
    proof {
        lemma_merge_val_wf(base@, a@, b@);
    }
    if mv_eq(a, b) {
        return clone_merge_value(a);
    }
    if mv_eq(b, base) {
        return clone_merge_value(a);
    }
    if mv_eq(a, base) {
        return clone_merge_value(b);
    }
    let mut adds: Vec<EntryValue> = Vec::new();
    append_values(&mut adds, &a.adds);
    append_values(&mut adds, &b.adds);
    append_values(&mut adds, &base.removes);
    let mut removes: Vec<EntryValue> = Vec::new();
    append_values(&mut removes, &a.removes);
    append_values(&mut removes, &b.removes);
    append_values(&mut removes, &base.adds);
    let combined = MergeValue { adds, removes };
    proof {
        assert(combined@.adds =~= a@.adds + b@.adds + base@.removes);
        assert(combined@.removes =~= a@.removes + b@.removes + base@.adds);
        assert(combined@ =~= mv_combine(base@, a@, b@));
    }
    simplify_merge(combined)
}

/// Two sides that changed the base to different values conflict, keeping both
/// candidates and the base.
pub proof fn lemma_merge_conflict(base: EntryVal, a: EntryVal, b: EntryVal)
    requires
        a != b,
        a != base,
        b != base,
    ensures
        merge_val(mv_of(base), mv_of(a), mv_of(b)) == (MergeVal {
            adds: seq![a, b],
            removes: seq![base],
        }),
{
    let mb = mv_of(base);
    let ma = mv_of(a);
    let mvb = mv_of(b);
    assert(ma != mvb) by {
        assert(ma.adds[0] == a && mvb.adds[0] == b);
    }
    assert(ma != mb) by {
        assert(ma.adds[0] == a && mb.adds[0] == base);
    }
    assert(mvb != mb) by {
        assert(mvb.adds[0] == b && mb.adds[0] == base);
    }
    let c = mv_combine(mb, ma, mvb);
    assert(c.adds =~= seq![a, b]);
    assert(c.removes =~= seq![base]);
    assert(find_term(c.adds, base, 2) == -1);
    assert(find_term(c.adds, base, 1) == -1);
    assert(find_term(c.adds, base, 0) == -1);
    let rest = mv_simplify_terms(c.adds, c.removes.drop_first());
    assert(c.removes.drop_first() =~= Seq::<EntryVal>::empty());
    assert(rest == (MergeVal { adds: c.adds, removes: c.removes.drop_first() }));
    assert(mv_simplify_terms(c.adds, c.removes) == (MergeVal {
        adds: rest.adds,
        removes: seq![c.removes[0]] + rest.removes,
    }));
    assert(seq![c.removes[0]] + rest.removes =~= seq![base]);
}

/// The bytes a value shows when rendered: file content, symlink target, or
/// nothing for an absent path.
pub open spec fn render_val(v: EntryVal) -> Seq<u8> {
    match v {
        EntryVal::Absent => Seq::<u8>::empty(),
        EntryVal::File { content, executable } => content,
        EntryVal::Symlink { target } => target,
    }
}

/// A marker line: seven copies of the given byte and a newline.
pub open spec fn marker_of(c: u8) -> Seq<u8> {
    seq![c, c, c, c, c, c, c, 10u8]
}

/// The alternating negative/positive sections of a conflict, from index `k`.
pub open spec fn conflict_sections(m: MergeVal, k: int) -> Seq<u8>
    decreases m.removes.len() - k
        when 0 <= k <= m.removes.len() && mv_wf(m)
{
    if k >= m.removes.len() {
        Seq::<u8>::empty()
    } else {
        marker_of(45u8) + render_val(m.removes[k]) + marker_of(43u8) + render_val(m.adds[k + 1])
            + conflict_sections(m, k + 1)
    }
}

/// Textual rendering of a merge value: a resolved value is its own bytes; a
/// conflict renders every side between marker lines. This is lossy and
/// one-directional.
pub open spec fn materialize_spec(m: MergeVal) -> Seq<u8> {
    if mv_resolved(m) {
        render_val(m.adds[0])
    } else {
        marker_of(60u8) + marker_of(43u8) + render_val(m.adds[0]) + conflict_sections(m, 0)
            + marker_of(62u8)
    }
}

/// Append a marker line of the given byte.
fn push_marker(out: &mut Vec<u8>, c: u8)
    ensures
        final(out)@ == old(out)@ + marker_of(c),
{
    out.push(c);
    out.push(c);
    out.push(c);
    out.push(c);
    out.push(c);
    out.push(c);
    out.push(c);
    out.push(10u8);
    assert(out@ =~= old(out)@ + marker_of(c));
}

/// Append the rendered bytes of one value.
fn push_rendered(out: &mut Vec<u8>, v: &EntryValue)
    ensures
        final(out)@ == old(out)@ + render_val(v@),
{
    match v {
        EntryValue::Absent => {
            assert(out@ =~= old(out)@ + render_val(v@));
        },
        EntryValue::File { content, executable } => {
            let n = content.len();
            let mut i: usize = 0;
            while i < n
                invariant
                    n == content.len(),
                    i <= n,
                    out@ == old(out)@ + content@.subrange(0, i as int),
                decreases n - i,
            {
                out.push(content[i]);
                assert(out@ =~= old(out)@ + content@.subrange(0, i + 1 as int));
                i += 1;
            }
            assert(out@ =~= old(out)@ + render_val(v@));
        },
        EntryValue::Symlink { target } => {
            let n = target.len();
            let mut i: usize = 0;
            while i < n
                invariant
                    n == target.len(),
                    i <= n,
                    out@ == old(out)@ + target@.subrange(0, i as int),
                decreases n - i,
            {
                out.push(target[i]);
                assert(out@ =~= old(out)@ + target@.subrange(0, i + 1 as int));
                i += 1;
            }
            assert(out@ =~= old(out)@ + render_val(v@));
        },
    }
}

/// Render a merge value as bytes, with conflict markers for unresolved values.
pub fn materialize(m: &MergeValue) -> (r: Vec<u8>)
    requires
        mv_wf(m@),
    ensures
        r@ == materialize_spec(m@),
{
    let mut out: Vec<u8> = Vec::new();
    if m.removes.len() == 0 {
        push_rendered(&mut out, &m.adds[0]);
        assert(out@ =~= materialize_spec(m@));
        return out;
    }
    push_marker(&mut out, 60u8);
    push_marker(&mut out, 43u8);
    push_rendered(&mut out, &m.adds[0]);
    let nr = m.removes.len();
    let mut k: usize = 0;
    proof {
        assert(out@ + conflict_sections(m@, 0) + marker_of(62u8) =~= materialize_spec(m@));
    }
    while k < nr
        invariant
            nr == m.removes.len(),
            mv_wf(m@),
            k <= nr,
            out@ + conflict_sections(m@, k as int) + marker_of(62u8) == materialize_spec(m@),
        decreases nr - k,
    {
        let ghost before = out@;
        push_marker(&mut out, 45u8);
        push_rendered(&mut out, &m.removes[k]);
        push_marker(&mut out, 43u8);
        push_rendered(&mut out, &m.adds[k + 1]);
        proof {
            assert(m@.removes[k as int] == m.removes@[k as int]@);
            assert(m@.adds[k + 1 as int] == m.adds@[k + 1 as int]@);
            assert(out@ =~= before + (marker_of(45u8) + render_val(m@.removes[k as int]) + marker_of(
                43u8,
            ) + render_val(m@.adds[k + 1 as int])));
            assert(out@ + conflict_sections(m@, k + 1 as int) + marker_of(62u8) =~= before
                + conflict_sections(m@, k as int) + marker_of(62u8));
        }
        k += 1;
    }
    proof {
        assert(conflict_sections(m@, nr as int) =~= Seq::<u8>::empty());
    }
    push_marker(&mut out, 62u8);
    assert(out@ =~= materialize_spec(m@));
    out
}

/// Materializing the conflict of two sides renders both candidate values and
/// the base between marker lines.
pub proof fn lemma_materialize_shows_both_sides(base: EntryVal, a: EntryVal, b: EntryVal)
    requires
        a != b,
        a != base,
        b != base,
    ensures
        materialize_spec(merge_val(mv_of(base), mv_of(a), mv_of(b))) == marker_of(60u8) + marker_of(
            43u8,
        ) + render_val(a) + marker_of(45u8) + render_val(base) + marker_of(43u8) + render_val(b)
            + marker_of(62u8),
{
    lemma_merge_conflict(base, a, b);
    let m = merge_val(mv_of(base), mv_of(a), mv_of(b));
    assert(conflict_sections(m, 1) =~= Seq::<u8>::empty());
    assert(conflict_sections(m, 0) == marker_of(45u8) + render_val(base) + marker_of(43u8)
        + render_val(b) + conflict_sections(m, 1));
    assert(materialize_spec(m) =~= marker_of(60u8) + marker_of(43u8) + render_val(a) + marker_of(
        45u8,
    ) + render_val(base) + marker_of(43u8) + render_val(b) + marker_of(62u8));
}

} // verus!
