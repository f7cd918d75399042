use crate::assembler::{
    aimed_at, byte_count, code_bytes, fields_present, labels_unique, placed, placed_at, targets,
    Emit,
};
use vstd::prelude::*;

verus! {

/// What linking needs to know of a piece of a listing: how many bytes it holds, which
/// labels stand in it, and which labels its jump fields point to.
pub open spec fn sound(piece: Seq<Emit>, bytes: int, stands: Set<nat>, aims: Set<nat>) -> bool {
    &&& byte_count(piece, piece.len() as int) == bytes
    &&& labels_unique(piece)
    &&& fields_present(piece)
    &&& placed(piece) =~= stands
    &&& targets(piece) =~= aims
}

/// Counting bytes over two pieces laid end to end.
pub proof fn lemma_count_concat(a: Seq<Emit>, b: Seq<Emit>, k: int)
    requires
        0 <= k <= b.len(),
    ensures
        byte_count(a + b, a.len() + k) == byte_count(a, a.len() as int) + byte_count(b, k),
    decreases k,
{
    if k > 0 {
        lemma_count_concat(a, b, k - 1);
        assert((a + b)[a.len() + k - 1] == b[k - 1]);
    } else {
        lemma_count_prefix(a + b, a, a.len() as int);
    }
}

/// The count over the first `k` things depends on those things only.
pub proof fn lemma_count_prefix(a: Seq<Emit>, b: Seq<Emit>, k: int)
    requires
        0 <= k <= a.len(),
        k <= b.len(),
        forall|m: int| 0 <= m < k ==> a[m] == b[m],
    ensures
        byte_count(a, k) == byte_count(b, k),
    decreases k,
{
    if k > 0 {
        lemma_count_prefix(a, b, k - 1);
    }
}

/// The count never falls.
pub proof fn lemma_count_grows(a: Seq<Emit>, k: int)
    ensures
        byte_count(a, k) >= 0,
    decreases k,
{
    if k > 0 {
        lemma_count_grows(a, k - 1);
    }
}

/// Two sound pieces that share no label make a sound piece when laid end to end.
pub proof fn lemma_sound_concat(
    a: Seq<Emit>,
    a_bytes: int,
    a_stands: Set<nat>,
    a_aims: Set<nat>,
    b: Seq<Emit>,
    b_bytes: int,
    b_stands: Set<nat>,
    b_aims: Set<nat>,
)
    requires
        sound(a, a_bytes, a_stands, a_aims),
        sound(b, b_bytes, b_stands, b_aims),
        a_stands.disjoint(b_stands),
    ensures
        sound(a + b, a_bytes + b_bytes, a_stands.union(b_stands), a_aims.union(b_aims)),
{
    let c = a + b;
    lemma_count_concat(a, b, b.len() as int);
    assert forall|i: int| 0 <= i < a.len() implies c[i] == a[i] by {}
    assert forall|i: int| a.len() <= i < c.len() implies c[i] == b[i - a.len()] by {}
    assert forall|id: nat| placed(c).contains(id) <==> a_stands.union(b_stands).contains(id) by {
        if placed(c).contains(id) {
            let i = choose|i: int| placed_at(c, id, i);
            if i < a.len() {
                assert(placed_at(a, id, i));
                assert(placed(a).contains(id));
            } else {
                assert(placed_at(b, id, i - a.len()));
                assert(placed(b).contains(id));
            }
        }
        if a_stands.contains(id) {
            assert(placed(a).contains(id));
            let i = choose|i: int| placed_at(a, id, i);
            assert(placed_at(c, id, i));
        }
        if b_stands.contains(id) {
            assert(placed(b).contains(id));
            let i = choose|i: int| placed_at(b, id, i);
            assert(placed_at(c, id, i + a.len()));
        }
    }
    assert forall|id: nat| targets(c).contains(id) <==> a_aims.union(b_aims).contains(id) by {
        if targets(c).contains(id) {
            let i = choose|i: int| aimed_at(c, id, i);
            if i < a.len() {
                assert(aimed_at(a, id, i));
                assert(targets(a).contains(id));
            } else {
                assert(aimed_at(b, id, i - a.len()));
                assert(targets(b).contains(id));
            }
        }
        if a_aims.contains(id) {
            assert(targets(a).contains(id));
            let i = choose|i: int| aimed_at(a, id, i);
            assert(aimed_at(c, id, i));
        }
        if b_aims.contains(id) {
            assert(targets(b).contains(id));
            let i = choose|i: int| aimed_at(b, id, i);
            assert(aimed_at(c, id, i + a.len()));
        }
    }
    assert forall|id: nat, i: int, j: int| placed_at(c, id, i) && placed_at(c, id, j) implies i
        == j by {
        if i < a.len() {
            assert(placed_at(a, id, i));
            assert(placed(a).contains(id));
            if j >= a.len() {
                assert(placed_at(b, id, j - a.len()));
                assert(placed(b).contains(id));
                assert(a_stands.contains(id) && b_stands.contains(id));
            } else {
                assert(placed_at(a, id, j));
            }
        } else {
            assert(placed_at(b, id, i - a.len()));
            assert(placed(b).contains(id));
            if j < a.len() {
                assert(placed_at(a, id, j));
                assert(placed(a).contains(id));
                assert(a_stands.contains(id) && b_stands.contains(id));
            } else {
                assert(placed_at(b, id, j - a.len()));
            }
        }
    }
    assert forall|id: nat, i: int| aimed_at(c, id, i) implies byte_count(c, i) >= 4 by {
        if i < a.len() {
            assert(aimed_at(a, id, i));
            lemma_count_prefix(c, a, i);
        } else {
            assert(aimed_at(b, id, i - a.len()));
            lemma_count_concat(a, b, i - a.len());
            lemma_count_grows(a, a.len() as int);
        }
    }
}

/// Plain bytes are a sound piece with no label and no jump field.
pub proof fn lemma_sound_bytes(bytes: Seq<u8>)
    ensures
        sound(code_bytes(bytes), bytes.len() as int, Set::empty(), Set::empty()),
{
    let c = code_bytes(bytes);
    lemma_count_bytes(bytes, bytes.len() as int);
    assert forall|id: nat| !placed(c).contains(id) by {
        if placed(c).contains(id) {
            let i = choose|i: int| placed_at(c, id, i);
            assert(c[i] is Byte);
        }
    }
    assert forall|id: nat| !targets(c).contains(id) by {
        if targets(c).contains(id) {
            let i = choose|i: int| aimed_at(c, id, i);
            assert(c[i] is Byte);
        }
    }
    assert forall|id: nat, i: int, j: int| placed_at(c, id, i) && placed_at(c, id, j) implies i
        == j by {
        assert(c[i] is Byte);
    }
    assert forall|id: nat, i: int| aimed_at(c, id, i) implies byte_count(c, i) >= 4 by {
        assert(c[i] is Byte);
    }
}

/// Among plain bytes every thing counts.
pub proof fn lemma_count_bytes(bytes: Seq<u8>, k: int)
    requires
        0 <= k <= bytes.len(),
    ensures
        byte_count(code_bytes(bytes), k) == k,
    decreases k,
{
    if k > 0 {
        lemma_count_bytes(bytes, k - 1);
        assert(code_bytes(bytes)[k - 1] is Byte);
    }
}

/// A label alone is a sound piece.
pub proof fn lemma_sound_label(id: nat)
    ensures
        sound(seq![Emit::Label(id)], 0, set![id], Set::empty()),
{
    let c = seq![Emit::Label(id)];
    assert(c[0] == Emit::Label(id));
    assert(byte_count(c, 1) == byte_count(c, 0));
    assert forall|x: nat| placed(c).contains(x) <==> set![id].contains(x) by {
        if placed(c).contains(x) {
            let i = choose|i: int| placed_at(c, x, i);
            assert(i == 0);
        }
        if x == id {
            assert(placed_at(c, id, 0));
        }
    }
    assert forall|x: nat| !targets(c).contains(x) by {
        if targets(c).contains(x) {
            let i = choose|i: int| aimed_at(c, x, i);
            assert(i == 0);
        }
    }
}

/// A sound piece with plain bytes behind it.
pub proof fn lemma_then_bytes(
    a: Seq<Emit>,
    bytes: int,
    stands: Set<nat>,
    aims: Set<nat>,
    more: Seq<u8>,
)
    requires
        sound(a, bytes, stands, aims),
    ensures
        sound(a + code_bytes(more), bytes + more.len(), stands, aims),
{
    lemma_sound_bytes(more);
    lemma_sound_concat(
        a,
        bytes,
        stands,
        aims,
        code_bytes(more),
        more.len() as int,
        Set::empty(),
        Set::empty(),
    );
    assert(stands.union(Set::empty()) =~= stands);
    assert(aims.union(Set::empty()) =~= aims);
}

/// A sound piece with a label behind it that does not stand in it.
pub proof fn lemma_then_label(
    a: Seq<Emit>,
    bytes: int,
    stands: Set<nat>,
    aims: Set<nat>,
    id: nat,
)
    requires
        sound(a, bytes, stands, aims),
        !stands.contains(id),
    ensures
        sound(a + seq![Emit::Label(id)], bytes, stands.insert(id), aims),
{
    lemma_sound_label(id);
    lemma_sound_concat(a, bytes, stands, aims, seq![Emit::Label(id)], 0, set![id], Set::empty());
    assert(stands.union(set![id]) =~= stands.insert(id));
    assert(aims.union(Set::empty()) =~= aims);
}

/// A sound piece that holds four bytes or more, with a jump mark behind it.
pub proof fn lemma_then_mark(
    a: Seq<Emit>,
    bytes: int,
    stands: Set<nat>,
    aims: Set<nat>,
    id: nat,
)
    requires
        sound(a, bytes, stands, aims),
        bytes >= 4,
    ensures
        sound(a + seq![Emit::Jump(id)], bytes, stands, aims.insert(id)),
{
    let m = seq![Emit::Jump(id)];
    let c = a + m;
    assert(c[a.len() as int] == Emit::Jump(id));
    lemma_count_concat(a, m, 1);
    lemma_count_concat(a, m, 0);
    assert(byte_count(m, 1) == byte_count(m, 0));
    assert forall|x: nat| placed(c).contains(x) <==> stands.contains(x) by {
        if placed(c).contains(x) {
            let i = choose|i: int| placed_at(c, x, i);
            assert(i < a.len());
            assert(placed_at(a, x, i));
            assert(placed(a).contains(x));
        }
        if stands.contains(x) {
            assert(placed(a).contains(x));
            let i = choose|i: int| placed_at(a, x, i);
            assert(placed_at(c, x, i));
        }
    }
    assert forall|x: nat| targets(c).contains(x) <==> aims.insert(id).contains(x) by {
        if targets(c).contains(x) {
            let i = choose|i: int| aimed_at(c, x, i);
            if i < a.len() {
                assert(aimed_at(a, x, i));
                assert(targets(a).contains(x));
            }
        }
        if aims.contains(x) {
            assert(targets(a).contains(x));
            let i = choose|i: int| aimed_at(a, x, i);
            assert(aimed_at(c, x, i));
        }
        if x == id {
            assert(aimed_at(c, id, a.len() as int));
        }
    }
    assert forall|x: nat, i: int, j: int| placed_at(c, x, i) && placed_at(c, x, j) implies i
        == j by {
        assert(placed_at(a, x, i));
        assert(placed_at(a, x, j));
    }
    assert forall|x: nat, i: int| aimed_at(c, x, i) implies byte_count(c, i) >= 4 by {
        if i < a.len() {
            assert(aimed_at(a, x, i));
            lemma_count_prefix(c, a, i);
        }
    }
}

/// Nothing at all is a sound piece.
pub proof fn lemma_sound_empty()
    ensures
        sound(Seq::<Emit>::empty(), 0, Set::empty(), Set::empty()),
{
    let c = Seq::<Emit>::empty();
    assert forall|x: nat| !placed(c).contains(x) by {
        if placed(c).contains(x) {
            let i = choose|i: int| placed_at(c, x, i);
        }
    }
    assert forall|x: nat| !targets(c).contains(x) by {
        if targets(c).contains(x) {
            let i = choose|i: int| aimed_at(c, x, i);
        }
    }
}

} // verus!
