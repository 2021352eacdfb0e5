//! The label table: names bound to block ids, many names to one id, kept in
//! increasing order of the names' bytes.

use crate::arena::SetBbLabelError;
use crate::BbId;
use std::collections::BTreeMap;
use vstd::prelude::*;
use vstd::utf8::{encode_utf8, encode_utf8_decode_utf8};

verus! {

/// `a` and `b` agree on their first `k` bytes, and there `a` ends or holds
/// the smaller byte while `b` goes on.
pub open spec fn parts_at(a: Seq<u8>, b: Seq<u8>, k: int) -> bool {
    &&& 0 <= k <= a.len()
    &&& k < b.len()
    &&& forall|j: int| 0 <= j < k ==> a[j] == b[j]
    &&& k < a.len() ==> a[k] < b[k]
}

/// Strict lexicographic order of byte strings.
pub open spec fn bytes_lt(a: Seq<u8>, b: Seq<u8>) -> bool {
    exists|k: int| parts_at(a, b, k)
}

/// The order of labels: that of their UTF-8 bytes.
pub open spec fn label_lt(a: Seq<char>, b: Seq<char>) -> bool {
    bytes_lt(encode_utf8(a), encode_utf8(b))
}

/// A sequence of labels in strictly increasing order.
pub open spec fn increasing(s: Seq<Seq<char>>) -> bool {
    forall|i: int, j: int| 0 <= i < j < s.len() ==> label_lt(s[i], s[j])
}

/// No byte string comes before itself, and of two only one comes first.
pub proof fn lemma_bytes_lt_asymmetric(a: Seq<u8>, b: Seq<u8>)
    requires
        bytes_lt(a, b),
    ensures
        a != b,
        !bytes_lt(b, a),
{
    let k = choose|k: int| parts_at(a, b, k);
    if a == b {
        assert(false);
    }
    if bytes_lt(b, a) {
        let m = choose|m: int| parts_at(b, a, m);
        if k < m {
            assert(b[k] == a[k]);
        } else if m < k {
            assert(a[m] == b[m]);
        }
        assert(false);
    }
}

/// The order of byte strings is transitive.
pub proof fn lemma_bytes_lt_transitive(a: Seq<u8>, b: Seq<u8>, c: Seq<u8>)
    requires
        bytes_lt(a, b),
        bytes_lt(b, c),
    ensures
        bytes_lt(a, c),
{
    let k = choose|k: int| parts_at(a, b, k);
    let m = choose|m: int| parts_at(b, c, m);
    let n = if k <= m {
        k
    } else {
        m
    };
    assert(parts_at(a, c, n));
}

/// Labels that differ have different bytes.
pub proof fn lemma_label_bytes(a: Seq<char>, b: Seq<char>)
    ensures
        encode_utf8(a) == encode_utf8(b) <==> a == b,
{
    encode_utf8_decode_utf8(a);
    encode_utf8_decode_utf8(b);
}

/// No label comes before itself, and the order is transitive.
pub proof fn lemma_label_lt(a: Seq<char>, b: Seq<char>, c: Seq<char>)
    ensures
        label_lt(a, b) ==> a != b && !label_lt(b, a),
        label_lt(a, b) && label_lt(b, c) ==> label_lt(a, c),
{
    if label_lt(a, b) {
        lemma_bytes_lt_asymmetric(encode_utf8(a), encode_utf8(b));
        if label_lt(b, c) {
            lemma_bytes_lt_transitive(encode_utf8(a), encode_utf8(b), encode_utf8(c));
        }
    }
}

/// Where one label stands relative to another.
pub enum Side {
    Before,
    Same,
    After,
}

/// Compares two labels by their bytes.
pub fn side_of(a: &str, b: &str) -> (r: Side)
    ensures
        r is Before <==> label_lt(a@, b@),
        r is Same <==> a@ == b@,
        r is After <==> label_lt(b@, a@),
{
    let x = a.as_bytes();
    let y = b.as_bytes();
    let mut i: usize = 0;
    while i < x.len() && i < y.len()
        invariant
            i <= x.len(),
            i <= y.len(),
            x@ == encode_utf8(a@),
            y@ == encode_utf8(b@),
            forall|j: int| 0 <= j < i ==> x@[j] == y@[j],
        decreases x.len() - i,
    {
        if x[i] < y[i] {
            proof {
                assert(parts_at(x@, y@, i as int));
                lemma_bytes_lt_asymmetric(x@, y@);
                lemma_label_bytes(a@, b@);
            }
            return Side::Before;
        }
        if y[i] < x[i] {
            proof {
                assert(parts_at(y@, x@, i as int));
                lemma_bytes_lt_asymmetric(y@, x@);
                lemma_label_bytes(a@, b@);
            }
            return Side::After;
        }
        i += 1;
    }
    proof {
        lemma_label_bytes(a@, b@);
    }
    if x.len() < y.len() {
        proof {
            assert(parts_at(x@, y@, i as int));
            lemma_bytes_lt_asymmetric(x@, y@);
        }
        Side::Before
    } else if y.len() < x.len() {
        proof {
            assert(parts_at(y@, x@, i as int));
            lemma_bytes_lt_asymmetric(y@, x@);
        }
        Side::After
    } else {
        proof {
            assert(x@ =~= y@);
            if bytes_lt(x@, y@) {
                lemma_bytes_lt_asymmetric(x@, y@);
            }
        }
        Side::Same
    }
}

/// The label table.
#[derive(Debug)]
pub struct LabelMap {
    entries: Vec<(String, BbId)>,
}

/// The names of a sequence of entries.
pub open spec fn names_of(e: Seq<(String, BbId)>) -> Seq<Seq<char>> {
    e.map_values(|p: (String, BbId)| p.0@)
}

/// The bindings that a sequence of entries with distinct names makes.
pub open spec fn bindings_of(e: Seq<(String, BbId)>) -> Map<Seq<char>, BbId> {
    Map::new(
        |l: Seq<char>| names_of(e).contains(l),
        |l: Seq<char>| e[names_of(e).index_of(l)].1,
    )
}

/// In a sorted sequence of entries each name is bound to the id beside it.
pub proof fn lemma_bindings(e: Seq<(String, BbId)>)
    requires
        increasing(names_of(e)),
    ensures
        forall|i: int|
            0 <= i < e.len() ==> #[trigger] bindings_of(e).contains_key(e[i].0@) && bindings_of(
                e,
            )[e[i].0@] == e[i].1,
        forall|l: Seq<char>| #[trigger]
            bindings_of(e).contains_key(l) ==> exists|i: int| 0 <= i < e.len() && e[i].0@ == l,
        bindings_of(e).dom().finite(),
{
    let names = names_of(e);
    assert forall|i: int| 0 <= i < e.len() implies #[trigger] bindings_of(e).contains_key(
        e[i].0@,
    ) && bindings_of(e)[e[i].0@] == e[i].1 by {
        assert(names[i] == e[i].0@);
        let k = names.index_of(e[i].0@);
        assert(0 <= k < names.len() && names[k] == e[i].0@);
        if k < i {
            lemma_label_lt(names[k], names[i], names[i]);
        } else if i < k {
            lemma_label_lt(names[i], names[k], names[i]);
        }
    }
    assert forall|l: Seq<char>| #[trigger] bindings_of(e).contains_key(l) implies exists|i: int|
        0 <= i < e.len() && e[i].0@ == l by {
        let k = names.index_of(l);
        assert(0 <= k < names.len() && names[k] == l);
        assert(e[k].0@ == l);
    }
    assert(bindings_of(e).dom() =~= names.to_set());
    vstd::seq_lib::seq_to_set_is_finite(names);
}

impl View for LabelMap {
    type V = Map<Seq<char>, BbId>;

    /// The bindings: label to block id.
    closed spec fn view(&self) -> Map<Seq<char>, BbId> {
        bindings_of(self.entries@)
    }
}

/// The names and ids of a sequence of entries.
pub open spec fn pairs_of(e: Seq<(String, BbId)>) -> Seq<(Seq<char>, BbId)> {
    e.map_values(|p: (String, BbId)| (p.0@, p.1))
}

impl LabelMap {
    #[verifier::type_invariant]
    spec fn sorted(self) -> bool {
        increasing(names_of(self.entries@))
    }

    /// The bindings as a sequence, in increasing order of the labels.
    pub closed spec fn listing(&self) -> Seq<(Seq<char>, BbId)> {
        pairs_of(self.entries@)
    }

    /// An empty table.
    pub fn new() -> (r: Self)
        ensures
            r@ == Map::<Seq<char>, BbId>::empty(),
    {
        let r = LabelMap { entries: Vec::new() };
        assert(r@ =~= Map::<Seq<char>, BbId>::empty());
        r
    }

    /// The number of labels.
    pub fn len(&self) -> (r: usize)
        ensures
            r == self@.len(),
            self@.dom().finite(),
    {
        proof {
            use_type_invariant(self);
            lemma_bindings(self.entries@);
            let names = names_of(self.entries@);
            assert(self@.dom() =~= names.to_set());
            assert(names.no_duplicates()) by {
                assert forall|i: int, j: int|
                    0 <= i < names.len() && 0 <= j < names.len() && i != j implies names[i]
                    != names[j] by {
                    if i < j {
                        lemma_label_lt(names[i], names[j], names[j]);
                    } else {
                        lemma_label_lt(names[j], names[i], names[i]);
                    }
                }
            }
            names.unique_seq_to_set();
        }
        self.entries.len()
    }

    /// Whether the table holds no label.
    pub fn is_empty(&self) -> (r: bool)
        ensures
            r == (self@.len() == 0),
            self@.dom().finite(),
    {
        self.len() == 0
    }

    /// The entries, in increasing order of their names.
    pub fn entries(&self) -> (r: &Vec<(String, BbId)>)
        ensures
            increasing(names_of(r@)),
            bindings_of(r@) == self@,
            pairs_of(r@) == self.listing(),
    {
        proof {
            use_type_invariant(self);
        }
        &self.entries
    }

    /// Where `label` stands, or would stand, among the entries.
    fn position(&self, label: &str) -> (r: (usize, bool))
        ensures
            r.0 <= self.entries.len(),
            r.1 == self@.contains_key(label@),
            r.1 ==> r.0 < self.entries.len() && self.entries[r.0 as int].0@ == label@,
            forall|i: int| 0 <= i < r.0 ==> label_lt(#[trigger] self.entries[i].0@, label@),
            forall|i: int|
                r.0 + (if r.1 {
                    1int
                } else {
                    0int
                }) <= i < self.entries.len() ==> label_lt(label@, #[trigger] self.entries[i].0@),
    {
        proof {
            use_type_invariant(self);
            lemma_bindings(self.entries@);
        }
        let ghost names = names_of(self.entries@);
        let mut lo: usize = 0;
        let mut hi: usize = self.entries.len();
        while lo < hi
            invariant
                lo <= hi <= self.entries.len(),
                names == names_of(self.entries@),
                increasing(names),
                forall|i: int| 0 <= i < lo ==> label_lt(#[trigger] self.entries[i].0@, label@),
                forall|i: int|
                    hi <= i < self.entries.len() ==> label_lt(
                        label@,
                        #[trigger] self.entries[i].0@,
                    ),
                forall|i: int|
                    0 <= i < self.entries.len() ==> #[trigger] self@.contains_key(
                        self.entries[i].0@,
                    ),
            decreases hi - lo,
        {
            let mid = lo + (hi - lo) / 2;
            match side_of(self.entries[mid].0.as_str(), label) {
                Side::Before => {
                    proof {
                        assert forall|i: int| 0 <= i < mid + 1 implies label_lt(
                            #[trigger] self.entries[i].0@,
                            label@,
                        ) by {
                            if i < mid {
                                assert(label_lt(names[i], names[mid as int]));
                                lemma_label_lt(names[i], names[mid as int], label@);
                            }
                        }
                    }
                    lo = mid + 1;
                },
                Side::After => {
                    proof {
                        assert forall|i: int| mid <= i < self.entries.len() implies label_lt(
                            label@,
                            #[trigger] self.entries[i].0@,
                        ) by {
                            if mid < i {
                                assert(label_lt(names[mid as int], names[i]));
                                lemma_label_lt(label@, names[mid as int], names[i]);
                            }
                        }
                    }
                    hi = mid;
                },
                Side::Same => {
                    proof {
                        assert forall|i: int| 0 <= i < mid implies label_lt(
                            #[trigger] self.entries[i].0@,
                            label@,
                        ) by {
                            assert(label_lt(names[i], names[mid as int]));
                        }
                        assert forall|i: int| mid + 1 <= i < self.entries.len() implies label_lt(
                            label@,
                            #[trigger] self.entries[i].0@,
                        ) by {
                            assert(label_lt(names[mid as int], names[i]));
                        }
                    }
                    return (mid, true);
                },
            }
        }
        proof {
            if self@.contains_key(label@) {
                let i = choose|i: int| 0 <= i < self.entries.len() && self.entries[i].0@ == label@;
                if i < lo {
                    lemma_label_lt(self.entries[i].0@, label@, label@);
                } else {
                    lemma_label_lt(label@, self.entries[i].0@, label@);
                }
            }
        }
        (lo, false)
    }

    /// The id that `label` is bound to, if any.
    pub fn get(&self, label: &str) -> (r: Option<BbId>)
        ensures
            r == self@.get(label@),
    {
        proof {
            use_type_invariant(self);
            lemma_bindings(self.entries@);
        }
        let (at, found) = self.position(label);
        if found {
            Some(self.entries[at].1)
        } else {
            None
        }
    }

    /// Whether some label is bound to `bbid`.
    pub fn is_bound(&self, bbid: BbId) -> (r: bool)
        ensures
            r == self@.contains_value(bbid),
    {
        proof {
            use_type_invariant(self);
            lemma_bindings(self.entries@);
        }
        let mut i: usize = 0;
        while i < self.entries.len()
            invariant
                i <= self.entries.len(),
                forall|k: int| 0 <= k < i ==> self.entries[k].1 != bbid,
                forall|k: int|
                    0 <= k < self.entries.len() ==> #[trigger] self@.contains_key(
                        self.entries[k].0@,
                    ) && self@[self.entries[k].0@] == self.entries[k].1,
            decreases self.entries.len() - i,
        {
            if self.entries[i].1 == bbid {
                assert(self@.contains_key(self.entries[i as int].0@));
                return true;
            }
            i += 1;
        }
        proof {
            if self@.contains_value(bbid) {
                let l = choose|l: Seq<char>| self@.contains_key(l) && self@[l] == bbid;
                let k = choose|k: int| 0 <= k < self.entries.len() && self.entries[k].0@ == l;
                assert(self@.contains_key(self.entries[k].0@));
            }
        }
        false
    }

    /// The ids that the labels are bound to, in the order of the labels.
    pub fn targets(&self) -> (r: Vec<BbId>)
        ensures
            r@ == self.listing().map_values(|p: (Seq<char>, BbId)| p.1),
            r@.to_set() == self@.values(),
    {
        proof {
            use_type_invariant(self);
            lemma_bindings(self.entries@);
        }
        let mut r: Vec<BbId> = Vec::new();
        let mut i: usize = 0;
        while i < self.entries.len()
            invariant
                i <= self.entries.len(),
                r@.len() == i,
                forall|k: int| 0 <= k < i ==> r@[k] == self.entries[k].1,
            decreases self.entries.len() - i,
        {
            r.push(self.entries[i].1);
            i += 1;
        }
        proof {
            assert forall|t: BbId| r@.to_set().contains(t) <==> self@.values().contains(t) by {
                if r@.to_set().contains(t) {
                    let k = choose|k: int| 0 <= k < r@.len() && r@[k] == t;
                    assert(self@.contains_key(self.entries[k].0@));
                }
                if self@.values().contains(t) {
                    let l = choose|l: Seq<char>| self@.contains_key(l) && self@[l] == t;
                    let k = choose|k: int| 0 <= k < self.entries.len() && self.entries[k].0@ == l;
                    assert(self@.contains_key(self.entries[k].0@));
                    assert(r@[k] == t);
                }
            }
            assert(r@.to_set() =~= self@.values());
        }
        r
    }

    /// Rewrites the table by `plan`: a label whose id the plan maps to
    /// `None` leaves the table, and one whose id it maps to another id is
    /// bound to that instead. Returns the labels that left, in increasing
    /// order.
    pub fn rewrite(&mut self, plan: &BTreeMap<BbId, Option<BbId>>) -> (r: Vec<String>)
        ensures
            final(self)@ == rewritten(old(self)@, plan@),
            increasing(strings_view(r@)),
            strings_view(r@).to_set() == dropped(old(self)@, plan@),
    {
        proof {
            use_type_invariant(&*self);
        }
        let mut all: Vec<(String, BbId)> = Vec::new();
        core::mem::swap(&mut self.entries, &mut all);
        let ghost before = all@;
        let mut kept: Vec<(String, BbId)> = Vec::new();
        let mut gone: Vec<String> = Vec::new();
        for e in it: all
            invariant
                it.seq() == before,
                increasing(names_of(before)),
                increasing(names_of(kept@)),
                increasing(strings_view(gone@)),
                forall|k: int|
                    0 <= k < kept@.len() ==> came_from(
                        before,
                        plan@,
                        it.index(),
                        (#[trigger] kept@[k]).0@,
                        Some(kept@[k].1),
                    ),
                forall|k: int|
                    0 <= k < gone@.len() ==> came_from(
                        before,
                        plan@,
                        it.index(),
                        (#[trigger] gone@[k])@,
                        None,
                    ),
                forall|i: int|
                    0 <= i < it.index() ==> went_to(#[trigger] before[i], plan@, kept@, gone@),
        {
            let ghost at = it.index();
            let ghost kept0 = kept@;
            let ghost gone0 = gone@;
            assert(e == before[at]);
            let (name, id) = e;
            let to = match plan.get(&id) {
                None => Some(id),
                Some(x) => *x,
            };
            assert(to == planned(plan@, id));
            match to {
                Some(t) => {
                    kept.push((name, t));
                },
                None => {
                    gone.push(name);
                },
            }
            proof {
                lemma_rewrite_step(before, plan@, at, kept0, gone0, kept@, gone@);
            }
        }
        proof {
            lemma_rewrite_done(before, plan@, kept@, gone@);
        }
        self.entries = kept;
        gone
    }
}

/// Among the first `n` of `before` stands an entry named `name` that the
/// plan sends to `to`.
pub open spec fn came_from(
    before: Seq<(String, BbId)>,
    plan: Map<BbId, Option<BbId>>,
    n: int,
    name: Seq<char>,
    to: Option<BbId>,
) -> bool {
    exists|i: int|
        0 <= i < n && i < before.len() && (#[trigger] before[i]).0@ == name && planned(
            plan,
            before[i].1,
        ) == to
}

/// The entry `e` went where the plan sends it: into `kept` under its new id,
/// or into `gone`.
pub open spec fn went_to(
    e: (String, BbId),
    plan: Map<BbId, Option<BbId>>,
    kept: Seq<(String, BbId)>,
    gone: Seq<String>,
) -> bool {
    match planned(plan, e.1) {
        Some(t) => exists|k: int|
            0 <= k < kept.len() && (#[trigger] kept[k]).0@ == e.0@ && kept[k].1 == t,
        None => exists|k: int| 0 <= k < gone.len() && (#[trigger] gone[k])@ == e.0@,
    }
}

/// One entry more dealt with keeps what holds of those before it.
proof fn lemma_rewrite_step(
    before: Seq<(String, BbId)>,
    plan: Map<BbId, Option<BbId>>,
    at: int,
    kept0: Seq<(String, BbId)>,
    gone0: Seq<String>,
    kept: Seq<(String, BbId)>,
    gone: Seq<String>,
)
    requires
        0 <= at < before.len(),
        increasing(names_of(before)),
        increasing(names_of(kept0)),
        increasing(strings_view(gone0)),
        forall|k: int|
            0 <= k < kept0.len() ==> came_from(
                before,
                plan,
                at,
                (#[trigger] kept0[k]).0@,
                Some(kept0[k].1),
            ),
        forall|k: int|
            0 <= k < gone0.len() ==> came_from(before, plan, at, (#[trigger] gone0[k])@, None),
        forall|i: int| 0 <= i < at ==> went_to(#[trigger] before[i], plan, kept0, gone0),
        match planned(plan, before[at].1) {
            Some(t) => gone == gone0 && kept.len() == kept0.len() + 1 && kept.drop_last() =~= kept0
                && kept.last().0@ == before[at].0@ && kept.last().1 == t,
            None => kept == kept0 && gone.len() == gone0.len() + 1 && gone.drop_last() =~= gone0
                && gone.last()@ == before[at].0@,
        },
    ensures
        increasing(names_of(kept)),
        increasing(strings_view(gone)),
        forall|k: int|
            0 <= k < kept.len() ==> came_from(
                before,
                plan,
                at + 1,
                (#[trigger] kept[k]).0@,
                Some(kept[k].1),
            ),
        forall|k: int|
            0 <= k < gone.len() ==> came_from(before, plan, at + 1, (#[trigger] gone[k])@, None),
        forall|i: int| 0 <= i < at + 1 ==> went_to(#[trigger] before[i], plan, kept, gone),
{
    let names = names_of(before);
    assert forall|k: int| 0 <= k < kept.len() implies came_from(
        before,
        plan,
        at + 1,
        (#[trigger] kept[k]).0@,
        Some(kept[k].1),
    ) by {
        if k < kept0.len() {
            assert(kept[k] == kept0[k]) by {
                if kept != kept0 {
                    assert(kept.drop_last()[k] == kept[k]);
                }
            }
            assert(came_from(before, plan, at, kept0[k].0@, Some(kept0[k].1)));
            let i = choose|i: int|
                0 <= i < at && i < before.len() && (#[trigger] before[i]).0@ == kept0[k].0@
                    && planned(plan, before[i].1) == Some(kept0[k].1);
            assert(0 <= i < at + 1 && before[i].0@ == kept[k].0@);
        } else {
            assert(before[at].0@ == kept[k].0@);
        }
    }
    assert forall|k: int| 0 <= k < gone.len() implies came_from(
        before,
        plan,
        at + 1,
        (#[trigger] gone[k])@,
        None,
    ) by {
        if k < gone0.len() {
            assert(gone[k] == gone0[k]) by {
                if gone != gone0 {
                    assert(gone.drop_last()[k] == gone[k]);
                }
            }
            assert(came_from(before, plan, at, gone0[k]@, None));
            let i = choose|i: int|
                0 <= i < at && i < before.len() && (#[trigger] before[i]).0@ == gone0[k]@
                    && planned(plan, before[i].1) == None::<BbId>;
            assert(0 <= i < at + 1 && before[i].0@ == gone[k]@);
        } else {
            assert(before[at].0@ == gone[k]@);
        }
    }
    assert forall|i: int| 0 <= i < at + 1 implies went_to(
        #[trigger] before[i],
        plan,
        kept,
        gone,
    ) by {
        if i < at {
            assert(went_to(before[i], plan, kept0, gone0));
            match planned(plan, before[i].1) {
                Some(t) => {
                    let k = choose|k: int|
                        0 <= k < kept0.len() && (#[trigger] kept0[k]).0@ == before[i].0@
                            && kept0[k].1 == t;
                    assert(kept[k] == kept0[k]) by {
                        if kept != kept0 {
                            assert(kept.drop_last()[k] == kept[k]);
                        }
                    }
                },
                None => {
                    let k = choose|k: int|
                        0 <= k < gone0.len() && (#[trigger] gone0[k])@ == before[i].0@;
                    assert(gone[k] == gone0[k]) by {
                        if gone != gone0 {
                            assert(gone.drop_last()[k] == gone[k]);
                        }
                    }
                },
            }
        } else {
            match planned(plan, before[i].1) {
                Some(t) => {
                    assert(kept[kept.len() - 1].0@ == before[i].0@);
                },
                None => {
                    assert(gone[gone.len() - 1]@ == before[i].0@);
                },
            }
        }
    }
    assert forall|a: int, b: int| 0 <= a < b < kept.len() implies label_lt(
        names_of(kept)[a],
        names_of(kept)[b],
    ) by {
        if kept == kept0 {
        } else {
            assert(kept.drop_last()[a] == kept[a]);
            if b < kept0.len() {
                assert(kept.drop_last()[b] == kept[b]);
                assert(label_lt(names_of(kept0)[a], names_of(kept0)[b]));
            } else {
                assert(came_from(before, plan, at, kept0[a].0@, Some(kept0[a].1)));
                let i = choose|i: int|
                    0 <= i < at && i < before.len() && (#[trigger] before[i]).0@ == kept0[a].0@
                        && planned(plan, before[i].1) == Some(kept0[a].1);
                assert(label_lt(names[i], names[at]));
            }
        }
    }
    assert forall|a: int, b: int| 0 <= a < b < gone.len() implies label_lt(
        strings_view(gone)[a],
        strings_view(gone)[b],
    ) by {
        if gone == gone0 {
        } else {
            assert(gone.drop_last()[a] == gone[a]);
            if b < gone0.len() {
                assert(gone.drop_last()[b] == gone[b]);
                assert(label_lt(strings_view(gone0)[a], strings_view(gone0)[b]));
            } else {
                assert(came_from(before, plan, at, gone0[a]@, None));
                let i = choose|i: int|
                    0 <= i < at && i < before.len() && (#[trigger] before[i]).0@ == gone0[a]@
                        && planned(plan, before[i].1) == None::<BbId>;
                assert(label_lt(names[i], names[at]));
            }
        }
    }
}

/// When every entry was dealt with, `kept` holds the rewritten bindings and
/// `gone` the labels that left.
proof fn lemma_rewrite_done(
    before: Seq<(String, BbId)>,
    plan: Map<BbId, Option<BbId>>,
    kept: Seq<(String, BbId)>,
    gone: Seq<String>,
)
    requires
        increasing(names_of(before)),
        increasing(names_of(kept)),
        forall|k: int|
            0 <= k < kept.len() ==> came_from(
                before,
                plan,
                before.len() as int,
                (#[trigger] kept[k]).0@,
                Some(kept[k].1),
            ),
        forall|k: int|
            0 <= k < gone.len() ==> came_from(
                before,
                plan,
                before.len() as int,
                (#[trigger] gone[k])@,
                None,
            ),
        forall|i: int| 0 <= i < before.len() ==> went_to(#[trigger] before[i], plan, kept, gone),
    ensures
        bindings_of(kept) == rewritten(bindings_of(before), plan),
        strings_view(gone).to_set() == dropped(bindings_of(before), plan),
{
    lemma_bindings(before);
    lemma_bindings(kept);
    let was = bindings_of(before);
    let now = bindings_of(kept);
    let goal = rewritten(was, plan);
    let n = before.len() as int;
    assert forall|l: Seq<char>| now.contains_key(l) implies goal.contains_key(l) && now[l]
        == goal[l] by {
        let k = choose|k: int| 0 <= k < kept.len() && kept[k].0@ == l;
        assert(came_from(before, plan, n, kept[k].0@, Some(kept[k].1)));
        let i = choose|i: int|
            0 <= i < n && i < before.len() && (#[trigger] before[i]).0@ == kept[k].0@ && planned(
                plan,
                before[i].1,
            ) == Some(kept[k].1);
        assert(was.contains_key(before[i].0@));
        assert(now.contains_key(kept[k].0@));
    }
    assert forall|l: Seq<char>| goal.contains_key(l) implies now.contains_key(l) by {
        let i = choose|i: int| 0 <= i < before.len() && before[i].0@ == l;
        assert(was.contains_key(before[i].0@));
        assert(went_to(before[i], plan, kept, gone));
        let t = planned(plan, before[i].1)->0;
        let k = choose|k: int|
            0 <= k < kept.len() && (#[trigger] kept[k]).0@ == before[i].0@ && kept[k].1 == t;
        assert(now.contains_key(kept[k].0@));
    }
    assert(now =~= goal);
    let lost = strings_view(gone);
    assert forall|l: Seq<char>| lost.to_set().contains(l) <==> dropped(was, plan).contains(l) by {
        if lost.to_set().contains(l) {
            let k = choose|k: int| 0 <= k < lost.len() && lost[k] == l;
            assert(came_from(before, plan, n, gone[k]@, None));
            let i = choose|i: int|
                0 <= i < n && i < before.len() && (#[trigger] before[i]).0@ == gone[k]@
                    && planned(plan, before[i].1) == None::<BbId>;
            assert(was.contains_key(before[i].0@));
        }
        if dropped(was, plan).contains(l) {
            let i = choose|i: int| 0 <= i < before.len() && before[i].0@ == l;
            assert(was.contains_key(before[i].0@));
            assert(went_to(before[i], plan, kept, gone));
            let k = choose|k: int| 0 <= k < gone.len() && (#[trigger] gone[k])@ == before[i].0@;
            assert(lost[k] == l);
        }
    }
    assert(lost.to_set() =~= dropped(was, plan));
}

/// The views of a sequence of strings.
pub open spec fn strings_view(s: Seq<String>) -> Seq<Seq<char>> {
    s.map_values(|x: String| x@)
}

/// Where a plan sends an id: to itself unless the plan names it, and
/// nowhere if the plan maps it to `None`.
pub open spec fn planned(plan: Map<BbId, Option<BbId>>, id: BbId) -> Option<BbId> {
    if plan.contains_key(id) {
        plan[id]
    } else {
        Some(id)
    }
}

/// The bindings after a plan was applied to them.
pub open spec fn rewritten(labels: Map<Seq<char>, BbId>, plan: Map<BbId, Option<BbId>>) -> Map<
    Seq<char>,
    BbId,
> {
    Map::new(
        |l: Seq<char>| labels.contains_key(l) && planned(plan, labels[l]) is Some,
        |l: Seq<char>| planned(plan, labels[l])->0,
    )
}

/// The labels that a plan removes.
pub open spec fn dropped(labels: Map<Seq<char>, BbId>, plan: Map<BbId, Option<BbId>>) -> Set<
    Seq<char>,
> {
    Set::new(|l: Seq<char>| labels.contains_key(l) && planned(plan, labels[l]) is None)
}

/// The labels that are bound to `bbid`.
pub open spec fn bound_to(labels: Map<Seq<char>, BbId>, bbid: BbId) -> Set<Seq<char>> {
    Set::new(|l: Seq<char>| labels.contains_key(l) && labels[l] == bbid)
}

/// The views of a sequence of string slices.
pub open spec fn strs_view(s: Seq<&str>) -> Seq<Seq<char>> {
    s.map_values(|x: &str| x@)
}

/// Among the first `n` entries stands one named `name` and bound to `bbid`.
pub open spec fn bound_among(e: Seq<(String, BbId)>, n: int, name: Seq<char>, bbid: BbId) -> bool {
    exists|j: int| 0 <= j < n && j < e.len() && (#[trigger] e[j]).0@ == name && e[j].1 == bbid
}

/// `name` is one of `r`.
pub open spec fn listed(r: Seq<&str>, name: Seq<char>) -> bool {
    exists|k: int| 0 <= k < r.len() && (#[trigger] r[k])@ == name
}

/// One entry more looked at keeps what holds of the list so far.
proof fn lemma_list_step(e: Seq<(String, BbId)>, bbid: BbId, i: int, r0: Seq<&str>, r: Seq<&str>)
    requires
        0 <= i < e.len(),
        increasing(names_of(e)),
        increasing(strs_view(r0)),
        forall|k: int| 0 <= k < r0.len() ==> bound_among(e, i, (#[trigger] r0[k])@, bbid),
        forall|j: int| 0 <= j < i && (#[trigger] e[j]).1 == bbid ==> listed(r0, e[j].0@),
        if e[i].1 == bbid {
            r.len() == r0.len() + 1 && r.drop_last() =~= r0 && r.last()@ == e[i].0@
        } else {
            r == r0
        },
    ensures
        increasing(strs_view(r)),
        forall|k: int| 0 <= k < r.len() ==> bound_among(e, i + 1, (#[trigger] r[k])@, bbid),
        forall|j: int| 0 <= j < i + 1 && (#[trigger] e[j]).1 == bbid ==> listed(r, e[j].0@),
{
    assert forall|k: int| 0 <= k < r.len() implies bound_among(
        e,
        i + 1,
        (#[trigger] r[k])@,
        bbid,
    ) by {
        if k < r0.len() {
            assert(r[k] == r0[k]) by {
                if r != r0 {
                    assert(r.drop_last()[k] == r[k]);
                }
            }
            assert(bound_among(e, i, r0[k]@, bbid));
            let j = choose|j: int|
                0 <= j < i && j < e.len() && (#[trigger] e[j]).0@ == r0[k]@ && e[j].1 == bbid;
            assert(0 <= j < i + 1 && e[j].0@ == r[k]@);
        } else {
            assert(e[i].0@ == r[k]@);
        }
    }
    assert forall|j: int| 0 <= j < i + 1 && (#[trigger] e[j]).1 == bbid implies listed(
        r,
        e[j].0@,
    ) by {
        if j < i {
            assert(listed(r0, e[j].0@));
            let k = choose|k: int| 0 <= k < r0.len() && (#[trigger] r0[k])@ == e[j].0@;
            assert(r[k] == r0[k]) by {
                if r != r0 {
                    assert(r.drop_last()[k] == r[k]);
                }
            }
        } else {
            assert(r[r.len() - 1]@ == e[j].0@);
        }
    }
    assert forall|a: int, b: int| 0 <= a < b < r.len() implies label_lt(
        strs_view(r)[a],
        strs_view(r)[b],
    ) by {
        if r != r0 {
            assert(r.drop_last()[a] == r[a]);
            if b < r0.len() {
                assert(r.drop_last()[b] == r[b]);
                assert(label_lt(strs_view(r0)[a], strs_view(r0)[b]));
            } else {
                assert(bound_among(e, i, r0[a]@, bbid));
                let j = choose|j: int|
                    0 <= j < i && j < e.len() && (#[trigger] e[j]).0@ == r0[a]@ && e[j].1 == bbid;
                assert(label_lt(names_of(e)[j], names_of(e)[i]));
            }
        } else {
            assert(label_lt(strs_view(r0)[a], strs_view(r0)[b]));
        }
    }
}

/// The labels bound to `bbid`, in increasing order.
pub fn labels_of_bb(labels: &LabelMap, bbid: BbId) -> (r: Vec<&str>)
    ensures
        increasing(strs_view(r@)),
        strs_view(r@).to_set() == bound_to(labels@, bbid),
{
    proof {
        use_type_invariant(labels);
        lemma_bindings(labels.entries@);
    }
    let ghost e = labels.entries@;
    let mut r: Vec<&str> = Vec::new();
    let mut i: usize = 0;
    while i < labels.entries.len()
        invariant
            i <= labels.entries.len(),
            e == labels.entries@,
            increasing(names_of(e)),
            increasing(strs_view(r@)),
            forall|k: int| 0 <= k < r@.len() ==> bound_among(e, i as int, (#[trigger] r@[k])@, bbid),
            forall|j: int| 0 <= j < i && (#[trigger] e[j]).1 == bbid ==> listed(r@, e[j].0@),
        decreases labels.entries.len() - i,
    {
        let ghost r0 = r@;
        if labels.entries[i].1 == bbid {
            r.push(labels.entries[i].0.as_str());
        }
        proof {
            lemma_list_step(e, bbid, i as int, r0, r@);
        }
        i += 1;
    }
    proof {
        let names = strs_view(r@);
        assert forall|l: Seq<char>| names.to_set().contains(l) <==> bound_to(
            labels@,
            bbid,
        ).contains(l) by {
            if names.to_set().contains(l) {
                let k = choose|k: int| 0 <= k < names.len() && names[k] == l;
                assert(bound_among(e, e.len() as int, r@[k]@, bbid));
                let j = choose|j: int|
                    0 <= j < e.len() && j < e.len() && (#[trigger] e[j]).0@ == r@[k]@ && e[j].1
                        == bbid;
                assert(labels@.contains_key(e[j].0@));
            }
            if bound_to(labels@, bbid).contains(l) {
                let j = choose|j: int| 0 <= j < e.len() && e[j].0@ == l;
                assert(labels@.contains_key(e[j].0@));
                assert(listed(r@, e[j].0@));
                let k = choose|k: int| 0 <= k < r@.len() && (#[trigger] r@[k])@ == e[j].0@;
                assert(names[k] == l);
            }
        }
        assert(names.to_set() =~= bound_to(labels@, bbid));
    }
    r
}

/// Binds `label` to `target`. A label that is bound already is bound anew
/// only if `overwrite` is set, and its former id is returned; without
/// `overwrite` the table stays as it is and the error holds that id.
pub fn set_label(labels: &mut LabelMap, label: String, target: BbId, overwrite: bool) -> (r: Result<
    Option<BbId>,
    SetBbLabelError,
>)
    ensures
        match r {
            Ok(prev) => {
                &&& prev == old(labels)@.get(label@)
                &&& prev is Some ==> overwrite
                &&& final(labels)@ == old(labels)@.insert(label@, target)
            },
            Err(SetBbLabelError::LabelAlreadyExists { orig_target }) => {
                &&& !overwrite
                &&& old(labels)@.get(label@) == Some(orig_target)
                &&& final(labels)@ == old(labels)@
            },
            Err(SetBbLabelError::InvalidId(_)) => false,
        },
{
    proof {
        use_type_invariant(&*labels);
        lemma_bindings(labels.entries@);
    }
    let (at, found) = labels.position(label.as_str());
    let ghost before = labels.entries@;
    if found {
        let prev = labels.entries[at].1;
        if !overwrite {
            return Err(SetBbLabelError::LabelAlreadyExists { orig_target: prev });
        }
        let mut v: Vec<(String, BbId)> = Vec::new();
        core::mem::swap(&mut labels.entries, &mut v);
        v.set(at, (label, target));
        proof {
            assert(names_of(v@) =~= names_of(before));
            lemma_bindings(v@);
            lemma_bindings(before);
            assert forall|l: Seq<char>| bindings_of(v@).contains_key(l) implies bindings_of(
                v@,
            )[l] == bindings_of(before).insert(label@, target)[l] by {
                let k = choose|k: int| 0 <= k < v@.len() && v@[k].0@ == l;
                assert(bindings_of(v@).contains_key(v@[k].0@));
                assert(bindings_of(before).contains_key(before[k].0@));
            }
            assert(bindings_of(v@) =~= bindings_of(before).insert(label@, target));
        }
        labels.entries = v;
        Ok(Some(prev))
    } else {
        let mut v: Vec<(String, BbId)> = Vec::new();
        core::mem::swap(&mut labels.entries, &mut v);
        v.insert(at, (label, target));
        proof {
            let names = names_of(before);
            let now = names_of(v@);
            assert forall|a: int, b: int| 0 <= a < b < now.len() implies label_lt(
                now[a],
                now[b],
            ) by {
                let a0 = if a < at {
                    a
                } else {
                    a - 1
                };
                let b0 = if b < at {
                    b
                } else {
                    b - 1
                };
                if a == at {
                    assert(now[b] == before[b0].0@);
                } else if b == at {
                    assert(now[a] == before[a0].0@);
                } else {
                    assert(label_lt(names[a0], names[b0]));
                }
            }
            lemma_bindings(v@);
            lemma_bindings(before);
            let goal = bindings_of(before).insert(label@, target);
            assert forall|l: Seq<char>| bindings_of(v@).contains_key(l) implies goal.contains_key(
                l,
            ) && bindings_of(v@)[l] == goal[l] by {
                let k = choose|k: int| 0 <= k < v@.len() && v@[k].0@ == l;
                assert(bindings_of(v@).contains_key(v@[k].0@));
                if k < at {
                    assert(bindings_of(before).contains_key(before[k].0@));
                } else if k > at {
                    assert(bindings_of(before).contains_key(before[k - 1].0@));
                }
            }
            assert forall|l: Seq<char>| goal.contains_key(l) implies bindings_of(
                v@,
            ).contains_key(l) by {
                if l == label@ {
                    assert(bindings_of(v@).contains_key(v@[at as int].0@));
                } else {
                    let k = choose|k: int| 0 <= k < before.len() && before[k].0@ == l;
                    if k < at {
                        assert(bindings_of(v@).contains_key(v@[k].0@));
                    } else {
                        assert(bindings_of(v@).contains_key(v@[k + 1].0@));
                    }
                }
            }
            assert(bindings_of(v@) =~= goal);
        }
        labels.entries = v;
        Ok(None)
    }
}

} // verus!
