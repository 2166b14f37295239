use vstd::multiset::Multiset;
use vstd::prelude::*;

use crate::model::{
    lemma_lex_le_antisym, lemma_lex_le_total, lemma_lex_le_trans, lex_le, name_le, str_eq, Entry,
    EntryView,
};
use crate::codec::{copy_range, encodable, encode_entries, spec_decode, spec_encode};
use crate::crypto::{decrypt, derive_key, encrypt, generate_salt, key_of, open_of, seal_of};
use crate::StoreError;

verus! {

/// The in-memory entry collection that one encrypted store file holds.
#[derive(Debug)]
pub struct Storage {
    pub entries: Vec<Entry>,
}

impl View for Storage {
    type V = Seq<EntryView>;

    open spec fn view(&self) -> Seq<EntryView> {
        self.entries.deep_view()
    }
}

/// The collection invariant: no two entries share a name.
pub open spec fn unique_names(s: Seq<EntryView>) -> bool {
    forall|i: int, j: int| 0 <= i < j < s.len() ==> s[i].name != s[j].name
}

/// Entries are in ascending name order.
pub open spec fn sorted_by_name(s: Seq<EntryView>) -> bool {
    forall|i: int, j: int| 0 <= i <= j < s.len() ==> lex_le(s[i].name, s[j].name)
}

/// Whether some entry of `s` is named `n`.
pub open spec fn has_name(s: Seq<EntryView>, n: Seq<char>) -> bool {
    exists|i: int| 0 <= i < s.len() && s[i].name == n
}

proof fn lemma_to_multiset_insert(s: Seq<EntryView>, k: int, e: EntryView)
    requires
        0 <= k <= s.len(),
    ensures
        s.insert(k, e).to_multiset() == s.to_multiset().insert(e),
{
    broadcast use vstd::seq_lib::group_to_multiset_ensures;
    broadcast use vstd::multiset::group_multiset_axioms;

    let a = s.subrange(0, k);
    let b = s.subrange(k, s.len() as int);
    assert(s =~= a + b);
    assert(s.insert(k, e) =~= a.push(e) + b);
    vstd::seq_lib::lemma_multiset_commutative(a, b);
    vstd::seq_lib::lemma_multiset_commutative(a.push(e), b);
    assert(s.insert(k, e).to_multiset() =~= s.to_multiset().insert(e));
}

proof fn lemma_dup_count(s: Seq<EntryView>, i: int, j: int)
    requires
        0 <= i < j < s.len(),
        s[i] == s[j],
    ensures
        s.to_multiset().count(s[i]) >= 2,
{
    broadcast use vstd::seq_lib::group_to_multiset_ensures;
    broadcast use vstd::multiset::group_multiset_axioms;

    let a = s.subrange(0, j);
    let b = s.subrange(j, s.len() as int);
    assert(s =~= a + b);
    vstd::seq_lib::lemma_multiset_commutative(a, b);
    assert(a[i] == s[i]);
    assert(a.contains(s[i]));
    assert(b[0] == s[j]);
    assert(b.contains(s[i]));
    assert(a.to_multiset().count(s[i]) > 0);
    assert(b.to_multiset().count(s[i]) > 0);
}

proof fn lemma_count2_dup(s: Seq<EntryView>, e: EntryView)
    requires
        s.to_multiset().count(e) >= 2,
    ensures
        exists|i: int, j: int| 0 <= i < j < s.len() && s[i] == e && s[j] == e,
{
    broadcast use vstd::seq_lib::group_to_multiset_ensures;
    broadcast use vstd::multiset::group_multiset_axioms;

    assert(s.to_multiset().count(e) > 0);
    assert(s.contains(e));
    let i = choose|i: int| 0 <= i < s.len() && s[i] == e;
    let t = s.remove(i);
    assert(t.to_multiset() =~= s.to_multiset().remove(s[i]));
    assert(t.to_multiset().count(e) > 0);
    assert(t.contains(e));
    let m = choose|m: int| 0 <= m < t.len() && t[m] == e;
    let j: int = if m < i {
        m
    } else {
        m + 1
    };
    assert(s[j] == t[m]);
    if j < i {
        assert(s[j] == e && s[i] == e);
    } else {
        assert(s[i] == e && s[j] == e);
    }
}

/// A permutation cannot introduce a duplicated name.
pub proof fn lemma_perm_preserves_unique(a: Seq<EntryView>, b: Seq<EntryView>)
    requires
        a.to_multiset() == b.to_multiset(),
        unique_names(a),
    ensures
        unique_names(b),
{
    broadcast use vstd::seq_lib::group_to_multiset_ensures;
    broadcast use vstd::multiset::group_multiset_axioms;

    assert forall|p: int, q: int| 0 <= p < q < b.len() implies b[p].name != b[q].name by {
        if b[p].name == b[q].name {
            if b[p] == b[q] {
                lemma_dup_count(b, p, q);
                lemma_count2_dup(a, b[p]);
                let (i, j): (int, int) = choose|i: int, j: int|
                    0 <= i < j < a.len() && a[i] == b[p] && a[j] == b[p];
                assert(a[i].name == a[j].name);
            } else {
                assert(b.contains(b[p]));
                assert(b.contains(b[q]));
                assert(a.to_multiset().count(b[p]) > 0);
                assert(a.to_multiset().count(b[q]) > 0);
                assert(a.contains(b[p]));
                assert(a.contains(b[q]));
                let i = choose|i: int| 0 <= i < a.len() && a[i] == b[p];
                let j = choose|j: int| 0 <= j < a.len() && a[j] == b[q];
                assert(i != j);
                if i < j {
                    assert(a[i].name != a[j].name);
                } else {
                    assert(a[j].name != a[i].name);
                }
            }
        }
    }
}

/// A permutation keeps exactly the same set of names.
pub proof fn lemma_perm_preserves_has_name(a: Seq<EntryView>, b: Seq<EntryView>, n: Seq<char>)
    requires
        a.to_multiset() == b.to_multiset(),
        has_name(a, n),
    ensures
        has_name(b, n),
{
    broadcast use vstd::seq_lib::group_to_multiset_ensures;
    broadcast use vstd::multiset::group_multiset_axioms;

    let i = choose|i: int| 0 <= i < a.len() && a[i].name == n;
    assert(a.contains(a[i]));
    assert(b.to_multiset().count(a[i]) > 0);
    assert(b.contains(a[i]));
    let j = choose|j: int| 0 <= j < b.len() && b[j] == a[i];
    assert(b[j].name == n);
}

/// A permutation keeps every duplicated name duplicated.
proof fn lemma_perm_dup_name(a: Seq<EntryView>, b: Seq<EntryView>, i: int, j: int)
    requires
        a.to_multiset() == b.to_multiset(),
        0 <= i < j < a.len(),
        a[i].name == a[j].name,
    ensures
        exists|p: int, q: int|
            0 <= p < q < b.len() && b[p].name == b[q].name && b[p].name == a[i].name,
{
    broadcast use vstd::seq_lib::group_to_multiset_ensures;
    broadcast use vstd::multiset::group_multiset_axioms;

    if a[i] == a[j] {
        lemma_dup_count(a, i, j);
        lemma_count2_dup(b, a[i]);
        let (p, q): (int, int) = choose|p: int, q: int|
            0 <= p < q < b.len() && b[p] == a[i] && b[q] == a[i];
        assert(b[p].name == b[q].name && b[p].name == a[i].name);
    } else {
        assert(a.contains(a[i]));
        assert(a.contains(a[j]));
        assert(b.to_multiset().count(a[i]) > 0);
        assert(b.to_multiset().count(a[j]) > 0);
        assert(b.contains(a[i]));
        assert(b.contains(a[j]));
        let p = choose|p: int| 0 <= p < b.len() && b[p] == a[i];
        let q = choose|q: int| 0 <= q < b.len() && b[q] == a[j];
        assert(p != q);
        if p < q {
            assert(b[p].name == b[q].name && b[p].name == a[i].name);
        } else {
            assert(b[q].name == b[p].name && b[q].name == a[i].name);
        }
    }
}

/// A collection with unique names has exactly one sorted arrangement: any two
/// sorted, duplicate-free sequences holding the same entries are equal.
pub proof fn lemma_sorted_unique_equal(a: Seq<EntryView>, b: Seq<EntryView>)
    requires
        sorted_by_name(a),
        sorted_by_name(b),
        unique_names(a),
        a.to_multiset() == b.to_multiset(),
    ensures
        a == b,
    decreases a.len(),
{
    broadcast use vstd::seq_lib::group_to_multiset_ensures;
    broadcast use vstd::multiset::group_multiset_axioms;

    a.to_multiset_ensures();
    b.to_multiset_ensures();
    if a.len() == 0 {
        assert(b.len() == 0);
        assert(a =~= b);
    } else {
        assert(b.len() == a.len());
        assert(a.contains(a[0]));
        assert(b.to_multiset().count(a[0]) > 0);
        assert(b.contains(a[0]));
        let m = choose|m: int| 0 <= m < b.len() && b[m] == a[0];
        assert(b.contains(b[0]));
        assert(a.to_multiset().count(b[0]) > 0);
        assert(a.contains(b[0]));
        let w = choose|w: int| 0 <= w < a.len() && a[w] == b[0];
        assert(lex_le(b[0].name, b[m].name));
        assert(lex_le(a[0].name, a[w].name));
        lemma_lex_le_antisym(a[0].name, b[0].name);
        assert(a[0].name == b[0].name);
        assert(a[w].name == a[0].name);
        assert(w == 0);
        assert(a[0] == b[0]);
        let at = a.drop_first();
        let bt = b.drop_first();
        assert(a =~= seq![a[0]] + at);
        assert(b =~= seq![b[0]] + bt);
        vstd::seq_lib::lemma_multiset_commutative(seq![a[0]], at);
        vstd::seq_lib::lemma_multiset_commutative(seq![b[0]], bt);
        assert(seq![a[0]].to_multiset() =~= Multiset::<EntryView>::empty().insert(a[0])) by {
            assert(seq![a[0]] =~= Seq::<EntryView>::empty().push(a[0]));
        }
        assert(at.to_multiset() =~= bt.to_multiset()) by {
            assert forall|x: EntryView| #[trigger]
                at.to_multiset().count(x) == bt.to_multiset().count(x) by {
                assert(a.to_multiset().count(x) == seq![a[0]].to_multiset().count(x)
                    + at.to_multiset().count(x));
                assert(b.to_multiset().count(x) == seq![b[0]].to_multiset().count(x)
                    + bt.to_multiset().count(x));
            }
        }
        assert(sorted_by_name(at)) by {
            assert forall|i: int, j: int| 0 <= i <= j < at.len() implies lex_le(
                at[i].name,
                at[j].name,
            ) by {
                assert(at[i] == a[i + 1]);
                assert(at[j] == a[j + 1]);
            }
        }
        assert(sorted_by_name(bt)) by {
            assert forall|i: int, j: int| 0 <= i <= j < bt.len() implies lex_le(
                bt[i].name,
                bt[j].name,
            ) by {
                assert(bt[i] == b[i + 1]);
                assert(bt[j] == b[j + 1]);
            }
        }
        assert(unique_names(at)) by {
            assert forall|i: int, j: int| 0 <= i < j < at.len() implies at[i].name
                != at[j].name by {
                assert(at[i] == a[i + 1]);
                assert(at[j] == a[j + 1]);
            }
        }
        lemma_sorted_unique_equal(at, bt);
        assert(a =~= b);
    }
}

/// Finds the insertion position for a new name inside the sorted prefix
/// `[0, upto)` of `v`: every entry before the result is at most `name`,
/// every entry from the result up to `upto` is at least `name`.
fn find_pos(v: &Vec<Entry>, upto: usize, name: &str) -> (k: usize)
    requires
        upto <= v.len(),
        forall|p: int, q: int|
            0 <= p <= q < upto ==> lex_le(v.deep_view()[p].name, v.deep_view()[q].name),
    ensures
        k <= upto,
        forall|m: int| 0 <= m < k ==> lex_le(v.deep_view()[m].name, name@),
        forall|m: int| k <= m < upto ==> lex_le(name@, v.deep_view()[m].name),
{
    let mut k: usize = 0;
    while k < upto
        invariant
            upto <= v.len(),
            k <= upto,
            forall|p: int, q: int|
                0 <= p <= q < upto ==> lex_le(v.deep_view()[p].name, v.deep_view()[q].name),
            forall|m: int| 0 <= m < k ==> lex_le(v.deep_view()[m].name, name@),
        decreases upto - k,
    {
        if !name_le(v[k].name.as_str(), name) {
            proof {
                let dv = v.deep_view();
                assert(dv[k as int] == v[k as int]@);
                lemma_lex_le_total(dv[k as int].name, name@);
                assert(lex_le(name@, dv[k as int].name));
                assert forall|m: int| k <= m < upto implies lex_le(name@, dv[m].name) by {
                    assert(lex_le(dv[k as int].name, dv[m].name));
                    lemma_lex_le_trans(name@, dv[k as int].name, dv[m].name);
                }
            }
            return k;
        }
        proof {
            assert(v.deep_view()[k as int] == v[k as int]@);
        }
        k = k + 1;
    }
    k
}

/// Stable insertion sort of entries in ascending name order; the result is a
/// permutation of the input and never introduces or loses a name.
pub(crate) fn sort_entries(v: &mut Vec<Entry>)
    ensures
        sorted_by_name(final(v).deep_view()),
        final(v).deep_view().to_multiset() == old(v).deep_view().to_multiset(),
        final(v).deep_view().len() == old(v).deep_view().len(),
        unique_names(final(v).deep_view()) == unique_names(old(v).deep_view()),
{
    broadcast use vstd::seq_lib::group_to_multiset_ensures;
    broadcast use vstd::multiset::group_multiset_axioms;

    let n = v.len();
    if n <= 1 {
        proof {
            if v.deep_view().len() == 1 {
                lemma_lex_le_total(v.deep_view()[0].name, v.deep_view()[0].name);
            }
        }
        return ;
    }
    proof {
        lemma_lex_le_total(v.deep_view()[0].name, v.deep_view()[0].name);
    }
    let mut i: usize = 1;
    while i < n
        invariant
            n == v.len(),
            1 <= i <= n,
            forall|p: int, q: int|
                0 <= p <= q < i ==> lex_le(v.deep_view()[p].name, v.deep_view()[q].name),
            v.deep_view().to_multiset() == old(v).deep_view().to_multiset(),
        decreases n - i,
    {
        broadcast use vstd::seq_lib::group_to_multiset_ensures;
        broadcast use vstd::multiset::group_multiset_axioms;

        let ghost s = v.deep_view();
        let k = find_pos(v, i, v[i].name.as_str());
        proof {
            assert(s[i as int] == v[i as int]@);
        }
        let e = v.remove(i);
        proof {
            assert(v.deep_view() =~= s.remove(i as int));
        }
        v.insert(k, e);
        proof {
            let t = v.deep_view();
            let ki = k as int;
            let ii = i as int;
            assert(t =~= s.remove(ii).insert(ki, s[ii]));
            lemma_to_multiset_insert(s.remove(ii), ki, s[ii]);
            assert(s.contains(s[ii]));
            assert(s.to_multiset().count(s[ii]) > 0);
            assert(t.to_multiset() =~= s.to_multiset());
            assert forall|m: int| 0 <= m < t.len() implies t[m] == s[sort_step_src(m, ki, ii)] by {
                assert(t.len() == s.len());
            }
            assert forall|p: int, q: int| 0 <= p <= q < i + 1 implies lex_le(
                t[p].name,
                t[q].name,
            ) by {
                let p0 = sort_step_src(p, ki, ii);
                let q0 = sort_step_src(q, ki, ii);
                assert(t[p] == s[p0]);
                assert(t[q] == s[q0]);
                if p == q {
                    lemma_lex_le_total(t[p].name, t[p].name);
                } else if q < ki {
                    assert(lex_le(s[p0].name, s[q0].name));
                } else if p < ki && q == ki {
                    assert(lex_le(s[p0].name, s[ii].name));
                } else if p < ki && q > ki {
                    assert(lex_le(s[p0].name, s[q0].name));
                } else if p == ki {
                    assert(lex_le(s[ii].name, s[q0].name));
                } else {
                    assert(lex_le(s[p0].name, s[q0].name));
                }
            }
        }
        i = i + 1;
    }
    proof {
        if unique_names(old(v).deep_view()) {
            lemma_perm_preserves_unique(old(v).deep_view(), v.deep_view());
        }
        if unique_names(v.deep_view()) {
            lemma_perm_preserves_unique(v.deep_view(), old(v).deep_view());
        }
    }
}

/// Whether some entry of `v` carries exactly the given name.
fn contains_name(v: &Vec<Entry>, name: &str) -> (r: bool)
    ensures
        r == has_name(v.deep_view(), name@),
{
    let n = v.len();
    let mut i: usize = 0;
    while i < n
        invariant
            n == v.len(),
            i <= n,
            forall|j: int| 0 <= j < i ==> v.deep_view()[j].name != name@,
        decreases n - i,
    {
        if str_eq(v[i].name.as_str(), name) {
            proof {
                assert(v.deep_view()[i as int] == v[i as int]@);
            }
            return true;
        }
        proof {
            assert(v.deep_view()[i as int] == v[i as int]@);
        }
        i = i + 1;
    }
    false
}

/// A field-for-field copy of one entry.
fn clone_entry(e: &Entry) -> (r: Entry)
    ensures
        r@ == e@,
{
    Entry { name: e.name.clone(), password: e.password.clone(), info: e.info.clone() }
}

/// A field-for-field copy of a whole entry vector.
fn clone_entries(v: &Vec<Entry>) -> (r: Vec<Entry>)
    ensures
        r.deep_view() =~= v.deep_view(),
{
    let n = v.len();
    let mut r: Vec<Entry> = Vec::new();
    let mut i: usize = 0;
    while i < n
        invariant
            n == v.len(),
            i <= n,
            r.len() == i,
            forall|j: int| 0 <= j < i ==> r.deep_view()[j] == v.deep_view()[j],
        decreases n - i,
    {
        let e = clone_entry(&v[i]);
        r.push(e);
        proof {
            assert(r.deep_view()[i as int] == v.deep_view()[i as int]);
        }
        i = i + 1;
    }
    r
}

/// No name of `b` occurs in `a`.
pub open spec fn cross_free(a: Seq<EntryView>, b: Seq<EntryView>) -> bool {
    forall|j: int| 0 <= j < b.len() ==> !has_name(a, #[trigger] b[j].name)
}

/// Where element `m` of the sequence after one insertion-sort step came from.
spec fn sort_step_src(m: int, k: int, i: int) -> int {
    if m < k {
        m
    } else if m == k {
        i
    } else if m <= i {
        m - 1
    } else {
        m
    }
}

impl Storage {
    /// An empty collection.
    pub fn new() -> (r: Storage)
        ensures
            r@ =~= Seq::<EntryView>::empty(),
    {
        Storage { entries: Vec::new() }
    }

    /// Looks up the entry with exactly the given name.
    pub fn get_entry(&self, name: &str) -> (r: Option<&Entry>)
        ensures
            match r {
                Some(e) => exists|i: int|
                    {
                        &&& 0 <= i < self@.len()
                        &&& self@[i].name == name@
                        &&& e@ == self@[i]
                        &&& forall|j: int| 0 <= j < i ==> self@[j].name != name@
                    },
                None => !has_name(self@, name@),
            },
    {
        let n = self.entries.len();
        let mut i: usize = 0;
        while i < n
            invariant
                n == self.entries.len(),
                i <= n,
                forall|j: int| 0 <= j < i ==> self@[j].name != name@,
            decreases n - i,
        {
            if str_eq(self.entries[i].name.as_str(), name) {
                proof {
                    assert(self@[i as int] == self.entries[i as int]@);
                    assert(self@[i as int].name == name@);
                }
                return Some(&self.entries[i]);
            }
            i = i + 1;
        }
        None
    }

    /// Appends `entry` unless its name is already present; in that case the
    /// collection is left unchanged and `DuplicateName` is returned.
    pub fn insert(&mut self, entry: Entry) -> (r: Result<(), StoreError>)
        ensures
            r is Ok <==> !has_name(old(self)@, entry@.name),
            r is Ok ==> final(self)@ =~= old(self)@.push(entry@),
            r is Err ==> r->Err_0 == StoreError::DuplicateName && final(self)@ =~= old(self)@,
            unique_names(old(self)@) ==> unique_names(final(self)@),
    {
        if self.get_entry(entry.name.as_str()).is_some() {
            return Err(StoreError::DuplicateName);
        }
        self.entries.push(entry);
        proof {
            let s = old(self)@;
            let t = self@;
            assert(t =~= s.push(entry@));
            if unique_names(s) {
                assert forall|p: int, q: int| 0 <= p < q < t.len() implies t[p].name
                    != t[q].name by {
                    assert(t[p] == s[p]);
                    if q == s.len() {
                        assert(t[q] == entry@);
                        assert(!(0 <= p < s.len() && s[p].name == entry@.name));
                    } else {
                        assert(t[q] == s[q]);
                    }
                }
            }
        }
        Ok(())
    }

    /// Removes and returns the first entry with the given name; fails with
    /// `NotFound`, leaving the collection unchanged, if none carries it.
    pub fn remove(&mut self, name: &str) -> (r: Result<Entry, StoreError>)
        ensures
            r is Ok <==> has_name(old(self)@, name@),
            r is Ok ==> exists|i: int|
                {
                    &&& 0 <= i < old(self)@.len()
                    &&& old(self)@[i].name == name@
                    &&& r->Ok_0@ == old(self)@[i]
                    &&& final(self)@ =~= old(self)@.remove(i)
                    &&& forall|j: int| 0 <= j < i ==> old(self)@[j].name != name@
                },
            r is Err ==> r->Err_0 == StoreError::NotFound && final(self)@ =~= old(self)@,
            unique_names(old(self)@) ==> unique_names(final(self)@),
    {
        let n = self.entries.len();
        let mut i: usize = 0;
        while i < n
            invariant
                n == self.entries.len(),
                i <= n,
                self == old(self),
                forall|j: int| 0 <= j < i ==> self@[j].name != name@,
            decreases n - i,
    {
            if str_eq(self.entries[i].name.as_str(), name) {
                proof {
                    assert(self@[i as int] == self.entries[i as int]@);
                    assert(old(self)@[i as int].name == name@);
                }
                let e = self.entries.remove(i);
                proof {
                    let s = old(self)@;
                    let t = self@;
                    assert(e@ == s[i as int]);
                    assert(t =~= s.remove(i as int));
                    if unique_names(s) {
                        assert forall|p: int, q: int| 0 <= p < q < t.len() implies t[p].name
                            != t[q].name by {
                            let p0: int = if p < i { p } else { p + 1 };
                            let q0: int = if q < i { q } else { q + 1 };
                            assert(t[p] == s[p0]);
                            assert(t[q] == s[q0]);
                        }
                    }
                }
                return Ok(e);
            }
            i = i + 1;
        }
        Err(StoreError::NotFound)
    }

    /// Re-sorts the collection in ascending name order; a permutation that
    /// neither adds nor drops an entry.
    pub fn sort_by_name(&mut self)
        ensures
            sorted_by_name(final(self)@),
            final(self)@.to_multiset() == old(self)@.to_multiset(),
            final(self)@.len() == old(self)@.len(),
            unique_names(final(self)@) == unique_names(old(self)@),
    {
        sort_entries(&mut self.entries);
    }

    /// Imports `other` all-or-nothing: fails with `InternalDuplicate` if two
    /// entries of `other` share a name, with `CrossDuplicate` (naming the first
    /// colliding receiver entry) if `other` reuses a name already present;
    /// otherwise appends all of `other` and re-sorts the receiver.
    pub fn merge(&mut self, other: Vec<Entry>) -> (r: Result<(), StoreError>)
        ensures
            r is Ok <==> unique_names(other.deep_view()) && cross_free(
                old(self)@,
                other.deep_view(),
            ),
            r is Ok ==> final(self)@.to_multiset() == old(self)@.to_multiset().add(
                other.deep_view().to_multiset(),
            ) && sorted_by_name(final(self)@) && (unique_names(old(self)@) ==> unique_names(
                final(self)@,
            )),
            r is Err ==> final(self)@ =~= old(self)@,
            r is Err ==> match r->Err_0 {
                StoreError::InternalDuplicate(n) => !unique_names(other.deep_view()) && exists|
                    p: int,
                    q: int,
                |
                    {
                        &&& 0 <= p < q < other.deep_view().len()
                        &&& other.deep_view()[p].name == other.deep_view()[q].name
                        &&& other.deep_view()[p].name == n@
                    },
                StoreError::CrossDuplicate(n) => unique_names(other.deep_view()) && exists|i: int|
                    {
                        &&& 0 <= i < old(self)@.len()
                        &&& old(self)@[i].name == n@
                        &&& has_name(other.deep_view(), n@)
                        &&& forall|p: int|
                            0 <= p < i ==> !has_name(
                                other.deep_view(),
                                #[trigger] old(self)@[p].name,
                            )
                    },
                _ => false,
            },
    {
        broadcast use vstd::seq_lib::group_to_multiset_ensures;
        broadcast use vstd::multiset::group_multiset_axioms;

        let ghost odv = other.deep_view();
        let mut incoming = clone_entries(&other);
        sort_entries(&mut incoming);
        let ghost sdv = incoming.deep_view();
        let n_in = incoming.len();
        let mut x: usize = 1;
        while x < n_in
            invariant
                n_in == incoming.len(),
                1 <= x,
                odv == other.deep_view(),
                sdv == incoming.deep_view(),
                sdv.to_multiset() == odv.to_multiset(),
                sorted_by_name(sdv),
                self == old(self),
                forall|j: int| 1 <= j < x ==> sdv[j - 1].name != #[trigger] sdv[j].name,
            decreases n_in - x,
        {
            if str_eq(incoming[x - 1].name.as_str(), incoming[x].name.as_str()) {
                let dup = incoming[x].name.clone();
                proof {
                    assert(sdv[x - 1] == incoming[x - 1 as int]@);
                    assert(sdv[x as int] == incoming[x as int]@);
                    assert(sdv[x - 1].name == sdv[x as int].name);
                    assert(!unique_names(sdv));
                    if unique_names(odv) {
                        lemma_perm_preserves_unique(odv, sdv);
                    }
                    lemma_perm_dup_name(sdv, odv, x - 1, x as int);
                }
                return Err(StoreError::InternalDuplicate(dup));
            }
            proof {
                assert(sdv[x - 1] == incoming[x - 1 as int]@);
                assert(sdv[x as int] == incoming[x as int]@);
            }
            x = x + 1;
        }
        proof {
            assert forall|p: int, q: int| 0 <= p < q < sdv.len() implies sdv[p].name
                != sdv[q].name by {
                if sdv[p].name == sdv[q].name {
                    assert(lex_le(sdv[p].name, sdv[p + 1].name));
                    assert(lex_le(sdv[p + 1].name, sdv[q].name));
                    assert(lex_le(sdv[p + 1].name, sdv[p].name));
                    lemma_lex_le_antisym(sdv[p].name, sdv[p + 1].name);
                    assert(sdv[p].name == sdv[p + 1].name);
                    assert(sdv[p + 1 - 1].name != sdv[p + 1].name);
                }
            }
            assert(unique_names(sdv));
            lemma_perm_preserves_unique(sdv, odv);
        }
        let n_self = self.entries.len();
        let mut p: usize = 0;
        while p < n_self
            invariant
                n_self == self.entries.len(),
                p <= n_self,
                self == old(self),
                odv == other.deep_view(),
                sdv == incoming.deep_view(),
                sdv.to_multiset() == odv.to_multiset(),
                unique_names(sdv),
                unique_names(odv),
                forall|j: int| 0 <= j < p ==> !has_name(sdv, #[trigger] self@[j].name),
            decreases n_self - p,
        {
            if contains_name(&incoming, self.entries[p].name.as_str()) {
                let clash = self.entries[p].name.clone();
                proof {
                    assert(self@[p as int] == self.entries[p as int]@);
                    assert(self@[p as int].name == clash@);
                    assert(has_name(sdv, clash@));
                    lemma_perm_preserves_has_name(sdv, odv, clash@);
                    assert forall|m: int| 0 <= m < p implies !has_name(
                        odv,
                        #[trigger] self@[m].name,
                    ) by {
                        if has_name(odv, self@[m].name) {
                            lemma_perm_preserves_has_name(odv, sdv, self@[m].name);
                        }
                    }
                    let j = choose|j: int| 0 <= j < odv.len() && odv[j].name == clash@;
                    assert(has_name(old(self)@, odv[j].name));
                    assert(!cross_free(old(self)@, odv));
                }
                return Err(StoreError::CrossDuplicate(clash));
            }
            proof {
                assert(self@[p as int] == self.entries[p as int]@);
            }
            p = p + 1;
        }
        proof {
            assert forall|j: int| 0 <= j < odv.len() implies !has_name(
                old(self)@,
                #[trigger] odv[j].name,
            ) by {
                if has_name(old(self)@, odv[j].name) {
                    let m = choose|m: int| 0 <= m < old(self)@.len() && old(self)@[m].name
                        == odv[j].name;
                    assert(has_name(odv, self@[m].name));
                    lemma_perm_preserves_has_name(odv, sdv, self@[m].name);
                }
            }
            assert(cross_free(old(self)@, odv));
        }
        let ghost pre = self@;
        self.entries.append(&mut incoming);
        proof {
            let t = self@;
            assert(t =~= pre + sdv);
            vstd::seq_lib::lemma_multiset_commutative(pre, sdv);
            if unique_names(pre) {
                assert forall|a: int, b: int| 0 <= a < b < t.len() implies t[a].name
                    != t[b].name by {
                    if b >= pre.len() {
                        assert(t[b] == sdv[b - pre.len()]);
                        if a < pre.len() {
                            assert(t[a] == pre[a]);
                            assert(!has_name(sdv, pre[a].name));
                        } else {
                            assert(t[a] == sdv[a - pre.len()]);
                        }
                    } else {
                        assert(t[a] == pre[a]);
                        assert(t[b] == pre[b]);
                    }
                }
                assert(unique_names(t));
            }
        }
        sort_entries(&mut self.entries);
        Ok(())
    }
}

/// The framed bytes of one saved store: salt, then nonce, then the AEAD
/// ciphertext of the encoded collection under the key derived for that salt.
pub open spec fn spec_store_bytes(
    c: Seq<EntryView>,
    salt: Seq<u8>,
    nonce: Seq<u8>,
    pw: Seq<char>,
) -> Seq<u8> {
    salt + nonce + seal_of(key_of(pw, salt), nonce, spec_encode(c))
}

/// `b` is a store file that `save_store` could have produced for collection
/// `c` under password `pw`, with the stated salt and nonce.
pub open spec fn saved_store_bytes(
    b: Seq<u8>,
    c: Seq<EntryView>,
    salt: Seq<u8>,
    nonce: Seq<u8>,
    pw: Seq<char>,
) -> bool {
    &&& encodable(c)
    &&& salt.len() == 16
    &&& nonce.len() == 12
    &&& seal_of(key_of(pw, salt), nonce, spec_encode(c)).len() > 0
    &&& open_of(key_of(pw, salt), nonce, seal_of(key_of(pw, salt), nonce, spec_encode(c)))
        == Some(spec_encode(c))
    &&& b == spec_store_bytes(c, salt, nonce, pw)
}

proof fn lemma_frame_decompose(b: Seq<u8>, salt: Seq<u8>, nonce: Seq<u8>, ct: Seq<u8>)
    requires
        salt.len() == 16,
        nonce.len() == 12,
        b == salt + nonce + ct,
    ensures
        b.len() == 28 + ct.len(),
        b.subrange(0, 16) == salt,
        b.subrange(16, 28) == nonce,
        b.skip(28) == ct,
{
    assert(b.subrange(0, 16) =~= salt);
    assert(b.subrange(16, 28) =~= nonce);
    assert(b.skip(28) =~= ct);
}

impl Storage {
    /// Serializes the collection, derives a key from a freshly generated
    /// 16-byte salt, encrypts under a freshly generated 12-byte nonce, and
    /// frames salt, nonce and ciphertext as the bytes of the store file.
    pub fn save_store(&self, master_password: &str) -> (r: Vec<u8>)
        requires
            spec_encode(self@).len() < 0x1_0000_0000,
            vstd::utf8::encode_utf8(master_password@).len() <= 0xFFFF_FFFF,
        ensures
            r@.len() == spec_encode(self@).len() + 44,
            exists|salt: Seq<u8>, nonce: Seq<u8>| #[trigger]
                saved_store_bytes(r@, self@, salt, nonce, master_password@),
    {
        let payload = encode_entries(&self.entries);
        let mut salt = generate_salt();
        let ghost gsalt = salt@;
        let key = derive_key(master_password, &salt);
        let (mut ciphertext, mut nonce) = encrypt(&key, &payload);
        let ghost gnonce = nonce@;
        let mut out: Vec<u8> = Vec::new();
        out.append(&mut salt);
        out.append(&mut nonce);
        out.append(&mut ciphertext);
        proof {
            assert(out@ =~= gsalt + gnonce + seal_of(
                key_of(master_password@, gsalt),
                gnonce,
                spec_encode(self@),
            ));
            assert(saved_store_bytes(out@, self@, gsalt, gnonce, master_password@));
        }
        out
    }

    /// Splits a store file into salt, nonce and ciphertext, derives the key,
    /// decrypts, decodes and returns the collection sorted by name.  A file
    /// shorter than the frame (or with an empty ciphertext) is `TruncatedFile`;
    /// a failed tag — wrong password, corruption, tampering — is
    /// `AuthenticationFailure`; bytes that decrypt but do not parse are
    /// `MalformedStore`.  Loading what `save_store` wrote under the same
    /// password gives back exactly the saved collection, sorted by name.
    pub fn load_store(bytes: &Vec<u8>, master_password: &str) -> (r: Result<Storage, StoreError>)
        requires
            vstd::utf8::encode_utf8(master_password@).len() <= 0xFFFF_FFFF,
        ensures
            bytes@.len() < 29 ==> r == Result::<Storage, StoreError>::Err(
                StoreError::TruncatedFile,
            ),
            bytes@.len() >= 29 ==> match open_of(
                key_of(master_password@, bytes@.subrange(0, 16)),
                bytes@.subrange(16, 28),
                bytes@.skip(28),
            ) {
                Option::None => r == Result::<Storage, StoreError>::Err(
                    StoreError::AuthenticationFailure,
                ),
                Option::Some(p) => match spec_decode(p) {
                    Option::None => r == Result::<Storage, StoreError>::Err(
                        StoreError::MalformedStore,
                    ),
                    Option::Some(c) => {
                        &&& r is Ok
                        &&& sorted_by_name(r->Ok_0@)
                        &&& r->Ok_0@.to_multiset() == c.to_multiset()
                        &&& r->Ok_0@.len() == c.len()
                        &&& unique_names(r->Ok_0@) == unique_names(c)
                    },
                },
            },
            forall|c: Seq<EntryView>, salt: Seq<u8>, nonce: Seq<u8>| #[trigger]
                saved_store_bytes(bytes@, c, salt, nonce, master_password@) ==> {
                    &&& r is Ok
                    &&& sorted_by_name(r->Ok_0@)
                    &&& r->Ok_0@.to_multiset() == c.to_multiset()
                    &&& (unique_names(c) ==> unique_names(r->Ok_0@))
                },
    {
        let n = bytes.len();
        if n < 29 {
            proof {
                assert forall|c: Seq<EntryView>, salt: Seq<u8>, nonce: Seq<u8>|
                    !saved_store_bytes(bytes@, c, salt, nonce, master_password@) by {
                    if saved_store_bytes(bytes@, c, salt, nonce, master_password@) {
                        lemma_frame_decompose(
                            bytes@,
                            salt,
                            nonce,
                            seal_of(key_of(master_password@, salt), nonce, spec_encode(c)),
                        );
                    }
                }
            }
            return Err(StoreError::TruncatedFile);
        }
        let salt = copy_range(bytes, 0, 16);
        let nonce = copy_range(bytes, 16, 12);
        let ciphertext = copy_range(bytes, 28, n - 28);
        let key = derive_key(master_password, &salt);
        let plain = match decrypt(&key, &ciphertext, &nonce) {
            Ok(p) => p,
            Err(e) => {
                proof {
                    assert forall|c: Seq<EntryView>, s2: Seq<u8>, n2: Seq<u8>|
                        !saved_store_bytes(bytes@, c, s2, n2, master_password@) by {
                        if saved_store_bytes(bytes@, c, s2, n2, master_password@) {
                            lemma_frame_decompose(
                                bytes@,
                                s2,
                                n2,
                                seal_of(key_of(master_password@, s2), n2, spec_encode(c)),
                            );
                        }
                    }
                }
                return Err(e);
            },
        };
        let entries = match crate::codec::decode_entries(&plain) {
            Ok(es) => es,
            Err(e) => {
                proof {
                    assert forall|c: Seq<EntryView>, s2: Seq<u8>, n2: Seq<u8>|
                        !saved_store_bytes(bytes@, c, s2, n2, master_password@) by {
                        if saved_store_bytes(bytes@, c, s2, n2, master_password@) {
                            lemma_frame_decompose(
                                bytes@,
                                s2,
                                n2,
                                seal_of(key_of(master_password@, s2), n2, spec_encode(c)),
                            );
                            crate::codec::lemma_decode_encode(c);
                        }
                    }
                }
                return Err(e);
            },
        };
        let mut store = Storage { entries };
        store.sort_by_name();
        proof {
            assert forall|c: Seq<EntryView>, s2: Seq<u8>, n2: Seq<u8>| #[trigger]
                saved_store_bytes(bytes@, c, s2, n2, master_password@) implies {
                &&& sorted_by_name(store@)
                &&& store@.to_multiset() == c.to_multiset()
                &&& (unique_names(c) ==> unique_names(store@))
            } by {
                lemma_frame_decompose(
                    bytes@,
                    s2,
                    n2,
                    seal_of(key_of(master_password@, s2), n2, spec_encode(c)),
                );
                crate::codec::lemma_decode_encode(c);
            }
        }
        Ok(store)
    }
}

} // verus!
