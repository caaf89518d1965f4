//! Per-node parameter store: an ordered map from parameter name to a small
//! closed set of typed values.
//!
//! The engine never performs arithmetic on parameter values; it only stores,
//! compares and fingerprints them. Real-valued parameters are therefore held
//! as their IEEE-754 bit patterns (`u32`), which compare exactly and make the
//! store plain data end to end. Compute functions reinterpret the bits.

use vstd::prelude::*;

verus! {

/// One typed parameter value.
#[derive(Debug, Clone, PartialEq)]
pub enum ParamValue {
    /// IEEE-754 bit pattern of a 32-bit real scalar.
    Float(u32),
    Int(i32),
    Bool(bool),
    /// Two IEEE-754 bit patterns.
    Vec2([u32; 2]),
    /// Three IEEE-754 bit patterns.
    Vec3([u32; 3]),
    Text(String),
}

/// Mathematical value of a [`ParamValue`].
pub enum ParamValueView {
    Float(u32),
    Int(i32),
    Bool(bool),
    Vec2(Seq<u32>),
    Vec3(Seq<u32>),
    Text(Seq<char>),
}

impl View for ParamValue {
    type V = ParamValueView;

    open spec fn view(&self) -> ParamValueView {
        match self {
            ParamValue::Float(b) => ParamValueView::Float(*b),
            ParamValue::Int(i) => ParamValueView::Int(*i),
            ParamValue::Bool(b) => ParamValueView::Bool(*b),
            ParamValue::Vec2(v) => ParamValueView::Vec2(v@),
            ParamValue::Vec3(v) => ParamValueView::Vec3(v@),
            ParamValue::Text(s) => ParamValueView::Text(s@),
        }
    }
}

/// Value-level equality on parameter values.
pub fn param_value_eq(a: &ParamValue, b: &ParamValue) -> (r: bool)
    ensures
        r == (a@ == b@),
{
    match (a, b) {
        (ParamValue::Float(x), ParamValue::Float(y)) => x == y,
        (ParamValue::Int(x), ParamValue::Int(y)) => x == y,
        (ParamValue::Bool(x), ParamValue::Bool(y)) => x == y,
        (ParamValue::Vec2(x), ParamValue::Vec2(y)) => {
            let r = x[0] == y[0] && x[1] == y[1];
            proof {
                if r {
                    assert(x@ =~= y@);
                }
            }
            r
        },
        (ParamValue::Vec3(x), ParamValue::Vec3(y)) => {
            let r = x[0] == y[0] && x[1] == y[1] && x[2] == y[2];
            proof {
                if r {
                    assert(x@ =~= y@);
                }
            }
            r
        },
        (ParamValue::Text(x), ParamValue::Text(y)) => *x == *y,
        _ => false,
    }
}

/// The parameter store seen as a sequence of (name, value) pairs.
pub type ParamSeq = Seq<(Seq<char>, ParamValueView)>;

/// Whether `s` holds an entry for key `k`.
pub open spec fn param_seq_has_key(s: ParamSeq, k: Seq<char>) -> bool {
    exists|i: int| 0 <= i < s.len() && s[i].0 == k
}

/// The value stored under `k`: the first entry whose key is `k`.
pub open spec fn param_seq_get(s: ParamSeq, k: Seq<char>) -> Option<ParamValueView>
    decreases s.len(),
{
    if s.len() == 0 {
        None
    } else if s[0].0 == k {
        Some(s[0].1)
    } else {
        param_seq_get(s.drop_first(), k)
    }
}

/// All keys in `s` are distinct.
pub open spec fn param_seq_keys_unique(s: ParamSeq) -> bool {
    forall|i: int, j: int| 0 <= i < j < s.len() ==> s[i].0 != s[j].0
}

proof fn lemma_param_seq_get_present(s: ParamSeq, k: Seq<char>, i: int)
    requires
        param_seq_keys_unique(s),
        0 <= i < s.len(),
        s[i].0 == k,
    ensures
        param_seq_get(s, k) == Some(s[i].1),
    decreases s.len(),
{
    if i == 0 {
    } else {
        assert(s[0].0 != k);
        assert(s.drop_first()[i - 1] == s[i]);
        lemma_param_seq_get_present(s.drop_first(), k, i - 1);
    }
}

proof fn lemma_param_seq_get_absent(s: ParamSeq, k: Seq<char>)
    requires
        !param_seq_has_key(s, k),
    ensures
        param_seq_get(s, k) is None,
    decreases s.len(),
{
    if s.len() > 0 {
        assert(s[0].0 != k);
        assert(forall|i: int|
            0 <= i < s.drop_first().len() ==> s.drop_first()[i] == s[i + 1]);
        lemma_param_seq_get_absent(s.drop_first(), k);
    }
}

/// Overwriting a slot whose key is not `k` does not change the lookup of `k`.
proof fn lemma_param_seq_get_update_other(
    s: ParamSeq,
    i: int,
    p: (Seq<char>, ParamValueView),
    k: Seq<char>,
)
    requires
        0 <= i < s.len(),
        p.0 != k,
        s[i].0 != k,
    ensures
        param_seq_get(s.update(i, p), k) == param_seq_get(s, k),
    decreases s.len(),
{
    let s2 = s.update(i, p);
    if i == 0 {
        assert(s2[0] == p);
        assert(s2.drop_first() =~= s.drop_first());
    } else {
        assert(s2[0] == s[0]);
        if s[0].0 != k {
            assert(s2.drop_first() =~= s.drop_first().update(i - 1, p));
            assert(s.drop_first()[i - 1] == s[i]);
            lemma_param_seq_get_update_other(s.drop_first(), i - 1, p, k);
        }
    }
}

/// Appending an entry whose key is not `k` does not change the lookup of `k`.
proof fn lemma_param_seq_get_push_other(s: ParamSeq, p: (Seq<char>, ParamValueView), k: Seq<char>)
    requires
        p.0 != k,
    ensures
        param_seq_get(s.push(p), k) == param_seq_get(s, k),
    decreases s.len(),
{
    let s2 = s.push(p);
    if s.len() == 0 {
        assert(s2[0] == p);
        assert(s2.drop_first() =~= Seq::<(Seq<char>, ParamValueView)>::empty());
    } else {
        assert(s2[0] == s[0]);
        if s[0].0 != k {
            assert(s2.drop_first() =~= s.drop_first().push(p));
            lemma_param_seq_get_push_other(s.drop_first(), p, k);
        }
    }
}

/// An ordered map from parameter name to value; keys are unique. The order is
/// the order of first insertion, and updating an existing key keeps its slot.
#[derive(Debug, Clone, PartialEq)]
pub struct NodeParams {
    pub values: Vec<(String, ParamValue)>,
}

impl View for NodeParams {
    type V = ParamSeq;

    open spec fn view(&self) -> ParamSeq {
        Seq::new(self.values@.len(), |i: int| (self.values@[i].0@, self.values@[i].1@))
    }
}

impl NodeParams {
    /// Keys are pairwise distinct.
    pub open spec fn wf(&self) -> bool {
        param_seq_keys_unique(self@)
    }

    /// An empty parameter store.
    pub fn new() -> (r: Self)
        ensures
            r@ == Seq::<(Seq<char>, ParamValueView)>::empty(),
            r.wf(),
    {
        let r = NodeParams { values: Vec::new() };
        proof {
            assert(r@ =~= Seq::<(Seq<char>, ParamValueView)>::empty());
        }
        r
    }

    /// Number of stored parameters.
    pub fn len(&self) -> (n: usize)
        ensures
            n == self@.len(),
    {
        self.values.len()
    }

    /// The entry at position `i`, for iteration in storage order.
    pub fn entry_at(&self, i: usize) -> (r: &(String, ParamValue))
        requires
            i < self@.len(),
        ensures
            (r.0@, r.1@) == self@[i as int],
    {
        &self.values[i]
    }

    /// Looks a parameter up by name.
    pub fn get(&self, key: &str) -> (r: Option<&ParamValue>)
        requires
            self.wf(),
        ensures
            match r {
                Some(v) => param_seq_get(self@, key@) == Some(v@),
                None => param_seq_get(self@, key@) is None,
            },
    {
        let probe: String = key.to_owned();
        let n = self.values.len();
        let mut i: usize = 0;
        while i < n
            invariant
                n == self.values.len(),
                self.wf(),
                probe@ == key@,
                0 <= i <= n,
                forall|j: int| 0 <= j < i ==> self@[j].0 != key@,
            decreases n - i,
        {
            if self.values[i].0 == probe {
                proof {
                    lemma_param_seq_get_present(self@, key@, i as int);
                }
                return Some(&self.values[i].1);
            }
            i += 1;
        }
        proof {
            lemma_param_seq_get_absent(self@, key@);
        }
        None
    }

    /// Inserts or overwrites the value stored under `key`. An existing key
    /// keeps its position; a new key is appended.
    pub fn insert(&mut self, key: String, value: ParamValue)
        requires
            old(self).wf(),
        ensures
            final(self).wf(),
            param_seq_get(final(self)@, key@) == Some(value@),
            param_seq_get(old(self)@, key@) is None ==> final(self)@.len() == old(self)@.len()
                + 1,
            param_seq_get(old(self)@, key@) is Some ==> final(self)@.len() == old(self)@.len(),
            forall|k: Seq<char>|
                k != key@ ==> param_seq_get(final(self)@, k) == param_seq_get(old(self)@, k),
            // Structural relation, for staleness reasoning: in-place update
            // of the existing slot, or an append of a fresh key.
            (exists|i: int|
                0 <= i < old(self)@.len() && old(self)@[i].0 == key@
                    && final(self)@ == old(self)@.update(i, (key@, value@)))
                || (!param_seq_has_key(old(self)@, key@)
                    && final(self)@ == old(self)@.push((key@, value@))),
    {
        let ghost key_view = key@;
        let ghost value_view = value@;
        let n = self.values.len();
        let mut i: usize = 0;
        while i < n
            invariant
                n == self.values.len(),
                param_seq_keys_unique(self@),
                self == old(self),
                key@ == key_view,
                value@ == value_view,
                0 <= i <= n,
                forall|j: int| 0 <= j < i ==> self@[j].0 != key_view,
            decreases n - i,
        {
            if self.values[i].0 == key {
                let ghost prev = self@;
                let ghost prev_vals = self.values@;
                let ghost idx = i as int;
                self.values.set(i, (key, value));
                proof {
                    assert(self.values@.len() == prev_vals.len());
                    assert(self.values@[idx].0@ == key_view);
                    assert(self.values@[idx].1@ == value_view);
                    assert(forall|m: int|
                        0 <= m < prev_vals.len() && m != idx ==> self.values@[m] == prev_vals[m]);
                    assert(self@ =~= prev.update(idx, (key_view, value_view)));
                    assert(prev[idx].0 == key_view);
                    assert(forall|m: int| 0 <= m < prev.len() ==> self@[m].0 == prev[m].0);
                    assert(param_seq_keys_unique(self@));
                    lemma_param_seq_get_present(self@, key_view, idx);
                    lemma_param_seq_get_present(prev, key_view, idx);
                    assert forall|k: Seq<char>| k != key_view implies param_seq_get(self@, k)
                        == param_seq_get(prev, k) by {
                        lemma_param_seq_get_update_other(prev, idx, (key_view, value_view), k);
                    }
                }
                return ;
            }
            i += 1;
        }
        let ghost prev = self@;
        self.values.push((key, value));
        proof {
            assert(self@ =~= prev.push((key_view, value_view)));
            assert(!param_seq_has_key(prev, key_view));
            lemma_param_seq_get_absent(prev, key_view);
            assert(forall|j: int| 0 <= j < prev.len() ==> self@[j] == prev[j]);
            assert(param_seq_keys_unique(self@));
            lemma_param_seq_get_present(self@, key_view, prev.len() as int);
            assert forall|k: Seq<char>| k != key_view implies param_seq_get(self@, k)
                == param_seq_get(prev, k) by {
                lemma_param_seq_get_push_other(prev, (key_view, value_view), k);
            }
        }
    }
}

impl Default for NodeParams {
    /// Same as [`NodeParams::new`]: an empty store.
    fn default() -> (r: Self)
        ensures
            r@ == Seq::<(Seq<char>, ParamValueView)>::empty(),
            r.wf(),
    {
        NodeParams::new()
    }
}

} // verus!
