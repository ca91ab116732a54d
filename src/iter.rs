//! The smallest ordered list of prefixes that covers a range of bit strings.
use vstd::prelude::*;
use crate::bits::{BitKey, is_prefix, shared_len, lemma_shared_len_props, lemma_shared_len_prefix};

verus! {

/// `s` without its trailing `false` bits: the prefix has the same lowest value.
pub open spec fn strip_zeros(s: Seq<bool>) -> Seq<bool>
    decreases s.len(),
{
    if s.len() > 0 && !s.last() {
        strip_zeros(s.drop_last())
    } else {
        s
    }
}

/// `s` without its trailing `true` bits: the prefix has the same highest value.
pub open spec fn strip_ones(s: Seq<bool>) -> Seq<bool>
    decreases s.len(),
{
    if s.len() > 0 && s.last() {
        strip_ones(s.drop_last())
    } else {
        s
    }
}

/// `a 0*` and `b 0*` are the same value.
pub open spec fn same_low(a: Seq<bool>, b: Seq<bool>) -> bool {
    strip_zeros(a) == strip_zeros(b)
}

/// `a 1*` and `b 1*` are the same value.
pub open spec fn same_high(a: Seq<bool>, b: Seq<bool>) -> bool {
    strip_ones(a) == strip_ones(b)
}

/// The lowest value covered by `b` comes right after the highest value
/// covered by `a`: `a` is `s 0 1*` and `b` is `s 1 0*` for some `s`.
pub open spec fn adjacent(a: Seq<bool>, b: Seq<bool>) -> bool {
    let x = strip_ones(a);
    let y = strip_zeros(b);
    &&& x.len() > 0
    &&& x.len() == y.len()
    &&& x.drop_last() == y.drop_last()
    &&& !x.last()
    &&& y.last()
}

/// The prefix whose lowest value comes right after the highest value of `a`
/// (`s 0 1*` becomes `s 1`); meaningful when `strip_ones(a)` is not empty.
pub open spec fn next_up(a: Seq<bool>) -> Seq<bool> {
    strip_ones(a).drop_last().push(true)
}

/// The prefix whose highest value comes right before the lowest value of `b`
/// (`s 1 0*` becomes `s 0`); meaningful when `strip_zeros(b)` is not empty.
pub open spec fn next_down(b: Seq<bool>) -> Seq<bool> {
    strip_zeros(b).drop_last().push(false)
}

/// Where the range after `after` starts (everything when there is no bound).
pub open spec fn start_after(after: Option<Seq<bool>>) -> Seq<bool> {
    match after {
        Some(a) => next_up(a),
        None => Seq::empty(),
    }
}

/// Where the range before `before` ends (everything when there is no bound).
pub open spec fn end_before(before: Option<Seq<bool>>) -> Seq<bool> {
    match before {
        Some(b) => next_down(b),
        None => Seq::empty(),
    }
}

/// No value lies strictly between the bounds.
pub open spec fn between_empty(after: Option<Seq<bool>>, before: Option<Seq<bool>>) -> bool {
    ||| after matches Some(a) && strip_ones(a).len() == 0
    ||| before matches Some(b) && strip_zeros(b).len() == 0
    ||| range_empty(start_after(after), end_before(before))
}

/// The view of an optional key.
pub open spec fn opt_view(k: Option<BitKey>) -> Option<Seq<bool>> {
    match k {
        Some(k) => Some(k@),
        None => None,
    }
}

/// `a` and `b` are the two halves of one prefix, `a` the lower: together
/// they would make one shorter prefix.
pub open spec fn siblings(a: Seq<bool>, b: Seq<bool>) -> bool {
    &&& a.len() > 0
    &&& a.len() == b.len()
    &&& a.drop_last() == b.drop_last()
    &&& !a.last()
    &&& b.last()
}

/// No two neighbours in `r` are siblings: with `tiles`, no shorter list of
/// prefixes covers the same values.
pub open spec fn no_siblings(r: Seq<Seq<bool>>) -> bool {
    forall|i: int| 0 <= i < r.len() - 1 ==> !siblings(#[trigger] r[i], r[i + 1])
}

/// `first 0*` lies above `last 1*`: the range between them is empty.
pub open spec fn range_empty(first: Seq<bool>, last: Seq<bool>) -> bool {
    let f = strip_zeros(first);
    let l = strip_ones(last);
    let n = shared_len(f, l);
    n < f.len() && n < l.len() && f[n as int] && !l[n as int]
}

/// The prefixes `r` cover the values from `first 0*` to `last 1*` in order,
/// each exactly once, with no gap.
pub open spec fn tiles(r: Seq<Seq<bool>>, first: Seq<bool>, last: Seq<bool>) -> bool {
    &&& r.len() > 0
    &&& same_low(r[0], first)
    &&& same_high(r.last(), last)
    &&& forall|i: int| 0 <= i < r.len() - 1 ==> adjacent(#[trigger] r[i], r[i + 1])
}

/// The views of a list of keys.
pub open spec fn views(v: Seq<BitKey>) -> Seq<Seq<bool>> {
    v.map_values(|k: BitKey| k@)
}

/// All bits of `s` from position `from` on are `b`.
pub open spec fn all_from(s: Seq<bool>, from: int, b: bool) -> bool {
    forall|j: int| from <= j < s.len() ==> s[j] == b
}

pub proof fn lemma_strip_zeros_tail(s: Seq<bool>, k: int)
    requires
        0 <= k <= s.len(),
        all_from(s, k, false),
    ensures
        strip_zeros(s) == strip_zeros(s.subrange(0, k)),
    decreases s.len(),
{
    if s.len() > k {
        assert(s.drop_last() =~= s.subrange(0, s.len() - 1));
        lemma_strip_zeros_tail(s.drop_last(), k);
        assert(s.drop_last().subrange(0, k) =~= s.subrange(0, k));
    } else {
        assert(s.subrange(0, k) =~= s);
    }
}

pub proof fn lemma_strip_ones_tail(s: Seq<bool>, k: int)
    requires
        0 <= k <= s.len(),
        all_from(s, k, true),
    ensures
        strip_ones(s) == strip_ones(s.subrange(0, k)),
    decreases s.len(),
{
    if s.len() > k {
        lemma_strip_ones_tail(s.drop_last(), k);
        assert(s.drop_last().subrange(0, k) =~= s.subrange(0, k));
    } else {
        assert(s.subrange(0, k) =~= s);
    }
}

pub proof fn lemma_strip_zeros_shape(s: Seq<bool>)
    ensures
        is_prefix(strip_zeros(s), s),
        all_from(s, strip_zeros(s).len() as int, false),
        strip_zeros(s).len() == 0 || strip_zeros(s).last(),
        strip_zeros(strip_zeros(s)) == strip_zeros(s),
    decreases s.len(),
{
    if s.len() > 0 && !s.last() {
        lemma_strip_zeros_shape(s.drop_last());
        let t = strip_zeros(s);
        assert forall|j: int| t.len() <= j < s.len() implies s[j] == false by {
            if j < s.len() - 1 {
                assert(s[j] == s.drop_last()[j]);
            }
        }
        assert(s.subrange(0, t.len() as int) =~= s.drop_last().subrange(0, t.len() as int));
    } else {
        assert(s.subrange(0, s.len() as int) =~= s);
    }
}

pub proof fn lemma_strip_ones_shape(s: Seq<bool>)
    ensures
        is_prefix(strip_ones(s), s),
        all_from(s, strip_ones(s).len() as int, true),
        strip_ones(s).len() == 0 || !strip_ones(s).last(),
        strip_ones(strip_ones(s)) == strip_ones(s),
    decreases s.len(),
{
    if s.len() > 0 && s.last() {
        lemma_strip_ones_shape(s.drop_last());
        let t = strip_ones(s);
        assert forall|j: int| t.len() <= j < s.len() implies s[j] == true by {
            if j < s.len() - 1 {
                assert(s[j] == s.drop_last()[j]);
            }
        }
        assert(s.subrange(0, t.len() as int) =~= s.drop_last().subrange(0, t.len() as int));
    } else {
        assert(s.subrange(0, s.len() as int) =~= s);
    }
}

/// Prefixes between `first 0*` and `last 1*`, in order, each as large as
/// possible.
#[derive(Clone, Debug)]
pub struct IterInclusive {
    // Unless done (`shared_len > first.len()`):
    // * `first` and `last` agree on their first `shared_len` bits;
    // * either all three lengths are equal (one prefix left), or `first`
    //   has a 0 and `last` a 1 at `shared_len`, `first` ends in no 0 and
    //   `last` in no 1 after that position.
    first: BitKey,
    last: BitKey,
    shared_len: usize,
}

impl IterInclusive {
    /// Nothing is left to produce.
    pub closed spec fn is_done(&self) -> bool {
        self.shared_len > self.first@.len()
    }

    /// One prefix is left, and it is `low()`.
    pub closed spec fn is_point(&self) -> bool {
        self.shared_len == self.first@.len() && self.shared_len == self.last@.len()
    }

    /// The next prefix starts at `low() 0*`.
    pub closed spec fn low(&self) -> Seq<bool> {
        self.first@
    }

    /// The last prefix ends at `high() 1*`.
    pub closed spec fn high(&self) -> Seq<bool> {
        self.last@
    }

    /// Steps still to come, at most.
    pub closed spec fn steps_left(&self) -> nat {
        if self.is_done() {
            0
        } else {
            ((self.first@.len() - self.shared_len) + 2 * (self.last@.len() - self.shared_len)
                + 1) as nat
        }
    }

    /// The state invariant.
    pub closed spec fn wf(&self) -> bool {
        let f = self.first@;
        let l = self.last@;
        let s = self.shared_len as int;
        self.is_done() || {
            &&& s <= l.len()
            &&& f.subrange(0, s) == l.subrange(0, s)
            &&& (self.is_point() || {
                &&& s < f.len()
                &&& s < l.len()
                &&& !f[s]
                &&& l[s]
                &&& (f.len() - 1 == s || f.last())
                &&& (l.len() - 1 == s || !l.last())
                &&& !(f.len() == s + 1 && l.len() == s + 1)
            })
        }
    }

    /// Produces nothing.
    pub fn empty() -> (r: IterInclusive)
        ensures
            r.wf(),
            r.is_done(),
    {
        IterInclusive { first: BitKey::null(), last: BitKey::null(), shared_len: 1 }
    }

    /// Produces the empty prefix, which covers everything.
    pub fn all() -> (r: IterInclusive)
        ensures
            r.wf(),
            !r.is_done(),
            r.is_point(),
            r.low() == Seq::<bool>::empty(),
            r.high() == Seq::<bool>::empty(),
    {
        let r = IterInclusive { first: BitKey::null(), last: BitKey::null(), shared_len: 0 };
        assert(r.first@.subrange(0, 0) =~= r.last@.subrange(0, 0));
        r
    }

    /// The next prefix, in ascending order.
    pub fn next(&mut self) -> (r: Option<BitKey>)
        requires
            old(self).wf(),
        ensures
            final(self).wf(),
            old(self).is_done() ==> r.is_none() && *final(self) == *old(self),
            !old(self).is_done() ==> r is Some && r->0@ == old(self).low()
                && final(self).steps_left() < old(self).steps_left()
                && if final(self).is_done() {
                    same_high(r->0@, old(self).high())
                } else {
                    adjacent(r->0@, final(self).low()) && !siblings(r->0@, final(self).low())
                        && same_high(final(self).high(), old(self).high())
                },
            old(self).is_point() && !old(self).is_done() ==> r is Some && r->0@ == old(self).low()
                && final(self).is_done(),
    {
        let first_len = self.first.len();
        if self.shared_len > first_len {
            return None;
        }
        let ghost f = self.first@;
        let ghost l = self.last@;
        let ghost s = self.shared_len as int;
        if first_len == self.shared_len {
            // one prefix left: the shared one
            assert(f =~= l) by {
                assert(f.subrange(0, s) =~= f);
                assert(l.subrange(0, s) =~= l);
            }
            let r = self.last.duplicate();
            self.shared_len = usize::MAX;
            self.first.clip(0);
            return Some(r);
        }
        let result = self.first.duplicate();
        // step up: drop trailing 1s of `first`, then turn the 0 before them into a 1
        let mut pos: usize = first_len;
        while pos > self.shared_len + 1
            invariant
                self.first@ == f,
                self.last@ == l,
                self.shared_len == s,
                result@ == f,
                old(self).wf(),
                old(self).first@ == f,
                old(self).last@ == l,
                old(self).shared_len == s,
                s < f.len(),
                s + 1 <= pos <= f.len(),
                all_from(f, pos as int, true),
            decreases pos,
        {
            if !self.first.get(pos - 1) {
                let p = pos - 1;
                self.first.clip(p + 1);
                self.first.flip(p);
                proof {
                    let nf = self.first@;
                    assert(nf =~= f.subrange(0, p as int).push(true));
                    lemma_strip_ones_tail(f, p + 1);
                    assert(strip_ones(f.subrange(0, p + 1)) == f.subrange(0, p + 1));
                    assert(strip_zeros(nf) == nf);
                    assert(f.subrange(0, p + 1).drop_last() =~= nf.drop_last());
                    assert(nf.subrange(0, s) =~= f.subrange(0, s));
                }
                return Some(result);
            }
            pos -= 1;
        }
        // `first` is `shared 0 1*`: continue from `last`, which is `shared 1 ...`
        proof {
            lemma_strip_ones_tail(f, s + 1);
            assert(strip_ones(f.subrange(0, s + 1)) == f.subrange(0, s + 1));
        }
        self.first = self.last.duplicate();
        let check_from = self.shared_len + 1;
        self.shared_len = self.last.len();
        let mut q: usize = check_from;
        while q < self.shared_len
            invariant
                self.first@ == l,
                self.last@ == l,
                self.shared_len == l.len(),
                result@ == f,
                old(self).wf(),
                old(self).first@ == f,
                old(self).last@ == l,
                old(self).shared_len == s,
                s < f.len(),
                strip_ones(f) == f.subrange(0, s + 1),
                s + 1 == check_from <= q <= l.len(),
                forall|j: int| check_from <= j < q ==> !l[j],
            decreases l.len() - q,
        {
            if self.first.get(q) {
                self.first.clip(q + 1);
                self.first.flip(q);
                self.shared_len = q;
                proof {
                    let nf = self.first@;
                    assert(nf =~= l.subrange(0, q as int).push(false));
                    lemma_strip_zeros_tail(nf, s + 1);
                    assert(nf.subrange(0, s + 1) =~= l.subrange(0, s + 1));
                    assert(strip_zeros(l.subrange(0, s + 1)) == l.subrange(0, s + 1));
                    assert(f.subrange(0, s + 1).drop_last() =~= f.subrange(0, s));
                    assert(l.subrange(0, s + 1).drop_last() =~= l.subrange(0, s));
                    assert(nf.subrange(0, q as int) =~= l.subrange(0, q as int));
                }
                return Some(result);
            }
            q += 1;
        }
        proof {
            lemma_strip_zeros_tail(l, s + 1);
            assert(strip_zeros(l.subrange(0, s + 1)) == l.subrange(0, s + 1));
            assert(f.subrange(0, s + 1).drop_last() =~= f.subrange(0, s));
            assert(l.subrange(0, s + 1).drop_last() =~= l.subrange(0, s));
            assert(l.subrange(0, l.len() as int) =~= l);
        }
        Some(result)
    }
}


impl IterInclusive {
    /// All prefixes still to come, in order.
    pub fn collect_vec(self) -> (r: Vec<BitKey>)
        requires
            self.wf(),
        ensures
            self.is_done() ==> r.len() == 0,
            !self.is_done() ==> tiles(views(r@), self.low(), self.high()),
            no_siblings(views(r@)),
            self.is_point() && !self.is_done() ==> views(r@) == seq![self.low()],
    {
        let mut it = self;
        let mut out: Vec<BitKey> = Vec::new();
        loop
            invariant
                it.wf(),
                out.len() == 0 ==> it.is_done() == self.is_done(),
                out.len() == 0 && !self.is_done() ==> {
                    &&& !it.is_done()
                    &&& it.low() == self.low()
                    &&& it.high() == self.high()
                    &&& it.is_point() == self.is_point()
                },
                out.len() > 0 ==> {
                    &&& !self.is_done()
                    &&& same_low(out@[0]@, self.low())
                    &&& forall|i: int|
                        0 <= i < out.len() - 1 ==> adjacent(#[trigger] out@[i]@, out@[i + 1]@)
                    &&& forall|i: int|
                        0 <= i < out.len() - 1 ==> !siblings(#[trigger] out@[i]@, out@[i + 1]@)
                    &&& if it.is_done() {
                        same_high(out@.last()@, self.high())
                    } else {
                        adjacent(out@.last()@, it.low()) && !siblings(out@.last()@, it.low())
                            && same_high(it.high(), self.high())
                    }
                },
                self.is_point() && !self.is_done() && out.len() > 0 ==> out.len() == 1
                    && out@[0]@ == self.low() && it.is_done(),
            ensures
                it.is_done(),
            decreases it.steps_left(),
        {
            let ghost prev = it;
            let ghost old_out = out@;
            match it.next() {
                None => {
                    break ;
                },
                Some(k) => {
                    out.push(k);
                    proof {
                        assert(out@[old_out.len() as int] == k);
                        assert forall|i: int|
                            0 <= i < out.len() - 1 implies adjacent(
                            #[trigger] out@[i]@,
                            out@[i + 1]@,
                        ) && !siblings(out@[i]@, out@[i + 1]@) by {
                            if i < old_out.len() - 1 {
                                assert(out@[i] == old_out[i]);
                                assert(out@[i + 1] == old_out[i + 1]);
                            } else {
                                assert(out@[i] == old_out.last());
                                assert(adjacent(old_out.last()@, prev.low()));
                            }
                        }
                        if old_out.len() > 0 {
                            assert(out@[0] == old_out[0]);
                        }
                    }
                },
            }
        }
        proof {
            let v = views(out@);
            assert forall|i: int| 0 <= i < v.len() - 1 implies adjacent(#[trigger] v[i], v[i + 1])
                && !siblings(v[i], v[i + 1]) by {
                assert(v[i] == out@[i]@);
                assert(v[i + 1] == out@[i + 1]@);
            }
            if self.is_point() && !self.is_done() {
                assert(out.len() == 1);
                assert(v[0] == out@[0]@);
                assert(v =~= seq![self.low()]);
            }
        }
        out
    }
}

/// The smallest ordered list of prefixes covering all values from `first 0*`
/// to `last 1*`.
#[verifier::rlimit(60)]
#[verifier::spinoff_prover]
pub fn iter_inclusive(first: BitKey, last: BitKey) -> (r: IterInclusive)
    ensures
        r.wf(),
        r.is_done() == range_empty(first@, last@),
        !r.is_done() ==> same_low(r.low(), first@) && same_high(r.high(), last@),
        first@ == last@ ==> !r.is_done() && r.is_point() && r.low() == first@,
{
    let ghost first0 = first@;
    let ghost last0 = last@;
    let mut first = first;
    let mut last = last;
    // trailing 0s of `first` and trailing 1s of `last` do not change the range
    let mut first_len = first.len();
    while first_len > 0 && !first.get(first_len - 1)
        invariant
            first@ == first0,
            first_len <= first0.len(),
            all_from(first0, first_len as int, false),
        decreases first_len,
    {
        first_len -= 1;
    }
    first.clip(first_len);
    let mut last_len = last.len();
    while last_len > 0 && last.get(last_len - 1)
        invariant
            last@ == last0,
            last_len <= last0.len(),
            all_from(last0, last_len as int, true),
        decreases last_len,
    {
        last_len -= 1;
    }
    last.clip(last_len);
    let ghost f = first@;
    let ghost l = last@;
    proof {
        lemma_strip_zeros_tail(first0, first_len as int);
        lemma_strip_ones_tail(last0, last_len as int);
        assert(strip_zeros(f) == f);
        assert(strip_ones(l) == l);
        lemma_shared_len_props(f, l);
        lemma_shared_len_prefix(f, l);
        lemma_shared_len_prefix(l, f);
        assert(shared_len(l, f) == shared_len(f, l));
        lemma_strip_zeros_shape(first0);
        lemma_strip_ones_shape(last0);
    }
    let mut shared_len = first.shared_prefix_len(&last);
    if shared_len == first_len {
        // `first` is a prefix of `last`: the 0s of `last` after it are shared too
        while shared_len < last_len && !last.get(shared_len)
            invariant
                last@ == l,
                first_len <= shared_len <= last_len,
                last_len == l.len(),
                forall|j: int| first_len <= j < shared_len ==> !l[j],
            decreases last_len - shared_len,
        {
            shared_len += 1;
        }
        first = last.duplicate();
        let ghost sl = shared_len as int;
        proof {
            assert(l.subrange(0, first_len as int) =~= f);
        }
        if shared_len == last_len {
            proof {
                lemma_strip_zeros_tail(l, first_len as int);
                assert(l.subrange(0, sl) =~= l);
            }
        } else {
            first.clip(shared_len + 1);
            first.flip(shared_len);
            proof {
                let nf = first@;
                assert(nf =~= l.subrange(0, sl).push(false));
                lemma_strip_zeros_tail(nf, first_len as int);
                assert(nf.subrange(0, first_len as int) =~= f);
                assert(nf.subrange(0, sl) =~= l.subrange(0, sl));
                if first0 == last0 {
                    assert(all_from(first0, f.len() as int, false));
                    if last0.len() > 0 {
                        assert(!last0.last());
                    }
                    assert(l =~= last0);
                    assert(!l[sl]);
                }
            }
        }
        proof {
            if first0 == last0 {
                if last0.len() > 0 && last0.last() {
                    assert(strip_zeros(first0) == first0);
                    assert(f.len() > l.len());
                }
            }
        }
    } else if shared_len == last_len {
        // `last` is a prefix of `first`: the 1s of `first` after it are shared too
        while shared_len < first_len && first.get(shared_len)
            invariant
                first@ == f,
                last_len <= shared_len <= first_len,
                first_len == f.len(),
                forall|j: int| last_len <= j < shared_len ==> f[j],
            decreases first_len - shared_len,
        {
            shared_len += 1;
        }
        last = first.duplicate();
        let ghost sl = shared_len as int;
        proof {
            assert(f.subrange(0, last_len as int) =~= l);
        }
        if shared_len == first_len {
            proof {
                lemma_strip_ones_tail(f, last_len as int);
                assert(f.subrange(0, sl) =~= f);
            }
        } else {
            last.clip(shared_len + 1);
            last.flip(shared_len);
            proof {
                let nl = last@;
                assert(nl =~= f.subrange(0, sl).push(true));
                lemma_strip_ones_tail(nl, last_len as int);
                assert(nl.subrange(0, last_len as int) =~= l);
                assert(nl.subrange(0, sl) =~= f.subrange(0, sl));
                if first0 == last0 {
                    assert(all_from(last0, l.len() as int, true));
                    assert(f =~= first0);
                    assert(f[sl]);
                }
            }
        }
        proof {
            if first0 == last0 {
                assert(l.len() < f.len());
                if first0.len() > 0 && !first0.last() {
                    assert(strip_ones(last0) == last0);
                }
                assert(strip_zeros(first0) == first0);
            }
        }
    } else if first.get(shared_len) && !last.get(shared_len) {
        // `first 0*` lies above `last 1*`
        proof {
            if first0 == last0 {
                assert(f.len() > 0 && l.len() > 0);
                if first0.last() {
                    assert(strip_zeros(first0) == first0);
                } else {
                    assert(strip_ones(last0) == last0);
                }
            }
        }
        return IterInclusive::empty();
    } else {
        proof {
            assert(f.subrange(0, shared_len as int) =~= l.subrange(0, shared_len as int));
            if first0 == last0 {
                if first0.last() {
                    assert(strip_zeros(first0) == first0);
                } else {
                    assert(strip_ones(last0) == last0);
                }
            }
        }
    }
    IterInclusive { first, last, shared_len }
}


/// Turn `key` into the prefix right after it (drop trailing 1s, then turn the
/// last 0 into a 1); false when `key` holds no 0 and nothing comes after it.
fn increment(key: &mut BitKey) -> (r: bool)
    ensures
        r == (strip_ones(old(key)@).len() > 0),
        r ==> final(key)@ == next_up(old(key)@),
        !r ==> final(key)@ == old(key)@,
{
    let ghost k0 = old(key)@;
    proof {
        lemma_strip_ones_shape(k0);
    }
    let mut pos: usize = key.len();
    while pos > 0
        invariant
            key@ == k0,
            k0 == old(key)@,
            pos <= k0.len(),
            all_from(k0, pos as int, true),
            is_prefix(strip_ones(k0), k0),
            all_from(k0, strip_ones(k0).len() as int, true),
            strip_ones(k0).len() == 0 || !strip_ones(k0).last(),
        decreases pos,
    {
        if !key.get(pos - 1) {
            let p = pos - 1;
            key.clip(p + 1);
            key.flip(p);
            proof {
                lemma_strip_ones_tail(k0, p + 1);
                let t = k0.subrange(0, p + 1);
                assert(t.last() == false);
                assert(strip_ones(t) == t);
                assert(t.drop_last() =~= k0.subrange(0, p as int));
                assert(key@ =~= k0.subrange(0, p as int).push(true));
            }
            return true;
        }
        pos -= 1;
    }
    proof {
        lemma_strip_ones_tail(k0, 0);
        assert(k0.subrange(0, 0) =~= Seq::<bool>::empty());
    }
    false
}

/// Turn `key` into the prefix right before it (drop trailing 0s, then turn
/// the last 1 into a 0); false when `key` holds no 1 and nothing comes before
/// it.
fn decrement(key: &mut BitKey) -> (r: bool)
    ensures
        r == (strip_zeros(old(key)@).len() > 0),
        r ==> final(key)@ == next_down(old(key)@),
        !r ==> final(key)@ == old(key)@,
{
    let ghost k0 = old(key)@;
    proof {
        lemma_strip_zeros_shape(k0);
    }
    let mut pos: usize = key.len();
    while pos > 0
        invariant
            key@ == k0,
            k0 == old(key)@,
            pos <= k0.len(),
            all_from(k0, pos as int, false),
        decreases pos,
    {
        if key.get(pos - 1) {
            let p = pos - 1;
            key.clip(p + 1);
            key.flip(p);
            proof {
                lemma_strip_zeros_tail(k0, p + 1);
                let t = k0.subrange(0, p + 1);
                assert(t.last() == true);
                assert(strip_zeros(t) == t);
                assert(t.drop_last() =~= k0.subrange(0, p as int));
                assert(key@ =~= k0.subrange(0, p as int).push(false));
            }
            return true;
        }
        pos -= 1;
    }
    proof {
        lemma_strip_zeros_tail(k0, 0);
        assert(k0.subrange(0, 0) =~= Seq::<bool>::empty());
    }
    false
}

impl Default for IterInclusive {
    /// Produces nothing.
    fn default() -> (r: IterInclusive)
        ensures
            r.wf(),
            r.is_done(),
    {
        IterInclusive::empty()
    }
}

/// Prefixes covering the values strictly between two prefixes.
#[derive(Clone, Debug)]
pub struct IterBetween {
    range: IterInclusive,
}

impl IterBetween {
    /// The state invariant.
    pub closed spec fn wf(&self) -> bool {
        self.range.wf()
    }

    /// Nothing is left to produce.
    pub closed spec fn is_done(&self) -> bool {
        self.range.is_done()
    }

    /// The next prefix starts at `low() 0*`.
    pub closed spec fn low(&self) -> Seq<bool> {
        self.range.low()
    }

    /// The last prefix ends at `high() 1*`.
    pub closed spec fn high(&self) -> Seq<bool> {
        self.range.high()
    }

    /// Steps still to come, at most.
    pub closed spec fn steps_left(&self) -> nat {
        self.range.steps_left()
    }

    /// The next prefix, in ascending order.
    pub fn next(&mut self) -> (r: Option<BitKey>)
        requires
            old(self).wf(),
        ensures
            final(self).wf(),
            old(self).is_done() ==> r.is_none() && *final(self) == *old(self),
            !old(self).is_done() ==> r is Some && r->0@ == old(self).low()
                && final(self).steps_left() < old(self).steps_left()
                && if final(self).is_done() {
                    same_high(r->0@, old(self).high())
                } else {
                    adjacent(r->0@, final(self).low()) && !siblings(r->0@, final(self).low())
                        && same_high(final(self).high(), old(self).high())
                },
    {
        self.range.next()
    }

    /// All prefixes still to come, in order.
    pub fn collect_vec(self) -> (r: Vec<BitKey>)
        requires
            self.wf(),
        ensures
            self.is_done() ==> r.len() == 0,
            !self.is_done() ==> tiles(views(r@), self.low(), self.high()),
            no_siblings(views(r@)),
    {
        self.range.collect_vec()
    }
}

impl Default for IterBetween {
    /// Produces nothing.
    fn default() -> (r: IterBetween)
        ensures
            r.wf(),
            r.is_done(),
    {
        IterBetween { range: IterInclusive::empty() }
    }
}

/// The smallest ordered list of prefixes covering the values after `after`
/// and before `before`; a missing bound leaves that side open.
#[verifier::rlimit(40)]
pub fn iter_between(after: Option<BitKey>, before: Option<BitKey>) -> (r: IterBetween)
    ensures
        r.wf(),
        r.is_done() == between_empty(opt_view(after), opt_view(before)),
        !r.is_done() ==> same_low(r.low(), start_after(opt_view(after))) && same_high(
            r.high(),
            end_before(opt_view(before)),
        ),
{
    let ghost a0 = opt_view(after);
    let ghost b0 = opt_view(before);
    let mut after = after;
    let mut before = before;
    if let Some(start) = after.as_mut() {
        if !increment(start) {
            return IterBetween { range: IterInclusive::empty() };
        }
    }
    if let Some(end) = before.as_mut() {
        if !decrement(end) {
            proof {
                assert(between_empty(a0, b0));
            }
            return IterBetween { range: IterInclusive::empty() };
        }
    }
    let range = match (after, before) {
        (Some(first), Some(last)) => iter_inclusive(first, last),
        (Some(first), None) => {
            // up to the highest value: `first` up to its first 0, that 0 turned into a 1
            let mut last = first.duplicate();
            let mut pos: usize = 0;
            while pos < last.len() && last.get(pos)
                invariant
                    last@ == first@,
                    pos <= first@.len(),
                    forall|j: int| 0 <= j < pos ==> first@[j],
                decreases first@.len() - pos,
            {
                pos += 1;
            }
            if pos < last.len() {
                last.clip(pos + 1);
                last.flip(pos);
            }
            proof {
                assert(all_from(last@, 0, true));
                lemma_strip_ones_tail(last@, 0);
                assert(last@.subrange(0, 0) =~= Seq::<bool>::empty());
            }
            iter_inclusive(first, last)
        },
        (None, Some(last)) => {
            // from the lowest value: `last` up to its first 1, that 1 turned into a 0
            let mut first = last.duplicate();
            let mut pos: usize = 0;
            while pos < first.len() && !first.get(pos)
                invariant
                    first@ == last@,
                    pos <= last@.len(),
                    forall|j: int| 0 <= j < pos ==> !last@[j],
                decreases last@.len() - pos,
            {
                pos += 1;
            }
            if pos < first.len() {
                first.clip(pos + 1);
                first.flip(pos);
            }
            proof {
                assert(all_from(first@, 0, false));
                lemma_strip_zeros_tail(first@, 0);
                assert(first@.subrange(0, 0) =~= Seq::<bool>::empty());
            }
            iter_inclusive(first, last)
        },
        (None, None) => IterInclusive::all(),
    };
    IterBetween { range }
}

/// When `a` and `b` first differ at a bit where `a` has a 1 and `b` a 0,
/// `a 0*` lies above `b 1*`: the range from `a` to `b` is empty.
pub proof fn lemma_diverging_range_empty(a: Seq<bool>, b: Seq<bool>)
    requires
        shared_len(a, b) < a.len(),
        shared_len(a, b) < b.len(),
        a[shared_len(a, b) as int],
        !b[shared_len(a, b) as int],
    ensures
        range_empty(a, b),
{
    let d = shared_len(a, b) as int;
    lemma_shared_len_props(a, b);
    lemma_strip_zeros_shape(a);
    lemma_strip_ones_shape(b);
    let f = strip_zeros(a);
    let l = strip_ones(b);
    assert(f.len() > d);
    assert(l.len() > d);
    assert forall|j: int| 0 <= j <= d implies f[j] == a[j] && l[j] == b[j] by {
        assert(a.subrange(0, f.len() as int)[j] == a[j]);
        assert(b.subrange(0, l.len() as int)[j] == b[j]);
    }
    crate::bits::lemma_shared_len_exact(f, l, d as nat);
}

} // verus!
