//! Decoding of an `application/x-www-form-urlencoded` body into a map from
//! field names to field values.

use vstd::prelude::*;

use crate::percent::{
    percent_decode_panics, percent_decode_panics_range, percent_decode_text_range,
    percent_decoded_text,
};

verus! {

/// The pieces of `s` between occurrences of `sep` (what `split` yields):
/// one more piece than there are separators.
pub open spec fn split_seq<A>(s: Seq<A>, sep: A) -> Seq<Seq<A>>
    decreases s.len(),
{
    if s.len() == 0 {
        seq![Seq::empty()]
    } else {
        let pieces = split_seq(s.drop_last(), sep);
        if s.last() == sep {
            pieces.push(Seq::empty())
        } else {
            pieces.update(pieces.len() - 1, pieces.last().push(s.last()))
        }
    }
}

pub proof fn lemma_split_seq_len<A>(s: Seq<A>, sep: A)
    ensures
        split_seq(s, sep).len() >= 1,
    decreases s.len(),
{
    if s.len() > 0 {
        lemma_split_seq_len(s.drop_last(), sep);
    }
}

/// `s` split at its first occurrence of `sep` (what `split_once` returns).
pub open spec fn split_once(s: Seq<u8>, sep: u8) -> Option<(Seq<u8>, Seq<u8>)>
    decreases s.len(),
{
    if s.len() == 0 {
        None
    } else if s[0] == sep {
        Some((Seq::empty(), s.skip(1)))
    } else {
        match split_once(s.skip(1), sep) {
            Some((k, v)) => Some((seq![s[0]] + k, v)),
            None => None,
        }
    }
}

/// The raw name and value of one `name=value` piece; a piece without `=` is a
/// name with an empty value.
pub open spec fn form_pair(piece: Seq<u8>) -> (Seq<u8>, Seq<u8>) {
    match split_once(piece, 61) {
        Some(kv) => kv,
        None => (piece, Seq::empty()),
    }
}

/// The fields of the given pieces, decoded; empty pieces are skipped and a
/// later field replaces an earlier one of the same name.
pub open spec fn form_fields(pieces: Seq<Seq<u8>>) -> Map<Seq<char>, Seq<char>>
    decreases pieces.len(),
{
    if pieces.len() == 0 {
        Map::empty()
    } else {
        let m = form_fields(pieces.drop_last());
        let p = pieces.last();
        if p.len() == 0 {
            m
        } else {
            m.insert(percent_decoded_text(form_pair(p).0), percent_decoded_text(form_pair(p).1))
        }
    }
}

/// Whether decoding the name or the value of a non-empty piece panics.
pub open spec fn piece_panics(p: Seq<u8>) -> bool {
    p.len() > 0 && (percent_decode_panics(form_pair(p).0) || percent_decode_panics(
        form_pair(p).1,
    ))
}

/// The fields of a form body.
pub open spec fn decoded_form(body: Seq<u8>) -> Map<Seq<char>, Seq<char>> {
    form_fields(split_seq(body, 38u8))
}

/// Whether decoding the form body panics (see `percent_decode_panics`).
pub open spec fn form_decode_panics(body: Seq<u8>) -> bool {
    exists|k: int|
        0 <= k < split_seq(body, 38u8).len() && piece_panics(#[trigger] split_seq(body, 38u8)[k])
}

/// The value of a field, if the map has one.
pub open spec fn lookup(m: Map<Seq<char>, Seq<char>>, k: Seq<char>) -> Option<Seq<char>> {
    if m.dom().contains(k) {
        Some(m[k])
    } else {
        None
    }
}

/// The fields of a form, each name at most once.
pub struct FormFields {
    entries: Vec<(String, String)>,
}

pub open spec fn entries_map(e: Seq<(String, String)>) -> Map<Seq<char>, Seq<char>>
    decreases e.len(),
{
    if e.len() == 0 {
        Map::empty()
    } else {
        entries_map(e.drop_last()).insert(e.last().0@, e.last().1@)
    }
}

pub open spec fn keys_unique(e: Seq<(String, String)>) -> bool {
    forall|i: int, j: int| 0 <= i < j < e.len() ==> e[i].0@ != e[j].0@
}

proof fn lemma_entries_map(e: Seq<(String, String)>)
    requires
        keys_unique(e),
    ensures
        forall|k: Seq<char>|
            entries_map(e).dom().contains(k) <==> exists|i: int|
                0 <= i < e.len() && #[trigger] e[i].0@ == k,
        forall|i: int| 0 <= i < e.len() ==> entries_map(e)[#[trigger] e[i].0@] == e[i].1@,
    decreases e.len(),
{
    if e.len() > 0 {
        let d = e.drop_last();
        assert(keys_unique(d));
        lemma_entries_map(d);
        assert forall|k: Seq<char>|
            entries_map(e).dom().contains(k) implies exists|i: int|
                0 <= i < e.len() && #[trigger] e[i].0@ == k by {
            if k != e.last().0@ {
                assert(entries_map(d).dom().contains(k));
                let i = choose|i: int| 0 <= i < d.len() && #[trigger] d[i].0@ == k;
                assert(e[i] == d[i]);
            } else {
                assert(e[e.len() - 1].0@ == k);
            }
        }
        assert forall|k: Seq<char>|
            (exists|i: int| 0 <= i < e.len() && #[trigger] e[i].0@ == k) implies entries_map(
            e,
        ).dom().contains(k) by {
            let i = choose|i: int| 0 <= i < e.len() && #[trigger] e[i].0@ == k;
            if i < e.len() - 1 {
                assert(d[i] == e[i]);
            }
        }
        assert forall|i: int| 0 <= i < e.len() implies entries_map(e)[#[trigger] e[i].0@]
            == e[i].1@ by {
            if i < e.len() - 1 {
                assert(d[i] == e[i]);
                assert(e[i].0@ != e[e.len() - 1].0@);
            }
        }
    }
}

impl View for FormFields {
    type V = Map<Seq<char>, Seq<char>>;

    closed spec fn view(&self) -> Map<Seq<char>, Seq<char>> {
        entries_map(self.entries@)
    }
}

impl FormFields {
    pub closed spec fn wf(&self) -> bool {
        keys_unique(self.entries@)
    }

    pub fn new() -> (r: FormFields)
        ensures
            r.wf(),
            r@ == Map::<Seq<char>, Seq<char>>::empty(),
    {
        FormFields { entries: Vec::new() }
    }

    fn position(&self, key: &String) -> (r: Option<usize>)
        requires
            self.wf(),
        ensures
            match r {
                Some(i) => i < self.entries@.len() && self.entries@[i as int].0@ == key@,
                None => forall|i: int|
                    0 <= i < self.entries@.len() ==> #[trigger] self.entries@[i].0@ != key@,
            },
    {
        let mut i: usize = 0;
        while i < self.entries.len()
            invariant
                i <= self.entries@.len(),
                forall|j: int| 0 <= j < i ==> #[trigger] self.entries@[j].0@ != key@,
            decreases self.entries@.len() - i,
        {
            if self.entries[i].0 == *key {
                return Some(i);
            }
            i = i + 1;
        }
        None
    }

    /// Sets the value of a field, replacing any earlier value of the same name.
    pub fn insert(&mut self, key: String, value: String)
        requires
            old(self).wf(),
        ensures
            final(self).wf(),
            final(self)@ == old(self)@.insert(key@, value@),
    {
        let ghost old_e = self.entries@;
        proof {
            lemma_entries_map(old_e);
        }
        match self.position(&key) {
            Some(i) => {
                let ghost k = key@;
                let ghost v = value@;
                self.entries.set(i, (key, value));
                let ghost new_e = self.entries@;
                assert(keys_unique(new_e)) by {
                    assert forall|a: int, b: int| 0 <= a < b < new_e.len() implies new_e[a].0@
                        != new_e[b].0@ by {
                        if a != i as int && b != i as int {
                            assert(new_e[a] == old_e[a] && new_e[b] == old_e[b]);
                        } else if a == i as int {
                            assert(new_e[b] == old_e[b]);
                        } else {
                            assert(new_e[a] == old_e[a]);
                        }
                    }
                }
                proof {
                    lemma_entries_map(new_e);
                    assert forall|q: Seq<char>| #[trigger]
                        entries_map(new_e).dom().contains(q) == entries_map(old_e).insert(
                            k,
                            v,
                        ).dom().contains(q) by {
                        if entries_map(new_e).dom().contains(q) {
                            let j = choose|j: int| 0 <= j < new_e.len() && #[trigger] new_e[j].0@ == q;
                            if j != i as int {
                                assert(old_e[j] == new_e[j]);
                            }
                        }
                        if entries_map(old_e).dom().contains(q) {
                            let j = choose|j: int| 0 <= j < old_e.len() && #[trigger] old_e[j].0@ == q;
                            if j != i as int {
                                assert(old_e[j] == new_e[j]);
                            } else {
                                assert(new_e[i as int].0@ == q);
                            }
                        }
                        if q == k {
                            assert(new_e[i as int].0@ == q);
                        }
                    }
                    assert forall|q: Seq<char>| #[trigger]
                        entries_map(new_e).dom().contains(q) implies entries_map(new_e)[q]
                        == entries_map(old_e).insert(k, v)[q] by {
                        let j = choose|j: int| 0 <= j < new_e.len() && #[trigger] new_e[j].0@ == q;
                        if j != i as int {
                            assert(old_e[j] == new_e[j]);
                        }
                    }
                    assert(entries_map(new_e) =~= entries_map(old_e).insert(k, v));
                }
            },
            None => {
                self.entries.push((key, value));
                let ghost new_e = self.entries@;
                assert(new_e.drop_last() =~= old_e);
                assert(keys_unique(new_e)) by {
                    assert forall|a: int, b: int| 0 <= a < b < new_e.len() implies new_e[a].0@
                        != new_e[b].0@ by {
                        assert(new_e[a] == old_e[a]);
                        if b < old_e.len() {
                            assert(new_e[b] == old_e[b]);
                        }
                    }
                }
            },
        }
    }

    /// The value of the field `key`, if there is one.
    pub fn get(&self, key: &str) -> (r: Option<String>)
        requires
            self.wf(),
        ensures
            match r {
                Some(v) => lookup(self@, key@) == Some(v@),
                None => lookup(self@, key@) is None,
            },
    {
        proof {
            lemma_entries_map(self.entries@);
        }
        let k = String::from_str(key);
        match self.position(&k) {
            Some(i) => Some(self.entries[i].1.clone()),
            None => None,
        }
    }
}

/// How the split of a prefix grows by one element.
pub proof fn lemma_split_step<A>(body: Seq<A>, sep: A, i: int)
    requires
        0 <= i < body.len(),
    ensures
        split_seq(body.take(i + 1), sep) == (if body[i] == sep {
            split_seq(body.take(i), sep).push(Seq::empty())
        } else {
            let p = split_seq(body.take(i), sep);
            p.update(p.len() - 1, p.last().push(body[i]))
        }),
{
    let t = body.take(i + 1);
    assert(t.drop_last() =~= body.take(i));
    assert(t.last() == body[i]);
}

proof fn lemma_split_once_index(s: Seq<u8>, j: int)
    requires
        0 <= j < s.len(),
        s[j] == 61u8,
        forall|k: int| 0 <= k < j ==> s[k] != 61u8,
    ensures
        split_once(s, 61u8) == Some((s.take(j), s.skip(j + 1))),
    decreases j,
{
    if j == 0 {
        assert(s.take(0) =~= Seq::<u8>::empty());
    } else {
        let t = s.skip(1);
        assert forall|k: int| 0 <= k < j - 1 implies t[k] != 61u8 by {
            assert(t[k] == s[k + 1]);
        }
        lemma_split_once_index(t, j - 1);
        assert(seq![s[0]] + t.take(j - 1) =~= s.take(j));
        assert(t.skip(j) =~= s.skip(j + 1));
    }
}

proof fn lemma_split_once_none(s: Seq<u8>)
    requires
        forall|k: int| 0 <= k < s.len() ==> s[k] != 61u8,
    ensures
        split_once(s, 61u8) is None,
    decreases s.len(),
{
    if s.len() > 0 {
        let t = s.skip(1);
        assert forall|k: int| 0 <= k < t.len() implies t[k] != 61u8 by {
            assert(t[k] == s[k + 1]);
        }
        lemma_split_once_none(t);
    }
}

/// The index of the first `=` in `body[lo..hi]`, or `hi` when there is none.
fn find_eq(body: &[u8], lo: usize, hi: usize) -> (j: usize)
    requires
        lo <= hi <= body@.len(),
    ensures
        lo <= j <= hi,
        j < hi ==> body@[j as int] == 61u8,
        forall|k: int| lo <= k < j ==> body@[k] != 61u8,
{
    let mut j: usize = lo;
    while j < hi && body[j] != 61
        invariant
            lo <= j <= hi <= body@.len(),
            forall|k: int| lo <= k < j ==> body@[k] != 61u8,
        decreases hi - j,
    {
        j = j + 1;
    }
    j
}

/// The raw name and value bounds of the piece `body[lo..hi]`.
fn pair_bounds(body: &[u8], lo: usize, hi: usize) -> (r: (usize, usize))
    requires
        lo <= hi <= body@.len(),
    ensures
        lo <= r.0 <= r.1 <= hi,
        form_pair(body@.subrange(lo as int, hi as int)) == (
            body@.subrange(lo as int, r.0 as int),
            body@.subrange(r.1 as int, hi as int),
        ),
{
    let j = find_eq(body, lo, hi);
    let ghost p = body@.subrange(lo as int, hi as int);
    if j < hi {
        proof {
            assert forall|k: int| 0 <= k < j - lo implies p[k] != 61u8 by {
                assert(p[k] == body@[lo + k]);
            }
            lemma_split_once_index(p, j - lo);
            assert(p.take(j - lo) =~= body@.subrange(lo as int, j as int));
            assert(p.skip(j - lo + 1) =~= body@.subrange(j + 1, hi as int));
        }
        (j, j + 1)
    } else {
        proof {
            assert forall|k: int| 0 <= k < p.len() implies p[k] != 61u8 by {
                assert(p[k] == body@[lo + k]);
            }
            lemma_split_once_none(p);
            assert(body@.subrange(hi as int, hi as int) =~= Seq::<u8>::empty());
        }
        (hi, hi)
    }
}

/// The pieces completed in a prefix of the body stay pieces of the whole body.
proof fn lemma_split_prefix(body: Seq<u8>, i: int)
    requires
        0 <= i <= body.len(),
    ensures
        split_seq(body, 38u8).len() >= split_seq(body.take(i), 38u8).len(),
        forall|k: int|
            0 <= k < split_seq(body.take(i), 38u8).len() - 1 ==> split_seq(body, 38u8)[k]
                == #[trigger] split_seq(body.take(i), 38u8)[k],
    decreases body.len() - i,
{
    lemma_split_seq_len(body.take(i), 38u8);
    if i == body.len() {
        assert(body.take(i) =~= body);
    } else {
        lemma_split_prefix(body, i + 1);
        lemma_split_step(body, 38u8, i);
        let a = split_seq(body.take(i), 38u8);
        let b = split_seq(body.take(i + 1), 38u8);
        assert forall|k: int| 0 <= k < a.len() - 1 implies split_seq(body, 38u8)[k]
            == #[trigger] a[k] by {
            assert(b[k] == a[k]);
            assert(k < b.len() - 1);
        }
    }
}

/// Without the separator, the split is the whole sequence.
pub proof fn lemma_split_without_separator<A>(s: Seq<A>, sep: A)
    requires
        forall|i: int| 0 <= i < s.len() ==> s[i] != sep,
    ensures
        split_seq(s, sep) == seq![s],
    decreases s.len(),
{
    if s.len() > 0 {
        let d = s.drop_last();
        assert forall|i: int| 0 <= i < d.len() implies d[i] != sep by {
            assert(d[i] == s[i]);
        }
        lemma_split_without_separator(d, sep);
        assert(seq![d].last() == d);
        assert(s.last() != sep);
        assert(d.push(s.last()) =~= s);
        assert(seq![d].update(0, d.push(s.last())) =~= seq![s]);
    } else {
        assert(s =~= Seq::<A>::empty());
    }
}

/// Splitting at a separator splits the two sides separately.
pub proof fn lemma_split_concat<A>(a: Seq<A>, b: Seq<A>, sep: A)
    ensures
        split_seq(a + seq![sep] + b, sep) == split_seq(a, sep) + split_seq(b, sep),
    decreases b.len(),
{
    let x = a + seq![sep] + b;
    if b.len() == 0 {
        assert(x.drop_last() =~= a);
        assert(x.last() == sep);
        assert(split_seq(b, sep) =~= seq![Seq::<A>::empty()]);
        assert(split_seq(a, sep).push(Seq::<A>::empty()) =~= split_seq(a, sep) + split_seq(b, sep));
    } else {
        let bd = b.drop_last();
        lemma_split_concat(a, bd, sep);
        lemma_split_seq_len(bd, sep);
        assert(x.drop_last() =~= a + seq![sep] + bd);
        assert(x.last() == b.last());
        let p = split_seq(a, sep);
        let q = split_seq(bd, sep);
        if b.last() == sep {
            assert((p + q).push(Seq::<A>::empty()) =~= p + q.push(Seq::<A>::empty()));
        } else {
            assert((p + q).update((p + q).len() - 1, (p + q).last().push(b.last())) =~= p
                + q.update(q.len() - 1, q.last().push(b.last())));
        }
    }
}

proof fn lemma_form_fields_concat(p: Seq<Seq<u8>>, q: Seq<Seq<u8>>)
    ensures
        form_fields(p + q) == form_fields(p).union_prefer_right(form_fields(q)),
    decreases q.len(),
{
    if q.len() == 0 {
        assert(p + q =~= p);
        assert(form_fields(p) =~= form_fields(p).union_prefer_right(Map::empty()));
    } else {
        let qd = q.drop_last();
        lemma_form_fields_concat(p, qd);
        assert((p + q).drop_last() =~= p + qd);
        assert((p + q).last() == q.last());
        let l = q.last();
        if l.len() > 0 {
            let k = percent_decoded_text(form_pair(l).0);
            let v = percent_decoded_text(form_pair(l).1);
            assert(form_fields(p).union_prefer_right(form_fields(qd)).insert(k, v) =~= form_fields(
                p,
            ).union_prefer_right(form_fields(qd).insert(k, v)));
        }
    }
}

/// Law: the fields of `a&b` are those of `a` and of `b`, a field of `b`
/// replacing a field of `a` with the same name.
pub proof fn lemma_form_concat(a: Seq<u8>, b: Seq<u8>)
    ensures
        decoded_form(a + seq![38u8] + b) == decoded_form(a).union_prefer_right(decoded_form(b)),
{
    lemma_split_concat(a, b, 38u8);
    lemma_form_fields_concat(split_seq(a, 38u8), split_seq(b, 38u8));
}

/// Law: the form `name=value` (with no `&` in either and no `=` in the name)
/// has exactly one field: the decoded name, holding the decoded value; a
/// piece without `=` is a name with an empty value; an empty body has no field.
pub proof fn lemma_single_field(k: Seq<u8>, v: Seq<u8>)
    requires
        forall|i: int| 0 <= i < k.len() ==> k[i] != 38u8 && k[i] != 61u8,
        forall|i: int| 0 <= i < v.len() ==> v[i] != 38u8,
    ensures
        decoded_form(k + seq![61u8] + v) == Map::<Seq<char>, Seq<char>>::empty().insert(
            percent_decoded_text(k),
            percent_decoded_text(v),
        ),
        k.len() > 0 ==> decoded_form(k) == Map::<Seq<char>, Seq<char>>::empty().insert(
            percent_decoded_text(k),
            percent_decoded_text(Seq::empty()),
        ),
        decoded_form(Seq::empty()) == Map::<Seq<char>, Seq<char>>::empty(),
{
    let p = k + seq![61u8] + v;
    assert forall|i: int| 0 <= i < p.len() implies p[i] != 38u8 by {
        if i < k.len() {
            assert(p[i] == k[i]);
        } else if i > k.len() {
            assert(p[i] == v[i - k.len() - 1]);
        }
    }
    lemma_split_without_separator(p, 38u8);
    assert forall|i: int| 0 <= i < k.len() implies p[i] != 61u8 by {
        assert(p[i] == k[i]);
    }
    lemma_split_once_index(p, k.len() as int);
    assert(p.take(k.len() as int) =~= k);
    assert(p.skip(k.len() as int + 1) =~= v);
    assert(seq![p].drop_last() =~= Seq::<Seq<u8>>::empty());
    assert(seq![p].last() == p);
    assert(p.len() > 0);
    assert(form_pair(p) == (k, v));
    assert(form_fields(seq![p]) == form_fields(Seq::<Seq<u8>>::empty()).insert(
        percent_decoded_text(k),
        percent_decoded_text(v),
    ));
    if k.len() > 0 {
        lemma_split_without_separator(k, 38u8);
        lemma_split_once_none(k);
        assert(seq![k].drop_last() =~= Seq::<Seq<u8>>::empty());
        assert(seq![k].last() == k);
        assert(form_pair(k) == (k, Seq::<u8>::empty()));
    }
    assert(split_seq(Seq::<u8>::empty(), 38u8) =~= seq![Seq::<u8>::empty()]);
    assert(seq![Seq::<u8>::empty()].drop_last() =~= Seq::<Seq<u8>>::empty());
}

/// Whether decoding the form body panics.
pub fn form_body_panics(body: &[u8]) -> (r: bool)
    ensures
        r == form_decode_panics(body@),
{
    let n = body.len();
    let mut start: usize = 0;
    let mut i: usize = 0;
    let mut panics = false;
    let ghost mut done: Seq<Seq<u8>> = seq![];
    assert(body@.take(0) =~= Seq::<u8>::empty());
    assert(split_seq(body@.take(0), 38u8) =~= seq![Seq::<u8>::empty()]);
    assert(body@.subrange(0, 0) =~= Seq::<u8>::empty());
    while i < n
        invariant
            n == body@.len(),
            start <= i <= n,
            split_seq(body@.take(i as int), 38u8) == done.push(
                body@.subrange(start as int, i as int),
            ),
            panics == exists|k: int| 0 <= k < done.len() && piece_panics(#[trigger] done[k]),
        decreases n - i,
    {
        proof {
            lemma_split_step(body@, 38u8, i as int);
        }
        if body[i] == 38 {
            let ghost p = body@.subrange(start as int, i as int);
            let piece_panicked = if start < i {
                let (ke, vs) = pair_bounds(body, start, i);
                percent_decode_panics_range(body, start, ke) || percent_decode_panics_range(
                    body,
                    vs,
                    i,
                )
            } else {
                false
            };
            assert(piece_panicked == piece_panics(p));
            let ghost old_done = done;
            panics = panics || piece_panicked;
            proof {
                done = done.push(p);
                assert(forall|k: int| 0 <= k < old_done.len() ==> done[k] == old_done[k]);
                if piece_panicked {
                    assert(done[old_done.len() as int] == p);
                }
            }
            assert(body@.subrange(i + 1, i + 1) =~= Seq::<u8>::empty());
            start = i + 1;
        } else {
            assert(body@.subrange(start as int, i as int).push(body@[i as int]) =~= body@.subrange(
                start as int,
                i + 1,
            ));
        }
        i = i + 1;
    }
    assert(body@.take(n as int) =~= body@);
    let ghost p = body@.subrange(start as int, n as int);
    let last_panicked = if start < n {
        let (ke, vs) = pair_bounds(body, start, n);
        percent_decode_panics_range(body, start, ke) || percent_decode_panics_range(body, vs, n)
    } else {
        false
    };
    assert(last_panicked == piece_panics(p));
    let ghost all = done.push(p);
    assert(forall|k: int| 0 <= k < done.len() ==> all[k] == done[k]);
    assert(all[done.len() as int] == p);
    panics || last_panicked
}

/// Decodes a form body into its fields.
pub fn form_urlencoded_decode(body: &[u8]) -> (r: FormFields)
    requires
        !form_decode_panics(body@),
    ensures
        r.wf(),
        r@ == decoded_form(body@),
{
    let n = body.len();
    let mut out = FormFields::new();
    let mut start: usize = 0;
    let mut i: usize = 0;
    let ghost mut done: Seq<Seq<u8>> = seq![];
    assert(body@.take(0) =~= Seq::<u8>::empty());
    assert(split_seq(body@.take(0), 38u8) =~= seq![Seq::<u8>::empty()]);
    assert(body@.subrange(0, 0) =~= Seq::<u8>::empty());
    while i < n
        invariant
            n == body@.len(),
            start <= i <= n,
            !form_decode_panics(body@),
            split_seq(body@.take(i as int), 38u8) == done.push(
                body@.subrange(start as int, i as int),
            ),
            out.wf(),
            out@ == form_fields(done),
        decreases n - i,
    {
        proof {
            lemma_split_step(body@, 38u8, i as int);
        }
        if body[i] == 38 {
            let ghost p = body@.subrange(start as int, i as int);
            proof {
                lemma_split_prefix(body@, i + 1);
                assert(split_seq(body@.take(i + 1), 38u8)[done.len() as int] == p);
                assert(split_seq(body@, 38u8)[done.len() as int] == p);
                assert(!piece_panics(p));
                assert(done.push(p).drop_last() =~= done);
            }
            if start < i {
                let (ke, vs) = pair_bounds(body, start, i);
                let key = percent_decode_text_range(body, start, ke);
                let value = percent_decode_text_range(body, vs, i);
                out.insert(key, value);
            }
            proof {
                done = done.push(p);
            }
            assert(body@.subrange(i + 1, i + 1) =~= Seq::<u8>::empty());
            start = i + 1;
        } else {
            assert(body@.subrange(start as int, i as int).push(body@[i as int]) =~= body@.subrange(
                start as int,
                i + 1,
            ));
        }
        i = i + 1;
    }
    assert(body@.take(n as int) =~= body@);
    let ghost p = body@.subrange(start as int, n as int);
    proof {
        let all = done.push(p);
        assert(split_seq(body@, 38u8)[done.len() as int] == p);
        assert(!piece_panics(p));
        assert(all.drop_last() =~= done);
    }
    if start < n {
        let (ke, vs) = pair_bounds(body, start, n);
        let key = percent_decode_text_range(body, start, ke);
        let value = percent_decode_text_range(body, vs, n);
        out.insert(key, value);
    }
    out
}

} // verus!
