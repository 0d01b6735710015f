//! The search side of the capability catalog: references, byte order,
//! the keyword tokenizer (lowercase ASCII-alphanumeric runs, kept as a
//! sorted set) and the search index from tokens to sorted references.
use vstd::prelude::*;
use crate::scan::bytes_eq;

verus! {

/// Whether `a` comes strictly before `b` in byte order (a proper prefix
/// comes first).
pub open spec fn lex_lt(a: Seq<u8>, b: Seq<u8>) -> bool
    decreases a.len(),
{
    if a.len() == 0 {
        b.len() > 0
    } else if b.len() == 0 {
        false
    } else if a[0] != b[0] {
        a[0] < b[0]
    } else {
        lex_lt(a.drop_first(), b.drop_first())
    }
}

pub proof fn lemma_lex_irreflexive(a: Seq<u8>)
    ensures
        !lex_lt(a, a),
    decreases a.len(),
{
    if a.len() > 0 {
        lemma_lex_irreflexive(a.drop_first());
    }
}

pub proof fn lemma_lex_total(a: Seq<u8>, b: Seq<u8>)
    ensures
        a != b ==> lex_lt(a, b) || lex_lt(b, a),
        lex_lt(a, b) ==> !lex_lt(b, a),
    decreases a.len(),
{
    if a.len() > 0 && b.len() > 0 {
        lemma_lex_total(a.drop_first(), b.drop_first());
        if a[0] == b[0] && a.drop_first() == b.drop_first() {
            assert(a =~= seq![a[0]] + a.drop_first());
            assert(b =~= seq![b[0]] + b.drop_first());
        }
    } else if a.len() == 0 && b.len() == 0 {
        assert(a =~= b);
    }
}

pub proof fn lemma_lex_transitive(a: Seq<u8>, b: Seq<u8>, c: Seq<u8>)
    requires
        lex_lt(a, b),
        lex_lt(b, c),
    ensures
        lex_lt(a, c),
    decreases a.len(),
{
    if a.len() > 0 && b.len() > 0 && c.len() > 0 && a[0] == b[0] && b[0] == c[0] {
        lemma_lex_transitive(a.drop_first(), b.drop_first(), c.drop_first());
    }
}

/// Compares two byte strings in byte order.
pub fn bytes_lt(a: &[u8], b: &[u8]) -> (r: bool)
    ensures
        r == lex_lt(a@, b@),
{
    let mut i: usize = 0;
    assert(a@.skip(0) =~= a@);
    assert(b@.skip(0) =~= b@);
    while i < a.len() && i < b.len()
        invariant
            i <= a@.len(),
            i <= b@.len(),
            lex_lt(a@, b@) == lex_lt(a@.skip(i as int), b@.skip(i as int)),
        decreases a@.len() - i,
    {
        assert(a@.skip(i as int)[0] == a@[i as int]);
        assert(b@.skip(i as int)[0] == b@[i as int]);
        if a[i] != b[i] {
            return a[i] < b[i];
        }
        assert(a@.skip(i as int).drop_first() =~= a@.skip(i + 1));
        assert(b@.skip(i as int).drop_first() =~= b@.skip(i + 1));
        i = i + 1;
    }
    i == a.len() && i < b.len()
}

/// The byte strings held by a vector of byte strings.
pub open spec fn views(v: Seq<Vec<u8>>) -> Seq<Seq<u8>> {
    v.map_values(|x: Vec<u8>| x@)
}

/// Strictly increasing in byte order, hence free of repeats.
pub open spec fn strictly_sorted(s: Seq<Seq<u8>>) -> bool {
    forall|i: int, j: int| 0 <= i < j < s.len() ==> lex_lt(#[trigger] s[i], #[trigger] s[j])
}

/// Adds `x` to the sorted set `set` (nothing changes when it is there).
pub fn insert_sorted(set: &mut Vec<Vec<u8>>, x: Vec<u8>)
    requires
        strictly_sorted(views(old(set)@)),
    ensures
        strictly_sorted(views(final(set)@)),
        forall|w: Seq<u8>| #[trigger] views(final(set)@).contains(w) <==> (views(old(set)@).contains(w) || w == x@),
{
    let ghost old_v = views(set@);
    let mut i: usize = 0;
    while i < set.len() && bytes_lt(set[i].as_slice(), x.as_slice())
        invariant
            i <= set@.len(),
            views(set@) == old_v,
            strictly_sorted(old_v),
            forall|j: int| 0 <= j < i ==> lex_lt(#[trigger] old_v[j], x@),
        decreases set@.len() - i,
    {
        i = i + 1;
    }
    if i < set.len() && bytes_eq(set[i].as_slice(), x.as_slice()) {
        proof {
            assert(old_v[i as int] == x@);
            assert forall|w: Seq<u8>| #[trigger] views(set@).contains(w) <==> (old_v.contains(w) || w == x@) by {
                if w == x@ {
                    assert(old_v[i as int] == w);
                }
            }
        }
        return;
    }
    proof {
        if i < old_v.len() {
            lemma_lex_total(old_v[i as int], x@);
        }
    }
    set.insert(i, x);
    proof {
        let nv = views(set@);
        assert(nv =~= old_v.insert(i as int, x@));
        lemma_insert_sorted_at(old_v, i as int, x@);
        assert forall|w: Seq<u8>| #[trigger] nv.contains(w) <==> (old_v.contains(w) || w == x@) by {
            if nv.contains(w) {
                let k = choose|k: int| 0 <= k < nv.len() && nv[k] == w;
                if k < i {
                    assert(old_v[k] == w);
                } else if k > i {
                    assert(old_v[k - 1] == w);
                }
            }
            if old_v.contains(w) {
                let k = choose|k: int| 0 <= k < old_v.len() && old_v[k] == w;
                if k < i {
                    assert(nv[k] == w);
                } else {
                    assert(nv[k + 1] == w);
                }
            }
            if w == x@ {
                assert(nv[i as int] == w);
            }
        }
    }
}


/// An ASCII letter or digit.
pub open spec fn is_alnum(c: u8) -> bool {
    (48 <= c <= 57) || (65 <= c <= 90) || (97 <= c <= 122)
}

/// An ASCII byte lowercased.
pub open spec fn lower(c: u8) -> u8 {
    if 65 <= c <= 90 { (c + 32) as u8 } else { c }
}

/// The lowercased letter-and-digit runs of `t` from index `i` on, in order
/// of appearance, the first of them continuing `cur`.
pub open spec fn runs_from(t: Seq<u8>, i: int, cur: Seq<u8>) -> Seq<Seq<u8>>
    decreases t.len() - i,
{
    if i < 0 || i >= t.len() {
        if cur.len() > 0 { seq![cur] } else { Seq::empty() }
    } else if is_alnum(t[i]) {
        runs_from(t, i + 1, cur.push(lower(t[i])))
    } else if cur.len() > 0 {
        seq![cur] + runs_from(t, i + 1, Seq::empty())
    } else {
        runs_from(t, i + 1, Seq::empty())
    }
}

/// The search tokens of a text: its maximal runs of ASCII letters and
/// digits, lowercased; everything else separates them.
pub open spec fn text_tokens(t: Seq<u8>) -> Seq<Seq<u8>> {
    runs_from(t, 0, Seq::empty())
}

proof fn lemma_contains_front(c: Seq<u8>, rest: Seq<Seq<u8>>, w: Seq<u8>)
    ensures
        (seq![c] + rest).contains(w) <==> (w == c || rest.contains(w)),
{
    let s = seq![c] + rest;
    if s.contains(w) {
        let k = choose|k: int| 0 <= k < s.len() && s[k] == w;
        if k > 0 {
            assert(rest[k - 1] == w);
        }
    }
    if w == c {
        assert(s[0] == w);
    }
    if rest.contains(w) {
        let k = choose|k: int| 0 <= k < rest.len() && rest[k] == w;
        assert(s[k + 1] == w);
    }
}

/// What `toks` and `rest` hold together is what `start` and `all` hold.
pub open spec fn covers(start: Seq<Seq<u8>>, all: Seq<Seq<u8>>, toks: Seq<Seq<u8>>, rest: Seq<Seq<u8>>) -> bool {
    forall|w: Seq<u8>|
        #![all_triggers]
        (start.contains(w) || all.contains(w)) <==> (toks.contains(w) || rest.contains(w))
}

/// Inserting `x` where everything before is smaller and everything after
/// is larger keeps a sequence strictly sorted.
pub proof fn lemma_insert_sorted_at(s: Seq<Seq<u8>>, i: int, x: Seq<u8>)
    requires
        strictly_sorted(s),
        0 <= i <= s.len(),
        forall|j: int| 0 <= j < i ==> lex_lt(#[trigger] s[j], x),
        i < s.len() ==> lex_lt(x, s[i]),
    ensures
        strictly_sorted(s.insert(i, x)),
{
    let nv = s.insert(i, x);
    assert forall|a: int, b: int| 0 <= a < b < nv.len() implies lex_lt(#[trigger] nv[a], #[trigger] nv[b]) by {
        if b == i {
            assert(nv[a] == s[a]);
        } else if a == i {
            assert(nv[b] == s[b - 1]);
            if b - 1 > i {
                lemma_lex_transitive(x, s[i], s[b - 1]);
            }
        } else if a < i && b > i {
            assert(nv[a] == s[a]);
            assert(nv[b] == s[b - 1]);
            if b - 1 > i {
                lemma_lex_transitive(x, s[i], s[b - 1]);
            }
            lemma_lex_transitive(s[a], x, s[b - 1]);
        } else if b < i {
            assert(nv[a] == s[a]);
            assert(nv[b] == s[b]);
        } else {
            assert(nv[a] == s[a - 1]);
            assert(nv[b] == s[b - 1]);
        }
    }
}

/// Adds the search tokens of `text` to the sorted set `tokens`.
pub fn tokenize_into(text: &[u8], tokens: &mut Vec<Vec<u8>>)
    requires
        strictly_sorted(views(old(tokens)@)),
    ensures
        strictly_sorted(views(final(tokens)@)),
        forall|w: Seq<u8>| #[trigger] views(final(tokens)@).contains(w) <==> (views(old(tokens)@).contains(w)
            || text_tokens(text@).contains(w)),
{
    let ghost start = views(tokens@);
    let ghost all = text_tokens(text@);
    let mut cur: Vec<u8> = Vec::new();
    let mut i: usize = 0;
    while i < text.len()
        invariant
            i <= text@.len(),
            strictly_sorted(views(tokens@)),
            covers(start, all, views(tokens@), runs_from(text@, i as int, cur@)),
        decreases text@.len() - i,
    {
        let c = text[i];
        if (48 <= c && c <= 57) || (65 <= c && c <= 90) || (97 <= c && c <= 122) {
            let l = if 65 <= c && c <= 90 { c + 32 } else { c };
            let ghost old_cur = cur@;
            cur.push(l);
            assert(runs_from(text@, i as int, old_cur) == runs_from(text@, i + 1, cur@));
        } else if cur.len() > 0 {
            let ghost before = views(tokens@);
            let ghost run = cur@;
            proof {
                assert forall|w: Seq<u8>| #[trigger] runs_from(text@, i as int, run).contains(w) <==> (w == run
                    || runs_from(text@, i + 1, Seq::empty()).contains(w)) by {
                    lemma_contains_front(run, runs_from(text@, i + 1, Seq::empty()), w);
                }
            }
            insert_sorted(tokens, cur);
            cur = Vec::new();
            proof {
                assert(cur@ =~= Seq::<u8>::empty());
                assert forall|w: Seq<u8>| (start.contains(w) || #[trigger] all.contains(w)) <==> (views(
                    tokens@,
                ).contains(w) || runs_from(text@, i + 1, cur@).contains(w)) by {
                    assert((start.contains(w) || all.contains(w)) <==> (before.contains(w)
                        || runs_from(text@, i as int, run).contains(w)));
                    assert(views(tokens@).contains(w) <==> (before.contains(w) || w == run));
                    assert(runs_from(text@, i as int, run).contains(w) <==> (w == run || runs_from(
                        text@,
                        i + 1,
                        Seq::empty(),
                    ).contains(w)));
                }
            }
        } else {
            assert(cur@ =~= Seq::<u8>::empty());
            assert(runs_from(text@, i as int, cur@) == runs_from(text@, i + 1, cur@));
        }
        i = i + 1;
    }
    if cur.len() > 0 {
        let ghost run = cur@;
        proof {
            assert forall|w: Seq<u8>| #[trigger] runs_from(text@, i as int, run).contains(w) <==> w == run by {
                if w == run {
                    assert(runs_from(text@, i as int, run)[0] == w);
                }
            }
        }
        insert_sorted(tokens, cur);
    } else {
        proof {
            assert(runs_from(text@, i as int, cur@) =~= Seq::<Seq<u8>>::empty());
        }
    }
}

/// The reference of a capability, `namespace/id@version`.
pub open spec fn reference_spec(namespace: Seq<u8>, id: Seq<u8>, version: Seq<u8>) -> Seq<u8> {
    namespace + seq![47u8] + id + seq![64u8] + version
}

/// Writes the reference `namespace/id@version`.
pub fn capability_reference(namespace: &[u8], id: &[u8], version: &[u8]) -> (r: Vec<u8>)
    ensures
        r@ == reference_spec(namespace@, id@, version@),
{
    let mut r: Vec<u8> = Vec::new();
    append(&mut r, namespace);
    r.push(47u8);
    append(&mut r, id);
    r.push(64u8);
    append(&mut r, version);
    r
}

/// Appends `b` to `v`.
pub fn append(v: &mut Vec<u8>, b: &[u8])
    ensures
        final(v)@ == old(v)@ + b@,
{
    let mut k: usize = 0;
    let ghost v0 = v@;
    while k < b.len()
        invariant
            k <= b@.len(),
            v@ == v0 + b@.take(k as int),
        decreases b@.len() - k,
    {
        v.push(b[k]);
        k = k + 1;
        assert(v@ =~= v0 + b@.take(k as int));
    }
    assert(b@.take(k as int) =~= b@);
}


/// A search index: tokens, each with the references whose text holds it.
pub type SearchIndex = Vec<(Vec<u8>, Vec<Vec<u8>>)>;

/// The tokens of an index, in its order.
pub open spec fn index_keys(ix: Seq<(Vec<u8>, Vec<Vec<u8>>)>) -> Seq<Seq<u8>> {
    ix.map_values(|e: (Vec<u8>, Vec<Vec<u8>>)| e.0@)
}

/// Tokens strictly sorted, and the references of each token too.
pub open spec fn index_wf(ix: Seq<(Vec<u8>, Vec<Vec<u8>>)>) -> bool {
    &&& strictly_sorted(index_keys(ix))
    &&& forall|k: int| 0 <= k < ix.len() ==> strictly_sorted(views((#[trigger] ix[k]).1@))
}

/// Whether the index lists reference `r` under token `w`.
pub open spec fn lists(ix: Seq<(Vec<u8>, Vec<Vec<u8>>)>, w: Seq<u8>, r: Seq<u8>) -> bool {
    exists|k: int| 0 <= k < ix.len() && (#[trigger] ix[k]).0@ == w && views(ix[k].1@).contains(r)
}

/// A copy of `b`.
pub fn to_vec(b: &[u8]) -> (r: Vec<u8>)
    ensures
        r@ == b@,
{
    let mut r: Vec<u8> = Vec::new();
    append(&mut r, b);
    r
}

/// Lists `reference` under `token`, adding the token when it is new.
pub fn add_ref(ix: &mut SearchIndex, token: Vec<u8>, reference: &[u8])
    requires
        index_wf(old(ix)@),
    ensures
        index_wf(final(ix)@),
        forall|w: Seq<u8>| #[trigger] index_keys(final(ix)@).contains(w) <==> (index_keys(old(ix)@).contains(w) || w
            == token@),
        forall|w: Seq<u8>, r: Seq<u8>| #[trigger] lists(final(ix)@, w, r) <==> (lists(old(ix)@, w, r) || (w == token@
            && r == reference@)),
{
    let ghost ov = ix@;
    let ghost ok = index_keys(ov);
    let mut i: usize = 0;
    while i < ix.len() && bytes_lt(ix[i].0.as_slice(), token.as_slice())
        invariant
            i <= ix@.len(),
            ix@ == ov,
            ok == index_keys(ov),
            index_wf(ov),
            forall|j: int| 0 <= j < i ==> lex_lt(#[trigger] ok[j], token@),
        decreases ix@.len() - i,
    {
        assert(ok[i as int] == ix@[i as int].0@);
        i = i + 1;
    }
    if i < ix.len() && bytes_eq(ix[i].0.as_slice(), token.as_slice()) {
        let (key, mut refs) = ix.remove(i);
        let ghost old_refs = views(refs@);
        assert(ov[i as int] == (key, refs));
        insert_sorted(&mut refs, to_vec(reference));
        ix.insert(i, (key, refs));
        proof {
            let nv = ix@;
            assert(nv =~= ov.update(i as int, (key, refs)));
            assert(index_keys(nv) =~= ok);
            assert forall|w: Seq<u8>| #[trigger] index_keys(nv).contains(w) <==> (ok.contains(w) || w == token@) by {
                if w == token@ {
                    assert(ok[i as int] == w);
                }
            }
            assert forall|k: int| 0 <= k < nv.len() implies strictly_sorted(views((#[trigger] nv[k]).1@)) by {
                if k != i {
                    assert(nv[k] == ov[k]);
                }
            }
            assert forall|w: Seq<u8>, r: Seq<u8>| #[trigger] lists(nv, w, r) <==> (lists(ov, w, r) || (w == token@
                && r == reference@)) by {
                if lists(nv, w, r) {
                    let k = choose|k: int| 0 <= k < nv.len() && (#[trigger] nv[k]).0@ == w && views(nv[k].1@).contains(r);
                    if k != i {
                        assert(ov[k] == nv[k]);
                    } else if r != reference@ {
                        assert(old_refs.contains(r));
                        assert(ov[k].0@ == w);
                    }
                }
                if lists(ov, w, r) {
                    let k = choose|k: int| 0 <= k < ov.len() && (#[trigger] ov[k]).0@ == w && views(ov[k].1@).contains(r);
                    if k != i {
                        assert(nv[k] == ov[k]);
                    } else {
                        assert(views(refs@).contains(r));
                        assert(nv[k].0@ == w);
                    }
                }
                if w == token@ && r == reference@ {
                    assert(views(refs@).contains(r));
                    assert(nv[i as int].0@ == w);
                }
            }
        }
        return;
    }
    proof {
        if i < ok.len() {
            lemma_lex_total(ok[i as int], token@);
        }
        lemma_insert_sorted_at(ok, i as int, token@);
    }
    let mut refs: Vec<Vec<u8>> = Vec::new();
    refs.push(to_vec(reference));
    let ghost tok = token@;
    ix.insert(i, (token, refs));
    proof {
        let nv = ix@;
        assert(nv =~= ov.insert(i as int, nv[i as int]));
        assert(index_keys(nv) =~= ok.insert(i as int, tok));
        assert(views(refs@) =~= seq![reference@]);
        assert forall|k: int| 0 <= k < nv.len() implies strictly_sorted(views((#[trigger] nv[k]).1@)) by {
            if k < i {
                assert(nv[k] == ov[k]);
            } else if k > i {
                assert(nv[k] == ov[k - 1]);
            }
        }
        assert forall|w: Seq<u8>| #[trigger] index_keys(nv).contains(w) <==> (ok.contains(w) || w == tok) by {
            let kn = index_keys(nv);
            if kn.contains(w) {
                let k = choose|k: int| 0 <= k < kn.len() && kn[k] == w;
                if k < i {
                    assert(ok[k] == w);
                } else if k > i {
                    assert(ok[k - 1] == w);
                }
            }
            if ok.contains(w) {
                let k = choose|k: int| 0 <= k < ok.len() && ok[k] == w;
                if k < i {
                    assert(kn[k] == w);
                } else {
                    assert(kn[k + 1] == w);
                }
            }
            if w == tok {
                assert(kn[i as int] == w);
            }
        }
        assert forall|w: Seq<u8>, r: Seq<u8>| #[trigger] lists(nv, w, r) <==> (lists(ov, w, r) || (w == tok && r
            == reference@)) by {
            if lists(nv, w, r) {
                let k = choose|k: int| 0 <= k < nv.len() && (#[trigger] nv[k]).0@ == w && views(nv[k].1@).contains(r);
                if k < i {
                    assert(ov[k] == nv[k]);
                } else if k > i {
                    assert(ov[k - 1] == nv[k]);
                } else {
                    assert(views(refs@)[0] == reference@);
                }
            }
            if lists(ov, w, r) {
                let k = choose|k: int| 0 <= k < ov.len() && (#[trigger] ov[k]).0@ == w && views(ov[k].1@).contains(r);
                if k < i {
                    assert(nv[k] == ov[k]);
                } else {
                    assert(nv[k + 1] == ov[k]);
                }
            }
            if w == tok && r == reference@ {
                assert(views(refs@)[0] == r);
                assert(nv[i as int].0@ == w);
            }
        }
    }
}


/// Whether some entry of `entries` (reference, text) has `w` among the
/// tokens of its text.
pub open spec fn some_text_has(entries: Seq<(Vec<u8>, Vec<u8>)>, w: Seq<u8>) -> bool {
    exists|j: int| 0 <= j < entries.len() && text_tokens((#[trigger] entries[j]).1@).contains(w)
}

/// Whether some entry of `entries` with reference `r` has `w` among the
/// tokens of its text.
pub open spec fn some_entry_lists(entries: Seq<(Vec<u8>, Vec<u8>)>, w: Seq<u8>, r: Seq<u8>) -> bool {
    exists|j: int| 0 <= j < entries.len() && (#[trigger] entries[j]).0@ == r && text_tokens(entries[j].1@).contains(w)
}

/// The search index of the entries `(reference, text)`: every token of
/// some text, in byte order, each with the references of the texts that
/// hold it, in byte order and without repeats.
pub fn build_search_index(entries: &Vec<(Vec<u8>, Vec<u8>)>) -> (ix: SearchIndex)
    ensures
        index_wf(ix@),
        forall|w: Seq<u8>| #[trigger] index_keys(ix@).contains(w) <==> some_text_has(entries@, w),
        forall|w: Seq<u8>, r: Seq<u8>| #[trigger] lists(ix@, w, r) <==> some_entry_lists(entries@, w, r),
{
    let mut ix: SearchIndex = Vec::new();
    let mut j: usize = 0;
    while j < entries.len()
        invariant
            j <= entries@.len(),
            index_wf(ix@),
            forall|w: Seq<u8>|
                #![all_triggers]
                index_keys(ix@).contains(w) <==> some_text_has(entries@.take(j as int), w),
            forall|w: Seq<u8>, r: Seq<u8>|
                #![all_triggers]
                lists(ix@, w, r) <==> some_entry_lists(entries@.take(j as int), w, r),
        decreases entries@.len() - j,
    {
        let reference = entries[j].0.as_slice();
        let mut toks: Vec<Vec<u8>> = Vec::new();
        assert(views(toks@) =~= Seq::<Seq<u8>>::empty());
        tokenize_into(entries[j].1.as_slice(), &mut toks);
        let ghost ix0 = ix@;
        let ghost text = entries@[j as int].1@;
        let mut t: usize = 0;
        while t < toks.len()
            invariant
                t <= toks@.len(),
                index_wf(ix@),
                reference@ == entries@[j as int].0@,
                forall|w: Seq<u8>|
                    #![all_triggers]
                    index_keys(ix@).contains(w) <==> (index_keys(ix0).contains(w) || views(toks@).take(t as int).contains(w)),
                forall|w: Seq<u8>, r: Seq<u8>|
                    #![all_triggers]
                    lists(ix@, w, r) <==> (lists(ix0, w, r) || (views(toks@).take(t as int).contains(w) && r
                        == reference@)),
            decreases toks@.len() - t,
        {
            let tok = to_vec(toks[t].as_slice());
            let ghost before = views(toks@).take(t as int);
            let ghost after = views(toks@).take(t + 1);
            proof {
                assert(after =~= before.push(tok@));
                assert forall|w: Seq<u8>| #[trigger] after.contains(w) <==> (before.contains(w) || w == tok@) by {
                    if after.contains(w) {
                        let k = choose|k: int| 0 <= k < after.len() && after[k] == w;
                        if k < t {
                            assert(before[k] == w);
                        }
                    }
                    if before.contains(w) {
                        let k = choose|k: int| 0 <= k < before.len() && before[k] == w;
                        assert(after[k] == w);
                    }
                    if w == tok@ {
                        assert(after[t as int] == w);
                    }
                }
            }
            add_ref(&mut ix, tok, reference);
            t = t + 1;
        }
        proof {
            assert(views(toks@).take(t as int) =~= views(toks@));
            let pre = entries@.take(j as int);
            let post = entries@.take(j + 1);
            assert(post =~= pre.push(entries@[j as int]));
            assert forall|w: Seq<u8>| #[trigger] some_text_has(post, w) <==> (some_text_has(pre, w) || text_tokens(text).contains(w)) by {
                if some_text_has(post, w) {
                    let k = choose|k: int| 0 <= k < post.len() && text_tokens((#[trigger] post[k]).1@).contains(w);
                    if k < j {
                        assert(pre[k] == post[k]);
                    }
                }
                if some_text_has(pre, w) {
                    let k = choose|k: int| 0 <= k < pre.len() && text_tokens((#[trigger] pre[k]).1@).contains(w);
                    assert(post[k] == pre[k]);
                }
                if text_tokens(text).contains(w) {
                    assert(post[j as int] == entries@[j as int]);
                }
            }
            assert forall|w: Seq<u8>, r: Seq<u8>| #[trigger] some_entry_lists(post, w, r) <==> (some_entry_lists(pre, w, r)
                || (text_tokens(text).contains(w) && r == reference@)) by {
                if some_entry_lists(post, w, r) {
                    let k = choose|k: int| 0 <= k < post.len() && (#[trigger] post[k]).0@ == r && text_tokens(post[k].1@).contains(w);
                    if k < j {
                        assert(pre[k] == post[k]);
                    }
                }
                if some_entry_lists(pre, w, r) {
                    let k = choose|k: int| 0 <= k < pre.len() && (#[trigger] pre[k]).0@ == r && text_tokens(pre[k].1@).contains(w);
                    assert(post[k] == pre[k]);
                }
                if text_tokens(text).contains(w) && r == reference@ {
                    assert(post[j as int] == entries@[j as int]);
                }
            }
        }
        j = j + 1;
    }
    assert(entries@.take(j as int) =~= entries@);
    ix
}

/// `t[i..j]` is a maximal non-empty run of ASCII letters and digits.
pub open spec fn is_run(t: Seq<u8>, i: int, j: int) -> bool {
    &&& 0 <= i < j <= t.len()
    &&& forall|k: int| i <= k < j ==> is_alnum(#[trigger] t[k])
    &&& (i == 0 || !is_alnum(t[i - 1]))
    &&& (j == t.len() || !is_alnum(t[j]))
}

/// The bytes of `s` lowercased.
pub open spec fn lowered(s: Seq<u8>) -> Seq<u8> {
    s.map_values(|c: u8| lower(c))
}

/// `w` is the lowercased text of a maximal run of `t` that starts at `from`
/// or later.
pub open spec fn run_word_from(t: Seq<u8>, from: int, w: Seq<u8>) -> bool {
    exists|i: int, j: int| from <= i && #[trigger] is_run(t, i, j) && w == lowered(t.subrange(i, j))
}

proof fn lemma_runs_from_words(t: Seq<u8>, i: int, cur: Seq<u8>, w: Seq<u8>)
    requires
        0 <= i - cur.len(),
        i <= t.len(),
        cur == lowered(t.subrange(i - cur.len(), i)),
        forall|k: int| i - cur.len() <= k < i ==> is_alnum(#[trigger] t[k]),
        i - cur.len() == 0 || !is_alnum(t[i - cur.len() - 1]),
    ensures
        runs_from(t, i, cur).contains(w) <==> run_word_from(t, i - cur.len(), w),
    decreases t.len() - i,
{
    let s0 = i - cur.len();
    if i >= t.len() {
        if cur.len() > 0 {
            assert(is_run(t, s0, i));
            if runs_from(t, i, cur).contains(w) {
                assert(runs_from(t, i, cur)[0] == cur);
                assert(w == lowered(t.subrange(s0, i)));
            }
            if run_word_from(t, s0, w) {
                let (a, b) = choose|a: int, b: int| s0 <= a && #[trigger] is_run(t, a, b) && w == lowered(t.subrange(a, b));
                if a > s0 {
                    assert(is_alnum(t[a - 1]));
                }
                assert(runs_from(t, i, cur)[0] == w);
            }
        } else {
            assert(runs_from(t, i, cur) =~= Seq::<Seq<u8>>::empty());
        }
    } else if is_alnum(t[i]) {
        let next = cur.push(lower(t[i]));
        assert(next =~= lowered(t.subrange(s0, i + 1)));
        lemma_runs_from_words(t, i + 1, next, w);
    } else {
        let empty = Seq::<u8>::empty();
        assert(empty =~= lowered(t.subrange(i + 1, i + 1)));
        lemma_runs_from_words(t, i + 1, empty, w);
        let rest = runs_from(t, i + 1, empty);
        if cur.len() > 0 {
            assert(is_run(t, s0, i));
            lemma_contains_front(cur, rest, w);
            if run_word_from(t, s0, w) {
                let (a, b) = choose|a: int, b: int| s0 <= a && #[trigger] is_run(t, a, b) && w == lowered(t.subrange(a, b));
                if a < i + 1 {
                    if a > s0 {
                        assert(is_alnum(t[a - 1]));
                    }
                    if a == i {
                        assert(is_alnum(t[a]));
                    }
                    assert(a == s0);
                    if b < i {
                        assert(is_alnum(t[b]));
                    }
                    if b > i {
                        assert(is_alnum(t[i]));
                    }
                    assert(b == i);
                }
            }
        } else {
            if run_word_from(t, s0, w) {
                let (a, b) = choose|a: int, b: int| s0 <= a && #[trigger] is_run(t, a, b) && w == lowered(t.subrange(a, b));
                if a == i {
                    assert(is_alnum(t[a]));
                }
            }
        }
    }
}

/// The search tokens of a text are exactly its maximal runs of ASCII
/// letters and digits, lowercased.
pub proof fn lemma_text_tokens_are_runs(t: Seq<u8>, w: Seq<u8>)
    ensures
        text_tokens(t).contains(w) <==> exists|i: int, j: int|
            #[trigger] is_run(t, i, j) && w == lowered(t.subrange(i, j)),
{
    assert(Seq::<u8>::empty() =~= lowered(t.subrange(0, 0)));
    lemma_runs_from_words(t, 0, Seq::empty(), w);
}

} // verus!
