//! A byte-pair tokenizer: vocabulary and merge-table construction over the
//! UTF-8 bytes of a training text, plus encoding and decoding.
//!
//! The vocabulary maps token ids to the text they stand for; the merge table
//! maps a pair of adjacent token ids to the id minted for their merger.
//! Both are association lists with unique keys; the merge table additionally
//! keeps its entries in mint order, so its values rise strictly and reading
//! it back yields the rules sorted by the id they produced.

use vstd::prelude::*;
use vstd::string::{StringSliceAdditionalSpecFns, StrSliceExecFns, StringExecFns};
use vstd::utf8::encode_utf8;

verus! {

/// An error of the tokenizer: the offending token id.
#[derive(Clone, Copy, Debug, PartialEq, Eq, Structural)]
pub enum TokenError {
    InvalidToken(usize),
}

/// The text encodings the tokenizer can ingest.
pub enum Encoding {
    Utf8,
}

/// A byte-pair encoder: id-to-text vocabulary, pair-to-id merge table, and
/// the highest token id handed out so far.
#[derive(Debug)]
pub struct BytePairEncoder {
    vocabulary: Vec<(usize, String)>,
    merges: Vec<((usize, usize), usize)>,
    max_token_id: usize,
}

/// The mathematical image of a vocabulary: keys with the character
/// sequences they stand for.
pub open spec fn vocab_view(vs: Seq<(usize, String)>) -> Seq<(usize, Seq<char>)> {
    vs.map_values(|e: (usize, String)| (e.0, e.1@))
}

/// First-match lookup in an association list of token texts.
pub open spec fn assoc_get(vs: Seq<(usize, Seq<char>)>, k: usize) -> Option<Seq<char>>
    decreases vs.len(),
{
    if vs.len() == 0 {
        None
    } else if vs[0].0 == k {
        Some(vs[0].1)
    } else {
        assoc_get(vs.drop_first(), k)
    }
}

/// Insert-or-overwrite in an association list of token texts: the first
/// entry with the key is replaced in place, a missing key is appended.
pub open spec fn assoc_set(
    vs: Seq<(usize, Seq<char>)>,
    k: usize,
    v: Seq<char>,
) -> Seq<(usize, Seq<char>)>
    decreases vs.len(),
{
    if vs.len() == 0 {
        seq![(k, v)]
    } else if vs[0].0 == k {
        seq![(k, v)] + vs.drop_first()
    } else {
        seq![vs[0]] + assoc_set(vs.drop_first(), k, v)
    }
}

/// First-match lookup in the merge table.
pub open spec fn merge_get(ms: Seq<((usize, usize), usize)>, k: (usize, usize)) -> Option<usize>
    decreases ms.len(),
{
    if ms.len() == 0 {
        None
    } else if ms[0].0 == k {
        Some(ms[0].1)
    } else {
        merge_get(ms.drop_first(), k)
    }
}

/// Remove the first entry with key `k` from the merge table, if any.
pub open spec fn rule_remove(
    ms: Seq<((usize, usize), usize)>,
    k: (usize, usize),
) -> Seq<((usize, usize), usize)>
    decreases ms.len(),
{
    if ms.len() == 0 {
        ms
    } else if ms[0].0 == k {
        ms.drop_first()
    } else {
        seq![ms[0]] + rule_remove(ms.drop_first(), k)
    }
}

/// Overwrite-or-append a merge rule; the new entry always lands at the end,
/// which keeps the table sorted by minted id.
pub open spec fn rule_insert(
    ms: Seq<((usize, usize), usize)>,
    k: (usize, usize),
    v: usize,
) -> Seq<((usize, usize), usize)> {
    rule_remove(ms, k).push((k, v))
}

/// Unique keys in the vocabulary.
pub open spec fn vocab_keys_unique(vs: Seq<(usize, Seq<char>)>) -> bool {
    forall|i: int, j: int| 0 <= i < j < vs.len() ==> (#[trigger] vs[i]).0 != (#[trigger] vs[j]).0
}

/// Unique keys and strictly rising values in the merge table.
pub open spec fn rules_wf(ms: Seq<((usize, usize), usize)>) -> bool {
    forall|i: int, j: int|
        0 <= i < j < ms.len() ==> (#[trigger] ms[i]).0 != (#[trigger] ms[j]).0 && ms[i].1 < ms[j].1
}

impl BytePairEncoder {
    /// The vocabulary, as an association list of token texts.
    pub closed spec fn vocab(self) -> Seq<(usize, Seq<char>)> {
        vocab_view(self.vocabulary@)
    }

    /// The merge table, in mint order.
    pub closed spec fn rules(self) -> Seq<((usize, usize), usize)> {
        self.merges@
    }

    /// The highest token id handed out so far.
    pub closed spec fn max_id(self) -> int {
        self.max_token_id as int
    }

    /// The encoder's invariant: unique vocabulary keys, a duplicate-free
    /// merge table minted in rising id order, every minted id in the range
    /// the counter has covered.
    pub closed spec fn wf(self) -> bool {
        &&& vocab_keys_unique(self.vocab())
        &&& rules_wf(self.merges@)
        &&& self.max_token_id >= 255
        &&& forall|i: int|
            0 <= i < self.merges@.len() ==> 256 <= (#[trigger] self.merges@[i]).1
                <= self.max_token_id
    }
}

impl Default for BytePairEncoder {
    /// A fresh encoder: empty vocabulary, empty merge table, and the token
    /// counter parked at the top of the byte range.
    fn default() -> (r: Self)
        ensures
            r.wf(),
            r.vocab() == Seq::<(usize, Seq<char>)>::empty(),
            r.rules() == Seq::<((usize, usize), usize)>::empty(),
            r.max_id() == 255,
    {
        let r = BytePairEncoder { vocabulary: Vec::new(), merges: Vec::new(), max_token_id: 255 };
        proof {
            assert(r.vocab() =~= Seq::<(usize, Seq<char>)>::empty());
        }
        r
    }
}

/// Lookup over a suffix agrees with lookup over the whole list when the
/// skipped prefix holds no match.
proof fn lemma_assoc_get_skip(vs: Seq<(usize, Seq<char>)>, k: usize, i: int)
    requires
        0 <= i < vs.len(),
        vs[i].0 != k,
    ensures
        assoc_get(vs.skip(i), k) == assoc_get(vs.skip(i + 1), k),
{
    assert(vs.skip(i).len() > 0);
    assert(vs.skip(i)[0] == vs[i]);
    assert(vs.skip(i).drop_first() =~= vs.skip(i + 1));
}

/// Overwriting the first occurrence of a key realises `assoc_set`.
proof fn lemma_assoc_set_found(vs: Seq<(usize, Seq<char>)>, i: int, k: usize, v: Seq<char>)
    requires
        0 <= i < vs.len(),
        vs[i].0 == k,
        forall|j: int| 0 <= j < i ==> (#[trigger] vs[j]).0 != k,
    ensures
        assoc_set(vs, k, v) =~= vs.update(i, (k, v)),
    decreases i,
{
    if i == 0 {
        assert(seq![(k, v)] + vs.drop_first() =~= vs.update(0, (k, v)));
    } else {
        assert(vs.drop_first()[i - 1].0 == k);
        lemma_assoc_set_found(vs.drop_first(), i - 1, k, v);
        assert(seq![vs[0]] + vs.drop_first().update(i - 1, (k, v)) =~= vs.update(i, (k, v)));
    }
}

/// Appending a fresh key realises `assoc_set`.
proof fn lemma_assoc_set_absent(vs: Seq<(usize, Seq<char>)>, k: usize, v: Seq<char>)
    requires
        forall|j: int| 0 <= j < vs.len() ==> (#[trigger] vs[j]).0 != k,
    ensures
        assoc_set(vs, k, v) =~= vs.push((k, v)),
    decreases vs.len(),
{
    if vs.len() == 0 {
        assert(assoc_set(vs, k, v) =~= vs.push((k, v)));
    } else {
        lemma_assoc_set_absent(vs.drop_first(), k, v);
        assert(seq![vs[0]] + vs.drop_first().push((k, v)) =~= vs.push((k, v)));
    }
}

/// `assoc_set` keeps keys unique.
proof fn lemma_assoc_set_unique(vs: Seq<(usize, Seq<char>)>, k: usize, v: Seq<char>)
    requires
        vocab_keys_unique(vs),
    ensures
        vocab_keys_unique(assoc_set(vs, k, v)),
        assoc_set(vs, k, v).len() <= vs.len() + 1,
    decreases vs.len(),
{
    let vs1 = assoc_set(vs, k, v);
    if vs.len() == 0 {
    } else if vs[0].0 == k {
        assert(vs1 =~= seq![(k, v)] + vs.drop_first());
        assert forall|i: int, j: int| 0 <= i < j < vs1.len() implies (#[trigger] vs1[i]).0 != (
        #[trigger] vs1[j]).0 by {
            assert(vs1[j] == vs[j]);
            if i > 0 {
                assert(vs1[i] == vs[i]);
            }
        }
    } else {
        assert(vocab_keys_unique(vs.drop_first())) by {
            assert forall|i: int, j: int|
                0 <= i < j < vs.drop_first().len() implies (#[trigger] vs.drop_first()[i]).0 != (
            #[trigger] vs.drop_first()[j]).0 by {
                assert(vs.drop_first()[i] == vs[i + 1] && vs.drop_first()[j] == vs[j + 1]);
            }
        }
        lemma_assoc_set_unique(vs.drop_first(), k, v);
        let inner = assoc_set(vs.drop_first(), k, v);
        assert(vs1 =~= seq![vs[0]] + inner);
        assert(forall|j: int| 0 <= j < inner.len() ==> (#[trigger] inner[j]).0 == k || exists|m:
        int| 0 <= m < vs.drop_first().len() && (#[trigger] inner[j]).0 == vs.drop_first()[m].0)
            by {
            lemma_assoc_set_keys(vs.drop_first(), k, v);
        }
        assert forall|i: int, j: int| 0 <= i < j < vs1.len() implies (#[trigger] vs1[i]).0 != (
        #[trigger] vs1[j]).0 by {
            if i == 0 {
                assert(vs1[j] == inner[j - 1]);
                if inner[j - 1].0 == vs[0].0 {
                    assert(vs[0].0 != k);
                    let m = choose|m: int|
                        0 <= m < vs.drop_first().len() && inner[j - 1].0 == vs.drop_first()[m].0;
                    assert(vs.drop_first()[m] == vs[m + 1]);
                    assert(vs[0].0 != vs[m + 1].0);
                }
            } else {
                assert(vs1[i] == inner[i - 1] && vs1[j] == inner[j - 1]);
            }
        }
    }
}

/// Every key of `assoc_set`'s result is the written key or an old key.
proof fn lemma_assoc_set_keys(vs: Seq<(usize, Seq<char>)>, k: usize, v: Seq<char>)
    ensures
        forall|j: int|
            0 <= j < assoc_set(vs, k, v).len() ==> (#[trigger] assoc_set(vs, k, v)[j]).0 == k
                || exists|m: int| 0 <= m < vs.len() && assoc_set(vs, k, v)[j].0 == (#[trigger] vs[
                m]).0,
    decreases vs.len(),
{
    let vs1 = assoc_set(vs, k, v);
    if vs.len() == 0 {
    } else if vs[0].0 == k {
        assert forall|j: int| 0 <= j < vs1.len() implies (#[trigger] vs1[j]).0 == k || exists|m:
        int| 0 <= m < vs.len() && vs1[j].0 == (#[trigger] vs[m]).0 by {
            if j > 0 {
                assert(vs1[j] == vs[j]);
            }
        }
    } else {
        lemma_assoc_set_keys(vs.drop_first(), k, v);
        let inner = assoc_set(vs.drop_first(), k, v);
        assert forall|j: int| 0 <= j < vs1.len() implies (#[trigger] vs1[j]).0 == k || exists|m:
        int| 0 <= m < vs.len() && vs1[j].0 == (#[trigger] vs[m]).0 by {
            if j == 0 {
                assert(vs1[0] == vs[0]);
            } else {
                assert(vs1[j] == inner[j - 1]);
                if inner[j - 1].0 != k {
                    let m = choose|m: int|
                        0 <= m < vs.drop_first().len() && inner[j - 1].0 == vs.drop_first()[m].0;
                    assert(vs.drop_first()[m] == vs[m + 1]);
                }
            }
        }
    }
}

/// A sequence of two or more tokens has at least one adjacent pair.
proof fn lemma_pair_list_nonempty(s: Seq<usize>)
    requires
        s.len() >= 2,
    ensures
        pair_list(s).len() >= 1,
    decreases s.len(),
{
    if s.len() > 2 {
        lemma_pair_list_nonempty(s.drop_last());
    }
}

/// Count the occurrences of the adjacent pair `(a, b)` in `s`.
fn count_pair_exec(s: &Vec<usize>, a: usize, b: usize) -> (c: usize)
    ensures
        c as nat == count_pair(s@, (a, b)),
{
    let ghost sv = s@;
    let mut c: usize = 0;
    let mut i: usize = 0;
    proof {
        assert(sv.skip(0) =~= sv);
    }
    while i < s.len()
        invariant
            sv == s@,
            i <= sv.len(),
            c <= i,
            c as nat + count_pair(sv.skip(i as int), (a, b)) == count_pair(sv, (a, b)),
        decreases sv.len() - i,
    {
        let ghost rest = sv.skip(i as int);
        proof {
            assert(rest[0] == sv[i as int]);
            if i + 1 < sv.len() {
                assert(rest[1] == sv[i + 1]);
            }
            assert(rest.drop_first() =~= sv.skip(i + 1));
        }
        if i + 1 < s.len() && s[i] == a && s[i + 1] == b {
            c = c + 1;
        }
        i = i + 1;
    }
    proof {
        assert(sv.skip(sv.len() as int) =~= Seq::<usize>::empty());
    }
    c
}

/// Whether a pair already stands in the candidate list.
fn pair_vec_contains(ps: &Vec<(usize, usize)>, p: (usize, usize)) -> (b: bool)
    ensures
        b == ps@.contains(p),
{
    let mut i: usize = 0;
    while i < ps.len()
        invariant
            i <= ps@.len(),
            forall|j: int| 0 <= j < i ==> ps@[j] != p,
        decreases ps@.len() - i,
    {
        let e = ps[i];
        if e.0 == p.0 && e.1 == p.1 {
            assert(ps@[i as int] == p);
            return true;
        }
        i = i + 1;
    }
    proof {
        if ps@.contains(p) {
            let w = choose|j: int| 0 <= j < ps@.len() && ps@[j] == p;
        }
    }
    false
}

/// The distinct adjacent pairs of `s`, in first-occurrence order.
fn pair_list_exec(s: &Vec<usize>) -> (ps: Vec<(usize, usize)>)
    ensures
        ps@ == pair_list(s@),
{
    let ghost sv = s@;
    let mut ps: Vec<(usize, usize)> = Vec::new();
    if s.len() < 2 {
        proof {
            assert(pair_list(sv) =~= Seq::<(usize, usize)>::empty());
        }
        return ps;
    }
    let mut i: usize = 1;
    proof {
        assert(pair_list(sv.take(1)) =~= Seq::<(usize, usize)>::empty());
    }
    while i < s.len()
        invariant
            sv == s@,
            1 <= i <= sv.len(),
            sv.len() >= 2,
            ps@ == pair_list(sv.take(i as int)),
        decreases sv.len() - i,
    {
        let p = (s[i - 1], s[i]);
        let ghost t = sv.take(i + 1);
        proof {
            assert(t.drop_last() =~= sv.take(i as int));
            assert(t[t.len() - 2] == sv[i - 1] && t[t.len() - 1] == sv[i as int]);
        }
        if !pair_vec_contains(&ps, p) {
            ps.push(p);
        }
        i = i + 1;
    }
    proof {
        assert(sv.take(sv.len() as int) =~= sv);
    }
    ps
}

/// The best candidate of the list: highest count, later candidates winning
/// ties.
fn best_pair_exec(s: &Vec<usize>, ps: &Vec<(usize, usize)>) -> (r: Option<((usize, usize), usize)>)
    ensures
        match r {
            Some(b) => best_pair(s@, ps@) == Some((b.0, b.1 as nat)),
            None => best_pair(s@, ps@) is None,
        },
{
    let mut best: Option<((usize, usize), usize)> = None;
    let mut k: usize = 0;
    proof {
        assert(ps@.take(0) =~= Seq::<(usize, usize)>::empty());
    }
    while k < ps.len()
        invariant
            k <= ps@.len(),
            match best {
                Some(b) => best_pair(s@, ps@.take(k as int)) == Some((b.0, b.1 as nat)),
                None => k == 0 && best_pair(s@, ps@.take(0)) is None,
            },
        decreases ps@.len() - k,
    {
        let p = ps[k];
        let c = count_pair_exec(s, p.0, p.1);
        proof {
            assert(ps@.take(k + 1).drop_last() =~= ps@.take(k as int));
            assert(ps@.take(k + 1).last() == ps@[k as int]);
        }
        match best {
            None => {
                best = Some((p, c));
            },
            Some(b) => {
                if c >= b.1 {
                    best = Some((p, c));
                }
            },
        }
        k = k + 1;
    }
    proof {
        assert(ps@.take(ps@.len() as int) =~= ps@);
    }
    best
}

/// A plain element-wise copy.
fn copy_tokens(s: &Vec<usize>) -> (r: Vec<usize>)
    ensures
        r@ == s@,
{
    let mut r: Vec<usize> = Vec::new();
    let mut i: usize = 0;
    while i < s.len()
        invariant
            i <= s@.len(),
            r@ =~= s@.take(i as int),
        decreases s@.len() - i,
    {
        r.push(s[i]);
        proof {
            assert(r@ =~= s@.take(i + 1));
        }
        i = i + 1;
    }
    proof {
        assert(s@.take(s@.len() as int) =~= s@);
    }
    r
}

/// Removing a key whose first occurrence sits at `i` removes exactly that
/// position.
proof fn lemma_rule_remove_found(ms: Seq<((usize, usize), usize)>, i: int, k: (usize, usize))
    requires
        0 <= i < ms.len(),
        ms[i].0 == k,
        forall|j: int| 0 <= j < i ==> (#[trigger] ms[j]).0 != k,
    ensures
        rule_remove(ms, k) =~= ms.remove(i),
    decreases i,
{
    if i == 0 {
        assert(rule_remove(ms, k) == ms.drop_first());
        assert(ms.remove(0) =~= ms.drop_first());
    } else {
        assert(ms[0].0 != k);
        assert(ms.drop_first()[i - 1].0 == k);
        lemma_rule_remove_found(ms.drop_first(), i - 1, k);
        assert(rule_remove(ms, k) == seq![ms[0]] + rule_remove(ms.drop_first(), k));
        assert(seq![ms[0]] + ms.drop_first().remove(i - 1) =~= ms.remove(i));
    }
}

/// Removing an absent key changes nothing.
proof fn lemma_rule_remove_absent(ms: Seq<((usize, usize), usize)>, k: (usize, usize))
    requires
        forall|j: int| 0 <= j < ms.len() ==> (#[trigger] ms[j]).0 != k,
    ensures
        rule_remove(ms, k) =~= ms,
    decreases ms.len(),
{
    if ms.len() > 0 {
        lemma_rule_remove_absent(ms.drop_first(), k);
        assert(seq![ms[0]] + ms.drop_first() =~= ms);
    }
}

/// Insert-or-overwrite an entry of a vocabulary vector.
fn vocab_set_exec(vs: &mut Vec<(usize, String)>, k: usize, v: String)
    requires
        vocab_keys_unique(vocab_view(old(vs)@)),
    ensures
        vocab_view(final(vs)@) == assoc_set(vocab_view(old(vs)@), k, v@),
        vocab_keys_unique(vocab_view(final(vs)@)),
{
    let ghost vv = vocab_view(vs@);
    let mut i: usize = 0;
    while i < vs.len()
        invariant
            vs@ == old(vs)@,
            vv == vocab_view(vs@),
            vocab_keys_unique(vv),
            i <= vs@.len(),
            vv.len() == vs@.len(),
            forall|j: int| 0 <= j < i ==> (#[trigger] vv[j]).0 != k,
        decreases vs@.len() - i,
    {
        proof {
            assert(vv[i as int] == (vs@[i as int].0, vs@[i as int].1@));
        }
        if vs[i].0 == k {
            vs.set(i, (k, v));
            proof {
                lemma_assoc_set_found(vv, i as int, k, v@);
                assert(vocab_view(vs@) =~= vv.update(i as int, (k, v@)));
                lemma_assoc_set_unique(vv, k, v@);
            }
            return ;
        }
        i = i + 1;
    }
    vs.push((k, v));
    proof {
        lemma_assoc_set_absent(vv, k, v@);
        assert(vocab_view(vs@) =~= vv.push((k, v@)));
        lemma_assoc_set_unique(vv, k, v@);
    }
}

/// The UTF-8 bytes of a text, widened to token ids.
pub open spec fn byte_tokens(bytes: Seq<u8>) -> Seq<usize> {
    bytes.map_values(|b: u8| b as usize)
}

/// The vocabulary after recording, position by position, that byte `i` of
/// the text stands for character `i` — pairs past the shorter of the two
/// sequences are dropped, and a later position overwrites an earlier one
/// with the same byte.
pub open spec fn zip_vocab(
    vs: Seq<(usize, Seq<char>)>,
    chars: Seq<char>,
    bytes: Seq<u8>,
    n: nat,
) -> Seq<(usize, Seq<char>)>
    decreases n,
{
    if n == 0 {
        vs
    } else {
        assoc_set(
            zip_vocab(vs, chars, bytes, (n - 1) as nat),
            bytes[n - 1] as usize,
            seq![chars[n - 1]],
        )
    }
}

/// How often the adjacent pair `p` occurs in `s` (overlapping occurrences
/// all count).
pub open spec fn count_pair(s: Seq<usize>, p: (usize, usize)) -> nat
    decreases s.len(),
{
    if s.len() < 2 {
        0
    } else {
        (if s[0] == p.0 && s[1] == p.1 {
            1nat
        } else {
            0nat
        }) + count_pair(s.drop_first(), p)
    }
}

/// The distinct adjacent pairs of `s`, in order of first occurrence.
pub open spec fn pair_list(s: Seq<usize>) -> Seq<(usize, usize)>
    decreases s.len(),
{
    if s.len() < 2 {
        seq![]
    } else {
        let init = pair_list(s.drop_last());
        let p = (s[s.len() - 2], s[s.len() - 1]);
        if init.contains(p) {
            init
        } else {
            init.push(p)
        }
    }
}

/// The pair of `ps` with the highest count in `s`; on a tie the pair whose
/// first occurrence comes later wins, because a later candidate with an
/// equal count replaces the running best.
pub open spec fn best_pair(s: Seq<usize>, ps: Seq<(usize, usize)>) -> Option<((usize, usize), nat)>
    decreases ps.len(),
{
    if ps.len() == 0 {
        None
    } else {
        let c = count_pair(s, ps.last());
        match best_pair(s, ps.drop_last()) {
            None => Some((ps.last(), c)),
            Some(b) => if c >= b.1 {
                Some((ps.last(), c))
            } else {
                Some(b)
            },
        }
    }
}

/// One greedy left-to-right replacement pass: wherever an adjacent pair has
/// a rule in the table, both tokens are consumed and the rule's id emitted;
/// the emitted id takes no further part in this pass.
pub open spec fn merge_pass(ms: Seq<((usize, usize), usize)>, s: Seq<usize>) -> Seq<usize>
    decreases s.len(),
{
    if s.len() == 0 {
        seq![]
    } else if s.len() == 1 {
        seq![s[0]]
    } else {
        match merge_get(ms, (s[0], s[1])) {
            Some(m) => seq![m] + merge_pass(ms, s.skip(2)),
            None => seq![s[0]] + merge_pass(ms, s.skip(1)),
        }
    }
}

/// A merge pass returns its input unchanged or strictly shorter, and never
/// empties a nonempty sequence.
pub proof fn lemma_merge_pass_len(ms: Seq<((usize, usize), usize)>, s: Seq<usize>)
    ensures
        merge_pass(ms, s) == s || merge_pass(ms, s).len() < s.len(),
        merge_pass(ms, s).len() <= s.len(),
        s.len() >= 1 ==> merge_pass(ms, s).len() >= 1,
    decreases s.len(),
{
    if s.len() == 0 {
    } else if s.len() == 1 {
        assert(seq![s[0]] =~= s);
    } else {
        match merge_get(ms, (s[0], s[1])) {
            Some(m) => {
                lemma_merge_pass_len(ms, s.skip(2));
            },
            None => {
                lemma_merge_pass_len(ms, s.skip(1));
                if merge_pass(ms, s.skip(1)) == s.skip(1) {
                    assert(seq![s[0]] + s.skip(1) =~= s);
                }
            },
        }
    }
}

/// The state a single training step leaves behind: pick the best pair; if
/// it occurs at least twice, mint the next id for it, record the rule and
/// run one merge pass; otherwise change nothing.
pub open spec fn once_model(
    ms: Seq<((usize, usize), usize)>,
    max_id: int,
    input: Seq<usize>,
) -> (Seq<((usize, usize), usize)>, int, Seq<usize>) {
    match best_pair(input, pair_list(input)) {
        None => (ms, max_id, input),
        Some(b) => if b.1 > 1 {
            let ms1 = rule_insert(ms, b.0, (max_id + 1) as usize);
            (ms1, max_id + 1, merge_pass(ms1, input))
        } else {
            (ms, max_id, input)
        },
    }
}

/// The state the training loop leaves behind: train one step at a time
/// until the input cannot shrink further, only one token is left, or the
/// vocabulary budget (`limit`) is reached.
pub open spec fn loop_model(
    ms: Seq<((usize, usize), usize)>,
    max_id: int,
    vocab_count: nat,
    limit: nat,
    input: Seq<usize>,
) -> (Seq<((usize, usize), usize)>, int, Seq<usize>)
    decreases input.len(),
    via loop_model_dec
{
    if input.len() <= 1 || vocab_count + ms.len() >= limit {
        (ms, max_id, input)
    } else {
        let (ms1, id1, out) = once_model(ms, max_id, input);
        if out == input {
            (ms1, id1, input)
        } else {
            loop_model(ms1, id1, vocab_count, limit, out)
        }
    }
}

#[via_fn]
proof fn loop_model_dec(
    ms: Seq<((usize, usize), usize)>,
    max_id: int,
    vocab_count: nat,
    limit: nat,
    input: Seq<usize>,
) {
    if !(input.len() <= 1 || vocab_count + ms.len() >= limit) {
        let (ms1, id1, out) = once_model(ms, max_id, input);
        if out != input {
            match best_pair(input, pair_list(input)) {
                None => {},
                Some(b) => {
                    if b.1 > 1 {
                        lemma_merge_pass_len(rule_insert(ms, b.0, (max_id + 1) as usize), input);
                    }
                },
            }
        }
    }
}

/// The vocabulary after completing it with the first `n` merge rules, in
/// table order (rising minted ids): each rule's id comes to stand for the
/// concatenation of what its two components stand for so far.  `None` when
/// some component has no entry yet.
pub open spec fn complete_model(
    vs: Seq<(usize, Seq<char>)>,
    ms: Seq<((usize, usize), usize)>,
    n: nat,
) -> Option<Seq<(usize, Seq<char>)>>
    decreases n,
{
    if n == 0 {
        Some(vs)
    } else {
        match complete_model(vs, ms, (n - 1) as nat) {
            None => None,
            Some(cur) => {
                let rule = ms[n - 1];
                match (assoc_get(cur, rule.0.0), assoc_get(cur, rule.0.1)) {
                    (Some(s1), Some(s2)) => Some(assoc_set(cur, rule.1, s1 + s2)),
                    _ => None,
                }
            },
        }
    }
}

/// A completion that goes through also goes through every prefix.
proof fn lemma_complete_prefix(
    vs: Seq<(usize, Seq<char>)>,
    ms: Seq<((usize, usize), usize)>,
    k: nat,
    n: nat,
)
    requires
        k <= n,
        complete_model(vs, ms, n) is Some,
    ensures
        complete_model(vs, ms, k) is Some,
    decreases n,
{
    if k < n {
        assert(complete_model(vs, ms, (n - 1) as nat) is Some);
        lemma_complete_prefix(vs, ms, k, (n - 1) as nat);
    }
}

/// Follow the merge table through a cascade: starting from `t`, keep
/// merging with the next pending token while a rule exists; the result is
/// the final token and how many pending tokens were consumed.
pub open spec fn cascade(
    ms: Seq<((usize, usize), usize)>,
    t: usize,
    rest: Seq<usize>,
) -> (usize, nat)
    decreases rest.len(),
{
    if rest.len() == 0 {
        (t, 0)
    } else {
        match merge_get(ms, (t, rest[0])) {
            None => (t, 0),
            Some(v) => {
                let r = cascade(ms, v, rest.drop_first());
                (r.0, r.1 + 1)
            },
        }
    }
}

/// A cascade never consumes more than there is.
proof fn lemma_cascade_bound(ms: Seq<((usize, usize), usize)>, t: usize, rest: Seq<usize>)
    ensures
        cascade(ms, t, rest).1 <= rest.len(),
    decreases rest.len(),
{
    if rest.len() > 0 {
        match merge_get(ms, (t, rest[0])) {
            None => {},
            Some(v) => {
                lemma_cascade_bound(ms, v, rest.drop_first());
            },
        }
    }
}

/// Encoding: take the next token, cascade it through the merge table, emit
/// the result, and continue after whatever the cascade consumed.  A final
/// lone token is emitted as it stands.
pub open spec fn encode_model(ms: Seq<((usize, usize), usize)>, s: Seq<usize>) -> Seq<usize>
    decreases s.len(),
    via encode_model_dec
{
    if s.len() == 0 {
        seq![]
    } else if s.len() == 1 {
        seq![s[0]]
    } else {
        let r = cascade(ms, s[0], s.drop_first());
        seq![r.0] + encode_model(ms, s.skip(1 + r.1 as int))
    }
}

#[via_fn]
proof fn encode_model_dec(ms: Seq<((usize, usize), usize)>, s: Seq<usize>) {
    if s.len() > 1 {
        lemma_cascade_bound(ms, s[0], s.drop_first());
    }
}

/// Decoding: the concatenation of what the first `n` tokens stand for.
pub open spec fn decode_model(vs: Seq<(usize, Seq<char>)>, s: Seq<usize>, n: nat) -> Seq<char>
    decreases n,
{
    if n == 0 {
        seq![]
    } else {
        decode_model(vs, s, (n - 1) as nat) + match assoc_get(vs, s[n - 1]) {
            Some(t) => t,
            None => seq![],
        }
    }
}

/// The position of the first token with no vocabulary entry, if any.
pub open spec fn first_unknown(vs: Seq<(usize, Seq<char>)>, s: Seq<usize>) -> Option<int>
    decreases s.len(),
{
    if s.len() == 0 {
        None
    } else if assoc_get(vs, s[0]) is None {
        Some(0)
    } else {
        match first_unknown(vs, s.drop_first()) {
            None => None,
            Some(i) => Some(i + 1),
        }
    }
}

/// The shorter of two lengths.
pub open spec fn len_min(a: nat, b: nat) -> nat {
    if a <= b {
        a
    } else {
        b
    }
}

/// The vocabulary a text's bytes contribute, and the merge table and
/// counter the training loop then reaches: the state `train` holds just
/// before completing the vocabulary.
pub open spec fn trained_state(
    rules0: Seq<((usize, usize), usize)>,
    max0: int,
    vocab0: Seq<(usize, Seq<char>)>,
    text: Seq<char>,
    max_vocab_size: Option<usize>,
) -> (Seq<(usize, Seq<char>)>, (Seq<((usize, usize), usize)>, int, Seq<usize>)) {
    let bytes = encode_utf8(text);
    let v1 = zip_vocab(vocab0, text, bytes, len_min(text.len(), bytes.len()));
    let limit = match max_vocab_size {
        Some(v) => v as nat,
        None => v1.len() + 20,
    };
    (v1, loop_model(rules0, max0, v1.len(), limit, byte_tokens(bytes)))
}

/// `zip_vocab` adds at most one entry per position.
proof fn lemma_zip_vocab_len(
    vs: Seq<(usize, Seq<char>)>,
    chars: Seq<char>,
    bytes: Seq<u8>,
    n: nat,
)
    ensures
        zip_vocab(vs, chars, bytes, n).len() <= vs.len() + n,
    decreases n,
{
    if n > 0 {
        lemma_zip_vocab_len(vs, chars, bytes, (n - 1) as nat);
        lemma_assoc_set_len(zip_vocab(vs, chars, bytes, (n - 1) as nat), bytes[n - 1] as usize,
        seq![chars[n - 1]]);
    }
}

/// `assoc_set` grows a list by at most one entry.
proof fn lemma_assoc_set_len(vs: Seq<(usize, Seq<char>)>, k: usize, v: Seq<char>)
    ensures
        assoc_set(vs, k, v).len() <= vs.len() + 1,
    decreases vs.len(),
{
    if vs.len() > 0 && vs[0].0 != k {
        lemma_assoc_set_len(vs.drop_first(), k, v);
    }
}

/// When everything before `i` is known and `i` is not, `i` is the first
/// unknown position.
proof fn lemma_first_unknown_at(vs: Seq<(usize, Seq<char>)>, s: Seq<usize>, i: int)
    requires
        0 <= i < s.len(),
        forall|j: int| 0 <= j < i ==> assoc_get(vs, #[trigger] s[j]) is Some,
        assoc_get(vs, s[i]) is None,
    ensures
        first_unknown(vs, s) == Some(i),
    decreases i,
{
    if i == 0 {
    } else {
        assert(forall|j: int| 0 <= j < i - 1 ==> s.drop_first()[j] == s[j + 1]);
        assert(s.drop_first()[i - 1] == s[i]);
        lemma_first_unknown_at(vs, s.drop_first(), i - 1);
    }
}

/// When every token is known there is no first unknown position.
proof fn lemma_first_unknown_none(vs: Seq<(usize, Seq<char>)>, s: Seq<usize>)
    requires
        forall|j: int| 0 <= j < s.len() ==> assoc_get(vs, #[trigger] s[j]) is Some,
    ensures
        first_unknown(vs, s) is None,
    decreases s.len(),
{
    if s.len() > 0 {
        assert(forall|j: int| 0 <= j < s.drop_first().len() ==> s.drop_first()[j] == s[j + 1]);
        lemma_first_unknown_none(vs, s.drop_first());
    }
}

/// Element-wise comparison of two token vectors.
fn vec_usize_eq(a: &Vec<usize>, b: &Vec<usize>) -> (r: bool)
    ensures
        r == (a@ == b@),
{
    if a.len() != b.len() {
        proof {
            assert(a@.len() != b@.len());
        }
        return false;
    }
    let mut i: usize = 0;
    while i < a.len()
        invariant
            a@.len() == b@.len(),
            i <= a@.len(),
            forall|j: int| 0 <= j < i ==> a@[j] == b@[j],
        decreases a@.len() - i,
    {
        if a[i] != b[i] {
            proof {
                assert(a@[i as int] != b@[i as int]);
            }
            return false;
        }
        i = i + 1;
    }
    proof {
        assert(a@ =~= b@);
    }
    true
}

/// Relies on `char::to_string`: the returned string holds exactly the one
/// character.
#[verifier::external_body]
fn char_to_string(c: char) -> (s: String)
    ensures
        s@ == seq![c],
{
    c.to_string()
}

impl BytePairEncoder {
    /// Hand out the next token id.
    fn get_token_id(&mut self) -> (id: usize)
        requires
            old(self).wf(),
            old(self).max_id() < usize::MAX,
        ensures
            final(self).wf(),
            final(self).max_id() == old(self).max_id() + 1,
            id as int == final(self).max_id(),
            final(self).vocab() == old(self).vocab(),
            final(self).rules() == old(self).rules(),
    {
        self.max_token_id = self.max_token_id + 1;
        self.max_token_id
    }

    /// Turn a text into its UTF-8 byte tokens and record, position by
    /// position, which character each byte stood for.
    pub fn from_utf8(&mut self, input: &str) -> (r: Result<Vec<usize>, TokenError>)
        requires
            old(self).wf(),
        ensures
            final(self).wf(),
            final(self).rules() == old(self).rules(),
            final(self).max_id() == old(self).max_id(),
            r is Ok,
            ({
                let bytes = input.spec_bytes();
                let n = if input@.len() <= bytes.len() {
                    input@.len()
                } else {
                    bytes.len()
                };
                &&& r matches Ok(toks) && toks@ == byte_tokens(bytes)
                &&& final(self).vocab() == zip_vocab(old(self).vocab(), input@, bytes, n)
            }),
    {
        let bytes = input.as_bytes();
        let mut toks: Vec<usize> = Vec::new();
        let mut i: usize = 0;
        while i < bytes.len()
            invariant
                bytes@ == input.spec_bytes(),
                i <= bytes@.len(),
                toks@.len() == i,
                forall|j: int| 0 <= j < i ==> #[trigger] toks@[j] == bytes@[j] as usize,
            decreases bytes@.len() - i,
        {
            toks.push(bytes[i] as usize);
            i = i + 1;
        }
        proof {
            assert(toks@ =~= byte_tokens(input.spec_bytes()));
        }
        let clen = input.unicode_len();
        let blen = bytes.len();
        let n = if clen <= blen {
            clen
        } else {
            blen
        };
        let ghost vs0 = self.vocab();
        let mut j: usize = 0;
        while j < n
            invariant
                old(self).wf(),
                bytes@ == input.spec_bytes(),
                clen == input@.len(),
                blen == bytes@.len(),
                n == if clen <= blen {
                    clen
                } else {
                    blen
                },
                j <= n,
                vs0 == old(self).vocab(),
                self.vocab() == zip_vocab(vs0, input@, bytes@, j as nat),
                vocab_keys_unique(self.vocab()),
                self.rules() == old(self).rules(),
                self.max_id() == old(self).max_id(),
                self.wf(),
            decreases n - j,
        {
            let c = input.get_char(j);
            let s = char_to_string(c);
            vocab_set_exec(&mut self.vocabulary, bytes[j] as usize, s);
            j = j + 1;
        }
        Ok(toks)
    }

    /// Look a token id up in the vocabulary.
    fn vocab_get_exec(&self, k: usize) -> (r: Option<&String>)
        ensures
            match r {
                Some(s) => assoc_get(self.vocab(), k) == Some(s@),
                None => assoc_get(self.vocab(), k) is None,
            },
    {
        let ghost vs = self.vocab();
        let mut i: usize = 0;
        proof {
            assert(vs.skip(0) =~= vs);
        }
        while i < self.vocabulary.len()
            invariant
                vs == self.vocab(),
                i <= self.vocabulary@.len(),
                vs.len() == self.vocabulary@.len(),
                assoc_get(vs, k) == assoc_get(vs.skip(i as int), k),
            decreases self.vocabulary@.len() - i,
        {
            proof {
                assert(vs[i as int] == (self.vocabulary@[i as int].0,
                self.vocabulary@[i as int].1@));
            }
            if self.vocabulary[i].0 == k {
                proof {
                    assert(vs.skip(i as int)[0] == vs[i as int]);
                }
                return Some(&self.vocabulary[i].1);
            }
            proof {
                lemma_assoc_get_skip(vs, k, i as int);
            }
            i = i + 1;
        }
        proof {
            assert(vs.skip(vs.len() as int) =~= Seq::<(usize, Seq<char>)>::empty());
        }
        None
    }

    /// The position of the first merge rule for the pair `k`, if any.
    fn find_rule_index(&self, k: (usize, usize)) -> (r: Option<usize>)
        ensures
            match r {
                Some(i) => i < self.rules().len() && self.rules()[i as int].0 == k && forall|j: int|
                    0 <= j < i ==> (#[trigger] self.rules()[j]).0 != k,
                None => forall|j: int|
                    0 <= j < self.rules().len() ==> (#[trigger] self.rules()[j]).0 != k,
            },
    {
        let mut i: usize = 0;
        while i < self.merges.len()
            invariant
                i <= self.rules().len(),
                forall|j: int| 0 <= j < i ==> (#[trigger] self.rules()[j]).0 != k,
            decreases self.rules().len() - i,
        {
            let e = self.merges[i];
            if e.0.0 == k.0 && e.0.1 == k.1 {
                return Some(i);
            }
            i = i + 1;
        }
        None
    }

    /// Record a freshly minted merge rule.  An overwritten key loses its
    /// old entry; the new entry lands at the end, where its id — larger
    /// than every id minted before — keeps the table sorted.
    fn rule_insert_exec(&mut self, k: (usize, usize), v: usize)
        requires
            old(self).wf(),
            forall|i: int|
                0 <= i < old(self).rules().len() ==> (#[trigger] old(self).rules()[i]).1 < v,
            256 <= v <= old(self).max_id(),
        ensures
            final(self).wf(),
            final(self).rules() == rule_insert(old(self).rules(), k, v),
            final(self).vocab() == old(self).vocab(),
            final(self).max_id() == old(self).max_id(),
    {
        let ghost ms = self.merges@;
        match self.find_rule_index(k) {
            Some(i) => {
                self.merges.remove(i);
                proof {
                    lemma_rule_remove_found(ms, i as int, k);
                    assert(self.merges@ =~= rule_remove(ms, k));
                    let kept = self.merges@;
                    assert(forall|j: int| 0 <= j < i ==> #[trigger] kept[j] == ms[j]);
                    assert(forall|j: int|
                        i <= j < kept.len() ==> #[trigger] kept[j] == ms[j + 1]);
                    assert forall|a: int| 0 <= a < kept.len() implies (#[trigger] kept[a]).0 != k
                        && kept[a].1 < v by {
                        if a < i {
                            assert(kept[a] == ms[a]);
                            assert(ms[a].0 != ms[i as int].0);
                        } else {
                            assert(kept[a] == ms[a + 1]);
                            assert(ms[a + 1].0 != ms[i as int].0);
                        }
                    }
                    assert forall|a: int, b: int|
                        0 <= a < b < kept.len() implies (#[trigger] kept[a]).0 != (
                    #[trigger] kept[b]).0 && kept[a].1 < kept[b].1 by {
                        let fa: int = if a < i {
                            a
                        } else {
                            a + 1
                        };
                        let fb: int = if b < i {
                            b
                        } else {
                            b + 1
                        };
                        assert(kept[a] == ms[fa] && kept[b] == ms[fb]);
                        assert(ms[fa].0 != ms[fb].0 && ms[fa].1 < ms[fb].1);
                    }
                    assert forall|a: int| 0 <= a < kept.len() implies 256 <= (
                    #[trigger] kept[a]).1 <= self.max_token_id by {
                        if a < i {
                            assert(kept[a] == ms[a]);
                        } else {
                            assert(kept[a] == ms[a + 1]);
                        }
                    }
                }
            },
            None => {
                proof {
                    assert forall|j: int| 0 <= j < ms.len() implies (#[trigger] ms[j]).0 != k by {
                        assert(self.rules()[j] == ms[j]);
                    }
                    lemma_rule_remove_absent(ms, k);
                }
            },
        }
        let ghost kept = self.merges@;
        self.merges.push((k, v));
        proof {
            assert(forall|a: int| 0 <= a < kept.len() ==> (#[trigger] kept[a]).0 != k);
            assert(forall|a: int| 0 <= a < kept.len() ==> (#[trigger] kept[a]).1 < v);
            assert(forall|a: int|
                0 <= a < kept.len() ==> 256 <= (#[trigger] kept[a]).1 <= self.max_token_id);
            assert(rules_wf(kept));
            let msk = self.merges@;
            assert(msk.len() == kept.len() + 1);
            assert(msk.last() == (k, v));
            assert forall|a: int, b: int|
                0 <= a < b < msk.len() implies (#[trigger] msk[a]).0 != (#[trigger] msk[b]).0
                && msk[a].1 < msk[b].1 by {
                assert(msk[a] == kept[a]);
                if b < kept.len() {
                    assert(msk[b] == kept[b]);
                } else {
                    assert(msk[b] == (k, v));
                }
            }
        }
    }

    /// One greedy replacement pass of the whole merge table over `input`.
    fn merge_pass_exec(&self, input: &Vec<usize>) -> (out: Vec<usize>)
        ensures
            out@ == merge_pass(self.rules(), input@),
    {
        let ghost ms = self.rules();
        let ghost s = input@;
        let mut out: Vec<usize> = Vec::new();
        let mut i: usize = 0;
        proof {
            assert(s.skip(0) =~= s);
            assert(out@ + merge_pass(ms, s.skip(0)) =~= merge_pass(ms, s));
        }
        while i < input.len()
            invariant
                ms == self.rules(),
                s == input@,
                i <= s.len(),
                out@ + merge_pass(ms, s.skip(i as int)) == merge_pass(ms, s),
            decreases s.len() - i,
        {
            let ghost rest = s.skip(i as int);
            proof {
                assert(rest[0] == s[i as int]);
            }
            if i + 1 < input.len() {
                proof {
                    assert(rest[1] == s[i + 1]);
                    assert(rest.skip(2) =~= s.skip(i + 2));
                    assert(rest.skip(1) =~= s.skip(i + 1));
                }
                let ghost out0 = out@;
                match self.merge_get_exec(input[i], input[i + 1]) {
                    Some(m) => {
                        proof {
                            assert(merge_pass(ms, rest) == seq![m] + merge_pass(ms, s.skip(i + 2)));
                        }
                        out.push(m);
                        proof {
                            assert(out@ + merge_pass(ms, s.skip(i + 2)) =~= out0 + merge_pass(
                                ms,
                                rest,
                            ));
                        }
                        i = i + 2;
                    },
                    None => {
                        proof {
                            assert(merge_pass(ms, rest) == seq![s[i as int]] + merge_pass(
                                ms,
                                s.skip(i + 1),
                            ));
                        }
                        out.push(input[i]);
                        proof {
                            assert(out@ + merge_pass(ms, s.skip(i + 1)) =~= out0 + merge_pass(
                                ms,
                                rest,
                            ));
                        }
                        i = i + 1;
                    },
                }
            } else {
                let ghost out0 = out@;
                proof {
                    assert(rest.len() == 1);
                    assert(merge_pass(ms, rest) == seq![s[i as int]]);
                    assert(s.skip(i + 1) =~= Seq::<usize>::empty());
                }
                out.push(input[i]);
                proof {
                    assert(out@ + merge_pass(ms, s.skip(i + 1)) =~= out0 + merge_pass(ms, rest));
                }
                i = i + 1;
            }
        }
        proof {
            assert(s.skip(s.len() as int) =~= Seq::<usize>::empty());
            assert(out@ + merge_pass(ms, s.skip(s.len() as int)) =~= out@);
        }
        out
    }

    /// One training step: count the adjacent pairs, pick the most frequent
    /// (later first occurrences win ties), and — when it occurs at least
    /// twice — mint an id for it, record the rule and replace every
    /// occurrence in one greedy pass.  A step that finds no pair worth
    /// merging returns the input unchanged.
    fn train_once(&mut self, input: &Vec<usize>) -> (r: Result<Vec<usize>, TokenError>)
        requires
            old(self).wf(),
            input@.len() >= 2,
            old(self).max_id() < usize::MAX,
        ensures
            final(self).wf(),
            r is Ok,
            final(self).vocab() == old(self).vocab(),
            ({
                let (ms1, id1, out) = once_model(old(self).rules(), old(self).max_id(), input@);
                &&& final(self).rules() == ms1
                &&& final(self).max_id() == id1
                &&& r matches Ok(v) && v@ == out
            }),
    {
        let pairs = pair_list_exec(input);
        let best = best_pair_exec(input, &pairs);
        match best {
            None => {
                proof {
                    assert(pair_list(input@).len() >= 1) by {
                        lemma_pair_list_nonempty(input@);
                    }
                }
                Ok(copy_tokens(input))
            },
            Some(b) => {
                if b.1 > 1 {
                    let id = self.get_token_id();
                    self.rule_insert_exec(b.0, id);
                    let out = self.merge_pass_exec(input);
                    Ok(out)
                } else {
                    Ok(copy_tokens(input))
                }
            },
        }
    }

    /// Run training steps until the input stops shrinking, a single token
    /// remains, or the vocabulary budget is reached.
    fn train_loop(&mut self, input: Vec<usize>, max_vocab_size: Option<usize>) -> (r: Result<
        Vec<usize>,
        TokenError,
    >)
        requires
            old(self).wf(),
            input@.len() >= 1,
            old(self).max_id() + input@.len() <= usize::MAX,
            max_vocab_size is None ==> old(self).vocab().len() + 20 <= usize::MAX,
        ensures
            final(self).wf(),
            r is Ok,
            final(self).vocab() == old(self).vocab(),
            ({
                let limit = match max_vocab_size {
                    Some(v) => v as nat,
                    None => old(self).vocab().len() + 20,
                };
                let (ms1, id1, out) = loop_model(
                    old(self).rules(),
                    old(self).max_id(),
                    old(self).vocab().len(),
                    limit,
                    input@,
                );
                &&& final(self).rules() == ms1
                &&& final(self).max_id() == id1
                &&& r matches Ok(v) && v@ == out && v@.len() >= 1
            }),
    {
        let ghost vc = old(self).vocab().len();
        let limit: usize = match max_vocab_size {
            Some(v) => v,
            None => 20 + self.vocabulary.len(),
        };
        let ghost lim = limit as nat;
        let ghost target = loop_model(
            old(self).rules(),
            old(self).max_id(),
            vc,
            lim,
            input@,
        );
        let mut input_vec = input;
        loop
            invariant_except_break
                self.max_id() + input_vec@.len() <= usize::MAX,
                loop_model(self.rules(), self.max_id(), vc, lim, input_vec@) == target,
            invariant
                self.wf(),
                self.vocab() == old(self).vocab(),
                vc == old(self).vocab().len(),
                lim == limit as nat,
                input_vec@.len() >= 1,
            ensures
                self.wf(),
                self.vocab() == old(self).vocab(),
                (self.rules(), self.max_id(), input_vec@) == target,
                input_vec@.len() >= 1,
            decreases input_vec@.len(),
        {
            let vlen = self.vocabulary.len();
            proof {
                assert(self.vocab().len() == self.vocabulary@.len());
            }
            if input_vec.len() <= 1 || vlen >= limit || limit - vlen <= self.merges.len() {
                proof {
                    assert(vc + self.rules().len() >= lim || input_vec@.len() <= 1);
                }
                break ;
            }
            proof {
                assert(vc + self.rules().len() < lim);
            }
            let ghost pre_ms = self.rules();
            let ghost pre_id = self.max_id();
            let once = match self.train_once(&input_vec) {
                Ok(v) => v,
                Err(e) => {
                    proof {
                        assert(false);
                    }
                    return Err(e);
                },
            };
            if vec_usize_eq(&once, &input_vec) {
                proof {
                    assert((self.rules(), self.max_id(), input_vec@) == target);
                }
                break ;
            } else {
                proof {
                    match best_pair(input_vec@, pair_list(input_vec@)) {
                        None => {},
                        Some(b) => {
                            if b.1 > 1 {
                                lemma_merge_pass_len(
                                    rule_insert(pre_ms, b.0, (pre_id + 1) as usize),
                                    input_vec@,
                                );
                            }
                        },
                    }
                }
                input_vec = once;
            }
        }
        Ok(input_vec)
    }

    /// Build the vocabulary and merge table from a training text: ingest
    /// its bytes, run the training loop, then complete the vocabulary so
    /// that every minted id stands for the text of its two components.
    pub fn train(&mut self, text: String, encoding: Encoding, max_vocab_size: Option<usize>) -> (r:
        Result<(), TokenError>)
        requires
            old(self).wf(),
            encode_utf8(text@).len() >= 1,
            old(self).max_id() + encode_utf8(text@).len() <= usize::MAX,
            max_vocab_size is None ==> old(self).vocab().len() + encode_utf8(text@).len() + 20
                <= usize::MAX,
            ({
                let (v1, tr) = trained_state(
                    old(self).rules(),
                    old(self).max_id(),
                    old(self).vocab(),
                    text@,
                    max_vocab_size,
                );
                complete_model(v1, tr.0, tr.0.len()) is Some
            }),
        ensures
            final(self).wf(),
            r is Ok,
            ({
                let (v1, tr) = trained_state(
                    old(self).rules(),
                    old(self).max_id(),
                    old(self).vocab(),
                    text@,
                    max_vocab_size,
                );
                &&& final(self).rules() == tr.0
                &&& final(self).max_id() == tr.1
                &&& Some(final(self).vocab()) == complete_model(v1, tr.0, tr.0.len())
            }),
    {
        match encoding {
            Encoding::Utf8 => {},
        }
        let ghost st = trained_state(
            old(self).rules(),
            old(self).max_id(),
            old(self).vocab(),
            text@,
            max_vocab_size,
        );
        let byte_rep = match self.from_utf8(text.as_str()) {
            Ok(v) => v,
            Err(e) => {
                proof {
                    assert(false);
                }
                return Err(e);
            },
        };
        proof {
            assert(self.vocab() == st.0);
            lemma_zip_vocab_len(
                old(self).vocab(),
                text@,
                encode_utf8(text@),
                len_min(text@.len(), encode_utf8(text@).len()),
            );
        }
        let _encoded = match self.train_loop(byte_rep, max_vocab_size) {
            Ok(v) => v,
            Err(e) => {
                proof {
                    assert(false);
                }
                return Err(e);
            },
        };
        // finish the vocabulary: walk the rules in rising minted order and
        // give each id the concatenation of its components' texts
        let ghost v1 = st.0;
        let ghost msf = self.rules();
        proof {
            assert(msf == st.1.0);
            assert(Some(self.vocab()) == complete_model(v1, msf, 0));
        }
        let mut k: usize = 0;
        while k < self.merges.len()
            invariant
                self.wf(),
                msf == self.rules(),
                self.max_id() == st.1.1,
                k <= msf.len(),
                complete_model(v1, msf, msf.len()) is Some,
                Some(self.vocab()) == complete_model(v1, msf, k as nat),
            decreases msf.len() - k,
        {
            let rule = self.merges[k];
            proof {
                lemma_complete_prefix(v1, msf, (k + 1) as nat, msf.len() as nat);
                assert(complete_model(v1, msf, (k + 1) as nat) is Some);
                assert(rule == msf[k as int]);
            }
            let s1 = match self.vocab_get_exec(rule.0.0) {
                Some(s) => s.clone(),
                None => {
                    proof {
                        assert(false);
                    }
                    return Err(TokenError::InvalidToken(rule.0.0));
                },
            };
            let s2 = match self.vocab_get_exec(rule.0.1) {
                Some(s) => s.clone(),
                None => {
                    proof {
                        assert(false);
                    }
                    return Err(TokenError::InvalidToken(rule.0.1));
                },
            };
            let joined = s1.concat(s2.as_str());
            vocab_set_exec(&mut self.vocabulary, rule.1, joined);
            k = k + 1;
        }
        Ok(())
    }

    /// Encode a text: ingest its bytes (extending the vocabulary as
    /// training would), then run every byte through the merge table,
    /// cascading merges until none applies.
    pub fn encode(&mut self, input: &str, encoding: Encoding) -> (r: Result<Vec<usize>, TokenError>)
        requires
            old(self).wf(),
        ensures
            final(self).wf(),
            final(self).rules() == old(self).rules(),
            final(self).max_id() == old(self).max_id(),
            ({
                let bytes = input.spec_bytes();
                let n = len_min(input@.len(), bytes.len());
                &&& r matches Ok(v) && v@ == encode_model(old(self).rules(), byte_tokens(bytes))
                &&& final(self).vocab() == zip_vocab(old(self).vocab(), input@, bytes, n)
            }),
    {
        match encoding {
            Encoding::Utf8 => {},
        }
        let byte_rep = match self.from_utf8(input) {
            Ok(v) => v,
            Err(e) => {
                proof {
                    assert(false);
                }
                return Err(e);
            },
        };
        self.encode_input(&byte_rep)
    }

    /// One pass of cascading merges over a token sequence.
    fn encode_input(&self, input: &Vec<usize>) -> (r: Result<Vec<usize>, TokenError>)
        ensures
            r matches Ok(v) && v@ == encode_model(self.rules(), input@),
    {
        let ghost ms = self.rules();
        let ghost s = input@;
        let mut out: Vec<usize> = Vec::new();
        let mut i: usize = 0;
        proof {
            assert(s.skip(0) =~= s);
            assert(out@ + encode_model(ms, s.skip(0)) =~= encode_model(ms, s));
        }
        while i < input.len()
            invariant
                ms == self.rules(),
                s == input@,
                i <= s.len(),
                out@ + encode_model(ms, s.skip(i as int)) == encode_model(ms, s),
            decreases s.len() - i,
        {
            let ghost rest = s.skip(i as int);
            let ghost out0 = out@;
            proof {
                assert(rest[0] == s[i as int]);
            }
            if i + 1 >= input.len() {
                proof {
                    assert(rest.len() == 1);
                    assert(encode_model(ms, rest) == seq![s[i as int]]);
                    assert(s.skip(i + 1) =~= Seq::<usize>::empty());
                }
                out.push(input[i]);
                proof {
                    assert(out@ + encode_model(ms, s.skip(i + 1)) =~= out0 + encode_model(
                        ms,
                        rest,
                    ));
                }
                i = i + 1;
            } else {
                let mut t = input[i];
                let mut j = i + 1;
                proof {
                    assert(rest.drop_first() =~= s.skip(i + 1));
                }
                while j < input.len()
                    invariant
                        ms == self.rules(),
                        s == input@,
                        0 <= i < s.len(),
                        i + 1 <= j <= s.len(),
                        ({
                            let whole = cascade(ms, s[i as int], s.skip(i + 1));
                            let part = cascade(ms, t, s.skip(j as int));
                            whole.0 == part.0 && whole.1 == part.1 + (j - i - 1)
                        }),
                    ensures
                        i + 1 <= j <= s.len(),
                        ({
                            let whole = cascade(ms, s[i as int], s.skip(i + 1));
                            let part = cascade(ms, t, s.skip(j as int));
                            whole.0 == part.0 && whole.1 == part.1 + (j - i - 1)
                        }),
                        j == s.len() || merge_get(ms, (t, s[j as int])) is None,
                    decreases s.len() - j,
                {
                    let ghost restj = s.skip(j as int);
                    proof {
                        assert(restj[0] == s[j as int]);
                        assert(restj.drop_first() =~= s.skip(j + 1));
                    }
                    match self.merge_get_exec(t, input[j]) {
                        Some(v) => {
                            t = v;
                            j = j + 1;
                        },
                        None => {
                            break ;
                        },
                    }
                }
                proof {
                    if j == s.len() {
                        assert(s.skip(j as int) =~= Seq::<usize>::empty());
                        assert(cascade(ms, t, s.skip(j as int)) == (t, 0nat));
                    } else {
                        assert(s.skip(j as int)[0] == s[j as int]);
                    }
                    let whole = cascade(ms, s[i as int], s.skip(i + 1));
                    assert(whole.0 == t && whole.1 == (j - i - 1) as nat);
                    assert(encode_model(ms, rest) == seq![t] + encode_model(
                        ms,
                        rest.skip(1 + whole.1 as int),
                    ));
                    assert(rest.skip(1 + whole.1 as int) =~= s.skip(j as int));
                }
                out.push(t);
                proof {
                    assert(out@ + encode_model(ms, s.skip(j as int)) =~= out0 + encode_model(
                        ms,
                        rest,
                    ));
                }
                i = j;
            }
        }
        proof {
            assert(s.skip(s.len() as int) =~= Seq::<usize>::empty());
            assert(out@ + encode_model(ms, s.skip(s.len() as int)) =~= out@);
        }
        Ok(out)
    }

    /// Decode a token sequence back to text.  Every token must stand in the
    /// vocabulary.
    pub fn decode(&self, input: Vec<usize>) -> (r: Result<String, TokenError>)
        requires
            forall|i: int|
                0 <= i < input@.len() ==> assoc_get(self.vocab(), #[trigger] input@[i]) is Some,
        ensures
            r matches Ok(s) && s@ == decode_model(self.vocab(), input@, input@.len()),
    {
        let mut out = String::new();
        let mut i: usize = 0;
        while i < input.len()
            invariant
                forall|j: int|
                    0 <= j < input@.len() ==> assoc_get(self.vocab(), #[trigger] input@[j])
                        is Some,
                i <= input@.len(),
                out@ == decode_model(self.vocab(), input@, i as nat),
            decreases input@.len() - i,
        {
            let tok = input[i];
            match self.vocab_get_exec(tok) {
                Some(v) => {
                    out.append(v.as_str());
                },
                None => {
                    proof {
                        assert(false);
                    }
                    return Err(TokenError::InvalidToken(tok));
                },
            }
            i = i + 1;
        }
        Ok(out)
    }

    /// Decode a token sequence back to text, reporting the first token that
    /// has no vocabulary entry instead of requiring one.
    pub fn to_utf8(&self, input: Vec<usize>) -> (r: Result<String, TokenError>)
        ensures
            match first_unknown(self.vocab(), input@) {
                None => r matches Ok(s) && s@ == decode_model(
                    self.vocab(),
                    input@,
                    input@.len(),
                ),
                Some(b) => r == Err::<String, TokenError>(
                    TokenError::InvalidToken(input@[b]),
                ),
            },
    {
        let mut out = String::new();
        let mut i: usize = 0;
        while i < input.len()
            invariant
                i <= input@.len(),
                forall|j: int|
                    0 <= j < i ==> assoc_get(self.vocab(), #[trigger] input@[j]) is Some,
                out@ == decode_model(self.vocab(), input@, i as nat),
            decreases input@.len() - i,
        {
            let tok = input[i];
            match self.vocab_get_exec(tok) {
                Some(v) => {
                    out.append(v.as_str());
                },
                None => {
                    proof {
                        lemma_first_unknown_at(self.vocab(), input@, i as int);
                    }
                    return Err(TokenError::InvalidToken(tok));
                },
            }
            i = i + 1;
        }
        proof {
            lemma_first_unknown_none(self.vocab(), input@);
        }
        Ok(out)
    }

    /// Look a pair of adjacent token ids up in the merge table.
    fn merge_get_exec(&self, a: usize, b: usize) -> (r: Option<usize>)
        ensures
            r == merge_get(self.rules(), (a, b)),
    {
        let ghost ms = self.rules();
        let mut i: usize = 0;
        proof {
            assert(ms.skip(0) =~= ms);
        }
        while i < self.merges.len()
            invariant
                ms == self.rules(),
                i <= ms.len(),
                merge_get(ms, (a, b)) == merge_get(ms.skip(i as int), (a, b)),
            decreases ms.len() - i,
        {
            let e = self.merges[i];
            proof {
                assert(ms.skip(i as int)[0] == ms[i as int]);
                assert(ms.skip(i as int).drop_first() =~= ms.skip(i + 1));
            }
            if e.0.0 == a && e.0.1 == b {
                return Some(e.1);
            }
            i = i + 1;
        }
        proof {
            assert(ms.skip(ms.len() as int) =~= Seq::<((usize, usize), usize)>::empty());
        }
        None
    }
}

} // verus!
