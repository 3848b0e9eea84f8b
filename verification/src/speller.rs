//! The spelling corrector: a word-frequency model trained from a corpus,
//! proposing the most frequent known word within edit distance one or two.

use vstd::prelude::*;
use crate::strutil::toks_acc;
use crate::strutil::tokens_ws;

verus! {

/// One trained word and how often it occurred in the corpus.
pub struct WordEntry {
    pub word: String,
    pub count: u64,
}

/// The trained model: the alphabet used to generate edit candidates, and
/// one entry per distinct corpus token.
pub struct SpellCheck {
    pub letters: String,
    pub entries: Vec<WordEntry>,
}

/// The frequency map described by a list of entries; a later entry for the
/// same word would win, so well-formed models keep the words distinct.
pub open spec fn entries_map(s: Seq<WordEntry>) -> Map<Seq<char>, nat>
    decreases s.len(),
{
    if s.len() == 0 {
        Map::empty()
    } else {
        entries_map(s.drop_last()).insert(s.last().word@, s.last().count as nat)
    }
}

/// Words of the entry list, pairwise distinct.
pub open spec fn distinct_words(s: Seq<WordEntry>) -> bool {
    forall|i: int, j: int| 0 <= i < j < s.len() ==> s[i].word@ != s[j].word@
}

/// One more occurrence of `w` recorded in the frequency map.
pub open spec fn bump(m: Map<Seq<char>, nat>, w: Seq<char>) -> Map<Seq<char>, nat> {
    if m.contains_key(w) {
        m.insert(w, m[w] + 1)
    } else {
        m.insert(w, 1)
    }
}

/// The frequency map after recording every token of `toks` in order.
pub open spec fn train_map(m: Map<Seq<char>, nat>, toks: Seq<Seq<char>>) -> Map<Seq<char>, nat>
    decreases toks.len(),
{
    if toks.len() == 0 {
        m
    } else {
        train_map(bump(m, toks[0]), toks.drop_first())
    }
}

impl SpellCheck {
    /// The words of the model are pairwise distinct, so the frequency map
    /// determines each entry.
    pub open spec fn wf(self) -> bool {
        distinct_words(self.entries@)
    }

    /// The trained frequency of each known word.
    pub open spec fn freq(self) -> Map<Seq<char>, nat> {
        entries_map(self.entries@)
    }
}

proof fn lemma_train_push(m: Map<Seq<char>, nat>, toks: Seq<Seq<char>>, x: Seq<char>)
    ensures
        train_map(m, toks.push(x)) == bump(train_map(m, toks), x),
    decreases toks.len(),
{
    if toks.len() == 0 {
        assert(toks.push(x).len() == 1);
        assert(toks.push(x)[0] == x);
        assert(toks.push(x).drop_first() =~= Seq::<Seq<char>>::empty());
        assert(train_map(m, toks.push(x)) == train_map(
            bump(m, x),
            Seq::<Seq<char>>::empty(),
        ));
        assert(train_map(bump(m, x), Seq::<Seq<char>>::empty()) == bump(m, x));
        assert(train_map(m, toks) == m);
    } else {
        assert(toks.push(x)[0] == toks[0]);
        assert(toks.push(x).drop_first() =~= toks.drop_first().push(x));
        assert(train_map(m, toks.push(x)) == train_map(
            bump(m, toks[0]),
            toks.drop_first().push(x),
        ));
        lemma_train_push(bump(m, toks[0]), toks.drop_first(), x);
        assert(train_map(m, toks) == train_map(bump(m, toks[0]), toks.drop_first()));
    }
}

/// With distinct words, membership and value of the frequency map match
/// the entry list pointwise.
proof fn lemma_entries_map(s: Seq<WordEntry>)
    requires
        distinct_words(s),
    ensures
        forall|w: Seq<char>|
            #[trigger] entries_map(s).contains_key(w) <==> exists|i: int|
                0 <= i < s.len() && s[i].word@ == w,
        forall|i: int|
            0 <= i < s.len() ==> entries_map(s).contains_key(#[trigger] s[i].word@)
                && entries_map(s)[s[i].word@] == s[i].count as nat,
    decreases s.len(),
{
    if s.len() == 0 {
    } else {
        let t = s.drop_last();
        assert(distinct_words(t));
        lemma_entries_map(t);
        assert forall|i: int| 0 <= i < s.len() implies entries_map(s).contains_key(
            #[trigger] s[i].word@,
        ) && entries_map(s)[s[i].word@] == s[i].count as nat by {
            if i < s.len() - 1 {
                assert(t[i] == s[i]);
                assert(s[i].word@ != s[s.len() - 1].word@);
            }
        }
        assert forall|w: Seq<char>| #[trigger]
            entries_map(s).contains_key(w) implies exists|i: int|
            0 <= i < s.len() && s[i].word@ == w by {
            if w == s.last().word@ {
                assert(s[s.len() - 1].word@ == w);
            } else {
                assert(entries_map(s) == entries_map(t).insert(
                    s.last().word@,
                    s.last().count as nat,
                ));
                assert(entries_map(t).contains_key(w));
                let i = choose|i: int| 0 <= i < t.len() && t[i].word@ == w;
                assert(t[i] == s[i]);
                assert(s[i].word@ == w);
            }
        }
        assert forall|w: Seq<char>|
            (exists|i: int| 0 <= i < s.len() && s[i].word@ == w) implies #[trigger] entries_map(
            s,
        ).contains_key(w) by {}
    }
}

/// Bumping the count of the entry at `i` bumps the map at its word.
proof fn lemma_entries_map_update(s: Seq<WordEntry>, s2: Seq<WordEntry>, i: int)
    requires
        distinct_words(s),
        s2.len() == s.len(),
        0 <= i < s.len(),
        s2[i].word@ == s[i].word@,
        s2[i].count == s[i].count + 1,
        forall|j: int| 0 <= j < s.len() && j != i ==> s2[j] == s[j],
    ensures
        entries_map(s2) == bump(entries_map(s), s[i].word@),
    decreases s.len(),
{
    lemma_entries_map(s);
    let w = s[i].word@;
    if i == s.len() - 1 {
        assert(s2.drop_last() =~= s.drop_last());
        assert(entries_map(s2) == entries_map(s.drop_last()).insert(w, (s[i].count + 1) as nat));
        assert(entries_map(s).contains_key(w));
        assert(entries_map(s)[w] == s[i].count as nat);
        assert(bump(entries_map(s), w) == entries_map(s).insert(w, (s[i].count + 1) as nat));
        assert(entries_map(s.drop_last()).insert(w, (s[i].count + 1) as nat) =~= entries_map(
            s.drop_last(),
        ).insert(w, s[i].count as nat).insert(w, (s[i].count + 1) as nat));
    } else {
        let t = s.drop_last();
        let t2 = s2.drop_last();
        assert(distinct_words(t));
        assert(forall|j: int| 0 <= j < t.len() && j != i ==> t2[j] == t[j]);
        assert(t2[i].word@ == t[i].word@);
        assert(t2[i].count == t[i].count + 1);
        assert(t2.len() == t.len());
        lemma_entries_map_update(t, t2, i);
        let lw = s.last().word@;
        let lc = s.last().count as nat;
        assert(s2.last() == s.last());
        assert(entries_map(s2) == bump(entries_map(t), w).insert(lw, lc));
        assert(lw != w);
        lemma_entries_map(t);
        // `bump` and an insert at a different key commute.
        if entries_map(t).contains_key(w) {
            assert(entries_map(t).insert(lw, lc).contains_key(w));
            assert(entries_map(t).insert(lw, lc)[w] == entries_map(t)[w]);
            assert(entries_map(t).insert(w, entries_map(t)[w] + 1).insert(lw, lc)
                =~= entries_map(t).insert(lw, lc).insert(w, entries_map(t)[w] + 1));
        } else {
            assert(!entries_map(t).insert(lw, lc).contains_key(w));
            assert(entries_map(t).insert(w, 1).insert(lw, lc) =~= entries_map(t).insert(
                lw,
                lc,
            ).insert(w, 1));
        }
    }
}

/// Find the index of `w` in the entry list, scanning from the front.
fn find_word(entries: &Vec<WordEntry>, w: &String) -> (r: Option<usize>)
    ensures
        match r {
            Some(i) => i < entries@.len() && entries@[i as int].word@ == w@,
            None => forall|j: int| 0 <= j < entries@.len() ==> entries@[j].word@ != w@,
        },
{
    let n: usize = entries.len();
    let mut i: usize = 0;
    while i < n
        invariant
            n == entries@.len(),
            i <= n,
            forall|j: int| 0 <= j < i ==> entries@[j].word@ != w@,
        decreases n - i,
    {
        if entries[i].word == *w {
            return Some(i);
        }
        i = i + 1;
    }
    None
}

/// The whitespace-separated tokens of `s`, in order, empty tokens dropped.
pub fn tokenize_ws(s: &str) -> (r: Vec<String>)
    ensures
        r.deep_view() == tokens_ws(s@),
{
    let n: usize = s.unicode_len();
    let mut out: Vec<String> = Vec::new();
    let mut cur = String::new();
    let mut i: usize = 0;
    proof {
        assert(out.deep_view() =~= Seq::<Seq<char>>::empty());
        assert(s@.skip(0) =~= s@);
        assert(out.deep_view() + toks_acc(s@, cur@) =~= toks_acc(s@, cur@));
    }
    while i < n
        invariant
            n == s@.len(),
            i <= n,
            out.deep_view() + toks_acc(s@.skip(i as int), cur@) == tokens_ws(s@),
        decreases n - i,
    {
        proof {
            assert(s@.skip(i as int).len() == n - i);
            assert(s@.skip(i as int)[0] == s@[i as int]);
            assert(s@.skip(i as int).drop_first() =~= s@.skip(i as int + 1));
        }
        let c = s.get_char(i);
        if c == ' ' || c == '\t' || c == '\r' || c == '\n' {
            let ghost old_out = out.deep_view();
            let ghost old_cur = cur@;
            if cur.as_str().unicode_len() > 0 {
                out.push(cur);
                cur = String::new();
                proof {
                    assert(out.deep_view() =~= old_out.push(old_cur));
                    assert(out.deep_view() + toks_acc(s@.skip(i as int + 1), cur@) =~= (old_out
                        + toks_acc(s@.skip(i as int), old_cur)));
                }
            } else {
                proof {
                    assert(cur@ =~= Seq::<char>::empty());
                    assert(out.deep_view() + toks_acc(s@.skip(i as int + 1), cur@) =~= (old_out
                        + toks_acc(s@.skip(i as int), old_cur)));
                }
            }
        } else {
            let ghost old_cur = cur@;
            let piece = s.substring_char(i, i + 1);
            cur.append(piece);
            proof {
                assert(cur@ =~= old_cur.push(s@[i as int]));
            }
        }
        i = i + 1;
    }
    proof {
        assert(s@.skip(n as int).len() == 0);
    }
    let ghost old_out = out.deep_view();
    let ghost old_cur = cur@;
    if cur.as_str().unicode_len() > 0 {
        out.push(cur);
        proof {
            assert(out.deep_view() =~= old_out.push(old_cur));
            assert(out.deep_view() =~= old_out + seq![old_cur]);
        }
    } else {
        proof {
            assert(out.deep_view() =~= old_out + Seq::<Seq<char>>::empty());
        }
    }
    out
}

impl SpellCheck {
    /// Train a model over the lower-case alphabet: tokenize the corpus on
    /// whitespace and count every occurrence of every token.
    pub fn new(corpus: String) -> (r: SpellCheck)
        ensures
            r.wf(),
            r.letters@ == "abcdefghijklmnopqrstuvwxyz"@,
            r.freq() == train_map(Map::empty(), tokens_ws(corpus@)),
    {
        let toks = tokenize_ws(corpus.as_str());
        let ghost dv = toks.deep_view();
        let mut entries: Vec<WordEntry> = Vec::new();
        let mut t: usize = 0;
        let n: usize = toks.len();
        proof {
            assert(dv.take(0) =~= Seq::<Seq<char>>::empty());
            assert(entries@.len() == 0);
        }
        while t < n
            invariant
                n == toks@.len(),
                dv == toks.deep_view(),
                dv.len() == n,
                t <= n,
                distinct_words(entries@),
                entries_map(entries@) == train_map(Map::empty(), dv.take(t as int)),
                forall|j: int| 0 <= j < entries@.len() ==> entries@[j].count <= t,
            decreases n - t,
        {
            let ghost old_entries = entries@;
            let tok = &toks[t];
            proof {
                assert(dv[t as int] == toks@[t as int]@);
                assert(dv.take(t as int + 1) =~= dv.take(t as int).push(dv[t as int]));
                lemma_train_push(Map::empty(), dv.take(t as int), dv[t as int]);
            }
            match find_word(&entries, tok) {
                Some(i) => {
                    let c: u64 = entries[i].count;
                    let w2 = entries[i].word.clone();
                    entries.set(i, WordEntry { word: w2, count: c + 1 });
                    proof {
                        assert(forall|j: int|
                            0 <= j < old_entries.len() && j != i ==> entries@[j] == old_entries[j]);
                        lemma_entries_map_update(old_entries, entries@, i as int);
                    }
                },
                None => {
                    proof {
                        lemma_entries_map(old_entries);
                        assert(!entries_map(old_entries).contains_key(tok@));
                    }
                    entries.push(WordEntry { word: tok.clone(), count: 1 });
                    proof {
                        assert(entries@.drop_last() =~= old_entries);
                        assert(entries@.last().word@ == tok@);
                        assert(entries_map(entries@) == entries_map(old_entries).insert(tok@, 1));
                    }
                },
            }
            t = t + 1;
        }
        proof {
            assert(dv.take(n as int) =~= dv);
        }
        SpellCheck { letters: String::from_str("abcdefghijklmnopqrstuvwxyz"), entries }
    }

    /// Look up the trained count of `w`, if `w` is a known word.
    pub fn lookup(&self, w: &String) -> (r: Option<u64>)
        requires
            self.wf(),
        ensures
            match r {
                Some(c) => self.freq().contains_key(w@) && self.freq()[w@] == c as nat,
                None => !self.freq().contains_key(w@),
            },
    {
        proof {
            lemma_entries_map(self.entries@);
        }
        match find_word(&self.entries, w) {
            Some(i) => Some(self.entries[i].count),
            None => None,
        }
    }
}

/// `w` with the character at `i` deleted.
pub open spec fn del_at(w: Seq<char>, i: int) -> Seq<char> {
    w.take(i) + w.skip(i + 1)
}

/// `w` with the characters at `i` and `i + 1` swapped.
pub open spec fn tran_at(w: Seq<char>, i: int) -> Seq<char> {
    w.take(i) + seq![w[i + 1], w[i]] + w.skip(i + 2)
}

/// `w` with the character at `i` replaced by `c`.
pub open spec fn subst_at(w: Seq<char>, i: int, c: char) -> Seq<char> {
    w.take(i) + seq![c] + w.skip(i + 1)
}

/// `w` with `c` inserted before position `i`.
pub open spec fn ins_at(w: Seq<char>, i: int, c: char) -> Seq<char> {
    w.take(i) + seq![c] + w.skip(i)
}

/// The deletions at positions below `i`, in position order.
pub open spec fn dels_upto(w: Seq<char>, i: int) -> Seq<Seq<char>>
    decreases i,
{
    if i <= 0 {
        Seq::empty()
    } else {
        dels_upto(w, i - 1).push(del_at(w, i - 1))
    }
}

/// The adjacent transpositions at positions below `i`, in position order.
pub open spec fn trans_upto(w: Seq<char>, i: int) -> Seq<Seq<char>>
    decreases i,
{
    if i <= 0 {
        Seq::empty()
    } else {
        trans_upto(w, i - 1).push(tran_at(w, i - 1))
    }
}

/// The substitutions at position `i` by the first `j` alphabet letters.
pub open spec fn subst_row(w: Seq<char>, i: int, alpha: Seq<char>, j: int) -> Seq<Seq<char>>
    decreases j,
{
    if j <= 0 {
        Seq::empty()
    } else {
        subst_row(w, i, alpha, j - 1).push(subst_at(w, i, alpha[j - 1]))
    }
}

/// The substitutions at positions below `i`, each over the whole alphabet.
pub open spec fn subs_upto(w: Seq<char>, alpha: Seq<char>, i: int) -> Seq<Seq<char>>
    decreases i,
{
    if i <= 0 {
        Seq::empty()
    } else {
        subs_upto(w, alpha, i - 1) + subst_row(w, i - 1, alpha, alpha.len() as int)
    }
}

/// The insertions at position `i` of the first `j` alphabet letters.
pub open spec fn ins_row(w: Seq<char>, i: int, alpha: Seq<char>, j: int) -> Seq<Seq<char>>
    decreases j,
{
    if j <= 0 {
        Seq::empty()
    } else {
        ins_row(w, i, alpha, j - 1).push(ins_at(w, i, alpha[j - 1]))
    }
}

/// The insertions at positions below `i`, each over the whole alphabet.
pub open spec fn inss_upto(w: Seq<char>, alpha: Seq<char>, i: int) -> Seq<Seq<char>>
    decreases i,
{
    if i <= 0 {
        Seq::empty()
    } else {
        inss_upto(w, alpha, i - 1) + ins_row(w, i - 1, alpha, alpha.len() as int)
    }
}

/// Every string at edit distance one from `w`: all deletions, then all
/// adjacent transpositions, then all substitutions, then all insertions,
/// each family in position order.
pub open spec fn edits1(w: Seq<char>, alpha: Seq<char>) -> Seq<Seq<char>> {
    dels_upto(w, w.len() as int) + trans_upto(w, w.len() as int - 1) + subs_upto(
        w,
        alpha,
        w.len() as int,
    ) + inss_upto(w, alpha, w.len() as int + 1)
}

/// The single edits of the first `i` candidates, concatenated in order.
pub open spec fn edits2_upto(cands: Seq<Seq<char>>, alpha: Seq<char>, i: int) -> Seq<Seq<char>>
    decreases i,
{
    if i <= 0 {
        Seq::empty()
    } else {
        edits2_upto(cands, alpha, i - 1) + edits1(cands[i - 1], alpha)
    }
}

/// Every string at edit distance two from `w`: the single edits of every
/// single edit of `w`, in generation order.
pub open spec fn edits2(w: Seq<char>, alpha: Seq<char>) -> Seq<Seq<char>> {
    edits2_upto(edits1(w, alpha), alpha, edits1(w, alpha).len() as int)
}

/// The running best candidate after seeing `c`: an unknown `c` changes
/// nothing, and a known `c` replaces the best only when strictly more
/// frequent, so the first-found maximum wins.
pub open spec fn better(m: Map<Seq<char>, nat>, acc: Option<Seq<char>>, c: Seq<char>) -> Option<
    Seq<char>,
> {
    if !m.contains_key(c) {
        acc
    } else {
        match acc {
            None => Some(c),
            Some(b) => if m[c] > m[b] {
                Some(c)
            } else {
                Some(b)
            },
        }
    }
}

/// The best candidate after scanning `cands` from position `i` on,
/// starting from `acc`.
pub open spec fn best_from(
    m: Map<Seq<char>, nat>,
    cands: Seq<Seq<char>>,
    i: int,
    acc: Option<Seq<char>>,
) -> Option<Seq<char>>
    decreases cands.len() - i,
{
    if i < 0 || i >= cands.len() {
        acc
    } else {
        best_from(m, cands, i + 1, better(m, acc, cands[i]))
    }
}

/// The most frequent known word among `cands`, ties broken by first-found
/// order; `None` when no candidate is known.
pub open spec fn best(m: Map<Seq<char>, nat>, cands: Seq<Seq<char>>) -> Option<Seq<char>> {
    best_from(m, cands, 0, None)
}

/// What `correct_word` returns: a known word is kept; otherwise the best
/// known candidate at edit distance one, then at distance two; otherwise
/// the word itself.
pub open spec fn correct_spec(m: Map<Seq<char>, nat>, alpha: Seq<char>, w: Seq<char>) -> Seq<
    char,
> {
    if m.contains_key(w) {
        w
    } else {
        match best(m, edits1(w, alpha)) {
            Some(b) => b,
            None => match best(m, edits2(w, alpha)) {
                Some(b) => b,
                None => w,
            },
        }
    }
}

fn build_del(w: &str, i: usize) -> (r: String)
    requires
        i < w@.len(),
    ensures
        r@ == del_at(w@, i as int),
{
    let n: usize = w.unicode_len();
    let mut t = String::new();
    t.append(w.substring_char(0, i));
    t.append(w.substring_char(i + 1, n));
    proof {
        assert(t@ =~= del_at(w@, i as int));
    }
    t
}

fn build_tran(w: &str, i: usize) -> (r: String)
    requires
        i + 1 < w@.len(),
    ensures
        r@ == tran_at(w@, i as int),
{
    let n: usize = w.unicode_len();
    let mut t = String::new();
    t.append(w.substring_char(0, i));
    t.append(w.substring_char(i + 1, i + 2));
    t.append(w.substring_char(i, i + 1));
    t.append(w.substring_char(i + 2, n));
    proof {
        assert(t@ =~= tran_at(w@, i as int));
    }
    t
}

fn build_subst(w: &str, i: usize, alpha: &str, j: usize) -> (r: String)
    requires
        i < w@.len(),
        j < alpha@.len() <= usize::MAX,
    ensures
        r@ == subst_at(w@, i as int, alpha@[j as int]),
{
    let n: usize = w.unicode_len();
    let mut t = String::new();
    t.append(w.substring_char(0, i));
    t.append(alpha.substring_char(j, j + 1));
    t.append(w.substring_char(i + 1, n));
    proof {
        assert(t@ =~= subst_at(w@, i as int, alpha@[j as int]));
    }
    t
}

fn build_ins(w: &str, i: usize, alpha: &str, j: usize) -> (r: String)
    requires
        i <= w@.len(),
        j < alpha@.len() <= usize::MAX,
    ensures
        r@ == ins_at(w@, i as int, alpha@[j as int]),
{
    let n: usize = w.unicode_len();
    let mut t = String::new();
    t.append(w.substring_char(0, i));
    t.append(alpha.substring_char(j, j + 1));
    t.append(w.substring_char(i, n));
    proof {
        assert(t@ =~= ins_at(w@, i as int, alpha@[j as int]));
    }
    t
}

/// All candidates at edit distance one from `w`, in generation order.
pub fn edits1_vec(w: &str, alpha: &str) -> (r: Vec<String>)
    ensures
        r.deep_view() == edits1(w@, alpha@),
{
    let n: usize = w.unicode_len();
    let la: usize = alpha.unicode_len();
    let mut out: Vec<String> = Vec::new();

    let mut i: usize = 0;
    while i < n
        invariant
            n == w@.len(),
            i <= n,
            out.deep_view() == dels_upto(w@, i as int),
        decreases n - i,
    {
        let ghost pre = out.deep_view();
        out.push(build_del(w, i));
        proof {
            assert(out.deep_view() =~= pre.push(del_at(w@, i as int)));
        }
        i = i + 1;
    }

    let mut i: usize = 0;
    proof {
        assert(out.deep_view() =~= dels_upto(w@, n as int) + trans_upto(w@, 0));
    }
    while n >= 1 && i < n - 1
        invariant
            n == w@.len(),
            i <= n,
            n >= 1 ==> i <= n - 1,
            n == 0 ==> i == 0,
            out.deep_view() == dels_upto(w@, n as int) + trans_upto(w@, i as int),
        decreases n - i,
    {
        let ghost pre = out.deep_view();
        out.push(build_tran(w, i));
        proof {
            assert(out.deep_view() =~= pre.push(tran_at(w@, i as int)));
            assert(out.deep_view() =~= dels_upto(w@, n as int) + trans_upto(w@, i as int + 1));
        }
        i = i + 1;
    }
    let ghost base1 = dels_upto(w@, n as int) + trans_upto(w@, n as int - 1);
    proof {
        assert(out.deep_view() =~= base1);
    }

    let mut i: usize = 0;
    proof {
        assert(out.deep_view() =~= base1 + subs_upto(w@, alpha@, 0));
    }
    while i < n
        invariant
            n == w@.len(),
            la == alpha@.len(),
            i <= n,
            out.deep_view() == base1 + subs_upto(w@, alpha@, i as int),
            base1 == dels_upto(w@, n as int) + trans_upto(w@, n as int - 1),
        decreases n - i,
    {
        let mut j: usize = 0;
        proof {
            assert(out.deep_view() =~= base1 + subs_upto(w@, alpha@, i as int) + subst_row(
                w@,
                i as int,
                alpha@,
                0,
            ));
        }
        while j < la
            invariant
                n == w@.len(),
                la == alpha@.len(),
                i < n,
                j <= la,
                out.deep_view() == base1 + subs_upto(w@, alpha@, i as int) + subst_row(
                    w@,
                    i as int,
                    alpha@,
                    j as int,
                ),
            decreases la - j,
        {
            let ghost pre = out.deep_view();
            out.push(build_subst(w, i, alpha, j));
            proof {
                assert(out.deep_view() =~= pre.push(subst_at(w@, i as int, alpha@[j as int])));
                assert(out.deep_view() =~= base1 + subs_upto(w@, alpha@, i as int) + subst_row(
                    w@,
                    i as int,
                    alpha@,
                    j as int + 1,
                ));
            }
            j = j + 1;
        }
        proof {
            assert(subs_upto(w@, alpha@, i as int + 1) == subs_upto(w@, alpha@, i as int)
                + subst_row(w@, i as int, alpha@, la as int));
            assert(out.deep_view() =~= base1 + subs_upto(w@, alpha@, i as int + 1));
        }
        i = i + 1;
    }
    let ghost base2 = base1 + subs_upto(w@, alpha@, n as int);
    proof {
        assert(out.deep_view() =~= base2);
    }

    let mut i: usize = 0;
    proof {
        assert(out.deep_view() =~= base2 + inss_upto(w@, alpha@, 0));
    }
    while i < n
        invariant
            n == w@.len(),
            la == alpha@.len(),
            i <= n,
            out.deep_view() == base2 + inss_upto(w@, alpha@, i as int),
            base2 == dels_upto(w@, n as int) + trans_upto(w@, n as int - 1) + subs_upto(
                w@,
                alpha@,
                n as int,
            ),
        decreases n - i,
    {
        push_ins_row(&mut out, w, i, alpha);
        proof {
            assert(inss_upto(w@, alpha@, i as int + 1) == inss_upto(w@, alpha@, i as int)
                + ins_row(w@, i as int, alpha@, la as int));
            assert(out.deep_view() =~= base2 + inss_upto(w@, alpha@, i as int + 1));
        }
        i = i + 1;
    }
    push_ins_row(&mut out, w, n, alpha);
    proof {
        assert(inss_upto(w@, alpha@, n as int + 1) == inss_upto(w@, alpha@, n as int) + ins_row(
            w@,
            n as int,
            alpha@,
            la as int,
        ));
        assert(out.deep_view() =~= base2 + inss_upto(w@, alpha@, n as int + 1));
        assert(out.deep_view() =~= edits1(w@, alpha@));
    }
    out
}

/// Push the insertions of every alphabet letter at position `i` of `w`.
fn push_ins_row(out: &mut Vec<String>, w: &str, i: usize, alpha: &str)
    requires
        i <= w@.len(),
    ensures
        final(out).deep_view() == old(out).deep_view() + ins_row(
            w@,
            i as int,
            alpha@,
            alpha@.len() as int,
        ),
{
    let la: usize = alpha.unicode_len();
    let ghost pre0 = out.deep_view();
    let mut j: usize = 0;
    proof {
        assert(out.deep_view() =~= pre0 + ins_row(w@, i as int, alpha@, 0));
    }
    while j < la
        invariant
            la == alpha@.len(),
            i <= w@.len(),
            j <= la,
            out.deep_view() == pre0 + ins_row(w@, i as int, alpha@, j as int),
        decreases la - j,
    {
        let ghost pre = out.deep_view();
        out.push(build_ins(w, i, alpha, j));
        proof {
            assert(out.deep_view() =~= pre.push(ins_at(w@, i as int, alpha@[j as int])));
            assert(out.deep_view() =~= pre0 + ins_row(w@, i as int, alpha@, j as int + 1));
        }
        j = j + 1;
    }
}

/// The spec value of a running best candidate.
pub open spec fn acc_view(o: Option<String>) -> Option<Seq<char>> {
    match o {
        Some(s) => Some(s@),
        None => None,
    }
}

impl SpellCheck {
    /// The most frequent known word among `cands`, first found wins ties.
    fn best_candidate(&self, cands: &Vec<String>) -> (r: Option<String>)
        requires
            self.wf(),
        ensures
            acc_view(r) == best(self.freq(), cands.deep_view()),
    {
        let ghost m = self.freq();
        let ghost dv = cands.deep_view();
        let mut best_word: Option<String> = None;
        let mut best_count: u64 = 0;
        let n: usize = cands.len();
        let mut i: usize = 0;
        while i < n
            invariant
                self.wf(),
                m == self.freq(),
                dv == cands.deep_view(),
                n == cands@.len(),
                dv.len() == n,
                i <= n,
                best_from(m, dv, i as int, acc_view(best_word)) == best(m, dv),
                match best_word {
                    Some(b) => m.contains_key(b@) && m[b@] == best_count as nat,
                    None => true,
                },
            decreases n - i,
        {
            proof {
                assert(dv[i as int] == cands@[i as int]@);
            }
            let ghost pre = acc_view(best_word);
            let c = &cands[i];
            match self.lookup(c) {
                Some(cc) => {
                    let replace: bool = match &best_word {
                        None => true,
                        Some(_) => cc > best_count,
                    };
                    if replace {
                        best_word = Some(c.clone());
                        best_count = cc;
                    }
                },
                None => {},
            }
            proof {
                assert(acc_view(best_word) == better(m, pre, dv[i as int]));
            }
            i = i + 1;
        }
        best_word
    }

    /// Correct one word: a known word is returned unchanged; otherwise the
    /// most frequent known word at edit distance one, then at distance two;
    /// otherwise the word itself.
    pub fn correct_word(&self, w: &String) -> (r: String)
        requires
            self.wf(),
        ensures
            r@ == correct_spec(self.freq(), self.letters@, w@),
    {
        match self.lookup(w) {
            Some(_) => w.clone(),
            None => {
                let e1 = edits1_vec(w.as_str(), self.letters.as_str());
                match self.best_candidate(&e1) {
                    Some(b) => b,
                    None => {
                        let ghost dv1 = e1.deep_view();
                        let mut e2: Vec<String> = Vec::new();
                        let n: usize = e1.len();
                        let mut i: usize = 0;
                        proof {
                            assert(e2.deep_view() =~= edits2_upto(dv1, self.letters@, 0));
                        }
                        while i < n
                            invariant
                                n == e1@.len(),
                                dv1 == e1.deep_view(),
                                dv1.len() == n,
                                i <= n,
                                e2.deep_view() == edits2_upto(dv1, self.letters@, i as int),
                            decreases n - i,
                        {
                            proof {
                                assert(dv1[i as int] == e1@[i as int]@);
                            }
                            let mut more = edits1_vec(e1[i].as_str(), self.letters.as_str());
                            let ghost pre = e2.deep_view();
                            let ghost morev = more.deep_view();
                            e2.append(&mut more);
                            proof {
                                assert(e2.deep_view() =~= pre + morev);
                                assert(e2.deep_view() =~= edits2_upto(
                                    dv1,
                                    self.letters@,
                                    i as int + 1,
                                ));
                            }
                            i = i + 1;
                        }
                        match self.best_candidate(&e2) {
                            Some(b) => b,
                            None => w.clone(),
                        }
                    },
                }
            },
        }
    }
}

/// The `s/original/corrected` text of one correction note.
pub open spec fn note(orig: Seq<char>, corr: Seq<char>) -> Seq<char> {
    "s/"@ + orig + "/"@ + corr
}

/// The notes produced for a token list: tokens of length two or less are
/// skipped, and every longer token whose correction differs from it yields
/// one note, in input order.
pub open spec fn notes_rec(m: Map<Seq<char>, nat>, alpha: Seq<char>, toks: Seq<Seq<char>>) -> Seq<
    Seq<char>,
>
    decreases toks.len(),
{
    if toks.len() == 0 {
        Seq::empty()
    } else {
        let t = toks[0];
        let rest = notes_rec(m, alpha, toks.drop_first());
        if t.len() <= 2 {
            rest
        } else if correct_spec(m, alpha, t) != t {
            seq![note(t, correct_spec(m, alpha, t))] + rest
        } else {
            rest
        }
    }
}

/// The notes produced for a whole text: its whitespace tokens, corrected.
pub open spec fn notes_spec(m: Map<Seq<char>, nat>, alpha: Seq<char>, text: Seq<char>) -> Seq<
    Seq<char>,
> {
    notes_rec(m, alpha, tokens_ws(text))
}

impl SpellCheck {
    /// The correction notes for `text`: one `s/original/corrected` line per
    /// token longer than two characters whose correction differs from it,
    /// in input order.
    pub fn correct_notes(&self, text: &String) -> (r: Vec<String>)
        requires
            self.wf(),
        ensures
            r.deep_view() == notes_spec(self.freq(), self.letters@, text@),
    {
        let toks = tokenize_ws(text.as_str());
        let ghost dv = toks.deep_view();
        let ghost m = self.freq();
        let mut out: Vec<String> = Vec::new();
        let n: usize = toks.len();
        let mut i: usize = 0;
        proof {
            assert(dv.skip(0) =~= dv);
            assert(out.deep_view() + notes_rec(m, self.letters@, dv) =~= notes_rec(
                m,
                self.letters@,
                dv,
            ));
        }
        while i < n
            invariant
                self.wf(),
                m == self.freq(),
                dv == toks.deep_view(),
                dv == tokens_ws(text@),
                n == toks@.len(),
                dv.len() == n,
                i <= n,
                out.deep_view() + notes_rec(m, self.letters@, dv.skip(i as int)) == notes_rec(
                    m,
                    self.letters@,
                    dv,
                ),
            decreases n - i,
        {
            proof {
                assert(dv.skip(i as int).len() == n - i);
                assert(dv.skip(i as int)[0] == dv[i as int]);
                assert(dv.skip(i as int).drop_first() =~= dv.skip(i as int + 1));
                assert(dv[i as int] == toks@[i as int]@);
            }
            let tok = &toks[i];
            if tok.as_str().unicode_len() > 2 {
                let c = self.correct_word(tok);
                if !(c == *tok) {
                    let mut line = String::new();
                    line.append("s/");
                    line.append(tok.as_str());
                    line.append("/");
                    line.append(c.as_str());
                    proof {
                        assert(line@ =~= note(dv[i as int], c@));
                    }
                    let ghost pre = out.deep_view();
                    out.push(line);
                    proof {
                        assert(out.deep_view() =~= pre.push(
                            note(dv[i as int], correct_spec(m, self.letters@, dv[i as int])),
                        ));
                        assert(out.deep_view() + notes_rec(m, self.letters@, dv.skip(i as int + 1))
                            =~= pre + notes_rec(m, self.letters@, dv.skip(i as int)));
                    }
                }
            }
            i = i + 1;
        }
        proof {
            assert(dv.skip(n as int).len() == 0);
            assert(out.deep_view() + Seq::<Seq<char>>::empty() =~= out.deep_view());
        }
        out
    }

    /// Correct every long-enough token of `text`, returning one
    /// `s/original/corrected` note per changed token, in input order.
    /// The model itself never changes, so repeating the call on the same
    /// text always returns the same notes.
    pub fn correct(&mut self, text: &String) -> (r: Vec<String>)
        requires
            old(self).wf(),
        ensures
            *final(self) == *old(self),
            r.deep_view() == notes_spec(old(self).freq(), old(self).letters@, text@),
    {
        self.correct_notes(text)
    }
}

proof fn lemma_note_tokens_long(
    m: Map<Seq<char>, nat>,
    alpha: Seq<char>,
    toks: Seq<Seq<char>>,
    k: int,
)
    requires
        0 <= k < notes_rec(m, alpha, toks).len(),
    ensures
        exists|t: Seq<char>|
            notes_rec(m, alpha, toks)[k] == note(t, #[trigger] correct_spec(m, alpha, t))
                && t.len() > 2 && correct_spec(m, alpha, t) != t,
    decreases toks.len(),
{
    let t0 = toks[0];
    let rest = notes_rec(m, alpha, toks.drop_first());
    if t0.len() > 2 && correct_spec(m, alpha, t0) != t0 {
        if k == 0 {
            assert(notes_rec(m, alpha, toks)[0] == note(t0, correct_spec(m, alpha, t0)));
        } else {
            lemma_note_tokens_long(m, alpha, toks.drop_first(), k - 1);
            let t = choose|t: Seq<char>|
                rest[k - 1] == note(t, #[trigger] correct_spec(m, alpha, t)) && t.len() > 2
                    && correct_spec(m, alpha, t) != t;
            assert(notes_rec(m, alpha, toks)[k] == rest[k - 1]);
            assert(notes_rec(m, alpha, toks)[k] == note(t, correct_spec(m, alpha, t)));
        }
    } else {
        lemma_note_tokens_long(m, alpha, toks.drop_first(), k);
    }
}

/// Short tokens are never corrected: every note of `notes_spec` records a
/// token longer than two characters, together with its differing correction.
pub proof fn lemma_short_tokens_excluded(
    m: Map<Seq<char>, nat>,
    alpha: Seq<char>,
    text: Seq<char>,
    k: int,
)
    requires
        0 <= k < notes_spec(m, alpha, text).len(),
    ensures
        exists|t: Seq<char>|
            notes_spec(m, alpha, text)[k] == note(t, #[trigger] correct_spec(m, alpha, t))
                && t.len() > 2 && correct_spec(m, alpha, t) != t,
{
    lemma_note_tokens_long(m, alpha, tokens_ws(text), k);
}

proof fn lemma_unchanged_tokens_no_notes(
    m: Map<Seq<char>, nat>,
    alpha: Seq<char>,
    toks: Seq<Seq<char>>,
)
    requires
        forall|j: int| 0 <= j < toks.len() ==> correct_spec(m, alpha, #[trigger] toks[j]) == toks[j],
    ensures
        notes_rec(m, alpha, toks) == Seq::<Seq<char>>::empty(),
    decreases toks.len(),
{
    if toks.len() == 0 {
    } else {
        assert(forall|j: int|
            0 <= j < toks.drop_first().len() ==> #[trigger] toks.drop_first()[j] == toks[j + 1]);
        lemma_unchanged_tokens_no_notes(m, alpha, toks.drop_first());
        assert(correct_spec(m, alpha, toks[0]) == toks[0]);
    }
}

/// Correction is idempotent on an already-correct text: when no token of
/// the text is changed by correction — in particular when every long token
/// is a known word — the note list is empty, and since the model never
/// changes, correcting the same text again yields the empty list again.
pub proof fn lemma_already_correct_no_notes(
    m: Map<Seq<char>, nat>,
    alpha: Seq<char>,
    text: Seq<char>,
)
    requires
        forall|j: int|
            0 <= j < tokens_ws(text).len() ==> correct_spec(m, alpha, #[trigger] tokens_ws(text)[j])
                == tokens_ws(text)[j],
    ensures
        notes_spec(m, alpha, text) == Seq::<Seq<char>>::empty(),
{
    lemma_unchanged_tokens_no_notes(m, alpha, tokens_ws(text));
}

/// A known word is always kept as it is by correction.
pub proof fn lemma_known_word_unchanged(m: Map<Seq<char>, nat>, alpha: Seq<char>, w: Seq<char>)
    requires
        m.contains_key(w),
    ensures
        correct_spec(m, alpha, w) == w,
{
}

} // verus!
