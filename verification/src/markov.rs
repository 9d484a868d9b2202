//! The Markov-chain text generator's pure core: training a chain on lines
//! of text, and walking it. Reading the message dump, caching the chain on
//! disk, and posting the generated text stay with the command layer, which
//! hands lines in and takes the generated string back.
//!
//! A chain maps each run of `key_size` consecutive words to the words seen
//! right after that run; the first run of every line is a possible start.
//! The map is held as an association list with unique keys, looked up by
//! first match.

use vstd::prelude::*;
use vstd::string::StrSliceExecFns;
use vstd::string::StringExecFns;

use crate::render::push_char;
use crate::rng::random_below;

verus! {

/// Whether a character separates words. Relies on `char::is_whitespace`,
/// whose result depends on the character alone; that a plain space
/// separates is all the chain itself needs.
pub uninterp spec fn white(c: char) -> bool;

/// Relies on `char::is_whitespace`: the Unicode white-space test, of which
/// the documentation plainly says that a space is white space.
#[verifier::external_body]
fn is_white(c: char) -> (r: bool)
    ensures
        r == white(c),
        c == ' ' ==> r,
{
    c.is_whitespace()
}

/// The views of owned words.
pub open spec fn strs(v: Seq<String>) -> Seq<Seq<char>> {
    v.map_values(|s: String| s@)
}

/// The words of a line: its maximal runs of non-white characters, in order.
pub open spec fn words_of(s: Seq<char>) -> Seq<Seq<char>>
    decreases s.len(),
{
    if s.len() == 0 {
        Seq::empty()
    } else {
        let prev = words_of(s.drop_last());
        let c = s.last();
        if white(c) {
            prev
        } else if s.len() >= 2 && !white(s[s.len() - 2]) {
            prev.update(prev.len() - 1, prev.last().push(c))
        } else {
            prev.push(seq![c])
        }
    }
}

/// Words joined with single spaces.
pub open spec fn joined(ws: Seq<Seq<char>>) -> Seq<char>
    decreases ws.len(),
{
    if ws.len() == 0 {
        Seq::empty()
    } else if ws.len() == 1 {
        ws[0]
    } else {
        joined(ws.drop_last()) + seq![' '] + ws.last()
    }
}

/// Where a key stands in the chain's association list: the first index, or
/// -1 when it is absent.
pub open spec fn key_index(data: Seq<(Seq<Seq<char>>, Seq<Seq<char>>)>, key: Seq<Seq<char>>) -> int
    decreases data.len(),
{
    if data.len() == 0 {
        -1
    } else if data[0].0 == key {
        0
    } else {
        let rest = key_index(data.drop_first(), key);
        if rest < 0 {
            -1
        } else {
            rest + 1
        }
    }
}

/// The words recorded after a key, if the key was ever seen.
pub open spec fn lookup_spec(
    data: Seq<(Seq<Seq<char>>, Seq<Seq<char>>)>,
    key: Seq<Seq<char>>,
) -> Option<Seq<Seq<char>>> {
    let i = key_index(data, key);
    if i < 0 {
        None
    } else {
        Some(data[i].1)
    }
}

/// The list after recording that `value` followed `key`: the value joins
/// the key's entry, or opens one at the end.
pub open spec fn add_follow_spec(
    data: Seq<(Seq<Seq<char>>, Seq<Seq<char>>)>,
    key: Seq<Seq<char>>,
    value: Seq<char>,
) -> Seq<(Seq<Seq<char>>, Seq<Seq<char>>)> {
    let i = key_index(data, key);
    if i < 0 {
        data.push((key, seq![value]))
    } else {
        data.update(i, (key, data[i].1.push(value)))
    }
}

/// The list after training the first `n` key positions of one line's words.
pub open spec fn trained(
    data: Seq<(Seq<Seq<char>>, Seq<Seq<char>>)>,
    ws: Seq<Seq<char>>,
    ks: nat,
    n: int,
) -> Seq<(Seq<Seq<char>>, Seq<Seq<char>>)>
    decreases n,
{
    if n <= 0 {
        data
    } else {
        add_follow_spec(trained(data, ws, ks, n - 1), ws.subrange(n - 1, n - 1 + ks), ws[n - 1 + ks])
    }
}

/// A chain state after one line: the data trained on the line's words, and
/// the opening run recorded when the line offered one.
pub open spec fn trained_line(
    data: Seq<(Seq<Seq<char>>, Seq<Seq<char>>)>,
    starts: Seq<Seq<Seq<char>>>,
    ws: Seq<Seq<char>>,
    ks: nat,
) -> (Seq<(Seq<Seq<char>>, Seq<Seq<char>>)>, Seq<Seq<Seq<char>>>) {
    (
        trained(data, ws, ks, key_positions(ws.len(), ks)),
        if key_positions(ws.len(), ks) > 0 {
            starts.push(ws.take(ks as int))
        } else {
            starts
        },
    )
}

/// A chain state after a whole message dump, line by line.
pub open spec fn trained_lines(
    data: Seq<(Seq<Seq<char>>, Seq<Seq<char>>)>,
    starts: Seq<Seq<Seq<char>>>,
    lines: Seq<Seq<char>>,
    ks: nat,
) -> (Seq<(Seq<Seq<char>>, Seq<Seq<char>>)>, Seq<Seq<Seq<char>>>)
    decreases lines.len(),
{
    if lines.len() == 0 {
        (data, starts)
    } else {
        let prev = trained_lines(data, starts, lines.drop_last(), ks);
        trained_line(prev.0, prev.1, words_of(lines.last()), ks)
    }
}

/// How many key positions one line of `len` words offers.
pub open spec fn key_positions(len: nat, ks: nat) -> int {
    if len > ks {
        len - ks
    } else {
        0
    }
}

/// A Markov chain over words.
pub struct Markov {
    data: Vec<(Vec<String>, Vec<String>)>,
    start_keys: Vec<Vec<String>>,
    key_size: u8,
}

/// The longest generated text, in words.
pub const MAX_GENERATED_WORDS: usize = 1600;

impl Markov {
    /// The key length, for contracts.
    pub closed spec fn key_size_spec(&self) -> nat {
        self.key_size as nat
    }

    /// The chain's contents, for contracts.
    pub closed spec fn data_spec(&self) -> Seq<(Seq<Seq<char>>, Seq<Seq<char>>)> {
        self.data@.map_values(|p: (Vec<String>, Vec<String>)| (strs(p.0@), strs(p.1@)))
    }

    /// The possible opening runs, for contracts.
    pub closed spec fn start_keys_spec(&self) -> Seq<Seq<Seq<char>>> {
        self.start_keys@.map_values(|k: Vec<String>| strs(k@))
    }

    /// Every recorded key leads somewhere: its list of followers is never
    /// empty. Training keeps this, and the walk relies on it.
    pub open spec fn wf(&self) -> bool {
        forall|j: int| 0 <= j < self.data_spec().len() ==> (#[trigger] self.data_spec()[j]).1.len()
            >= 1
    }

    /// An untrained chain with runs of `key_size` words as keys.
    pub fn new(key_size: u8) -> (m: Markov)
        ensures
            m.key_size_spec() == key_size as nat,
            m.data_spec() == Seq::<(Seq<Seq<char>>, Seq<Seq<char>>)>::empty(),
            m.start_keys_spec() == Seq::<Seq<Seq<char>>>::empty(),
            m.wf(),
    {
        let m = Markov { data: Vec::new(), start_keys: Vec::new(), key_size };
        proof {
            assert(m.data_spec() =~= Seq::<(Seq<Seq<char>>, Seq<Seq<char>>)>::empty());
            assert(m.start_keys_spec() =~= Seq::<Seq<Seq<char>>>::empty());
        }
        m
    }

    /// The words recorded after `key`, as [`lookup_spec`] says.
    #[verifier::loop_isolation(false)]
    pub fn continuations(&self, key: &Vec<String>) -> (r: Option<&Vec<String>>)
        ensures
            match r {
                Some(vals) => lookup_spec(self.data_spec(), strs(key@)) == Some(strs(vals@)) && (
                self.wf() ==> vals@.len() >= 1),
                None => lookup_spec(self.data_spec(), strs(key@)) is None,
            },
    {
        let mut j: usize = 0;
        while j < self.data.len()
            invariant
                j <= self.data@.len(),
                forall|l: int| 0 <= l < j ==> #[trigger] self.data_spec()[l].0 != strs(key@),
            decreases self.data@.len() - j,
        {
            if words_eq(&self.data[j].0, &key) {
                proof {
                    lemma_key_index_found(self.data_spec(), strs(key@), j as int);
                }
                return Some(&self.data[j].1);
            }
            j = j + 1;
        }
        proof {
            lemma_key_index_found(self.data_spec(), strs(key@), self.data@.len() as int);
        }
        None
    }

    /// Records that `value` followed `key`, as [`add_follow_spec`] says.
    #[verifier::loop_isolation(false)]
    fn add_follow(&mut self, key: Vec<String>, value: String)
        ensures
            final(self).data_spec() == add_follow_spec(
                old(self).data_spec(),
                strs(key@),
                value@,
            ),
            final(self).start_keys_spec() == old(self).start_keys_spec(),
            final(self).key_size_spec() == old(self).key_size_spec(),
            old(self).wf() ==> final(self).wf(),
    {
        let ghost gdata = self.data_spec();
        let mut j: usize = 0;
        while j < self.data.len()
            invariant
                j <= self.data@.len(),
                gdata == self.data_spec(),
                self.start_keys_spec() == old(self).start_keys_spec(),
                self.key_size_spec() == old(self).key_size_spec(),
                forall|l: int| 0 <= l < j ==> #[trigger] self.data_spec()[l].0 != strs(key@),
            decreases self.data@.len() - j,
        {
            if words_eq(&self.data[j].0, &key) {
                proof {
                    lemma_key_index_found(gdata, strs(key@), j as int);
                }
                let mut pair = self.data.remove(j);
                pair.1.push(value);
                self.data.insert(j, pair);
                proof {
                    assert(self.data_spec() =~~= add_follow_spec(gdata, strs(key@), value@));
                    if old(self).wf() {
                        assert forall|l: int| 0 <= l < self.data_spec().len() implies (
                        #[trigger] self.data_spec()[l]).1.len() >= 1 by {
                            if l != j {
                                assert(self.data_spec()[l] == gdata[l]);
                            }
                        }
                    }
                }
                return ;
            }
            j = j + 1;
        }
        proof {
            lemma_key_index_found(gdata, strs(key@), self.data@.len() as int);
        }
        let entry = vec_of_one(value);
        self.data.push((key, entry));
        proof {
            assert(self.data_spec() =~= add_follow_spec(gdata, strs(key@), value@));
            if old(self).wf() {
                assert forall|l: int| 0 <= l < self.data_spec().len() implies (
                #[trigger] self.data_spec()[l]).1.len() >= 1 by {
                    if l < self.data_spec().len() - 1 {
                        assert(self.data_spec()[l] == gdata[l]);
                    }
                }
            }
        }
    }

    /// Trains the chain on one line's words: every run of `key_size` words
    /// is recorded as preceding the word after it, and the line's opening
    /// run joins the possible starts; a line too short for one run teaches
    /// nothing.
    #[verifier::loop_isolation(false)]
    pub fn train_words(&mut self, words: &Vec<String>)
        ensures
            final(self).data_spec() == trained(
                old(self).data_spec(),
                strs(words@),
                old(self).key_size_spec(),
                key_positions(words@.len(), old(self).key_size_spec()),
            ),
            final(self).start_keys_spec() == if key_positions(
                words@.len(),
                old(self).key_size_spec(),
            ) > 0 {
                old(self).start_keys_spec().push(
                    strs(words@).take(old(self).key_size_spec() as int),
                )
            } else {
                old(self).start_keys_spec()
            },
            final(self).key_size_spec() == old(self).key_size_spec(),
            old(self).wf() ==> final(self).wf(),
    {
        let ghost gdata = self.data_spec();
        let ghost gstarts = self.start_keys_spec();
        let ghost ws = strs(words@);
        let ks = self.key_size as usize;
        if words.len() <= ks {
            return ;
        }
        let count = words.len() - ks;
        let mut i: usize = 0;
        while i < count
            invariant
                count == key_positions(ws.len(), self.key_size_spec()),
                ks == self.key_size_spec(),
                ks < words@.len(),
                count == words@.len() - ks,
                i <= count,
                ws == strs(words@),
                self.data_spec() == trained(gdata, ws, self.key_size_spec(), i as int),
                self.start_keys_spec() == if i > 0 {
                    gstarts.push(ws.take(ks as int))
                } else {
                    gstarts
                },
                self.key_size_spec() == old(self).key_size_spec(),
                old(self).wf() ==> self.wf(),
            decreases count - i,
        {
            let mut key: Vec<String> = Vec::new();
            let mut t: usize = i;
            while t < i + ks
                invariant
                    i <= t <= i + ks,
                    i + ks < words@.len(),
                    ws == strs(words@),
                    strs(key@) =~= ws.subrange(i as int, t as int),
                decreases i + ks - t,
            {
                key.push(words[t].clone());
                proof {
                    assert(strs(key@) =~= ws.subrange(i as int, t + 1));
                }
                t = t + 1;
            }
            if i == 0 {
                let start = clone_words(&key);
                self.start_keys.push(start);
                proof {
                    assert(ws.subrange(0, ks as int) =~= ws.take(ks as int));
                    assert(self.start_keys_spec() =~= gstarts.push(ws.take(ks as int)));
                }
            }
            let value = words[i + ks].clone();
            proof {
                assert(strs(key@) =~= ws.subrange(i as int, i + ks));
                assert(value@ == ws[i + ks]);
            }
            self.add_follow(key, value);
            i = i + 1;
        }
    }

    /// Trains the chain on every line of a message dump in turn.
    #[verifier::loop_isolation(false)]
    pub fn train_lines(&mut self, lines: &Vec<String>)
        ensures
            final(self).key_size_spec() == old(self).key_size_spec(),
            old(self).wf() ==> final(self).wf(),
    {
        let mut i: usize = 0;
        while i < lines.len()
            invariant
                self.key_size_spec() == old(self).key_size_spec(),
                old(self).wf() ==> self.wf(),
            decreases lines@.len() - i,
        {
            let words = split_words(lines[i].as_str());
            self.train_words(&words);
            i = i + 1;
        }
    }

    /// How many opening runs the chain knows.
    pub fn start_key_count(&self) -> (r: usize)
        ensures
            r == self.start_keys_spec().len(),
    {
        self.start_keys.len()
    }

    /// Walks the chain from a random start: the text opens with some
    /// possible opening run, and every later word was recorded after the
    /// run of `key_size` words just before it; the walk stops when a run
    /// leads nowhere or the text reaches its cap.
    pub fn generate_string(&self) -> (r: String)
        requires
            self.start_keys_spec().len() > 0,
        ensures
            exists|out: Seq<Seq<char>>| #[trigger] chain_ok(self, out) && r@ == joined(out),
    {
        let pick = random_below(self.start_keys.len());
        let ghost k = pick as int;
        let mut out: Vec<String> = clone_words(&self.start_keys[pick]);
        proof {
            assert(strs(out@) =~= self.start_keys_spec()[k]);
            assert(strs(out@).take(self.start_keys_spec()[k].len() as int) =~= strs(out@));
        }
        loop
            invariant
                self.start_keys_spec().len() > 0,
                0 <= k < self.start_keys_spec().len(),
                strs(out@).len() >= self.start_keys_spec()[k].len(),
                strs(out@).take(self.start_keys_spec()[k].len() as int)
                    == self.start_keys_spec()[k],
                forall|i: int|
                    self.start_keys_spec()[k].len() <= i < strs(out@).len()
                        ==> chain_extends(self, strs(out@).take(i), strs(out@)[i]),
            ensures
                chain_ok(self, strs(out@)),
            decreases MAX_GENERATED_WORDS + 2 - out@.len(),
        {
            if out.len() > MAX_GENERATED_WORDS {
                proof {
                    witness_chain(self, strs(out@), k);
                }
                break ;
            }
            let ks = self.key_size as usize;
            let from = if out.len() > ks {
                out.len() - ks
            } else {
                0
            };
            let key = tail_words(&out, from);
            proof {
                assert(strs(out@).skip(0) =~= strs(out@));
                assert(strs(key@) =~= tail_key(strs(out@), self.key_size_spec()));
            }
            let ghost w_before = strs(out@);
            let word = match self.continuations(&key) {
                Some(vals) => {
                    if vals.len() == 0 {
                        proof {
                            witness_chain(self, strs(out@), k);
                        }
                        break ;
                    }
                    let choice = random_below(vals.len());
                    let picked = vals[choice].clone();
                    proof {
                        assert(strs(vals@)[choice as int] == picked@);
                        assert(strs(vals@).contains(picked@));
                        assert(chain_extends(self, w_before, picked@));
                    }
                    picked
                },
                None => {
                    proof {
                        witness_chain(self, strs(out@), k);
                    }
                    break ;
                },
            };
            out.push(word);
            proof {
                assert(strs(out@).drop_last() =~= w_before);
                assert(strs(out@).last() == word@);
                let klen = self.start_keys_spec()[k].len() as int;
                assert(strs(out@).take(klen) =~= w_before.take(klen));
                assert forall|i: int|
                    self.start_keys_spec()[k].len() <= i < strs(out@).len() implies chain_extends(
                    self,
                    strs(out@).take(i),
                    strs(out@)[i],
                ) by {
                    if i < strs(out@).len() - 1 {
                        assert(strs(out@).take(i) =~= w_before.take(i));
                        assert(strs(out@)[i] == w_before[i]);
                        assert(chain_extends(self, w_before.take(i), w_before[i]));
                    } else {
                        assert(strs(out@).take(i) =~= w_before);
                        assert(strs(out@)[i] == word@);
                    }
                }
            }
        }
        join_words(&out)
    }
}

/// The words of a run from `from` on, as owned copies.
#[verifier::loop_isolation(false)]
fn tail_words(v: &Vec<String>, from: usize) -> (r: Vec<String>)
    requires
        from <= v@.len(),
    ensures
        strs(r@) == strs(v@).skip(from as int),
{
    let mut r: Vec<String> = Vec::new();
    let mut t: usize = from;
    while t < v.len()
        invariant
            from <= t <= v@.len(),
            strs(r@) =~= strs(v@).subrange(from as int, t as int),
        decreases v@.len() - t,
    {
        r.push(v[t].clone());
        proof {
            assert(strs(r@) =~= strs(v@).subrange(from as int, t + 1));
        }
        t = t + 1;
    }
    proof {
        assert(strs(v@).subrange(from as int, v@.len() as int) =~= strs(v@).skip(from as int));
    }
    r
}

/// The run a walk extends from: its last `ks` words, or all of them while
/// fewer are there.
pub open spec fn tail_key(out: Seq<Seq<char>>, ks: nat) -> Seq<Seq<char>> {
    if out.len() > ks {
        out.skip(out.len() - ks)
    } else {
        out
    }
}

/// Whether the chain recorded `w` after the run a walk with `out` so far
/// extends from.
pub open spec fn chain_extends(m: &Markov, out: Seq<Seq<char>>, w: Seq<char>) -> bool {
    match lookup_spec(m.data_spec(), tail_key(out, m.key_size_spec())) {
        Some(vals) => vals.contains(w),
        None => false,
    }
}

/// Whether `out` is a walk of the chain: it opens with some possible
/// opening run, and every later word was recorded after the run before it.
pub open spec fn chain_ok(m: &Markov, out: Seq<Seq<char>>) -> bool {
    exists|k: int|
        0 <= k < m.start_keys_spec().len() && #[trigger] chain_from(m, out, k)
}

/// Whether `out` is a walk of the chain from start `k`.
pub open spec fn chain_from(m: &Markov, out: Seq<Seq<char>>, k: int) -> bool {
    &&& out.len() >= m.start_keys_spec()[k].len()
    &&& out.take(m.start_keys_spec()[k].len() as int) == m.start_keys_spec()[k]
    &&& forall|i: int|
        m.start_keys_spec()[k].len() <= i < out.len() ==> chain_extends(m, out.take(i), out[i])
}

/// Brings a concrete walk under the existential of [`chain_ok`].
proof fn witness_chain(m: &Markov, out: Seq<Seq<char>>, k: int)
    requires
        0 <= k < m.start_keys_spec().len(),
        chain_from(m, out, k),
    ensures
        chain_ok(m, out),
{
}

/// A vector of one word.
fn vec_of_one(value: String) -> (r: Vec<String>)
    ensures
        strs(r@) =~= seq![value@],
{
    let mut r: Vec<String> = Vec::new();
    r.push(value);
    r
}

/// An owned copy of a run of words.
#[verifier::loop_isolation(false)]
fn clone_words(v: &Vec<String>) -> (r: Vec<String>)
    ensures
        strs(r@) == strs(v@),
{
    let mut r: Vec<String> = Vec::new();
    let mut i: usize = 0;
    while i < v.len()
        invariant
            i <= v@.len(),
            strs(r@) =~= strs(v@).take(i as int),
        decreases v@.len() - i,
    {
        r.push(v[i].clone());
        proof {
            assert(strs(r@) =~= strs(v@).take(i + 1));
        }
        i = i + 1;
    }
    proof {
        assert(strs(v@).take(v@.len() as int) =~= strs(v@));
    }
    r
}

/// Whether two runs hold the same words.
#[verifier::loop_isolation(false)]
fn words_eq(a: &Vec<String>, b: &Vec<String>) -> (r: bool)
    ensures
        r == (strs(a@) == strs(b@)),
{
    if a.len() != b.len() {
        proof {
            assert(strs(a@).len() != strs(b@).len());
        }
        return false;
    }
    let mut i: usize = 0;
    while i < a.len()
        invariant
            a@.len() == b@.len(),
            i <= a@.len(),
            forall|j: int| 0 <= j < i ==> #[trigger] strs(a@)[j] == strs(b@)[j],
        decreases a@.len() - i,
    {
        if !(a[i] == b[i]) {
            proof {
                assert(strs(a@)[i as int] != strs(b@)[i as int]);
            }
            return false;
        }
        i = i + 1;
    }
    proof {
        assert(strs(a@) =~= strs(b@));
    }
    true
}

/// A key absent from the first `j` entries and matching at `j` (or absent
/// everywhere when `j` passes the end) has exactly that index.
proof fn lemma_key_index_found(
    data: Seq<(Seq<Seq<char>>, Seq<Seq<char>>)>,
    key: Seq<Seq<char>>,
    j: int,
)
    requires
        0 <= j <= data.len(),
        forall|l: int| 0 <= l < j ==> #[trigger] data[l].0 != key,
        j == data.len() || data[j].0 == key,
    ensures
        key_index(data, key) == if j == data.len() {
            -1
        } else {
            j
        },
    decreases j, data.len(),
{
    if data.len() == 0 {
    } else if j == 0 {
        if data.len() == 0 {
        }
    } else {
        assert(data[0].0 != key);
        assert forall|l: int| 0 <= l < j - 1 implies #[trigger] data.drop_first()[l].0 != key by {
            assert(data.drop_first()[l] == data[l + 1]);
        }
        if j < data.len() {
            assert(data.drop_first()[j - 1].0 == key);
        }
        lemma_key_index_found(data.drop_first(), key, j - 1);
    }
}

/// Splits a line into its words, as [`words_of`] says: maximal runs of
/// non-white characters, in order.
#[verifier::loop_isolation(false)]
pub fn split_words(line: &str) -> (r: Vec<String>)
    ensures
        strs(r@) == words_of(line@),
{
    let n: usize = line.unicode_len();
    let mut r: Vec<String> = Vec::new();
    let mut i: usize = 0;
    let mut last_white: bool = true;
    while i < n
        invariant
            n == line@.len(),
            i <= n,
            strs(r@) =~= words_of(line@.take(i as int)),
            last_white == (i == 0 || white(line@[i as int - 1])),
        decreases n - i,
    {
        let c = line.get_char(i);
        proof {
            assert(line@.take(i + 1).drop_last() =~= line@.take(i as int));
            assert(line@.take(i + 1).last() == c);
        }
        if is_white(c) {
            last_white = true;
        } else {
            if last_white {
                let mut w = String::new();
                push_char(&mut w, c);
                r.push(w);
                proof {
                    assert(Seq::<char>::empty().push(c) =~= seq![c]);
                    assert(strs(r@) =~= words_of(line@.take(i + 1)));
                }
            } else {
                proof {
                    lemma_words_of_nonempty(line@.take(i as int));
                }
                let ghost before = strs(r@);
                let mut w = r.pop().unwrap();
                push_char(&mut w, c);
                r.push(w);
                proof {
                    assert(strs(r@) =~= before.update(
                        before.len() - 1,
                        before.last().push(c),
                    ));
                    assert(strs(r@) =~= words_of(line@.take(i + 1)));
                }
            }
            last_white = false;
        }
        i = i + 1;
    }
    proof {
        assert(line@.take(n as int) =~= line@);
    }
    r
}

/// A line whose last character is not white ends inside a word.
proof fn lemma_words_of_nonempty(s: Seq<char>)
    requires
        s.len() > 0,
        !white(s.last()),
    ensures
        words_of(s).len() >= 1,
    decreases s.len(),
{
    if s.len() >= 2 && !white(s[s.len() - 2]) {
        lemma_words_of_nonempty(s.drop_last());
    }
}

/// Joins words with single spaces, as [`joined`] says.
#[verifier::loop_isolation(false)]
pub fn join_words(ws: &Vec<String>) -> (r: String)
    ensures
        r@ == joined(strs(ws@)),
{
    let mut r = String::new();
    proof {
        reveal_strlit(" ");
    }
    let mut i: usize = 0;
    while i < ws.len()
        invariant
            i <= ws@.len(),
            r@ == joined(strs(ws@).take(i as int)),
        decreases ws@.len() - i,
    {
        if i > 0 {
            r.append(" ");
        }
        r.append(ws[i].as_str());
        proof {
            let w = strs(ws@);
            assert(w.take(i + 1).drop_last() =~= w.take(i as int));
            assert(w.take(i + 1).last() == w[i as int]);
            if i == 0 {
                assert(w.take(1)[0] == w[0]);
                assert(r@ =~= joined(w.take(1)));
            } else {
                assert(r@ =~= joined(w.take(i + 1)));
            }
        }
        i = i + 1;
    }
    proof {
        assert(strs(ws@).take(ws@.len() as int) =~= strs(ws@));
    }
    r
}

} // verus!
