use vstd::prelude::*;
use crate::extractor::{Function, views};
use crate::text::{
    char_is_alphanumeric, char_is_lowercase, char_is_uppercase, char_to_lowercase, has_sub, is_alnum,
    is_lower, is_upper, lower_of, str_eq, str_lower, string_of_chars, string_to_lowercase, to_chars,
    contains_chars,
};

verus! {

// ---------------------------------------------------------------------------
// Splitting names and questions into lowercase words.
// ---------------------------------------------------------------------------

/// Where the word splitter stands after reading some characters.
pub ghost struct TokState {
    /// The words finished so far.
    pub words: Seq<Seq<char>>,
    /// The word being read.
    pub cur: Seq<char>,
    /// The last character read was a lowercase letter.
    pub prev_lower: bool,
}

/// The splitter after reading one more character: a letter or digit extends the current
/// word (an uppercase letter after a lowercase one starts a new word); anything else ends it.
pub open spec fn tok_step(st: TokState, ch: char) -> TokState {
    if is_alnum(ch) {
        let split = is_upper(ch) && st.prev_lower && st.cur.len() > 0;
        let words = if split { st.words.push(st.cur) } else { st.words };
        let cur = if split { Seq::<char>::empty() } else { st.cur };
        TokState { words, cur: cur + lower_of(ch), prev_lower: is_lower(ch) }
    } else {
        TokState {
            words: if st.cur.len() > 0 { st.words.push(st.cur) } else { st.words },
            cur: Seq::<char>::empty(),
            prev_lower: false,
        }
    }
}

/// The splitter after reading all of `s`.
pub open spec fn tok_run(s: Seq<char>) -> TokState
    decreases s.len(),
{
    if s.len() == 0 {
        TokState { words: Seq::empty(), cur: Seq::empty(), prev_lower: false }
    } else {
        tok_step(tok_run(s.drop_last()), s.last())
    }
}

/// The lowercase words of `s`: `snake_case` and `CamelCase` parts split apart.
pub open spec fn tokens(s: Seq<char>) -> Seq<Seq<char>> {
    let st = tok_run(s);
    if st.cur.len() > 0 {
        st.words.push(st.cur)
    } else {
        st.words
    }
}

/// Splits `s` into lowercase words: runs of letters and digits, with a new word starting at
/// an uppercase letter that follows a lowercase one.
pub fn tokenize(s: &str) -> (words: Vec<String>)
    ensures
        views(words@) == tokens(s@),
{
    let cs = to_chars(s);
    let mut words: Vec<String> = Vec::new();
    let mut cur: Vec<char> = Vec::new();
    let mut prev_lower = false;
    let mut i: usize = 0;
    assert(cs@.take(0) =~= Seq::<char>::empty());
    assert(views(words@) =~= Seq::<Seq<char>>::empty());
    assert(cur@ =~= Seq::<char>::empty());
    while i < cs.len()
        invariant
            cs@ == s@,
            0 <= i <= cs@.len(),
            tok_run(cs@.take(i as int)) == (TokState { words: views(words@), cur: cur@, prev_lower }),
        decreases cs@.len() - i,
    {
        let ch = cs[i];
        assert(cs@.take(i + 1).drop_last() =~= cs@.take(i as int));
        let ghost st = tok_run(cs@.take(i as int));
        if char_is_alphanumeric(ch) {
            if char_is_uppercase(ch) && prev_lower && cur.len() > 0 {
                let w = string_of_chars(&cur);
                words.push(w);
                assert(views(words@) =~= st.words.push(st.cur));
                cur = Vec::new();
            }
            prev_lower = char_is_lowercase(ch);
            let mut low = char_to_lowercase(ch);
            cur.append(&mut low);
        } else {
            if cur.len() > 0 {
                let w = string_of_chars(&cur);
                words.push(w);
                assert(views(words@) =~= st.words.push(st.cur));
                cur = Vec::new();
            }
            prev_lower = false;
        }
        i = i + 1;
        assert(tok_run(cs@.take(i as int)) == tok_step(st, ch));
        assert(cur@ =~= tok_step(st, ch).cur);
    }
    assert(cs@.take(cs@.len() as int) =~= cs@);
    if cur.len() > 0 {
        let w = string_of_chars(&cur);
        let ghost before = views(words@);
        words.push(w);
        assert(views(words@) =~= before.push(cur@));
    }
    words
}

// ---------------------------------------------------------------------------
// Scoring a function against the words of a question.
// ---------------------------------------------------------------------------

/// Trait method names that carry no meaning for a search.
pub open spec fn noise_name(s: Seq<char>) -> bool {
    ||| s == "fmt"@
    ||| s == "clone"@
    ||| s == "eq"@
    ||| s == "hash"@
    ||| s == "drop"@
    ||| s == "default"@
    ||| s == "from"@
    ||| s == "as_ref"@
    ||| s == "borrow"@
}

/// Whether `name` is one of the trait method names that carry no meaning for a search.
pub fn is_noise(name: &str) -> (res: bool)
    ensures
        res == noise_name(name@),
{
    str_eq(name, "fmt") || str_eq(name, "clone") || str_eq(name, "eq") || str_eq(name, "hash")
        || str_eq(name, "drop") || str_eq(name, "default") || str_eq(name, "from") || str_eq(
        name,
        "as_ref",
    ) || str_eq(name, "borrow")
}

/// Some word of `ws` contains `w`.
pub open spec fn partly_in(ws: Seq<Seq<char>>, w: Seq<char>) -> bool {
    exists|k: int| 0 <= k < ws.len() && has_sub(#[trigger] ws[k], w)
}

/// What one question word earns, in half points: 4 points when it is a word of the
/// function's name (2 when it is only part of one), 1 when it is a word of the owner's name,
/// and 0.5 when the lowercased source text contains it.
pub open spec fn word_points(name_words: Seq<Seq<char>>, owner_words: Seq<Seq<char>>, body: Seq<char>, w: Seq<char>) -> nat {
    (if name_words.contains(w) {
        8nat
    } else if partly_in(name_words, w) {
        4nat
    } else {
        0nat
    }) + (if owner_words.contains(w) {
        2nat
    } else {
        0nat
    }) + (if has_sub(body, w) {
        1nat
    } else {
        0nat
    })
}

/// The half points of the first `n` question words.
pub open spec fn points_upto(name_words: Seq<Seq<char>>, owner_words: Seq<Seq<char>>, body: Seq<char>, q: Seq<Seq<char>>, n: int) -> nat
    decreases n,
{
    if n <= 0 {
        0
    } else {
        points_upto(name_words, owner_words, body, q, n - 1) + word_points(name_words, owner_words, body, q[n - 1])
    }
}

/// The words of a function's owner, none when it has no owner.
pub open spec fn owner_tokens(f: Function) -> Seq<Seq<char>> {
    match f.owner {
        Some(o) => tokens(o@),
        None => Seq::empty(),
    }
}

/// The half points a function earns for the question words `q`.
pub open spec fn raw_points(f: Function, q: Seq<Seq<char>>) -> nat {
    points_upto(tokens(f.name@), owner_tokens(f), str_lower(f.body@), q, q.len() as int)
}

/// The power of two by which a number must be scaled down to fit 24 significant bits.
pub open spec fn f32_scale(n: nat) -> nat
    decreases n,
{
    if n < 0x1000000 {
        1
    } else {
        2 * f32_scale(n / 2)
    }
}

/// `n` rounded to 24 significant bits, ties to even: the rounding of `f32` arithmetic.
pub open spec fn f32_round(n: nat) -> nat {
    let u = f32_scale(n);
    let q = n / u;
    let r = n % u;
    (if 2 * r > u || (2 * r == u && q % 2 == 1) {
        q + 1
    } else {
        q
    }) * u
}

/// The `f32` value nearest 0.3, in units of 2^-25.
pub open spec fn three_tenths() -> nat {
    10066330
}

/// A function's score for the question words `q`, in units of 2^-26 points: its half
/// points, or, for a function named like a common trait method, those half points times
/// the `f32` nearest 0.3, rounded as `f32` multiplication rounds.
pub open spec fn score(f: Function, q: Seq<Seq<char>>) -> nat {
    if noise_name(f.name@) {
        f32_round(three_tenths() * raw_points(f, q))
    } else {
        raw_points(f, q) * 0x2000000
    }
}

/// Rounds `n` to 24 significant bits, ties to even.
pub fn round_f32(n: u128) -> (res: u128)
    requires
        n < 0x1000_0000_0000_0000_0000_0000,
    ensures
        res == f32_round(n as nat),
{
    let mut m: u128 = n;
    let mut u: u128 = 1;
    while m >= 0x1000000
        invariant
            1 <= u,
            m == n as nat / u as nat,
            f32_scale(n as nat) == u * f32_scale(m as nat),
            n < 0x1000_0000_0000_0000_0000_0000,
            u <= n || u == 1,
        decreases m,
    {
        proof {
            vstd::arithmetic::div_mod::lemma_div_denominator(n as int, u as int, 2);
            assert(f32_scale(m as nat) == 2 * f32_scale((m / 2) as nat));
            assert(u * f32_scale(m as nat) == (2 * u) * f32_scale((m / 2) as nat)) by (nonlinear_arith)
                requires
                    f32_scale(m as nat) == 2 * f32_scale((m / 2) as nat),
            ;
            vstd::arithmetic::div_mod::lemma_fundamental_div_mod(n as int, u as int);
            assert(u * m <= n) by (nonlinear_arith)
                requires
                    n as int == u * (n as int / u as int) + n as int % u as int,
                    m == n as int / u as int,
                    0 <= n as int % u as int,
            ;
            assert(2 * u <= n) by (nonlinear_arith)
                requires
                    u * m <= n,
                    m >= 0x1000000,
                    u >= 1,
            ;
        }
        m = m / 2;
        u = u * 2;
    }
    assert(f32_scale(m as nat) == 1);
    assert(u == f32_scale(n as nat)) by (nonlinear_arith)
        requires
            f32_scale(m as nat) == 1,
            f32_scale(n as nat) == u * f32_scale(m as nat),
    ;
    let q = n / u;
    let r = n % u;
    let up = 2 * r > u || (2 * r == u && q % 2 == 1);
    let qq = if up { q + 1 } else { q };
    proof {
        vstd::arithmetic::div_mod::lemma_fundamental_div_mod(n as int, u as int);
        assert(qq * u <= n + u) by (nonlinear_arith)
            requires
                n as int == u * (n as int / u as int) + n as int % u as int,
                q == n as int / u as int,
                0 <= n as int % u as int,
                qq <= q + 1,
        ;
    }
    qq * u
}

/// Whether some word of `ws` is exactly `w`.
fn word_in(ws: &Vec<String>, w: &String) -> (res: bool)
    ensures
        res == views(ws@).contains(w@),
{
    let mut i: usize = 0;
    while i < ws.len()
        invariant
            0 <= i <= ws@.len(),
            forall|j: int| 0 <= j < i ==> views(ws@)[j] != w@,
        decreases ws@.len() - i,
    {
        if str_eq(ws[i].as_str(), w.as_str()) {
            assert(views(ws@)[i as int] == w@);
            return true;
        }
        i = i + 1;
    }
    assert(!views(ws@).contains(w@)) by {
        if views(ws@).contains(w@) {
            let k = choose|k: int| 0 <= k < views(ws@).len() && views(ws@)[k] == w@;
            assert(views(ws@)[k] != w@);
        }
    }
    false
}

/// Whether some word of `ws` contains `w`.
fn word_part_in(ws: &Vec<String>, w: &Vec<char>) -> (res: bool)
    ensures
        res == partly_in(views(ws@), w@),
{
    let mut i: usize = 0;
    while i < ws.len()
        invariant
            0 <= i <= ws@.len(),
            forall|j: int| 0 <= j < i ==> !has_sub(#[trigger] views(ws@)[j], w@),
        decreases ws@.len() - i,
    {
        let cs = to_chars(ws[i].as_str());
        if contains_chars(&cs, w) {
            assert(has_sub(views(ws@)[i as int], w@));
            return true;
        }
        i = i + 1;
    }
    false
}

/// The score of `f` for the question words `q` (given also as characters in `qc`).
pub fn score_function(f: &Function, q: &Vec<String>, qc: &Vec<Vec<char>>) -> (res: u128)
    requires
        qc@.len() == q@.len(),
        forall|k: int| 0 <= k < q@.len() ==> (#[trigger] qc@[k])@ == q@[k]@,
    ensures
        res == score(*f, views(q@)),
{
    let name_words = tokenize(f.name.as_str());
    let owner_words = match &f.owner {
        Some(o) => tokenize(o.as_str()),
        None => {
            let v: Vec<String> = Vec::new();
            assert(views(v@) =~= Seq::<Seq<char>>::empty());
            v
        },
    };
    let body = to_chars(string_to_lowercase(f.body.as_str()).as_str());
    let ghost nw = views(name_words@);
    let ghost ow = views(owner_words@);
    let ghost qv = views(q@);
    let mut total: u128 = 0;
    let mut i: usize = 0;
    while i < q.len()
        invariant
            qc@.len() == q@.len(),
            forall|k: int| 0 <= k < q@.len() ==> (#[trigger] qc@[k])@ == q@[k]@,
            qv == views(q@),
            nw == views(name_words@),
            ow == views(owner_words@),
            0 <= i <= q@.len(),
            total == points_upto(nw, ow, body@, qv, i as int),
            total <= 11 * i,
        decreases q@.len() - i,
    {
        let w = &q[i];
        let mut p: u128 = 0;
        if word_in(&name_words, w) {
            p = 8;
        } else if word_part_in(&name_words, &qc[i]) {
            p = 4;
        }
        if word_in(&owner_words, w) {
            p = p + 2;
        }
        if contains_chars(&body, &qc[i]) {
            p = p + 1;
        }
        assert(p == word_points(nw, ow, body@, qv[i as int]));
        total = total + p;
        i = i + 1;
    }
    if is_noise(f.name.as_str()) {
        round_f32(10066330 * total)
    } else {
        total * 0x2000000
    }
}

// ---------------------------------------------------------------------------
// Ranking.
// ---------------------------------------------------------------------------

/// A search result: a function and its score, in units of 2^-26 points (the `f32` score
/// of the function, exactly).
pub struct Hit<'a> {
    pub func: &'a Function,
    pub score: u128,
}

/// The scores of all functions for the question words `q`.
pub open spec fn scores(funcs: Seq<Function>, q: Seq<Seq<char>>) -> Seq<int> {
    Seq::new(funcs.len(), |i: int| score(funcs[i], q) as int)
}

/// Position `i` ranks before position `j`: a higher score, or the same score and an earlier
/// position.
pub open spec fn outranks(sc: Seq<int>, i: int, j: int) -> bool {
    sc[i] > sc[j] || (sc[i] == sc[j] && i < j)
}

/// `r` lists the best positions of `sc` with a positive score, best first, at most `limit`
/// of them: every positive position left out is outranked by all that are listed, and is
/// left out only when `limit` positions are listed.
pub open spec fn is_ranking(sc: Seq<int>, limit: int, r: Seq<int>) -> bool {
    &&& r.len() <= limit
    &&& forall|k: int| 0 <= k < r.len() ==> 0 <= #[trigger] r[k] < sc.len() && sc[r[k]] > 0
    &&& forall|k: int, l: int| 0 <= k < l < r.len() ==> outranks(sc, #[trigger] r[k], #[trigger] r[l])
    &&& forall|i: int|
        0 <= i < sc.len() && sc[i] > 0 && !r.contains(i) ==> r.len() == limit && forall|k: int|
            0 <= k < r.len() ==> outranks(sc, #[trigger] r[k], i)
}

/// Two functions of the same score rank by position only; no position outranks itself.
pub proof fn lemma_outranks_strict(sc: Seq<int>, i: int, j: int)
    ensures
        !outranks(sc, i, i),
        outranks(sc, i, j) ==> !outranks(sc, j, i),
        i != j ==> outranks(sc, i, j) || outranks(sc, j, i),
{
}

/// `hits` are the functions at the positions `r` with their scores.
pub open spec fn hits_at(funcs: Seq<Function>, sc: Seq<int>, r: Seq<int>, hits: Seq<Hit>) -> bool {
    &&& hits.len() == r.len()
    &&& forall|k: int| 0 <= k < r.len() ==> *(#[trigger] hits[k]).func == funcs[r[k]] && hits[k].score == sc[r[k]]
}

/// `hits` is what a search of `funcs` for `query` with at most `limit` results finds: the
/// functions of a ranking of their scores (there is only one, see `lemma_ranking_unique`).
pub open spec fn ranked_hits(funcs: Seq<Function>, query: Seq<char>, limit: usize, hits: Seq<Hit>) -> bool {
    exists|r: Seq<int>|
        is_ranking(scores(funcs, tokens(query)), limit as int, r) && #[trigger] hits_at(funcs, scores(funcs, tokens(query)), r, hits)
}

/// Searches the functions for the words of `query`: the functions with a positive score,
/// best first (equal scores keep the order of `funcs`), at most `limit` of them.
pub fn search<'a>(funcs: &'a [Function], query: &str, limit: usize) -> (res: Vec<Hit<'a>>)
    ensures
        ranked_hits(funcs@, query@, limit, res@),
        res@.len() <= limit,
        forall|k: int| 0 <= k < res@.len() ==> (#[trigger] res@[k]).score > 0,
        forall|k: int, l: int| 0 <= k < l < res@.len() ==> (#[trigger] res@[k]).score >= (#[trigger] res@[l]).score,
{
    let q = tokenize(query);
    let ghost qv = views(q@);
    let mut qc: Vec<Vec<char>> = Vec::new();
    let mut i: usize = 0;
    while i < q.len()
        invariant
            0 <= i <= q@.len(),
            qc@.len() == i,
            forall|k: int| 0 <= k < i ==> (#[trigger] qc@[k])@ == q@[k]@,
        decreases q@.len() - i,
    {
        qc.push(to_chars(q[i].as_str()));
        i = i + 1;
    }
    let ghost sc = scores(funcs@, qv);
    let n = funcs.len();
    let mut sv: Vec<u128> = Vec::new();
    let mut taken: Vec<bool> = Vec::new();
    let mut i: usize = 0;
    while i < n
        invariant
            n == funcs@.len(),
            sc == scores(funcs@, qv),
            qv == views(q@),
            qc@.len() == q@.len(),
            forall|k: int| 0 <= k < q@.len() ==> (#[trigger] qc@[k])@ == q@[k]@,
            0 <= i <= n,
            sv@.len() == i,
            taken@.len() == i,
            forall|k: int| 0 <= k < i ==> (#[trigger] sv@[k]) as int == sc[k],
            forall|k: int| 0 <= k < i ==> !(#[trigger] taken@[k]),
        decreases n - i,
    {
        sv.push(score_function(&funcs[i], &q, &qc));
        taken.push(false);
        i = i + 1;
    }
    let mut hits: Vec<Hit<'a>> = Vec::new();
    let ghost mut r: Seq<int> = Seq::empty();
    let mut done = false;
    while !done && hits.len() < limit
        invariant
            n == funcs@.len(),
            sc == scores(funcs@, qv),
            qv == tokens(query@),
            sv@.len() == n,
            taken@.len() == n,
            forall|k: int| 0 <= k < n ==> (#[trigger] sv@[k]) as int == sc[k],
            r.len() == hits@.len(),
            r.len() <= limit,
            forall|k: int| 0 <= k < r.len() ==> 0 <= #[trigger] r[k] < n && sc[r[k]] > 0,
            forall|k: int| 0 <= k < r.len() ==> *(#[trigger] hits@[k]).func == funcs@[r[k]] && hits@[k].score == sc[r[k]],
            forall|j: int| 0 <= j < n ==> (#[trigger] taken@[j] <==> r.contains(j)),
            forall|k: int, l: int| 0 <= k < l < r.len() ==> outranks(sc, #[trigger] r[k], #[trigger] r[l]),
            forall|j: int| 0 <= j < n && sc[j] > 0 && !r.contains(j) ==> forall|k: int|
                0 <= k < r.len() ==> outranks(sc, #[trigger] r[k], j),
            done ==> forall|j: int| 0 <= j < n && sc[j] > 0 ==> r.contains(j),
        decreases limit - hits@.len() + (if done { 0int } else { 1int }),
    {
        let mut best: Option<usize> = None;
        let mut j: usize = 0;
        while j < n
            invariant
                n == funcs@.len(),
                sc.len() == n,
                sv@.len() == n,
                taken@.len() == n,
                forall|k: int| 0 <= k < n ==> (#[trigger] sv@[k]) as int == sc[k],
                0 <= j <= n,
                best matches Some(b) ==> b < j && !taken@[b as int] && sc[b as int] > 0,
                best matches Some(b) ==> forall|m: int|
                    0 <= m < j && !taken@[m] && sc[m] > 0 && m != b ==> outranks(sc, b as int, m),
                best is None ==> forall|m: int| 0 <= m < j && sc[m] > 0 ==> taken@[m],
            decreases n - j,
        {
            if !taken[j] && sv[j] > 0 {
                match best {
                    Some(b) => {
                        if sv[j] > sv[b] {
                            best = Some(j);
                        }
                    },
                    None => {
                        best = Some(j);
                    },
                }
            }
            j = j + 1;
        }
        match best {
            Some(b) => {
                proof {
                    assert forall|k: int| 0 <= k < r.len() implies outranks(sc, #[trigger] r[k], b as int) by {
                        assert(!r.contains(b as int));
                    }
                }
                taken.set(b, true);
                hits.push(Hit { func: &funcs[b], score: sv[b] });
                proof {
                    let old_r = r;
                    r = r.push(b as int);
                    assert forall|m: int| 0 <= m < n implies (#[trigger] taken@[m] <==> r.contains(m)) by {
                        if m == b {
                            assert(r[old_r.len() as int] == m);
                        } else {
                            if r.contains(m) {
                                let k = choose|k: int| 0 <= k < r.len() && r[k] == m;
                                assert(old_r[k] == m);
                            }
                            if old_r.contains(m) {
                                let k = choose|k: int| 0 <= k < old_r.len() && old_r[k] == m;
                                assert(r[k] == m);
                            }
                        }
                    }
                    assert forall|m: int| 0 <= m < n && sc[m] > 0 && !r.contains(m) implies forall|k: int|
                        0 <= k < r.len() ==> outranks(sc, #[trigger] r[k], m) by {
                        assert(!old_r.contains(m)) by {
                            if old_r.contains(m) {
                                let k = choose|k: int| 0 <= k < old_r.len() && old_r[k] == m;
                                assert(r[k] == m);
                            }
                        }
                        assert(m != b as int) by {
                            assert(r[old_r.len() as int] == b as int);
                        }
                        assert(!taken@[m]);
                        assert forall|k: int| 0 <= k < r.len() implies outranks(sc, #[trigger] r[k], m) by {
                            if k == old_r.len() {
                            } else {
                                assert(r[k] == old_r[k]);
                            }
                        }
                    }
                }
            },
            None => {
                assert forall|m: int| 0 <= m < n && sc[m] > 0 implies r.contains(m) by {
                    assert(taken@[m]);
                }
                done = true;
            },
        }
    }
    proof {
        assert forall|j: int| 0 <= j < sc.len() && sc[j] > 0 && !r.contains(j) implies r.len() == limit && forall|k: int|
            0 <= k < r.len() ==> outranks(sc, #[trigger] r[k], j) by {
        }
        assert forall|k: int, l: int| 0 <= k < l < hits@.len() implies (#[trigger] hits@[k]).score >= (#[trigger] hits@[l]).score by {
            assert(outranks(sc, r[k], r[l]));
        }
        assert(is_ranking(sc, limit as int, r));
        assert(hits_at(funcs@, sc, r, hits@));
    }
    hits
}

/// Law: a ranking with a smaller limit is a prefix of a ranking with a larger one. In
/// particular, for one list of scores and one limit there is exactly one ranking, so the
/// results of `search` are fully determined by the functions, the question and the limit.
pub proof fn lemma_ranking_prefix(sc: Seq<int>, l1: int, l2: int, r1: Seq<int>, r2: Seq<int>)
    requires
        l1 <= l2,
        is_ranking(sc, l1, r1),
        is_ranking(sc, l2, r2),
    ensures
        r1.len() <= r2.len(),
        r1 == r2.take(r1.len() as int),
{
    assert forall|k: int| 0 <= k < r1.len() && k < r2.len() implies r1[k] == r2[k] by {
        lemma_rankings_agree(sc, l1, l2, r1, r2, k);
    }
    if r1.len() > r2.len() {
        let m = r2.len() as int;
        let a = r1[m];
        assert(r2.len() < l2);
        assert(r2.contains(a));
        let p = choose|p: int| 0 <= p < r2.len() && r2[p] == a;
        assert(r1[p] == r2[p]);
        assert(outranks(sc, r1[p], r1[m]));
    }
    assert(r1 =~= r2.take(r1.len() as int));
}

/// Two rankings of the same scores agree at each position both have.
proof fn lemma_rankings_agree(sc: Seq<int>, l1: int, l2: int, r1: Seq<int>, r2: Seq<int>, k: int)
    requires
        is_ranking(sc, l1, r1),
        is_ranking(sc, l2, r2),
        0 <= k < r1.len(),
        k < r2.len(),
    ensures
        r1[k] == r2[k],
    decreases k,
{
    assert forall|j: int| 0 <= j < k implies r1[j] == r2[j] by {
        lemma_rankings_agree(sc, l1, l2, r1, r2, j);
    }
    let a = r1[k];
    let b = r2[k];
    if a != b {
        // `b` outranks `a`: either `a` is left out of the full ranking `r2`, or it sits
        // after position `k` there (not before: those places hold `r1`'s first entries).
        if r2.contains(a) {
            let m = choose|m: int| 0 <= m < r2.len() && r2[m] == a;
            if m < k {
                assert(r1[m] == a);
                assert(outranks(sc, r1[m], r1[k]));
            }
        }
        assert(outranks(sc, b, a));
        // Likewise `a` outranks `b`.
        if r1.contains(b) {
            let m = choose|m: int| 0 <= m < r1.len() && r1[m] == b;
            if m < k {
                assert(r2[m] == b);
                assert(outranks(sc, r2[m], r2[k]));
            }
        }
        assert(outranks(sc, a, b));
        lemma_outranks_strict(sc, a, b);
    }
}

/// Law: searching with a smaller limit gives a prefix of the results with a larger limit.
pub proof fn lemma_search_limit_prefix(funcs: Seq<Function>, q: Seq<Seq<char>>, l1: int, l2: int, r1: Seq<int>, r2: Seq<int>)
    requires
        l1 <= l2,
        is_ranking(scores(funcs, q), l1, r1),
        is_ranking(scores(funcs, q), l2, r2),
    ensures
        r1 == r2.take(r1.len() as int),
{
    lemma_ranking_prefix(scores(funcs, q), l1, l2, r1, r2);
}

/// Law: for given scores and limit there is only one ranking.
pub proof fn lemma_ranking_unique(sc: Seq<int>, limit: int, r1: Seq<int>, r2: Seq<int>)
    requires
        is_ranking(sc, limit, r1),
        is_ranking(sc, limit, r2),
    ensures
        r1 == r2,
{
    lemma_ranking_prefix(sc, limit, limit, r1, r2);
    lemma_ranking_prefix(sc, limit, limit, r2, r1);
    assert(r1 =~= r2);
}

/// The scale is 1, or small enough that `n` keeps 24 significant bits.
proof fn lemma_f32_scale(n: nat)
    ensures
        f32_scale(n) >= 1,
        f32_scale(n) == 1 || f32_scale(n) * 0x800000 <= n,
        f32_scale(n) == 1 ==> n < 0x1000000,
    decreases n,
{
    if n >= 0x1000000 {
        lemma_f32_scale(n / 2);
    }
}

/// Rounding to 24 significant bits moves a number by at most one part in 2^24.
pub proof fn lemma_f32_round_error(n: nat)
    ensures
        f32_round(n) * 0x1000000 <= n * 0x1000001,
        f32_round(n) * 0x1000000 + n >= n * 0x1000000,
{
    lemma_f32_scale(n);
    let u = f32_scale(n);
    let q = n / u;
    let r = n % u;
    vstd::arithmetic::div_mod::lemma_fundamental_div_mod(n as int, u as int);
    if u == 1 {
        assert(r == 0);
        assert(q == n);
    } else {
        let up = 2 * r > u || (2 * r == u && q % 2 == 1);
        if up {
            assert(f32_round(n) == (q + 1) * u);
            assert((q + 1) * u * 0x1000000 <= n * 0x1000001) by (nonlinear_arith)
                requires
                    n == u * q + r,
                    2 * r >= u,
                    u * 0x800000 <= n,
            ;
            assert((q + 1) * u * 0x1000000 + n >= n * 0x1000000) by (nonlinear_arith)
                requires
                    n == u * q + r,
                    r < u,
            ;
        } else {
            assert(f32_round(n) == q * u);
            assert(q * u * 0x1000000 <= n * 0x1000001) by (nonlinear_arith)
                requires
                    n == u * q + r,
                    0 <= r,
            ;
            assert(q * u * 0x1000000 + n >= n * 0x1000000) by (nonlinear_arith)
                requires
                    n == u * q + r,
                    2 * r <= u,
                    u * 0x800000 <= n,
            ;
        }
    }
}

/// Law: a function named like a common trait method keeps three tenths of the score it
/// would otherwise have, up to the rounding of `f32` arithmetic: ten times its score is
/// within 11 half points (scaled) of three times the unpenalised score.
pub proof fn lemma_noise_penalty(f: Function, q: Seq<Seq<char>>)
    requires
        noise_name(f.name@),
    ensures
        10 * score(f, q) + 3 * raw_points(f, q) >= 3 * (raw_points(f, q) * 0x2000000),
        10 * score(f, q) <= 3 * (raw_points(f, q) * 0x2000000) + 11 * raw_points(f, q),
{
    let h = raw_points(f, q);
    let n = three_tenths() * h;
    lemma_f32_round_error(n);
    let s = f32_round(n);
    assert(10 * s + 3 * h >= 3 * (h * 0x2000000)) by (nonlinear_arith)
        requires
            s * 0x1000000 + n >= n * 0x1000000,
            n == 10066330 * h,
    ;
    assert(10 * s <= 3 * (h * 0x2000000) + 11 * h) by (nonlinear_arith)
        requires
            s * 0x1000000 <= n * 0x1000001,
            n == 10066330 * h,
    ;
}

/// Law: every word the splitter produces is non-empty.
pub proof fn lemma_tokens_nonempty(s: Seq<char>)
    ensures
        forall|k: int| 0 <= k < tokens(s).len() ==> (#[trigger] tokens(s)[k]).len() > 0,
{
    lemma_tok_run_words_nonempty(s);
}

/// The finished words of the splitter are non-empty.
proof fn lemma_tok_run_words_nonempty(s: Seq<char>)
    ensures
        forall|k: int| 0 <= k < tok_run(s).words.len() ==> (#[trigger] tok_run(s).words[k]).len() > 0,
    decreases s.len(),
{
    if s.len() > 0 {
        lemma_tok_run_words_nonempty(s.drop_last());
        let st = tok_run(s.drop_last());
        let ch = s.last();
        let nx = tok_step(st, ch);
        assert(tok_run(s) == nx);
        assert forall|k: int| 0 <= k < nx.words.len() implies (#[trigger] nx.words[k]).len() > 0 by {
            if k < st.words.len() {
                assert(nx.words[k] == st.words[k]);
            }
        }
    }
}

/// Law: a question without letters or digits scores nothing, so a search for it finds nothing.
pub proof fn lemma_no_words_no_score(f: Function, q: Seq<Seq<char>>)
    requires
        q.len() == 0,
    ensures
        score(f, q) == 0,
{
    assert(f32_scale(0) == 1);
    assert(f32_round(0) == 0);
}

/// Law: a question word earns the half point for the source text exactly when the
/// lowercased source (`str::to_lowercase` of the body) contains it; the name and owner
/// points are whole points, so the half point is the odd part of the raw score. For a
/// function not named like a common trait method, the score in points is then a whole
/// number plus one half exactly in that case.
pub proof fn lemma_body_half_point(f: Function, w: Seq<char>)
    ensures
        raw_points(f, seq![w]) % 2 == (if has_sub(str_lower(f.body@), w) { 1int } else { 0int }),
        !noise_name(f.name@) ==> (score(f, seq![w]) / 0x2000000) % 2 == (if has_sub(str_lower(f.body@), w) {
            1int
        } else {
            0int
        }),
{
    let q = seq![w];
    assert(q[0] == w);
    assert(points_upto(tokens(f.name@), owner_tokens(f), str_lower(f.body@), q, 0) == 0);
    assert(raw_points(f, q) == word_points(tokens(f.name@), owner_tokens(f), str_lower(f.body@), w));
    if !noise_name(f.name@) {
        let h = raw_points(f, q);
        assert((h * 0x2000000) / 0x2000000 == h) by (nonlinear_arith);
    }
}

/// Law: a search lists at most `limit` functions, and when it lists fewer it lists every
/// function with a positive score: it gives the `limit` best, or all that match.
pub proof fn lemma_ranked_hits_cover(funcs: Seq<Function>, query: Seq<char>, limit: usize, hits: Seq<Hit>)
    requires
        ranked_hits(funcs, query, limit, hits),
    ensures
        hits.len() <= limit,
        hits.len() < limit ==> forall|i: int|
            0 <= i < funcs.len() && score(funcs[i], tokens(query)) > 0 ==> exists|k: int|
                0 <= k < hits.len() && *(#[trigger] hits[k]).func == funcs[i],
{
    let sc = scores(funcs, tokens(query));
    let r = choose|r: Seq<int>| is_ranking(sc, limit as int, r) && #[trigger] hits_at(funcs, sc, r, hits);
    if hits.len() < limit {
        assert forall|i: int| 0 <= i < funcs.len() && score(funcs[i], tokens(query)) > 0 implies exists|k: int|
            0 <= k < hits.len() && *(#[trigger] hits[k]).func == funcs[i] by {
            assert(sc[i] > 0);
            assert(r.contains(i));
            let k = choose|k: int| 0 <= k < r.len() && r[k] == i;
            assert(*hits[k].func == funcs[r[k]]);
        }
    }
}

/// Points of the first `k` words do not depend on the words after them.
proof fn lemma_points_prefix(
    nw: Seq<Seq<char>>,
    ow: Seq<Seq<char>>,
    body: Seq<char>,
    q1: Seq<Seq<char>>,
    q2: Seq<Seq<char>>,
    k: int,
)
    requires
        0 <= k <= q1.len(),
    ensures
        points_upto(nw, ow, body, q1 + q2, k) == points_upto(nw, ow, body, q1, k),
    decreases k,
{
    if k > 0 {
        lemma_points_prefix(nw, ow, body, q1, q2, k - 1);
        assert((q1 + q2)[k - 1] == q1[k - 1]);
    }
}

/// Points of a joined question: those of the first part plus those of the first `n` words
/// of the second.
proof fn lemma_points_concat(
    nw: Seq<Seq<char>>,
    ow: Seq<Seq<char>>,
    body: Seq<char>,
    q1: Seq<Seq<char>>,
    q2: Seq<Seq<char>>,
    n: int,
)
    requires
        0 <= n <= q2.len(),
    ensures
        points_upto(nw, ow, body, q1 + q2, q1.len() + n) == points_upto(nw, ow, body, q1, q1.len() as int)
            + points_upto(nw, ow, body, q2, n),
    decreases n,
{
    if n == 0 {
        lemma_points_prefix(nw, ow, body, q1, q2, q1.len() as int);
    } else {
        lemma_points_concat(nw, ow, body, q1, q2, n - 1);
        assert((q1 + q2)[q1.len() + n - 1] == q2[n - 1]);
    }
}

/// Law: the raw score of a question is the sum of the raw scores of its parts, word by
/// word: every question word counts on its own, repeated words included.
pub proof fn lemma_raw_points_add(f: Function, q1: Seq<Seq<char>>, q2: Seq<Seq<char>>)
    ensures
        raw_points(f, q1 + q2) == raw_points(f, q1) + raw_points(f, q2),
{
    lemma_points_concat(tokens(f.name@), owner_tokens(f), str_lower(f.body@), q1, q2, q2.len() as int);
}

/// Law: what one question word earns, in half points: 8 (4 points) when it is a word of the
/// function's name, else 4 when it is part of a word of the name; 2 more when it is a word
/// of the owner's name; 1 more when the lowercased source contains it.
pub proof fn lemma_word_weights(f: Function, w: Seq<char>)
    ensures
        raw_points(f, seq![w]) == (if tokens(f.name@).contains(w) {
            8int
        } else if exists|k: int| 0 <= k < tokens(f.name@).len() && has_sub(#[trigger] tokens(f.name@)[k], w) {
            4int
        } else {
            0int
        }) + (if owner_tokens(f).contains(w) {
            2int
        } else {
            0int
        }) + (if has_sub(str_lower(f.body@), w) {
            1int
        } else {
            0int
        }),
{
    let q = seq![w];
    assert(q[0] == w);
    assert(points_upto(tokens(f.name@), owner_tokens(f), str_lower(f.body@), q, 0) == 0);
}

} // verus!
