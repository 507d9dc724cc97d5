use vstd::prelude::*;
use crate::decimal::{
    all_digits,
    digits_value,
    find_char,
    first_pos,
    log10_millionths,
    parse_log10,
    read_digits,
};
use crate::index::{chars_hash, hash_chars, HashIndex};
use crate::model::{
    chars_view,
    find_word,
    grams_view,
    image_valid,
    same_chars,
    LMError,
    LanguageModel,
    NGram,
};
use crate::state::MAX_ORDER;
use crate::text::{char_is_space, is_space};

verus! {

/// Lines read so far, the tokens of the line being read, and the token
/// being read, after reading `s`.
pub open spec fn line_scan(s: Seq<char>) -> (Seq<Seq<Seq<char>>>, Seq<Seq<char>>, Seq<char>)
    decreases s.len(),
{
    if s.len() == 0 {
        (Seq::empty(), Seq::empty(), Seq::empty())
    } else {
        let (ls, l, cur) = line_scan(s.drop_last());
        let c = s.last();
        if c == '\n' || is_space(c) {
            let l2 = if cur.len() > 0 {
                l.push(cur)
            } else {
                l
            };
            if c == '\n' {
                (ls.push(l2), Seq::empty(), Seq::empty())
            } else {
                (ls, l2, Seq::empty())
            }
        } else {
            (ls, l, cur.push(c))
        }
    }
}

/// The lines of `s` (split at `\n`), each as its whitespace-delimited tokens.
pub open spec fn lines_of(s: Seq<char>) -> Seq<Seq<Seq<char>>> {
    let (ls, l, cur) = line_scan(s);
    ls.push(
        if cur.len() > 0 {
            l.push(cur)
        } else {
            l
        },
    )
}

pub open spec fn line_view(l: Seq<Vec<char>>) -> Seq<Seq<char>> {
    l.map_values(|t: Vec<char>| t@)
}

pub open spec fn lines_view(ls: Seq<Vec<Vec<char>>>) -> Seq<Seq<Seq<char>>> {
    ls.map_values(|l: Vec<Vec<char>>| line_view(l@))
}

pub open spec fn data_word() -> Seq<char> {
    seq!['\\', 'd', 'a', 't', 'a', '\\']
}

pub open spec fn end_word() -> Seq<char> {
    seq!['\\', 'e', 'n', 'd', '\\']
}

pub open spec fn ngram_word() -> Seq<char> {
    seq!['n', 'g', 'r', 'a', 'm']
}

pub open spec fn digit_char(k: nat) -> char {
    if k == 1 {
        '1'
    } else if k == 2 {
        '2'
    } else if k == 3 {
        '3'
    } else if k == 4 {
        '4'
    } else if k == 5 {
        '5'
    } else {
        '6'
    }
}

/// The header of the section of order `k`: `\k-grams:`.
pub open spec fn header(k: nat) -> Seq<char> {
    seq!['\\', digit_char(k), '-', 'g', 'r', 'a', 'm', 's', ':']
}

/// Whether line `l` is the single token `w`.
pub open spec fn is_word_line(l: Seq<Seq<char>>, w: Seq<char>) -> bool {
    l.len() == 1 && l[0] == w
}

/// The first line at or after `pos` that holds a token.
pub open spec fn skip_blank(ls: Seq<Seq<Seq<char>>>, pos: int) -> int
    decreases ls.len() - pos,
{
    if 0 <= pos < ls.len() && ls[pos].len() == 0 {
        skip_blank(ls, pos + 1)
    } else {
        pos
    }
}

/// The order and count of a count token `k=c`.
pub open spec fn count_of(t: Seq<char>) -> Option<(int, int)> {
    let e = first_pos(t, '=');
    let ks = t.take(e);
    let cs = t.skip(e + 1);
    if 0 < e && e + 1 < t.len() && all_digits(ks) && digits_value(ks) <= 1_000_000 && all_digits(
        cs,
    ) && digits_value(cs) <= 1_000_000_000_000 {
        Some((digits_value(ks), digits_value(cs)))
    } else {
        None
    }
}

/// Reads the `ngram k=c` lines from `pos`, after the counts `cs`: where the
/// count lines end, and the count of each order.
pub open spec fn read_counts(ls: Seq<Seq<Seq<char>>>, pos: int, cs: Seq<int>) -> Option<
    (int, Seq<int>),
>
    decreases ls.len() - pos,
{
    if 0 <= pos < ls.len() && ls[pos].len() == 2 && ls[pos][0] == ngram_word() {
        match count_of(ls[pos][1]) {
            Some((k, c)) => if k == cs.len() + 1 && k <= MAX_ORDER {
                read_counts(ls, pos + 1, cs.push(c))
            } else {
                None
            },
            None => None,
        }
    } else {
        Some((pos, cs))
    }
}

/// The first position of `w` in `ws`.
pub open spec fn pos_of(ws: Seq<Seq<char>>, w: Seq<char>) -> int {
    choose|i: int| 0 <= i < ws.len() && ws[i] == w
}

/// The ids of the words `toks`, each of which must be in `ws`.
pub open spec fn read_ids(ws: Seq<Seq<char>>, toks: Seq<Seq<char>>) -> Option<Seq<u32>> {
    if forall|j: int| 0 <= j < toks.len() ==> ws.contains(#[trigger] toks[j]) {
        Some(Seq::new(toks.len(), |j: int| pos_of(ws, toks[j]) as u32))
    } else {
        None
    }
}

/// Reads entry line `l` of the section of order `k` into the vocabulary
/// `ws` and the n-grams `gs`: `log10-prob w1 .. wk [backoff]`. A 1-gram
/// adds its word, which must be new, to the vocabulary.
pub open spec fn read_entry(
    ws: Seq<Seq<char>>,
    gs: Seq<(Seq<u32>, int, int)>,
    l: Seq<Seq<char>>,
    k: nat,
) -> Option<(Seq<Seq<char>>, Seq<(Seq<u32>, int, int)>)> {
    let n = l.len();
    if k >= 1 && (n == k + 1 || n == k + 2) {
        let b = if n == k + 2 {
            log10_millionths(l[k + 1 as int])
        } else {
            Some(0)
        };
        match (log10_millionths(l[0]), b) {
            (Some(p), Some(b)) => if k == 1 {
                if ws.len() < u32::MAX && !ws.contains(l[1]) {
                    Some((ws.push(l[1]), gs.push((seq![ws.len() as u32], p, b))))
                } else {
                    None
                }
            } else {
                match read_ids(ws, l.subrange(1, k + 1 as int)) {
                    Some(ids) => Some((ws, gs.push((ids, p, b)))),
                    None => None,
                }
            },
            _ => None,
        }
    } else {
        None
    }
}

/// Whether line `l` is an entry: it has a token and does not start a
/// section.
pub open spec fn is_entry_line(l: Seq<Seq<char>>) -> bool {
    l.len() > 0 && !(l[0].len() > 0 && l[0][0] == '\\')
}

/// Reads exactly `left` entry lines of order `k` from `pos`: where they end,
/// and the vocabulary and n-grams after them.
pub open spec fn read_entries(
    ls: Seq<Seq<Seq<char>>>,
    pos: int,
    k: nat,
    ws: Seq<Seq<char>>,
    gs: Seq<(Seq<u32>, int, int)>,
    left: int,
) -> Option<(int, Seq<Seq<char>>, Seq<(Seq<u32>, int, int)>)>
    decreases ls.len() - pos,
{
    if 0 <= pos < ls.len() && is_entry_line(ls[pos]) {
        if left <= 0 {
            None
        } else {
            match read_entry(ws, gs, ls[pos], k) {
                Some((w2, g2)) => read_entries(ls, pos + 1, k, w2, g2, left - 1),
                None => None,
            }
        }
    } else if left == 0 {
        Some((pos, ws, gs))
    } else {
        None
    }
}

/// Reads the sections of orders `k` to `cs.len()` from `pos`, each a header
/// line and as many entries as its count says.
pub open spec fn read_sections(
    ls: Seq<Seq<Seq<char>>>,
    pos: int,
    k: nat,
    cs: Seq<int>,
    ws: Seq<Seq<char>>,
    gs: Seq<(Seq<u32>, int, int)>,
) -> Option<(int, Seq<Seq<char>>, Seq<(Seq<u32>, int, int)>)>
    decreases cs.len() + 1 - k,
{
    if 1 <= k <= cs.len() {
        let p = skip_blank(ls, pos);
        if 0 <= p < ls.len() && is_word_line(ls[p], header(k)) {
            match read_entries(ls, p + 1, k, ws, gs, cs[k - 1]) {
                Some((p2, w2, g2)) => read_sections(ls, p2, k + 1, cs, w2, g2),
                None => None,
            }
        } else {
            None
        }
    } else {
        Some((pos, ws, gs))
    }
}

/// The rest of the reading after the entries of order `k`.
pub open spec fn after_entries(
    ls: Seq<Seq<Seq<char>>>,
    pos: int,
    k: nat,
    cs: Seq<int>,
    ws: Seq<Seq<char>>,
    gs: Seq<(Seq<u32>, int, int)>,
    left: int,
) -> Option<(int, Seq<Seq<char>>, Seq<(Seq<u32>, int, int)>)> {
    match read_entries(ls, pos, k, ws, gs, left) {
        Some((p2, w2, g2)) => read_sections(ls, p2, k + 1, cs, w2, g2),
        None => None,
    }
}

/// The end of the reading once the sections gave `r`: `\end\` must follow.
pub open spec fn after_sections(
    ls: Seq<Seq<Seq<char>>>,
    order: nat,
    r: Option<(int, Seq<Seq<char>>, Seq<(Seq<u32>, int, int)>)>,
) -> Option<(nat, Seq<Seq<char>>, Seq<(Seq<u32>, int, int)>)> {
    match r {
        Some((p2, ws, gs)) => {
            let p3 = skip_blank(ls, p2);
            if 0 <= p3 < ls.len() && is_word_line(ls[p3], end_word()) {
                Some((order, ws, gs))
            } else {
                None
            }
        },
        None => None,
    }
}

/// The rest of the reading once the count lines gave `r`.
pub open spec fn after_counts(ls: Seq<Seq<Seq<char>>>, r: Option<(int, Seq<int>)>) -> Option<
    (nat, Seq<Seq<char>>, Seq<(Seq<u32>, int, int)>),
> {
    match r {
        Some((p1, cs)) => if cs.len() == 0 {
            None
        } else {
            after_sections(ls, cs.len(), read_sections(ls, p1, 1, cs, Seq::empty(), Seq::empty()))
        },
        None => None,
    }
}

/// The model image that the ARPA lines `ls` declare: `\data\`, one
/// `ngram k=c` line per order, a section per order, then `\end\`.
pub open spec fn arpa_lines(ls: Seq<Seq<Seq<char>>>) -> Option<
    (nat, Seq<Seq<char>>, Seq<(Seq<u32>, int, int)>),
> {
    let p0 = skip_blank(ls, 0);
    if 0 <= p0 < ls.len() && is_word_line(ls[p0], data_word()) {
        after_counts(ls, read_counts(ls, p0 + 1, Seq::empty()))
    } else {
        None
    }
}

/// The model image (order, vocabulary, n-grams) that ARPA text `t`
/// declares, where it is well formed.
pub open spec fn arpa_image(t: Seq<char>) -> Option<(nat, Seq<Seq<char>>, Seq<(Seq<u32>, int, int)>)> {
    arpa_lines(lines_of(t))
}

/// Splits `text` into lines at `\n`, and each line into its
/// whitespace-delimited tokens.
fn split_lines(text: &str) -> (r: Vec<Vec<Vec<char>>>)
    ensures
        lines_view(r@) == lines_of(text@),
{
    let mut lines: Vec<Vec<Vec<char>>> = Vec::new();
    let mut line: Vec<Vec<char>> = Vec::new();
    let mut cur: Vec<char> = Vec::new();
    let ghost mut seen: Seq<char> = Seq::empty();
    for c in it: text.chars()
        invariant
            it.seq() == text@,
            seen == it.seq().take(it.index() as int),
            lines_view(lines@) == line_scan(seen).0,
            line_view(line@) == line_scan(seen).1,
            cur@ == line_scan(seen).2,
    {
        let ghost next = it.seq().take(it.index() + 1);
        assert(next.drop_last() =~= seen);
        assert(next.last() == c);
        let ghost ol = line@;
        let ghost ols = lines@;
        if c == '\n' || char_is_space(c) {
            if cur.len() > 0 {
                let w = cur;
                cur = Vec::new();
                line.push(w);
                assert(line_view(line@) =~= line_view(ol).push(w@));
            }
            if c == '\n' {
                let l = line;
                line = Vec::new();
                let ghost lv = line_view(l@);
                lines.push(l);
                assert(lines_view(lines@) =~= lines_view(ols).push(lv));
                assert(line_view(line@) =~= Seq::<Seq<char>>::empty());
            }
        } else {
            cur.push(c);
        }
        proof {
            seen = seen.push(c);
        }
        assert(seen =~= next);
    }
    assert(seen =~= text@);
    let ghost ol = line@;
    let ghost ols = lines@;
    if cur.len() > 0 {
        let w = cur;
        line.push(w);
        assert(line_view(line@) =~= line_view(ol).push(w@));
    }
    let ghost lv = line_view(line@);
    lines.push(line);
    assert(lines_view(lines@) =~= lines_view(ols).push(lv));
    lines
}

fn copy_chars(v: &Vec<char>) -> (r: Vec<char>)
    ensures
        r@ == v@,
{
    let mut r: Vec<char> = Vec::new();
    let mut i: usize = 0;
    while i < v.len()
        invariant
            i <= v@.len(),
            r@ == v@.subrange(0, i as int),
        decreases v@.len() - i,
    {
        r.push(v[i]);
        assert(r@ =~= v@.subrange(0, i + 1));
        i = i + 1;
    }
    assert(r@ =~= v@);
    r
}

/// Whether `line` is the single token `tok`.
fn is_line(line: &Vec<Vec<char>>, tok: &Vec<char>) -> (r: bool)
    ensures
        r == is_word_line(line_view(line@), tok@),
{
    if line.len() != 1 {
        return false;
    }
    same_chars(&line[0], tok)
}

/// The first line at or after `pos` that holds a token.
fn skip_blank_lines(lines: &Vec<Vec<Vec<char>>>, pos: usize) -> (r: usize)
    requires
        pos <= lines@.len(),
    ensures
        pos <= r <= lines@.len(),
        r == skip_blank(lines_view(lines@), pos as int),
{
    let ghost ls = lines_view(lines@);
    let mut p = pos;
    while p < lines.len() && lines[p].len() == 0
        invariant
            ls == lines_view(lines@),
            pos <= p <= lines@.len(),
            skip_blank(ls, p as int) == skip_blank(ls, pos as int),
        decreases lines@.len() - p,
    {
        assert(ls[p as int].len() == 0);
        p = p + 1;
    }
    if p < lines.len() {
        assert(ls[p as int].len() != 0);
    }
    p
}

/// The header of the section of order `k`.
fn section_header(k: usize) -> (r: Vec<char>)
    requires
        1 <= k <= MAX_ORDER,
    ensures
        r@ == header(k as nat),
{
    let digit: char = if k == 1 {
        '1'
    } else if k == 2 {
        '2'
    } else if k == 3 {
        '3'
    } else if k == 4 {
        '4'
    } else if k == 5 {
        '5'
    } else {
        '6'
    };
    let r = vec!['\\', digit, '-', 'g', 'r', 'a', 'm', 's', ':'];
    assert(r@ =~= header(k as nat));
    r
}

/// Reads a count token `k=c`.
fn read_count(tok: &Vec<char>) -> (r: Option<(u64, u64)>)
    ensures
        r matches Some((k, c)) ==> count_of(tok@) == Some((k as int, c as int)),
        r is None ==> count_of(tok@) is None,
{
    let e = find_char(tok, 0, '=');
    assert(tok@.skip(0) =~= tok@);
    if e == 0 || e >= tok.len() || e + 1 == tok.len() {
        return None;
    }
    assert(tok@.subrange(0, e as int) =~= tok@.take(e as int));
    assert(tok@.subrange(e + 1, tok@.len() as int) =~= tok@.skip(e + 1));
    let k = match read_digits(tok, 0, e, 1_000_000) {
        Some(k) => k,
        None => {
            return None;
        },
    };
    let c = match read_digits(tok, e + 1, tok.len(), 1_000_000_000_000) {
        Some(c) => c,
        None => {
            return None;
        },
    };
    Some((k as u64, c as u64))
}

pub open spec fn counts_view(cs: Seq<u64>) -> Seq<int> {
    cs.map_values(|c: u64| c as int)
}

/// What the readers keep true of the vocabulary read so far: its words are
/// distinct, fit `u32` ids, and are held by `wi` under their hashes.
pub open spec fn words_kept(words: Seq<Vec<char>>, wi: HashIndex) -> bool {
    &&& words.len() <= u32::MAX
    &&& forall|a: int, b: int| 0 <= a < b < words.len() ==> words[a]@ != words[b]@
    &&& forall|a: int| 0 <= a < words.len() ==> wi.holds(chars_hash(#[trigger] words[a]@), a as usize)
}

proof fn lemma_pos_of(words: Seq<Vec<char>>, i: int)
    requires
        forall|a: int, b: int| 0 <= a < b < words.len() ==> words[a]@ != words[b]@,
        0 <= i < words.len(),
    ensures
        chars_view(words).contains(words[i]@),
        pos_of(chars_view(words), words[i]@) == i,
{
    let ws = chars_view(words);
    assert(ws[i] == words[i]@);
    let j = pos_of(ws, words[i]@);
    assert(ws[j] == words[j]@);
    if j < i {
        assert(words[j]@ != words[i]@);
    } else if j > i {
        assert(words[i]@ != words[j]@);
    }
}

/// Reads one entry line of order `k` into `words` and `grams`; `false`
/// where the line is malformed, which leaves them unspecified.
fn read_entry_into(
    words: &mut Vec<Vec<char>>,
    wi: &mut HashIndex,
    grams: &mut Vec<NGram>,
    line: &Vec<Vec<char>>,
    k: usize,
) -> (r: bool)
    requires
        1 <= k <= MAX_ORDER,
        words_kept(old(words)@, *old(wi)),
    ensures
        r == read_entry(chars_view(old(words)@), grams_view(old(grams)@), line_view(line@), k as nat)
            is Some,
        r ==> words_kept(final(words)@, *final(wi)),
        r ==> read_entry(chars_view(old(words)@), grams_view(old(grams)@), line_view(line@), k as nat)
            == Some((chars_view(final(words)@), grams_view(final(grams)@))),
{
    let ghost ws = chars_view(words@);
    let ghost gs = grams_view(grams@);
    let ghost l = line_view(line@);
    let n = line.len();
    if n != k + 1 && n != k + 2 {
        return false;
    }
    assert(l[0] == line@[0]@);
    let prob = match parse_log10(&line[0]) {
        Some(v) => v,
        None => {
            return false;
        },
    };
    let backoff = if n == k + 2 {
        assert(l[k + 1] == line@[k + 1]@);
        match parse_log10(&line[k + 1]) {
            Some(v) => v,
            None => {
                return false;
            },
        }
    } else {
        0
    };
    let mut ids: Vec<u32> = Vec::new();
    if k == 1 {
        assert(l[1] == line@[1]@);
        if words.len() >= 4294967295usize {
            return false;
        }
        match find_word(words, wi, &line[1], words.len()) {
            Some(j) => {
                assert(ws[j as int] == words@[j as int]@);
                return false;
            },
            None => {},
        }
        proof {
            if ws.contains(l[1]) {
                let j = choose|j: int| 0 <= j < ws.len() && ws[j] == l[1];
                assert(ws[j] == words@[j]@);
            }
        }
        ids.push(words.len() as u32);
        let w = copy_chars(&line[1]);
        let h = hash_chars(&w);
        let ghost ow = words@;
        wi.add(h, words.len());
        words.push(w);
        assert(chars_view(words@) =~= ws.push(l[1]));
        assert(ids@ =~= seq![ws.len() as u32]);
        proof {
            assert forall|a: int, b: int| 0 <= a < b < words@.len() implies words@[a]@ != words@[b]@ by {
                if b == ow.len() {
                    assert(ws[a] == ow[a]@);
                }
            }
        }
    } else {
        let ghost toks = l.subrange(1, k + 1 as int);
        let mut t: usize = 1;
        while t <= k
            invariant
                2 <= k <= MAX_ORDER,
                1 <= t <= k + 1,
                k + 1 <= n == line@.len(),
                l == line_view(line@),
                toks == l.subrange(1, k + 1),
                ws == chars_view(words@),
                ws == chars_view(old(words)@),
                gs == grams_view(old(grams)@),
                l.len() == n,
                log10_millionths(l[0]) == Some(prob as int),
                (if n == k + 2 { log10_millionths(l[k + 1 as int]) } else { Some(0int) }) == Some(backoff as int),
                words_kept(words@, *wi),
                ids@.len() == t - 1,
                forall|j: int| 0 <= j < t - 1 ==> ws.contains(#[trigger] toks[j]),
                forall|j: int| 0 <= j < t - 1 ==> ids@[j] == pos_of(ws, #[trigger] toks[j]) as u32,
            decreases k + 1 - t,
        {
            assert(toks[t - 1] == line@[t as int]@);
            match find_word(words, wi, &line[t], words.len()) {
                Some(id) => {
                    proof {
                        lemma_pos_of(words@, id as int);
                    }
                    ids.push(id as u32);
                },
                None => {
                    proof {
                        if ws.contains(toks[t - 1]) {
                            let j = choose|j: int| 0 <= j < ws.len() && ws[j] == toks[t - 1];
                            assert(ws[j] == words@[j]@);
                        }
                        assert(!ws.contains(toks[t - 1]));
                        assert(read_ids(ws, toks) is None);
                        assert(l.len() == n);
                        assert(read_entry(ws, gs, l, k as nat) is None);
                    }
                    return false;
                },
            }
            t = t + 1;
        }
        assert(ids@ =~= Seq::new(toks.len(), |j: int| pos_of(ws, toks[j]) as u32));
    }
    let ghost ids_v = ids@;
    grams.push(NGram { ids, prob, backoff });
    assert(grams_view(grams@) =~= gs.push((ids_v, prob as int, backoff as int)));
    true
}

impl LanguageModel {
    /// Reads a model from the text of an ARPA file: the `\data\` header
    /// with one `ngram k=c` line per order, a `\k-grams:` section per order
    /// holding exactly `c` entries `log10-prob w1 .. wk [backoff]`, and
    /// `\end\`. The 1-gram section gives the vocabulary, in order. Succeeds
    /// exactly when the text is well formed and declares a valid image, and
    /// then the model is that image.
    pub fn from_arpa(text: &str) -> (r: Result<LanguageModel, LMError>)
        ensures
            r is Ok <==> (arpa_image(text@) matches Some(img) && image_valid(img.0, img.1, img.2)),
            r matches Ok(m) ==> (arpa_image(text@) matches Some(img) && m.wf() && m.order() == img.0
                && m.vocab() == img.1 && m.grams() == img.2),
            r matches Err(e) ==> e == LMError::LoadError,
    {
        let lines = split_lines(text);
        let ghost ls = lines_view(lines@);
        assert(arpa_image(text@) == arpa_lines(ls));
        let p0 = skip_blank_lines(&lines, 0);
        let data = vec!['\\', 'd', 'a', 't', 'a', '\\'];
        assert(data@ =~= data_word());
        if p0 >= lines.len() || !is_line(&lines[p0], &data) {
            proof {
                if p0 < lines@.len() {
                    assert(ls[p0 as int] == line_view(lines@[p0 as int]@));
                }
            }
            assert(arpa_lines(ls) is None);
            return Err(LMError::LoadError);
        }
        assert(ls[p0 as int] == line_view(lines@[p0 as int]@));
        let ghost total_counts = read_counts(ls, p0 + 1, Seq::empty());
        assert(arpa_lines(ls) == after_counts(ls, total_counts));
        let ngram = vec!['n', 'g', 'r', 'a', 'm'];
        assert(ngram@ =~= ngram_word());
        let mut pos = p0 + 1;
        let mut counts: Vec<u64> = Vec::new();
        assert(counts_view(counts@) =~= Seq::<int>::empty());
        while pos < lines.len() && lines[pos].len() == 2 && same_chars(&lines[pos][0], &ngram)
            invariant
                ls == lines_view(lines@),
                ngram@ == ngram_word(),
                pos <= lines@.len(),
                counts@.len() <= MAX_ORDER,
                read_counts(ls, pos as int, counts_view(counts@)) == total_counts,
                arpa_lines(ls) == after_counts(ls, total_counts),
                arpa_image(text@) == arpa_lines(ls),
            decreases lines@.len() - pos,
        {
            assert(ls[pos as int] == line_view(lines@[pos as int]@));
            assert(ls[pos as int][0] == lines@[pos as int]@[0]@);
            assert(ls[pos as int][1] == lines@[pos as int]@[1]@);
            match read_count(&lines[pos][1]) {
                Some((k, c)) => {
                    if k != counts.len() as u64 + 1 || k > MAX_ORDER as u64 {
                        assert(read_counts(ls, pos as int, counts_view(counts@)) is None);
                        assert(arpa_lines(ls) is None);
                        return Err(LMError::LoadError);
                    }
                    let ghost oc = counts_view(counts@);
                    counts.push(c);
                    assert(counts_view(counts@) =~= oc.push(c as int));
                },
                None => {
                    assert(read_counts(ls, pos as int, counts_view(counts@)) is None);
                    assert(arpa_lines(ls) is None);
                    return Err(LMError::LoadError);
                },
            }
            pos = pos + 1;
        }
        proof {
            if pos < lines@.len() {
                assert(ls[pos as int] == line_view(lines@[pos as int]@));
                if ls[pos as int].len() == 2 {
                    assert(ls[pos as int][0] == lines@[pos as int]@[0]@);
                }
            }
        }
        let ghost cs = counts_view(counts@);
        assert(total_counts == Some((pos as int, cs)));
        let order = counts.len();
        if order == 0 {
            assert(arpa_lines(ls) is None);
            return Err(LMError::LoadError);
        }
        let ghost total = read_sections(ls, pos as int, 1, cs, Seq::empty(), Seq::empty());
        assert(arpa_lines(ls) == after_sections(ls, order as nat, total));
        let mut words: Vec<Vec<char>> = Vec::new();
        let mut wi = HashIndex::new();
        let mut grams: Vec<NGram> = Vec::new();
        assert(chars_view(words@) =~= Seq::<Seq<char>>::empty());
        assert(grams_view(grams@) =~= Seq::<(Seq<u32>, int, int)>::empty());
        let mut k: usize = 1;
        while k <= order
            invariant
                ls == lines_view(lines@),
                cs == counts_view(counts@),
                order == counts@.len() <= MAX_ORDER,
                1 <= k <= order + 1,
                pos <= lines@.len(),
                words_kept(words@, wi),
                arpa_lines(ls) == after_sections(ls, order as nat, total),
                arpa_image(text@) == arpa_lines(ls),
                read_sections(ls, pos as int, k as nat, cs, chars_view(words@), grams_view(grams@))
                    == total,
            decreases order + 1 - k,
        {
            let old_pos = pos;
            pos = skip_blank_lines(&lines, pos);
            let hdr = section_header(k);
            if pos >= lines.len() || !is_line(&lines[pos], &hdr) {
                proof {
                    if pos < lines@.len() {
                        assert(ls[pos as int] == line_view(lines@[pos as int]@));
                    }
                    assert(read_sections(ls, old_pos as int, k as nat, cs, chars_view(words@), grams_view(grams@)) is None);
                    assert(arpa_lines(ls) is None);
                }
                return Err(LMError::LoadError);
            }
            assert(ls[pos as int] == line_view(lines@[pos as int]@));
            pos = pos + 1;
            let mut left: u64 = counts[k - 1];
            while pos < lines.len() && lines[pos].len() > 0 && !(lines[pos][0].len() > 0
                && lines[pos][0][0] == '\\')
                invariant
                    ls == lines_view(lines@),
                    cs == counts_view(counts@),
                    order == counts@.len() <= MAX_ORDER,
                    1 <= k <= order,
                    pos <= lines@.len(),
                    words_kept(words@, wi),
                    arpa_lines(ls) == after_sections(ls, order as nat, total),
                    arpa_image(text@) == arpa_lines(ls),
                    after_entries(
                        ls,
                        pos as int,
                        k as nat,
                        cs,
                        chars_view(words@),
                        grams_view(grams@),
                        left as int,
                    ) == total,
                decreases lines@.len() - pos,
            {
                assert(ls[pos as int] == line_view(lines@[pos as int]@));
                assert(ls[pos as int][0] == lines@[pos as int]@[0]@);
                if left == 0 {
                    assert(after_entries(ls, pos as int, k as nat, cs, chars_view(words@), grams_view(grams@), 0) is None);
                    assert(arpa_lines(ls) is None);
                    return Err(LMError::LoadError);
                }
                let ghost ow = chars_view(words@);
                let ghost og = grams_view(grams@);
                if !read_entry_into(&mut words, &mut wi, &mut grams, &lines[pos], k) {
                    assert(after_entries(ls, pos as int, k as nat, cs, ow, og, left as int) is None);
                    assert(arpa_lines(ls) is None);
                    return Err(LMError::LoadError);
                }
                left = left - 1;
                pos = pos + 1;
            }
            proof {
                if pos < lines@.len() {
                    assert(ls[pos as int] == line_view(lines@[pos as int]@));
                    if ls[pos as int].len() > 0 {
                        assert(ls[pos as int][0] == lines@[pos as int]@[0]@);
                    }
                }
            }
            if left != 0 {
                assert(after_entries(ls, pos as int, k as nat, cs, chars_view(words@), grams_view(grams@), left as int) is None);
                assert(arpa_lines(ls) is None);
                return Err(LMError::LoadError);
            }
            k = k + 1;
        }
        assert(total == Some((pos as int, chars_view(words@), grams_view(grams@))));
        pos = skip_blank_lines(&lines, pos);
        let end = vec!['\\', 'e', 'n', 'd', '\\'];
        assert(end@ =~= end_word());
        if pos >= lines.len() || !is_line(&lines[pos], &end) {
            proof {
                if pos < lines@.len() {
                    assert(ls[pos as int] == line_view(lines@[pos as int]@));
                }
            }
            assert(arpa_lines(ls) is None);
            return Err(LMError::LoadError);
        }
        assert(ls[pos as int] == line_view(lines@[pos as int]@));
        LanguageModel::from_char_image(order, words, grams)
    }
}

} // verus!
